//! Token estimates, prompt-prefix fingerprints and usage accounting for a
//! language-model proxy.

pub mod text;
pub mod json;
pub mod digest;
pub mod ratio;
pub mod calendar;
pub mod messages;
pub mod token;
pub mod remote;
pub mod canonical;
pub mod profile;
pub mod fingerprint;
pub mod fingerprint_laws;
pub mod pricing;
pub mod selection;
pub mod usage;
pub mod usage_laws;
pub mod summary_laws;
