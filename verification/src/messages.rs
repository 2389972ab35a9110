//! The parts of a request: system texts, messages and tools.

use crate::json::Json;
use vstd::prelude::*;

verus! {

/// One system text.
#[derive(Debug)]
pub struct SystemMessage {
    pub text: String,
}

/// One message of the conversation.
#[derive(Debug)]
pub struct Message {
    pub role: String,
    pub content: Json,
}

/// A tool on offer to the model.
#[derive(Debug)]
pub struct Tool {
    pub name: String,
    pub description: String,
    pub input_schema: Json,
}

} // verus!
