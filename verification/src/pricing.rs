//! Prices and conversion rates by model name.

use crate::text;
use vstd::prelude::*;

verus! {

/// The lower-case form of a text, by Unicode's mapping.
pub uninterp spec fn lowercase(s: Seq<char>) -> Seq<char>;

/// `str::to_lowercase` of std: the lower-case form, a function of the text alone.
pub assume_specification[ str::to_lowercase ](s: &str) -> (r: String)
    ensures
        r@ == lowercase(s@),
;

/// Dollars for a million tokens.
#[derive(Debug, Clone, Copy, PartialEq, Eq, Structural)]
pub struct ModelPricing {
    pub input_per_mtok: u32,
    pub output_per_mtok: u32,
}

/// The prices of a model by its lower-case name.
pub open spec fn pricing_of(name: Seq<char>) -> ModelPricing {
    if text::has_part(name, "opus"@) {
        ModelPricing { input_per_mtok: 5, output_per_mtok: 25 }
    } else if text::has_part(name, "haiku"@) {
        ModelPricing { input_per_mtok: 1, output_per_mtok: 5 }
    } else {
        ModelPricing { input_per_mtok: 3, output_per_mtok: 15 }
    }
}

/// Credits for a dollar without any caching, in hundredths, by the lower-case
/// name of a model: measured for Opus 4.6, 4.7 and 4.8, the same for all others.
pub open spec fn k_ref_of(name: Seq<char>) -> u32 {
    if text::has_part(name, "opus"@) {
        if text::has_part(name, "4-8"@) || text::has_part(name, "4.8"@) {
            724
        } else if text::has_part(name, "4-7"@) || text::has_part(name, "4.7"@) {
            730
        } else if text::has_part(name, "4-6"@) || text::has_part(name, "4.6"@) {
            713
        } else {
            706
        }
    } else {
        706
    }
}

/// The prices of a model by its lower-case name.
pub fn pricing_by_lowercase(name: &str) -> (r: ModelPricing)
    ensures
        r == pricing_of(name@),
{
    if text::contains(name, "opus") {
        ModelPricing { input_per_mtok: 5, output_per_mtok: 25 }
    } else if text::contains(name, "haiku") {
        ModelPricing { input_per_mtok: 1, output_per_mtok: 5 }
    } else {
        ModelPricing { input_per_mtok: 3, output_per_mtok: 15 }
    }
}

/// Credits for a dollar, in hundredths, by the lower-case name of a model.
pub fn k_ref_by_lowercase(name: &str) -> (r: u32)
    ensures
        r == k_ref_of(name@),
{
    if text::contains(name, "opus") {
        if text::contains(name, "4-8") || text::contains(name, "4.8") {
            724
        } else if text::contains(name, "4-7") || text::contains(name, "4.7") {
            730
        } else if text::contains(name, "4-6") || text::contains(name, "4.6") {
            713
        } else {
            706
        }
    } else {
        706
    }
}

/// The prices of a model, in whatever case its name is written.
pub fn get_model_pricing(model: &str) -> (r: ModelPricing)
    ensures
        r == pricing_of(lowercase(model@)),
{
    let name = model.to_lowercase();
    pricing_by_lowercase(name.as_str())
}

/// Credits for a dollar, in hundredths, in whatever case the model's name is
/// written.
pub fn get_k_ref(model: &str) -> (r: u32)
    ensures
        r == k_ref_of(lowercase(model@)),
{
    let name = model.to_lowercase();
    k_ref_by_lowercase(name.as_str())
}

/// Prices by the family that the name holds: Opus before Haiku, and those of
/// Sonnet for every other name.
pub proof fn prices_by_family(name: Seq<char>)
    ensures
        ({
            let p = pricing_of(name);
            let opus = text::has_part(name, "opus"@);
            let haiku = text::has_part(name, "haiku"@);
            &&& opus ==> p.input_per_mtok == 5 && p.output_per_mtok == 25
            &&& haiku && !opus ==> p.input_per_mtok == 1 && p.output_per_mtok == 5
            &&& !opus && !haiku ==> p.input_per_mtok == 3 && p.output_per_mtok == 15
            &&& p.output_per_mtok == 5 * p.input_per_mtok
        }),
{
}

/// Credits for a dollar: 7.24 for Opus 4.8, 7.30 for Opus 4.7, 7.13 for Opus 4.6,
/// the newest of several versions first, and 7.06 for everything else.
pub proof fn credits_by_version(name: Seq<char>)
    ensures
        ({
            let k = k_ref_of(name);
            let opus = text::has_part(name, "opus"@);
            let eight = text::has_part(name, "4-8"@) || text::has_part(name, "4.8"@);
            let seven = text::has_part(name, "4-7"@) || text::has_part(name, "4.7"@);
            let six = text::has_part(name, "4-6"@) || text::has_part(name, "4.6"@);
            &&& k == 724 <==> opus && eight
            &&& k == 730 <==> opus && seven && !eight
            &&& k == 713 <==> opus && six && !seven && !eight
            &&& k == 706 <==> !opus || (!six && !seven && !eight)
        }),
{
}

} // verus!
