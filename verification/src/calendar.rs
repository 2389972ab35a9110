//! Calendar dates of points in time.

use crate::selection::Timestamp;
use vstd::prelude::*;

verus! {

/// Seconds by which China Standard Time is ahead of UTC.
pub const CST_OFFSET_SECS: i32 = 28800;

/// The calendar date, as year, month and day with hyphens between them, of a
/// point in time in the zone that is the given seconds ahead of UTC; none where
/// point or zone are out of range.
pub uninterp spec fn date_text(secs: i64, nanos: u32, offset_secs: i32) -> Option<Seq<char>>;

/// The characters of a string that may be missing.
pub open spec fn view_of(s: Option<String>) -> Option<Seq<char>> {
    match s {
        Some(t) => Some(t@),
        None => None,
    }
}

/// The first second that has a date, that of 1 January 262144 BCE.
pub const FIRST_SEC: i64 = -8_334_601_228_800;

/// The last second that has a date, that of 31 December 262142.
pub const LAST_SEC: i64 = 8_210_266_876_799;

/// Whether a point in time has a date in the given zone. The nanoseconds of a
/// leap second, which only the last second of a minute has, reach up to two
/// seconds.
pub open spec fn datable(secs: i64, nanos: u32, offset_secs: i32) -> bool {
    &&& FIRST_SEC <= secs <= LAST_SEC
    &&& nanos < 1_000_000_000 || (nanos < 2_000_000_000 && secs as int % 60 == 59)
    &&& -86400 < offset_secs < 86400
}

/// Calls `format` with `%Y-%m-%d` on a `chrono::DateTime` in a fixed offset: the
/// date is a function of point and offset alone. `DateTime::from_timestamp` and
/// `FixedOffset::east_opt` turn the numbers into chrono's values, and there is no
/// date where one of them has none, which is outside of `datable`.
#[verifier::external_body]
fn format_date(secs: i64, nanos: u32, offset_secs: i32) -> (r: Option<String>)
    ensures
        view_of(r) == date_text(secs, nanos, offset_secs),
        r is Some <==> datable(secs, nanos, offset_secs),
{
    let at = chrono::DateTime::from_timestamp(secs, nanos)?;
    let zone = chrono::FixedOffset::east_opt(offset_secs)?;
    Some(at.with_timezone(&zone).format("%Y-%m-%d").to_string())
}

/// The date of a point in time in China Standard Time.
pub open spec fn cst_date_of(at: Timestamp) -> Option<Seq<char>> {
    date_text(at.secs, at.nanos, CST_OFFSET_SECS)
}

/// The date of a point in time in China Standard Time.
pub fn cst_date(at: Timestamp) -> (r: Option<String>)
    ensures
        view_of(r) == cst_date_of(at),
        r is Some <==> datable(at.secs, at.nanos, CST_OFFSET_SECS),
{
    format_date(at.secs, at.nanos, CST_OFFSET_SECS)
}

} // verus!
