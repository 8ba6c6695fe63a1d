//! The system clock and the calendar formats the tracker reads.
use vstd::prelude::*;

verus! {

/// A reading of the system clock that `chrono::Utc::now` can give: no
/// earlier than the Unix epoch (before it `Utc::now` panics) and no later
/// than the last day `chrono` represents.
pub open spec fn clock_reading(now: int) -> bool {
    0 <= now <= DAY_BOUND
}

/// Seconds since the Unix epoch, by the system clock
/// (`chrono::Utc::now().timestamp()`). Which second depends on when the
/// call is made; `Utc::now` returns only for a clock at or after the epoch
/// and within the years `chrono` represents.
#[verifier::external_body]
pub(crate) fn now_timestamp() -> (r: i64)
    ensures
        clock_reading(r as int),
{
    chrono::Utc::now().timestamp()
}

/// The instant, in seconds since the Unix epoch, that an RFC 3339 date-time
/// such as `2026-03-30T17:35:43.91Z` denotes, as `chrono` reads it;
/// `None` where `chrono` rejects the text.
pub uninterp spec fn rfc3339_timestamp(s: Seq<char>) -> Option<i64>;

/// Largest distance from the epoch of an instant written with a four-digit
/// year and an offset of less than a day.
pub const RFC3339_BOUND: i64 = 300_000_000_000;

/// Reads an RFC 3339 date-time (`chrono::DateTime::parse_from_rfc3339`,
/// then `timestamp`). The result is the named value of the text; `chrono`
/// reads a four-digit year and an offset of less than a day, so an instant
/// it accepts lies within `RFC3339_BOUND` seconds of the epoch.
#[verifier::external_body]
pub(crate) fn parse_rfc3339(s: &str) -> (r: Option<i64>)
    ensures
        r == rfc3339_timestamp(s@),
        r matches Some(t) ==> -RFC3339_BOUND <= t <= RFC3339_BOUND,
{
    match chrono::DateTime::parse_from_rfc3339(s) {
        Ok(dt) => Some(dt.timestamp()),
        Err(_) => None,
    }
}

/// The first second, in seconds since the Unix epoch, of the UTC day that
/// a date written `%Y-%m-%d` (such as `2026-03-30`) names, as `chrono`
/// reads it; `None` where `chrono` rejects the text.
pub uninterp spec fn iso_day_start(s: Seq<char>) -> Option<i64>;

/// Largest distance from the epoch of the start of a day that `chrono`
/// can represent (years -262144 to 262143).
pub const DAY_BOUND: i64 = 9_000_000_000_000;

/// The second `hour:min:sec` UTC of the date written `%Y-%m-%d`
/// (`NaiveDate::parse_from_str`, `and_hms_opt`, `and_utc`, `timestamp`).
/// The time of day is added to the named start of the day; a valid time
/// makes `and_hms_opt` succeed.
#[verifier::external_body]
pub(crate) fn day_timestamp(s: &str, hour: u32, min: u32, sec: u32) -> (r: Option<i64>)
    requires
        hour < 24,
        min < 60,
        sec < 60,
    ensures
        match iso_day_start(s@) {
            Some(t) => -DAY_BOUND <= t <= DAY_BOUND && r == Some((t + hour * 3600 + min * 60 + sec) as i64),
            None => r is None,
        },
{
    match chrono::NaiveDate::parse_from_str(s, "%Y-%m-%d") {
        Ok(d) => Some(d.and_hms_opt(hour, min, sec).unwrap().and_utc().timestamp()),
        Err(_) => None,
    }
}

} // verus!
