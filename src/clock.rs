//! Timestamps: microseconds since the Unix epoch, written as RFC 3339 text in
//! UTC with six fractional digits (`2024-02-10T12:34:56.123456Z`).
use vstd::prelude::*;
use chrono::{DateTime, SecondsFormat, Utc};

verus! {

/// The first instant of the year 10000, in microseconds since the epoch.
pub const END_OF_YEAR_9999_MICROS: i64 = 253402300800000000;

/// The RFC 3339 text of the instant `micros` microseconds after the epoch.
pub uninterp spec fn utc_text(micros: int) -> Seq<u8>;

/// Relies on chrono's `DateTime::<Utc>::from_timestamp_micros`, which has a
/// date for every instant within about 262,000 years of the common era, and on
/// `DateTime::to_rfc3339_opts` with microseconds and a `Z` suffix, whose text
/// depends on the instant alone. For the years 0 to 9999 that text is
/// `YYYY-MM-DDTHH:MM:SS.ffffffZ`: 27 bytes of digits, `-`, `:`, `T`, `.`
/// and `Z`, so no comma.
#[verifier::external_body]
fn rfc3339_micros(micros: i64) -> (r: Option<Vec<u8>>)
    ensures
        r matches Some(t) ==> t@ == utc_text(micros as int),
        0 <= micros < END_OF_YEAR_9999_MICROS ==> r is Some,
        0 <= micros < END_OF_YEAR_9999_MICROS ==> r.unwrap()@.len() == 27,
        0 <= micros < END_OF_YEAR_9999_MICROS ==> !r.unwrap()@.contains(44u8),
{
    match DateTime::<Utc>::from_timestamp_micros(micros) {
        Some(d) => Some(d.to_rfc3339_opts(SecondsFormat::Micros, true).into_bytes()),
        None => None,
    }
}

/// The text of the instant `micros` microseconds after the epoch; always
/// given, 27 bytes long and without a comma, for instants from the epoch to
/// the end of the year 9999.
pub fn parse_sys_time_as_string(micros: i64) -> (r: Option<Vec<u8>>)
    ensures
        r matches Some(t) ==> t@ == utc_text(micros as int),
        0 <= micros < END_OF_YEAR_9999_MICROS ==> r is Some,
        0 <= micros < END_OF_YEAR_9999_MICROS ==> r.unwrap()@.len() == 27,
        0 <= micros < END_OF_YEAR_9999_MICROS ==> !r.unwrap()@.contains(44u8),
{
    rfc3339_micros(micros)
}

} // verus!
