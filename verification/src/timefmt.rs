//! Trusted boundary to the time crate.
//!
//! Timestamps are carried through the engine as plain unix seconds; the time
//! crate is consulted only to render them (RFC 3339 for the unlock response
//! and the export) and to decompose them into the calendar year and month
//! that bucket the attachment directories.

use vstd::prelude::*;

verus! {

/// The largest timestamp the engine accepts: 9999-12-31T23:59:59Z in unix
/// seconds, the last second the time crate can both represent and render.
pub const MAX_TIMESTAMP: u64 = 253402300799;

/// The RFC 3339 rendering of a unix-second timestamp, at offset UTC.
pub uninterp spec fn rfc3339_of(ts: u64) -> Seq<char>;

/// The (year, month) pair of a unix-second timestamp in the proleptic
/// Gregorian calendar, at offset UTC.
pub uninterp spec fn year_month_of(ts: u64) -> (i32, u8);

/// Relies on time's `OffsetDateTime::from_unix_timestamp` and its RFC 3339
/// formatter: both succeed for every timestamp between the epoch and the end
/// of year 9999, and the rendering is a function of the timestamp alone.
#[verifier::external_body]
pub(crate) fn rfc3339_utc(ts: u64) -> (r: Option<String>)
    requires
        ts <= MAX_TIMESTAMP,
    ensures
        r is Some,
        r matches Some(s) ==> s@ == rfc3339_of(ts),
{
    let odt = time::OffsetDateTime::from_unix_timestamp(ts as i64).ok()?;
    odt.format(&time::format_description::well_known::Rfc3339).ok()
}

/// Relies on time's `OffsetDateTime::from_unix_timestamp`, `year` and `month`:
/// the decomposition is a function of the timestamp alone, the year of a
/// representable non-negative timestamp lies in 1970..=9999, and the month
/// in 1..=12.
#[verifier::external_body]
pub(crate) fn utc_year_month(ts: u64) -> (r: (i32, u8))
    requires
        ts <= MAX_TIMESTAMP,
    ensures
        r == year_month_of(ts),
        1970 <= r.0 <= 9999,
        1 <= r.1 <= 12,
{
    match time::OffsetDateTime::from_unix_timestamp(ts as i64) {
        Ok(odt) => (odt.year(), u8::from(odt.month())),
        Err(_) => (1970, 1),
    }
}

} // verus!
