//! Plain-value calendar types: a civil date and a UTC timestamp, together with
//! the trusted text-to-value conversions done by chrono.

use vstd::prelude::*;

verus! {

use vstd::arithmetic::div_mod::lemma_div_nonincreasing;

/// Every timestamp chrono can represent lies within this many seconds of the
/// Unix epoch: its years span about +/-262143, and
/// 264114 years * 366 days * 86400 seconds is below 10^13.
pub const MAX_EPOCH_SECONDS: i64 = 10_000_000_000_000;

/// A civil calendar date.
#[derive(Clone, Copy, Debug, PartialEq, Eq, Structural)]
pub struct Date {
    pub year: i32,
    pub month: u8,
    pub day: u8,
}

/// A UTC timestamp broken into civil fields, with its distance from the Unix
/// epoch in whole seconds.
#[derive(Clone, Copy, Debug, PartialEq, Eq, Structural)]
pub struct Timestamp {
    pub year: i32,
    pub month: u8,
    pub day: u8,
    pub hour: u8,
    pub minute: u8,
    pub second: u8,
    pub epoch_seconds: i64,
}

/// Field ranges that hold of every date chrono hands back.
pub open spec fn date_wf(d: Date) -> bool {
    &&& 1 <= d.month <= 12
    &&& 1 <= d.day <= 31
    &&& -262143 <= d.year <= 262143
}

/// Field ranges that hold of every timestamp chrono hands back.
pub open spec fn ts_wf(t: Timestamp) -> bool {
    &&& 1 <= t.month <= 12
    &&& 1 <= t.day <= 31
    &&& t.hour <= 23
    &&& t.minute <= 59
    &&& t.second <= 59
    &&& -262143 <= t.year <= 262143
    &&& -MAX_EPOCH_SECONDS <= t.epoch_seconds <= MAX_EPOCH_SECONDS
}

/// Dates ordered by year, then month, then day.
pub open spec fn date_le(a: Date, b: Date) -> bool {
    if a.year != b.year {
        a.year < b.year
    } else if a.month != b.month {
        a.month < b.month
    } else {
        a.day <= b.day
    }
}

/// The calendar date of a timestamp.
pub open spec fn ts_date(t: Timestamp) -> Date {
    Date { year: t.year, month: t.month, day: t.day }
}

impl Date {
    /// Whether `self` falls on or before `other` in calendar order.
    pub fn on_or_before(&self, other: &Date) -> (r: bool)
        ensures
            r == date_le(*self, *other),
    {
        if self.year != other.year {
            self.year < other.year
        } else if self.month != other.month {
            self.month < other.month
        } else {
            self.day <= other.day
        }
    }
}

impl Timestamp {
    /// The calendar date this timestamp falls on.
    pub fn date(&self) -> (d: Date)
        ensures
            d == ts_date(*self),
    {
        Date { year: self.year, month: self.month, day: self.day }
    }
}

/// The date denoted by a text in `YYYY-MM-DD` form, if any. Left
/// uninterpreted: chrono decides; it depends on the text alone.
pub uninterp spec fn parsed_date(s: Seq<char>) -> Option<Date>;

/// The timestamp denoted by a text in `YYYYMMDDTHHMMSSZ` form, if any. Left
/// uninterpreted: chrono decides; it depends on the text alone.
pub uninterp spec fn parsed_timestamp(s: Seq<char>) -> Option<Timestamp>;

/// Relies on `chrono::NaiveDate::parse_from_str` with the `%Y-%m-%d` format:
/// the outcome is a function of the text alone, and every date it yields is a
/// valid civil date within chrono's supported year range.
#[verifier::external_body]
pub(crate) fn parse_date(s: &str) -> (r: Option<Date>)
    ensures
        r == parsed_date(s@),
        r matches Some(d) ==> date_wf(d),
{
    match chrono::NaiveDate::parse_from_str(s, "%Y-%m-%d") {
        Ok(d) => Some(Date {
            year: chrono::Datelike::year(&d),
            month: chrono::Datelike::month(&d) as u8,
            day: chrono::Datelike::day(&d) as u8,
        }),
        Err(_) => None,
    }
}

/// Relies on `chrono::NaiveDateTime::parse_from_str` with the `%Y%m%dT%H%M%SZ`
/// format: the outcome is a function of the text alone, and every timestamp it
/// yields is a valid civil date-time within chrono's supported year range, so
/// its epoch distance stays below `MAX_EPOCH_SECONDS`.
#[verifier::external_body]
pub(crate) fn parse_timestamp(s: &str) -> (r: Option<Timestamp>)
    ensures
        r == parsed_timestamp(s@),
        r matches Some(t) ==> ts_wf(t),
{
    match chrono::NaiveDateTime::parse_from_str(s, "%Y%m%dT%H%M%SZ") {
        Ok(dt) => Some(Timestamp {
            year: chrono::Datelike::year(&dt),
            month: chrono::Datelike::month(&dt) as u8,
            day: chrono::Datelike::day(&dt) as u8,
            hour: chrono::Timelike::hour(&dt) as u8,
            minute: chrono::Timelike::minute(&dt) as u8,
            second: chrono::Timelike::second(&dt) as u8,
            epoch_seconds: dt.and_utc().timestamp(),
        }),
        Err(_) => None,
    }
}

/// Division rounded toward zero, as the duration reports use it.
pub open spec fn div_trunc(a: int, b: int) -> int
    recommends
        b >= 1,
{
    if a >= 0 {
        a / b
    } else {
        -((-a) / b)
    }
}

/// Truncating division on 64-bit values.
pub(crate) fn div_trunc_i64(a: i64, b: i64) -> (r: i64)
    requires
        1 <= b,
    ensures
        r == div_trunc(a as int, b as int),
{
    match a.checked_div(b) {
        Some(q) => q,
        None => {
            proof {
                lemma_div_nonincreasing(a as int, b as int);
                lemma_div_nonincreasing(-(a as int), b as int);
            }
            0
        },
    }
}

/// Truncating division on 128-bit values.
pub(crate) fn div_trunc_i128(a: i128, b: i128) -> (r: i128)
    requires
        1 <= b,
    ensures
        r == div_trunc(a as int, b as int),
{
    match a.checked_div(b) {
        Some(q) => q,
        None => {
            proof {
                lemma_div_nonincreasing(a as int, b as int);
                lemma_div_nonincreasing(-(a as int), b as int);
            }
            0
        },
    }
}

} // verus!
