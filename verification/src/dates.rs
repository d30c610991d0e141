//! Calendar dates as plain values: a year, month and day triple with its
//! ordering, read either from `YYYY-MM-DD` text or from a Unix timestamp.
//! Both readings are done by `chrono`; the comparisons and everything built
//! on them are verified here.

use vstd::prelude::*;

use chrono::Datelike;

verus! {

/// A calendar date: year, month (1 to 12) and day of month (1 to 31).
#[derive(Debug, Clone, Copy, PartialEq, Eq, Structural)]
pub struct Date {
    pub year: i32,
    pub month: u8,
    pub day: u8,
}

impl Date {
    /// Month and day lie within calendar ranges.
    pub open spec fn wf(&self) -> bool {
        1 <= self.month <= 12 && 1 <= self.day <= 31
    }

    /// `self` is on or before `other`: dates are ordered by year, then
    /// month, then day.
    pub open spec fn spec_le(self, other: Date) -> bool {
        ||| self.year < other.year
        ||| (self.year == other.year && self.month < other.month)
        ||| (self.year == other.year && self.month == other.month && self.day <= other.day)
    }

    /// Returns true if `self` is on or before `other`.
    pub fn le(&self, other: &Date) -> (r: bool)
        ensures
            r == self.spec_le(*other),
    {
        if self.year != other.year {
            self.year < other.year
        } else if self.month != other.month {
            self.month < other.month
        } else {
            self.day <= other.day
        }
    }
}

/// What a date written `YYYY-MM-DD` denotes: the calendar date `chrono`
/// reads out of the text, a function of the text alone.
pub uninterp spec fn date_parse_of(s: Seq<char>) -> Option<(i32, u8, u8)>;

/// Relies on `chrono::NaiveDate::parse_from_str` with the `%Y-%m-%d` format:
/// the parse depends on the text alone, and a date it accepts is a valid
/// calendar date, so its month and day lie within calendar ranges.
#[verifier::external_body]
pub(crate) fn parse_ymd(s: &Vec<char>) -> (r: Option<(i32, u8, u8)>)
    ensures
        r == date_parse_of(s@),
        r matches Some(d) ==> 1 <= d.1 <= 12 && 1 <= d.2 <= 31,
{
    let text: String = s.iter().collect();
    match chrono::NaiveDate::parse_from_str(&text, "%Y-%m-%d") {
        Ok(d) => Some((d.year(), d.month() as u8, d.day() as u8)),
        Err(_) => None,
    }
}

/// The UTC calendar date of a count of seconds since the Unix epoch, as a
/// (year, month, day) triple; a timestamp out of `chrono`'s range stands for
/// the epoch date itself.
pub uninterp spec fn civil_date_of(ts: i64) -> (i32, u8, u8);

/// Relies on `chrono::DateTime::from_timestamp` and `date_naive`: the UTC
/// calendar date of an epoch-second count is a function of that count alone
/// and is a valid calendar date; an out-of-range count falls back to
/// `chrono`'s default, the epoch date.
#[verifier::external_body]
pub(crate) fn timestamp_civil_date(ts: i64) -> (r: (i32, u8, u8))
    ensures
        r == civil_date_of(ts),
        1 <= r.1 <= 12 && 1 <= r.2 <= 31,
{
    let d = chrono::DateTime::from_timestamp(ts, 0).unwrap_or_default().date_naive();
    (d.year(), d.month() as u8, d.day() as u8)
}

/// The UTC calendar date of a timestamp, as a `Date`.
pub fn date_of_timestamp(ts: i64) -> (r: Date)
    ensures
        (r.year, r.month, r.day) == civil_date_of(ts),
        r.wf(),
{
    let (year, month, day) = timestamp_civil_date(ts);
    Date { year, month, day }
}

} // verus!
