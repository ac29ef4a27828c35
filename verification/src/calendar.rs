//! Calendar dates, and the instant at which a day begins.

use vstd::prelude::*;
use chrono::{DateTime, NaiveDate, NaiveDateTime, Utc};

verus! {

/// A day named by year, month and day of the month, in the proleptic
/// Gregorian calendar. Not every triple names a day.
#[derive(Clone, Copy, Debug, PartialEq, Eq, Structural)]
pub struct CalendarDate {
    pub year: i32,
    pub month: u32,
    pub day: u32,
}

/// The instant at which the given day begins in UTC, in seconds since
/// 1970-01-01 00:00:00 UTC, as chrono computes it; `None` where chrono has no
/// such day.
pub uninterp spec fn utc_midnight(year: i32, month: u32, day: u32) -> Option<i64>;

/// Asks chrono for the start of a day: `NaiveDate::from_ymd_opt` makes the
/// date or refuses the triple, `NaiveDateTime::from` puts it at midnight,
/// `DateTime::<Utc>::from_naive_utc_and_offset` reads that as UTC, and
/// `DateTime::timestamp` counts the seconds since the epoch. Nothing of this
/// is proved; the result is only given its name.
#[verifier::external_body]
fn midnight_of(year: i32, month: u32, day: u32) -> (start: Option<i64>)
    ensures
        start == utc_midnight(year, month, day),
{
    match NaiveDate::from_ymd_opt(year, month, day) {
        Some(date) => Some(
            DateTime::<Utc>::from_naive_utc_and_offset(NaiveDateTime::from(date), Utc).timestamp(),
        ),
        None => None,
    }
}

impl CalendarDate {
    /// The start of this day in UTC.
    pub open spec fn spec_midnight(self) -> Option<i64> {
        utc_midnight(self.year, self.month, self.day)
    }

    /// The instant at which this day begins in UTC, or `None` where the
    /// calendar has no such day.
    pub fn midnight(&self) -> (start: Option<i64>)
        ensures
            start == self.spec_midnight(),
    {
        midnight_of(self.year, self.month, self.day)
    }
}

} // verus!
