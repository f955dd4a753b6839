//! The current date.
use vstd::prelude::*;

verus! {

/// A day of the calendar.
#[derive(Debug, Clone, Copy, PartialEq, Eq)]
pub struct Date {
    pub year: i32,
    pub month: u32,
    pub day: u32,
}

/// A year has a 29th of February: every fourth year has, but of the years that end a
/// century only every fourth.
pub open spec fn is_leap_year(year: int) -> bool {
    year % 4 == 0 && (year % 100 != 0 || year % 400 == 0)
}

/// The number of days of a month.
pub open spec fn days_in_month(year: int, month: int) -> int
    recommends
        1 <= month <= 12,
{
    if month == 2 {
        if is_leap_year(year) {
            29
        } else {
            28
        }
    } else if month == 4 || month == 6 || month == 9 || month == 11 {
        30
    } else {
        31
    }
}

impl Date {
    /// There is such a day: the month is one of twelve, and the day one of that month.
    pub open spec fn in_calendar(self) -> bool {
        &&& 1 <= self.month <= 12
        &&& 1 <= self.day <= days_in_month(self.year as int, self.month as int)
    }
}

/// Calls `chrono::Local::now`, and `year`, `month` and `day` of `chrono::Datelike`
/// on what it returns.
///
/// Trusted: what they return is a day of the Gregorian calendar, extended to all
/// years; months and days count from 1. Which day it is depends on the clock and the
/// time zone of the machine, and is left open.
///
/// `Local::now` takes no argument, but panics in some states of the machine: where
/// the clock is set to a time before 1970 or beyond the years that `chrono` counts,
/// and where the local time zone cannot be looked up.
#[verifier::external_body]
pub(crate) fn local_today() -> (today: Date)
    ensures
        today.in_calendar(),
{
    let now = chrono::Local::now();
    Date {
        year: chrono::Datelike::year(&now),
        month: chrono::Datelike::month(&now),
        day: chrono::Datelike::day(&now),
    }
}

} // verus!
