//! Plain time-of-day and calendar-date values carried by parsed messages.
//!
//! The log encodes a timestamp as `[HH:MM:SS]` at the head of a line and a
//! date as `YYYY/MM/DD` inside a separator line; both are held here as plain
//! integer fields with explicit validity predicates.

use vstd::prelude::*;

verus! {

/// Time of day from a line's leading `[HH:MM:SS]` marker.
#[derive(Clone, Copy, Debug, PartialEq, Eq, Structural)]
pub struct Timestamp {
    pub hour: u8,
    pub minute: u8,
    pub second: u8,
}

impl Timestamp {
    /// A time of day that a wall clock can show.
    pub open spec fn valid(self) -> bool {
        self.hour < 24 && self.minute < 60 && self.second < 60
    }
}

/// Calendar date from a `===== YYYY/MM/DD =====` separator line.
#[derive(Clone, Copy, Debug, PartialEq, Eq, Structural)]
pub struct LogDate {
    pub year: u16,
    pub month: u8,
    pub day: u8,
}

/// Gregorian leap-year rule.
pub open spec fn is_leap_year(y: int) -> bool {
    y % 4 == 0 && (y % 100 != 0 || y % 400 == 0)
}

/// Number of days in month `m` of year `y` (for `1 <= m <= 12`).
pub open spec fn days_in_month(y: int, m: int) -> int {
    if m == 2 {
        if is_leap_year(y) {
            29
        } else {
            28
        }
    } else if m == 4 || m == 6 || m == 9 || m == 11 {
        30
    } else {
        31
    }
}

impl LogDate {
    /// A date that exists in the proleptic Gregorian calendar, within the
    /// four-digit years the log grammar can express.
    pub open spec fn valid(self) -> bool {
        &&& self.year <= 9999
        &&& 1 <= self.month <= 12
        &&& 1 <= self.day <= days_in_month(self.year as int, self.month as int)
    }
}

/// Executable check of `LogDate::valid`.
pub fn date_is_valid(year: u16, month: u8, day: u8) -> (r: bool)
    ensures
        r == (LogDate { year, month, day }).valid(),
{
    if year > 9999 || month < 1 || month > 12 || day < 1 {
        return false;
    }
    let leap = year % 4 == 0 && (year % 100 != 0 || year % 400 == 0);
    let max_day: u8 = if month == 2 {
        if leap {
            29
        } else {
            28
        }
    } else if month == 4 || month == 6 || month == 9 || month == 11 {
        30
    } else {
        31
    };
    day <= max_day
}

} // verus!
