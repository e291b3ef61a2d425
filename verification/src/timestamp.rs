//! Seconds since the Unix epoch from a calendar date and a time of day.
//!
//! The days are counted by the Gregorian calendar: whole years of 365 days
//! since 1970, one day for each leap year that began before the given year,
//! the days of the months before the given month, the leap day of the given
//! year once February is over, and the days before the given day. The laws
//! at the end of the specification say the same year by year and month by
//! month.

use vstd::prelude::*;

verus! {

/// A date and a time of day, each component known or not yet supplied.
#[derive(Debug, Clone)]
pub struct TimestampCircuit {
    pub year: Option<u32>,
    pub month: Option<u32>,
    pub day: Option<u32>,
    pub hour: Option<u32>,
    pub minute: Option<u32>,
    pub second: Option<u32>,
}

/// The number of leap years from 1970 up to, not including, `year`.
pub open spec fn leap_years_before(year: int) -> int {
    (year - 1969) / 4 - (year - 1901) / 100 + (year - 1601) / 400
}

/// The number of days in a year of 365 days before the first day of the
/// given month, January being month 1.
pub open spec fn days_till_previous_month(month: int) -> int {
    if month == 1 {
        0
    } else if month == 2 {
        31
    } else if month == 3 {
        59
    } else if month == 4 {
        90
    } else if month == 5 {
        120
    } else if month == 6 {
        151
    } else if month == 7 {
        181
    } else if month == 8 {
        212
    } else if month == 9 {
        243
    } else if month == 10 {
        273
    } else if month == 11 {
        304
    } else {
        334
    }
}

/// Whether `year` has a 29 February: every fourth year, but of the years
/// that end a century only every fourth.
pub open spec fn is_leap_year(year: int) -> bool {
    year % 4 == 0 && (year % 100 != 0 || year % 400 == 0)
}

/// The leap day of `year` where it lies before the first day of `month`.
pub open spec fn leap_day_passed(year: int, month: int) -> int {
    if month >= 3 && is_leap_year(year) {
        1
    } else {
        0
    }
}

/// The number of days of the given month of `year`.
pub open spec fn days_in_month(year: int, month: int) -> int {
    if month == 2 {
        if is_leap_year(year) {
            29
        } else {
            28
        }
    } else if month == 4 || month == 6 || month == 9 || month == 11 {
        30
    } else {
        31
    }
}

/// The days from 1 January 1970 to the given date.
pub open spec fn days_passed(year: int, month: int, day: int) -> int {
    (year - 1970) * 365 + leap_years_before(year) + days_till_previous_month(month)
        + leap_day_passed(year, month) + (day - 1)
}

/// The seconds from the start of 1 January 1970 to the given moment.
pub open spec fn epoch_seconds(
    year: int,
    month: int,
    day: int,
    hour: int,
    minute: int,
    second: int,
) -> int {
    days_passed(year, month, day) * 86400 + hour * 3600 + minute * 60 + second
}

/// The count begins at zero on 1 January 1970 and grows by one with each
/// day of a month.
pub proof fn lemma_days_passed_by_day(year: int, month: int, day: int)
    ensures
        days_passed(1970, 1, 1) == 0,
        days_passed(year, month, day + 1) == days_passed(year, month, day) + 1,
{
}

/// From the first day of a month to the first day of the next, the count
/// grows by the length of the month; December leads into the next year.
pub proof fn lemma_days_passed_by_month(year: int, month: int)
    requires
        year >= 1970,
        1 <= month <= 12,
    ensures
        month < 12 ==> days_passed(year, month + 1, 1) == days_passed(year, month, 1)
            + days_in_month(year, month),
        month == 12 ==> days_passed(year + 1, 1, 1) == days_passed(year, 12, 1) + days_in_month(
            year,
            12,
        ),
{
}

/// From one new year's day to the next, the count grows by the length of
/// the year.
pub proof fn lemma_days_passed_by_year(year: int)
    requires
        year >= 1970,
    ensures
        days_passed(year + 1, 1, 1) == days_passed(year, 1, 1) + (if is_leap_year(year) {
            366int
        } else {
            365int
        }),
{
}

fn leap_years_before_exec(year: u64) -> (count: u64)
    requires
        1970 <= year <= u32::MAX,
    ensures
        count == leap_years_before(year as int),
{
    (year - 1969) / 4 - (year - 1901) / 100 + (year - 1601) / 400
}

fn days_till_previous_month_exec(month: u64) -> (days: u64)
    requires
        1 <= month <= 12,
    ensures
        days == days_till_previous_month(month as int),
{
    let table: [u64; 12] = [0, 31, 59, 90, 120, 151, 181, 212, 243, 273, 304, 334];
    table[(month - 1) as usize]
}

impl Default for TimestampCircuit {
    /// A date and a time of which nothing is known yet.
    fn default() -> (circuit: Self)
        ensures
            circuit.year is None,
            circuit.month is None,
            circuit.day is None,
            circuit.hour is None,
            circuit.minute is None,
            circuit.second is None,
    {
        Self { year: None, month: None, day: None, hour: None, minute: None, second: None }
    }
}

impl TimestampCircuit {
    /// Whether every component is known and the date can be counted from
    /// the epoch: a year from 1970 on, a month from 1 to 12, a day from 1 on.
    pub open spec fn is_complete(&self) -> bool {
        &&& self.year matches Some(year) && year >= 1970
        &&& self.month matches Some(month) && 1 <= month <= 12
        &&& self.day matches Some(day) && day >= 1
        &&& self.hour is Some
        &&& self.minute is Some
        &&& self.second is Some
    }

    /// The seconds since the epoch of a complete date and time.
    pub open spec fn timestamp_spec(&self) -> int
        recommends
            self.is_complete(),
    {
        epoch_seconds(
            self.year->0 as int,
            self.month->0 as int,
            self.day->0 as int,
            self.hour->0 as int,
            self.minute->0 as int,
            self.second->0 as int,
        )
    }

    /// A date and a time of day from their six components.
    pub fn new(
        year: Option<u32>,
        month: Option<u32>,
        day: Option<u32>,
        hour: Option<u32>,
        minute: Option<u32>,
        second: Option<u32>,
    ) -> (circuit: Self)
        ensures
            circuit.year == year,
            circuit.month == month,
            circuit.day == day,
            circuit.hour == hour,
            circuit.minute == minute,
            circuit.second == second,
    {
        Self { year, month, day, hour, minute, second }
    }

    /// Decides `is_complete`.
    pub fn has_witnesses(&self) -> (complete: bool)
        ensures
            complete == self.is_complete(),
    {
        match (self.year, self.month, self.day, self.hour, self.minute, self.second) {
            (Some(year), Some(month), Some(day), Some(_), Some(_), Some(_)) => {
                year >= 1970 && 1 <= month && month <= 12 && day >= 1
            },
            _ => false,
        }
    }

    /// The seconds since the epoch of a complete date and time.
    pub fn timestamp(&self) -> (seconds: u64)
        requires
            self.is_complete(),
        ensures
            seconds == self.timestamp_spec(),
    {
        let year_val: u64 = self.year.unwrap() as u64;
        let month_val: u64 = self.month.unwrap() as u64;
        let day_val: u64 = self.day.unwrap() as u64;
        let hour_val: u64 = self.hour.unwrap() as u64;
        let minute_val: u64 = self.minute.unwrap() as u64;
        let second_val: u64 = self.second.unwrap() as u64;
        let leap_year = year_val % 4 == 0 && (year_val % 100 != 0 || year_val % 400 == 0);
        let leap_day: u64 = if month_val >= 3 && leap_year {
            1
        } else {
            0
        };
        let days: u64 = (year_val - 1970) * 365 + leap_years_before_exec(year_val)
            + days_till_previous_month_exec(month_val) + leap_day + (day_val - 1);
        days * 86400 + hour_val * 3600 + minute_val * 60 + second_val
    }
}

} // verus!
