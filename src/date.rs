//! Calendar dates as day numbers of the proleptic Gregorian calendar.
use vstd::prelude::*;

verus! {

/// The first year that a calendar date may have.
pub const MIN_YEAR: i32 = -262143;

/// The last year that a calendar date may have.
pub const MAX_YEAR: i32 = 262142;

/// Whether `y` is a leap year of the proleptic Gregorian calendar.
pub open spec fn is_leap_year(y: int) -> bool {
    y % 4 == 0 && (y % 100 != 0 || y % 400 == 0)
}

/// Number of days of month `m` (1 to 12) in year `y`.
pub open spec fn days_in_month(y: int, m: int) -> int {
    if m == 2 {
        if is_leap_year(y) { 29 } else { 28 }
    } else if m == 4 || m == 6 || m == 9 || m == 11 {
        30
    } else {
        31
    }
}

/// Whether `(y, m, d)` names a day of the calendar in the supported year range.
pub open spec fn is_valid_ymd(y: int, m: int, d: int) -> bool {
    &&& MIN_YEAR <= y <= MAX_YEAR
    &&& 1 <= m <= 12
    &&& 1 <= d <= days_in_month(y, m)
}

/// Days of year `y` that come before the first day of month `m`.
pub open spec fn days_before_month(y: int, m: int) -> int {
    let common: int = if m == 1 { 0 }
        else if m == 2 { 31 }
        else if m == 3 { 59 }
        else if m == 4 { 90 }
        else if m == 5 { 120 }
        else if m == 6 { 151 }
        else if m == 7 { 181 }
        else if m == 8 { 212 }
        else if m == 9 { 243 }
        else if m == 10 { 273 }
        else if m == 11 { 304 }
        else { 334 };
    if m > 2 && is_leap_year(y) { common + 1 } else { common }
}

/// The day number of `(y, m, d)`, counting January 1 of year 1 as day 1.
pub open spec fn day_number_of(y: int, m: int, d: int) -> int {
    let p = y - 1;
    365 * p + p / 4 - p / 100 + p / 400 + days_before_month(y, m) + d
}

/// Relies on chrono's `NaiveDate::from_ymd_opt`, which accepts exactly the
/// existing days of its year range, and on `Datelike::num_days_from_ce`, which
/// counts days with January 1 of year 1 as day 1.
#[verifier::external_body]
fn chrono_day_number(y: i32, m: u32, d: u32) -> (r: Option<i32>)
    ensures
        r is Some <==> is_valid_ymd(y as int, m as int, d as int),
        r is Some ==> r->Some_0 == day_number_of(y as int, m as int, d as int),
{
    match chrono::NaiveDate::from_ymd_opt(y, m, d) {
        Some(date) => Some(chrono::Datelike::num_days_from_ce(&date)),
        None => None,
    }
}

/// A calendar date, held as its day number (January 1 of year 1 is day 1).
#[derive(Clone, Copy, Debug, PartialEq, Eq, Structural)]
pub struct Date {
    pub day: i32,
}

impl Date {
    /// The date with year `y`, month `m` and day `d`, or `None` where no such
    /// day exists in the supported range.
    pub fn from_ymd(y: i32, m: u32, d: u32) -> (r: Option<Date>)
        ensures
            r is Some <==> is_valid_ymd(y as int, m as int, d as int),
            r is Some ==> r->Some_0.day == day_number_of(y as int, m as int, d as int),
    {
        match chrono_day_number(y, m, d) {
            Some(n) => Some(Date { day: n }),
            None => None,
        }
    }

    /// The date whose day number is `day`.
    pub fn from_day_number(day: i32) -> (r: Date)
        ensures
            r.day == day,
    {
        Date { day }
    }

    /// The day number of this date.
    pub fn day_number(&self) -> (r: i32)
        ensures
            r == self.day,
    {
        self.day
    }
}

} // verus!
