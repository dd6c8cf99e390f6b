//! Calendar dates as plain values: validity, a proleptic Gregorian day index,
//! completion delays, and parsing of `YYYY-MM-DD` text.
//!
//! A date is a (year, month, day) triple with years `0..=9999`.  The day
//! index counts days from the start of year 0, so a difference of two day
//! indices is the number of calendar days between the dates.

use vstd::prelude::*;
use vstd::string::StringSliceAdditionalSpecFns;

verus! {

/// Largest day index of any valid date (9999-12-31).
pub const DAY_INDEX_MAX: u32 = 3652424;

/// A calendar date, valid when `wf()` holds.
#[derive(Clone, Copy, PartialEq, Eq, Structural, Debug)]
pub struct Date {
    pub year: u32,
    pub month: u32,
    pub day: u32,
}

pub open spec fn is_leap_year(y: int) -> bool {
    y % 4 == 0 && (y % 100 != 0 || y % 400 == 0)
}

pub open spec fn days_in_month(y: int, m: int) -> int {
    if m == 2 {
        if is_leap_year(y) {
            29
        } else {
            28
        }
    } else if m == 4 || m == 6 || m == 9 || m == 11 {
        30
    } else {
        31
    }
}

/// Days in the months of year `y` that precede month `m`.
pub open spec fn days_before_month(y: int, m: int) -> int
    recommends
        1 <= m <= 12,
{
    let base: int = if m == 1 {
        0
    } else if m == 2 {
        31
    } else if m == 3 {
        59
    } else if m == 4 {
        90
    } else if m == 5 {
        120
    } else if m == 6 {
        151
    } else if m == 7 {
        181
    } else if m == 8 {
        212
    } else if m == 9 {
        243
    } else if m == 10 {
        273
    } else if m == 11 {
        304
    } else {
        334
    };
    let leap_adj: int = if m > 2 && is_leap_year(y) {
        1
    } else {
        0
    };
    base + leap_adj
}

/// Leap years in `0..y` (year 0 itself is a leap year).
pub open spec fn leap_years_before(y: int) -> int
    recommends
        y >= 0,
{
    if y == 0 {
        0
    } else {
        (y - 1) / 4 - (y - 1) / 100 + (y - 1) / 400 + 1
    }
}

/// Days from 0000-01-01 to the given date.
pub open spec fn day_index_of(y: int, m: int, d: int) -> int {
    365 * y + leap_years_before(y) + days_before_month(y, m) + (d - 1)
}

impl Date {
    pub open spec fn wf(self) -> bool {
        0 <= self.year <= 9999 && 1 <= self.month <= 12 && 1 <= self.day <= days_in_month(
            self.year as int,
            self.month as int,
        )
    }

    pub open spec fn spec_day_index(self) -> int {
        day_index_of(self.year as int, self.month as int, self.day as int)
    }

    /// Days from 0000-01-01 to this date.
    pub fn day_index(&self) -> (n: u32)
        requires
            self.wf(),
        ensures
            n == self.spec_day_index(),
            n <= DAY_INDEX_MAX,
    {
        let y = self.year;
        let leaps: u32 = if y == 0 {
            0
        } else {
            (y - 1) / 4 - (y - 1) / 100 + (y - 1) / 400 + 1
        };
        let before: u32 = match self.month {
            1 => 0,
            2 => 31,
            3 => 59,
            4 => 90,
            5 => 120,
            6 => 151,
            7 => 181,
            8 => 212,
            9 => 243,
            10 => 273,
            11 => 304,
            _ => 334,
        };
        let leap_adj: u32 = if self.month > 2 && y % 4 == 0 && (y % 100 != 0 || y % 400 == 0) {
            1
        } else {
            0
        };
        365 * y + leaps + before + leap_adj + (self.day - 1)
    }
}

/// Completion delay in days: the day distance from `start` to `end`,
/// clamped at zero, so an end date before the start contributes nothing.
pub fn delay_days(start: &Date, end: &Date) -> (d: u32)
    requires
        start.wf(),
        end.wf(),
    ensures
        d == spec_delay(*start, *end),
        d <= DAY_INDEX_MAX,
{
    let s = start.day_index();
    let e = end.day_index();
    if e > s {
        e - s
    } else {
        0
    }
}

/// The delay a record with these dates contributes: never negative.
pub open spec fn spec_delay(start: Date, end: Date) -> int {
    if end.spec_day_index() > start.spec_day_index() {
        end.spec_day_index() - start.spec_day_index()
    } else {
        0
    }
}

pub open spec fn is_digit_byte(b: u8) -> bool {
    48 <= b <= 57
}

pub open spec fn digit_val(b: u8) -> int {
    b - 48
}

/// `YYYY-MM-DD` shape: ten bytes, digits in the date positions, `-` between.
pub open spec fn date_text_wf(t: Seq<u8>) -> bool {
    &&& t.len() == 10
    &&& is_digit_byte(t[0]) && is_digit_byte(t[1]) && is_digit_byte(t[2]) && is_digit_byte(t[3])
    &&& t[4] == 45
    &&& is_digit_byte(t[5]) && is_digit_byte(t[6])
    &&& t[7] == 45
    &&& is_digit_byte(t[8]) && is_digit_byte(t[9])
}

pub open spec fn date_of_text(t: Seq<u8>) -> Date
    recommends
        date_text_wf(t),
{
    Date {
        year: (1000 * digit_val(t[0]) + 100 * digit_val(t[1]) + 10 * digit_val(t[2]) + digit_val(
            t[3],
        )) as u32,
        month: (10 * digit_val(t[5]) + digit_val(t[6])) as u32,
        day: (10 * digit_val(t[8]) + digit_val(t[9])) as u32,
    }
}

/// The date a text denotes: `Some` exactly when the text has the
/// `YYYY-MM-DD` shape and names a valid calendar date.
pub open spec fn spec_parse_date(t: Seq<u8>) -> Option<Date> {
    if date_text_wf(t) && date_of_text(t).wf() {
        Some(date_of_text(t))
    } else {
        None
    }
}

fn digit_of(b: u8) -> (r: Option<u32>)
    ensures
        r is Some <==> is_digit_byte(b),
        r is Some ==> r->0 == digit_val(b) && r->0 <= 9,
{
    if 48 <= b && b <= 57 {
        Some((b - 48) as u32)
    } else {
        None
    }
}

/// Parse a `YYYY-MM-DD` date; rejects any other shape and any triple that is
/// not a valid calendar date.
pub fn parse_date(s: &str) -> (r: Option<Date>)
    ensures
        r == spec_parse_date(s.spec_bytes()),
        r is Some ==> r->0.wf(),
{
    let b = s.as_bytes();
    if b.len() != 10 {
        return None;
    }
    let d0 = digit_of(b[0]);
    let d1 = digit_of(b[1]);
    let d2 = digit_of(b[2]);
    let d3 = digit_of(b[3]);
    let d5 = digit_of(b[5]);
    let d6 = digit_of(b[6]);
    let d8 = digit_of(b[8]);
    let d9 = digit_of(b[9]);
    if b[4] != 45 || b[7] != 45 {
        return None;
    }
    match (d0, d1, d2, d3, d5, d6, d8, d9) {
        (
            Some(y0),
            Some(y1),
            Some(y2),
            Some(y3),
            Some(m0),
            Some(m1),
            Some(dd0),
            Some(dd1),
        ) => {
            let year = 1000 * y0 + 100 * y1 + 10 * y2 + y3;
            let month = 10 * m0 + m1;
            let day = 10 * dd0 + dd1;
            let date = Date { year, month, day };
            if month < 1 || month > 12 {
                return None;
            }
            let dim: u32 = days_in_month_exec(year, month);
            if day < 1 || day > dim {
                return None;
            }
            Some(date)
        },
        _ => None,
    }
}

fn days_in_month_exec(y: u32, m: u32) -> (r: u32)
    ensures
        r == days_in_month(y as int, m as int),
{
    if m == 2 {
        if y % 4 == 0 && (y % 100 != 0 || y % 400 == 0) {
            29
        } else {
            28
        }
    } else if m == 4 || m == 6 || m == 9 || m == 11 {
        30
    } else {
        31
    }
}

} // verus!
