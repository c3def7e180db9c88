//! The proleptic Gregorian calendar in UTC, counted in days from
//! 1970-01-01 (day 0).

use crate::arith::floor_div;
use vstd::prelude::*;

verus! {

/// Seconds in a day.
pub const DAY: i64 = 86_400;

/// The first and the last day that hold a second of an `i64` timestamp.
pub const MIN_DAY: i64 = -106_751_991_167_301;

pub const MAX_DAY: i64 = 106_751_991_167_300;

/// Whether the year `y` has a 29th of February.
pub open spec fn is_leap(y: int) -> bool {
    y % 4 == 0 && (y % 100 != 0 || y % 400 == 0)
}

/// Leap years among the years up to and excluding `y`, counted from the
/// year 1 (negative before it).
pub open spec fn leap_years_before(y: int) -> int {
    (y - 1) / 4 - (y - 1) / 100 + (y - 1) / 400
}

/// The day number of the first of January of the year `y`.
pub open spec fn days_before_year(y: int) -> int {
    365 * (y - 1970) + leap_years_before(y) - 477
}

/// The days of the year `y` that lie before its month `m` (1 to 12).
pub open spec fn days_before_month(y: int, m: int) -> int {
    (if m <= 1 {
        0int
    } else if m == 2 {
        31
    } else if m == 3 {
        59
    } else if m == 4 {
        90
    } else if m == 5 {
        120
    } else if m == 6 {
        151
    } else if m == 7 {
        181
    } else if m == 8 {
        212
    } else if m == 9 {
        243
    } else if m == 10 {
        273
    } else if m == 11 {
        304
    } else if m == 12 {
        334
    } else {
        365
    }) + (if m > 2 && is_leap(y) {
        1int
    } else {
        0
    })
}

/// The number of days of the month `m` (1 to 12) of the year `y`.
pub open spec fn days_in_month(y: int, m: int) -> int {
    if m == 2 {
        if is_leap(y) {
            29
        } else {
            28
        }
    } else if m == 4 || m == 6 || m == 9 || m == 11 {
        30
    } else {
        31
    }
}

/// Whether `y`-`m`-`d` is a date of the calendar.
pub open spec fn is_date(y: int, m: int, d: int) -> bool {
    1 <= m <= 12 && 1 <= d <= days_in_month(y, m)
}

/// The day number of the date `y`-`m`-`d`.
pub open spec fn day_number(y: int, m: int, d: int) -> int {
    days_before_year(y) + days_before_month(y, m) + d - 1
}

/// Months are counted through the years: month `12 * y + m - 1` is the
/// month `m` of the year `y`. This is the day number of the first day of
/// the month with the count `n`.
pub open spec fn month_start_day(n: int) -> int {
    day_number(n / 12, n % 12 + 1, 1)
}

/// A year has 365 days, or 366 if it is a leap year; 1970 starts at day 0.
pub proof fn lemma_year_length(y: int)
    ensures
        days_before_year(y + 1) - days_before_year(y) == if is_leap(y) {
            366int
        } else {
            365
        },
        days_before_year(1970) == 0,
{
}

/// A month starts where the month before it ends.
pub proof fn lemma_month_length(n: int)
    ensures
        month_start_day(n + 1) - month_start_day(n) == days_in_month(n / 12, n % 12 + 1),
        28 <= month_start_day(n + 1) - month_start_day(n) <= 31,
        n % 12 == 0 ==> month_start_day(n) == days_before_year(n / 12),
{
    let y: int = n / 12;
    let m: int = n % 12 + 1;
    if m == 12 {
        assert((n + 1) / 12 == y + 1 && (n + 1) % 12 == 0);
        lemma_year_length(y);
    } else {
        assert((n + 1) / 12 == y && (n + 1) % 12 == m);
    }
}

/// Later years start later.
pub proof fn lemma_years_ascend(a: int, b: int)
    requires
        a <= b,
    ensures
        days_before_year(a) + 365 * (b - a) <= days_before_year(b) <= days_before_year(a) + 366 * (b
            - a),
    decreases b - a,
{
    if a < b {
        lemma_years_ascend(a, b - 1);
        lemma_year_length(b - 1);
    }
}

/// Later months start later.
pub proof fn lemma_months_ascend(a: int, b: int)
    requires
        a <= b,
    ensures
        month_start_day(a) + 28 * (b - a) <= month_start_day(b) <= month_start_day(a) + 31 * (b - a),
    decreases b - a,
{
    if a < b {
        lemma_months_ascend(a, b - 1);
        lemma_month_length(b - 1);
    }
}

/// The year `y` holds the day `z`.
pub open spec fn is_year_of(z: int, y: int) -> bool {
    days_before_year(y) <= z < days_before_year(y + 1)
}

/// The month with the count `n` holds the day `z`.
pub open spec fn is_month_of(z: int, n: int) -> bool {
    month_start_day(n) <= z < month_start_day(n + 1)
}

/// A day lies in one year only.
pub proof fn lemma_year_is_unique(z: int, y1: int, y2: int)
    requires
        is_year_of(z, y1),
        is_year_of(z, y2),
    ensures
        y1 == y2,
{
    if y1 < y2 {
        lemma_years_ascend(y1 + 1, y2);
    } else if y2 < y1 {
        lemma_years_ascend(y2 + 1, y1);
    }
}

/// A day lies in one month only.
pub proof fn lemma_month_is_unique(z: int, n1: int, n2: int)
    requires
        is_month_of(z, n1),
        is_month_of(z, n2),
    ensures
        n1 == n2,
{
    if n1 < n2 {
        lemma_months_ascend(n1 + 1, n2);
    } else if n2 < n1 {
        lemma_months_ascend(n2 + 1, n1);
    }
}

/// The year that holds the day `z`.
pub open spec fn year_of_day(z: int) -> int {
    choose|y: int| is_year_of(z, y)
}

/// The count of the month that holds the day `z`.
pub open spec fn month_of_day(z: int) -> int {
    choose|n: int| is_month_of(z, n)
}

/// The day number of the first of January of the year `y`.
pub fn year_start(y: i64) -> (z: i64)
    requires
        -1_000_000_000_000 <= y <= 1_000_000_000_000,
    ensures
        z == days_before_year(y as int),
{
    let before: i128 = y as i128 - 1;
    let leaps: i128 = floor_div(before, 4) - floor_div(before, 100) + floor_div(before, 400);
    (365 * (y as i128 - 1970) + leaps - 477) as i64
}

/// The year that holds the day `z`, found by halving between the years
/// that days of 365 and of 366 days would give.
pub fn year_of(z: i64) -> (y: i64)
    requires
        MIN_DAY <= z <= MAX_DAY,
    ensures
        is_year_of(z as int, y as int),
        y == year_of_day(z as int),
        -300_000_000_000 <= y <= 300_000_000_000,
{
    let by_long: i64 = floor_div(z as i128, 366) as i64;
    let by_short: i64 = floor_div(z as i128, 365) as i64;
    let mut lo: i64 = 1970 + (if z >= 0 {
        by_long
    } else {
        by_short
    });
    let mut hi: i64 = 1971 + (if z >= 0 {
        by_short
    } else {
        by_long
    });
    proof {
        if z >= 0 {
            lemma_years_ascend(1970, lo as int);
            lemma_years_ascend(1970, hi as int);
        } else {
            lemma_years_ascend(lo as int, 1970);
            lemma_years_ascend(hi as int, 1970);
        }
        lemma_year_length(1970);
    }
    while hi - lo > 1
        invariant
            -300_000_000_000 <= lo < hi <= 300_000_000_000,
            days_before_year(lo as int) <= z < days_before_year(hi as int),
        decreases hi - lo,
    {
        let mid: i64 = lo + (hi - lo) / 2;
        if year_start(mid) <= z {
            lo = mid;
        } else {
            hi = mid;
        }
    }
    proof {
        lemma_year_is_unique(z as int, lo as int, year_of_day(z as int));
    }
    lo
}

/// Whether the year `y` has a 29th of February.
pub fn leap(y: i64) -> (b: bool)
    requires
        -1_000_000_000_000 <= y <= 1_000_000_000_000,
    ensures
        b == is_leap(y as int),
{
    let r: i128 = y as i128 - 400 * floor_div(y as i128, 400);
    assert(r == (y as int) % 400);
    r % 4 == 0 && (r % 100 != 0 || r == 0)
}

/// The days of the year `y` that lie before its month `m`.
pub fn month_offset(y: i64, m: u8) -> (n: i64)
    requires
        -1_000_000_000_000 <= y <= 1_000_000_000_000,
        1 <= m <= 13,
    ensures
        n == days_before_month(y as int, m as int),
{
    let base: i64 = if m == 1 {
        0
    } else if m == 2 {
        31
    } else if m == 3 {
        59
    } else if m == 4 {
        90
    } else if m == 5 {
        120
    } else if m == 6 {
        151
    } else if m == 7 {
        181
    } else if m == 8 {
        212
    } else if m == 9 {
        243
    } else if m == 10 {
        273
    } else if m == 11 {
        304
    } else if m == 12 {
        334
    } else {
        365
    };
    if m > 2 && leap(y) {
        base + 1
    } else {
        base
    }
}

/// The date of the day `z`: its year, month (1 to 12) and day of the month.
pub fn civil_from_days(z: i64) -> (date: (i64, u8, u8))
    requires
        MIN_DAY <= z <= MAX_DAY,
    ensures
        is_date(date.0 as int, date.1 as int, date.2 as int),
        day_number(date.0 as int, date.1 as int, date.2 as int) == z,
        date.0 == year_of_day(z as int),
        12 * date.0 + date.1 - 1 == month_of_day(z as int),
        -300_000_000_000 <= date.0 <= 300_000_000_000,
{
    let y: i64 = year_of(z);
    let in_year: i64 = z - year_start(y);
    proof {
        lemma_year_length(y as int);
    }
    let mut m: u8 = 1;
    while m < 12 && month_offset(y, m + 1) <= in_year
        invariant
            1 <= m <= 12,
            -300_000_000_000 <= y <= 300_000_000_000,
            days_before_month(y as int, m as int) <= in_year,
        decreases 12 - m,
    {
        m += 1;
    }
    let d: i64 = in_year - month_offset(y, m) + 1;
    proof {
        let n: int = 12 * y + m - 1;
        assert(n / 12 == y && n % 12 + 1 == m);
        lemma_month_length(n);
        assert(month_start_day(n) == day_number(y as int, m as int, 1));
        if m == 12 {
            assert((n + 1) / 12 == y + 1 && (n + 1) % 12 == 0);
        } else {
            assert((n + 1) / 12 == y && (n + 1) % 12 == m);
        }
        assert(is_month_of(z as int, n));
        lemma_month_is_unique(z as int, n, month_of_day(z as int));
    }
    (y, m, d as u8)
}

/// The day number of the first day of the month with the count `n`.
pub fn month_start(n: i64) -> (z: i64)
    requires
        -3_700_000_000_000 <= n <= 3_700_000_000_000,
    ensures
        z == month_start_day(n as int),
{
    let y: i128 = floor_div(n as i128, 12);
    let m: i128 = n as i128 - 12 * y;
    year_start(y as i64) + month_offset(y as i64, (m + 1) as u8)
}

} // verus!
