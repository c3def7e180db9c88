//! Ticks on calendar boundaries, for an axis of timestamps in seconds
//! since 1970-01-01 00:00:00 UTC.

use crate::arith::{floor_div, lemma_floor_div_bounds};
use crate::ticks::calendar::{
    civil_from_days, days_before_year, is_month_of, is_year_of, lemma_month_is_unique,
    lemma_month_length, lemma_months_ascend, lemma_year_is_unique, lemma_year_length,
    lemma_years_ascend, month_of_day, month_start, month_start_day, year_of, year_of_day,
    year_start,
};
use vstd::prelude::*;

verus! {

/// The calendar units on whose boundaries ticks may lie, from fine to
/// coarse. A week starts on Monday, the others where the clock or the
/// calendar says.
#[derive(Clone, Copy, Debug, PartialEq, Eq)]
pub enum Period {
    Second,
    Minute,
    Hour,
    Day,
    Week,
    Month,
    Year,
}

/// The number of periods.
pub const PERIODS: u8 = 7;

/// The periods in order, from fine to coarse.
pub open spec fn period_at(k: nat) -> Period {
    if k == 0 {
        Period::Second
    } else if k == 1 {
        Period::Minute
    } else if k == 2 {
        Period::Hour
    } else if k == 3 {
        Period::Day
    } else if k == 4 {
        Period::Week
    } else if k == 5 {
        Period::Month
    } else {
        Period::Year
    }
}

/// The seconds of a unit of a period of fixed length; 86400 for the months
/// and years, which are counted in days.
pub open spec fn unit_length(p: Period) -> int {
    match p {
        Period::Second => 1,
        Period::Minute => 60,
        Period::Hour => 3_600,
        Period::Day => 86_400,
        Period::Week => 604_800,
        Period::Month => 86_400,
        Period::Year => 86_400,
    }
}

/// The second at which the unit 0 of a period of fixed length starts:
/// Monday 1970-01-05 for the weeks.
pub open spec fn unit_offset(p: Period) -> int {
    match p {
        Period::Week => 345_600,
        _ => 0,
    }
}

/// The first second of the unit `n` of the period `p`. Units of fixed
/// length are counted from the epoch, months as `12 * year + month - 1`,
/// years by their number.
pub open spec fn unit_start(p: Period, n: int) -> int {
    match p {
        Period::Month => month_start_day(n) * 86_400,
        Period::Year => days_before_year(n) * 86_400,
        _ => unit_offset(p) + n * unit_length(p),
    }
}

/// The unit of the period `p` that holds the second `t`.
pub open spec fn unit_of(p: Period, t: int) -> int {
    match p {
        Period::Month => month_of_day(t / 86_400),
        Period::Year => year_of_day(t / 86_400),
        _ => (t - unit_offset(p)) / unit_length(p),
    }
}

/// How many units of `p` start in `[lo, hi]`.
pub open spec fn boundaries_between(p: Period, lo: int, hi: int) -> int {
    unit_of(p, hi) - unit_of(p, lo - 1)
}

/// The starts of the units of `p` that start in `[lo, hi]`, ascending.
pub open spec fn period_ticks(p: Period, lo: int, hi: int) -> Seq<int> {
    Seq::new(
        boundaries_between(p, lo, hi) as nat,
        |i: int| unit_start(p, unit_of(p, lo - 1) + 1 + i),
    )
}

/// Every day lies in some year.
pub proof fn lemma_year_exists(z: int)
    ensures
        is_year_of(z, year_of_day(z)),
    decreases
            if z >= 0 {
                z
            } else {
                -z
            },
{
    if z == 0 {
        lemma_year_length(1970);
        assert(is_year_of(0, 1970));
    } else if z > 0 {
        lemma_year_exists(z - 1);
        let y: int = year_of_day(z - 1);
        lemma_year_length(y + 1);
        if z < days_before_year(y + 1) {
            assert(is_year_of(z, y));
        } else {
            assert(is_year_of(z, y + 1));
        }
    } else {
        lemma_year_exists(z + 1);
        let y: int = year_of_day(z + 1);
        lemma_year_length(y - 1);
        if z >= days_before_year(y) {
            assert(is_year_of(z, y));
        } else {
            assert(is_year_of(z, y - 1));
        }
    }
}

/// Every day lies in some month.
pub proof fn lemma_month_exists(z: int)
    ensures
        is_month_of(z, month_of_day(z)),
    decreases
            if z >= 0 {
                z
            } else {
                -z
            },
{
    if z == 0 {
        lemma_month_length(23_640);
        lemma_year_length(1970);
        assert(is_month_of(0, 23_640));
    } else if z > 0 {
        lemma_month_exists(z - 1);
        let n: int = month_of_day(z - 1);
        lemma_month_length(n + 1);
        if z < month_start_day(n + 1) {
            assert(is_month_of(z, n));
        } else {
            assert(is_month_of(z, n + 1));
        }
    } else {
        lemma_month_exists(z + 1);
        let n: int = month_of_day(z + 1);
        lemma_month_length(n - 1);
        if z >= month_start_day(n) {
            assert(is_month_of(z, n));
        } else {
            assert(is_month_of(z, n - 1));
        }
    }
}

/// The unit that holds a second starts at or before it, and the next unit
/// after it.
pub proof fn lemma_unit_holds(p: Period, t: int)
    ensures
        unit_start(p, unit_of(p, t)) <= t < unit_start(p, unit_of(p, t) + 1),
{
    match p {
        Period::Month => {
            lemma_month_exists(t / 86_400);
        },
        Period::Year => {
            lemma_year_exists(t / 86_400);
        },
        _ => {
            let len: int = unit_length(p);
            let n: int = unit_of(p, t);
            lemma_floor_div_bounds(t - unit_offset(p), len);
            assert((n + 1) * len == n * len + len) by (nonlinear_arith);
        },
    }
}

/// Later units start later.
pub proof fn lemma_unit_starts_ascend(p: Period, m: int, n: int)
    requires
        m < n,
    ensures
        unit_start(p, m) < unit_start(p, n),
{
    match p {
        Period::Month => {
            lemma_months_ascend(m, n);
        },
        Period::Year => {
            lemma_years_ascend(m, n);
        },
        _ => {
            let len: int = unit_length(p);
            assert(m * len < n * len) by (nonlinear_arith)
                requires
                    m < n,
                    len > 0,
            ;
        },
    }
}

/// `period_ticks` holds what its name says: each entry is the start of a
/// unit and lies in `[lo, hi]`, later entries are greater, and every unit
/// that starts in `[lo, hi]` has its start among the entries.
pub proof fn lemma_period_ticks(p: Period, lo: int, hi: int)
    requires
        lo <= hi,
    ensures
        boundaries_between(p, lo, hi) >= 0,
        period_ticks(p, lo, hi).len() == boundaries_between(p, lo, hi),
        forall|i: int|
            0 <= i < boundaries_between(p, lo, hi) ==> lo <= #[trigger] period_ticks(p, lo, hi)[i]
                <= hi,
        forall|i: int, j: int|
            0 <= i < j < boundaries_between(p, lo, hi) ==> period_ticks(p, lo, hi)[i]
                < period_ticks(p, lo, hi)[j],
        forall|n: int|
            lo <= #[trigger] unit_start(p, n) <= hi ==> {
                let i: int = n - unit_of(p, lo - 1) - 1;
                0 <= i < boundaries_between(p, lo, hi) && period_ticks(p, lo, hi)[i] == unit_start(
                    p,
                    n,
                )
            },
{
    let a: int = unit_of(p, lo - 1);
    let b: int = unit_of(p, hi);
    lemma_unit_holds(p, lo - 1);
    lemma_unit_holds(p, hi);
    if b < a {
        if b + 1 < a {
            lemma_unit_starts_ascend(p, b + 1, a);
        }
    }
    assert forall|i: int| 0 <= i < b - a implies lo <= #[trigger] period_ticks(p, lo, hi)[i]
        <= hi by {
        if i > 0 {
            lemma_unit_starts_ascend(p, a + 1, a + 1 + i);
        }
        if a + 1 + i < b {
            lemma_unit_starts_ascend(p, a + 1 + i, b);
        }
    }
    assert forall|i: int, j: int| 0 <= i < j < b - a implies period_ticks(p, lo, hi)[i]
        < period_ticks(p, lo, hi)[j] by {
        lemma_unit_starts_ascend(p, a + 1 + i, a + 1 + j);
    }
    assert forall|n: int| lo <= #[trigger] unit_start(p, n) <= hi implies {
        let i: int = n - unit_of(p, lo - 1) - 1;
        0 <= i < boundaries_between(p, lo, hi) && period_ticks(p, lo, hi)[i] == unit_start(p, n)
    } by {
        if n <= a {
            if n < a {
                lemma_unit_starts_ascend(p, n, a);
            }
        }
        if n > b {
            if n > b + 1 {
                lemma_unit_starts_ascend(p, b + 1, n);
            }
        }
    }
}

/// `k` is the first period of which at most `cap` units start in `[lo, hi]`.
pub open spec fn is_chosen_period(k: nat, lo: int, hi: int, cap: int) -> bool {
    &&& k < PERIODS
    &&& boundaries_between(period_at(k), lo, hi) <= cap
    &&& forall|j: nat| j < k ==> boundaries_between(#[trigger] period_at(j), lo, hi) > cap
}

/// At most one period is chosen.
pub proof fn lemma_chosen_period_is_unique(k1: nat, k2: nat, lo: int, hi: int, cap: int)
    requires
        is_chosen_period(k1, lo, hi, cap),
        is_chosen_period(k2, lo, hi, cap),
    ensures
        k1 == k2,
{
    if k1 < k2 {
        assert(boundaries_between(period_at(k1), lo, hi) > cap);
    } else if k2 < k1 {
        assert(boundaries_between(period_at(k2), lo, hi) > cap);
    }
}

/// Whether the ticks of `[lo, hi]` lie on the boundaries of a period: some
/// period is chosen and a unit of it starts in the interval.
pub open spec fn has_period(lo: int, hi: int, cap: int) -> bool {
    exists|k: nat|
        is_chosen_period(k, lo, hi, cap) && boundaries_between(period_at(k), lo, hi) >= 1
}

/// The period whose boundaries are the ticks of `[lo, hi]`. Where there is
/// none, the ticks are labelled to the second.
pub open spec fn temporal_period(lo: int, hi: int, cap: int) -> Period {
    if has_period(lo, hi, cap) {
        period_at(
            choose|k: nat|
                is_chosen_period(k, lo, hi, cap) && boundaries_between(period_at(k), lo, hi) >= 1,
        )
    } else {
        Period::Second
    }
}

/// The ticks of the interval `[lo, hi]` of timestamps where `cap` ticks
/// fit: the unit starts of the first period that has at most `cap` of them
/// in the interval. Where that leaves no tick, or no period is coarse
/// enough, the single tick `lo`.
pub open spec fn temporal_ticks(lo: int, hi: int, cap: int) -> Seq<int> {
    if has_period(lo, hi, cap) {
        period_ticks(temporal_period(lo, hi, cap), lo, hi)
    } else {
        seq![lo]
    }
}

/// The ticks of an interval lie inside it, ascend strictly, and are no
/// more than fit.
pub proof fn lemma_temporal_ticks(lo: int, hi: int, cap: int)
    requires
        lo <= hi,
        cap >= 1,
    ensures
        1 <= temporal_ticks(lo, hi, cap).len() <= cap,
        forall|i: int|
            0 <= i < temporal_ticks(lo, hi, cap).len() ==> lo <= #[trigger] temporal_ticks(
                lo,
                hi,
                cap,
            )[i] <= hi,
        forall|i: int, j: int|
            0 <= i < j < temporal_ticks(lo, hi, cap).len() ==> temporal_ticks(lo, hi, cap)[i]
                < temporal_ticks(lo, hi, cap)[j],
{
    if has_period(lo, hi, cap) {
        lemma_period_ticks(temporal_period(lo, hi, cap), lo, hi);
    }
}

/// The `k`-th period, from fine to coarse.
pub fn nth_period(k: u8) -> (p: Period)
    ensures
        p == period_at(k as nat),
{
    if k == 0 {
        Period::Second
    } else if k == 1 {
        Period::Minute
    } else if k == 2 {
        Period::Hour
    } else if k == 3 {
        Period::Day
    } else if k == 4 {
        Period::Week
    } else if k == 5 {
        Period::Month
    } else {
        Period::Year
    }
}

/// The seconds of a unit of `p`, or of a day for months and years.
fn length_of(p: Period) -> (len: i128)
    ensures
        len == unit_length(p),
{
    match p {
        Period::Second => 1,
        Period::Minute => 60,
        Period::Hour => 3_600,
        Period::Day => 86_400,
        Period::Week => 604_800,
        Period::Month => 86_400,
        Period::Year => 86_400,
    }
}

/// The second at which the unit 0 of `p` starts.
fn offset_of(p: Period) -> (off: i128)
    ensures
        off == unit_offset(p),
{
    match p {
        Period::Week => 345_600,
        _ => 0,
    }
}

/// The unit of `p` that holds the second `t`, which may lie one second
/// below the `i64` range.
pub fn unit_index(p: Period, t: i128) -> (n: i128)
    requires
        i64::MIN - 1 <= t <= i64::MAX,
    ensures
        n == unit_of(p, t as int),
        -9_223_372_036_854_775_809 <= n <= 9_223_372_036_854_775_807,
        (p is Month ==> -3_700_000_000_000 < n < 3_700_000_000_000),
        (p is Year ==> -300_000_000_000 <= n <= 300_000_000_000),
{
    match p {
        Period::Month => {
            let z: i128 = floor_div(t, 86_400);
            let date: (i64, u8, u8) = civil_from_days(z as i64);
            12 * (date.0 as i128) + (date.1 as i128) - 1
        },
        Period::Year => {
            let z: i128 = floor_div(t, 86_400);
            year_of(z as i64) as i128
        },
        _ => floor_div(t - offset_of(p), length_of(p)),
    }
}

/// The first second of the unit `n` of `p`.
pub fn unit_first_second(p: Period, n: i128) -> (t: i128)
    requires
        -9_223_372_036_854_775_809 <= n <= 9_223_372_036_854_775_808,
        (p is Month ==> -3_700_000_000_000 <= n <= 3_700_000_000_000),
        (p is Year ==> -300_000_000_001 <= n <= 300_000_000_001),
    ensures
        t == unit_start(p, n as int),
{
    match p {
        Period::Month => (month_start(n as i64) as i128) * 86_400,
        Period::Year => (year_start(n as i64) as i128) * 86_400,
        _ => offset_of(p) + n * length_of(p),
    }
}

/// The index of the first period of which at most `cap` units start in
/// `[lo, hi]`, if there is one.
fn choose_period(lo: i64, hi: i64, cap: i64) -> (r: Option<u8>)
    requires
        lo <= hi,
        cap >= 1,
    ensures
        match r {
            Some(k) => is_chosen_period(k as nat, lo as int, hi as int, cap as int),
            None => forall|j: nat|
                j < PERIODS ==> boundaries_between(#[trigger] period_at(j), lo as int, hi as int)
                    > cap,
        },
{
    let mut k: u8 = 0;
    while k < PERIODS
        invariant
            k <= PERIODS,
            lo <= hi,
            forall|j: nat|
                j < k ==> boundaries_between(#[trigger] period_at(j), lo as int, hi as int) > cap,
        decreases PERIODS - k,
    {
        let p: Period = nth_period(k);
        let below: i128 = unit_index(p, lo as i128 - 1);
        let upto: i128 = unit_index(p, hi as i128);
        if upto - below <= cap as i128 {
            return Some(k);
        }
        k += 1;
    }
    None
}

/// The ticks of the interval `[lo, hi]` of timestamps where `cap` ticks
/// fit, and the period that they are labelled by: see `temporal_ticks` and
/// `temporal_period`.
pub fn generate_timestamps(lo: i64, hi: i64, cap: i64) -> (r: (Vec<i64>, Period))
    requires
        lo <= hi,
        cap >= 1,
    ensures
        r.0@.len() == temporal_ticks(lo as int, hi as int, cap as int).len(),
        forall|i: int|
            0 <= i < r.0@.len() ==> #[trigger] r.0@[i] as int == temporal_ticks(
                lo as int,
                hi as int,
                cap as int,
            )[i],
        r.1 == temporal_period(lo as int, hi as int, cap as int),
{
    let chosen: Option<u8> = choose_period(lo, hi, cap);
    let mut ticks: Vec<i64> = Vec::new();
    match chosen {
        None => {
            proof {
                if has_period(lo as int, hi as int, cap as int) {
                    let k: nat = choose|k: nat|
                        is_chosen_period(k, lo as int, hi as int, cap as int) && boundaries_between(
                            period_at(k),
                            lo as int,
                            hi as int,
                        ) >= 1;
                    assert(boundaries_between(period_at(k), lo as int, hi as int) > cap);
                }
            }
            ticks.push(lo);
            (ticks, Period::Second)
        },
        Some(k) => {
            let p: Period = nth_period(k);
            let below: i128 = unit_index(p, lo as i128 - 1);
            let upto: i128 = unit_index(p, hi as i128);
            let count: i128 = upto - below;
            proof {
                if has_period(lo as int, hi as int, cap as int) {
                    let w: nat = choose|w: nat|
                        is_chosen_period(w, lo as int, hi as int, cap as int) && boundaries_between(
                            period_at(w),
                            lo as int,
                            hi as int,
                        ) >= 1;
                    lemma_chosen_period_is_unique(w, k as nat, lo as int, hi as int, cap as int);
                }
                lemma_period_ticks(p, lo as int, hi as int);
            }
            if count < 1 {
                ticks.push(lo);
                return (ticks, Period::Second);
            }
            assert(has_period(lo as int, hi as int, cap as int));
            let ghost want: Seq<int> = period_ticks(p, lo as int, hi as int);
            let mut i: i128 = 0;
            while i < count
                invariant
                    0 <= i <= count,
                    count == want.len(),
                    below == unit_of(p, lo - 1),
                    upto == below + count,
                    upto == unit_of(p, hi as int),
                    -9_223_372_036_854_775_809 <= below,
                    upto <= 9_223_372_036_854_775_807,
                    (p is Month ==> -3_700_000_000_000 < below && upto < 3_700_000_000_000),
                    (p is Year ==> -300_000_000_000 <= below && upto <= 300_000_000_000),
                    want == period_ticks(p, lo as int, hi as int),
                    forall|j: int| 0 <= j < count ==> lo <= #[trigger] want[j] <= hi,
                    ticks@.len() == i,
                    forall|j: int| 0 <= j < i ==> #[trigger] ticks@[j] as int == want[j],
                decreases count - i,
            {
                let tick: i128 = unit_first_second(p, below + 1 + i);
                assert(tick == want[i as int]);
                ticks.push(tick as i64);
                i += 1;
            }
            (ticks, p)
        },
    }
}

} // verus!
