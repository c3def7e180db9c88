//! Ticks on round numbers: the multiples of a step that is 1, 2 or 5 times
//! a power of ten.

use crate::arith::{floor_div, lemma_floor_div_bounds, lemma_floor_div_unique};
use crate::ticks::format::{lemma_pow10_monotone, lemma_pow10_values, pow10};
use vstd::prelude::*;

verus! {

/// How many round steps an `i64` axis can have: 1, 2, 5, 10, ... up to
/// five times ten to the eighteenth.
pub const NICE_STEPS: u8 = 57;

/// The `k`-th round step, counted from 0: 1, 2, 5, 10, 20, 50, 100, ...
pub open spec fn nice_step(k: nat) -> int {
    (if k % 3 == 0 {
        1int
    } else if k % 3 == 1 {
        2int
    } else {
        5int
    }) * pow10(k / 3)
}

/// How many multiples of `step` lie in `[lo, hi]`.
pub open spec fn multiples_between(step: int, lo: int, hi: int) -> int {
    hi / step - (lo - 1) / step
}

/// The least multiple of `step` that is at least `lo`.
pub open spec fn first_multiple(step: int, lo: int) -> int {
    ((lo - 1) / step + 1) * step
}

/// The multiples of `step` in `[lo, hi]`, ascending.
pub open spec fn aligned_ticks(step: int, lo: int, hi: int) -> Seq<int> {
    Seq::new(
        multiples_between(step, lo, hi) as nat,
        |i: int| first_multiple(step, lo) + i * step,
    )
}

/// `aligned_ticks` holds what its name says: each entry is a multiple of
/// `step` inside `[lo, hi]`, later entries are greater, and every multiple
/// of `step` inside `[lo, hi]` is an entry.
pub proof fn lemma_aligned_ticks(step: int, lo: int, hi: int)
    requires
        step > 0,
        lo <= hi,
    ensures
        multiples_between(step, lo, hi) >= 0,
        aligned_ticks(step, lo, hi).len() == multiples_between(step, lo, hi),
        forall|i: int|
            0 <= i < multiples_between(step, lo, hi) ==> {
                let t: int = #[trigger] aligned_ticks(step, lo, hi)[i];
                lo <= t <= hi && t % step == 0
            },
        forall|i: int, j: int|
            0 <= i < j < multiples_between(step, lo, hi) ==> aligned_ticks(step, lo, hi)[i]
                < aligned_ticks(step, lo, hi)[j],
        forall|m: int|
            lo <= #[trigger] (m * step) <= hi ==> {
                let i: int = m - (lo - 1) / step - 1;
                0 <= i < multiples_between(step, lo, hi) && aligned_ticks(step, lo, hi)[i] == m
                    * step
            },
{
    let a: int = (lo - 1) / step;
    let b: int = hi / step;
    lemma_floor_div_bounds(lo - 1, step);
    lemma_floor_div_bounds(hi, step);
    assert(a <= b) by (nonlinear_arith)
        requires
            a * step <= lo - 1,
            lo - 1 < hi,
            hi < (b + 1) * step,
            step > 0,
    ;
    assert forall|i: int| 0 <= i < b - a implies {
        let t: int = #[trigger] aligned_ticks(step, lo, hi)[i];
        lo <= t <= hi && t % step == 0
    } by {
        let t: int = (a + 1) * step + i * step;
        assert(t == (a + 1 + i) * step) by (nonlinear_arith)
            requires
                t == (a + 1) * step + i * step,
        ;
        assert((a + 1) * step <= t <= b * step) by (nonlinear_arith)
            requires
                t == (a + 1 + i) * step,
                0 <= i < b - a,
                step > 0,
        ;
        assert(t % step == 0) by (nonlinear_arith)
            requires
                t == (a + 1 + i) * step,
                step > 0,
        ;
    }
    assert forall|i: int, j: int| 0 <= i < j < b - a implies aligned_ticks(step, lo, hi)[i]
        < aligned_ticks(step, lo, hi)[j] by {
        assert(i * step < j * step) by (nonlinear_arith)
            requires
                i < j,
                step > 0,
        ;
    }
    assert forall|m: int| lo <= #[trigger] (m * step) <= hi implies {
        let i: int = m - (lo - 1) / step - 1;
        0 <= i < multiples_between(step, lo, hi) && aligned_ticks(step, lo, hi)[i] == m * step
    } by {
        assert(a < m <= b) by (nonlinear_arith)
            requires
                a * step <= lo - 1,
                lo <= m * step,
                m * step <= hi,
                hi < (b + 1) * step,
                step > 0,
        ;
        let i: int = m - a - 1;
        assert((a + 1) * step + i * step == m * step) by (nonlinear_arith)
            requires
                i == m - a - 1,
        ;
    }
}

/// How the round steps follow one another, and how large they get.
pub proof fn lemma_nice_step_next(k: nat)
    ensures
        nice_step(k) >= 1,
        k % 3 == 1 ==> nice_step(k) % 2 == 0 && nice_step(k + 1) == nice_step(k) / 2 * 5,
        k % 3 != 1 ==> nice_step(k + 1) == 2 * nice_step(k),
        nice_step(k) < nice_step(k + 1),
        k < NICE_STEPS ==> nice_step(k) <= 5_000_000_000_000_000_000,
{
    let p: int = pow10(k / 3);
    lemma_pow10_monotone(0, k / 3);
    if k % 3 == 2 {
        assert((k + 1) / 3 == k / 3 + 1);
        assert(pow10((k + 1) / 3) == 10 * p);
    } else {
        assert((k + 1) / 3 == k / 3);
    }
    if k < NICE_STEPS {
        lemma_pow10_monotone(k / 3, 18);
        lemma_pow10_values();
    }
}

/// How many ticks fit where `available` pixels are to be shared by labels
/// that each take `spacing` pixels: at least one, also where nothing is
/// available. A spacing of zero counts as one pixel.
pub open spec fn tick_capacity(available: int, spacing: int) -> int {
    let room: int = available / (if spacing < 1 {
        1
    } else {
        spacing
    });
    if available <= 0 || room < 1 {
        1
    } else {
        room
    }
}

/// See `tick_capacity`.
pub fn capacity(available: i64, spacing: u32) -> (cap: i64)
    ensures
        cap == tick_capacity(available as int, spacing as int),
        cap >= 1,
{
    if available <= 0 {
        return 1;
    }
    let each: i64 = if spacing < 1 {
        1
    } else {
        spacing as i64
    };
    let room: i64 = available / each;
    if room < 1 {
        1
    } else {
        room
    }
}

/// `k` is the first round step of which at most `cap` multiples lie in
/// `[lo, hi]`.
pub open spec fn is_chosen_step(k: nat, lo: int, hi: int, cap: int) -> bool {
    &&& k < NICE_STEPS
    &&& multiples_between(nice_step(k), lo, hi) <= cap
    &&& forall|j: nat| j < k ==> multiples_between(#[trigger] nice_step(j), lo, hi) > cap
}

/// No round step has as few as `cap` multiples in `[lo, hi]`.
pub open spec fn no_step_fits(lo: int, hi: int, cap: int) -> bool {
    forall|j: nat| j < NICE_STEPS ==> multiples_between(#[trigger] nice_step(j), lo, hi) > cap
}

/// The ticks of the interval `[lo, hi]` where `cap` ticks fit: the
/// multiples of the first round step that has at most `cap` of them in the
/// interval. Where that leaves no tick, or no round step is coarse enough,
/// the single tick `lo`.
pub open spec fn numeric_ticks(lo: int, hi: int, cap: int) -> Seq<int> {
    if exists|k: nat| is_chosen_step(k, lo, hi, cap) {
        let k: nat = choose|k: nat| is_chosen_step(k, lo, hi, cap);
        if multiples_between(nice_step(k), lo, hi) >= 1 {
            aligned_ticks(nice_step(k), lo, hi)
        } else {
            seq![lo]
        }
    } else {
        seq![lo]
    }
}

/// How many trailing decimal zeros all of `numeric_ticks` share for sure:
/// the exponent of the chosen step, and none for the single tick `lo`.
pub open spec fn numeric_zeros(lo: int, hi: int, cap: int) -> nat {
    if exists|k: nat| is_chosen_step(k, lo, hi, cap) {
        let k: nat = choose|k: nat| is_chosen_step(k, lo, hi, cap);
        if multiples_between(nice_step(k), lo, hi) >= 1 {
            k / 3
        } else {
            0
        }
    } else {
        0
    }
}

/// At most one step is chosen.
pub proof fn lemma_chosen_step_is_unique(k1: nat, k2: nat, lo: int, hi: int, cap: int)
    requires
        is_chosen_step(k1, lo, hi, cap),
        is_chosen_step(k2, lo, hi, cap),
    ensures
        k1 == k2,
{
    if k1 < k2 {
        assert(multiples_between(nice_step(k1), lo, hi) > cap);
    } else if k2 < k1 {
        assert(multiples_between(nice_step(k2), lo, hi) > cap);
    }
}

/// The ticks of an interval lie inside it, ascend strictly, and are no
/// more than fit.
pub proof fn lemma_numeric_ticks(lo: int, hi: int, cap: int)
    requires
        lo <= hi,
        cap >= 1,
    ensures
        1 <= numeric_ticks(lo, hi, cap).len() <= cap,
        forall|i: int|
            0 <= i < numeric_ticks(lo, hi, cap).len() ==> lo <= #[trigger] numeric_ticks(
                lo,
                hi,
                cap,
            )[i] <= hi,
        forall|i: int, j: int|
            0 <= i < j < numeric_ticks(lo, hi, cap).len() ==> numeric_ticks(lo, hi, cap)[i]
                < numeric_ticks(lo, hi, cap)[j],
{
    if exists|k: nat| is_chosen_step(k, lo, hi, cap) {
        let k: nat = choose|k: nat| is_chosen_step(k, lo, hi, cap);
        lemma_nice_step_next(k);
        lemma_aligned_ticks(nice_step(k), lo, hi);
    }
}

/// The index and the value of the first round step of which at most `cap`
/// multiples lie in `[lo, hi]`, if there is one.
fn choose_step(lo: i64, hi: i64, cap: i64) -> (r: Option<(u8, i64)>)
    requires
        lo <= hi,
        cap >= 1,
    ensures
        match r {
            Some((k, step)) => is_chosen_step(k as nat, lo as int, hi as int, cap as int) && step
                == nice_step(k as nat),
            None => no_step_fits(lo as int, hi as int, cap as int),
        },
{
    let mut k: u8 = 0;
    let mut step: i64 = 1;
    proof {
        lemma_pow10_values();
    }
    while k < NICE_STEPS
        invariant
            k <= NICE_STEPS,
            lo <= hi,
            k < NICE_STEPS ==> step == nice_step(k as nat),
            forall|j: nat| j < k ==> multiples_between(#[trigger] nice_step(j), lo as int, hi as int) > cap,
        decreases NICE_STEPS - k,
    {
        proof {
            lemma_nice_step_next(k as nat);
            if k + 1 < NICE_STEPS {
                lemma_nice_step_next((k + 1) as nat);
            }
        }
        let below: i128 = floor_div(lo as i128 - 1, step as i128);
        let upto: i128 = floor_div(hi as i128, step as i128);
        if upto - below <= cap as i128 {
            return Some((k, step));
        }
        if k + 1 < NICE_STEPS {
            step = if k % 3 == 1 {
                step / 2 * 5
            } else {
                step * 2
            };
        }
        k += 1;
    }
    None
}

/// The ticks of the interval `[lo, hi]` where `cap` ticks fit, and the
/// number of trailing decimal zeros that they share: see `numeric_ticks`
/// and `numeric_zeros`.
pub fn generate_aligned(lo: i64, hi: i64, cap: i64) -> (r: (Vec<i64>, u8))
    requires
        lo <= hi,
        cap >= 1,
    ensures
        r.0@.len() == numeric_ticks(lo as int, hi as int, cap as int).len(),
        forall|i: int|
            0 <= i < r.0@.len() ==> #[trigger] r.0@[i] as int == numeric_ticks(
                lo as int,
                hi as int,
                cap as int,
            )[i],
        r.1 == numeric_zeros(lo as int, hi as int, cap as int),
        r.1 <= 18,
{
    let chosen: Option<(u8, i64)> = choose_step(lo, hi, cap);
    let mut ticks: Vec<i64> = Vec::new();
    match chosen {
        None => {
            proof {
                if exists|k: nat| is_chosen_step(k, lo as int, hi as int, cap as int) {
                    let k: nat = choose|k: nat| is_chosen_step(k, lo as int, hi as int, cap as int);
                    assert(multiples_between(nice_step(k), lo as int, hi as int) > cap);
                }
            }
            ticks.push(lo);
            (ticks, 0)
        },
        Some((k, step)) => {
            proof {
                let w: nat = choose|w: nat| is_chosen_step(w, lo as int, hi as int, cap as int);
                lemma_chosen_step_is_unique(w, k as nat, lo as int, hi as int, cap as int);
                lemma_nice_step_next(k as nat);
                lemma_aligned_ticks(step as int, lo as int, hi as int);
            }
            let below: i128 = floor_div(lo as i128 - 1, step as i128);
            let upto: i128 = floor_div(hi as i128, step as i128);
            let count: i128 = upto - below;
            if count < 1 {
                ticks.push(lo);
                return (ticks, 0);
            }
            let ghost want: Seq<int> = aligned_ticks(step as int, lo as int, hi as int);
            let mut i: i128 = 0;
            while i < count
                invariant
                    0 <= i <= count,
                    count == want.len(),
                    count <= cap,
                    step > 0,
                    below == (lo - 1) / (step as int),
                    -0x8000_0000_0000_0001 <= below,
                    below + count <= 0x7fff_ffff_ffff_ffff,
                    want == aligned_ticks(step as int, lo as int, hi as int),
                    forall|j: int| 0 <= j < count ==> lo <= #[trigger] want[j] <= hi,
                    ticks@.len() == i,
                    forall|j: int| 0 <= j < i ==> #[trigger] ticks@[j] as int == want[j],
                decreases count - i,
            {
                proof {
                    let t: int = want[i as int];
                    assert(t == (below + 1) * step + i * step);
                    assert(t == (below + 1 + i) * step) by (nonlinear_arith)
                        requires
                            t == (below + 1) * step + i * step,
                    ;
                }
                let tick: i128 = (below + 1 + i) * (step as i128);
                ticks.push(tick as i64);
                i += 1;
            }
            (ticks, k / 3)
        },
    }
}

} // verus!
