//! Integer helpers shared by the geometry: floor and ceiling division on
//! wide integers and saturation to the scalar types.

use vstd::prelude::*;

verus! {

/// `v` held to the closed interval `[lo, hi]`.
pub open spec fn clamp(v: int, lo: int, hi: int) -> int {
    if v < lo {
        lo
    } else if v > hi {
        hi
    } else {
        v
    }
}

/// The quotient rounded up: the least integer `q` with `q * b >= a`, for `b > 0`.
pub open spec fn ceil_div(a: int, b: int) -> int {
    -((-a) / b)
}

/// For a positive divisor the quotient is the one integer `q` with
/// `q * b <= a < (q + 1) * b`: division rounds down.
pub proof fn lemma_floor_div_bounds(a: int, b: int)
    by (nonlinear_arith)
    requires
        b > 0,
    ensures
        (a / b) * b <= a < (a / b + 1) * b,
{
}

/// The converse of `lemma_floor_div_bounds`.
pub proof fn lemma_floor_div_unique(a: int, b: int, q: int)
    by (nonlinear_arith)
    requires
        b > 0,
        q * b <= a < (q + 1) * b,
    ensures
        a / b == q,
{
}

/// `ceil_div(a, b)` is the one integer `q` with `(q - 1) * b < a <= q * b`.
pub proof fn lemma_ceil_div_bounds(a: int, b: int)
    requires
        b > 0,
    ensures
        (ceil_div(a, b) - 1) * b < a <= ceil_div(a, b) * b,
{
    lemma_floor_div_bounds(-a, b);
    let q: int = (-a) / b;
    assert((-q - 1) * b == -((q + 1) * b)) by (nonlinear_arith);
    assert((-q) * b == -(q * b)) by (nonlinear_arith);
}

/// Division by a positive number moves a value towards zero, never past it.
pub proof fn lemma_div_shrinks(a: int, b: int)
    by (nonlinear_arith)
    requires
        b > 0,
    ensures
        a >= 0 ==> 0 <= a / b <= a,
        a < 0 ==> a <= a / b < 0,
        a >= 0 ==> 0 <= ceil_div(a, b) <= a,
        a < 0 ==> a <= ceil_div(a, b) <= 0,
{
}

/// `a / b` rounded down, for a positive divisor and any dividend.
pub fn floor_div(a: i128, b: i128) -> (q: i128)
    requires
        b > 0,
        a > i128::MIN,
    ensures
        q == a / b,
        a >= 0 ==> 0 <= q <= a,
        a < 0 ==> a <= q < 0,
{
    proof {
        lemma_div_shrinks(a as int, b as int);
    }
    if a >= 0 {
        a / b
    } else {
        let m: i128 = -a - 1;
        let qm: i128 = m / b;
        proof {
            let q: int = -(qm as int) - 1;
            lemma_floor_div_bounds(m as int, b as int);
            assert((qm + 1) * b == qm * b + b) by (nonlinear_arith);
            assert(q * b == -(qm * b) - b) by (nonlinear_arith)
                requires
                    q == -(qm as int) - 1,
            ;
            assert((q + 1) * b == -(qm * b)) by (nonlinear_arith)
                requires
                    q == -(qm as int) - 1,
            ;
            lemma_floor_div_unique(a as int, b as int, q);
        }
        -qm - 1
    }
}

/// `a / b` rounded up, for a positive divisor and any dividend.
pub fn ceil_div_exec(a: i128, b: i128) -> (q: i128)
    requires
        b > 0,
        i128::MIN < a,
    ensures
        q == ceil_div(a as int, b as int),
        a >= 0 ==> 0 <= q <= a,
        a < 0 ==> a <= q <= 0,
{
    proof {
        lemma_div_shrinks(a as int, b as int);
        lemma_div_shrinks(-a as int, b as int);
    }
    let f: i128 = floor_div(-a, b);
    -f
}

/// `v` saturated to the `i32` range.
pub fn saturate_i32(v: i128) -> (r: i32)
    ensures
        r == clamp(v as int, i32::MIN as int, i32::MAX as int),
{
    if v < i32::MIN as i128 {
        i32::MIN
    } else if v > i32::MAX as i128 {
        i32::MAX
    } else {
        v as i32
    }
}

/// `v` saturated to the `i64` range.
pub fn saturate_i64(v: i128) -> (r: i64)
    ensures
        r == clamp(v as int, i64::MIN as int, i64::MAX as int),
{
    if v < i64::MIN as i128 {
        i64::MIN
    } else if v > i64::MAX as i128 {
        i64::MAX
    } else {
        v as i64
    }
}

} // verus!
