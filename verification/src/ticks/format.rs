//! Decimal labels of fixed-point values.

use vstd::prelude::*;
use vstd::string::*;

verus! {

/// Ten to the power `e`.
pub open spec fn pow10(e: nat) -> int
    decreases e,
{
    if e == 0 {
        1
    } else {
        10 * pow10((e - 1) as nat)
    }
}

/// The powers of ten that a `u64` holds.
pub proof fn lemma_pow10_values()
    ensures
        pow10(0) == 1,
        pow10(1) == 10,
        pow10(2) == 100,
        pow10(3) == 1_000,
        pow10(4) == 10_000,
        pow10(5) == 100_000,
        pow10(6) == 1_000_000,
        pow10(7) == 10_000_000,
        pow10(8) == 100_000_000,
        pow10(9) == 1_000_000_000,
        pow10(10) == 10_000_000_000,
        pow10(11) == 100_000_000_000,
        pow10(12) == 1_000_000_000_000,
        pow10(13) == 10_000_000_000_000,
        pow10(14) == 100_000_000_000_000,
        pow10(15) == 1_000_000_000_000_000,
        pow10(16) == 10_000_000_000_000_000,
        pow10(17) == 100_000_000_000_000_000,
        pow10(18) == 1_000_000_000_000_000_000,
        pow10(19) == 10_000_000_000_000_000_000,
{
    reveal_with_fuel(pow10, 21);
}

/// Powers of ten grow with the exponent and are positive.
pub proof fn lemma_pow10_monotone(a: nat, b: nat)
    requires
        a <= b,
    ensures
        0 < pow10(a) <= pow10(b),
    decreases b,
{
    if a < b {
        lemma_pow10_monotone(a, (b - 1) as nat);
    } else if a > 0 {
        lemma_pow10_monotone((a - 1) as nat, (b - 1) as nat);
    }
}

/// Ten to the power `e`, for the exponents that a `u64` holds.
pub fn pow10_u64(e: u8) -> (r: u64)
    requires
        e <= 19,
    ensures
        r == pow10(e as nat),
{
    let mut r: u64 = 1;
    let mut i: u8 = 0;
    while i < e
        invariant
            i <= e <= 19,
            r == pow10(i as nat),
        decreases e - i,
    {
        proof {
            lemma_pow10_values();
            lemma_pow10_monotone(i as nat, 18);
        }
        r = r * 10;
        i += 1;
    }
    r
}

/// The character of one decimal digit.
pub open spec fn digit_char(d: int) -> char {
    if d == 0 {
        '0'
    } else if d == 1 {
        '1'
    } else if d == 2 {
        '2'
    } else if d == 3 {
        '3'
    } else if d == 4 {
        '4'
    } else if d == 5 {
        '5'
    } else if d == 6 {
        '6'
    } else if d == 7 {
        '7'
    } else if d == 8 {
        '8'
    } else {
        '9'
    }
}

/// The decimal digits of `n`, most significant first, without leading
/// zeros: one digit `0` for zero.
pub open spec fn digits(n: nat) -> Seq<char>
    decreases n,
{
    if n < 10 {
        seq![digit_char(n as int)]
    } else {
        digits(n / 10).push(digit_char((n % 10) as int))
    }
}

/// The last `width` decimal digits of `n`, most significant first, with
/// zeros in front where `n` has fewer.
pub open spec fn padded_digits(n: nat, width: nat) -> Seq<char>
    decreases width,
{
    if width == 0 {
        Seq::empty()
    } else {
        padded_digits(n / 10, (width - 1) as nat).push(digit_char((n % 10) as int))
    }
}

/// The label of the fixed-point value `value`, which counts units of
/// `10^-scale`, with `places <= scale` digits after the point. Digits
/// beyond `places` are dropped. There is a point only with digits after
/// it, and a minus sign only in front of a label that is not all zeros.
pub open spec fn fixed_label(value: int, scale: nat, places: nat) -> Seq<char> {
    let magnitude: int = if value < 0 {
        -value
    } else {
        value
    };
    let kept: int = magnitude / pow10((scale - places) as nat);
    let whole: nat = (kept / pow10(places)) as nat;
    let fraction: nat = (kept % pow10(places)) as nat;
    let sign: Seq<char> = if value < 0 && kept > 0 {
        seq!['-']
    } else {
        Seq::empty()
    };
    let tail: Seq<char> = if places > 0 {
        seq!['.'] + padded_digits(fraction, places)
    } else {
        Seq::empty()
    };
    sign + digits(whole) + tail
}

/// The text of one decimal digit.
fn digit_str(d: u64) -> (s: &'static str)
    requires
        d < 10,
    ensures
        s@ == seq![digit_char(d as int)],
{
    proof {
        reveal_strlit("0");
        reveal_strlit("1");
        reveal_strlit("2");
        reveal_strlit("3");
        reveal_strlit("4");
        reveal_strlit("5");
        reveal_strlit("6");
        reveal_strlit("7");
        reveal_strlit("8");
        reveal_strlit("9");
    }
    let s: &'static str = if d == 0 {
        "0"
    } else if d == 1 {
        "1"
    } else if d == 2 {
        "2"
    } else if d == 3 {
        "3"
    } else if d == 4 {
        "4"
    } else if d == 5 {
        "5"
    } else if d == 6 {
        "6"
    } else if d == 7 {
        "7"
    } else if d == 8 {
        "8"
    } else {
        "9"
    };
    assert(s@ =~= seq![digit_char(d as int)]);
    s
}

/// Appends the decimal digits of `n` to `out`.
pub fn push_digits(out: &mut String, n: u64)
    ensures
        final(out)@ == old(out)@ + digits(n as nat),
    decreases n,
{
    if n >= 10 {
        push_digits(out, n / 10);
    }
    let ghost before: Seq<char> = out@;
    out.append(digit_str(n % 10));
    proof {
        if n >= 10 {
            assert(out@ =~= old(out)@ + digits((n / 10) as nat).push(digit_char((n % 10) as int)));
        } else {
            assert(out@ =~= old(out)@ + seq![digit_char(n as int)]);
        }
    }
}

/// Appends the last `width` decimal digits of `n` to `out`, with zeros in
/// front where `n` has fewer.
pub fn push_padded(out: &mut String, n: u64, width: u8)
    ensures
        final(out)@ == old(out)@ + padded_digits(n as nat, width as nat),
    decreases width,
{
    if width > 0 {
        push_padded(out, n / 10, width - 1);
        out.append(digit_str(n % 10));
        proof {
            assert(out@ =~= old(out)@ + padded_digits((n / 10) as nat, (width - 1) as nat).push(
                digit_char((n % 10) as int),
            ));
        }
    } else {
        assert(out@ =~= old(out)@ + padded_digits(n as nat, 0));
    }
}

/// The label of a fixed-point value: see `fixed_label`.
pub fn format_fixed(value: i64, scale: u8, places: u8) -> (label: String)
    requires
        places <= scale <= 18,
    ensures
        label@ == fixed_label(value as int, scale as nat, places as nat),
{
    let magnitude: u64 = if value >= 0 {
        value as u64
    } else {
        (-(value as i128)) as u64
    };
    let unit: u64 = pow10_u64(scale - places);
    let split: u64 = pow10_u64(places);
    proof {
        lemma_pow10_monotone(0, (scale - places) as nat);
        lemma_pow10_monotone(0, places as nat);
    }
    let kept: u64 = magnitude / unit;
    let whole: u64 = kept / split;
    let fraction: u64 = kept % split;
    let mut label: String = String::new();
    proof {
        reveal_strlit("-");
        reveal_strlit(".");
    }
    if value < 0 && kept > 0 {
        label.append("-");
    }
    let ghost sign: Seq<char> = label@;
    assert(sign =~= if value < 0 && kept > 0 {
        seq!['-']
    } else {
        Seq::<char>::empty()
    });
    push_digits(&mut label, whole);
    if places > 0 {
        label.append(".");
        push_padded(&mut label, fraction, places);
        assert(label@ =~= sign + digits(whole as nat) + (seq!['.'] + padded_digits(
            fraction as nat,
            places as nat,
        )));
    } else {
        assert(label@ =~= sign + digits(whole as nat) + Seq::<char>::empty());
    }
    label
}

} // verus!
