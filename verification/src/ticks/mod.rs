//! Tick generation: where the ticks of an axis go and how they are labelled.
//!
//! An axis is either numeric, with ticks on round numbers, or temporal,
//! with ticks on calendar boundaries. Either way the ticks lie inside the
//! range of the axis, ascend, and are no more than the labels have room for.

pub mod aligned;
pub mod calendar;
pub mod format;
pub mod timestamps;

use crate::arith::floor_div;
use crate::data::strictly_increasing;
use crate::range::Range;
use crate::ticks::aligned::{
    capacity, generate_aligned, lemma_numeric_ticks, numeric_ticks, numeric_zeros, tick_capacity,
};
use crate::ticks::calendar::{civil_from_days, month_of_day, month_start_day};
use crate::ticks::format::{
    digits, fixed_label, format_fixed, padded_digits, push_digits, push_padded,
};
use crate::ticks::timestamps::{
    generate_timestamps, lemma_temporal_ticks, temporal_period, temporal_ticks, Period,
};
use vstd::prelude::*;
use vstd::string::*;

verus! {

/// The two kinds of axis.
#[derive(Clone, Copy, Debug, PartialEq, Eq)]
pub enum Generator {
    /// Fixed-point numbers that count units of `10^-decimals`, with ticks
    /// on multiples of 1, 2 or 5 times a power of ten. More than 18
    /// decimals count as 18.
    AlignedNumbers { decimals: u8 },
    /// Seconds since 1970-01-01 00:00:00 UTC, with ticks where a second,
    /// minute, hour, day, week, month or year starts.
    Timestamps,
}

/// How the ticks of one axis are to be made.
#[derive(Clone, Copy, Debug, PartialEq, Eq)]
pub struct TickLabels {
    /// The pixels that one label takes along the axis.
    pub min_label_spacing: u32,
    /// The kind of axis.
    pub generator: Generator,
}

/// What it takes to label a value of an axis like its ticks.
#[derive(Clone, Copy, Debug, PartialEq, Eq)]
pub enum TickState {
    /// Fixed-point numbers of `decimals` decimals, shown with `places`
    /// digits after the point.
    Numeric { decimals: u8, places: u8 },
    /// Timestamps shown down to `period`.
    Temporal { period: Period },
}

/// The ticks of one axis, ascending, and the state that labels them.
#[derive(Clone, Debug, PartialEq, Eq)]
pub struct GeneratedTicks {
    pub ticks: Vec<i64>,
    pub state: TickState,
}

/// The decimals that count: at most 18.
pub open spec fn effective_decimals(decimals: u8) -> nat {
    if decimals > 18 {
        18
    } else {
        decimals as nat
    }
}

/// The text of a year: four digits from 0 to 9999, as many as it takes
/// beyond, and a minus sign before the years below 0.
pub open spec fn year_text(y: int) -> Seq<char> {
    if y < 0 {
        seq!['-'] + digits((-y) as nat)
    } else if y <= 9999 {
        padded_digits(y as nat, 4)
    } else {
        digits(y as nat)
    }
}

/// The label of the timestamp `t`, shown down to the period `p`: the year,
/// `-` and the month, `-` and the day, a space with the hour, `:` and the
/// minute, `:` and the second; weeks are shown as days, minutes as hours.
pub open spec fn timestamp_label(p: Period, t: int) -> Seq<char> {
    let z: int = t / 86_400;
    let secs: int = t % 86_400;
    let n: int = month_of_day(z);
    let year: Seq<char> = year_text(n / 12);
    let month: Seq<char> = year + seq!['-'] + padded_digits((n % 12 + 1) as nat, 2);
    let day: Seq<char> = month + seq!['-'] + padded_digits((z - month_start_day(n) + 1) as nat, 2);
    let minute: Seq<char> = day + seq![' '] + padded_digits((secs / 3_600) as nat, 2) + seq![':']
        + padded_digits((secs % 3_600 / 60) as nat, 2);
    match p {
        Period::Year => year,
        Period::Month => month,
        Period::Week => day,
        Period::Day => day,
        Period::Hour => minute,
        Period::Minute => minute,
        Period::Second => minute + seq![':'] + padded_digits((secs % 60) as nat, 2),
    }
}

/// Appends the text of the year `y`.
fn push_year(out: &mut String, y: i64)
    requires
        -300_000_000_000 <= y <= 300_000_000_000,
    ensures
        final(out)@ == old(out)@ + year_text(y as int),
{
    if y < 0 {
        proof {
            reveal_strlit("-");
        }
        out.append("-");
        push_digits(out, (-y) as u64);
        assert(out@ =~= old(out)@ + (seq!['-'] + digits((-y) as nat)));
    } else if y <= 9999 {
        push_padded(out, y as u64, 4);
    } else {
        push_digits(out, y as u64);
    }
}

impl TickState {
    /// The label of `value`.
    pub open spec fn label(self, value: int) -> Seq<char> {
        match self {
            TickState::Numeric { decimals, places } => fixed_label(
                value,
                effective_decimals(decimals),
                if places as nat > effective_decimals(decimals) {
                    effective_decimals(decimals)
                } else {
                    places as nat
                },
            ),
            TickState::Temporal { period } => timestamp_label(period, value),
        }
    }

    /// The label of `value`, with the precision that the ticks of the axis
    /// share.
    pub fn format(&self, value: i64) -> (label: String)
        ensures
            label@ == self.label(value as int),
    {
        match self {
            TickState::Numeric { decimals, places } => {
                let scale: u8 = if *decimals > 18 {
                    18
                } else {
                    *decimals
                };
                let shown: u8 = if *places > scale {
                    scale
                } else {
                    *places
                };
                format_fixed(value, scale, shown)
            },
            TickState::Temporal { period } => format_timestamp(*period, value),
        }
    }
}

/// The label of the timestamp `t`, shown down to the period `p`: see
/// `timestamp_label`.
pub fn format_timestamp(p: Period, t: i64) -> (label: String)
    ensures
        label@ == timestamp_label(p, t as int),
{
    let z: i64 = floor_div(t as i128, 86_400) as i64;
    let secs: i64 = (t as i128 - (z as i128) * 86_400) as i64;
    let date: (i64, u8, u8) = civil_from_days(z);
    let ghost n: int = month_of_day(z as int);
    proof {
        assert(n == 12 * date.0 + date.1 - 1);
        assert(n / 12 == date.0 && n % 12 + 1 == date.1);
        assert(z - month_start_day(n) + 1 == date.2);
        reveal_strlit("-");
        reveal_strlit(" ");
        reveal_strlit(":");
    }
    let ghost year: Seq<char> = year_text(n / 12);
    let ghost month: Seq<char> = year + seq!['-'] + padded_digits((n % 12 + 1) as nat, 2);
    let ghost day: Seq<char> = month + seq!['-'] + padded_digits(
        (z - month_start_day(n) + 1) as nat,
        2,
    );
    let ghost minute: Seq<char> = day + seq![' '] + padded_digits((secs / 3_600) as nat, 2)
        + seq![':'] + padded_digits((secs % 3_600 / 60) as nat, 2);
    let mut label: String = String::new();
    push_year(&mut label, date.0);
    assert(label@ =~= year);
    if let Period::Year = p {
        return label;
    }
    label.append("-");
    push_padded(&mut label, date.1 as u64, 2);
    assert(label@ =~= month);
    if let Period::Month = p {
        return label;
    }
    label.append("-");
    push_padded(&mut label, date.2 as u64, 2);
    assert(label@ =~= day);
    match p {
        Period::Week => {
            return label;
        },
        Period::Day => {
            return label;
        },
        _ => {},
    }
    label.append(" ");
    push_padded(&mut label, (secs / 3_600) as u64, 2);
    label.append(":");
    push_padded(&mut label, (secs % 3_600 / 60) as u64, 2);
    assert(label@ =~= minute);
    match p {
        Period::Hour => {
            return label;
        },
        Period::Minute => {
            return label;
        },
        _ => {},
    }
    label.append(":");
    push_padded(&mut label, (secs % 60) as u64, 2);
    assert(label@ =~= minute + seq![':'] + padded_digits((secs % 60) as nat, 2));
    label
}

impl GeneratedTicks {
    /// Each tick with its label, in the order of the ticks.
    pub fn labelled(&self) -> (r: Vec<(i64, String)>)
        ensures
            r.len() == self.ticks.len(),
            forall|i: int|
                0 <= i < r.len() ==> {
                    &&& (#[trigger] r[i]).0 == self.ticks[i]
                    &&& r[i].1@ == self.state.label(self.ticks[i] as int)
                },
    {
        let mut r: Vec<(i64, String)> = Vec::new();
        let mut i: usize = 0;
        while i < self.ticks.len()
            invariant
                i <= self.ticks.len(),
                r.len() == i,
                forall|j: int|
                    0 <= j < i ==> {
                        &&& (#[trigger] r[j]).0 == self.ticks[j]
                        &&& r[j].1@ == self.state.label(self.ticks[j] as int)
                    },
            decreases self.ticks.len() - i,
        {
            let tick: i64 = self.ticks[i];
            r.push((tick, self.state.format(tick)));
            i += 1;
        }
        r
    }
}

/// `v` and `s` hold the same numbers in the same order.
pub open spec fn same_values(v: Seq<i64>, s: Seq<int>) -> bool {
    v.len() == s.len() && forall|i: int| 0 <= i < v.len() ==> #[trigger] v[i] as int == s[i]
}

impl Default for TickLabels {
    /// Ticks on whole round numbers, with 50 pixels for a label.
    fn default() -> (t: TickLabels)
        ensures
            t == (TickLabels {
                min_label_spacing: 50,
                generator: Generator::AlignedNumbers { decimals: 0 },
            }),
    {
        TickLabels { min_label_spacing: 50, generator: Generator::AlignedNumbers { decimals: 0 } }
    }
}

impl TickLabels {
    /// Ticks on round numbers for fixed-point values of `decimals` decimals.
    pub fn aligned_numbers(decimals: u8, min_label_spacing: u32) -> (t: TickLabels)
        ensures
            t == (TickLabels { min_label_spacing, generator: Generator::AlignedNumbers { decimals } }),
    {
        TickLabels { min_label_spacing, generator: Generator::AlignedNumbers { decimals } }
    }

    /// Ticks on calendar boundaries for timestamps.
    pub fn timestamps(min_label_spacing: u32) -> (t: TickLabels)
        ensures
            t == (TickLabels { min_label_spacing, generator: Generator::Timestamps }),
    {
        TickLabels { min_label_spacing, generator: Generator::Timestamps }
    }

    /// The ticks of an axis with the given range and `available` pixels of
    /// length: none for the empty range, the one value of a range of one
    /// value, and else what the kind of axis gives for as many ticks as
    /// there is room for.
    pub open spec fn spec_ticks(self, range: Option<(int, int)>, available: int) -> Seq<int> {
        match range {
            None => Seq::empty(),
            Some((lo, hi)) => if lo == hi {
                seq![lo]
            } else {
                match self.generator {
                    Generator::AlignedNumbers { .. } => numeric_ticks(
                        lo,
                        hi,
                        tick_capacity(available, self.min_label_spacing as int),
                    ),
                    Generator::Timestamps => temporal_ticks(
                        lo,
                        hi,
                        tick_capacity(available, self.min_label_spacing as int),
                    ),
                }
            },
        }
    }

    /// The state that labels the ticks of `spec_ticks`. Numbers are shown
    /// with the decimals of the axis less the trailing zeros that all ticks
    /// share, timestamps down to the period of the ticks.
    pub open spec fn spec_state(self, range: Option<(int, int)>, available: int) -> TickState {
        let cap: int = tick_capacity(available, self.min_label_spacing as int);
        match self.generator {
            Generator::AlignedNumbers { decimals } => {
                let zeros: nat = match range {
                    Some((lo, hi)) => if lo < hi {
                        numeric_zeros(lo, hi, cap)
                    } else {
                        0
                    },
                    None => 0,
                };
                TickState::Numeric {
                    decimals,
                    places: if zeros >= effective_decimals(decimals) {
                        0u8
                    } else {
                        (effective_decimals(decimals) - zeros) as u8
                    },
                }
            },
            Generator::Timestamps => TickState::Temporal {
                period: match range {
                    Some((lo, hi)) => if lo < hi {
                        temporal_period(lo, hi, cap)
                    } else {
                        Period::Second
                    },
                    None => Period::Second,
                },
            },
        }
    }

    /// The ticks of an axis with the range `range` and `available_pixels`
    /// pixels of length. Every tick lies inside the range, the ticks ascend
    /// strictly, and where the range is more than one value there are no
    /// more of them than fit, and at least one.
    pub fn generate(&self, range: &Range, available_pixels: i64) -> (g: GeneratedTicks)
        requires
            range.wf(),
        ensures
            same_values(g.ticks@, self.spec_ticks(range@, available_pixels as int)),
            g.state == self.spec_state(range@, available_pixels as int),
            strictly_increasing(g.ticks@),
            forall|i: int| 0 <= i < g.ticks@.len() ==> range.spec_contains(#[trigger] g.ticks@[i] as int),
            range@ is None ==> g.ticks@.len() == 0,
            range@ matches Some((lo, hi)) ==> {
                &&& lo == hi ==> g.ticks@ == seq![lo as i64]
                &&& 1 <= g.ticks@.len() <= tick_capacity(
                    available_pixels as int,
                    self.min_label_spacing as int,
                )
            },
    {
        let cap: i64 = capacity(available_pixels, self.min_label_spacing);
        let (lo, hi): (i64, i64) = match (range.min(), range.max()) {
            (Some(lo), Some(hi)) => (lo, hi),
            _ => {
                return GeneratedTicks { ticks: Vec::new(), state: self.still_state() };
            },
        };
        if lo == hi {
            let mut ticks: Vec<i64> = Vec::new();
            ticks.push(lo);
            assert(ticks@ =~= seq![lo]);
            return GeneratedTicks { ticks, state: self.still_state() };
        }
        match self.generator {
            Generator::AlignedNumbers { decimals } => {
                proof {
                    lemma_numeric_ticks(lo as int, hi as int, cap as int);
                }
                let made: (Vec<i64>, u8) = generate_aligned(lo, hi, cap);
                let scale: u8 = if decimals > 18 {
                    18
                } else {
                    decimals
                };
                let places: u8 = if made.1 >= scale {
                    0
                } else {
                    scale - made.1
                };
                GeneratedTicks { ticks: made.0, state: TickState::Numeric { decimals, places } }
            },
            Generator::Timestamps => {
                proof {
                    lemma_temporal_ticks(lo as int, hi as int, cap as int);
                }
                let made: (Vec<i64>, Period) = generate_timestamps(lo, hi, cap);
                GeneratedTicks { ticks: made.0, state: TickState::Temporal { period: made.1 } }
            },
        }
    }

    /// The state of an axis whose range is empty or a single value: full
    /// precision.
    fn still_state(&self) -> (s: TickState)
        ensures
            forall|range: Option<(int, int)>, available: int|
                !(range matches Some((lo, hi)) && lo < hi) ==> s == #[trigger] self.spec_state(
                    range,
                    available,
                ),
    {
        match self.generator {
            Generator::AlignedNumbers { decimals } => TickState::Numeric {
                decimals,
                places: if decimals > 18 {
                    18
                } else {
                    decimals
                },
            },
            Generator::Timestamps => TickState::Temporal { period: Period::Second },
        }
    }
}

} // verus!
