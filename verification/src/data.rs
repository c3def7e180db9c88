//! The series data store: the samples of every series, indexed by one
//! shared, sorted list of the `x` values that occur in any of them.

use crate::projection::Projection;
use crate::range::{interval_contains, interval_of, Range};
use vstd::prelude::*;

verus! {

/// The samples of one series as the caller has them: `(x, y)` pairs in any
/// order. A sample without a `y` marks a gap of the series at that `x`.
/// Where one `x` occurs more than once, the later sample says what the
/// series has there; the ranges cover the earlier ones all the same.
#[derive(Clone, Debug, PartialEq, Eq)]
pub struct SeriesSamples {
    pub id: usize,
    pub samples: Vec<(i64, Option<i64>)>,
}

/// Each value is less than every value after it.
pub open spec fn strictly_increasing(s: Seq<i64>) -> bool {
    forall|i: int, j: int| 0 <= i < j < s.len() ==> s[i] < s[j]
}

/// The interval of a sorted list runs from its first value to its last.
pub proof fn lemma_interval_of_sorted(s: Seq<i64>)
    requires
        strictly_increasing(s),
    ensures
        interval_of(s) == if s.len() == 0 {
            None
        } else {
            Some((s[0] as int, s.last() as int))
        },
    decreases s.len(),
{
    if s.len() > 1 {
        let rest: Seq<i64> = s.drop_last();
        assert forall|i: int, j: int| 0 <= i < j < rest.len() implies rest[i] < rest[j] by {
            assert(s[i] < s[j]);
        }
        lemma_interval_of_sorted(rest);
        assert(rest[0] == s[0]);
        assert(rest.last() == s[s.len() - 2]);
        assert(s[0] <= s[s.len() - 2] < s[s.len() - 1]) by {
            if s.len() > 2 {
                assert(s[0] < s[s.len() - 2]);
            }
        }
    } else if s.len() == 1 {
        assert(interval_of(s.drop_last()) is None);
    }
}

/// The distance between two data values.
pub open spec fn dist(a: i64, b: i64) -> int {
    if a <= b {
        b - a
    } else {
        a - b
    }
}

/// `xs[i]` is nearest to `q`: nothing in `xs` is nearer, and nothing before
/// `i` is as near. Of two values equally near, the earlier one is nearest.
pub open spec fn is_nearest(xs: Seq<i64>, q: i64, i: int) -> bool {
    &&& 0 <= i < xs.len()
    &&& forall|j: int| 0 <= j < i ==> dist(#[trigger] xs[j], q) > dist(xs[i], q)
    &&& forall|j: int| i <= j < xs.len() ==> dist(#[trigger] xs[j], q) >= dist(xs[i], q)
}

/// At most one index is nearest.
pub proof fn lemma_nearest_is_unique(xs: Seq<i64>, q: i64, i: int, j: int)
    requires
        is_nearest(xs, q, i),
        is_nearest(xs, q, j),
    ensures
        i == j,
{
    if i < j {
        assert(dist(xs[i], q) > dist(xs[j], q));
        assert(dist(xs[j], q) >= dist(xs[i], q));
    } else if j < i {
        assert(dist(xs[j], q) > dist(xs[i], q));
        assert(dist(xs[i], q) >= dist(xs[j], q));
    }
}

/// What the last of `samples` at `x` has for a `y`; nothing where no
/// sample is at `x`, or the last one there is a gap.
pub open spec fn last_y_at(samples: Seq<(i64, Option<i64>)>, x: i64) -> Option<i64>
    decreases samples.len(),
{
    if samples.len() == 0 {
        None
    } else if samples.last().0 == x {
        samples.last().1
    } else {
        last_y_at(samples.drop_last(), x)
    }
}

/// Whether one of the first `n` of `samples` is at `x`.
pub open spec fn samples_have_x(samples: Seq<(i64, Option<i64>)>, n: int, x: i64) -> bool {
    exists|k: int| 0 <= k < n && (#[trigger] samples[k]).0 == x
}

/// Whether a sample of one of the first `m` series is at `x`.
pub open spec fn series_have_x(series: Seq<SeriesSamples>, m: int, x: i64) -> bool {
    exists|s: int|
        0 <= s < m && #[trigger] samples_have_x(series[s].samples@, series[s].samples@.len() as int, x)
}

/// Whether `r` holds the `y` of every sample of the first `m` series.
pub open spec fn covers_sample_ys(r: Option<(int, int)>, series: Seq<SeriesSamples>, m: int) -> bool {
    forall|s: int, k: int|
        0 <= s < m && 0 <= k < series[s].samples@.len() ==> ((#[trigger] series[s].samples@[k]).1 matches Some(
            y,
        ) ==> interval_contains(r, y as int))
}

/// Whether `v` is the `y` of a sample of one of the first `m` series.
pub open spec fn is_sample_y(series: Seq<SeriesSamples>, m: int, v: int) -> bool {
    exists|s: int, k: int|
        0 <= s < m && 0 <= k < series[s].samples@.len() && (#[trigger] series[s].samples@[k]).1
            == Some(v as i64) && v as i64 == v
}

/// Whether `r` holds the `x` of every sample.
pub open spec fn covers_sample_xs(r: Option<(int, int)>, series: Seq<SeriesSamples>) -> bool {
    forall|s: int, k: int|
        0 <= s < series.len() && 0 <= k < series[s].samples@.len() ==> interval_contains(
            r,
            (#[trigger] series[s].samples@[k]).0 as int,
        )
}

/// What a series has at `x` is the `y` of one of its samples at `x`, and
/// it has nothing where no sample is at `x`.
pub proof fn lemma_last_y_at_is_a_sample(samples: Seq<(i64, Option<i64>)>, x: i64)
    ensures
        last_y_at(samples, x) matches Some(y) ==> exists|k: int|
            0 <= k < samples.len() && #[trigger] samples[k] == (x, Some(y)),
        !samples_have_x(samples, samples.len() as int, x) ==> last_y_at(samples, x) is None,
    decreases samples.len(),
{
    if samples.len() > 0 {
        let rest: Seq<(i64, Option<i64>)> = samples.drop_last();
        lemma_last_y_at_is_a_sample(rest, x);
        if samples.last().0 == x {
            assert(samples[samples.len() - 1].0 == x);
            if samples.last().1 is Some {
                assert(samples[samples.len() - 1] == (x, samples.last().1));
            }
        } else {
            if last_y_at(rest, x) is Some {
                let y: i64 = last_y_at(rest, x)->0;
                let k: int = choose|k: int| 0 <= k < rest.len() && #[trigger] rest[k] == (x, Some(y));
                assert(samples[k] == (x, Some(y)));
            }
            if samples_have_x(rest, rest.len() as int, x) {
                let k: int = choose|k: int| 0 <= k < rest.len() && (#[trigger] rest[k]).0 == x;
                assert(samples[k].0 == x);
            }
        }
    }
}

/// The number of values of `xs` below `q`: every value before the result is
/// below `q`, none from the result on is. Found by halving.
pub fn lower_bound(xs: &Vec<i64>, q: i64) -> (r: usize)
    requires
        strictly_increasing(xs@),
    ensures
        r <= xs.len(),
        forall|j: int| 0 <= j < r ==> xs[j] < q,
        forall|j: int| r <= j < xs.len() ==> xs[j] >= q,
{
    let mut lo: usize = 0;
    let mut hi: usize = xs.len();
    while lo < hi
        invariant
            lo <= hi <= xs.len(),
            strictly_increasing(xs@),
            forall|j: int| 0 <= j < lo ==> xs[j] < q,
            forall|j: int| hi <= j < xs.len() ==> xs[j] >= q,
        decreases hi - lo,
    {
        let mid: usize = lo + (hi - lo) / 2;
        if xs[mid] < q {
            assert forall|j: int| 0 <= j < mid + 1 implies xs[j] < q by {
                if j < mid {
                    assert(xs[j] < xs[mid as int]);
                }
            }
            lo = mid + 1;
        } else {
            assert forall|j: int| mid <= j < xs.len() implies xs[j] >= q by {
                if j > mid {
                    assert(xs[mid as int] < xs[j]);
                }
            }
            hi = mid;
        }
    }
    lo
}

/// The index of the value of `xs` nearest to `q`, the earlier of two that
/// are equally near; none only when `xs` is empty. Takes `O(log n)` steps.
pub fn nearest_in(xs: &Vec<i64>, q: i64) -> (r: Option<usize>)
    requires
        strictly_increasing(xs@),
    ensures
        r is None <==> xs.len() == 0,
        r matches Some(i) ==> is_nearest(xs@, q, i as int),
{
    if xs.len() == 0 {
        return None;
    }
    let index: usize = lower_bound(xs, q);
    if index == 0 {
        return Some(0);
    }
    if index == xs.len() {
        assert forall|j: int| 0 <= j < index - 1 implies dist(#[trigger] xs@[j], q) > dist(
            xs@[index - 1],
            q,
        ) by {
            assert(xs[j] < xs[index - 1]);
        }
        return Some(index - 1);
    }
    let ahead: i128 = xs[index] as i128 - q as i128;
    let before: i128 = q as i128 - xs[index - 1] as i128;
    if ahead < before {
        assert forall|j: int| 0 <= j < index implies dist(#[trigger] xs@[j], q) > dist(
            xs@[index as int],
            q,
        ) by {
            if j < index - 1 {
                assert(xs[j] < xs[index - 1]);
            }
        }
        assert forall|j: int| index <= j < xs.len() implies dist(#[trigger] xs@[j], q) >= dist(
            xs@[index as int],
            q,
        ) by {
            if j > index {
                assert(xs[index as int] < xs[j]);
            }
        }
        Some(index)
    } else {
        assert forall|j: int| 0 <= j < index - 1 implies dist(#[trigger] xs@[j], q) > dist(
            xs@[index - 1],
            q,
        ) by {
            assert(xs[j] < xs[index - 1]);
        }
        assert forall|j: int| index - 1 <= j < xs.len() implies dist(#[trigger] xs@[j], q) >= dist(
            xs@[index - 1],
            q,
        ) by {
            if j > index {
                assert(xs[index as int] < xs[j]);
            }
        }
        Some(index - 1)
    }
}

/// Whether one of the first `n` values of `s` is `v`.
spec fn prefix_has(s: Seq<i64>, n: int, v: i64) -> bool {
    exists|k: int| 0 <= k < n && #[trigger] s[k] == v
}

/// Whether one of the samples from `lo` up to, not including, `hi` is at `x`.
spec fn samples_between_have_x(samples: Seq<(i64, Option<i64>)>, lo: int, hi: int, x: i64) -> bool {
    exists|k: int| lo <= k < hi && (#[trigger] samples[k]).0 == x
}

/// The values of two sorted lists in one sorted list, each once. Takes as
/// many steps as the two lists are long.
fn merge_unique(a: &Vec<i64>, b: &Vec<i64>) -> (out: Vec<i64>)
    requires
        strictly_increasing(a@),
        strictly_increasing(b@),
    ensures
        strictly_increasing(out@),
        forall|v: i64| out@.contains(v) <==> a@.contains(v) || b@.contains(v),
{
    let mut out: Vec<i64> = Vec::new();
    let mut i: usize = 0;
    let mut j: usize = 0;
    while i < a.len() || j < b.len()
        invariant
            i <= a.len(),
            j <= b.len(),
            strictly_increasing(a@),
            strictly_increasing(b@),
            strictly_increasing(out@),
            forall|k: int| 0 <= k < out@.len() && i < a.len() ==> #[trigger] out@[k] < a[i as int],
            forall|k: int| 0 <= k < out@.len() && j < b.len() ==> #[trigger] out@[k] < b[j as int],
            forall|v: i64|
                out@.contains(v) <==> prefix_has(a@, i as int, v) || prefix_has(b@, j as int, v),
        decreases (a.len() - i) + (b.len() - j),
    {
        let ghost before: Seq<i64> = out@;
        let ghost i0: int = i as int;
        let ghost j0: int = j as int;
        let take_a: bool = j >= b.len() || (i < a.len() && a[i] <= b[j]);
        let take_b: bool = i >= a.len() || (j < b.len() && b[j] <= a[i]);
        let x: i64 = if take_a {
            a[i]
        } else {
            b[j]
        };
        out.push(x);
        if take_a {
            i += 1;
        }
        if take_b {
            j += 1;
        }
        proof {
            assert(out@.len() == before.len() + 1);
            assert(out@[before.len() as int] == x);
            assert forall|k: int| 0 <= k < before.len() implies out@[k] == before[k] by {}
            assert forall|c: int, d: int| 0 <= c < d < out@.len() implies out@[c] < out@[d] by {
                if d < before.len() {
                    assert(before[c] < before[d]);
                } else {
                    assert(before[c] < x);
                }
            }
            assert forall|k: int| 0 <= k < out@.len() && i < a.len() implies #[trigger] out@[k]
                < a[i as int] by {
                if take_a {
                    assert(a[i0] < a[i as int]);
                }
                if k < before.len() {
                    assert(before[k] < x || before[k] < a[i as int]);
                }
            }
            assert forall|k: int| 0 <= k < out@.len() && j < b.len() implies #[trigger] out@[k]
                < b[j as int] by {
                if take_b {
                    assert(b[j0] < b[j as int]);
                }
                if k < before.len() {
                    assert(before[k] < x || before[k] < b[j as int]);
                }
            }
            assert forall|v: i64|
                out@.contains(v) <==> prefix_has(a@, i as int, v) || prefix_has(
                    b@,
                    j as int,
                    v,
                ) by {
                if out@.contains(v) {
                    let k: int = choose|k: int| 0 <= k < out@.len() && out@[k] == v;
                    if k < before.len() {
                        assert(before.contains(v));
                    }
                }
                if before.contains(v) {
                    let k: int = choose|k: int| 0 <= k < before.len() && before[k] == v;
                    assert(out@[k] == v);
                }
                if prefix_has(a@, i0, v) {
                    let k: int = choose|k: int| 0 <= k < i0 && #[trigger] a@[k] == v;
                    assert(0 <= k < i && a@[k] == v);
                }
                if prefix_has(b@, j0, v) {
                    let k: int = choose|k: int| 0 <= k < j0 && #[trigger] b@[k] == v;
                    assert(0 <= k < j && b@[k] == v);
                }
                if prefix_has(a@, i as int, v) {
                    let k: int = choose|k: int| 0 <= k < i && #[trigger] a@[k] == v;
                    if k < i0 {
                        assert(prefix_has(a@, i0, v));
                    }
                }
                if prefix_has(b@, j as int, v) {
                    let k: int = choose|k: int| 0 <= k < j && #[trigger] b@[k] == v;
                    if k < j0 {
                        assert(prefix_has(b@, j0, v));
                    }
                }
                if v == x {
                    assert(out@[before.len() as int] == v);
                    if take_a {
                        assert(a@[i0] == v);
                    } else {
                        assert(b@[j0] == v);
                    }
                }
            }
        }
    }
    proof {
        assert forall|v: i64| out@.contains(v) <==> a@.contains(v) || b@.contains(v) by {
            if prefix_has(a@, i as int, v) {
                let k: int = choose|k: int| 0 <= k < i && #[trigger] a@[k] == v;
                assert(a@.contains(v));
            }
            if prefix_has(b@, j as int, v) {
                let k: int = choose|k: int| 0 <= k < j && #[trigger] b@[k] == v;
                assert(b@.contains(v));
            }
            if a@.contains(v) {
                let k: int = choose|k: int| 0 <= k < a@.len() && a@[k] == v;
                assert(prefix_has(a@, i as int, v));
            }
            if b@.contains(v) {
                let k: int = choose|k: int| 0 <= k < b@.len() && b@[k] == v;
                assert(prefix_has(b@, j as int, v));
            }
        }
    }
    out
}

/// The `x` values of the samples from `lo` up to, not including, `hi`, as
/// a sorted list that holds each once. Sorts by merging halves.
fn sorted_xs(samples: &Vec<(i64, Option<i64>)>, lo: usize, hi: usize) -> (xs: Vec<i64>)
    requires
        lo <= hi <= samples.len(),
    ensures
        strictly_increasing(xs@),
        forall|v: i64| xs@.contains(v) <==> samples_between_have_x(samples@, lo as int, hi as int, v),
    decreases hi - lo,
{
    if hi - lo == 0 {
        let xs: Vec<i64> = Vec::new();
        assert forall|v: i64| xs@.contains(v) <==> samples_between_have_x(
            samples@,
            lo as int,
            hi as int,
            v,
        ) by {}
        xs
    } else if hi - lo == 1 {
        let mut xs: Vec<i64> = Vec::new();
        xs.push(samples[lo].0);
        proof {
            assert(xs@[0] == samples@[lo as int].0);
            assert forall|v: i64| xs@.contains(v) <==> samples_between_have_x(
                samples@,
                lo as int,
                hi as int,
                v,
            ) by {
                if xs@.contains(v) {
                    assert(samples@[lo as int].0 == v);
                }
                if samples_between_have_x(samples@, lo as int, hi as int, v) {
                    assert(xs@[0] == v);
                }
            }
        }
        xs
    } else {
        let mid: usize = lo + (hi - lo) / 2;
        let left: Vec<i64> = sorted_xs(samples, lo, mid);
        let right: Vec<i64> = sorted_xs(samples, mid, hi);
        let xs: Vec<i64> = merge_unique(&left, &right);
        proof {
            assert forall|v: i64| xs@.contains(v) <==> samples_between_have_x(
                samples@,
                lo as int,
                hi as int,
                v,
            ) by {
                if samples_between_have_x(samples@, lo as int, mid as int, v) {
                    let k: int = choose|k: int| lo <= k < mid && (#[trigger] samples@[k]).0 == v;
                    assert(lo <= k < hi && samples@[k].0 == v);
                }
                if samples_between_have_x(samples@, mid as int, hi as int, v) {
                    let k: int = choose|k: int| mid <= k < hi && (#[trigger] samples@[k]).0 == v;
                    assert(lo <= k < hi && samples@[k].0 == v);
                }
                if samples_between_have_x(samples@, lo as int, hi as int, v) {
                    let k: int = choose|k: int| lo <= k < hi && (#[trigger] samples@[k]).0 == v;
                    if k < mid {
                        assert(samples_between_have_x(samples@, lo as int, mid as int, v));
                    } else {
                        assert(samples_between_have_x(samples@, mid as int, hi as int, v));
                    }
                }
            }
        }
        xs
    }
}

/// The sorted list, without repeats, of the `x` values of all samples:
/// each series is sorted by itself and merged into the list.
fn build_index(series: &Vec<SeriesSamples>) -> (xs: Vec<i64>)
    ensures
        strictly_increasing(xs@),
        forall|v: i64| xs@.contains(v) <==> series_have_x(series@, series@.len() as int, v),
{
    let mut xs: Vec<i64> = Vec::new();
    let mut s: usize = 0;
    while s < series.len()
        invariant
            s <= series.len(),
            strictly_increasing(xs@),
            forall|v: i64| xs@.contains(v) <==> series_have_x(series@, s as int, v),
        decreases series.len() - s,
    {
        let own: Vec<i64> = sorted_xs(&series[s].samples, 0, series[s].samples.len());
        xs = merge_unique(&xs, &own);
        proof {
            let here: Seq<(i64, Option<i64>)> = series@[s as int].samples@;
            assert forall|v: i64| xs@.contains(v) <==> series_have_x(series@, s + 1, v) by {
                assert(samples_between_have_x(here, 0, here.len() as int, v) == samples_have_x(
                    here,
                    here.len() as int,
                    v,
                ));
                if series_have_x(series@, s as int, v) {
                    let t: int = choose|t: int|
                        0 <= t < s && #[trigger] samples_have_x(
                            series@[t].samples@,
                            series@[t].samples@.len() as int,
                            v,
                        );
                    assert(0 <= t < s + 1);
                }
                if samples_have_x(here, here.len() as int, v) {
                    assert(0 <= s < s + 1);
                }
                if series_have_x(series@, s + 1, v) {
                    let t: int = choose|t: int|
                        0 <= t < s + 1 && #[trigger] samples_have_x(
                            series@[t].samples@,
                            series@[t].samples@.len() as int,
                            v,
                        );
                    if t < s {
                        assert(series_have_x(series@, s as int, v));
                    }
                }
            }
        }
        s += 1;
    }
    xs
}

/// The values of one series laid out against the index `xs`: at each place
/// the `y` of the last sample at that `x`, or nothing.
fn build_column(xs: &Vec<i64>, samples: &Vec<(i64, Option<i64>)>) -> (col: Vec<Option<i64>>)
    requires
        strictly_increasing(xs@),
        forall|k: int| 0 <= k < samples.len() ==> xs@.contains((#[trigger] samples[k]).0),
    ensures
        col.len() == xs.len(),
        forall|i: int| 0 <= i < xs.len() ==> #[trigger] col[i] == last_y_at(samples@, xs[i]),
{
    let mut col: Vec<Option<i64>> = Vec::new();
    let mut n: usize = 0;
    while n < xs.len()
        invariant
            n <= xs.len(),
            col.len() == n,
            forall|i: int| 0 <= i < n ==> #[trigger] col[i] is None,
        decreases xs.len() - n,
    {
        col.push(None);
        n += 1;
    }
    let mut k: usize = 0;
    while k < samples.len()
        invariant
            k <= samples.len(),
            col.len() == xs.len(),
            strictly_increasing(xs@),
            forall|k: int| 0 <= k < samples.len() ==> xs@.contains((#[trigger] samples[k]).0),
            forall|i: int|
                0 <= i < xs.len() ==> #[trigger] col[i] == last_y_at(samples@.take(k as int), xs[i]),
        decreases samples.len() - k,
    {
        let x: i64 = samples[k].0;
        let y: Option<i64> = samples[k].1;
        let at: usize = lower_bound(xs, x);
        proof {
            assert(xs@.contains(samples[k as int].0));
            let w: int = choose|w: int| 0 <= w < xs.len() && xs[w] == x;
            if w > at {
                assert(xs[at as int] < xs[w]);
            }
            assert(w == at);
        }
        col.set(at, y);
        proof {
            let seen: Seq<(i64, Option<i64>)> = samples@.take(k + 1);
            assert(seen.drop_last() =~= samples@.take(k as int));
            assert(seen.last() == samples[k as int]);
            assert forall|i: int| 0 <= i < xs.len() implies #[trigger] col[i] == last_y_at(
                seen,
                xs[i],
            ) by {
                if i < at {
                    assert(xs[i] < xs[at as int]);
                } else if i > at {
                    assert(xs[at as int] < xs[i]);
                }
            }
        }
        k += 1;
    }
    proof {
        assert(samples@.take(k as int) =~= samples@);
    }
    col
}

/// `r` widened to hold the `y` of every sample.
fn merge_samples(r: Range, samples: &Vec<(i64, Option<i64>)>) -> (out: Range)
    requires
        r.wf(),
    ensures
        out.wf(),
        forall|w: int| interval_contains(r@, w) ==> interval_contains(out@, w),
        forall|k: int|
            0 <= k < samples.len() ==> ((#[trigger] samples[k]).1 matches Some(y) ==> interval_contains(
                out@,
                y as int,
            )),
        out@ matches Some((lo, hi)) ==> {
            &&& (r@ matches Some((a, _)) && a == lo) || exists|k: int|
                0 <= k < samples.len() && (#[trigger] samples[k]).1 == Some(lo as i64) && lo as i64
                    == lo
            &&& (r@ matches Some((_, b)) && b == hi) || exists|k: int|
                0 <= k < samples.len() && (#[trigger] samples[k]).1 == Some(hi as i64) && hi as i64
                    == hi
        },
{
    let mut out: Range = r;
    let mut n: usize = 0;
    while n < samples.len()
        invariant
            n <= samples.len(),
            out.wf(),
            r.wf(),
            forall|w: int| interval_contains(r@, w) ==> interval_contains(out@, w),
            forall|k: int|
                0 <= k < n ==> ((#[trigger] samples[k]).1 matches Some(y) ==> interval_contains(
                    out@,
                    y as int,
                )),
            out@ matches Some((lo, hi)) ==> {
                &&& (r@ matches Some((a, _)) && a == lo) || exists|k: int|
                    0 <= k < n && (#[trigger] samples[k]).1 == Some(lo as i64) && lo as i64 == lo
                &&& (r@ matches Some((_, b)) && b == hi) || exists|k: int|
                    0 <= k < n && (#[trigger] samples[k]).1 == Some(hi as i64) && hi as i64 == hi
            },
        decreases samples.len() - n,
    {
        let ghost prev: Range = out;
        match samples[n].1 {
            None => {},
            Some(y) => {
                out = out.merge(y);
                proof {
                    assert(samples[n as int].1 == Some(y));
                }
            },
        }
        proof {
            if out@ is Some {
                let (lo, hi) = out@->0;
                if prev@ matches Some((plo, _)) && plo == lo {
                    if !(r@ matches Some((a, _)) && a == lo) {
                        let k: int = choose|k: int|
                            0 <= k < n && (#[trigger] samples[k]).1 == Some(lo as i64) && lo as i64
                                == lo;
                        assert(0 <= k < n + 1 && samples[k].1 == Some(lo as i64));
                    }
                } else {
                    assert(0 <= n < n + 1 && samples[n as int].1 == Some(lo as i64));
                }
                if prev@ matches Some((_, phi)) && phi == hi {
                    if !(r@ matches Some((_, b)) && b == hi) {
                        let k: int = choose|k: int|
                            0 <= k < n && (#[trigger] samples[k]).1 == Some(hi as i64) && hi as i64
                                == hi;
                        assert(0 <= k < n + 1 && samples[k].1 == Some(hi as i64));
                    }
                } else {
                    assert(0 <= n < n + 1 && samples[n as int].1 == Some(hi as i64));
                }
            }
        }
        n += 1;
    }
    out
}

/// What a store holds, as plain sequences.
pub struct DataView {
    /// The shared index: every `x` that occurs, ascending, each once.
    pub xs: Seq<i64>,
    /// The series, in the order in which they were given.
    pub ids: Seq<usize>,
    /// `ys[s][i]` is the value of series `s` at `xs[i]`, if it has one.
    pub ys: Seq<Seq<Option<i64>>>,
    /// The interval of the `x` values.
    pub range_x: Option<(int, int)>,
    /// The interval of the `y` values of all samples.
    pub range_y: Option<(int, int)>,
}

impl DataView {
    /// The index is strictly increasing, every series has one place for
    /// each index entry, the `x` range runs from the first index entry to
    /// the last, and the `y` range holds every value of the store.
    pub open spec fn wf(self) -> bool {
        &&& strictly_increasing(self.xs)
        &&& self.ys.len() == self.ids.len()
        &&& forall|s: int| 0 <= s < self.ys.len() ==> (#[trigger] self.ys[s]).len() == self.xs.len()
        &&& self.range_x == if self.xs.len() == 0 {
            None
        } else {
            Some((self.xs[0] as int, self.xs.last() as int))
        }
        &&& forall|s: int, i: int|
            0 <= s < self.ys.len() && 0 <= i < self.xs.len() ==> ((#[trigger] self.ys[s][i]) matches Some(
                y,
            ) ==> interval_contains(self.range_y, y as int))
        &&& self.range_y matches Some((lo, hi)) ==> i64::MIN <= lo <= hi <= i64::MAX
    }

    /// This is the store of the samples `series`. Its series are those of
    /// `series`. Its index holds exactly the `x` values of the samples.
    /// Each series has at each index entry what its last sample at that
    /// `x` has. The `x` range is the interval of the index and holds the
    /// `x` of every sample. The `y` range holds the `y` of every sample,
    /// also of one that a later sample at the same `x` has replaced; each
    /// of its ends is the `y` of a sample, so it is empty exactly when no
    /// sample has a `y`.
    pub open spec fn holds(self, series: Seq<SeriesSamples>) -> bool {
        &&& self.ids.len() == series.len()
        &&& forall|s: int| 0 <= s < series.len() ==> self.ids[s] == (#[trigger] series[s]).id
        &&& forall|x: i64| self.xs.contains(x) <==> series_have_x(series, series.len() as int, x)
        &&& forall|s: int, i: int|
            0 <= s < series.len() && 0 <= i < self.xs.len() ==> #[trigger] self.ys[s][i]
                == last_y_at(series[s].samples@, self.xs[i])
        &&& self.range_x == interval_of(self.xs)
        &&& covers_sample_xs(self.range_x, series)
        &&& covers_sample_ys(self.range_y, series, series.len() as int)
        &&& self.range_y matches Some((lo, hi)) ==> is_sample_y(series, series.len() as int, lo)
            && is_sample_y(series, series.len() as int, hi)
    }

    /// `s` is the first series with the identifier `id`.
    pub open spec fn is_series(self, id: usize, s: int) -> bool {
        &&& 0 <= s < self.ids.len()
        &&& self.ids[s] == id
        &&& forall|t: int| 0 <= t < s ==> self.ids[t] != id
    }

    /// No series has the identifier `id`.
    pub open spec fn no_series(self, id: usize) -> bool {
        forall|t: int| 0 <= t < self.ids.len() ==> self.ids[t] != id
    }
}

/// `more` holds every sample of `fewer`: it has the series of `fewer`,
/// each with the samples of `fewer` in front, and may have more of both.
pub open spec fn extends(fewer: Seq<SeriesSamples>, more: Seq<SeriesSamples>) -> bool {
    &&& fewer.len() <= more.len()
    &&& forall|s: int|
        0 <= s < fewer.len() ==> (#[trigger] fewer[s]).samples@.len() <= more[s].samples@.len()
    &&& forall|s: int, k: int|
        0 <= s < fewer.len() && 0 <= k < fewer[s].samples@.len() ==> more[s].samples@[k]
            == #[trigger] fewer[s].samples@[k]
}

/// More samples never shrink the ranges of a store: what lies in a range
/// of the store of `fewer` lies in that range of the store of `more`.
pub proof fn lemma_more_samples_never_shrink_store(
    a: DataView,
    b: DataView,
    fewer: Seq<SeriesSamples>,
    more: Seq<SeriesSamples>,
    w: int,
)
    requires
        a.wf(),
        b.wf(),
        a.holds(fewer),
        b.holds(more),
        extends(fewer, more),
    ensures
        interval_contains(a.range_x, w) ==> interval_contains(b.range_x, w),
        interval_contains(a.range_y, w) ==> interval_contains(b.range_y, w),
{
    if a.range_x is Some {
        assert forall|v: i64| a.xs.contains(v) implies interval_contains(b.range_x, v as int) by {
            let s: int = choose|s: int|
                0 <= s < fewer.len() && #[trigger] samples_have_x(
                    fewer[s].samples@,
                    fewer[s].samples@.len() as int,
                    v,
                );
            let k: int = choose|k: int|
                0 <= k < fewer[s].samples@.len() && (#[trigger] fewer[s].samples@[k]).0 == v;
            assert(more[s].samples@[k] == fewer[s].samples@[k]);
        }
        assert(a.xs.contains(a.xs[0]));
        assert(a.xs.contains(a.xs.last()));
    }
    if a.range_y is Some {
        let (lo, hi) = a.range_y->0;
        let (s, k) = choose|s: int, k: int|
            0 <= s < fewer.len() && 0 <= k < fewer[s].samples@.len() && (
            #[trigger] fewer[s].samples@[k]).1 == Some(lo as i64) && lo as i64 == lo;
        assert(more[s].samples@[k] == fewer[s].samples@[k]);
        let (s2, k2) = choose|s: int, k: int|
            0 <= s < fewer.len() && 0 <= k < fewer[s].samples@.len() && (
            #[trigger] fewer[s].samples@[k]).1 == Some(hi as i64) && hi as i64 == hi;
        assert(more[s2].samples@[k2] == fewer[s2].samples@[k2]);
    }
}

/// The series data store. It is built once from the samples of all series
/// and only read afterwards.
#[derive(Clone, Debug, PartialEq, Eq)]
pub struct Data {
    data_x: Vec<i64>,
    ids: Vec<usize>,
    data_y: Vec<Vec<Option<i64>>>,
    range_x: Range,
    range_y: Range,
}

impl View for Data {
    type V = DataView;

    closed spec fn view(&self) -> DataView {
        DataView {
            xs: self.data_x@,
            ids: self.ids@,
            ys: Seq::new(self.data_y@.len(), |s: int| self.data_y@[s]@),
            range_x: self.range_x@,
            range_y: self.range_y@,
        }
    }
}

impl Data {
    /// See `DataView::wf`.
    pub open spec fn wf(&self) -> bool {
        self@.wf()
    }

    /// The store of the given samples: see `DataView::holds`. The index is
    /// sorted and free of repeats whatever the order of the samples, and
    /// the `y` range holds the `y` of every sample.
    pub fn new(series: &Vec<SeriesSamples>) -> (d: Data)
        ensures
            d.wf(),
            d@.holds(series@),
            forall|s: int, k: int|
                0 <= s < series.len() && 0 <= k < series[s].samples.len() ==> ((
                #[trigger] series[s].samples[k]).1 matches Some(y) ==> interval_contains(
                    d@.range_y,
                    y as int,
                )),
    {
        let data_x: Vec<i64> = build_index(series);
        let range_x: Range = if data_x.len() == 0 {
            Range::empty()
        } else {
            proof {
                if data_x.len() > 1 {
                    assert(data_x[0] < data_x[data_x.len() - 1]);
                }
            }
            Range::new(data_x[0], data_x[data_x.len() - 1])
        };
        let mut ids: Vec<usize> = Vec::new();
        let mut data_y: Vec<Vec<Option<i64>>> = Vec::new();
        let mut range_y: Range = Range::empty();
        let mut s: usize = 0;
        while s < series.len()
            invariant
                s <= series.len(),
                ids.len() == s,
                data_y.len() == s,
                range_y.wf(),
                strictly_increasing(data_x@),
                forall|v: i64| data_x@.contains(v) <==> series_have_x(series@, series@.len() as int, v),
                forall|t: int| 0 <= t < s ==> ids[t] == (#[trigger] series[t]).id,
                forall|t: int| 0 <= t < s ==> (#[trigger] data_y[t]).len() == data_x.len(),
                forall|t: int, i: int|
                    0 <= t < s && 0 <= i < data_x.len() ==> #[trigger] data_y[t][i] == last_y_at(
                        series[t].samples@,
                        data_x[i],
                    ),
                covers_sample_ys(range_y@, series@, s as int),
                range_y@ matches Some((lo, hi)) ==> is_sample_y(series@, s as int, lo) && is_sample_y(
                    series@,
                    s as int,
                    hi,
                ),
            decreases series.len() - s,
        {
            let samples: &Vec<(i64, Option<i64>)> = &series[s].samples;
            proof {
                assert forall|k: int| 0 <= k < samples.len() implies data_x@.contains(
                    (#[trigger] samples[k]).0,
                ) by {
                    assert(samples_have_x(samples@, samples@.len() as int, samples[k].0));
                    assert(series_have_x(series@, series@.len() as int, samples[k].0));
                }
            }
            let col: Vec<Option<i64>> = build_column(&data_x, samples);
            let ghost prev: Range = range_y;
            let ghost prev_y: Seq<Vec<Option<i64>>> = data_y@;
            range_y = merge_samples(range_y, samples);
            ids.push(series[s].id);
            data_y.push(col);
            proof {
                assert forall|t: int| 0 <= t < s implies data_y[t] == prev_y[t] by {}
                assert(data_y[s as int] == col);
                assert(series@[s as int].samples@ == samples@);
                if range_y@ is Some {
                    let (lo, hi) = range_y@->0;
                    if prev@ matches Some((a, _)) && a == lo {
                        let (t, k) = choose|t: int, k: int|
                            0 <= t < s && 0 <= k < series@[t].samples@.len() && (
                            #[trigger] series@[t].samples@[k]).1 == Some(lo as i64) && lo as i64
                                == lo;
                        assert(0 <= t < s + 1 && series@[t].samples@[k].1 == Some(lo as i64));
                    } else {
                        let k: int = choose|k: int|
                            0 <= k < samples.len() && (#[trigger] samples[k]).1 == Some(lo as i64)
                                && lo as i64 == lo;
                        assert(0 <= s < s + 1 && series@[s as int].samples@[k].1 == Some(lo as i64));
                    }
                    if prev@ matches Some((_, b)) && b == hi {
                        let (t, k) = choose|t: int, k: int|
                            0 <= t < s && 0 <= k < series@[t].samples@.len() && (
                            #[trigger] series@[t].samples@[k]).1 == Some(hi as i64) && hi as i64
                                == hi;
                        assert(0 <= t < s + 1 && series@[t].samples@[k].1 == Some(hi as i64));
                    } else {
                        let k: int = choose|k: int|
                            0 <= k < samples.len() && (#[trigger] samples[k]).1 == Some(hi as i64)
                                && hi as i64 == hi;
                        assert(0 <= s < s + 1 && series@[s as int].samples@[k].1 == Some(hi as i64));
                    }
                }
            }
            s += 1;
        }
        let d: Data = Data { data_x, ids, data_y, range_x, range_y };
        proof {
            lemma_interval_of_sorted(d.data_x@);
            assert forall|t: int| 0 <= t < d@.ys.len() implies (#[trigger] d@.ys[t]) == d.data_y[t]@ by {}
            assert forall|t: int, i: int|
                0 <= t < d@.ys.len() && 0 <= i < d@.xs.len() implies ((
            #[trigger] d@.ys[t][i]) matches Some(y) ==> interval_contains(d@.range_y, y as int)) by {
                lemma_last_y_at_is_a_sample(series@[t].samples@, d@.xs[i]);
                if d@.ys[t][i] is Some {
                    let y: i64 = d@.ys[t][i]->0;
                    let k: int = choose|k: int|
                        0 <= k < series@[t].samples@.len() && #[trigger] series@[t].samples@[k] == (
                            d@.xs[i],
                            Some(y),
                        );
                    assert(series@[t].samples@[k].1 == Some(y));
                }
            }
            assert forall|t: int, k: int|
                0 <= t < series@.len() && 0 <= k < series@[t].samples@.len() implies interval_contains(
                d@.range_x,
                (#[trigger] series@[t].samples@[k]).0 as int,
            ) by {
                let x: i64 = series@[t].samples@[k].0;
                assert(samples_have_x(series@[t].samples@, series@[t].samples@.len() as int, x));
                assert(series_have_x(series@, series@.len() as int, x));
                assert(d.data_x@.contains(x));
                let i: int = choose|i: int| 0 <= i < d@.xs.len() && d@.xs[i] == x;
                if 0 < i {
                    assert(d@.xs[0] < d@.xs[i]);
                }
                if i < d@.xs.len() - 1 {
                    assert(d@.xs[i] < d@.xs[d@.xs.len() - 1]);
                }
            }
        }
        d
    }

    /// The number of entries of the shared index.
    pub fn len(&self) -> (n: usize)
        ensures
            n == self@.xs.len(),
    {
        self.data_x.len()
    }

    /// Whether the store holds no sample at all.
    pub fn is_empty(&self) -> (b: bool)
        ensures
            b == (self@.xs.len() == 0),
    {
        self.data_x.len() == 0
    }

    /// The shared index.
    pub fn data_x(&self) -> (xs: &Vec<i64>)
        ensures
            xs@ == self@.xs,
    {
        &self.data_x
    }

    /// The identifiers of the series, in the order given.
    pub fn series_ids(&self) -> (ids: &Vec<usize>)
        ensures
            ids@ == self@.ids,
    {
        &self.ids
    }

    /// The interval of the `x` values.
    pub fn range_x(&self) -> (r: Range)
        requires
            self.wf(),
        ensures
            r.wf(),
            r@ == self@.range_x,
    {
        self.range_x
    }

    /// The interval of the `y` values of all samples.
    pub fn range_y(&self) -> (r: Range)
        requires
            self.wf(),
        ensures
            r.wf(),
            r@ == self@.range_y,
    {
        self.range_y
    }

    /// The value of the series at the place `s` at the index entry `i`.
    pub fn value_at(&self, s: usize, i: usize) -> (y: Option<i64>)
        requires
            self.wf(),
            s < self@.ids.len(),
            i < self@.xs.len(),
        ensures
            y == self@.ys[s as int][i as int],
    {
        proof {
            assert(self@.ys[s as int].len() == self@.xs.len());
        }
        self.data_y[s][i]
    }

    /// The index entry nearest to `pos_x`, the lower of two that are
    /// equally near; none only when the store is empty.
    pub fn nearest_index(&self, pos_x: i64) -> (r: Option<usize>)
        requires
            self.wf(),
        ensures
            r is None <==> self@.xs.len() == 0,
            r matches Some(i) ==> is_nearest(self@.xs, pos_x, i as int),
    {
        nearest_in(&self.data_x, pos_x)
    }

    /// The `x` value of the store nearest to `pos_x`, the lower of two that
    /// are equally near; none only when the store is empty.
    pub fn nearest_data_x(&self, pos_x: i64) -> (r: Option<i64>)
        requires
            self.wf(),
        ensures
            r is None <==> self@.xs.len() == 0,
            r matches Some(x) ==> exists|i: int| is_nearest(self@.xs, pos_x, i) && self@.xs[i] == x,
    {
        match nearest_in(&self.data_x, pos_x) {
            None => None,
            Some(i) => Some(self.data_x[i]),
        }
    }

    /// The pixel column, under `proj`, of the `x` value nearest to `pos_x`;
    /// none only when the store is empty.
    pub fn nearest_position_x(&self, pos_x: i64, proj: &Projection) -> (r: Option<i32>)
        requires
            self.wf(),
            proj.wf(),
        ensures
            r is None <==> self@.xs.len() == 0,
            r matches Some(px) ==> exists|i: int|
                is_nearest(self@.xs, pos_x, i) && px == crate::arith::clamp(
                    proj@.x_to_svg(self@.xs[i] as int),
                    i32::MIN as int,
                    i32::MAX as int,
                ),
    {
        match nearest_in(&self.data_x, pos_x) {
            None => None,
            Some(i) => Some(proj.x_to_svg(self.data_x[i])),
        }
    }

    /// For each series, in the order given, its identifier and its value at
    /// the index entry nearest to `pos_x`: nothing where the series has no
    /// sample there, and nothing at all for an empty store.
    pub fn nearest_data_y(&self, pos_x: i64) -> (r: Vec<(usize, Option<i64>)>)
        requires
            self.wf(),
        ensures
            r.len() == self@.ids.len(),
            forall|s: int| 0 <= s < r.len() ==> (#[trigger] r[s]).0 == self@.ids[s],
            self@.xs.len() == 0 ==> forall|s: int| 0 <= s < r.len() ==> (#[trigger] r[s]).1 is None,
            forall|i: int, s: int|
                is_nearest(self@.xs, pos_x, i) && 0 <= s < r.len() ==> (#[trigger] r[s]).1
                    == #[trigger] self@.ys[s][i],
    {
        let nearest: Option<usize> = nearest_in(&self.data_x, pos_x);
        let mut r: Vec<(usize, Option<i64>)> = Vec::new();
        let mut s: usize = 0;
        while s < self.ids.len()
            invariant
                s <= self.ids.len(),
                self.wf(),
                r.len() == s,
                nearest is None <==> self.data_x.len() == 0,
                nearest matches Some(i) ==> i < self.data_x.len(),
                forall|t: int| 0 <= t < s ==> (#[trigger] r[t]).0 == self.ids[t],
                forall|t: int|
                    0 <= t < s ==> (#[trigger] r[t]).1 == match nearest {
                        None => None,
                        Some(i) => self.data_y[t][i as int],
                    },
            decreases self.ids.len() - s,
        {
            proof {
                assert(self@.ys[s as int].len() == self@.xs.len());
            }
            let y: Option<i64> = match nearest {
                None => None,
                Some(i) => self.data_y[s][i],
            };
            r.push((self.ids[s], y));
            s += 1;
        }
        proof {
            assert forall|i: int, s: int|
                is_nearest(self@.xs, pos_x, i) && 0 <= s < r.len() implies (#[trigger] r[s]).1
                == #[trigger] self@.ys[s][i] by {
                lemma_nearest_is_unique(self@.xs, pos_x, i, nearest->0 as int);
            }
        }
        r
    }

    /// The place of the first series with the identifier `id`, if any.
    pub fn find_series(&self, id: usize) -> (r: Option<usize>)
        ensures
            match r {
                Some(s) => self@.is_series(id, s as int),
                None => self@.no_series(id),
            },
    {
        let mut s: usize = 0;
        while s < self.ids.len()
            invariant
                s <= self.ids.len(),
                forall|t: int| 0 <= t < s ==> self.ids[t] != id,
            decreases self.ids.len() - s,
        {
            if self.ids[s] == id {
                return Some(s);
            }
            s += 1;
        }
        None
    }

    /// The samples of the first series with the identifier `id`, one for
    /// each entry of the shared index and in its order: the `x` and the
    /// value, or nothing where the series has a gap. A series that is not
    /// in the store has a gap everywhere.
    pub fn series_positions(&self, id: usize) -> (r: Vec<(i64, Option<i64>)>)
        requires
            self.wf(),
        ensures
            r.len() == self@.xs.len(),
            forall|i: int| 0 <= i < r.len() ==> (#[trigger] r[i]).0 == self@.xs[i],
            self@.no_series(id) ==> forall|i: int| 0 <= i < r.len() ==> (#[trigger] r[i]).1 is None,
            forall|s: int, i: int|
                self@.is_series(id, s) && 0 <= i < r.len() ==> (#[trigger] r[i]).1
                    == #[trigger] self@.ys[s][i],
    {
        let found: Option<usize> = self.find_series(id);
        let mut r: Vec<(i64, Option<i64>)> = Vec::new();
        let mut i: usize = 0;
        while i < self.data_x.len()
            invariant
                i <= self.data_x.len(),
                self.wf(),
                r.len() == i,
                match found {
                    Some(s) => self@.is_series(id, s as int),
                    None => self@.no_series(id),
                },
                forall|k: int| 0 <= k < i ==> (#[trigger] r[k]).0 == self.data_x[k],
                forall|k: int|
                    0 <= k < i ==> (#[trigger] r[k]).1 == match found {
                        None => None,
                        Some(s) => self.data_y[s as int][k],
                    },
            decreases self.data_x.len() - i,
        {
            let y: Option<i64> = match found {
                None => None,
                Some(s) => {
                    proof {
                        assert(self@.ys[s as int].len() == self@.xs.len());
                    }
                    self.data_y[s][i]
                },
            };
            r.push((self.data_x[i], y));
            i += 1;
        }
        proof {
            assert forall|s: int, k: int|
                self@.is_series(id, s) && 0 <= k < r.len() implies (#[trigger] r[k]).1
                == #[trigger] self@.ys[s][k] by {
                let f: int = found->0 as int;
                if s < f {
                    assert(self@.ids[s] != id);
                } else if f < s {
                    assert(self@.ids[f] != id);
                }
            }
        }
        r
    }
}

} // verus!
