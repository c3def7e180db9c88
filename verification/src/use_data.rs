//! The data of one chart: the store of its series, the series themselves
//! and the range of each axis, widened by the bounds that the chart asks
//! for.

use crate::arith::clamp;
use crate::data::{
    extends, is_nearest, lemma_more_samples_never_shrink_store, lemma_nearest_is_unique, Data,
    DataView, SeriesSamples,
};
use crate::names::{is_name_order, name_order, occurs};
use crate::projection::Projection;
use crate::range::{interval_contains, interval_insert_opt, Range};
use vstd::prelude::*;

verus! {

/// How a series is drawn.
#[derive(Clone, Copy, Debug, PartialEq, Eq)]
pub enum SeriesKind {
    Line,
    Bar,
}

/// One series of a chart: the identifier under which the store holds its
/// samples, and how it is drawn.
#[derive(Clone, Copy, Debug, PartialEq, Eq)]
pub struct UseY {
    pub id: usize,
    pub kind: SeriesKind,
}

impl UseY {
    /// Whether the series is drawn as bars.
    pub fn is_bar(&self) -> (b: bool)
        ensures
            b == (self.kind is Bar),
    {
        match self.kind {
            SeriesKind::Bar => true,
            SeriesKind::Line => false,
        }
    }
}

/// The series of a chart, their names, and the bounds that its axes are
/// to cover at least, where any are asked for. The name of the line `i` is
/// `names[i]`, as bytes of UTF-8; a line without one has the empty name.
#[derive(Clone, Debug, PartialEq, Eq)]
pub struct Series {
    pub lines: Vec<UseY>,
    pub names: Vec<Vec<u8>>,
    pub min_x: Option<i64>,
    pub max_x: Option<i64>,
    pub min_y: Option<i64>,
    pub max_y: Option<i64>,
}

/// What the data of a chart holds.
pub struct UseDataView {
    pub data: DataView,
    pub series: Seq<UseY>,
    pub includes_bars: bool,
    pub range_x: Option<(int, int)>,
    pub range_y: Option<(int, int)>,
}

/// Whether one of `series` is drawn as bars.
pub open spec fn any_bar(series: Seq<UseY>) -> bool {
    exists|k: int| 0 <= k < series.len() && (#[trigger] series[k]).kind is Bar
}

impl UseDataView {
    /// The store is well formed, each range runs upwards within `i64` and
    /// covers what the store holds on its axis, and `includes_bars` says
    /// whether a series is drawn as bars.
    pub open spec fn wf(self) -> bool {
        &&& self.data.wf()
        &&& self.range_x matches Some((lo, hi)) ==> i64::MIN <= lo <= hi <= i64::MAX
        &&& self.range_y matches Some((lo, hi)) ==> i64::MIN <= lo <= hi <= i64::MAX
        &&& forall|w: int|
            interval_contains(self.data.range_x, w) ==> interval_contains(self.range_x, w)
        &&& forall|w: int|
            interval_contains(self.data.range_y, w) ==> interval_contains(self.range_y, w)
        &&& self.includes_bars == any_bar(self.series)
    }

    /// Each range is that of the store, widened to the bounds that `asked`
    /// asks for.
    pub open spec fn widened_by(self, asked: Series) -> bool {
        &&& self.range_x == interval_insert_opt(
            interval_insert_opt(self.data.range_x, asked.min_x),
            asked.max_x,
        )
        &&& self.range_y == interval_insert_opt(
            interval_insert_opt(self.data.range_y, asked.min_y),
            asked.max_y,
        )
    }
}

/// `r` is `lines` sorted by name: some order of the lines by name, in
/// which lines of equal names keep their places, takes `lines` to `r`.
pub open spec fn is_sorted_by_name(r: Seq<UseY>, lines: Seq<UseY>, names: Seq<Vec<u8>>) -> bool {
    exists|p: Seq<usize>|
        {
            &&& #[trigger] is_name_order(p, names, lines.len() as int)
            &&& r.len() == lines.len()
            &&& forall|i: int| 0 <= i < r.len() ==> r[i] == lines[p[i] as int]
        }
}

/// The lines sorted by name, byte by byte as text is compared. Lines of
/// equal names keep the order in which they were given.
pub fn sort_by_name(lines: &Vec<UseY>, names: &Vec<Vec<u8>>) -> (r: Vec<UseY>)
    ensures
        is_sorted_by_name(r@, lines@, names@),
        any_bar(r@) == any_bar(lines@),
{
    let order: Vec<usize> = name_order(names, lines.len());
    let mut r: Vec<UseY> = Vec::new();
    let mut i: usize = 0;
    while i < order.len()
        invariant
            i <= order.len(),
            is_name_order(order@, names@, lines.len() as int),
            r.len() == i,
            forall|j: int| 0 <= j < i ==> #[trigger] r[j] == lines[order[j] as int],
        decreases order.len() - i,
    {
        r.push(lines[order[i]]);
        i += 1;
    }
    proof {
        if any_bar(r@) {
            let k: int = choose|k: int| 0 <= k < r.len() && (#[trigger] r[k]).kind is Bar;
            assert(lines[order[k] as int].kind is Bar);
        }
        if any_bar(lines@) {
            let v: int = choose|v: int| 0 <= v < lines.len() && (#[trigger] lines[v]).kind is Bar;
            assert(occurs(order@, v));
            let k: int = choose|k: int| 0 <= k < order@.len() && #[trigger] order@[k] == v;
            assert(r[k].kind is Bar);
        }
    }
    r
}

/// More samples never shrink the ranges of a chart: with the same bounds
/// asked for, what lies in a range of the chart of `fewer` lies in that
/// range of the chart of `more`.
pub proof fn lemma_more_samples_never_shrink_ranges(
    a: UseDataView,
    b: UseDataView,
    fewer: Seq<SeriesSamples>,
    more: Seq<SeriesSamples>,
    asked: Series,
    w: int,
)
    requires
        a.wf(),
        b.wf(),
        a.data.holds(fewer),
        b.data.holds(more),
        extends(fewer, more),
        a.widened_by(asked),
        b.widened_by(asked),
    ensures
        interval_contains(a.range_x, w) ==> interval_contains(b.range_x, w),
        interval_contains(a.range_y, w) ==> interval_contains(b.range_y, w),
{
    if a.data.range_x is Some {
        let (lo, hi) = a.data.range_x->0;
        lemma_more_samples_never_shrink_store(a.data, b.data, fewer, more, lo);
        lemma_more_samples_never_shrink_store(a.data, b.data, fewer, more, hi);
    }
    if a.data.range_y is Some {
        let (lo, hi) = a.data.range_y->0;
        lemma_more_samples_never_shrink_store(a.data, b.data, fewer, more, lo);
        lemma_more_samples_never_shrink_store(a.data, b.data, fewer, more, hi);
    }
}

/// The data of one chart. It is derived in one piece from the series and
/// their samples, and made anew when either changes.
#[derive(Clone, Debug, PartialEq, Eq)]
pub struct UseData {
    data: Data,
    series: Vec<UseY>,
    includes_bars: bool,
    range_x: Range,
    range_y: Range,
}

impl View for UseData {
    type V = UseDataView;

    closed spec fn view(&self) -> UseDataView {
        UseDataView {
            data: self.data@,
            series: self.series@,
            includes_bars: self.includes_bars,
            range_x: self.range_x@,
            range_y: self.range_y@,
        }
    }
}

/// Whether any of `lines` is drawn as bars.
fn has_bar(lines: &Vec<UseY>) -> (b: bool)
    ensures
        b == any_bar(lines@),
{
    let mut k: usize = 0;
    while k < lines.len()
        invariant
            k <= lines.len(),
            forall|j: int| 0 <= j < k ==> !((#[trigger] lines[j]).kind is Bar),
        decreases lines.len() - k,
    {
        if lines[k].is_bar() {
            return true;
        }
        k += 1;
    }
    false
}

impl UseData {
    /// See `UseDataView::wf`.
    pub open spec fn wf(&self) -> bool {
        self@.wf()
    }

    /// The data of a chart with the given series, whose samples `data`
    /// holds under their identifiers. The series are sorted by name. The
    /// store is that of `data`. Each range is that of the store, widened
    /// to the bounds asked for, so it holds the coordinate of every sample.
    pub fn new(series: Series, data: &Vec<SeriesSamples>) -> (u: UseData)
        ensures
            u.wf(),
            is_sorted_by_name(u@.series, series.lines@, series.names@),
            u@.includes_bars == any_bar(series.lines@),
            u@.data.holds(data@),
            u@.widened_by(series),
            forall|s: int, k: int|
                0 <= s < data.len() && 0 <= k < data[s].samples.len() ==> {
                    &&& interval_contains(u@.range_x, (#[trigger] data[s].samples[k]).0 as int)
                    &&& data[s].samples[k].1 matches Some(y) ==> interval_contains(
                        u@.range_y,
                        y as int,
                    )
                },
    {
        let store: Data = Data::new(data);
        let range_x: Range = store.range_x().replace(series.min_x, series.max_x);
        let range_y: Range = store.range_y().replace(series.min_y, series.max_y);
        let lines: Vec<UseY> = sort_by_name(&series.lines, &series.names);
        let includes_bars: bool = has_bar(&lines);
        UseData { data: store, series: lines, includes_bars, range_x, range_y }
    }

    /// The number of entries of the shared index of `x` values.
    pub fn len(&self) -> (n: usize)
        ensures
            n == self@.data.xs.len(),
    {
        self.data.len()
    }

    /// The store.
    pub fn data(&self) -> (d: &Data)
        ensures
            d@ == self@.data,
    {
        &self.data
    }

    /// The series, in the order given.
    pub fn series(&self) -> (s: &Vec<UseY>)
        ensures
            s@ == self@.series,
    {
        &self.series
    }

    /// Whether a series is drawn as bars.
    pub fn includes_bars(&self) -> (b: bool)
        ensures
            b == self@.includes_bars,
    {
        self.includes_bars
    }

    /// The range of the `x` axis.
    pub fn range_x(&self) -> (r: Range)
        requires
            self.wf(),
        ensures
            r.wf(),
            r@ == self@.range_x,
    {
        self.range_x
    }

    /// The range of the `y` axis.
    pub fn range_y(&self) -> (r: Range)
        requires
            self.wf(),
        ensures
            r.wf(),
            r@ == self@.range_y,
    {
        self.range_y
    }

    /// The `x` value of the store nearest to `pos_x`, the lower of two that
    /// are equally near; none only when the store is empty.
    pub fn nearest_data_x(&self, pos_x: i64) -> (r: Option<i64>)
        requires
            self.wf(),
        ensures
            r is None <==> self@.data.xs.len() == 0,
            r matches Some(x) ==> exists|i: int|
                is_nearest(self@.data.xs, pos_x, i) && self@.data.xs[i] == x,
    {
        self.data.nearest_data_x(pos_x)
    }

    /// The pixel column, under `proj`, of the `x` value nearest to `pos_x`;
    /// none only when the store is empty.
    pub fn nearest_position_x(&self, pos_x: i64, proj: &Projection) -> (r: Option<i32>)
        requires
            self.wf(),
            proj.wf(),
        ensures
            r is None <==> self@.data.xs.len() == 0,
            r matches Some(px) ==> exists|i: int|
                is_nearest(self@.data.xs, pos_x, i) && px == clamp(
                    proj@.x_to_svg(self@.data.xs[i] as int),
                    i32::MIN as int,
                    i32::MAX as int,
                ),
    {
        self.data.nearest_position_x(pos_x, proj)
    }

    /// Each series, in the order given, with its value at the `x` nearest
    /// to `pos_x`. A series has no value there where the store is empty,
    /// where it holds no samples under the identifier of the series, and
    /// where the series has a gap; else it is the value of the first series
    /// of the store with that identifier.
    pub fn nearest_data_y(&self, pos_x: i64) -> (r: Vec<(UseY, Option<i64>)>)
        requires
            self.wf(),
        ensures
            r.len() == self@.series.len(),
            forall|k: int| 0 <= k < r.len() ==> (#[trigger] r[k]).0 == self@.series[k],
            forall|k: int|
                0 <= k < r.len() && (self@.data.xs.len() == 0 || self@.data.no_series(
                    self@.series[k].id,
                )) ==> (#[trigger] r[k]).1 is None,
            forall|k: int, s: int, i: int|
                0 <= k < r.len() && #[trigger] self@.data.is_series(self@.series[k].id, s)
                    && #[trigger] is_nearest(self@.data.xs, pos_x, i) ==> (#[trigger] r[k]).1
                    == self@.data.ys[s][i],
    {
        let nearest: Option<usize> = self.data.nearest_index(pos_x);
        let mut r: Vec<(UseY, Option<i64>)> = Vec::new();
        let mut k: usize = 0;
        while k < self.series.len()
            invariant
                k <= self.series.len(),
                self.wf(),
                r.len() == k,
                nearest is None <==> self@.data.xs.len() == 0,
                nearest matches Some(i) ==> is_nearest(self@.data.xs, pos_x, i as int),
                forall|j: int| 0 <= j < k ==> (#[trigger] r[j]).0 == self.series[j],
                forall|j: int|
                    0 <= j < k && (self@.data.xs.len() == 0 || self@.data.no_series(
                        self.series[j].id,
                    )) ==> (#[trigger] r[j]).1 is None,
                forall|j: int, s: int|
                    0 <= j < k && #[trigger] self@.data.is_series(self.series[j].id, s) && nearest
                        is Some ==> (#[trigger] r[j]).1 == self@.data.ys[s][nearest->0 as int],
            decreases self.series.len() - k,
        {
            let line: UseY = self.series[k];
            let found: Option<usize> = self.data.find_series(line.id);
            let y: Option<i64> = match (found, nearest) {
                (Some(s), Some(i)) => self.data.value_at(s, i),
                _ => None,
            };
            proof {
                assert forall|s: int| #[trigger]
                    self@.data.is_series(line.id, s) && nearest is Some implies y
                    == self@.data.ys[s][nearest->0 as int] by {
                    match found {
                        None => {
                            assert(self@.data.ids[s] != line.id);
                        },
                        Some(f) => {
                            if s < f {
                                assert(self@.data.ids[s] != line.id);
                            } else if f < s {
                                assert(self@.data.ids[f as int] != line.id);
                            }
                        },
                    }
                }
                if self@.data.no_series(line.id) && found is Some {
                    assert(self@.data.ids[found->0 as int] != line.id);
                }
            }
            r.push((line, y));
            k += 1;
        }
        proof {
            assert forall|k: int, s: int, i: int|
                0 <= k < r.len() && #[trigger] self@.data.is_series(self@.series[k].id, s)
                    && #[trigger] is_nearest(self@.data.xs, pos_x, i) implies (#[trigger] r[k]).1
                == self@.data.ys[s][i] by {
                lemma_nearest_is_unique(self@.data.xs, pos_x, i, nearest->0 as int);
            }
        }
        r
    }

    /// Where the samples of the series `id` are drawn under `proj`: one
    /// pixel for each entry of the shared index, in its order. A coordinate
    /// is missing where the series has a gap or no samples at all; a value
    /// outside the range of its axis would be missing too, but the ranges
    /// cover the store.
    pub fn svg_positions(&self, id: usize, proj: &Projection) -> (r: Vec<(Option<i32>, Option<i32>)>)
        requires
            self.wf(),
            proj.wf(),
        ensures
            r.len() == self@.data.xs.len(),
            forall|i: int|
                0 <= i < r.len() ==> (#[trigger] r[i]).0 == Some(
                    clamp(proj@.x_to_svg(self@.data.xs[i] as int), i32::MIN as int, i32::MAX as int) as i32,
                ),
            self@.data.no_series(id) ==> forall|i: int|
                0 <= i < r.len() ==> (#[trigger] r[i]).1 is None,
            forall|s: int, i: int|
                #[trigger] self@.data.is_series(id, s) && 0 <= i < r.len() ==> (#[trigger] r[i]).1
                    == match self@.data.ys[s][i] {
                    Some(y) => Some(
                        clamp(proj@.y_to_svg(y as int), i32::MIN as int, i32::MAX as int) as i32,
                    ),
                    None => None,
                },
    {
        let positions: Vec<(i64, Option<i64>)> = self.data.series_positions(id);
        let mut r: Vec<(Option<i32>, Option<i32>)> = Vec::new();
        let mut i: usize = 0;
        while i < positions.len()
            invariant
                i <= positions.len(),
                self.wf(),
                proj.wf(),
                r.len() == i,
                positions.len() == self@.data.xs.len(),
                forall|j: int|
                    0 <= j < positions.len() ==> (#[trigger] positions[j]).0 == self@.data.xs[j],
                self@.data.no_series(id) ==> forall|j: int|
                    0 <= j < positions.len() ==> (#[trigger] positions[j]).1 is None,
                forall|s: int, j: int|
                    #[trigger] self@.data.is_series(id, s) && 0 <= j < positions.len() ==> (
                    #[trigger] positions[j]).1 == self@.data.ys[s][j],
                forall|j: int|
                    0 <= j < i ==> (#[trigger] r[j]).0 == Some(
                        clamp(
                            proj@.x_to_svg(self@.data.xs[j] as int),
                            i32::MIN as int,
                            i32::MAX as int,
                        ) as i32,
                    ),
                forall|j: int|
                    0 <= j < i ==> (#[trigger] r[j]).1 == match positions[j].1 {
                        Some(y) => Some(
                            clamp(proj@.y_to_svg(y as int), i32::MIN as int, i32::MAX as int) as i32,
                        ),
                        None => None,
                    },
            decreases positions.len() - i,
        {
            let x: i64 = positions[i].0;
            let y: Option<i64> = positions[i].1;
            proof {
                let xs: Seq<i64> = self@.data.xs;
                if 0 < i {
                    assert(xs[0] < xs[i as int]);
                }
                if i < xs.len() - 1 {
                    assert(xs[i as int] < xs[xs.len() - 1]);
                }
                assert(interval_contains(self@.data.range_x, x as int));
                if y is Some {
                    if self@.data.no_series(id) {
                        assert(positions[i as int].1 is None);
                    } else {
                        let s: int = choose|s: int|
                            0 <= s < self@.data.ids.len() && self@.data.ids[s] == id;
                        let f: int = first_with_id(self@.data, id, s);
                        assert(self@.data.is_series(id, f));
                        assert(positions[i as int].1 == self@.data.ys[f][i as int]);
                        assert(interval_contains(self@.data.range_y, y->0 as int));
                    }
                }
            }
            let shown_x: Option<i64> = if self.range_x.contains_pos(x) {
                Some(x)
            } else {
                None
            };
            let shown_y: Option<i64> = match y {
                Some(y) => if self.range_y.contains_pos(y) {
                    Some(y)
                } else {
                    None
                },
                None => None,
            };
            r.push(proj.sample_to_svg(shown_x, shown_y));
            i += 1;
        }
        r
    }
}

/// The first place of the identifier `id` among the series of `d`, given
/// one place `s` of it.
proof fn first_with_id(d: DataView, id: usize, s: int) -> (f: int)
    requires
        0 <= s < d.ids.len(),
        d.ids[s] == id,
    ensures
        d.is_series(id, f),
        f <= s,
    decreases s,
{
    if exists|t: int| 0 <= t < s && d.ids[t] == id {
        let t: int = choose|t: int| 0 <= t < s && d.ids[t] == id;
        first_with_id(d, id, t)
    } else {
        s
    }
}

} // verus!
