//! Grid lines: the ticks of an axis carried over to pixel space, as lines
//! across the inner rectangle.

use crate::arith::clamp;
use crate::bounds::Bounds;
use crate::projection::Projection;
use crate::ticks::{GeneratedTicks, TickLabels};
use crate::use_data::UseData;
use vstd::prelude::*;

verus! {

/// Vertical grid lines, one at each tick of the `x` axis.
#[derive(Clone, Copy, Debug, PartialEq, Eq)]
pub struct XGridLine {
    /// How the ticks that the lines follow are made.
    pub ticks: TickLabels,
}

/// Horizontal grid lines, one at each tick of the `y` axis.
#[derive(Clone, Copy, Debug, PartialEq, Eq)]
pub struct YGridLine {
    /// How the ticks that the lines follow are made.
    pub ticks: TickLabels,
}

/// Vertical grid lines with their ticks made.
#[derive(Clone, Debug, PartialEq, Eq)]
pub struct UseXGridLine {
    pub ticks: GeneratedTicks,
}

/// Horizontal grid lines with their ticks made.
#[derive(Clone, Debug, PartialEq, Eq)]
pub struct UseYGridLine {
    pub ticks: GeneratedTicks,
}

/// One grid line in pixel space, from `(x1, y1)` to `(x2, y2)`, with the
/// label of its tick.
#[derive(Clone, Debug, PartialEq, Eq)]
pub struct GridSegment {
    pub x1: i32,
    pub y1: i32,
    pub x2: i32,
    pub y2: i32,
    pub label: String,
}

/// The pixel of the data value `tick` along the `x` axis if `is_x`, along
/// the `y` axis if not, held to the `i32` range.
pub open spec fn tick_pixel(proj: &Projection, is_x: bool, tick: i64) -> int {
    if is_x {
        clamp(proj@.x_to_svg(tick as int), i32::MIN as int, i32::MAX as int)
    } else {
        clamp(proj@.y_to_svg(tick as int), i32::MIN as int, i32::MAX as int)
    }
}

/// For each tick, in the order of the ticks, its pixel along its axis and
/// its label.
pub fn for_ticks(ticks: &GeneratedTicks, proj: &Projection, is_x: bool) -> (r: Vec<(i32, String)>)
    requires
        proj.wf(),
    ensures
        r.len() == ticks.ticks.len(),
        forall|i: int|
            0 <= i < r.len() ==> {
                &&& (#[trigger] r[i]).0 == tick_pixel(proj, is_x, ticks.ticks[i])
                &&& r[i].1@ == ticks.state.label(ticks.ticks[i] as int)
            },
{
    let mut r: Vec<(i32, String)> = Vec::new();
    let mut i: usize = 0;
    while i < ticks.ticks.len()
        invariant
            i <= ticks.ticks.len(),
            proj.wf(),
            r.len() == i,
            forall|j: int|
                0 <= j < i ==> {
                    &&& (#[trigger] r[j]).0 == tick_pixel(proj, is_x, ticks.ticks[j])
                    &&& r[j].1@ == ticks.state.label(ticks.ticks[j] as int)
                },
        decreases ticks.ticks.len() - i,
    {
        let tick: i64 = ticks.ticks[i];
        let label: String = ticks.state.format(tick);
        let pixel: i32 = if is_x {
            proj.x_to_svg(tick)
        } else {
            proj.y_to_svg(tick)
        };
        r.push((pixel, label));
        i += 1;
    }
    r
}

impl XGridLine {
    /// Grid lines that follow the given ticks.
    pub fn from_ticks(ticks: TickLabels) -> (line: XGridLine)
        ensures
            line.ticks == ticks,
    {
        XGridLine { ticks }
    }

    /// The lines for the `x` range of `data`, with the width of `inner` to
    /// spread the labels over.
    pub fn use_horizontal(self, data: &UseData, inner: &Bounds) -> (line: UseXGridLine)
        requires
            data.wf(),
        ensures
            crate::ticks::same_values(
                line.ticks.ticks@,
                self.ticks.spec_ticks(data@.range_x, inner.right - inner.left),
            ),
            line.ticks.state == self.ticks.spec_state(data@.range_x, inner.right - inner.left),
            forall|i: int|
                0 <= i < line.ticks.ticks@.len() ==> crate::range::interval_contains(
                    data@.range_x,
                    #[trigger] line.ticks.ticks@[i] as int,
                ),
    {
        let range: crate::range::Range = data.range_x();
        UseXGridLine { ticks: self.ticks.generate(&range, inner.width()) }
    }
}

impl YGridLine {
    /// Grid lines that follow the given ticks.
    pub fn from_ticks(ticks: TickLabels) -> (line: YGridLine)
        ensures
            line.ticks == ticks,
    {
        YGridLine { ticks }
    }

    /// The lines for the `y` range of `data`, with the height of `inner` to
    /// spread the labels over.
    pub fn use_vertical(self, data: &UseData, inner: &Bounds) -> (line: UseYGridLine)
        requires
            data.wf(),
        ensures
            crate::ticks::same_values(
                line.ticks.ticks@,
                self.ticks.spec_ticks(data@.range_y, inner.bottom - inner.top),
            ),
            line.ticks.state == self.ticks.spec_state(data@.range_y, inner.bottom - inner.top),
            forall|i: int|
                0 <= i < line.ticks.ticks@.len() ==> crate::range::interval_contains(
                    data@.range_y,
                    #[trigger] line.ticks.ticks@[i] as int,
                ),
    {
        let range: crate::range::Range = data.range_y();
        UseYGridLine { ticks: self.ticks.generate(&range, inner.height()) }
    }
}

/// One line for each tick: at the tick's pixel along its axis, and across
/// the inner rectangle the other way.
fn lines_across(pixels: Vec<(i32, String)>, inner: Bounds, is_x: bool) -> (r: Vec<GridSegment>)
    ensures
        r.len() == pixels.len(),
        forall|i: int|
            0 <= i < r.len() ==> {
                &&& (#[trigger] r[i]).label == pixels[i].1
                &&& is_x ==> r[i].x1 == pixels[i].0 && r[i].x2 == pixels[i].0 && r[i].y1
                    == inner.top && r[i].y2 == inner.bottom
                &&& !is_x ==> r[i].y1 == pixels[i].0 && r[i].y2 == pixels[i].0 && r[i].x1
                    == inner.left && r[i].x2 == inner.right
            },
{
    let ghost all: Seq<(i32, String)> = pixels@;
    let mut r: Vec<GridSegment> = Vec::new();
    for item in it: pixels.into_iter()
        invariant
            it.seq() == all,
            r.len() == it.index(),
            forall|j: int|
                0 <= j < r.len() ==> {
                    &&& (#[trigger] r[j]).label == all[j].1
                    &&& is_x ==> r[j].x1 == all[j].0 && r[j].x2 == all[j].0 && r[j].y1 == inner.top
                        && r[j].y2 == inner.bottom
                    &&& !is_x ==> r[j].y1 == all[j].0 && r[j].y2 == all[j].0 && r[j].x1
                        == inner.left && r[j].x2 == inner.right
                },
    {
        let segment: GridSegment = if is_x {
            GridSegment { x1: item.0, y1: inner.top, x2: item.0, y2: inner.bottom, label: item.1 }
        } else {
            GridSegment { x1: inner.left, y1: item.0, x2: inner.right, y2: item.0, label: item.1 }
        };
        r.push(segment);
    }
    r
}

impl UseXGridLine {
    /// The lines in pixel space: for each tick, in order, a vertical line
    /// at the pixel column of the tick, from the top edge of the inner
    /// rectangle to its bottom edge.
    pub fn segments(&self, proj: &Projection) -> (r: Vec<GridSegment>)
        requires
            proj.wf(),
        ensures
            r.len() == self.ticks.ticks.len(),
            forall|i: int|
                0 <= i < r.len() ==> {
                    &&& (#[trigger] r[i]).x1 == tick_pixel(proj, true, self.ticks.ticks[i])
                    &&& r[i].x2 == r[i].x1
                    &&& r[i].y1 == proj@.inner.top
                    &&& r[i].y2 == proj@.inner.bottom
                    &&& r[i].label@ == self.ticks.state.label(self.ticks.ticks[i] as int)
                },
    {
        lines_across(for_ticks(&self.ticks, proj, true), proj.bounds(), true)
    }
}

impl UseYGridLine {
    /// The lines in pixel space: for each tick, in order, a horizontal
    /// line at the pixel row of the tick, from the left edge of the inner
    /// rectangle to its right edge.
    pub fn segments(&self, proj: &Projection) -> (r: Vec<GridSegment>)
        requires
            proj.wf(),
        ensures
            r.len() == self.ticks.ticks.len(),
            forall|i: int|
                0 <= i < r.len() ==> {
                    &&& (#[trigger] r[i]).y1 == tick_pixel(proj, false, self.ticks.ticks[i])
                    &&& r[i].y2 == r[i].y1
                    &&& r[i].x1 == proj@.inner.left
                    &&& r[i].x2 == proj@.inner.right
                    &&& r[i].label@ == self.ticks.state.label(self.ticks.ticks[i] as int)
                },
    {
        lines_across(for_ticks(&self.ticks, proj, false), proj.bounds(), false)
    }
}

} // verus!
