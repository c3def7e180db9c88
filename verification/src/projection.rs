//! The linear map between data space and pixel space.
//!
//! Along each axis the data interval `[min, max]` is stretched over the
//! pixel interval of the inner rectangle. Data to pixels rounds down to a
//! whole pixel; pixels to data gives the least data value that lands on or
//! beyond the pixel, so that the two directions fit together exactly.

use crate::arith::{
    ceil_div, ceil_div_exec, clamp, floor_div, lemma_ceil_div_bounds, lemma_div_shrinks,
    lemma_floor_div_bounds, lemma_floor_div_unique, saturate_i32, saturate_i64,
};
use crate::bounds::Bounds;
use crate::range::Range;
use vstd::prelude::*;

verus! {

/// The pixel offset of the data offset `d` on an axis that spreads `span`
/// data units over `pixels` pixels: `d * pixels / span` rounded down. An
/// axis of zero span puts everything at the middle pixel.
pub open spec fn scale_down(d: int, span: int, pixels: int) -> int {
    if span == 0 {
        pixels / 2
    } else {
        (d * pixels) / span
    }
}

/// The least data offset whose pixel offset is at least `q`:
/// `q * span / pixels` rounded up. On an axis of zero span that is 0.
pub open spec fn scale_up(q: int, span: int, pixels: int) -> int {
    ceil_div(q * span, pixels)
}

/// Offsets inside the data interval land inside the pixel interval.
pub proof fn lemma_scale_down_in_range(d: int, span: int, pixels: int)
    requires
        span >= 0,
        pixels > 0,
        0 <= d <= span,
    ensures
        0 <= scale_down(d, span, pixels) <= pixels,
{
    if span > 0 {
        let q: int = (d * pixels) / span;
        lemma_floor_div_bounds(d * pixels, span);
        assert(0 <= d * pixels <= span * pixels) by (nonlinear_arith)
            requires
                0 <= d <= span,
                pixels > 0,
        ;
        lemma_div_shrinks(d * pixels, span);
        assert(q <= pixels) by (nonlinear_arith)
            requires
                q * span <= span * pixels,
                span > 0,
        ;
    }
}

/// Offsets inside the pixel interval come back inside the data interval.
pub proof fn lemma_scale_up_in_range(q: int, span: int, pixels: int)
    requires
        span >= 0,
        pixels > 0,
        0 <= q <= pixels,
    ensures
        0 <= scale_up(q, span, pixels) <= span,
{
    let back: int = scale_up(q, span, pixels);
    lemma_ceil_div_bounds(q * span, pixels);
    assert(0 <= q * span <= pixels * span) by (nonlinear_arith)
        requires
            0 <= q <= pixels,
            span >= 0,
    ;
    lemma_div_shrinks(q * span, pixels);
    assert(back <= span) by (nonlinear_arith)
        requires
            (back - 1) * pixels < pixels * span,
            pixels > 0,
    ;
}

/// A greater data offset never lands on an earlier pixel.
pub proof fn lemma_scale_down_keeps_order(d1: int, d2: int, span: int, pixels: int)
    requires
        span >= 0,
        pixels > 0,
        d1 <= d2,
    ensures
        scale_down(d1, span, pixels) <= scale_down(d2, span, pixels),
{
    if span > 0 {
        let q1: int = (d1 * pixels) / span;
        let q2: int = (d2 * pixels) / span;
        lemma_floor_div_bounds(d1 * pixels, span);
        lemma_floor_div_bounds(d2 * pixels, span);
        assert(d1 * pixels <= d2 * pixels) by (nonlinear_arith)
            requires
                d1 <= d2,
                pixels > 0,
        ;
        assert(q1 <= q2) by (nonlinear_arith)
            requires
                q1 * span < (q2 + 1) * span,
                span > 0,
        ;
    }
}

/// One axis there and back. A data offset `d` inside a span that is not
/// zero goes to the pixel offset `q` and comes back as `back`, where:
/// `back` is at most `d` and less than one pixel's worth of data below it,
/// and `back` lands on the same pixel `q`.
pub proof fn lemma_scale_round_trip(d: int, span: int, pixels: int)
    requires
        span > 0,
        pixels > 0,
        0 <= d <= span,
    ensures
        ({
            let q: int = scale_down(d, span, pixels);
            let back: int = scale_up(q, span, pixels);
            &&& 0 <= q <= pixels
            &&& 0 <= back <= d
            &&& (d - back) * pixels < span
            &&& scale_down(back, span, pixels) == q
        }),
{
    let q: int = scale_down(d, span, pixels);
    let back: int = scale_up(q, span, pixels);
    lemma_scale_down_in_range(d, span, pixels);
    lemma_scale_up_in_range(q, span, pixels);
    lemma_floor_div_bounds(d * pixels, span);
    lemma_ceil_div_bounds(q * span, pixels);
    assert(back <= d) by (nonlinear_arith)
        requires
            (back - 1) * pixels < q * span,
            q * span <= d * pixels,
            pixels > 0,
    ;
    assert(back * pixels <= d * pixels) by (nonlinear_arith)
        requires
            back <= d,
            pixels > 0,
    ;
    lemma_floor_div_unique(back * pixels, span, q);
    assert((d - back) * pixels < span) by (nonlinear_arith)
        requires
            d * pixels < (q + 1) * span,
            q * span <= back * pixels,
    ;
}

/// What a projection is made of: the inner rectangle and the data interval
/// of each axis.
pub struct ProjectionView {
    pub inner: Bounds,
    pub min_x: int,
    pub max_x: int,
    pub min_y: int,
    pub max_y: int,
}

impl ProjectionView {
    /// The rectangle has room in it and each data interval runs upwards
    /// within the `i64` values (it may be a single value).
    pub open spec fn wf(self) -> bool {
        &&& self.inner.wf()
        &&& i64::MIN <= self.min_x <= self.max_x <= i64::MAX
        &&& i64::MIN <= self.min_y <= self.max_y <= i64::MAX
    }

    /// The pixel column of the data value `x`:
    /// `left + (x - min_x) * (right - left) / (max_x - min_x)`, rounded down.
    pub open spec fn x_to_svg(self, x: int) -> int {
        self.inner.left + scale_down(
            x - self.min_x,
            self.max_x - self.min_x,
            self.inner.right - self.inner.left,
        )
    }

    /// The pixel row of the data value `y`, counted up from the bottom edge:
    /// `bottom - (y - min_y) * (bottom - top) / (max_y - min_y)`, the
    /// quotient rounded down.
    pub open spec fn y_to_svg(self, y: int) -> int {
        self.inner.bottom - scale_down(
            y - self.min_y,
            self.max_y - self.min_y,
            self.inner.bottom - self.inner.top,
        )
    }

    /// The least data value whose pixel column is `px` or further right.
    pub open spec fn svg_to_x(self, px: int) -> int {
        self.min_x + scale_up(
            px - self.inner.left,
            self.max_x - self.min_x,
            self.inner.right - self.inner.left,
        )
    }

    /// The least data value whose pixel row is `py` or further up.
    pub open spec fn svg_to_y(self, py: int) -> int {
        self.min_y + scale_up(
            self.inner.bottom - py,
            self.max_y - self.min_y,
            self.inner.bottom - self.inner.top,
        )
    }

    /// The middle pixel column of the inner rectangle.
    pub open spec fn mid_x(self) -> int {
        self.inner.left + (self.inner.right - self.inner.left) / 2
    }

    /// The middle pixel row of the inner rectangle.
    pub open spec fn mid_y(self) -> int {
        self.inner.bottom - (self.inner.bottom - self.inner.top) / 2
    }
}

/// Data inside the ranges is drawn inside the inner rectangle.
pub proof fn lemma_position_lands_inside(p: ProjectionView, x: int, y: int)
    requires
        p.wf(),
        p.min_x <= x <= p.max_x,
        p.min_y <= y <= p.max_y,
    ensures
        p.inner.left <= p.x_to_svg(x) <= p.inner.right,
        p.inner.top <= p.y_to_svg(y) <= p.inner.bottom,
{
    lemma_scale_down_in_range(x - p.min_x, p.max_x - p.min_x, p.inner.right - p.inner.left);
    lemma_scale_down_in_range(y - p.min_y, p.max_y - p.min_y, p.inner.bottom - p.inner.top);
}

/// Pixels inside the inner rectangle come back as data inside the ranges.
pub proof fn lemma_pixel_comes_back_inside(p: ProjectionView, px: int, py: int)
    requires
        p.wf(),
        p.inner.left <= px <= p.inner.right,
        p.inner.top <= py <= p.inner.bottom,
    ensures
        p.min_x <= p.svg_to_x(px) <= p.max_x,
        p.min_y <= p.svg_to_y(py) <= p.max_y,
{
    lemma_scale_up_in_range(px - p.inner.left, p.max_x - p.min_x, p.inner.right - p.inner.left);
    lemma_scale_up_in_range(p.inner.bottom - py, p.max_y - p.min_y, p.inner.bottom - p.inner.top);
}

/// The projection keeps the order of the data: of two values the greater
/// is drawn no further left on the `x` axis, and no further down on the
/// `y` axis.
pub proof fn lemma_projection_keeps_order(p: ProjectionView, v1: int, v2: int)
    requires
        p.wf(),
        v1 <= v2,
    ensures
        p.x_to_svg(v1) <= p.x_to_svg(v2),
        p.y_to_svg(v1) >= p.y_to_svg(v2),
{
    lemma_scale_down_keeps_order(
        v1 - p.min_x,
        v2 - p.min_x,
        p.max_x - p.min_x,
        p.inner.right - p.inner.left,
    );
    lemma_scale_down_keeps_order(
        v1 - p.min_y,
        v2 - p.min_y,
        p.max_y - p.min_y,
        p.inner.bottom - p.inner.top,
    );
}

/// Projecting a point of the ranges and taking the pixel back gives the
/// point again up to rounding: on neither axis does the value that comes
/// back exceed the one that went in, it is less than one pixel's worth of
/// data below it, and it is drawn on the very same pixel. Neither range may
/// be a single value.
pub proof fn lemma_round_trip(p: ProjectionView, x: int, y: int)
    requires
        p.wf(),
        p.min_x < p.max_x,
        p.min_y < p.max_y,
        p.min_x <= x <= p.max_x,
        p.min_y <= y <= p.max_y,
    ensures
        ({
            let back_x: int = p.svg_to_x(p.x_to_svg(x));
            let back_y: int = p.svg_to_y(p.y_to_svg(y));
            &&& p.min_x <= back_x <= x
            &&& p.min_y <= back_y <= y
            &&& (x - back_x) * (p.inner.right - p.inner.left) < p.max_x - p.min_x
            &&& (y - back_y) * (p.inner.bottom - p.inner.top) < p.max_y - p.min_y
            &&& p.x_to_svg(back_x) == p.x_to_svg(x)
            &&& p.y_to_svg(back_y) == p.y_to_svg(y)
        }),
{
    lemma_scale_round_trip(x - p.min_x, p.max_x - p.min_x, p.inner.right - p.inner.left);
    lemma_scale_round_trip(y - p.min_y, p.max_y - p.min_y, p.inner.bottom - p.inner.top);
}

/// Where a range is more than one value, its lower end is drawn on the
/// left or the bottom edge of the inner rectangle and its upper end on the
/// right or the top edge, and the edges come back as those ends.
pub proof fn lemma_ends_land_on_edges(p: ProjectionView)
    requires
        p.wf(),
    ensures
        p.min_x < p.max_x ==> {
            &&& p.x_to_svg(p.min_x) == p.inner.left
            &&& p.x_to_svg(p.max_x) == p.inner.right
            &&& p.svg_to_x(p.inner.left as int) == p.min_x
            &&& p.svg_to_x(p.inner.right as int) == p.max_x
        },
        p.min_y < p.max_y ==> {
            &&& p.y_to_svg(p.min_y) == p.inner.bottom
            &&& p.y_to_svg(p.max_y) == p.inner.top
            &&& p.svg_to_y(p.inner.bottom as int) == p.min_y
            &&& p.svg_to_y(p.inner.top as int) == p.max_y
        },
{
    lemma_whole_span(p.max_x - p.min_x, p.inner.right - p.inner.left);
    lemma_whole_span(p.max_y - p.min_y, p.inner.bottom - p.inner.top);
}

/// The whole span takes all the pixels, and all the pixels the whole
/// span; nothing takes nothing.
proof fn lemma_whole_span(span: int, pixels: int)
    requires
        span >= 0,
        pixels > 0,
    ensures
        span > 0 ==> scale_down(0, span, pixels) == 0 && scale_down(span, span, pixels) == pixels,
        scale_up(0, span, pixels) == 0,
        scale_up(pixels, span, pixels) == span,
{
    assert(0 * pixels == 0);
    assert(0 * span == 0);
    if span > 0 {
        assert((pixels + 1) * span == span * pixels + span) by (nonlinear_arith);
        assert(pixels * span == span * pixels) by (nonlinear_arith);
        lemma_floor_div_unique(span * pixels, span, pixels);
    }
    assert((span + 1) * pixels == pixels * span + pixels) by (nonlinear_arith);
    assert(span * pixels == pixels * span) by (nonlinear_arith);
    assert((-span) * pixels == -(pixels * span)) by (nonlinear_arith);
    assert((-span + 1) * pixels == -(pixels * span) + pixels) by (nonlinear_arith);
    lemma_floor_div_unique(-(pixels * span), pixels, -span);
}

/// With a range of a single value every data value is drawn at the middle
/// of the inner rectangle along that axis, and every pixel comes back as
/// that single value.
pub proof fn lemma_single_value_range(p: ProjectionView, v: int, pixel: int)
    requires
        p.wf(),
    ensures
        p.min_x == p.max_x ==> p.x_to_svg(v) == p.mid_x() && p.svg_to_x(pixel) == p.min_x,
        p.min_y == p.max_y ==> p.y_to_svg(v) == p.mid_y() && p.svg_to_y(pixel) == p.min_y,
        p.inner.left <= p.mid_x() <= p.inner.right,
        p.inner.top <= p.mid_y() <= p.inner.bottom,
{
    assert((pixel - p.inner.left) * 0 == 0);
    assert((p.inner.bottom - pixel) * 0 == 0);
}

/// The map between data space and pixel space for one inner rectangle and
/// one pair of ranges. It holds no other state; a change of the rectangle
/// or of a range calls for a new projection.
#[derive(Clone, Copy, Debug, PartialEq, Eq)]
pub struct Projection {
    inner: Bounds,
    min_x: i64,
    max_x: i64,
    min_y: i64,
    max_y: i64,
}

impl View for Projection {
    type V = ProjectionView;

    closed spec fn view(&self) -> ProjectionView {
        ProjectionView {
            inner: self.inner,
            min_x: self.min_x as int,
            max_x: self.max_x as int,
            min_y: self.min_y as int,
            max_y: self.max_y as int,
        }
    }
}

/// Where the data offset `d` falls along `pixels` pixels, for an offset and
/// a span that are differences of two `i64` values.
fn scale_down_exec(d: i128, span: i128, pixels: i128) -> (q: i128)
    requires
        -0x1_0000_0000_0000_0000 < d < 0x1_0000_0000_0000_0000,
        0 <= span < 0x1_0000_0000_0000_0000,
        0 < pixels < 0x1_0000_0000,
    ensures
        q == scale_down(d as int, span as int, pixels as int),
        -0x1_0000_0000_0000_0000_0000_0000 < q < 0x1_0000_0000_0000_0000_0000_0000,
{
    if span == 0 {
        pixels / 2
    } else {
        assert(-0x1_0000_0000_0000_0000_0000_0000 < d * pixels < 0x1_0000_0000_0000_0000_0000_0000)
            by (nonlinear_arith)
            requires
                -0x1_0000_0000_0000_0000 < d < 0x1_0000_0000_0000_0000,
                0 < pixels < 0x1_0000_0000,
        ;
        floor_div(d * pixels, span)
    }
}

/// The least data offset that reaches the pixel offset `q`, for a pixel
/// offset and an extent that are differences of two `i32` values.
fn scale_up_exec(q: i128, span: i128, pixels: i128) -> (d: i128)
    requires
        -0x1_0000_0000 < q < 0x1_0000_0000,
        0 <= span < 0x1_0000_0000_0000_0000,
        0 < pixels < 0x1_0000_0000,
    ensures
        d == scale_up(q as int, span as int, pixels as int),
        -0x1_0000_0000_0000_0000_0000_0000 < d < 0x1_0000_0000_0000_0000_0000_0000,
{
    assert(-0x1_0000_0000_0000_0000_0000_0000 < q * span < 0x1_0000_0000_0000_0000_0000_0000)
        by (nonlinear_arith)
        requires
            -0x1_0000_0000 < q < 0x1_0000_0000,
            0 <= span < 0x1_0000_0000_0000_0000,
    ;
    ceil_div_exec(q * span, pixels)
}

impl Projection {
    /// See `ProjectionView::wf`.
    pub open spec fn wf(&self) -> bool {
        self@.wf()
    }

    /// The projection of the two ranges onto `inner`. There is none when the
    /// rectangle has no room in it or a range is empty.
    pub fn new(inner: Bounds, range_x: &Range, range_y: &Range) -> (p: Option<Projection>)
        requires
            range_x.wf(),
            range_y.wf(),
        ensures
            p is Some <==> inner.wf() && range_x@ is Some && range_y@ is Some,
            p matches Some(p) ==> {
                &&& p.wf()
                &&& p@.inner == inner
                &&& range_x@ == Some((p@.min_x, p@.max_x))
                &&& range_y@ == Some((p@.min_y, p@.max_y))
            },
    {
        if !inner.is_valid() {
            return None;
        }
        match (range_x.min(), range_x.max(), range_y.min(), range_y.max()) {
            (Some(min_x), Some(max_x), Some(min_y), Some(max_y)) => Some(
                Projection { inner, min_x, max_x, min_y, max_y },
            ),
            _ => None,
        }
    }

    /// The inner rectangle.
    pub fn bounds(&self) -> (b: Bounds)
        ensures
            b == self@.inner,
    {
        self.inner
    }

    /// The pixel column of the data value `x`. Inside the range the result
    /// is exact and inside the rectangle; far outside it stops at the ends
    /// of `i32`. A range of one value puts every `x` at the middle column.
    pub fn x_to_svg(&self, x: i64) -> (px: i32)
        requires
            self.wf(),
        ensures
            px == clamp(self@.x_to_svg(x as int), i32::MIN as int, i32::MAX as int),
            self@.min_x <= x <= self@.max_x ==> px == self@.x_to_svg(x as int)
                && self@.inner.left <= px <= self@.inner.right,
            self@.min_x == self@.max_x ==> px == self@.mid_x(),
    {
        proof {
            if self@.min_x <= x <= self@.max_x {
                lemma_position_lands_inside(self@, x as int, self@.min_y);
            }
            lemma_single_value_range(self@, x as int, 0);
        }
        let span: i128 = self.max_x as i128 - self.min_x as i128;
        let pixels: i128 = self.inner.right as i128 - self.inner.left as i128;
        let offset: i128 = scale_down_exec(x as i128 - self.min_x as i128, span, pixels);
        saturate_i32(self.inner.left as i128 + offset)
    }

    /// The pixel row of the data value `y`; rows are counted downwards, so
    /// greater values are drawn higher up. Inside the range the result is
    /// exact and inside the rectangle; far outside it stops at the ends of
    /// `i32`. A range of one value puts every `y` at the middle row.
    pub fn y_to_svg(&self, y: i64) -> (py: i32)
        requires
            self.wf(),
        ensures
            py == clamp(self@.y_to_svg(y as int), i32::MIN as int, i32::MAX as int),
            self@.min_y <= y <= self@.max_y ==> py == self@.y_to_svg(y as int)
                && self@.inner.top <= py <= self@.inner.bottom,
            self@.min_y == self@.max_y ==> py == self@.mid_y(),
    {
        proof {
            if self@.min_y <= y <= self@.max_y {
                lemma_position_lands_inside(self@, self@.min_x, y as int);
            }
            lemma_single_value_range(self@, y as int, 0);
        }
        let span: i128 = self.max_y as i128 - self.min_y as i128;
        let pixels: i128 = self.inner.bottom as i128 - self.inner.top as i128;
        let offset: i128 = scale_down_exec(y as i128 - self.min_y as i128, span, pixels);
        saturate_i32(self.inner.bottom as i128 - offset)
    }

    /// The least data value drawn at the pixel column `px` or further
    /// right. For a column of the rectangle the result is exact and inside
    /// the range; far outside it stops at the ends of `i64`.
    pub fn svg_to_x(&self, px: i32) -> (x: i64)
        requires
            self.wf(),
        ensures
            x == clamp(self@.svg_to_x(px as int), i64::MIN as int, i64::MAX as int),
            self@.inner.left <= px <= self@.inner.right ==> x == self@.svg_to_x(px as int)
                && self@.min_x <= x <= self@.max_x,
    {
        proof {
            if self@.inner.left <= px <= self@.inner.right {
                lemma_pixel_comes_back_inside(self@, px as int, self@.inner.top as int);
            }
        }
        let span: i128 = self.max_x as i128 - self.min_x as i128;
        let pixels: i128 = self.inner.right as i128 - self.inner.left as i128;
        let offset: i128 = scale_up_exec(px as i128 - self.inner.left as i128, span, pixels);
        saturate_i64(self.min_x as i128 + offset)
    }

    /// The least data value drawn at the pixel row `py` or further up. For
    /// a row of the rectangle the result is exact and inside the range; far
    /// outside it stops at the ends of `i64`.
    pub fn svg_to_y(&self, py: i32) -> (y: i64)
        requires
            self.wf(),
        ensures
            y == clamp(self@.svg_to_y(py as int), i64::MIN as int, i64::MAX as int),
            self@.inner.top <= py <= self@.inner.bottom ==> y == self@.svg_to_y(py as int)
                && self@.min_y <= y <= self@.max_y,
    {
        proof {
            if self@.inner.top <= py <= self@.inner.bottom {
                lemma_pixel_comes_back_inside(self@, self@.inner.left as int, py as int);
            }
        }
        let span: i128 = self.max_y as i128 - self.min_y as i128;
        let pixels: i128 = self.inner.bottom as i128 - self.inner.top as i128;
        let offset: i128 = scale_up_exec(self.inner.bottom as i128 - py as i128, span, pixels);
        saturate_i64(self.min_y as i128 + offset)
    }

    /// The pixel of the data point `(x, y)`, each axis as in `x_to_svg` and
    /// `y_to_svg`.
    pub fn position_to_svg(&self, x: i64, y: i64) -> (p: (i32, i32))
        requires
            self.wf(),
        ensures
            p.0 == clamp(self@.x_to_svg(x as int), i32::MIN as int, i32::MAX as int),
            p.1 == clamp(self@.y_to_svg(y as int), i32::MIN as int, i32::MAX as int),
            self@.min_x <= x <= self@.max_x ==> p.0 == self@.x_to_svg(x as int)
                && self@.inner.left <= p.0 <= self@.inner.right,
            self@.min_y <= y <= self@.max_y ==> p.1 == self@.y_to_svg(y as int)
                && self@.inner.top <= p.1 <= self@.inner.bottom,
            self@.min_x == self@.max_x ==> p.0 == self@.mid_x(),
            self@.min_y == self@.max_y ==> p.1 == self@.mid_y(),
    {
        (self.x_to_svg(x), self.y_to_svg(y))
    }

    /// The data point of the pixel `(px, py)`, each axis as in `svg_to_x`
    /// and `svg_to_y`.
    pub fn svg_to_position(&self, px: i32, py: i32) -> (p: (i64, i64))
        requires
            self.wf(),
        ensures
            p.0 == clamp(self@.svg_to_x(px as int), i64::MIN as int, i64::MAX as int),
            p.1 == clamp(self@.svg_to_y(py as int), i64::MIN as int, i64::MAX as int),
            self@.inner.left <= px <= self@.inner.right ==> p.0 == self@.svg_to_x(px as int)
                && self@.min_x <= p.0 <= self@.max_x,
            self@.inner.top <= py <= self@.inner.bottom ==> p.1 == self@.svg_to_y(py as int)
                && self@.min_y <= p.1 <= self@.max_y,
    {
        (self.svg_to_x(px), self.svg_to_y(py))
    }

    /// The pixel of a data point either of whose coordinates may be
    /// missing: a missing coordinate stays missing, a present one is
    /// projected as in `position_to_svg`.
    pub fn sample_to_svg(&self, x: Option<i64>, y: Option<i64>) -> (p: (Option<i32>, Option<i32>))
        requires
            self.wf(),
        ensures
            match x {
                None => p.0 is None,
                Some(x) => p.0 == Some(
                    clamp(self@.x_to_svg(x as int), i32::MIN as int, i32::MAX as int) as i32,
                ),
            },
            match y {
                None => p.1 is None,
                Some(y) => p.1 == Some(
                    clamp(self@.y_to_svg(y as int), i32::MIN as int, i32::MAX as int) as i32,
                ),
            },
    {
        let px: Option<i32> = match x {
            None => None,
            Some(x) => Some(self.x_to_svg(x)),
        };
        let py: Option<i32> = match y {
            None => None,
            Some(y) => Some(self.y_to_svg(y)),
        };
        (px, py)
    }
}

} // verus!
