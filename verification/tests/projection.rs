use chartistry::bounds::Bounds;
use chartistry::projection::Projection;
use chartistry::range::Range;

fn inner() -> Bounds {
    Bounds::new(0, 0, 100, 50)
}

fn projection(range_x: Range, range_y: Range) -> Projection {
    Projection::new(inner(), &range_x, &range_y).unwrap()
}

#[test]
fn bounds_extent_and_edges() {
    let b = Bounds::new(10, 20, 110, 70);
    assert!(b.is_valid());
    assert_eq!(b.width(), 100);
    assert_eq!(b.height(), 50);
    assert_eq!(b.left_x(), 10);
    assert_eq!(b.top_y(), 20);
    assert_eq!(b.right_x(), 110);
    assert_eq!(b.bottom_y(), 70);
    assert!(!Bounds::new(10, 0, 10, 5).is_valid());
    assert!(!Bounds::new(0, 5, 10, 5).is_valid());
    assert_eq!(Bounds::new(i32::MIN, 0, i32::MAX, 1).width(), 4_294_967_295);
    assert_eq!(Bounds::new(5, 0, 2, 1).width(), -3);
}

#[test]
fn no_projection_of_an_empty_range() {
    assert!(Projection::new(inner(), &Range::empty(), &Range::new(0, 1)).is_none());
    assert!(Projection::new(inner(), &Range::new(0, 1), &Range::empty()).is_none());
    assert!(Projection::new(inner(), &Range::new(0, 1), &Range::new(0, 1)).is_some());
}

#[test]
fn no_projection_onto_a_rectangle_without_room() {
    let r = Range::new(0, 1);
    assert!(Projection::new(Bounds::new(5, 0, 5, 10), &r, &r).is_none());
    assert!(Projection::new(Bounds::new(0, 10, 5, 10), &r, &r).is_none());
    assert!(Projection::new(Bounds::new(6, 0, 5, 10), &r, &r).is_none());
}

#[test]
fn position_to_svg_interpolates_each_axis() {
    let p = projection(Range::new(0, 10), Range::new(0, 5));
    assert_eq!(p.position_to_svg(0, 0), (0, 50));
    assert_eq!(p.position_to_svg(10, 5), (100, 0));
    assert_eq!(p.position_to_svg(5, 1), (50, 40));
    assert_eq!(p.position_to_svg(3, 4), (30, 10));
    assert_eq!(p.bounds(), inner());
}

#[test]
fn position_to_svg_with_offsets() {
    let p = Projection::new(Bounds::new(20, 10, 220, 110), &Range::new(100, 200), &Range::new(-50, 50))
        .unwrap();
    assert_eq!(p.position_to_svg(100, -50), (20, 110));
    assert_eq!(p.position_to_svg(200, 50), (220, 10));
    assert_eq!(p.position_to_svg(150, 0), (120, 60));
    assert_eq!(p.position_to_svg(125, 25), (70, 35));
}

#[test]
fn position_to_svg_rounds_down_to_a_pixel() {
    let p = projection(Range::new(0, 3), Range::new(0, 3));
    assert_eq!(p.x_to_svg(1), 33);
    assert_eq!(p.x_to_svg(2), 66);
    assert_eq!(p.y_to_svg(1), 50 - 16);
    assert_eq!(p.y_to_svg(2), 50 - 33);
}

#[test]
fn position_to_svg_goes_on_outside_the_range() {
    let p = projection(Range::new(0, 10), Range::new(0, 5));
    assert_eq!(p.x_to_svg(-1), -10);
    assert_eq!(p.x_to_svg(12), 120);
    assert_eq!(p.y_to_svg(-1), 60);
    assert_eq!(p.y_to_svg(6), -10);
    let q = projection(Range::new(0, 3), Range::new(0, 3));
    assert_eq!(q.x_to_svg(-1), -34);
}

#[test]
fn position_to_svg_stops_at_the_ends_of_i32() {
    let p = projection(Range::new(0, 1), Range::new(0, 1));
    assert_eq!(p.x_to_svg(i64::MAX), i32::MAX);
    assert_eq!(p.x_to_svg(i64::MIN), i32::MIN);
    assert_eq!(p.y_to_svg(i64::MAX), i32::MIN);
    assert_eq!(p.y_to_svg(i64::MIN), i32::MAX);
    let wide = Projection::new(
        Bounds::new(i32::MIN, i32::MIN, i32::MAX, i32::MAX),
        &Range::new(i64::MIN, i64::MAX),
        &Range::new(i64::MIN, i64::MAX),
    ).unwrap();
    assert_eq!(wide.position_to_svg(i64::MIN, i64::MIN), (i32::MIN, i32::MAX));
    assert_eq!(wide.position_to_svg(i64::MAX, i64::MAX), (i32::MAX, i32::MIN));
    assert_eq!(wide.svg_to_position(i32::MIN, i32::MAX), (i64::MIN, i64::MIN));
    assert_eq!(wide.svg_to_position(i32::MAX, i32::MIN), (i64::MAX, i64::MAX));
}

#[test]
fn degenerate_range_maps_to_the_midpoint() {
    let p = projection(Range::new(5, 5), Range::new(0, 10));
    for x in [-1000, 0, 4, 5, 6, 1000, i64::MIN, i64::MAX] {
        assert_eq!(p.position_to_svg(x, 0).0, 50);
    }
    let q = projection(Range::new(0, 10), Range::new(7, 7));
    for y in [-1000, 0, 7, 1000, i64::MIN, i64::MAX] {
        assert_eq!(q.position_to_svg(0, y).1, 25);
    }
    assert_eq!(p.svg_to_x(0), 5);
    assert_eq!(p.svg_to_x(100), 5);
    assert_eq!(q.svg_to_y(13), 7);
}

#[test]
fn midpoint_of_an_odd_extent_rounds_down() {
    let p = Projection::new(Bounds::new(10, 10, 21, 21), &Range::new(1, 1), &Range::new(1, 1)).unwrap();
    assert_eq!(p.position_to_svg(1, 1), (15, 16));
}

#[test]
fn svg_to_position_inverts_on_exact_pixels() {
    let p = projection(Range::new(0, 10), Range::new(0, 5));
    assert_eq!(p.svg_to_position(0, 50), (0, 0));
    assert_eq!(p.svg_to_position(100, 0), (10, 5));
    assert_eq!(p.svg_to_position(50, 40), (5, 1));
    assert_eq!(p.svg_to_position(30, 10), (3, 4));
}

#[test]
fn svg_to_position_gives_the_least_value_that_reaches_the_pixel() {
    let p = projection(Range::new(0, 3), Range::new(0, 3));
    assert_eq!(p.svg_to_x(33), 1);
    assert_eq!(p.svg_to_x(34), 2);
    assert_eq!(p.svg_to_x(50), 2);
    assert_eq!(p.svg_to_x(66), 2);
    assert_eq!(p.svg_to_x(67), 3);
    assert_eq!(p.svg_to_x(-1), 0);
    assert_eq!(p.svg_to_x(-34), -1);
}

#[test]
fn round_trip_comes_back_within_a_pixel() {
    let cases = [
        (Range::new(0, 3), Range::new(-7, 7)),
        (Range::new(-1000, 1000), Range::new(0, 1)),
        (Range::new(0, 1_000_000_007), Range::new(-13, 9_999)),
        (Range::new(i64::MIN, i64::MAX), Range::new(i64::MIN / 2, i64::MAX / 3)),
    ];
    for (range_x, range_y) in cases {
        let p = projection(range_x, range_y);
        let (min_x, max_x) = (range_x.min().unwrap(), range_x.max().unwrap());
        let (min_y, max_y) = (range_y.min().unwrap(), range_y.max().unwrap());
        let span_x = max_x as i128 - min_x as i128;
        let span_y = max_y as i128 - min_y as i128;
        for step in 0..=64 {
            let x = (min_x as i128 + span_x * step / 64) as i64;
            let y = (min_y as i128 + span_y * step / 64) as i64;
            let (px, py) = p.position_to_svg(x, y);
            assert!(0 <= px && px <= 100 && 0 <= py && py <= 50);
            let (bx, by) = p.svg_to_position(px, py);
            assert!(min_x <= bx && bx <= x);
            assert!(min_y <= by && by <= y);
            assert!((x as i128 - bx as i128) * 100 < span_x);
            assert!((y as i128 - by as i128) * 50 < span_y);
            assert_eq!(p.position_to_svg(bx, by), (px, py));
        }
    }
}

#[test]
fn round_trip_is_exact_where_pixels_outnumber_values() {
    let p = projection(Range::new(10, 30), Range::new(0, 25));
    for x in 10..=30 {
        for y in 0..=25 {
            let (px, py) = p.position_to_svg(x, y);
            assert_eq!(p.svg_to_position(px, py), (x, y));
        }
    }
}

#[test]
fn later_values_are_not_drawn_before_earlier_ones() {
    let p = projection(Range::new(-5, 17), Range::new(-5, 17));
    let mut last = p.position_to_svg(-20, -20);
    for v in -19..40 {
        let next = p.position_to_svg(v, v);
        assert!(last.0 <= next.0);
        assert!(last.1 >= next.1);
        last = next;
    }
}

#[test]
fn missing_coordinates_stay_missing() {
    let p = projection(Range::new(0, 10), Range::new(0, 5));
    assert_eq!(p.sample_to_svg(Some(5), Some(1)), (Some(50), Some(40)));
    assert_eq!(p.sample_to_svg(None, Some(1)), (None, Some(40)));
    assert_eq!(p.sample_to_svg(Some(5), None), (Some(50), None));
    assert_eq!(p.sample_to_svg(None, None), (None, None));
}

#[test]
fn ends_of_a_range_land_on_the_edges() {
    let p = Projection::new(Bounds::new(20, 10, 220, 110), &Range::new(-7, 13), &Range::new(3, 1000))
        .unwrap();
    assert_eq!(p.position_to_svg(-7, 3), (20, 110));
    assert_eq!(p.position_to_svg(13, 1000), (220, 10));
    assert_eq!(p.svg_to_position(20, 110), (-7, 3));
    assert_eq!(p.svg_to_position(220, 10), (13, 1000));
}
