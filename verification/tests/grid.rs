use chartistry::bounds::Bounds;
use chartistry::data::SeriesSamples;
use chartistry::grid_line::{for_ticks, GridSegment, XGridLine, YGridLine};
use chartistry::projection::Projection;
use chartistry::range::Range;
use chartistry::ticks::{GeneratedTicks, TickLabels, TickState};
use chartistry::use_data::{Series, SeriesKind, UseData, UseY};

fn chart() -> (UseData, Bounds, Projection) {
    let series = Series {
        lines: vec![UseY { id: 0, kind: SeriesKind::Line }],
        names: vec![],
        min_x: None,
        max_x: None,
        min_y: Some(0),
        max_y: None,
    };
    let samples =
        vec![SeriesSamples { id: 0, samples: vec![(0, Some(10)), (50, Some(40)), (100, Some(25))] }];
    let data = UseData::new(series, &samples);
    let inner = Bounds::new(50, 10, 250, 90);
    let proj = Projection::new(inner, &data.range_x(), &data.range_y()).unwrap();
    (data, inner, proj)
}

#[test]
fn for_ticks_projects_along_one_axis() {
    let (_, _, proj) = chart();
    let ticks = GeneratedTicks {
        ticks: vec![0, 20, 40],
        state: TickState::Numeric { decimals: 1, places: 1 },
    };
    assert_eq!(
        for_ticks(&ticks, &proj, true),
        vec![(50, "0.0".to_string()), (90, "2.0".to_string()), (130, "4.0".to_string())]
    );
    assert_eq!(
        for_ticks(&ticks, &proj, false),
        vec![(90, "0.0".to_string()), (50, "2.0".to_string()), (10, "4.0".to_string())]
    );
}

#[test]
fn for_ticks_of_no_ticks_is_empty() {
    let (_, _, proj) = chart();
    let ticks = GeneratedTicks { ticks: vec![], state: TickState::Numeric { decimals: 0, places: 0 } };
    assert_eq!(for_ticks(&ticks, &proj, true), vec![]);
}

#[test]
fn vertical_grid_lines_span_top_to_bottom() {
    let (data, inner, proj) = chart();
    let line = XGridLine::from_ticks(TickLabels::aligned_numbers(0, 33)).use_horizontal(&data, &inner);
    assert_eq!(line.ticks.ticks, vec![0, 20, 40, 60, 80, 100]);
    let segments = line.segments(&proj);
    assert_eq!(segments.len(), 6);
    assert_eq!(
        segments[1],
        GridSegment { x1: 90, y1: 10, x2: 90, y2: 90, label: "20".to_string() }
    );
    assert_eq!(
        segments[5],
        GridSegment { x1: 250, y1: 10, x2: 250, y2: 90, label: "100".to_string() }
    );
    for pair in segments.windows(2) {
        assert!(pair[0].x1 < pair[1].x1);
    }
}

#[test]
fn horizontal_grid_lines_span_left_to_right() {
    let (data, inner, proj) = chart();
    let line = YGridLine::from_ticks(TickLabels::aligned_numbers(0, 16)).use_vertical(&data, &inner);
    assert_eq!(line.ticks.ticks, vec![0, 10, 20, 30, 40]);
    let segments = line.segments(&proj);
    assert_eq!(segments.len(), 5);
    assert_eq!(
        segments[0],
        GridSegment { x1: 50, y1: 90, x2: 250, y2: 90, label: "0".to_string() }
    );
    assert_eq!(
        segments[4],
        GridSegment { x1: 50, y1: 10, x2: 250, y2: 10, label: "40".to_string() }
    );
    for pair in segments.windows(2) {
        assert!(pair[0].y1 > pair[1].y1);
    }
}

#[test]
fn grid_lines_of_a_chart_without_data() {
    let series =
        Series { lines: vec![], names: vec![], min_x: None, max_x: None, min_y: None, max_y: None };
    let data = UseData::new(series, &vec![]);
    let inner = Bounds::new(0, 0, 100, 100);
    let x = XGridLine::from_ticks(TickLabels::aligned_numbers(0, 40)).use_horizontal(&data, &inner);
    let y = YGridLine::from_ticks(TickLabels::timestamps(40)).use_vertical(&data, &inner);
    assert_eq!(x.ticks.ticks, vec![]);
    assert_eq!(y.ticks.ticks, vec![]);
    let proj = Projection::new(inner, &Range::new(0, 1), &Range::new(0, 1)).unwrap();
    assert_eq!(x.segments(&proj), vec![]);
    assert_eq!(y.segments(&proj), vec![]);
}

#[test]
fn grid_lines_of_a_rectangle_without_room() {
    let (data, _, proj) = chart();
    let flat = Bounds::new(10, 10, 10, 10);
    let x = XGridLine::from_ticks(TickLabels::aligned_numbers(0, 40)).use_horizontal(&data, &flat);
    assert_eq!(x.ticks.ticks, vec![0]);
    assert_eq!(x.segments(&proj).len(), 1);
}
