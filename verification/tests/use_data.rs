use chartistry::bounds::Bounds;
use chartistry::data::SeriesSamples;
use chartistry::projection::Projection;
use chartistry::range::Range;
use chartistry::names::{name_lt, name_order};
use chartistry::use_data::{sort_by_name, Series, SeriesKind, UseData, UseY};

fn line(id: usize) -> UseY {
    UseY { id, kind: SeriesKind::Line }
}

fn bar(id: usize) -> UseY {
    UseY { id, kind: SeriesKind::Bar }
}

fn series(lines: Vec<UseY>) -> Series {
    Series { lines, names: vec![], min_x: None, max_x: None, min_y: None, max_y: None }
}

fn two_series() -> Vec<SeriesSamples> {
    vec![
        SeriesSamples { id: 0, samples: vec![(1, Some(10)), (2, Some(20)), (3, Some(30))] },
        SeriesSamples { id: 1, samples: vec![(1, Some(100)), (3, Some(300))] },
    ]
}

#[test]
fn use_data_ranges_are_those_of_the_store() {
    let u = UseData::new(series(vec![line(0), line(1)]), &two_series());
    assert_eq!(u.len(), 3);
    assert_eq!(u.range_x(), Range::new(1, 3));
    assert_eq!(u.range_y(), Range::new(10, 300));
    assert_eq!(u.data().range_y(), Range::new(10, 300));
    assert_eq!(u.series(), &vec![line(0), line(1)]);
}

#[test]
fn use_data_ranges_widen_to_the_bounds_asked_for() {
    let mut s = series(vec![bar(0), bar(1)]);
    s.min_y = Some(-10);
    s.max_y = Some(10);
    s.min_x = Some(2);
    s.max_x = Some(6);
    let u = UseData::new(s, &two_series());
    assert_eq!(u.range_x(), Range::new(1, 6));
    assert_eq!(u.range_y(), Range::new(-10, 300));
    assert_eq!(u.data().range_x(), Range::new(1, 3));
}

#[test]
fn use_data_without_samples_has_the_bounds_asked_for() {
    let mut s = series(vec![line(0)]);
    s.min_y = Some(-10);
    s.max_y = Some(10);
    let u = UseData::new(s, &vec![]);
    assert_eq!(u.len(), 0);
    assert!(u.range_x().is_empty());
    assert_eq!(u.range_y(), Range::new(-10, 10));
    assert_eq!(u.nearest_data_x(3), None);
    assert_eq!(u.nearest_data_y(3), vec![(line(0), None)]);
}

#[test]
fn use_data_knows_of_bars() {
    assert!(!UseData::new(series(vec![line(0), line(1)]), &two_series()).includes_bars());
    assert!(UseData::new(series(vec![line(0), bar(1)]), &two_series()).includes_bars());
    assert!(UseData::new(series(vec![bar(0)]), &two_series()).includes_bars());
    assert!(!UseData::new(series(vec![]), &two_series()).includes_bars());
    assert!(bar(3).is_bar());
    assert!(!line(3).is_bar());
}

#[test]
fn use_data_nearest_values_by_series() {
    let u = UseData::new(series(vec![line(1), line(0), line(7)]), &two_series());
    assert_eq!(u.nearest_data_x(2), Some(2));
    assert_eq!(
        u.nearest_data_y(2),
        vec![(line(1), None), (line(0), Some(20)), (line(7), None)]
    );
    assert_eq!(
        u.nearest_data_y(-5),
        vec![(line(1), Some(100)), (line(0), Some(10)), (line(7), None)]
    );
}

#[test]
fn use_data_of_an_empty_store_has_nothing_near() {
    let u = UseData::new(series(vec![line(0), bar(1)]), &vec![]);
    let p = Projection::new(Bounds::new(0, 0, 10, 10), &Range::new(0, 1), &Range::new(0, 1)).unwrap();
    assert_eq!(u.nearest_data_x(0), None);
    assert_eq!(u.nearest_position_x(0, &p), None);
    assert_eq!(u.nearest_data_y(0), vec![(line(0), None), (bar(1), None)]);
    assert_eq!(u.svg_positions(0, &p), vec![]);
}

#[test]
fn use_data_snaps_to_the_pixel_of_the_nearest_x() {
    let u = UseData::new(series(vec![line(0)]), &two_series());
    let p = Projection::new(Bounds::new(0, 0, 200, 100), &u.range_x(), &u.range_y()).unwrap();
    assert_eq!(u.nearest_position_x(0, &p), Some(0));
    assert_eq!(u.nearest_position_x(2, &p), Some(100));
    assert_eq!(u.nearest_position_x(9, &p), Some(200));
}

#[test]
fn svg_positions_leave_gaps_open() {
    let mut s = series(vec![line(0), line(1)]);
    s.min_y = Some(0);
    let u = UseData::new(s, &two_series());
    let p = Projection::new(Bounds::new(0, 0, 200, 300), &u.range_x(), &u.range_y()).unwrap();
    assert_eq!(
        u.svg_positions(0, &p),
        vec![(Some(0), Some(290)), (Some(100), Some(280)), (Some(200), Some(270))]
    );
    assert_eq!(
        u.svg_positions(1, &p),
        vec![(Some(0), Some(200)), (Some(100), None), (Some(200), Some(0))]
    );
    assert_eq!(
        u.svg_positions(5, &p),
        vec![(Some(0), None), (Some(100), None), (Some(200), None)]
    );
}

fn named(lines: Vec<UseY>, names: Vec<&str>) -> Series {
    let mut s = series(lines);
    s.names = names.into_iter().map(|n| n.as_bytes().to_vec()).collect();
    s
}

#[test]
fn use_data_sorts_its_series_by_name() {
    let u = UseData::new(
        named(vec![line(0), bar(1), line(2), line(3)], vec!["pears", "apples", "zebras", "figs"]),
        &two_series(),
    );
    assert_eq!(u.series(), &vec![bar(1), line(3), line(0), line(2)]);
    assert!(u.includes_bars());
    assert_eq!(
        u.nearest_data_y(2),
        vec![(bar(1), None), (line(3), None), (line(0), Some(20)), (line(2), None)]
    );
}

#[test]
fn series_of_equal_names_keep_their_order() {
    let u = UseData::new(
        named(vec![line(5), line(4), line(3), line(2)], vec!["b", "a", "b", "a"]),
        &vec![],
    );
    assert_eq!(u.series(), &vec![line(4), line(2), line(5), line(3)]);
    let unnamed = UseData::new(series(vec![line(2), line(0), line(1)]), &vec![]);
    assert_eq!(unnamed.series(), &vec![line(2), line(0), line(1)]);
}

#[test]
fn series_without_a_name_come_first() {
    let lines = vec![line(0), line(1), line(2)];
    let names: Vec<Vec<u8>> = vec![b"b".to_vec(), b"a".to_vec()];
    assert_eq!(sort_by_name(&lines, &names), vec![line(2), line(1), line(0)]);
    assert_eq!(name_order(&names, 3), vec![2, 1, 0]);
    assert_eq!(name_order(&names, 1), vec![0]);
    assert_eq!(name_order(&names, 0), vec![]);
}

#[test]
fn names_compare_byte_by_byte() {
    let lt = |a: &str, b: &str| name_lt(&a.as_bytes().to_vec(), &b.as_bytes().to_vec());
    assert!(lt("", "a"));
    assert!(lt("a", "b"));
    assert!(lt("a", "aa"));
    assert!(lt("ab", "b"));
    assert!(lt("B", "a"));
    assert!(lt("z", "\u{e9}"));
    assert!(!lt("a", "a"));
    assert!(!lt("", ""));
    assert!(!lt("b", "a"));
    assert!(!lt("aa", "a"));
    let mut words = vec!["pear", "Apple", "fig", "", "figs", "apple", "\u{e9}clair", "pea"];
    let names: Vec<Vec<u8>> = words.iter().map(|w| w.as_bytes().to_vec()).collect();
    let order = name_order(&names, words.len());
    let sorted: Vec<&str> = order.iter().map(|i| words[*i]).collect();
    words.sort();
    assert_eq!(sorted, words);
}

#[test]
fn use_data_ranges_cover_every_sample() {
    let rows = vec![SeriesSamples { id: 0, samples: vec![(1, Some(100)), (1, Some(5)), (3, None)] }];
    let u = UseData::new(series(vec![line(0)]), &rows);
    assert_eq!(u.range_x(), Range::new(1, 3));
    assert_eq!(u.range_y(), Range::new(5, 100));
    let fewer = vec![SeriesSamples { id: 0, samples: vec![(1, Some(100))] }];
    let a = UseData::new(series(vec![line(0)]), &fewer);
    assert_eq!(a.range_y(), Range::new(100, 100));
    assert!(u.range_y().min() <= a.range_y().min() && a.range_y().max() <= u.range_y().max());
}
