use chartistry::range::Range;

#[test]
fn from_samples_of_nothing_is_empty() {
    let r = Range::from_samples(&vec![]);
    assert!(r.is_empty());
    assert_eq!(r.min(), None);
    assert_eq!(r.max(), None);
    assert!(!r.contains_pos(0));
}

#[test]
fn from_samples_spans_least_to_greatest() {
    let values: Vec<i64> = vec![4, -2, 9, 0, 9, -2, 3];
    let r = Range::from_samples(&values);
    assert_eq!(r.min(), Some(-2));
    assert_eq!(r.max(), Some(9));
    for v in &values {
        assert!(r.contains_pos(*v));
    }
    assert!(!r.contains_pos(-3));
    assert!(!r.contains_pos(10));
}

#[test]
fn from_samples_of_equal_values_is_one_value() {
    let r = Range::from_samples(&vec![7, 7, 7]);
    assert_eq!(r.min(), Some(7));
    assert_eq!(r.max(), Some(7));
    assert!(r.contains_pos(7));
    assert!(!r.contains_pos(6));
    assert!(!r.contains_pos(8));
}

#[test]
fn from_samples_reaches_the_ends_of_i64() {
    let r = Range::from_samples(&vec![i64::MAX, 0, i64::MIN]);
    assert_eq!(r.min(), Some(i64::MIN));
    assert_eq!(r.max(), Some(i64::MAX));
}

#[test]
fn merge_never_shrinks() {
    let values: Vec<i64> = vec![5, 3, 8, -1, 4, 12, 0];
    let mut r = Range::empty();
    let mut seen: Vec<i64> = Vec::new();
    for v in values {
        let wider = r.merge(v);
        seen.push(v);
        for s in &seen {
            assert!(wider.contains_pos(*s));
        }
        if let (Some(lo), Some(hi)) = (r.min(), r.max()) {
            assert!(wider.min().unwrap() <= lo);
            assert!(wider.max().unwrap() >= hi);
        }
        r = wider;
    }
    assert_eq!(r, Range::new(-1, 12));
}

#[test]
fn more_samples_give_a_range_at_least_as_wide() {
    let first: Vec<i64> = vec![3, 5];
    let mut all = first.clone();
    all.extend(vec![4, 1, 9]);
    let a = Range::from_samples(&first);
    let b = Range::from_samples(&all);
    assert_eq!(a, Range::new(3, 5));
    assert_eq!(b, Range::new(1, 9));
    for v in 3..=5 {
        assert!(a.contains_pos(v) && b.contains_pos(v));
    }
}

#[test]
fn new_takes_its_ends_in_either_order() {
    assert_eq!(Range::new(2, 9), Range::new(9, 2));
    assert_eq!(Range::new(9, 2).min(), Some(2));
    assert_eq!(Range::new(9, 2).max(), Some(9));
}

#[test]
fn replace_widens_to_explicit_bounds() {
    let r = Range::new(3, 10).replace(Some(-10), Some(20));
    assert_eq!(r.min(), Some(-10));
    assert_eq!(r.max(), Some(20));
}

#[test]
fn replace_ignores_bounds_inside_the_data() {
    let r = Range::new(3, 10).replace(Some(5), Some(8));
    assert_eq!(r, Range::new(3, 10));
    let r = Range::new(3, 10).replace(Some(5), None);
    assert_eq!(r, Range::new(3, 10));
}

#[test]
fn replace_with_one_bound_leaves_the_other_side() {
    assert_eq!(Range::new(3, 10).replace(Some(0), None), Range::new(0, 10));
    assert_eq!(Range::new(3, 10).replace(None, Some(11)), Range::new(3, 11));
    assert_eq!(Range::new(3, 10).replace(None, None), Range::new(3, 10));
}

#[test]
fn replace_on_the_empty_range_takes_the_bounds() {
    assert_eq!(Range::empty().replace(Some(-10), Some(10)), Range::new(-10, 10));
    assert_eq!(Range::empty().replace(Some(4), None), Range::new(4, 4));
    assert_eq!(Range::empty().replace(None, Some(4)), Range::new(4, 4));
    assert!(Range::empty().replace(None, None).is_empty());
}

#[test]
fn replace_covers_a_bound_beyond_the_far_end() {
    let r = Range::new(3, 10).replace(Some(20), None);
    assert_eq!(r, Range::new(3, 20));
    let r = Range::new(3, 10).replace(None, Some(-4));
    assert_eq!(r, Range::new(-4, 10));
}

#[test]
fn contains_pos_includes_both_ends() {
    let r = Range::new(-2, 2);
    assert!(r.contains_pos(-2));
    assert!(r.contains_pos(0));
    assert!(r.contains_pos(2));
    assert!(!r.contains_pos(-3));
    assert!(!r.contains_pos(3));
    assert!(!Range::empty().contains_pos(0));
}
