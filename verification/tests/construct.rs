use ordmask::OrdMask;
use std::collections::{BTreeMap, BTreeSet};

#[test]
fn test_basic_ordmask() {
    let mask = OrdMask::from(vec![1, 2, 3]);
    assert_eq!(mask, OrdMask::from(vec![1, 2, 3]));

    let mask2 = OrdMask::from(vec![0, 2, 4]);
    assert_eq!(mask2, OrdMask::from(vec![0, 2, 4]));
}

#[test]
fn test_empty_ordmask() {
    let mask: OrdMask<u64> = OrdMask::empty();
    assert_eq!(mask, OrdMask::empty());
}

#[test]
fn test_reversed_ordmask() {
    let mask = OrdMask::from_complement(vec![1, 2, 3]);
    assert_eq!(mask, OrdMask::from_complement(vec![1, 2, 3]));
}

#[test]
fn empty_has_no_boundaries_and_includes_nothing() {
    let mask: OrdMask<i32> = OrdMask::empty();
    assert!(mask.is_empty());
    assert!(!mask.is_universal());
    assert!(mask.key_points().is_empty());
    assert!(!mask.is_include_min_value());
    assert!(!mask.is_include_max_value());
    for x in -10..10 {
        assert!(mask.excluded(&x));
    }
}

#[test]
fn universal_has_no_boundaries_and_includes_everything() {
    let mask: OrdMask<u64> = OrdMask::universal();
    assert!(mask.is_universal());
    assert!(!mask.is_empty());
    assert!(mask.key_points().is_empty());
    assert!(mask.is_include_min_value());
    assert!(mask.is_include_max_value());
    for x in 0..20u64 {
        assert!(mask.included(&x));
    }
}

#[test]
fn not_less_than_includes_from_the_value_on() {
    let mask = OrdMask::not_less_than(1);
    assert_eq!(mask, OrdMask::from(vec![1]));
    assert_eq!(mask.key_points(), &vec![1]);
    assert!(!mask.is_include_min_value());
    assert!(mask.is_include_max_value());
    assert!(mask.excluded(&0));
    assert!(mask.included(&1));
    assert!(mask.included(&2));
}

#[test]
fn less_than_includes_below_the_value() {
    let mask = OrdMask::less_than(1);
    assert_eq!(mask, OrdMask::from_complement(vec![1]));
    assert!(mask.is_include_min_value());
    assert!(!mask.is_include_max_value());
    assert!(mask.included(&0));
    assert!(mask.excluded(&1));
    assert!(mask.excluded(&2));
}

#[test]
fn in_range_is_half_open() {
    let mask = OrdMask::in_range(1, 10);
    assert_eq!(mask, OrdMask::from(vec![1, 10]));
    assert!(mask.excluded(&0));
    assert!(mask.included(&1));
    assert!(mask.included(&9));
    assert!(mask.excluded(&10));
}

#[test]
fn in_range_of_an_empty_range_is_empty() {
    assert_eq!(OrdMask::in_range(10, 1), OrdMask::empty());
    assert_eq!(OrdMask::in_range(5, 5), OrdMask::empty());
}

#[test]
fn exclude_range_is_the_complement_of_in_range() {
    let mask = OrdMask::exclude_range(1, 10);
    assert_eq!(mask, OrdMask::from_complement(vec![1, 10]));
    assert_eq!(mask, OrdMask::in_range(1, 10).complement());
    assert!(mask.included(&0));
    assert!(mask.excluded(&1));
    assert!(mask.excluded(&9));
    assert!(mask.included(&10));
}

#[test]
fn exclude_range_of_an_empty_range_is_universal() {
    assert_eq!(OrdMask::exclude_range(10, 1), OrdMask::universal());
    assert_eq!(OrdMask::exclude_range(5, 5), OrdMask::universal());
}

#[test]
fn from_key_points_set_keeps_the_points_where_the_state_changes() {
    // excluded below 1, included on [1, 4), excluded from 4 on
    let points: BTreeSet<i32> = [0, 1, 2, 3, 4, 5].into_iter().collect();
    let mask = OrdMask::from_key_points_set(points, |x| 1 <= *x && *x < 4, false);
    assert_eq!(mask, OrdMask::from(vec![1, 4]));
}

#[test]
fn from_key_points_set_with_included_minimum() {
    // included below 2, excluded from 2 on
    let points: BTreeSet<i32> = [0, 1, 2, 3, 4].into_iter().collect();
    let mask = OrdMask::from_key_points_set(points, |x| *x < 2, true);
    assert_eq!(mask, OrdMask::from_complement(vec![2]));
}

#[test]
fn from_key_points_set_of_no_points() {
    let points: BTreeSet<i32> = BTreeSet::new();
    assert_eq!(OrdMask::from_key_points_set(points.clone(), |_| true, false), OrdMask::empty());
    assert_eq!(OrdMask::from_key_points_set(points, |_| false, true), OrdMask::universal());
}

#[test]
fn from_key_points_set_probes_the_point_itself() {
    // the first point is included although the leading state is excluded
    let points: BTreeSet<u8> = [0, 7].into_iter().collect();
    let mask = OrdMask::from_key_points_set(points, |x| *x == 0, false);
    assert_eq!(mask, OrdMask::from(vec![0, 7]));
}

#[test]
fn from_key_points_map_keeps_the_keys_where_the_state_changes() {
    let mut map = BTreeMap::new();
    map.insert(1, true);
    map.insert(2, true);
    map.insert(4, false);
    map.insert(6, false);
    map.insert(8, true);
    let mask = OrdMask::from_key_points_map(map, false);
    assert_eq!(mask, OrdMask::from(vec![1, 4, 8]));
}

#[test]
fn from_key_points_map_with_included_minimum() {
    let mut map = BTreeMap::new();
    map.insert(2, false);
    map.insert(3, false);
    map.insert(5, true);
    let mask = OrdMask::from_key_points_map(map, true);
    assert_eq!(mask, OrdMask::from_complement(vec![2, 5]));
}

#[test]
fn from_key_points_map_of_an_empty_map() {
    let map: BTreeMap<i64, bool> = BTreeMap::new();
    assert_eq!(OrdMask::from_key_points_map(map.clone(), false), OrdMask::empty());
    assert_eq!(OrdMask::from_key_points_map(map, true), OrdMask::universal());
}

#[test]
fn constructors_give_simplified_masks() {
    let masks = vec![
        OrdMask::empty(),
        OrdMask::universal(),
        OrdMask::not_less_than(3),
        OrdMask::less_than(3),
        OrdMask::in_range(1, 5),
        OrdMask::exclude_range(1, 5),
        OrdMask::from(vec![1, 1, 2, 3, 3, 3]),
        OrdMask::from_complement(vec![1, 1, 2, 3, 3, 3]),
    ];
    for mask in masks {
        assert!(mask.is_valid());
        assert!(mask.is_simplified());
        let mut again = mask.clone();
        again.simplify();
        assert_eq!(again, mask);
    }
}
