use ordmask::OrdMask;

fn should_include(mask: &OrdMask<i32>, x: i32) {
    assert!(mask.included(&x), "should include {}", x);
    assert!(!mask.excluded(&x), "should not exclude {}", x);
}

fn should_exclude(mask: &OrdMask<i32>, x: i32) {
    assert!(mask.excluded(&x), "should exclude {}", x);
    assert!(!mask.included(&x), "should not include {}", x);
}

#[test]
fn membership_of_one_boundary() {
    let mask = OrdMask::from(vec![0]);
    (-10..0).for_each(|x| should_exclude(&mask, x));
    (0..10).for_each(|x| should_include(&mask, x));
}

#[test]
fn membership_of_two_boundaries() {
    let mask = OrdMask::from(vec![0, 10]);
    (-10..0).for_each(|x| should_exclude(&mask, x));
    (0..10).for_each(|x| should_include(&mask, x));
    (10..20).for_each(|x| should_exclude(&mask, x));
}

#[test]
fn membership_of_three_boundaries() {
    let mask = OrdMask::from(vec![0, 10, 20]);
    (-10..0).for_each(|x| should_exclude(&mask, x));
    (0..10).for_each(|x| should_include(&mask, x));
    (10..20).for_each(|x| should_exclude(&mask, x));
    (20..30).for_each(|x| should_include(&mask, x));
}

#[test]
fn membership_of_three_boundaries_reversed() {
    let mask = OrdMask::from_complement(vec![0, 10, 20]);
    (-10..0).for_each(|x| should_include(&mask, x));
    (0..10).for_each(|x| should_exclude(&mask, x));
    (10..20).for_each(|x| should_include(&mask, x));
    (20..30).for_each(|x| should_exclude(&mask, x));
}

#[test]
fn membership_counts_the_boundaries_at_or_below_the_value() {
    let boundaries: Vec<i32> = vec![-7, -3, 0, 1, 2, 8, 13, 21, 34];
    for leading in [false, true] {
        let mask = OrdMask::with_unchecked(boundaries.clone(), leading);
        for x in -10..40 {
            let count = boundaries.iter().filter(|b| **b <= x).count();
            assert_eq!(mask.included(&x), leading ^ (count % 2 == 1), "at {}", x);
        }
    }
}

#[test]
fn membership_is_constant_between_boundaries() {
    let mask = OrdMask::from(vec![0, 10, 20]);
    // no boundary in (3, 9]
    assert_eq!(mask.included(&3), mask.included(&9));
    // no boundary in (10, 19]
    assert_eq!(mask.included(&10), mask.included(&19));
    // no boundary in (20, 1000]
    assert_eq!(mask.included(&20), mask.included(&1000));
}

#[test]
fn membership_flips_at_the_boundary_itself() {
    let mask = OrdMask::from(vec![5]);
    assert!(mask.excluded(&3));
    assert!(mask.excluded(&4));
    assert!(mask.included(&5));
}

#[test]
fn domain_ends() {
    let mask = OrdMask::from(vec![0, 10]);
    assert!(!mask.is_include_min_value());
    assert!(!mask.is_include_max_value());
    let mask = OrdMask::from(vec![0, 10, 20]);
    assert!(!mask.is_include_min_value());
    assert!(mask.is_include_max_value());
    let mask = OrdMask::from_complement(vec![0, 10]);
    assert!(mask.is_include_min_value());
    assert!(mask.is_include_max_value());
    let mask = OrdMask::from_complement(vec![0, 10, 20]);
    assert!(mask.is_include_min_value());
    assert!(!mask.is_include_max_value());
}

#[test]
fn is_empty_and_is_universal_need_no_boundaries() {
    assert!(!OrdMask::from(vec![1]).is_empty());
    assert!(!OrdMask::from(vec![1]).is_universal());
    assert!(!OrdMask::from_complement(vec![1]).is_empty());
    assert!(!OrdMask::from_complement(vec![1]).is_universal());
    assert!(OrdMask::<i32>::from(vec![]).is_empty());
    assert!(OrdMask::<i32>::from_complement(vec![]).is_universal());
}

#[test]
fn works_for_other_ordered_types() {
    let mask = OrdMask::in_range((1u8, 'a'), (1u8, 'k'));
    assert!(mask.excluded(&(0, 'z')));
    assert!(mask.included(&(1, 'a')));
    assert!(mask.included(&(1, 'j')));
    assert!(mask.excluded(&(1, 'k')));
    assert!(mask.excluded(&(2, 'a')));
}
