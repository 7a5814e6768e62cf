use ordmask::OrdMask;

#[test]
fn simplify() {
    let test_cases = vec![
        (vec![], vec![]),
        (vec![0, 0, 1, 1], vec![]),
        (vec![0, 2, 2, 4], vec![0, 4]),
        (vec![0, 2, 2, 2, 4, 4, 4, 6, 6, 8, 8], vec![0, 2, 4]),
        (vec![1, 1, 1, 1, 2, 2, 3, 3, 3, 3], vec![]),
        (
            vec![1, 1, 1, 2, 2, 2, 3, 3, 3, 4, 4, 5, 5, 6, 6],
            vec![1, 2, 3],
        ),
        (vec![1, 1, 2, 2, 2, 3, 3, 4, 4, 4, 4], vec![2]),
        (vec![1, 2, 2, 3, 3, 3, 4, 4, 5, 5, 5, 5], vec![1, 3]),
        (vec![1, 1, 1, 2, 2, 3, 3, 3, 4, 4, 5, 5, 5], vec![1, 3, 5]),
        (vec![1, 1, 1, 1, 1, 1, 1, 1, 1, 1], vec![]),
        (
            vec![1, 2, 3, 4, 5, 6, 7, 8, 9, 10],
            vec![1, 2, 3, 4, 5, 6, 7, 8, 9, 10],
        ),
    ];

    for (input, expected) in test_cases {
        let mask = OrdMask::try_from(input.clone()).unwrap();
        assert_eq!(
            mask,
            OrdMask::with_unchecked(expected.clone(), false),
            "Test failed for input: {:?}, expected: {:?}, got: {:?}",
            input,
            expected,
            mask
        );
    }
}

#[test]
fn simplify_collapses_even_runs() {
    let mask = OrdMask::from(vec![0, 0, 1, 1]);
    assert_eq!(mask, OrdMask::empty());
    assert!(mask.key_points().is_empty());
}

#[test]
fn simplify_keeps_one_of_an_odd_run() {
    let mask = OrdMask::from(vec![0, 2, 2, 2, 3, 3, 4]);
    assert_eq!(mask, OrdMask::from(vec![0, 2, 4]));
    assert_eq!(mask.key_points(), &vec![0, 2, 4]);
}

#[test]
fn simplify_in_place_after_unchecked_construction() {
    let mut mask = OrdMask::with_unchecked(vec![0, 2, 2, 2, 4, 4, 4, 6, 6, 8, 8], false);
    assert!(!mask.is_simplified());
    mask.simplify();
    assert!(mask.is_simplified());
    assert_eq!(mask, OrdMask::from(vec![0, 2, 4]));
}

#[test]
fn simplify_keeps_the_leading_state() {
    let mut mask = OrdMask::with_unchecked(vec![3, 3, 5], true);
    mask.simplify();
    assert_eq!(mask, OrdMask::less_than(5));
    assert!(mask.is_include_min_value());
}

#[test]
fn simplify_is_idempotent() {
    let inputs = vec![
        vec![],
        vec![7],
        vec![7, 7],
        vec![0, 0, 1, 1],
        vec![0, 2, 2, 2, 3, 3, 4],
        vec![1, 1, 1, 2, 2, 3, 3, 3, 4, 4, 5, 5, 5],
    ];
    for input in inputs {
        let mut once = OrdMask::with_unchecked(input, false);
        once.simplify();
        let mut twice = once.clone();
        twice.simplify();
        assert_eq!(once, twice);
    }
}

#[test]
fn simplify_does_not_change_membership() {
    let input = vec![0, 2, 2, 2, 3, 3, 4, 6, 6];
    let raw = OrdMask::with_unchecked(input.clone(), false);
    let mut simplified = OrdMask::with_unchecked(input, false);
    simplified.simplify();
    for x in -3..10 {
        assert_eq!(raw.included(&x), simplified.included(&x), "at {}", x);
    }
}

#[test]
fn simplify_treats_each_run_on_its_own() {
    // equal values that are not adjacent belong to different runs
    let mut mask = OrdMask::with_unchecked(vec![1, 2, 2, 1], false);
    mask.simplify();
    assert_eq!(mask.key_points(), &vec![1, 1]);
}

#[test]
fn is_simplified_sees_adjacent_equal_boundaries() {
    assert!(OrdMask::with_unchecked(vec![1, 2, 3], false).is_simplified());
    assert!(!OrdMask::with_unchecked(vec![1, 2, 2], false).is_simplified());
    assert!(!OrdMask::with_unchecked(vec![1, 1], true).is_simplified());
    assert!(OrdMask::<i32>::with_unchecked(vec![], true).is_simplified());
    assert!(OrdMask::with_unchecked(vec![5], true).is_simplified());
}
