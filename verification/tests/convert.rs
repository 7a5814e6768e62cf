use ordmask::{get_first_falling_index, OrdMask};

#[test]
fn first_falling_index_of_sorted_lists_is_zero() {
    assert_eq!(get_first_falling_index::<i32>(&vec![]), 0);
    assert_eq!(get_first_falling_index(&vec![1]), 0);
    assert_eq!(get_first_falling_index(&vec![1, 2, 3]), 0);
    assert_eq!(get_first_falling_index(&vec![1, 1, 2, 2]), 0);
}

#[test]
fn first_falling_index_is_the_first_descent() {
    assert_eq!(get_first_falling_index(&vec![1, 0]), 1);
    assert_eq!(get_first_falling_index(&vec![1, 2, 3, 2, 1]), 3);
    assert_eq!(get_first_falling_index(&vec![0, 5, 5, 4, 9, 3]), 3);
}

#[test]
fn first_falling_index_of_floats() {
    assert_eq!(get_first_falling_index(&vec![0.5, 1.5, 1.25]), 2);
    assert_eq!(get_first_falling_index(&vec![0.5, 1.5, 2.25]), 0);
}

#[test]
fn try_from_rejects_a_descending_list() {
    let error = OrdMask::try_from(vec![1, 0]).unwrap_err();
    assert_eq!(error.falling_pos(), 1);
}

#[test]
fn try_from_reports_the_first_descent() {
    let error = OrdMask::try_from(vec![0, 1, 2, 1, 0]).unwrap_err();
    assert_eq!(error.falling_pos(), 3);
}

#[test]
fn try_from_accepts_an_ascending_list() {
    let mask = OrdMask::try_from(vec![1, 2, 3]).unwrap();
    assert_eq!(mask.key_points(), &vec![1, 2, 3]);
    assert!(!mask.is_include_min_value());
    // [1, 2) and [3, oo), put together from ranges
    let composed = OrdMask::union(&[&OrdMask::in_range(1, 2), &OrdMask::not_less_than(3)]);
    assert_eq!(mask, composed);
}

#[test]
fn try_from_simplifies() {
    let mask = OrdMask::try_from(vec![1, 1, 2, 3, 3, 3]).unwrap();
    assert_eq!(mask.key_points(), &vec![2, 3]);
}

#[test]
fn try_new_keeps_the_leading_state() {
    let mask = OrdMask::try_new(vec![1, 2, 2], true).unwrap();
    assert_eq!(mask, OrdMask::less_than(1));
    let error = OrdMask::try_new(vec![3, 2, 1], true).unwrap_err();
    assert_eq!(error.falling_pos(), 1);
}

#[test]
fn error_message_names_both_indices() {
    let error = OrdMask::try_from(vec![1, 0]).unwrap_err();
    assert_eq!(
        error.message(),
        "Can't convert Vec<T> to OrdMask<T> because it should be non-decreasing.\n\
         The value at index 1 is less than the value at index 0."
    );
}

#[test]
fn error_message_writes_indices_in_decimal() {
    let mut input: Vec<u32> = (0..1234).collect();
    input.push(7);
    let error = OrdMask::try_from(input).unwrap_err();
    assert_eq!(error.falling_pos(), 1234);
    assert_eq!(
        error.message(),
        "Can't convert Vec<T> to OrdMask<T> because it should be non-decreasing.\n\
         The value at index 1234 is less than the value at index 1233."
    );
    let mut input: Vec<u32> = (0..10).collect();
    input.push(0);
    let error = OrdMask::try_from(input).unwrap_err();
    assert!(error.message().ends_with("index 10 is less than the value at index 9."));
}

#[test]
fn into_vec_gives_the_boundaries() {
    let mask = OrdMask::from(vec![0, 2, 2, 2, 3, 3, 4]);
    let boundaries: Vec<i32> = mask.into();
    assert_eq!(boundaries, vec![0, 2, 4]);
}

#[test]
fn with_unchecked_checks_nothing() {
    let mask = OrdMask::with_unchecked(vec![3, 1, 1], true);
    assert_eq!(mask.key_points(), &vec![3, 1, 1]);
    assert!(mask.is_include_min_value());
    assert!(!mask.is_valid());
    assert!(!mask.is_simplified());
}

#[test]
fn is_valid_tells_whether_the_boundaries_are_non_decreasing() {
    assert!(OrdMask::with_unchecked(vec![1, 1, 2], false).is_valid());
    assert!(!OrdMask::with_unchecked(vec![1, 2, 1], false).is_valid());
    assert!(OrdMask::<u8>::with_unchecked(vec![], false).is_valid());
}

#[test]
fn round_trip_through_boundaries_and_leading_state() {
    let masks = vec![
        OrdMask::empty(),
        OrdMask::universal(),
        OrdMask::from(vec![0, 10, 20]),
        OrdMask::from_complement(vec![0, 10, 20]),
        OrdMask::in_range(-5, 5),
        OrdMask::less_than(0),
    ];
    for mask in masks {
        let leading = mask.is_include_min_value();
        let boundaries = mask.key_points().clone();
        assert_eq!(OrdMask::with_unchecked(boundaries, leading), mask);
        let boundaries: Vec<i32> = mask.clone().into();
        assert_eq!(OrdMask::with_unchecked(boundaries, leading), mask);
    }
}
