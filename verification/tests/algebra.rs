use ordmask::OrdMask;
use std::collections::BTreeSet;

fn samples() -> Vec<OrdMask<i32>> {
    vec![
        OrdMask::empty(),
        OrdMask::universal(),
        OrdMask::from(vec![0]),
        OrdMask::from_complement(vec![0]),
        OrdMask::from(vec![0, 6]),
        OrdMask::from(vec![5, 10]),
        OrdMask::from(vec![-10, 30]),
        OrdMask::from(vec![0, 5, 20, 30]),
        OrdMask::from_complement(vec![-3, 2, 8]),
        OrdMask::from_complement(vec![6, 20]),
        OrdMask::from(vec![i32::MIN]),
        OrdMask::from(vec![i32::MIN, 4]),
    ]
}

fn values() -> Vec<i32> {
    let mut values: Vec<i32> = (-12..34).collect();
    values.push(i32::MIN);
    values.push(i32::MIN + 1);
    values.push(i32::MAX);
    values
}

#[test]
fn union_of_three() {
    let mask1 = OrdMask::from(vec![0, 6]);
    let mask2 = OrdMask::from(vec![5, 10]);
    let mask3 = OrdMask::from(vec![20, 30]);
    let union = OrdMask::union(&[&mask1, &mask2, &mask3]);
    assert_eq!(union, OrdMask::from(vec![0, 10, 20, 30]));
}

#[test]
fn intersection_of_three() {
    let mask1 = OrdMask::from(vec![0, 6]);
    let mask2 = OrdMask::from(vec![5, 10]);
    let mask3 = OrdMask::from(vec![-10, 30]);
    let intersection = OrdMask::intersection(&[&mask1, &mask2, &mask3]);
    assert_eq!(intersection, OrdMask::from(vec![5, 6]));
}

#[test]
fn difference_of_one_and_two() {
    let mask1 = OrdMask::from(vec![0, 30]);
    let mask2 = OrdMask::from(vec![5, 10]);
    let mask3 = OrdMask::from(vec![6, 20]);
    let difference = mask1.minus(&[&mask2, &mask3]);
    assert_eq!(difference, OrdMask::from(vec![0, 5, 20, 30]));
}

#[test]
fn symmetric_difference_of_two() {
    let mask1 = OrdMask::from(vec![0, 10]);
    let mask2 = OrdMask::from(vec![5, 20]);
    let symmetric_difference = mask1.symmetric_difference(&mask2);
    assert_eq!(symmetric_difference, OrdMask::from(vec![0, 5, 10, 20]));
}

#[test]
fn complement_flips_the_leading_state() {
    let mask = OrdMask::from(vec![0, 10]);
    assert_eq!(mask.new_complement(), OrdMask::from_complement(vec![0, 10]));
    assert_eq!(mask.key_points(), &vec![0, 10]);
    assert_eq!(mask.complement(), OrdMask::from_complement(vec![0, 10]));
}

#[test]
fn reverse_turns_the_mask_into_its_complement() {
    let mut mask = OrdMask::from(vec![0, 10]);
    mask.reverse();
    assert_eq!(mask, OrdMask::from_complement(vec![0, 10]));
    mask.reverse();
    assert_eq!(mask, OrdMask::from(vec![0, 10]));
}

#[test]
fn complement_includes_what_the_mask_excludes() {
    for mask in samples() {
        let complement = mask.new_complement();
        for v in values() {
            assert_eq!(complement.included(&v), !mask.included(&v));
        }
    }
}

#[test]
fn complement_of_the_complement_is_the_mask() {
    for mask in samples() {
        assert_eq!(mask.new_complement().new_complement(), mask);
        assert_eq!(mask.clone().complement().complement(), mask);
    }
}

#[test]
fn union_includes_what_any_includes() {
    for a in samples() {
        for b in samples() {
            let union = OrdMask::union(&[&a, &b]);
            assert!(union.is_valid() && union.is_simplified());
            for v in values() {
                assert_eq!(union.included(&v), a.included(&v) || b.included(&v));
            }
        }
    }
}

#[test]
fn intersection_includes_what_all_include() {
    for a in samples() {
        for b in samples() {
            let intersection = OrdMask::intersection(&[&a, &b]);
            assert!(intersection.is_valid() && intersection.is_simplified());
            for v in values() {
                assert_eq!(intersection.included(&v), a.included(&v) && b.included(&v));
            }
        }
    }
}

#[test]
fn difference_includes_what_only_the_first_includes() {
    for a in samples() {
        for b in samples() {
            for c in samples() {
                let difference = a.minus(&[&b, &c]);
                assert!(difference.is_valid() && difference.is_simplified());
                for v in values() {
                    assert_eq!(
                        difference.included(&v),
                        a.included(&v) && !b.included(&v) && !c.included(&v)
                    );
                }
            }
        }
    }
}

#[test]
fn symmetric_difference_includes_what_exactly_one_includes() {
    for a in samples() {
        for b in samples() {
            let difference = a.symmetric_difference(&b);
            assert!(difference.is_valid() && difference.is_simplified());
            for v in values() {
                assert_eq!(difference.included(&v), a.included(&v) != b.included(&v));
            }
        }
    }
}

#[test]
fn de_morgan_for_union() {
    for a in samples() {
        for b in samples() {
            let left = OrdMask::union(&[&a, &b]).complement();
            let right = OrdMask::intersection(&[&a.new_complement(), &b.new_complement()]);
            assert_eq!(left, right);
        }
    }
}

#[test]
fn de_morgan_for_intersection() {
    for a in samples() {
        for b in samples() {
            let left = OrdMask::intersection(&[&a, &b]).complement();
            let right = OrdMask::union(&[&a.new_complement(), &b.new_complement()]);
            assert_eq!(left, right);
        }
    }
}

#[test]
fn operations_on_no_masks() {
    let none: [&OrdMask<i32>; 0] = [];
    assert_eq!(OrdMask::union(&none), OrdMask::empty());
    assert_eq!(OrdMask::intersection(&none), OrdMask::universal());
    let mask = OrdMask::from(vec![1, 2]);
    assert_eq!(mask.minus(&none), mask);
}

#[test]
fn operations_on_one_mask() {
    for mask in samples() {
        assert_eq!(OrdMask::union(&[&mask]), mask);
        assert_eq!(OrdMask::intersection(&[&mask]), mask);
        assert_eq!(mask.symmetric_difference(&mask), OrdMask::empty());
        assert_eq!(mask.minus(&[&mask]), OrdMask::empty());
    }
}

#[test]
fn leading_states_combine_like_the_masks() {
    let below = OrdMask::less_than(0);
    let above = OrdMask::not_less_than(0);
    assert!(OrdMask::union(&[&below, &above]).is_include_min_value());
    assert_eq!(OrdMask::union(&[&below, &above]), OrdMask::universal());
    assert!(!OrdMask::intersection(&[&below, &above]).is_include_min_value());
    assert_eq!(OrdMask::intersection(&[&below, &above]), OrdMask::empty());
    assert!(below.minus(&[&above]).is_include_min_value());
    assert!(!above.minus(&[&below]).is_include_min_value());
    assert!(below.symmetric_difference(&above).is_include_min_value());
    assert!(!below.symmetric_difference(&below).is_include_min_value());
}

#[test]
fn a_boundary_at_the_least_value_stays_a_boundary() {
    // on u8, [0, oo) includes everything, yet it is not the universal mask
    let all = OrdMask::from(vec![0u8]);
    let union = OrdMask::union(&[&all, &OrdMask::empty()]);
    assert_eq!(union, all);
    assert_eq!(union.key_points(), &vec![0u8]);
    assert!(!union.is_universal());
}

#[test]
fn key_points_set_collects_all_boundaries() {
    let a = OrdMask::from(vec![0, 6]);
    let b = OrdMask::from_complement(vec![5, 6, 10]);
    let c = OrdMask::empty();
    let expected: BTreeSet<i32> = [0, 5, 6, 10].into_iter().collect();
    assert_eq!(OrdMask::get_key_points_set(&[&a, &b, &c]), expected);
    assert!(OrdMask::<i32>::get_key_points_set(&[]).is_empty());
}

#[test]
fn clone_is_equal() {
    for mask in samples() {
        assert_eq!(mask.clone(), mask);
    }
}

/// A small generator of pseudo-random numbers, so that the runs repeat.
struct Lcg(u64);

impl Lcg {
    fn next(&mut self) -> u64 {
        self.0 = self.0.wrapping_mul(6364136223846793005).wrapping_add(1442695040888963407);
        self.0 >> 33
    }

    fn mask(&mut self) -> OrdMask<i32> {
        let len = (self.next() % 9) as usize;
        let mut boundaries: Vec<i32> = (0..len).map(|_| (self.next() % 24) as i32 - 4).collect();
        boundaries.sort();
        let reversed = self.next() % 2 == 0;
        OrdMask::try_new(boundaries, reversed).unwrap()
    }
}

#[test]
fn random_masks_combine_pointwise() {
    let mut random = Lcg(2024);
    for _ in 0..300 {
        let a = random.mask();
        let b = random.mask();
        let c = random.mask();
        let union = OrdMask::union(&[&a, &b, &c]);
        let intersection = OrdMask::intersection(&[&a, &b, &c]);
        let difference = a.minus(&[&b, &c]);
        let symmetric = a.symmetric_difference(&b);
        for mask in [&union, &intersection, &difference, &symmetric] {
            assert!(mask.is_valid());
            assert!(mask.is_simplified());
        }
        for v in -6..24 {
            let (x, y, z) = (a.included(&v), b.included(&v), c.included(&v));
            assert_eq!(union.included(&v), x || y || z);
            assert_eq!(intersection.included(&v), x && y && z);
            assert_eq!(difference.included(&v), x && !y && !z);
            assert_eq!(symmetric.included(&v), x != y);
        }
        assert_eq!(
            OrdMask::union(&[&a, &b]).complement(),
            OrdMask::intersection(&[&a.new_complement(), &b.new_complement()])
        );
        assert_eq!(
            OrdMask::intersection(&[&a, &b]).complement(),
            OrdMask::union(&[&a.new_complement(), &b.new_complement()])
        );
    }
}

#[test]
fn random_lists_simplify_to_the_values_of_odd_multiplicity() {
    let mut random = Lcg(7);
    for _ in 0..300 {
        let len = (random.next() % 12) as usize;
        let mut input: Vec<i32> = (0..len).map(|_| (random.next() % 6) as i32).collect();
        input.sort();
        let expected: Vec<i32> = (0..6)
            .filter(|v| input.iter().filter(|x| *x == v).count() % 2 == 1)
            .collect();
        let mut mask = OrdMask::with_unchecked(input.clone(), false);
        mask.simplify();
        assert_eq!(mask.key_points(), &expected, "for {:?}", input);
        for v in -1..7 {
            let count = input.iter().filter(|x| **x <= v).count();
            assert_eq!(mask.included(&v), count % 2 == 1);
        }
    }
}
