use ordmask::OrdMask;

fn a() -> OrdMask<i32> {
    OrdMask::from(vec![0, 10])
}

fn b() -> OrdMask<i32> {
    OrdMask::from(vec![5, 20])
}

#[test]
fn bitor_is_union() {
    let expected = OrdMask::union(&[&a(), &b()]);
    assert_eq!(expected, OrdMask::from(vec![0, 20]));
    assert_eq!(a() | b(), expected);
    assert_eq!(a() | &b(), expected);
    assert_eq!(&a() | b(), expected);
    assert_eq!(&a() | &b(), expected);
}

#[test]
fn bitand_is_intersection() {
    let expected = OrdMask::intersection(&[&a(), &b()]);
    assert_eq!(expected, OrdMask::from(vec![5, 10]));
    assert_eq!(a() & b(), expected);
    assert_eq!(a() & &b(), expected);
    assert_eq!(&a() & b(), expected);
    assert_eq!(&a() & &b(), expected);
}

#[test]
fn bitxor_is_symmetric_difference() {
    let expected = a().symmetric_difference(&b());
    assert_eq!(expected, OrdMask::from(vec![0, 5, 10, 20]));
    assert_eq!(a() ^ b(), expected);
    assert_eq!(a() ^ &b(), expected);
    assert_eq!(&a() ^ b(), expected);
    assert_eq!(&a() ^ &b(), expected);
}

#[test]
fn sub_is_difference() {
    let expected = a().minus(&[&b()]);
    assert_eq!(expected, OrdMask::from(vec![0, 5]));
    assert_eq!(a() - b(), expected);
    assert_eq!(a() - &b(), expected);
    assert_eq!(&a() - b(), expected);
    assert_eq!(&a() - &b(), expected);
}

#[test]
fn not_is_complement() {
    let expected = OrdMask::from_complement(vec![0, 10]);
    assert_eq!(!a(), expected);
    assert_eq!(!&a(), expected);
    assert_eq!(!!a(), a());
}
