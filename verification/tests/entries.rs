//! Tests of the exact rational entry type.

use mat_lib::entry::Entry;

#[test]
fn ratio_equality_is_semantic() {
    assert_eq!(Entry::new(1, 2), Entry::new(2, 4));
    assert_eq!(Entry::new(-3, 6), Entry::new(-1, 2));
    assert_ne!(Entry::new(1, 2), Entry::new(1, 3));
    assert_eq!(Entry::from_int(0), Entry::new(0, 7));
}

#[test]
fn arithmetic_is_exact() {
    let third = Entry::new(1, 3);
    let half = Entry::new(1, 2);
    assert_eq!(Entry::new(5, 6), third.add(half));
    assert_eq!(Entry::new(1, 6), third.mul(half));
    assert_eq!(Entry::new(2, 3), third.div(half));
    assert_eq!(Entry::new(-2, 3), third.div(Entry::new(-1, 2)));
    // Division keeps the denominator positive.
    assert_eq!(Entry::new(2, 3), Entry::new(-1, 3).div(Entry::new(-1, 2)));
    assert!(Entry::new(0, 5).is_zero());
    assert!(!third.is_zero());
}

#[test]
fn one_and_zero() {
    let e = Entry::new(7, 9);
    assert_eq!(e, e.mul(Entry::one()));
    assert_eq!(e, e.add(Entry::zero()));
    assert_eq!(Entry::zero(), e.mul(Entry::zero()));
}
