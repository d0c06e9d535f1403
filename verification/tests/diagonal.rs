//! Tests of the diagonal representation.

use mat_lib::diag::Diag;
use mat_lib::entry::Entry;
use mat_lib::error::MatError;

#[test]
fn ident() {
    let mat = Diag::ident(20);
    assert_eq!(&vec![Entry::from_int(1); 20], mat.diag());

    let (n, m) = mat.shape();
    assert_eq!(20, n);
    assert_eq!(20, m);
}

#[test]
fn zeros() {
    let mat = Diag::zeros(5, 9);
    assert_eq!(&vec![Entry::from_int(0); 5], mat.diag());

    let (n, m) = mat.shape();
    assert_eq!(5, n);
    assert_eq!(9, m);
}

#[test]
fn from() {
    let elems = vec![Entry::from_int(1), Entry::from_int(2), Entry::from_int(3)];
    let mat = Diag::from((4, 5), elems).unwrap();
    assert_eq!(Entry::from_int(1), mat.get((0, 0)).unwrap());
    assert_eq!(Entry::from_int(2), mat.get((1, 1)).unwrap());
    assert_eq!(Entry::from_int(3), mat.get((2, 2)).unwrap());
    assert_eq!(Entry::from_int(0), mat.get((3, 3)).unwrap());
}

#[test]
fn det() {
    let mat = Diag::ident(100);
    assert_eq!(Some(Entry::from_int(1)), mat.det());

    let elems = vec![Entry::from_int(1), Entry::from_int(2), Entry::from_int(3)];
    let mat = Diag::from((3, 4), elems.clone()).unwrap();
    assert_eq!(None, mat.det());

    let mat = Diag::from((4, 4), elems.clone()).unwrap();
    assert_eq!(Some(Entry::from_int(0)), mat.det());

    let mut elems4 = elems.clone();
    elems4.push(Entry::from_int(4));
    let mat = Diag::from((4, 4), elems4).unwrap();
    assert_eq!(Some(Entry::from_int(24)), mat.det());
}

#[test]
fn inv() {
    let mut mat = Diag::ident(100);
    mat.inv();
    assert_eq!(Diag::ident(100), mat);

    let mut mat = Diag::from((2, 2), vec![Entry::from_int(2), Entry::from_int(4)]).unwrap();
    mat.inv();
    let expected = Diag::from((2, 2), vec![Entry::new(1, 2), Entry::new(1, 4)]).unwrap();
    assert_eq!(expected, mat);

    let mut mat = Diag::from(
        (5, 5),
        vec![Entry::from_int(2), Entry::from_int(3), Entry::from_int(4)],
    )
    .unwrap();
    mat.inv();
    let expected = Diag::from(
        (5, 5),
        vec![Entry::new(1, 2), Entry::new(1, 3), Entry::new(1, 4)],
    )
    .unwrap();
    assert_eq!(expected, mat);
}

#[test]
fn from_rejects_excess_elements() {
    let elems = vec![Entry::from_int(1), Entry::from_int(2)];
    assert_eq!(Err(MatError::TooManyElements), Diag::from((1, 2), elems));
    let elems = vec![Entry::from_int(1), Entry::from_int(2), Entry::from_int(3)];
    assert_eq!(Err(MatError::TooManyElements), Diag::from((5, 2), elems));
}

#[test]
fn det_non_square_is_none() {
    assert_eq!(None, Diag::zeros(2, 3).det());
    assert_eq!(None, Diag::zeros(3, 2).det());
    assert_eq!(None, Diag::zeros(1, 1000).det());
}

#[test]
fn inv_non_square_refused() {
    let mut mat = Diag::zeros(2, 3);
    assert!(!mat.inv());
    assert_eq!(Diag::zeros(2, 3), mat);
}

#[test]
fn off_diagonal_access() {
    let mut mat = Diag::ident(3);
    // Off-diagonal reads synthesize zero by value.
    assert_eq!(Some(Entry::from_int(0)), mat.get((0, 2)));
    // Out-of-range reads are refused.
    assert_eq!(None, mat.get((3, 0)));
    // Off-diagonal cells can never be mutated: there is no cell.
    assert!(mat.get_mut((0, 1)).is_none());
    assert_eq!(None, mat.set((1, 0), Entry::from_int(7)));
    // Diagonal writes report the previous value.
    assert_eq!(Some(Entry::from_int(1)), mat.set((1, 1), Entry::from_int(7)));
    assert_eq!(Some(Entry::from_int(7)), mat.get((1, 1)));
    if let Some(p) = mat.get_mut((2, 2)) {
        *p = Entry::from_int(9);
    }
    assert_eq!(Some(Entry::from_int(9)), mat.get((2, 2)));
}

#[test]
fn reshape_truncates_or_pads() {
    let mut mat = Diag::from(
        (3, 3),
        vec![Entry::from_int(1), Entry::from_int(2), Entry::from_int(3)],
    )
    .unwrap();
    mat.reshape((2, 5));
    assert_eq!((2, 5), mat.shape());
    assert_eq!(&vec![Entry::from_int(1), Entry::from_int(2)], mat.diag());
    mat.reshape((4, 4));
    assert_eq!(
        &vec![
            Entry::from_int(1),
            Entry::from_int(2),
            Entry::from_int(0),
            Entry::from_int(0)
        ],
        mat.diag()
    );
}

#[test]
fn scalar_mul_scales_diagonal() {
    let mut mat = Diag::from((2, 3), vec![Entry::from_int(1), Entry::from_int(2)]).unwrap();
    mat.scalar_mul(Entry::from_int(2));
    let expected = Diag::from((2, 3), vec![Entry::from_int(2), Entry::from_int(4)]).unwrap();
    assert_eq!(expected, mat);
}

#[test]
fn scalar_mul_is_apply_and_linear() {
    let a = Entry::new(2, 3);
    let b = Entry::from_int(6);
    let start = vec![Entry::from_int(1), Entry::new(-7, 2), Entry::from_int(0)];

    // scalar_mul(a) writes the same entries as apply(|e| e * a).
    let mut by_scalar = Diag::from((3, 3), start.clone()).unwrap();
    by_scalar.scalar_mul(a);
    let mut by_apply = Diag::from((3, 3), start.clone()).unwrap();
    by_apply.apply(|e| e.mul(a));
    assert_eq!(by_apply, by_scalar);

    // Scaling by a then b equals one scaling by a * b.
    let mut twice = Diag::from((3, 3), start.clone()).unwrap();
    twice.scalar_mul(a);
    twice.scalar_mul(b);
    let mut once = Diag::from((3, 3), start).unwrap();
    once.scalar_mul(a.mul(b));
    assert_eq!(once, twice);
}
