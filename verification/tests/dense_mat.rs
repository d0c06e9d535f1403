//! Tests of the dense representation.

use mat_lib::dense::Dense;
use mat_lib::entry::Entry;
use mat_lib::error::MatError;

#[test]
fn zeros_shape_and_entries() {
    let mat = Dense::zeros(3, 4);
    assert_eq!((3, 4), mat.shape());
    assert!(!mat.is_square());
    for i in 0..3usize {
        for j in 0..4usize {
            assert_eq!(Some(Entry::from_int(0)), mat.get((i, j)));
        }
    }
    assert_eq!(None, mat.get((3, 0)));
    assert_eq!(None, mat.get((0, 4)));
}

#[test]
fn from_str_reads_row_major() {
    let mat = Dense::from_str("1 2 3; 4 5 6").unwrap();
    assert_eq!((2, 3), mat.shape());
    assert_eq!(Some(Entry::from_int(4)), mat.get((1, 0)));
    assert_eq!(Some(Entry::from_int(6)), mat.get((1, 2)));
    assert_eq!(None, mat.get((2, 0)));

    assert!(Dense::from_str("1.2 2.3; 3.4 4.5").is_ok());
    assert!(Dense::from_str("1 ; 2; 3 ;4").is_ok());
    assert!(Dense::from_str("1").is_ok());
    assert_eq!(Err(MatError::InvalidShape), Dense::from_str("1; 2 3; 4"));
    assert_eq!(Err(MatError::EmptyInput), Dense::from_str(""));
}

#[test]
fn set_and_get_mut() {
    let mut mat = Dense::zeros(3, 3);
    let prev = mat.set((0, 0), Entry::from_int(7));
    assert_eq!(Some(Entry::from_int(0)), prev);
    assert_eq!(Some(Entry::from_int(7)), mat.get((0, 0)));
    assert_eq!(None, mat.set((3, 3), Entry::from_int(8)));

    if let Some(p) = mat.get_mut((2, 1)) {
        *p = Entry::new(5, 2);
    }
    assert_eq!(Some(Entry::new(5, 2)), mat.get((2, 1)));
    assert!(mat.get_mut((0, 3)).is_none());
}

#[test]
fn reshape_keeps_the_flat_layout() {
    // Reshaping is a flat resize: entries keep their positions relative to
    // the old row-major buffer, so a stride change shifts them visually,
    // and shrinking then growing does not restore what was dropped.
    let mut mat = Dense::from_str("1 2; 3 4").unwrap();
    mat.reshape((2, 3));
    // The flat buffer [1 2 3 4 0 0] read with the new stride.
    assert_eq!(Some(Entry::from_int(3)), mat.get((0, 2)));
    assert_eq!(Some(Entry::from_int(4)), mat.get((1, 0)));
    assert_eq!(Some(Entry::from_int(0)), mat.get((1, 2)));

    let mut mat = Dense::from_str("1 2; 3 4").unwrap();
    mat.reshape((1, 2));
    mat.reshape((2, 2));
    // The shrink dropped the tail for good: this is not element-preserving
    // re-gridding.
    assert_eq!(Some(Entry::from_int(1)), mat.get((0, 0)));
    assert_eq!(Some(Entry::from_int(2)), mat.get((0, 1)));
    assert_eq!(Some(Entry::from_int(0)), mat.get((1, 0)));
    assert_eq!(Some(Entry::from_int(0)), mat.get((1, 1)));
}

#[test]
fn scalar_mul_matches_apply_and_composes() {
    let k = Entry::from_int(2);
    let mut by_scalar = Dense::from_str("1 2 3").unwrap();
    by_scalar.scalar_mul(k);
    let mut by_apply = Dense::from_str("1 2 3").unwrap();
    by_apply.apply(|e| e.mul(k));
    assert_eq!(by_apply, by_scalar);
    assert_eq!(Dense::from_str("2 4 6").unwrap(), by_scalar);

    let a = Entry::new(3, 2);
    let b = Entry::from_int(-2);
    let mut twice = Dense::from_str("2 4; -6 0").unwrap();
    twice.scalar_mul(a);
    twice.scalar_mul(b);
    let mut once = Dense::from_str("2 4; -6 0").unwrap();
    once.scalar_mul(a.mul(b));
    assert_eq!(once, twice);
    assert_eq!(Some(Entry::from_int(-6)), twice.get((0, 0)));
}

#[test]
fn dense_det_and_inv_are_unsupported() {
    let mut mat = Dense::zeros(2, 2);
    assert_eq!(None, mat.det());
    assert!(!mat.inv());
}

#[test]
fn rand_fills_the_shape() {
    let mat = Dense::rand(3, 5);
    assert_eq!((3, 5), mat.shape());
    assert!(mat.get((2, 4)).is_some());
    assert_eq!(None, mat.get((3, 0)));

    let dmat = mat_lib::diag::Diag::rand(4, 2);
    assert_eq!((4, 2), dmat.shape());
    assert!(dmat.get((1, 1)).is_some());
}
