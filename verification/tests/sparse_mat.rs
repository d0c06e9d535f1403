//! Tests of the sparse representation.

use mat_lib::entry::Entry;
use mat_lib::sparse::Sparse;

#[test]
fn from_iter() {
    let pairs = vec![
        ((0, 0), Entry::new(11, 10)),
        ((1, 1), Entry::new(22, 10)),
        ((2, 2), Entry::new(33, 10)),
    ];
    let mat = Sparse::from_iter(3, 3, pairs);
    println!("mat:\n{}", mat.render());
}

#[test]
fn render_fixed_width_cells() {
    let mut mat = Sparse::zeros(2, 2);
    mat.set((0, 0), Entry::new(11, 10));
    mat.set((1, 0), Entry::new(-1, 2));
    assert_eq!("[ 1.1000 0.0000 ]\n[ -0.500 0.0000 ]", mat.render());

    let ident = mat_lib::diag::Diag::ident(2);
    assert_eq!("[ 1.0000 0.0000 ]\n[ 0.0000 1.0000 ]", ident.render());

    let dense = mat_lib::dense::Dense::from_str("1.25 2; 3 444.4444").unwrap();
    assert_eq!("[ 1.2500 2.0000 ]\n[ 3.0000 444.44 ]", dense.render());
}

#[test]
fn built_matrix_holds_exact_values() {
    let pairs = vec![
        ((0, 0), Entry::new(11, 10)),
        ((1, 1), Entry::new(22, 10)),
        ((2, 2), Entry::new(33, 10)),
    ];
    let mat = Sparse::from_iter(3, 3, pairs);
    assert_eq!((3, 3), mat.shape());
    for i in 0..3usize {
        for j in 0..3usize {
            let want = if i == j {
                Entry::new(11 * (i as i64 + 1), 10)
            } else {
                Entry::from_int(0)
            };
            assert_eq!(Some(want), mat.get((i, j)));
        }
    }
}

#[test]
fn later_duplicates_overwrite() {
    let pairs = vec![
        ((0, 1), Entry::from_int(1)),
        ((0, 1), Entry::from_int(2)),
        ((9, 9), Entry::from_int(5)),
    ];
    let mat = Sparse::from_iter(2, 2, pairs);
    // The later write wins; the out-of-range pair is dropped.
    assert_eq!(Some(Entry::from_int(2)), mat.get((0, 1)));
    assert_eq!(None, mat.get((9, 9)));
}

#[test]
fn unset_cells_read_zero() {
    let mat = Sparse::zeros(2, 3);
    assert_eq!((2, 3), mat.shape());
    assert!(!mat.is_square());
    assert!(mat.is_in_range((1, 2)));
    assert!(!mat.is_in_range((2, 0)));
    assert_eq!(Some(Entry::from_int(0)), mat.get((1, 2)));
    assert_eq!(None, mat.get((2, 0)));
    assert_eq!(None, mat.get((0, 3)));
}

#[test]
fn set_get_round_trip() {
    let mut mat = Sparse::zeros(3, 3);
    let prev = mat.set((0, 0), Entry::from_int(7));
    assert_eq!(Some(Entry::from_int(0)), prev);
    assert_eq!(Some(Entry::from_int(7)), mat.get((0, 0)));
    let prev = mat.set((0, 0), Entry::new(-3, 4));
    assert_eq!(Some(Entry::from_int(7)), prev);
    assert_eq!(Some(Entry::new(-3, 4)), mat.get((0, 0)));
    // Out-of-range writes are rejected.
    assert_eq!(None, mat.set((3, 3), Entry::from_int(8)));
}

#[test]
fn get_mut_materializes_a_stored_zero() {
    let mut mat = Sparse::zeros(2, 2);
    assert!(mat.get_mut((0, 1)).is_some());
    assert!(mat.get_mut((2, 0)).is_none());
    // apply only touches stored cells, so only the materialized zero moves.
    mat.apply(|e| e.add(Entry::from_int(5)));
    assert_eq!(Some(Entry::from_int(5)), mat.get((0, 1)));
    assert_eq!(Some(Entry::from_int(0)), mat.get((1, 1)));
}

#[test]
fn get_mut_writes_through() {
    let mut mat = Sparse::zeros(2, 2);
    if let Some(p) = mat.get_mut((1, 0)) {
        *p = Entry::from_int(4);
    }
    assert_eq!(Some(Entry::from_int(4)), mat.get((1, 0)));
}

#[test]
fn reshape_evicts_out_of_bounds_cells() {
    let mut mat = Sparse::zeros(4, 4);
    mat.set((0, 0), Entry::from_int(1));
    mat.set((1, 3), Entry::from_int(2));
    mat.set((3, 1), Entry::from_int(3));
    mat.reshape((2, 2));
    assert_eq!((2, 2), mat.shape());
    // Retained cells keep their coordinates; evicted ones are gone for good.
    assert_eq!(Some(Entry::from_int(1)), mat.get((0, 0)));
    mat.reshape((4, 4));
    assert_eq!(Some(Entry::from_int(0)), mat.get((1, 3)));
    assert_eq!(Some(Entry::from_int(0)), mat.get((3, 1)));
}

#[test]
fn sparse_det_and_inv_are_unsupported() {
    let mut mat = Sparse::zeros(2, 2);
    mat.set((0, 0), Entry::from_int(3));
    assert_eq!(None, mat.det());
    assert!(!mat.inv());
    assert_eq!(Some(Entry::from_int(3)), mat.get((0, 0)));
}

#[test]
fn sparse_scalar_mul_linear() {
    let a = Entry::new(1, 2);
    let b = Entry::from_int(-4);
    let pairs = vec![((0, 0), Entry::from_int(6)), ((1, 2), Entry::new(2, 3))];
    let mut twice = Sparse::from_iter(2, 3, pairs.clone());
    twice.scalar_mul(a);
    twice.scalar_mul(b);
    let mut once = Sparse::from_iter(2, 3, pairs);
    once.scalar_mul(a.mul(b));
    assert_eq!(once, twice);
    assert_eq!(Some(Entry::from_int(-12)), twice.get((0, 0)));
}
