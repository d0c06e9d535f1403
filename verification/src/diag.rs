//! A diagonal matrix representation: only the `min(rows, cols)` cells of the
//! main diagonal are stored, and every off-diagonal read synthesizes zero.
//! Off-diagonal cells are never materialized and can never be mutated.

use vstd::prelude::*;

use crate::entry::Entry;
use crate::error::MatError;

verus! {

/// An `n x m` matrix holding only its main diagonal.
#[derive(Debug)]
pub struct Diag {
    data: Vec<Entry>,
    n: usize,
    m: usize,
}

impl Diag {
    /// The stored diagonal, of length `min(n, m)`.
    pub closed spec fn data_s(self) -> Seq<Entry> {
        self.data@
    }

    /// The number of rows.
    pub closed spec fn rows_s(self) -> usize {
        self.n
    }

    /// The number of columns.
    pub closed spec fn cols_s(self) -> usize {
        self.m
    }

    /// The length of the stored diagonal.
    pub open spec fn min_dim_s(self) -> int {
        if self.rows_s() <= self.cols_s() {
            self.rows_s() as int
        } else {
            self.cols_s() as int
        }
    }

    /// Structural invariant: exactly the diagonal is stored, and every
    /// stored entry is well-formed.
    pub open spec fn wf(self) -> bool {
        &&& self.data_s().len() == self.min_dim_s()
        &&& forall|k: int|
            0 <= k < self.data_s().len() ==> (#[trigger] self.data_s()[k]).wf()
    }

    /// Whether `(i, j)` lies inside the declared shape.
    pub open spec fn in_range_s(self, i: int, j: int) -> bool {
        0 <= i < self.rows_s() && 0 <= j < self.cols_s()
    }

    /// The entry read at in-range cell `(i, j)`: the stored diagonal value on
    /// the diagonal, zero elsewhere.
    pub open spec fn at_s(self, i: int, j: int) -> Entry {
        if i == j {
            self.data_s()[i]
        } else {
            Entry::zero_s()
        }
    }

    /// Builds an `n x m` matrix whose whole diagonal holds `val`.
    fn with_value(n: usize, m: usize, val: Entry) -> (r: Diag)
        requires
            val.wf(),
        ensures
            r.wf(),
            r.rows_s() == n,
            r.cols_s() == m,
            forall|k: int| 0 <= k < r.data_s().len() ==> r.data_s()[k] == val,
    {
        let min = if n <= m {
            n
        } else {
            m
        };
        let mut data: Vec<Entry> = Vec::new();
        let mut k: usize = 0;
        while k < min
            invariant
                k <= min,
                data@.len() == k,
                forall|q: int| 0 <= q < k ==> data@[q] == val,
            decreases min - k,
        {
            data.push(val);
            k += 1;
        }
        Diag { data, n, m }
    }

    /// Returns the `n x n` identity matrix: ones on the diagonal.
    pub fn ident(n: usize) -> (r: Diag)
        ensures
            r.wf(),
            r.rows_s() == n,
            r.cols_s() == n,
            forall|k: int| 0 <= k < r.data_s().len() ==> r.data_s()[k] == Entry::one_s(),
    {
        Diag::with_value(n, n, Entry::one())
    }

    /// Initializes a new `n x m` matrix filled with zeros: every in-range
    /// read, on or off the diagonal, yields zero.
    pub fn zeros(n: usize, m: usize) -> (r: Diag)
        ensures
            r.wf(),
            r.rows_s() == n,
            r.cols_s() == m,
            forall|i: int, j: int| r.in_range_s(i, j) ==> r.at_s(i, j) == Entry::zero_s(),
    {
        Diag::with_value(n, m, Entry::zero())
    }

    /// Initializes a new `n x m` matrix with a random diagonal.
    pub fn rand(n: usize, m: usize) -> (r: Diag)
        ensures
            r.wf(),
            r.rows_s() == n,
            r.cols_s() == m,
    {
        let min = if n <= m {
            n
        } else {
            m
        };
        let mut data: Vec<Entry> = Vec::new();
        let mut k: usize = 0;
        while k < min
            invariant
                k <= min,
                data@.len() == k,
                forall|q: int| 0 <= q < k ==> (#[trigger] data@[q]).wf(),
            decreases min - k,
        {
            data.push(crate::random::random_entry());
            k += 1;
        }
        Diag { data, n, m }
    }

    /// Builds a matrix of the given `(rows, cols)` shape from the leading
    /// diagonal elements. Fails with `TooManyElements` exactly when more
    /// than `min(rows, cols)` elements are given; the remaining diagonal
    /// slots are padded with zero.
    pub fn from(shape: (usize, usize), elems: Vec<Entry>) -> (r: Result<Diag, MatError>)
        requires
            forall|k: int| 0 <= k < elems@.len() ==> (#[trigger] elems@[k]).wf(),
        ensures
            ({
                let min = if shape.0 <= shape.1 {
                    shape.0 as int
                } else {
                    shape.1 as int
                };
                if elems@.len() > min {
                    r == Result::<Diag, MatError>::Err(MatError::TooManyElements)
                } else {
                    r matches Ok(d) && d.wf() && d.rows_s() == shape.0 && d.cols_s() == shape.1
                        && d.data_s().len() == min && (forall|k: int|
                        0 <= k < elems@.len() ==> d.data_s()[k] == elems@[k]) && (forall|k: int|
                        elems@.len() <= k < min ==> d.data_s()[k] == Entry::zero_s())
                }
            }),
    {
        let (n, m) = shape;
        let min = if n <= m {
            n
        } else {
            m
        };
        if elems.len() > min {
            return Err(MatError::TooManyElements);
        }
        let mut data = elems;
        while data.len() < min
            invariant
                data@.len() <= min,
                elems@.len() <= data@.len(),
                forall|k: int| 0 <= k < elems@.len() ==> data@[k] == elems@[k],
                forall|k: int| elems@.len() <= k < data@.len() ==> data@[k] == Entry::zero_s(),
            decreases min - data@.len(),
        {
            data.push(Entry::zero());
        }
        Ok(Diag { data, n, m })
    }

    /// Returns the entry at `idx: (i, j)`: the stored value on the diagonal,
    /// a zero synthesized by value off it, and `None` out of range.
    pub fn get(&self, idx: (usize, usize)) -> (r: Option<Entry>)
        requires
            self.wf(),
        ensures
            self.in_range_s(idx.0 as int, idx.1 as int) ==> r == Some(
                self.at_s(idx.0 as int, idx.1 as int),
            ),
            !self.in_range_s(idx.0 as int, idx.1 as int) ==> r is None,
    {
        let (i, j) = idx;
        if i < self.n && j < self.m {
            if i == j {
                Some(self.data[i])
            } else {
                Some(Entry::zero())
            }
        } else {
            None
        }
    }

    /// Returns a mutable handle on the entry at `idx: (i, j)`. Only stored
    /// diagonal cells have a slot: off-diagonal mutation is always refused,
    /// since there is no cell to mutate.
    pub fn get_mut(&mut self, idx: (usize, usize)) -> (r: Option<&mut Entry>)
        requires
            old(self).wf(),
        ensures
            final(self).rows_s() == old(self).rows_s(),
            final(self).cols_s() == old(self).cols_s(),
            (idx.0 == idx.1 && (idx.0 as int) < old(self).min_dim_s()) ==> (r matches Some(p)
                && *p == old(self).data_s()[idx.0 as int]
                && final(self).data_s() == old(self).data_s().update(idx.0 as int, *final(p))),
            !(idx.0 == idx.1 && (idx.0 as int) < old(self).min_dim_s())
                ==> r is None && *final(self) == *old(self),
    {
        let (i, j) = idx;
        if i == j && i < self.data.len() {
            Some(&mut self.data[i])
        } else {
            None
        }
    }

    /// Replaces the diagonal entry at `idx: (i, j)` with `val` and returns
    /// the previous value; any other cell reports `None` and changes nothing.
    pub fn set(&mut self, idx: (usize, usize), val: Entry) -> (r: Option<Entry>)
        requires
            old(self).wf(),
            val.wf(),
        ensures
            final(self).wf(),
            final(self).rows_s() == old(self).rows_s(),
            final(self).cols_s() == old(self).cols_s(),
            (idx.0 == idx.1 && (idx.0 as int) < old(self).min_dim_s())
                ==> r == Some(old(self).data_s()[idx.0 as int])
                && final(self).data_s() == old(self).data_s().update(idx.0 as int, val),
            !(idx.0 == idx.1 && (idx.0 as int) < old(self).min_dim_s())
                ==> r is None && *final(self) == *old(self),
    {
        let (i, j) = idx;
        if i == j && i < self.data.len() {
            let prev = self.data[i];
            self.data[i] = val;
            Some(prev)
        } else {
            None
        }
    }

    /// Returns the shape of the matrix in the format `(rows, cols)`.
    pub fn shape(&self) -> (r: (usize, usize))
        ensures
            r == (self.rows_s(), self.cols_s()),
    {
        (self.n, self.m)
    }

    /// The stored diagonal, as a vector of length `min(rows, cols)`.
    pub fn diag(&self) -> (r: &Vec<Entry>)
        ensures
            r@ == self.data_s(),
    {
        &self.data
    }

    /// Whether the matrix has as many rows as columns.
    pub fn is_square(&self) -> (r: bool)
        ensures
            r == (self.rows_s() == self.cols_s()),
    {
        self.n == self.m
    }

    /// Truncates or zero-pads the stored diagonal to fit the new shape.
    pub fn reshape(&mut self, shape: (usize, usize))
        requires
            old(self).wf(),
        ensures
            final(self).wf(),
            final(self).rows_s() == shape.0,
            final(self).cols_s() == shape.1,
            forall|k: int|
                0 <= k < final(self).data_s().len() && k < old(self).data_s().len()
                    ==> final(self).data_s()[k] == old(self).data_s()[k],
            forall|k: int|
                old(self).data_s().len() <= k < final(self).data_s().len()
                    ==> final(self).data_s()[k] == Entry::zero_s(),
    {
        let (n, m) = shape;
        let min = if n <= m {
            n
        } else {
            m
        };
        if min <= self.data.len() {
            self.data.truncate(min);
            proof {
                assert forall|k: int| 0 <= k < self.data@.len() implies self.data@[k] == old(
                    self,
                ).data_s()[k] by {
                    assert(self.data@ == old(self).data_s().subrange(0, min as int));
                }
            }
        } else {
            while self.data.len() < min
                invariant
                    old(self).data_s().len() <= self.data@.len() <= min,
                    forall|k: int|
                        0 <= k < old(self).data_s().len() ==> self.data@[k] == old(
                            self,
                        ).data_s()[k],
                    forall|k: int|
                        old(self).data_s().len() <= k < self.data@.len()
                            ==> self.data@[k] == Entry::zero_s(),
                decreases min - self.data@.len(),
            {
                self.data.push(Entry::zero());
            }
        }
        self.n = n;
        self.m = m;
        proof {
            assert forall|k: int| 0 <= k < self.data@.len() implies (#[trigger] self.data@[k]).wf()
                by {
                if k < old(self).data_s().len() {
                    assert(old(self).data_s()[k].wf());
                }
            }
        }
    }

    /// Applies `f` to every stored entry in place.
    pub fn apply<F: Fn(Entry) -> Entry>(&mut self, f: F)
        requires
            old(self).wf(),
            forall|k: int|
                0 <= k < old(self).data_s().len() ==> call_requires(
                    f,
                    (old(self).data_s()[k],),
                ),
        ensures
            final(self).rows_s() == old(self).rows_s(),
            final(self).cols_s() == old(self).cols_s(),
            final(self).data_s().len() == old(self).data_s().len(),
            forall|k: int|
                0 <= k < old(self).data_s().len() ==> call_ensures(
                    f,
                    (old(self).data_s()[k],),
                    #[trigger] final(self).data_s()[k],
                ),
    {
        let len = self.data.len();
        let mut k: usize = 0;
        while k < len
            invariant
                k <= len,
                len == self.data@.len(),
                self.data@.len() == old(self).data_s().len(),
                self.n == old(self).n,
                self.m == old(self).m,
                forall|q: int|
                    0 <= q < old(self).data_s().len() ==> call_requires(
                        f,
                        (old(self).data_s()[q],),
                    ),
                forall|q: int|
                    k <= q < len ==> self.data@[q] == old(self).data_s()[q],
                forall|q: int|
                    0 <= q < k ==> call_ensures(
                        f,
                        (old(self).data_s()[q],),
                        #[trigger] self.data@[q],
                    ),
            decreases len - k,
        {
            let e = self.data[k];
            proof {
                assert(e == old(self).data_s()[k as int]);
                assert(call_requires(f, (old(self).data_s()[k as int],)));
            }
            let v = f(e);
            self.data[k] = v;
            k += 1;
        }
    }

    /// Multiplies every stored entry by the scalar `rhs` in place.
    pub fn scalar_mul(&mut self, rhs: Entry)
        requires
            old(self).wf(),
            rhs.wf(),
            forall|k: int|
                0 <= k < old(self).data_s().len() ==> Entry::mul_ok(
                    #[trigger] old(self).data_s()[k],
                    rhs,
                ),
        ensures
            final(self).wf(),
            final(self).rows_s() == old(self).rows_s(),
            final(self).cols_s() == old(self).cols_s(),
            final(self).data_s().len() == old(self).data_s().len(),
            forall|k: int|
                0 <= k < old(self).data_s().len() ==> final(self).data_s()[k] == Entry::mul_s(
                    old(self).data_s()[k],
                    rhs,
                ),
    {
        let f = |e: Entry| -> (r: Entry)
            requires
                e.wf() && Entry::mul_ok(e, rhs) && rhs.wf(),
            ensures
                r == Entry::mul_s(e, rhs) && r.wf(),
            {
                e.mul(rhs)
            };
        self.apply(f);
    }

    /// The left-fold product of a sequence of entries, starting from one.
    pub open spec fn prod_s(s: Seq<Entry>) -> Entry
        decreases s.len(),
    {
        if s.len() == 0 {
            Entry::one_s()
        } else {
            Entry::mul_s(Diag::prod_s(s.drop_last()), s.last())
        }
    }

    /// Whether every intermediate product of the left fold fits in 64 bits.
    pub open spec fn prod_ok(s: Seq<Entry>) -> bool
        decreases s.len(),
    {
        if s.len() == 0 {
            true
        } else {
            Diag::prod_ok(s.drop_last()) && Entry::mul_ok(Diag::prod_s(s.drop_last()), s.last())
        }
    }

    /// Computes the determinant: `None` for any non-square shape, and the
    /// product of the diagonal entries otherwise — exactly the mathematical
    /// determinant of a diagonal matrix.
    pub fn det(&self) -> (r: Option<Entry>)
        requires
            self.wf(),
            self.rows_s() == self.cols_s() ==> Diag::prod_ok(self.data_s()),
        ensures
            self.rows_s() != self.cols_s() ==> r is None,
            self.rows_s() == self.cols_s() ==> r == Some(Diag::prod_s(self.data_s())),
    {
        if self.n != self.m {
            return None;
        }
        let len = self.data.len();
        let mut acc = Entry::one();
        let mut k: usize = 0;
        while k < len
            invariant
                k <= len,
                len == self.data@.len(),
                self.wf(),
                Diag::prod_ok(self.data@),
                acc == Diag::prod_s(self.data@.take(k as int)),
                acc.wf(),
            decreases len - k,
        {
            proof {
                lemma_prod_ok_prefix(self.data@, k + 1);
                lemma_take_succ(self.data@, k as int);
            }
            acc = acc.mul(self.data[k]);
            k += 1;
        }
        proof {
            assert(self.data@.take(len as int) =~= self.data@);
        }
        Some(acc)
    }

    /// Inverts the matrix in place: refused (`false`, unchanged) for any
    /// non-square shape; otherwise every nonzero diagonal entry `e` is
    /// replaced by `1/e` and zero entries are left zero — the documented
    /// pseudo-inverse policy for singular diagonals.
    pub fn inv(&mut self) -> (r: bool)
        requires
            old(self).wf(),
        ensures
            old(self).rows_s() != old(self).cols_s() ==> !r && *final(self) == *old(self),
            old(self).rows_s() == old(self).cols_s() ==> r && final(self).wf()
                && final(self).rows_s() == old(self).rows_s()
                && final(self).cols_s() == old(self).cols_s()
                && final(self).data_s().len() == old(self).data_s().len() && (forall|k: int|
                0 <= k < old(self).data_s().len() ==> final(self).data_s()[k]
                    == Entry::inv_entry_s(old(self).data_s()[k])),
    {
        if self.n != self.m {
            return false;
        }
        let f = |e: Entry| -> (r: Entry)
            requires
                e.wf(),
            ensures
                r == Entry::inv_entry_s(e) && r.wf(),
            {
                if e.is_zero() {
                    Entry::zero()
                } else {
                    proof {
                        Entry::lemma_recip_ok(e);
                    }
                    Entry::one().div(e)
                }
            };
        self.apply(f);
        true
    }

    /// The full cell grid the matrix denotes, in row-major order: the
    /// stored diagonal with zeros synthesized everywhere else.
    pub open spec fn cells_s(self) -> Seq<Entry> {
        Seq::new(
            (self.rows_s() * self.cols_s()) as nat,
            |k: int| self.at_s(k / self.cols_s() as int, k % self.cols_s() as int),
        )
    }

    /// Renders the matrix as bracketed rows of fixed-width cells.
    #[verifier::loop_isolation(false)]
    pub fn render(&self) -> (r: String)
        requires
            self.wf(),
            self.rows_s() * self.cols_s() <= usize::MAX,
        ensures
            r@ == crate::render::grid_s(
                self.rows_s() as int,
                self.cols_s() as int,
                self.cells_s(),
            ),
    {
        let total = self.n * self.m;
        let mut cells: Vec<Entry> = Vec::new();
        let mut k: usize = 0;
        while k < total
            invariant
                k <= total,
                cells@.len() == k,
                forall|w: int| 0 <= w < k ==> cells@[w] == self.cells_s()[w],
                forall|w: int| 0 <= w < k ==> (#[trigger] cells@[w]).wf(),
            decreases total - k,
        {
            proof {
                assert(self.m != 0) by (nonlinear_arith)
                    requires
                        k < self.rows_s() * self.cols_s(),
                ;
            }
            let i = k / self.m;
            let j = k % self.m;
            proof {
                vstd::arithmetic::div_mod::lemma_fundamental_div_mod(k as int, self.m as int);
                assert(i < self.rows_s()) by (nonlinear_arith)
                    requires
                        k < self.rows_s() * self.cols_s(),
                        self.cols_s() >= 1,
                        k == self.cols_s() * i + j,
                        j < self.cols_s(),
                ;
            }
            let v = if i == j {
                self.data[i]
            } else {
                Entry::zero()
            };
            cells.push(v);
            k += 1;
        }
        proof {
            assert(cells@ =~= self.cells_s());
        }
        crate::render::render_grid(self.n, self.m, &cells)
    }

    /// Semantic equality of diagonal matrices: same shape and ratio-equal
    /// stored diagonals.
    pub open spec fn eq_s(a: Diag, b: Diag) -> bool {
        &&& a.rows_s() == b.rows_s()
        &&& a.cols_s() == b.cols_s()
        &&& a.data_s().len() == b.data_s().len()
        &&& forall|k: int|
            0 <= k < a.data_s().len() ==> Entry::eq_s(
                #[trigger] a.data_s()[k],
                b.data_s()[k],
            )
    }
}

impl PartialEq for Diag {
    fn eq(&self, other: &Diag) -> (r: bool) {
        if self.n != other.n || self.m != other.m || self.data.len() != other.data.len() {
            return false;
        }
        let len = self.data.len();
        let mut k: usize = 0;
        while k < len
            invariant
                k <= len,
                len == self.data@.len(),
                len == other.data@.len(),
                forall|q: int|
                    0 <= q < k ==> Entry::eq_s(#[trigger] self.data@[q], other.data@[q]),
            decreases len - k,
        {
            if !(self.data[k] == other.data[k]) {
                return false;
            }
            k += 1;
        }
        true
    }
}

impl vstd::std_specs::cmp::PartialEqSpecImpl for Diag {
    open spec fn obeys_eq_spec() -> bool {
        true
    }

    open spec fn eq_spec(&self, other: &Diag) -> bool {
        Diag::eq_s(*self, *other)
    }
}

/// Every prefix of a left-fold chain whose intermediate products all fit
/// also has all of its own intermediate products fitting.
proof fn lemma_prod_ok_prefix(s: Seq<Entry>, k: int)
    requires
        Diag::prod_ok(s),
        0 <= k <= s.len(),
    ensures
        Diag::prod_ok(s.take(k)),
    decreases s.len() - k,
{
    if k == s.len() {
        assert(s.take(k) =~= s);
    } else {
        lemma_prod_ok_prefix(s, k + 1);
        lemma_take_succ(s, k);
    }
}

/// Splitting one element off the end of a prefix.
proof fn lemma_take_succ(s: Seq<Entry>, k: int)
    requires
        0 <= k < s.len(),
    ensures
        s.take(k + 1).drop_last() == s.take(k),
        s.take(k + 1).last() == s[k],
{
    assert(s.take(k + 1).drop_last() =~= s.take(k));
}

/// Law: the determinant of any identity matrix is one. A diagonal that
/// holds only ones multiplies out, step by step, to exactly one, and every
/// intermediate product fits.
pub proof fn lemma_ident_det_is_one(s: Seq<Entry>)
    requires
        forall|k: int| 0 <= k < s.len() ==> s[k] == Entry::one_s(),
    ensures
        Diag::prod_ok(s),
        Diag::prod_s(s) == Entry::one_s(),
    decreases s.len(),
{
    if s.len() > 0 {
        lemma_ident_det_is_one(s.drop_last());
        crate::entry::lemma_mul_one(Entry::one_s());
    }
}

/// Law: the identity matrix is a fixed point of inversion. Inverting a
/// diagonal of ones rewrites every entry to itself.
pub proof fn lemma_ident_inv_is_ident(s: Seq<Entry>)
    requires
        forall|k: int| 0 <= k < s.len() ==> s[k] == Entry::one_s(),
    ensures
        forall|k: int|
            0 <= k < s.len() ==> Entry::inv_entry_s(#[trigger] s[k]) == s[k],
{
    assert forall|k: int| 0 <= k < s.len() implies Entry::inv_entry_s(#[trigger] s[k]) == s[k] by {
        assert(Entry::inv_entry_s(Entry::one_s()) == Entry::one_s());
    }
}

} // verus!

