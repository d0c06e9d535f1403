//! A dense matrix representation where every cell is stored explicitly in a
//! flat row-major buffer.

use vstd::prelude::*;
use vstd::string::StringSliceAdditionalSpecFns;

use crate::entry::Entry;
use crate::error::MatError;

verus! {

/// An `n x m` matrix with every entry stored in row-major order:
/// cell `(i, j)` lives at flat index `i * m + j`.
#[derive(Debug)]
pub struct Dense {
    data: Vec<Entry>,
    n: usize,
    m: usize,
}

impl Dense {
    /// The flat row-major entry buffer.
    pub closed spec fn data_s(self) -> Seq<Entry> {
        self.data@
    }

    /// The number of rows.
    pub closed spec fn rows_s(self) -> usize {
        self.n
    }

    /// The number of columns.
    pub closed spec fn cols_s(self) -> usize {
        self.m
    }

    /// Structural invariant: the buffer holds exactly `n * m` well-formed
    /// entries.
    pub open spec fn wf(self) -> bool {
        &&& self.data_s().len() == self.rows_s() * self.cols_s()
        &&& forall|k: int|
            0 <= k < self.data_s().len() ==> (#[trigger] self.data_s()[k]).wf()
    }

    /// Whether `(i, j)` lies inside the declared shape.
    pub open spec fn in_range_s(self, i: int, j: int) -> bool {
        0 <= i < self.rows_s() && 0 <= j < self.cols_s()
    }

    /// The entry stored at in-range cell `(i, j)`.
    pub open spec fn at_s(self, i: int, j: int) -> Entry {
        self.data_s()[i * self.cols_s() + j]
    }

    /// Initializes a new `n x m` matrix filled with zeros.
    pub fn zeros(n: usize, m: usize) -> (r: Dense)
        requires
            n * m <= usize::MAX,
        ensures
            r.wf(),
            r.rows_s() == n,
            r.cols_s() == m,
            forall|i: int, j: int| r.in_range_s(i, j) ==> r.at_s(i, j) == Entry::zero_s(),
    {
        let total = n * m;
        let mut data: Vec<Entry> = Vec::new();
        let mut k: usize = 0;
        while k < total
            invariant
                k <= total,
                data@.len() == k,
                forall|q: int| 0 <= q < k ==> data@[q] == Entry::zero_s(),
            decreases total - k,
        {
            data.push(Entry::zero());
            k += 1;
        }
        let r = Dense { data, n, m };
        proof {
            assert forall|i: int, j: int| r.in_range_s(i, j) implies r.at_s(i, j)
                == Entry::zero_s() by {
                lemma_flat_index(i, j, n as int, m as int);
            }
        }
        r
    }

    /// Creates a dense matrix from a matrix-literal string with `;` as the
    /// row separator; the grammar and the failures are those of
    /// [`crate::parse::parse_s`].
    pub fn from_str(s: &str) -> (r: Result<Dense, MatError>)
        ensures
            ({
                let ps = crate::parse::parse_s(s.spec_bytes(), seq![59u8]);
                match r {
                    Ok(d) => ps matches Ok(out) && d.wf() && d.data_s() == out.0 && d.rows_s()
                        as int == out.1 && d.cols_s() as int == out.2,
                    Err(e) => ps == Err::<(Seq<Entry>, int, int), MatError>(e),
                }
            }),
    {
        proof {
            reveal_strlit(";");
            assert(vstd::utf8::is_ascii_chars(";"@));
            vstd::utf8::is_ascii_chars_encode_utf8(";"@);
            assert(";".spec_bytes() =~= seq![59u8]);
        }
        match crate::parse::mat_from_str(s, ";") {
            Ok((data, rows, cols)) => Ok(Dense { data, n: rows, m: cols }),
            Err(e) => Err(e),
        }
    }

    /// Initializes a new `n x m` matrix filled with random integer-valued
    /// entries drawn from the process-wide generator.
    pub fn rand(n: usize, m: usize) -> (r: Dense)
        requires
            n * m <= usize::MAX,
        ensures
            r.wf(),
            r.rows_s() == n,
            r.cols_s() == m,
    {
        let total = n * m;
        let mut data: Vec<Entry> = Vec::new();
        let mut k: usize = 0;
        while k < total
            invariant
                k <= total,
                data@.len() == k,
                forall|q: int| 0 <= q < k ==> (#[trigger] data@[q]).wf(),
            decreases total - k,
        {
            data.push(crate::random::random_entry());
            k += 1;
        }
        Dense { data, n, m }
    }

    /// Semantic equality of dense matrices: same shape and ratio-equal
    /// entries cell by cell.
    pub open spec fn eq_s(a: Dense, b: Dense) -> bool {
        &&& a.rows_s() == b.rows_s()
        &&& a.cols_s() == b.cols_s()
        &&& a.data_s().len() == b.data_s().len()
        &&& forall|k: int|
            0 <= k < a.data_s().len() ==> Entry::eq_s(
                #[trigger] a.data_s()[k],
                b.data_s()[k],
            )
    }

    /// Returns the entry at `idx: (i, j)`, or `None` if the index is out of
    /// the declared shape. In-range reads always succeed.
    pub fn get(&self, idx: (usize, usize)) -> (r: Option<Entry>)
        requires
            self.wf(),
        ensures
            self.in_range_s(idx.0 as int, idx.1 as int) ==> r == Some(
                self.at_s(idx.0 as int, idx.1 as int),
            ),
            !self.in_range_s(idx.0 as int, idx.1 as int) ==> r is None,
    {
        let (i, j) = idx;
        if i < self.n && j < self.m {
            let len = self.data.len();
            proof {
                lemma_flat_index(i as int, j as int, self.n as int, self.m as int);
                assert(i * self.m + j < len);
            }
            Some(self.data[i * self.m + j])
        } else {
            None
        }
    }

    /// Returns a mutable handle on the entry at `idx: (i, j)`, or `None` if
    /// the index is out of the declared shape.
    pub fn get_mut(&mut self, idx: (usize, usize)) -> (r: Option<&mut Entry>)
        requires
            old(self).wf(),
        ensures
            old(self).in_range_s(idx.0 as int, idx.1 as int) ==> (r matches Some(p)
                && *p == old(self).at_s(idx.0 as int, idx.1 as int)
                && final(self).data_s() == old(self).data_s().update(
                    idx.0 * old(self).cols_s() + idx.1,
                    *final(p),
                )),
            !old(self).in_range_s(idx.0 as int, idx.1 as int) ==> r is None && *final(self)
                == *old(self),
            final(self).rows_s() == old(self).rows_s(),
            final(self).cols_s() == old(self).cols_s(),
    {
        let (i, j) = idx;
        if i < self.n && j < self.m {
            let len = self.data.len();
            proof {
                lemma_flat_index(i as int, j as int, self.n as int, self.m as int);
                assert(i * self.m + j < len);
            }
            Some(&mut self.data[i * self.m + j])
        } else {
            None
        }
    }

    /// Replaces the entry at `idx: (i, j)` with `val` and returns the previous
    /// value; out-of-range writes change nothing and report `None`.
    pub fn set(&mut self, idx: (usize, usize), val: Entry) -> (r: Option<Entry>)
        requires
            old(self).wf(),
            val.wf(),
        ensures
            final(self).wf(),
            final(self).rows_s() == old(self).rows_s(),
            final(self).cols_s() == old(self).cols_s(),
            old(self).in_range_s(idx.0 as int, idx.1 as int) ==> r == Some(
                old(self).at_s(idx.0 as int, idx.1 as int),
            ) && final(self).data_s() == old(self).data_s().update(
                idx.0 * old(self).cols_s() + idx.1,
                val,
            ),
            !old(self).in_range_s(idx.0 as int, idx.1 as int) ==> r is None && *final(self)
                == *old(self),
    {
        let (i, j) = idx;
        if i < self.n && j < self.m {
            let len = self.data.len();
            proof {
                lemma_flat_index(i as int, j as int, self.n as int, self.m as int);
                assert(i * self.m + j < len);
            }
            let k = i * self.m + j;
            let prev = self.data[k];
            self.data[k] = val;
            Some(prev)
        } else {
            None
        }
    }

    /// Returns the shape of the matrix in the format `(rows, cols)`.
    pub fn shape(&self) -> (r: (usize, usize))
        ensures
            r == (self.rows_s(), self.cols_s()),
    {
        (self.n, self.m)
    }

    /// Whether the matrix has as many rows as columns.
    pub fn is_square(&self) -> (r: bool)
        ensures
            r == (self.rows_s() == self.cols_s()),
    {
        self.n == self.m
    }

    /// Resizes the flat buffer to the new shape. Entries keep their flat
    /// positions relative to the old row-major layout — if the column stride
    /// changes, cells visually shift — and newly exposed entries are zero.
    pub fn reshape(&mut self, shape: (usize, usize))
        requires
            old(self).wf(),
            shape.0 * shape.1 <= usize::MAX,
        ensures
            final(self).wf(),
            final(self).rows_s() == shape.0,
            final(self).cols_s() == shape.1,
            final(self).data_s().len() == shape.0 * shape.1,
            forall|k: int|
                0 <= k < final(self).data_s().len() && k < old(self).data_s().len()
                    ==> final(self).data_s()[k] == old(self).data_s()[k],
            forall|k: int|
                old(self).data_s().len() <= k < final(self).data_s().len()
                    ==> final(self).data_s()[k] == Entry::zero_s(),
    {
        let (n, m) = shape;
        let total = n * m;
        if total <= self.data.len() {
            self.data.truncate(total);
            proof {
                assert forall|k: int| 0 <= k < self.data@.len() implies self.data@[k] == old(
                    self,
                ).data_s()[k] by {
                    assert(self.data@ == old(self).data_s().subrange(0, total as int));
                }
            }
        } else {
            while self.data.len() < total
                invariant
                    old(self).data_s().len() <= self.data@.len() <= total,
                    forall|k: int|
                        0 <= k < old(self).data_s().len() ==> self.data@[k] == old(
                            self,
                        ).data_s()[k],
                    forall|k: int|
                        old(self).data_s().len() <= k < self.data@.len()
                            ==> self.data@[k] == Entry::zero_s(),
                    self.n == old(self).n,
                    self.m == old(self).m,
                decreases total - self.data@.len(),
            {
                self.data.push(Entry::zero());
            }
        }
        self.n = n;
        self.m = m;
        proof {
            assert forall|k: int| 0 <= k < self.data@.len() implies (#[trigger] self.data@[k]).wf()
                by {
                if k < old(self).data_s().len() {
                    assert(old(self).data_s()[k].wf());
                }
            }
        }
    }

    /// Applies `f` to every stored entry in place.
    pub fn apply<F: Fn(Entry) -> Entry>(&mut self, f: F)
        requires
            old(self).wf(),
            forall|k: int|
                0 <= k < old(self).data_s().len() ==> call_requires(
                    f,
                    (old(self).data_s()[k],),
                ),
        ensures
            final(self).rows_s() == old(self).rows_s(),
            final(self).cols_s() == old(self).cols_s(),
            final(self).data_s().len() == old(self).data_s().len(),
            forall|k: int|
                0 <= k < old(self).data_s().len() ==> call_ensures(
                    f,
                    (old(self).data_s()[k],),
                    #[trigger] final(self).data_s()[k],
                ),
    {
        let len = self.data.len();
        let mut k: usize = 0;
        while k < len
            invariant
                k <= len,
                len == self.data@.len(),
                self.data@.len() == old(self).data_s().len(),
                self.n == old(self).n,
                self.m == old(self).m,
                forall|q: int|
                    0 <= q < old(self).data_s().len() ==> call_requires(
                        f,
                        (old(self).data_s()[q],),
                    ),
                forall|q: int|
                    k <= q < len ==> self.data@[q] == old(self).data_s()[q],
                forall|q: int|
                    0 <= q < k ==> call_ensures(
                        f,
                        (old(self).data_s()[q],),
                        #[trigger] self.data@[q],
                    ),
            decreases len - k,
        {
            let e = self.data[k];
            proof {
                assert(e == old(self).data_s()[k as int]);
                assert(call_requires(f, (old(self).data_s()[k as int],)));
            }
            let v = f(e);
            self.data[k] = v;
            k += 1;
        }
    }

    /// Multiplies every entry by the scalar `rhs` in place.
    pub fn scalar_mul(&mut self, rhs: Entry)
        requires
            old(self).wf(),
            rhs.wf(),
            forall|k: int|
                0 <= k < old(self).data_s().len() ==> Entry::mul_ok(
                    #[trigger] old(self).data_s()[k],
                    rhs,
                ),
        ensures
            final(self).wf(),
            final(self).rows_s() == old(self).rows_s(),
            final(self).cols_s() == old(self).cols_s(),
            final(self).data_s().len() == old(self).data_s().len(),
            forall|k: int|
                0 <= k < old(self).data_s().len() ==> final(self).data_s()[k] == Entry::mul_s(
                    old(self).data_s()[k],
                    rhs,
                ),
    {
        let f = |e: Entry| -> (r: Entry)
            requires
                e.wf() && Entry::mul_ok(e, rhs) && rhs.wf(),
            ensures
                r == Entry::mul_s(e, rhs) && r.wf(),
            {
                e.mul(rhs)
            };
        self.apply(f);
    }

    /// Renders the matrix as bracketed rows of fixed-width cells.
    pub fn render(&self) -> (r: String)
        requires
            self.wf(),
        ensures
            r@ == crate::render::grid_s(self.rows_s() as int, self.cols_s() as int, self.data_s()),
    {
        crate::render::render_grid(self.n, self.m, &self.data)
    }

    /// Computes the determinant. Not yet supported for the dense
    /// representation: the result is always `None`.
    pub fn det(&self) -> (r: Option<Entry>)
        ensures
            r is None,
    {
        None
    }

    /// Inverts the matrix in place. Not yet supported for the dense
    /// representation: the matrix is left unchanged and the result is
    /// always `false`.
    pub fn inv(&mut self) -> (r: bool)
        ensures
            !r,
            *final(self) == *old(self),
    {
        false
    }
}

impl PartialEq for Dense {
    fn eq(&self, other: &Dense) -> (r: bool) {
        if self.n != other.n || self.m != other.m || self.data.len() != other.data.len() {
            return false;
        }
        let len = self.data.len();
        let mut k: usize = 0;
        while k < len
            invariant
                k <= len,
                len == self.data@.len(),
                len == other.data@.len(),
                forall|q: int|
                    0 <= q < k ==> Entry::eq_s(#[trigger] self.data@[q], other.data@[q]),
            decreases len - k,
        {
            if !(self.data[k] == other.data[k]) {
                return false;
            }
            k += 1;
        }
        true
    }
}

impl vstd::std_specs::cmp::PartialEqSpecImpl for Dense {
    open spec fn obeys_eq_spec() -> bool {
        true
    }

    open spec fn eq_spec(&self, other: &Dense) -> bool {
        Dense::eq_s(*self, *other)
    }
}

/// Row-major flat indexing stays inside the buffer: `i * m + j < n * m`
/// whenever `(i, j)` is in range.
proof fn lemma_flat_index(i: int, j: int, n: int, m: int)
    requires
        0 <= i < n,
        0 <= j < m,
    ensures
        0 <= i * m + j < n * m,
{
    assert(0 <= i * m + j < n * m) by (nonlinear_arith)
        requires
            0 <= i < n,
            0 <= j < m,
    ;
}

} // verus!
