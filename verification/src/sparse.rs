//! A sparse matrix representation: only explicitly written cells are stored,
//! as an ordered association list keyed by `(row, col)` in row-major order.
//! Unset in-range cells read as zero by value; reshaping evicts every stored
//! cell that falls outside the new bounds, keeping the coordinates of the
//! cells it retains.

use vstd::prelude::*;

use crate::entry::Entry;

verus! {

/// An `n x m` matrix storing only its explicitly written cells, sorted by
/// key in row-major order with no duplicate keys.
#[derive(Debug)]
pub struct Sparse {
    data: Vec<((usize, usize), Entry)>,
    n: usize,
    m: usize,
}

impl Sparse {
    /// The stored `(key, value)` pairs, sorted by key.
    pub closed spec fn data_s(self) -> Seq<((usize, usize), Entry)> {
        self.data@
    }

    /// The number of rows.
    pub closed spec fn rows_s(self) -> usize {
        self.n
    }

    /// The number of columns.
    pub closed spec fn cols_s(self) -> usize {
        self.m
    }

    /// Strict row-major order on cell keys.
    pub open spec fn key_lt(a: (usize, usize), b: (usize, usize)) -> bool {
        a.0 < b.0 || (a.0 == b.0 && a.1 < b.1)
    }

    /// The stored keys are strictly sorted (hence unique) and in range.
    pub open spec fn keys_ok(self) -> bool {
        &&& forall|p: int, q: int|
            0 <= p < q < self.data_s().len() ==> Sparse::key_lt(
                (#[trigger] self.data_s()[p]).0,
                (#[trigger] self.data_s()[q]).0,
            )
        &&& forall|k: int|
            0 <= k < self.data_s().len() ==> (#[trigger] self.data_s()[k]).0.0 < self.rows_s()
                && self.data_s()[k].0.1 < self.cols_s()
    }

    /// Every stored value is well-formed.
    pub open spec fn vals_ok(self) -> bool {
        forall|k: int|
            0 <= k < self.data_s().len() ==> (#[trigger] self.data_s()[k]).1.wf()
    }

    /// Structural invariant.
    pub open spec fn wf(self) -> bool {
        self.keys_ok() && self.vals_ok()
    }

    /// Whether position `k` of the pair sequence holds the key `(i, j)`.
    pub open spec fn stored_at(s: Seq<((usize, usize), Entry)>, k: int, i: usize, j: usize) -> bool {
        0 <= k < s.len() && s[k].0 == (i, j)
    }

    /// Whether some position of the pair sequence holds the key `(i, j)`.
    pub open spec fn has_key_s(s: Seq<((usize, usize), Entry)>, i: usize, j: usize) -> bool {
        exists|k: int| Sparse::stored_at(s, k, i, j)
    }

    /// The value stored under key `(i, j)`, if any.
    pub open spec fn stored_s(s: Seq<((usize, usize), Entry)>, i: usize, j: usize) -> Option<
        Entry,
    > {
        if Sparse::has_key_s(s, i, j) {
            Some(s[choose|k: int| Sparse::stored_at(s, k, i, j)].1)
        } else {
            None
        }
    }

    /// The effective in-range read at `(i, j)`: the stored value if the cell
    /// was ever written, and zero otherwise.
    pub open spec fn read_s(self, i: usize, j: usize) -> Entry {
        match Sparse::stored_s(self.data_s(), i, j) {
            Some(v) => v,
            None => Entry::zero_s(),
        }
    }

    /// Whether `(i, j)` lies inside the declared shape.
    pub open spec fn in_range_s(self, i: int, j: int) -> bool {
        0 <= i < self.rows_s() && 0 <= j < self.cols_s()
    }

    /// In a strictly sorted pair sequence a key occurs at most once, so a
    /// stored value is determined by its key.
    proof fn lemma_key_unique(s: Seq<((usize, usize), Entry)>, k1: int, k2: int, i: usize, j: usize)
        requires
            forall|p: int, q: int|
                0 <= p < q < s.len() ==> Sparse::key_lt(
                    (#[trigger] s[p]).0,
                    (#[trigger] s[q]).0,
                ),
            Sparse::stored_at(s, k1, i, j),
            Sparse::stored_at(s, k2, i, j),
        ensures
            k1 == k2,
    {
    }

    /// Initializes a new `n x m` matrix with no stored cells: every in-range
    /// read yields zero.
    pub fn zeros(n: usize, m: usize) -> (r: Sparse)
        ensures
            r.wf(),
            r.rows_s() == n,
            r.cols_s() == m,
            r.data_s().len() == 0,
            forall|i: usize, j: usize| r.read_s(i, j) == Entry::zero_s(),
    {
        Sparse { data: Vec::new(), n, m }
    }

    /// Whether `idx` lies inside the declared shape.
    pub fn is_in_range(&self, idx: (usize, usize)) -> (r: bool)
        ensures
            r == self.in_range_s(idx.0 as int, idx.1 as int),
    {
        idx.0 < self.n && idx.1 < self.m
    }

    /// Strict row-major key comparison.
    fn klt(a: (usize, usize), b: (usize, usize)) -> (r: bool)
        ensures
            r == Sparse::key_lt(a, b),
    {
        a.0 < b.0 || (a.0 == b.0 && a.1 < b.1)
    }

    /// Finds the insertion point of key `(i, j)`: the first position whose
    /// key is not below `(i, j)`.
    fn locate(&self, i: usize, j: usize) -> (k: usize)
        requires
            self.keys_ok(),
        ensures
            k <= self.data_s().len(),
            forall|q: int|
                0 <= q < k ==> Sparse::key_lt((#[trigger] self.data_s()[q]).0, (i, j)),
            k < self.data_s().len() ==> !Sparse::key_lt(self.data_s()[k as int].0, (i, j)),
    {
        let len = self.data.len();
        let mut k: usize = 0;
        while k < len
            invariant
                k <= len,
                len == self.data@.len(),
                forall|q: int|
                    0 <= q < k ==> Sparse::key_lt((#[trigger] self.data@[q]).0, (i, j)),
            decreases len - k,
        {
            if !Sparse::klt(self.data[k].0, (i, j)) {
                return k;
            }
            k += 1;
        }
        k
    }

    /// After `locate`, a key match can only sit exactly at the returned
    /// position; if the key there differs, the key is absent altogether.
    proof fn lemma_locate_found(s: Seq<((usize, usize), Entry)>, k: int, i: usize, j: usize)
        requires
            forall|p: int, q: int|
                0 <= p < q < s.len() ==> Sparse::key_lt(
                    (#[trigger] s[p]).0,
                    (#[trigger] s[q]).0,
                ),
            0 <= k <= s.len(),
            forall|q: int| 0 <= q < k ==> Sparse::key_lt((#[trigger] s[q]).0, (i, j)),
            k < s.len() ==> !Sparse::key_lt(s[k].0, (i, j)),
        ensures
            k < s.len() && s[k].0 == (i, j) ==> Sparse::stored_s(s, i, j) == Some(s[k].1),
            !(k < s.len() && s[k].0 == (i, j)) ==> Sparse::stored_s(s, i, j) is None
                && !Sparse::has_key_s(s, i, j),
    {
        if k < s.len() && s[k].0 == (i, j) {
            assert(Sparse::stored_at(s, k, i, j));
            let kc = choose|kk: int| Sparse::stored_at(s, kk, i, j);
            Sparse::lemma_key_unique(s, k, kc, i, j);
        } else {
            assert forall|kk: int| !Sparse::stored_at(s, kk, i, j) by {
                if 0 <= kk < s.len() && s[kk] .0 == (i, j) {
                    if kk < k {
                        assert(Sparse::key_lt(s[kk].0, (i, j)));
                    } else {
                        assert(k < s.len());
                        if kk == k {
                        } else {
                            assert(Sparse::key_lt(s[k].0, s[kk].0));
                        }
                    }
                }
            }
        }
    }

    /// Returns the entry at `idx: (i, j)`: the stored value if the cell was
    /// written, a zero synthesized by value if it never was, and `None` out
    /// of range.
    pub fn get(&self, idx: (usize, usize)) -> (r: Option<Entry>)
        requires
            self.wf(),
        ensures
            self.in_range_s(idx.0 as int, idx.1 as int) ==> r == Some(self.read_s(idx.0, idx.1)),
            !self.in_range_s(idx.0 as int, idx.1 as int) ==> r is None,
    {
        let (i, j) = idx;
        if !(i < self.n && j < self.m) {
            return None;
        }
        let k = self.locate(i, j);
        proof {
            Sparse::lemma_locate_found(self.data@, k as int, i, j);
        }
        if k < self.data.len() && self.data[k].0.0 == i && self.data[k].0.1 == j {
            Some(self.data[k].1)
        } else {
            Some(Entry::zero())
        }
    }

    /// Replaces the entry at `idx: (i, j)` with `val` and returns the value
    /// previously read there (a stored value or the implicit zero);
    /// out-of-range writes are rejected with `None` and change nothing.
    pub fn set(&mut self, idx: (usize, usize), val: Entry) -> (r: Option<Entry>)
        requires
            old(self).wf(),
            val.wf(),
        ensures
            final(self).rows_s() == old(self).rows_s(),
            final(self).cols_s() == old(self).cols_s(),
            !old(self).in_range_s(idx.0 as int, idx.1 as int)
                ==> r is None && *final(self) == *old(self),
            old(self).in_range_s(idx.0 as int, idx.1 as int) ==> final(self).wf()
                && r == Some(old(self).read_s(idx.0, idx.1))
                && Sparse::stored_s(final(self).data_s(), idx.0, idx.1) == Some(val)
                && (forall|p: usize, q: usize|
                !(p == idx.0 && q == idx.1) ==> Sparse::stored_s(final(self).data_s(), p, q)
                    == Sparse::stored_s(old(self).data_s(), p, q)),
    {
        let (i, j) = idx;
        if !(i < self.n && j < self.m) {
            return None;
        }
        let k = self.locate(i, j);
        proof {
            Sparse::lemma_locate_found(self.data@, k as int, i, j);
        }
        if k < self.data.len() && self.data[k].0.0 == i && self.data[k].0.1 == j {
            let prev = self.data[k].1;
            self.data[k] = ((i, j), val);
            proof {
                Sparse::lemma_update_value(old(self).data_s(), self.data@, k as int, i, j, val);
            }
            Some(prev)
        } else {
            self.data.insert(k, ((i, j), val));
            proof {
                old(self).data_s().insert_ensures(k as int, ((i, j), val));
                Sparse::lemma_insert_key(old(self).data_s(), self.data@, k as int, i, j, val);
            }
            Some(Entry::zero())
        }
    }

    /// Overwriting the pair at a matched position rewrites exactly that key's
    /// stored value and leaves every other key's lookup unchanged.
    proof fn lemma_update_value(
        s: Seq<((usize, usize), Entry)>,
        t: Seq<((usize, usize), Entry)>,
        k: int,
        i: usize,
        j: usize,
        val: Entry,
    )
        requires
            forall|p: int, q: int|
                0 <= p < q < s.len() ==> Sparse::key_lt(
                    (#[trigger] s[p]).0,
                    (#[trigger] s[q]).0,
                ),
            0 <= k < s.len(),
            s[k].0 == (i, j),
            t == s.update(k, ((i, j), val)),
        ensures
            forall|p: int, q: int|
                0 <= p < q < t.len() ==> Sparse::key_lt(
                    (#[trigger] t[p]).0,
                    (#[trigger] t[q]).0,
                ),
            Sparse::stored_s(t, i, j) == Some(val),
            forall|p: usize, q: usize|
                !(p == i && q == j) ==> Sparse::stored_s(t, p, q) == Sparse::stored_s(s, p, q),
    {
        assert forall|p: int, q: int| 0 <= p < q < t.len() implies Sparse::key_lt(
            (#[trigger] t[p]).0,
            (#[trigger] t[q]).0,
        ) by {
            assert(t[p].0 == s[p].0 && t[q].0 == s[q].0);
        }
        assert(Sparse::stored_at(t, k, i, j));
        let kc = choose|kk: int| Sparse::stored_at(t, kk, i, j);
        Sparse::lemma_key_unique(t, k, kc, i, j);
        assert forall|p: usize, q: usize| !(p == i && q == j) implies Sparse::stored_s(t, p, q)
            == Sparse::stored_s(s, p, q) by {
            Sparse::lemma_same_keys_same_lookup(s, t, p, q);
        }
    }

    /// Two pair sequences that store the same keys with the same values
    /// under a given key agree on that key's lookup. Here used positionally:
    /// the sequences have equal length and agree at every position whose key
    /// is `(p, q)`.
    proof fn lemma_same_keys_same_lookup(
        s: Seq<((usize, usize), Entry)>,
        t: Seq<((usize, usize), Entry)>,
        p: usize,
        q: usize,
    )
        requires
            s.len() == t.len(),
            forall|kk: int|
                0 <= kk < s.len() && ((#[trigger] s[kk]).0 == (p, q) || (#[trigger] t[kk]).0 == (
                    p,
                    q,
                )) ==> s[kk] == t[kk],
            forall|p0: int, q0: int|
                0 <= p0 < q0 < s.len() ==> Sparse::key_lt(
                    (#[trigger] s[p0]).0,
                    (#[trigger] s[q0]).0,
                ),
            forall|p0: int, q0: int|
                0 <= p0 < q0 < t.len() ==> Sparse::key_lt(
                    (#[trigger] t[p0]).0,
                    (#[trigger] t[q0]).0,
                ),
        ensures
            Sparse::stored_s(s, p, q) == Sparse::stored_s(t, p, q),
    {
        if Sparse::has_key_s(s, p, q) {
            let ks = choose|kk: int| Sparse::stored_at(s, kk, p, q);
            assert(t[ks] == s[ks]);
            assert(Sparse::stored_at(t, ks, p, q));
            let kt = choose|kk: int| Sparse::stored_at(t, kk, p, q);
            Sparse::lemma_key_unique(t, ks, kt, p, q);
        } else if Sparse::has_key_s(t, p, q) {
            let kt = choose|kk: int| Sparse::stored_at(t, kk, p, q);
            assert(s[kt] == t[kt]);
            assert(Sparse::stored_at(s, kt, p, q));
        }
    }

    /// Inserting a fresh pair at its sorted position keeps the keys sorted,
    /// stores exactly the new key, and leaves every other key's lookup
    /// unchanged.
    proof fn lemma_insert_key(
        s: Seq<((usize, usize), Entry)>,
        t: Seq<((usize, usize), Entry)>,
        k: int,
        i: usize,
        j: usize,
        val: Entry,
    )
        requires
            forall|p: int, q: int|
                0 <= p < q < s.len() ==> Sparse::key_lt(
                    (#[trigger] s[p]).0,
                    (#[trigger] s[q]).0,
                ),
            0 <= k <= s.len(),
            forall|q: int| 0 <= q < k ==> Sparse::key_lt((#[trigger] s[q]).0, (i, j)),
            k < s.len() ==> !Sparse::key_lt(s[k].0, (i, j)) && s[k].0 != (i, j),
            t == s.insert(k, ((i, j), val)),
        ensures
            forall|p: int, q: int|
                0 <= p < q < t.len() ==> Sparse::key_lt(
                    (#[trigger] t[p]).0,
                    (#[trigger] t[q]).0,
                ),
            Sparse::stored_s(t, i, j) == Some(val),
            forall|p: usize, q: usize|
                !(p == i && q == j) ==> Sparse::stored_s(t, p, q) == Sparse::stored_s(s, p, q),
    {
        s.insert_ensures(k, ((i, j), val));
        assert forall|p: int, q: int| 0 <= p < q < t.len() implies Sparse::key_lt(
            (#[trigger] t[p]).0,
            (#[trigger] t[q]).0,
        ) by {
            if q < k {
                assert(t[p] == s[p] && t[q] == s[q]);
            } else if p > k {
                assert(t[p] == s[p - 1] && t[q] == s[q - 1]);
            } else if p < k && q == k {
                assert(t[p] == s[p]);
            } else if p < k && q > k {
                assert(t[p] == s[p] && t[q] == s[q - 1]);
                if k < s.len() {
                    assert(Sparse::key_lt(s[p].0, (i, j)));
                }
            } else if p == k && q > k {
                assert(t[q] == s[q - 1]);
                if k < s.len() && q - 1 > k {
                    assert(Sparse::key_lt(s[k].0, s[q - 1].0));
                }
            }
        }
        assert(t[k] == ((i, j), val));
        assert(Sparse::stored_at(t, k, i, j));
        let kc = choose|kk: int| Sparse::stored_at(t, kk, i, j);
        Sparse::lemma_key_unique(t, k, kc, i, j);
        assert forall|p: usize, q: usize| !(p == i && q == j) implies Sparse::stored_s(t, p, q)
            == Sparse::stored_s(s, p, q) by {
            if Sparse::has_key_s(s, p, q) {
                let ks = choose|kk: int| Sparse::stored_at(s, kk, p, q);
                if ks < k {
                    assert(t[ks] == s[ks]);
                    assert(Sparse::stored_at(t, ks, p, q));
                } else {
                    assert(t[ks + 1] == s[ks]);
                    assert(Sparse::stored_at(t, ks + 1, p, q));
                }
                let kt = choose|kk: int| Sparse::stored_at(t, kk, p, q);
                let ks2 = if ks < k {
                    ks
                } else {
                    ks + 1
                };
                Sparse::lemma_key_unique(t, ks2, kt, p, q);
                assert(t[ks2].1 == s[ks].1);
            } else if Sparse::has_key_s(t, p, q) {
                let kt = choose|kk: int| Sparse::stored_at(t, kk, p, q);
                if kt < k {
                    assert(s[kt] == t[kt]);
                    assert(Sparse::stored_at(s, kt, p, q));
                } else if kt == k {
                    assert(t[kt].0 == (i, j));
                } else {
                    assert(s[kt - 1] == t[kt]);
                    assert(Sparse::stored_at(s, kt - 1, p, q));
                }
            }
        }
    }

    /// Returns a mutable handle on the entry at `idx: (i, j)`, or `None` out
    /// of range. Asking for a cell that was never written materializes a
    /// stored zero entry first: the observable value does not change, but
    /// the cell becomes a stored one (and is then visible to `apply`).
    pub fn get_mut(&mut self, idx: (usize, usize)) -> (r: Option<&mut Entry>)
        requires
            old(self).wf(),
        ensures
            final(self).rows_s() == old(self).rows_s(),
            final(self).cols_s() == old(self).cols_s(),
            !old(self).in_range_s(idx.0 as int, idx.1 as int) ==> r is None && *final(self)
                == *old(self),
            old(self).in_range_s(idx.0 as int, idx.1 as int) ==> (r matches Some(p)
                && *p == old(self).read_s(idx.0, idx.1) && final(self).keys_ok()
                && Sparse::stored_s(final(self).data_s(), idx.0, idx.1) == Some(*final(p)) && (
            forall|p0: usize, q0: usize|
                !(p0 == idx.0 && q0 == idx.1) ==> Sparse::stored_s(final(self).data_s(), p0, q0)
                    == Sparse::stored_s(old(self).data_s(), p0, q0)) && ((*final(p)).wf()
                ==> final(self).wf())),
    {
        let (i, j) = idx;
        if !(i < self.n && j < self.m) {
            return None;
        }
        let k = self.locate(i, j);
        proof {
            Sparse::lemma_locate_found(self.data@, k as int, i, j);
        }
        if !(k < self.data.len() && self.data[k].0.0 == i && self.data[k].0.1 == j) {
            self.data.insert(k, ((i, j), Entry::zero()));
            proof {
                old(self).data_s().insert_ensures(k as int, ((i, j), Entry::zero_s()));
                Sparse::lemma_insert_key(
                    old(self).data_s(),
                    self.data@,
                    k as int,
                    i,
                    j,
                    Entry::zero_s(),
                );
            }
        }
        let ghost mid = self.data@;
        let elem = &mut self.data[k];
        let p = &mut elem.1;
        proof {
            Sparse::lemma_update_value(mid, mid.update(k as int, ((i, j), *final(p))), k as int, i, j, *final(p));
        }
        Some(p)
    }

    /// Applies `f` to every stored entry in place. Only cells that were
    /// explicitly written (or materialized through `get_mut`) are affected;
    /// implicit zeros are not.
    pub fn apply<F: Fn(Entry) -> Entry>(&mut self, f: F)
        requires
            old(self).wf(),
            forall|k: int|
                0 <= k < old(self).data_s().len() ==> call_requires(
                    f,
                    ((#[trigger] old(self).data_s()[k]).1,),
                ),
        ensures
            final(self).rows_s() == old(self).rows_s(),
            final(self).cols_s() == old(self).cols_s(),
            final(self).data_s().len() == old(self).data_s().len(),
            final(self).keys_ok(),
            forall|k: int|
                0 <= k < old(self).data_s().len() ==> (#[trigger] final(self).data_s()[k]).0
                    == old(self).data_s()[k].0,
            forall|k: int|
                0 <= k < old(self).data_s().len() ==> call_ensures(
                    f,
                    (old(self).data_s()[k].1,),
                    (#[trigger] final(self).data_s()[k]).1,
                ),
    {
        let len = self.data.len();
        let mut k: usize = 0;
        while k < len
            invariant
                k <= len,
                len == self.data@.len(),
                self.data@.len() == old(self).data_s().len(),
                self.n == old(self).n,
                self.m == old(self).m,
                old(self).wf(),
                forall|q: int|
                    0 <= q < old(self).data_s().len() ==> call_requires(
                        f,
                        ((#[trigger] old(self).data_s()[q]).1,),
                    ),
                forall|q: int|
                    k <= q < len ==> self.data@[q] == old(self).data_s()[q],
                forall|q: int|
                    0 <= q < k ==> (#[trigger] self.data@[q]).0 == old(self).data_s()[q].0,
                forall|q: int|
                    0 <= q < k ==> call_ensures(
                        f,
                        (old(self).data_s()[q].1,),
                        (#[trigger] self.data@[q]).1,
                    ),
            decreases len - k,
        {
            let (key, e) = self.data[k];
            proof {
                assert(e == old(self).data_s()[k as int].1);
                assert(call_requires(f, (old(self).data_s()[k as int].1,)));
            }
            let v = f(e);
            self.data[k] = (key, v);
            k += 1;
        }
        proof {
            assert forall|p: int, q: int| 0 <= p < q < self.data@.len() implies Sparse::key_lt(
                (#[trigger] self.data@[p]).0,
                (#[trigger] self.data@[q]).0,
            ) by {
                assert(self.data@[p].0 == old(self).data_s()[p].0);
                assert(self.data@[q].0 == old(self).data_s()[q].0);
            }
        }
    }

    /// Multiplies every stored entry by the scalar `rhs` in place. Implicit
    /// zeros stay zero, so the whole matrix is scaled.
    pub fn scalar_mul(&mut self, rhs: Entry)
        requires
            old(self).wf(),
            rhs.wf(),
            forall|k: int|
                0 <= k < old(self).data_s().len() ==> Entry::mul_ok(
                    (#[trigger] old(self).data_s()[k]).1,
                    rhs,
                ),
        ensures
            final(self).wf(),
            final(self).rows_s() == old(self).rows_s(),
            final(self).cols_s() == old(self).cols_s(),
            final(self).data_s().len() == old(self).data_s().len(),
            forall|k: int|
                0 <= k < old(self).data_s().len() ==> (#[trigger] final(self).data_s()[k]).0
                    == old(self).data_s()[k].0,
            forall|k: int|
                0 <= k < old(self).data_s().len() ==> (#[trigger] final(self).data_s()[k]).1
                    == Entry::mul_s(old(self).data_s()[k].1, rhs),
    {
        let f = |e: Entry| -> (r: Entry)
            requires
                e.wf() && Entry::mul_ok(e, rhs) && rhs.wf(),
            ensures
                r == Entry::mul_s(e, rhs) && r.wf(),
            {
                e.mul(rhs)
            };
        self.apply(f);
    }

    /// Shrinks or grows the declared shape. Every stored cell outside the
    /// new bounds is evicted; retained cells keep their `(i, j)` coordinates
    /// (unlike the dense representation, sparse reshape is
    /// coordinate-preserving, not flat-index-preserving).
    pub fn reshape(&mut self, shape: (usize, usize))
        requires
            old(self).wf(),
        ensures
            final(self).wf(),
            final(self).rows_s() == shape.0,
            final(self).cols_s() == shape.1,
            forall|p: usize, q: usize|
                p < shape.0 && q < shape.1 ==> Sparse::stored_s(final(self).data_s(), p, q)
                    == Sparse::stored_s(old(self).data_s(), p, q),
    {
        let (n, m) = shape;
        let mut k: usize = 0;
        while k < self.data.len()
            invariant
                k <= self.data@.len(),
                self.n == old(self).n,
                self.m == old(self).m,
                forall|p: int, q: int|
                    0 <= p < q < self.data@.len() ==> Sparse::key_lt(
                        (#[trigger] self.data@[p]).0,
                        (#[trigger] self.data@[q]).0,
                    ),
                forall|q: int|
                    0 <= q < self.data@.len() ==> (#[trigger] self.data@[q]).0.0 < old(
                        self,
                    ).rows_s() && self.data@[q].0.1 < old(self).cols_s(),
                forall|q: int|
                    0 <= q < self.data@.len() ==> (#[trigger] self.data@[q]).1.wf(),
                forall|q: int|
                    0 <= q < k ==> (#[trigger] self.data@[q]).0.0 < n && self.data@[q].0.1 < m,
                forall|p: usize, q: usize|
                    p < n && q < m ==> Sparse::stored_s(self.data@, p, q) == Sparse::stored_s(
                        old(self).data_s(),
                        p,
                        q,
                    ),
            decreases self.data@.len() - k,
        {
            let key = self.data[k].0;
            if key.0 < n && key.1 < m {
                k += 1;
            } else {
                let ghost pre = self.data@;
                self.data.remove(k);
                proof {
                    Sparse::lemma_remove_key(pre, self.data@, k as int);
                }
            }
        }
        self.n = n;
        self.m = m;
    }

    /// Removing one pair keeps the keys sorted, erases exactly that pair's
    /// key, and leaves every other key's lookup unchanged.
    proof fn lemma_remove_key(s: Seq<((usize, usize), Entry)>, t: Seq<((usize, usize), Entry)>, k: int)
        requires
            forall|p: int, q: int|
                0 <= p < q < s.len() ==> Sparse::key_lt(
                    (#[trigger] s[p]).0,
                    (#[trigger] s[q]).0,
                ),
            0 <= k < s.len(),
            t == s.remove(k),
        ensures
            forall|p: int, q: int|
                0 <= p < q < t.len() ==> Sparse::key_lt(
                    (#[trigger] t[p]).0,
                    (#[trigger] t[q]).0,
                ),
            !Sparse::has_key_s(t, s[k].0.0, s[k].0.1),
            forall|p: usize, q: usize|
                !(p == s[k].0.0 && q == s[k].0.1) ==> Sparse::stored_s(t, p, q)
                    == Sparse::stored_s(s, p, q),
    {
        s.remove_ensures(k);
        assert forall|p: int, q: int| 0 <= p < q < t.len() implies Sparse::key_lt(
            (#[trigger] t[p]).0,
            (#[trigger] t[q]).0,
        ) by {
            if q < k {
                assert(t[p] == s[p] && t[q] == s[q]);
            } else if p >= k {
                assert(t[p] == s[p + 1] && t[q] == s[q + 1]);
            } else {
                assert(t[p] == s[p] && t[q] == s[q + 1]);
            }
        }
        let (ki, kj) = s[k].0;
        assert forall|kk: int| !Sparse::stored_at(t, kk, ki, kj) by {
            if 0 <= kk < t.len() && t[kk].0 == (ki, kj) {
                if kk < k {
                    assert(t[kk] == s[kk]);
                    assert(Sparse::key_lt(s[kk].0, s[k].0));
                } else {
                    assert(t[kk] == s[kk + 1]);
                    assert(Sparse::key_lt(s[k].0, s[kk + 1].0));
                }
            }
        }
        assert forall|p: usize, q: usize| !(p == ki && q == kj) implies Sparse::stored_s(t, p, q)
            == Sparse::stored_s(s, p, q) by {
            if Sparse::has_key_s(s, p, q) {
                let ks = choose|kk: int| Sparse::stored_at(s, kk, p, q);
                assert(ks != k);
                if ks < k {
                    assert(t[ks] == s[ks]);
                    assert(Sparse::stored_at(t, ks, p, q));
                } else {
                    assert(t[ks - 1] == s[ks]);
                    assert(Sparse::stored_at(t, ks - 1, p, q));
                }
                let ks2 = if ks < k {
                    ks
                } else {
                    ks - 1
                };
                let kt = choose|kk: int| Sparse::stored_at(t, kk, p, q);
                Sparse::lemma_key_unique(t, ks2, kt, p, q);
                assert(t[ks2].1 == s[ks].1);
            } else if Sparse::has_key_s(t, p, q) {
                let kt = choose|kk: int| Sparse::stored_at(t, kk, p, q);
                if kt < k {
                    assert(s[kt] == t[kt]);
                    assert(Sparse::stored_at(s, kt, p, q));
                } else {
                    assert(s[kt + 1] == t[kt]);
                    assert(Sparse::stored_at(s, kt + 1, p, q));
                }
            }
        }
    }

    /// The last value paired with key `(i, j)` in a sequence of
    /// `(key, value)` pairs, if any: later duplicates win.
    pub open spec fn last_val_s(pairs: Seq<((usize, usize), Entry)>, i: usize, j: usize) -> Option<
        Entry,
    >
        decreases pairs.len(),
    {
        if pairs.len() == 0 {
            None
        } else if pairs.last().0 == (i, j) {
            Some(pairs.last().1)
        } else {
            Sparse::last_val_s(pairs.drop_last(), i, j)
        }
    }

    /// Builds an `n x m` matrix from a sequence of `((i, j), value)` pairs,
    /// writing them in order: later duplicate keys overwrite earlier ones,
    /// and out-of-range keys are dropped.
    pub fn from_iter(n: usize, m: usize, pairs: Vec<((usize, usize), Entry)>) -> (r: Sparse)
        requires
            forall|k: int| 0 <= k < pairs@.len() ==> (#[trigger] pairs@[k]).1.wf(),
        ensures
            r.wf(),
            r.rows_s() == n,
            r.cols_s() == m,
            forall|i: usize, j: usize|
                i < n && j < m ==> Sparse::stored_s(r.data_s(), i, j) == Sparse::last_val_s(
                    pairs@,
                    i,
                    j,
                ),
    {
        let mut mat = Sparse::zeros(n, m);
        let len = pairs.len();
        let mut t: usize = 0;
        while t < len
            invariant
                t <= len,
                len == pairs@.len(),
                forall|k: int| 0 <= k < pairs@.len() ==> (#[trigger] pairs@[k]).1.wf(),
                mat.wf(),
                mat.rows_s() == n,
                mat.cols_s() == m,
                forall|i: usize, j: usize|
                    i < n && j < m ==> Sparse::stored_s(mat.data_s(), i, j) == Sparse::last_val_s(
                        pairs@.take(t as int),
                        i,
                        j,
                    ),
            decreases len - t,
        {
            let ghost pre = mat;
            let (idx, val) = pairs[t];
            mat.set(idx, val);
            proof {
                lemma_pairs_take_succ(pairs@, t as int);
                assert forall|i: usize, j: usize| i < n && j < m implies Sparse::stored_s(
                    mat.data_s(),
                    i,
                    j,
                ) == Sparse::last_val_s(pairs@.take(t + 1), i, j) by {
                    if idx == (i, j) {
                    } else {
                        assert(Sparse::stored_s(mat.data_s(), i, j) == Sparse::stored_s(
                            pre.data_s(),
                            i,
                            j,
                        ));
                    }
                }
            }
            t += 1;
        }
        proof {
            assert(pairs@.take(len as int) =~= pairs@);
        }
        mat
    }

    /// The full cell grid the matrix denotes, in row-major order: the
    /// stored cells with zeros read everywhere else.
    pub open spec fn cells_s(self) -> Seq<Entry> {
        Seq::new(
            (self.rows_s() * self.cols_s()) as nat,
            |k: int|
                self.read_s(
                    (k / self.cols_s() as int) as usize,
                    (k % self.cols_s() as int) as usize,
                ),
        )
    }

    /// Renders the matrix as bracketed rows of fixed-width cells.
    #[verifier::loop_isolation(false)]
    pub fn render(&self) -> (r: String)
        requires
            self.wf(),
            self.rows_s() * self.cols_s() <= usize::MAX,
        ensures
            r@ == crate::render::grid_s(
                self.rows_s() as int,
                self.cols_s() as int,
                self.cells_s(),
            ),
    {
        let total = self.n * self.m;
        let mut cells: Vec<Entry> = Vec::new();
        let mut k: usize = 0;
        while k < total
            invariant
                k <= total,
                cells@.len() == k,
                forall|w: int| 0 <= w < k ==> cells@[w] == self.cells_s()[w],
                forall|w: int| 0 <= w < k ==> (#[trigger] cells@[w]).wf(),
            decreases total - k,
        {
            proof {
                assert(self.m != 0) by (nonlinear_arith)
                    requires
                        k < self.rows_s() * self.cols_s(),
                ;
            }
            let i = k / self.m;
            let j = k % self.m;
            proof {
                vstd::arithmetic::div_mod::lemma_fundamental_div_mod(k as int, self.m as int);
                assert(i < self.rows_s()) by (nonlinear_arith)
                    requires
                        k < self.rows_s() * self.cols_s(),
                        self.cols_s() >= 1,
                        k == self.cols_s() * i + j,
                        j < self.cols_s(),
                ;
            }
            let v = match self.get((i, j)) {
                Some(v) => v,
                None => Entry::zero(),
            };
            proof {
                if Sparse::has_key_s(self.data_s(), i, j) {
                    let kc = choose|kk: int| Sparse::stored_at(self.data_s(), kk, i, j);
                    assert(self.data_s()[kc].1.wf());
                }
            }
            cells.push(v);
            k += 1;
        }
        proof {
            assert(cells@ =~= self.cells_s());
        }
        crate::render::render_grid(self.n, self.m, &cells)
    }

    /// Semantic equality of sparse matrices: same shape and identically
    /// placed stored cells with ratio-equal values. Stored keys are kept
    /// sorted and unique, so comparing them position by position compares
    /// the stored mappings.
    pub open spec fn eq_s(a: Sparse, b: Sparse) -> bool {
        &&& a.rows_s() == b.rows_s()
        &&& a.cols_s() == b.cols_s()
        &&& a.data_s().len() == b.data_s().len()
        &&& forall|k: int|
            0 <= k < a.data_s().len() ==> (#[trigger] a.data_s()[k]).0 == b.data_s()[k].0
                && Entry::eq_s(a.data_s()[k].1, b.data_s()[k].1)
    }

    /// Returns the shape of the matrix in the format `(rows, cols)`.
    pub fn shape(&self) -> (r: (usize, usize))
        ensures
            r == (self.rows_s(), self.cols_s()),
    {
        (self.n, self.m)
    }

    /// Whether the matrix has as many rows as columns.
    pub fn is_square(&self) -> (r: bool)
        ensures
            r == (self.rows_s() == self.cols_s()),
    {
        self.n == self.m
    }

    /// Computes the determinant. Not yet supported for the sparse
    /// representation: the result is always `None`.
    pub fn det(&self) -> (r: Option<Entry>)
        ensures
            r is None,
    {
        None
    }

    /// Inverts the matrix in place. Not yet supported for the sparse
    /// representation: the matrix is left unchanged and the result is
    /// always `false`.
    pub fn inv(&mut self) -> (r: bool)
        ensures
            !r,
            *final(self) == *old(self),
    {
        false
    }
}

impl PartialEq for Sparse {
    fn eq(&self, other: &Sparse) -> (r: bool) {
        if self.n != other.n || self.m != other.m || self.data.len() != other.data.len() {
            return false;
        }
        let len = self.data.len();
        let mut k: usize = 0;
        while k < len
            invariant
                k <= len,
                len == self.data@.len(),
                len == other.data@.len(),
                forall|q: int|
                    0 <= q < k ==> (#[trigger] self.data@[q]).0 == other.data@[q].0
                        && Entry::eq_s(self.data@[q].1, other.data@[q].1),
            decreases len - k,
        {
            let (ka, va) = self.data[k];
            let (kb, vb) = other.data[k];
            if ka.0 != kb.0 || ka.1 != kb.1 || !(va == vb) {
                return false;
            }
            k += 1;
        }
        true
    }
}

impl vstd::std_specs::cmp::PartialEqSpecImpl for Sparse {
    open spec fn obeys_eq_spec() -> bool {
        true
    }

    open spec fn eq_spec(&self, other: &Sparse) -> bool {
        Sparse::eq_s(*self, *other)
    }
}

/// Splitting one element off the end of a prefix of a pair sequence.
proof fn lemma_pairs_take_succ(s: Seq<((usize, usize), Entry)>, k: int)
    requires
        0 <= k < s.len(),
    ensures
        s.take(k + 1).drop_last() == s.take(k),
        s.take(k + 1).last() == s[k],
{
    assert(s.take(k + 1).drop_last() =~= s.take(k));
}

/// Law: a write read back. Writing an in-range cell stores exactly the
/// written value, so reading the same cell afterwards yields it.
pub proof fn lemma_set_get_round_trip(after: Sparse, i: usize, j: usize, v: Entry)
    requires
        Sparse::stored_s(after.data_s(), i, j) == Some(v),
    ensures
        after.read_s(i, j) == v,
{
}

/// Law: an in-range cell that was never written reads as zero.
pub proof fn lemma_unset_reads_zero(mat: Sparse, i: usize, j: usize)
    requires
        !Sparse::has_key_s(mat.data_s(), i, j),
    ensures
        mat.read_s(i, j) == Entry::zero_s(),
{
}

} // verus!
