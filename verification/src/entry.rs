//! The numeric entry type shared by all three matrix representations: an
//! exact rational number `num / den` over 64-bit integers. Matrix entries
//! need addition, multiplication, division, equality and construction from
//! small integers; this type supplies all five exactly, so determinants and
//! inverses of diagonal matrices come out as precise fractions.

use vstd::prelude::*;

verus! {

/// One numeric matrix element, held as the exact ratio `num / den`.
///
/// A well-formed entry keeps `den >= 1` and `num > i64::MIN`; the symmetric
/// numerator range makes the reciprocal of any nonzero well-formed entry
/// representable without overflow.
#[derive(Clone, Copy, Debug)]
pub struct Entry {
    pub num: i64,
    pub den: i64,
}

impl Entry {
    /// Well-formedness: positive denominator, numerator in the symmetric range.
    pub open spec fn wf(self) -> bool {
        1 <= self.den && i64::MIN < self.num
    }

    /// The rational zero, `0 / 1`.
    pub open spec fn zero_s() -> Entry {
        Entry { num: 0, den: 1 }
    }

    /// The rational one, `1 / 1`.
    pub open spec fn one_s() -> Entry {
        Entry { num: 1, den: 1 }
    }

    /// Semantic equality of ratios: `a/b == c/d` iff `a*d == c*b`.
    pub open spec fn eq_s(a: Entry, b: Entry) -> bool {
        a.num * b.den == b.num * a.den
    }

    /// Whether the mathematical integer `x` fits the symmetric i64 range.
    pub open spec fn fits(x: int) -> bool {
        i64::MIN < x <= i64::MAX
    }

    /// Whether the product `a * b` is representable without overflow.
    pub open spec fn mul_ok(a: Entry, b: Entry) -> bool {
        Entry::fits(a.num * b.num) && Entry::fits(a.den * b.den)
    }

    /// The exact product of two entries (componentwise product of ratios).
    pub open spec fn mul_s(a: Entry, b: Entry) -> Entry {
        Entry { num: (a.num * b.num) as i64, den: (a.den * b.den) as i64 }
    }

    /// The numerator of the exact sum `a/b + c/d = (a*d + c*b) / (b*d)`.
    pub open spec fn add_num_s(a: Entry, b: Entry) -> int {
        a.num * b.den + b.num * a.den
    }

    /// The denominator of the exact sum.
    pub open spec fn add_den_s(a: Entry, b: Entry) -> int {
        a.den * b.den
    }

    /// Whether the sum `a + b` is representable without overflow.
    pub open spec fn add_ok(a: Entry, b: Entry) -> bool {
        Entry::fits(Entry::add_num_s(a, b)) && Entry::fits(Entry::add_den_s(a, b))
    }

    /// The exact sum of two entries.
    pub open spec fn add_s(a: Entry, b: Entry) -> Entry {
        Entry { num: Entry::add_num_s(a, b) as i64, den: Entry::add_den_s(a, b) as i64 }
    }

    /// The numerator of the exact quotient, with the sign moved so that the
    /// denominator stays positive.
    pub open spec fn div_num_s(a: Entry, b: Entry) -> int {
        if b.num > 0 {
            a.num * b.den
        } else {
            -(a.num * b.den)
        }
    }

    /// The denominator of the exact quotient.
    pub open spec fn div_den_s(a: Entry, b: Entry) -> int {
        if b.num > 0 {
            a.den * b.num
        } else {
            -(a.den * b.num)
        }
    }

    /// Whether the quotient `a / b` is defined and representable: the divisor
    /// is nonzero and both components fit.
    pub open spec fn div_ok(a: Entry, b: Entry) -> bool {
        b.num != 0 && Entry::fits(Entry::div_num_s(a, b)) && Entry::fits(Entry::div_den_s(a, b))
    }

    /// The exact quotient of two entries.
    pub open spec fn div_s(a: Entry, b: Entry) -> Entry {
        Entry { num: Entry::div_num_s(a, b) as i64, den: Entry::div_den_s(a, b) as i64 }
    }

    /// Builds the entry `i / 1` from a small integer.
    pub fn from_int(i: i64) -> (r: Entry)
        requires
            i64::MIN < i,
        ensures
            r == (Entry { num: i, den: 1 }),
            r.wf(),
    {
        Entry { num: i, den: 1 }
    }

    /// Builds the entry `num / den` from an explicit numerator and denominator.
    pub fn new(num: i64, den: i64) -> (r: Entry)
        requires
            1 <= den,
            i64::MIN < num,
        ensures
            r == (Entry { num, den }),
            r.wf(),
    {
        Entry { num, den }
    }

    /// The zero entry.
    pub fn zero() -> (r: Entry)
        ensures
            r == Entry::zero_s(),
            r.wf(),
    {
        Entry { num: 0, den: 1 }
    }

    /// The one entry.
    pub fn one() -> (r: Entry)
        ensures
            r == Entry::one_s(),
            r.wf(),
    {
        Entry { num: 1, den: 1 }
    }

    /// Whether this entry equals the rational zero.
    pub fn is_zero(&self) -> (r: bool)
        requires
            self.wf(),
        ensures
            r == (self.num == 0),
            r == Entry::eq_s(*self, Entry::zero_s()),
    {
        self.num == 0
    }

    /// Exact multiplication. The caller must show that both component
    /// products fit in 64 bits.
    pub fn mul(self, rhs: Entry) -> (r: Entry)
        requires
            self.wf(),
            rhs.wf(),
            Entry::mul_ok(self, rhs),
        ensures
            r == Entry::mul_s(self, rhs),
            r.wf(),
    {
        proof {
            lemma_i64_prod_fits_i128(self.num, rhs.num);
            lemma_i64_prod_fits_i128(self.den, rhs.den);
            assert(self.den * rhs.den >= 1) by (nonlinear_arith)
                requires
                    self.den >= 1,
                    rhs.den >= 1,
            ;
        }
        let n: i128 = (self.num as i128) * (rhs.num as i128);
        let d: i128 = (self.den as i128) * (rhs.den as i128);
        Entry { num: n as i64, den: d as i64 }
    }

    /// Exact addition. The caller must show that the resulting numerator and
    /// denominator fit in 64 bits.
    pub fn add(self, rhs: Entry) -> (r: Entry)
        requires
            self.wf(),
            rhs.wf(),
            Entry::add_ok(self, rhs),
        ensures
            r == Entry::add_s(self, rhs),
            r.wf(),
    {
        proof {
            lemma_i64_prod_bounds(self.num, rhs.den);
            lemma_i64_prod_bounds(rhs.num, self.den);
            lemma_i64_prod_fits_i128(self.den, rhs.den);
            assert(self.den * rhs.den >= 1) by (nonlinear_arith)
                requires
                    self.den >= 1,
                    rhs.den >= 1,
            ;
        }
        let n: i128 = (self.num as i128) * (rhs.den as i128) + (rhs.num as i128) * (self.den
            as i128);
        let d: i128 = (self.den as i128) * (rhs.den as i128);
        Entry { num: n as i64, den: d as i64 }
    }

    /// Exact division by a nonzero entry. The sign is moved to the numerator
    /// so that the result's denominator stays positive.
    pub fn div(self, rhs: Entry) -> (r: Entry)
        requires
            self.wf(),
            rhs.wf(),
            Entry::div_ok(self, rhs),
        ensures
            r == Entry::div_s(self, rhs),
            r.wf(),
    {
        proof {
            lemma_i64_prod_fits_i128(self.num, rhs.den);
            lemma_i64_prod_fits_i128(self.den, rhs.num);
            assert(rhs.num > 0 ==> self.den * rhs.num >= 1) by (nonlinear_arith)
                requires
                    self.den >= 1,
            ;
            assert(rhs.num < 0 ==> self.den * rhs.num <= -1) by (nonlinear_arith)
                requires
                    self.den >= 1,
            ;
        }
        let n0: i128 = (self.num as i128) * (rhs.den as i128);
        let d0: i128 = (self.den as i128) * (rhs.num as i128);
        if rhs.num > 0 {
            Entry { num: n0 as i64, den: d0 as i64 }
        } else {
            Entry { num: (-n0) as i64, den: (-d0) as i64 }
        }
    }

    /// The entry that `inv` writes in place of `e`: the reciprocal of a
    /// nonzero entry, and the canonical zero for a zero entry.
    pub open spec fn inv_entry_s(e: Entry) -> Entry {
        if e.num == 0 {
            Entry::zero_s()
        } else {
            Entry::div_s(Entry::one_s(), e)
        }
    }

    /// The reciprocal of any nonzero well-formed entry is representable: its
    /// components are (up to sign) the components of the entry itself.
    pub proof fn lemma_recip_ok(e: Entry)
        requires
            e.wf(),
            e.num != 0,
        ensures
            Entry::div_ok(Entry::one_s(), e),
            Entry::inv_entry_s(e).wf(),
    {
        assert(1 * e.den == e.den);
        assert(1 * e.num == e.num);
    }
}

/// The product of an i64 above `i64::MIN` with any i64 stays strictly within
/// `2^126` in magnitude, so a two-term sum of such products fits in an i128.
proof fn lemma_i64_prod_bounds(a: i64, b: i64)
    requires
        i64::MIN < a,
    ensures
        -0x40000000000000000000000000000000 < a * b < 0x40000000000000000000000000000000,
{
    assert(-0x40000000000000000000000000000000 < a * b
        < 0x40000000000000000000000000000000) by (nonlinear_arith)
        requires
            -0x7fffffffffffffff <= a <= 0x7fffffffffffffff,
            -0x8000000000000000 <= b <= 0x7fffffffffffffff,
    ;
}

impl PartialEq for Entry {
    fn eq(&self, other: &Entry) -> (r: bool) {
        proof {
            lemma_i64_prod_fits_i128(self.num, other.den);
            lemma_i64_prod_fits_i128(other.num, self.den);
        }
        (self.num as i128) * (other.den as i128) == (other.num as i128) * (self.den as i128)
    }
}

impl vstd::std_specs::cmp::PartialEqSpecImpl for Entry {
    open spec fn obeys_eq_spec() -> bool {
        true
    }

    open spec fn eq_spec(&self, other: &Entry) -> bool {
        Entry::eq_s(*self, *other)
    }
}

/// Law: one is a multiplicative identity. Multiplying any well-formed entry
/// by one, on either side, always fits and leaves the entry unchanged.
pub proof fn lemma_mul_one(e: Entry)
    requires
        e.wf(),
    ensures
        Entry::mul_ok(e, Entry::one_s()),
        Entry::mul_ok(Entry::one_s(), e),
        Entry::mul_s(e, Entry::one_s()) == e,
        Entry::mul_s(Entry::one_s(), e) == e,
{
    assert(e.num * 1 == e.num);
    assert(e.den * 1 == e.den);
    assert(1 * e.num == e.num);
    assert(1 * e.den == e.den);
}

/// Law: entry multiplication is associative wherever every intermediate
/// product is representable.
pub proof fn lemma_mul_assoc(a: Entry, b: Entry, c: Entry)
    requires
        Entry::mul_ok(a, b),
        Entry::mul_ok(Entry::mul_s(a, b), c),
        Entry::mul_ok(b, c),
        Entry::mul_ok(a, Entry::mul_s(b, c)),
    ensures
        Entry::mul_s(Entry::mul_s(a, b), c) == Entry::mul_s(a, Entry::mul_s(b, c)),
{
    assert((a.num * b.num) * c.num == a.num * (b.num * c.num)) by (nonlinear_arith);
    assert((a.den * b.den) * c.den == a.den * (b.den * c.den)) by (nonlinear_arith);
}

/// Law: ratio equality is an equivalence relation on well-formed entries,
/// so `==` on entries behaves as equality even across representations of
/// the same ratio.
pub proof fn lemma_eq_equivalence(a: Entry, b: Entry, c: Entry)
    requires
        a.wf(),
        b.wf(),
        c.wf(),
    ensures
        Entry::eq_s(a, a),
        Entry::eq_s(a, b) == Entry::eq_s(b, a),
        Entry::eq_s(a, b) && Entry::eq_s(b, c) ==> Entry::eq_s(a, c),
{
    if Entry::eq_s(a, b) && Entry::eq_s(b, c) {
        assert(a.num * c.den == c.num * a.den) by (nonlinear_arith)
            requires
                a.num * b.den == b.num * a.den,
                b.num * c.den == c.num * b.den,
                b.den >= 1,
        ;
    }
}

/// Law: multiplying by a scalar is applying entrywise multiplication. A
/// state that `scalar_mul(rhs)` promises (every entry the exact product
/// with `rhs`) and a state that `apply(f)` promises, for any `f` whose
/// contract pins its result to that same product, are one and the same.
pub proof fn lemma_scalar_mul_is_apply<F: Fn(Entry) -> Entry>(
    s: Seq<Entry>,
    s1: Seq<Entry>,
    s2: Seq<Entry>,
    rhs: Entry,
    f: F,
)
    requires
        s1.len() == s.len(),
        s2.len() == s.len(),
        forall|k: int| 0 <= k < s.len() ==> s1[k] == Entry::mul_s(#[trigger] s[k], rhs),
        forall|k: int| 0 <= k < s.len() ==> call_ensures(f, (s[k],), #[trigger] s2[k]),
        forall|x: Entry, y: Entry| call_ensures(f, (x,), y) ==> y == Entry::mul_s(x, rhs),
    ensures
        s1 == s2,
{
    assert(s1 =~= s2);
}

/// Law: scalar scaling is linear. Rewriting every entry of a sequence as its
/// product with `a` and then rewriting the results with `b` — what scaling a
/// matrix by `a` and then by `b` does to its stored entries — yields the same
/// sequence as one rewrite by the product `a * b`, wherever every
/// intermediate product is representable.
pub proof fn lemma_scalar_mul_linear(s: Seq<Entry>, a: Entry, b: Entry)
    requires
        Entry::mul_ok(a, b),
        forall|k: int| 0 <= k < s.len() ==> Entry::mul_ok(#[trigger] s[k], a),
        forall|k: int|
            0 <= k < s.len() ==> Entry::mul_ok(Entry::mul_s(#[trigger] s[k], a), b),
        forall|k: int|
            0 <= k < s.len() ==> Entry::mul_ok(#[trigger] s[k], Entry::mul_s(a, b)),
    ensures
        s.map_values(|e: Entry| Entry::mul_s(e, a)).map_values(|e: Entry| Entry::mul_s(e, b))
            == s.map_values(|e: Entry| Entry::mul_s(e, Entry::mul_s(a, b))),
{
    let twice = s.map_values(|e: Entry| Entry::mul_s(e, a)).map_values(
        |e: Entry| Entry::mul_s(e, b),
    );
    let once = s.map_values(|e: Entry| Entry::mul_s(e, Entry::mul_s(a, b)));
    assert forall|k: int| 0 <= k < s.len() implies twice[k] == once[k] by {
        lemma_mul_assoc(s[k], a, b);
    }
    assert(twice =~= once);
}

/// The product of two i64 values always fits in an i128.
proof fn lemma_i64_prod_fits_i128(a: i64, b: i64)
    ensures
        i128::MIN <= a * b <= i128::MAX,
{
    assert(i128::MIN <= a * b <= i128::MAX) by (nonlinear_arith);
}

} // verus!
