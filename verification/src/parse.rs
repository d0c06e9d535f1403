//! The matrix-literal parser: turns a string of whitespace-separated decimal
//! numbers, with rows delimited by a separator token, into a flat entry
//! sequence plus row and column counts.
//!
//! The accepted grammar, over the bytes of the input:
//! - the separator must contain a non-whitespace byte and splits the input
//!   into rows at its leftmost non-overlapping occurrences;
//! - each row holds tokens separated by ASCII whitespace;
//! - a token is `[+|-] digits [. digits]` with at least one digit, read as
//!   an exact decimal ratio (so `1.25` becomes `125 / 100`); a token whose
//!   numerator or denominator does not fit the entry type is rejected;
//! - every row must hold the same number of tokens as the first row.

use vstd::prelude::*;
use vstd::string::StringSliceAdditionalSpecFns;

use crate::entry::Entry;
use crate::error::MatError;

verus! {

/// ASCII whitespace.
pub open spec fn is_space(c: u8) -> bool {
    c == 32 || (9 <= c <= 13)
}

/// ASCII decimal digit.
pub open spec fn is_digit(c: u8) -> bool {
    48 <= c <= 57
}

/// Whether the separator is blank: empty or all whitespace.
pub open spec fn blank_sep(sep: Seq<u8>) -> bool {
    forall|k: int| 0 <= k < sep.len() ==> is_space(#[trigger] sep[k])
}

/// Whether the separator occurs in `s` at position `k`.
pub open spec fn match_at(s: Seq<u8>, sep: Seq<u8>, k: int) -> bool {
    0 <= k && k + sep.len() <= s.len() && s.subrange(k, k + sep.len()) == sep
}

/// The position of the leftmost separator occurrence, if any.
pub open spec fn first_match(s: Seq<u8>, sep: Seq<u8>) -> Option<int>
    decreases s.len(),
{
    if sep.len() == 0 {
        Some(0)
    } else if s.len() < sep.len() {
        None
    } else if s.subrange(0, sep.len() as int) == sep {
        Some(0)
    } else {
        match first_match(s.drop_first(), sep) {
            Some(k) => Some(k + 1),
            None => None,
        }
    }
}

/// The rows of the input: the pieces between consecutive leftmost separator
/// occurrences. Every input is at least one row.
pub open spec fn rows_of(s: Seq<u8>, sep: Seq<u8>) -> Seq<Seq<u8>>
    decreases s.len(),
    when sep.len() >= 1
{
    match first_match(s, sep) {
        Some(k) => {
            if 0 <= k && k + sep.len() <= s.len() {
                seq![s.take(k)] + rows_of(s.skip(k + sep.len()), sep)
            } else {
                seq![s]
            }
        },
        None => seq![s],
    }
}

/// The length of the whitespace-free token starting at the head of `row`.
pub open spec fn token_end(row: Seq<u8>) -> nat
    decreases row.len(),
{
    if row.len() == 0 || is_space(row[0]) {
        0
    } else {
        1 + token_end(row.drop_first())
    }
}

/// The first token of a row never runs past the row's end.
pub proof fn lemma_token_end_le(row: Seq<u8>)
    ensures
        token_end(row) <= row.len(),
    decreases row.len(),
{
    if row.len() > 0 && !is_space(row[0]) {
        lemma_token_end_le(row.drop_first());
    }
}

/// The whitespace-separated tokens of a row.
pub open spec fn tokens_of(row: Seq<u8>) -> Seq<Seq<u8>>
    decreases row.len(),
    via tokens_of_dec
{
    if row.len() == 0 {
        Seq::empty()
    } else if is_space(row[0]) {
        tokens_of(row.drop_first())
    } else {
        seq![row.take(token_end(row) as int)] + tokens_of(row.skip(token_end(row) as int))
    }
}

#[via_fn]
proof fn tokens_of_dec(row: Seq<u8>) {
    if row.len() > 0 && !is_space(row[0]) {
        lemma_token_end_le(row);
        assert(token_end(row) >= 1);
    }
}

/// The value of a digit string, most significant digit first.
pub open spec fn digits_val(t: Seq<u8>) -> int
    decreases t.len(),
{
    if t.len() == 0 {
        0
    } else {
        digits_val(t.drop_last()) * 10 + (t.last() - 48)
    }
}

/// Whether every byte of `t` is a digit.
pub open spec fn all_digits(t: Seq<u8>) -> bool {
    forall|k: int| 0 <= k < t.len() ==> is_digit(#[trigger] t[k])
}

/// Ten to the `k`.
pub open spec fn pow10(k: nat) -> int
    decreases k,
{
    if k == 0 {
        1
    } else {
        10 * pow10((k - 1) as nat)
    }
}

/// The position of the first `.` in `t`, if any.
pub open spec fn dot_pos(t: Seq<u8>) -> Option<int>
    decreases t.len(),
{
    if t.len() == 0 {
        None
    } else if t[0] == 46 {
        Some(0)
    } else {
        match dot_pos(t.drop_first()) {
            Some(k) => Some(k + 1),
            None => None,
        }
    }
}

/// The entry denoted by an unsigned decimal body split as integer digits
/// `ip` and fraction digits `fp`, with the sign `sgn`, if it fits.
pub open spec fn mk_entry(sgn: int, ip: Seq<u8>, fp: Seq<u8>) -> Option<Entry> {
    let den = pow10(fp.len());
    let num0 = digits_val(ip) * den + digits_val(fp);
    if den <= i64::MAX && num0 <= i64::MAX {
        Some(Entry { num: (sgn * num0) as i64, den: den as i64 })
    } else {
        None
    }
}

/// The entry denoted by one token, if the token is a well-formed decimal
/// number that fits the entry type.
pub open spec fn parse_tok(t: Seq<u8>) -> Option<Entry> {
    let sgn: int = if t.len() > 0 && t[0] == 45 {
        -1
    } else {
        1
    };
    let body = if t.len() > 0 && (t[0] == 43 || t[0] == 45) {
        t.drop_first()
    } else {
        t
    };
    if body.len() == 0 {
        None
    } else {
        match dot_pos(body) {
            None => {
                if all_digits(body) {
                    mk_entry(sgn, body, Seq::empty())
                } else {
                    None
                }
            },
            Some(d) => {
                if body.len() >= 2 && all_digits(body.take(d)) && all_digits(body.skip(d + 1)) {
                    mk_entry(sgn, body.take(d), body.skip(d + 1))
                } else {
                    None
                }
            },
        }
    }
}

/// The entries of one row, token by token; the first token that does not
/// parse fails the row.
pub open spec fn parse_row(toks: Seq<Seq<u8>>) -> Result<Seq<Entry>, MatError>
    decreases toks.len(),
{
    if toks.len() == 0 {
        Ok(Seq::empty())
    } else {
        match parse_tok(toks[0]) {
            None => Err(MatError::InvalidToken),
            Some(v) => match parse_row(toks.drop_first()) {
                Err(e) => Err(e),
                Ok(vs) => Ok(seq![v] + vs),
            },
        }
    }
}

/// Scans the rows in order, carrying the column count (`-1` while no row
/// has fixed it) and the entries read so far. Each row is parsed left to
/// right, then its token count is held against the first row's.
pub open spec fn scan_rows(rows: Seq<Seq<u8>>, cols: int, acc: Seq<Entry>) -> Result<
    (Seq<Entry>, int),
    MatError,
>
    decreases rows.len(),
{
    if rows.len() == 0 {
        Ok((acc, cols))
    } else {
        match parse_row(tokens_of(rows[0])) {
            Err(e) => Err(e),
            Ok(es) => {
                if cols >= 0 && es.len() != cols {
                    Err(MatError::InvalidShape)
                } else {
                    scan_rows(
                        rows.drop_first(),
                        if cols >= 0 {
                            cols
                        } else {
                            es.len() as int
                        },
                        acc + es,
                    )
                }
            },
        }
    }
}

/// The value of a digit string is never negative.
proof fn lemma_dv_nonneg(t: Seq<u8>)
    requires
        all_digits(t),
    ensures
        digits_val(t) >= 0,
    decreases t.len(),
{
    if t.len() > 0 {
        lemma_dv_nonneg(t.drop_last());
    }
}

/// Reading one more digit multiplies the prefix value by ten and adds it.
proof fn lemma_dv_take_step(t: Seq<u8>, k: int)
    requires
        0 <= k < t.len(),
    ensures
        digits_val(t.take(k + 1)) == digits_val(t.take(k)) * 10 + (t[k] - 48),
    decreases t.len(),
{
    assert(t.take(k + 1).drop_last() =~= t.take(k));
    assert(t.take(k + 1).last() == t[k]);
}

/// Powers of ten are positive.
proof fn lemma_pow10_pos(k: nat)
    ensures
        pow10(k) >= 1,
    decreases k,
{
    if k > 0 {
        lemma_pow10_pos((k - 1) as nat);
    }
}

/// Powers of ten grow with the exponent.
proof fn lemma_pow10_mono(a: nat, b: nat)
    requires
        a <= b,
    ensures
        1 <= pow10(a) <= pow10(b),
    decreases b,
{
    if a == b {
        lemma_pow10_pos(a);
    } else {
        lemma_pow10_mono(a, (b - 1) as nat);
    }
}

/// Bounds of the combined numerator `vi * den + vf` before the fit test.
proof fn lemma_num0_bounds(vi: i64, den: i64)
    requires
        0 <= vi,
        1 <= den <= 0xde0b6b3a7640000,
    ensures
        0 <= vi * den <= 0x7fffffffffffffff * 0xde0b6b3a7640000,
{
    assert(0 <= vi * den <= 0x7fffffffffffffff * 0xde0b6b3a7640000) by (nonlinear_arith)
        requires
            0 <= vi <= 0x7fffffffffffffff,
            1 <= den <= 0xde0b6b3a7640000,
    ;
}

/// The numeric values of the small powers of ten that the token parser
/// compares against.
proof fn lemma_pow10_values()
    ensures
        pow10(18) == 0xde0b6b3a7640000,
        pow10(19) > i64::MAX,
{
    reveal_with_fuel(pow10, 20);
}

/// A nonnegative value only grows when multiplied by a positive one.
proof fn lemma_mul_ge(a: int, b: int)
    requires
        a >= 0,
        b >= 1,
    ensures
        a * b >= a,
        a * b >= 0,
{
    assert(a * b >= a && a * b >= 0) by (nonlinear_arith)
        requires
            a >= 0,
            b >= 1,
    ;
}

/// The first `.` of a byte string, characterized by scanning.
proof fn lemma_dot_pos_char(t: Seq<u8>, k: int)
    requires
        0 <= k <= t.len(),
        forall|q: int| 0 <= q < k ==> t[q] != 46,
        k < t.len() ==> t[k] == 46,
    ensures
        k < t.len() ==> dot_pos(t) == Some(k),
        k == t.len() ==> dot_pos(t) is None,
    decreases t.len(),
{
    if t.len() > 0 && t[0] != 46 {
        lemma_dot_pos_char(t.drop_first(), k - 1);
    }
}

/// Scans `sb[lo..hi)` as a digit run: reports `None` if some byte is not a
/// digit; otherwise whether the value exceeds `i64::MAX`, and the exact
/// value whenever it does not.
fn scan_digits(sb: &[u8], lo: usize, hi: usize) -> (r: Option<(bool, i64)>)
    requires
        lo <= hi <= sb@.len(),
    ensures
        ({
            let d = sb@.subrange(lo as int, hi as int);
            match r {
                None => !all_digits(d),
                Some((big, v)) => all_digits(d) && (big ==> digits_val(d) > i64::MAX) && (!big
                    ==> v == digits_val(d) && 0 <= v <= i64::MAX),
            }
        }),
{
    let ghost d = sb@.subrange(lo as int, hi as int);
    let mut k = lo;
    let mut big = false;
    let mut acc: i64 = 0;
    while k < hi
        invariant
            lo <= k <= hi <= sb@.len(),
            d == sb@.subrange(lo as int, hi as int),
            all_digits(d.take(k - lo)),
            big ==> digits_val(d.take(k - lo)) > i64::MAX,
            !big ==> acc == digits_val(d.take(k - lo)) && 0 <= acc <= i64::MAX,
        decreases hi - k,
    {
        let c = sb[k];
        proof {
            assert(d[k - lo] == sb@[k as int]);
        }
        if !(48 <= c && c <= 57) {
            proof {
                assert(!is_digit(d[k - lo]));
            }
            return None;
        }
        proof {
            lemma_dv_take_step(d, k - lo);
            assert(all_digits(d.take(k - lo + 1))) by {
                assert(forall|q: int|
                    0 <= q < k - lo + 1 ==> d.take(k - lo + 1)[q] == d[q]);
                assert(is_digit(d[k - lo]));
            }
            lemma_dv_nonneg(d.take(k - lo));
        }
        if big {
            proof {
                assert(digits_val(d.take(k - lo + 1)) > i64::MAX);
            }
        } else {
            let tmp: i128 = (acc as i128) * 10 + ((c - 48) as i128);
            if tmp <= i64::MAX as i128 {
                acc = tmp as i64;
            } else {
                big = true;
            }
        }
        k += 1;
    }
    proof {
        assert(d.take(hi - lo) =~= d);
    }
    Some((big, acc))
}

/// Parses the token `sb[ts..te)` as a decimal entry.
fn parse_token(sb: &[u8], ts: usize, te: usize) -> (r: Option<Entry>)
    requires
        ts <= te <= sb@.len(),
    ensures
        r == parse_tok(sb@.subrange(ts as int, te as int)),
{
    let ghost t = sb@.subrange(ts as int, te as int);
    if ts == te {
        return None;
    }
    let c0 = sb[ts];
    let neg = c0 == 45;
    let bs = if c0 == 43 || c0 == 45 {
        ts + 1
    } else {
        ts
    };
    let ghost body = sb@.subrange(bs as int, te as int);
    proof {
        if c0 == 43 || c0 == 45 {
            assert(t.drop_first() =~= body);
        }
    }
    if bs == te {
        return None;
    }
    let mut dp = bs;
    while dp < te && sb[dp] != 46
        invariant
            bs <= dp <= te <= sb@.len(),
            forall|q: int| bs <= q < dp ==> sb@[q] != 46,
        decreases te - dp,
    {
        dp += 1;
    }
    proof {
        assert(forall|q: int| 0 <= q < dp - bs ==> body[q] == sb@[bs + q]);
        lemma_dot_pos_char(body, dp - bs);
    }
    if dp == te {
        // No dot: the whole body is the integer part.
        let scanned = scan_digits(sb, bs, te);
        match scanned {
            None => None,
            Some((big, v)) => {
                proof {
                    assert(digits_val(body) * pow10(0) + digits_val(Seq::<u8>::empty())
                        == digits_val(body));
                }
                if big {
                    None
                } else {
                    Some(
                        Entry {
                            num: if neg {
                                -v
                            } else {
                                v
                            },
                            den: 1,
                        },
                    )
                }
            },
        }
    } else {
        // A dot at dp: integer part before it, fraction part after it.
        if te - bs < 2 {
            proof {
                assert(body.len() == 1 && body[0] == 46);
            }
            return None;
        }
        let ghost ip = body.take(dp - bs);
        let ghost fp = body.skip(dp - bs + 1);
        proof {
            assert(ip =~= sb@.subrange(bs as int, dp as int));
            assert(fp =~= sb@.subrange(dp + 1, te as int));
        }
        let si = scan_digits(sb, bs, dp);
        let sf = scan_digits(sb, dp + 1, te);
        match (si, sf) {
            (Some((big_i, vi)), Some((big_f, vf))) => {
                let fl = te - (dp + 1);
                proof {
                    lemma_pow10_values();
                    lemma_dv_nonneg(ip);
                    lemma_dv_nonneg(fp);
                }
                if fl >= 19 {
                    proof {
                        lemma_pow10_mono(19, fl as nat);
                    }
                    return None;
                }
                proof {
                    lemma_pow10_mono(fl as nat, 18);
                    lemma_mul_ge(digits_val(ip), pow10(fl as nat));
                }
                if big_i || big_f {
                    return None;
                }
                let mut den: i64 = 1;
                let mut q: usize = 0;
                while q < fl
                    invariant
                        q <= fl <= 18,
                        den == pow10(q as nat),
                        1 <= den <= 0xde0b6b3a7640000,
                    decreases fl - q,
                {
                    proof {
                        lemma_pow10_mono((q + 1) as nat, 18);
                        lemma_pow10_values();
                    }
                    den = den * 10;
                    q += 1;
                }
                proof {
                    lemma_num0_bounds(vi, den);
                }
                let num0: i128 = (vi as i128) * (den as i128) + (vf as i128);
                proof {
                    assert((vi as i128) * (den as i128) == digits_val(ip) * pow10(fl as nat));
                }
                if num0 <= i64::MAX as i128 {
                    Some(
                        Entry {
                            num: if neg {
                                -(num0 as i64)
                            } else {
                                num0 as i64
                            },
                            den,
                        },
                    )
                } else {
                    None
                }
            },
            _ => None,
        }
    }
}

/// A separator occurrence in a suffix is one in the whole string, shifted.
proof fn lemma_match_shift(s: Seq<u8>, sep: Seq<u8>, a: int, p: int)
    requires
        0 <= a <= s.len(),
        0 <= p,
    ensures
        match_at(s.skip(a), sep, p) == match_at(s, sep, a + p),
{
    let t = s.skip(a);
    if p + sep.len() <= t.len() {
        assert(t.subrange(p, p + sep.len()) =~= s.subrange(a + p, a + p + sep.len()));
    }
}

/// The leftmost occurrence, characterized by scanning: a match with no
/// earlier match is the first match.
proof fn lemma_first_match_found(t: Seq<u8>, sep: Seq<u8>, q: int)
    requires
        sep.len() >= 1,
        match_at(t, sep, q),
        forall|p: int| 0 <= p < q ==> !match_at(t, sep, p),
    ensures
        first_match(t, sep) == Some(q),
    decreases q,
{
    if q > 0 {
        assert(!match_at(t, sep, 0));
        assert(t.drop_first() =~= t.skip(1));
        lemma_match_shift(t, sep, 1, q - 1);
        assert forall|p: int| 0 <= p < q - 1 implies !match_at(t.drop_first(), sep, p) by {
            lemma_match_shift(t, sep, 1, p);
        }
        lemma_first_match_found(t.drop_first(), sep, q - 1);
    }
}

/// No occurrence anywhere means no first match.
proof fn lemma_first_match_none(t: Seq<u8>, sep: Seq<u8>)
    requires
        sep.len() >= 1,
        forall|p: int| 0 <= p ==> !match_at(t, sep, p),
    ensures
        first_match(t, sep) is None,
    decreases t.len(),
{
    if t.len() >= sep.len() {
        assert(!match_at(t, sep, 0));
        assert(t.drop_first() =~= t.skip(1));
        assert forall|p: int| 0 <= p implies !match_at(t.drop_first(), sep, p) by {
            lemma_match_shift(t, sep, 1, p);
        }
        lemma_first_match_none(t.drop_first(), sep);
    }
}

/// The head token's length, characterized by scanning: a whitespace-free
/// run up to the first whitespace byte (or the row's end).
proof fn lemma_token_end_char(row: Seq<u8>, q: int)
    requires
        0 <= q <= row.len(),
        forall|p: int| 0 <= p < q ==> !is_space(#[trigger] row[p]),
        q < row.len() ==> is_space(row[q]),
    ensures
        token_end(row) == q,
    decreases row.len(),
{
    if q > 0 {
        lemma_token_end_char(row.drop_first(), q - 1);
    }
}

/// Whether the separator occurs at position `q` of the input.
#[verifier::loop_isolation(false)]
fn is_match(sb: &[u8], pb: &[u8], q: usize) -> (r: bool)
    requires
        q <= sb@.len(),
    ensures
        r == match_at(sb@, pb@, q as int),
{
    let plen = pb.len();
    let n = sb.len();
    if n - q < plen {
        return false;
    }
    let mut i: usize = 0;
    while i < plen
        invariant
            i <= plen,
            plen == pb@.len(),
            n == sb@.len(),
            q + plen <= n,
            forall|w: int| 0 <= w < i ==> sb@[q + w] == pb@[w],
        decreases plen - i,
    {
        if sb[q + i] != pb[i] {
            proof {
                assert(sb@.subrange(q as int, q + plen)[i as int] != pb@[i as int]);
            }
            return false;
        }
        i += 1;
    }
    proof {
        assert(sb@.subrange(q as int, q + plen) =~= pb@);
    }
    true
}

/// Finds the first separator occurrence at or after `from`.
#[verifier::loop_isolation(false)]
fn find_match(sb: &[u8], pb: &[u8], from: usize) -> (r: Option<usize>)
    requires
        from <= sb@.len(),
        pb@.len() >= 1,
    ensures
        ({
            let suffix = sb@.skip(from as int);
            match r {
                Some(q) => from <= q && match_at(sb@, pb@, q as int) && first_match(suffix, pb@)
                    == Some(q - from),
                None => first_match(suffix, pb@) is None,
            }
        }),
{
    let ghost suffix = sb@.skip(from as int);
    let mut q = from;
    while q < sb.len()
        invariant
            from <= q <= sb@.len(),
            forall|p: int| from <= p < q ==> !match_at(sb@, pb@, p),
        decreases sb@.len() - q,
    {
        if is_match(sb, pb, q) {
            proof {
                lemma_match_shift(sb@, pb@, from as int, q - from);
                assert forall|p: int| 0 <= p < q - from implies !match_at(suffix, pb@, p) by {
                    lemma_match_shift(sb@, pb@, from as int, p);
                }
                lemma_first_match_found(suffix, pb@, q - from);
            }
            return Some(q);
        }
        q += 1;
    }
    proof {
        assert forall|p: int| 0 <= p implies !match_at(suffix, pb@, p) by {
            lemma_match_shift(sb@, pb@, from as int, p);
        }
        lemma_first_match_none(suffix, pb@);
    }
    None
}

/// Every entry a token parses to is well-formed.
proof fn lemma_parse_tok_wf(t: Seq<u8>)
    ensures
        parse_tok(t) matches Some(e) ==> e.wf(),
{
    let body = if t.len() > 0 && (t[0] == 43 || t[0] == 45) {
        t.drop_first()
    } else {
        t
    };
    if body.len() > 0 {
        match dot_pos(body) {
            None => {
                if all_digits(body) {
                    lemma_dv_nonneg(body);
                    lemma_pow10_pos(0);
                }
            },
            Some(d) => {
                if body.len() >= 2 && all_digits(body.take(d)) && all_digits(body.skip(d + 1)) {
                    lemma_dv_nonneg(body.take(d));
                    lemma_dv_nonneg(body.skip(d + 1));
                    lemma_pow10_pos(body.skip(d + 1).len());
                    lemma_mul_ge(digits_val(body.take(d)), pow10(body.skip(d + 1).len()));
                }
            },
        }
    }
}

/// The whole parse: rejects a blank separator, then an empty input, then
/// scans the rows. On success the flat entries come with the row count and
/// the common column count (zero when every row is empty).
pub open spec fn parse_s(s: Seq<u8>, sep: Seq<u8>) -> Result<(Seq<Entry>, int, int), MatError> {
    if blank_sep(sep) {
        Err(MatError::InvalidSeparator)
    } else if s.len() == 0 {
        Err(MatError::EmptyInput)
    } else {
        match scan_rows(rows_of(s, sep), -1, Seq::empty()) {
            Err(e) => Err(e),
            Ok((data, cols)) => Ok(
                (
                    data,
                    rows_of(s, sep).len() as int,
                    if cols >= 0 {
                        cols
                    } else {
                        0
                    },
                ),
            ),
        }
    }
}

/// Parses the given string `s` into a flat entry sequence and the matrix
/// dimensions, with rows delimited by the separator `sep`: exactly the
/// result of [`parse_s`] on the bytes of `s` and `sep`. On success the
/// entries are well-formed and fill the `rows x cols` shape.
#[verifier::loop_isolation(false)]
#[verifier::rlimit(100)]
pub fn mat_from_str(s: &str, sep: &str) -> (r: Result<(Vec<Entry>, usize, usize), MatError>)
    ensures
        ({
            let ps = parse_s(s.spec_bytes(), sep.spec_bytes());
            match r {
                Ok(out) => ps == Ok::<(Seq<Entry>, int, int), MatError>(
                    (out.0@, out.1 as int, out.2 as int),
                ) && (forall|w: int| 0 <= w < out.0@.len() ==> (#[trigger] out.0@[w]).wf())
                    && out.0@.len() == out.1 * out.2,
                Err(e) => ps == Err::<(Seq<Entry>, int, int), MatError>(e),
            }
        }),
{
    let sb = s.as_bytes();
    let pb = sep.as_bytes();
    let plen = pb.len();
    let slen = sb.len();
    // A blank separator is rejected first.
    let mut k: usize = 0;
    let mut nonspace = false;
    while k < plen
        invariant
            k <= plen,
            !nonspace ==> (forall|q: int| 0 <= q < k ==> is_space(#[trigger] pb@[q])),
            nonspace ==> !blank_sep(pb@),
        decreases plen - k,
    {
        let c = pb[k];
        if !(c == 32 || (9 <= c && c <= 13)) {
            proof {
                assert(!is_space(pb@[k as int]));
            }
            nonspace = true;
        }
        k += 1;
    }
    if !nonspace {
        proof {
            assert(blank_sep(pb@));
        }
        return Err(MatError::InvalidSeparator);
    }
    if slen == 0 {
        return Err(MatError::EmptyInput);
    }
    proof {
        if pb@.len() == 0 {
            assert(blank_sep(pb@));
        }
        assert(sb@.skip(0) =~= sb@);
    }
    let mut data: Vec<Entry> = Vec::new();
    let mut marks: Vec<usize> = Vec::new();
    let mut cols: usize = 0;
    let mut have_cols = false;
    let mut rs: usize = 0;
    loop
        invariant
            rs <= slen,
            marks@.len() + rows_of(sb@.skip(rs as int), pb@).len() == rows_of(sb@, pb@).len(),
            forall|w: int| 0 <= w < data@.len() ==> (#[trigger] data@[w]).wf(),
            have_cols ==> data@.len() == marks@.len() * cols,
            !have_cols ==> data@.len() == 0 && marks@.len() == 0,
            scan_rows(rows_of(sb@, pb@), -1, Seq::empty()) == scan_rows(
                rows_of(sb@.skip(rs as int), pb@),
                if have_cols {
                    cols as int
                } else {
                    -1
                },
                data@,
            ),
        decreases slen - rs,
    {
        let ghost cols0: int = if have_cols {
            cols as int
        } else {
            -1
        };
        let fm = find_match(sb, pb, rs);
        let re = match fm {
            Some(q) => q,
            None => slen,
        };
        let ghost suffix = sb@.skip(rs as int);
        let ghost row = sb@.subrange(rs as int, re as int);
        proof {
            match fm {
                Some(q) => {
                    assert(suffix.take(q - rs) =~= row);
                    assert(suffix.skip(q - rs + pb@.len()) =~= sb@.skip(q + pb@.len()));
                    assert(rows_of(suffix, pb@) == seq![row] + rows_of(
                        sb@.skip(q + pb@.len()),
                        pb@,
                    ));
                },
                None => {
                    assert(row =~= suffix);
                    assert(rows_of(suffix, pb@) == seq![suffix]);
                },
            }
            assert(rows_of(suffix, pb@)[0] == row);
        }
        // Parse the tokens of the row `sb[rs..re)`.
        let ghost base = data@;
        let ghost d0 = data@.len();
        let mut read: usize = 0;
        let mut t = rs;
        proof {
            assert(data@.skip(d0 as int) =~= Seq::<Entry>::empty());
            assert(parse_row(tokens_of(row)) matches Ok(vs) ==> data@.skip(d0 as int) + vs
                =~= vs);
        }
        while t < re
            invariant
                rs <= t <= re,
                read <= t - rs,
                data@.len() == d0 + read,
                data@.take(d0 as int) == base,
                forall|w: int| 0 <= w < data@.len() ==> (#[trigger] data@[w]).wf(),
                (parse_row(tokens_of(sb@.subrange(t as int, re as int))) is Err ==> parse_row(
                    tokens_of(row),
                ) == parse_row(tokens_of(sb@.subrange(t as int, re as int)))),
                (parse_row(tokens_of(sb@.subrange(t as int, re as int))) matches Ok(vs)
                    ==> parse_row(tokens_of(row)) == Ok::<Seq<Entry>, MatError>(
                    data@.skip(d0 as int) + vs,
                )),
            decreases re - t,
        {
            let c = sb[t];
            let ghost rrem = sb@.subrange(t as int, re as int);
            if c == 32 || (9 <= c && c <= 13) {
                proof {
                    assert(is_space(rrem[0]));
                    assert(rrem.drop_first() =~= sb@.subrange(t + 1, re as int));
                }
                t += 1;
            } else {
                proof {
                    assert(!is_space(rrem[0]));
                }
                let mut t2 = t + 1;
                while t2 < re && !(sb[t2] == 32 || (9 <= sb[t2] && sb[t2] <= 13))
                    invariant
                        t < t2 <= re,
                        forall|p: int| t <= p < t2 ==> !is_space(#[trigger] sb@[p]),
                    decreases re - t2,
                {
                    t2 += 1;
                }
                proof {
                    assert(forall|p: int| 0 <= p < rrem.len() ==> rrem[p] == sb@[t + p]);
                    lemma_token_end_char(rrem, t2 - t);
                    assert(rrem.take(t2 - t) =~= sb@.subrange(t as int, t2 as int));
                    assert(rrem.skip(t2 - t) =~= sb@.subrange(t2 as int, re as int));
                    assert((seq![sb@.subrange(t as int, t2 as int)] + tokens_of(
                        sb@.subrange(t2 as int, re as int),
                    )).drop_first() =~= tokens_of(sb@.subrange(t2 as int, re as int)));
                    assert(tokens_of(rrem) == seq![sb@.subrange(t as int, t2 as int)]
                        + tokens_of(sb@.subrange(t2 as int, re as int)));
                }
                let tok = parse_token(sb, t, t2);
                match tok {
                    None => {
                        proof {
                            assert(parse_row(tokens_of(rrem)) == Err::<Seq<Entry>, MatError>(
                                MatError::InvalidToken,
                            ));
                            assert(scan_rows(rows_of(suffix, pb@), cols0, base)
                                == Err::<(Seq<Entry>, int), MatError>(MatError::InvalidToken));
                        }
                        return Err(MatError::InvalidToken);
                    },
                    Some(v) => {
                        proof {
                            lemma_parse_tok_wf(sb@.subrange(t as int, t2 as int));
                        }
                        let ghost olddata = data@;
                        data.push(v);
                        proof {
                            assert(data@.take(d0 as int) =~= base);
                            assert(data@.skip(d0 as int) =~= olddata.skip(d0 as int).push(v));
                            assert(parse_row(tokens_of(sb@.subrange(t2 as int, re as int)))
                                matches Ok(vs) ==> olddata.skip(d0 as int) + (seq![v] + vs)
                                =~= data@.skip(d0 as int) + vs);
                        }
                        read += 1;
                        t = t2;
                    },
                }
            }
        }
        // The row is exhausted: its entries are exactly `data@.skip(d0)`.
        let ghost es = data@.skip(d0 as int);
        proof {
            assert(sb@.subrange(re as int, re as int) =~= Seq::<u8>::empty());
            assert(es + Seq::<Entry>::empty() =~= es);
            assert(parse_row(tokens_of(row)) == Ok::<Seq<Entry>, MatError>(es));
            assert(es.len() == read);
        }
        if have_cols && read != cols {
            proof {
                assert(scan_rows(rows_of(suffix, pb@), cols0, base)
                    == Err::<(Seq<Entry>, int), MatError>(MatError::InvalidShape));
            }
            return Err(MatError::InvalidShape);
        }
        if !have_cols {
            cols = read;
            have_cols = true;
        }
        let ghost m0 = marks@.len();
        marks.push(rs);
        proof {
            assert(base + es =~= data@);
            assert(data@.len() == marks@.len() * cols) by (nonlinear_arith)
                requires
                    data@.len() == base.len() + es.len(),
                    es.len() == cols,
                    base.len() == m0 * cols,
                    marks@.len() == m0 + 1,
            ;
        }
        proof {
            assert(parse_row(tokens_of(rows_of(suffix, pb@)[0])) == Ok::<Seq<Entry>, MatError>(
                es,
            ));
            assert(!(cols0 >= 0 && es.len() != cols0));
            assert((if cols0 >= 0 {
                cols0
            } else {
                es.len() as int
            }) == cols as int);
        }
        match fm {
            Some(q) => {
                proof {
                    let rest = rows_of(sb@.skip(q + pb@.len()), pb@);
                    assert((seq![row] + rest).drop_first() =~= rest);
                    assert(rows_of(suffix, pb@).drop_first() == rest);
                    assert(scan_rows(rows_of(suffix, pb@), cols0, base) == scan_rows(
                        rest,
                        cols as int,
                        base + es,
                    ));
                }
                rs = q + plen;
            },
            None => {
                proof {
                    assert((seq![suffix]).drop_first() =~= Seq::<Seq<u8>>::empty());
                    assert(rows_of(suffix, pb@).drop_first() == Seq::<Seq<u8>>::empty());
                    assert(scan_rows(Seq::<Seq<u8>>::empty(), cols as int, base + es)
                        == Ok::<(Seq<Entry>, int), MatError>((base + es, cols as int)));
                    assert(scan_rows(rows_of(suffix, pb@), cols0, base)
                        == Ok::<(Seq<Entry>, int), MatError>((data@, cols as int)));
                }
                return Ok((data, marks.len(), cols));
            },
        }
    }
}

} // verus!
