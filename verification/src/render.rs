//! The display collaborator, verified: renders a matrix as bracketed rows,
//! with every cell formatted as a space, an optional sign, the entry's value
//! to four decimal places (rounded half away from zero), and the whole cell
//! clipped to a column width of seven characters — `[ 1.1000 0.0000 ]`.

use vstd::prelude::*;

use crate::entry::Entry;

verus! {

/// The decimal digit character for `d`.
pub open spec fn digit_char(d: int) -> char {
    if d == 0 {
        '0'
    } else if d == 1 {
        '1'
    } else if d == 2 {
        '2'
    } else if d == 3 {
        '3'
    } else if d == 4 {
        '4'
    } else if d == 5 {
        '5'
    } else if d == 6 {
        '6'
    } else if d == 7 {
        '7'
    } else if d == 8 {
        '8'
    } else {
        '9'
    }
}

/// The decimal digits of a nonnegative number, most significant first.
pub open spec fn dec_digits(n: int) -> Seq<char>
    decreases n,
{
    if n < 10 {
        seq![digit_char(n)]
    } else {
        dec_digits(n / 10).push(digit_char(n % 10))
    }
}

/// An entry's magnitude scaled to four decimal places and rounded half away
/// from zero: `round(|num| * 10^4 / den)`.
pub open spec fn scaled_s(e: Entry) -> int {
    let a: int = if e.num >= 0 {
        e.num as int
    } else {
        -(e.num as int)
    };
    (2 * a * 10000 + e.den) / (2 * e.den)
}

/// One rendered cell: a space, the sign, the scaled magnitude as
/// `digits.dddd`, clipped to seven characters.
pub open spec fn cell_s(e: Entry) -> Seq<char> {
    let sc = scaled_s(e);
    let sign: Seq<char> = if e.num < 0 {
        seq!['-']
    } else {
        Seq::empty()
    };
    let frac = sc % 10000;
    (seq![' '] + sign + dec_digits(sc / 10000) + seq!['.'] + seq![
        digit_char(frac / 1000),
        digit_char((frac / 100) % 10),
        digit_char((frac / 10) % 10),
        digit_char(frac % 10),
    ]).take(7)
}

/// The cells of row `i` from column `j` on, concatenated.
pub open spec fn row_cells_s(m: int, cells: Seq<Entry>, i: int, j: int) -> Seq<char>
    decreases m - j,
{
    if j < 0 || j >= m {
        Seq::empty()
    } else {
        cell_s(cells[i * m + j]) + row_cells_s(m, cells, i, j + 1)
    }
}

/// One rendered row: its cells between brackets.
pub open spec fn row_s(m: int, cells: Seq<Entry>, i: int) -> Seq<char> {
    seq!['['] + row_cells_s(m, cells, i, 0) + seq![' ', ']']
}

/// The rows from `i` on, each preceded by a line break.
pub open spec fn grid_tail_s(n: int, m: int, cells: Seq<Entry>, i: int) -> Seq<char>
    decreases n - i,
{
    if i >= n {
        Seq::empty()
    } else {
        seq!['\n'] + row_s(m, cells, i) + grid_tail_s(n, m, cells, i + 1)
    }
}

/// A whole rendered `n x m` grid: the rows joined by line breaks.
pub open spec fn grid_s(n: int, m: int, cells: Seq<Entry>) -> Seq<char> {
    if n <= 0 {
        Seq::empty()
    } else {
        row_s(m, cells, 0) + grid_tail_s(n, m, cells, 1)
    }
}

/// Relies on String::from_iter for char: the string collects exactly the
/// given characters.
#[verifier::external_body]
fn chars_to_string(v: Vec<char>) -> (s: String)
    ensures
        s@ == v@,
{
    String::from_iter(v)
}

/// The digit character of a value below ten.
fn digit_of(d: u128) -> (r: char)
    requires
        d < 10,
    ensures
        r == digit_char(d as int),
{
    if d == 0 {
        '0'
    } else if d == 1 {
        '1'
    } else if d == 2 {
        '2'
    } else if d == 3 {
        '3'
    } else if d == 4 {
        '4'
    } else if d == 5 {
        '5'
    } else if d == 6 {
        '6'
    } else if d == 7 {
        '7'
    } else if d == 8 {
        '8'
    } else {
        '9'
    }
}

/// Appends the decimal digits of `n` to `out`.
#[verifier::loop_isolation(false)]
fn push_dec(out: &mut Vec<char>, n: u128)
    ensures
        final(out)@ == old(out)@ + dec_digits(n as int),
{
    let ghost base = out@;
    let mut tmp: Vec<char> = Vec::new();
    let mut x = n;
    while x >= 10
        invariant
            dec_digits(n as int) == dec_digits(x as int) + tmp@.reverse(),
        decreases x,
    {
        let d = x % 10;
        let ghost oldtmp = tmp@;
        tmp.push(digit_of(d));
        proof {
            assert(tmp@.reverse() =~= seq![digit_char(d as int)] + oldtmp.reverse());
            assert(dec_digits((x / 10) as int) + tmp@.reverse() =~= (dec_digits(
                (x / 10) as int,
            ).push(digit_char(d as int))) + oldtmp.reverse());
        }
        x = x / 10;
    }
    out.push(digit_of(x));
    proof {
        assert(dec_digits(x as int) == seq![digit_char(x as int)]);
        assert(out@ =~= base + (dec_digits(n as int)).take(1));
    }
    let len = tmp.len();
    let mut idx: usize = 0;
    while idx < len
        invariant
            idx <= len,
            out@ == base + (dec_digits(n as int)).take(1 + idx as int),
        decreases len - idx,
    {
        out.push(tmp[len - 1 - idx]);
        proof {
            assert(dec_digits(n as int)[1 + idx as int] == tmp@.reverse()[idx as int]);
            assert(out@ =~= base + (dec_digits(n as int)).take(1 + idx as int + 1));
        }
        idx += 1;
    }
    proof {
        assert((dec_digits(n as int)).take(1 + len as int) =~= dec_digits(n as int));
    }
}

/// Appends the rendered cell of `e` to `out`.
#[verifier::loop_isolation(false)]
fn push_cell(out: &mut Vec<char>, e: Entry)
    requires
        e.wf(),
    ensures
        final(out)@ == old(out)@ + cell_s(e),
{
    let mut cell: Vec<char> = Vec::new();
    cell.push(' ');
    if e.num < 0 {
        cell.push('-');
    }
    let a: u128 = if e.num < 0 {
        (-e.num) as u128
    } else {
        e.num as u128
    };
    let den = e.den as u128;
    let sc: u128 = (2 * a * 10000 + den) / (2 * den);
    proof {
        assert(sc == scaled_s(e));
    }
    let whole = sc / 10000;
    let frac = sc % 10000;
    push_dec(&mut cell, whole);
    cell.push('.');
    cell.push(digit_of(frac / 1000));
    cell.push(digit_of((frac / 100) % 10));
    cell.push(digit_of((frac / 10) % 10));
    cell.push(digit_of(frac % 10));
    proof {
        let full = seq![' '] + (if e.num < 0 {
            seq!['-']
        } else {
            Seq::<char>::empty()
        }) + dec_digits(scaled_s(e) / 10000) + seq!['.'] + seq![
            digit_char((scaled_s(e) % 10000) / 1000),
            digit_char(((scaled_s(e) % 10000) / 100) % 10),
            digit_char(((scaled_s(e) % 10000) / 10) % 10),
            digit_char((scaled_s(e) % 10000) % 10),
        ];
        assert(cell@ =~= full);
        assert(dec_digits(scaled_s(e) / 10000).len() >= 1) by {
            if scaled_s(e) / 10000 >= 10 {
            }
        }
    }
    cell.truncate(7);
    proof {
        assert(cell@ == cell_s(e));
    }
    out.append(&mut cell);
}

/// Renders an `n x m` grid of cells, given in row-major order, as bracketed
/// rows joined by line breaks.
#[verifier::loop_isolation(false)]
pub fn render_grid(n: usize, m: usize, cells: &Vec<Entry>) -> (r: String)
    requires
        cells@.len() == n * m,
        forall|k: int| 0 <= k < cells@.len() ==> (#[trigger] cells@[k]).wf(),
    ensures
        r@ == grid_s(n as int, m as int, cells@),
{
    let total = cells.len();
    let mut out: Vec<char> = Vec::new();
    let mut i: usize = 0;
    while i < n
        invariant
            i <= n,
            i == 0 ==> out@ == Seq::<char>::empty(),
            i >= 1 ==> grid_s(n as int, m as int, cells@) == out@ + grid_tail_s(
                n as int,
                m as int,
                cells@,
                i as int,
            ),
        decreases n - i,
    {
        let ghost rowbase = out@;
        if i > 0 {
            out.push('\n');
        }
        out.push('[');
        let ghost sep: Seq<char> = if i > 0 {
            seq!['\n']
        } else {
            Seq::empty()
        };
        proof {
            assert(out@ + row_cells_s(m as int, cells@, i as int, 0) + seq![' ', ']'] =~= rowbase
                + sep + row_s(m as int, cells@, i as int));
        }
        let mut j: usize = 0;
        while j < m
            invariant
                j <= m,
                out@ + row_cells_s(m as int, cells@, i as int, j as int) + seq![' ', ']']
                    =~= rowbase + sep + row_s(m as int, cells@, i as int),
            decreases m - j,
        {
            proof {
                assert(0 <= i * m + j < n * m) by (nonlinear_arith)
                    requires
                        0 <= i < n,
                        0 <= j < m,
                ;
            }
            let ghost preout = out@;
            push_cell(&mut out, cells[i * m + j]);
            proof {
                assert(preout + (cell_s(cells@[i * m + j]) + row_cells_s(
                    m as int,
                    cells@,
                    i as int,
                    j + 1,
                )) + seq![' ', ']'] =~= out@ + row_cells_s(m as int, cells@, i as int, j + 1)
                    + seq![' ', ']']);
            }
            j += 1;
        }
        out.push(' ');
        out.push(']');
        proof {
            assert(out@ =~= rowbase + sep + row_s(m as int, cells@, i as int));
            if i == 0 {
                assert(grid_s(n as int, m as int, cells@) =~= out@ + grid_tail_s(
                    n as int,
                    m as int,
                    cells@,
                    1,
                ));
            } else {
                assert(rowbase + (seq!['\n'] + row_s(m as int, cells@, i as int) + grid_tail_s(
                    n as int,
                    m as int,
                    cells@,
                    i + 1,
                )) =~= out@ + grid_tail_s(n as int, m as int, cells@, i + 1));
            }
        }
        i += 1;
    }
    proof {
        if n > 0 {
            assert(grid_s(n as int, m as int, cells@) =~= out@);
        }
    }
    chars_to_string(out)
}

} // verus!
