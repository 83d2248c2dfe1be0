//! Text output: numeric labels with one decimal place, row decoration, and
//! the bottom domain-label line.

use vstd::prelude::*;
use crate::frac::{Frac, Rat, rat_mul, rat_round_even};

verus! {

/// The character of one decimal digit.
pub open spec fn digit_char(d: int) -> char {
    if d == 0 {
        '0'
    } else if d == 1 {
        '1'
    } else if d == 2 {
        '2'
    } else if d == 3 {
        '3'
    } else if d == 4 {
        '4'
    } else if d == 5 {
        '5'
    } else if d == 6 {
        '6'
    } else if d == 7 {
        '7'
    } else if d == 8 {
        '8'
    } else {
        '9'
    }
}

/// The decimal digits of a non-negative number, most significant first.
pub open spec fn digits_of(n: int) -> Seq<char>
    decreases n,
{
    if n < 10 {
        seq![digit_char(n)]
    } else {
        digits_of(n / 10).push(digit_char(n % 10))
    }
}

/// A number of tenths rendered with one decimal place: sign, whole part,
/// point, tenths digit. Ties were already rounded to the even neighbour.
pub open spec fn tenths_text(t: int) -> Seq<char> {
    if t < 0 {
        seq!['-'] + whole_text(-t)
    } else {
        whole_text(t)
    }
}

pub open spec fn whole_text(u: int) -> Seq<char> {
    digits_of(u / 10) + seq!['.', digit_char(u % 10)]
}

/// A rational rendered with one decimal place, the tenths digit rounded to
/// nearest with ties to even.
pub open spec fn fmt1(v: Rat) -> Seq<char> {
    tenths_text(rat_round_even(rat_mul(v, Rat { n: 10, d: 1 })))
}

/// A run of spaces.
pub open spec fn spaces(n: int) -> Seq<char>
    decreases n,
{
    if n <= 0 {
        Seq::empty()
    } else {
        spaces(n - 1).push(' ')
    }
}

/// The digit count of a bounded number.
pub proof fn lemma_digits_len_bound(n: int)
    requires
        0 <= n <= 10_000_000,
    ensures
        1 <= digits_of(n).len() <= n + 1,
    decreases n,
{
    if n >= 10 {
        vstd::arithmetic::div_mod::lemma_fundamental_div_mod(n, 10);
        assert(0 <= n / 10 < n - 1) by (nonlinear_arith)
            requires
                n >= 10,
                n == 10 * (n / 10) + n % 10,
                0 <= n % 10 < 10,
        ;
        lemma_digits_len_bound(n / 10);
    }
}

/// Appends the decimal digits of `n` and returns how many characters that
/// took.
fn push_digits(s: &mut String, n: u64) -> (c: usize)
    requires
        n <= 10_000_000,
    ensures
        final(s)@ == old(s)@ + digits_of(n as int),
        c == digits_of(n as int).len(),
    decreases n,
{
    proof {
        lemma_digits_len_bound(n as int);
    }
    let c0: usize = if n >= 10 {
        proof {
            vstd::arithmetic::div_mod::lemma_fundamental_div_mod(n as int, 10);
        }
        push_digits(s, n / 10)
    } else {
        0
    };
    let d = n % 10;
    proof {
        reveal_strlit("0");
        reveal_strlit("1");
        reveal_strlit("2");
        reveal_strlit("3");
        reveal_strlit("4");
        reveal_strlit("5");
        reveal_strlit("6");
        reveal_strlit("7");
        reveal_strlit("8");
        reveal_strlit("9");
    }
    let ds: &str = if d == 0 {
        "0"
    } else if d == 1 {
        "1"
    } else if d == 2 {
        "2"
    } else if d == 3 {
        "3"
    } else if d == 4 {
        "4"
    } else if d == 5 {
        "5"
    } else if d == 6 {
        "6"
    } else if d == 7 {
        "7"
    } else if d == 8 {
        "8"
    } else {
        "9"
    };
    proof {
        assert(ds@ =~= seq![digit_char(d as int)]);
    }
    s.append(ds);
    proof {
        if n >= 10 {
            assert(digits_of(n as int) == digits_of(n as int / 10).push(digit_char(n as int % 10)));
            assert(final(s)@ =~= old(s)@ + digits_of(n as int));
        } else {
            assert(digits_of(n as int) =~= seq![digit_char(n as int)]);
            assert(final(s)@ =~= old(s)@ + digits_of(n as int));
        }
    }
    c0 + 1
}

/// Renders a small fraction with one decimal place and also returns the
/// character count of the text.
pub fn fmt_f1(f: &Frac) -> (r: (String, usize))
    requires
        f.small(),
    ensures
        r.0@ == fmt1(f@),
        r.1 == fmt1(f@).len(),
{
    let t10 = Frac::new(10 * f.numerator(), f.denominator());
    proof {
        assert(t10@ == rat_mul(f@, Rat { n: 10, d: 1 }));
        assert(crate::frac::rat_le(crate::frac::rat_of_int(-1_000_000), t10@)) by (nonlinear_arith)
            requires
                t10@.n >= -1_000_000,
                t10@.d >= 1,
        ;
        assert(crate::frac::rat_le(t10@, crate::frac::rat_of_int(1_000_000))) by (nonlinear_arith)
            requires
                t10@.n <= 1_000_000,
                t10@.d >= 1,
        ;
        crate::frac::lemma_round_even_bounds(t10@, -1_000_000, 1_000_000);
    }
    let t = t10.round_even_val();
    let mut s = String::new();
    let mut count: usize = 0;
    let a: u64 = if t < 0 {
        proof {
            reveal_strlit("-");
        }
        s.append("-");
        count = 1;
        proof {
            assert("-"@ =~= seq!['-']);
        }
        (-t) as u64
    } else {
        t as u64
    };
    proof {
        vstd::arithmetic::div_mod::lemma_fundamental_div_mod(a as int, 10);
    }
    let c1 = push_digits(&mut s, a / 10);
    proof {
        reveal_strlit(".");
        assert("."@ =~= seq!['.']);
    }
    s.append(".");
    let c2 = push_digits(&mut s, a % 10);
    proof {
        assert(digits_of(a as int % 10) =~= seq![digit_char(a as int % 10)]);
        assert(whole_text(a as int) == digits_of(a as int / 10) + seq![
            '.',
            digit_char(a as int % 10),
        ]);
        assert(s@ =~= (if t < 0 {
            seq!['-'] + whole_text(a as int)
        } else {
            whole_text(a as int)
        }));
        assert(s@ == tenths_text(t as int));
    }
    proof {
        lemma_digits_len_bound(a as int / 10);
        lemma_digits_len_bound(a as int % 10);
    }
    let n = count + c1 + 1 + c2;
    proof {
        assert(n == s@.len());
    }
    (s, n)
}

/// One rendered canvas row with its decoration: the first row carries the
/// upper range bound, the last the lower, each with one decimal place; every
/// row ends with a newline.
pub open spec fn row_line(rows: Seq<Seq<char>>, ymin: Rat, ymax: Rat, i: int) -> Seq<char> {
    rows[i] + (if i == 0 {
        seq![' '] + fmt1(ymax)
    } else if i == rows.len() - 1 {
        seq![' '] + fmt1(ymin)
    } else {
        Seq::empty()
    }) + seq!['\n']
}

/// The first `k` decorated rows, concatenated.
pub open spec fn rows_upto(rows: Seq<Seq<char>>, ymin: Rat, ymax: Rat, k: int) -> Seq<char>
    decreases k,
{
    if k <= 0 {
        Seq::empty()
    } else {
        rows_upto(rows, ymin, ymax, k - 1) + row_line(rows, ymin, ymax, k - 1)
    }
}

/// The bottom line: the lower domain bound left-aligned to half the width,
/// then the upper domain bound.
pub open spec fn xlabel_line(xmin: Rat, xmax: Rat, width: int) -> Seq<char> {
    fmt1(xmin) + spaces(width / 2 - 3 - fmt1(xmin).len()) + fmt1(xmax)
}

/// The full rendered text: every decorated row, then the domain labels.
pub open spec fn display_text(
    rows: Seq<Seq<char>>,
    ymin: Rat,
    ymax: Rat,
    xmin: Rat,
    xmax: Rat,
    width: int,
) -> Seq<char> {
    rows_upto(rows, ymin, ymax, rows.len() as int) + xlabel_line(xmin, xmax, width)
}

/// Decorates the serialized canvas rows with the range bounds and the domain
/// labels.
pub fn decorate_rows(
    rows: &Vec<String>,
    ymin: &Frac,
    ymax: &Frac,
    xmin: &Frac,
    xmax: &Frac,
    width: u32,
) -> (r: String)
    requires
        ymin.small(),
        ymax.small(),
        xmin.small(),
        xmax.small(),
        32 <= width,
    ensures
        r@ == display_text(
            rows@.map_values(|s: String| s@),
            ymin@,
            ymax@,
            xmin@,
            xmax@,
            width as int,
        ),
{
    let ghost rv = rows@.map_values(|s: String| s@);
    let mut out = String::new();
    let mut i: usize = 0;
    while i < rows.len()
        invariant
            i <= rows.len(),
            rv == rows@.map_values(|s: String| s@),
            ymin.small(),
            ymax.small(),
            out@ == rows_upto(rv, ymin@, ymax@, i as int),
        decreases rows.len() - i,
    {
        out.append(rows[i].as_str());
        if i == 0 {
            proof {
                reveal_strlit(" ");
                assert(" "@ =~= seq![' ']);
            }
            out.append(" ");
            let (t, _n) = fmt_f1(ymax);
            out.append(t.as_str());
        } else if i == rows.len() - 1 {
            proof {
                reveal_strlit(" ");
                assert(" "@ =~= seq![' ']);
            }
            out.append(" ");
            let (t, _n) = fmt_f1(ymin);
            out.append(t.as_str());
        }
        proof {
            reveal_strlit("\n");
            assert("\n"@ =~= seq!['\n']);
        }
        out.append("\n");
        proof {
            assert(rv[i as int] == rows@[i as int]@);
            assert(out@ =~= rows_upto(rv, ymin@, ymax@, i as int) + row_line(
                rv,
                ymin@,
                ymax@,
                i as int,
            ));
        }
        i += 1;
    }
    let (l, llen) = fmt_f1(xmin);
    out.append(l.as_str());
    let pad: usize = (width / 2 - 3) as usize;
    let mut have: usize = llen;
    proof {
        reveal_strlit(" ");
        assert(" "@ =~= seq![' ']);
    }
    while have < pad
        invariant
            llen <= have,
            (llen < pad ==> have <= pad),
            (llen >= pad ==> have == llen),
            " "@ =~= seq![' '],
            out@ == rows_upto(rv, ymin@, ymax@, rv.len() as int) + fmt1(xmin@) + spaces(
                have - llen,
            ),
            llen == fmt1(xmin@).len(),
        decreases pad - have,
    {
        out.append(" ");
        have += 1;
        proof {
            assert(spaces(have - llen) =~= spaces(have - llen - 1).push(' '));
            assert(out@ =~= rows_upto(rv, ymin@, ymax@, rv.len() as int) + fmt1(xmin@) + spaces(
                have - llen,
            ));
        }
    }
    let (u, _ul) = fmt_f1(xmax);
    out.append(u.as_str());
    proof {
        if llen >= pad {
            assert(spaces(pad as int - llen as int) =~= Seq::<char>::empty());
            assert(spaces(have - llen) =~= Seq::<char>::empty());
        } else {
            assert(have == pad);
        }
        assert(out@ =~= display_text(rv, ymin@, ymax@, xmin@, xmax@, width as int));
    }
    out
}

/// Joins lines with newlines, without a trailing one.
pub open spec fn joined_lines(rows: Seq<Seq<char>>, k: int) -> Seq<char>
    decreases k,
{
    if k <= 0 {
        Seq::empty()
    } else if k == 1 {
        rows[0]
    } else {
        joined_lines(rows, k - 1) + seq!['\n'] + rows[k - 1]
    }
}

/// Joins the serialized canvas rows with newlines.
pub fn join_rows(rows: &Vec<String>) -> (r: String)
    ensures
        r@ == joined_lines(rows@.map_values(|s: String| s@), rows@.len() as int),
{
    let ghost rv = rows@.map_values(|s: String| s@);
    let mut out = String::new();
    let mut i: usize = 0;
    while i < rows.len()
        invariant
            i <= rows.len(),
            rv == rows@.map_values(|s: String| s@),
            out@ == joined_lines(rv, i as int),
        decreases rows.len() - i,
    {
        if i > 0 {
            proof {
                reveal_strlit("\n");
                assert("\n"@ =~= seq!['\n']);
            }
            out.append("\n");
        }
        out.append(rows[i].as_str());
        proof {
            assert(rv[i as int] == rows@[i as int]@);
            if i == 0 {
                assert(out@ =~= joined_lines(rv, i as int + 1));
            } else {
                assert(out@ =~= joined_lines(rv, i as int + 1));
            }
        }
        i += 1;
    }
    out
}

} // verus!
