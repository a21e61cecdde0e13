//! The grammar of a monetary expression, and the number it denotes.
//!
//! An expression is a sum of decimal literals separated by `+`. One leading
//! `-` negates the whole sum. Parentheses are decoration: they are dropped
//! wherever they stand. White space around a term is ignored, and an empty
//! term counts as zero. The sum is taken exactly, then rounded to hundredths,
//! half away from zero.

use vstd::prelude::*;
use crate::columns::{
    fit, lemma_weigh_bound, lemma_weigh_update, round_half_away, settle, weigh,
};
use crate::decimal::{
    all_digits, digit_value, digits_value, first_dot, frac_digits, int_digits, is_blank,
    is_decimal, is_digit, is_negative, lemma_first_dot_bounds, lemma_first_dot_is, magnitude,
    pow10, scaled_value, trim, trim_end, trim_start,
};
use crate::error::ParseError;
use crate::money::MAX_TYPED_CENTS;

verus! {

pub open spec fn is_paren(c: char) -> bool {
    c == '(' || c == ')'
}

/// `s` without its parentheses.
pub open spec fn strip_parens(s: Seq<char>) -> Seq<char>
    decreases s.len(),
{
    if s.len() == 0 {
        s
    } else if is_paren(s.last()) {
        strip_parens(s.drop_last())
    } else {
        strip_parens(s.drop_last()).push(s.last())
    }
}

/// The pieces of `s` between its `+` signs, in order. There is always at
/// least one piece, and a piece may be empty.
pub open spec fn split_terms(s: Seq<char>) -> Seq<Seq<char>>
    decreases s.len(),
{
    if s.len() == 0 {
        seq![Seq::empty()]
    } else {
        let before = split_terms(s.drop_last());
        if s.last() == '+' {
            before.push(Seq::empty())
        } else {
            before.drop_last().push(before.last().push(s.last()))
        }
    }
}

/// The terms of an expression body that holds no parentheses, each trimmed.
pub open spec fn trimmed_terms(stripped: Seq<char>) -> Seq<Seq<char>> {
    Seq::new(split_terms(stripped).len(), |k: int| trim(split_terms(stripped)[k]))
}

/// The terms of an expression body.
pub open spec fn terms(body: Seq<char>) -> Seq<Seq<char>> {
    trimmed_terms(strip_parens(body))
}

/// A term is sound when it is empty or a decimal literal.
pub open spec fn term_ok(t: Seq<char>) -> bool {
    t.len() == 0 || is_decimal(t)
}

pub open spec fn all_ok(ts: Seq<Seq<char>>) -> bool {
    forall|k: int| 0 <= k < ts.len() ==> term_ok(#[trigger] ts[k])
}

/// The number of fractional digits of the finest term, and no less than two.
pub open spec fn finest(ts: Seq<Seq<char>>) -> nat
    decreases ts.len(),
{
    if ts.len() == 0 {
        2
    } else {
        let f = finest(ts.drop_last());
        let g = frac_digits(ts.last()).len();
        if g > f {
            g
        } else {
            f
        }
    }
}

/// The exact sum of the terms, as a count of `10^-scale` units.
pub open spec fn total(ts: Seq<Seq<char>>, scale: nat) -> int
    decreases ts.len(),
{
    if ts.len() == 0 {
        0
    } else {
        total(ts.drop_last(), scale) + scaled_value(ts.last(), scale)
    }
}

/// The sum of the terms in hundredths, rounded half away from zero.
pub open spec fn sum_rounded(ts: Seq<Seq<char>>) -> int {
    round_half_away(total(ts, finest(ts)), pow10((finest(ts) - 2) as nat))
}

/// What an expression body is worth, in hundredths, before any leading
/// minus is applied and before the result is held to its range.
pub open spec fn body_value(body: Seq<char>) -> Result<int, ParseError> {
    if all_ok(terms(body)) {
        Ok(sum_rounded(terms(body)))
    } else {
        Err(ParseError::MalformedTerm)
    }
}

/// The body of an expression: what follows its leading minus, if it has one.
pub open spec fn body_of(s: Seq<char>) -> Seq<char> {
    if is_negative(s) {
        s.skip(1)
    } else {
        s
    }
}

/// What the expression `s` is worth, in hundredths.
pub open spec fn parse_model(s: Seq<char>) -> Result<int, ParseError> {
    match body_value(body_of(s)) {
        Err(e) => Err(e),
        Ok(v) => {
            let c = if is_negative(s) {
                -v
            } else {
                v
            };
            if -MAX_TYPED_CENTS <= c <= MAX_TYPED_CENTS {
                Ok(c)
            } else {
                Err(ParseError::OutOfRange)
            }
        },
    }
}

/// The characters of `s`, one by one.
pub fn chars_of(s: &str) -> (v: Vec<char>)
    ensures
        v@ == s@,
{
    let mut v: Vec<char> = Vec::new();
    for c in it: s.chars()
        invariant
            v@ == it.seq().take(it.index() as int),
            it.seq() == s@,
    {
        v.push(c);
    }
    v
}

fn blank(c: char) -> (r: bool)
    ensures
        r == is_blank(c),
{
    ('\u{9}' <= c && c <= '\u{d}') || c == ' ' || c == '\u{85}' || c == '\u{a0}' || c
        == '\u{1680}' || ('\u{2000}' <= c && c <= '\u{200a}') || c == '\u{2028}' || c
        == '\u{2029}' || c == '\u{202f}' || c == '\u{205f}' || c == '\u{3000}'
}

/// The value of the digit `c`, if it is one.
fn digit_of(c: char) -> (r: Option<u8>)
    ensures
        r is Some <==> is_digit(c),
        r is Some ==> r->0 == digit_value(c),
{
    if '0' <= c && c <= '9' {
        Some((c as u32 - 48) as u8)
    } else {
        None
    }
}

/// Copies `chars` from index `from` on, leaving out the parentheses.
fn without_parens(chars: &Vec<char>, from: usize) -> (out: Vec<char>)
    requires
        from <= chars.len(),
    ensures
        out@ == strip_parens(chars@.skip(from as int)),
{
    let mut out: Vec<char> = Vec::new();
    let mut i: usize = from;
    proof {
        assert(chars@.subrange(from as int, from as int) =~= Seq::<char>::empty());
    }
    while i < chars.len()
        invariant
            from <= i <= chars.len(),
            out@ == strip_parens(chars@.subrange(from as int, i as int)),
        decreases chars.len() - i,
    {
        let c = chars[i];
        proof {
            let next = chars@.subrange(from as int, i as int + 1);
            assert(next.drop_last() =~= chars@.subrange(from as int, i as int));
            assert(next.last() == c);
        }
        if c != '(' && c != ')' {
            out.push(c);
        }
        i = i + 1;
    }
    proof {
        assert(chars@.subrange(from as int, chars.len() as int) =~= chars@.skip(from as int));
    }
    out
}

/// Narrows the range `lo..hi` of `b` to what is left after trimming.
fn trim_span(b: &Vec<char>, lo: usize, hi: usize) -> (r: (usize, usize))
    requires
        lo <= hi <= b.len(),
    ensures
        lo <= r.0 <= r.1 <= hi,
        b@.subrange(r.0 as int, r.1 as int) == trim(b@.subrange(lo as int, hi as int)),
{
    let mut a: usize = lo;
    while a < hi && blank(b[a])
        invariant
            lo <= a <= hi <= b.len(),
            trim_start(b@.subrange(lo as int, hi as int)) == trim_start(
                b@.subrange(a as int, hi as int),
            ),
        decreases hi - a,
    {
        proof {
            let cur = b@.subrange(a as int, hi as int);
            assert(cur[0] == b[a as int]);
            assert(cur.skip(1) =~= b@.subrange(a as int + 1, hi as int));
        }
        a = a + 1;
    }
    proof {
        let cur = b@.subrange(a as int, hi as int);
        if a < hi {
            assert(cur[0] == b[a as int]);
        }
        assert(trim_start(cur) == cur);
    }
    let mut e: usize = hi;
    while e > a && blank(b[e - 1])
        invariant
            a <= e <= hi <= b.len(),
            trim_end(b@.subrange(a as int, hi as int)) == trim_end(
                b@.subrange(a as int, e as int),
            ),
        decreases e,
    {
        proof {
            let cur = b@.subrange(a as int, e as int);
            assert(cur.last() == b[e as int - 1]);
            assert(cur.drop_last() =~= b@.subrange(a as int, e as int - 1));
        }
        e = e - 1;
    }
    proof {
        let cur = b@.subrange(a as int, e as int);
        if e > a {
            assert(cur.last() == b[e as int - 1]);
        }
        assert(trim_end(cur) == cur);
    }
    (a, e)
}

/// Where each term of `b` lies, after trimming.
fn term_spans(b: &Vec<char>) -> (spans: Vec<(usize, usize)>)
    ensures
        spans.len() == trimmed_terms(b@).len(),
        forall|k: int|
            0 <= k < spans.len() ==> {
                &&& (#[trigger] spans[k]).0 <= spans[k].1 <= b.len()
                &&& b@.subrange(spans[k].0 as int, spans[k].1 as int) == trimmed_terms(b@)[k]
            },
{
    let mut spans: Vec<(usize, usize)> = Vec::new();
    let mut start: usize = 0;
    let mut i: usize = 0;
    let ghost mut done: Seq<Seq<char>> = Seq::empty();
    proof {
        assert(b@.take(0) =~= Seq::<char>::empty());
        assert(b@.subrange(0, 0) =~= Seq::<char>::empty());
        assert(split_terms(Seq::<char>::empty()) =~= done.push(Seq::<char>::empty()));
    }
    while i < b.len()
        invariant
            start <= i <= b.len(),
            split_terms(b@.take(i as int)) == done.push(b@.subrange(start as int, i as int)),
            spans.len() == done.len(),
            forall|k: int|
                0 <= k < spans.len() ==> {
                    &&& (#[trigger] spans[k]).0 <= spans[k].1 <= b.len()
                    &&& b@.subrange(spans[k].0 as int, spans[k].1 as int) == trim(done[k])
                },
        decreases b.len() - i,
    {
        let c = b[i];
        proof {
            let next = b@.take(i as int + 1);
            assert(next.drop_last() =~= b@.take(i as int));
            assert(next.last() == c);
            let before = split_terms(b@.take(i as int));
            assert(before.last() == b@.subrange(start as int, i as int));
            assert(before.drop_last() =~= done);
            assert(b@.subrange(start as int, i as int).push(c) =~= b@.subrange(
                start as int,
                i as int + 1,
            ));
            assert(b@.subrange(i as int + 1, i as int + 1) =~= Seq::<char>::empty());
        }
        if c == '+' {
            let span = trim_span(b, start, i);
            spans.push(span);
            proof {
                done = done.push(b@.subrange(start as int, i as int));
            }
            start = i + 1;
        }
        i = i + 1;
    }
    let span = trim_span(b, start, i);
    spans.push(span);
    proof {
        assert(b@.take(b.len() as int) =~= b@);
        let all = done.push(b@.subrange(start as int, i as int));
        assert(split_terms(b@) == all);
        assert forall|k: int| 0 <= k < spans.len() implies b@.subrange(
            (#[trigger] spans[k]).0 as int,
            spans[k].1 as int,
        ) == trimmed_terms(b@)[k] by {
            assert(trimmed_terms(b@)[k] == trim(all[k]));
        }
    }
    spans
}

/// Where the parts of one term lie in the text.
struct Literal {
    negative: bool,
    int_lo: usize,
    int_hi: usize,
    frac_lo: usize,
    frac_hi: usize,
}

/// `lit` points at the digits of the sound term `t` inside `b`.
spec fn reads(lit: Literal, b: Seq<char>, t: Seq<char>) -> bool {
    &&& lit.int_lo <= lit.int_hi <= lit.frac_lo <= lit.frac_hi <= b.len()
    &&& lit.negative == is_negative(t)
    &&& b.subrange(lit.int_lo as int, lit.int_hi as int) == int_digits(t)
    &&& b.subrange(lit.frac_lo as int, lit.frac_hi as int) == frac_digits(t)
    &&& all_digits(int_digits(t))
    &&& all_digits(frac_digits(t))
}

/// `spans` gives the place in `b` of each of its trimmed terms.
spec fn spans_fit(spans: Seq<(usize, usize)>, b: Seq<char>) -> bool {
    &&& spans.len() == trimmed_terms(b).len()
    &&& forall|k: int|
        0 <= k < spans.len() ==> {
            &&& (#[trigger] spans[k]).0 <= spans[k].1 <= b.len()
            &&& b.subrange(spans[k].0 as int, spans[k].1 as int) == trimmed_terms(b)[k]
        }
}

/// Index of the first character at or after `from`, before `hi`, that is no
/// digit; `hi` if there is none.
fn skip_digits(b: &Vec<char>, from: usize, hi: usize) -> (i: usize)
    requires
        from <= hi <= b.len(),
    ensures
        from <= i <= hi,
        forall|k: int| from <= k < i ==> is_digit(#[trigger] b[k]),
        i < hi ==> !is_digit(b[i as int]),
{
    let mut i: usize = from;
    while i < hi && digit_of(b[i]).is_some()
        invariant
            from <= i <= hi <= b.len(),
            forall|k: int| from <= k < i ==> is_digit(#[trigger] b[k]),
        decreases hi - i,
    {
        i = i + 1;
    }
    i
}

/// Reads the term at `lo..hi` of `b`: where its digits lie, if it is sound.
fn scan_literal(b: &Vec<char>, lo: usize, hi: usize) -> (r: Option<Literal>)
    requires
        lo <= hi <= b.len(),
    ensures
        r is Some <==> term_ok(b@.subrange(lo as int, hi as int)),
        r is Some ==> reads(r->0, b@, b@.subrange(lo as int, hi as int)),
{
    let ghost t = b@.subrange(lo as int, hi as int);
    if lo == hi {
        proof {
            assert(int_digits(t) =~= Seq::<char>::empty());
            assert(frac_digits(t) =~= Seq::<char>::empty());
            assert(b@.subrange(lo as int, lo as int) =~= Seq::<char>::empty());
        }
        return Some(Literal { negative: false, int_lo: lo, int_hi: lo, frac_lo: lo, frac_hi: lo });
    }
    let first = b[lo];
    let negative = first == '-';
    let a: usize = if first == '-' || first == '+' {
        lo + 1
    } else {
        lo
    };
    let ghost u = b@.subrange(a as int, hi as int);
    proof {
        assert(t[0] == first);
        assert(magnitude(t) =~= u);
        lemma_first_dot_bounds(u);
    }
    let i = skip_digits(b, a, hi);
    if i == hi {
        proof {
            assert forall|k: int| 0 <= k < i - a implies #[trigger] u[k] != '.' by {
                assert(is_digit(b[a + k]));
            }
            lemma_first_dot_is(u, i - a);
            assert(int_digits(t) =~= u);
            assert(frac_digits(t) =~= Seq::<char>::empty());
            assert(b@.subrange(hi as int, hi as int) =~= Seq::<char>::empty());
            assert forall|k: int| 0 <= k < u.len() implies is_digit(#[trigger] u[k]) by {
                assert(is_digit(b[a + k]));
            }
        }
        if i > a {
            Some(Literal { negative, int_lo: a, int_hi: hi, frac_lo: hi, frac_hi: hi })
        } else {
            None
        }
    } else if b[i] == '.' {
        let j = skip_digits(b, i + 1, hi);
        proof {
            assert forall|k: int| 0 <= k < i - a implies #[trigger] u[k] != '.' by {
                assert(is_digit(b[a + k]));
            }
            assert(u[i - a] == b[i as int]);
            lemma_first_dot_is(u, i - a);
            assert(int_digits(t) =~= b@.subrange(a as int, i as int));
            assert(frac_digits(t) =~= b@.subrange(i as int + 1, hi as int));
            assert forall|k: int| 0 <= k < i - a implies is_digit(#[trigger] int_digits(t)[k]) by {
                assert(is_digit(b[a + k]));
            }
            if j == hi {
                assert forall|k: int| 0 <= k < hi - i - 1 implies is_digit(
                    #[trigger] frac_digits(t)[k],
                ) by {
                    assert(is_digit(b[i + 1 + k]));
                }
            } else {
                assert(frac_digits(t)[j - i - 1] == b[j as int]);
            }
        }
        if j == hi && hi - a > 1 {
            Some(Literal { negative, int_lo: a, int_hi: i, frac_lo: i + 1, frac_hi: hi })
        } else {
            None
        }
    } else {
        proof {
            let fd = first_dot(u);
            if fd <= i - a {
                if fd < i - a {
                    assert(is_digit(b[a + fd]));
                }
                assert(u[fd] == b[a + fd]);
            }
            assert(int_digits(t)[i - a] == b[i as int]);
        }
        None
    }
}

/// Reads every term of `b`. On success: where each term's digits lie, the
/// most integer digits that any term has, and the most fractional digits,
/// counted as two at least.
fn measure(b: &Vec<char>, spans: &Vec<(usize, usize)>) -> (r: Option<(Vec<Literal>, usize, usize)>)
    requires
        spans_fit(spans@, b@),
    ensures
        r is Some <==> all_ok(trimmed_terms(b@)),
        r is Some ==> {
            let (lits, int_width, frac_width) = r->0;
            &&& lits.len() == spans.len()
            &&& frac_width == finest(trimmed_terms(b@))
            &&& frac_width >= 2
            &&& forall|k: int|
                0 <= k < lits.len() ==> {
                    &&& reads(#[trigger] lits[k], b@, trimmed_terms(b@)[k])
                    &&& lits[k].int_hi - lits[k].int_lo <= int_width
                    &&& lits[k].frac_hi - lits[k].frac_lo <= frac_width
                }
        },
{
    let ghost ts = trimmed_terms(b@);
    let mut lits: Vec<Literal> = Vec::new();
    let mut int_width: usize = 0;
    let mut frac_width: usize = 2;
    let mut i: usize = 0;
    proof {
        assert(ts.take(0) =~= Seq::<Seq<char>>::empty());
    }
    while i < spans.len()
        invariant
            i <= spans.len(),
            spans_fit(spans@, b@),
            ts == trimmed_terms(b@),
            lits.len() == i,
            frac_width == finest(ts.take(i as int)),
            frac_width >= 2,
            forall|k: int| 0 <= k < i ==> term_ok(#[trigger] ts[k]),
            forall|k: int|
                0 <= k < i ==> {
                    &&& reads(#[trigger] lits[k], b@, ts[k])
                    &&& lits[k].int_hi - lits[k].int_lo <= int_width
                    &&& lits[k].frac_hi - lits[k].frac_lo <= frac_width
                },
        decreases spans.len() - i,
    {
        let span = spans[i];
        proof {
            assert(ts.take(i as int + 1).drop_last() =~= ts.take(i as int));
            assert(ts.take(i as int + 1).last() == ts[i as int]);
        }
        match scan_literal(b, span.0, span.1) {
            None => {
                return None;
            },
            Some(lit) => {
                if lit.int_hi - lit.int_lo > int_width {
                    int_width = lit.int_hi - lit.int_lo;
                }
                if lit.frac_hi - lit.frac_lo > frac_width {
                    frac_width = lit.frac_hi - lit.frac_lo;
                }
                lits.push(lit);
            },
        }
        i = i + 1;
    }
    proof {
        assert(ts.take(spans.len() as int) =~= ts);
    }
    Some((lits, int_width, frac_width))
}

/// Adds the term `t`, read by `lit`, into the columns, digit by digit. The
/// first `int_width` columns are for whole units, the others for fractions.
fn add_term(
    cols: &mut Vec<i128>,
    b: &Vec<char>,
    lit: &Literal,
    int_width: usize,
    count: usize,
    Ghost(t): Ghost<Seq<char>>,
)
    requires
        reads(*lit, b@, t),
        int_width <= old(cols).len(),
        lit.int_hi - lit.int_lo <= int_width,
        lit.frac_hi - lit.frac_lo <= old(cols).len() - int_width,
        count < usize::MAX,
        forall|p: int|
            0 <= p < old(cols).len() ==> -9 * count <= #[trigger] old(cols)[p] <= 9 * count,
    ensures
        final(cols).len() == old(cols).len(),
        weigh(final(cols)@) == weigh(old(cols)@) + scaled_value(
            t,
            (old(cols).len() - int_width) as nat,
        ),
        forall|p: int|
            0 <= p < final(cols).len() ==> -9 * (count + 1) <= #[trigger] final(cols)[p] <= 9 * (
            count + 1),
{
    let n = cols.len();
    let int_len = lit.int_hi - lit.int_lo;
    let frac_len = lit.frac_hi - lit.frac_lo;
    let ghost base = weigh(cols@);
    let ghost fw = n - int_width;
    let ghost ints = int_digits(t);
    let ghost fracs = frac_digits(t);
    let ghost sgn: int = if lit.negative {
        -1
    } else {
        1
    };
    let mut k: usize = 0;
    proof {
        assert(ints.take(0) =~= Seq::<char>::empty());
        assert(sgn * (0 * pow10((int_len + fw) as nat)) == 0) by (nonlinear_arith);
    }
    while k < int_len
        invariant
            k <= int_len,
            cols.len() == n,
            n == int_width + fw,
            fw >= 0,
            int_len == lit.int_hi - lit.int_lo,
            int_len <= int_width,
            reads(*lit, b@, t),
            ints == int_digits(t),
            sgn == if lit.negative { -1int } else { 1int },
            count < usize::MAX,
            weigh(cols@) == base + sgn * (digits_value(ints.take(k as int)) * pow10(
                (int_len - k + fw) as nat,
            )),
            forall|p: int| 0 <= p < n ==> -9 * count - 9 <= #[trigger] cols[p] <= 9 * count + 9,
            forall|p: int|
                int_width - int_len + k <= p < n ==> -9 * count <= #[trigger] cols[p] <= 9 * count,
        decreases int_len - k,
    {
        let c = b[lit.int_lo + k];
        let p: usize = int_width - int_len + k;
        let d: i128 = match digit_of(c) {
            Some(d) => d as i128,
            None => 0,
        };
        let y: i128 = if lit.negative {
            cols[p] - d
        } else {
            cols[p] + d
        };
        proof {
            assert(ints[k as int] == c);
            assert(is_digit(ints[k as int]));
            assert(ints.take(k as int + 1).drop_last() =~= ints.take(k as int));
            assert(ints.take(k as int + 1).last() == c);
            lemma_weigh_update(cols@, p as int, y);
            let a = digits_value(ints.take(k as int));
            let w = pow10((int_len - k - 1 + fw) as nat);
            let w10 = pow10((int_len - k + fw) as nat);
            let dv = digit_value(c);
            assert(w10 == 10 * w);
            assert(n - 1 - p == int_len - k - 1 + fw);
            assert(y - cols[p as int] == sgn * dv);
            assert(sgn * (a * w10) + (sgn * dv) * w == sgn * ((a * 10 + dv) * w))
                by (nonlinear_arith)
                requires
                    w10 == 10 * w,
            ;
        }
        cols.set(p, y);
        k = k + 1;
    }
    let mut j: usize = 0;
    proof {
        assert(ints.take(int_len as int) =~= ints);
        assert(fracs.take(0) =~= Seq::<char>::empty());
        assert(ints + Seq::<char>::empty() =~= ints);
    }
    while j < frac_len
        invariant
            j <= frac_len,
            cols.len() == n,
            n == int_width + fw,
            frac_len == lit.frac_hi - lit.frac_lo,
            frac_len <= fw,
            reads(*lit, b@, t),
            ints == int_digits(t),
            fracs == frac_digits(t),
            sgn == if lit.negative { -1int } else { 1int },
            count < usize::MAX,
            weigh(cols@) == base + sgn * (digits_value(ints + fracs.take(j as int)) * pow10(
                (fw - j) as nat,
            )),
            forall|p: int| 0 <= p < n ==> -9 * count - 9 <= #[trigger] cols[p] <= 9 * count + 9,
            forall|p: int|
                int_width + j <= p < n ==> -9 * count <= #[trigger] cols[p] <= 9 * count,
        decreases frac_len - j,
    {
        let c = b[lit.frac_lo + j];
        let p: usize = int_width + j;
        let d: i128 = match digit_of(c) {
            Some(d) => d as i128,
            None => 0,
        };
        let y: i128 = if lit.negative {
            cols[p] - d
        } else {
            cols[p] + d
        };
        proof {
            assert(fracs[j as int] == c);
            assert(is_digit(fracs[j as int]));
            let prefix = ints + fracs.take(j as int);
            let longer = ints + fracs.take(j as int + 1);
            assert(longer.drop_last() =~= prefix);
            assert(longer.last() == c);
            lemma_weigh_update(cols@, p as int, y);
            let a = digits_value(prefix);
            let w = pow10((fw - j - 1) as nat);
            let w10 = pow10((fw - j) as nat);
            let dv = digit_value(c);
            assert(w10 == 10 * w);
            assert(n - 1 - p == fw - j - 1);
            assert(y - cols[p as int] == sgn * dv);
            assert(sgn * (a * w10) + (sgn * dv) * w == sgn * ((a * 10 + dv) * w))
                by (nonlinear_arith)
                requires
                    w10 == 10 * w,
            ;
        }
        cols.set(p, y);
        j = j + 1;
    }
    proof {
        assert(fracs.take(frac_len as int) =~= fracs);
        let units = digits_value(ints + fracs) * pow10((fw - frac_len) as nat);
        assert(sgn * units == scaled_value(t, fw as nat)) by (nonlinear_arith)
            requires
                scaled_value(t, fw as nat) == if lit.negative { -units } else { units },
                sgn == if lit.negative { -1int } else { 1int },
        ;
    }
}

/// What the terms of `b` are worth together, in hundredths.
fn evaluate(b: &Vec<char>) -> (r: Result<i64, ParseError>)
    ensures
        !all_ok(trimmed_terms(b@)) ==> r == Err::<i64, ParseError>(ParseError::MalformedTerm),
        all_ok(trimmed_terms(b@)) ==> r == match fit(sum_rounded(trimmed_terms(b@))) {
            Some(c) => Ok::<i64, ParseError>(c),
            None => Err(ParseError::OutOfRange),
        },
{
    let ghost ts = trimmed_terms(b@);
    let spans = term_spans(b);
    let (lits, int_width, frac_width) = match measure(b, &spans) {
        None => {
            return Err(ParseError::MalformedTerm);
        },
        Some(m) => m,
    };
    let mut cols: Vec<i128> = Vec::new();
    let mut z: usize = 0;
    while z < int_width
        invariant
            z <= int_width,
            cols.len() == z,
            forall|p: int| 0 <= p < cols.len() ==> #[trigger] cols[p] == 0,
        decreases int_width - z,
    {
        cols.push(0);
        z = z + 1;
    }
    z = 0;
    while z < frac_width
        invariant
            z <= frac_width,
            cols.len() == int_width + z,
            forall|p: int| 0 <= p < cols.len() ==> #[trigger] cols[p] == 0,
        decreases frac_width - z,
    {
        cols.push(0);
        z = z + 1;
    }
    let mut i: usize = 0;
    proof {
        lemma_weigh_bound(cols@, 0);
        assert(ts.take(0) =~= Seq::<Seq<char>>::empty());
    }
    while i < lits.len()
        invariant
            i <= lits.len(),
            lits.len() == spans.len(),
            ts == trimmed_terms(b@),
            ts.len() == lits.len(),
            cols.len() == int_width + frac_width,
            frac_width >= 2,
            forall|k: int|
                0 <= k < lits.len() ==> {
                    &&& reads(#[trigger] lits[k], b@, ts[k])
                    &&& lits[k].int_hi - lits[k].int_lo <= int_width
                    &&& lits[k].frac_hi - lits[k].frac_lo <= frac_width
                },
            weigh(cols@) == total(ts.take(i as int), frac_width as nat),
            forall|p: int| 0 <= p < cols.len() ==> -9 * i <= #[trigger] cols[p] <= 9 * i,
        decreases lits.len() - i,
    {
        proof {
            assert(ts.take(i as int + 1).drop_last() =~= ts.take(i as int));
            assert(ts.take(i as int + 1).last() == ts[i as int]);
        }
        add_term(&mut cols, b, &lits[i], int_width, i, Ghost(ts[i as int]));
        i = i + 1;
    }
    proof {
        assert(ts.take(lits.len() as int) =~= ts);
    }
    match settle(&cols, int_width + 2, lits.len()) {
        Some(c) => Ok(c),
        None => Err(ParseError::OutOfRange),
    }
}

/// What the expression spelled by `chars` is worth, in hundredths.
pub fn evaluate_expression(chars: &Vec<char>) -> (r: Result<i64, ParseError>)
    ensures
        r == match parse_model(chars@) {
            Ok(c) => Ok::<i64, ParseError>(c as i64),
            Err(e) => Err(e),
        },
        r is Ok ==> -MAX_TYPED_CENTS <= r->Ok_0 <= MAX_TYPED_CENTS,
{
    let negated = chars.len() > 0 && chars[0] == '-';
    let from: usize = if negated {
        1
    } else {
        0
    };
    proof {
        assert(chars@.skip(0) =~= chars@);
    }
    let b = without_parens(chars, from);
    match evaluate(&b) {
        Err(e) => Err(e),
        Ok(v) => {
            if negated {
                Ok(-v)
            } else {
                Ok(v)
            }
        },
    }
}

/// Whether `chars`, once trimmed, is empty or a decimal literal.
pub fn is_plain_decimal(chars: &Vec<char>) -> (ok: bool)
    ensures
        ok == term_ok(trim(chars@)),
{
    proof {
        assert(chars@.subrange(0, chars.len() as int) =~= chars@);
    }
    let (lo, hi) = trim_span(chars, 0, chars.len());
    scan_literal(chars, lo, hi).is_some()
}

} // verus!
