//! What always holds between writing an amount and reading an expression.

use vstd::prelude::*;
use crate::columns::round_half_away;
use crate::decimal::{
    all_digits, digit_value, digits_value, first_dot, frac_digits, has_sign, int_digits,
    is_blank, is_decimal, is_digit, is_negative, lemma_digits_value_concat,
    lemma_first_dot_bounds, lemma_first_dot_is, magnitude, pow10, scaled_value, trim,
};
use crate::error::ParseError;
use crate::expression::{
    all_ok, body_of, body_value, finest, is_paren, parse_model, split_terms, strip_parens, terms,
    total,
};
use crate::money::{
    decimal_digits, digit_char, magnitude_of, two_decimals, unsigned_two_decimals,
    MAX_TYPED_CENTS,
};

verus! {

/// What is left of a result when the sign of its value is turned.
pub open spec fn negated(r: Result<int, ParseError>) -> Result<int, ParseError> {
    match r {
        Ok(c) => Ok(-c),
        Err(e) => Err(e),
    }
}

/// `c` hundredths as an expression's value, if an expression can be worth
/// that much.
pub open spec fn held(c: int) -> Result<int, ParseError> {
    if -MAX_TYPED_CENTS <= c <= MAX_TYPED_CENTS {
        Ok(c)
    } else {
        Err(ParseError::OutOfRange)
    }
}

/// A character that can stand in a written amount.
pub open spec fn is_plain(c: char) -> bool {
    is_digit(c) || c == '.' || c == '-'
}

proof fn lemma_digit_char(d: int)
    requires
        0 <= d <= 9,
    ensures
        is_digit(digit_char(d)),
        digit_value(digit_char(d)) == d,
{
}

/// A number is its hundreds, its tens digit and its units digit together.
proof fn lemma_last_two_digits(a: nat)
    ensures
        a == (a / 100) * 100 + ((a / 10) % 10) * 10 + a % 10,
        0 <= (a / 10) % 10 <= 9,
        0 <= a % 10 <= 9,
{
    let t = a / 10;
    assert(a == 10 * t + a % 10);
    assert(t == 10 * (t / 10) + t % 10);
    assert(t / 10 == a / 100);
}

/// The digits written for a number spell that number.
pub proof fn lemma_decimal_digits(n: nat)
    ensures
        decimal_digits(n).len() >= 1,
        all_digits(decimal_digits(n)),
        digits_value(decimal_digits(n)) == n,
    decreases n,
{
    let w = decimal_digits(n);
    if n < 10 {
        lemma_digit_char(n as int);
        assert(w.drop_last() =~= Seq::<char>::empty());
        assert(digits_value(w.drop_last()) == 0);
    } else {
        lemma_decimal_digits(n / 10);
        lemma_digit_char((n % 10) as int);
        assert(w.drop_last() =~= decimal_digits(n / 10));
    }
}

/// A text without parentheses is left as it is.
pub proof fn lemma_strip_parens_free(s: Seq<char>)
    requires
        forall|i: int| 0 <= i < s.len() ==> !is_paren(#[trigger] s[i]),
    ensures
        strip_parens(s) == s,
    decreases s.len(),
{
    if s.len() > 0 {
        lemma_strip_parens_free(s.drop_last());
        assert(!is_paren(s[s.len() - 1]));
        assert(s.drop_last().push(s.last()) =~= s);
    }
}

/// A text without a plus sign is one term.
pub proof fn lemma_split_free(s: Seq<char>)
    requires
        forall|i: int| 0 <= i < s.len() ==> #[trigger] s[i] != '+',
    ensures
        split_terms(s) == seq![s],
    decreases s.len(),
{
    if s.len() == 0 {
        assert(s =~= Seq::<char>::empty());
    } else {
        lemma_split_free(s.drop_last());
        assert(s[s.len() - 1] != '+');
        let before = split_terms(s.drop_last());
        assert(before.drop_last().push(before.last().push(s.last())) =~= seq![s]) by {
            assert(s.drop_last().push(s.last()) =~= s);
        }
    }
}

/// Text without a plus sign, put behind an expression, lengthens the
/// expression's last term.
pub proof fn lemma_split_append(x: Seq<char>, y: Seq<char>)
    requires
        forall|i: int| 0 <= i < y.len() ==> #[trigger] y[i] != '+',
    ensures
        split_terms(x).len() >= 1,
        split_terms(x + y) == split_terms(x).drop_last().push(split_terms(x).last() + y),
    decreases y.len(),
{
    lemma_split_nonempty(x);
    if y.len() == 0 {
        assert(x + y =~= x);
        assert(split_terms(x).last() + y =~= split_terms(x).last());
        assert(split_terms(x).drop_last().push(split_terms(x).last()) =~= split_terms(x));
    } else {
        let y0 = y.drop_last();
        lemma_split_append(x, y0);
        assert((x + y).drop_last() =~= x + y0);
        assert((x + y).last() == y[y.len() - 1]);
        let before = split_terms(x + y0);
        assert(before.drop_last() =~= split_terms(x).drop_last());
        assert(before.last().push(y.last()) =~= split_terms(x).last() + y);
    }
}

pub proof fn lemma_split_nonempty(x: Seq<char>)
    ensures
        split_terms(x).len() >= 1,
    decreases x.len(),
{
    if x.len() > 0 {
        lemma_split_nonempty(x.drop_last());
    }
}

/// A text that neither starts nor ends with white space is trimmed already.
pub proof fn lemma_trim_tight(s: Seq<char>)
    requires
        s.len() > 0,
        !is_blank(s[0]),
        !is_blank(s.last()),
    ensures
        trim(s) == s,
{
}

/// A written amount is one sound term, and is worth the amount.
pub proof fn lemma_written_amount(c: int)
    ensures
        two_decimals(c).len() > 0,
        forall|i: int| 0 <= i < two_decimals(c).len() ==> is_plain(#[trigger] two_decimals(c)[i]),
        is_digit(two_decimals(c).last()),
        is_negative(two_decimals(c)) <==> c < 0,
        !is_negative(two_decimals(c)) ==> is_digit(two_decimals(c)[0]),
        is_decimal(two_decimals(c)),
        frac_digits(two_decimals(c)).len() == 2,
        scaled_value(two_decimals(c), 2) == c,
{
    let a = magnitude_of(c);
    let w = decimal_digits(a / 100);
    let d1 = digit_char(((a / 10) % 10) as int);
    let d2 = digit_char((a % 10) as int);
    let tail = seq!['.', d1, d2];
    let u = unsigned_two_decimals(a);
    let t = two_decimals(c);
    lemma_decimal_digits(a / 100);
    lemma_digit_char(((a / 10) % 10) as int);
    lemma_digit_char((a % 10) as int);
    assert(u == w + tail);
    assert(u.len() == w.len() + 3);
    assert forall|i: int| 0 <= i < u.len() implies is_plain(#[trigger] u[i]) by {
        if i < w.len() {
            assert(u[i] == w[i]);
        } else {
            assert(u[i] == tail[i - w.len()]);
        }
    }
    assert(u[0] == w[0]);
    assert(is_digit(u[0]));
    assert(u.last() == d2);
    if c < 0 {
        assert(t == seq!['-'] + u);
        assert(t[0] == '-');
        assert(t.skip(1) =~= u);
        assert forall|i: int| 0 <= i < t.len() implies is_plain(#[trigger] t[i]) by {
            if i > 0 {
                assert(t[i] == u[i - 1]);
            }
        }
        assert(t.last() == u.last());
    } else {
        assert(t == u);
    }
    assert(magnitude(t) == u);
    assert forall|k: int| 0 <= k < w.len() implies #[trigger] u[k] != '.' by {
        assert(u[k] == w[k]);
        assert(is_digit(w[k]));
    }
    assert(u[w.len() as int] == '.');
    lemma_first_dot_is(u, w.len() as int);
    assert(int_digits(t) =~= w);
    let f = seq![d1, d2];
    assert(frac_digits(t) =~= f);
    assert(all_digits(frac_digits(t)));
    assert(f.drop_last() =~= seq![d1]);
    assert(seq![d1].drop_last() =~= Seq::<char>::empty());
    assert(digits_value(Seq::<char>::empty()) == 0);
    assert(digits_value(seq![d1]) == digit_value(d1));
    assert(digits_value(f) == digit_value(d1) * 10 + digit_value(d2));
    lemma_digits_value_concat(w, f);
    assert(pow10(2) == 100) by {
        assert(pow10(0) == 1);
        assert(pow10(1) == 10);
    }
    assert(pow10(0) == 1);
    lemma_last_two_digits(a);
    assert(digits_value(w) == a / 100);
    assert(digit_value(d1) == (a / 10) % 10);
    assert(digit_value(d2) == a % 10);
    assert(digits_value(w + f) == (a / 100) * 100 + ((a / 10) % 10) * 10 + a % 10);
    assert(digits_value(w + f) == a);
}

/// Rounding to a unit of one changes nothing.
proof fn lemma_round_unit(t: int)
    ensures
        round_half_away(t, 1) == t,
{
    if t >= 0 {
        assert((2 * t + 1) / 2 == t);
    } else {
        assert((2 * (-t) + 1) / 2 == -t);
    }
}

/// A written amount, taken as an expression body, is worth its magnitude.
proof fn lemma_plain_body(a: nat)
    ensures
        body_value(unsigned_two_decimals(a)) == Ok::<int, ParseError>(a as int),
{
    let u = unsigned_two_decimals(a);
    lemma_written_amount(a as int);
    assert(two_decimals(a as int) == u);
    assert forall|i: int| 0 <= i < u.len() implies !is_paren(#[trigger] u[i]) by {
        assert(is_plain(u[i]));
    }
    lemma_strip_parens_free(u);
    assert forall|i: int| 0 <= i < u.len() implies #[trigger] u[i] != '+' by {
        assert(is_plain(u[i]));
    }
    lemma_split_free(u);
    lemma_trim_tight(u);
    let ts = terms(u);
    assert(ts =~= seq![u]);
    assert(ts.drop_last() =~= Seq::<Seq<char>>::empty());
    assert(ts.last() == u);
    assert(finest(ts.drop_last()) == 2);
    assert(finest(ts) == 2);
    assert(total(ts.drop_last(), 2) == 0);
    assert(total(ts, 2) == a);
    assert(pow10(0) == 1);
    lemma_round_unit(a as int);
}

/// Reading an empty text gives zero.
pub proof fn lemma_empty_is_zero()
    ensures
        parse_model(Seq::<char>::empty()) == Ok::<int, ParseError>(0),
{
    let e = Seq::<char>::empty();
    assert(strip_parens(e) == e);
    assert(split_terms(e) =~= seq![e]);
    assert(trim(e) == e);
    let ts = terms(e);
    assert(ts =~= seq![e]);
    assert(ts.drop_last() =~= Seq::<Seq<char>>::empty());
    assert(frac_digits(e) =~= e);
    assert(int_digits(e) =~= e);
    assert(e + e =~= e);
    assert(ts.last() == e);
    assert(finest(ts.drop_last()) == 2);
    assert(finest(ts) == 2);
    assert(scaled_value(e, 2) == 0) by (nonlinear_arith)
        requires
            scaled_value(e, 2) == 0 * pow10(2),
    ;
    assert(total(ts.drop_last(), 2) == 0);
    assert(total(ts, 2) == 0);
    assert(pow10(0) == 1);
    lemma_round_unit(0);
}

/// Reading an amount written with two decimals gives the amount back. So
/// reading, writing and reading again gives what the first reading gave.
pub proof fn lemma_read_written(c: int)
    requires
        -MAX_TYPED_CENTS <= c <= MAX_TYPED_CENTS,
    ensures
        parse_model(two_decimals(c)) == Ok::<int, ParseError>(c),
{
    let t = two_decimals(c);
    let u = unsigned_two_decimals(magnitude_of(c));
    lemma_written_amount(c);
    lemma_plain_body(magnitude_of(c));
    if c < 0 {
        assert(t.skip(1) =~= u);
    }
    assert(body_of(t) == u);
}

/// Reading an expression, writing the amount with two decimals and reading
/// that again gives what the first reading gave.
pub proof fn lemma_read_write_read(x: Seq<char>)
    requires
        parse_model(x) is Ok,
    ensures
        parse_model(two_decimals(parse_model(x)->Ok_0)) == parse_model(x),
{
    lemma_read_written(parse_model(x)->Ok_0);
}

/// A minus sign put before any text negates what the text is worth as an
/// expression body, a minus sign of its own being read as the sign of its
/// first term.
pub proof fn lemma_minus_in_front(expr: Seq<char>)
    ensures
        parse_model(seq!['-'] + expr) == match body_value(expr) {
            Ok(v) => held(-v),
            Err(e) => Err(e),
        },
{
    let s = seq!['-'] + expr;
    assert(s[0] == '-');
    assert(s.skip(1) =~= expr);
}

/// A minus sign put before an expression that has none turns the sign of
/// its value, and changes nothing else.
pub proof fn lemma_minus_negates(expr: Seq<char>)
    requires
        !is_negative(expr),
    ensures
        parse_model(seq!['-'] + expr) == negated(parse_model(expr)),
{
    lemma_minus_in_front(expr);
}

/// Two texts of plain characters with a plus sign between them are two
/// terms: the two texts.
proof fn lemma_two_terms(ta: Seq<char>, tb: Seq<char>)
    requires
        ta.len() > 0,
        tb.len() > 0,
        forall|i: int| 0 <= i < ta.len() ==> is_plain(#[trigger] ta[i]),
        forall|i: int| 0 <= i < tb.len() ==> is_plain(#[trigger] tb[i]),
    ensures
        terms(ta + seq!['+'] + tb) == seq![ta, tb],
{
    let s = ta + seq!['+'] + tb;
    assert forall|i: int| 0 <= i < s.len() implies !is_paren(#[trigger] s[i]) by {
        if i < ta.len() {
            assert(s[i] == ta[i]);
            assert(is_plain(ta[i]));
        } else if i > ta.len() {
            assert(s[i] == tb[i - ta.len() - 1]);
            assert(is_plain(tb[i - ta.len() - 1]));
        }
    }
    lemma_strip_parens_free(s);
    let x = ta.push('+');
    assert(s =~= x + tb);
    assert forall|i: int| 0 <= i < ta.len() implies #[trigger] ta[i] != '+' by {
        assert(is_plain(ta[i]));
    }
    assert forall|i: int| 0 <= i < tb.len() implies #[trigger] tb[i] != '+' by {
        assert(is_plain(tb[i]));
    }
    lemma_split_free(ta);
    assert(x.drop_last() =~= ta);
    assert(split_terms(x) =~= seq![ta, Seq::<char>::empty()]);
    lemma_split_append(x, tb);
    assert(Seq::<char>::empty() + tb =~= tb);
    assert(split_terms(s) =~= seq![ta, tb]);
    assert(is_plain(ta[0]) && is_plain(ta[ta.len() - 1]));
    assert(is_plain(tb[0]) && is_plain(tb[tb.len() - 1]));
    lemma_trim_tight(ta);
    lemma_trim_tight(tb);
    assert(terms(s) =~= seq![ta, tb]);
}

/// The finest of two terms, and what the two come to together.
proof fn lemma_pair(ta: Seq<char>, tb: Seq<char>, scale: nat)
    ensures
        finest(seq![ta, tb]) >= 2,
        finest(seq![ta, tb]) >= frac_digits(ta).len(),
        finest(seq![ta, tb]) >= frac_digits(tb).len(),
        finest(seq![ta, tb]) == 2 || finest(seq![ta, tb]) == frac_digits(ta).len() || finest(
            seq![ta, tb],
        ) == frac_digits(tb).len(),
        total(seq![ta, tb], scale) == scaled_value(ta, scale) + scaled_value(tb, scale),
{
    let ts = seq![ta, tb];
    assert(ts.drop_last() =~= seq![ta]);
    assert(ts.drop_last().drop_last() =~= Seq::<Seq<char>>::empty());
    assert(ts.drop_last().last() == ta);
    assert(ts.last() == tb);
    assert(finest(ts.drop_last().drop_last()) == 2);
    let first = finest(ts.drop_last());
    assert(first == if frac_digits(ta).len() > 2 {
        frac_digits(ta).len()
    } else {
        2
    });
    assert(finest(ts) == if frac_digits(tb).len() > first {
        frac_digits(tb).len()
    } else {
        first
    });
    assert(total(ts.drop_last().drop_last(), scale) == 0);
    assert(total(ts.drop_last(), scale) == scaled_value(ta, scale));
}

/// A written magnitude, a plus sign and a written amount are worth, as an
/// expression body, the two together.
proof fn lemma_sum_body(a: nat, b: int)
    ensures
        body_value(unsigned_two_decimals(a) + seq!['+'] + two_decimals(b)) == Ok::<
            int,
            ParseError,
        >(a + b),
{
    let ta = unsigned_two_decimals(a);
    let tb = two_decimals(b);
    lemma_written_amount(a as int);
    lemma_written_amount(b);
    assert(two_decimals(a as int) == ta);
    lemma_two_terms(ta, tb);
    lemma_pair(ta, tb, 2);
    let ts = seq![ta, tb];
    assert(finest(ts) == 2);
    assert(total(ts, 2) == a + b);
    assert(pow10(0) == 1);
    lemma_round_unit(a + b);
    assert(all_ok(ts));
}

/// A decimal literal without a sign: digits, and at most one dot.
pub open spec fn is_unsigned_decimal(t: Seq<char>) -> bool {
    is_decimal(t) && !has_sign(t)
}

/// A decimal literal without a sign holds digits and dots only.
proof fn lemma_unsigned_decimal(t: Seq<char>)
    requires
        is_unsigned_decimal(t),
    ensures
        t.len() > 0,
        forall|i: int| 0 <= i < t.len() ==> is_plain(#[trigger] t[i]),
        t[0] != '-',
{
    let fd = first_dot(t);
    lemma_first_dot_bounds(t);
    assert(magnitude(t) == t);
    assert forall|i: int| 0 <= i < t.len() implies is_plain(#[trigger] t[i]) by {
        if i < fd {
            assert(int_digits(t)[i] == t[i]);
        } else if i > fd {
            assert(frac_digits(t)[i - fd - 1] == t[i]);
        }
    }
    if t.len() > 0 {
        assert(is_plain(t[0]));
        if fd > 0 {
            assert(int_digits(t)[0] == t[0]);
        }
    }
}

/// Two decimal literals without signs, with a plus sign between them, are
/// worth their exact sum, rounded once to hundredths; or nothing, if that
/// is more than an expression can be worth. The sum is taken in units as
/// fine as the finer of the two needs.
pub proof fn lemma_sum_of_literals(ta: Seq<char>, tb: Seq<char>)
    requires
        is_unsigned_decimal(ta),
        is_unsigned_decimal(tb),
    ensures
        ({
            let scale = finest(seq![ta, tb]);
            parse_model(ta + seq!['+'] + tb) == held(
                round_half_away(
                    scaled_value(ta, scale) + scaled_value(tb, scale),
                    pow10((scale - 2) as nat),
                ),
            )
        }),
{
    let s = ta + seq!['+'] + tb;
    lemma_unsigned_decimal(ta);
    lemma_unsigned_decimal(tb);
    lemma_two_terms(ta, tb);
    lemma_pair(ta, tb, finest(seq![ta, tb]));
    assert(s[0] == ta[0]);
    assert(all_ok(seq![ta, tb]));
}

/// What two written amounts with a plus sign between them are worth: their
/// sum if the first is not negative; if it is, its minus sign negates the
/// whole, and the second is taken off instead.
pub proof fn lemma_written_sum(a: int, b: int)
    ensures
        parse_model(two_decimals(a) + seq!['+'] + two_decimals(b)) == held(
            if a < 0 {
                a - b
            } else {
                a + b
            },
        ),
{
    let ua = unsigned_two_decimals(magnitude_of(a));
    let tb = two_decimals(b);
    let s = two_decimals(a) + seq!['+'] + tb;
    let body = ua + seq!['+'] + tb;
    lemma_written_amount(a);
    lemma_sum_body(magnitude_of(a), b);
    assert(s[0] == two_decimals(a)[0]);
    if a < 0 {
        assert(s.skip(1) =~= body);
    } else {
        assert(s =~= body);
    }
}

/// Two written amounts with a plus sign between them are worth their sum,
/// if the first is not negative or the second is zero.
pub proof fn lemma_sum_of_written(a: int, b: int)
    requires
        0 <= a || b == 0,
    ensures
        parse_model(two_decimals(a) + seq!['+'] + two_decimals(b)) == held(a + b),
{
    lemma_written_sum(a, b);
}

} // verus!
