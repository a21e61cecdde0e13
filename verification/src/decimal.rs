//! Decimal literals: what counts as one, and what number it denotes.
//!
//! A literal is an optional sign, digits, and an optional fractional part
//! after a dot, with at least one digit overall. Its value is never held as
//! a fraction: it is given as an integer count of `10^-scale` units, for any
//! scale at least as fine as its fractional part.

use vstd::prelude::*;

verus! {

pub open spec fn is_digit(c: char) -> bool {
    '0' <= c && c <= '9'
}

pub open spec fn digit_value(c: char) -> int {
    c as int - 48
}

/// The characters that count as white space around a term.
pub open spec fn is_blank(c: char) -> bool {
    ||| ('\u{9}' <= c && c <= '\u{d}')
    ||| c == ' '
    ||| c == '\u{85}'
    ||| c == '\u{a0}'
    ||| c == '\u{1680}'
    ||| ('\u{2000}' <= c && c <= '\u{200a}')
    ||| c == '\u{2028}'
    ||| c == '\u{2029}'
    ||| c == '\u{202f}'
    ||| c == '\u{205f}'
    ||| c == '\u{3000}'
}

pub open spec fn trim_start(s: Seq<char>) -> Seq<char>
    decreases s.len(),
{
    if s.len() > 0 && is_blank(s[0]) {
        trim_start(s.skip(1))
    } else {
        s
    }
}

pub open spec fn trim_end(s: Seq<char>) -> Seq<char>
    decreases s.len(),
{
    if s.len() > 0 && is_blank(s.last()) {
        trim_end(s.drop_last())
    } else {
        s
    }
}

/// `s` without its leading and trailing white space.
pub open spec fn trim(s: Seq<char>) -> Seq<char> {
    trim_end(trim_start(s))
}

pub open spec fn pow10(e: nat) -> int
    decreases e,
{
    if e == 0 {
        1
    } else {
        10 * pow10((e - 1) as nat)
    }
}

pub open spec fn all_digits(s: Seq<char>) -> bool {
    forall|i: int| 0 <= i < s.len() ==> is_digit(#[trigger] s[i])
}

/// The number that a run of digits spells, most significant first.
pub open spec fn digits_value(s: Seq<char>) -> int
    decreases s.len(),
{
    if s.len() == 0 {
        0
    } else {
        digits_value(s.drop_last()) * 10 + digit_value(s.last())
    }
}

pub open spec fn has_sign(t: Seq<char>) -> bool {
    t.len() > 0 && (t[0] == '-' || t[0] == '+')
}

pub open spec fn is_negative(t: Seq<char>) -> bool {
    t.len() > 0 && t[0] == '-'
}

/// The literal without its sign.
pub open spec fn magnitude(t: Seq<char>) -> Seq<char> {
    if has_sign(t) {
        t.skip(1)
    } else {
        t
    }
}

/// Index of the first dot in `u`, or `u.len()` if it has none.
pub open spec fn first_dot(u: Seq<char>) -> int
    decreases u.len(),
{
    if u.len() == 0 || u[0] == '.' {
        0
    } else {
        1 + first_dot(u.skip(1))
    }
}

pub open spec fn int_digits(t: Seq<char>) -> Seq<char> {
    magnitude(t).take(first_dot(magnitude(t)))
}

pub open spec fn frac_digits(t: Seq<char>) -> Seq<char> {
    let u = magnitude(t);
    if first_dot(u) < u.len() {
        u.skip(first_dot(u) + 1)
    } else {
        Seq::empty()
    }
}

/// Whether `t` is a decimal literal.
pub open spec fn is_decimal(t: Seq<char>) -> bool {
    &&& all_digits(int_digits(t))
    &&& all_digits(frac_digits(t))
    &&& int_digits(t).len() + frac_digits(t).len() > 0
}

/// The value of the literal `t` as a count of `10^-scale` units; meant for
/// `scale >= frac_digits(t).len()`.
pub open spec fn scaled_value(t: Seq<char>, scale: nat) -> int {
    let units = digits_value(int_digits(t) + frac_digits(t)) * pow10(
        (scale - frac_digits(t).len()) as nat,
    );
    if is_negative(t) {
        -units
    } else {
        units
    }
}

pub proof fn lemma_pow10_positive(e: nat)
    ensures
        pow10(e) >= 1,
    decreases e,
{
    if e > 0 {
        lemma_pow10_positive((e - 1) as nat);
    }
}

pub proof fn lemma_first_dot_bounds(u: Seq<char>)
    ensures
        0 <= first_dot(u) <= u.len(),
        first_dot(u) < u.len() ==> u[first_dot(u)] == '.',
        forall|i: int| 0 <= i < first_dot(u) ==> #[trigger] u[i] != '.',
    decreases u.len(),
{
    if u.len() == 0 || u[0] == '.' {
    } else {
        lemma_first_dot_bounds(u.skip(1));
        assert forall|i: int| 0 <= i < first_dot(u) implies #[trigger] u[i] != '.' by {
            if i > 0 {
                assert(u.skip(1)[i - 1] == u[i]);
            }
        }
    }
}

/// A position before which no dot stands, and which holds a dot or is the
/// end, is the first dot.
pub proof fn lemma_first_dot_is(u: Seq<char>, i: int)
    requires
        0 <= i <= u.len(),
        forall|k: int| 0 <= k < i ==> #[trigger] u[k] != '.',
        i < u.len() ==> u[i] == '.',
    ensures
        first_dot(u) == i,
{
    lemma_first_dot_bounds(u);
    let d = first_dot(u);
    if d < i {
        assert(u[d] == '.');
    } else if d > i {
        assert(u[i] != '.');
    }
}

/// The digits `a` followed by the digits `b` spell `a`'s number shifted left
/// by the length of `b`, plus `b`'s number.
pub proof fn lemma_digits_value_concat(a: Seq<char>, b: Seq<char>)
    ensures
        digits_value(a + b) == digits_value(a) * pow10(b.len()) + digits_value(b),
    decreases b.len(),
{
    if b.len() == 0 {
        assert(a + b =~= a);
        assert(digits_value(a) * 1 == digits_value(a));
    } else {
        let b0 = b.drop_last();
        lemma_digits_value_concat(a, b0);
        assert((a + b).drop_last() =~= a + b0);
        assert((a + b).last() == b.last());
        let x = digits_value(a);
        let p = pow10(b0.len());
        assert(pow10(b.len()) == 10 * p);
        assert((x * p + digits_value(b0)) * 10 == x * (10 * p) + digits_value(b0) * 10)
            by (nonlinear_arith);
    }
}

} // verus!
