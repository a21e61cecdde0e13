//! Amounts of money, held exactly as counts of hundredths, and their text.

use vstd::prelude::*;
use vstd::string::StringExecFns;

verus! {

/// Largest magnitude, in hundredths, that an amount can hold.
pub const MAX_CENTS: i64 = 2_000_000_000_000_000_000;

/// Largest magnitude, in hundredths, that a typed expression can be worth:
/// half of what an amount can hold, so that one typed amount taken off
/// another is an amount still.
pub const MAX_TYPED_CENTS: i64 = 1_000_000_000_000_000_000;

/// An amount of money: a whole number of hundredths, at most `MAX_CENTS`
/// away from zero.
#[derive(Clone, Copy, Debug, PartialEq, Eq, Structural)]
pub struct Money {
    cents: i64,
}

impl View for Money {
    type V = int;

    /// The amount in hundredths.
    closed spec fn view(&self) -> int {
        self.cents as int
    }
}

impl Money {
    #[verifier::type_invariant]
    spec fn in_range(self) -> bool {
        -MAX_CENTS <= self.cents <= MAX_CENTS
    }

    /// The amount of `cents` hundredths, if that is within range.
    pub fn from_cents(cents: i64) -> (r: Option<Money>)
        ensures
            r is Some <==> -MAX_CENTS <= cents <= MAX_CENTS,
            r is Some ==> r->0@ == cents,
    {
        if -MAX_CENTS <= cents && cents <= MAX_CENTS {
            Some(Money { cents })
        } else {
            None
        }
    }

    /// The amount of `cents` hundredths, known to be within range.
    pub(crate) fn new(cents: i64) -> (r: Money)
        requires
            -MAX_CENTS <= cents <= MAX_CENTS,
        ensures
            r@ == cents,
    {
        Money { cents }
    }

    pub fn zero() -> (r: Money)
        ensures
            r@ == 0,
    {
        Money { cents: 0 }
    }

    /// The amount in hundredths.
    pub fn cents(&self) -> (c: i64)
        ensures
            c == self@,
            -MAX_CENTS <= c <= MAX_CENTS,
    {
        proof {
            use_type_invariant(self);
        }
        self.cents
    }

    /// The amount written with two decimals.
    pub fn format2(&self) -> (s: String)
        ensures
            s@ == two_decimals(self@),
    {
        format2(self.cents as i128)
    }

    /// Two amounts of the same value are the same amount.
    pub proof fn lemma_same_value(a: Money, b: Money)
        requires
            a@ == b@,
        ensures
            a == b,
    {
    }
}

pub open spec fn digit_char(d: int) -> char {
    if d == 0 {
        '0'
    } else if d == 1 {
        '1'
    } else if d == 2 {
        '2'
    } else if d == 3 {
        '3'
    } else if d == 4 {
        '4'
    } else if d == 5 {
        '5'
    } else if d == 6 {
        '6'
    } else if d == 7 {
        '7'
    } else if d == 8 {
        '8'
    } else {
        '9'
    }
}

/// The decimal digits of `n`, without leading zeros, `"0"` for zero.
pub open spec fn decimal_digits(n: nat) -> Seq<char>
    decreases n,
{
    if n < 10 {
        seq![digit_char(n as int)]
    } else {
        decimal_digits(n / 10).push(digit_char((n % 10) as int))
    }
}

pub open spec fn magnitude_of(c: int) -> nat {
    if c < 0 {
        (-c) as nat
    } else {
        c as nat
    }
}

/// The text of `a` hundredths, a magnitude: whole units, a dot, two digits.
pub open spec fn unsigned_two_decimals(a: nat) -> Seq<char> {
    decimal_digits(a / 100) + seq![
        '.',
        digit_char(((a / 10) % 10) as int),
        digit_char((a % 10) as int),
    ]
}

/// The text of `c` hundredths with two decimals, such as `-0.05` or `12.30`.
pub open spec fn two_decimals(c: int) -> Seq<char> {
    if c < 0 {
        seq!['-'] + unsigned_two_decimals(magnitude_of(c))
    } else {
        unsigned_two_decimals(magnitude_of(c))
    }
}

/// The text of `c` hundredths with no more decimals than it needs, such as
/// `10`, `10.5` or `-0.05`.
pub open spec fn plain_text(c: int) -> Seq<char> {
    let a = magnitude_of(c);
    let whole = decimal_digits(a / 100);
    let digits = if a % 100 == 0 {
        whole
    } else if a % 10 == 0 {
        whole + seq!['.', digit_char(((a / 10) % 10) as int)]
    } else {
        unsigned_two_decimals(a)
    };
    if c < 0 {
        seq!['-'] + digits
    } else {
        digits
    }
}

/// `c` hundredths rounded to whole units, half away from zero.
pub open spec fn whole_units(c: int) -> int {
    if c >= 0 {
        (c + 50) / 100
    } else {
        -((-c + 50) / 100)
    }
}

/// `a` hundredths in whole units, rounded to the nearest, a tie going to
/// the even one.
pub open spec fn nearest_even_units(a: nat) -> nat {
    if a % 100 > 50 || (a % 100 == 50 && (a / 100) % 2 == 1) {
        a / 100 + 1
    } else {
        a / 100
    }
}

/// The text of `c` hundredths with no decimals, as numbers are written
/// when none are asked for: rounded to the nearest whole, a tie going to
/// the even one, and with the minus sign of any value below zero, also of
/// one that rounds to zero.
pub open spec fn whole_text(c: int) -> Seq<char> {
    let digits = decimal_digits(nearest_even_units(magnitude_of(c)));
    if c < 0 {
        seq!['-'] + digits
    } else {
        digits
    }
}

fn digit_str(d: u8) -> (s: &'static str)
    requires
        d <= 9,
    ensures
        s@ == seq![digit_char(d as int)],
{
    proof {
        reveal_strlit("0");
        reveal_strlit("1");
        reveal_strlit("2");
        reveal_strlit("3");
        reveal_strlit("4");
        reveal_strlit("5");
        reveal_strlit("6");
        reveal_strlit("7");
        reveal_strlit("8");
        reveal_strlit("9");
    }
    let s = if d == 0 {
        "0"
    } else if d == 1 {
        "1"
    } else if d == 2 {
        "2"
    } else if d == 3 {
        "3"
    } else if d == 4 {
        "4"
    } else if d == 5 {
        "5"
    } else if d == 6 {
        "6"
    } else if d == 7 {
        "7"
    } else if d == 8 {
        "8"
    } else {
        "9"
    };
    assert(s@ =~= seq![digit_char(d as int)]);
    s
}

fn push_digit(out: &mut String, d: u8)
    requires
        d <= 9,
    ensures
        final(out)@ == old(out)@.push(digit_char(d as int)),
{
    let ghost before = out@;
    out.append(digit_str(d));
    assert(before + seq![digit_char(d as int)] =~= before.push(digit_char(d as int)));
}

fn push_digits(out: &mut String, n: u128)
    ensures
        final(out)@ == old(out)@ + decimal_digits(n as nat),
    decreases n,
{
    let ghost before = out@;
    if n >= 10 {
        push_digits(out, n / 10);
    }
    push_digit(out, (n % 10) as u8);
    assert(out@ =~= before + decimal_digits(n as nat));
}

fn unsigned_abs(c: i128) -> (a: u128)
    ensures
        a == magnitude_of(c as int),
{
    if c < 0 {
        (-(c + 1)) as u128 + 1
    } else {
        c as u128
    }
}

fn push_sign(out: &mut String, negative: bool)
    ensures
        final(out)@ == if negative {
            old(out)@.push('-')
        } else {
            old(out)@
        },
{
    let ghost before = out@;
    if negative {
        proof {
            reveal_strlit("-");
        }
        out.append("-");
        assert(out@ =~= before.push('-'));
    }
}

/// Writes the number `n`.
pub fn format_count(n: usize) -> (s: String)
    ensures
        s@ == decimal_digits(n as nat),
{
    let mut s = String::new();
    push_digits(&mut s, n as u128);
    assert(s@ =~= decimal_digits(n as nat));
    s
}

/// Writes `c` hundredths with two decimals.
pub fn format2(c: i128) -> (s: String)
    ensures
        s@ == two_decimals(c as int),
{
    let a = unsigned_abs(c);
    let mut s = String::new();
    push_sign(&mut s, c < 0);
    push_digits(&mut s, a / 100);
    proof {
        reveal_strlit(".");
    }
    s.append(".");
    push_digit(&mut s, ((a / 10) % 10) as u8);
    push_digit(&mut s, (a % 10) as u8);
    assert(s@ =~= two_decimals(c as int));
    s
}

/// Writes `c` hundredths with no more decimals than it needs.
pub fn format_plain(c: i128) -> (s: String)
    ensures
        s@ == plain_text(c as int),
{
    let a = unsigned_abs(c);
    let mut s = String::new();
    push_sign(&mut s, c < 0);
    push_digits(&mut s, a / 100);
    if a % 100 != 0 {
        proof {
            reveal_strlit(".");
        }
        s.append(".");
        push_digit(&mut s, ((a / 10) % 10) as u8);
        if a % 10 != 0 {
            push_digit(&mut s, (a % 10) as u8);
        }
    }
    assert(s@ =~= plain_text(c as int));
    s
}

/// `c` hundredths rounded to whole units, half away from zero.
pub fn round_to_units(c: i128) -> (w: i128)
    ensures
        w == whole_units(c as int),
{
    let a = unsigned_abs(c);
    let q = ((a / 100) + if a % 100 >= 50 { 1u128 } else { 0u128 }) as i128;
    if c < 0 {
        -q
    } else {
        q
    }
}

/// Writes `c` hundredths with no decimals.
pub fn format_whole(c: i128) -> (s: String)
    ensures
        s@ == whole_text(c as int),
{
    let a = unsigned_abs(c);
    let up = a % 100 > 50 || (a % 100 == 50 && (a / 100) % 2 == 1);
    let units: u128 = if up {
        a / 100 + 1
    } else {
        a / 100
    };
    let mut s = String::new();
    push_sign(&mut s, c < 0);
    push_digits(&mut s, units);
    assert(s@ =~= whole_text(c as int));
    s
}

} // verus!
