//! Reading what was typed into the entry fields.

use vstd::prelude::*;
use crate::date::{in_calendar, parsed_date, Date};
use crate::db_repo::Record;
use crate::decimal::trim;
use crate::error::{malformed_text, BuildError, ParseError};
use crate::expression::{chars_of, evaluate_expression, is_plain_decimal, parse_model, term_ok};
use crate::money::Money;

verus! {

/// Whether `input` holds a `+` anywhere but at its start.
pub open spec fn has_inner_plus(input: Seq<char>) -> bool {
    exists|i: int| 0 < i < input.len() && input[i] == '+'
}

/// Whether a field's text passes while it is being typed: it is empty, or
/// the field is not checked, or it looks like a sum or a negation under way,
/// or it is a decimal literal.
pub open spec fn accepted(input: Seq<char>, no_validation: bool) -> bool {
    ||| input.len() == 0
    ||| no_validation
    ||| has_inner_plus(input)
    ||| (input.len() > 1 && input[0] == '-')
    ||| term_ok(trim(input))
}

fn inner_plus(chars: &Vec<char>) -> (r: bool)
    ensures
        r == has_inner_plus(chars@),
{
    let mut i: usize = 1;
    while i < chars.len()
        invariant
            1 <= i,
            forall|k: int| 0 < k < i && k < chars.len() ==> chars[k] != '+',
        decreases chars.len() - i,
    {
        if chars[i] == '+' {
            return true;
        }
        i = i + 1;
    }
    false
}

/// Whether the text `input` of a field passes while it is being typed.
pub fn is_accepted(input: &str, no_validation: bool) -> (ok: bool)
    ensures
        ok == accepted(input@, no_validation),
{
    let chars = chars_of(input);
    chars.len() == 0 || no_validation || inner_plus(&chars) || (chars.len() > 1 && chars[0]
        == '-') || is_plain_decimal(&chars)
}

/// Checks a field while it is being typed. Returns the message to show, the
/// empty text when there is nothing to object to.
pub fn validate(input: &str, no_validation: bool) -> (message: String)
    ensures
        message@ == if accepted(input@, no_validation) {
            Seq::<char>::empty()
        } else {
            malformed_text()
        },
{
    if is_accepted(input, no_validation) {
        String::new()
    } else {
        ParseError::MalformedTerm.message()
    }
}

/// The amount that a monetary expression denotes: the sum of its terms,
/// negated if the expression starts with a minus, rounded to hundredths.
pub fn convert_to_f32(text: &str) -> (r: Result<Money, ParseError>)
    ensures
        match parse_model(text@) {
            Ok(c) => r is Ok && r->Ok_0@ == c,
            Err(e) => r == Err::<Money, ParseError>(e),
        },
{
    let chars = chars_of(text);
    match evaluate_expression(&chars) {
        Err(e) => Err(e),
        Ok(c) => Ok(Money::new(c)),
    }
}

/// The three amounts of an entry, in hundredths, as they are kept: store,
/// beer, other. A negative beer amount is a refund: it is taken off the
/// store amount, and kept as beer without its sign. The other amount is
/// kept as typed.
pub open spec fn kept_amounts(store: int, beer: int, allos: int) -> (int, int, int) {
    if beer < 0 {
        (store + beer, -beer, allos)
    } else {
        (store, beer, allos)
    }
}

/// What the three amount fields of an entry come to. The first field that
/// cannot be read decides the error.
pub open spec fn amounts_model(
    store_raw: Seq<char>,
    beer_raw: Seq<char>,
    allos_raw: Seq<char>,
) -> Result<(int, int, int), ParseError> {
    match parse_model(store_raw) {
        Err(e) => Err(e),
        Ok(store) => match parse_model(beer_raw) {
            Err(e) => Err(e),
            Ok(beer) => match parse_model(allos_raw) {
                Err(e) => Err(e),
                Ok(allos) => Ok(kept_amounts(store, beer, allos)),
            },
        },
    }
}

/// Which of the three amount fields stands in the way when an entry cannot
/// be built for its amounts: the first that cannot be read, counted from
/// zero.
pub open spec fn refused_amount(
    store_raw: Seq<char>,
    beer_raw: Seq<char>,
    allos_raw: Seq<char>,
) -> int {
    if parse_model(store_raw) is Err {
        0
    } else if parse_model(beer_raw) is Err {
        1
    } else {
        2
    }
}

/// The day that a date field spells, if it spells one of the calendar.
pub open spec fn date_model(date_raw: Seq<char>) -> Option<i32> {
    match parsed_date(date_raw) {
        Some(day) => if in_calendar(day as int) {
            Some(day)
        } else {
            None
        },
        None => None,
    }
}

/// Whether `r` is what building an entry gives, from the three amount
/// fields, the comment and the day that the date field was read as.
pub open spec fn built(
    r: Result<Record, BuildError>,
    store_raw: Seq<char>,
    beer_raw: Seq<char>,
    allos_raw: Seq<char>,
    comments: Seq<char>,
    day: Option<i32>,
) -> bool {
    match amounts_model(store_raw, beer_raw, allos_raw) {
        Err(e) => r == Err::<Record, BuildError>(BuildError::Amount(e)),
        Ok(kept) => match day {
            None => r == Err::<Record, BuildError>(BuildError::InvalidDate),
            Some(d) => {
                &&& r is Ok
                &&& r->Ok_0.id == 0
                &&& r->Ok_0.store@ == kept.0
                &&& r->Ok_0.beer@ == kept.1
                &&& r->Ok_0.allos@ == kept.2
                &&& r->Ok_0.comments@ == comments
                &&& r->Ok_0.date@ == d
            },
        },
    }
}

/// Builds an entry from the three amount fields, the comment, and the date
/// already read. The amounts are read first, store, beer, other: the first
/// that fails decides the error. Only then a missing date counts.
pub fn build_record(
    store_price: &str,
    beer_price: &str,
    allos_price: &str,
    comments: &str,
    date: Option<Date>,
) -> (r: Result<Record, BuildError>)
    ensures
        built(
            r,
            store_price@,
            beer_price@,
            allos_price@,
            comments@,
            match date {
                Some(d) => Some(d@),
                None => None,
            },
        ),
{
    let store = match convert_to_f32(store_price) {
        Ok(m) => m,
        Err(e) => {
            return Err(BuildError::Amount(e));
        },
    };
    let beer = match convert_to_f32(beer_price) {
        Ok(m) => m,
        Err(e) => {
            return Err(BuildError::Amount(e));
        },
    };
    let allos = match convert_to_f32(allos_price) {
        Ok(m) => m,
        Err(e) => {
            return Err(BuildError::Amount(e));
        },
    };
    let (store_cents, beer_cents): (i64, i64) = if beer.cents() < 0 {
        (store.cents() + beer.cents(), -beer.cents())
    } else {
        (store.cents(), beer.cents())
    };
    let store = Money::new(store_cents);
    let beer = Money::new(beer_cents);
    let date = match date {
        Some(d) => d,
        None => {
            return Err(BuildError::InvalidDate);
        },
    };
    Ok(Record { id: 0, store, beer, allos, comments: comments.to_owned(), date })
}

/// Builds an entry from the five fields as typed.
pub fn into_record(
    store_price: &str,
    beer_price: &str,
    allos_price: &str,
    comments: &str,
    date: &str,
) -> (r: Result<Record, BuildError>)
    ensures
        built(r, store_price@, beer_price@, allos_price@, comments@, date_model(date@)),
{
    build_record(store_price, beer_price, allos_price, comments, Date::parse(date))
}

/// A beer amount below zero is kept without its sign, and the store amount
/// is lowered by as much.
pub proof fn lemma_refund_moves_to_store(
    store_raw: Seq<char>,
    beer_raw: Seq<char>,
    allos_raw: Seq<char>,
)
    requires
        parse_model(store_raw) is Ok,
        parse_model(beer_raw) is Ok,
        parse_model(allos_raw) is Ok,
        parse_model(beer_raw)->Ok_0 < 0,
    ensures
        ({
            let store = parse_model(store_raw)->Ok_0;
            let refund = parse_model(beer_raw)->Ok_0;
            amounts_model(store_raw, beer_raw, allos_raw) == Ok::<(int, int, int), ParseError>(
                (store + refund, -refund, parse_model(allos_raw)->Ok_0),
            )
        }),
{
}

/// The beer amount of an entry is never kept below zero.
pub proof fn lemma_beer_not_negative(
    store_raw: Seq<char>,
    beer_raw: Seq<char>,
    allos_raw: Seq<char>,
)
    ensures
        amounts_model(store_raw, beer_raw, allos_raw) is Ok ==> amounts_model(
            store_raw,
            beer_raw,
            allos_raw,
        )->Ok_0.1 >= 0,
{
}

} // verus!
