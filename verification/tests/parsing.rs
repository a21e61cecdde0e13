use expense_ledger::error::ParseError;
use expense_ledger::input_validator::convert_to_f32;
use expense_ledger::money::Money;

fn cents(text: &str) -> i64 {
    match convert_to_f32(text) {
        Ok(m) => m.cents(),
        Err(e) => panic!("{:?} has no value: {:?}", text, e),
    }
}

fn error(text: &str) -> ParseError {
    match convert_to_f32(text) {
        Ok(m) => panic!("{:?} is worth {}", text, m.cents()),
        Err(e) => e,
    }
}

#[test]
fn empty_text_is_zero() {
    assert_eq!(cents(""), 0);
}

#[test]
fn single_decimal() {
    assert_eq!(cents("10.5"), 1050);
    assert_eq!(cents("0.07"), 7);
    assert_eq!(cents("3"), 300);
    assert_eq!(cents("5."), 500);
    assert_eq!(cents(".5"), 50);
    assert_eq!(cents("007"), 700);
}

#[test]
fn sum_of_two_terms() {
    assert_eq!(cents("10+5"), 1500);
    assert_eq!(cents("12.30+0.70"), 1300);
}

#[test]
fn sum_is_rounded_after_adding() {
    assert_eq!(cents("1.111+1.111"), 222);
    assert_eq!(cents("0.004+0.004"), 1);
    assert_eq!(cents("0.0049+0.0001"), 1);
}

#[test]
fn trailing_plus_is_ignored() {
    assert_eq!(cents("10+"), 1000);
}

#[test]
fn leading_plus_is_ignored() {
    assert_eq!(cents("+10"), 1000);
}

#[test]
fn repeated_plus_is_ignored() {
    assert_eq!(cents("1++2"), 300);
    assert_eq!(cents("+"), 0);
    assert_eq!(cents("+++"), 0);
}

#[test]
fn leading_minus_negates_the_whole_sum() {
    assert_eq!(cents("-5+10"), -1500);
    assert_eq!(cents("-5"), -500);
}

#[test]
fn parentheses_do_not_group() {
    assert_eq!(cents("-(5+10)"), -1500);
    assert_eq!(cents("(10)"), 1000);
    assert_eq!(cents("((1)+(2))"), 300);
    assert_eq!(cents("1(0"), 1000);
    assert_eq!(cents("()"), 0);
}

#[test]
fn lone_minus_is_zero() {
    assert_eq!(cents("-"), 0);
}

#[test]
fn inner_minus_belongs_to_its_term() {
    assert_eq!(cents("10+-3"), 700);
    assert_eq!(cents("--5"), 500);
    assert_eq!(cents("-5+-10"), -(500 - 1000));
    assert_eq!(cents("(-5)"), -500);
}

#[test]
fn blanks_around_terms_are_ignored() {
    assert_eq!(cents(" 10 + 5 "), 1500);
    assert_eq!(cents("\t7.25\n"), 725);
    assert_eq!(cents("   "), 0);
    assert_eq!(cents("1 + + 2"), 300);
    assert_eq!(cents("\u{a0}4\u{3000}"), 400);
}

#[test]
fn ties_round_away_from_zero() {
    assert_eq!(cents("0.005"), 1);
    assert_eq!(cents("-0.005"), -1);
    assert_eq!(cents("0+-0.005"), -1);
    assert_eq!(cents("2.675"), 268);
    assert_eq!(cents("0.015"), 2);
    assert_eq!(cents("0.025"), 3);
    assert_eq!(cents("0.0049999"), 0);
    assert_eq!(cents("0+-0.0049999"), 0);
    assert_eq!(cents("0+-0.0050001"), -1);
    assert_eq!(cents("0.994999999999999999999999999999999999999999"), 99);
    assert_eq!(cents("0.995"), 100);
}

#[test]
fn digits_far_behind_the_dot_still_count() {
    assert_eq!(cents("0.0050000000000000000000000000000000000000001"), 1);
    assert_eq!(cents("0.0050000000000000000000000000000000000000001+-0.0000000000000000000000000000000000000000001"), 1);
    assert_eq!(cents("0.0050000000000000000000000000000000000000001+-0.0000000000000000000000000000000000000000002"), 0);
    assert_eq!(cents("0.00499999999999999999999999999999999999999+0.00000000000000000000000000000000000000001"), 1);
}

#[test]
fn large_terms_may_cancel() {
    assert_eq!(
        cents("100000000000000000000000000000000000000000000+-100000000000000000000000000000000000000000000+1"),
        100
    );
    assert_eq!(
        cents("99999999999999999999999999999999999999.99+0.01+-100000000000000000000000000000000000000+2.5"),
        250
    );
}

#[test]
fn largest_amount() {
    assert_eq!(cents("10000000000000000"), 1_000_000_000_000_000_000);
    assert_eq!(cents("-10000000000000000.004"), -1_000_000_000_000_000_000);
    assert_eq!(cents("9999999999999999.995"), 1_000_000_000_000_000_000);
}

#[test]
fn too_large_a_sum_is_out_of_range() {
    assert_eq!(error("10000000000000000.01"), ParseError::OutOfRange);
    assert_eq!(error("10000000000000000.005"), ParseError::OutOfRange);
    assert_eq!(error("-10000000000000000.005"), ParseError::OutOfRange);
    assert_eq!(error("10000000000000000+0.01"), ParseError::OutOfRange);
    assert_eq!(error("123456789012345678901234567890123456789012345678901234567890"), ParseError::OutOfRange);
    assert_eq!(error("0+-123456789012345678901234567890123456789012345678901234567890"), ParseError::OutOfRange);
}

#[test]
fn malformed_terms_are_rejected() {
    assert_eq!(error("abc"), ParseError::MalformedTerm);
    assert_eq!(error("1+x"), ParseError::MalformedTerm);
    assert_eq!(error("x+1"), ParseError::MalformedTerm);
    assert_eq!(error("1..2"), ParseError::MalformedTerm);
    assert_eq!(error("1.2.3"), ParseError::MalformedTerm);
    assert_eq!(error("."), ParseError::MalformedTerm);
    assert_eq!(error("-."), ParseError::MalformedTerm);
    assert_eq!(error("1e5"), ParseError::MalformedTerm);
    assert_eq!(error("1,5"), ParseError::MalformedTerm);
    assert_eq!(error("1 2"), ParseError::MalformedTerm);
    assert_eq!(error("---5"), ParseError::MalformedTerm);
    assert_eq!(error("5-"), ParseError::MalformedTerm);
    assert_eq!(error("1+- 2"), ParseError::MalformedTerm);
    assert_eq!(error("٣"), ParseError::MalformedTerm);
    assert_eq!(error("inf"), ParseError::MalformedTerm);
}

#[test]
fn a_malformed_term_outweighs_the_range() {
    assert_eq!(error("99999999999999999999999999+x"), ParseError::MalformedTerm);
}

#[test]
fn money_keeps_to_its_range() {
    assert_eq!(Money::from_cents(2_000_000_000_000_000_000).map(|m| m.cents()), Some(2_000_000_000_000_000_000));
    assert_eq!(Money::from_cents(-2_000_000_000_000_000_000).map(|m| m.cents()), Some(-2_000_000_000_000_000_000));
    assert!(Money::from_cents(2_000_000_000_000_000_001).is_none());
    assert!(Money::from_cents(-2_000_000_000_000_000_001).is_none());
    assert!(Money::from_cents(i64::MIN).is_none());
    assert_eq!(Money::zero().cents(), 0);
}
