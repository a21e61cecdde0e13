use expense_ledger::input_validator::convert_to_f32;
use expense_ledger::money::{format2, format_plain, format_whole, round_to_units, Money};

#[test]
fn two_decimals_are_always_written() {
    assert_eq!(format2(0), "0.00");
    assert_eq!(format2(5), "0.05");
    assert_eq!(format2(-5), "-0.05");
    assert_eq!(format2(1230), "12.30");
    assert_eq!(format2(-1500), "-15.00");
    assert_eq!(format2(100), "1.00");
    assert_eq!(format2(1_000_000_000_000_000_000), "10000000000000000.00");
    assert_eq!(format2(i128::MAX), "1701411834604692317316873037158841057.27");
    assert_eq!(format2(i128::MIN), "-1701411834604692317316873037158841057.28");
}

#[test]
fn plain_text_drops_needless_decimals() {
    assert_eq!(format_plain(1000), "10");
    assert_eq!(format_plain(1050), "10.5");
    assert_eq!(format_plain(1525), "15.25");
    assert_eq!(format_plain(0), "0");
    assert_eq!(format_plain(-5), "-0.05");
    assert_eq!(format_plain(-250), "-2.5");
    assert_eq!(format_plain(7), "0.07");
}

#[test]
fn whole_units_round_half_away_from_zero() {
    assert_eq!(round_to_units(250), 3);
    assert_eq!(round_to_units(249), 2);
    assert_eq!(round_to_units(-250), -3);
    assert_eq!(round_to_units(-249), -2);
    assert_eq!(round_to_units(49), 0);
    assert_eq!(round_to_units(-49), 0);
    assert_eq!(round_to_units(0), 0);
}

#[test]
fn text_without_decimals_rounds_ties_to_even_and_keeps_the_sign() {
    assert_eq!(format_whole(1700), "17");
    assert_eq!(format_whole(1750), "18");
    assert_eq!(format_whole(1650), "16");
    assert_eq!(format_whole(250), "2");
    assert_eq!(format_whole(251), "3");
    assert_eq!(format_whole(350), "4");
    assert_eq!(format_whole(50), "0");
    assert_eq!(format_whole(150), "2");
    assert_eq!(format_whole(0), "0");
    assert_eq!(format_whole(-30), "-0");
    assert_eq!(format_whole(-50), "-0");
    assert_eq!(format_whole(-51), "-1");
    assert_eq!(format_whole(-250), "-2");
    assert_eq!(format_whole(-1750), "-18");
    assert_eq!(format_whole(i128::MIN), "-1701411834604692317316873037158841057");
}

#[test]
fn text_without_decimals_is_what_std_writes() {
    for c in -3000i64..=3000 {
        assert_eq!(format_whole(c as i128), format!("{:.0}", c as f64 / 100.0), "{}", c);
    }
    for c in [-250i64, -150, -50, -25, 0, 25, 50, 150, 250, 350, 1750, 102450, 102550] {
        assert_eq!(format_whole(c as i128), format!("{:.0}", c as f32 / 100.0), "{}", c);
    }
}

#[test]
fn text_with_two_decimals_is_what_std_writes() {
    for c in 0i64..=3000 {
        assert_eq!(format2(c as i128), format!("{:.2}", c as f64 / 100.0), "{}", c);
        if c > 0 {
            assert_eq!(format2(-c as i128), format!("{:.2}", -c as f64 / 100.0), "{}", c);
        }
    }
}

#[test]
fn plain_text_is_what_std_writes() {
    for c in -3000i64..=3000 {
        if c != 0 {
            assert_eq!(format_plain(c as i128), (c as f64 / 100.0).to_string(), "{}", c);
        }
    }
    assert_eq!(format_plain(0), 0.0f64.to_string());
}

#[test]
fn money_writes_itself_with_two_decimals() {
    assert_eq!(Money::from_cents(1234).unwrap().format2(), "12.34");
    assert_eq!(Money::from_cents(-1).unwrap().format2(), "-0.01");
}

#[test]
fn written_amount_reads_back_the_same() {
    for c in [0i64, 1, -1, 5, 99, 100, -100, 101, 1050, -1500, 222, 999_999, 1_000_000_000_000_000_000, -1_000_000_000_000_000_000] {
        let text = Money::from_cents(c).unwrap().format2();
        assert_eq!(convert_to_f32(&text).unwrap().cents(), c);
    }
    for text in ["1.111+1.111", "-(5+10)", "10+", "0.005", " 7 "] {
        let first = convert_to_f32(text).unwrap();
        let again = convert_to_f32(&first.format2()).unwrap();
        assert_eq!(again, first);
    }
}

#[test]
fn sum_of_two_written_amounts() {
    for (a, b) in [(0i64, 0i64), (1050, 25), (1, -1), (500, -1500), (99, 1), (1_000_000_000_000_000_000, -1)] {
        let text = format!("{}+{}", format2(a as i128), format2(b as i128));
        assert_eq!(convert_to_f32(&text).unwrap().cents(), a + b);
    }
}

#[test]
fn sum_behind_a_negative_amount_is_negated_as_a_whole() {
    let text = format!("{}+{}", format2(-500), format2(300));
    assert_eq!(text, "-5.00+3.00");
    assert_eq!(convert_to_f32(&text).unwrap().cents(), -800);
    let text = format!("{}+{}", format2(-500), format2(0));
    assert_eq!(convert_to_f32(&text).unwrap().cents(), -500);
    let text = format!("{}+{}", format2(-500), format2(-300));
    assert_eq!(convert_to_f32(&text).unwrap().cents(), -200);
}

#[test]
fn minus_before_a_minus_negates_the_first_term_only() {
    assert_eq!(convert_to_f32("-5+10").unwrap().cents(), -1500);
    assert_eq!(convert_to_f32("--5+10").unwrap().cents(), -500);
    assert_eq!(convert_to_f32("-5").unwrap().cents(), -500);
    assert_eq!(convert_to_f32("--5").unwrap().cents(), 500);
}

#[test]
fn minus_in_front_negates() {
    for text in ["5", "5+10", "(5+10)", "", "1.111+1.111", "10+", "+10", "0.005", "3+-4"] {
        let plain = convert_to_f32(text).unwrap().cents();
        let negated = convert_to_f32(&format!("-{}", text)).unwrap().cents();
        assert_eq!(negated, -plain);
    }
}
