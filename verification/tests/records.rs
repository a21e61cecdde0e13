use expense_ledger::date::Date;
use expense_ledger::db_repo::{Record, RecordsHolder};
use expense_ledger::error::{BuildError, ParseError};
use expense_ledger::input_validator::{build_record, into_record};
use expense_ledger::money::Money;

fn money(cents: i64) -> Money {
    Money::from_cents(cents).unwrap()
}

fn record(date: &str, store: i64, beer: i64, allos: i64) -> Record {
    Record {
        id: 0,
        store: money(store),
        beer: money(beer),
        allos: money(allos),
        comments: String::new(),
        date: Date::parse(date).unwrap(),
    }
}

#[test]
fn negative_beer_is_taken_off_the_store_amount() {
    let r = into_record("20.00", "-5.00", "0.0", "", "2023-12-21").unwrap();
    assert_eq!(r.store.cents(), 1500);
    assert_eq!(r.beer.cents(), 500);
    assert_eq!(r.allos.cents(), 0);
    assert_eq!(r.date, Date::parse("2023-12-21").unwrap());
    assert_eq!(r.date.epoch_days(), 19712);
    assert_eq!(r.date.to_iso(), "2023-12-21");
    assert_eq!(r.id, 0);
    assert_eq!(r.comments, "");
}

#[test]
fn unreadable_date_fails_the_build() {
    assert_eq!(into_record("10", "5", "0", "", "not-a-date").unwrap_err(), BuildError::InvalidDate);
    assert_eq!(into_record("10", "5", "0", "", "").unwrap_err(), BuildError::InvalidDate);
    assert_eq!(into_record("10", "5", "0", "", "2023-02-30").unwrap_err(), BuildError::InvalidDate);
    assert_eq!(into_record("10", "5", "0", "", "2023-13-01").unwrap_err(), BuildError::InvalidDate);
    assert_eq!(into_record("10", "5", "0", "", "21-12-2023x").unwrap_err(), BuildError::InvalidDate);
}

#[test]
fn plain_entry_is_kept_as_typed() {
    let r = into_record("10+2.5", "3", "1.25", "market", "2024-02-29").unwrap();
    assert_eq!(r.store.cents(), 1250);
    assert_eq!(r.beer.cents(), 300);
    assert_eq!(r.allos.cents(), 125);
    assert_eq!(r.comments, "market");
    assert_eq!(r.date.to_iso(), "2024-02-29");
}

#[test]
fn empty_amounts_are_zero() {
    let r = into_record("", "", "", "nothing", "2024-01-01").unwrap();
    assert_eq!((r.store.cents(), r.beer.cents(), r.allos.cents()), (0, 0, 0));
}

#[test]
fn refund_may_push_the_store_amount_below_zero() {
    let r = into_record("5", "-10", "0", "", "2024-01-01").unwrap();
    assert_eq!(r.store.cents(), -500);
    assert_eq!(r.beer.cents(), 1000);
}

#[test]
fn other_amount_keeps_its_sign() {
    let r = into_record("5", "1", "-3", "", "2024-01-01").unwrap();
    assert_eq!(r.store.cents(), 500);
    assert_eq!(r.beer.cents(), 100);
    assert_eq!(r.allos.cents(), -300);
}

#[test]
fn first_unreadable_amount_decides() {
    assert_eq!(
        into_record("x", "99999999999999999999", "y", "", "not-a-date").unwrap_err(),
        BuildError::Amount(ParseError::MalformedTerm)
    );
    assert_eq!(
        into_record("1", "99999999999999999999", "y", "", "2024-01-01").unwrap_err(),
        BuildError::Amount(ParseError::OutOfRange)
    );
    assert_eq!(
        into_record("1", "2", "y", "", "2024-01-01").unwrap_err(),
        BuildError::Amount(ParseError::MalformedTerm)
    );
    assert_eq!(
        into_record("1", "2", "y", "", "nope").unwrap_err(),
        BuildError::Amount(ParseError::MalformedTerm)
    );
}

#[test]
fn refund_is_taken_off_even_the_lowest_store_amount() {
    let r = into_record("-10000000000000000", "-0.01", "0", "", "2024-01-01").unwrap();
    assert_eq!(r.store.cents(), -1_000_000_000_000_000_001);
    assert_eq!(r.beer.cents(), 1);
    let r = into_record("-10000000000000000", "-10000000000000000", "0", "", "2024-01-01").unwrap();
    assert_eq!(r.store.cents(), -2_000_000_000_000_000_000);
    assert_eq!(r.beer.cents(), 1_000_000_000_000_000_000);
    let r = into_record("10000000000000000", "-10000000000000000", "0", "", "2024-01-01").unwrap();
    assert_eq!(r.store.cents(), 0);
    assert_eq!(r.beer.cents(), 1_000_000_000_000_000_000);
}

#[test]
fn holder_can_be_cloned() {
    let holder = RecordsHolder::new(&vec![record("2024-05-06", 1, 2, 3)]);
    let copy = holder.clone();
    assert_eq!(copy.records.len(), 1);
    assert_eq!(copy.records[0].allos.cents(), 3);
    assert_eq!((copy.store_total, copy.beer_total, copy.allos_total, copy.all_total), (1, 2, 3, 6));
}

#[test]
fn build_with_a_date_already_read() {
    let date = Date::from_epoch_days(0);
    let r = build_record("1", "2", "3", "c", date).unwrap();
    assert_eq!(r.date.to_iso(), "1970-01-01");
    assert_eq!(build_record("1", "2", "3", "c", None).unwrap_err(), BuildError::InvalidDate);
    assert_eq!(
        build_record("1", "", "z", "c", None).unwrap_err(),
        BuildError::Amount(ParseError::MalformedTerm)
    );
}

#[test]
fn totals_of_two_entries_of_one_day() {
    let records = vec![record("2024-01-01", 1000, 500, 0), record("2024-01-01", 0, 0, 200)];
    let holder = RecordsHolder::new(&records);
    assert_eq!(holder.store_total, 1000);
    assert_eq!(holder.beer_total, 500);
    assert_eq!(holder.allos_total, 200);
    assert_eq!(holder.all_total, 1700);
    assert_eq!(holder.distinct_day_count(), 1);
    assert_eq!(holder.records.len(), 2);
}

#[test]
fn totals_of_no_entries() {
    let holder = RecordsHolder::new(&Vec::new());
    assert_eq!(
        (holder.store_total, holder.beer_total, holder.allos_total, holder.all_total),
        (0, 0, 0, 0)
    );
    assert_eq!(holder.distinct_day_count(), 0);
    assert!(holder.records.is_empty());
}

#[test]
fn grand_total_is_the_sum_of_the_daily_summaries() {
    let records = vec![
        record("2024-01-01", 1050, 500, 25),
        record("2024-01-03", -300, 1, 0),
        record("2024-01-02", 2_000_000_000_000_000_000, 2_000_000_000_000_000_000, 2_000_000_000_000_000_000),
        record("2024-01-03", 7, 8, 9),
    ];
    let holder = RecordsHolder::new(&records);
    let one_by_one: i128 = records.iter().map(|r| r.get_day_summary()).sum();
    assert_eq!(holder.all_total, one_by_one);
    assert_eq!(holder.all_total, holder.store_total + holder.beer_total + holder.allos_total);
    assert_eq!(holder.all_total, 6_000_000_000_000_000_000i128 + 1575 - 299 + 24);
    assert_eq!(holder.distinct_day_count(), 3);
    let totals = RecordsHolder::calculate_totals(&records);
    assert_eq!(totals, (holder.store_total, holder.beer_total, holder.allos_total, holder.all_total));
}

#[test]
fn holder_keeps_a_copy_of_the_entries() {
    let records = vec![record("2024-05-06", 1, 2, 3)];
    let holder = RecordsHolder::new(&records);
    assert_eq!(holder.records[0].store.cents(), 1);
    assert_eq!(holder.records[0].date.to_iso(), "2024-05-06");
    let copy = records[0].clone();
    assert_eq!(copy.beer.cents(), 2);
    assert_eq!(copy.comments, records[0].comments);
}

#[test]
fn daily_summary_adds_the_three_amounts() {
    assert_eq!(record("2024-01-01", 1000, 500, 25).get_day_summary(), 1525);
    assert_eq!(record("2024-01-01", -1000, 500, 25).get_day_summary(), -475);
}

#[test]
fn entry_as_a_table_row() {
    let mut r = record("2024-01-09", 1000, 550, 25);
    r.comments = "bread".to_string();
    assert_eq!(r.vec_of_fields(), vec!["2024-01-09", "10", "5.5", "0.25", "15.75", "bread"]);
}
