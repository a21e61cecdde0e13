use expense_ledger::chart::{
    create_time_serie, flatten_by_dates, time_serie, vertical_bar, vertical_barchart,
};
use expense_ledger::date::{Date, LAST_DAY};
use expense_ledger::db_repo::Record;
use expense_ledger::money::Money;

fn record(date: &str, store: i64, beer: i64, allos: i64) -> Record {
    Record {
        id: 0,
        store: Money::from_cents(store).unwrap(),
        beer: Money::from_cents(beer).unwrap(),
        allos: Money::from_cents(allos).unwrap(),
        comments: String::new(),
        date: Date::parse(date).unwrap(),
    }
}

fn day(date: &str) -> i32 {
    Date::parse(date).unwrap().epoch_days()
}

#[test]
fn entries_are_grouped_by_day_in_order_of_appearance() {
    let records = vec![
        record("2024-01-03", 100, 0, 0),
        record("2024-01-01", 1000, 500, 0),
        record("2024-01-03", 0, 20, 3),
        record("2024-01-02", 1, 1, 1),
        record("2024-01-01", 0, 0, 200),
    ];
    let map = flatten_by_dates(&records);
    let pairs: Vec<(i32, i128)> = map.iter().map(|(k, v)| (*k, *v)).collect();
    assert_eq!(
        pairs,
        vec![(day("2024-01-03"), 123), (day("2024-01-01"), 1700), (day("2024-01-02"), 3)]
    );
    assert!(flatten_by_dates(&[]).is_empty());
}

#[test]
fn empty_ledger_gives_a_window_of_zero_bars() {
    let points = create_time_serie(Vec::new(), Date::parse("2024-01-01").unwrap());
    assert_eq!(points.len(), 32);
    for (i, p) in points.iter().enumerate() {
        assert_eq!(p.day, day("2024-01-01") + i as i32);
        assert_eq!(p.value, 0);
    }
    assert_eq!(points[0].label, "Jan-01");
    assert_eq!(points[30].label, "Jan-31");
    assert_eq!(points[31].label, "Feb-01");
}

#[test]
fn days_with_entries_carry_their_sums() {
    let records = vec![
        record("2024-01-01", 1000, 500, 0),
        record("2024-01-05", 250, 0, 0),
        record("2024-01-01", 0, 0, 200),
    ];
    let points = create_time_serie(records, Date::parse("2024-01-01").unwrap());
    assert_eq!(points.len(), 32);
    assert_eq!(points[0].value, 1700);
    assert_eq!(points[4].value, 250);
    assert_eq!(points[4].label, "Jan-05");
    for (i, p) in points.iter().enumerate() {
        if i != 0 && i != 4 {
            assert_eq!(p.value, 0);
        }
    }
}

#[test]
fn days_outside_the_window_are_kept_too() {
    let records = vec![
        record("2024-03-15", 700, 0, 0),
        record("2023-12-24", 1, 2, 3),
        record("2024-01-10", 10, 0, 0),
    ];
    let points = create_time_serie(records, Date::parse("2024-01-01").unwrap());
    assert_eq!(points.len(), 34);
    assert_eq!((points[0].day, points[0].value), (day("2023-12-24"), 6));
    assert_eq!(points[0].label, "Dec-24");
    assert_eq!((points[1].day, points[1].value), (day("2024-01-01"), 0));
    assert_eq!((points[10].day, points[10].value), (day("2024-01-10"), 10));
    assert_eq!((points[33].day, points[33].value), (day("2024-03-15"), 700));
    assert_eq!(points[33].label, "Mar-15");
    for pair in points.windows(2) {
        assert!(pair[0].day < pair[1].day);
    }
}

#[test]
fn every_day_of_the_window_stands_once() {
    let records = vec![record("2024-02-10", 5, 0, 0), record("2024-02-10", 5, 0, 0)];
    let start = Date::parse("2024-02-01").unwrap();
    let points = time_serie(records, start, 29);
    assert!(points.len() >= 29);
    for offset in 0..29 {
        let wanted = start.epoch_days() + offset;
        assert_eq!(points.iter().filter(|p| p.day == wanted).count(), 1);
    }
    assert_eq!(points[9].value, 10);
    assert_eq!(points.iter().filter(|p| p.value != 0).count(), 1);
}

#[test]
fn window_of_no_days_shows_only_days_with_entries() {
    let records = vec![record("2024-02-10", 5, 0, 0)];
    let points = time_serie(records, Date::parse("2024-02-01").unwrap(), 0);
    assert_eq!(points.len(), 1);
    assert_eq!(points[0].label, "Feb-10");
    assert!(time_serie(Vec::new(), Date::parse("2024-02-01").unwrap(), 0).is_empty());
}

#[test]
fn window_may_run_past_the_last_date() {
    let points = time_serie(Vec::new(), Date::from_epoch_days(LAST_DAY).unwrap(), u16::MAX);
    assert_eq!(points.len(), 65535);
    assert_eq!(points[0].label, "Dec-31");
    assert_eq!(points[1].label, "Jan-01");
    assert_eq!(points[65534].day, LAST_DAY + 65534);
}

#[test]
fn bar_shows_whole_units() {
    let bar = vertical_bar("Jan-01", 1700);
    assert_eq!((bar.value, bar.label.as_str(), bar.text_value.as_str()), (17, "Jan-01", "17"));
    let bar = vertical_bar("Jan-02", 1750);
    assert_eq!((bar.value, bar.text_value.as_str()), (18, "18"));
    let bar = vertical_bar("Jan-03", -1750);
    assert_eq!((bar.value, bar.text_value.as_str()), (0, "-18"));
    let bar = vertical_bar("Jan-04", 0);
    assert_eq!((bar.value, bar.text_value.as_str()), (0, "0"));
    let bar = vertical_bar("x", i128::MAX);
    assert_eq!(bar.value, u64::MAX);
}

#[test]
fn bar_height_and_bar_text_part_at_a_tie() {
    let bar = vertical_bar("d", 250);
    assert_eq!((bar.value, bar.text_value.as_str()), (3, "2"));
    let bar = vertical_bar("d", 350);
    assert_eq!((bar.value, bar.text_value.as_str()), (4, "4"));
    let bar = vertical_bar("d", 50);
    assert_eq!((bar.value, bar.text_value.as_str()), (1, "0"));
    let bar = vertical_bar("d", -30);
    assert_eq!((bar.value, bar.text_value.as_str()), (0, "-0"));
}

#[test]
fn bar_is_what_std_makes_of_the_value() {
    for c in -1000i64..=3000 {
        let value = c as f32 / 100.0;
        let bar = vertical_bar("d", c as i128);
        assert_eq!(bar.value, value.round() as u64, "{}", c);
        assert_eq!(bar.text_value, format!("{:.0}", value), "{}", c);
    }
}

#[test]
fn chart_has_one_bar_for_each_point() {
    let records = vec![record("2024-01-02", 1000, 550, 0), record("2024-02-20", 99, 0, 0)];
    let bars = vertical_barchart(records, Date::parse("2024-01-01").unwrap());
    assert_eq!(bars.len(), 33);
    assert_eq!((bars[1].value, bars[1].label.as_str(), bars[1].text_value.as_str()), (16, "Jan-02", "16"));
    assert_eq!((bars[0].value, bars[0].label.as_str()), (0, "Jan-01"));
    assert_eq!((bars[32].value, bars[32].label.as_str()), (1, "Feb-20"));
}
