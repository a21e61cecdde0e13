use expense_ledger::date::{Date, FIRST_DAY, LAST_DAY};

#[test]
fn date_is_read_as_year_month_day() {
    assert_eq!(Date::parse("1970-01-01").unwrap().epoch_days(), 0);
    assert_eq!(Date::parse("1970-01-02").unwrap().epoch_days(), 1);
    assert_eq!(Date::parse("1969-12-31").unwrap().epoch_days(), -1);
    assert_eq!(Date::parse("2024-01-01").unwrap().epoch_days(), 19723);
    assert_eq!(Date::parse("2023-12-21").unwrap().epoch_days(), 19712);
}

#[test]
fn date_that_is_none_is_not_read() {
    assert!(Date::parse("not-a-date").is_none());
    assert!(Date::parse("").is_none());
    assert!(Date::parse("2023-02-29").is_none());
    assert!(Date::parse("2023-00-10").is_none());
    assert!(Date::parse("2023-12-21 10:00").is_none());
    assert!(Date::parse("2023/12/21").is_none());
}

#[test]
fn calendar_runs_from_year_0_to_year_9999() {
    assert_eq!(Date::parse("0000-01-01").unwrap().epoch_days(), FIRST_DAY);
    assert_eq!(Date::parse("0001-01-01").unwrap().epoch_days(), -719_162);
    assert_eq!(Date::parse("0000-12-31").unwrap().epoch_days(), -719_163);
    assert_eq!(Date::parse("0000-02-29").unwrap().to_iso(), "0000-02-29");
    assert_eq!(Date::parse("9999-12-31").unwrap().epoch_days(), LAST_DAY);
    assert!(Date::parse("-0001-12-31").is_none());
    assert!(Date::parse("+10000-01-01").is_none());
    assert!(Date::parse("-0001-01-01").is_none());
    assert!(Date::from_epoch_days(FIRST_DAY).is_some());
    assert!(Date::from_epoch_days(FIRST_DAY - 1).is_none());
    assert!(Date::from_epoch_days(LAST_DAY).is_some());
    assert!(Date::from_epoch_days(LAST_DAY + 1).is_none());
    assert!(Date::from_epoch_days(i32::MAX).is_none());
    assert!(Date::from_epoch_days(i32::MIN).is_none());
}

#[test]
fn date_is_written_as_year_month_day() {
    assert_eq!(Date::from_epoch_days(0).unwrap().to_iso(), "1970-01-01");
    assert_eq!(Date::from_epoch_days(19712).unwrap().to_iso(), "2023-12-21");
    assert_eq!(Date::from_epoch_days(FIRST_DAY).unwrap().to_iso(), "0000-01-01");
    assert_eq!(Date::from_epoch_days(-719_162).unwrap().to_iso(), "0001-01-01");
    assert_eq!(Date::from_epoch_days(LAST_DAY).unwrap().to_iso(), "9999-12-31");
}

#[test]
fn written_date_reads_back_the_same() {
    for day in [FIRST_DAY, -1, 0, 1, 59, 60, 19712, 19723, LAST_DAY] {
        let date = Date::from_epoch_days(day).unwrap();
        assert_eq!(Date::parse(&date.to_iso()), Some(date));
    }
}
