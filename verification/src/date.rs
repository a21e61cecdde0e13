//! Calendar dates, held as day numbers. Reading and writing them as text is
//! left to `chrono`.

use vstd::prelude::*;
use chrono::NaiveDate;

verus! {

/// Day number of 1 January of the year 0, counted from 1 January 1970.
pub const FIRST_DAY: i32 = -719_528;

/// Day number of 31 December 9999, counted from 1 January 1970.
pub const LAST_DAY: i32 = 2_932_896;

/// The longest span of days that a chart may cover.
pub const LONGEST_WINDOW: i32 = 65_535;

/// A calendar date between the years 0 and 9999: the dates that are written
/// with a four-digit year.
#[derive(Clone, Copy, Debug, PartialEq, Eq, Structural)]
pub struct Date {
    days: i32,
}

impl View for Date {
    type V = i32;

    /// The date's day number, counted from 1 January 1970.
    closed spec fn view(&self) -> i32 {
        self.days
    }
}

/// Whether the day number `day` is that of a `Date`.
pub open spec fn in_calendar(day: int) -> bool {
    FIRST_DAY <= day <= LAST_DAY
}

/// Whether the day number `day` can stand on a chart: it is that of a date,
/// or follows the last date by no more than the longest window.
pub open spec fn chartable(day: int) -> bool {
    FIRST_DAY <= day <= LAST_DAY + LONGEST_WINDOW
}

/// The day number that `chrono` reads from `text` as year, month and day
/// separated by hyphens, if it reads one.
pub uninterp spec fn parsed_date(text: Seq<char>) -> Option<i32>;

/// The text that `chrono` writes for the day `day` as abbreviated month name,
/// hyphen, day of the month.
pub uninterp spec fn month_day_label(day: i32) -> Seq<char>;

/// The text that `chrono` writes for the day `day` as year, month and day
/// separated by hyphens.
pub uninterp spec fn iso_label(day: i32) -> Seq<char>;

/// `NaiveDate::parse_from_str` with the format `%Y-%m-%d`, the date it
/// returns turned into its day number by `NaiveDate::to_epoch_days`. Nothing
/// is claimed of the result but that it depends on the text alone.
#[verifier::external_body]
fn read_date(text: &str) -> (r: Option<i32>)
    ensures
        r == parsed_date(text@),
{
    match NaiveDate::parse_from_str(text, "%Y-%m-%d") {
        Ok(date) => Some(date.to_epoch_days()),
        Err(_) => None,
    }
}

/// `NaiveDate::format` with the format `%b-%d`, on the date that
/// `NaiveDate::from_epoch_days` makes of `day`. The days admitted are all
/// within the years that `chrono` supports. Nothing is claimed of the text
/// but that it depends on the day alone.
#[verifier::external_body]
pub(crate) fn write_month_day(day: i32) -> (s: String)
    requires
        chartable(day as int),
    ensures
        s@ == month_day_label(day),
{
    match NaiveDate::from_epoch_days(day) {
        Some(date) => date.format("%b-%d").to_string(),
        None => String::new(),
    }
}

/// `NaiveDate::format` with the format `%Y-%m-%d`, on the date that
/// `NaiveDate::from_epoch_days` makes of `day`. The days admitted are all
/// within the years that `chrono` supports. Nothing is claimed of the text
/// but that it depends on the day alone.
#[verifier::external_body]
fn write_iso(day: i32) -> (s: String)
    requires
        chartable(day as int),
    ensures
        s@ == iso_label(day),
{
    match NaiveDate::from_epoch_days(day) {
        Some(date) => date.format("%Y-%m-%d").to_string(),
        None => String::new(),
    }
}

impl Date {
    #[verifier::type_invariant]
    spec fn in_range(self) -> bool {
        FIRST_DAY <= self.days <= LAST_DAY
    }

    /// The date with the day number `days`, if it lies in the calendar.
    pub fn from_epoch_days(days: i32) -> (r: Option<Date>)
        ensures
            r is Some <==> in_calendar(days as int),
            r is Some ==> r->0@ == days,
    {
        if FIRST_DAY <= days && days <= LAST_DAY {
            Some(Date { days })
        } else {
            None
        }
    }

    /// The date's day number, counted from 1 January 1970.
    pub fn epoch_days(&self) -> (d: i32)
        ensures
            d == self@,
            in_calendar(d as int),
    {
        proof {
            use_type_invariant(self);
        }
        self.days
    }

    /// The date that `text` spells as year, month and day separated by
    /// hyphens, if it spells one of the calendar.
    pub fn parse(text: &str) -> (r: Option<Date>)
        ensures
            r is Some <==> parsed_date(text@) is Some && in_calendar(parsed_date(text@)->0 as int),
            r is Some ==> Some(r->0@) == parsed_date(text@),
    {
        match read_date(text) {
            Some(days) => Date::from_epoch_days(days),
            None => None,
        }
    }

    /// The date as year, month and day separated by hyphens.
    pub fn to_iso(&self) -> (s: String)
        ensures
            s@ == iso_label(self@),
    {
        write_iso(self.epoch_days())
    }

    /// Two dates of the same day number are the same date.
    pub proof fn lemma_same_day(a: Date, b: Date)
        requires
            a@ == b@,
        ensures
            a == b,
    {
    }
}

} // verus!
