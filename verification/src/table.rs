//! The table of entries: its rows and its footer of totals.

use vstd::prelude::*;
use vstd::string::StringExecFns;
use crate::db_repo::{day_set, Record, RecordsHolder};
use crate::date::iso_label;
use crate::money::{decimal_digits, format2, format_count, plain_text, two_decimals};

verus! {

pub open spec fn days_caption() -> Seq<char> {
    "Ημέρεz : "@
}

pub open spec fn store_caption() -> Seq<char> {
    "Προϊόντα: "@
}

pub open spec fn beer_caption() -> Seq<char> {
    "Μπύρα: "@
}

pub open spec fn allos_caption() -> Seq<char> {
    "Αλλος: "@
}

pub open spec fn total_caption() -> Seq<char> {
    "Σύνολο: "@
}

/// The headings of the table's columns.
pub fn header() -> (cells: Vec<String>)
    ensures
        cells.len() == 6,
        cells[0]@ == "Ημερομηνία"@,
        cells[1]@ == "Προϊόντα"@,
        cells[2]@ == "Μπύρα"@,
        cells[3]@ == "Αλλος"@,
        cells[4]@ == "Σύνολο σε μέρα"@,
        cells[5]@ == "Σχόλια"@,
{
    let mut cells: Vec<String> = Vec::new();
    cells.push("Ημερομηνία".to_owned());
    cells.push("Προϊόντα".to_owned());
    cells.push("Μπύρα".to_owned());
    cells.push("Αλλος".to_owned());
    cells.push("Σύνολο σε μέρα".to_owned());
    cells.push("Σχόλια".to_owned());
    cells
}

/// Whether `row` is the table row of the entry `r`: date, the three
/// amounts, their sum with two decimals, and the comment.
pub open spec fn is_row_of(row: Seq<String>, r: Record) -> bool {
    &&& row.len() == 6
    &&& row[0]@ == iso_label(r.date@)
    &&& row[1]@ == plain_text(r.store@)
    &&& row[2]@ == plain_text(r.beer@)
    &&& row[3]@ == plain_text(r.allos@)
    &&& row[4]@ == two_decimals(r.day_summary())
    &&& row[5]@ == r.comments@
}

/// One row for each entry, in the order of the entries.
pub fn rows(holder: &RecordsHolder) -> (rows: Vec<Vec<String>>)
    ensures
        rows.len() == holder.records.len(),
        forall|i: int| 0 <= i < rows.len() ==> is_row_of((#[trigger] rows[i])@, holder.records[i]),
{
    let mut rows: Vec<Vec<String>> = Vec::new();
    let mut i: usize = 0;
    while i < holder.records.len()
        invariant
            i <= holder.records.len(),
            rows.len() == i,
            forall|k: int| 0 <= k < i ==> is_row_of((#[trigger] rows[k])@, holder.records[k]),
        decreases holder.records.len() - i,
    {
        rows.push(holder.records[i].vec_of_fields());
        i = i + 1;
    }
    rows
}

/// The footer: the number of days with entries, then the four totals, each
/// with two decimals, each behind its caption.
pub fn footer(holder: &RecordsHolder) -> (cells: Vec<String>)
    ensures
        cells.len() == 5,
        cells[0]@ == days_caption() + decimal_digits(day_set(holder.records@).len()),
        cells[1]@ == store_caption() + two_decimals(holder.store_total as int),
        cells[2]@ == beer_caption() + two_decimals(holder.beer_total as int),
        cells[3]@ == allos_caption() + two_decimals(holder.allos_total as int),
        cells[4]@ == total_caption() + two_decimals(holder.all_total as int),
{
    let mut cells: Vec<String> = Vec::new();
    cells.push("Ημέρεz : ".to_owned().concat(format_count(holder.distinct_day_count()).as_str()));
    cells.push("Προϊόντα: ".to_owned().concat(format2(holder.store_total).as_str()));
    cells.push("Μπύρα: ".to_owned().concat(format2(holder.beer_total).as_str()));
    cells.push("Αλλος: ".to_owned().concat(format2(holder.allos_total).as_str()));
    cells.push("Σύνολο: ".to_owned().concat(format2(holder.all_total).as_str()));
    cells
}

} // verus!
