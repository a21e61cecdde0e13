//! The day-by-day series behind the bar chart.
//!
//! A chart covers a window of consecutive days. Every day of the window
//! gets a bar, with or without entries; a day outside the window gets one
//! if it has entries. The bars stand in the order of their days.

use indexmap::IndexMap;
use vstd::prelude::*;
use crate::date::{chartable, in_calendar, month_day_label, write_month_day, Date};
use crate::day_map::{
    distinct_keys, entries, has_key, lemma_extended, lemma_position, lemma_position_of,
    lemma_sorted, lookup, map_entry, map_extend, map_get, map_insert, map_len, map_sort_keys,
    new_map,
};
use crate::db_repo::Record;
use crate::money::{format_whole, round_to_units, whole_text, whole_units};

verus! {

/// The length in days of the window that a chart covers by default.
pub const DEFAULT_WINDOW: u16 = 32;

/// No entry comes to more than this, in hundredths.
pub const MAX_SUMMARY: i128 = 6_000_000_000_000_000_000;

/// What the entries of `rs` that fall on `day` come to, in hundredths.
pub open spec fn daily_total(rs: Seq<Record>, day: i32) -> int
    decreases rs.len(),
{
    if rs.len() == 0 {
        0
    } else if rs.last().date@ == day {
        daily_total(rs.drop_last(), day) + rs.last().day_summary()
    } else {
        daily_total(rs.drop_last(), day)
    }
}

/// Whether `rs` has an entry on `day`.
pub open spec fn has_entry_on(rs: Seq<Record>, day: i32) -> bool {
    exists|j: int| 0 <= j < rs.len() && rs[j].date@ == day
}

/// The days on which `rs` has entries, each once, in the order in which
/// they first appear.
pub open spec fn first_days(rs: Seq<Record>) -> Seq<i32>
    decreases rs.len(),
{
    if rs.len() == 0 {
        Seq::empty()
    } else {
        let before = first_days(rs.drop_last());
        if before.contains(rs.last().date@) {
            before
        } else {
            before.push(rs.last().date@)
        }
    }
}

/// The entries of `rs` grouped by day: one pair for each day that has
/// entries, in the order in which the days first appear, with what the
/// day's entries come to.
pub open spec fn flattened(rs: Seq<Record>) -> Seq<(i32, i128)> {
    Seq::new(
        first_days(rs).len(),
        |i: int| (first_days(rs)[i], daily_total(rs, first_days(rs)[i]) as i128),
    )
}

/// Whether `day` lies in the window of `length` days that starts at `start`.
pub open spec fn in_window(start: i32, length: int, day: i32) -> bool {
    start <= day < start + length
}

/// The window with nothing spent: one pair for each of its days, in order.
pub open spec fn blank_window(start: i32, length: int) -> Seq<(i32, i128)> {
    Seq::new(length as nat, |i: int| ((start + i) as i32, 0i128))
}

/// Whether `s` is the chart series of `rs` over the window: its days rise
/// strictly; they are the days of the window and the days with entries, and
/// no others; and each day stands with what its entries come to.
pub open spec fn is_time_serie(s: Seq<(i32, i128)>, rs: Seq<Record>, start: i32, length: int) -> bool {
    &&& forall|i: int, j: int| 0 <= i < j < s.len() ==> s[i].0 < s[j].0
    &&& forall|day: i32| #[trigger]
        has_key(s, day) <==> in_window(start, length, day) || has_entry_on(rs, day)
    &&& forall|i: int| 0 <= i < s.len() ==> (#[trigger] s[i]).1 == daily_total(rs, s[i].0)
}

/// One bar of the chart.
#[derive(Debug)]
pub struct TimeSeriesPoint {
    /// The day, counted from 1 January 1970.
    pub day: i32,
    /// The day as month name and day of the month.
    pub label: String,
    /// What was spent on the day, in hundredths.
    pub value: i128,
}

/// Day and value of each point.
pub open spec fn chart_entries(points: Seq<TimeSeriesPoint>) -> Seq<(i32, i128)> {
    Seq::new(points.len(), |i: int| (points[i].day, points[i].value))
}

pub proof fn lemma_first_days(rs: Seq<Record>)
    ensures
        first_days(rs).no_duplicates(),
        forall|day: i32| #[trigger] first_days(rs).contains(day) <==> has_entry_on(rs, day),
    decreases rs.len(),
{
    if rs.len() > 0 {
        let head = rs.drop_last();
        let last = rs.last().date@;
        lemma_first_days(head);
        assert forall|day: i32| #[trigger] first_days(rs).contains(day) <==> has_entry_on(
            rs,
            day,
        ) by {
            if first_days(rs).contains(day) {
                let i = choose|i: int| 0 <= i < first_days(rs).len() && first_days(rs)[i] == day;
                if i < first_days(head).len() {
                    assert(first_days(head)[i] == day);
                    assert(first_days(head).contains(day));
                    let j = choose|j: int| 0 <= j < head.len() && head[j].date@ == day;
                    assert(rs[j].date@ == day);
                } else {
                    assert(rs[rs.len() - 1].date@ == day);
                }
            }
            if has_entry_on(rs, day) {
                let j = choose|j: int| 0 <= j < rs.len() && rs[j].date@ == day;
                if j < head.len() {
                    assert(head[j].date@ == day);
                    assert(has_entry_on(head, day));
                    assert(first_days(head).contains(day));
                    let i = choose|i: int|
                        0 <= i < first_days(head).len() && first_days(head)[i] == day;
                    assert(first_days(rs)[i] == day);
                } else if first_days(head).contains(last) {
                } else {
                    assert(first_days(rs)[first_days(head).len() as int] == day);
                }
            }
        }
    }
}

/// A day without entries comes to nothing.
pub proof fn lemma_daily_total_absent(rs: Seq<Record>, day: i32)
    requires
        !has_entry_on(rs, day),
    ensures
        daily_total(rs, day) == 0,
    decreases rs.len(),
{
    if rs.len() > 0 {
        let head = rs.drop_last();
        assert(rs[rs.len() - 1].date@ != day);
        assert forall|j: int| 0 <= j < head.len() implies head[j].date@ != day by {
            assert(rs[j].date@ == head[j].date@);
        }
        lemma_daily_total_absent(head, day);
    }
}

/// Grouped by day, no day stands twice; the days are those with entries;
/// and each stands with what its entries come to.
pub proof fn lemma_flattened(rs: Seq<Record>)
    ensures
        distinct_keys(flattened(rs)),
        forall|day: i32| #[trigger] has_key(flattened(rs), day) <==> has_entry_on(rs, day),
        forall|day: i32|
            has_entry_on(rs, day) ==> #[trigger] lookup(flattened(rs), day) == daily_total(
                rs,
                day,
            ) as i128,
{
    let f = flattened(rs);
    lemma_first_days(rs);
    assert forall|day: i32| #[trigger] has_key(f, day) <==> has_entry_on(rs, day) by {
        if has_key(f, day) {
            let i = choose|i: int| 0 <= i < f.len() && f[i].0 == day;
            assert(first_days(rs)[i] == day);
            assert(first_days(rs).contains(day));
        }
        if has_entry_on(rs, day) {
            assert(first_days(rs).contains(day));
            let i = choose|i: int| 0 <= i < first_days(rs).len() && first_days(rs)[i] == day;
            assert(f[i].0 == day);
        }
    }
    assert forall|day: i32| has_entry_on(rs, day) implies #[trigger] lookup(f, day)
        == daily_total(rs, day) as i128 by {
        assert(has_key(f, day));
        let i = choose|i: int| 0 <= i < f.len() && f[i].0 == day;
        lemma_position_of(f, i);
    }
}

/// The days of the blank window are the days of the window, each once,
/// and each with nothing spent.
pub proof fn lemma_blank_window(start: i32, length: int)
    requires
        0 <= length,
        start + length <= i32::MAX,
    ensures
        distinct_keys(blank_window(start, length)),
        forall|day: i32| #[trigger]
            has_key(blank_window(start, length), day) <==> in_window(start, length, day),
        forall|day: i32|
            in_window(start, length, day) ==> #[trigger] lookup(blank_window(start, length), day)
                == 0,
{
    let w = blank_window(start, length);
    assert forall|day: i32| #[trigger] has_key(w, day) <==> in_window(start, length, day) by {
        if has_key(w, day) {
            let i = choose|i: int| 0 <= i < w.len() && w[i].0 == day;
            assert(w[i].0 == start + i);
        }
        if in_window(start, length, day) {
            assert(w[day - start].0 == day);
        }
    }
    assert forall|day: i32| in_window(start, length, day) implies #[trigger] lookup(w, day)
        == 0 by {
        assert(w[day - start].0 == day);
        lemma_position_of(w, day - start);
    }
}

/// Groups the entries by day, adding up what the entries of a day come to.
pub fn flatten_by_dates(records: &[Record]) -> (map: IndexMap<i32, i128>)
    ensures
        entries(map) == flattened(records@),
        forall|j: int| 0 <= j < records.len() ==> in_calendar(#[trigger] records[j].date@ as int),
        forall|day: i32|
            -MAX_SUMMARY * records.len() <= #[trigger] daily_total(records@, day) <= MAX_SUMMARY
                * records.len(),
{
    let mut map = new_map();
    let mut i: usize = 0;
    proof {
        assert(records@.take(0) =~= Seq::<Record>::empty());
        assert(entries(map) =~= flattened(records@.take(0)));
        assert(MAX_SUMMARY * 0 == 0);
    }
    while i < records.len()
        invariant
            i <= records.len(),
            entries(map) == flattened(records@.take(i as int)),
            forall|j: int| 0 <= j < i ==> in_calendar(#[trigger] records[j].date@ as int),
            forall|day: i32|
                -MAX_SUMMARY * i <= #[trigger] daily_total(records@.take(i as int), day)
                    <= MAX_SUMMARY * i,
        decreases records.len() - i,
    {
        let r = &records[i];
        let key = r.date.epoch_days();
        let x = r.get_day_summary();
        let ghost cur = records@.take(i as int);
        let ghost next = records@.take(i as int + 1);
        let ghost before = entries(map);
        proof {
            assert(next.drop_last() =~= cur);
            assert(next.last() == records[i as int]);
            lemma_first_days(cur);
            lemma_flattened(cur);
            lemma_position(before, key);
            assert(MAX_SUMMARY * i + MAX_SUMMARY == MAX_SUMMARY * (i + 1)) by (nonlinear_arith);
            assert(MAX_SUMMARY * (i + 1) <= MAX_SUMMARY * 0x1_0000_0000_0000_0000)
                by (nonlinear_arith)
                requires
                    i + 1 <= 0x1_0000_0000_0000_0000,
            ;
            assert forall|day: i32|
                -MAX_SUMMARY * (i + 1) <= #[trigger] daily_total(next, day) <= MAX_SUMMARY * (i
                    + 1) by {
                assert(-MAX_SUMMARY * i <= daily_total(cur, day) <= MAX_SUMMARY * i);
            }
        }
        match map_get(&map, key) {
            Some(v) => {
                proof {
                    let j = choose|j: int| 0 <= j < before.len() && before[j] == (key, v);
                    lemma_position_of(before, j);
                    assert(first_days(cur)[j] == key);
                    assert(first_days(cur).contains(key));
                    assert(v == daily_total(cur, key));
                }
                map_insert(&mut map, key, v + x);
                proof {
                    assert(first_days(next) == first_days(cur));
                    assert(entries(map) =~= flattened(next));
                }
            },
            None => {
                proof {
                    assert(!has_key(before, key));
                    assert(!has_entry_on(cur, key));
                    lemma_daily_total_absent(cur, key);
                    assert(!first_days(cur).contains(key));
                    assert(first_days(next) == first_days(cur).push(key));
                }
                map_insert(&mut map, key, x);
                proof {
                    assert forall|q: int| 0 <= q < first_days(cur).len() implies first_days(cur)[q]
                        != key by {
                        assert(before[q].0 == first_days(cur)[q]);
                    }
                    assert(entries(map) =~= flattened(next));
                }
            },
        }
        i = i + 1;
    }
    proof {
        assert(records@.take(records.len() as int) =~= records@);
    }
    map
}

/// The chart series of `records` over the window of `window_length` days
/// that starts at `window_start`.
pub fn time_serie(records: Vec<Record>, window_start: Date, window_length: u16) -> (points: Vec<
    TimeSeriesPoint,
>)
    ensures
        is_time_serie(
            chart_entries(points@),
            records@,
            window_start@,
            window_length as int,
        ),
        forall|i: int|
            0 <= i < points.len() ==> (#[trigger] points[i]).label@ == month_day_label(
                points[i].day,
            ),
{
    let expenses = flatten_by_dates(records.as_slice());
    let start = window_start.epoch_days();
    let mut serie = new_map();
    let mut i: u16 = 0;
    proof {
        assert(entries(serie) =~= blank_window(start, 0));
    }
    while i < window_length
        invariant
            i <= window_length,
            in_calendar(start as int),
            entries(serie) == blank_window(start, i as int),
        decreases window_length - i,
    {
        let day: i32 = start + i as i32;
        let ghost before = entries(serie);
        proof {
            lemma_position(before, day);
            if has_key(before, day) {
                let q = choose|q: int| 0 <= q < before.len() && before[q].0 == day;
                assert(before[q].0 == start + q);
            }
        }
        map_insert(&mut serie, day, 0);
        proof {
            assert(entries(serie) =~= blank_window(start, i as int + 1));
        }
        i = i + 1;
    }
    map_extend(&mut serie, expenses);
    let ghost merged = entries(serie);
    map_sort_keys(&mut serie);
    let ghost sorted = entries(serie);
    let ghost length = window_length as int;
    proof {
        let blank = blank_window(start, length);
        let grouped = flattened(records@);
        lemma_blank_window(start, length);
        lemma_flattened(records@);
        lemma_extended(blank, grouped);
        lemma_sorted(merged, sorted);
        assert forall|day: i32| #[trigger]
            has_key(sorted, day) <==> in_window(start, length, day) || has_entry_on(
                records@,
                day,
            ) by {
            assert(has_key(sorted, day) <==> has_key(merged, day));
            assert(has_key(merged, day) <==> has_key(blank, day) || has_key(grouped, day));
            assert(has_key(blank, day) <==> in_window(start, length, day));
            assert(has_key(grouped, day) <==> has_entry_on(records@, day));
        }
        assert forall|q: int| 0 <= q < sorted.len() implies (#[trigger] sorted[q]).1
            == daily_total(records@, sorted[q].0) && chartable(sorted[q].0 as int) by {
            let day = sorted[q].0;
            assert(sorted[q].1 == lookup(merged, day));
            assert(has_key(sorted, day));
            assert(-MAX_SUMMARY * records.len() <= daily_total(records@, day) <= MAX_SUMMARY
                * records.len());
            assert(MAX_SUMMARY * records.len() <= MAX_SUMMARY * 0x1_0000_0000_0000_0000)
                by (nonlinear_arith)
                requires
                    records.len() <= 0x1_0000_0000_0000_0000,
            ;
            if has_entry_on(records@, day) {
                assert(has_key(grouped, day));
                assert(lookup(merged, day) == lookup(grouped, day));
                let j = choose|j: int| 0 <= j < records.len() && records[j].date@ == day;
                assert(in_calendar(records[j].date@ as int));
            } else {
                assert(has_key(blank, day) && !has_key(grouped, day));
                assert(lookup(merged, day) == lookup(blank, day));
                lemma_daily_total_absent(records@, day);
            }
        }
    }
    let n = map_len(&serie);
    let mut points: Vec<TimeSeriesPoint> = Vec::new();
    let mut k: usize = 0;
    while k < n
        invariant
            k <= n,
            n == sorted.len(),
            sorted == entries(serie),
            points.len() == k,
            forall|q: int| 0 <= q < sorted.len() ==> chartable((#[trigger] sorted[q]).0 as int),
            forall|q: int|
                0 <= q < k ==> {
                    &&& (#[trigger] points[q]).day == sorted[q].0
                    &&& points[q].value == sorted[q].1
                    &&& points[q].label@ == month_day_label(points[q].day)
                },
        decreases n - k,
    {
        if let Some((day, value)) = map_entry(&serie, k) {
            let label = write_month_day(day);
            points.push(TimeSeriesPoint { day, label, value });
        }
        k = k + 1;
    }
    proof {
        assert(chart_entries(points@) =~= sorted);
    }
    points
}

/// The chart series of `records` over the default window that starts at
/// `current_month`.
pub fn create_time_serie(records: Vec<Record>, current_month: Date) -> (points: Vec<
    TimeSeriesPoint,
>)
    ensures
        is_time_serie(
            chart_entries(points@),
            records@,
            current_month@,
            DEFAULT_WINDOW as int,
        ),
        forall|i: int|
            0 <= i < points.len() ==> (#[trigger] points[i]).label@ == month_day_label(
                points[i].day,
            ),
{
    time_serie(records, current_month, DEFAULT_WINDOW)
}

/// Whether `day` stands in `s` once and no more.
pub open spec fn stands_once(s: Seq<(i32, i128)>, day: i32) -> bool {
    exists|i: int|
        0 <= i < s.len() && s[i].0 == day && forall|j: int|
            0 <= j < s.len() && s[j].0 == day ==> j == i
}

/// In a chart series the `k`-th day of the window stands at index `k` or
/// later.
proof fn lemma_window_day_index(
    s: Seq<(i32, i128)>,
    rs: Seq<Record>,
    start: i32,
    length: int,
    k: int,
) -> (i: int)
    requires
        is_time_serie(s, rs, start, length),
        0 <= k < length,
        start + length - 1 <= i32::MAX,
    ensures
        k <= i < s.len(),
        s[i].0 == start + k,
    decreases k,
{
    let day = (start + k) as i32;
    assert(in_window(start, length, day));
    assert(has_key(s, day));
    let i = choose|i: int| 0 <= i < s.len() && s[i].0 == day;
    if k > 0 {
        let before = lemma_window_day_index(s, rs, start, length, k - 1);
        if i <= before {
            if i < before {
                assert(s[i].0 < s[before].0);
            }
        }
    }
    i
}

/// A chart series is at least as long as its window. Every day of the
/// window stands in it exactly once. A day without entries stands with
/// nothing spent.
pub proof fn lemma_window_is_covered(
    s: Seq<(i32, i128)>,
    rs: Seq<Record>,
    start: i32,
    length: int,
)
    requires
        is_time_serie(s, rs, start, length),
        0 <= length,
        start + length - 1 <= i32::MAX,
    ensures
        s.len() >= length,
        forall|day: i32| in_window(start, length, day) ==> #[trigger] stands_once(s, day),
        forall|i: int|
            0 <= i < s.len() && !has_entry_on(rs, (#[trigger] s[i]).0) ==> s[i].1 == 0,
{
    if length > 0 {
        let i = lemma_window_day_index(s, rs, start, length, length - 1);
    }
    assert forall|day: i32| in_window(start, length, day) implies #[trigger] stands_once(
        s,
        day,
    ) by {
        assert(has_key(s, day));
        let i = choose|i: int| 0 <= i < s.len() && s[i].0 == day;
        assert forall|j: int| 0 <= j < s.len() && s[j].0 == day implies j == i by {
            if j < i {
                assert(s[j].0 < s[i].0);
            } else if i < j {
                assert(s[i].0 < s[j].0);
            }
        }
    }
    assert forall|i: int| 0 <= i < s.len() && !has_entry_on(rs, (#[trigger] s[i]).0) implies s[i].1
        == 0 by {
        lemma_daily_total_absent(rs, s[i].0);
    }
}

/// Two sequences whose days rise strictly and are the same days have the
/// same length, and the same day at each index.
proof fn lemma_same_days(a: Seq<(i32, i128)>, b: Seq<(i32, i128)>)
    requires
        forall|i: int, j: int| 0 <= i < j < a.len() ==> a[i].0 < a[j].0,
        forall|i: int, j: int| 0 <= i < j < b.len() ==> b[i].0 < b[j].0,
        forall|day: i32| #[trigger] has_key(a, day) <==> has_key(b, day),
    ensures
        a.len() == b.len(),
        forall|i: int| 0 <= i < a.len() ==> (#[trigger] a[i]).0 == b[i].0,
    decreases a.len(),
{
    if a.len() == 0 {
        if b.len() > 0 {
            assert(has_key(b, b[0].0));
            assert(has_key(a, b[0].0));
        }
    } else {
        let top = a.last().0;
        assert(has_key(a, top));
        assert(has_key(b, top));
        let j = choose|j: int| 0 <= j < b.len() && b[j].0 == top;
        assert(has_key(b, b.last().0));
        assert(has_key(a, b.last().0));
        let i = choose|i: int| 0 <= i < a.len() && a[i].0 == b.last().0;
        if i < a.len() - 1 {
            assert(a[i].0 < a[a.len() - 1].0);
        }
        if j < b.len() - 1 {
            assert(b[j].0 < b[b.len() - 1].0);
        }
        assert(b.last().0 == top);
        let a0 = a.drop_last();
        let b0 = b.drop_last();
        assert forall|day: i32| #[trigger] has_key(a0, day) <==> has_key(b0, day) by {
            if has_key(a0, day) {
                let p = choose|p: int| 0 <= p < a0.len() && a0[p].0 == day;
                assert(a[p].0 == day);
                assert(a[p].0 < a[a.len() - 1].0);
                assert(has_key(a, day));
                assert(has_key(b, day));
                let q = choose|q: int| 0 <= q < b.len() && b[q].0 == day;
                assert(b0[q].0 == day);
            }
            if has_key(b0, day) {
                let q = choose|q: int| 0 <= q < b0.len() && b0[q].0 == day;
                assert(b[q].0 == day);
                assert(b[q].0 < b[b.len() - 1].0);
                assert(has_key(b, day));
                assert(has_key(a, day));
                let p = choose|p: int| 0 <= p < a.len() && a[p].0 == day;
                assert(a0[p].0 == day);
            }
        }
        lemma_same_days(a0, b0);
        assert forall|i: int| 0 <= i < a.len() implies (#[trigger] a[i]).0 == b[i].0 by {
            if i < a.len() - 1 {
                assert(a0[i].0 == b0[i].0);
            }
        }
    }
}

/// The entries and the window decide the chart series: there is one only.
pub proof fn lemma_time_serie_is_one(
    a: Seq<(i32, i128)>,
    b: Seq<(i32, i128)>,
    rs: Seq<Record>,
    start: i32,
    length: int,
)
    requires
        is_time_serie(a, rs, start, length),
        is_time_serie(b, rs, start, length),
    ensures
        a == b,
{
    assert forall|day: i32| #[trigger] has_key(a, day) <==> has_key(b, day) by {
        assert(has_key(a, day) <==> in_window(start, length, day) || has_entry_on(rs, day));
        assert(has_key(b, day) <==> in_window(start, length, day) || has_entry_on(rs, day));
    }
    lemma_same_days(a, b);
    assert forall|i: int| 0 <= i < a.len() implies a[i] == b[i] by {
        assert(a[i].0 == b[i].0);
        assert(a[i].1 == daily_total(rs, a[i].0));
        assert(b[i].1 == daily_total(rs, b[i].0));
    }
    assert(a =~= b);
}

/// One bar as the chart shows it.
#[derive(Debug)]
pub struct Bar {
    /// The height of the bar: the value in whole units, nothing if the
    /// value is below zero.
    pub value: u64,
    /// The text under the bar.
    pub label: String,
    /// The text on the bar: the value in whole units.
    pub text_value: String,
}

/// The height of the bar for `c` hundredths.
pub open spec fn bar_height(c: int) -> int {
    if whole_units(c) < 0 {
        0
    } else if whole_units(c) > u64::MAX {
        u64::MAX as int
    } else {
        whole_units(c)
    }
}

/// The bar for `expenses` hundredths spent on the day that `date` names.
pub fn vertical_bar(date: &str, expenses: i128) -> (bar: Bar)
    ensures
        bar.value == bar_height(expenses as int),
        bar.label@ == date@,
        bar.text_value@ == whole_text(expenses as int),
{
    let units = round_to_units(expenses);
    let value: u64 = if units < 0 {
        0
    } else if units > u64::MAX as i128 {
        u64::MAX
    } else {
        units as u64
    };
    Bar { value, label: date.to_owned(), text_value: format_whole(expenses) }
}

/// The bars of the chart of `records` over the default window that starts
/// at `current_month`: one for each point of the series, in its order.
pub fn vertical_barchart(records: Vec<Record>, current_month: Date) -> (bars: Vec<Bar>)
    ensures
        exists|points: Seq<TimeSeriesPoint>|
            {
                &&& is_time_serie(
                    chart_entries(points),
                    records@,
                    current_month@,
                    DEFAULT_WINDOW as int,
                )
                &&& bars.len() == points.len()
                &&& forall|i: int|
                    0 <= i < bars.len() ==> {
                        &&& (#[trigger] bars[i]).value == bar_height(points[i].value as int)
                        &&& bars[i].label@ == month_day_label(points[i].day)
                        &&& bars[i].text_value@ == whole_text(points[i].value as int)
                    }
            },
{
    let points = create_time_serie(records, current_month);
    let mut bars: Vec<Bar> = Vec::new();
    let mut i: usize = 0;
    while i < points.len()
        invariant
            i <= points.len(),
            bars.len() == i,
            forall|q: int|
                0 <= q < points.len() ==> (#[trigger] points[q]).label@ == month_day_label(
                    points[q].day,
                ),
            forall|q: int|
                0 <= q < i ==> {
                    &&& (#[trigger] bars[q]).value == bar_height(points[q].value as int)
                    &&& bars[q].label@ == month_day_label(points[q].day)
                    &&& bars[q].text_value@ == whole_text(points[q].value as int)
                },
        decreases points.len() - i,
    {
        let bar = vertical_bar(points[i].label.as_str(), points[i].value);
        bars.push(bar);
        i = i + 1;
    }
    bars
}

} // verus!
