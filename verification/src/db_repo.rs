//! Ledger entries and their totals.

use std::collections::HashSet;
use vstd::prelude::*;
use crate::date::{iso_label, Date};
use crate::money::{format2, format_plain, plain_text, two_decimals, Money, MAX_CENTS};

verus! {

broadcast use vstd::std_specs::hash::group_hash_axioms;

/// One entry of the ledger: what was spent on one day, in three kinds.
#[derive(Debug)]
pub struct Record {
    /// Given by the store when the entry is saved; zero before that.
    pub id: i32,
    pub store: Money,
    pub beer: Money,
    pub allos: Money,
    pub comments: String,
    pub date: Date,
}

impl Clone for Record {
    fn clone(&self) -> (r: Record)
        ensures
            r == *self,
    {
        Record {
            id: self.id,
            store: self.store,
            beer: self.beer,
            allos: self.allos,
            comments: self.comments.clone(),
            date: self.date,
        }
    }
}

impl Record {
    /// What the entry comes to, in hundredths: its three amounts together.
    pub open spec fn day_summary(self) -> int {
        self.store@ + self.beer@ + self.allos@
    }

    /// What the entry comes to, in hundredths: its three amounts together.
    pub fn get_day_summary(&self) -> (sum: i128)
        ensures
            sum == self.day_summary(),
            -3 * MAX_CENTS <= sum <= 3 * MAX_CENTS,
    {
        self.store.cents() as i128 + self.beer.cents() as i128 + self.allos.cents() as i128
    }

    /// The entry as a table row: date, the three amounts, their sum with two
    /// decimals, and the comment.
    pub fn vec_of_fields(&self) -> (row: Vec<String>)
        ensures
            row.len() == 6,
            row[0]@ == iso_label(self.date@),
            row[1]@ == plain_text(self.store@),
            row[2]@ == plain_text(self.beer@),
            row[3]@ == plain_text(self.allos@),
            row[4]@ == two_decimals(self.day_summary()),
            row[5]@ == self.comments@,
    {
        let mut row: Vec<String> = Vec::new();
        row.push(self.date.to_iso());
        row.push(format_plain(self.store.cents() as i128));
        row.push(format_plain(self.beer.cents() as i128));
        row.push(format_plain(self.allos.cents() as i128));
        row.push(format2(self.get_day_summary()));
        row.push(self.comments.clone());
        row
    }
}

/// The sum of the store amounts of `rs`, in hundredths.
pub open spec fn store_sum(rs: Seq<Record>) -> int
    decreases rs.len(),
{
    if rs.len() == 0 {
        0
    } else {
        store_sum(rs.drop_last()) + rs.last().store@
    }
}

/// The sum of the beer amounts of `rs`, in hundredths.
pub open spec fn beer_sum(rs: Seq<Record>) -> int
    decreases rs.len(),
{
    if rs.len() == 0 {
        0
    } else {
        beer_sum(rs.drop_last()) + rs.last().beer@
    }
}

/// The sum of the other amounts of `rs`, in hundredths.
pub open spec fn allos_sum(rs: Seq<Record>) -> int
    decreases rs.len(),
{
    if rs.len() == 0 {
        0
    } else {
        allos_sum(rs.drop_last()) + rs.last().allos@
    }
}

/// What the entries `rs` come to, one by one, added up.
pub open spec fn summary_sum(rs: Seq<Record>) -> int
    decreases rs.len(),
{
    if rs.len() == 0 {
        0
    } else {
        summary_sum(rs.drop_last()) + rs.last().day_summary()
    }
}

/// The days on which `rs` has an entry.
pub open spec fn day_set(rs: Seq<Record>) -> Set<i32>
    decreases rs.len(),
{
    if rs.len() == 0 {
        Set::empty()
    } else {
        day_set(rs.drop_last()).insert(rs.last().date@)
    }
}

/// The three totals added together are what the entries come to one by
/// one, added up: both ways of reaching the grand total agree.
pub proof fn lemma_totals_add_up(rs: Seq<Record>)
    ensures
        store_sum(rs) + beer_sum(rs) + allos_sum(rs) == summary_sum(rs),
    decreases rs.len(),
{
    if rs.len() > 0 {
        lemma_totals_add_up(rs.drop_last());
    }
}

/// A day is among the days of `rs` exactly if some entry of `rs` has it.
pub proof fn lemma_day_set_holds(rs: Seq<Record>, day: i32)
    ensures
        day_set(rs).contains(day) <==> exists|i: int| 0 <= i < rs.len() && rs[i].date@ == day,
        day_set(rs).finite(),
    decreases rs.len(),
{
    if rs.len() > 0 {
        let head = rs.drop_last();
        lemma_day_set_holds(head, day);
        if day_set(rs).contains(day) {
            if rs.last().date@ == day {
                assert(rs[rs.len() - 1].date@ == day);
            } else {
                let i = choose|i: int| 0 <= i < head.len() && head[i].date@ == day;
                assert(rs[i].date@ == day);
            }
        }
        if exists|i: int| 0 <= i < rs.len() && rs[i].date@ == day {
            let i = choose|i: int| 0 <= i < rs.len() && rs[i].date@ == day;
            if i < rs.len() - 1 {
                assert(head[i].date@ == day);
            }
        }
    }
}

/// A set of entries with its totals, each in hundredths.
#[derive(Debug, Clone)]
pub struct RecordsHolder {
    pub records: Vec<Record>,
    pub store_total: i128,
    pub beer_total: i128,
    pub allos_total: i128,
    pub all_total: i128,
}

impl RecordsHolder {
    /// The totals are those of the entries held, and the grand total is the
    /// three others together.
    pub open spec fn wf(&self) -> bool {
        &&& self.store_total == store_sum(self.records@)
        &&& self.beer_total == beer_sum(self.records@)
        &&& self.allos_total == allos_sum(self.records@)
        &&& self.all_total == self.store_total + self.beer_total + self.allos_total
    }

    /// Holds a copy of `recs` together with its totals.
    pub fn new(recs: &Vec<Record>) -> (holder: RecordsHolder)
        ensures
            holder.records@ == recs@,
            holder.wf(),
    {
        let (store_total, beer_total, allos_total, all_total) = Self::calculate_totals(
            recs.as_slice(),
        );
        let mut records: Vec<Record> = Vec::new();
        let mut i: usize = 0;
        while i < recs.len()
            invariant
                i <= recs.len(),
                records@ == recs@.take(i as int),
            decreases recs.len() - i,
        {
            records.push(recs[i].clone());
            proof {
                assert(recs@.take(i as int).push(recs[i as int]) =~= recs@.take(i as int + 1));
            }
            i = i + 1;
        }
        proof {
            assert(recs@.take(recs.len() as int) =~= recs@);
        }
        RecordsHolder { records, store_total, beer_total, allos_total, all_total }
    }

    /// The totals of `recs`: store, beer, other, and all three together.
    pub fn calculate_totals(recs: &[Record]) -> (totals: (i128, i128, i128, i128))
        ensures
            totals.0 == store_sum(recs@),
            totals.1 == beer_sum(recs@),
            totals.2 == allos_sum(recs@),
            totals.3 == totals.0 + totals.1 + totals.2,
    {
        let mut store: i128 = 0;
        let mut beer: i128 = 0;
        let mut allos: i128 = 0;
        let mut i: usize = 0;
        proof {
            assert(recs@.take(0) =~= Seq::<Record>::empty());
        }
        while i < recs.len()
            invariant
                i <= recs.len(),
                store == store_sum(recs@.take(i as int)),
                beer == beer_sum(recs@.take(i as int)),
                allos == allos_sum(recs@.take(i as int)),
                -i * MAX_CENTS <= store <= i * MAX_CENTS,
                -i * MAX_CENTS <= beer <= i * MAX_CENTS,
                -i * MAX_CENTS <= allos <= i * MAX_CENTS,
            decreases recs.len() - i,
        {
            let r = &recs[i];
            proof {
                assert(recs@.take(i as int + 1).drop_last() =~= recs@.take(i as int));
                assert(recs@.take(i as int + 1).last() == recs[i as int]);
                assert(i * MAX_CENTS + MAX_CENTS == (i + 1) * MAX_CENTS) by (nonlinear_arith);
                assert(i * MAX_CENTS <= 0xffff_ffff_ffff_ffff * MAX_CENTS) by (nonlinear_arith)
                    requires
                        i <= 0xffff_ffff_ffff_ffff,
                ;
            }
            store = store + r.store.cents() as i128;
            beer = beer + r.beer.cents() as i128;
            allos = allos + r.allos.cents() as i128;
            i = i + 1;
        }
        proof {
            assert(recs@.take(recs.len() as int) =~= recs@);
            assert(recs.len() * MAX_CENTS <= 0xffff_ffff_ffff_ffff * MAX_CENTS) by (nonlinear_arith)
                requires
                    recs.len() <= 0xffff_ffff_ffff_ffff,
            ;
        }
        (store, beer, allos, store + beer + allos)
    }

    /// How many different days the entries fall on.
    pub fn distinct_day_count(&self) -> (count: usize)
        ensures
            count == day_set(self.records@).len(),
    {
        let mut days: HashSet<i32> = HashSet::new();
        let mut i: usize = 0;
        proof {
            assert(self.records@.take(0) =~= Seq::<Record>::empty());
        }
        while i < self.records.len()
            invariant
                i <= self.records.len(),
                days@ == day_set(self.records@.take(i as int)),
            decreases self.records.len() - i,
        {
            proof {
                assert(self.records@.take(i as int + 1).drop_last() =~= self.records@.take(
                    i as int,
                ));
                assert(self.records@.take(i as int + 1).last() == self.records[i as int]);
            }
            days.insert(self.records[i].date.epoch_days());
            i = i + 1;
        }
        proof {
            assert(self.records@.take(self.records.len() as int) =~= self.records@);
        }
        days.len()
    }

    /// The grand total of a well-formed holder is what its entries come to
    /// one by one, added up.
    pub proof fn lemma_all_total(self)
        requires
            self.wf(),
        ensures
            self.all_total == summary_sum(self.records@),
    {
        lemma_totals_add_up(self.records@);
    }
}

} // verus!
