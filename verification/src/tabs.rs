//! The row of month tabs, and which of them is selected.

use vstd::prelude::*;

verus! {

/// The months that can be shown, and the index of the one that is.
pub struct TabsState {
    pub months: Vec<String>,
    pub index: usize,
}

/// Whether one of `months` reads `month`.
pub open spec fn lists(months: Seq<String>, month: Seq<char>) -> bool {
    exists|i: int| 0 <= i < months.len() && months[i]@ == month
}

fn listed(months: &Vec<String>, month: &String) -> (r: bool)
    ensures
        r == lists(months@, month@),
{
    let mut i: usize = 0;
    while i < months.len()
        invariant
            i <= months.len(),
            forall|k: int| 0 <= k < i ==> months[k]@ != month@,
        decreases months.len() - i,
    {
        if months[i] == *month {
            return true;
        }
        i = i + 1;
    }
    false
}

impl TabsState {
    /// There is a selected month.
    pub open spec fn wf(&self) -> bool {
        self.index < self.months.len()
    }

    /// The tabs for `months`, with the current month put first if it is
    /// not among them. The first tab is selected.
    pub fn new(months: Vec<String>, current_month: String) -> (tabs: TabsState)
        ensures
            tabs.wf(),
            tabs.index == 0,
            tabs.months@ == if lists(months@, current_month@) {
                months@
            } else {
                months@.insert(0, current_month)
            },
    {
        let mut months = months;
        if !listed(&months, &current_month) {
            months.insert(0, current_month);
        }
        TabsState { months, index: 0 }
    }

    /// Selects the next month; after the last comes the first.
    pub fn select_next(&mut self)
        requires
            old(self).wf(),
        ensures
            final(self).wf(),
            final(self).months == old(self).months,
            final(self).index == if old(self).index + 1 == old(self).months.len() {
                0
            } else {
                old(self).index + 1
            },
    {
        self.index = if self.index + 1 == self.months.len() {
            0
        } else {
            self.index + 1
        };
    }

    /// Selects the month before; before the first comes the last.
    pub fn select_previous(&mut self)
        requires
            old(self).wf(),
        ensures
            final(self).wf(),
            final(self).months == old(self).months,
            final(self).index == if old(self).index == 0 {
                old(self).months.len() - 1
            } else {
                old(self).index - 1
            },
    {
        if self.index > 0 {
            self.index -= 1;
        } else {
            self.index = self.months.len() - 1;
        }
    }

    /// The selected month.
    pub fn current(&self) -> (month: &String)
        requires
            self.wf(),
        ensures
            *month == self.months[self.index as int],
    {
        &self.months[self.index]
    }
}

} // verus!
