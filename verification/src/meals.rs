//! The meal-day store: the set of dates on which a subsidized meal occurred.

use crate::date::Date;
use crate::dateset::{
    contains_date, count_in_period, in_period_pred, insert_date, insert_date_sorted,
    keeps_date, remove_date, strictly_sorted, toggle_date,
};
use vstd::prelude::*;

verus! {

/// A set of unique meal dates, kept strictly ascending.
#[derive(Debug)]
pub struct Meals {
    pub points: Vec<Date>,
}

impl Clone for Meals {
    /// Clones the store; the copy holds the same dates.
    fn clone(&self) -> (r: Meals)
        ensures
            r.points@ == self.points@,
    {
        let mut out: Vec<Date> = Vec::new();
        let mut i: usize = 0;
        while i < self.points.len()
            invariant
                i <= self.points@.len(),
                out@ == self.points@.take(i as int),
            decreases self.points@.len() - i,
        {
            out.push(self.points[i]);
            proof {
                assert(self.points@.take(i + 1) =~= self.points@.take(i as int).push(
                    self.points@[i as int],
                ));
            }
            i = i + 1;
        }
        proof {
            assert(self.points@.take(self.points@.len() as int) =~= self.points@);
        }
        Meals { points: out }
    }
}

impl Meals {
    /// The store keeps its dates strictly ascending: sorted and unique.
    pub open spec fn wf(self) -> bool {
        strictly_sorted(self.points@)
    }

    /// An empty store.
    pub fn new() -> (r: Meals)
        ensures
            r.points@ == Seq::<Date>::empty(),
            r.wf(),
    {
        Meals { points: Vec::new() }
    }

    /// Adds a meal date; a no-op when it is already present.
    pub fn add(&mut self, new: Date)
        requires
            old(self).wf(),
        ensures
            final(self).points@ == insert_date(new, old(self).points@),
            final(self).wf(),
    {
        insert_date_sorted(&mut self.points, new);
    }

    /// Removes a meal date; a no-op when it is absent.
    pub fn remove(&mut self, point: Date)
        ensures
            final(self).points@ == old(self).points@.filter(keeps_date(point)),
            old(self).wf() ==> final(self).wf(),
    {
        remove_date(&mut self.points, point);
    }

    /// Whether a meal is recorded on `date`.
    pub fn has(&self, date: Date) -> (r: bool)
        ensures
            r == self.points@.contains(date),
    {
        contains_date(&self.points, &date)
    }

    /// Flips the membership of `date`: removes it when present, adds it
    /// when absent.  Toggling twice restores the store exactly.
    pub fn toggle(&mut self, date: Date)
        requires
            old(self).wf(),
        ensures
            final(self).points@ == toggle_date(date, old(self).points@),
            final(self).wf(),
    {
        if self.has(date) {
            self.remove(date)
        } else {
            self.add(date)
        }
    }

    /// Counts the meal dates in the interval open at `after`, closed at
    /// `before_inclusive`.
    pub fn in_period(&self, after: &Date, before_inclusive: &Date) -> (r: usize)
        ensures
            r == self.points@.filter(in_period_pred(*after, *before_inclusive)).len(),
    {
        count_in_period(&self.points, after, before_inclusive)
    }
}

} // verus!
