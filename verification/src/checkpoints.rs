//! The checkpoint boundary store and the interval pairing.
//!
//! Checkpoints are user-chosen dates that cut the trip timeline into
//! reporting intervals.  The pairing takes the ascending checkpoint dates,
//! puts a synthetic lower bound in front — the day before the earliest trip,
//! or the day before today when no trip exists — appends today when it lies
//! strictly after everything else, and reads off adjacent pairs, newest
//! first.  Each pair bounds one interval, open at its start and closed at
//! its end, so the intervals tile the timeline.

use crate::date::Date;
use crate::dateset::{
    contains_date, insert_date, insert_date_sorted, keeps_date, remove_date, strictly_sorted,
};
use vstd::prelude::*;

verus! {

/// The ordered set of checkpoint dates, kept strictly ascending.
#[derive(Debug)]
pub struct Checkpoints {
    pub dates: Vec<Date>,
}

impl Clone for Checkpoints {
    /// Clones the store; the copy holds the same dates.
    fn clone(&self) -> (r: Checkpoints)
        ensures
            r.dates@ == self.dates@,
    {
        let mut out: Vec<Date> = Vec::new();
        let mut i: usize = 0;
        while i < self.dates.len()
            invariant
                i <= self.dates@.len(),
                out@ == self.dates@.take(i as int),
            decreases self.dates@.len() - i,
        {
            out.push(self.dates[i]);
            proof {
                assert(self.dates@.take(i + 1) =~= self.dates@.take(i as int).push(
                    self.dates@[i as int],
                ));
            }
            i = i + 1;
        }
        proof {
            assert(self.dates@.take(self.dates@.len() as int) =~= self.dates@);
        }
        Checkpoints { dates: out }
    }
}

/// The synthetic lower bound: the day before the earliest trip, or the day
/// before today when there is no trip — a named fallback, never an absent
/// value.
pub open spec fn lower_bound_spec(earliest_trip: Option<Date>, today: Date) -> Date {
    match earliest_trip {
        Some(d) => d.pred_saturating_spec(),
        None => today.pred_saturating_spec(),
    }
}

/// The ascending boundary list: the lower bound, the checkpoints, and today
/// when it lies strictly after the last of them.
pub open spec fn bounds_seq(cps: Seq<Date>, lower: Date, today: Date) -> Seq<Date> {
    let base = seq![lower] + cps;
    if today.key() > base.last().key() {
        base.push(today)
    } else {
        base
    }
}

impl Checkpoints {
    /// The store keeps its dates strictly ascending: sorted and unique.
    pub open spec fn wf(self) -> bool {
        strictly_sorted(self.dates@)
    }

    /// An empty store.
    pub fn new() -> (r: Checkpoints)
        ensures
            r.dates@ == Seq::<Date>::empty(),
            r.wf(),
    {
        Checkpoints { dates: Vec::new() }
    }

    /// Adds a checkpoint; a no-op when it is already present.
    pub fn add(&mut self, date: Date)
        requires
            old(self).wf(),
        ensures
            final(self).dates@ == insert_date(date, old(self).dates@),
            final(self).wf(),
    {
        insert_date_sorted(&mut self.dates, date);
    }

    /// Removes a checkpoint; a no-op when it is absent.
    pub fn remove(&mut self, date: Date)
        ensures
            final(self).dates@ == old(self).dates@.filter(keeps_date(date)),
            old(self).wf() ==> final(self).wf(),
    {
        remove_date(&mut self.dates, date);
    }

    /// Whether `date` is a checkpoint.
    pub fn has(&self, date: Date) -> (r: bool)
        ensures
            r == self.dates@.contains(date),
    {
        contains_date(&self.dates, &date)
    }

    /// The reporting intervals the checkpoints cut, as (start, end) pairs,
    /// newest first.  Adjacent boundaries form one pair each; the synthetic
    /// bounds come from [`lower_bound_spec`] and [`bounds_seq`].
    pub fn interval_bounds(&self, earliest_trip: Option<Date>, today: Date) -> (r: Vec<
        (Date, Date),
    >)
        requires
            today.valid(),
            earliest_trip matches Some(d) ==> d.valid(),
        ensures
            ({
                let bounds = bounds_seq(
                    self.dates@,
                    lower_bound_spec(earliest_trip, today),
                    today,
                );
                &&& r@.len() == bounds.len() - 1
                &&& forall|j: int|
                    0 <= j < r@.len() ==> r@[j] == (
                        bounds[bounds.len() - 2 - j],
                        bounds[bounds.len() - 1 - j],
                    )
            }),
    {
        let lower = match earliest_trip {
            Some(d) => d.pred_saturating(),
            None => today.pred_saturating(),
        };
        let ghost bounds = bounds_seq(self.dates@, lower, today);
        let mut b: Vec<Date> = Vec::new();
        b.push(lower);
        let mut i: usize = 0;
        while i < self.dates.len()
            invariant
                i <= self.dates@.len(),
                b@ == (seq![lower] + self.dates@.take(i as int)),
            decreases self.dates@.len() - i,
        {
            b.push(self.dates[i]);
            proof {
                assert(b@ =~= seq![lower] + self.dates@.take(i + 1));
            }
            i = i + 1;
        }
        proof {
            assert(self.dates@.take(self.dates@.len() as int) =~= self.dates@);
            assert(b@ == seq![lower] + self.dates@);
            assert(b@.len() == 1 + self.dates@.len());
        }
        let lastb = b[b.len() - 1];
        proof {
            assert(lastb == b@.last());
        }
        if lastb.lt(&today) {
            b.push(today);
            proof {
                assert(b@ =~= bounds);
            }
        } else {
            proof {
                assert(b@ =~= bounds);
            }
        }
        let m = b.len();
        let mut out: Vec<(Date, Date)> = Vec::new();
        let mut j: usize = 0;
        while j < m - 1
            invariant
                m == b@.len(),
                m >= 1,
                b@ == bounds,
                j <= m - 1,
                out@.len() == j,
                forall|k: int|
                    0 <= k < j ==> out@[k] == (b@[m - 2 - k], b@[m - 1 - k]),
            decreases m - 1 - j,
        {
            out.push((b[m - 2 - j], b[m - 1 - j]));
            j = j + 1;
        }
        out
    }
}

} // verus!
