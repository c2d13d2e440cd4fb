//! The month-mode summary: trips grouped by calendar month, newest first,
//! with each month's distance and time totals.

use crate::month::Month;
use crate::trip::Trip;
use crate::trips::{sorted_by_date, Trips};
use crate::interval::{
    sum_distance_tenths, sum_time_minutes, total_distance_tenths, total_time_minutes,
};
use vstd::prelude::*;

verus! {

/// One month's trips, newest first.
#[derive(Debug)]
pub struct MonthGroup {
    pub month: Month,
    pub trips: Vec<Trip>,
}

/// One month's totals: distance in tenths of a kilometre, time in minutes.
#[derive(Clone, Copy, Debug, PartialEq, Eq, Structural)]
pub struct MonthStatistic {
    pub distance_tenths: u64,
    pub time_minutes: u64,
}

impl MonthStatistic {
    /// Builds the pair of totals.
    pub fn new(distance_tenths: u64, time_minutes: u64) -> (r: MonthStatistic)
        ensures
            r == (MonthStatistic { distance_tenths, time_minutes }),
    {
        MonthStatistic { distance_tenths, time_minutes }
    }
}

/// The trips of the groups, in group order.
pub open spec fn groups_concat(gs: Seq<MonthGroup>) -> Seq<Trip>
    decreases gs.len(),
{
    if gs.len() == 0 {
        Seq::empty()
    } else {
        groups_concat(gs.drop_last()) + gs.last().trips@
    }
}

/// Every trip of every group belongs to its group's month.
pub open spec fn groups_months_right(gs: Seq<MonthGroup>) -> bool {
    forall|g: int, i: int|
        0 <= g < gs.len() && 0 <= i < gs[g].trips@.len() ==> Month::of_date_spec(
            #[trigger] gs[g].trips@[i].date,
        ) == gs[g].month
}

/// The groups' months are strictly descending: newest first, no month
/// twice.
pub open spec fn groups_months_desc(gs: Seq<MonthGroup>) -> bool {
    forall|g: int, h: int|
        0 <= g < h < gs.len() ==> #[trigger] gs[g].month.key() > #[trigger] gs[h].month.key()
}

/// No group is empty.
pub open spec fn groups_nonempty(gs: Seq<MonthGroup>) -> bool {
    forall|g: int| 0 <= g < gs.len() ==> #[trigger] gs[g].trips@.len() > 0
}

impl Trips {
    /// Groups the store's trips by calendar month, newest month first and
    /// each month's trips newest first: read in group order, the result is
    /// exactly the store reversed.
    pub fn group_by_month(&self) -> (r: Vec<MonthGroup>)
        requires
            self.wf(),
        ensures
            groups_concat(r@) == self.trips@.reverse(),
            groups_months_right(r@),
            groups_months_desc(r@),
            groups_nonempty(r@),
    {
        let ghost rev = self.trips@.reverse();
        let n = self.trips.len();
        let mut out: Vec<MonthGroup> = Vec::new();
        if n == 0 {
            proof {
                assert(groups_concat(out@) =~= rev);
            }
            return out;
        }
        let mut cur: Vec<Trip> = Vec::new();
        cur.push(self.trips[n - 1].clone());
        let mut m = Month::of_date(&self.trips[n - 1].date);
        proof {
            assert(rev[0] == self.trips@[n - 1]);
            assert(cur@ =~= rev.take(1));
            assert(groups_concat(out@) + cur@ =~= rev.take(1));
        }
        let mut i: usize = 1;
        while i < n
            invariant
                n == self.trips@.len(),
                1 <= i <= n,
                rev == self.trips@.reverse(),
                sorted_by_date(self.trips@),
                groups_concat(out@) + cur@ == rev.take(i as int),
                cur@.len() > 0,
                forall|j: int|
                    0 <= j < cur@.len() ==> Month::of_date_spec(#[trigger] cur@[j].date) == m,
                groups_months_right(out@),
                groups_months_desc(out@),
                groups_nonempty(out@),
                out@.len() > 0 ==> out@[out@.len() - 1].month.key() > m.key(),
            decreases n - i,
        {
            proof {
                assert(rev[i as int] == self.trips@[n - 1 - i as int]);
            }
            let t = self.trips[n - 1 - i].clone();
            let tm = Month::of_date(&t.date);
            if tm.year == m.year && tm.month == m.month {
                cur.push(t);
                proof {
                    assert(rev.take(i + 1) =~= rev.take(i as int).push(rev[i as int]));
                    assert(groups_concat(out@) + cur@ =~= rev.take(i + 1));
                }
            } else {
                proof {
                    // the new trip's month lies strictly before the current
                    // one: the store is date-sorted, so its reverse is
                    // date-descending, and months follow dates
                    assert(cur@[cur@.len() - 1] == rev.take(i as int).last());
                    assert(rev.take(i as int).last() == rev[i - 1]);
                    assert(rev[i - 1] == self.trips@[n - i as int]);
                    assert(self.trips@[n - 1 - i as int].date.key() <= self.trips@[n
                        - i as int].date.key());
                    Month::lemma_of_date_monotone(
                        self.trips@[n - 1 - i as int].date,
                        self.trips@[n - i as int].date,
                    );
                    Month::lemma_key_injective(tm, m);
                    assert(tm.key() < m.key());
                }
                let ghost out0 = out@;
                let ghost cur0 = cur@;
                out.push(MonthGroup { month: m, trips: cur });
                proof {
                    assert(out@.drop_last() =~= out0);
                    assert(groups_concat(out@) == groups_concat(out0) + cur0);
                    assert forall|g: int, h: int| 0 <= g < h < out@.len() implies #[trigger] out@[
                    g].month.key() > #[trigger] out@[h].month.key() by {
                        if h < out@.len() - 1 {
                            assert(out@[g] == out0[g]);
                            assert(out@[h] == out0[h]);
                        } else {
                            assert(out@[h].month == m);
                            assert(out@[g] == out0[g]);
                            if g < out0.len() - 1 {
                                assert(out0[g].month.key() > out0[out0.len() - 1].month.key());
                            }
                        }
                    }
                }
                cur = Vec::new();
                cur.push(t);
                m = tm;
                proof {
                    assert(rev.take(i + 1) =~= rev.take(i as int).push(rev[i as int]));
                    assert(groups_concat(out@) + cur@ =~= rev.take(i + 1));
                }
            }
            i = i + 1;
        }
        let ghost out0 = out@;
        let ghost cur0 = cur@;
        out.push(MonthGroup { month: m, trips: cur });
        proof {
            assert(out@.drop_last() =~= out0);
            assert(groups_concat(out@) == groups_concat(out0) + cur0);
            assert(rev.take(n as int) =~= rev);
            assert forall|g: int, h: int| 0 <= g < h < out@.len() implies #[trigger] out@[
            g].month.key() > #[trigger] out@[h].month.key() by {
                if h < out@.len() - 1 {
                    assert(out@[g] == out0[g]);
                    assert(out@[h] == out0[h]);
                } else {
                    assert(out@[h].month == m);
                    assert(out@[g] == out0[g]);
                    if g < out0.len() - 1 {
                        assert(out0[g].month.key() > out0[out0.len() - 1].month.key());
                    }
                }
            }
        }
        out
    }
}

/// Totals one group's distance and time.
pub fn month_statistics(trips: &Vec<Trip>) -> (r: MonthStatistic)
    requires
        trips@.len() <= 0x40000000,
    ensures
        r.distance_tenths == sum_distance_tenths(trips@),
        r.time_minutes == sum_time_minutes(trips@),
{
    MonthStatistic {
        distance_tenths: total_distance_tenths(trips),
        time_minutes: total_time_minutes(trips),
    }
}

} // verus!
