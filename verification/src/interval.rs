//! The interval aggregator.
//!
//! Given the trip store, the meal store and a pair of boundary dates, the
//! aggregator filters the trips of the interval — open at the start, closed
//! at the end — into reverse-chronological order and totals their distance
//! and time together with the interval's meal count.  The open-start,
//! closed-end convention makes consecutive boundaries tile the timeline
//! with no overlap and no gap.

use crate::date::Date;
use crate::dateset::in_period_pred;
use crate::meals::Meals;
use crate::trip::Trip;
use crate::trips::{sorted_by_date, Trips};
use vstd::multiset::Multiset;
use vstd::prelude::*;
use vstd::seq_lib::*;

verus! {

/// The predicate "falls in the interval open at `start`, closed at `end`".
pub open spec fn in_interval_pred(start: Date, end: Date) -> spec_fn(Trip) -> bool {
    |t: Trip| start.key() < t.date.key() && t.date.key() <= end.key()
}

/// Descending by date.
pub open spec fn sorted_desc_by_date(s: Seq<Trip>) -> bool {
    forall|i: int, j: int| 0 <= i < j < s.len() ==> s[i].date.key() >= s[j].date.key()
}

/// The summed value of `f` over the trips of `s`.
pub open spec fn sum_by(s: Seq<Trip>, f: spec_fn(Trip) -> int) -> int
    decreases s.len(),
{
    if s.len() == 0 {
        0
    } else {
        sum_by(s.drop_last(), f) + f(s.last())
    }
}

/// A trip's weight for the distance total: tenths of a kilometre, both legs
/// when returning.
pub open spec fn distance_weight() -> spec_fn(Trip) -> int {
    |t: Trip| t.effective_tenths()
}

/// A trip's weight for the time total: its minutes.
pub open spec fn time_weight() -> spec_fn(Trip) -> int {
    |t: Trip| t.time_minutes as int
}

/// The distance total of `s`, in tenths of a kilometre.
pub open spec fn sum_distance_tenths(s: Seq<Trip>) -> int {
    sum_by(s, distance_weight())
}

/// The time total of `s`, in minutes.
pub open spec fn sum_time_minutes(s: Seq<Trip>) -> int {
    sum_by(s, time_weight())
}

/// Minutes rendered as tenths of an hour, rounded half up.
pub open spec fn hours_tenths_spec(m: int) -> int {
    (m + 3) / 6
}

/// Converts a minute total to tenths of an hour, rounded half up.
pub fn minutes_to_hours_tenths(m: u64) -> (r: u64)
    requires
        m <= 0x1000000000000000,
    ensures
        r == hours_tenths_spec(m as int),
{
    (m + 3) / 6
}

proof fn lemma_sum_by_remove(s: Seq<Trip>, f: spec_fn(Trip) -> int, j: int)
    requires
        0 <= j < s.len(),
    ensures
        sum_by(s, f) == sum_by(s.remove(j), f) + f(s[j]),
    decreases s.len(),
{
    if j == s.len() - 1 {
        assert(s.remove(j) =~= s.drop_last());
    } else {
        let dl = s.drop_last();
        assert(s.remove(j).drop_last() =~= dl.remove(j));
        assert(s.remove(j).last() == s.last());
        lemma_sum_by_remove(dl, f, j);
        assert(dl[j] == s[j]);
    }
}

/// Sums do not depend on the order of the trips: two sequences holding the
/// same trips the same number of times have the same total.
pub proof fn lemma_sum_by_permutation(s1: Seq<Trip>, s2: Seq<Trip>, f: spec_fn(Trip) -> int)
    requires
        s1.to_multiset() == s2.to_multiset(),
    ensures
        sum_by(s1, f) == sum_by(s2, f),
    decreases s1.len(),
{
    broadcast use group_to_multiset_ensures;

    if s1.len() == 0 {
        assert(s1.to_multiset().len() == s1.len());
        assert(s2.to_multiset().len() == s2.len());
        assert(s2.len() == 0);
    } else {
        let x = s1.last();
        let dl = s1.drop_last();
        assert(s1 =~= dl.push(x));
        assert(dl.push(x).to_multiset() =~= dl.to_multiset().insert(x));
        assert(s1.to_multiset().count(x) > 0);
        assert(s2.to_multiset().count(x) > 0);
        assert(s2.contains(x));
        let j = choose|j: int| 0 <= j < s2.len() && s2[j] == x;
        assert(s2.remove(j).to_multiset() =~= s2.to_multiset().remove(x));
        assert(dl.to_multiset() =~= s1.to_multiset().remove(x));
        lemma_sum_by_permutation(dl, s2.remove(j), f);
        lemma_sum_by_remove(s2, f, j);
    }
}

/// Filtering two sequences that hold the same trips leaves sequences that
/// hold the same trips.
pub proof fn lemma_filter_permutation(s1: Seq<Trip>, s2: Seq<Trip>, p: spec_fn(Trip) -> bool)
    requires
        s1.to_multiset() == s2.to_multiset(),
    ensures
        s1.filter(p).to_multiset() == s2.filter(p).to_multiset(),
{
    assert forall|x: Trip| true implies #[trigger] s1.filter(p).to_multiset().count(x)
        == s2.filter(p).to_multiset().count(x) by {
        lemma_filter_multiset_count(s1, p, x);
        lemma_filter_multiset_count(s2, p, x);
    }
    assert(s1.filter(p).to_multiset() =~= s2.filter(p).to_multiset());
}

proof fn lemma_filter_multiset_count(s: Seq<Trip>, p: spec_fn(Trip) -> bool, x: Trip)
    ensures
        s.filter(p).to_multiset().count(x) == if p(x) {
            s.to_multiset().count(x)
        } else {
            0
        },
    decreases s.len(),
{
    broadcast use group_to_multiset_ensures;

    reveal(Seq::filter);
    if s.len() == 0 {
        assert(s.to_multiset() =~= Multiset::<Trip>::empty());
        assert(s.filter(p) == s);
    } else {
        let dl = s.drop_last();
        lemma_filter_multiset_count(dl, p, x);
        assert(s =~= dl.push(s.last()));
        assert(dl.push(s.last()).to_multiset() =~= dl.to_multiset().insert(s.last()));
        if p(s.last()) {
            assert(s.filter(p) == dl.filter(p).push(s.last()));
            assert(dl.filter(p).push(s.last()).to_multiset() =~= dl.filter(
                p,
            ).to_multiset().insert(s.last()));
        }
    }
}


/// The trips of the interval open at `start`, closed at `end`, in reverse
/// store order: reverse-chronological whenever the store is sorted.
pub fn interval_trips(trips: &Trips, start: &Date, end: &Date) -> (r: Vec<Trip>)
    ensures
        r@ == trips.trips@.reverse().filter(in_interval_pred(*start, *end)),
{
    let ghost p = in_interval_pred(*start, *end);
    let ghost rev = trips.trips@.reverse();
    let n = trips.trips.len();
    let mut out: Vec<Trip> = Vec::new();
    let mut i: usize = 0;
    while i < n
        invariant
            n == trips.trips@.len(),
            i <= n,
            p == in_interval_pred(*start, *end),
            rev == trips.trips@.reverse(),
            out@ == rev.take(i as int).filter(p),
        decreases n - i,
    {
        proof {
            broadcast use Seq::lemma_filter_push;

            assert(rev.take(i + 1) =~= rev.take(i as int).push(rev[i as int]));
            assert(rev[i as int] == trips.trips@[n - 1 - i as int]);
        }
        let t = &trips.trips[n - 1 - i];
        if start.lt(&t.date) && t.date.le(end) {
            out.push(t.clone());
            proof {
                assert(p(rev[i as int]));
            }
        } else {
            proof {
                assert(!p(rev[i as int]));
            }
        }
        i = i + 1;
    }
    proof {
        assert(rev.take(n as int) =~= rev);
    }
    out
}

/// Totals the distance of `trips`, in tenths of a kilometre.
pub fn total_distance_tenths(trips: &Vec<Trip>) -> (r: u64)
    requires
        trips@.len() <= 0x40000000,
    ensures
        r == sum_distance_tenths(trips@),
{
    let ghost f = distance_weight();
    let n = trips.len();
    let mut acc: u64 = 0;
    let mut i: usize = 0;
    while i < n
        invariant
            n == trips@.len(),
            n <= 0x40000000,
            i <= n,
            f == distance_weight(),
            acc == sum_by(trips@.take(i as int), f),
            acc <= i * 0x200000000,
        decreases n - i,
    {
        proof {
            assert(trips@.take(i + 1).drop_last() =~= trips@.take(i as int));
            assert(trips@.take(i + 1).last() == trips@[i as int]);
            assert(f(trips@[i as int]) <= 0x1FFFFFFFE);
        }
        let t = &trips[i];
        acc = acc + t.calculate_distance_tenths();
        i = i + 1;
    }
    proof {
        assert(trips@.take(n as int) =~= trips@);
    }
    acc
}

/// Totals the time of `trips`, in minutes.
pub fn total_time_minutes(trips: &Vec<Trip>) -> (r: u64)
    requires
        trips@.len() <= 0x40000000,
    ensures
        r == sum_time_minutes(trips@),
{
    let ghost f = time_weight();
    let n = trips.len();
    let mut acc: u64 = 0;
    let mut i: usize = 0;
    while i < n
        invariant
            n == trips@.len(),
            n <= 0x40000000,
            i <= n,
            f == time_weight(),
            acc == sum_by(trips@.take(i as int), f),
            acc <= i * 0x200000000,
        decreases n - i,
    {
        proof {
            assert(trips@.take(i + 1).drop_last() =~= trips@.take(i as int));
            assert(trips@.take(i + 1).last() == trips@[i as int]);
            assert(f(trips@[i as int]) <= 0x1FFFFFFFE);
        }
        let t = &trips[i];
        acc = acc + (t.time_minutes as u64);
        i = i + 1;
    }
    proof {
        assert(trips@.take(n as int) =~= trips@);
    }
    acc
}

/// What one interval's aggregation yields.
#[derive(Debug)]
pub struct IntervalSummary {
    /// The interval's trips, reverse-chronological.
    pub trips: Vec<Trip>,
    /// Their distance total, in tenths of a kilometre.
    pub distance_tenths: u64,
    /// Their time total, in minutes.
    pub time_minutes: u64,
    /// The meal days falling in the interval.
    pub meal_count: usize,
}

impl Trips {
    /// Aggregates the interval open at `start`, closed at `end`: its trips
    /// in reverse store order, their distance and time totals, and the
    /// interval's meal count.
    pub fn aggregate_interval(&self, meals: &Meals, start: &Date, end: &Date) -> (r:
        IntervalSummary)
        requires
            self.trips@.len() <= 0x40000000,
        ensures
            r.trips@ == self.trips@.reverse().filter(in_interval_pred(*start, *end)),
            r.distance_tenths == sum_distance_tenths(r.trips@),
            r.time_minutes == sum_time_minutes(r.trips@),
            r.meal_count == meals.points@.filter(in_period_pred(*start, *end)).len(),
    {
        let filtered = interval_trips(self, start, end);
        proof {
            broadcast use Seq::lemma_filter_len;

            assert(self.trips@.reverse().len() == self.trips@.len());
        }
        let distance_tenths = total_distance_tenths(&filtered);
        let time_minutes = total_time_minutes(&filtered);
        let meal_count = meals.in_period(start, end);
        IntervalSummary { trips: filtered, distance_tenths, time_minutes, meal_count }
    }
}

/// Reversing an ascending sequence yields a descending one.
proof fn lemma_reverse_sorted(s: Seq<Trip>)
    requires
        sorted_by_date(s),
    ensures
        sorted_desc_by_date(s.reverse()),
{
}

/// Filtering keeps a descending sequence descending.
proof fn lemma_filter_sorted_desc(s: Seq<Trip>, p: spec_fn(Trip) -> bool)
    requires
        sorted_desc_by_date(s),
    ensures
        sorted_desc_by_date(s.filter(p)),
    decreases s.len(),
{
    reveal(Seq::filter);
    broadcast use Seq::lemma_filter_contains_rev;

    if s.len() > 0 {
        let rest = s.drop_last();
        assert(sorted_desc_by_date(rest));
        lemma_filter_sorted_desc(rest, p);
        if p(s.last()) {
            let out = s.filter(p);
            assert(out == rest.filter(p).push(s.last()));
            assert forall|i: int, j: int| 0 <= i < j < out.len() implies out[i].date.key()
                >= out[j].date.key() by {
                if j < out.len() - 1 {
                    assert(out[i] == rest.filter(p)[i]);
                    assert(out[j] == rest.filter(p)[j]);
                } else {
                    assert(out[j] == s.last());
                    let x = rest.filter(p)[i];
                    assert(rest.filter(p).contains(x));
                    assert(rest.contains(x));
                    let m = choose|m: int| 0 <= m < rest.len() && rest[m] == x;
                    assert(s[m] == x);
                }
            }
        }
    }
}

/// Over a sorted store, an interval's trip list comes out in the one fixed
/// reverse-chronological order, whatever the boundaries.
pub proof fn lemma_interval_trips_descending(s: Seq<Trip>, start: Date, end: Date)
    requires
        sorted_by_date(s),
    ensures
        sorted_desc_by_date(s.reverse().filter(in_interval_pred(start, end))),
{
    lemma_reverse_sorted(s);
    lemma_filter_sorted_desc(s.reverse(), in_interval_pred(start, end));
}

proof fn lemma_partition_desc(r: Seq<Trip>, a: Date, b: Date, c: Date)
    requires
        sorted_desc_by_date(r),
        a.key() <= b.key(),
        b.key() <= c.key(),
    ensures
        r.filter(in_interval_pred(b, c)) + r.filter(in_interval_pred(a, b)) == r.filter(
            in_interval_pred(a, c),
        ),
    decreases r.len(),
{
    reveal(Seq::filter);
    let pbc = in_interval_pred(b, c);
    let pab = in_interval_pred(a, b);
    let pac = in_interval_pred(a, c);
    if r.len() == 0 {
        assert(r.filter(pbc) + r.filter(pab) =~= r.filter(pac));
    } else {
        let dl = r.drop_last();
        let x = r.last();
        assert(sorted_desc_by_date(dl));
        lemma_partition_desc(dl, a, b, c);
        if pbc(x) {
            // x lies past b, and it is the earliest trip here, so nothing
            // falls in the earlier interval
            assert forall|i: int| 0 <= i < dl.len() implies !pab(#[trigger] dl[i]) by {
                assert(dl[i] == r[i]);
                assert(r[i].date.key() >= x.date.key());
            }
            dl.lemma_all_neg_filter_empty(pab);
            assert(!pab(x));
            assert(r.filter(pab).len() == dl.filter(pab).len());
            assert(r.filter(pab) =~= Seq::<Trip>::empty());
            assert(dl.filter(pab) =~= Seq::<Trip>::empty());
            assert(pac(x));
            assert(r.filter(pbc) == dl.filter(pbc).push(x));
            assert(r.filter(pac) == dl.filter(pac).push(x));
            assert(dl.filter(pbc) + dl.filter(pab) =~= dl.filter(pbc));
            assert(r.filter(pbc) + r.filter(pab) =~= r.filter(pac));
        } else if pab(x) {
            assert(!pbc(x));
            assert(pac(x));
            assert(r.filter(pbc) == dl.filter(pbc));
            assert(r.filter(pab) == dl.filter(pab).push(x));
            assert(r.filter(pac) == dl.filter(pac).push(x));
            assert(dl.filter(pbc) + dl.filter(pab).push(x) =~= (dl.filter(pbc) + dl.filter(
                pab,
            )).push(x));
        } else {
            assert(!pac(x));
            assert(r.filter(pbc) == dl.filter(pbc));
            assert(r.filter(pab) == dl.filter(pab));
            assert(r.filter(pac) == dl.filter(pac));
        }
    }
}

/// Adjacent intervals partition the timeline: over a sorted store and
/// boundaries `a <= b <= c`, the trips of `(b, c]` followed by those of
/// `(a, b]` are exactly the trips of `(a, c]` — every trip once, none
/// counted twice, in the one reverse-chronological order.
pub proof fn lemma_interval_partition(s: Seq<Trip>, a: Date, b: Date, c: Date)
    requires
        sorted_by_date(s),
        a.key() <= b.key(),
        b.key() <= c.key(),
    ensures
        s.reverse().filter(in_interval_pred(b, c)) + s.reverse().filter(in_interval_pred(a, b))
            == s.reverse().filter(in_interval_pred(a, c)),
{
    lemma_reverse_sorted(s);
    lemma_partition_desc(s.reverse(), a, b, c);
}

/// An interval's distance total does not depend on the order of the trip
/// list: any two stores holding the same trips give the same total, while
/// the returned list itself stays in the one reverse store order.
pub proof fn lemma_interval_distance_reorder(s1: Seq<Trip>, s2: Seq<Trip>, start: Date, end: Date)
    requires
        s1.to_multiset() == s2.to_multiset(),
    ensures
        sum_distance_tenths(s1.reverse().filter(in_interval_pred(start, end)))
            == sum_distance_tenths(s2.reverse().filter(in_interval_pred(start, end))),
{
    let p = in_interval_pred(start, end);
    s1.lemma_reverse_to_multiset();
    s2.lemma_reverse_to_multiset();
    lemma_filter_permutation(s1.reverse(), s2.reverse(), p);
    lemma_sum_by_permutation(
        s1.reverse().filter(p),
        s2.reverse().filter(p),
        distance_weight(),
    );
}

} // verus!
