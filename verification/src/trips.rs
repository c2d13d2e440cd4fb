//! The trip store.
//!
//! An ordered collection of trips.  Adding a trip appends it and re-sorts
//! the whole collection ascending by date; the sort is stable, so trips that
//! share a date keep the order in which they were added.  Removal by id,
//! most-recent retrieval and favorite-route ranking read the store.

use crate::date::Date;
use crate::trip::Trip;
use vstd::multiset::Multiset;
use vstd::prelude::*;
use vstd::seq_lib::*;

verus! {

/// The predicate "has date key `k`", used to state sort stability.
pub open spec fn has_date_key(k: int) -> spec_fn(Trip) -> bool {
    |x: Trip| x.date.key() == k
}

/// The predicate "has an id other than `id`", used to state removal.
pub open spec fn keeps_id(id: u128) -> spec_fn(Trip) -> bool {
    |x: Trip| x.id != id
}

/// Where `t` lands among `s`: before the first element with a strictly
/// later date, after every element with the same or an earlier date.
pub open spec fn insert_by_date(t: Trip, s: Seq<Trip>) -> Seq<Trip>
    decreases s.len(),
{
    if s.len() == 0 {
        seq![t]
    } else if t.date.key() < s[0].date.key() {
        seq![t] + s
    } else {
        seq![s[0]] + insert_by_date(t, s.drop_first())
    }
}

/// Insertion sort by date.  Later elements are inserted after earlier ones
/// with an equal date, so the sort is stable.
pub open spec fn sort_by_date(s: Seq<Trip>) -> Seq<Trip>
    decreases s.len(),
{
    if s.len() == 0 {
        Seq::empty()
    } else {
        insert_by_date(s.last(), sort_by_date(s.drop_last()))
    }
}

/// Ascending by date.
pub open spec fn sorted_by_date(s: Seq<Trip>) -> bool {
    forall|i: int, j: int| 0 <= i < j < s.len() ==> s[i].date.key() <= s[j].date.key()
}

proof fn lemma_insert_by_date_at(s: Seq<Trip>, t: Trip, i: int)
    requires
        0 <= i <= s.len(),
        forall|j: int| 0 <= j < i ==> s[j].date.key() <= t.date.key(),
        i < s.len() ==> t.date.key() < s[i].date.key(),
    ensures
        insert_by_date(t, s) == s.insert(i, t),
    decreases i,
{
    if i == 0 {
        if s.len() == 0 {
            assert(insert_by_date(t, s) =~= s.insert(0, t));
        } else {
            assert(insert_by_date(t, s) == seq![t] + s);
            assert(seq![t] + s =~= s.insert(0, t));
        }
    } else {
        let rest = s.drop_first();
        assert(forall|j: int| 0 <= j < i - 1 ==> rest[j].date.key() <= t.date.key());
        lemma_insert_by_date_at(rest, t, i - 1);
        assert(insert_by_date(t, s) == seq![s[0]] + rest.insert(i - 1, t));
        assert(seq![s[0]] + rest.insert(i - 1, t) =~= s.insert(i, t));
    }
}

proof fn lemma_insert_by_date_len(s: Seq<Trip>, t: Trip)
    ensures
        insert_by_date(t, s).len() == s.len() + 1,
    decreases s.len(),
{
    if s.len() > 0 && !(t.date.key() < s[0].date.key()) {
        lemma_insert_by_date_len(s.drop_first(), t);
    }
}

proof fn lemma_insert_by_date_sorted(s: Seq<Trip>, t: Trip)
    requires
        sorted_by_date(s),
    ensures
        sorted_by_date(insert_by_date(t, s)),
    decreases s.len(),
{
    lemma_insert_by_date_len(s, t);
    if s.len() == 0 {
    } else if t.date.key() < s[0].date.key() {
        assert forall|i: int, j: int|
            0 <= i < j < insert_by_date(t, s).len() implies insert_by_date(t, s)[i].date.key()
            <= insert_by_date(t, s)[j].date.key() by {
            if i > 0 {
                assert(insert_by_date(t, s)[i] == s[i - 1]);
                assert(insert_by_date(t, s)[j] == s[j - 1]);
            }
        }
    } else {
        let rest = s.drop_first();
        assert(sorted_by_date(rest));
        lemma_insert_by_date_sorted(rest, t);
        lemma_insert_by_date_len(rest, t);
        let out = insert_by_date(t, s);
        let sub = insert_by_date(t, rest);
        assert(out == seq![s[0]] + sub);
        // every element of the inserted tail is either t or an element of
        // rest, and both are at or after s[0]'s date
        assert forall|j: int| 0 <= j < sub.len() implies s[0].date.key()
            <= sub[j].date.key() by {
            lemma_insert_by_date_elems(rest, t, j);
        }
        assert forall|i: int, j: int| 0 <= i < j < out.len() implies out[i].date.key()
            <= out[j].date.key() by {
            if i > 0 {
                assert(out[i] == sub[i - 1]);
                assert(out[j] == sub[j - 1]);
            } else {
                assert(out[j] == sub[j - 1]);
            }
        }
    }
}

proof fn lemma_insert_by_date_elems(s: Seq<Trip>, t: Trip, j: int)
    requires
        0 <= j < insert_by_date(t, s).len(),
    ensures
        insert_by_date(t, s)[j] == t || (exists|k: int|
            0 <= k < s.len() && insert_by_date(t, s)[j] == s[k]),
    decreases s.len(),
{
    lemma_insert_by_date_len(s, t);
    if s.len() == 0 {
    } else if t.date.key() < s[0].date.key() {
        if j > 0 {
            assert(insert_by_date(t, s)[j] == s[j - 1]);
        }
    } else {
        let rest = s.drop_first();
        if j == 0 {
        } else {
            lemma_insert_by_date_elems(rest, t, j - 1);
            assert(insert_by_date(t, s)[j] == insert_by_date(t, rest)[j - 1]);
            if insert_by_date(t, rest)[j - 1] != t {
                let k = choose|k: int|
                    0 <= k < rest.len() && insert_by_date(t, rest)[j - 1] == rest[k];
                assert(rest[k] == s[k + 1]);
            }
        }
    }
}

proof fn lemma_insert_by_date_multiset(s: Seq<Trip>, t: Trip)
    ensures
        insert_by_date(t, s).to_multiset() == s.to_multiset().insert(t),
    decreases s.len(),
{
    broadcast use group_to_multiset_ensures;

    if s.len() == 0 {
        assert(insert_by_date(t, s) =~= Seq::<Trip>::empty().push(t));
        assert(Seq::<Trip>::empty().push(t).to_multiset() =~= s.to_multiset().insert(t));
    } else if t.date.key() < s[0].date.key() {
        assert(insert_by_date(t, s) == seq![t] + s);
        lemma_multiset_commutative(seq![t], s);
        assert(seq![t] =~= Seq::<Trip>::empty().push(t));
        assert(seq![t].to_multiset() =~= Multiset::<Trip>::empty().insert(t));
        assert((seq![t] + s).to_multiset() =~= s.to_multiset().insert(t));
    } else {
        let rest = s.drop_first();
        lemma_insert_by_date_multiset(rest, t);
        assert(insert_by_date(t, s) == seq![s[0]] + insert_by_date(t, rest));
        lemma_multiset_commutative(seq![s[0]], insert_by_date(t, rest));
        assert(seq![s[0]] =~= Seq::<Trip>::empty().push(s[0]));
        assert(seq![s[0]].to_multiset() =~= Multiset::<Trip>::empty().insert(s[0]));
        assert(s =~= seq![s[0]] + rest);
        lemma_multiset_commutative(seq![s[0]], rest);
        assert((seq![s[0]] + insert_by_date(t, rest)).to_multiset() =~= s.to_multiset().insert(
            t,
        ));
    }
}

proof fn lemma_insert_by_date_filter(s: Seq<Trip>, t: Trip, k: int)
    requires
        sorted_by_date(s),
    ensures
        t.date.key() == k ==> insert_by_date(t, s).filter(has_date_key(k)) == s.filter(
            has_date_key(k),
        ).push(t),
        t.date.key() != k ==> insert_by_date(t, s).filter(has_date_key(k)) == s.filter(
            has_date_key(k),
        ),
    decreases s.len(),
{
    reveal(Seq::filter);
    broadcast use Seq::lemma_filter_push;

    if s.len() == 0 {
        assert(insert_by_date(t, s) == seq![t]);
        lemma_filter_singleton(t, has_date_key(k));
        assert(s.filter(has_date_key(k)) == s);
        if t.date.key() == k {
            assert(s.filter(has_date_key(k)).push(t) =~= seq![t]);
        }
    } else if t.date.key() < s[0].date.key() {
        // t lands in front; everything behind it has a strictly later date
        let out = insert_by_date(t, s);
        assert(out == seq![t] + s);
        lemma_filter_head(t, s, k);
        if t.date.key() == k {
            // no element of the sorted remainder can share t's date
            assert(s.all(|x: Trip| !has_date_key(k)(x))) by {
                assert(forall|i: int|
                    0 <= i < s.len() ==> s[0].date.key() <= #[trigger] s[i].date.key());
            }
            s.lemma_all_neg_filter_empty(has_date_key(k));
            assert(s.filter(has_date_key(k)) =~= Seq::<Trip>::empty());
            assert(seq![t] + s.filter(has_date_key(k)) =~= s.filter(has_date_key(k)).push(t));
        }
    } else {
        let rest = s.drop_first();
        assert(sorted_by_date(rest));
        lemma_insert_by_date_filter(rest, t, k);
        let sub = insert_by_date(t, rest);
        assert(insert_by_date(t, s) == seq![s[0]] + sub);
        lemma_filter_head(s[0], sub, k);
        lemma_filter_head(s[0], rest, k);
        assert(s =~= seq![s[0]] + rest);
        if t.date.key() == k {
            assert(insert_by_date(t, s).filter(has_date_key(k)) =~= s.filter(
                has_date_key(k),
            ).push(t));
        }
    }
}

/// Filtering a one-element sequence keeps the element exactly when it
/// satisfies the predicate.
proof fn lemma_filter_singleton(h: Trip, p: spec_fn(Trip) -> bool)
    ensures
        p(h) ==> seq![h].filter(p) == seq![h],
        !p(h) ==> seq![h].filter(p) == Seq::<Trip>::empty(),
{
    reveal(Seq::filter);
    broadcast use Seq::lemma_filter_push;

    let e = Seq::<Trip>::empty();
    assert(e.filter(p) == e);
    assert(seq![h] =~= e.push(h));
    if p(h) {
        assert(e.filter(p).push(h) =~= seq![h]);
    }
}

/// Filtering a sequence with one element stuck on the front keeps that
/// element first exactly when it satisfies the predicate.
proof fn lemma_filter_head(h: Trip, s: Seq<Trip>, k: int)
    ensures
        has_date_key(k)(h) ==> (seq![h] + s).filter(has_date_key(k)) == seq![h] + s.filter(
            has_date_key(k),
        ),
        !has_date_key(k)(h) ==> (seq![h] + s).filter(has_date_key(k)) == s.filter(
            has_date_key(k),
        ),
{
    broadcast use Seq::filter_distributes_over_add;

    lemma_filter_singleton(h, has_date_key(k));
    if !has_date_key(k)(h) {
        assert((seq![h] + s).filter(has_date_key(k)) =~= s.filter(has_date_key(k)));
    }
}

/// The sort's output is ascending by date.
pub proof fn lemma_sort_by_date_sorted(s: Seq<Trip>)
    ensures
        sorted_by_date(sort_by_date(s)),
    decreases s.len(),
{
    if s.len() > 0 {
        lemma_sort_by_date_sorted(s.drop_last());
        lemma_insert_by_date_sorted(sort_by_date(s.drop_last()), s.last());
    }
}

/// The sort's output holds exactly the input's trips.
pub proof fn lemma_sort_by_date_multiset(s: Seq<Trip>)
    ensures
        sort_by_date(s).to_multiset() == s.to_multiset(),
    decreases s.len(),
{
    broadcast use group_to_multiset_ensures;

    if s.len() > 0 {
        lemma_sort_by_date_multiset(s.drop_last());
        lemma_insert_by_date_multiset(sort_by_date(s.drop_last()), s.last());
        assert(s =~= s.drop_last().push(s.last()));
        assert(s.drop_last().push(s.last()).to_multiset() =~= s.drop_last().to_multiset().insert(
            s.last(),
        ));
    }
}

/// Stability: among the trips of any one date, the sort keeps the order in
/// which they stood in the input.
pub proof fn lemma_sort_by_date_stable(s: Seq<Trip>, k: int)
    ensures
        sort_by_date(s).filter(has_date_key(k)) == s.filter(has_date_key(k)),
    decreases s.len(),
{
    reveal(Seq::filter);
    broadcast use Seq::lemma_filter_push;

    if s.len() > 0 {
        let rest = s.drop_last();
        lemma_sort_by_date_stable(rest, k);
        lemma_sort_by_date_sorted(rest);
        lemma_insert_by_date_filter(sort_by_date(rest), s.last(), k);
        assert(s =~= rest.push(s.last()));
    }
}

/// Adding a trip and then another — whatever their dates — leaves the store
/// sorted ascending by date, holding exactly the earlier trips plus the two
/// new ones, and keeps the relative order of trips that share a date: what
/// two `Trips::add` calls leave behind is the stable sort of the earlier
/// contents with the two trips appended.
pub proof fn lemma_add_twice_sorted(s: Seq<Trip>, t1: Trip, t2: Trip, k: int)
    ensures
        sorted_by_date(sort_by_date(sort_by_date(s.push(t1)).push(t2))),
        sort_by_date(sort_by_date(s.push(t1)).push(t2)).to_multiset() == s.push(t1).push(
            t2,
        ).to_multiset(),
        sort_by_date(sort_by_date(s.push(t1)).push(t2)).filter(has_date_key(k)) == s.push(
            t1,
        ).push(t2).filter(has_date_key(k)),
{
    broadcast use group_to_multiset_ensures;
    broadcast use Seq::lemma_filter_push;

    let once = sort_by_date(s.push(t1));
    lemma_sort_by_date_sorted(once.push(t2));
    lemma_sort_by_date_multiset(once.push(t2));
    lemma_sort_by_date_multiset(s.push(t1));
    lemma_sort_by_date_stable(once.push(t2), k);
    lemma_sort_by_date_stable(s.push(t1), k);
}

fn insert_trip_by_date(v: &mut Vec<Trip>, t: Trip)
    ensures
        final(v)@ == insert_by_date(t, old(v)@),
{
    let ghost t0 = t;
    let n = v.len();
    let mut i: usize = 0;
    while i < n && !t.date.lt(&v[i].date)
        invariant
            n == v@.len(),
            i <= n,
            v@ == old(v)@,
            t == t0,
            forall|j: int| 0 <= j < i ==> v@[j].date.key() <= t.date.key(),
        decreases n - i,
    {
        i = i + 1;
    }
    proof {
        lemma_insert_by_date_at(v@, t, i as int);
    }
    v.insert(i, t);
}

/// Sorts the trips ascending by date, stably.
pub fn sort_trips_by_date(v: &mut Vec<Trip>)
    ensures
        final(v)@ == sort_by_date(old(v)@),
        sorted_by_date(final(v)@),
{
    let mut out: Vec<Trip> = Vec::new();
    let mut i: usize = 0;
    while i < v.len()
        invariant
            i <= v@.len(),
            v@ == old(v)@,
            out@ == sort_by_date(v@.take(i as int)),
        decreases v@.len() - i,
    {
        let t = v[i].clone();
        insert_trip_by_date(&mut out, t);
        proof {
            assert(v@.take(i + 1).drop_last() =~= v@.take(i as int));
            assert(v@.take(i + 1).last() == v@[i as int]);
        }
        i = i + 1;
    }
    proof {
        assert(v@.take(v@.len() as int) =~= v@);
        lemma_sort_by_date_sorted(v@);
    }
    *v = out;
}

/// The ordered collection of all logged trips.
#[derive(Debug)]
pub struct Trips {
    pub trips: Vec<Trip>,
}

impl Clone for Trips {
    /// Clones the store; the copy holds the same trips.
    fn clone(&self) -> (r: Trips)
        ensures
            r.trips@ == self.trips@,
    {
        let mut out: Vec<Trip> = Vec::new();
        let mut i: usize = 0;
        while i < self.trips.len()
            invariant
                i <= self.trips@.len(),
                out@ == self.trips@.take(i as int),
            decreases self.trips@.len() - i,
        {
            out.push(self.trips[i].clone());
            proof {
                assert(self.trips@.take(i + 1) =~= self.trips@.take(i as int).push(
                    self.trips@[i as int],
                ));
            }
            i = i + 1;
        }
        proof {
            assert(self.trips@.take(self.trips@.len() as int) =~= self.trips@);
        }
        Trips { trips: out }
    }
}

impl Trips {
    /// The store keeps its trips sorted ascending by date.
    pub open spec fn wf(self) -> bool {
        sorted_by_date(self.trips@)
    }

    /// An empty store.
    pub fn new() -> (r: Trips)
        ensures
            r.trips@ == Seq::<Trip>::empty(),
            r.wf(),
    {
        Trips { trips: Vec::new() }
    }

    /// Builds a store from loaded trips, re-sorting them ascending by date,
    /// stably: persisted state in any order comes back well-formed.
    pub fn from_vec(trips: Vec<Trip>) -> (r: Trips)
        ensures
            r.trips@ == sort_by_date(trips@),
            r.wf(),
    {
        let mut trips = trips;
        sort_trips_by_date(&mut trips);
        Trips { trips }
    }

    /// Appends a trip and re-sorts the whole collection ascending by date,
    /// stably, exactly as a sort-by-cached-key re-sort does.
    pub fn add(&mut self, trip: Trip)
        ensures
            final(self).trips@ == sort_by_date(old(self).trips@.push(trip)),
            final(self).wf(),
    {
        self.trips.push(trip);
        sort_trips_by_date(&mut self.trips);
    }

    /// Removes every trip whose id is `id`; a no-op when none matches.
    pub fn remove(&mut self, id: u128)
        ensures
            final(self).trips@ == old(self).trips@.filter(keeps_id(id)),
            old(self).wf() ==> final(self).wf(),
    {
        let mut out: Vec<Trip> = Vec::new();
        let n = self.trips.len();
        let mut i: usize = 0;
        while i < n
            invariant
                n == self.trips@.len(),
                i <= n,
                self.trips@ == old(self).trips@,
                out@ == self.trips@.take(i as int).filter(keeps_id(id)),
            decreases n - i,
        {
            proof {
                broadcast use Seq::lemma_filter_push;

                assert(self.trips@.take(i + 1) =~= self.trips@.take(i as int).push(
                    self.trips@[i as int],
                ));
            }
            if self.trips[i].id != id {
                out.push(self.trips[i].clone());
            }
            i = i + 1;
        }
        proof {
            assert(self.trips@.take(n as int) =~= self.trips@);
            if old(self).wf() {
                lemma_filter_sorted(self.trips@, keeps_id(id));
            }
        }
        self.trips = out;
    }

    /// The earliest trip's date, when the store is sorted and non-empty:
    /// the seed of the synthetic lower interval bound.
    pub fn first_date(&self) -> (r: Option<Date>)
        ensures
            self.trips@.len() == 0 ==> r is None,
            self.trips@.len() > 0 ==> r == Some(self.trips@[0].date),
    {
        if self.trips.len() == 0 {
            None
        } else {
            Some(self.trips[0].date)
        }
    }

    /// The last `n` trips, most recent first.
    pub fn recent(&self, n: usize) -> (r: Vec<Trip>)
        ensures
            r@.len() == if n <= self.trips@.len() {
                n as int
            } else {
                self.trips@.len() as int
            },
            forall|i: int|
                0 <= i < r@.len() ==> r@[i] == self.trips@[self.trips@.len() - 1 - i],
    {
        let mut out: Vec<Trip> = Vec::new();
        let len = self.trips.len();
        let count = if n <= len {
            n
        } else {
            len
        };
        let mut i: usize = 0;
        while i < count
            invariant
                count <= len,
                len == self.trips@.len(),
                i <= count,
                out@.len() == i,
                forall|j: int|
                    0 <= j < i ==> out@[j] == self.trips@[self.trips@.len() - 1 - j],
            decreases count - i,
        {
            out.push(self.trips[len - 1 - i].clone());
            i = i + 1;
        }
        out
    }
}

/// Filtering keeps a date-sorted sequence date-sorted.
proof fn lemma_filter_sorted(s: Seq<Trip>, p: spec_fn(Trip) -> bool)
    requires
        sorted_by_date(s),
    ensures
        sorted_by_date(s.filter(p)),
    decreases s.len(),
{
    reveal(Seq::filter);
    broadcast use Seq::lemma_filter_contains_rev;

    if s.len() > 0 {
        let rest = s.drop_last();
        assert(sorted_by_date(rest));
        lemma_filter_sorted(rest, p);
        if p(s.last()) {
            let out = s.filter(p);
            assert(out == rest.filter(p).push(s.last()));
            assert forall|i: int, j: int| 0 <= i < j < out.len() implies out[i].date.key()
                <= out[j].date.key() by {
                if j < out.len() - 1 {
                    assert(out[i] == rest.filter(p)[i]);
                    assert(out[j] == rest.filter(p)[j]);
                } else {
                    assert(out[j] == s.last());
                    let x = rest.filter(p)[i];
                    assert(rest.filter(p).contains(x));
                    assert(rest.contains(x));
                    let m = choose|m: int| 0 <= m < rest.len() && rest[m] == x;
                    assert(s[m] == x);
                    assert(x.date.key() <= s.last().date.key());
                }
            }
        }
    }
}

} // verus!
