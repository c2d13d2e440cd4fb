//! Favorite routes.
//!
//! Trips are grouped by their directional (origin, destination) pair; the
//! pairs are ranked by how often they occur, and the first logged trip of
//! each of the five most frequent pairs is returned.  Ties are broken
//! deterministically: pairs keep the order in which they first appear in
//! the store, and the count sort is stable.

use crate::trip::Trip;
use crate::trips::Trips;
use vstd::prelude::*;
use vstd::seq_lib::*;

verus! {

/// A route pair as plain character sequences: origin then destination.
pub open spec fn pair_of(t: Trip) -> (Seq<char>, Seq<char>) {
    (t.from@, t.to@)
}

/// The predicate "travels the pair `p`".
pub open spec fn matches_pair(p: (Seq<char>, Seq<char>)) -> spec_fn(Trip) -> bool {
    |t: Trip| pair_of(t) == p
}

/// Some trip of `s` travels the pair `p`.
pub open spec fn has_pair(s: Seq<Trip>, p: (Seq<char>, Seq<char>)) -> bool {
    exists|i: int| 0 <= i < s.len() && pair_of(s[i]) == p
}

/// How many trips of `s` travel the pair `p`.
pub open spec fn pair_count(s: Seq<Trip>, p: (Seq<char>, Seq<char>)) -> int {
    s.filter(matches_pair(p)).len() as int
}

/// The distinct route pairs of `s`, each at its first appearance.
pub open spec fn distinct_pairs(s: Seq<Trip>) -> Seq<(Seq<char>, Seq<char>)>
    decreases s.len(),
{
    if s.len() == 0 {
        Seq::empty()
    } else if has_pair(s.drop_last(), pair_of(s.last())) {
        distinct_pairs(s.drop_last())
    } else {
        distinct_pairs(s.drop_last()).push(pair_of(s.last()))
    }
}

/// A ranked entry: origin, destination, and the pair's trip count.
pub open spec fn with_counts(s: Seq<Trip>) -> Seq<(Seq<char>, Seq<char>, int)> {
    distinct_pairs(s).map_values(
        |p: (Seq<char>, Seq<char>)| (p.0, p.1, pair_count(s, (p.0, p.1))),
    )
}

/// Where a ranked entry lands: before the first entry with a strictly
/// smaller count, after every entry with the same or a larger count.
pub open spec fn insert_by_count(
    e: (Seq<char>, Seq<char>, int),
    s: Seq<(Seq<char>, Seq<char>, int)>,
) -> Seq<(Seq<char>, Seq<char>, int)>
    decreases s.len(),
{
    if s.len() == 0 {
        seq![e]
    } else if e.2 > s[0].2 {
        seq![e] + s
    } else {
        seq![s[0]] + insert_by_count(e, s.drop_first())
    }
}

/// Insertion sort, descending by count; stable, so pairs with equal counts
/// keep their first-appearance order.
pub open spec fn sort_by_count(s: Seq<(Seq<char>, Seq<char>, int)>) -> Seq<
    (Seq<char>, Seq<char>, int),
>
    decreases s.len(),
{
    if s.len() == 0 {
        Seq::empty()
    } else {
        insert_by_count(s.last(), sort_by_count(s.drop_last()))
    }
}

/// The first trip of `s` that travels the pair `p`.
pub open spec fn first_with_pair(s: Seq<Trip>, p: (Seq<char>, Seq<char>)) -> Trip
    decreases s.len(),
{
    if s.len() == 0 {
        arbitrary()
    } else if pair_of(s[0]) == p {
        s[0]
    } else {
        first_with_pair(s.drop_first(), p)
    }
}

/// What `Trips::favorites` returns: the distinct pairs ranked by count
/// (stably, descending), cut to the top five, each represented by its first
/// logged trip.
pub open spec fn favorites_spec(s: Seq<Trip>) -> Seq<Trip> {
    let ranked = sort_by_count(with_counts(s));
    let top = if ranked.len() <= 5 {
        ranked
    } else {
        ranked.take(5)
    };
    top.map_values(|e: (Seq<char>, Seq<char>, int)| first_with_pair(s, (e.0, e.1)))
}

/// The view of an executable ranked entry.
pub open spec fn entry_view(e: (String, String, usize)) -> (Seq<char>, Seq<char>, int) {
    (e.0@, e.1@, e.2 as int)
}

/// The view of an executable ranked list.
pub open spec fn entries_view(s: Seq<(String, String, usize)>) -> Seq<(Seq<char>, Seq<char>, int)> {
    s.map_values(|e: (String, String, usize)| (e.0@, e.1@, e.2 as int))
}

proof fn lemma_distinct_pairs_contains(s: Seq<Trip>, p: (Seq<char>, Seq<char>))
    ensures
        distinct_pairs(s).contains(p) <==> has_pair(s, p),
    decreases s.len(),
{
    if s.len() > 0 {
        let rest = s.drop_last();
        lemma_distinct_pairs_contains(rest, p);
        let lastp = pair_of(s.last());
        let dp = distinct_pairs(s);
        let dpr = distinct_pairs(rest);
        if has_pair(rest, p) {
            // a witness below the last index still witnesses in s
            let i = choose|i: int| 0 <= i < rest.len() && pair_of(rest[i]) == p;
            assert(rest[i] == s[i]);
            assert(0 <= i < s.len() && pair_of(s[i]) == p);
            assert(has_pair(s, p));
        }
        if p == lastp {
            assert(0 <= s.len() - 1 < s.len() && pair_of(s[s.len() - 1]) == p);
            assert(has_pair(s, p));
            if has_pair(rest, lastp) {
                assert(dpr.contains(p));
            } else {
                assert(dp == dpr.push(lastp));
                assert(dp[dp.len() - 1] == p);
                assert(dp.contains(p));
            }
        } else {
            if has_pair(s, p) {
                let i = choose|i: int| 0 <= i < s.len() && pair_of(s[i]) == p;
                assert(i < s.len() - 1) by {
                    if i == s.len() - 1 {
                        assert(pair_of(s.last()) == p);
                    }
                }
                assert(rest[i] == s[i]);
                assert(0 <= i < rest.len() && pair_of(rest[i]) == p);
                assert(has_pair(rest, p));
                assert(dpr.contains(p));
                if has_pair(rest, lastp) {
                    assert(dp == dpr);
                } else {
                    assert(dp == dpr.push(lastp));
                    let j = choose|j: int| 0 <= j < dpr.len() && dpr[j] == p;
                    assert(dp[j] == p);
                }
                assert(dp.contains(p));
            }
            if dp.contains(p) {
                let j = choose|j: int| 0 <= j < dp.len() && dp[j] == p;
                if has_pair(rest, lastp) {
                    assert(dpr.contains(p));
                } else {
                    assert(dp == dpr.push(lastp));
                    if j < dp.len() - 1 {
                        assert(dpr[j] == p);
                        assert(dpr.contains(p));
                    } else {
                        assert(dp[j] == lastp);
                        assert(false);
                    }
                }
                assert(has_pair(rest, p));
            }
        }
    }
}

proof fn lemma_insert_by_count_at(
    s: Seq<(Seq<char>, Seq<char>, int)>,
    e: (Seq<char>, Seq<char>, int),
    i: int,
)
    requires
        0 <= i <= s.len(),
        forall|j: int| 0 <= j < i ==> s[j].2 >= e.2,
        i < s.len() ==> e.2 > s[i].2,
    ensures
        insert_by_count(e, s) == s.insert(i, e),
    decreases i,
{
    if i == 0 {
        if s.len() == 0 {
            assert(insert_by_count(e, s) =~= s.insert(0, e));
        } else {
            assert(insert_by_count(e, s) == seq![e] + s);
            assert(seq![e] + s =~= s.insert(0, e));
        }
    } else {
        let rest = s.drop_first();
        assert(forall|j: int| 0 <= j < i - 1 ==> rest[j].2 >= e.2);
        lemma_insert_by_count_at(rest, e, i - 1);
        assert(insert_by_count(e, s) == seq![s[0]] + rest.insert(i - 1, e));
        assert(seq![s[0]] + rest.insert(i - 1, e) =~= s.insert(i, e));
    }
}

proof fn lemma_insert_by_count_elems(
    s: Seq<(Seq<char>, Seq<char>, int)>,
    e: (Seq<char>, Seq<char>, int),
    j: int,
)
    requires
        0 <= j < insert_by_count(e, s).len(),
    ensures
        insert_by_count(e, s)[j] == e || (exists|k: int|
            0 <= k < s.len() && insert_by_count(e, s)[j] == s[k]),
    decreases s.len(),
{
    if s.len() == 0 {
    } else if e.2 > s[0].2 {
        if j > 0 {
            assert(insert_by_count(e, s)[j] == s[j - 1]);
        }
    } else {
        let rest = s.drop_first();
        if j == 0 {
        } else {
            lemma_insert_by_count_elems(rest, e, j - 1);
            assert(insert_by_count(e, s)[j] == insert_by_count(e, rest)[j - 1]);
            if insert_by_count(e, rest)[j - 1] != e {
                let k = choose|k: int|
                    0 <= k < rest.len() && insert_by_count(e, rest)[j - 1] == rest[k];
                assert(rest[k] == s[k + 1]);
            }
        }
    }
}

proof fn lemma_sort_by_count_elems(s: Seq<(Seq<char>, Seq<char>, int)>, j: int)
    requires
        0 <= j < sort_by_count(s).len(),
    ensures
        exists|k: int| 0 <= k < s.len() && sort_by_count(s)[j] == s[k],
    decreases s.len(),
{
    if s.len() > 0 {
        let rest = s.drop_last();
        lemma_insert_by_count_elems(sort_by_count(rest), s.last(), j);
        if sort_by_count(s)[j] == s.last() {
            assert(sort_by_count(s)[j] == s[s.len() - 1]);
        } else {
            let m = choose|m: int|
                0 <= m < sort_by_count(rest).len() && sort_by_count(s)[j] == sort_by_count(
                    rest,
                )[m];
            lemma_sort_by_count_elems(rest, m);
            let k = choose|k: int| 0 <= k < rest.len() && sort_by_count(rest)[m] == rest[k];
            assert(rest[k] == s[k]);
        }
    }
}

proof fn lemma_first_with_pair_at(s: Seq<Trip>, p: (Seq<char>, Seq<char>), i: int)
    requires
        0 <= i < s.len(),
        pair_of(s[i]) == p,
        forall|j: int| 0 <= j < i ==> pair_of(s[j]) != p,
    ensures
        first_with_pair(s, p) == s[i],
    decreases i,
{
    if i == 0 {
    } else {
        let rest = s.drop_first();
        assert(forall|j: int| 0 <= j < i - 1 ==> pair_of(rest[j]) != p);
        lemma_first_with_pair_at(rest, p, i - 1);
    }
}

/// Counts the trips of `v` that travel from `from` to `to`.
fn count_pair(v: &Vec<Trip>, from: &String, to: &String) -> (r: usize)
    ensures
        r == pair_count(v@, (from@, to@)),
{
    let ghost p = (from@, to@);
    let mut count: usize = 0;
    let mut i: usize = 0;
    while i < v.len()
        invariant
            i <= v@.len(),
            p == (from@, to@),
            count == pair_count(v@.take(i as int), p),
            count <= i,
        decreases v@.len() - i,
    {
        proof {
            broadcast use Seq::lemma_filter_len_push;

            assert(v@.take(i + 1) =~= v@.take(i as int).push(v@[i as int]));
        }
        let t = &v[i];
        if t.from == *from && t.to == *to {
            count = count + 1;
            proof {
                assert(matches_pair(p)(v@[i as int]));
            }
        } else {
            proof {
                assert(!matches_pair(p)(v@[i as int]));
            }
        }
        i = i + 1;
    }
    proof {
        assert(v@.take(v@.len() as int) =~= v@);
    }
    count
}

/// Returns the first trip of `v` that travels from `from` to `to`.
fn find_first_with_pair(v: &Vec<Trip>, from: &String, to: &String) -> (r: Trip)
    requires
        has_pair(v@, (from@, to@)),
    ensures
        r == first_with_pair(v@, (from@, to@)),
{
    let ghost p = (from@, to@);
    let n = v.len();
    let mut i: usize = 0;
    while i < n
        invariant
            n == v@.len(),
            i <= n,
            p == (from@, to@),
            has_pair(v@, p),
            forall|j: int| 0 <= j < i ==> pair_of(v@[j]) != p,
        decreases n - i,
    {
        let t = &v[i];
        if t.from == *from && t.to == *to {
            proof {
                lemma_first_with_pair_at(v@, p, i as int);
            }
            return t.clone();
        }
        proof {
            assert(pair_of(v@[i as int]) != p);
        }
        i = i + 1;
    }
    proof {
        let w = choose|w: int| 0 <= w < v@.len() && pair_of(v@[w]) == p;
        assert(false);
    }
    unreached()
}

/// Inserts a ranked entry before the first entry with a strictly smaller
/// count.
fn insert_ranked(v: &mut Vec<(String, String, usize)>, e: (String, String, usize))
    ensures
        entries_view(final(v)@) == insert_by_count(
            entry_view(e),
            entries_view(old(v)@),
        ),
{
    let ghost e0 = entry_view(e);
    let ghost m0 = entries_view(v@);
    let n = v.len();
    let mut i: usize = 0;
    while i < n && v[i].2 >= e.2
        invariant
            n == v@.len(),
            i <= n,
            v@ == old(v)@,
            forall|j: int| 0 <= j < i ==> entries_view(v@)[j].2 >= entry_view(e).2,
        decreases n - i,
    {
        i = i + 1;
    }
    proof {
        assert(m0.len() == n);
        if i < n {
            assert(m0[i as int].2 == v@[i as int].2);
        }
        lemma_insert_by_count_at(m0, e0, i as int);
    }
    v.insert(i, e);
    proof {
        assert(entries_view(final(v)@) =~= m0.insert(i as int, e0));
    }
}

impl Trips {
    /// The top five routes: distinct (origin, destination) pairs ranked by
    /// how many trips travel them, most frequent first, ties kept in order
    /// of first appearance; each pair is represented by its first logged
    /// trip.
    pub fn favorites(&self) -> (r: Vec<Trip>)
        ensures
            r@ == favorites_spec(self.trips@),
    {
        let s = &self.trips;
        // the distinct pairs, in first-appearance order
        let mut pairs: Vec<(String, String)> = Vec::new();
        let mut i: usize = 0;
        while i < s.len()
            invariant
                i <= s@.len(),
                pairs@.map_values(|q: (String, String)| (q.0@, q.1@)) == distinct_pairs(
                    s@.take(i as int),
                ),
            decreases s@.len() - i,
        {
            let ghost prefix = s@.take(i as int);
            let ghost dp = distinct_pairs(prefix);
            let t = &s[i];
            let mut found = false;
            let mut j: usize = 0;
            while j < pairs.len() && !found
                invariant
                    j <= pairs@.len(),
                    i < s@.len(),
                    pair_of(s@[i as int]) == (t.from@, t.to@),
                    pairs@.map_values(|q: (String, String)| (q.0@, q.1@)) == dp,
                    !found ==> forall|m: int| 0 <= m < j ==> dp[m] != pair_of(s@[i as int]),
                    found ==> dp.contains(pair_of(s@[i as int])),
                decreases pairs@.len() - j,
            {
                let q = &pairs[j];
                if q.0 == t.from && q.1 == t.to {
                    found = true;
                    proof {
                        assert(dp[j as int] == pair_of(s@[i as int]));
                    }
                } else {
                    proof {
                        assert(dp[j as int] == (pairs@[j as int].0@, pairs@[j as int].1@));
                    }
                }
                j = j + 1;
            }
            proof {
                lemma_distinct_pairs_contains(prefix, pair_of(s@[i as int]));
                assert(s@.take(i + 1).drop_last() =~= prefix);
                assert(s@.take(i + 1).last() == s@[i as int]);
                if !found {
                    assert(forall|m: int| 0 <= m < dp.len() ==> dp[m] != pair_of(s@[i as int]));
                    assert(!dp.contains(pair_of(s@[i as int])));
                }
            }
            if !found {
                pairs.push((t.from.clone(), t.to.clone()));
                proof {
                    assert(pairs@.map_values(|q: (String, String)| (q.0@, q.1@)) =~= dp.push(
                        pair_of(s@[i as int]),
                    ));
                }
            }
            i = i + 1;
        }
        proof {
            assert(s@.take(s@.len() as int) =~= s@);
        }
        // rank the pairs by count, stably, descending
        let ghost wc = with_counts(s@);
        let mut ranked: Vec<(String, String, usize)> = Vec::new();
        let mut k: usize = 0;
        while k < pairs.len()
            invariant
                k <= pairs@.len(),
                pairs@.map_values(|q: (String, String)| (q.0@, q.1@)) == distinct_pairs(s@),
                wc == with_counts(s@),
                s@ == self.trips@,
                entries_view(ranked@) == sort_by_count(wc.take(k as int)),
            decreases pairs@.len() - k,
        {
            let q0 = pairs[k].0.clone();
            let q1 = pairs[k].1.clone();
            let c = count_pair(s, &q0, &q1);
            proof {
                assert(distinct_pairs(s@)[k as int] == (pairs@[k as int].0@, pairs@[
                k as int].1@));
                assert(wc[k as int] == (q0@, q1@, pair_count(s@, (q0@, q1@))));
                assert(wc.take(k + 1).drop_last() =~= wc.take(k as int));
                assert(wc.take(k + 1).last() == wc[k as int]);
            }
            insert_ranked(&mut ranked, (q0, q1, c));
            k = k + 1;
        }
        proof {
            assert(wc.take(wc.len() as int) =~= wc);
            assert(wc.len() == distinct_pairs(s@).len());
        }
        // cut to the top five and pick each pair's first trip
        let mut out: Vec<Trip> = Vec::new();
        let lim = if ranked.len() <= 5 {
            ranked.len()
        } else {
            5
        };
        let ghost sorted = sort_by_count(wc);
        let mut m: usize = 0;
        while m < lim
            invariant
                m <= lim,
                lim <= ranked@.len(),
                lim == if sorted.len() <= 5 {
                    sorted.len() as int
                } else {
                    5
                },
                s@ == self.trips@,
                wc == with_counts(s@),
                sorted == sort_by_count(with_counts(s@)),
                entries_view(ranked@) == sorted,
                out@.len() == m,
                forall|j: int|
                    0 <= j < m ==> out@[j] == first_with_pair(s@, (sorted[j].0, sorted[j].1)),
            decreases lim - m,
        {
            let e0 = ranked[m].0.clone();
            let e1 = ranked[m].1.clone();
            proof {
                assert(sorted[m as int] == entry_view(ranked@[m as int]));
                lemma_sort_by_count_elems(wc, m as int);
                let k2 = choose|k2: int| 0 <= k2 < wc.len() && sorted[m as int] == wc[k2];
                let d = distinct_pairs(s@)[k2];
                assert(wc[k2] == (d.0, d.1, pair_count(s@, (d.0, d.1))));
                assert(distinct_pairs(s@).contains(d));
                lemma_distinct_pairs_contains(s@, d);
                let w = choose|w: int| 0 <= w < s@.len() && pair_of(s@[w]) == d;
                assert(e0@ == sorted[m as int].0);
                assert(e1@ == sorted[m as int].1);
                assert(pair_of(s@[w]) == (e0@, e1@));
                assert(has_pair(s@, (e0@, e1@)));
            }
            let ft = find_first_with_pair(s, &e0, &e1);
            out.push(ft);
            m = m + 1;
        }
        proof {
            let top = if sorted.len() <= 5 {
                sorted
            } else {
                sorted.take(5)
            };
            assert(out@ =~= favorites_spec(self.trips@));
        }
        out
    }
}

} // verus!
