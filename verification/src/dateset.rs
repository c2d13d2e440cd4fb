//! Ordered sets of unique dates, kept as strictly ascending vectors.
//!
//! Both the meal days and the checkpoint boundaries are such sets: insertion
//! is idempotent, removal is a no-op on absent dates, and the vector order
//! is always strictly ascending by date.

use crate::date::Date;
use vstd::prelude::*;
use vstd::seq_lib::*;

verus! {

/// Strictly ascending by date: sorted, with no duplicates.
pub open spec fn strictly_sorted(s: Seq<Date>) -> bool {
    forall|i: int, j: int| 0 <= i < j < s.len() ==> s[i].key() < s[j].key()
}

/// The predicate "is not the date `d`", used to state removal.
pub open spec fn keeps_date(d: Date) -> spec_fn(Date) -> bool {
    |x: Date| x != d
}

/// The predicate "lies in the interval open at `a`, closed at `b`".
pub open spec fn in_period_pred(a: Date, b: Date) -> spec_fn(Date) -> bool {
    |x: Date| a.key() < x.key() && x.key() <= b.key()
}

/// Where `d` lands in an ascending set: before the first later date,
/// nowhere when the set already holds it.
pub open spec fn insert_date(d: Date, s: Seq<Date>) -> Seq<Date>
    decreases s.len(),
{
    if s.len() == 0 {
        seq![d]
    } else if d.key() < s[0].key() {
        seq![d] + s
    } else if d.key() == s[0].key() {
        s
    } else {
        seq![s[0]] + insert_date(d, s.drop_first())
    }
}

/// What a toggle leaves behind: the date removed when present, inserted
/// when absent.
pub open spec fn toggle_date(d: Date, s: Seq<Date>) -> Seq<Date> {
    if s.contains(d) {
        s.filter(keeps_date(d))
    } else {
        insert_date(d, s)
    }
}

proof fn lemma_filter_all<A>(s: Seq<A>, p: spec_fn(A) -> bool)
    requires
        forall|i: int| 0 <= i < s.len() ==> p(#[trigger] s[i]),
    ensures
        s.filter(p) == s,
    decreases s.len(),
{
    reveal(Seq::filter);
    if s.len() > 0 {
        lemma_filter_all(s.drop_last(), p);
        assert(s.drop_last().filter(p).push(s.last()) =~= s);
    }
}

proof fn lemma_filter_single_head<A>(h: A, s: Seq<A>, p: spec_fn(A) -> bool)
    ensures
        p(h) ==> (seq![h] + s).filter(p) == seq![h] + s.filter(p),
        !p(h) ==> (seq![h] + s).filter(p) == s.filter(p),
{
    reveal(Seq::filter);
    broadcast use Seq::lemma_filter_push;
    broadcast use Seq::filter_distributes_over_add;

    let e = Seq::<A>::empty();
    assert(e.filter(p) == e);
    assert(seq![h] =~= e.push(h));
    if p(h) {
        assert(e.filter(p).push(h) =~= seq![h]);
    } else {
        assert((seq![h] + s).filter(p) =~= s.filter(p));
    }
}

proof fn lemma_insert_date_at(s: Seq<Date>, d: Date, i: int)
    requires
        0 <= i <= s.len(),
        forall|j: int| 0 <= j < i ==> s[j].key() < d.key(),
        i < s.len() ==> d.key() <= s[i].key(),
    ensures
        i < s.len() && s[i].key() == d.key() ==> insert_date(d, s) == s,
        !(i < s.len() && s[i].key() == d.key()) ==> insert_date(d, s) == s.insert(i, d),
    decreases i,
{
    if i == 0 {
        if s.len() == 0 {
            assert(insert_date(d, s) =~= s.insert(0, d));
        } else if d.key() < s[0].key() {
            assert(seq![d] + s =~= s.insert(0, d));
        }
    } else {
        let rest = s.drop_first();
        assert(forall|j: int| 0 <= j < i - 1 ==> rest[j].key() < d.key());
        lemma_insert_date_at(rest, d, i - 1);
        if i < s.len() && s[i].key() == d.key() {
            assert(rest[i - 1].key() == d.key());
            assert(insert_date(d, s) == seq![s[0]] + rest);
            assert(seq![s[0]] + rest =~= s);
        } else {
            assert(insert_date(d, s) == seq![s[0]] + rest.insert(i - 1, d));
            assert(seq![s[0]] + rest.insert(i - 1, d) =~= s.insert(i, d));
        }
    }
}

/// Inserting a date into an ascending set keeps it ascending.
pub proof fn lemma_insert_date_sorted(s: Seq<Date>, d: Date)
    requires
        strictly_sorted(s),
    ensures
        strictly_sorted(insert_date(d, s)),
        insert_date(d, s).contains(d),
        forall|x: Date| s.contains(x) ==> #[trigger] insert_date(d, s).contains(x),
        forall|x: Date|
            #[trigger] insert_date(d, s).contains(x) ==> (s.contains(x) || x == d),
    decreases s.len(),
{
    if s.len() == 0 {
        assert(insert_date(d, s)[0] == d);
        assert forall|x: Date| #[trigger] insert_date(d, s).contains(x) implies (s.contains(x)
            || x == d) by {
            let j = choose|j: int|
                0 <= j < insert_date(d, s).len() && insert_date(d, s)[j] == x;
            assert(j == 0);
        }
    } else if d.key() < s[0].key() {
        let out = seq![d] + s;
        assert forall|i: int, j: int| 0 <= i < j < out.len() implies out[i].key()
            < out[j].key() by {
            if i > 0 {
                assert(out[i] == s[i - 1]);
            }
            assert(out[j] == s[j - 1]);
        }
        assert(out[0] == d);
        assert forall|x: Date| s.contains(x) implies #[trigger] out.contains(x) by {
            let j = choose|j: int| 0 <= j < s.len() && s[j] == x;
            assert(out[j + 1] == x);
        }
        assert forall|x: Date| #[trigger] out.contains(x) implies (s.contains(x) || x == d) by {
            let j = choose|j: int| 0 <= j < out.len() && out[j] == x;
            if j > 0 {
                assert(s[j - 1] == x);
            }
        }
    } else if d.key() == s[0].key() {
        Date::lemma_key_injective(d, s[0]);
        assert(s[0] == d);
    } else {
        let rest = s.drop_first();
        assert(strictly_sorted(rest));
        lemma_insert_date_sorted(rest, d);
        let sub = insert_date(d, rest);
        let out = seq![s[0]] + sub;
        assert(insert_date(d, s) == out);
        // every element behind the head is either d or from the tail, and
        // both lie strictly after the head
        assert forall|j: int| 0 <= j < sub.len() implies s[0].key() < sub[j].key() by {
            assert(sub.contains(sub[j]));
            if sub[j] == d {
            } else {
                let m = choose|m: int| 0 <= m < rest.len() && rest[m] == sub[j];
            }
        }
        assert forall|i: int, j: int| 0 <= i < j < out.len() implies out[i].key()
            < out[j].key() by {
            if i > 0 {
                assert(out[i] == sub[i - 1]);
            }
            assert(out[j] == sub[j - 1]);
        }
        let jd = choose|jd: int| 0 <= jd < sub.len() && sub[jd] == d;
        assert(out[jd + 1] == d);
        assert forall|x: Date| s.contains(x) implies #[trigger] out.contains(x) by {
            let j = choose|j: int| 0 <= j < s.len() && s[j] == x;
            if j == 0 {
                assert(out[0] == x);
            } else {
                assert(rest[j - 1] == x);
                assert(rest.contains(x));
                assert(sub.contains(x));
                let m = choose|m: int| 0 <= m < sub.len() && sub[m] == x;
                assert(out[m + 1] == x);
            }
        }
        assert forall|x: Date| #[trigger] out.contains(x) implies (s.contains(x) || x == d) by {
            let j = choose|j: int| 0 <= j < out.len() && out[j] == x;
            if j > 0 {
                assert(sub[j - 1] == x);
                assert(sub.contains(x));
                if x != d {
                    let m = choose|m: int| 0 <= m < rest.len() && rest[m] == x;
                    assert(s[m + 1] == x);
                }
            }
        }
    }
}

/// Toggling a date twice returns an ascending set to exactly where it was.
pub proof fn lemma_toggle_twice(s: Seq<Date>, d: Date)
    requires
        strictly_sorted(s),
    ensures
        toggle_date(d, toggle_date(d, s)) == s,
{
    if s.contains(d) {
        lemma_filter_strictly_sorted(s, keeps_date(d));
        lemma_filter_not_contains(s, d);
        lemma_insert_back(s, d);
    } else {
        lemma_insert_date_sorted(s, d);
        lemma_remove_inserted(s, d);
    }
}

/// Filtering keeps an ascending date set ascending.
pub proof fn lemma_filter_strictly_sorted(s: Seq<Date>, p: spec_fn(Date) -> bool)
    requires
        strictly_sorted(s),
    ensures
        strictly_sorted(s.filter(p)),
    decreases s.len(),
{
    reveal(Seq::filter);
    broadcast use Seq::lemma_filter_contains_rev;

    if s.len() > 0 {
        let rest = s.drop_last();
        assert(strictly_sorted(rest));
        lemma_filter_strictly_sorted(rest, p);
        if p(s.last()) {
            let out = s.filter(p);
            assert(out == rest.filter(p).push(s.last()));
            assert forall|i: int, j: int| 0 <= i < j < out.len() implies out[i].key()
                < out[j].key() by {
                if j < out.len() - 1 {
                    assert(out[i] == rest.filter(p)[i]);
                    assert(out[j] == rest.filter(p)[j]);
                } else {
                    assert(out[j] == s.last());
                    let x = rest.filter(p)[i];
                    assert(rest.filter(p).contains(x));
                    assert(rest.contains(x));
                    let m = choose|m: int| 0 <= m < rest.len() && rest[m] == x;
                    assert(s[m] == x);
                }
            }
        }
    }
}

proof fn lemma_filter_not_contains(s: Seq<Date>, d: Date)
    ensures
        !s.filter(keeps_date(d)).contains(d),
{
    broadcast use Seq::lemma_filter_pred;

    let out = s.filter(keeps_date(d));
    if out.contains(d) {
        let j = choose|j: int| 0 <= j < out.len() && out[j] == d;
        assert(keeps_date(d)(out[j]));
    }
}

/// Putting a removed date back restores an ascending set exactly.
#[verifier::rlimit(50)]
proof fn lemma_insert_back(s: Seq<Date>, d: Date)
    requires
        strictly_sorted(s),
        s.contains(d),
    ensures
        insert_date(d, s.filter(keeps_date(d))) == s,
    decreases s.len(),
{
    let p = keeps_date(d);
    if s.len() > 0 {
        let rest = s.drop_first();
        assert(s =~= seq![s[0]] + rest);
        lemma_filter_single_head(s[0], rest, p);
        assert(strictly_sorted(rest));
        if s[0] == d {
            // the tail lies strictly after d, so it keeps every element
            assert forall|i: int| 0 <= i < rest.len() implies p(#[trigger] rest[i]) by {
                assert(rest[i] == s[i + 1]);
                Date::lemma_key_injective(rest[i], d);
            }
            lemma_filter_all(rest, p);
            assert(s.filter(p) == rest.filter(p));
            if rest.len() == 0 {
                assert(insert_date(d, rest) =~= seq![d]);
                assert(s =~= seq![d]);
            } else {
                assert(rest[0] == s[1]);
                assert(d.key() < rest[0].key());
                assert(insert_date(d, rest) == seq![d] + rest);
                assert(seq![d] + rest =~= s);
            }
        } else {
            // d sits in the tail, so the head survives the filter and the
            // insertion walks past it
            let j = choose|j: int| 0 <= j < s.len() && s[j] == d;
            assert(j > 0);
            assert(rest[j - 1] == d);
            assert(rest.contains(d));
            assert(s[0].key() < d.key());
            lemma_insert_back(rest, d);
            assert(s.filter(p) == seq![s[0]] + rest.filter(p));
            if rest.filter(p).len() == 0 {
                assert(insert_date(d, seq![s[0]] + rest.filter(p)) == seq![s[0]] + insert_date(
                    d,
                    (seq![s[0]] + rest.filter(p)).drop_first(),
                ));
                assert((seq![s[0]] + rest.filter(p)).drop_first() =~= rest.filter(p));
                assert(seq![s[0]] + insert_date(d, rest.filter(p)) =~= s);
            } else {
                assert((seq![s[0]] + rest.filter(p))[0] == s[0]);
                assert((seq![s[0]] + rest.filter(p)).drop_first() =~= rest.filter(p));
                assert(insert_date(d, s.filter(p)) == seq![s[0]] + insert_date(
                    d,
                    rest.filter(p),
                ));
                assert(seq![s[0]] + insert_date(d, rest.filter(p)) =~= s);
            }
        }
    }
}

/// Removing a freshly inserted date restores an ascending set exactly.
#[verifier::rlimit(50)]
proof fn lemma_remove_inserted(s: Seq<Date>, d: Date)
    requires
        strictly_sorted(s),
        !s.contains(d),
    ensures
        insert_date(d, s).filter(keeps_date(d)) == s,
    decreases s.len(),
{
    let p = keeps_date(d);
    if s.len() == 0 {
        lemma_filter_single_head(d, Seq::<Date>::empty(), p);
        assert(insert_date(d, s) =~= seq![d] + Seq::<Date>::empty());
        assert(Seq::<Date>::empty().filter(p) == Seq::<Date>::empty());
        assert(s =~= Seq::<Date>::empty());
    } else if d.key() < s[0].key() {
        lemma_filter_single_head(d, s, p);
        assert forall|i: int| 0 <= i < s.len() implies p(#[trigger] s[i]) by {
            assert(s.contains(s[i]));
        }
        lemma_filter_all(s, p);
    } else if d.key() == s[0].key() {
        Date::lemma_key_injective(d, s[0]);
        assert(s.contains(s[0]));
        assert(false);
    } else {
        let rest = s.drop_first();
        assert(strictly_sorted(rest));
        assert forall|x: Date| rest.contains(x) implies s.contains(x) by {
            let m = choose|m: int| 0 <= m < rest.len() && rest[m] == x;
            assert(s[m + 1] == x);
        }
        lemma_remove_inserted(rest, d);
        lemma_filter_single_head(s[0], insert_date(d, rest), p);
        lemma_filter_single_head(s[0], rest, p);
        assert(s =~= seq![s[0]] + rest);
        assert(p(s[0]));
        assert(insert_date(d, s).filter(p) == seq![s[0]] + insert_date(d, rest).filter(p));
        assert(seq![s[0]] + rest.filter(p) == s.filter(p));
        assert forall|i: int| 0 <= i < s.len() implies p(#[trigger] s[i]) by {
            assert(s.contains(s[i]));
        }
        lemma_filter_all(s, p);
    }
}

/// Inserts `d` into the ascending vector, keeping it ascending; a no-op
/// when the date is already present.
pub fn insert_date_sorted(v: &mut Vec<Date>, d: Date)
    requires
        strictly_sorted(old(v)@),
    ensures
        final(v)@ == insert_date(d, old(v)@),
        strictly_sorted(final(v)@),
{
    let n = v.len();
    let mut i: usize = 0;
    while i < n && v[i].lt(&d)
        invariant
            n == v@.len(),
            i <= n,
            v@ == old(v)@,
            forall|j: int| 0 <= j < i ==> v@[j].key() < d.key(),
        decreases n - i,
    {
        i = i + 1;
    }
    proof {
        lemma_insert_date_at(v@, d, i as int);
        lemma_insert_date_sorted(v@, d);
    }
    if i < n && v[i].day == d.day && v[i].month == d.month && v[i].year == d.year {
        return ;
    }
    proof {
        if i < n {
            Date::lemma_key_injective(v@[i as int], d);
        }
    }
    v.insert(i, d);
}

/// Removes `d` from the vector; a no-op when it is absent.
pub fn remove_date(v: &mut Vec<Date>, d: Date)
    ensures
        final(v)@ == old(v)@.filter(keeps_date(d)),
        strictly_sorted(old(v)@) ==> strictly_sorted(final(v)@),
{
    let mut out: Vec<Date> = Vec::new();
    let n = v.len();
    let mut i: usize = 0;
    while i < n
        invariant
            n == v@.len(),
            i <= n,
            v@ == old(v)@,
            out@ == v@.take(i as int).filter(keeps_date(d)),
        decreases n - i,
    {
        proof {
            broadcast use Seq::lemma_filter_push;

            assert(v@.take(i + 1) =~= v@.take(i as int).push(v@[i as int]));
        }
        let x = v[i];
        if !(x.day == d.day && x.month == d.month && x.year == d.year) {
            out.push(x);
            proof {
                assert(keeps_date(d)(v@[i as int]));
            }
        } else {
            proof {
                assert(!keeps_date(d)(v@[i as int]));
            }
        }
        i = i + 1;
    }
    proof {
        assert(v@.take(n as int) =~= v@);
        if strictly_sorted(old(v)@) {
            lemma_filter_strictly_sorted(old(v)@, keeps_date(d));
        }
    }
    *v = out;
}

/// Whether the vector holds `d`.
pub fn contains_date(v: &Vec<Date>, d: &Date) -> (r: bool)
    ensures
        r == v@.contains(*d),
{
    let n = v.len();
    let mut i: usize = 0;
    while i < n
        invariant
            n == v@.len(),
            i <= n,
            forall|j: int| 0 <= j < i ==> v@[j] != *d,
        decreases n - i,
    {
        let x = v[i];
        if x.day == d.day && x.month == d.month && x.year == d.year {
            proof {
                assert(v@[i as int] == *d);
            }
            return true;
        }
        i = i + 1;
    }
    proof {
        if v@.contains(*d) {
            let j = choose|j: int| 0 <= j < v@.len() && v@[j] == *d;
            assert(false);
        }
    }
    false
}

/// Counts the dates lying in the interval open at `after`, closed at
/// `before_inclusive`.
pub fn count_in_period(v: &Vec<Date>, after: &Date, before_inclusive: &Date) -> (r: usize)
    ensures
        r == v@.filter(in_period_pred(*after, *before_inclusive)).len(),
{
    let ghost p = in_period_pred(*after, *before_inclusive);
    let n = v.len();
    let mut count: usize = 0;
    let mut i: usize = 0;
    while i < n
        invariant
            n == v@.len(),
            i <= n,
            p == in_period_pred(*after, *before_inclusive),
            count == v@.take(i as int).filter(p).len(),
            count <= i,
        decreases n - i,
    {
        proof {
            broadcast use Seq::lemma_filter_len_push;

            assert(v@.take(i + 1) =~= v@.take(i as int).push(v@[i as int]));
        }
        let x = v[i];
        if after.lt(&x) && x.le(before_inclusive) {
            count = count + 1;
            proof {
                assert(p(v@[i as int]));
            }
        } else {
            proof {
                assert(!p(v@[i as int]));
            }
        }
        i = i + 1;
    }
    proof {
        assert(v@.take(n as int) =~= v@);
    }
    count
}

} // verus!
