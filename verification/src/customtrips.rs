//! The user's own route memory.
//!
//! Routes the bundled table does not know are remembered here when a trip
//! is logged, origin to destination, directionally.  Adding a trip writes
//! its travel data under its (origin, destination) key — fresh keys are
//! created, existing ones overwritten — and every other key reads exactly
//! as before.

use crate::destinations::{
    dest_lookup_spec, lemma_lookup_at, lookup_spec, min_text_view, rows_lookup, travel,
    OriginRow, Travel, TravelDest, TravelTable,
};
use crate::text::str_eq;
use crate::trip::{km_human_view, Trip};
use vstd::prelude::*;

verus! {

/// Destination keys are unique within a row.
pub open spec fn dests_wf(ds: Seq<TravelDest>) -> bool {
    forall|i: int, j: int|
        0 <= i < j < ds.len() ==> (#[trigger] ds[i]).to@ != (#[trigger] ds[j]).to@
}

/// Origin keys are unique, and each row's destination keys are too.
pub open spec fn rows_wf(rows: Seq<OriginRow>) -> bool {
    &&& forall|i: int, j: int|
        0 <= i < j < rows.len() ==> (#[trigger] rows[i]).from@ != (#[trigger] rows[j]).from@
    &&& forall|i: int| 0 <= i < rows.len() ==> dests_wf((#[trigger] rows[i]).dests@)
}

/// What the memory holds for a just-added trip: travel data derived from
/// the trip itself.
pub open spec fn added_travel_ok(r: Option<Travel>, t: Trip) -> bool {
    match r {
        Some(tv) => {
            &&& tv.distance.value == t.distance_tenths * 100
            &&& tv.distance.text@ == km_human_view(t.effective_tenths())
            &&& tv.duration.value == t.time_minutes * 60
            &&& tv.duration.text@ == min_text_view(t.time_minutes as int)
        },
        None => false,
    }
}

proof fn lemma_dest_lookup_update(ds: Seq<TravelDest>, j: int, d2: TravelDest, t: Seq<char>)
    requires
        0 <= j < ds.len(),
        d2.to@ == ds[j].to@,
        forall|k: int| 0 <= k < j ==> (#[trigger] ds[k]).to@ != ds[j].to@,
    ensures
        t == ds[j].to@ ==> dest_lookup_spec(ds.update(j, d2), t) == Some(d2.travel),
        t != ds[j].to@ ==> dest_lookup_spec(ds.update(j, d2), t) == dest_lookup_spec(ds, t),
    decreases j,
{
    let ds2 = ds.update(j, d2);
    if j == 0 {
        if t != ds[0].to@ {
            assert(ds2.drop_first() =~= ds.drop_first());
        }
    } else {
        assert(ds2[0] == ds[0]);
        assert(ds2.drop_first() =~= ds.drop_first().update(j - 1, d2));
        let rest = ds.drop_first();
        assert(forall|k: int| 0 <= k < j - 1 ==> (#[trigger] rest[k]).to@ != rest[j - 1].to@);
        lemma_dest_lookup_update(rest, j - 1, d2, t);
    }
}

proof fn lemma_dest_lookup_push(ds: Seq<TravelDest>, d2: TravelDest, t: Seq<char>)
    requires
        forall|k: int| 0 <= k < ds.len() ==> (#[trigger] ds[k]).to@ != d2.to@,
    ensures
        t == d2.to@ ==> dest_lookup_spec(ds.push(d2), t) == Some(d2.travel),
        t != d2.to@ ==> dest_lookup_spec(ds.push(d2), t) == dest_lookup_spec(ds, t),
    decreases ds.len(),
{
    let ds2 = ds.push(d2);
    if ds.len() == 0 {
        assert(ds2[0] == d2);
        assert(ds2.drop_first() =~= Seq::<TravelDest>::empty());
    } else {
        assert(ds2[0] == ds[0]);
        assert(ds2.drop_first() =~= ds.drop_first().push(d2));
        let rest = ds.drop_first();
        assert(forall|k: int| 0 <= k < rest.len() ==> (#[trigger] rest[k]).to@ != d2.to@);
        lemma_dest_lookup_push(rest, d2, t);
    }
}

proof fn lemma_lookup_update(
    rows: Seq<OriginRow>,
    i: int,
    row2: OriginRow,
    f: Seq<char>,
    t: Seq<char>,
)
    requires
        0 <= i < rows.len(),
        row2.from@ == rows[i].from@,
        forall|j: int| 0 <= j < i ==> (#[trigger] rows[j]).from@ != rows[i].from@,
    ensures
        f == rows[i].from@ ==> lookup_spec(rows.update(i, row2), f, t) == dest_lookup_spec(
            row2.dests@,
            t,
        ),
        f != rows[i].from@ ==> lookup_spec(rows.update(i, row2), f, t) == lookup_spec(
            rows,
            f,
            t,
        ),
    decreases i,
{
    let rows2 = rows.update(i, row2);
    if i == 0 {
        if f != rows[0].from@ {
            assert(rows2.drop_first() =~= rows.drop_first());
        }
    } else {
        assert(rows2[0] == rows[0]);
        assert(rows2.drop_first() =~= rows.drop_first().update(i - 1, row2));
        let rest = rows.drop_first();
        assert(forall|j: int|
            0 <= j < i - 1 ==> (#[trigger] rest[j]).from@ != rest[i - 1].from@);
        lemma_lookup_update(rest, i - 1, row2, f, t);
    }
}

proof fn lemma_lookup_push(rows: Seq<OriginRow>, r2: OriginRow, f: Seq<char>, t: Seq<char>)
    requires
        forall|j: int| 0 <= j < rows.len() ==> (#[trigger] rows[j]).from@ != r2.from@,
    ensures
        f == r2.from@ ==> lookup_spec(rows.push(r2), f, t) == dest_lookup_spec(r2.dests@, t),
        f != r2.from@ ==> lookup_spec(rows.push(r2), f, t) == lookup_spec(rows, f, t),
    decreases rows.len(),
{
    let rows2 = rows.push(r2);
    if rows.len() == 0 {
        assert(rows2[0] == r2);
        assert(rows2.drop_first() =~= Seq::<OriginRow>::empty());
    } else {
        assert(rows2[0] == rows[0]);
        assert(rows2.drop_first() =~= rows.drop_first().push(r2));
        let rest = rows.drop_first();
        assert(forall|j: int| 0 <= j < rest.len() ==> (#[trigger] rest[j]).from@ != r2.from@);
        lemma_lookup_push(rest, r2, f, t);
    }
}

/// The user's origin-to-destination route memory.
#[derive(Debug)]
pub struct CustomTrips {
    pub rows: Vec<OriginRow>,
}

impl CustomTrips {
    /// Keys are unique at both levels.
    pub open spec fn wf(self) -> bool {
        rows_wf(self.rows@)
    }

    /// An empty memory.
    pub fn new() -> (r: CustomTrips)
        ensures
            r.rows@ == Seq::<OriginRow>::empty(),
            r.wf(),
    {
        CustomTrips { rows: Vec::new() }
    }

    /// Exact-match, case-sensitive, directional lookup; a miss is a `None`.
    pub fn get(&self, from: &str, to: &str) -> (r: Option<Travel>)
        ensures
            r == lookup_spec(self.rows@, from@, to@),
    {
        rows_lookup(&self.rows, from, to)
    }

    /// The first row index for `from`, when one exists.
    fn find_row(rows: &Vec<OriginRow>, from: &str) -> (r: Option<usize>)
        ensures
            r matches Some(i) ==> i < rows@.len() && rows@[i as int].from@ == from@ && (forall|
            j: int|
                0 <= j < i ==> (#[trigger] rows@[j]).from@ != from@),
            r is None ==> forall|j: int|
                0 <= j < rows@.len() ==> (#[trigger] rows@[j]).from@ != from@,
    {
        let n = rows.len();
        let mut i: usize = 0;
        while i < n
            invariant
                n == rows@.len(),
                i <= n,
                forall|j: int| 0 <= j < i ==> (#[trigger] rows@[j]).from@ != from@,
            decreases n - i,
        {
            if str_eq(rows[i].from.as_str(), from) {
                return Some(i);
            }
            i = i + 1;
        }
        None
    }

    /// The first destination index for `to`, when one exists.
    fn find_dest(ds: &Vec<TravelDest>, to: &str) -> (r: Option<usize>)
        ensures
            r matches Some(j) ==> j < ds@.len() && ds@[j as int].to@ == to@ && (forall|k: int|
                0 <= k < j ==> (#[trigger] ds@[k]).to@ != to@),
            r is None ==> forall|k: int|
                0 <= k < ds@.len() ==> (#[trigger] ds@[k]).to@ != to@,
    {
        let n = ds.len();
        let mut j: usize = 0;
        while j < n
            invariant
                n == ds@.len(),
                j <= n,
                forall|k: int| 0 <= k < j ==> (#[trigger] ds@[k]).to@ != to@,
            decreases n - j,
        {
            if str_eq(ds[j].to.as_str(), to) {
                return Some(j);
            }
            j = j + 1;
        }
        None
    }

    /// Remembers the trip's travel data under its (origin, destination)
    /// key: a fresh key is created, an existing one overwritten, and every
    /// other key reads exactly as before.
    pub fn add(&mut self, trip: &Trip)
        requires
            old(self).wf(),
            trip.distance_tenths <= u32::MAX / 100,
            trip.time_minutes <= u32::MAX / 60,
        ensures
            final(self).wf(),
            forall|f: Seq<char>, t2: Seq<char>|
                !(f == trip.from@ && t2 == trip.to@) ==> #[trigger] lookup_spec(
                    final(self).rows@,
                    f,
                    t2,
                ) == lookup_spec(old(self).rows@, f, t2),
            added_travel_ok(lookup_spec(final(self).rows@, trip.from@, trip.to@), *trip),
    {
        let ghost rows0 = self.rows@;
        let tv = Travel::from_trip(trip);
        let d2 = TravelDest { to: trip.to.clone(), travel: tv };
        let found = Self::find_row(&self.rows, trip.from.as_str());
        match found {
            Some(i) => {
                let mut row = self.rows.remove(i);
                let ghost ds0 = row.dests@;
                match Self::find_dest(&row.dests, trip.to.as_str()) {
                    Some(j) => {
                        row.dests.remove(j);
                        row.dests.insert(j, d2);
                        proof {
                            assert(row.dests@ =~= ds0.update(j as int, d2));
                            lemma_dest_lookup_update(ds0, j as int, d2, trip.to@);
                            assert forall|t2: Seq<char>| t2 != trip.to@ implies #[trigger] dest_lookup_spec(
                                ds0.update(j as int, d2),
                                t2,
                            ) == dest_lookup_spec(ds0, t2) by {
                                lemma_dest_lookup_update(ds0, j as int, d2, t2);
                            }
                        }
                        self.rows.insert(i, row);
                        proof {
                            assert(self.rows@ =~= rows0.update(i as int, self.rows@[i as int]));
                            Self::finish_update(
                                rows0,
                                ds0.update(j as int, d2),
                                ds0,
                                self.rows@,
                                i as int,
                                *trip,
                                tv,
                            );
                        }
                    },
                    None => {
                        row.dests.push(d2);
                        proof {
                            assert(row.dests@ == ds0.push(d2));
                            lemma_dest_lookup_push(ds0, d2, trip.to@);
                            assert forall|t2: Seq<char>| t2 != trip.to@ implies #[trigger] dest_lookup_spec(
                                ds0.push(d2),
                                t2,
                            ) == dest_lookup_spec(ds0, t2) by {
                                lemma_dest_lookup_push(ds0, d2, t2);
                            }
                        }
                        self.rows.insert(i, row);
                        proof {
                            assert(self.rows@ =~= rows0.update(i as int, self.rows@[i as int]));
                            Self::finish_update(
                                rows0,
                                ds0.push(d2),
                                ds0,
                                self.rows@,
                                i as int,
                                *trip,
                                tv,
                            );
                        }
                    },
                }
            },
            None => {
                let mut dests: Vec<TravelDest> = Vec::new();
                dests.push(d2);
                let r2 = OriginRow { from: trip.from.clone(), dests };
                self.rows.push(r2);
                proof {
                    let rows2 = self.rows@;
                    assert(rows2 == rows0.push(rows2.last()));
                    let r2v = rows2.last();
                    assert(r2v.from@ == trip.from@);
                    assert(r2v.dests@.len() == 1 && r2v.dests@[0].to@ == trip.to@
                        && r2v.dests@[0].travel == tv);
                    assert forall|f: Seq<char>, t2: Seq<char>|
                        !(f == trip.from@ && t2 == trip.to@) implies #[trigger] lookup_spec(
                        rows2,
                        f,
                        t2,
                    ) == lookup_spec(rows0, f, t2) by {
                        lemma_lookup_push(rows0, r2v, f, t2);
                        if f == trip.from@ {
                            assert(r2v.dests@.drop_first() =~= Seq::<TravelDest>::empty());
                            assert(dest_lookup_spec(Seq::<TravelDest>::empty(), t2) is None);
                            assert(dest_lookup_spec(r2v.dests@, t2) is None);
                            lemma_lookup_at(rows0, f, t2, rows0.len() as int);
                        }
                    }
                    lemma_lookup_push(rows0, r2v, trip.from@, trip.to@);
                    assert(dest_lookup_spec(r2v.dests@, trip.to@) == Some(r2v.dests@[0].travel));
                    assert forall|a: int, b: int| 0 <= a < b < rows2.len() implies (
                    #[trigger] rows2[a]).from@ != (#[trigger] rows2[b]).from@ by {
                        if b < rows2.len() - 1 {
                            assert(rows2[a] == rows0[a] && rows2[b] == rows0[b]);
                        } else {
                            assert(rows2[a] == rows0[a]);
                        }
                    }
                    assert forall|a: int| 0 <= a < rows2.len() implies dests_wf(
                        (#[trigger] rows2[a]).dests@,
                    ) by {
                        if a < rows2.len() - 1 {
                            assert(rows2[a] == rows0[a]);
                        }
                    }
                }
            },
        }
    }

    /// Closes the two row-update cases: the updated destination list reads
    /// the new travel data under the trip's key and as before elsewhere.
    proof fn finish_update(
        rows0: Seq<OriginRow>,
        ds2: Seq<TravelDest>,
        ds0: Seq<TravelDest>,
        rows2: Seq<OriginRow>,
        i: int,
        trip: Trip,
        tv: Travel,
    )
        requires
            0 <= i < rows0.len(),
            rows_wf(rows0),
            rows0[i].from@ == trip.from@,
            forall|j: int| 0 <= j < i ==> (#[trigger] rows0[j]).from@ != trip.from@,
            ds0 == rows0[i].dests@,
            rows2 == rows0.update(i, rows2[i]),
            rows2[i].from@ == trip.from@,
            rows2[i].dests@ == ds2,
            dests_wf(ds2),
            dest_lookup_spec(ds2, trip.to@) == Some(tv),
            added_travel_ok(Some(tv), trip),
            forall|t2: Seq<char>|
                t2 != trip.to@ ==> #[trigger] dest_lookup_spec(ds2, t2) == dest_lookup_spec(
                    ds0,
                    t2,
                ),
        ensures
            rows_wf(rows2),
            forall|f: Seq<char>, t2: Seq<char>|
                !(f == trip.from@ && t2 == trip.to@) ==> #[trigger] lookup_spec(rows2, f, t2)
                    == lookup_spec(rows0, f, t2),
            added_travel_ok(lookup_spec(rows2, trip.from@, trip.to@), trip),
    {
        assert forall|f: Seq<char>, t2: Seq<char>|
            !(f == trip.from@ && t2 == trip.to@) implies #[trigger] lookup_spec(rows2, f, t2)
            == lookup_spec(rows0, f, t2) by {
            lemma_lookup_update(rows0, i, rows2[i], f, t2);
            if f == trip.from@ {
                lemma_lookup_at(rows0, f, t2, i);
            }
        }
        lemma_lookup_update(rows0, i, rows2[i], trip.from@, trip.to@);
        assert forall|a: int, b: int| 0 <= a < b < rows2.len() implies (
        #[trigger] rows2[a]).from@ != (#[trigger] rows2[b]).from@ by {
            assert(rows2[a].from@ == rows0[a].from@);
            assert(rows2[b].from@ == rows0[b].from@);
        }
        assert forall|a: int| 0 <= a < rows2.len() implies dests_wf(
            (#[trigger] rows2[a]).dests@,
        ) by {
            if a != i {
                assert(rows2[a] == rows0[a]);
            }
        }
    }
}

/// What the route fallback chain yields: the custom memory in the entered
/// direction, else the custom memory reversed, else the bundled table.
pub open spec fn resolve_spec(
    custom: Seq<OriginRow>,
    table: Seq<OriginRow>,
    from: Seq<char>,
    to: Seq<char>,
) -> Option<Travel> {
    if lookup_spec(custom, from, to) is Some {
        lookup_spec(custom, from, to)
    } else if lookup_spec(custom, to, from) is Some {
        lookup_spec(custom, to, from)
    } else {
        lookup_spec(table, from, to)
    }
}

/// Resolves a route's travel data the way the entry form does: the custom
/// memory first, in both directions, then the bundled table, directionally.
pub fn resolve_travel(custom: &CustomTrips, table: &TravelTable, from: &str, to: &str) -> (r:
    Option<Travel>)
    ensures
        r == resolve_spec(custom.rows@, table.rows@, from@, to@),
{
    match custom.get(from, to) {
        Some(t) => Some(t),
        None => match custom.get(to, from) {
            Some(t) => Some(t),
            None => travel(table, from, to),
        },
    }
}

} // verus!
