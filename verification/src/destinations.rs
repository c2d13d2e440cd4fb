//! Travel data: the bundled lookup table and the user's own route memory.
//!
//! Both map an origin to destinations to travel data, directionally: a
//! lookup for one direction never finds the other.  The bundled table is
//! read-only; the custom memory grows whenever the user enters a route the
//! table does not know.  Callers that want direction-symmetric behaviour
//! try both directions themselves, which `resolve_travel` does.

use crate::text::{dec_view, str_eq, u64_to_string};
use crate::trip::{km_human_view, Trip};
use vstd::prelude::*;
use vstd::string::StringExecFns;

verus! {

/// A travel distance: its human text and its value in metres.
#[derive(Debug)]
pub struct Distance {
    pub text: String,
    pub value: u32,
}

impl Clone for Distance {
    /// Clones the distance; the copy equals `*self`.
    fn clone(&self) -> (r: Distance)
        ensures
            r == *self,
    {
        Distance { text: self.text.clone(), value: self.value }
    }
}

impl Distance {
    /// Builds a distance from its text and its metres.
    pub fn new(text: String, value: u32) -> (r: Distance)
        ensures
            r == (Distance { text, value }),
    {
        Distance { text, value }
    }
}

/// A travel duration: its human text and its value in seconds.
#[derive(Debug)]
pub struct Duration {
    pub text: String,
    pub value: u32,
}

impl Clone for Duration {
    /// Clones the duration; the copy equals `*self`.
    fn clone(&self) -> (r: Duration)
        ensures
            r == *self,
    {
        Duration { text: self.text.clone(), value: self.value }
    }
}

impl Duration {
    /// Builds a duration from its text and its seconds.
    pub fn new(text: String, value: u32) -> (r: Duration)
        ensures
            r == (Duration { text, value }),
    {
        Duration { text, value }
    }
}

/// Travel data for one route: a distance and a duration.
#[derive(Debug)]
pub struct Travel {
    pub distance: Distance,
    pub duration: Duration,
}

impl Clone for Travel {
    /// Clones the travel data; the copy equals `*self`.
    fn clone(&self) -> (r: Travel)
        ensures
            r == *self,
    {
        Travel { distance: self.distance.clone(), duration: self.duration.clone() }
    }
}

/// The duration text a trip turns into: its minutes, a space, "min".
pub open spec fn min_text_view(minutes: int) -> Seq<char> {
    dec_view(minutes) + seq![' ', 'm', 'i', 'n']
}

impl Travel {
    /// Builds travel data from its parts.
    pub fn new(distance: Distance, duration: Duration) -> (r: Travel)
        ensures
            r == (Travel { distance, duration }),
    {
        Travel { distance, duration }
    }

    /// The distance in tenths of a kilometre, rounded half up from the
    /// metres.
    pub fn km_tenths(&self) -> (r: u32)
        ensures
            r == (self.distance.value + 50) / 100,
    {
        (self.distance.value / 100) + if self.distance.value % 100 >= 50 {
            1
        } else {
            0
        }
    }

    /// The duration in whole minutes, rounded down.
    pub fn minutes(&self) -> (r: u32)
        ensures
            r == self.duration.value / 60,
    {
        self.duration.value / 60
    }

    /// Derives travel data from a logged trip: the human distance text over
    /// the trip's metres, and the minute text over the trip's seconds.
    pub fn from_trip(t: &Trip) -> (r: Travel)
        requires
            t.distance_tenths <= u32::MAX / 100,
            t.time_minutes <= u32::MAX / 60,
        ensures
            r.distance.value == t.distance_tenths * 100,
            r.distance.text@ == km_human_view(t.effective_tenths()),
            r.duration.value == t.time_minutes * 60,
            r.duration.text@ == min_text_view(t.time_minutes as int),
    {
        let mut dur_text = u64_to_string(t.time_minutes as u64);
        dur_text.append(" min");
        proof {
            reveal_strlit(" min");
            assert(dur_text@ =~= min_text_view(t.time_minutes as int));
        }
        let dis = Distance::new(t.distance_for_human(), t.distance_tenths * 100);
        let dur = Duration::new(dur_text, t.time_minutes * 60);
        Travel::new(dis, dur)
    }
}

/// One destination a given origin knows, with its travel data.
#[derive(Debug)]
pub struct TravelDest {
    pub to: String,
    pub travel: Travel,
}

impl Clone for TravelDest {
    /// Clones the entry; the copy equals `*self`.
    fn clone(&self) -> (r: TravelDest)
        ensures
            r == *self,
    {
        TravelDest { to: self.to.clone(), travel: self.travel.clone() }
    }
}

/// One origin with every destination it knows.
#[derive(Debug)]
pub struct OriginRow {
    pub from: String,
    pub dests: Vec<TravelDest>,
}

/// What a destination lookup finds: the first entry for `to`.
pub open spec fn dest_lookup_spec(ds: Seq<TravelDest>, to: Seq<char>) -> Option<Travel>
    decreases ds.len(),
{
    if ds.len() == 0 {
        None
    } else if ds[0].to@ == to {
        Some(ds[0].travel)
    } else {
        dest_lookup_spec(ds.drop_first(), to)
    }
}

/// What a route lookup finds: the first row for `from`, then the first
/// entry for `to` in it.
pub open spec fn lookup_spec(rows: Seq<OriginRow>, from: Seq<char>, to: Seq<char>) -> Option<
    Travel,
>
    decreases rows.len(),
{
    if rows.len() == 0 {
        None
    } else if rows[0].from@ == from {
        dest_lookup_spec(rows[0].dests@, to)
    } else {
        lookup_spec(rows.drop_first(), from, to)
    }
}

pub(crate) proof fn lemma_dest_lookup_at(ds: Seq<TravelDest>, to: Seq<char>, i: int)
    requires
        0 <= i <= ds.len(),
        forall|j: int| 0 <= j < i ==> (#[trigger] ds[j]).to@ != to,
    ensures
        i == ds.len() ==> dest_lookup_spec(ds, to) is None,
        i < ds.len() && ds[i].to@ == to ==> dest_lookup_spec(ds, to) == Some(ds[i].travel),
    decreases i,
{
    if i > 0 {
        let rest = ds.drop_first();
        assert(forall|j: int| 0 <= j < i - 1 ==> (#[trigger] rest[j]).to@ != to);
        lemma_dest_lookup_at(rest, to, i - 1);
    }
}

pub(crate) proof fn lemma_lookup_at(rows: Seq<OriginRow>, from: Seq<char>, to: Seq<char>, i: int)
    requires
        0 <= i <= rows.len(),
        forall|j: int| 0 <= j < i ==> (#[trigger] rows[j]).from@ != from,
    ensures
        i == rows.len() ==> lookup_spec(rows, from, to) is None,
        i < rows.len() && rows[i].from@ == from ==> lookup_spec(rows, from, to)
            == dest_lookup_spec(rows[i].dests@, to),
    decreases i,
{
    if i > 0 {
        let rest = rows.drop_first();
        assert(forall|j: int| 0 <= j < i - 1 ==> (#[trigger] rest[j]).from@ != from);
        lemma_lookup_at(rest, from, to, i - 1);
    }
}

/// Looks up the first entry for `to` among the destinations.
fn dest_lookup(ds: &Vec<TravelDest>, to: &str) -> (r: Option<Travel>)
    ensures
        r == dest_lookup_spec(ds@, to@),
{
    let n = ds.len();
    let mut j: usize = 0;
    while j < n
        invariant
            n == ds@.len(),
            j <= n,
            forall|k: int| 0 <= k < j ==> (#[trigger] ds@[k]).to@ != to@,
        decreases n - j,
    {
        if str_eq(ds[j].to.as_str(), to) {
            proof {
                lemma_dest_lookup_at(ds@, to@, j as int);
            }
            return Some(ds[j].travel.clone());
        }
        j = j + 1;
    }
    proof {
        lemma_dest_lookup_at(ds@, to@, n as int);
    }
    None
}

/// Looks up the first row for `from`, then the first entry for `to` in it.
pub(crate) fn rows_lookup(rows: &Vec<OriginRow>, from: &str, to: &str) -> (r: Option<Travel>)
    ensures
        r == lookup_spec(rows@, from@, to@),
{
    let n = rows.len();
    let mut i: usize = 0;
    while i < n
        invariant
            n == rows@.len(),
            i <= n,
            forall|j: int| 0 <= j < i ==> (#[trigger] rows@[j]).from@ != from@,
        decreases n - i,
    {
        if str_eq(rows[i].from.as_str(), from) {
            proof {
                lemma_lookup_at(rows@, from@, to@, i as int);
            }
            return dest_lookup(&rows[i].dests, to);
        }
        i = i + 1;
    }
    proof {
        lemma_lookup_at(rows@, from@, to@, n as int);
    }
    None
}

/// The bundled, read-only origin-to-destination travel table.
#[derive(Debug)]
pub struct TravelTable {
    pub rows: Vec<OriginRow>,
}

impl TravelTable {
    /// An empty table: the fallback when the bundled dataset is missing or
    /// malformed, under which every lookup misses.
    pub fn new() -> (r: TravelTable)
        ensures
            r.rows@ == Seq::<OriginRow>::empty(),
    {
        TravelTable { rows: Vec::new() }
    }
}

/// The known origins, in table order.
pub fn destinations(table: &TravelTable) -> (r: Vec<String>)
    ensures
        r@.len() == table.rows@.len(),
        forall|i: int| 0 <= i < r@.len() ==> (#[trigger] r@[i])@ == table.rows@[i].from@,
{
    let n = table.rows.len();
    let mut out: Vec<String> = Vec::new();
    let mut i: usize = 0;
    while i < n
        invariant
            n == table.rows@.len(),
            i <= n,
            out@.len() == i,
            forall|j: int| 0 <= j < i ==> (#[trigger] out@[j])@ == table.rows@[j].from@,
        decreases n - i,
    {
        out.push(table.rows[i].from.clone());
        i = i + 1;
    }
    out
}

/// Exact-match, case-sensitive, directional lookup into the table; a miss
/// is a `None`, never an error.
pub fn travel(table: &TravelTable, from: &str, to: &str) -> (r: Option<Travel>)
    ensures
        r == lookup_spec(table.rows@, from@, to@),
{
    rows_lookup(&table.rows, from, to)
}

} // verus!
