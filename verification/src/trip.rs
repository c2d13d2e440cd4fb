//! A single logged trip.
//!
//! Distance is stored in tenths of a kilometre for one leg; a set return
//! flag doubles it on read, never in storage.  The identifier is the trip's
//! 128-bit unique id as a plain integer.

use crate::date::Date;
use crate::text::{human_tenths_view, human_tenths_to_string};
use vstd::prelude::*;
use vstd::string::{StrSliceExecFns, StringExecFns};

verus! {

/// A logged trip.
#[derive(Debug)]
pub struct Trip {
    pub id: u128,
    pub date: Date,
    pub from: String,
    pub to: String,
    pub distance_tenths: u32,
    pub time_minutes: u32,
    pub reason: String,
    pub returning: bool,
}

impl Clone for Trip {
    /// Clones the trip; the copy equals `*self`.
    fn clone(&self) -> (r: Trip)
        ensures
            r == *self,
    {
        Trip {
            id: self.id,
            date: self.date,
            from: self.from.clone(),
            to: self.to.clone(),
            distance_tenths: self.distance_tenths,
            time_minutes: self.time_minutes,
            reason: self.reason.clone(),
            returning: self.returning,
        }
    }
}

/// A tenths-of-a-kilometre value rendered for people, with the unit.
pub open spec fn km_human_view(t: int) -> Seq<char> {
    human_tenths_view(t) + seq![' ', 'k', 'm']
}

/// A run of `n` filler dots.
pub open spec fn dots_view(n: int) -> Seq<char> {
    Seq::new(n as nat, |i: int| '.')
}

/// Builds a run of `n` filler dots.
pub fn dots(n: usize) -> (r: String)
    ensures
        r@ == dots_view(n as int),
{
    let mut s = String::new();
    let mut i: usize = 0;
    while i < n
        invariant
            i <= n,
            s@ == dots_view(i as int),
        decreases n - i,
    {
        s.append(".");
        proof {
            reveal_strlit(".");
            assert(s@ =~= dots_view(i + 1));
        }
        i = i + 1;
    }
    s
}

impl Trip {
    /// The distance the trip really covered: both legs when returning.
    pub open spec fn effective_tenths(self) -> int {
        if self.returning {
            2 * self.distance_tenths
        } else {
            self.distance_tenths as int
        }
    }

    /// The distance the trip covered, in tenths of a kilometre, doubled when
    /// the return flag is set.
    pub fn calculate_distance_tenths(&self) -> (r: u64)
        ensures
            r == self.effective_tenths(),
    {
        if self.returning {
            2 * (self.distance_tenths as u64)
        } else {
            self.distance_tenths as u64
        }
    }

    /// The covered distance rendered for people, e.g. "12,5 km" or "10 km".
    pub fn distance_for_human(&self) -> (r: String)
        ensures
            r@ == km_human_view(self.effective_tenths()),
    {
        let mut s = human_tenths_to_string(self.calculate_distance_tenths());
        s.append(" km");
        proof {
            reveal_strlit(" km");
            assert(s@ =~= km_human_view(self.effective_tenths()));
        }
        s
    }

    /// The route label: origin, dash, destination, and a marker when the
    /// trip covers both legs.
    pub open spec fn from_to_view(self) -> Seq<char> {
        self.from@ + seq!['-'] + self.to@ + (if self.returning {
            seq![' ', 'T', 'o', 'R']
        } else {
            Seq::<char>::empty()
        })
    }

    /// Renders the route label, e.g. "A-B" or "A-B ToR".
    pub fn from_to(&self) -> (r: String)
        ensures
            r@ == self.from_to_view(),
    {
        let mut s = self.from.clone();
        s.append("-");
        s.append(self.to.as_str());
        if self.returning {
            s.append(" ToR");
        }
        proof {
            reveal_strlit("-");
            reveal_strlit(" ToR");
            assert(s@ =~= self.from_to_view());
        }
        s
    }

    /// One aligned report line: day-and-month, the route label padded with
    /// dots to three past the widest label, the distance padded likewise,
    /// then the reason.
    pub open spec fn row_view(self, longest_trip: int, longest_distance: int) -> Seq<char> {
        self.date.dd_mm_view() + seq![':', ' '] + self.from_to_view() + dots_view(
            3 + longest_trip - self.from_to_view().len(),
        ) + km_human_view(self.effective_tenths()) + dots_view(
            3 + longest_distance - km_human_view(self.effective_tenths()).len(),
        ) + self.reason@
    }

    /// Renders one aligned report line.
    pub fn report_row(&self, longest_trip: usize, longest_distance: usize) -> (r: String)
        requires
            self.date.valid(),
            self.from_to_view().len() <= longest_trip,
            km_human_view(self.effective_tenths()).len() <= longest_distance,
            longest_trip + 3 <= usize::MAX,
            longest_distance + 3 <= usize::MAX,
        ensures
            r@ == self.row_view(longest_trip as int, longest_distance as int),
    {
        let points = self.from_to();
        let distance = self.distance_for_human();
        let p1 = dots(3 + longest_trip - points.as_str().unicode_len());
        let p2 = dots(3 + longest_distance - distance.as_str().unicode_len());
        let mut s = self.date.format_dd_mm();
        s.append(": ");
        s.append(points.as_str());
        s.append(p1.as_str());
        s.append(distance.as_str());
        s.append(p2.as_str());
        s.append(self.reason.as_str());
        proof {
            reveal_strlit(": ");
            assert(s@ =~= self.row_view(longest_trip as int, longest_distance as int));
        }
        s
    }
}

} // verus!
