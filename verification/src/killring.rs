//! The soft-delete buffer: trip ids marked for deletion.
//!
//! An id can be marked before the trip itself leaves the store, so the
//! buffer is a plain set of ids with idempotent insertion.

use vstd::prelude::*;

verus! {

/// The set of trip ids marked for deletion.
#[derive(Clone, Debug)]
pub struct Killring {
    pub marked: Vec<u128>,
}

impl Killring {
    /// An empty buffer.
    pub fn new() -> (r: Killring)
        ensures
            r.marked@ == Seq::<u128>::empty(),
    {
        Killring { marked: Vec::new() }
    }

    /// Marks a trip id; a no-op when it is already marked.
    pub fn add(&mut self, trip: u128)
        ensures
            final(self).marked@ == if old(self).marked@.contains(trip) {
                old(self).marked@
            } else {
                old(self).marked@.push(trip)
            },
            final(self).marked@.contains(trip),
    {
        if self.contains(&trip) {
            return ;
        }
        self.marked.push(trip);
        proof {
            assert(final(self).marked@.last() == trip);
        }
    }

    /// Whether the id is marked.
    pub fn contains(&self, trip: &u128) -> (r: bool)
        ensures
            r == self.marked@.contains(*trip),
    {
        let n = self.marked.len();
        let mut i: usize = 0;
        while i < n
            invariant
                n == self.marked@.len(),
                i <= n,
                forall|j: int| 0 <= j < i ==> self.marked@[j] != *trip,
            decreases n - i,
        {
            if self.marked[i] == *trip {
                return true;
            }
            i = i + 1;
        }
        proof {
            if self.marked@.contains(*trip) {
                let j = choose|j: int| 0 <= j < self.marked@.len() && self.marked@[j] == *trip;
                assert(false);
            }
        }
        false
    }
}

} // verus!
