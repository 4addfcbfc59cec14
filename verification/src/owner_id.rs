//! Stable identifiers for parameter owners.
//!
//! The ids preserve parameter identity across inlining and unrolling, where owners are
//! duplicated. They are handed out in increasing order from a counter that starts at 1, so `0` is
//! left for the unknown owner.
use vstd::prelude::*;

verus! {

/// Stable identifier for parameter owners (Function/Evaluator/For).
#[derive(Copy, Clone, PartialEq, Eq, Structural, Hash, Debug)]
pub struct OwnerId(pub u64);

/// The source of fresh owner ids.
#[derive(Debug)]
pub struct OwnerIdCounter {
    pub next: u64,
}

impl OwnerIdCounter {
    /// A counter whose first id is 1.
    pub fn new() -> (r: Self)
        ensures
            r.next == 1,
    {
        OwnerIdCounter { next: 1 }
    }
}

impl OwnerId {
    /// Sentinel for an unknown owner.
    pub fn unknown() -> (r: OwnerId)
        ensures
            r == OwnerId(0),
    {
        OwnerId(0)
    }

    /// Allocate a new owner id: the counter's value, which then moves on by one (wrapping after
    /// `u64::MAX`).
    pub fn next(counter: &mut OwnerIdCounter) -> (r: OwnerId)
        ensures
            r == OwnerId(old(counter).next),
            final(counter).next == (if old(counter).next == u64::MAX {
                0
            } else {
                old(counter).next + 1
            }),
    {
        let id = counter.next;
        counter.next = if id == u64::MAX {
            0
        } else {
            id + 1
        };
        OwnerId(id)
    }

    /// Returns true if this id is the sentinel for an unknown owner.
    pub fn is_unknown(self) -> (r: bool)
        ensures
            r == self.is_unknown_spec(),
    {
        self.0 == 0
    }
}

impl Default for OwnerId {
    fn default() -> (r: Self)
        ensures
            r == OwnerId(0),
    {
        OwnerId::unknown()
    }
}

/// Ids handed out one after the other by a counter that has not wrapped are distinct: each is
/// below the counter after it, and the next is above it.
pub proof fn law_next_ids_distinct(c0: u64, c1: u64, c2: u64, a: OwnerId, b: OwnerId)
    requires
        a == OwnerId(c0),
        c1 == (if c0 == u64::MAX {
            0
        } else {
            c0 + 1
        }),
        b == OwnerId(c1),
        c2 == (if c1 == u64::MAX {
            0
        } else {
            c1 + 1
        }),
        c0 < u64::MAX,
    ensures
        a != b,
        a.0 < b.0,
        c0 != 0 ==> !a.is_unknown_spec() && !b.is_unknown_spec(),
{
}

impl OwnerId {
    /// The id is the sentinel for an unknown owner.
    pub open spec fn is_unknown_spec(self) -> bool {
        self == OwnerId(0)
    }
}

} // verus!
