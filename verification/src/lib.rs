//! A library for allocating shared office workspace: rental spaces offering
//! workstations at a fixed per-seat price are matched against users who
//! request a number of workstations within a budget.  The heart of the
//! library is a greedy two-round matching engine that may subdivide a rental
//! space into smaller pieces under a workstation-density constraint.

pub mod contract;
pub mod laws;
pub mod matching;
pub mod object_storage;
pub mod rental_space;
pub mod user;

use vstd::prelude::*;

verus! {

/// A deterministic factory for fresh identifiers.
///
/// Every entity identifier in this library is a number minted by an `IdGen`.
/// A single factory hands out strictly increasing values, so two identifiers
/// minted by the same factory are never equal.
pub struct IdGen {
    next: u64,
}

impl IdGen {
    /// The next value this factory will hand out.
    pub closed spec fn spec_next(self) -> int {
        self.next as int
    }

    pub fn new() -> (g: IdGen)
        ensures
            g.spec_next() == 0,
    {
        IdGen { next: 0 }
    }

    /// Read the next value without minting it, so that a caller can test
    /// whether the factory is exhausted before asking for more.
    pub fn next_value(&self) -> (v: u64)
        ensures
            v as int == self.spec_next(),
    {
        self.next
    }

    /// Mint one fresh identifier: the current counter value, after which the
    /// counter moves past it forever.
    pub fn fresh(&mut self) -> (id: u64)
        requires
            old(self).spec_next() < u64::MAX,
        ensures
            id as int == old(self).spec_next(),
            final(self).spec_next() == old(self).spec_next() + 1,
    {
        let id = self.next;
        self.next = self.next + 1;
        id
    }
}

} // verus!
