//! Counters of fast-path lookups.
use vstd::prelude::*;

verus! {

/// Counts lookups and how many of them were answered from pinned memory.
///
/// Every lookup is either a hit or a miss, so the two always add up to the
/// number of lookups. Counting stops when the number of lookups reaches
/// `u64::MAX`.
#[derive(Clone, Copy, Debug)]
pub struct Metrics {
    total: u64,
    hit: u64,
    miss: u64,
}

impl Metrics {
    #[verifier::type_invariant]
    spec fn adds_up(self) -> bool {
        self.hit + self.miss == self.total
    }

    /// Number of lookups counted.
    pub closed spec fn lookups(&self) -> nat {
        self.total as nat
    }

    /// Number of lookups that were hits.
    pub closed spec fn hits(&self) -> nat {
        self.hit as nat
    }

    /// Number of lookups that were misses.
    pub closed spec fn misses(&self) -> nat {
        self.miss as nat
    }

    /// What the counters are after one more lookup, a hit or a miss.
    pub open spec fn counted(&self, before: Metrics, hit: bool) -> bool {
        if before.lookups() < u64::MAX {
            &&& self.lookups() == before.lookups() + 1
            &&& self.hits() == before.hits() + (if hit { 1nat } else { 0nat })
            &&& self.misses() == before.misses() + (if hit { 0nat } else { 1nat })
        } else {
            &&& self.lookups() == before.lookups()
            &&& self.hits() == before.hits()
            &&& self.misses() == before.misses()
        }
    }

    /// Counters that have counted nothing.
    pub fn new() -> (m: Metrics)
        ensures
            m.lookups() == 0,
            m.hits() == 0,
            m.misses() == 0,
    {
        Metrics { total: 0, hit: 0, miss: 0 }
    }

    /// Counts a lookup that was answered from pinned memory.
    pub fn record_hit(&mut self)
        ensures
            final(self).counted(*old(self), true),
            final(self).hits() + final(self).misses() == final(self).lookups(),
    {
        proof {
            use_type_invariant(&*self);
        }
        if self.total < u64::MAX {
            *self = Metrics { total: self.total + 1, hit: self.hit + 1, miss: self.miss };
        }
    }

    /// Counts a lookup that the caller has to serve by copying.
    pub fn record_miss(&mut self)
        ensures
            final(self).counted(*old(self), false),
            final(self).hits() + final(self).misses() == final(self).lookups(),
    {
        proof {
            use_type_invariant(&*self);
        }
        if self.total < u64::MAX {
            *self = Metrics { total: self.total + 1, hit: self.hit, miss: self.miss + 1 };
        }
    }

    /// Number of lookups counted.
    pub fn total_count(&self) -> (n: u64)
        ensures
            n == self.lookups(),
            self.hits() + self.misses() == self.lookups(),
    {
        proof {
            use_type_invariant(self);
        }
        self.total
    }

    /// Number of lookups that were hits.
    pub fn hit_count(&self) -> (n: u64)
        ensures
            n == self.hits(),
            self.hits() + self.misses() == self.lookups(),
    {
        proof {
            use_type_invariant(self);
        }
        self.hit
    }

    /// Number of lookups that were misses.
    pub fn miss_count(&self) -> (n: u64)
        ensures
            n == self.misses(),
            self.hits() + self.misses() == self.lookups(),
    {
        proof {
            use_type_invariant(self);
        }
        self.miss
    }
}

} // verus!
