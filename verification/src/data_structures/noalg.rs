//! The policy that decides nothing: whatever is pinned stays pinned.
use vstd::prelude::*;
use crate::data_structures::policy::CacheBuilder;
use crate::data_structures::segment_id::{SegmentId, SegmentSet};

verus! {

/// Keeps no access history. It wants pinned exactly what it was last told is
/// pinned, for a cache whose pinned set is managed from outside.
#[derive(Debug)]
pub struct NoAlgCache {
    limit: usize,
    current_pinned_list: SegmentSet,
}

impl NoAlgCache {
    /// The pinned segments, longest-pinned first.
    pub closed spec fn pinned_order(&self) -> Seq<SegmentId> {
        self.current_pinned_list.order()
    }
}

impl CacheBuilder for NoAlgCache {
    closed spec fn well_formed(&self) -> bool {
        self.current_pinned_list@.len() <= self.limit
    }

    closed spec fn limit(&self) -> nat {
        self.limit as nat
    }

    closed spec fn pinned(&self) -> Set<SegmentId> {
        self.current_pinned_list@
    }

    /// What is pinned is what should be pinned.
    open spec fn desired(&self) -> Set<SegmentId> {
        self.pinned()
    }

    /// When the set is full, the segment that has been pinned longest gives way.
    open spec fn victim(&self, id: SegmentId) -> Option<SegmentId> {
        if self.pinned().contains(id) || self.limit() == 0 || self.pinned().len() < self.limit() {
            None
        } else {
            Some(self.pinned_order()[0])
        }
    }

    /// There is never any history.
    open spec fn blank(&self) -> bool {
        true
    }

    /// A touch changes nothing.
    open spec fn touched(&self, before: &Self, id: SegmentId) -> bool {
        *self == *before
    }

    /// There is no history to remember.
    open spec fn remembers(&self, before: &Self) -> bool {
        self.limit() == before.limit()
    }

    proof fn lemma_remembers_chain(&self, mid: &Self, before: &Self) {
    }

    proof fn lemma_within_limit(&self) {
        self.current_pinned_list.lemma_view_of_order();
    }

    proof fn lemma_victim(&self, id: SegmentId) {
        self.current_pinned_list.lemma_view_of_order();
        if self.victim(id) is Some {
            let order = self.current_pinned_list.order();
            if order.len() == 0 {
                assert(order.to_set() =~= Set::<SegmentId>::empty());
            }
            assert(order.to_set().contains(order[0]));
        }
    }

    fn new(limit: usize) -> (policy: Self) {
        NoAlgCache { limit, current_pinned_list: SegmentSet::new() }
    }

    fn return_top_segments_to_pin(&self) -> (top: SegmentSet) {
        self.current_pinned_list.clone()
    }

    fn insert_and_evict(&mut self, id: SegmentId) -> (evicted: Option<SegmentId>) {
        if self.limit == 0 || self.current_pinned_list.contains(id) {
            return None;
        }
        if self.current_pinned_list.len() < self.limit {
            self.current_pinned_list.insert(id);
            return None;
        }
        let oldest = self.current_pinned_list.get(0);
        self.current_pinned_list.remove(oldest);
        self.current_pinned_list.insert(id);
        Some(oldest)
    }

    /// Changes nothing: the policy keeps no history.
    fn update_access(&mut self, id: SegmentId) {
    }

    /// Changes nothing: there is no history to forget.
    fn reset(&mut self)
        ensures
            *final(self) == *old(self),
    {
    }

    fn current_pinned_segments(&self) -> (set: &SegmentSet) {
        &self.current_pinned_list
    }

    fn set_current_pinned_list(&mut self, list: SegmentSet) {
        self.current_pinned_list = list;
    }
}

} // verus!
