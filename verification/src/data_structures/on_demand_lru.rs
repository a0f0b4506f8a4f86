//! The least-recently-used policy for a cache that pins on first access.
use vstd::prelude::*;
use crate::data_structures::policy::CacheBuilder;
use crate::data_structures::segment_id::{SegmentId, SegmentSet};
use crate::data_structures::timestamp_lru::TimestampLruCache;

verus! {

/// Remembers when each segment was last touched, as `TimestampLruCache` does,
/// and is that policy under the name a cache that pins on demand asks for:
/// when a segment is admitted to a full pinned set, the pinned segment that has
/// gone longest without a touch gives way.
#[derive(Debug)]
pub struct OnDemandLruCache {
    lru: TimestampLruCache,
}

impl OnDemandLruCache {
    /// The time stamps, the time and the pinned set.
    pub closed spec fn lru(&self) -> TimestampLruCache {
        self.lru
    }

    /// The time of the latest touch.
    pub open spec fn now(&self) -> u64 {
        self.lru().now()
    }

    /// When `id` was last touched; zero if it has not been since the last reset.
    pub open spec fn last_access(&self, id: SegmentId) -> u64 {
        self.lru().last_access(id)
    }

    /// A segment that has just been touched is wanted, as long as time has not
    /// run out and anything may be pinned at all.
    pub proof fn lemma_touched_is_wanted(&self, before: &Self, id: SegmentId)
        requires
            before.well_formed(),
            before.now() < u64::MAX,
            self.touched(before, id),
            self.limit() >= 1,
        ensures
            self.desired().contains(id),
    {
        self.lru().lemma_touched_is_wanted(&before.lru(), id);
    }

    /// When `id` was last touched; zero if it has not been since the last reset.
    pub fn last_access_time(&self, id: SegmentId) -> (t: u64)
        ensures
            t == self.last_access(id),
    {
        self.lru.last_access_time(id)
    }
}

impl CacheBuilder for OnDemandLruCache {
    open spec fn well_formed(&self) -> bool {
        self.lru().well_formed()
    }

    open spec fn limit(&self) -> nat {
        self.lru().limit()
    }

    open spec fn pinned(&self) -> Set<SegmentId> {
        self.lru().pinned()
    }

    /// The most recently touched segments, as many as the limit allows.
    open spec fn desired(&self) -> Set<SegmentId> {
        self.lru().desired()
    }

    /// The pinned segment whose last touch is oldest gives way.
    open spec fn victim(&self, id: SegmentId) -> Option<SegmentId> {
        self.lru().victim(id)
    }

    open spec fn blank(&self) -> bool {
        self.lru().blank()
    }

    open spec fn touched(&self, before: &Self, id: SegmentId) -> bool {
        self.lru().touched(&before.lru(), id)
    }

    open spec fn remembers(&self, before: &Self) -> bool {
        self.lru().remembers(&before.lru())
    }

    proof fn lemma_remembers_chain(&self, mid: &Self, before: &Self) {
        self.lru().lemma_remembers_chain(&mid.lru(), &before.lru());
    }

    proof fn lemma_within_limit(&self) {
        self.lru().lemma_within_limit();
    }

    proof fn lemma_victim(&self, id: SegmentId) {
        self.lru().lemma_victim(id);
    }

    fn new(limit: usize) -> (policy: Self) {
        OnDemandLruCache { lru: TimestampLruCache::new(limit) }
    }

    fn return_top_segments_to_pin(&self) -> (top: SegmentSet) {
        self.lru.return_top_segments_to_pin()
    }

    fn insert_and_evict(&mut self, id: SegmentId) -> (evicted: Option<SegmentId>) {
        self.lru.insert_and_evict(id)
    }

    fn update_access(&mut self, id: SegmentId) {
        self.lru.update_access(id);
    }

    fn reset(&mut self)
        ensures
            final(self).now() == 0,
            forall|id: SegmentId| final(self).last_access(id) == 0,
    {
        self.lru.reset();
    }

    fn current_pinned_segments(&self) -> (set: &SegmentSet) {
        self.lru.current_pinned_segments()
    }

    fn set_current_pinned_list(&mut self, list: SegmentSet)
        ensures
            final(self).desired() == old(self).desired(),
    {
        self.lru.set_current_pinned_list(list);
    }
}

} // verus!
