//! The most-frequently-used policy.
use vstd::prelude::*;
use crate::data_structures::policy::CacheBuilder;
use crate::data_structures::scored::ScoredPins;
use crate::data_structures::segment_id::{SegmentId, SegmentSet};

verus! {

/// Counts how often each segment is touched and wants the most-touched ones
/// pinned. Between equal counts the segment that was touched first wins.
#[derive(Debug)]
pub struct MfuCache {
    inner: ScoredPins,
}

impl MfuCache {
    /// The limit, the access counts and the pinned set.
    pub closed spec fn inner(&self) -> ScoredPins {
        self.inner
    }

    /// How often `id` has been touched since the last reset.
    pub open spec fn count(&self, id: SegmentId) -> u64 {
        self.inner().table().score_of(id)
    }

    /// The wanted segments are the most-touched ones: as many as the limit
    /// allows or as have been touched, and each of them touched at least as often
    /// as any that is not wanted.
    pub proof fn lemma_wanted_are_most_touched(&self)
        ensures
            self.inner().table().is_top(self.desired(), self.limit()),
    {
        self.inner().table().lemma_top_exists(self.limit());
    }

    /// A segment that was touched more often than a wanted one is wanted too.
    /// So after a reset, a segment touched since is wanted before any that was
    /// not.
    pub proof fn lemma_more_touched_is_wanted(&self, more: SegmentId, less: SegmentId)
        requires
            self.desired().contains(less),
            self.count(more) > self.count(less),
        ensures
            self.desired().contains(more),
    {
        self.lemma_wanted_are_most_touched();
        self.inner().table().lemma_top_prefers_higher_score(
            self.desired(),
            self.limit(),
            more,
            less,
        );
    }

    /// How often `id` has been touched since the last reset.
    pub fn access_count(&self, id: SegmentId) -> (n: u64)
        ensures
            n == self.count(id),
    {
        match self.inner.score(id) {
            Some(n) => n,
            None => 0,
        }
    }
}

impl CacheBuilder for MfuCache {
    open spec fn well_formed(&self) -> bool {
        self.inner().well_formed()
    }

    open spec fn limit(&self) -> nat {
        self.inner().cap()
    }

    open spec fn pinned(&self) -> Set<SegmentId> {
        self.inner().pins()@
    }

    /// The most-touched segments, as many as the limit allows.
    open spec fn desired(&self) -> Set<SegmentId> {
        self.inner().desired()
    }

    /// The least-touched pinned segment gives way.
    open spec fn victim(&self, id: SegmentId) -> Option<SegmentId> {
        self.inner().victim(id)
    }

    /// No segment has been touched.
    open spec fn blank(&self) -> bool {
        self.inner().table().order() == Seq::<SegmentId>::empty()
    }

    /// A touch adds one to the count of `id`, up to `u64::MAX`, and leaves the
    /// other counts, the order in which segments were first touched and the
    /// pinned set alone.
    open spec fn touched(&self, before: &Self, id: SegmentId) -> bool {
        &&& self.inner().cap() == before.inner().cap()
        &&& self.inner().pins() == before.inner().pins()
        &&& self.count(id) == (if before.count(id) < u64::MAX {
            before.count(id) + 1
        } else {
            before.count(id) as int
        })
        &&& forall|other: SegmentId| other != id ==> self.count(other) == before.count(other)
        &&& self.inner().table().order() == (if before.inner().table().tracks(id) {
            before.inner().table().order()
        } else {
            before.inner().table().order().push(id)
        })
    }

    /// The counts are the history.
    open spec fn remembers(&self, before: &Self) -> bool {
        &&& self.limit() == before.limit()
        &&& self.inner().table() == before.inner().table()
    }

    proof fn lemma_remembers_chain(&self, mid: &Self, before: &Self) {
    }

    proof fn lemma_within_limit(&self) {
        self.inner().lemma_within_limit();
    }

    proof fn lemma_victim(&self, id: SegmentId) {
        self.inner().lemma_victim(id);
    }

    fn new(limit: usize) -> (policy: Self)
        ensures
            forall|id: SegmentId| policy.count(id) == 0,
            policy.desired() == Set::<SegmentId>::empty(),
    {
        let policy = MfuCache { inner: ScoredPins::new(limit) };
        proof {
            policy.inner().table().lemma_top_exists(limit as nat);
            assert(policy.inner().table().known() =~= Set::<SegmentId>::empty());
            assert(policy.desired() =~= Set::<SegmentId>::empty());
        }
        policy
    }

    fn return_top_segments_to_pin(&self) -> (top: SegmentSet)
        ensures
            self.inner().table().is_top(top@, self.limit()),
    {
        self.inner.top()
    }

    fn insert_and_evict(&mut self, id: SegmentId) -> (evicted: Option<SegmentId>) {
        self.inner.take_in(id)
    }

    /// Counts one more touch of `id`; the count stops at `u64::MAX`.
    fn update_access(&mut self, id: SegmentId) {
        let next = match self.inner.score(id) {
            Some(n) => if n < u64::MAX {
                n + 1
            } else {
                n
            },
            None => 1,
        };
        self.inner.set_score(id, next);
    }

    /// Sets every count to zero without forgetting the segments.
    fn reset(&mut self)
        ensures
            forall|id: SegmentId| final(self).count(id) == 0,
            final(self).inner().table().order() == old(self).inner().table().order(),
    {
        self.inner.clear_scores();
    }

    fn current_pinned_segments(&self) -> (set: &SegmentSet) {
        self.inner.pinned_ref()
    }

    fn set_current_pinned_list(&mut self, list: SegmentSet)
        ensures
            final(self).desired() == old(self).desired(),
    {
        self.inner.replace_pinned(list);
    }
}

} // verus!
