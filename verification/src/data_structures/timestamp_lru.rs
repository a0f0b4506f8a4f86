//! The least-recently-used policy that keeps a time stamp per segment.
use vstd::prelude::*;
use crate::data_structures::policy::CacheBuilder;
use crate::data_structures::scored::ScoredPins;
use crate::data_structures::segment_id::{SegmentId, SegmentSet};

verus! {

/// Remembers when each segment was last touched and wants the most recently
/// touched ones pinned.
#[derive(Debug)]
pub struct TimestampLruCache {
    inner: ScoredPins,
    clock: u64,
}

impl TimestampLruCache {
    /// The limit, the time of each segment's last touch and the pinned set.
    pub closed spec fn inner(&self) -> ScoredPins {
        self.inner
    }

    /// The time of the latest touch. Time is counted in touches and stops at
    /// `u64::MAX`.
    pub closed spec fn now(&self) -> u64 {
        self.clock
    }

    /// When `id` was last touched; zero if it has not been since the last reset.
    pub open spec fn last_access(&self, id: SegmentId) -> u64 {
        self.inner().table().score_of(id)
    }

    /// A segment that has just been touched is wanted, as long as time has not
    /// run out and anything may be pinned at all.
    pub proof fn lemma_touched_is_wanted(&self, before: &Self, id: SegmentId)
        requires
            before.well_formed(),
            before.now() < u64::MAX,
            self.touched(before, id),
            self.limit() >= 1,
        ensures
            self.desired().contains(id),
    {
        let table = self.inner().table();
        table.lemma_top_exists(self.limit());
        assert(table.tracks(id)) by {
            let order = before.inner().table().order();
            if before.inner().table().tracks(id) {
            } else {
                assert(order.push(id)[order.len() as int] == id);
            }
        }
        assert forall|other: SegmentId|
            #![trigger table.score_of(other)]
            table.tracks(other) && other != id implies table.score_of(other) < table.score_of(id) by {
            assert(self.last_access(other) == before.last_access(other));
            assert(before.last_access(other) <= before.now());
        }
        table.lemma_top_holds_the_best(self.desired(), self.limit(), id);
    }

    /// When `id` was last touched; zero if it has not been since the last reset.
    pub fn last_access_time(&self, id: SegmentId) -> (t: u64)
        ensures
            t == self.last_access(id),
    {
        match self.inner.score(id) {
            Some(t) => t,
            None => 0,
        }
    }
}

impl CacheBuilder for TimestampLruCache {
    /// The pinned set is within the limit and no touch lies in the future.
    open spec fn well_formed(&self) -> bool {
        &&& self.inner().well_formed()
        &&& forall|id: SegmentId| #![trigger self.last_access(id)] self.last_access(id) <= self.now()
    }

    open spec fn limit(&self) -> nat {
        self.inner().cap()
    }

    open spec fn pinned(&self) -> Set<SegmentId> {
        self.inner().pins()@
    }

    /// The most recently touched segments, as many as the limit allows.
    open spec fn desired(&self) -> Set<SegmentId> {
        self.inner().desired()
    }

    /// The pinned segment whose last touch is oldest gives way.
    open spec fn victim(&self, id: SegmentId) -> Option<SegmentId> {
        self.inner().victim(id)
    }

    /// No segment has been touched and time has not begun.
    open spec fn blank(&self) -> bool {
        &&& self.inner().table().order() == Seq::<SegmentId>::empty()
        &&& self.now() == 0
    }

    /// A touch advances the time by one, up to `u64::MAX`, stamps `id` with it
    /// and leaves the other stamps, the order in which segments were first
    /// touched and the pinned set alone.
    open spec fn touched(&self, before: &Self, id: SegmentId) -> bool {
        &&& self.inner().cap() == before.inner().cap()
        &&& self.inner().pins() == before.inner().pins()
        &&& self.now() == (if before.now() < u64::MAX {
            before.now() + 1
        } else {
            before.now() as int
        })
        &&& self.last_access(id) == self.now()
        &&& forall|other: SegmentId|
            other != id ==> self.last_access(other) == before.last_access(other)
        &&& self.inner().table().order() == (if before.inner().table().tracks(id) {
            before.inner().table().order()
        } else {
            before.inner().table().order().push(id)
        })
    }

    /// The stamps and the time are the history.
    open spec fn remembers(&self, before: &Self) -> bool {
        &&& self.limit() == before.limit()
        &&& self.inner().table() == before.inner().table()
        &&& self.now() == before.now()
    }

    proof fn lemma_remembers_chain(&self, mid: &Self, before: &Self) {
    }

    proof fn lemma_within_limit(&self) {
        self.inner().lemma_within_limit();
    }

    proof fn lemma_victim(&self, id: SegmentId) {
        self.inner().lemma_victim(id);
    }

    fn new(limit: usize) -> (policy: Self)
        ensures
            policy.now() == 0,
            forall|id: SegmentId| policy.last_access(id) == 0,
    {
        TimestampLruCache { inner: ScoredPins::new(limit), clock: 0 }
    }

    fn return_top_segments_to_pin(&self) -> (top: SegmentSet)
        ensures
            self.inner().table().is_top(top@, self.limit()),
    {
        self.inner.top()
    }

    fn insert_and_evict(&mut self, id: SegmentId) -> (evicted: Option<SegmentId>) {
        let evicted = self.inner.take_in(id);
        proof {
            assert forall|x: SegmentId| #![trigger self.last_access(x)] self.last_access(x)
                <= self.now() by {
                assert(old(self).last_access(x) <= old(self).now());
            }
        }
        evicted
    }

    /// Advances the time by one touch and stamps `id` with it, which makes `id`
    /// at least as recent as every other segment.
    fn update_access(&mut self, id: SegmentId)
        ensures
            forall|other: SegmentId| final(self).last_access(other) <= final(self).last_access(id),
    {
        if self.clock < u64::MAX {
            self.clock = self.clock + 1;
        }
        self.inner.set_score(id, self.clock);
        proof {
            assert forall|other: SegmentId| self.last_access(other) <= self.last_access(id) by {
                if other != id {
                    assert(self.last_access(other) == old(self).last_access(other));
                }
            }
        }
    }

    /// Forgets every touch and starts time over.
    fn reset(&mut self)
        ensures
            final(self).now() == 0,
            forall|id: SegmentId| final(self).last_access(id) == 0,
            final(self).inner().table().order() == old(self).inner().table().order(),
    {
        self.inner.clear_scores();
        self.clock = 0;
    }

    fn current_pinned_segments(&self) -> (set: &SegmentSet) {
        self.inner.pinned_ref()
    }

    fn set_current_pinned_list(&mut self, list: SegmentSet)
        ensures
            final(self).desired() == old(self).desired(),
    {
        self.inner.replace_pinned(list);
        proof {
            assert forall|x: SegmentId| #![trigger self.last_access(x)] self.last_access(x)
                <= self.now() by {
                assert(old(self).last_access(x) <= old(self).now());
            }
        }
    }
}

} // verus!
