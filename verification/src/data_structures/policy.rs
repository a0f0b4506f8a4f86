//! What the cache asks of a replacement policy.
use vstd::prelude::*;
use crate::data_structures::segment_id::{SegmentId, SegmentSet};

verus! {

/// The pinned set after `id` asked to be admitted and `evicted` made room.
///
/// A member stays a member, and with a limit of zero nothing is admitted.
pub open spec fn admitted(
    before: Set<SegmentId>,
    limit: nat,
    id: SegmentId,
    evicted: Option<SegmentId>,
) -> Set<SegmentId> {
    if before.contains(id) || limit == 0 {
        before
    } else {
        match evicted {
            Some(e) => before.remove(e).insert(id),
            None => before.insert(id),
        }
    }
}

/// A replacement policy: it watches which segments are touched and says which
/// ones deserve to be pinned.
///
/// A policy also keeps the set of segments that are pinned right now. The cache
/// writes that set after each reconciliation; in on-demand mode the policy
/// updates it itself when it admits a segment.
pub trait CacheBuilder: Sized {
    /// The policy's own invariant.
    spec fn well_formed(&self) -> bool;

    /// The most segments that may be pinned at once.
    spec fn limit(&self) -> nat;

    /// The segments that are pinned right now.
    spec fn pinned(&self) -> Set<SegmentId>;

    /// The segments the policy wants pinned.
    spec fn desired(&self) -> Set<SegmentId>;

    /// The segment that gives way when `id` is admitted, if one has to.
    spec fn victim(&self, id: SegmentId) -> Option<SegmentId>;

    /// Whether this policy has no access history.
    spec fn blank(&self) -> bool;

    /// Whether this policy is `before` after a touch of `id`.
    spec fn touched(&self, before: &Self, id: SegmentId) -> bool;

    /// Whether this policy has the limit and the access history of `before`;
    /// the pinned sets may differ.
    spec fn remembers(&self, before: &Self) -> bool;

    /// What a policy remembers of one that remembers another, it remembers of
    /// that other.
    proof fn lemma_remembers_chain(&self, mid: &Self, before: &Self)
        requires
            self.remembers(mid),
            mid.remembers(before),
        ensures
            self.remembers(before),
    ;

    /// Neither the pinned set nor the desired set exceeds the limit.
    proof fn lemma_within_limit(&self)
        requires
            self.well_formed(),
        ensures
            self.pinned().finite(),
            self.pinned().len() <= self.limit(),
            self.desired().finite(),
            self.desired().len() <= self.limit(),
    ;

    /// A segment gives way exactly when a newcomer meets a full pinned set, and
    /// the one that gives way is pinned.
    proof fn lemma_victim(&self, id: SegmentId)
        requires
            self.well_formed(),
        ensures
            self.victim(id) is Some <==> !self.pinned().contains(id) && self.limit() > 0
                && self.pinned().len() >= self.limit(),
            self.victim(id) matches Some(e) ==> self.pinned().contains(e),
    ;

    /// A policy that pins at most `limit` segments, with nothing pinned yet.
    fn new(limit: usize) -> (policy: Self)
        ensures
            policy.well_formed(),
            policy.limit() == limit,
            policy.pinned() == Set::<SegmentId>::empty(),
            policy.blank(),
    ;

    /// The segments that should be pinned now.
    fn return_top_segments_to_pin(&self) -> (top: SegmentSet)
        requires
            self.well_formed(),
        ensures
            top@ == self.desired(),
    ;

    /// Admits `id` to the pinned set and returns the segment that had to give
    /// way, if the set was full.
    fn insert_and_evict(&mut self, id: SegmentId) -> (evicted: Option<SegmentId>)
        requires
            old(self).well_formed(),
        ensures
            final(self).well_formed(),
            final(self).limit() == old(self).limit(),
            final(self).remembers(old(self)),
            evicted == old(self).victim(id),
            final(self).pinned() == admitted(old(self).pinned(), old(self).limit(), id, evicted),
    ;

    /// Records that `id` was touched.
    fn update_access(&mut self, id: SegmentId)
        requires
            old(self).well_formed(),
        ensures
            final(self).well_formed(),
            final(self).limit() == old(self).limit(),
            final(self).pinned() == old(self).pinned(),
            final(self).touched(old(self), id),
    ;

    /// Forgets how often and how recently segments were touched.
    fn reset(&mut self)
        requires
            old(self).well_formed(),
        ensures
            final(self).well_formed(),
            final(self).limit() == old(self).limit(),
            final(self).pinned() == old(self).pinned(),
    ;

    /// The segments that are pinned right now.
    fn current_pinned_segments(&self) -> (set: &SegmentSet)
        requires
            self.well_formed(),
        ensures
            set@ == self.pinned(),
    ;

    /// The number of bytes pinned right now, for segments of the given size.
    fn current_bytes_pinned(&self, segment_size: usize) -> (bytes: usize)
        requires
            self.well_formed(),
            self.pinned().len() * segment_size <= usize::MAX,
        ensures
            bytes == self.pinned().len() * segment_size,
    {
        self.current_pinned_segments().len() * segment_size
    }

    /// Replaces the pinned set. Committing the desired set leaves the desired
    /// set as it was.
    fn set_current_pinned_list(&mut self, list: SegmentSet)
        requires
            old(self).well_formed(),
            list@.len() <= old(self).limit(),
        ensures
            final(self).well_formed(),
            final(self).limit() == old(self).limit(),
            final(self).remembers(old(self)),
            final(self).pinned() == list@,
            list@ == old(self).desired() ==> final(self).desired() == old(self).desired(),
    ;
}

} // verus!
