//! The least-recently-used policy that keeps a recency list.
use vstd::prelude::*;
use crate::data_structures::policy::CacheBuilder;
use crate::data_structures::segment_id::{SegmentId, SegmentSet};

verus! {

/// The last `limit` elements of `recency`, or all of it if it is shorter.
pub open spec fn most_recent(recency: Seq<SegmentId>, limit: nat) -> Seq<SegmentId> {
    if limit >= recency.len() {
        recency
    } else {
        recency.subrange(recency.len() - limit, recency.len() as int)
    }
}

/// Whether `pinned[i]` is the first pinned segment that the recency list does
/// not hold.
pub open spec fn first_unlisted(recency: Seq<SegmentId>, pinned: Seq<SegmentId>, i: int) -> bool {
    &&& 0 <= i < pinned.len()
    &&& !recency.contains(pinned[i])
    &&& forall|k: int| 0 <= k < i ==> recency.contains(#[trigger] pinned[k])
}

/// Whether `recency[j]` is the least recently touched segment that is pinned.
pub open spec fn first_listed(recency: Seq<SegmentId>, pinned: Seq<SegmentId>, j: int) -> bool {
    &&& 0 <= j < recency.len()
    &&& pinned.contains(recency[j])
    &&& forall|k: int| 0 <= k < j ==> !pinned.contains(#[trigger] recency[k])
}

/// The pinned segment that has gone longest without a touch: the first pinned
/// segment that was never touched, else the pinned segment that stands first
/// in the recency list.
pub open spec fn stalest(recency: Seq<SegmentId>, pinned: Seq<SegmentId>) -> Option<SegmentId> {
    if exists|i: int| first_unlisted(recency, pinned, i) {
        Some(pinned[choose|i: int| first_unlisted(recency, pinned, i)])
    } else if exists|j: int| first_listed(recency, pinned, j) {
        Some(recency[choose|j: int| first_listed(recency, pinned, j)])
    } else {
        None
    }
}

/// If some of the first `n` pinned segments is not in the recency list, one of
/// them is the first that is not.
pub proof fn lemma_first_unlisted(recency: Seq<SegmentId>, pinned: Seq<SegmentId>, n: int)
    requires
        0 <= n <= pinned.len(),
    ensures
        (forall|k: int| 0 <= k < n ==> recency.contains(#[trigger] pinned[k])) || exists|i: int|
            i < n && first_unlisted(recency, pinned, i),
    decreases n,
{
    if n > 0 {
        lemma_first_unlisted(recency, pinned, n - 1);
        if forall|k: int| 0 <= k < n - 1 ==> recency.contains(#[trigger] pinned[k]) {
            if !recency.contains(pinned[n - 1]) {
                assert(first_unlisted(recency, pinned, n - 1));
            }
        } else {
            let i = choose|i: int| i < n - 1 && first_unlisted(recency, pinned, i);
            assert(i < n && first_unlisted(recency, pinned, i));
        }
    }
}

/// If one of the first `n` segments of the recency list is pinned, one of them
/// is the first that is.
pub proof fn lemma_first_listed(recency: Seq<SegmentId>, pinned: Seq<SegmentId>, n: int)
    requires
        0 <= n <= recency.len(),
    ensures
        (forall|k: int| 0 <= k < n ==> !pinned.contains(#[trigger] recency[k])) || exists|j: int|
            j < n && first_listed(recency, pinned, j),
    decreases n,
{
    if n > 0 {
        lemma_first_listed(recency, pinned, n - 1);
        if forall|k: int| 0 <= k < n - 1 ==> !pinned.contains(#[trigger] recency[k]) {
            if pinned.contains(recency[n - 1]) {
                assert(first_listed(recency, pinned, n - 1));
            }
        } else {
            let j = choose|j: int| j < n - 1 && first_listed(recency, pinned, j);
            assert(j < n && first_listed(recency, pinned, j));
        }
    }
}

/// Whenever a segment is pinned, one of the pinned segments is the stalest.
pub proof fn lemma_stalest_exists(recency: Seq<SegmentId>, pinned: Seq<SegmentId>)
    requires
        pinned.len() > 0,
    ensures
        stalest(recency, pinned) matches Some(v) && pinned.contains(v),
{
    lemma_first_unlisted(recency, pinned, pinned.len() as int);
    if exists|i: int| first_unlisted(recency, pinned, i) {
        let i = choose|i: int| first_unlisted(recency, pinned, i);
        assert(pinned.contains(pinned[i]));
    } else {
        assert forall|k: int| 0 <= k < pinned.len() implies recency.contains(
            #[trigger] pinned[k],
        ) by {
            if !recency.contains(pinned[k]) {
                let i = choose|i: int| i < pinned.len() && first_unlisted(recency, pinned, i);
                assert(first_unlisted(recency, pinned, i));
            }
        }
        lemma_first_listed(recency, pinned, recency.len() as int);
        assert(recency.contains(pinned[0]));
        let at = recency.index_of(pinned[0]);
        assert(pinned.contains(recency[at]));
        let j = choose|j: int| j < recency.len() && first_listed(recency, pinned, j);
        assert(first_listed(recency, pinned, j));
    }
}

/// Keeps the touched segments in a list, least recently touched first, and
/// wants the most recently touched ones pinned.
#[derive(Debug)]
pub struct LinkedListLruCache {
    limit: usize,
    list: SegmentSet,
    current_pinned_list: SegmentSet,
}

impl LinkedListLruCache {
    /// The touched segments, least recently touched first.
    pub closed spec fn recency(&self) -> Seq<SegmentId> {
        self.list.order()
    }

    /// The pinned segments, in the order in which they were pinned.
    pub closed spec fn pinned_order(&self) -> Seq<SegmentId> {
        self.current_pinned_list.order()
    }

}

impl LinkedListLruCache {
    /// A segment that has just been touched is wanted, as long as anything may
    /// be pinned at all.
    pub proof fn lemma_touched_is_wanted(&self, before: &Self, id: SegmentId)
        requires
            self.touched(before, id),
            self.limit() >= 1,
        ensures
            self.desired().contains(id),
    {
        let recency = self.recency();
        let recent = most_recent(recency, self.limit());
        assert(recency[recency.len() - 1] == id);
        assert(recent[recent.len() - 1] == id);
        assert(recent.contains(id));
    }
}

impl CacheBuilder for LinkedListLruCache {
    closed spec fn well_formed(&self) -> bool {
        self.current_pinned_list@.len() <= self.limit
    }

    closed spec fn limit(&self) -> nat {
        self.limit as nat
    }

    closed spec fn pinned(&self) -> Set<SegmentId> {
        self.current_pinned_list@
    }

    /// The most recently touched segments, as many as the limit allows.
    open spec fn desired(&self) -> Set<SegmentId> {
        most_recent(self.recency(), self.limit()).to_set()
    }

    /// The pinned segment that has gone longest without a touch gives way.
    open spec fn victim(&self, id: SegmentId) -> Option<SegmentId> {
        if self.pinned().contains(id) || self.limit() == 0 || self.pinned().len() < self.limit() {
            None
        } else {
            stalest(self.recency(), self.pinned_order())
        }
    }

    /// No segment has been touched.
    open spec fn blank(&self) -> bool {
        self.recency() == Seq::<SegmentId>::empty()
    }

    /// A touch moves `id` to the most recent end of the list and leaves the
    /// pinned segments alone.
    open spec fn touched(&self, before: &Self, id: SegmentId) -> bool {
        &&& self.limit() == before.limit()
        &&& self.pinned_order() == before.pinned_order()
        &&& self.recency() == (if before.recency().contains(id) {
            before.recency().remove(before.recency().index_of(id))
        } else {
            before.recency()
        }).push(id)
    }

    /// The recency list is the history.
    open spec fn remembers(&self, before: &Self) -> bool {
        &&& self.limit() == before.limit()
        &&& self.recency() == before.recency()
    }

    proof fn lemma_remembers_chain(&self, mid: &Self, before: &Self) {
    }

    proof fn lemma_within_limit(&self) {
        self.current_pinned_list.lemma_view_of_order();
        let recent = most_recent(self.recency(), self.limit());
        recent.lemma_cardinality_of_set();
        vstd::seq_lib::seq_to_set_is_finite(recent);
    }

    proof fn lemma_victim(&self, id: SegmentId) {
        self.current_pinned_list.lemma_view_of_order();
        let pinned = self.pinned_order();
        if pinned.len() == 0 {
            assert(pinned.to_set() =~= Set::<SegmentId>::empty());
        } else {
            lemma_stalest_exists(self.recency(), pinned);
        }
    }

    fn new(limit: usize) -> (policy: Self) {
        LinkedListLruCache { limit, list: SegmentSet::new(), current_pinned_list: SegmentSet::new() }
    }

    fn return_top_segments_to_pin(&self) -> (top: SegmentSet) {
        let n = self.list.len();
        let first = if self.limit >= n {
            0
        } else {
            n - self.limit
        };
        let mut top = SegmentSet::new();
        let mut i: usize = first;
        let ghost recent = most_recent(self.recency(), self.limit());
        assert(recent == self.recency().subrange(first as int, n as int));
        while i < n
            invariant
                first <= i <= n,
                n == self.recency().len(),
                recent == self.recency().subrange(first as int, n as int),
                top@ == recent.take(i - first).to_set(),
            decreases n - i,
        {
            let id = self.list.get(i);
            top.insert(id);
            proof {
                let done = recent.take(i - first);
                assert(recent.take(i - first + 1) == done.push(id));
                done.lemma_push_to_set_commute(id);
            }
            i += 1;
        }
        assert(recent.take(n - first) == recent);
        top
    }

    fn insert_and_evict(&mut self, id: SegmentId) -> (evicted: Option<SegmentId>) {
        if self.limit == 0 || self.current_pinned_list.contains(id) {
            return None;
        }
        let m = self.current_pinned_list.len();
        if m < self.limit {
            self.current_pinned_list.insert(id);
            return None;
        }
        let ghost recency = self.recency();
        let ghost pinned = self.pinned_order();
        proof {
            self.current_pinned_list.lemma_view_of_order();
            self.list.lemma_view_of_order();
        }
        let mut i: usize = 0;
        while i < m
            invariant
                i <= m,
                m == pinned.len(),
                pinned == self.current_pinned_list.order(),
                recency == self.list.order(),
                self.list@ == recency.to_set(),
                forall|k: int| 0 <= k < i ==> recency.contains(#[trigger] pinned[k]),
                self.current_pinned_list@.finite(),
                *self == *old(self),
                self.well_formed(),
                m == self.pinned().len(),
                !self.pinned().contains(id),
                0 < self.limit <= m,
            decreases m - i,
        {
            let candidate = self.current_pinned_list.get(i);
            if !self.list.contains(candidate) {
                proof {
                    assert(first_unlisted(recency, pinned, i as int));
                    let picked = choose|k: int| first_unlisted(recency, pinned, k);
                    assert(picked == i) by {
                        if picked < i {
                            assert(recency.contains(pinned[picked]));
                        } else if i < picked {
                            assert(recency.contains(pinned[i as int]));
                        }
                    }
                }
                self.current_pinned_list.remove(candidate);
                self.current_pinned_list.insert(id);
                return Some(candidate);
            }
            i += 1;
        }
        let n = self.list.len();
        let mut j: usize = 0;
        while j < n
            invariant
                j <= n,
                n == recency.len(),
                m == pinned.len(),
                0 < m,
                pinned == self.current_pinned_list.order(),
                self.current_pinned_list@ == pinned.to_set(),
                recency == self.list.order(),
                forall|k: int| 0 <= k < m ==> recency.contains(#[trigger] pinned[k]),
                forall|k: int| 0 <= k < j ==> !pinned.contains(#[trigger] recency[k]),
                *self == *old(self),
                self.well_formed(),
                m == self.pinned().len(),
                !self.pinned().contains(id),
                0 < self.limit <= m,
            decreases n - j,
        {
            let candidate = self.list.get(j);
            if self.current_pinned_list.contains(candidate) {
                proof {
                    assert(first_listed(recency, pinned, j as int));
                    assert(!exists|k: int| first_unlisted(recency, pinned, k));
                    let picked = choose|k: int| first_listed(recency, pinned, k);
                    assert(picked == j) by {
                        if picked < j {
                            assert(!pinned.contains(recency[picked]));
                        } else if j < picked {
                            assert(!pinned.contains(recency[j as int]));
                        }
                    }
                }
                self.current_pinned_list.remove(candidate);
                self.current_pinned_list.insert(id);
                return Some(candidate);
            }
            j += 1;
        }
        proof {
            assert(recency.contains(pinned[0]));
            let k = recency.index_of(pinned[0]);
            assert(!pinned.contains(recency[k]));
            assert(false);
        }
        None
    }

    /// Moves `id` to the most recent end of the list.
    fn update_access(&mut self, id: SegmentId) {
        proof {
            self.list.lemma_view_of_order();
        }
        self.list.remove(id);
        self.list.insert(id);
    }

    /// Empties the recency list.
    fn reset(&mut self)
        ensures
            final(self).recency() == Seq::<SegmentId>::empty(),
    {
        self.list = SegmentSet::new();
    }

    fn current_pinned_segments(&self) -> (set: &SegmentSet) {
        &self.current_pinned_list
    }

    fn set_current_pinned_list(&mut self, list: SegmentSet)
        ensures
            final(self).desired() == old(self).desired(),
    {
        self.current_pinned_list = list;
    }
}

} // verus!
