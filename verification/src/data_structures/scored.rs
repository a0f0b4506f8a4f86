//! What the score-keeping policies share: a limit, a score table and the pinned
//! set, with selection of the best segments and admission into the pinned set.
use vstd::prelude::*;
use crate::data_structures::policy::admitted;
use crate::data_structures::ranking::ScoreTable;
use crate::data_structures::segment_id::{SegmentId, SegmentSet};

verus! {

/// A pinned set of bounded size next to a table of scores.
#[derive(Debug)]
pub struct ScoredPins {
    limit: usize,
    table: ScoreTable,
    pinned: SegmentSet,
}

impl ScoredPins {
    /// The most segments that may be pinned at once.
    pub closed spec fn cap(&self) -> nat {
        self.limit as nat
    }

    /// The scores.
    pub closed spec fn table(&self) -> ScoreTable {
        self.table
    }

    /// The pinned segments.
    pub closed spec fn pins(&self) -> SegmentSet {
        self.pinned
    }

    /// The pinned set is within the limit.
    pub open spec fn well_formed(&self) -> bool {
        self.pins()@.len() <= self.cap()
    }

    /// The best-scored segments, as many as the limit allows.
    pub open spec fn desired(&self) -> Set<SegmentId> {
        self.table().top_set(self.cap())
    }

    /// When a newcomer meets a full pinned set, the least valuable pinned
    /// segment gives way.
    pub open spec fn victim(&self, id: SegmentId) -> Option<SegmentId> {
        if self.pins()@.contains(id) || self.cap() == 0 || self.pins()@.len() < self.cap() {
            None
        } else {
            self.table().least(self.pins().order())
        }
    }

    /// Neither the pinned set nor the desired set exceeds the limit.
    pub proof fn lemma_within_limit(&self)
        requires
            self.well_formed(),
        ensures
            self.pins()@.finite(),
            self.pins()@.len() <= self.cap(),
            self.desired().finite(),
            self.desired().len() <= self.cap(),
    {
        self.pins().lemma_view_of_order();
        self.table().lemma_selections_bounded(self.cap(), self.pins().order());
    }

    /// A segment gives way exactly when a newcomer meets a full pinned set, and
    /// the one that gives way is pinned.
    pub proof fn lemma_victim(&self, id: SegmentId)
        requires
            self.well_formed(),
        ensures
            self.victim(id) is Some <==> !self.pins()@.contains(id) && self.cap() > 0
                && self.pins()@.len() >= self.cap(),
            self.victim(id) matches Some(e) ==> self.pins()@.contains(e),
    {
        self.pins().lemma_view_of_order();
        self.table().lemma_selections_bounded(self.cap(), self.pins().order());
        if self.pins().order().len() == 0 {
            assert(self.pins().order().to_set() =~= Set::<SegmentId>::empty());
        }
    }

    /// Nothing pinned and nothing scored, for at most `limit` pinned segments.
    pub fn new(limit: usize) -> (pins: ScoredPins)
        ensures
            pins.well_formed(),
            pins.cap() == limit,
            pins.pins()@ == Set::<SegmentId>::empty(),
            pins.table().order() == Seq::<SegmentId>::empty(),
    {
        ScoredPins { limit, table: ScoreTable::new(), pinned: SegmentSet::new() }
    }

    /// The best-scored segments, as many as the limit allows.
    pub fn top(&self) -> (top: SegmentSet)
        ensures
            top@ == self.desired(),
            self.table().is_top(top@, self.cap()),
    {
        self.table.top(self.limit)
    }

    /// Admits `id` to the pinned set; returns the segment that gave way.
    pub fn take_in(&mut self, id: SegmentId) -> (evicted: Option<SegmentId>)
        requires
            old(self).well_formed(),
        ensures
            final(self).well_formed(),
            final(self).cap() == old(self).cap(),
            final(self).table() == old(self).table(),
            evicted == old(self).victim(id),
            evicted is Some <==> !old(self).pins()@.contains(id) && old(self).cap() > 0
                && old(self).pins()@.len() >= old(self).cap(),
            final(self).pins()@ == admitted(old(self).pins()@, old(self).cap(), id, evicted),
    {
        if self.limit == 0 || self.pinned.contains(id) {
            return None;
        }
        if self.pinned.len() < self.limit {
            self.pinned.insert(id);
            return None;
        }
        match self.table.lowest_of(&self.pinned) {
            Some(lowest) => {
                self.pinned.remove(lowest);
                self.pinned.insert(id);
                Some(lowest)
            },
            None => None,
        }
    }

    /// The score of `id`, if it has one.
    pub fn score(&self, id: SegmentId) -> (score: Option<u64>)
        ensures
            score is Some <==> self.table().tracks(id),
            score matches Some(s) ==> s == self.table().score_of(id),
    {
        self.table.get(id)
    }

    /// Gives `id` the score `score`.
    pub fn set_score(&mut self, id: SegmentId, score: u64)
        requires
            old(self).well_formed(),
        ensures
            final(self).well_formed(),
            final(self).cap() == old(self).cap(),
            final(self).pins() == old(self).pins(),
            final(self).table().tracks(id),
            final(self).table().score_of(id) == score,
            forall|other: SegmentId|
                #![trigger final(self).table().score_of(other)]
                #![trigger final(self).table().tracks(other)]
                other != id ==> final(self).table().tracks(other) == old(self).table().tracks(other)
                    && final(self).table().score_of(other) == old(self).table().score_of(other),
            old(self).table().tracks(id) ==> final(self).table().order() == old(self).table().order(),
            !old(self).table().tracks(id) ==> final(self).table().order() == old(self).table().order().push(id),
    {
        self.table.set(id, score);
    }

    /// Sets every score to zero; the segments stay known, in their order.
    pub fn clear_scores(&mut self)
        requires
            old(self).well_formed(),
        ensures
            final(self).well_formed(),
            final(self).cap() == old(self).cap(),
            final(self).pins() == old(self).pins(),
            final(self).table().order() == old(self).table().order(),
            forall|id: SegmentId|
                #![trigger final(self).table().score_of(id)]
                final(self).table().score_of(id) == 0,
    {
        self.table.reset_all();
    }

    /// The pinned segments.
    pub fn pinned_ref(&self) -> (set: &SegmentSet)
        ensures
            *set == self.pins(),
    {
        &self.pinned
    }

    /// Replaces the pinned set.
    pub fn replace_pinned(&mut self, list: SegmentSet)
        requires
            list@.len() <= old(self).cap(),
        ensures
            final(self).well_formed(),
            final(self).cap() == old(self).cap(),
            final(self).table() == old(self).table(),
            final(self).pins() == list,
    {
        self.pinned = list;
    }
}

} // verus!
