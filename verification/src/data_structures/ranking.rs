//! A table of per-segment scores, and the two selections policies make from it:
//! the best few segments, and the least valuable of a given few.
use vstd::prelude::*;
use vstd::set_lib::{lemma_len_subset, lemma_subset_equality};
use std::collections::HashMap;
use crate::data_structures::segment_id::{SegmentId, SegmentSet};

verus! {

broadcast use vstd::std_specs::hash::group_hash_axioms;

/// In a sequence without repeats, an element is found where it stands.
pub proof fn lemma_index_of_unique(s: Seq<SegmentId>, j: int)
    requires
        s.no_duplicates(),
        0 <= j < s.len(),
    ensures
        s.contains(s[j]),
        s.index_of(s[j]) == j,
{
    let k = s.index_of(s[j]);
    assert(s.contains(s[j]));
    assert(0 <= k < s.len() && s[k] == s[j]);
}

/// One score per tracked segment, kept in the order in which the segments were
/// first seen.
///
/// A higher score is better; between equal scores the segment seen first is
/// better. This makes "better" a strict total order on the tracked segments, so
/// every selection below has exactly one answer.
///
/// The place of each segment is kept in a hash map as well, so that looking up
/// and changing a score takes constant time.
#[derive(Debug)]
pub struct ScoreTable {
    ids: Vec<SegmentId>,
    scores: Vec<u64>,
    places: HashMap<u128, usize>,
}

impl ScoreTable {
    #[verifier::type_invariant]
    spec fn consistent(self) -> bool {
        &&& self.ids@.len() == self.scores@.len()
        &&& self.ids@.no_duplicates()
        &&& forall|i: int|
            0 <= i < self.ids@.len() ==> self.places@.contains_key(
                (#[trigger] self.ids@[i]).spec_key(),
            ) && self.places@[self.ids@[i].spec_key()] == i
        &&& forall|k: u128| #[trigger]
            self.places@.contains_key(k) ==> self.places@[k] < self.ids@.len()
                && self.ids@[self.places@[k] as int].spec_key() == k
    }

    /// The tracked segments in the order in which they were first seen.
    pub closed spec fn order(&self) -> Seq<SegmentId> {
        self.ids@
    }

    /// The scores, in the same order.
    pub closed spec fn scores(&self) -> Seq<u64> {
        self.scores@
    }

    /// Whether the table has a score for `id`.
    pub open spec fn tracks(&self, id: SegmentId) -> bool {
        self.order().contains(id)
    }

    /// The set of tracked segments.
    pub open spec fn known(&self) -> Set<SegmentId> {
        self.order().to_set()
    }

    /// Where `id` stands in the order.
    pub open spec fn position(&self, id: SegmentId) -> int {
        self.order().index_of(id)
    }

    /// The score of `id`; zero for a segment that is not tracked.
    pub open spec fn score_of(&self, id: SegmentId) -> u64 {
        if self.tracks(id) {
            self.scores()[self.position(id)]
        } else {
            0
        }
    }

    /// Whether `a` is better than `b`: a higher score, or the same score and
    /// seen earlier.
    pub open spec fn beats(&self, a: SegmentId, b: SegmentId) -> bool {
        ||| self.score_of(a) > self.score_of(b)
        ||| self.score_of(a) == self.score_of(b) && self.position(a) < self.position(b)
    }

    /// Whether `s` holds the `limit` best tracked segments, or all of them if
    /// there are fewer.
    pub open spec fn is_top(&self, s: Set<SegmentId>, limit: nat) -> bool {
        &&& s.finite()
        &&& s.subset_of(self.known())
        &&& s.len() == (if limit <= self.known().len() {
            limit
        } else {
            self.known().len()
        })
        &&& forall|x: SegmentId, y: SegmentId|
            #[trigger] s.contains(x) && #[trigger] self.tracks(y) && !s.contains(y) ==> self.beats(
                x,
                y,
            )
    }

    /// The `limit` best tracked segments.
    pub open spec fn top_set(&self, limit: nat) -> Set<SegmentId> {
        choose|s: Set<SegmentId>| self.is_top(s, limit)
    }

    /// Whether `v` is the least valuable member of `among`: the first member
    /// without a score if there is one, else the member that every other one
    /// beats.
    pub open spec fn is_least(&self, v: SegmentId, among: Seq<SegmentId>) -> bool {
        exists|i: int|
            {
                &&& 0 <= i < among.len()
                &&& (#[trigger] among[i]) == v
                &&& if self.tracks(v) {
                    forall|j: int|
                        0 <= j < among.len() ==> self.tracks(#[trigger] among[j]) && (among[j] != v
                            ==> self.beats(among[j], v))
                } else {
                    forall|j: int| 0 <= j < i ==> self.tracks(#[trigger] among[j])
                }
            }
    }

    /// The least valuable member of `among`, if it has any member.
    pub open spec fn least(&self, among: Seq<SegmentId>) -> Option<SegmentId> {
        if among.len() == 0 {
            None
        } else {
            Some(choose|v: SegmentId| self.is_least(v, among))
        }
    }

    /// The best few are never more than asked for, and the least valuable of a
    /// few is one of them.
    pub proof fn lemma_selections_bounded(&self, limit: nat, among: Seq<SegmentId>)
        ensures
            self.top_set(limit).finite(),
            self.top_set(limit).len() <= limit,
            self.least(among) is Some <==> among.len() > 0,
            self.least(among) matches Some(v) ==> among.contains(v) && self.is_least(v, among),
    {
        self.lemma_top_exists(limit);
        if among.len() > 0 {
            self.lemma_least_exists(among);
        }
    }

    /// No two different sets hold the `limit` best segments.
    pub proof fn lemma_top_unique(&self, a: Set<SegmentId>, b: Set<SegmentId>, limit: nat)
        requires
            self.is_top(a, limit),
            self.is_top(b, limit),
        ensures
            a == b,
    {
        if a.subset_of(b) {
            lemma_subset_equality(a, b);
        } else if b.subset_of(a) {
            lemma_subset_equality(b, a);
        } else {
            let x = choose|x: SegmentId| a.contains(x) && !b.contains(x);
            let y = choose|y: SegmentId| b.contains(y) && !a.contains(y);
            assert(self.tracks(x));
            assert(self.tracks(y));
            assert(self.beats(x, y));
            assert(self.beats(y, x));
        }
    }

    /// Of two different tracked segments, one beats the other.
    pub proof fn lemma_beats_total(&self, a: SegmentId, b: SegmentId)
        requires
            self.tracks(a),
            self.tracks(b),
            a != b,
        ensures
            self.beats(a, b) || self.beats(b, a),
    {
        let i = self.order().index_of(a);
        let j = self.order().index_of(b);
        assert(self.order()[i] == a);
        assert(self.order()[j] == b);
    }

    /// Whether `m` is a member of `r` that beats every other member.
    pub open spec fn is_best(&self, m: SegmentId, r: Set<SegmentId>) -> bool {
        r.contains(m) && forall|y: SegmentId| #[trigger] r.contains(y) && y != m ==> self.beats(m, y)
    }

    /// Among finitely many tracked segments, one beats all the others.
    pub proof fn lemma_best_exists(&self, r: Set<SegmentId>)
        requires
            r.finite(),
            r.len() > 0,
            r.subset_of(self.known()),
        ensures
            exists|m: SegmentId| self.is_best(m, r),
        decreases r.len(),
    {
        let a = r.choose();
        let rest = r.remove(a);
        if rest.len() == 0 {
            assert forall|y: SegmentId| #[trigger] r.contains(y) && y != a implies self.beats(a, y) by {
                assert(rest.contains(y));
            }
            assert(self.is_best(a, r));
        } else {
            self.lemma_best_exists(rest);
            let m = choose|m: SegmentId| self.is_best(m, rest);
            assert(self.known().contains(a));
            assert(self.known().contains(m));
            self.lemma_beats_total(a, m);
            if self.beats(a, m) {
                assert forall|y: SegmentId| #[trigger] r.contains(y) && y != a implies self.beats(
                    a,
                    y,
                ) by {
                    assert(rest.contains(y));
                }
                assert(self.is_best(a, r));
            } else {
                assert forall|y: SegmentId| #[trigger] r.contains(y) && y != m implies self.beats(
                    m,
                    y,
                ) by {
                    if y != a {
                        assert(rest.contains(y));
                    }
                }
                assert(self.is_best(m, r));
            }
        }
    }

    /// Whatever the limit, there is a set of the best segments, and `top_set` is
    /// it.
    pub proof fn lemma_top_exists(&self, limit: nat)
        ensures
            self.is_top(self.top_set(limit), limit),
        decreases limit,
    {
        vstd::seq_lib::seq_to_set_is_finite(self.order());
        let all = self.known();
        if limit == 0 {
            let none = Set::<SegmentId>::empty();
            assert(self.is_top(none, limit));
        } else {
            self.lemma_top_exists((limit - 1) as nat);
            let fewer = self.top_set((limit - 1) as nat);
            if limit - 1 >= all.len() {
                assert(self.is_top(fewer, limit));
            } else {
                let rest = all.difference(fewer);
                vstd::set_lib::lemma_set_difference_len(all, fewer);
                assert(all.intersect(fewer) =~= fewer);
                assert(rest.len() > 0);
                self.lemma_best_exists(rest);
                let m = choose|m: SegmentId| self.is_best(m, rest);
                let more = fewer.insert(m);
                assert forall|x: SegmentId, y: SegmentId|
                    #[trigger] more.contains(x) && #[trigger] self.tracks(y) && !more.contains(
                        y,
                    ) implies self.beats(x, y) by {
                    if x == m {
                        assert(rest.contains(y));
                    } else {
                        assert(fewer.contains(x));
                    }
                }
                assert(self.is_top(more, limit));
            }
        }
    }

    /// Whether `i` is the place of the first member of `among` that has no
    /// score.
    pub open spec fn first_unscored(&self, among: Seq<SegmentId>, i: int) -> bool {
        &&& 0 <= i < among.len()
        &&& !self.tracks(among[i])
        &&& forall|j: int| 0 <= j < i ==> self.tracks(#[trigger] among[j])
    }

    /// If some of the first `n` members of `among` has no score, one of them is
    /// the first without.
    pub proof fn lemma_first_unscored(&self, among: Seq<SegmentId>, n: int)
        requires
            0 <= n <= among.len(),
        ensures
            (forall|j: int| 0 <= j < n ==> self.tracks(#[trigger] among[j])) || exists|i: int|
                i < n && self.first_unscored(among, i),
        decreases n,
    {
        if n > 0 {
            self.lemma_first_unscored(among, n - 1);
            if forall|j: int| 0 <= j < n - 1 ==> self.tracks(#[trigger] among[j]) {
                if !self.tracks(among[n - 1]) {
                    assert(self.first_unscored(among, n - 1));
                }
            } else {
                let i = choose|i: int| i < n - 1 && self.first_unscored(among, i);
                assert(i < n && self.first_unscored(among, i));
            }
        }
    }

    /// Whenever there is a member, there is a least valuable one, and `least`
    /// is it.
    pub proof fn lemma_least_exists(&self, among: Seq<SegmentId>)
        requires
            among.len() > 0,
        ensures
            self.least(among) matches Some(v) && self.is_least(v, among),
    {
        self.lemma_first_unscored(among, among.len() as int);
        if forall|j: int| 0 <= j < among.len() ==> self.tracks(#[trigger] among[j]) {
            let members = among.to_set();
            vstd::seq_lib::seq_to_set_is_finite(among);
            assert(members.contains(among[0]));
            assert(members.len() > 0) by {
                if members.len() == 0 {
                    assert(members =~= Set::<SegmentId>::empty());
                }
            }
            assert(members.subset_of(self.known())) by {
                assert forall|x: SegmentId| members.contains(x) implies self.known().contains(x) by {
                    let j = among.index_of(x);
                    assert(self.tracks(among[j]));
                }
            }
            self.lemma_worst_exists(members);
            let v = choose|v: SegmentId| self.is_worst(v, members);
            let i = among.index_of(v);
            assert(among[i] == v);
            assert forall|j: int| 0 <= j < among.len() implies self.tracks(#[trigger] among[j]) && (
            among[j] != v ==> self.beats(among[j], v)) by {
                assert(members.contains(among[j]));
            }
            assert(self.is_least(v, among));
        } else {
            let i = choose|i: int| i < among.len() && self.first_unscored(among, i);
            assert(self.is_least(among[i], among));
        }
    }

    /// Whether `m` is a member of `r` that every other member beats.
    pub open spec fn is_worst(&self, m: SegmentId, r: Set<SegmentId>) -> bool {
        r.contains(m) && forall|y: SegmentId| #[trigger] r.contains(y) && y != m ==> self.beats(y, m)
    }

    /// Among finitely many tracked segments, one is beaten by all the others.
    pub proof fn lemma_worst_exists(&self, r: Set<SegmentId>)
        requires
            r.finite(),
            r.len() > 0,
            r.subset_of(self.known()),
        ensures
            exists|m: SegmentId| self.is_worst(m, r),
        decreases r.len(),
    {
        let a = r.choose();
        let rest = r.remove(a);
        if rest.len() == 0 {
            assert forall|y: SegmentId| #[trigger] r.contains(y) && y != a implies self.beats(y, a) by {
                assert(rest.contains(y));
            }
            assert(self.is_worst(a, r));
        } else {
            self.lemma_worst_exists(rest);
            let m = choose|m: SegmentId| self.is_worst(m, rest);
            assert(self.known().contains(a));
            assert(self.known().contains(m));
            self.lemma_beats_total(a, m);
            if self.beats(m, a) {
                assert forall|y: SegmentId| #[trigger] r.contains(y) && y != a implies self.beats(
                    y,
                    a,
                ) by {
                    assert(rest.contains(y));
                }
                assert(self.is_worst(a, r));
            } else {
                assert forall|y: SegmentId| #[trigger] r.contains(y) && y != m implies self.beats(
                    y,
                    m,
                ) by {
                    if y != a {
                        assert(rest.contains(y));
                    }
                }
                assert(self.is_worst(m, r));
            }
        }
    }

    /// A segment with a higher score than one of the best few is one of the best
    /// few itself.
    pub proof fn lemma_top_prefers_higher_score(
        &self,
        s: Set<SegmentId>,
        limit: nat,
        higher: SegmentId,
        lower: SegmentId,
    )
        requires
            self.is_top(s, limit),
            self.tracks(higher),
            s.contains(lower),
            self.score_of(higher) > self.score_of(lower),
        ensures
            s.contains(higher),
    {
        if !s.contains(higher) {
            assert(self.beats(lower, higher));
        }
    }

    /// A tracked segment with a higher score than every other is one of the best
    /// few, however few, unless none is asked for.
    pub proof fn lemma_top_holds_the_best(&self, s: Set<SegmentId>, limit: nat, best: SegmentId)
        requires
            self.is_top(s, limit),
            limit >= 1,
            self.tracks(best),
            forall|other: SegmentId|
                #![trigger self.score_of(other)]
                self.tracks(other) && other != best ==> self.score_of(other) < self.score_of(best),
        ensures
            s.contains(best),
    {
        if !s.contains(best) {
            vstd::seq_lib::seq_to_set_is_finite(self.order());
            assert(self.known().contains(best));
            assert(self.known().len() >= 1) by {
                if self.known().len() == 0 {
                    assert(self.known() =~= Set::<SegmentId>::empty());
                }
            }
            assert(s.len() >= 1);
            let y = s.choose();
            assert(s.contains(y)) by {
                if !s.contains(y) {
                    assert(s =~= Set::<SegmentId>::empty());
                }
            }
            assert(self.tracks(y));
            assert(self.beats(y, best));
            assert(self.score_of(y) < self.score_of(best));
        }
    }

    /// No two different segments are the least valuable of the same few.
    pub proof fn lemma_least_unique(&self, v: SegmentId, w: SegmentId, among: Seq<SegmentId>)
        requires
            self.is_least(v, among),
            self.is_least(w, among),
        ensures
            v == w,
    {
        let i = choose|i: int|
            {
                &&& 0 <= i < among.len()
                &&& (#[trigger] among[i]) == v
                &&& if self.tracks(v) {
                    forall|j: int|
                        0 <= j < among.len() ==> self.tracks(#[trigger] among[j]) && (among[j] != v
                            ==> self.beats(among[j], v))
                } else {
                    forall|j: int| 0 <= j < i ==> self.tracks(#[trigger] among[j])
                }
            };
        let k = choose|k: int|
            {
                &&& 0 <= k < among.len()
                &&& (#[trigger] among[k]) == w
                &&& if self.tracks(w) {
                    forall|j: int|
                        0 <= j < among.len() ==> self.tracks(#[trigger] among[j]) && (among[j] != w
                            ==> self.beats(among[j], w))
                } else {
                    forall|j: int| 0 <= j < k ==> self.tracks(#[trigger] among[j])
                }
            };
        if self.tracks(v) {
            assert(self.tracks(among[k]));
            if v != w {
                assert(self.beats(among[k], v));
                assert(self.beats(among[i], w));
            }
        } else {
            if self.tracks(w) {
                assert(self.tracks(among[i]));
            } else if i < k {
                assert(self.tracks(among[i]));
            } else if k < i {
                assert(self.tracks(among[k]));
            }
        }
    }

    /// A table without scores.
    pub fn new() -> (table: ScoreTable)
        ensures
            table.order() == Seq::<SegmentId>::empty(),
            table.scores() == Seq::<u64>::empty(),
    {
        ScoreTable { ids: Vec::new(), scores: Vec::new(), places: HashMap::new() }
    }

    /// The number of tracked segments.
    pub fn len(&self) -> (n: usize)
        ensures
            n == self.order().len(),
            n == self.scores().len(),
            n == self.known().len(),
            self.order().no_duplicates(),
            self.known().finite(),
    {
        proof {
            use_type_invariant(self);
            self.ids@.unique_seq_to_set();
            vstd::seq_lib::seq_to_set_is_finite(self.ids@);
        }
        self.ids.len()
    }

    /// Where `id` stands in the order, if it is tracked.
    pub fn find(&self, id: SegmentId) -> (found: Option<usize>)
        ensures
            found is Some <==> self.tracks(id),
            found matches Some(p) ==> p == self.position(id) && p < self.order().len()
                && self.order()[p as int] == id && self.scores()[p as int] == self.score_of(id),
            self.order().len() == self.scores().len(),
            self.order().no_duplicates(),
    {
        proof {
            use_type_invariant(self);
        }
        match self.places.get(&id.key()) {
            Some(place) => {
                proof {
                    SegmentId::lemma_key_injective(self.ids@[*place as int], id);
                    lemma_index_of_unique(self.ids@, *place as int);
                }
                Some(*place)
            },
            None => {
                proof {
                    if self.ids@.contains(id) {
                        let i = self.ids@.index_of(id);
                        assert(self.places@.contains_key(self.ids@[i].spec_key()));
                    }
                }
                None
            },
        }
    }

    /// The score of `id`, if it is tracked.
    pub fn get(&self, id: SegmentId) -> (score: Option<u64>)
        ensures
            score is Some <==> self.tracks(id),
            score matches Some(s) ==> s == self.score_of(id),
    {
        match self.find(id) {
            Some(p) => Some(self.scores[p]),
            None => None,
        }
    }

    /// Gives `id` the score `score`, tracking it from now on if it was not.
    pub fn set(&mut self, id: SegmentId, score: u64)
        ensures
            final(self).tracks(id),
            final(self).score_of(id) == score,
            old(self).tracks(id) ==> final(self).order() == old(self).order()
                && final(self).scores() == old(self).scores().update(
                old(self).position(id),
                score,
            ),
            !old(self).tracks(id) ==> final(self).order() == old(self).order().push(id)
                && final(self).scores() == old(self).scores().push(score),
            forall|other: SegmentId|
                #![trigger final(self).score_of(other)]
                #![trigger final(self).tracks(other)]
                other != id ==> final(self).tracks(other) == old(self).tracks(other)
                    && final(self).score_of(other) == old(self).score_of(other),
    {
        proof {
            use_type_invariant(&*self);
        }
        let found = self.find(id);
        let mut taken = ScoreTable::new();
        std::mem::swap(self, &mut taken);
        let ScoreTable { mut ids, mut scores, mut places } = taken;
        match found {
            Some(p) => {
                scores.set(p, score);
            },
            None => {
                places.insert(id.key(), ids.len());
                ids.push(id);
                scores.push(score);
            },
        }
        proof {
            let before = old(self).ids@;
            if found is None {
                assert forall|i: int| 0 <= i < ids@.len() implies places@.contains_key(
                    (#[trigger] ids@[i]).spec_key(),
                ) && places@[ids@[i].spec_key()] == i by {
                    if i < before.len() {
                        assert(ids@[i] == before[i]);
                        assert(before.contains(before[i]));
                        if before[i].spec_key() == id.spec_key() {
                            SegmentId::lemma_key_injective(before[i], id);
                        }
                    }
                }
                assert forall|k: u128| #[trigger] places@.contains_key(k) implies places@[k]
                    < ids@.len() && ids@[places@[k] as int].spec_key() == k by {
                    if k != id.spec_key() {
                        assert(old(self).places@.contains_key(k));
                    }
                }
            }
            assert forall|other: SegmentId| other != id implies ids@.contains(other)
                == before.contains(other) && (ids@.contains(other) ==> ids@.index_of(other)
                == before.index_of(other)) by {
                if before.contains(other) {
                    let q = before.index_of(other);
                    assert(ids@[q] == other);
                    lemma_index_of_unique(ids@, q);
                }
                if ids@.contains(other) {
                    let q = ids@.index_of(other);
                    assert(before[q] == other);
                }
            }
            if found is None {
                lemma_index_of_unique(ids@, ids@.len() - 1);
            }
        }
        *self = ScoreTable { ids, scores, places };
    }

    /// Sets every score to zero; the tracked segments and their order stay.
    pub fn reset_all(&mut self)
        ensures
            final(self).order() == old(self).order(),
            final(self).scores().len() == old(self).scores().len(),
            forall|i: int| 0 <= i < final(self).scores().len() ==> final(self).scores()[i] == 0,
            forall|id: SegmentId|
                #![trigger final(self).score_of(id)]
                final(self).score_of(id) == 0,
    {
        proof {
            use_type_invariant(&*self);
        }
        let n = self.scores.len();
        let mut scores: Vec<u64> = Vec::new();
        let mut i: usize = 0;
        while i < n
            invariant
                i <= n,
                scores@.len() == i,
                forall|j: int| 0 <= j < i ==> scores@[j] == 0,
            decreases n - i,
        {
            scores.push(0);
            i += 1;
        }
        self.scores = scores;
    }

    /// Whether the segment at position `a` is better than the one at `b`.
    fn outranks(&self, a: usize, b: usize) -> (better: bool)
        requires
            a < self.order().len(),
            b < self.order().len(),
        ensures
            better == self.beats(self.order()[a as int], self.order()[b as int]),
    {
        proof {
            use_type_invariant(self);
            lemma_index_of_unique(self.ids@, a as int);
            lemma_index_of_unique(self.ids@, b as int);
        }
        self.scores[a] > self.scores[b] || (self.scores[a] == self.scores[b] && a < b)
    }

    /// The `limit` best tracked segments, best first.
    pub fn top(&self, limit: usize) -> (chosen: SegmentSet)
        ensures
            self.is_top(chosen@, limit as nat),
            chosen@ == self.top_set(limit as nat),
    {
        let n = self.len();
        let mut chosen = SegmentSet::new();
        let mut taken: usize = 0;
        while taken < limit && taken < n
            invariant
                n == self.order().len(),
                n == self.known().len(),
                self.order().no_duplicates(),
                self.known().finite(),
                taken == chosen@.len(),
                taken <= limit,
                taken <= n,
                chosen@.finite(),
                chosen@.subset_of(self.known()),
                forall|x: SegmentId, y: SegmentId|
                    #[trigger] chosen@.contains(x) && #[trigger] self.tracks(y) && !chosen@.contains(
                        y,
                    ) ==> self.beats(x, y),
            decreases n - taken,
        {
            let mut best: Option<usize> = None;
            let mut i: usize = 0;
            while i < n
                invariant
                    i <= n,
                    n == self.order().len(),
                    self.order().no_duplicates(),
                    match best {
                        None => forall|j: int|
                            0 <= j < i ==> chosen@.contains(#[trigger] self.order()[j]),
                        Some(b) => b < i && !chosen@.contains(self.order()[b as int]) && forall|
                            j: int,
                        |
                            0 <= j < i && j != b && !chosen@.contains(#[trigger] self.order()[j])
                                ==> self.beats(self.order()[b as int], self.order()[j]),
                    },
                decreases n - i,
            {
                proof {
                    use_type_invariant(self);
                }
                if !chosen.contains(self.ids[i]) {
                    match best {
                        None => {
                            best = Some(i);
                        },
                        Some(b) => {
                            if self.outranks(i, b) {
                                proof {
                                    lemma_index_of_unique(self.order(), i as int);
                                    lemma_index_of_unique(self.order(), b as int);
                                    assert forall|j: int|
                                        0 <= j < i + 1 && j != i && !chosen@.contains(
                                            #[trigger] self.order()[j],
                                        ) implies self.beats(self.order()[i as int], self.order()[j]) by {
                                        lemma_index_of_unique(self.order(), j);
                                    }
                                }
                                best = Some(i);
                            } else {
                                proof {
                                    lemma_index_of_unique(self.order(), i as int);
                                    lemma_index_of_unique(self.order(), b as int);
                                }
                            }
                        },
                    }
                }
                i += 1;
            }
            match best {
                None => {
                    proof {
                        assert(self.known().subset_of(chosen@)) by {
                            assert forall|x: SegmentId| self.known().contains(x) implies chosen@.contains(
                                x,
                            ) by {
                                let j = self.order().index_of(x);
                                assert(self.order()[j] == x);
                            }
                        }
                        lemma_len_subset(self.known(), chosen@);
                        assert(false);
                    }
                    return chosen;
                },
                Some(b) => {
                    proof {
                        use_type_invariant(self);
                    }
                    let winner = self.ids[b];
                    let ghost before = chosen@;
                    chosen.insert(winner);
                    taken += 1;
                    proof {
                        assert(self.order().contains(winner));
                        assert forall|x: SegmentId, y: SegmentId|
                            #[trigger] chosen@.contains(x) && #[trigger] self.tracks(y)
                                && !chosen@.contains(y) implies self.beats(x, y) by {
                            if x == winner {
                                let j = self.order().index_of(y);
                                assert(self.order()[j] == y);
                                assert(!before.contains(self.order()[j]));
                            } else {
                                assert(before.contains(x));
                            }
                        }
                    }
                },
            }
        }
        proof {
            let witness = chosen@;
            assert(self.is_top(witness, limit as nat));
            self.lemma_top_unique(chosen@, self.top_set(limit as nat), limit as nat);
        }
        chosen
    }

    /// The least valuable member of `among`, if it has any member.
    pub fn lowest_of(&self, among: &SegmentSet) -> (lowest: Option<SegmentId>)
        ensures
            lowest == self.least(among.order()),
            lowest matches Some(v) ==> among@.contains(v) && self.is_least(v, among.order()),
            lowest is None <==> among@.len() == 0,
    {
        let m = among.len();
        if m == 0 {
            return None;
        }
        let ghost seq = among.order();
        proof {
            among.lemma_view_of_order();
        }
        let mut i: usize = 0;
        while i < m
            invariant
                i <= m,
                0 < m == among@.len(),
                among@ == seq.to_set(),
                m == seq.len(),
                seq == among.order(),
                forall|j: int| 0 <= j < i ==> self.tracks(#[trigger] seq[j]),
            decreases m - i,
        {
            let id = among.get(i);
            if self.find(id).is_none() {
                proof {
                    assert(seq[i as int] == id);
                    assert(self.is_least(id, seq));
                    let picked = choose|v: SegmentId| self.is_least(v, seq);
                    self.lemma_least_unique(id, picked, seq);
                }
                return Some(id);
            }
            i += 1;
        }
        let mut lowest = among.get(0);
        let mut lowest_pos: usize = 0;
        let mut k: usize = 1;
        lowest_pos = match self.find(lowest) {
            Some(p) => p,
            None => 0,
        };
        while k < m
            invariant
                1 <= k <= m,
                m == among@.len(),
                among@ == seq.to_set(),
                m == seq.len(),
                seq == among.order(),
                seq.no_duplicates(),
                self.order().no_duplicates(),
                forall|j: int| 0 <= j < m ==> self.tracks(#[trigger] seq[j]),
                exists|j: int| 0 <= j < k && seq[j] == lowest,
                self.tracks(lowest),
                lowest_pos == self.position(lowest),
                lowest_pos < self.order().len(),
                self.order()[lowest_pos as int] == lowest,
                forall|j: int|
                    0 <= j < k && (#[trigger] seq[j]) != lowest ==> self.beats(seq[j], lowest),
            decreases m - k,
        {
            let id = among.get(k);
            match self.find(id) {
                Some(p) => {
                    if self.outranks(lowest_pos, p) {
                        proof {
                            assert(seq[k as int] == id);
                        }
                        lowest = id;
                        lowest_pos = p;
                    } else {
                        proof {
                            assert(id != lowest);
                            lemma_index_of_unique(self.order(), p as int);
                            lemma_index_of_unique(self.order(), lowest_pos as int);
                        }
                    }
                },
                None => {
                    proof {
                        assert(self.tracks(seq[k as int]));
                        assert(false);
                    }
                },
            }
            k += 1;
        }
        proof {
            assert(self.is_least(lowest, seq));
            let picked = choose|v: SegmentId| self.is_least(v, seq);
            self.lemma_least_unique(lowest, picked, seq);
        }
        Some(lowest)
    }
}

impl Clone for ScoreTable {
    fn clone(&self) -> (copy: ScoreTable)
        ensures
            copy.order() == self.order(),
            copy.scores() == self.scores(),
    {
        proof {
            use_type_invariant(self);
        }
        let mut ids: Vec<SegmentId> = Vec::new();
        let mut scores: Vec<u64> = Vec::new();
        let mut places: HashMap<u128, usize> = HashMap::new();
        let mut i: usize = 0;
        while i < self.ids.len()
            invariant
                i <= self.ids.len(),
                self.ids@.len() == self.scores@.len(),
                self.ids@.no_duplicates(),
                ids@ == self.ids@.take(i as int),
                scores@ == self.scores@.take(i as int),
                forall|j: int|
                    0 <= j < i ==> places@.contains_key((#[trigger] self.ids@[j]).spec_key())
                        && places@[self.ids@[j].spec_key()] == j,
                forall|k: u128| #[trigger]
                    places@.contains_key(k) ==> places@[k] < i && self.ids@[places@[k] as int].spec_key()
                        == k,
            decreases self.ids.len() - i,
        {
            let id = self.ids[i];
            let ghost before = places@;
            places.insert(id.key(), i);
            ids.push(id);
            scores.push(self.scores[i]);
            proof {
                assert forall|j: int| 0 <= j < i + 1 implies places@.contains_key(
                    (#[trigger] self.ids@[j]).spec_key(),
                ) && places@[self.ids@[j].spec_key()] == j by {
                    if j < i && self.ids@[j].spec_key() == id.spec_key() {
                        SegmentId::lemma_key_injective(self.ids@[j], id);
                    }
                }
                assert forall|k: u128| #[trigger] places@.contains_key(k) implies places@[k] < i + 1
                    && self.ids@[places@[k] as int].spec_key() == k by {
                    if k != id.spec_key() {
                        assert(before.contains_key(k));
                    }
                }
            }
            i += 1;
        }
        assert(ids@ =~= self.ids@);
        assert(scores@ =~= self.scores@);
        ScoreTable { ids, scores, places }
    }
}

} // verus!
