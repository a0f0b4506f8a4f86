//! Pinning and unpinning registered segments, and the reconciliation pass that
//! brings the pinned set to what the policy wants.
use vstd::prelude::*;
use crate::data_structures::cache::{lemma_slots_insert, ZeroCopyCache};
use crate::data_structures::error::ZccError;
use crate::data_structures::policy::CacheBuilder;
use crate::data_structures::segment_id::{SegmentId, SegmentSet};
use crate::data_structures::slab::{DatapathSlab, SegmentSlot, UnpinStatus};

verus! {

broadcast use vstd::std_specs::hash::group_hash_axioms;

/// How a reconciliation pass ended.
#[derive(Clone, Copy, Debug, PartialEq, Eq, Structural)]
pub enum ReconcileOutcome {
    /// The pinned set is the set the policy wants.
    Converged,
    /// Something is left for a later pass: a segment that has to go still has
    /// I/O in flight, or the memory pool refused a request.
    Pending,
}

/// What a reconciliation pass does to one slot. `held` says whether the segment
/// was held as pinned before the pass, `wanted` whether the policy wants it
/// pinned.
///
/// A segment that stays takes new I/O again; one that has to go takes an unpin
/// step; one that has to come takes a pin step, if the budget allowed; any
/// other is left alone. The in-flight count never changes.
pub open spec fn slot_reconciled<Slab: DatapathSlab>(
    before: SegmentSlot<Slab>,
    after: SegmentSlot<Slab>,
    held: bool,
    wanted: bool,
    private_info: Slab::PrivateInfo,
) -> bool {
    if held && wanted {
        after.segment == before.segment && after.in_flight == before.in_flight && !after.quiescing
    } else if held {
        after.unpinned_from(&before)
    } else if wanted {
        after == before || after.pinned_from(&before, private_info)
    } else {
        after == before
    }
}

impl<Slab: DatapathSlab, CB: CacheBuilder> ZeroCopyCache<Slab, CB> {
    /// Whether this cache is `pre` after a reconciliation pass that ended with
    /// `outcome`.
    ///
    /// Segments that are held and wanted stay held. A held segment that is not
    /// wanted stays held exactly if it is still pinned after its unpin step.
    /// A wanted segment that was not held is taken in exactly if its pin step
    /// left it pinned; one that is not taken in was either left alone or asked
    /// of the memory pool and refused, and if the pass ends below the limit,
    /// every registered one was asked.
    pub open spec fn reconciled_from(
        &self,
        pre: &Self,
        private_info: Slab::PrivateInfo,
        outcome: ReconcileOutcome,
    ) -> bool {
        let held = pre.pinned();
        let wanted = pre.policy().desired();
        let now = self.pinned();
        &&& self.same_setup(pre)
        &&& self.policy().limit() == pre.policy().limit()
        &&& self.policy().remembers(&pre.policy())
        &&& self.slots().dom() == pre.slots().dom()
        &&& forall|id: SegmentId| #[trigger]
            self.slots().contains_key(id) ==> slot_reconciled(
                pre.slots()[id],
                self.slots()[id],
                held.contains(id),
                wanted.contains(id),
                private_info,
            )
        &&& forall|id: SegmentId| #[trigger] now.contains(id) ==> held.contains(id) || wanted.contains(id)
        &&& forall|id: SegmentId|
            held.contains(id) ==> (#[trigger] now.contains(id) <==> wanted.contains(id)
                || self.slots()[id].segment.pinned())
        &&& forall|id: SegmentId|
            #![trigger now.contains(id)]
            wanted.contains(id) && !held.contains(id) && pre.slots().contains_key(id) ==> (if now.contains(
                id,
            ) {
                self.slots()[id].pinned_from(&pre.slots()[id], private_info)
                    && self.slots()[id].segment.pinned()
            } else {
                self.slots()[id] == pre.slots()[id] || (self.slots()[id].pinned_from(
                    &pre.slots()[id],
                    private_info,
                ) && !self.slots()[id].segment.pinned())
            })
        &&& forall|id: SegmentId|
            #![trigger now.contains(id)]
            wanted.contains(id) && !held.contains(id) && pre.slots().contains_key(id)
                && !now.contains(id) && now.len() < self.policy().limit()
                ==> self.slots()[id].pinned_from(&pre.slots()[id], private_info)
                && !self.slots()[id].segment.pinned()
        &&& outcome == ReconcileOutcome::Converged <==> now == wanted
        &&& now == wanted ==> self.policy().desired() == wanted
    }

    /// Puts `slot` back under the key it was taken from.
    pub(crate) fn store_slot(&mut self, id: SegmentId, slot: SegmentSlot<Slab>)
        requires
            old(self).keyed(),
            slot.segment.id() == id,
        ensures
            final(self).keyed(),
            final(self).slots() == old(self).slots().insert(id, slot),
            final(self).same_setup(old(self)),
            final(self).policy() == old(self).policy(),
    {
        let ghost before = self.segments@;
        self.segments.insert(id.key(), slot);
        proof {
            lemma_slots_insert(before, id, slot);
        }
    }

    /// Pins segment `id` unless it is pinned already, and returns its I/O info.
    ///
    /// Fails with `SegmentNotFound` exactly when the segment is not registered,
    /// and with `PinFailed` exactly when it is registered and not pinned
    /// afterwards.
    pub(crate) fn pin_segment(&mut self, id: &SegmentId, priv_info: &Slab::PrivateInfo) -> (pinned:
        Result<Slab::IOInfo, ZccError>)
        requires
            old(self).registry_ok(),
        ensures
            final(self).registry_ok(),
            final(self).same_setup(old(self)),
            final(self).policy() == old(self).policy(),
            final(self).only_slot_changed(old(self), *id),
            !old(self).slots().contains_key(*id) ==> pinned == Err::<Slab::IOInfo, ZccError>(
                ZccError::SegmentNotFound,
            ),
            old(self).slots().contains_key(*id) ==> {
                &&& final(self).slots()[*id].pinned_from(&old(self).slots()[*id], *priv_info)
                &&& pinned is Ok <==> final(self).slots()[*id].segment.pinned()
                &&& pinned matches Ok(info) ==> info == Slab::io_info(
                    final(self).slots()[*id].segment.state(),
                )
                &&& pinned matches Err(e) ==> e == ZccError::PinFailed
            },
    {
        let key = id.key();
        match self.segments.remove(&key) {
            Some(slot) => {
                let mut slot = slot;
                assert(old(self).slots().contains_key(*id));
                assert(slot == old(self).slots()[*id]);
                let pinned = slot.pin(priv_info);
                self.segments.insert(key, slot);
                proof {
                    assert(self.segments@ =~= old(self).segments@.insert(key, slot));
                    lemma_slots_insert(old(self).segments@, *id, slot);
                    assert(self.slots().dom() =~= old(self).slots().dom());
                    self.lemma_registry_kept(old(self));
                }
                pinned
            },
            None => {
                proof {
                    assert(self.segments@ =~= old(self).segments@);
                    self.lemma_registry_kept(old(self));
                }
                Err(ZccError::SegmentNotFound)
            },
        }
    }

    /// One step of unpinning segment `id`: if I/O is still in flight on it, the
    /// segment is marked quiescing and stays pinned; else the memory pool is
    /// asked to release it.
    pub(crate) fn unpin_segment(&mut self, id: &SegmentId) -> (status: UnpinStatus)
        requires
            old(self).registry_ok(),
        ensures
            final(self).registry_ok(),
            final(self).same_setup(old(self)),
            final(self).policy() == old(self).policy(),
            final(self).only_slot_changed(old(self), *id),
            !old(self).slots().contains_key(*id) ==> status == UnpinStatus::NotFound,
            old(self).slots().contains_key(*id) ==> {
                &&& final(self).slots()[*id].unpinned_from(&old(self).slots()[*id])
                &&& status == final(self).slots()[*id].unpin_status(&old(self).slots()[*id])
            },
    {
        let key = id.key();
        match self.segments.remove(&key) {
            Some(slot) => {
                let mut slot = slot;
                assert(old(self).slots().contains_key(*id));
                assert(slot == old(self).slots()[*id]);
                let status = slot.unpin();
                self.segments.insert(key, slot);
                proof {
                    assert(self.segments@ =~= old(self).segments@.insert(key, slot));
                    lemma_slots_insert(old(self).segments@, *id, slot);
                    assert(self.slots().dom() =~= old(self).slots().dom());
                    self.lemma_registry_kept(old(self));
                }
                status
            },
            None => {
                proof {
                    assert(self.segments@ =~= old(self).segments@);
                    self.lemma_registry_kept(old(self));
                }
                UnpinStatus::NotFound
            },
        }
    }

    /// Calls off a pending unpin of segment `id`: the segment takes new I/O
    /// again.
    pub(crate) fn resume_segment(&mut self, id: &SegmentId)
        requires
            old(self).registry_ok(),
        ensures
            final(self).registry_ok(),
            final(self).same_setup(old(self)),
            final(self).policy() == old(self).policy(),
            final(self).only_slot_changed(old(self), *id),
            old(self).slots().contains_key(*id) ==> {
                &&& final(self).slots()[*id].segment == old(self).slots()[*id].segment
                &&& final(self).slots()[*id].in_flight == old(self).slots()[*id].in_flight
                &&& !final(self).slots()[*id].quiescing
            },
    {
        let key = id.key();
        match self.segments.remove(&key) {
            Some(slot) => {
                let mut slot = slot;
                assert(old(self).slots().contains_key(*id));
                assert(slot == old(self).slots()[*id]);
                slot.quiescing = false;
                self.segments.insert(key, slot);
                proof {
                    assert(self.segments@ =~= old(self).segments@.insert(key, slot));
                    lemma_slots_insert(old(self).segments@, *id, slot);
                    assert(self.slots().dom() =~= old(self).slots().dom());
                    self.lemma_registry_kept(old(self));
                }
            },
            None => {
                proof {
                    assert(self.segments@ =~= old(self).segments@);
                    self.lemma_registry_kept(old(self));
                }
            },
        }
    }

    /// The number of segments that fit in the budget.
    pub(crate) fn segment_budget(&self) -> (limit: usize)
        requires
            self.config_ok(),
        ensures
            limit == self.policy().limit(),
    {
        if self.segment_size == 0 {
            0
        } else {
            self.pinning_limit / self.segment_size
        }
    }

    /// One reconciliation pass: asks the policy what it wants pinned, unpins
    /// what has to go, pins what has to come as far as the budget allows, and
    /// hands the policy the set that is pinned now.
    ///
    /// A segment that has to go while I/O is in flight on it is only marked
    /// quiescing; it stays pinned and held, and a later pass unpins it once it
    /// has drained. A request the memory pool refuses does not stop the pass.
    pub fn update_pinned_list(&mut self, priv_info: &Slab::PrivateInfo) -> (done: Result<
        ReconcileOutcome,
        ZccError,
    >)
        requires
            old(self).well_formed(),
        ensures
            final(self).well_formed(),
            done matches Ok(outcome) && final(self).reconciled_from(old(self), *priv_info, outcome),
    {
        let desired = self.cache_builder.return_top_segments_to_pin();
        let current = self.cache_builder.current_pinned_segments().clone();
        let limit = self.segment_budget();
        let ghost pre = *self;
        let ghost held = pre.pinned();
        let ghost wanted = pre.policy().desired();
        let ghost cur = current.order();
        let ghost want = desired.order();
        proof {
            self.cache_builder.lemma_within_limit();
            current.lemma_view_of_order();
            desired.lemma_view_of_order();
        }
        let mut committed = SegmentSet::new();
        let mut settled = true;
        let ghost mut culprit = SegmentId { slab_id: 0, index: 0 };
        let ghost mut missing = SegmentId { slab_id: 0, index: 0 };
        let n = current.len();
        let mut i: usize = 0;
        let ghost mut seen = Set::<SegmentId>::empty();
        while i < n
            invariant
                i <= n,
                n == cur.len(),
                n <= limit,
                cur == current.order(),
                cur.no_duplicates(),
                held == cur.to_set(),
                held == pre.pinned(),
                wanted == desired@,
                pre.well_formed(),
                self.registry_ok(),
                self.same_setup(&pre),
                self.policy() == pre.policy(),
                self.slots().dom() == pre.slots().dom(),
                forall|k: int| 0 <= k < i ==> seen.contains(#[trigger] cur[k]),
                forall|k: int| i <= k < n ==> !seen.contains(#[trigger] cur[k]),
                forall|id: SegmentId| #[trigger] seen.contains(id) ==> held.contains(id),
                forall|id: SegmentId| #[trigger]
                    self.slots().contains_key(id) ==> (if seen.contains(id) {
                        slot_reconciled(
                            pre.slots()[id],
                            self.slots()[id],
                            true,
                            wanted.contains(id),
                            *priv_info,
                        )
                    } else {
                        self.slots()[id] == pre.slots()[id]
                    }),
                forall|id: SegmentId| #[trigger] committed@.contains(id) ==> seen.contains(id),
                forall|id: SegmentId|
                    seen.contains(id) ==> (#[trigger] committed@.contains(id) <==> wanted.contains(id)
                        || self.slots()[id].segment.pinned()),
                settled ==> forall|id: SegmentId| #[trigger]
                    committed@.contains(id) ==> wanted.contains(id),
                !settled ==> committed@.contains(culprit) && !wanted.contains(culprit),
                committed@.finite(),
                committed@.len() <= i,
            decreases n - i,
        {
            let id = current.get(i);
            let ghost before = *self;
            assert(held.contains(id));
            assert(pre.slots().contains_key(id) && pre.slots()[id].segment.pinned());
            assert(!seen.contains(cur[i as int]));
            if desired.contains(id) {
                self.resume_segment(&id);
                committed.insert(id);
            } else {
                let status = self.unpin_segment(&id);
                match status {
                    UnpinStatus::Draining | UnpinStatus::StillPinned => {
                        committed.insert(id);
                        settled = false;
                        proof {
                            culprit = id;
                        }
                    },
                    _ => {},
                }
            }
            proof {
                seen = seen.insert(id);
                assert forall|k: int| i + 1 <= k < n implies !seen.contains(#[trigger] cur[k]) by {
                    assert(cur[k] != cur[i as int]);
                }
                assert forall|x: SegmentId| #[trigger] self.slots().contains_key(x) implies (if seen.contains(
                    x,
                ) {
                    slot_reconciled(
                        pre.slots()[x],
                        self.slots()[x],
                        true,
                        wanted.contains(x),
                        *priv_info,
                    )
                } else {
                    self.slots()[x] == pre.slots()[x]
                }) by {
                    assert(before.slots().contains_key(x));
                }
                assert forall|x: SegmentId| seen.contains(x) implies (#[trigger] committed@.contains(x)
                    <==> wanted.contains(x) || self.slots()[x].segment.pinned()) by {
                    if x != id {
                        assert(before.slots().contains_key(x));
                    }
                }
            }
            i += 1;
        }
        proof {
            assert(seen =~= held) by {
                assert forall|x: SegmentId| held.contains(x) implies seen.contains(x) by {
                    let k = cur.index_of(x);
                    assert(cur[k] == x);
                }
            }
        }
        let m = desired.len();
        let mut j: usize = 0;
        let ghost mut tried = Set::<SegmentId>::empty();
        let mut all_in = true;
        while j < m
            invariant
                j <= m,
                m == want.len(),
                want == desired.order(),
                wanted == want.to_set(),
                wanted == desired@,
                held == current@,
                held == pre.pinned(),
                limit == pre.policy().limit(),
                pre.well_formed(),
                self.registry_ok(),
                self.same_setup(&pre),
                self.policy() == pre.policy(),
                self.slots().dom() == pre.slots().dom(),
                want.no_duplicates(),
                forall|k: int| 0 <= k < j ==> tried.contains(#[trigger] want[k]),
                forall|k: int| j <= k < m ==> !tried.contains(#[trigger] want[k]),
                forall|id: SegmentId| #[trigger] tried.contains(id) ==> wanted.contains(id),
                forall|id: SegmentId| #[trigger]
                    self.slots().contains_key(id) ==> (if held.contains(id) {
                        slot_reconciled(
                            pre.slots()[id],
                            self.slots()[id],
                            true,
                            wanted.contains(id),
                            *priv_info,
                        )
                    } else if tried.contains(id) {
                        if committed@.contains(id) {
                            self.slots()[id].pinned_from(&pre.slots()[id], *priv_info)
                                && self.slots()[id].segment.pinned()
                        } else {
                            self.slots()[id] == pre.slots()[id] || (self.slots()[id].pinned_from(
                                &pre.slots()[id],
                                *priv_info,
                            ) && !self.slots()[id].segment.pinned())
                        }
                    } else {
                        self.slots()[id] == pre.slots()[id]
                    }),
                forall|id: SegmentId| #[trigger]
                    committed@.contains(id) ==> held.contains(id) || (tried.contains(id)
                        && self.slots().contains_key(id) && self.slots()[id].segment.pinned()),
                forall|id: SegmentId|
                    held.contains(id) ==> (#[trigger] committed@.contains(id) <==> wanted.contains(id)
                        || self.slots()[id].segment.pinned()),
                forall|id: SegmentId|
                    #![trigger committed@.contains(id)]
                    tried.contains(id) && !held.contains(id) && pre.slots().contains_key(id)
                        && !committed@.contains(id) && committed@.len() < limit
                        ==> self.slots()[id].pinned_from(&pre.slots()[id], *priv_info)
                        && !self.slots()[id].segment.pinned(),
                settled ==> forall|id: SegmentId| #[trigger]
                    committed@.contains(id) ==> wanted.contains(id),
                !settled ==> committed@.contains(culprit) && !wanted.contains(culprit),
                all_in ==> forall|id: SegmentId| #[trigger]
                    tried.contains(id) && !held.contains(id) ==> committed@.contains(id),
                !all_in ==> tried.contains(missing) && !held.contains(missing)
                    && !committed@.contains(missing),
                committed@.finite(),
                committed@.len() <= limit,
            decreases m - j,
        {
            let id = desired.get(j);
            let ghost before = *self;
            let ghost had = committed@;
            let ghost tried_before = tried;
            assert(!tried.contains(want[j as int]));
            assert(wanted.contains(id));
            if !current.contains(id) {
                if committed.len() < limit {
                    match self.pin_segment(&id, priv_info) {
                        Ok(_) => {
                            committed.insert(id);
                        },
                        Err(_) => {
                            all_in = false;
                            proof {
                                missing = id;
                            }
                        },
                    }
                } else {
                    all_in = false;
                    proof {
                        missing = id;
                    }
                }
            }
            proof {
                tried = tried.insert(id);
                assert forall|k: int| j + 1 <= k < m implies !tried.contains(#[trigger] want[k]) by {
                    assert(want[k] != want[j as int]);
                }
                if !all_in && missing == id {
                    assert(!had.contains(id)) by {
                        if had.contains(id) {
                            assert(tried_before.contains(id));
                        }
                    }
                }
                assert forall|x: SegmentId| #[trigger] self.slots().contains_key(x) implies (if held.contains(
                    x,
                ) {
                    slot_reconciled(
                        pre.slots()[x],
                        self.slots()[x],
                        true,
                        wanted.contains(x),
                        *priv_info,
                    )
                } else if tried.contains(x) {
                    if committed@.contains(x) {
                        self.slots()[x].pinned_from(&pre.slots()[x], *priv_info)
                            && self.slots()[x].segment.pinned()
                    } else {
                        self.slots()[x] == pre.slots()[x] || (self.slots()[x].pinned_from(
                            &pre.slots()[x],
                            *priv_info,
                        ) && !self.slots()[x].segment.pinned())
                    }
                } else {
                    self.slots()[x] == pre.slots()[x]
                }) by {
                    assert(before.slots().contains_key(x));
                    if x != id && tried.contains(x) && !held.contains(x) {
                        assert(tried_before.contains(x));
                        assert(had.contains(x) == committed@.contains(x));
                    }
                }
                assert forall|x: SegmentId| #[trigger] committed@.contains(x) implies held.contains(x) || (
                tried.contains(x) && self.slots().contains_key(x) && self.slots()[x].segment.pinned()) by {
                    if x != id {
                        assert(had.contains(x));
                        if !held.contains(x) {
                            assert(before.slots().contains_key(x));
                        }
                    }
                }
                assert forall|x: SegmentId| held.contains(x) implies (#[trigger] committed@.contains(x)
                    <==> wanted.contains(x) || self.slots()[x].segment.pinned()) by {
                    assert(had.contains(x) <==> wanted.contains(x)
                        || before.slots()[x].segment.pinned());
                    assert(pre.slots().contains_key(x));
                    assert(before.slots().contains_key(x));
                    if x == id {
                        assert(current@.contains(id));
                    }
                }
                assert forall|x: SegmentId|
                    #![trigger committed@.contains(x)]
                    tried.contains(x) && !held.contains(x) && pre.slots().contains_key(x)
                        && !committed@.contains(x) && committed@.len()
                        < limit implies self.slots()[x].pinned_from(&pre.slots()[x], *priv_info)
                    && !self.slots()[x].segment.pinned() by {
                    assert(before.slots().contains_key(x));
                    if x != id {
                        assert(!had.contains(x));
                    }
                }
            }
            j += 1;
        }
        proof {
            assert(tried =~= wanted) by {
                assert forall|x: SegmentId| wanted.contains(x) implies tried.contains(x) by {
                    let k = want.index_of(x);
                    assert(want[k] == x);
                }
            }
        }
        let ghost before_commit = *self;
        let ghost now = committed@;
        self.cache_builder.set_current_pinned_list(committed);
        let outcome = if settled && all_in {
            ReconcileOutcome::Converged
        } else {
            ReconcileOutcome::Pending
        };
        proof {
            self.lemma_registry_kept(&before_commit);
            assert(self.slots() == before_commit.slots());
            assert(settled && all_in <==> now =~= wanted) by {
                if settled && all_in {
                    assert forall|x: SegmentId| wanted.contains(x) implies now.contains(x) by {
                        if held.contains(x) {
                        } else {
                            assert(tried.contains(x));
                        }
                    }
                }
                if now =~= wanted {
                    if !all_in {
                        assert(wanted.contains(missing));
                    }
                }
            }
            assert(self.accounting_ok()) by {
                assert forall|id: SegmentId| #[trigger]
                    self.slots().contains_key(id)
                        && self.slots()[id].segment.pinned() implies self.pinned().contains(id) by {
                    assert(before_commit.slots().contains_key(id));
                    assert(pre.slots().contains_key(id));
                }
                assert forall|id: SegmentId| #[trigger]
                    self.slots().contains_key(id)
                        && self.slots()[id].quiescing implies self.pinned().contains(id) by {
                    assert(before_commit.slots().contains_key(id));
                    assert(pre.slots().contains_key(id));
                    if !held.contains(id) {
                        assert(pre.slots()[id].quiescing);
                    }
                }
                if self.on_demand() {
                    assert forall|id: SegmentId| #[trigger]
                        self.slots().contains_key(id) implies self.slots()[id].in_flight == 0
                        && !self.slots()[id].quiescing by {
                        assert(before_commit.slots().contains_key(id));
                        assert(pre.slots().contains_key(id));
                    }
                }
            }
            assert(self.same_setup(&pre)) by {
                assert forall|size: crate::pagesizes::PageSize|
                    #![trigger self.index(size)]
                    self.index(size) == pre.index(size) by {
                    assert(before_commit.index(size) == pre.index(size));
                }
            }
            assert forall|id: SegmentId| #[trigger] self.slots().contains_key(id) implies slot_reconciled(
                pre.slots()[id],
                self.slots()[id],
                held.contains(id),
                wanted.contains(id),
                *priv_info,
            ) by {
                assert(before_commit.slots().contains_key(id));
            }
        }
        Ok(outcome)
    }

    /// One wake-up of the periodic reconciler: a reconciliation pass, after
    /// which the caller sleeps for the configured time.
    ///
    /// Fails with `InvalidConfig`, and changes nothing, exactly when the cache
    /// pins on demand.
    pub fn pin_and_unpin_thread(&mut self, priv_info: &Slab::PrivateInfo) -> (done: Result<
        ReconcileOutcome,
        ZccError,
    >)
        requires
            old(self).well_formed(),
        ensures
            final(self).well_formed(),
            old(self).on_demand() ==> done == Err::<ReconcileOutcome, ZccError>(
                ZccError::InvalidConfig,
            ) && *final(self) == *old(self),
            !old(self).on_demand() ==> (done matches Ok(outcome) && final(self).reconciled_from(
                old(self),
                *priv_info,
                outcome,
            )),
    {
        if self.pin_on_demand {
            return Err(ZccError::InvalidConfig);
        }
        self.update_pinned_list(priv_info)
    }
}

} // verus!
