//! The fast path: what happens on each I/O and on each completion.
use vstd::prelude::*;
use crate::data_structures::cache::{buffer_address, lemma_slots_insert, ZeroCopyCache};
use crate::data_structures::error::ZccError;
use crate::data_structures::policy::{admitted, CacheBuilder};
use crate::data_structures::segment_id::SegmentId;
use crate::data_structures::slab::{DatapathSlab, SegmentSlot, UnpinStatus};
use crate::pagesizes::PageSize;

verus! {

broadcast use vstd::std_specs::hash::group_hash_axioms;

/// Whether a slot can take one more I/O: the segment is pinned, no unpin is
/// waiting on it, and the in-flight count has room.
pub open spec fn grants_io<Slab: DatapathSlab>(slot: SegmentSlot<Slab>) -> bool {
    slot.segment.pinned() && !slot.quiescing && slot.in_flight < u64::MAX
}

/// The slot with one more I/O in flight.
pub open spec fn with_one_more<Slab: DatapathSlab>(slot: SegmentSlot<Slab>) -> SegmentSlot<Slab> {
    SegmentSlot {
        segment: slot.segment,
        in_flight: (slot.in_flight + 1) as u64,
        quiescing: slot.quiescing,
    }
}

/// The slot with one I/O fewer in flight; a count of zero stays zero.
pub open spec fn with_one_less<Slab: DatapathSlab>(slot: SegmentSlot<Slab>) -> SegmentSlot<Slab> {
    SegmentSlot {
        segment: slot.segment,
        in_flight: if slot.in_flight > 0 {
            (slot.in_flight - 1) as u64
        } else {
            0
        },
        quiescing: slot.quiescing,
    }
}

impl<Slab: DatapathSlab, CB: CacheBuilder> ZeroCopyCache<Slab, CB> {
    /// Whether this cache is `pre` after a lookup of an address that belongs to
    /// no registered segment: only a miss was counted.
    pub open spec fn missed_from(&self, pre: &Self) -> bool {
        &&& self.same_layout(pre)
        &&& self.policy() == pre.policy()
        &&& self.slots() == pre.slots()
        &&& self.counters().counted(pre.counters(), false)
    }

    /// Whether this cache is `pre` after a lookup of segment `id` in periodic
    /// mode that returned `reply`.
    ///
    /// The policy saw a touch of `id`. If the slot could take one more I/O, its
    /// in-flight count went up by one, the reply is the segment's pool and I/O
    /// info, and a hit was counted. Else nothing changed in the registry, the
    /// reply is empty and a miss was counted.
    pub open spec fn looked_up_from(
        &self,
        pre: &Self,
        id: SegmentId,
        reply: Option<(u64, Slab::IOInfo)>,
    ) -> bool {
        let slot = pre.slots()[id];
        &&& self.same_layout(pre)
        &&& self.policy().touched(&pre.policy(), id)
        &&& self.pinned() == pre.pinned()
        &&& self.counters().counted(pre.counters(), grants_io(slot))
        &&& if grants_io(slot) {
            &&& self.slots() == pre.slots().insert(id, with_one_more(slot))
            &&& reply == Some((id.slab_id, Slab::io_info(slot.segment.state())))
        } else {
            &&& self.slots() == pre.slots()
            &&& reply is None
        }
    }

    /// Whether this cache is `pre` after a lookup of segment `id` in on-demand
    /// mode that returned `reply`, where `mid` is the policy after it saw the
    /// touch of `id`.
    ///
    /// The policy admits `id`, which may cost another segment its place. That
    /// segment is unpinned first; if the memory pool does not release it, the
    /// lookup fails with `UnpinFailed` and the pinned set is as before. Then
    /// `id` is pinned unless it is already; if it is not pinned afterwards the
    /// lookup fails with `PinFailed` and `id` is not held as pinned. Else the
    /// reply is the segment's pool and I/O info. A hit is counted for a reply,
    /// a miss for a failure.
    pub open spec fn admitted_from(
        &self,
        pre: &Self,
        mid: CB,
        id: SegmentId,
        private_info: Slab::PrivateInfo,
        reply: Result<Option<(u64, Slab::IOInfo)>, ZccError>,
    ) -> bool {
        &&& self.settled_from(pre, mid, id, private_info, reply)
        &&& self.counters().counted(pre.counters(), reply is Ok)
    }

    /// What `admitted_from` says of the policy and the registry. The touch
    /// leaves the policy in order, with its limit and its pinned set, so a
    /// segment has to give way exactly when `id` is not held and the pinned set
    /// is full.
    pub open spec fn settled_from(
        &self,
        pre: &Self,
        mid: CB,
        id: SegmentId,
        private_info: Slab::PrivateInfo,
        reply: Result<Option<(u64, Slab::IOInfo)>, ZccError>,
    ) -> bool {
        let evicted = mid.victim(id);
        let target = admitted(pre.pinned(), pre.policy().limit(), id, evicted);
        let released = evicted matches Some(e) ==> !self.slots()[e].segment.pinned();
        &&& mid.well_formed()
        &&& mid.limit() == pre.policy().limit()
        &&& mid.pinned() == pre.pinned()
        &&& self.same_layout(pre)
        &&& self.policy().limit() == pre.policy().limit()
        &&& self.policy().remembers(&mid)
        &&& self.slots().dom() == pre.slots().dom()
        &&& forall|other: SegmentId|
            other != id && Some(other) != evicted && #[trigger] self.slots().contains_key(other)
                ==> self.slots()[other] == pre.slots()[other]
        &&& evicted matches Some(e) ==> self.slots()[e].unpinned_from(&pre.slots()[e])
        &&& if released {
            self.slots()[id].pinned_from(&pre.slots()[id], private_info)
        } else {
            self.slots()[id] == pre.slots()[id]
        }
        &&& if !released {
            reply == Err::<Option<(u64, Slab::IOInfo)>, ZccError>(ZccError::UnpinFailed)
                && self.pinned() == pre.pinned()
        } else if !self.slots()[id].segment.pinned() {
            reply == Err::<Option<(u64, Slab::IOInfo)>, ZccError>(ZccError::PinFailed)
                && self.pinned() == target.remove(id)
        } else {
            reply == Ok::<Option<(u64, Slab::IOInfo)>, ZccError>(
                Some((id.slab_id, Slab::io_info(self.slots()[id].segment.state()))),
            ) && self.pinned() == target
        }
    }

    /// Whether this cache is `pre` after the completion of an I/O on the buffer
    /// at `addr`: the in-flight count of the buffer's segment went down by one,
    /// unless it was zero, and nothing else changed.
    pub open spec fn completed_from(&self, pre: &Self, addr: usize) -> bool {
        &&& self.same_setup(pre)
        &&& self.policy() == pre.policy()
        &&& match pre.resolve(addr) {
            Some(id) => self.slots() == pre.slots().insert(id, with_one_less(pre.slots()[id])),
            None => self.slots() == pre.slots(),
        }
    }

    /// A registered segment means a segment size above zero, and so a budget of
    /// at least one segment.
    pub proof fn lemma_registered_means_budget(&self, id: SegmentId)
        requires
            self.config_ok(),
            self.registry_ok(),
            self.slots().contains_key(id),
        ensures
            self.segment_bytes() > 0,
            self.policy().limit() >= 1,
    {
        let seg = self.slots()[id].segment;
        assert(seg.len_bytes() >= 1) by (nonlinear_arith)
            requires
                seg.len_bytes() == seg.pages() * seg.page().bytes(),
                seg.pages() >= 1,
                seg.page().bytes() >= 1,
        ;
        let ss = self.segment_bytes() as int;
        let pl = self.limit_bytes() as int;
        assert(pl / ss >= 1) by (nonlinear_arith)
            requires
                0 < ss <= pl,
        ;
    }

    /// An address the index resolves belongs to a registered segment.
    pub proof fn lemma_resolved_is_registered(&self, addr: usize)
        requires
            self.registry_ok(),
        ensures
            self.resolve(addr) matches Some(id) ==> self.slots().contains_key(id),
    {
        match self.resolve(addr) {
            Some(id) => {
                let p2 = crate::pagesizes::page_floor(addr as int, 0x20_0000) as usize;
                let p4 = crate::pagesizes::page_floor(addr as int, 0x1000) as usize;
                let p1 = crate::pagesizes::page_floor(addr as int, 0x4000_0000) as usize;
                if self.index(PageSize::PG2MB).contains_key(p2) {
                    assert(self.is_page_of(p2, PageSize::PG2MB, id));
                } else if self.index(PageSize::PG4KB).contains_key(p4) {
                    assert(self.is_page_of(p4, PageSize::PG4KB, id));
                } else {
                    assert(self.index(PageSize::PG1GB).contains_key(p1));
                    assert(self.is_page_of(p1, PageSize::PG1GB, id));
                }
            },
            None => {},
        }
    }

    /// Records that an I/O on `buf` has completed: what
    /// `record_io_completion_at` does for the address of the buffer's first
    /// byte.
    pub fn record_io_completion(&mut self, buf: &[u8])
        requires
            old(self).well_formed(),
        ensures
            final(self).well_formed(),
            exists|addr: usize| #[trigger] final(self).completed_from(old(self), addr),
    {
        let addr = buffer_address(buf);
        self.record_io_completion_at(addr);
        assert(self.completed_from(old(self), addr));
    }

    /// Records that an I/O on the buffer at `addr` has completed. Nothing
    /// happens for a buffer outside registered memory, and a count of zero stays
    /// zero.
    pub fn record_io_completion_at(&mut self, addr: usize)
        requires
            old(self).well_formed(),
        ensures
            final(self).well_formed(),
            final(self).completed_from(old(self), addr),
    {
        proof {
            self.lemma_resolved_is_registered(addr);
        }
        if let Some(id) = self.get_segment_id_at(addr) {
            let key = id.key();
            match self.segments.remove(&key) {
                Some(slot) => {
                    let mut slot = slot;
                    assert(slot == old(self).slots()[id]);
                    if slot.in_flight > 0 {
                        slot.in_flight = slot.in_flight - 1;
                    }
                    self.segments.insert(key, slot);
                    proof {
                        assert(self.segments@ =~= old(self).segments@.insert(key, slot));
                        lemma_slots_insert(old(self).segments@, id, slot);
                        assert(self.slots().dom() =~= old(self).slots().dom());
                        self.lemma_registry_kept(old(self));
                        assert(slot == with_one_less(old(self).slots()[id]));
                        assert(self.accounting_ok()) by {
                            assert forall|x: SegmentId| #[trigger]
                                self.pinned().contains(x) implies self.slots().contains_key(x)
                                && self.slots()[x].segment.pinned() by {
                                assert(old(self).pinned().contains(x));
                            }
                            assert forall|x: SegmentId| #[trigger]
                                self.slots().contains_key(x)
                                    && self.slots()[x].quiescing implies self.pinned().contains(x) by {
                                assert(old(self).slots().contains_key(x));
                            }
                            if self.on_demand() {
                                assert forall|x: SegmentId| #[trigger]
                                    self.slots().contains_key(x) implies self.slots()[x].in_flight
                                    == 0 && !self.slots()[x].quiescing by {
                                    assert(old(self).slots().contains_key(x));
                                }
                            }
                        }
                    }
                },
                None => {},
            }
        }
    }

    /// The on-demand branch of the fast path: tells the policy of the touch,
    /// lets it admit the segment, unpins the segment that lost its place and
    /// pins the one that was touched.
    pub(crate) fn record_and_pin_on_demand(
        &mut self,
        segment_id: SegmentId,
        priv_info: &Slab::PrivateInfo,
    ) -> (reply: Result<Option<(u64, Slab::IOInfo)>, ZccError>)
        requires
            old(self).well_formed(),
            old(self).on_demand(),
            old(self).slots().contains_key(segment_id),
        ensures
            final(self).config_ok(),
            final(self).registry_ok(),
            final(self).accounting_ok(),
            final(self).counters() == old(self).counters(),
            exists|mid: CB|
                #![trigger mid.touched(&old(self).policy(), segment_id)]
                {
                    &&& mid.touched(&old(self).policy(), segment_id)
                    &&& final(self).settled_from(old(self), mid, segment_id, *priv_info, reply)
                },
    {
        let ghost pre = *self;
        let restore = self.cache_builder.current_pinned_segments().clone();
        proof {
            self.lemma_registered_means_budget(segment_id);
            self.cache_builder.lemma_within_limit();
        }
        self.cache_builder.update_access(segment_id);
        let ghost mid = self.cache_builder;
        proof {
            mid.lemma_victim(segment_id);
            mid.lemma_within_limit();
        }
        let evicted = self.cache_builder.insert_and_evict(segment_id);
        let ghost target = admitted(pre.pinned(), pre.policy().limit(), segment_id, evicted);
        let ghost admitted_cache = *self;
        proof {
            self.lemma_registry_kept(&pre);
            self.cache_builder.lemma_within_limit();
        }
        if let Some(loser) = evicted {
            let status = self.unpin_segment(&loser);
            match status {
                UnpinStatus::Unpinned => {},
                _ => {
                    let ghost before_restore = *self;
                    self.cache_builder.set_current_pinned_list(restore);
                    proof {
                        self.lemma_registry_kept(&before_restore);
                        assert(self.slots() == before_restore.slots());
                        assert(self.same_layout(&pre)) by {
                            assert forall|size: PageSize|
                                #![trigger self.index(size)]
                                self.index(size) == pre.index(size) by {
                                assert(before_restore.index(size) == admitted_cache.index(size));
                            }
                        }
                        assert(self.accounting_ok()) by {
                            assert forall|x: SegmentId| #[trigger]
                                self.pinned().contains(x) implies self.slots().contains_key(x)
                                && self.slots()[x].segment.pinned() by {
                                assert(pre.pinned().contains(x));
                                assert(pre.slots().contains_key(x));
                                assert(admitted_cache.slots().contains_key(x));
                            }
                            assert forall|x: SegmentId| #[trigger]
                                self.slots().contains_key(x) implies self.slots()[x].in_flight == 0
                                && !self.slots()[x].quiescing by {
                                assert(pre.slots().contains_key(x));
                                assert(admitted_cache.slots().contains_key(x));
                            }
                        }
                        assert(self.settled_from(
                            &pre,
                            mid,
                            segment_id,
                            *priv_info,
                            Err(ZccError::UnpinFailed),
                        )) by {
                            self.policy().lemma_remembers_chain(&admitted_cache.policy(), &mid);
                            assert forall|other: SegmentId|
                                other != segment_id && Some(other) != evicted
                                    && #[trigger] self.slots().contains_key(
                                    other,
                                ) implies self.slots()[other] == pre.slots()[other] by {
                                assert(admitted_cache.slots().contains_key(other));
                            }
                            assert(pre.slots().contains_key(loser));
                        }
                    }
                    return Err(ZccError::UnpinFailed);
                },
            }
        }
        let ghost released_cache = *self;
        let pinned = self.pin_segment(&segment_id, priv_info);
        match pinned {
            Ok(info) => {
                let reply = Ok(Some((segment_id.slab_id, info)));
                proof {
                    assert(self.same_layout(&pre)) by {
                        assert forall|size: PageSize|
                            #![trigger self.index(size)]
                            self.index(size) == pre.index(size) by {
                            assert(released_cache.index(size) == admitted_cache.index(size));
                        }
                    }
                    assert(self.accounting_ok()) by {
                        assert forall|x: SegmentId| #[trigger]
                            self.pinned().contains(x) implies self.slots().contains_key(x)
                            && self.slots()[x].segment.pinned() by {
                            if x != segment_id {
                                assert(pre.pinned().contains(x));
                                assert(pre.slots().contains_key(x));
                                assert(admitted_cache.slots().contains_key(x));
                                assert(released_cache.slots().contains_key(x));
                            }
                        }
                        assert forall|x: SegmentId| #[trigger]
                            self.slots().contains_key(x) implies self.slots()[x].in_flight == 0
                            && !self.slots()[x].quiescing by {
                            assert(pre.slots().contains_key(x));
                            assert(admitted_cache.slots().contains_key(x));
                            assert(released_cache.slots().contains_key(x));
                        }
                    }
                    assert(self.settled_from(&pre, mid, segment_id, *priv_info, reply)) by {
                        assert forall|other: SegmentId|
                            other != segment_id && Some(other) != evicted
                                && #[trigger] self.slots().contains_key(
                                other,
                            ) implies self.slots()[other] == pre.slots()[other] by {
                            assert(admitted_cache.slots().contains_key(other));
                            assert(released_cache.slots().contains_key(other));
                        }
                        if let Some(e) = evicted {
                            assert(pre.slots().contains_key(e));
                            assert(released_cache.slots().contains_key(e));
                        }
                        assert(released_cache.slots().contains_key(segment_id));
                    }
                }
                reply
            },
            Err(_) => {
                let mut without = self.cache_builder.current_pinned_segments().clone();
                without.remove(segment_id);
                let ghost before_fix = *self;
                proof {
                    without.lemma_view_of_order();
                    vstd::set_lib::lemma_len_subset(without@, before_fix.pinned());
                }
                self.cache_builder.set_current_pinned_list(without);
                proof {
                    self.lemma_registry_kept(&before_fix);
                    assert(self.slots() == before_fix.slots());
                    assert(self.same_layout(&pre)) by {
                        assert forall|size: PageSize|
                            #![trigger self.index(size)]
                            self.index(size) == pre.index(size) by {
                            assert(before_fix.index(size) == released_cache.index(size));
                            assert(released_cache.index(size) == admitted_cache.index(size));
                        }
                    }
                    assert(self.accounting_ok()) by {
                        assert forall|x: SegmentId| #[trigger]
                            self.pinned().contains(x) implies self.slots().contains_key(x)
                            && self.slots()[x].segment.pinned() by {
                            assert(pre.pinned().contains(x));
                            assert(pre.slots().contains_key(x));
                            assert(admitted_cache.slots().contains_key(x));
                            assert(released_cache.slots().contains_key(x));
                        }
                        assert forall|x: SegmentId| #[trigger]
                            self.slots().contains_key(x) implies self.slots()[x].in_flight == 0
                            && !self.slots()[x].quiescing by {
                            assert(pre.slots().contains_key(x));
                            assert(admitted_cache.slots().contains_key(x));
                            assert(released_cache.slots().contains_key(x));
                        }
                    }
                    assert(self.settled_from(
                        &pre,
                        mid,
                        segment_id,
                        *priv_info,
                        Err(ZccError::PinFailed),
                    )) by {
                        self.policy().lemma_remembers_chain(&admitted_cache.policy(), &mid);
                        assert forall|other: SegmentId|
                            other != segment_id && Some(other) != evicted
                                && #[trigger] self.slots().contains_key(
                                other,
                            ) implies self.slots()[other] == pre.slots()[other] by {
                            assert(admitted_cache.slots().contains_key(other));
                            assert(released_cache.slots().contains_key(other));
                        }
                        if let Some(e) = evicted {
                            assert(pre.slots().contains_key(e));
                            assert(released_cache.slots().contains_key(e));
                        }
                        assert(released_cache.slots().contains_key(segment_id));
                    }
                }
                Err(ZccError::PinFailed)
            },
        }
    }

    /// Whether this cache is `pre` after a lookup of the buffer at `addr` that
    /// could not look at the buffer's segment because the segment was busy: the
    /// policy saw the touch, if the address resolved, and a miss was counted;
    /// the registry is as it was.
    pub open spec fn passed_over_from(&self, pre: &Self, addr: usize) -> bool {
        &&& self.same_layout(pre)
        &&& self.slots() == pre.slots()
        &&& self.pinned() == pre.pinned()
        &&& self.counters().counted(pre.counters(), false)
        &&& match pre.resolve(addr) {
            Some(id) => self.policy().touched(&pre.policy(), id),
            None => self.policy() == pre.policy(),
        }
    }

    /// Records a lookup of `buf` that found the buffer's segment busy: what
    /// `record_contended_access_at` does for the address of the buffer's first
    /// byte.
    pub fn record_contended_access(&mut self, buf: &[u8])
        requires
            old(self).well_formed(),
        ensures
            final(self).well_formed(),
            exists|addr: usize| #[trigger] final(self).passed_over_from(old(self), addr),
    {
        let addr = buffer_address(buf);
        self.record_contended_access_at(addr);
        assert(self.passed_over_from(old(self), addr));
    }

    /// Records a lookup of the buffer at `addr` whose caller could not wait for
    /// the buffer's segment and copies instead: the policy is told of the touch
    /// and a miss is counted, as for every lookup that returns nothing.
    pub fn record_contended_access_at(&mut self, addr: usize)
        requires
            old(self).well_formed(),
        ensures
            final(self).well_formed(),
            final(self).counters().hits() + final(self).counters().misses()
                == final(self).counters().lookups(),
            final(self).passed_over_from(old(self), addr),
    {
        let ghost pre = *self;
        match self.get_segment_id_at(addr) {
            Some(segment_id) => {
                self.cache_builder.update_access(segment_id);
            },
            None => {},
        }
        let ghost touched = *self;
        self.metrics.record_miss();
        proof {
            touched.lemma_registry_kept(&pre);
            self.lemma_counted_only(&touched);
            assert(self.same_layout(&pre)) by {
                assert forall|size: PageSize|
                    #![trigger self.index(size)]
                    self.index(size) == pre.index(size) by {
                    assert(touched.index(size) == pre.index(size));
                }
            }
            assert(self.accounting_ok()) by {
                assert forall|x: SegmentId| #[trigger]
                    self.pinned().contains(x) implies self.slots().contains_key(x)
                    && self.slots()[x].segment.pinned() by {
                    assert(pre.pinned().contains(x));
                }
                assert forall|x: SegmentId| #[trigger]
                    self.slots().contains_key(x)
                        && self.slots()[x].segment.pinned() implies self.pinned().contains(x) by {
                    assert(pre.slots().contains_key(x));
                }
                assert forall|x: SegmentId| #[trigger]
                    self.slots().contains_key(x)
                        && self.slots()[x].quiescing implies self.pinned().contains(x) by {
                    assert(pre.slots().contains_key(x));
                }
                if self.on_demand() {
                    assert forall|x: SegmentId| #[trigger]
                        self.slots().contains_key(x) implies self.slots()[x].in_flight == 0
                        && !self.slots()[x].quiescing by {
                        assert(pre.slots().contains_key(x));
                    }
                }
            }
        }
    }

    /// Whether this cache is `pre` after the fast path was taken for the buffer
    /// at `addr` and returned `reply`.
    pub open spec fn accessed_from(
        &self,
        pre: &Self,
        addr: usize,
        private_info: Slab::PrivateInfo,
        reply: Result<Option<(u64, Slab::IOInfo)>, ZccError>,
    ) -> bool {
        match pre.resolve(addr) {
            None => reply == Ok::<Option<(u64, Slab::IOInfo)>, ZccError>(None) && self.missed_from(
                pre,
            ),
            Some(id) => if pre.on_demand() {
                exists|mid: CB|
                    #![trigger mid.touched(&pre.policy(), id)]
                    {
                        &&& mid.touched(&pre.policy(), id)
                        &&& self.admitted_from(pre, mid, id, private_info, reply)
                    }
            } else {
                reply matches Ok(found) && self.looked_up_from(pre, id, found)
            },
        }
    }

    /// The fast path, called on each I/O with the I/O's buffer: what
    /// `record_access_at` does for the address of the buffer's first byte.
    pub fn record_access_and_get_io_info_if_pinned(
        &mut self,
        buf: &[u8],
        priv_info: Slab::PrivateInfo,
    ) -> (reply: Result<Option<(u64, Slab::IOInfo)>, ZccError>)
        requires
            old(self).well_formed(),
        ensures
            final(self).well_formed(),
            final(self).counters().hits() + final(self).counters().misses()
                == final(self).counters().lookups(),
            exists|addr: usize| #[trigger] final(self).accessed_from(old(self), addr, priv_info, reply),
    {
        let addr = buffer_address(buf);
        let reply = self.record_access_at(addr, priv_info);
        assert(self.accessed_from(old(self), addr, priv_info, reply));
        reply
    }

    /// The fast path, for the address of the I/O's buffer: records the access
    /// and returns the pool and the I/O info of the buffer's segment if the I/O
    /// can go to pinned memory.
    ///
    /// A buffer outside registered memory gets an empty reply. In periodic
    /// mode the reply is empty as well when the segment is not pinned, is
    /// quiescing, or has `u64::MAX` I/Os in flight; a reply with I/O info
    /// counts one more I/O in flight, to be taken back by
    /// `record_io_completion`. In on-demand mode the segment is pinned now if it
    /// is not, at the cost of another segment if the budget is used up, and the
    /// call fails if the memory pool refuses.
    ///
    /// Every call counts as one lookup: a hit if it returns I/O info, a miss
    /// otherwise.
    pub fn record_access_at(&mut self, addr: usize, priv_info: Slab::PrivateInfo) -> (reply: Result<
        Option<(u64, Slab::IOInfo)>,
        ZccError,
    >)
        requires
            old(self).well_formed(),
        ensures
            final(self).well_formed(),
            final(self).counters().hits() + final(self).counters().misses()
                == final(self).counters().lookups(),
            final(self).accessed_from(old(self), addr, priv_info, reply),
    {
        proof {
            self.lemma_resolved_is_registered(addr);
        }
        let ghost pre = *self;
        match self.get_segment_id_at(addr) {
            Some(segment_id) => {
                if self.pin_on_demand {
                    let reply = self.record_and_pin_on_demand(segment_id, &priv_info);
                    let ghost settled = *self;
                    match &reply {
                        Ok(_) => {
                            self.metrics.record_hit();
                        },
                        Err(_) => {
                            self.metrics.record_miss();
                        },
                    }
                    proof {
                        self.lemma_counted_only(&settled);
                        let mid = choose|mid: CB|
                            #![trigger mid.touched(&pre.policy(), segment_id)]
                            {
                                &&& mid.touched(&pre.policy(), segment_id)
                                &&& settled.settled_from(&pre, mid, segment_id, priv_info, reply)
                            };
                        assert(self.settled_from(&pre, mid, segment_id, priv_info, reply));
                        assert(self.admitted_from(&pre, mid, segment_id, priv_info, reply));
                    }
                    return reply;
                }
                self.cache_builder.update_access(segment_id);
                let ghost touched = *self;
                proof {
                    self.lemma_registry_kept(&pre);
                    assert(self.slots() == pre.slots());
                }
                let key = segment_id.key();
                match self.segments.remove(&key) {
                    Some(slot) => {
                        let mut slot = slot;
                        assert(slot == pre.slots()[segment_id]);
                        if slot.segment.is_pinned() && !slot.quiescing && slot.in_flight < u64::MAX {
                            slot.in_flight = slot.in_flight + 1;
                            let info = slot.segment.get_io_info();
                            self.segments.insert(key, slot);
                            let ghost stored = *self;
                            self.metrics.record_hit();
                            proof {
                                assert(stored.segments@ =~= touched.segments@.insert(key, slot));
                                lemma_slots_insert(touched.segments@, segment_id, slot);
                                assert(stored.slots().dom() =~= pre.slots().dom());
                                stored.lemma_registry_kept(&pre);
                                self.lemma_counted_only(&stored);
                                assert(slot == with_one_more(pre.slots()[segment_id]));
                                assert(self.accounting_ok()) by {
                                    assert forall|x: SegmentId| #[trigger]
                                        self.pinned().contains(x) implies self.slots().contains_key(
                                        x,
                                    ) && self.slots()[x].segment.pinned() by {
                                        assert(pre.pinned().contains(x));
                                    }
                                    assert forall|x: SegmentId| #[trigger]
                                        self.slots().contains_key(x)
                                            && self.slots()[x].quiescing implies self.pinned().contains(
                                        x,
                                    ) by {
                                        assert(pre.slots().contains_key(x));
                                    }
                                }
                            }
                            Ok(Some((segment_id.slab_id, info)))
                        } else {
                            self.segments.insert(key, slot);
                            let ghost stored = *self;
                            self.metrics.record_miss();
                            proof {
                                assert(stored.segments@ =~= pre.segments@);
                                assert(stored.slots() == pre.slots());
                                stored.lemma_registry_kept(&pre);
                                self.lemma_counted_only(&stored);
                                assert(self.accounting_ok()) by {
                                    assert forall|x: SegmentId| #[trigger]
                                        self.pinned().contains(x) implies self.slots().contains_key(
                                        x,
                                    ) && self.slots()[x].segment.pinned() by {
                                        assert(pre.pinned().contains(x));
                                    }
                                }
                            }
                            Ok(None)
                        }
                    },
                    None => {
                        self.metrics.record_miss();
                        Ok(None)
                    },
                }
            },
            None => {
                self.metrics.record_miss();
                proof {
                    self.lemma_counted_only(&pre);
                }
                Ok(None)
            },
        }
    }

    /// A cache that differs from `pre` in its counters only is in order if
    /// `pre` is.
    pub(crate) proof fn lemma_counted_only(&self, pre: &Self)
        requires
            self.pinning_limit == pre.pinning_limit,
            self.segment_size == pre.segment_size,
            self.pin_on_demand == pre.pin_on_demand,
            self.sleep_duration == pre.sleep_duration,
            self.priv_info == pre.priv_info,
            self.segments == pre.segments,
            self.cache_builder == pre.cache_builder,
            self.page_cache_2mb == pre.page_cache_2mb,
            self.page_cache_4kb == pre.page_cache_4kb,
            self.page_cache_1gb == pre.page_cache_1gb,
        ensures
            self.same_layout(pre),
            self.slots() == pre.slots(),
            self.policy() == pre.policy(),
            pre.config_ok() ==> self.config_ok(),
            pre.registry_ok() ==> self.registry_ok(),
            pre.accounting_ok() ==> self.accounting_ok(),
            forall|other: &Self| pre.same_layout(other) ==> self.same_layout(other),
    {
        assert forall|size: PageSize| #![trigger self.index(size)] self.index(size) == pre.index(
            size,
        ) by {}
        if pre.registry_ok() {
            self.lemma_registry_kept(pre);
        }
        if pre.accounting_ok() {
            assert forall|x: SegmentId| #[trigger]
                self.pinned().contains(x) implies self.slots().contains_key(x)
                && self.slots()[x].segment.pinned() by {
                assert(pre.pinned().contains(x));
            }
            assert forall|x: SegmentId| #[trigger]
                self.slots().contains_key(x)
                    && self.slots()[x].segment.pinned() implies self.pinned().contains(x) by {
                assert(pre.slots().contains_key(x));
            }
            assert forall|x: SegmentId| #[trigger]
                self.slots().contains_key(x) && self.slots()[x].quiescing implies self.pinned().contains(
                x,
            ) by {
                assert(pre.slots().contains_key(x));
            }
            if self.on_demand() {
                assert forall|x: SegmentId| #[trigger]
                    self.slots().contains_key(x) implies self.slots()[x].in_flight == 0
                    && !self.slots()[x].quiescing by {
                    assert(pre.slots().contains_key(x));
                }
            }
        }
        assert forall|other: &Self| pre.same_layout(other) implies self.same_layout(other) by {
            assert forall|size: PageSize|
                #![trigger self.index(size)]
                self.index(size) == other.index(size) by {
                assert(pre.index(size) == other.index(size));
            }
        }
    }
}

} // verus!
