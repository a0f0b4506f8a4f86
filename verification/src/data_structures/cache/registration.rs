//! Registering a memory pool: cutting it into segments and indexing their pages.
use vstd::prelude::*;
use crate::data_structures::cache::ZeroCopyCache;
use crate::data_structures::error::ZccError;
use crate::data_structures::policy::CacheBuilder;
use crate::data_structures::segment_id::SegmentId;
use crate::data_structures::slab::{DatapathSegment, DatapathSlab, SegmentSlot};
use crate::pagesizes::PageSize;

verus! {

broadcast use vstd::std_specs::hash::group_hash_axioms;

/// The index entries of a memory pool's first `count` pages: each page start,
/// with the segment the page falls into when the pool is cut into segments of
/// `segment_size` bytes.
pub open spec fn slab_pages(
    slab_id: u64,
    start: usize,
    count: nat,
    size: PageSize,
    segment_size: usize,
) -> Map<usize, SegmentId> {
    Map::new(
        |addr: usize| exists|j: nat| j < count && addr == start + #[trigger] (j * size.bytes()),
        |addr: usize| SegmentId { slab_id, index: ((addr - start) / segment_size as int) as usize },
    )
}

/// How a memory pool of `total` pages of `page` bytes is cut into segments of
/// `segment` bytes: each segment is a whole number of pages, and the segments
/// make up the pool.
pub proof fn lemma_cut(total: int, page: int, segment: int)
    requires
        total >= 0,
        page > 0,
        segment > 0,
        segment % page == 0,
        (total * page) % segment == 0,
        total * page >= segment,
    ensures
        segment / page >= 1,
        (segment / page) * page == segment,
        (total * page) / segment >= 1,
        ((total * page) / segment) * segment == total * page,
        ((total * page) / segment) * (segment / page) == total,
{
    let q = segment / page;
    let n = (total * page) / segment;
    vstd::arithmetic::div_mod::lemma_fundamental_div_mod(segment, page);
    vstd::arithmetic::div_mod::lemma_fundamental_div_mod(total * page, segment);
    assert(q * page == segment) by (nonlinear_arith)
        requires
            segment == page * q + 0,
    ;
    assert(n * segment == total * page) by (nonlinear_arith)
        requires
            total * page == segment * n + 0,
    ;
    assert(q >= 1) by (nonlinear_arith)
        requires
            q * page == segment,
            segment > 0,
            page > 0,
    ;
    assert(n >= 1) by (nonlinear_arith)
        requires
            n * segment == total * page,
            total * page >= segment,
            segment > 0,
    ;
    assert(n * q == total) by (nonlinear_arith)
        requires
            n * segment == total * page,
            q * page == segment,
            page > 0,
    ;
}

/// Indexing the pages of segment number `i` extends the index entries of the
/// pool's first `i` segments to those of its first `i + 1` segments.
pub proof fn lemma_slab_pages_step(
    slab_id: u64,
    start: usize,
    i: nat,
    per_segment: nat,
    size: PageSize,
    segment_size: usize,
    addrs: Seq<usize>,
)
    requires
        segment_size > 0,
        per_segment * size.bytes() == segment_size,
        start + (i + 1) * segment_size <= usize::MAX,
        addrs.len() == per_segment,
        forall|k: int|
            0 <= k < per_segment ==> (#[trigger] addrs[k]) == start + i * segment_size + k
                * size.bytes(),
    ensures
        slab_pages(slab_id, start, i * per_segment, size, segment_size).union_prefer_right(
            pages_of(addrs, SegmentId { slab_id, index: i as usize }),
        ) == slab_pages(slab_id, start, (i + 1) * per_segment, size, segment_size),
{
    let b = size.bytes() as int;
    let ss = segment_size as int;
    let q = per_segment as int;
    let id = SegmentId { slab_id, index: i as usize };
    let left = slab_pages(slab_id, start, i * per_segment, size, segment_size);
    let both = left.union_prefer_right(pages_of(addrs, id));
    let right = slab_pages(slab_id, start, (i + 1) * per_segment, size, segment_size);
    assert((i + 1) * q == i * q + q) by (nonlinear_arith);
    assert(i * ss <= (i + 1) * ss) by (nonlinear_arith)
        requires
            ss > 0,
            i >= 0,
    ;
    assert forall|addr: usize| both.contains_key(addr) implies right.contains_key(addr) by {
        if addrs.contains(addr) {
            let k = addrs.index_of(addr);
            assert(addrs[k] == addr);
            let j = (i * q + k) as nat;
            assert(j * b == i * ss + k * b) by (nonlinear_arith)
                requires
                    j == i * q + k,
                    q * b == ss,
            ;
            assert(j < (i + 1) * per_segment);
            assert(addr == start + j * size.bytes());
        } else {
            let j = choose|j: nat| j < i * per_segment && addr == start + #[trigger] (j * size.bytes());
            assert(j < (i + 1) * per_segment);
        }
    }
    assert forall|addr: usize| right.contains_key(addr) implies both.contains_key(addr) by {
        let j = choose|j: nat|
            j < (i + 1) * per_segment && addr == start + #[trigger] (j * size.bytes());
        if j < i * per_segment {
            assert(left.contains_key(addr));
        } else {
            let k = j - i * q;
            assert(j * b == i * ss + k * b) by (nonlinear_arith)
                requires
                    j == i * q + k,
                    q * b == ss,
            ;
            assert(addrs[k] == addr);
            assert(addrs.contains(addr));
        }
    }
    assert forall|addr: usize| both.contains_key(addr) implies both[addr] == right[addr] by {
        if addrs.contains(addr) {
            let k = addrs.index_of(addr);
            assert(addrs[k] == addr);
            let off = addr - start;
            assert(0 <= k * b < ss) by (nonlinear_arith)
                requires
                    0 <= k < q,
                    q * b == ss,
                    b > 0,
            ;
            assert(off == i * ss + k * b);
            vstd::arithmetic::div_mod::lemma_fundamental_div_mod_converse(off, ss, i as int, k * b);
        }
    }
    assert(both =~= right);
}

/// How many of the first `upto` segments of memory pool `slab_id` are pinned.
pub open spec fn pinned_among<Slab: DatapathSlab>(
    slots: Map<SegmentId, SegmentSlot<Slab>>,
    slab_id: u64,
    upto: nat,
) -> nat
    decreases upto,
{
    if upto == 0 {
        0
    } else {
        let last = SegmentId { slab_id, index: (upto - 1) as usize };
        pinned_among(slots, slab_id, (upto - 1) as nat) + (if slots[last].segment.pinned() {
            1nat
        } else {
            0nat
        })
    }
}

/// The count looks at the first `upto` segments of the pool only.
pub proof fn lemma_pinned_among_same<Slab: DatapathSlab>(
    a: Map<SegmentId, SegmentSlot<Slab>>,
    b: Map<SegmentId, SegmentSlot<Slab>>,
    slab_id: u64,
    upto: nat,
)
    requires
        upto <= usize::MAX,
        forall|id: SegmentId| id.slab_id == slab_id && id.index < upto ==> #[trigger] a[id] == b[id],
    ensures
        pinned_among(a, slab_id, upto) == pinned_among(b, slab_id, upto),
    decreases upto,
{
    if upto > 0 {
        lemma_pinned_among_same(a, b, slab_id, (upto - 1) as nat);
        let last = SegmentId { slab_id, index: (upto - 1) as usize };
        assert(a[last] == b[last]);
    }
}

/// A slot stored for segment number `at` of the pool does not change the count
/// over the segments before it.
pub proof fn lemma_pinned_among_insert<Slab: DatapathSlab>(
    slots: Map<SegmentId, SegmentSlot<Slab>>,
    slab_id: u64,
    at: usize,
    slot: SegmentSlot<Slab>,
    upto: nat,
)
    requires
        upto <= at,
    ensures
        pinned_among(slots.insert(SegmentId { slab_id, index: at }, slot), slab_id, upto)
            == pinned_among(slots, slab_id, upto),
    decreases upto,
{
    if upto > 0 {
        lemma_pinned_among_insert(slots, slab_id, at, slot, (upto - 1) as nat);
    }
}

/// The index entries that map each of `addrs` to `id`.
pub open spec fn pages_of(addrs: Seq<usize>, id: SegmentId) -> Map<usize, SegmentId> {
    Map::new(|addr: usize| addrs.contains(addr), |addr: usize| id)
}

impl<Slab: DatapathSlab, CB: CacheBuilder> ZeroCopyCache<Slab, CB> {
    /// Whether this cache differs from `pre` in the index at most.
    pub open spec fn same_but_index(&self, pre: &Self) -> bool {
        &&& self.limit_bytes() == pre.limit_bytes()
        &&& self.segment_bytes() == pre.segment_bytes()
        &&& self.on_demand() == pre.on_demand()
        &&& self.pause() == pre.pause()
        &&& self.datapath() == pre.datapath()
        &&& self.counters() == pre.counters()
        &&& self.policy() == pre.policy()
        &&& self.slots() == pre.slots()
    }

    /// Whether the memory pool can be registered: the segment size is a whole
    /// number of the pool's pages, the pool is a whole number of segments and at
    /// least one, it ends within the address space, and no pool of the same
    /// identity is registered.
    pub open spec fn accepts(&self, slab: &Slab) -> bool {
        let page = slab.page_size().bytes();
        let bytes = slab.total_num_pages() * page;
        &&& self.segment_bytes() > 0
        &&& (self.segment_bytes() as int) % (page as int) == 0
        &&& bytes >= self.segment_bytes()
        &&& bytes % (self.segment_bytes() as int) == 0
        &&& slab.start_address() + bytes <= usize::MAX
        &&& !self.knows_slab(slab.slab_id())
    }

    /// The number of segments the memory pool is cut into.
    pub open spec fn segments_in(&self, slab: &Slab) -> nat {
        ((slab.total_num_pages() * slab.page_size().bytes()) / (self.segment_bytes() as int)) as nat
    }

    /// Whether `slot` stands where segment number `i` of the memory pool
    /// belongs, with nothing in flight.
    pub open spec fn placed_slot(&self, slot: SegmentSlot<Slab>, slab: &Slab, i: int) -> bool {
        &&& slot.in_flight == 0
        &&& !slot.quiescing
        &&& slot.segment.id() == (SegmentId { slab_id: slab.slab_id(), index: i as usize })
        &&& slot.segment.start() == slab.start_address() + i * self.segment_bytes()
        &&& slot.segment.page() == slab.page_size()
        &&& slot.segment.pages() == (self.segment_bytes() as int) / (slab.page_size().bytes() as int)
    }

    /// Whether `slot` is what registration makes of segment number `i` of the
    /// memory pool. If the pool was asked to pin it, its state is what the
    /// request made of the pool's initial state; if not, it is in the initial
    /// state, which is not pinned.
    pub open spec fn fresh_slot(
        &self,
        slot: SegmentSlot<Slab>,
        slab: &Slab,
        i: int,
        asked: bool,
        private_info: Slab::PrivateInfo,
    ) -> bool {
        &&& self.placed_slot(slot, slab, i)
        &&& if asked {
            Slab::pin_effect(
                slab.initial_state(),
                private_info,
                (slab.start_address() + i * self.segment_bytes()) as usize,
                self.segment_bytes(),
                slot.segment.state(),
            )
        } else {
            slot.segment.state() == slab.initial_state() && !slot.segment.pinned()
        }
    }

    /// Whether registration asks the pool to pin segment number `i`: with
    /// `register_at_start`, while the segments held before and those of the
    /// pool's earlier segments that are pinned leave room in the budget.
    pub open spec fn has_room(
        &self,
        pre: &Self,
        slab: &Slab,
        i: nat,
        register_at_start: bool,
    ) -> bool {
        register_at_start && pre.pinned().len() + pinned_among(self.slots(), slab.slab_id(), i)
            < pre.policy().limit()
    }

    /// Enters each of `addrs` into the index for pages of size `size`, as a page
    /// of segment `id`.
    pub(crate) fn index_pages(&mut self, size: PageSize, addrs: &Vec<usize>, id: SegmentId)
        requires
            old(self).registry_ok(),
            forall|k: int|
                0 <= k < addrs@.len() ==> old(self).is_page_of(#[trigger] addrs@[k], size, id),
        ensures
            final(self).registry_ok(),
            final(self).same_but_index(old(self)),
            final(self).index(size) == old(self).index(size).union_prefer_right(pages_of(addrs@, id)),
            forall|other: PageSize|
                #![trigger final(self).index(other)]
                other != size ==> final(self).index(other) == old(self).index(other),
    {
        let n = addrs.len();
        let mut k: usize = 0;
        while k < n
            invariant
                k <= n,
                n == addrs@.len(),
                old(self).registry_ok(),
                forall|j: int|
                    0 <= j < addrs@.len() ==> old(self).is_page_of(#[trigger] addrs@[j], size, id),
                self.keyed(),
                self.same_but_index(old(self)),
                self.index(size) == old(self).index(size).union_prefer_right(
                    pages_of(addrs@.take(k as int), id),
                ),
                forall|other: PageSize|
                    #![trigger self.index(other)]
                    other != size ==> self.index(other) == old(self).index(other),
            decreases n - k,
        {
            let addr = addrs[k];
            let ghost before = self.index(size);
            let ghost at_head = *self;
            match size {
                PageSize::PG4KB => {
                    self.page_cache_4kb.insert(addr, id);
                },
                PageSize::PG2MB => {
                    self.page_cache_2mb.insert(addr, id);
                },
                PageSize::PG1GB => {
                    self.page_cache_1gb.insert(addr, id);
                },
            }
            proof {
                assert(self.index(size) == before.insert(addr, id));
                let done = addrs@.take(k as int);
                let next = addrs@.take(k + 1);
                assert(next == done.push(addr));
                assert(self.index(size) =~= old(self).index(size).union_prefer_right(
                    pages_of(next, id),
                )) by {
                    assert forall|a: usize| next.contains(a) <==> done.contains(a) || a == addr by {
                        if done.contains(a) {
                            let j = done.index_of(a);
                            assert(next[j] == a);
                        }
                        if a == addr {
                            assert(next[k as int] == a);
                        }
                        if next.contains(a) {
                            let j = next.index_of(a);
                            if j < k {
                                assert(done[j] == a);
                            }
                        }
                    }
                }
                assert forall|other: PageSize|
                    #![trigger self.index(other)]
                    other != size implies self.index(other) == old(self).index(other) by {
                    assert(at_head.index(other) == old(self).index(other));
                }
            }
            k += 1;
        }
        proof {
            assert(addrs@.take(n as int) == addrs@);
            assert forall|id2: SegmentId| #[trigger] self.slots().contains_key(id2) implies {
                &&& self.slots()[id2].segment.id() == id2
                &&& self.slots()[id2].segment.well_formed()
                &&& self.slots()[id2].segment.len_bytes() == self.segment_bytes()
                &&& self.knows_slab(id2.slab_id)
            } by {
                assert(old(self).slots().contains_key(id2));
                assert(old(self).knows_slab(id2.slab_id));
            }
            assert forall|sz: PageSize, addr: usize| #[trigger]
                self.index(sz).contains_key(addr) implies self.is_page_of(
                addr,
                sz,
                self.index(sz)[addr],
            ) by {
                if sz == size && addrs@.contains(addr) {
                    let j = addrs@.index_of(addr);
                    assert(old(self).is_page_of(addrs@[j], size, id));
                    self.lemma_is_page_of_kept(old(self), addr, sz, id);
                } else {
                    assert(old(self).index(sz).contains_key(addr));
                    let id2 = old(self).index(sz)[addr];
                    assert(old(self).is_page_of(addr, sz, id2));
                    self.lemma_is_page_of_kept(old(self), addr, sz, id2);
                }
            }
        }
    }

    /// A page of a segment stays one while the registry stays.
    pub(crate) proof fn lemma_is_page_of_kept(
        &self,
        pre: &Self,
        addr: usize,
        size: PageSize,
        id: SegmentId,
    )
        requires
            pre.is_page_of(addr, size, id),
            self.slots().contains_key(id),
            self.slots()[id].segment.same_extent(&pre.slots()[id].segment),
        ensures
            self.is_page_of(addr, size, id),
    {
        let k = choose|k: int|
            0 <= k < pre.slots()[id].segment.pages() && addr == pre.slots()[id].segment.start()
                + #[trigger] (k * size.bytes());
        assert(0 <= k < self.slots()[id].segment.pages() && addr
            == self.slots()[id].segment.start() + k * size.bytes());
    }

    /// One more segment of the pool keeps what registration has established of
    /// the earlier ones: their slots, whether the pool was asked to pin them,
    /// and the tally of pinned segments against the budget.
    #[verifier::rlimit(40)]
    pub(crate) proof fn lemma_registration_step(
        &self,
        at_head: &Self,
        pre: &Self,
        slab: &Slab,
        register_at_start: bool,
        private_info: Slab::PrivateInfo,
        reg: usize,
        had: Set<SegmentId>,
        held: Set<SegmentId>,
    )
        requires
            reg < usize::MAX,
            forall|x: SegmentId| #[trigger] pre.slots().contains_key(x) ==> x.slab_id != slab.slab_id(),
            forall|x: SegmentId| #[trigger] pre.pinned().contains(x) ==> pre.slots().contains_key(x),
            forall|x: SegmentId| #[trigger]
                at_head.slots().contains_key(x) <==> pre.slots().contains_key(x) || (x.slab_id
                    == slab.slab_id() && x.index < reg),
            forall|x: SegmentId|
                x.slab_id == slab.slab_id() && x.index < reg ==> pre.fresh_slot(
                    #[trigger] at_head.slots()[x],
                    slab,
                    x.index as int,
                    at_head.has_room(pre, slab, x.index as nat, register_at_start),
                    private_info,
                ),
            forall|x: SegmentId| #[trigger]
                had.contains(x) <==> pre.pinned().contains(x) || (x.slab_id == slab.slab_id()
                    && x.index < reg && at_head.slots()[x].segment.pinned()),
            had.finite(),
            had.len() == pre.pinned().len() + pinned_among(
                at_head.slots(),
                slab.slab_id(),
                reg as nat,
            ),
            self.slots() == at_head.slots().insert(
                SegmentId { slab_id: slab.slab_id(), index: reg },
                self.slots()[SegmentId { slab_id: slab.slab_id(), index: reg }],
            ),
            pre.fresh_slot(
                self.slots()[SegmentId { slab_id: slab.slab_id(), index: reg }],
                slab,
                reg as int,
                register_at_start && had.len() < pre.policy().limit(),
                private_info,
            ),
            held == (if self.slots()[SegmentId { slab_id: slab.slab_id(), index: reg }].segment.pinned() {
                had.insert(SegmentId { slab_id: slab.slab_id(), index: reg })
            } else {
                had
            }),
        ensures
            forall|x: SegmentId|
                x.slab_id == slab.slab_id() && x.index < reg + 1 ==> pre.fresh_slot(
                    #[trigger] self.slots()[x],
                    slab,
                    x.index as int,
                    self.has_room(pre, slab, x.index as nat, register_at_start),
                    private_info,
                ),
            forall|x: SegmentId| #[trigger]
                held.contains(x) <==> pre.pinned().contains(x) || (x.slab_id == slab.slab_id()
                    && x.index < reg + 1 && self.slots()[x].segment.pinned()),
            held.len() == pre.pinned().len() + pinned_among(
                self.slots(),
                slab.slab_id(),
                (reg + 1) as nat,
            ),
    {
        let slab_id = slab.slab_id();
        let id = SegmentId { slab_id, index: reg };
        let slot = self.slots()[id];
        let before = at_head.slots();
        assert(!had.contains(id)) by {
            if pre.pinned().contains(id) {
                assert(pre.slots().contains_key(id));
            }
        }
        assert forall|i: nat| i <= reg implies #[trigger] pinned_among(self.slots(), slab_id, i)
            == pinned_among(before, slab_id, i) by {
            lemma_pinned_among_insert(before, slab_id, reg, slot, i);
        }
        assert(pinned_among(self.slots(), slab_id, reg as nat) == pinned_among(
            before,
            slab_id,
            reg as nat,
        ));
        assert forall|x: SegmentId| x.slab_id == slab_id && x.index < reg + 1 implies pre.fresh_slot(
            #[trigger] self.slots()[x],
            slab,
            x.index as int,
            self.has_room(pre, slab, x.index as nat, register_at_start),
            private_info,
        ) by {
            assert(pinned_among(self.slots(), slab_id, x.index as nat) == pinned_among(
                before,
                slab_id,
                x.index as nat,
            ));
            assert(self.has_room(pre, slab, x.index as nat, register_at_start) == at_head.has_room(
                pre,
                slab,
                x.index as nat,
                register_at_start,
            ));
            if x != id {
                assert(self.slots()[x] == before[x]);
            }
        }
        assert forall|x: SegmentId| #[trigger]
            held.contains(x) <==> pre.pinned().contains(x) || (x.slab_id == slab_id && x.index < reg
                + 1 && self.slots()[x].segment.pinned()) by {
            if x != id {
                assert(had.contains(x) <==> pre.pinned().contains(x) || (x.slab_id == slab_id
                    && x.index < reg && before[x].segment.pinned()));
                assert(self.slots()[x] == before[x]);
            } else {
                if pre.pinned().contains(x) {
                    assert(pre.slots().contains_key(x));
                }
            }
        }
        assert(pinned_among(self.slots(), slab_id, (reg + 1) as nat) == pinned_among(
            self.slots(),
            slab_id,
            reg as nat,
        ) + (if self.slots()[id].segment.pinned() {
            1nat
        } else {
            0nat
        }));
    }

    /// Whether this cache is `pre` after the memory pool was registered.
    ///
    /// The pool's segments are new in the registry, numbered from zero, and the
    /// start of each of their pages is in the index for the pool's page size;
    /// segments and index entries that were there stay. With
    /// `register_at_start`, the pool is asked to pin the segments in ascending
    /// order while the budget has room; a segment that is pinned afterwards is
    /// held as pinned and takes its share of the budget. A segment the pool was
    /// not asked to pin is in the pool's initial state.
    pub open spec fn registered_from(
        &self,
        pre: &Self,
        slab: &Slab,
        register_at_start: bool,
        private_info: Slab::PrivateInfo,
    ) -> bool {
        let slab_id = slab.slab_id();
        let n = pre.segments_in(slab);
        let size = slab.page_size();
        &&& self.limit_bytes() == pre.limit_bytes()
        &&& self.segment_bytes() == pre.segment_bytes()
        &&& self.on_demand() == pre.on_demand()
        &&& self.pause() == pre.pause()
        &&& self.datapath() == pre.datapath()
        &&& self.counters() == pre.counters()
        &&& self.policy().limit() == pre.policy().limit()
        &&& self.policy() == pre.policy() || self.policy().remembers(&pre.policy())
        &&& forall|id: SegmentId| #[trigger]
            self.slots().contains_key(id) <==> pre.slots().contains_key(id) || (id.slab_id == slab_id
                && id.index < n)
        &&& forall|id: SegmentId| #[trigger]
            pre.slots().contains_key(id) ==> self.slots()[id] == pre.slots()[id]
        &&& forall|id: SegmentId|
            id.slab_id == slab_id && id.index < n ==> pre.fresh_slot(
                #[trigger] self.slots()[id],
                slab,
                id.index as int,
                self.has_room(pre, slab, id.index as nat, register_at_start),
                private_info,
            )
        &&& self.index(size) == pre.index(size).union_prefer_right(
            slab_pages(
                slab_id,
                slab.start_address(),
                slab.total_num_pages() as nat,
                size,
                pre.segment_bytes(),
            ),
        )
        &&& forall|other: PageSize|
            #![trigger self.index(other)]
            other != size ==> self.index(other) == pre.index(other)
        &&& forall|id: SegmentId| #[trigger]
            self.pinned().contains(id) <==> pre.pinned().contains(id) || (id.slab_id == slab_id
                && id.index < n && self.slots()[id].segment.pinned())
        &&& self.pinned().len() == pre.pinned().len() + pinned_among(self.slots(), slab_id, n)
        &&& !register_at_start ==> self.policy() == pre.policy()
    }

    /// Registers a memory pool: cuts it into segments of the cache's segment
    /// size, enters the start of every page into the index and, with
    /// `register_at_start`, pins segments while the budget lasts.
    ///
    /// Fails with `InvalidSlab`, and changes nothing, exactly when the cache
    /// does not accept the pool.
    #[verifier::rlimit(40)]
    pub fn initialize_slab(
        &mut self,
        slab: &Slab,
        register_at_start: bool,
        priv_info: Slab::PrivateInfo,
    ) -> (done: Result<(), ZccError>)
        requires
            old(self).well_formed(),
        ensures
            final(self).well_formed(),
            done is Ok <==> old(self).accepts(slab),
            done matches Err(e) ==> e == ZccError::InvalidSlab && *final(self) == *old(self),
            done is Ok ==> final(self).registered_from(old(self), slab, register_at_start, priv_info),
    {
        let total = slab.get_total_num_pages();
        let size = slab.get_page_size();
        let page = slab.get_page_size_as_num();
        let start = slab.get_start_address();
        let slab_id = slab.get_slab_id();
        let segment_size = self.segment_size;
        if segment_size == 0 || segment_size % page != 0 {
            return Err(ZccError::InvalidSlab);
        }
        if total > usize::MAX / page {
            proof {
                assert(total * page > usize::MAX) by (nonlinear_arith)
                    requires
                        total > usize::MAX / page,
                        page > 0,
                ;
            }
            return Err(ZccError::InvalidSlab);
        }
        proof {
            assert(total * page <= usize::MAX) by (nonlinear_arith)
                requires
                    total <= usize::MAX / page,
                    page > 0,
            ;
        }
        let mempool_size = total * page;
        if mempool_size < segment_size || mempool_size % segment_size != 0 {
            return Err(ZccError::InvalidSlab);
        }
        if start > usize::MAX - mempool_size {
            return Err(ZccError::InvalidSlab);
        }
        let first = SegmentId::new(slab_id, 0);
        if self.segments.contains_key(&first.key()) {
            return Err(ZccError::InvalidSlab);
        }
        let num_registrations = mempool_size / segment_size;
        let pages_per_registration = segment_size / page;
        let limit = self.segment_budget();
        let ghost pre = *self;
        proof {
            lemma_cut(total as int, page as int, segment_size as int);
            self.cache_builder.lemma_within_limit();
            assert forall|id: SegmentId| #[trigger] pre.slots().contains_key(id) implies id.slab_id
                != slab_id by {
                assert(pre.knows_slab(id.slab_id));
            }
        }
        let mut pinned_list = self.cache_builder.current_pinned_segments().clone();
        let mut added = false;
        let mut reg: usize = 0;
        while reg < num_registrations
            invariant
                reg <= num_registrations,
                pre.well_formed(),
                pre.accepts(slab),
                pre == *old(self),
                total == slab.total_num_pages(),
                size == slab.page_size(),
                page == size.bytes(),
                start == slab.start_address(),
                slab_id == slab.slab_id(),
                first == (SegmentId { slab_id, index: 0 }),
                segment_size == pre.segment_bytes(),
                segment_size > 0,
                mempool_size == total * page,
                num_registrations == pre.segments_in(slab),
                num_registrations * segment_size == mempool_size,
                pages_per_registration >= 1,
                pages_per_registration * page == segment_size,
                pages_per_registration == (segment_size as int) / (page as int),
                num_registrations * pages_per_registration == total,
                start + mempool_size <= usize::MAX,
                limit == pre.policy().limit(),
                forall|id: SegmentId| #[trigger] pre.slots().contains_key(id) ==> id.slab_id != slab_id,
                forall|id: SegmentId| #[trigger] pre.pinned().contains(id) ==> pre.slots().contains_key(id),
                self.registry_ok(),
                self.limit_bytes() == pre.limit_bytes(),
                self.segment_bytes() == pre.segment_bytes(),
                self.on_demand() == pre.on_demand(),
                self.pause() == pre.pause(),
                self.datapath() == pre.datapath(),
                self.counters() == pre.counters(),
                self.policy() == pre.policy(),
                forall|id: SegmentId| #[trigger]
                    self.slots().contains_key(id) <==> pre.slots().contains_key(id) || (id.slab_id
                        == slab_id && id.index < reg),
                forall|id: SegmentId| #[trigger]
                    pre.slots().contains_key(id) ==> self.slots()[id] == pre.slots()[id],
                forall|id: SegmentId|
                    id.slab_id == slab_id && id.index < reg ==> pre.fresh_slot(
                        #[trigger] self.slots()[id],
                        slab,
                        id.index as int,
                        self.has_room(&pre, slab, id.index as nat, register_at_start),
                        priv_info,
                    ),
                self.index(size) == pre.index(size).union_prefer_right(
                    slab_pages(
                        slab_id,
                        start,
                        (reg * pages_per_registration) as nat,
                        size,
                        segment_size,
                    ),
                ),
                forall|other: PageSize|
                    #![trigger self.index(other)]
                    other != size ==> self.index(other) == pre.index(other),
                pinned_list@.finite(),
                pinned_list@.len() <= limit,
                forall|id: SegmentId| #[trigger]
                    pinned_list@.contains(id) <==> pre.pinned().contains(id) || (id.slab_id == slab_id
                        && id.index < reg && self.slots()[id].segment.pinned()),
                pinned_list@.len() == pre.pinned().len() + pinned_among(
                    self.slots(),
                    slab_id,
                    reg as nat,
                ),
                !added ==> pinned_list@ == pre.pinned(),
                added ==> register_at_start,
            decreases num_registrations - reg,
        {
            let ghost at_head = *self;
            let ghost had = pinned_list@;
            proof {
                assert(reg * segment_size + segment_size <= num_registrations * segment_size)
                    by (nonlinear_arith)
                    requires
                        reg < num_registrations,
                        segment_size > 0,
                ;
                assert(reg * pages_per_registration + pages_per_registration
                    == (reg + 1) * pages_per_registration) by (nonlinear_arith);
            }
            proof {
                assert(segment_size * reg == reg * segment_size) by (nonlinear_arith);
            }
            let start_address = start + segment_size * reg;
            let segment = DatapathSegment::new(
                start_address,
                pages_per_registration,
                size,
                reg,
                slab,
            );
            let id = segment.get_id();
            let mut slot = SegmentSlot::new(segment);
            let ghost asked = register_at_start && pinned_list@.len() < limit;
            proof {
                assert(!at_head.slots().contains_key(id));
                assert(!had.contains(id)) by {
                    if pre.pinned().contains(id) {
                        assert(pre.slots().contains_key(id));
                    }
                }
            }
            if register_at_start && pinned_list.len() < limit {
                match slot.pin(&priv_info) {
                    Ok(_) => {
                        pinned_list.insert(id);
                        added = true;
                    },
                    Err(_) => {},
                }
            }
            let pages_4kb = slot.segment.get_4kb_pages();
            let pages_2mb = slot.segment.get_2mb_pages();
            let pages_1gb = slot.segment.get_1gb_pages();
            let ghost addrs = slot.segment.page_addrs();
            proof {
                assert(pre.fresh_slot(slot, slab, reg as int, asked, priv_info));
                assert(pinned_list@.contains(id) <==> slot.segment.pinned());
            }
            self.store_slot(id, slot);
            let ghost stored = *self;
            proof {
                assert(self.registry_ok()) by {
                    assert forall|x: SegmentId| #[trigger] self.slots().contains_key(x) implies {
                        &&& self.slots()[x].segment.id() == x
                        &&& self.slots()[x].segment.well_formed()
                        &&& self.slots()[x].segment.len_bytes() == self.segment_bytes()
                        &&& self.knows_slab(x.slab_id)
                    } by {
                        if x != id {
                            assert(at_head.slots().contains_key(x));
                            assert(at_head.knows_slab(x.slab_id));
                        } else {
                            if reg > 0 {
                                assert(at_head.slots().contains_key(first));
                            }
                        }
                    }
                    assert forall|sz: PageSize, addr: usize| #[trigger]
                        self.index(sz).contains_key(addr) implies self.is_page_of(
                        addr,
                        sz,
                        self.index(sz)[addr],
                    ) by {
                        assert(self.index(sz) == at_head.index(sz));
                        assert(at_head.index(sz).contains_key(addr));
                        let owner = at_head.index(sz)[addr];
                        assert(at_head.is_page_of(addr, sz, owner));
                        self.lemma_is_page_of_kept(&at_head, addr, sz, owner);
                    }
                }
                assert forall|k: int| 0 <= k < addrs.len() implies self.is_page_of(
                    #[trigger] addrs[k],
                    size,
                    id,
                ) by {
                    assert(k * size.bytes() <= pages_per_registration * page) by (nonlinear_arith)
                        requires
                            0 <= k < pages_per_registration,
                            page == size.bytes(),
                    ;
                    assert(addrs[k] == self.slots()[id].segment.start() + k * size.bytes());
                }
            }
            self.index_pages(PageSize::PG4KB, &pages_4kb, id);
            self.index_pages(PageSize::PG2MB, &pages_2mb, id);
            self.index_pages(PageSize::PG1GB, &pages_1gb, id);
            proof {
                assert forall|sz: PageSize|
                    #![trigger self.index(sz)]
                    self.index(sz) == stored.index(sz).union_prefer_right(
                        pages_of(slot.segment.page_addrs_of(sz), id),
                    ) by {
                    assert(pages_of(Seq::<usize>::empty(), id) =~= Map::<usize, SegmentId>::empty());
                }
                assert forall|other: PageSize|
                    #![trigger self.index(other)]
                    other != size implies self.index(other) == pre.index(other) by {
                    assert(pages_of(Seq::<usize>::empty(), id) =~= Map::<usize, SegmentId>::empty());
                    assert(stored.index(other) == at_head.index(other));
                    assert(self.index(other) =~= stored.index(other));
                }
                assert forall|k: int| 0 <= k < pages_per_registration implies (#[trigger] addrs[k])
                    == start + reg * segment_size + k * size.bytes() by {
                    assert(k * size.bytes() <= pages_per_registration * page) by (nonlinear_arith)
                        requires
                            0 <= k < pages_per_registration,
                            page == size.bytes(),
                    ;
                }
                assert(start + (reg + 1) * segment_size <= usize::MAX) by (nonlinear_arith)
                    requires
                        start + reg * segment_size + segment_size <= usize::MAX,
                ;
                lemma_slab_pages_step(
                    slab_id,
                    start,
                    reg as nat,
                    pages_per_registration as nat,
                    size,
                    segment_size,
                    addrs,
                );
                assert(stored.index(size) == at_head.index(size));
                assert(self.index(size) =~= pre.index(size).union_prefer_right(
                    slab_pages(
                        slab_id,
                        start,
                        ((reg + 1) * pages_per_registration) as nat,
                        size,
                        segment_size,
                    ),
                ));
                assert(self.slots() == stored.slots());
                assert forall|x: SegmentId| #[trigger] pre.slots().contains_key(x) implies self.slots()[x]
                    == pre.slots()[x] by {
                    assert(at_head.slots().contains_key(x));
                }
                self.lemma_registration_step(
                    &at_head,
                    &pre,
                    slab,
                    register_at_start,
                    priv_info,
                    reg,
                    had,
                    pinned_list@,
                );
            }
            reg += 1;
        }
        let ghost filled = *self;
        if added {
            self.cache_builder.set_current_pinned_list(pinned_list);
        }
        proof {
            self.lemma_registry_kept(&filled);
            assert(self.slots() == filled.slots());
            assert forall|sz: PageSize| #![trigger self.index(sz)] self.index(sz) == filled.index(sz) by {}
            assert(self.pinned() == pinned_list@);
            lemma_pinned_among_same(
                self.slots(),
                filled.slots(),
                slab_id,
                num_registrations as nat,
            );
            assert(self.accounting_ok()) by {
                assert forall|x: SegmentId| #[trigger]
                    self.pinned().contains(x) implies self.slots().contains_key(x)
                    && self.slots()[x].segment.pinned() by {
                    if pre.pinned().contains(x) {
                        assert(pre.slots().contains_key(x));
                    }
                }
                assert forall|x: SegmentId| #[trigger]
                    self.slots().contains_key(x)
                        && self.slots()[x].segment.pinned() implies self.pinned().contains(x) by {
                    if pre.slots().contains_key(x) {
                        assert(pre.pinned().contains(x));
                    }
                }
                assert forall|x: SegmentId| #[trigger]
                    self.slots().contains_key(x) && self.slots()[x].quiescing implies self.pinned().contains(
                    x,
                ) by {
                    if pre.slots().contains_key(x) {
                        assert(pre.pinned().contains(x));
                    } else {
                        assert(pre.placed_slot(self.slots()[x], slab, x.index as int));
                    }
                }
                if self.on_demand() {
                    assert forall|x: SegmentId| #[trigger]
                        self.slots().contains_key(x) implies self.slots()[x].in_flight == 0
                        && !self.slots()[x].quiescing by {
                        if pre.slots().contains_key(x) {
                        } else {
                            assert(pre.placed_slot(self.slots()[x], slab, x.index as int));
                        }
                    }
                }
            }
            let n = pre.segments_in(slab);
            assert(n == num_registrations);
            assert forall|id: SegmentId| #[trigger]
                self.slots().contains_key(id) <==> pre.slots().contains_key(id) || (id.slab_id == slab_id
                    && id.index < n) by {
                assert(filled.slots().contains_key(id) <==> pre.slots().contains_key(id) || (
                id.slab_id == slab_id && id.index < n));
            }
            assert forall|id: SegmentId| id.slab_id == slab_id && id.index < n implies pre.fresh_slot(
                #[trigger] self.slots()[id],
                slab,
                id.index as int,
                self.has_room(&pre, slab, id.index as nat, register_at_start),
                priv_info,
            ) by {
                assert(filled.slots().contains_key(id));
                lemma_pinned_among_same(self.slots(), filled.slots(), slab_id, id.index as nat);
            }
            assert forall|other: PageSize|
                #![trigger self.index(other)]
                other != size implies self.index(other) == pre.index(other) by {
                assert(filled.index(other) == pre.index(other));
            }
            assert(self.registered_from(&pre, slab, register_at_start, priv_info));
        }
        Ok(())
    }
}

} // verus!
