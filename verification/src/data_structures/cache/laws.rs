//! What follows from the contracts of the cache: how addresses resolve, and how
//! reconciliation treats busy segments and repeats.
use vstd::prelude::*;
use crate::data_structures::cache::reconcile::{slot_reconciled, ReconcileOutcome};
use crate::data_structures::cache::registration::{pinned_among, slab_pages};
use crate::data_structures::cache::ZeroCopyCache;
use crate::data_structures::error::ZccError;
use crate::data_structures::policy::CacheBuilder;
use crate::data_structures::segment_id::SegmentId;
use crate::data_structures::slab::{DatapathSlab, SegmentSlot};
use crate::pagesizes::{page_floor, PageSize};

verus! {

impl<Slab: DatapathSlab, CB: CacheBuilder> ZeroCopyCache<Slab, CB> {
    /// Whether the index has every page of segment `id`, under that segment.
    pub open spec fn indexed(&self, id: SegmentId) -> bool {
        let seg = self.slots()[id].segment;
        forall|k: int|
            0 <= k < seg.pages() ==> {
                let addr = (seg.start() + #[trigger] (k * seg.page().bytes())) as usize;
                self.index(seg.page()).contains_key(addr) && self.index(seg.page())[addr] == id
            }
    }

    /// Whether segments `a` and `b` share no byte.
    pub open spec fn apart(&self, a: SegmentId, b: SegmentId) -> bool {
        self.slots()[a].segment.end() <= self.slots()[b].segment.start()
            || self.slots()[b].segment.end() <= self.slots()[a].segment.start()
    }

    /// Whether the registered memory is laid out as memory pools are meant to
    /// be: every segment starts on a boundary of its page size, all its pages
    /// are in the index, and no two segments overlap.
    pub open spec fn layout_ok(&self) -> bool {
        forall|id: SegmentId| #[trigger]
            self.slots().contains_key(id) ==> {
                &&& self.slots()[id].segment.start() as int % (
                self.slots()[id].segment.page().bytes() as int) == 0
                &&& self.indexed(id)
                &&& forall|other: SegmentId|
                    other != id && #[trigger] self.slots().contains_key(other) ==> self.apart(
                        id,
                        other,
                    )
            }
    }

    /// A cache stays well laid out while no segment moves and the index stays.
    pub proof fn lemma_layout_kept(&self, pre: &Self)
        requires
            pre.layout_ok(),
            forall|size: PageSize| #![trigger self.index(size)] self.index(size) == pre.index(size),
            self.slots().dom() == pre.slots().dom(),
            forall|id: SegmentId| #[trigger]
                self.slots().contains_key(id) ==> self.slots()[id].segment.same_extent(
                    &pre.slots()[id].segment,
                ),
        ensures
            self.layout_ok(),
    {
        assert forall|id: SegmentId| #[trigger] self.slots().contains_key(id) implies {
            &&& self.slots()[id].segment.start() as int % (self.slots()[id].segment.page().bytes() as int)
                == 0
            &&& self.indexed(id)
            &&& forall|other: SegmentId|
                other != id && #[trigger] self.slots().contains_key(other) ==> self.apart(id, other)
        } by {
            assert(pre.slots().contains_key(id));
            assert(pre.indexed(id));
            let seg = self.slots()[id].segment;
            assert forall|k: int| 0 <= k < seg.pages() implies {
                let addr = (seg.start() + #[trigger] (k * seg.page().bytes())) as usize;
                self.index(seg.page()).contains_key(addr) && self.index(seg.page())[addr] == id
            } by {
                assert(self.index(seg.page()) == pre.index(seg.page()));
            }
            assert forall|other: SegmentId|
                other != id && #[trigger] self.slots().contains_key(other) implies self.apart(
                id,
                other,
            ) by {
                assert(pre.slots().contains_key(other));
                assert(pre.apart(id, other));
            }
        }
    }

    /// Reconciliation keeps a cache well laid out.
    pub proof fn lemma_reconcile_keeps_layout(
        &self,
        pre: &Self,
        private_info: Slab::PrivateInfo,
        outcome: ReconcileOutcome,
    )
        requires
            pre.layout_ok(),
            self.reconciled_from(pre, private_info, outcome),
        ensures
            self.layout_ok(),
    {
        assert forall|id: SegmentId| #[trigger]
            self.slots().contains_key(id) implies self.slots()[id].segment.same_extent(
            &pre.slots()[id].segment,
        ) by {
            assert(slot_reconciled(
                pre.slots()[id],
                self.slots()[id],
                pre.pinned().contains(id),
                pre.policy().desired().contains(id),
                private_info,
            ));
        }
        self.lemma_layout_kept(pre);
    }

    /// A completion keeps a cache well laid out.
    pub proof fn lemma_completion_keeps_layout(&self, pre: &Self, addr: usize)
        requires
            pre.registry_ok(),
            pre.layout_ok(),
            self.completed_from(pre, addr),
        ensures
            self.layout_ok(),
    {
        pre.lemma_resolved_is_registered(addr);
        assert(self.slots().dom() =~= pre.slots().dom());
        assert forall|id: SegmentId| #[trigger]
            self.slots().contains_key(id) implies self.slots()[id].segment.same_extent(
            &pre.slots()[id].segment,
        ) by {
            assert(pre.slots().contains_key(id));
        }
        self.lemma_layout_kept(pre);
    }

    /// A lookup in periodic mode keeps a cache well laid out.
    pub proof fn lemma_lookup_keeps_layout(
        &self,
        pre: &Self,
        id: SegmentId,
        reply: Option<(u64, Slab::IOInfo)>,
    )
        requires
            pre.layout_ok(),
            pre.slots().contains_key(id),
            self.looked_up_from(pre, id, reply),
        ensures
            self.layout_ok(),
    {
        assert(self.slots().dom() =~= pre.slots().dom());
        assert forall|x: SegmentId| #[trigger]
            self.slots().contains_key(x) implies self.slots()[x].segment.same_extent(
            &pre.slots()[x].segment,
        ) by {
            assert(pre.slots().contains_key(x));
        }
        self.lemma_layout_kept(pre);
    }

    /// A lookup in on-demand mode keeps a cache well laid out.
    pub proof fn lemma_admission_keeps_layout(
        &self,
        pre: &Self,
        mid: CB,
        id: SegmentId,
        private_info: Slab::PrivateInfo,
        reply: Result<Option<(u64, Slab::IOInfo)>, ZccError>,
    )
        requires
            pre.layout_ok(),
            pre.slots().contains_key(id),
            mid.victim(id) matches Some(e) ==> pre.slots().contains_key(e),
            self.admitted_from(pre, mid, id, private_info, reply),
        ensures
            self.layout_ok(),
    {
        assert forall|x: SegmentId| #[trigger]
            self.slots().contains_key(x) implies self.slots()[x].segment.same_extent(
            &pre.slots()[x].segment,
        ) by {
            assert(pre.slots().contains_key(x));
        }
        self.lemma_layout_kept(pre);
    }

    /// A page of a segment lies inside the segment, and so does every address
    /// on that page.
    pub proof fn lemma_page_inside(&self, addr: usize, page_start: usize, size: PageSize, id: SegmentId)
        requires
            self.registry_ok(),
            self.is_page_of(page_start, size, id),
            page_start <= addr < page_start + size.bytes(),
        ensures
            self.slots().contains_key(id),
            self.slots()[id].segment.page() == size,
            self.slots()[id].segment.contains_addr(addr as int),
    {
        let seg = self.slots()[id].segment;
        let b = size.bytes() as int;
        let k = choose|k: int|
            0 <= k < seg.pages() && page_start == seg.start() + #[trigger] (k * size.bytes());
        assert(k * b >= 0 && (k + 1) * b <= seg.pages() * b) by (nonlinear_arith)
            requires
                0 <= k < seg.pages(),
                b > 0,
        ;
        assert((k + 1) * b == k * b + b) by (nonlinear_arith);
    }

    /// The address an index lookup uses lies at most one page below the buffer
    /// address.
    pub proof fn lemma_floor_bounds(addr: usize, size: PageSize)
        ensures
            0 <= page_floor(addr as int, size.bytes() as int) <= addr,
            addr < page_floor(addr as int, size.bytes() as int) + size.bytes(),
            page_floor(addr as int, size.bytes() as int) % (size.bytes() as int) == 0,
    {
        let a = addr as int;
        match size {
            PageSize::PG4KB => {
                assert(0 <= a % 0x1000 < 0x1000);
                assert((a - a % 0x1000) % 0x1000 == 0);
            },
            PageSize::PG2MB => {
                assert(0 <= a % 0x20_0000 < 0x20_0000);
                assert((a - a % 0x20_0000) % 0x20_0000 == 0);
            },
            PageSize::PG1GB => {
                assert(0 <= a % 0x4000_0000 < 0x4000_0000);
                assert((a - a % 0x4000_0000) % 0x4000_0000 == 0);
            },
        }
    }

    /// An address resolves only to a registered segment that holds it.
    pub proof fn lemma_resolve_sound(&self, addr: usize)
        requires
            self.registry_ok(),
        ensures
            self.resolve(addr) matches Some(id) ==> self.slots().contains_key(id)
                && self.slots()[id].segment.contains_addr(addr as int),
    {
        Self::lemma_floor_bounds(addr, PageSize::PG2MB);
        Self::lemma_floor_bounds(addr, PageSize::PG4KB);
        Self::lemma_floor_bounds(addr, PageSize::PG1GB);
        let p2 = page_floor(addr as int, 0x20_0000) as usize;
        let p4 = page_floor(addr as int, 0x1000) as usize;
        let p1 = page_floor(addr as int, 0x4000_0000) as usize;
        match self.resolve(addr) {
            Some(id) => {
                if self.index(PageSize::PG2MB).contains_key(p2) {
                    assert(self.is_page_of(p2, PageSize::PG2MB, id));
                    self.lemma_page_inside(addr, p2, PageSize::PG2MB, id);
                } else if self.index(PageSize::PG4KB).contains_key(p4) {
                    assert(self.is_page_of(p4, PageSize::PG4KB, id));
                    self.lemma_page_inside(addr, p4, PageSize::PG4KB, id);
                } else {
                    assert(self.index(PageSize::PG1GB).contains_key(p1));
                    assert(self.is_page_of(p1, PageSize::PG1GB, id));
                    self.lemma_page_inside(addr, p1, PageSize::PG1GB, id);
                }
            },
            None => {},
        }
    }

    /// In a well laid out cache, an address that is in the index for two page
    /// sizes is there under the same segment: the index maps each page start to
    /// one segment.
    pub proof fn lemma_index_is_a_function(&self, addr: usize, one: PageSize, other: PageSize)
        requires
            self.registry_ok(),
            self.layout_ok(),
            self.index(one).contains_key(addr),
            self.index(other).contains_key(addr),
        ensures
            self.index(one)[addr] == self.index(other)[addr],
    {
        let a = self.index(one)[addr];
        let b = self.index(other)[addr];
        assert(self.is_page_of(addr, one, a));
        assert(self.is_page_of(addr, other, b));
        self.lemma_page_inside(addr, addr, one, a);
        self.lemma_page_inside(addr, addr, other, b);
        if a != b {
            assert(self.apart(a, b));
        }
    }

    /// An address that no registered segment holds does not resolve.
    pub proof fn lemma_outside_unresolved(&self, addr: usize)
        requires
            self.registry_ok(),
            forall|id: SegmentId| #[trigger]
                self.slots().contains_key(id) ==> !self.slots()[id].segment.contains_addr(
                    addr as int,
                ),
        ensures
            self.resolve(addr) is None,
    {
        self.lemma_resolve_sound(addr);
    }

    /// In a well laid out cache, every address inside a registered segment
    /// resolves to that segment: the first byte, the last byte and every page
    /// boundary in between.
    pub proof fn lemma_resolve_complete(&self, id: SegmentId, addr: usize)
        requires
            self.registry_ok(),
            self.layout_ok(),
            self.slots().contains_key(id),
            self.slots()[id].segment.contains_addr(addr as int),
        ensures
            self.resolve(addr) == Some(id),
    {
        let seg = self.slots()[id].segment;
        let size = seg.page();
        let b = size.bytes() as int;
        let start = seg.start() as int;
        Self::lemma_floor_bounds(addr, size);
        let p = page_floor(addr as int, b);
        let k = (p - start) / b;
        assert(start % b == 0);
        assert(p % b == 0);
        assert(p >= start && (p - start) % b == 0 && k * b == p - start && k < seg.pages()) by {
            vstd::arithmetic::div_mod::lemma_fundamental_div_mod(start, b);
            vstd::arithmetic::div_mod::lemma_fundamental_div_mod(p, b);
            let s = start / b;
            let t = p / b;
            assert(start == b * s);
            assert(p == b * t);
            assert(t >= s) by (nonlinear_arith)
                requires
                    b * t + b > b * s,
                    b > 0,
            ;
            assert(p - start == b * (t - s)) by (nonlinear_arith)
                requires
                    start == b * s,
                    p == b * t,
            ;
            vstd::arithmetic::div_mod::lemma_fundamental_div_mod_converse(p - start, b, t - s, 0);
            assert(k == t - s);
            assert(k * b == p - start) by (nonlinear_arith)
                requires
                    p - start == b * (t - s),
                    k == t - s,
            ;
            assert(k < seg.pages()) by (nonlinear_arith)
                requires
                    k * b == p - start,
                    p <= addr,
                    addr < start + seg.pages() * b,
                    b > 0,
            ;
        }
        assert(self.indexed(id));
        assert(p == start + k * size.bytes());
        assert(self.index(size).contains_key(p as usize) && self.index(size)[p as usize] == id);
        self.lemma_resolve_sound(addr);
        match self.resolve(addr) {
            Some(found) => {
                if found != id {
                    assert(self.apart(id, found));
                }
            },
            None => {},
        }
    }

    /// Registering a memory pool keeps the cache well laid out, provided the
    /// pool starts on a boundary of its page size and shares no byte with a
    /// segment that is already registered.
    pub proof fn lemma_registration_keeps_layout(
        &self,
        pre: &Self,
        slab: &Slab,
        register_at_start: bool,
        private_info: Slab::PrivateInfo,
    )
        requires
            pre.registry_ok(),
            pre.layout_ok(),
            pre.accepts(slab),
            self.registered_from(pre, slab, register_at_start, private_info),
            slab.start_address() as int % (slab.page_size().bytes() as int) == 0,
            forall|id: SegmentId| #[trigger]
                pre.slots().contains_key(id) ==> pre.slots()[id].segment.end() <= slab.start_address()
                    || slab.start_address() + slab.total_num_pages() * slab.page_size().bytes()
                    <= pre.slots()[id].segment.start(),
        ensures
            self.layout_ok(),
    {
        let slab_id = slab.slab_id();
        let size = slab.page_size();
        let b = size.bytes() as int;
        let ss = pre.segment_bytes() as int;
        let start = slab.start_address() as int;
        let total = slab.total_num_pages() as int;
        let n = pre.segments_in(slab) as int;
        let q = ss / b;
        crate::data_structures::cache::registration::lemma_cut(total, b, ss);
        let pages = slab_pages(slab_id, slab.start_address(), total as nat, size, pre.segment_bytes());
        assert forall|id: SegmentId| #[trigger] pre.slots().contains_key(id) implies id.slab_id
            != slab_id by {
            assert(pre.knows_slab(id.slab_id));
        }
        assert forall|id: SegmentId| #[trigger] self.slots().contains_key(id) implies {
            &&& self.slots()[id].segment.start() as int % (self.slots()[id].segment.page().bytes() as int)
                == 0
            &&& self.indexed(id)
            &&& forall|other: SegmentId|
                other != id && #[trigger] self.slots().contains_key(other) ==> self.apart(id, other)
        } by {
            let seg = self.slots()[id].segment;
            if pre.slots().contains_key(id) {
                assert(self.slots()[id] == pre.slots()[id]);
                assert(pre.indexed(id));
                assert forall|k: int| 0 <= k < seg.pages() implies {
                    let addr = (seg.start() + #[trigger] (k * seg.page().bytes())) as usize;
                    self.index(seg.page()).contains_key(addr) && self.index(seg.page())[addr] == id
                } by {
                    let addr = (seg.start() + k * seg.page().bytes()) as usize;
                    let kb = k * seg.page().bytes();
                    assert(0 <= kb && kb + seg.page().bytes() <= seg.pages() * seg.page().bytes())
                        by (nonlinear_arith)
                        requires
                            0 <= k < seg.pages(),
                            kb == k * seg.page().bytes(),
                            seg.page().bytes() > 0,
                    ;
                    assert(pre.index(seg.page()).contains_key(addr) && pre.index(seg.page())[addr]
                        == id);
                    if seg.page() == size {
                        if pages.contains_key(addr) {
                            let j = choose|j: nat|
                                j < total as nat && addr == slab.start_address() + #[trigger] (j
                                    * size.bytes());
                            assert(0 <= j * b && j * b < total * b) by (nonlinear_arith)
                                requires
                                    0 <= j < total,
                                    b > 0,
                            ;
                            assert(false);
                        }
                    } else {
                        assert(self.index(seg.page()) == pre.index(seg.page()));
                    }
                }
                assert forall|other: SegmentId|
                    other != id && #[trigger] self.slots().contains_key(other) implies self.apart(
                    id,
                    other,
                ) by {
                    if pre.slots().contains_key(other) {
                        assert(self.slots()[other] == pre.slots()[other]);
                        assert(pre.apart(id, other));
                    } else {
                        let fresh = self.slots()[other];
                        assert(pre.placed_slot(fresh, slab, other.index as int));
                        Self::lemma_segment_within(start, ss, n, other.index as int, b, q);
                    }
                }
            } else {
                let i = id.index as int;
                assert(pre.placed_slot(self.slots()[id], slab, i));
                Self::lemma_segment_within(start, ss, n, i, b, q);
                assert((start + i * ss) % b == 0) by {
                    assert(i * ss == (i * q) * b) by (nonlinear_arith)
                        requires
                            q * b == ss,
                    ;
                    vstd::arithmetic::div_mod::lemma_mod_multiples_vanish(i * q, start, b);
                }
                assert forall|k: int| 0 <= k < seg.pages() implies {
                    let addr = (seg.start() + #[trigger] (k * seg.page().bytes())) as usize;
                    self.index(seg.page()).contains_key(addr) && self.index(seg.page())[addr] == id
                } by {
                    let kb = k * b;
                    assert(0 <= kb && kb < ss) by (nonlinear_arith)
                        requires
                            0 <= k < q,
                            q * b == ss,
                            kb == k * b,
                            b > 0,
                    ;
                    let addr = (start + i * ss + kb) as usize;
                    let j = (i * q + k) as nat;
                    assert(j * b == i * ss + kb) by (nonlinear_arith)
                        requires
                            j == i * q + k,
                            q * b == ss,
                            kb == k * b,
                    ;
                    assert(j < total) by (nonlinear_arith)
                        requires
                            j == i * q + k,
                            0 <= k < q,
                            0 <= i < n,
                            n * q == total,
                    ;
                    assert(addr == slab.start_address() + j * size.bytes());
                    assert(pages.contains_key(addr));
                    vstd::arithmetic::div_mod::lemma_fundamental_div_mod_converse(
                        i * ss + kb,
                        ss,
                        i,
                        kb,
                    );
                    assert(pages[addr] == id);
                }
                assert forall|other: SegmentId|
                    other != id && #[trigger] self.slots().contains_key(other) implies self.apart(
                    id,
                    other,
                ) by {
                    if pre.slots().contains_key(other) {
                        assert(self.slots()[other] == pre.slots()[other]);
                    } else {
                        let i2 = other.index as int;
                        assert(pre.placed_slot(self.slots()[other], slab, i2));
                        Self::lemma_segment_within(start, ss, n, i2, b, q);
                        if i < i2 {
                            assert((i + 1) * ss <= i2 * ss) by (nonlinear_arith)
                                requires
                                    i + 1 <= i2,
                                    ss > 0,
                            ;
                        } else {
                            assert((i2 + 1) * ss <= i * ss) by (nonlinear_arith)
                                requires
                                    i2 + 1 <= i,
                                    ss > 0,
                            ;
                        }
                    }
                }
            }
        }
    }

    /// After a memory pool that starts on a boundary of its page size and shares
    /// no byte with what was registered before has been registered in a well
    /// laid out cache, every address in the pool resolves to the segment of the
    /// pool it lies in.
    pub proof fn lemma_registered_addresses_resolve(
        &self,
        pre: &Self,
        slab: &Slab,
        register_at_start: bool,
        private_info: Slab::PrivateInfo,
        addr: usize,
    )
        requires
            pre.registry_ok(),
            pre.layout_ok(),
            pre.accepts(slab),
            self.registry_ok(),
            self.registered_from(pre, slab, register_at_start, private_info),
            slab.start_address() as int % (slab.page_size().bytes() as int) == 0,
            forall|id: SegmentId| #[trigger]
                pre.slots().contains_key(id) ==> pre.slots()[id].segment.end() <= slab.start_address()
                    || slab.start_address() + slab.total_num_pages() * slab.page_size().bytes()
                    <= pre.slots()[id].segment.start(),
            slab.start_address() <= addr < slab.start_address() + slab.total_num_pages()
                * slab.page_size().bytes(),
        ensures
            self.resolve(addr) == Some(
                SegmentId {
                    slab_id: slab.slab_id(),
                    index: ((addr - slab.start_address()) / (pre.segment_bytes() as int)) as usize,
                },
            ),
    {
        let b = slab.page_size().bytes() as int;
        let ss = pre.segment_bytes() as int;
        let start = slab.start_address() as int;
        let total = slab.total_num_pages() as int;
        let n = pre.segments_in(slab) as int;
        crate::data_structures::cache::registration::lemma_cut(total, b, ss);
        let off = addr - start;
        let i = off / ss;
        vstd::arithmetic::div_mod::lemma_fundamental_div_mod(off, ss);
        assert(0 <= i < n) by (nonlinear_arith)
            requires
                off == ss * i + off % ss,
                0 <= off % ss < ss,
                0 <= off < n * ss,
                ss > 0,
        ;
        let id = SegmentId { slab_id: slab.slab_id(), index: i as usize };
        assert(self.slots().contains_key(id));
        assert(pre.placed_slot(self.slots()[id], slab, i));
        assert(ss * i == i * ss) by (nonlinear_arith);
        self.lemma_registration_keeps_layout(pre, slab, register_at_start, private_info);
        self.lemma_resolve_complete(id, addr);
    }

    /// The least of two numbers.
    pub open spec fn least_of(a: int, b: int) -> int {
        if a <= b {
            a
        } else {
            b
        }
    }

    /// When a pool that grants every pin request is registered with
    /// `register_at_start`, as many of its first `i` segments are pinned as the
    /// budget had room for.
    pub proof fn lemma_granted_count(
        &self,
        pre: &Self,
        slab: &Slab,
        private_info: Slab::PrivateInfo,
        i: nat,
    )
        requires
            pre.well_formed(),
            pre.accepts(slab),
            self.registered_from(pre, slab, true, private_info),
            forall|addr: usize, len: usize, state: Slab::PinningState| #[trigger]
                Slab::pin_effect(slab.initial_state(), private_info, addr, len, state)
                    ==> Slab::pinned(state),
            i <= pre.segments_in(slab),
        ensures
            pre.pinned().len() <= pre.policy().limit(),
            pinned_among(self.slots(), slab.slab_id(), i) == Self::least_of(
                i as int,
                pre.policy().limit() - pre.pinned().len(),
            ),
        decreases i,
    {
        pre.policy().lemma_within_limit();
        if i > 0 {
            self.lemma_granted_count(pre, slab, private_info, (i - 1) as nat);
            let b = slab.page_size().bytes() as int;
            let ss = pre.segment_bytes() as int;
            let total = slab.total_num_pages() as int;
            crate::data_structures::cache::registration::lemma_cut(total, b, ss);
            assert(pre.segments_in(slab) * ss <= usize::MAX);
            assert(pre.segments_in(slab) <= usize::MAX) by (nonlinear_arith)
                requires
                    pre.segments_in(slab) * ss <= usize::MAX,
                    ss >= 1,
            ;
            let last = SegmentId { slab_id: slab.slab_id(), index: (i - 1) as usize };
            let asked = self.has_room(pre, slab, (i - 1) as nat, true);
            assert(pre.fresh_slot(self.slots()[last], slab, i - 1, asked, private_info));
        }
    }

    /// When a pool that grants every pin request is registered with
    /// `register_at_start`, its segments are pinned in ascending order until the
    /// budget is used up: segment number `i` is pinned and held exactly if the
    /// segments held before and `i` more leave room below the limit, and every
    /// later segment is in the pool's initial state.
    pub proof fn lemma_registration_fills_budget(
        &self,
        pre: &Self,
        slab: &Slab,
        private_info: Slab::PrivateInfo,
        id: SegmentId,
    )
        requires
            pre.well_formed(),
            pre.accepts(slab),
            self.registered_from(pre, slab, true, private_info),
            forall|addr: usize, len: usize, state: Slab::PinningState| #[trigger]
                Slab::pin_effect(slab.initial_state(), private_info, addr, len, state)
                    ==> Slab::pinned(state),
            id.slab_id == slab.slab_id(),
            id.index < pre.segments_in(slab),
        ensures
            self.slots()[id].segment.pinned() <==> pre.pinned().len() + id.index
                < pre.policy().limit(),
            self.pinned().contains(id) <==> self.slots()[id].segment.pinned(),
            if pre.pinned().len() + id.index < pre.policy().limit() {
                Slab::pin_effect(
                    slab.initial_state(),
                    private_info,
                    self.slots()[id].segment.start(),
                    pre.segment_bytes(),
                    self.slots()[id].segment.state(),
                )
            } else {
                self.slots()[id].segment.state() == slab.initial_state()
            },
            self.pinned().len() == pre.pinned().len() + Self::least_of(
                pre.segments_in(slab) as int,
                pre.policy().limit() - pre.pinned().len(),
            ),
    {
        self.lemma_granted_count(pre, slab, private_info, id.index as nat);
        self.lemma_granted_count(pre, slab, private_info, pre.segments_in(slab));
        let asked = self.has_room(pre, slab, id.index as nat, true);
        assert(pre.fresh_slot(self.slots()[id], slab, id.index as int, asked, private_info));
        assert(!pre.pinned().contains(id)) by {
            if pre.pinned().contains(id) {
                assert(pre.slots().contains_key(id));
                assert(pre.knows_slab(id.slab_id));
            }
        }
    }

    /// Without `register_at_start`, registration pins nothing: every segment of
    /// the pool is in the pool's initial state, and the pinned set is as before.
    pub proof fn lemma_registration_without_pinning(
        &self,
        pre: &Self,
        slab: &Slab,
        private_info: Slab::PrivateInfo,
        id: SegmentId,
    )
        requires
            pre.well_formed(),
            self.registered_from(pre, slab, false, private_info),
            id.slab_id == slab.slab_id(),
            id.index < pre.segments_in(slab),
        ensures
            self.slots()[id].segment.state() == slab.initial_state(),
            !self.slots()[id].segment.pinned(),
            self.pinned() == pre.pinned(),
    {
        let asked = self.has_room(pre, slab, id.index as nat, false);
        assert(pre.fresh_slot(self.slots()[id], slab, id.index as int, asked, private_info));
    }

    /// Segment number `i` of a memory pool of `n` segments lies within the pool.
    pub proof fn lemma_segment_within(start: int, segment: int, n: int, i: int, page: int, per: int)
        requires
            0 <= i < n,
            segment > 0,
            per * page == segment,
        ensures
            start <= start + i * segment,
            start + i * segment + per * page == start + (i + 1) * segment,
            start + (i + 1) * segment <= start + n * segment,
    {
        assert(0 <= i * segment) by (nonlinear_arith)
            requires
                0 <= i,
                segment > 0,
        ;
        assert((i + 1) * segment == i * segment + segment) by (nonlinear_arith);
        assert((i + 1) * segment <= n * segment) by (nonlinear_arith)
            requires
                i + 1 <= n,
                segment > 0,
        ;
    }

    /// A cache with a budget of zero bytes has no segment, and no address
    /// resolves in it.
    pub proof fn lemma_no_budget_no_segment(&self, addr: usize)
        requires
            self.well_formed(),
            self.segment_bytes() == 0,
        ensures
            self.slots() == Map::<SegmentId, SegmentSlot<Slab>>::empty(),
            self.resolve(addr) is None,
    {
        assert forall|id: SegmentId| !self.slots().contains_key(id) by {
            if self.slots().contains_key(id) {
                self.lemma_registered_means_budget(id);
            }
        }
        assert(self.slots() =~= Map::<SegmentId, SegmentSlot<Slab>>::empty());
        self.lemma_resolve_sound(addr);
    }

    /// Every segment the policy holds as pinned is registered and pinned.
    pub proof fn lemma_held_is_pinned(&self, id: SegmentId)
        requires
            self.well_formed(),
            self.pinned().contains(id),
        ensures
            self.slots().contains_key(id),
            self.slots()[id].segment.pinned(),
    {
    }

    /// The registered segments that are pinned are the segments the policy
    /// holds, so no more segments are pinned than the budget allows.
    pub proof fn lemma_pinned_within_budget(&self)
        requires
            self.well_formed(),
        ensures
            Set::new(
                |id: SegmentId| self.slots().contains_key(id) && self.slots()[id].segment.pinned(),
            ) == self.pinned(),
            self.pinned().finite(),
            self.pinned().len() <= self.policy().limit(),
            self.pinned().len() * self.segment_bytes() <= self.limit_bytes(),
    {
        let pinned_slots = Set::new(
            |id: SegmentId| self.slots().contains_key(id) && self.slots()[id].segment.pinned(),
        );
        assert(pinned_slots =~= self.pinned());
        self.policy().lemma_within_limit();
        let n = self.pinned().len();
        let ss = self.segment_bytes() as nat;
        let pl = self.limit_bytes() as nat;
        if ss > 0 {
            assert(n * ss <= (pl / ss) * ss) by (nonlinear_arith)
                requires
                    n <= pl / ss,
            ;
            assert((pl / ss) * ss <= pl) by (nonlinear_arith)
                requires
                    ss > 0,
            ;
        } else {
            assert(n * ss == 0) by (nonlinear_arith)
                requires
                    ss == 0,
            ;
        }
    }

    /// After a pass that converged, the pinned segments are the wanted ones: a
    /// registered segment is pinned exactly if the policy wanted it.
    pub proof fn lemma_converged_pins_the_wanted(
        &self,
        pre: &Self,
        private_info: Slab::PrivateInfo,
        id: SegmentId,
    )
        requires
            self.well_formed(),
            self.reconciled_from(pre, private_info, ReconcileOutcome::Converged),
            self.slots().contains_key(id),
        ensures
            self.pinned() == pre.policy().desired(),
            self.slots()[id].segment.pinned() <==> pre.policy().desired().contains(id),
    {
    }

    /// In on-demand mode, a lookup of a registered segment that is not pinned,
    /// with the pinned set full, costs exactly one held segment its place: that
    /// segment takes an unpin step, and if the pool releases it and then pins
    /// the segment looked up, the reply carries the I/O info, the segment
    /// looked up takes the place in the pinned set, and as many segments are
    /// held as before.
    pub proof fn lemma_admission_at_capacity(
        &self,
        pre: &Self,
        mid: CB,
        id: SegmentId,
        private_info: Slab::PrivateInfo,
        reply: Result<Option<(u64, Slab::IOInfo)>, ZccError>,
    )
        requires
            pre.well_formed(),
            pre.slots().contains_key(id),
            !pre.slots()[id].segment.pinned(),
            pre.pinned().len() == pre.policy().limit(),
            self.admitted_from(pre, mid, id, private_info, reply),
        ensures
            mid.victim(id) matches Some(e) && {
                &&& e != id
                &&& pre.pinned().contains(e)
                &&& self.slots()[e].unpinned_from(&pre.slots()[e])
                &&& !self.slots()[e].segment.pinned() ==> self.slots()[id].pinned_from(
                    &pre.slots()[id],
                    private_info,
                )
                &&& !self.slots()[e].segment.pinned() && self.slots()[id].segment.pinned() ==> {
                    &&& reply == Ok::<Option<(u64, Slab::IOInfo)>, ZccError>(
                        Some((id.slab_id, Slab::io_info(self.slots()[id].segment.state()))),
                    )
                    &&& self.pinned() == pre.pinned().remove(e).insert(id)
                    &&& self.pinned().len() == pre.pinned().len()
                }
            },
    {
        pre.lemma_registered_means_budget(id);
        mid.lemma_victim(id);
        pre.policy().lemma_within_limit();
        assert(!pre.pinned().contains(id));
        let e = mid.victim(id)->0;
        assert(pre.pinned().contains(e));
    }

    /// Reconciliation never changes an in-flight count, and never touches the
    /// pinning state of a pinned segment that has I/O in flight.
    pub proof fn lemma_reconcile_spares_busy(
        &self,
        pre: &Self,
        private_info: Slab::PrivateInfo,
        outcome: ReconcileOutcome,
        id: SegmentId,
    )
        requires
            self.reconciled_from(pre, private_info, outcome),
            pre.slots().contains_key(id),
        ensures
            self.slots().contains_key(id),
            self.slots()[id].in_flight == pre.slots()[id].in_flight,
            pre.slots()[id].segment.pinned() && pre.slots()[id].in_flight > 0
                ==> self.slots()[id].segment.state() == pre.slots()[id].segment.state(),
    {
        assert(self.slots().contains_key(id));
    }

    /// A reconciliation pass that follows a pass that converged, with no access
    /// in between, changes nothing: it converges again on the same pinned set
    /// and leaves every slot as it is.
    pub proof fn lemma_reconcile_idempotent(
        first: &Self,
        second: &Self,
        third: &Self,
        private_info: Slab::PrivateInfo,
        later_info: Slab::PrivateInfo,
        outcome: ReconcileOutcome,
    )
        requires
            first.well_formed(),
            second.reconciled_from(first, private_info, ReconcileOutcome::Converged),
            third.reconciled_from(second, later_info, outcome),
        ensures
            outcome == ReconcileOutcome::Converged,
            third.pinned() == second.pinned(),
            third.slots() == second.slots(),
    {
        let held = second.pinned();
        let wanted = second.policy().desired();
        assert(held == wanted);
        assert forall|id: SegmentId| #[trigger] third.slots().contains_key(id) implies third.slots()[id]
            == second.slots()[id] by {
            assert(second.slots().contains_key(id));
            assert(first.slots().contains_key(id));
            assert(slot_reconciled(
                second.slots()[id],
                third.slots()[id],
                held.contains(id),
                wanted.contains(id),
                later_info,
            ));
            assert(slot_reconciled(
                first.slots()[id],
                second.slots()[id],
                first.pinned().contains(id),
                first.policy().desired().contains(id),
                private_info,
            ));
            if held.contains(id) {
                assert(!second.slots()[id].quiescing);
            }
        }
        assert(third.slots() =~= second.slots());
        assert(third.pinned() =~= wanted) by {
            assert forall|id: SegmentId| wanted.contains(id) implies third.pinned().contains(id) by {
                assert(held.contains(id));
            }
        }
    }
}

} // verus!
