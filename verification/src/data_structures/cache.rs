//! The zero-copy pinning cache: the registry of segments, the index from page
//! addresses to segments, and what holds of them at all times.
use vstd::prelude::*;
use std::collections::HashMap;
use std::time::Duration;
use crate::pagesizes::{closest_1g_page, closest_2mb_page, closest_4k_page, page_floor, PageSize};
use crate::data_structures::error::ZccError;
use crate::data_structures::metrics::Metrics;
use crate::data_structures::policy::CacheBuilder;
use crate::data_structures::segment_id::{SegmentId, SegmentSet};
use crate::data_structures::slab::{DatapathSlab, SegmentSlot};

pub mod fast_path;
pub mod laws;
pub mod reconcile;
pub mod registration;

verus! {

broadcast use vstd::std_specs::hash::group_hash_axioms;

/// Whether a pinning limit and a segment size fit together: the segment is no
/// larger than the limit, and the limit is a whole number of segments (both may
/// be zero).
pub open spec fn valid_config(pinning_limit: usize, segment_size: usize) -> bool {
    &&& segment_size <= pinning_limit
    &&& (segment_size == 0 && pinning_limit == 0 || segment_size > 0 && pinning_limit
        % segment_size == 0)
}

/// The number of segments that fit in the pinning limit.
pub open spec fn max_pinned(pinning_limit: usize, segment_size: usize) -> nat {
    if segment_size == 0 {
        0
    } else {
        (pinning_limit / segment_size) as nat
    }
}

/// The registry read by segment identifier instead of by packed key.
pub open spec fn slots_of<Slab: DatapathSlab>(
    registry: Map<u128, SegmentSlot<Slab>>,
) -> Map<SegmentId, SegmentSlot<Slab>> {
    Map::new(
        |id: SegmentId| registry.contains_key(id.spec_key()),
        |id: SegmentId| registry[id.spec_key()],
    )
}

/// Storing a slot under its identifier's key stores it under its identifier.
pub proof fn lemma_slots_insert<Slab: DatapathSlab>(
    registry: Map<u128, SegmentSlot<Slab>>,
    id: SegmentId,
    slot: SegmentSlot<Slab>,
)
    ensures
        slots_of(registry.insert(id.spec_key(), slot)) == slots_of(registry).insert(id, slot),
{
    assert(slots_of(registry.insert(id.spec_key(), slot)) =~= slots_of(registry).insert(id, slot));
}

/// `<[u8]>::as_ptr`: the address of the first byte of `buf`. Nothing is said of
/// it: where a buffer lies is not a property of what it holds.
#[verifier::external_body]
pub(crate) fn buffer_address(buf: &[u8]) -> (addr: usize) {
    buf.as_ptr() as usize
}

/// A cache that keeps the most valuable segments of the registered memory
/// pools pinned, within a byte budget.
pub struct ZeroCopyCache<Slab: DatapathSlab, CB: CacheBuilder> {
    /// Most bytes that can be pinned at once.
    pub(crate) pinning_limit: usize,
    /// Size in bytes of each segment.
    pub(crate) segment_size: usize,
    /// Whether segments are pinned when they are first touched.
    pub(crate) pin_on_demand: bool,
    /// Time the reconciler sleeps between two passes.
    pub(crate) sleep_duration: Duration,
    /// The registered segments with their in-flight counts, by packed identifier.
    pub(crate) segments: HashMap<u128, SegmentSlot<Slab>>,
    /// The replacement policy.
    pub(crate) cache_builder: CB,
    /// Start of each 2 MiB page of a registered segment, with the segment.
    pub(crate) page_cache_2mb: HashMap<usize, SegmentId>,
    /// Start of each 4 KiB page of a registered segment, with the segment.
    pub(crate) page_cache_4kb: HashMap<usize, SegmentId>,
    /// Start of each 1 GiB page of a registered segment, with the segment.
    pub(crate) page_cache_1gb: HashMap<usize, SegmentId>,
    /// Datapath handle for pin requests.
    pub(crate) priv_info: Slab::PrivateInfo,
    /// Hit and miss counters of the fast path.
    pub(crate) metrics: Metrics,
}

impl<Slab: DatapathSlab, CB: CacheBuilder> ZeroCopyCache<Slab, CB> {
    /// Most bytes that can be pinned at once.
    pub open(crate) spec fn limit_bytes(&self) -> usize {
        self.pinning_limit
    }

    /// Size in bytes of each segment.
    pub open(crate) spec fn segment_bytes(&self) -> usize {
        self.segment_size
    }

    /// Whether segments are pinned when they are first touched.
    pub open(crate) spec fn on_demand(&self) -> bool {
        self.pin_on_demand
    }

    /// Time the reconciler sleeps between two passes.
    pub open(crate) spec fn pause(&self) -> Duration {
        self.sleep_duration
    }

    /// The replacement policy.
    pub open(crate) spec fn policy(&self) -> CB {
        self.cache_builder
    }

    /// The registered segments with what the cache tracks about each.
    pub open(crate) spec fn slots(&self) -> Map<SegmentId, SegmentSlot<Slab>> {
        slots_of(self.segments@)
    }

    /// The page-address index for pages of the given size.
    pub open(crate) spec fn index(&self, size: PageSize) -> Map<usize, SegmentId> {
        match size {
            PageSize::PG4KB => self.page_cache_4kb@,
            PageSize::PG2MB => self.page_cache_2mb@,
            PageSize::PG1GB => self.page_cache_1gb@,
        }
    }

    /// The hit and miss counters.
    pub open(crate) spec fn counters(&self) -> Metrics {
        self.metrics
    }

    /// The datapath handle the cache was built with.
    pub open(crate) spec fn datapath(&self) -> Slab::PrivateInfo {
        self.priv_info
    }

    /// The segments the policy holds as pinned.
    pub open spec fn pinned(&self) -> Set<SegmentId> {
        self.policy().pinned()
    }

    /// The segment a buffer address belongs to: the index is asked for the
    /// 2 MiB page below the address, then the 4 KiB page, then the 1 GiB page,
    /// and the first answer counts.
    pub open spec fn resolve(&self, addr: usize) -> Option<SegmentId> {
        let page_2m = page_floor(addr as int, 0x20_0000) as usize;
        let page_4k = page_floor(addr as int, 0x1000) as usize;
        let page_1g = page_floor(addr as int, 0x4000_0000) as usize;
        if self.index(PageSize::PG2MB).contains_key(page_2m) {
            Some(self.index(PageSize::PG2MB)[page_2m])
        } else if self.index(PageSize::PG4KB).contains_key(page_4k) {
            Some(self.index(PageSize::PG4KB)[page_4k])
        } else if self.index(PageSize::PG1GB).contains_key(page_1g) {
            Some(self.index(PageSize::PG1GB)[page_1g])
        } else {
            None
        }
    }

    /// The sizes fit together and the policy's limit is the number of segments
    /// that fit in the budget.
    pub open spec fn config_ok(&self) -> bool {
        &&& valid_config(self.limit_bytes(), self.segment_bytes())
        &&& self.policy().well_formed()
        &&& self.policy().limit() == max_pinned(self.limit_bytes(), self.segment_bytes())
    }

    /// Every registry entry is stored under the key of its segment.
    pub open(crate) spec fn keyed(&self) -> bool {
        forall|k: u128| #[trigger]
            self.segments@.contains_key(k) ==> self.segments@[k].segment.id().spec_key() == k
    }

    /// Whether `addr` is the start of a page of segment `id`, whose pages have
    /// size `size`.
    pub open spec fn is_page_of(&self, addr: usize, size: PageSize, id: SegmentId) -> bool {
        &&& self.slots().contains_key(id)
        &&& self.slots()[id].segment.page() == size
        &&& exists|k: int|
            0 <= k < self.slots()[id].segment.pages() && addr == self.slots()[id].segment.start()
                + #[trigger] (k * size.bytes())
    }

    /// Whether a memory pool with this identity has been registered.
    pub open spec fn knows_slab(&self, slab_id: u64) -> bool {
        self.slots().contains_key(SegmentId { slab_id, index: 0 })
    }

    /// Every registered segment is well formed, of the cache's segment size and
    /// stored under its own identifier, and the first segment of its memory pool
    /// is registered too; every index entry is a page of the segment it names.
    pub open spec fn registry_ok(&self) -> bool {
        &&& self.keyed()
        &&& forall|id: SegmentId| #[trigger]
            self.slots().contains_key(id) ==> {
                &&& self.slots()[id].segment.id() == id
                &&& self.slots()[id].segment.well_formed()
                &&& self.slots()[id].segment.len_bytes() == self.segment_bytes()
                &&& self.knows_slab(id.slab_id)
            }
        &&& forall|size: PageSize, addr: usize| #[trigger]
            self.index(size).contains_key(addr) ==> self.is_page_of(
                addr,
                size,
                self.index(size)[addr],
            )
    }

    /// The segments the policy holds as pinned are the registered segments
    /// that are pinned; a quiescing segment is still held as pinned; and a cache
    /// that pins on demand tracks no in-flight I/O.
    pub open spec fn accounting_ok(&self) -> bool {
        &&& forall|id: SegmentId| #[trigger]
            self.pinned().contains(id) ==> self.slots().contains_key(id)
                && self.slots()[id].segment.pinned()
        &&& forall|id: SegmentId| #[trigger]
            self.slots().contains_key(id) && self.slots()[id].segment.pinned()
                ==> self.pinned().contains(id)
        &&& forall|id: SegmentId| #[trigger]
            self.slots().contains_key(id) && self.slots()[id].quiescing ==> self.pinned().contains(
                id,
            )
        &&& self.on_demand() ==> forall|id: SegmentId| #[trigger]
            self.slots().contains_key(id) ==> self.slots()[id].in_flight == 0
                && !self.slots()[id].quiescing
    }

    /// Whether this cache has the sizes, the mode and the index of `pre`.
    pub open spec fn same_layout(&self, pre: &Self) -> bool {
        &&& self.limit_bytes() == pre.limit_bytes()
        &&& self.segment_bytes() == pre.segment_bytes()
        &&& self.on_demand() == pre.on_demand()
        &&& self.pause() == pre.pause()
        &&& self.datapath() == pre.datapath()
        &&& forall|size: PageSize| #![trigger self.index(size)] self.index(size) == pre.index(size)
    }

    /// Whether this cache has the sizes, the mode, the index and the counters
    /// of `pre`.
    pub open spec fn same_setup(&self, pre: &Self) -> bool {
        &&& self.same_layout(pre)
        &&& self.counters() == pre.counters()
    }

    /// Whether this cache has the registered segments of `pre`, each with the
    /// slot it had in `pre`, except perhaps segment `id`.
    pub open spec fn only_slot_changed(&self, pre: &Self, id: SegmentId) -> bool {
        &&& self.slots().dom() == pre.slots().dom()
        &&& forall|other: SegmentId|
            other != id && #[trigger] self.slots().contains_key(other) ==> self.slots()[other]
                == pre.slots()[other]
    }

    /// A registry stays in order when no segment moves and the index stays.
    pub proof fn lemma_registry_kept(&self, pre: &Self)
        requires
            pre.registry_ok(),
            self.keyed(),
            self.segment_bytes() == pre.segment_bytes(),
            forall|size: PageSize| #![trigger self.index(size)] self.index(size) == pre.index(size),
            self.slots().dom() == pre.slots().dom(),
            forall|id: SegmentId| #[trigger]
                self.slots().contains_key(id) ==> self.slots()[id].segment.same_extent(
                    &pre.slots()[id].segment,
                ),
        ensures
            self.registry_ok(),
    {
        assert forall|id: SegmentId| #[trigger] self.slots().contains_key(id) implies {
            &&& self.slots()[id].segment.id() == id
            &&& self.slots()[id].segment.well_formed()
            &&& self.slots()[id].segment.len_bytes() == self.segment_bytes()
            &&& self.knows_slab(id.slab_id)
        } by {
            assert(pre.slots().contains_key(id));
            assert(pre.knows_slab(id.slab_id));
        }
        assert forall|size: PageSize, addr: usize| #[trigger]
            self.index(size).contains_key(addr) implies self.is_page_of(
            addr,
            size,
            self.index(size)[addr],
        ) by {
            assert(self.index(size) == pre.index(size));
            let id = pre.index(size)[addr];
            assert(pre.index(size).contains_key(addr));
            assert(pre.is_page_of(addr, size, id));
            assert(pre.slots().contains_key(id));
            assert(self.slots().contains_key(id));
            let k = choose|k: int|
                0 <= k < pre.slots()[id].segment.pages() && addr == pre.slots()[id].segment.start()
                    + #[trigger] (k * size.bytes());
            assert(0 <= k < self.slots()[id].segment.pages() && addr
                == self.slots()[id].segment.start() + k * size.bytes());
        }
    }

    /// What holds of a cache between any two calls.
    pub open spec fn well_formed(&self) -> bool {
        &&& self.config_ok()
        &&& self.registry_ok()
        &&& self.accounting_ok()
    }

    /// A cache with no memory pool registered yet.
    ///
    /// Fails with `InvalidConfig` exactly when the sizes do not fit together.
    pub fn new(
        pinning_limit: usize,
        segment_size: usize,
        pin_on_demand: bool,
        sleep_duration: Duration,
        priv_info: Slab::PrivateInfo,
    ) -> (made: Result<Self, ZccError>)
        ensures
            made is Ok <==> valid_config(pinning_limit, segment_size),
            made matches Err(e) ==> e == ZccError::InvalidConfig,
            made matches Ok(cache) ==> {
                &&& cache.well_formed()
                &&& cache.limit_bytes() == pinning_limit
                &&& cache.segment_bytes() == segment_size
                &&& cache.on_demand() == pin_on_demand
                &&& cache.pause() == sleep_duration
                &&& cache.datapath() == priv_info
                &&& cache.policy().blank()
                &&& cache.slots() == Map::<SegmentId, SegmentSlot<Slab>>::empty()
                &&& forall|size: PageSize|
                    #![trigger cache.index(size)]
                    cache.index(size) == Map::<usize, SegmentId>::empty()
                &&& cache.pinned() == Set::<SegmentId>::empty()
                &&& cache.layout_ok()
                &&& cache.counters().lookups() == 0
                &&& cache.counters().hits() == 0
                &&& cache.counters().misses() == 0
            },
    {
        if segment_size > pinning_limit {
            return Err(ZccError::InvalidConfig);
        }
        if !(segment_size == 0 && pinning_limit == 0) && (segment_size == 0 || pinning_limit
            % segment_size != 0) {
            return Err(ZccError::InvalidConfig);
        }
        let limit = if segment_size == 0 {
            0
        } else {
            pinning_limit / segment_size
        };
        let cache = ZeroCopyCache {
            pinning_limit,
            segment_size,
            pin_on_demand,
            sleep_duration,
            segments: HashMap::new(),
            cache_builder: CB::new(limit),
            page_cache_2mb: HashMap::new(),
            page_cache_4kb: HashMap::new(),
            page_cache_1gb: HashMap::new(),
            priv_info,
            metrics: Metrics::new(),
        };
        assert(cache.slots() =~= Map::<SegmentId, SegmentSlot<Slab>>::empty());
        Ok(cache)
    }

    /// Whether segments are pinned when they are first touched.
    pub fn pin_on_demand(&self) -> (on_demand: bool)
        ensures
            on_demand == self.on_demand(),
    {
        self.pin_on_demand
    }

    /// The datapath handle the cache was built with.
    pub fn private_info(&self) -> (handle: &Slab::PrivateInfo)
        ensures
            *handle == self.datapath(),
    {
        &self.priv_info
    }

    /// Time the reconciler sleeps between two passes.
    pub fn sleep_duration(&self) -> (pause: Duration)
        ensures
            pause == self.pause(),
    {
        self.sleep_duration
    }

    /// The number of bytes pinned right now: one segment size for each segment
    /// the policy holds as pinned. It never exceeds the pinning limit.
    pub fn current_bytes_pinned(&self) -> (bytes: usize)
        requires
            self.well_formed(),
        ensures
            bytes == self.pinned().len() * self.segment_bytes(),
            bytes <= self.limit_bytes(),
    {
        proof {
            self.cache_builder.lemma_within_limit();
            let n = self.pinned().len();
            let ss = self.segment_size as nat;
            let pl = self.pinning_limit as nat;
            if ss > 0 {
                assert(n * ss <= (pl / ss) * ss) by (nonlinear_arith)
                    requires
                        n <= pl / ss,
                ;
                assert((pl / ss) * ss <= pl) by (nonlinear_arith)
                    requires
                        ss > 0,
                ;
            } else {
                assert(n * ss == 0) by (nonlinear_arith)
                    requires
                        ss == 0,
                ;
            }
        }
        self.cache_builder.current_bytes_pinned(self.segment_size)
    }

    /// The segment a buffer starts in, if it starts in registered memory: what
    /// `get_segment_id_at` finds for the address of the buffer's first byte.
    pub fn get_segment_id(&self, buf: &[u8]) -> (found: Option<SegmentId>)
        ensures
            exists|addr: usize| found == #[trigger] self.resolve(addr),
    {
        let addr = buffer_address(buf);
        let found = self.get_segment_id_at(addr);
        assert(found == self.resolve(addr));
        found
    }

    /// The segment a buffer address belongs to, if the address lies in
    /// registered memory.
    pub fn get_segment_id_at(&self, addr: usize) -> (found: Option<SegmentId>)
        ensures
            found == self.resolve(addr),
    {
        match self.page_cache_2mb.get(&closest_2mb_page(addr)) {
            Some(m) => {
                return Some(*m);
            },
            None => {},
        }
        match self.page_cache_4kb.get(&closest_4k_page(addr)) {
            Some(m) => {
                return Some(*m);
            },
            None => {},
        }
        match self.page_cache_1gb.get(&closest_1g_page(addr)) {
            Some(m) => {
                return Some(*m);
            },
            None => {},
        }
        None
    }

    /// The slot of segment `id`, if it is registered.
    pub fn slot(&self, id: SegmentId) -> (found: Option<&SegmentSlot<Slab>>)
        ensures
            found is Some <==> self.slots().contains_key(id),
            found matches Some(slot) ==> *slot == self.slots()[id],
    {
        self.segments.get(&id.key())
    }

    /// Number of I/Os handed out on segment `id` and not yet completed.
    pub fn in_flight(&self, id: SegmentId) -> (count: Option<u64>)
        ensures
            count is Some <==> self.slots().contains_key(id),
            count matches Some(n) ==> n == self.slots()[id].in_flight,
    {
        match self.slot(id) {
            Some(slot) => Some(slot.in_flight),
            None => None,
        }
    }

    /// Whether an unpin of segment `id` is waiting for its I/Os to drain.
    pub fn is_quiescing(&self, id: SegmentId) -> (quiescing: Option<bool>)
        ensures
            quiescing is Some <==> self.slots().contains_key(id),
            quiescing matches Some(q) ==> q == self.slots()[id].quiescing,
    {
        match self.slot(id) {
            Some(slot) => Some(slot.quiescing),
            None => None,
        }
    }

    /// Whether the memory pool has segment `id` pinned.
    pub fn is_segment_pinned(&self, id: SegmentId) -> (pinned: Option<bool>)
        ensures
            pinned is Some <==> self.slots().contains_key(id),
            pinned matches Some(p) ==> p == self.slots()[id].segment.pinned(),
    {
        match self.slot(id) {
            Some(slot) => Some(slot.segment.is_pinned()),
            None => None,
        }
    }

    /// The segments the policy holds as pinned.
    pub fn pinned_segments(&self) -> (set: SegmentSet)
        requires
            self.well_formed(),
        ensures
            set@ == self.pinned(),
    {
        self.cache_builder.current_pinned_segments().clone()
    }

    /// Number of fast-path lookups so far. Hits and misses add up to it.
    pub fn total_count(&self) -> (n: u64)
        ensures
            n == self.counters().lookups(),
            self.counters().hits() + self.counters().misses() == self.counters().lookups(),
    {
        self.metrics.total_count()
    }

    /// Number of fast-path lookups that returned I/O info.
    pub fn hit_count(&self) -> (n: u64)
        ensures
            n == self.counters().hits(),
            self.counters().hits() + self.counters().misses() == self.counters().lookups(),
    {
        self.metrics.hit_count()
    }

    /// Number of fast-path lookups that returned nothing.
    pub fn miss_count(&self) -> (n: u64)
        ensures
            n == self.counters().misses(),
            self.counters().hits() + self.counters().misses() == self.counters().lookups(),
    {
        self.metrics.miss_count()
    }
}

} // verus!
