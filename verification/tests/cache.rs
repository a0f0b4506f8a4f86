use std::time::Duration;
use zero_copy_cache::data_structures::{
    CacheBuilder, DatapathSegment, DatapathSlab, LinkedListLruCache, MfuCache, NoAlgCache,
    OnDemandLruCache, ReconcileOutcome, SegmentId, SegmentSlot, TimestampLruCache, UnpinStatus,
    ZccError, ZeroCopyCache,
};
use zero_copy_cache::pagesizes::PageSize;

/// How the test memory pool answers a pin request.
#[derive(Clone, Copy, Debug, PartialEq, Eq)]
enum Device {
    /// Pins and unpins as asked.
    Willing,
    /// Never pins.
    RefusesPin,
    /// Pins, and then never unpins.
    KeepsPinned,
}

/// What the test memory pool remembers of a range: whether it is pinned, what
/// was last pinned, and how often it was asked to pin and to unpin.
#[derive(Clone, Copy, Debug, PartialEq, Eq)]
struct Registration {
    pinned: bool,
    sticky: bool,
    addr: usize,
    len: usize,
    pins: u32,
    unpins: u32,
}

/// An in-memory pool that records the pin and unpin requests it gets.
#[derive(Debug)]
struct TestSlab {
    id: u64,
    start: usize,
    pages: usize,
    page_size: PageSize,
}

impl DatapathSlab for TestSlab {
    type IOInfo = Registration;
    type PinningState = Registration;
    type PrivateInfo = Device;

    fn slab_id(&self) -> u64 {
        self.id
    }

    fn total_num_pages(&self) -> usize {
        self.pages
    }

    fn start_address(&self) -> usize {
        self.start
    }

    fn page_size(&self) -> PageSize {
        self.page_size
    }

    fn initial_state(&self) -> Registration {
        self.default_pinning_state()
    }

    fn pinned(state: Registration) -> bool {
        state.pinned
    }

    fn io_info(state: Registration) -> Registration {
        state
    }

    fn pin_effect(
        before: Registration,
        private_info: Device,
        start_address: usize,
        len: usize,
        after: Registration,
    ) -> bool {
        let mut state = before;
        Self::pin_segment(&mut state, &private_info, start_address, len);
        state == after
    }

    fn unpin_effect(before: Registration, after: Registration) -> bool {
        let mut state = before;
        Self::unpin_segment(&mut state);
        state == after
    }

    fn default_pinning_state(&self) -> Registration {
        Registration { pinned: false, sticky: false, addr: 0, len: 0, pins: 0, unpins: 0 }
    }

    fn get_slab_id(&self) -> u64 {
        self.id
    }

    fn is_pinned(state: &Registration) -> bool {
        state.pinned
    }

    fn pin_segment(state: &mut Registration, device: &Device, start_address: usize, len: usize) {
        state.pins += 1;
        match device {
            Device::RefusesPin => {}
            Device::Willing => {
                state.pinned = true;
                state.addr = start_address;
                state.len = len;
            }
            Device::KeepsPinned => {
                state.pinned = true;
                state.sticky = true;
                state.addr = start_address;
                state.len = len;
            }
        }
    }

    fn unpin_segment(state: &mut Registration) {
        state.unpins += 1;
        if !state.sticky {
            state.pinned = false;
        }
    }

    fn get_io_info(state: &Registration) -> Registration {
        *state
    }

    fn get_total_num_pages(&self) -> usize {
        self.pages
    }

    fn get_start_address(&self) -> usize {
        self.start
    }

    fn get_page_size(&self) -> PageSize {
        self.page_size
    }
}

const BASE: usize = 0x1000_0000;

fn slab_4k(id: u64, start: usize, pages: usize) -> TestSlab {
    TestSlab { id, start, pages, page_size: PageSize::PG4KB }
}

fn seg(slab_id: u64, index: usize) -> SegmentId {
    SegmentId::new(slab_id, index)
}

fn cache_with<CB: CacheBuilder>(
    pinning_limit: usize,
    segment_size: usize,
    pin_on_demand: bool,
) -> ZeroCopyCache<TestSlab, CB> {
    ZeroCopyCache::new(
        pinning_limit,
        segment_size,
        pin_on_demand,
        Duration::from_millis(10),
        Device::Willing,
    )
    .unwrap()
}

fn registration<CB: CacheBuilder>(cache: &ZeroCopyCache<TestSlab, CB>, id: SegmentId) -> Registration {
    cache.slot(id).unwrap().segment.get_io_info()
}

fn touch<CB: CacheBuilder>(cache: &mut ZeroCopyCache<TestSlab, CB>, addr: usize, times: usize) {
    for _ in 0..times {
        let reply = cache.record_access_at(addr, Device::Willing).unwrap();
        if reply.is_some() {
            cache.record_io_completion_at(addr);
        }
    }
}

// Construction

#[test]
fn new_accepts_a_limit_that_is_a_multiple_of_the_segment_size() {
    let cache: ZeroCopyCache<TestSlab, MfuCache> = cache_with(8192, 4096, false);
    assert!(!cache.pin_on_demand());
    assert_eq!(cache.current_bytes_pinned(), 0);
    assert_eq!(cache.sleep_duration(), Duration::from_millis(10));
    assert_eq!(*cache.private_info(), Device::Willing);
    assert_eq!(cache.total_count(), 0);
    assert_eq!(cache.hit_count(), 0);
    assert_eq!(cache.miss_count(), 0);
    assert!(cache.pinned_segments().len() == 0);
}

#[test]
fn new_refuses_a_segment_larger_than_the_limit() {
    let made: Result<ZeroCopyCache<TestSlab, MfuCache>, ZccError> =
        ZeroCopyCache::new(4096, 8192, false, Duration::from_millis(1), Device::Willing);
    assert_eq!(made.err(), Some(ZccError::InvalidConfig));
}

#[test]
fn new_refuses_a_limit_that_is_no_multiple_of_the_segment_size() {
    let made: Result<ZeroCopyCache<TestSlab, MfuCache>, ZccError> =
        ZeroCopyCache::new(10_000, 4096, false, Duration::from_millis(1), Device::Willing);
    assert_eq!(made.err(), Some(ZccError::InvalidConfig));
}

#[test]
fn new_refuses_a_segment_size_of_zero_with_a_limit() {
    let made: Result<ZeroCopyCache<TestSlab, MfuCache>, ZccError> =
        ZeroCopyCache::new(4096, 0, false, Duration::from_millis(1), Device::Willing);
    assert_eq!(made.err(), Some(ZccError::InvalidConfig));
}

#[test]
fn zero_limit_and_zero_segment_size_make_a_cache_that_never_hits() {
    let mut cache: ZeroCopyCache<TestSlab, MfuCache> = cache_with(0, 0, false);
    assert_eq!(cache.current_bytes_pinned(), 0);
    // No memory pool can be cut into segments of zero bytes.
    assert_eq!(
        cache.initialize_slab(&slab_4k(1, BASE, 4), true, Device::Willing),
        Err(ZccError::InvalidSlab)
    );
    for addr in [0usize, BASE, BASE + 1, 0x2000_0000, usize::MAX] {
        assert_eq!(cache.record_access_at(addr, Device::Willing), Ok(None));
        cache.record_io_completion_at(addr);
    }
    assert_eq!(cache.update_pinned_list(&Device::Willing), Ok(ReconcileOutcome::Converged));
    assert_eq!(cache.miss_count(), 5);
    assert_eq!(cache.hit_count(), 0);
    assert_eq!(cache.total_count(), 5);
}

// Registration

#[test]
fn initialize_slab_cuts_the_pool_into_segments() {
    let mut cache: ZeroCopyCache<TestSlab, MfuCache> = cache_with(16384, 8192, false);
    assert_eq!(cache.initialize_slab(&slab_4k(7, BASE, 6), false, Device::Willing), Ok(()));
    for i in 0..3 {
        let slot = cache.slot(seg(7, i)).unwrap();
        assert_eq!(slot.segment.get_id(), seg(7, i));
        assert_eq!(slot.segment.get_start_address(), BASE + i * 8192);
        assert_eq!(slot.segment.get_num_pages(), 2);
        assert_eq!(slot.segment.get_page_size(), PageSize::PG4KB);
        assert_eq!(slot.segment.get_page_size_as_num(), 4096);
        assert!(!slot.segment.is_pinned());
        assert_eq!(slot.in_flight, 0);
        assert!(!slot.quiescing);
    }
    assert!(cache.slot(seg(7, 3)).is_none());
    assert!(cache.slot(seg(8, 0)).is_none());
    assert_eq!(cache.current_bytes_pinned(), 0);
}

#[test]
fn initialize_slab_pins_at_start_while_the_budget_lasts() {
    let mut cache: ZeroCopyCache<TestSlab, MfuCache> = cache_with(8192, 4096, false);
    assert_eq!(cache.initialize_slab(&slab_4k(1, BASE, 4), true, Device::Willing), Ok(()));
    assert_eq!(cache.is_segment_pinned(seg(1, 0)), Some(true));
    assert_eq!(cache.is_segment_pinned(seg(1, 1)), Some(true));
    assert_eq!(cache.is_segment_pinned(seg(1, 2)), Some(false));
    assert_eq!(cache.is_segment_pinned(seg(1, 3)), Some(false));
    assert_eq!(cache.current_bytes_pinned(), 8192);
    let pinned = cache.pinned_segments();
    assert!(pinned.contains(seg(1, 0)) && pinned.contains(seg(1, 1)));
    assert_eq!(pinned.len(), 2);
    // The pool was asked to pin the whole segment.
    let reg = registration(&cache, seg(1, 1));
    assert_eq!((reg.addr, reg.len, reg.pins, reg.unpins), (BASE + 4096, 4096, 1, 0));
    assert_eq!(registration(&cache, seg(1, 2)).pins, 0);
}

#[test]
fn initialize_slab_does_not_hold_what_the_pool_refused_to_pin() {
    let mut cache: ZeroCopyCache<TestSlab, MfuCache> = cache_with(8192, 4096, false);
    assert_eq!(cache.initialize_slab(&slab_4k(1, BASE, 2), true, Device::RefusesPin), Ok(()));
    assert_eq!(cache.is_segment_pinned(seg(1, 0)), Some(false));
    assert_eq!(cache.current_bytes_pinned(), 0);
    assert_eq!(registration(&cache, seg(1, 0)).pins, 1);
    assert_eq!(registration(&cache, seg(1, 1)).pins, 1);
}

#[test]
fn initialize_slab_refuses_a_pool_smaller_than_a_segment() {
    let mut cache: ZeroCopyCache<TestSlab, MfuCache> = cache_with(16384, 8192, false);
    assert_eq!(
        cache.initialize_slab(&slab_4k(1, BASE, 1), false, Device::Willing),
        Err(ZccError::InvalidSlab)
    );
    assert!(cache.slot(seg(1, 0)).is_none());
    assert_eq!(cache.get_segment_id_at(BASE), None);
}

#[test]
fn initialize_slab_refuses_a_pool_that_is_no_whole_number_of_segments() {
    let mut cache: ZeroCopyCache<TestSlab, MfuCache> = cache_with(16384, 8192, false);
    assert_eq!(
        cache.initialize_slab(&slab_4k(1, BASE, 3), false, Device::Willing),
        Err(ZccError::InvalidSlab)
    );
    assert_eq!(
        cache.initialize_slab(&slab_4k(1, BASE, 0), false, Device::Willing),
        Err(ZccError::InvalidSlab)
    );
}

#[test]
fn initialize_slab_refuses_a_segment_size_that_is_no_whole_number_of_pages() {
    let mut cache: ZeroCopyCache<TestSlab, MfuCache> = cache_with(12288, 6144, false);
    assert_eq!(
        cache.initialize_slab(&slab_4k(1, BASE, 3), false, Device::Willing),
        Err(ZccError::InvalidSlab)
    );
    let mut small: ZeroCopyCache<TestSlab, MfuCache> = cache_with(8192, 4096, false);
    let huge = TestSlab { id: 1, start: 0x4000_0000, pages: 1, page_size: PageSize::PG2MB };
    assert_eq!(small.initialize_slab(&huge, false, Device::Willing), Err(ZccError::InvalidSlab));
}

#[test]
fn initialize_slab_refuses_a_pool_beyond_the_address_space() {
    let mut cache: ZeroCopyCache<TestSlab, MfuCache> = cache_with(4096, 4096, false);
    assert_eq!(
        cache.initialize_slab(&slab_4k(1, usize::MAX - 4095, 2), false, Device::Willing),
        Err(ZccError::InvalidSlab)
    );
    assert_eq!(
        cache.initialize_slab(&slab_4k(1, BASE, usize::MAX / 2), false, Device::Willing),
        Err(ZccError::InvalidSlab)
    );
}

#[test]
fn initialize_slab_refuses_a_pool_that_is_registered_already() {
    let mut cache: ZeroCopyCache<TestSlab, MfuCache> = cache_with(4096, 4096, false);
    assert_eq!(cache.initialize_slab(&slab_4k(1, BASE, 2), true, Device::Willing), Ok(()));
    assert_eq!(
        cache.initialize_slab(&slab_4k(1, 0x3000_0000, 2), true, Device::Willing),
        Err(ZccError::InvalidSlab)
    );
    assert_eq!(cache.get_segment_id_at(0x3000_0000), None);
    assert_eq!(cache.is_segment_pinned(seg(1, 0)), Some(true));
    assert_eq!(cache.initialize_slab(&slab_4k(2, 0x3000_0000, 2), true, Device::Willing), Ok(()));
    assert_eq!(cache.get_segment_id_at(0x3000_1000), Some(seg(2, 1)));
    // The budget was used up by the first pool.
    assert_eq!(cache.is_segment_pinned(seg(2, 0)), Some(false));
    assert_eq!(cache.current_bytes_pinned(), 4096);
}

// Address resolution

#[test]
fn every_address_inside_a_segment_resolves_to_it() {
    let mut cache: ZeroCopyCache<TestSlab, MfuCache> = cache_with(16384, 8192, false);
    cache.initialize_slab(&slab_4k(3, BASE, 4), false, Device::Willing).unwrap();
    for offset in [0usize, 1, 63, 4095, 4096, 4097, 8191] {
        assert_eq!(cache.get_segment_id_at(BASE + offset), Some(seg(3, 0)));
        assert_eq!(cache.get_segment_id_at(BASE + 8192 + offset), Some(seg(3, 1)));
    }
}

#[test]
fn address_at_a_page_boundary_resolves_to_the_segment_of_that_page() {
    let mut cache: ZeroCopyCache<TestSlab, MfuCache> = cache_with(16384, 8192, false);
    cache.initialize_slab(&slab_4k(3, BASE, 4), false, Device::Willing).unwrap();
    assert_eq!(cache.get_segment_id_at(BASE), Some(seg(3, 0)));
    assert_eq!(cache.get_segment_id_at(BASE + 4096), Some(seg(3, 0)));
    assert_eq!(cache.get_segment_id_at(BASE + 8192), Some(seg(3, 1)));
    assert_eq!(cache.get_segment_id_at(BASE + 12288), Some(seg(3, 1)));
    assert_eq!(cache.get_segment_id_at(BASE + 16384), None);
}

#[test]
fn address_one_byte_below_a_segment_resolves_to_the_previous_segment_or_nothing() {
    let mut cache: ZeroCopyCache<TestSlab, MfuCache> = cache_with(16384, 8192, false);
    cache.initialize_slab(&slab_4k(3, BASE, 4), false, Device::Willing).unwrap();
    assert_eq!(cache.get_segment_id_at(BASE + 8192 - 1), Some(seg(3, 0)));
    assert_eq!(cache.get_segment_id_at(BASE - 1), None);
}

#[test]
fn large_pages_are_looked_up_by_their_own_size() {
    let mut cache: ZeroCopyCache<TestSlab, MfuCache> = cache_with(1 << 31, 1 << 30, false);
    let two_mb = TestSlab { id: 1, start: 0x4000_0000, pages: 512, page_size: PageSize::PG2MB };
    let one_gb = TestSlab { id: 2, start: 0x1_0000_0000, pages: 2, page_size: PageSize::PG1GB };
    cache.initialize_slab(&two_mb, false, Device::Willing).unwrap();
    cache.initialize_slab(&one_gb, false, Device::Willing).unwrap();
    assert_eq!(cache.get_segment_id_at(0x4000_0000), Some(seg(1, 0)));
    assert_eq!(cache.get_segment_id_at(0x4000_0000 + 0x3fff_ffff), Some(seg(1, 0)));
    assert_eq!(cache.get_segment_id_at(0x8000_0000), None);
    assert_eq!(cache.get_segment_id_at(0x1_0000_0000 + 12345), Some(seg(2, 0)));
    assert_eq!(cache.get_segment_id_at(0x1_4000_0000), Some(seg(2, 1)));
    assert_eq!(cache.get_segment_id_at(0x1_7fff_ffff), Some(seg(2, 1)));
    assert_eq!(cache.get_segment_id_at(0x1_8000_0000), None);
    assert_eq!(cache.slot(seg(1, 0)).unwrap().segment.get_num_pages(), 512);
    assert_eq!(cache.slot(seg(2, 1)).unwrap().segment.get_page_size_as_num(), 1 << 30);
}

#[test]
fn unaligned_pool_misses_addresses_below_its_first_page_boundary() {
    // A pool that does not start on a page boundary is indexed under its own
    // page starts, which no lookup address is rounded to.
    let mut cache: ZeroCopyCache<TestSlab, MfuCache> = cache_with(4096, 4096, false);
    cache.initialize_slab(&slab_4k(1, BASE + 0x800, 1), false, Device::Willing).unwrap();
    assert_eq!(cache.get_segment_id_at(BASE + 0x900), None);
}

// Fast path, periodic mode

#[test]
fn basic_pin_and_hit() {
    let mut cache: ZeroCopyCache<TestSlab, MfuCache> = cache_with(4096, 4096, false);
    cache.initialize_slab(&slab_4k(9, BASE, 1), true, Device::Willing).unwrap();
    let reply = cache.record_access_at(BASE, Device::Willing).unwrap();
    let (slab_id, info) = reply.unwrap();
    assert_eq!(slab_id, 9);
    assert!(info.pinned);
    assert_eq!((info.addr, info.len), (BASE, 4096));
    assert_eq!(cache.hit_count(), 1);
    assert_eq!(cache.miss_count(), 0);
    assert_eq!(cache.total_count(), 1);
    assert_eq!(cache.in_flight(seg(9, 0)), Some(1));
    cache.record_io_completion_at(BASE + 63);
    assert_eq!(cache.in_flight(seg(9, 0)), Some(0));
    assert_eq!(cache.current_bytes_pinned(), 4096);
}

#[test]
fn miss_outside_managed_memory() {
    let mut cache: ZeroCopyCache<TestSlab, MfuCache> = cache_with(4096, 4096, false);
    cache.initialize_slab(&slab_4k(9, BASE, 1), true, Device::Willing).unwrap();
    assert_eq!(
        cache.record_access_at(0x2000_0000, Device::Willing),
        Ok(None)
    );
    assert_eq!(cache.miss_count(), 1);
    assert_eq!(cache.hit_count(), 0);
    assert_eq!(cache.total_count(), 1);
    assert_eq!(cache.in_flight(seg(9, 0)), Some(0));
}

#[test]
fn miss_on_an_unpinned_segment_leaves_nothing_in_flight() {
    let mut cache: ZeroCopyCache<TestSlab, MfuCache> = cache_with(4096, 4096, false);
    cache.initialize_slab(&slab_4k(9, BASE, 2), true, Device::Willing).unwrap();
    assert_eq!(
        cache.record_access_at(BASE + 4096, Device::Willing),
        Ok(None)
    );
    assert_eq!(cache.in_flight(seg(9, 1)), Some(0));
    assert_eq!(cache.miss_count(), 1);
    // In periodic mode the fast path never pins.
    assert_eq!(cache.is_segment_pinned(seg(9, 1)), Some(false));
    assert_eq!(registration(&cache, seg(9, 1)).pins, 0);
}

#[test]
fn hits_and_misses_add_up_to_the_total() {
    let mut cache: ZeroCopyCache<TestSlab, MfuCache> = cache_with(4096, 4096, false);
    cache.initialize_slab(&slab_4k(9, BASE, 2), true, Device::Willing).unwrap();
    let addrs = [BASE, BASE + 4096, 0, BASE + 10, BASE + 5000, 0x2000_0000, BASE];
    for (n, addr) in addrs.iter().enumerate() {
        let _ = cache.record_access_at(*addr, Device::Willing);
        assert_eq!(cache.hit_count() + cache.miss_count(), cache.total_count());
        assert_eq!(cache.total_count(), n as u64 + 1);
    }
    assert_eq!(cache.hit_count(), 3);
    assert_eq!(cache.miss_count(), 4);
    assert_eq!(cache.in_flight(seg(9, 0)), Some(3));
}

#[test]
fn completion_without_io_in_flight_stays_at_zero() {
    let mut cache: ZeroCopyCache<TestSlab, MfuCache> = cache_with(4096, 4096, false);
    cache.initialize_slab(&slab_4k(9, BASE, 1), true, Device::Willing).unwrap();
    cache.record_io_completion_at(BASE);
    assert_eq!(cache.in_flight(seg(9, 0)), Some(0));
    cache.record_io_completion_at(0x2000_0000);
    assert_eq!(cache.in_flight(seg(9, 0)), Some(0));
    assert_eq!(cache.total_count(), 0);
}

// Reconciliation

#[test]
fn mfu_eviction() {
    let mut cache: ZeroCopyCache<TestSlab, MfuCache> = cache_with(8192, 4096, false);
    cache.initialize_slab(&slab_4k(1, BASE, 4), false, Device::Willing).unwrap();
    let (a, b, c, d) = (BASE, BASE + 4096, BASE + 8192, BASE + 12288);
    touch(&mut cache, a, 10);
    touch(&mut cache, b, 10);
    touch(&mut cache, c, 10);
    touch(&mut cache, d, 1);
    assert_eq!(cache.update_pinned_list(&Device::Willing), Ok(ReconcileOutcome::Converged));
    let pinned = cache.pinned_segments();
    assert_eq!(pinned.len(), 2);
    assert!(!pinned.contains(seg(1, 3)));
    // Between equal counts the segment touched first wins.
    assert!(pinned.contains(seg(1, 0)) && pinned.contains(seg(1, 1)));
    assert_eq!(cache.is_segment_pinned(seg(1, 0)), Some(true));
    assert_eq!(cache.is_segment_pinned(seg(1, 1)), Some(true));
    assert_eq!(cache.is_segment_pinned(seg(1, 2)), Some(false));
    assert_eq!(cache.is_segment_pinned(seg(1, 3)), Some(false));
    assert_eq!(cache.current_bytes_pinned(), 8192);
}

#[test]
fn reconciliation_unpins_before_it_pins() {
    let mut cache: ZeroCopyCache<TestSlab, MfuCache> = cache_with(4096, 4096, false);
    cache.initialize_slab(&slab_4k(1, BASE, 2), true, Device::Willing).unwrap();
    touch(&mut cache, BASE + 4096, 3);
    assert_eq!(cache.update_pinned_list(&Device::Willing), Ok(ReconcileOutcome::Converged));
    assert_eq!(cache.is_segment_pinned(seg(1, 0)), Some(false));
    assert_eq!(cache.is_segment_pinned(seg(1, 1)), Some(true));
    assert_eq!(cache.current_bytes_pinned(), 4096);
    let old = registration(&cache, seg(1, 0));
    assert_eq!((old.pins, old.unpins), (1, 1));
    let new = registration(&cache, seg(1, 1));
    assert_eq!((new.pins, new.unpins, new.addr, new.len), (1, 0, BASE + 4096, 4096));
}

#[test]
fn second_reconciliation_without_access_changes_nothing() {
    let mut cache: ZeroCopyCache<TestSlab, MfuCache> = cache_with(8192, 4096, false);
    cache.initialize_slab(&slab_4k(1, BASE, 4), true, Device::Willing).unwrap();
    touch(&mut cache, BASE + 8192, 5);
    touch(&mut cache, BASE, 2);
    assert_eq!(cache.update_pinned_list(&Device::Willing), Ok(ReconcileOutcome::Converged));
    let first: Vec<bool> = (0..4).map(|i| cache.pinned_segments().contains(seg(1, i))).collect();
    let regs: Vec<Registration> = (0..4).map(|i| registration(&cache, seg(1, i))).collect();
    assert_eq!(first, vec![true, false, true, false]);
    assert_eq!(cache.update_pinned_list(&Device::Willing), Ok(ReconcileOutcome::Converged));
    let second: Vec<bool> = (0..4).map(|i| cache.pinned_segments().contains(seg(1, i))).collect();
    let regs_after: Vec<Registration> = (0..4).map(|i| registration(&cache, seg(1, i))).collect();
    assert_eq!(first, second);
    assert_eq!(regs, regs_after);
}

#[test]
fn drain_before_unpin() {
    let mut cache: ZeroCopyCache<TestSlab, MfuCache> = cache_with(4096, 4096, false);
    cache.initialize_slab(&slab_4k(1, BASE, 2), true, Device::Willing).unwrap();
    let (x, y) = (BASE, BASE + 4096);
    // An I/O is handed out on X and stays in flight.
    assert!(cache.record_access_at(x, Device::Willing).unwrap().is_some());
    assert_eq!(cache.in_flight(seg(1, 0)), Some(1));
    // Y becomes the more valuable segment.
    touch(&mut cache, y, 3);
    assert_eq!(cache.update_pinned_list(&Device::Willing), Ok(ReconcileOutcome::Pending));
    assert_eq!(cache.is_segment_pinned(seg(1, 0)), Some(true));
    assert_eq!(cache.is_quiescing(seg(1, 0)), Some(true));
    assert_eq!(cache.is_segment_pinned(seg(1, 1)), Some(false));
    assert_eq!(registration(&cache, seg(1, 0)).unpins, 0);
    assert_eq!(cache.current_bytes_pinned(), 4096);
    // Another pass before the completion finds X still busy.
    assert_eq!(cache.update_pinned_list(&Device::Willing), Ok(ReconcileOutcome::Pending));
    assert_eq!(cache.is_segment_pinned(seg(1, 0)), Some(true));
    cache.record_io_completion_at(x);
    assert_eq!(cache.in_flight(seg(1, 0)), Some(0));
    assert_eq!(cache.update_pinned_list(&Device::Willing), Ok(ReconcileOutcome::Converged));
    assert_eq!(cache.is_segment_pinned(seg(1, 0)), Some(false));
    assert_eq!(cache.is_quiescing(seg(1, 0)), Some(false));
    assert_eq!(cache.is_segment_pinned(seg(1, 1)), Some(true));
    assert!(cache.pinned_segments().contains(seg(1, 1)));
    assert!(!cache.pinned_segments().contains(seg(1, 0)));
    assert_eq!(cache.current_bytes_pinned(), 4096);
}

#[test]
fn quiescing_segment_refuses_new_io() {
    let mut cache: ZeroCopyCache<TestSlab, MfuCache> = cache_with(4096, 4096, false);
    cache.initialize_slab(&slab_4k(1, BASE, 2), true, Device::Willing).unwrap();
    let (x, y) = (BASE, BASE + 4096);
    assert!(cache.record_access_at(x, Device::Willing).unwrap().is_some());
    touch(&mut cache, y, 3);
    assert_eq!(cache.update_pinned_list(&Device::Willing), Ok(ReconcileOutcome::Pending));
    let hits = cache.hit_count();
    assert_eq!(cache.record_access_at(x, Device::Willing), Ok(None));
    assert_eq!(cache.record_access_at(x + 100, Device::Willing), Ok(None));
    assert_eq!(cache.in_flight(seg(1, 0)), Some(1));
    assert_eq!(cache.hit_count(), hits);
    assert_eq!(cache.is_segment_pinned(seg(1, 0)), Some(true));
}

#[test]
fn segment_that_is_wanted_again_takes_io_again() {
    let mut cache: ZeroCopyCache<TestSlab, MfuCache> = cache_with(4096, 4096, false);
    cache.initialize_slab(&slab_4k(1, BASE, 2), true, Device::Willing).unwrap();
    let (x, y) = (BASE, BASE + 4096);
    assert!(cache.record_access_at(x, Device::Willing).unwrap().is_some());
    touch(&mut cache, y, 3);
    assert_eq!(cache.update_pinned_list(&Device::Willing), Ok(ReconcileOutcome::Pending));
    // X is touched often enough to be the most valuable segment again.
    touch(&mut cache, x, 5);
    assert_eq!(cache.update_pinned_list(&Device::Willing), Ok(ReconcileOutcome::Converged));
    assert_eq!(cache.is_quiescing(seg(1, 0)), Some(false));
    assert_eq!(cache.is_segment_pinned(seg(1, 0)), Some(true));
    assert_eq!(registration(&cache, seg(1, 0)).unpins, 0);
    assert!(cache.record_access_at(x, Device::Willing).unwrap().is_some());
    assert_eq!(cache.in_flight(seg(1, 0)), Some(2));
}

#[test]
fn reconciliation_goes_on_when_the_pool_refuses_to_pin() {
    let mut cache: ZeroCopyCache<TestSlab, MfuCache> = cache_with(8192, 4096, false);
    cache.initialize_slab(&slab_4k(1, BASE, 2), false, Device::Willing).unwrap();
    touch(&mut cache, BASE, 2);
    touch(&mut cache, BASE + 4096, 1);
    assert_eq!(cache.update_pinned_list(&Device::RefusesPin), Ok(ReconcileOutcome::Pending));
    assert_eq!(cache.current_bytes_pinned(), 0);
    assert_eq!(registration(&cache, seg(1, 0)).pins, 1);
    assert_eq!(registration(&cache, seg(1, 1)).pins, 1);
    assert_eq!(cache.update_pinned_list(&Device::Willing), Ok(ReconcileOutcome::Converged));
    assert_eq!(cache.current_bytes_pinned(), 8192);
}

#[test]
fn reconciliation_keeps_holding_what_the_pool_refuses_to_unpin() {
    let mut cache: ZeroCopyCache<TestSlab, MfuCache> = cache_with(4096, 4096, false);
    cache.initialize_slab(&slab_4k(1, BASE, 2), true, Device::KeepsPinned).unwrap();
    touch(&mut cache, BASE + 4096, 3);
    assert_eq!(cache.update_pinned_list(&Device::Willing), Ok(ReconcileOutcome::Pending));
    assert_eq!(cache.is_segment_pinned(seg(1, 0)), Some(true));
    assert!(cache.pinned_segments().contains(seg(1, 0)));
    assert_eq!(cache.is_segment_pinned(seg(1, 1)), Some(false));
    assert_eq!(registration(&cache, seg(1, 0)).unpins, 1);
    assert_eq!(cache.current_bytes_pinned(), 4096);
}

#[test]
fn pinned_bytes_never_exceed_the_limit() {
    let mut cache: ZeroCopyCache<TestSlab, MfuCache> = cache_with(8192, 4096, false);
    cache.initialize_slab(&slab_4k(1, BASE, 8), true, Device::Willing).unwrap();
    assert!(cache.current_bytes_pinned() <= 8192);
    for round in 0..8usize {
        touch(&mut cache, BASE + round * 4096, round + 1);
        let _ = cache.update_pinned_list(&Device::Willing);
        assert!(cache.current_bytes_pinned() <= 8192);
        let actually_pinned =
            (0..8).filter(|i| cache.is_segment_pinned(seg(1, *i)) == Some(true)).count();
        assert_eq!(actually_pinned * 4096, cache.current_bytes_pinned());
    }
}

#[test]
fn reconciler_wake_up_reconciles_in_periodic_mode() {
    let mut cache: ZeroCopyCache<TestSlab, MfuCache> = cache_with(4096, 4096, false);
    cache.initialize_slab(&slab_4k(1, BASE, 2), false, Device::Willing).unwrap();
    touch(&mut cache, BASE + 4096, 1);
    assert_eq!(cache.pin_and_unpin_thread(&Device::Willing), Ok(ReconcileOutcome::Converged));
    assert_eq!(cache.is_segment_pinned(seg(1, 1)), Some(true));
}

#[test]
fn reconciler_wake_up_is_refused_in_on_demand_mode() {
    let mut cache: ZeroCopyCache<TestSlab, OnDemandLruCache> = cache_with(4096, 4096, true);
    cache.initialize_slab(&slab_4k(1, BASE, 2), false, Device::Willing).unwrap();
    assert!(cache.pin_on_demand());
    assert_eq!(cache.pin_and_unpin_thread(&Device::Willing), Err(ZccError::InvalidConfig));
    assert_eq!(cache.current_bytes_pinned(), 0);
}

#[test]
fn noalg_keeps_what_was_pinned_at_start() {
    let mut cache: ZeroCopyCache<TestSlab, NoAlgCache> = cache_with(8192, 4096, false);
    cache.initialize_slab(&slab_4k(1, BASE, 4), true, Device::Willing).unwrap();
    touch(&mut cache, BASE + 12288, 20);
    assert_eq!(cache.update_pinned_list(&Device::Willing), Ok(ReconcileOutcome::Converged));
    assert_eq!(cache.is_segment_pinned(seg(1, 0)), Some(true));
    assert_eq!(cache.is_segment_pinned(seg(1, 1)), Some(true));
    assert_eq!(cache.is_segment_pinned(seg(1, 3)), Some(false));
}

#[test]
fn timestamp_lru_pins_the_most_recently_touched() {
    let mut cache: ZeroCopyCache<TestSlab, TimestampLruCache> = cache_with(8192, 4096, false);
    cache.initialize_slab(&slab_4k(1, BASE, 4), false, Device::Willing).unwrap();
    for i in [0usize, 1, 2, 3, 1] {
        touch(&mut cache, BASE + i * 4096, 1);
    }
    assert_eq!(cache.update_pinned_list(&Device::Willing), Ok(ReconcileOutcome::Converged));
    let pinned: Vec<bool> = (0..4).map(|i| cache.pinned_segments().contains(seg(1, i))).collect();
    assert_eq!(pinned, vec![false, true, false, true]);
}

#[test]
fn linked_list_lru_pins_the_most_recently_touched() {
    let mut cache: ZeroCopyCache<TestSlab, LinkedListLruCache> = cache_with(8192, 4096, false);
    cache.initialize_slab(&slab_4k(1, BASE, 4), false, Device::Willing).unwrap();
    for i in [3usize, 2, 1, 0, 2] {
        touch(&mut cache, BASE + i * 4096, 1);
    }
    assert_eq!(cache.update_pinned_list(&Device::Willing), Ok(ReconcileOutcome::Converged));
    let pinned: Vec<bool> = (0..4).map(|i| cache.pinned_segments().contains(seg(1, i))).collect();
    assert_eq!(pinned, vec![true, false, true, false]);
}

// Fast path, on-demand mode

#[test]
fn on_demand_admission() {
    let mut cache: ZeroCopyCache<TestSlab, OnDemandLruCache> = cache_with(4096, 4096, true);
    cache.initialize_slab(&slab_4k(5, BASE, 2), false, Device::Willing).unwrap();
    let (a, b) = (BASE, BASE + 4096);

    let reply = cache.record_access_at(a, Device::Willing).unwrap();
    assert_eq!(reply.map(|(slab, info)| (slab, info.addr, info.pinned)), Some((5, a, true)));
    assert_eq!(cache.is_segment_pinned(seg(5, 0)), Some(true));
    assert_eq!((registration(&cache, seg(5, 0)).pins, registration(&cache, seg(5, 0)).unpins), (1, 0));
    assert_eq!((registration(&cache, seg(5, 1)).pins, registration(&cache, seg(5, 1)).unpins), (0, 0));

    let reply = cache.record_access_at(b, Device::Willing).unwrap();
    assert_eq!(reply.map(|(slab, info)| (slab, info.addr, info.pinned)), Some((5, b, true)));
    assert_eq!(cache.is_segment_pinned(seg(5, 0)), Some(false));
    assert_eq!(cache.is_segment_pinned(seg(5, 1)), Some(true));
    assert_eq!((registration(&cache, seg(5, 0)).pins, registration(&cache, seg(5, 0)).unpins), (1, 1));
    assert_eq!((registration(&cache, seg(5, 1)).pins, registration(&cache, seg(5, 1)).unpins), (1, 0));

    let reply = cache.record_access_at(a + 8, Device::Willing).unwrap();
    assert_eq!(reply.map(|(slab, info)| (slab, info.addr, info.pinned)), Some((5, a, true)));
    assert_eq!(cache.is_segment_pinned(seg(5, 0)), Some(true));
    assert_eq!(cache.is_segment_pinned(seg(5, 1)), Some(false));
    assert_eq!((registration(&cache, seg(5, 0)).pins, registration(&cache, seg(5, 0)).unpins), (2, 1));
    assert_eq!((registration(&cache, seg(5, 1)).pins, registration(&cache, seg(5, 1)).unpins), (1, 1));

    assert_eq!(cache.current_bytes_pinned(), 4096);
    assert_eq!(cache.hit_count(), 3);
    assert_eq!(cache.total_count(), 3);
    assert!(cache.pinned_segments().contains(seg(5, 0)));
    assert_eq!(cache.pinned_segments().len(), 1);
}

#[test]
fn on_demand_hit_on_a_pinned_segment_pins_nothing() {
    let mut cache: ZeroCopyCache<TestSlab, OnDemandLruCache> = cache_with(8192, 4096, true);
    cache.initialize_slab(&slab_4k(5, BASE, 3), false, Device::Willing).unwrap();
    for _ in 0..3 {
        assert!(cache.record_access_at(BASE, Device::Willing).unwrap().is_some());
    }
    assert_eq!(registration(&cache, seg(5, 0)).pins, 1);
    // On-demand mode tracks no in-flight I/O.
    assert_eq!(cache.in_flight(seg(5, 0)), Some(0));
    cache.record_io_completion_at(BASE);
    assert_eq!(cache.in_flight(seg(5, 0)), Some(0));
}

#[test]
fn on_demand_evicts_the_least_recently_touched() {
    let mut cache: ZeroCopyCache<TestSlab, OnDemandLruCache> = cache_with(8192, 4096, true);
    cache.initialize_slab(&slab_4k(5, BASE, 3), false, Device::Willing).unwrap();
    let (a, b, c) = (BASE, BASE + 4096, BASE + 8192);
    for addr in [a, b, a, c] {
        assert!(cache.record_access_at(addr, Device::Willing).unwrap().is_some());
    }
    assert_eq!(cache.is_segment_pinned(seg(5, 0)), Some(true));
    assert_eq!(cache.is_segment_pinned(seg(5, 1)), Some(false));
    assert_eq!(cache.is_segment_pinned(seg(5, 2)), Some(true));
    assert_eq!(cache.current_bytes_pinned(), 8192);
}

#[test]
fn on_demand_miss_outside_managed_memory() {
    let mut cache: ZeroCopyCache<TestSlab, OnDemandLruCache> = cache_with(4096, 4096, true);
    cache.initialize_slab(&slab_4k(5, BASE, 2), false, Device::Willing).unwrap();
    assert_eq!(cache.record_access_at(0x2000_0000, Device::Willing), Ok(None));
    assert_eq!(cache.miss_count(), 1);
    assert_eq!(cache.current_bytes_pinned(), 0);
}

#[test]
fn on_demand_pin_failure_is_an_error() {
    let mut cache: ZeroCopyCache<TestSlab, OnDemandLruCache> = cache_with(4096, 4096, true);
    cache.initialize_slab(&slab_4k(5, BASE, 2), false, Device::Willing).unwrap();
    assert_eq!(
        cache.record_access_at(BASE, Device::RefusesPin),
        Err(ZccError::PinFailed)
    );
    assert_eq!(cache.is_segment_pinned(seg(5, 0)), Some(false));
    assert_eq!(cache.current_bytes_pinned(), 0);
    assert_eq!(cache.miss_count(), 1);
    assert_eq!(cache.total_count(), 1);
    // A later access with a willing device pins it.
    assert!(cache.record_access_at(BASE, Device::Willing).unwrap().is_some());
    assert_eq!(cache.current_bytes_pinned(), 4096);
}

#[test]
fn on_demand_unpin_failure_is_an_error() {
    let mut cache: ZeroCopyCache<TestSlab, OnDemandLruCache> = cache_with(4096, 4096, true);
    cache.initialize_slab(&slab_4k(5, BASE, 2), false, Device::Willing).unwrap();
    assert!(cache.record_access_at(BASE, Device::KeepsPinned).unwrap().is_some());
    assert_eq!(
        cache.record_access_at(BASE + 4096, Device::Willing),
        Err(ZccError::UnpinFailed)
    );
    // The first segment is still pinned and held; the second was not pinned.
    assert_eq!(cache.is_segment_pinned(seg(5, 0)), Some(true));
    assert_eq!(cache.is_segment_pinned(seg(5, 1)), Some(false));
    assert!(cache.pinned_segments().contains(seg(5, 0)));
    assert_eq!(cache.pinned_segments().len(), 1);
    assert_eq!(registration(&cache, seg(5, 1)).pins, 0);
    assert_eq!(cache.current_bytes_pinned(), 4096);
    assert_eq!(cache.hit_count() + cache.miss_count(), cache.total_count());
}

// Segments

#[test]
fn segment_registers_its_whole_length() {
    let slab = slab_4k(4, BASE, 8);
    let mut segment: DatapathSegment<TestSlab> =
        DatapathSegment::new(BASE + 8192, 2, PageSize::PG4KB, 1, &slab);
    assert_eq!(segment.get_id(), seg(4, 1));
    assert!(!segment.is_pinned());
    assert_eq!(segment.get_4kb_pages(), vec![BASE + 8192, BASE + 12288]);
    assert_eq!(segment.get_2mb_pages(), Vec::<usize>::new());
    assert_eq!(segment.get_1gb_pages(), Vec::<usize>::new());
    segment.register(&Device::Willing);
    assert!(segment.is_pinned());
    let info = segment.get_io_info();
    assert_eq!((info.addr, info.len), (BASE + 8192, 8192));
    segment.unregister();
    assert!(!segment.is_pinned());
    assert_eq!(slab.get_page_size_as_num(), 4096);
}

#[test]
fn segment_of_large_pages_lists_its_pages() {
    let slab = TestSlab { id: 4, start: 0x4000_0000, pages: 4, page_size: PageSize::PG2MB };
    let segment: DatapathSegment<TestSlab> =
        DatapathSegment::new(0x4000_0000, 3, PageSize::PG2MB, 0, &slab);
    assert_eq!(segment.get_2mb_pages(), vec![0x4000_0000, 0x4020_0000, 0x4040_0000]);
    assert_eq!(segment.get_4kb_pages(), Vec::<usize>::new());
    assert_eq!(segment.get_page_size_as_num(), 0x20_0000);
}

#[test]
fn slot_pin_reports_whether_the_segment_is_pinned() {
    let slab = slab_4k(4, BASE, 8);
    let mut slot: SegmentSlot<TestSlab> =
        SegmentSlot::new(DatapathSegment::new(BASE, 1, PageSize::PG4KB, 0, &slab));
    assert_eq!(slot.pin(&Device::RefusesPin).err(), Some(ZccError::PinFailed));
    assert!(!slot.segment.is_pinned());
    let info = slot.pin(&Device::Willing).unwrap();
    assert_eq!((info.addr, info.len, info.pins), (BASE, 4096, 2));
    // A pinned segment is not pinned again.
    let again = slot.pin(&Device::Willing).unwrap();
    assert_eq!(again.pins, 2);
    assert_eq!((slot.in_flight, slot.quiescing), (0, false));
}

#[test]
fn slot_unpin_waits_for_io_in_flight() {
    let slab = slab_4k(4, BASE, 8);
    let mut slot: SegmentSlot<TestSlab> =
        SegmentSlot::new(DatapathSegment::new(BASE, 1, PageSize::PG4KB, 0, &slab));
    slot.pin(&Device::Willing).unwrap();
    slot.in_flight = 2;
    assert_eq!(slot.unpin(), UnpinStatus::Draining);
    assert!(slot.quiescing);
    assert!(slot.segment.is_pinned());
    assert_eq!(slot.segment.get_io_info().unpins, 0);
    slot.in_flight = 0;
    assert_eq!(slot.unpin(), UnpinStatus::Unpinned);
    assert!(!slot.quiescing);
    assert!(!slot.segment.is_pinned());
    assert_eq!(slot.segment.get_io_info().unpins, 1);

    let mut sticky: SegmentSlot<TestSlab> =
        SegmentSlot::new(DatapathSegment::new(BASE, 1, PageSize::PG4KB, 0, &slab));
    sticky.pin(&Device::KeepsPinned).unwrap();
    assert_eq!(sticky.unpin(), UnpinStatus::StillPinned);
    assert!(sticky.segment.is_pinned());
    assert!(!sticky.quiescing);
}

#[test]
fn on_demand_registration_can_pin_at_start() {
    let mut cache: ZeroCopyCache<TestSlab, OnDemandLruCache> = cache_with(8192, 4096, true);
    cache.initialize_slab(&slab_4k(5, BASE, 3), true, Device::Willing).unwrap();
    assert_eq!(cache.current_bytes_pinned(), 8192);
    // The third segment takes the place of one pinned at start; of two that were
    // never touched the first one goes.
    assert!(cache
        .record_access_at(BASE + 8192, Device::Willing)
        .unwrap()
        .is_some());
    assert_eq!(cache.is_segment_pinned(seg(5, 0)), Some(false));
    assert_eq!(cache.is_segment_pinned(seg(5, 1)), Some(true));
    assert_eq!(cache.is_segment_pinned(seg(5, 2)), Some(true));
    assert_eq!(cache.current_bytes_pinned(), 8192);
}

// Buffers

#[test]
fn buffers_are_looked_up_by_the_address_of_their_first_byte() {
    let memory = vec![0u8; 3 * 4096];
    let base = memory.as_ptr() as usize;
    let start = (base + 4095) & !4095;
    let offset = start - base;
    let mut cache: ZeroCopyCache<TestSlab, MfuCache> = cache_with(4096, 4096, false);
    cache.initialize_slab(&slab_4k(1, start, 2), true, Device::Willing).unwrap();

    let first = &memory[offset..offset + 64];
    let second = &memory[offset + 4096 + 10..offset + 4096 + 20];
    assert_eq!(cache.get_segment_id(first), Some(seg(1, 0)));
    assert_eq!(cache.get_segment_id(second), Some(seg(1, 1)));
    assert_eq!(cache.get_segment_id(&memory[offset + 8191..]), Some(seg(1, 1)));
    assert_eq!(cache.get_segment_id(&memory[offset + 8192..]), None);
    if offset > 0 {
        assert_eq!(cache.get_segment_id(&memory[offset - 1..]), None);
    }

    let reply = cache.record_access_and_get_io_info_if_pinned(first, Device::Willing).unwrap();
    assert_eq!(reply.map(|(slab, info)| (slab, info.addr, info.len)), Some((1, start, 4096)));
    assert_eq!(cache.in_flight(seg(1, 0)), Some(1));
    assert_eq!(cache.record_access_and_get_io_info_if_pinned(second, Device::Willing), Ok(None));
    cache.record_io_completion(&memory[offset + 100..offset + 101]);
    assert_eq!(cache.in_flight(seg(1, 0)), Some(0));
    cache.record_io_completion(second);
    assert_eq!(cache.in_flight(seg(1, 1)), Some(0));
    assert_eq!((cache.hit_count(), cache.miss_count(), cache.total_count()), (1, 1, 2));
}

#[test]
fn contended_lookup_is_a_miss_the_policy_sees() {
    let mut cache: ZeroCopyCache<TestSlab, MfuCache> = cache_with(4096, 4096, false);
    cache.initialize_slab(&slab_4k(1, BASE, 2), true, Device::Willing).unwrap();
    // Three lookups of the second segment find the cache busy.
    for _ in 0..3 {
        cache.record_contended_access_at(BASE + 4096 + 8);
    }
    cache.record_contended_access_at(0x2000_0000);
    assert_eq!((cache.hit_count(), cache.miss_count(), cache.total_count()), (0, 4, 4));
    assert_eq!(cache.in_flight(seg(1, 0)), Some(0));
    assert_eq!(cache.in_flight(seg(1, 1)), Some(0));
    assert_eq!(cache.is_segment_pinned(seg(1, 0)), Some(true));
    assert_eq!(cache.is_segment_pinned(seg(1, 1)), Some(false));
    // The policy counted the touches: the second segment is the wanted one.
    assert_eq!(cache.update_pinned_list(&Device::Willing), Ok(ReconcileOutcome::Converged));
    assert_eq!(cache.is_segment_pinned(seg(1, 0)), Some(false));
    assert_eq!(cache.is_segment_pinned(seg(1, 1)), Some(true));

    let memory = vec![0u8; 64];
    cache.record_contended_access(&memory);
    assert_eq!(cache.miss_count(), 5);
}

#[test]
fn registration_pins_in_ascending_order_and_leaves_the_rest_alone() {
    let mut cache: ZeroCopyCache<TestSlab, MfuCache> = cache_with(12288, 4096, false);
    cache.initialize_slab(&slab_4k(1, BASE, 2), true, Device::Willing).unwrap();
    assert_eq!(cache.current_bytes_pinned(), 8192);
    // One place is left in the budget: the first segment of the next pool gets
    // it, the others are not asked of the pool.
    cache.initialize_slab(&slab_4k(2, 0x3000_0000, 3), true, Device::Willing).unwrap();
    let pins: Vec<u32> = (0..3).map(|i| registration(&cache, seg(2, i)).pins).collect();
    assert_eq!(pins, vec![1, 0, 0]);
    assert_eq!(cache.is_segment_pinned(seg(2, 0)), Some(true));
    assert_eq!(cache.is_segment_pinned(seg(2, 1)), Some(false));
    assert_eq!(cache.current_bytes_pinned(), 12288);
    assert_eq!(cache.pinned_segments().len(), 3);
}

#[test]
fn registration_asks_on_while_the_pool_refuses() {
    let mut cache: ZeroCopyCache<TestSlab, MfuCache> = cache_with(4096, 4096, false);
    cache.initialize_slab(&slab_4k(1, BASE, 3), true, Device::RefusesPin).unwrap();
    // No segment took the one place in the budget, so each was asked.
    let pins: Vec<u32> = (0..3).map(|i| registration(&cache, seg(1, i)).pins).collect();
    assert_eq!(pins, vec![1, 1, 1]);
    assert_eq!(cache.current_bytes_pinned(), 0);
}

#[test]
fn pinned_segments_are_the_held_segments() {
    let mut cache: ZeroCopyCache<TestSlab, MfuCache> = cache_with(8192, 4096, false);
    cache.initialize_slab(&slab_4k(1, BASE, 6), true, Device::Willing).unwrap();
    for round in 0..6usize {
        touch(&mut cache, BASE + ((round * 5) % 6) * 4096, round + 2);
        let device = if round % 2 == 0 { Device::Willing } else { Device::RefusesPin };
        let _ = cache.update_pinned_list(&device);
        let held = cache.pinned_segments();
        for i in 0..6 {
            assert_eq!(cache.is_segment_pinned(seg(1, i)), Some(held.contains(seg(1, i))));
        }
        assert!(held.len() <= 2);
    }
}
