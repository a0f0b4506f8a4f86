//! The memory-pool capability the cache consumes, and the segments it is cut into.
use vstd::prelude::*;
use crate::pagesizes::PageSize;
use crate::data_structures::error::ZccError;
use crate::data_structures::segment_id::SegmentId;

verus! {

/// A memory pool of uniform page size, supplied by the datapath.
///
/// The cache never touches the pool's memory. It reads the pool's geometry and
/// asks the pool to pin and unpin address ranges; what a pin or unpin does to a
/// pinning state is the implementor's business, named here by `pin_effect` and
/// `unpin_effect`, and the cache looks at the state afterwards to learn whether
/// the request took.
pub trait DatapathSlab {
    /// Device-visible descriptor of a pinned range.
    type IOInfo: Copy;

    /// Whatever the pool keeps per range to remember its registration.
    type PinningState;

    /// Datapath handle handed through to pin requests.
    type PrivateInfo;

    /// Identity of the pool.
    spec fn slab_id(&self) -> u64;

    /// Number of pages in the pool.
    spec fn total_num_pages(&self) -> usize;

    /// Address of the pool's first byte.
    spec fn start_address(&self) -> usize;

    /// Size of each page of the pool.
    spec fn page_size(&self) -> PageSize;

    /// The pinning state a range of this pool starts out with.
    spec fn initial_state(&self) -> Self::PinningState;

    /// Whether the state is that of a pinned range.
    spec fn pinned(state: Self::PinningState) -> bool;

    /// The descriptor the state carries.
    spec fn io_info(state: Self::PinningState) -> Self::IOInfo;

    /// Whether a request to pin `len` bytes at `start_address` can turn `before`
    /// into `after`.
    spec fn pin_effect(
        before: Self::PinningState,
        private_info: Self::PrivateInfo,
        start_address: usize,
        len: usize,
        after: Self::PinningState,
    ) -> bool;

    /// Whether a request to unpin can turn `before` into `after`.
    spec fn unpin_effect(before: Self::PinningState, after: Self::PinningState) -> bool;

    /// The pinning state a range of this pool starts out with: not pinned.
    fn default_pinning_state(&self) -> (state: Self::PinningState)
        ensures
            state == self.initial_state(),
            !Self::pinned(state),
    ;

    /// Identity of the pool.
    fn get_slab_id(&self) -> (id: u64)
        ensures
            id == self.slab_id(),
    ;

    /// Whether the state is that of a pinned range.
    fn is_pinned(pinning_state: &Self::PinningState) -> (pinned: bool)
        ensures
            pinned == Self::pinned(*pinning_state),
    ;

    /// Asks the pool to pin `len` bytes at `start_address`. Whether it did shows in
    /// the state afterwards.
    fn pin_segment(
        pinning_state: &mut Self::PinningState,
        private_info: &Self::PrivateInfo,
        start_address: usize,
        len: usize,
    )
        ensures
            Self::pin_effect(
                *old(pinning_state),
                *private_info,
                start_address,
                len,
                *final(pinning_state),
            ),
    ;

    /// Asks the pool to release the range. Whether it did shows in the state
    /// afterwards.
    fn unpin_segment(pinning_state: &mut Self::PinningState)
        ensures
            Self::unpin_effect(*old(pinning_state), *final(pinning_state)),
    ;

    /// The descriptor the state carries.
    fn get_io_info(pinning_state: &Self::PinningState) -> (info: Self::IOInfo)
        ensures
            info == Self::io_info(*pinning_state),
    ;

    /// Number of pages in the pool.
    fn get_total_num_pages(&self) -> (n: usize)
        ensures
            n == self.total_num_pages(),
    ;

    /// Address of the pool's first byte.
    fn get_start_address(&self) -> (addr: usize)
        ensures
            addr == self.start_address(),
    ;

    /// Size of each page of the pool.
    fn get_page_size(&self) -> (size: PageSize)
        ensures
            size == self.page_size(),
    ;

    /// Size of each page of the pool in bytes.
    fn get_page_size_as_num(&self) -> (n: usize)
        ensures
            n == self.page_size().bytes(),
    {
        self.get_page_size().as_num()
    }
}

/// A contiguous run of pages of one memory pool: the unit of pinning.
pub struct DatapathSegment<Slab: DatapathSlab> {
    start_address: usize,
    num_pages: usize,
    page_size: PageSize,
    pinning_state: Slab::PinningState,
    id: SegmentId,
}

impl<Slab: DatapathSlab> DatapathSegment<Slab> {
    /// Address of the first byte.
    pub closed spec fn start(&self) -> usize {
        self.start_address
    }

    /// Number of pages.
    pub closed spec fn pages(&self) -> usize {
        self.num_pages
    }

    /// Size of each page.
    pub closed spec fn page(&self) -> PageSize {
        self.page_size
    }

    /// The pool's record of the segment's registration.
    pub closed spec fn state(&self) -> Slab::PinningState {
        self.pinning_state
    }

    /// The segment's identifier.
    pub closed spec fn id(&self) -> SegmentId {
        self.id
    }

    /// Length in bytes.
    pub open spec fn len_bytes(&self) -> nat {
        (self.pages() * self.page().bytes()) as nat
    }

    /// Address one past the last byte.
    pub open spec fn end(&self) -> int {
        self.start() + self.len_bytes()
    }

    /// Whether `addr` lies inside the segment.
    pub open spec fn contains_addr(&self, addr: int) -> bool {
        self.start() <= addr < self.end()
    }

    /// Whether the pool has the segment pinned.
    pub open spec fn pinned(&self) -> bool {
        Slab::pinned(self.state())
    }

    /// The start address of each page, in ascending order.
    pub open spec fn page_addrs(&self) -> Seq<usize> {
        Seq::new(self.pages() as nat, |k: int| (self.start() + k * self.page().bytes()) as usize)
    }

    /// The page starts, if the pages have the given size; else nothing.
    pub open spec fn page_addrs_of(&self, size: PageSize) -> Seq<usize> {
        if self.page() == size {
            self.page_addrs()
        } else {
            Seq::empty()
        }
    }

    /// A segment has at least one page and ends within the address space.
    pub open spec fn well_formed(&self) -> bool {
        &&& self.pages() >= 1
        &&& self.end() <= usize::MAX
    }

    /// Same place, same size, same identity; the pinning state may differ.
    pub open spec fn same_extent(&self, other: &Self) -> bool {
        &&& self.start() == other.start()
        &&& self.pages() == other.pages()
        &&& self.page() == other.page()
        &&& self.id() == other.id()
    }

    /// Segments with the same extent and the same pinning state are the same.
    pub proof fn lemma_same(&self, other: &Self)
        requires
            self.same_extent(other),
            self.state() == other.state(),
        ensures
            *self == *other,
    {
    }

    /// Segment number `segment_id` of `slab`, in the pool's initial pinning state.
    pub fn new(
        start_address: usize,
        num_pages: usize,
        page_size: PageSize,
        segment_id: usize,
        slab: &Slab,
    ) -> (seg: Self)
        requires
            num_pages >= 1,
            start_address + num_pages * page_size.bytes() <= usize::MAX,
        ensures
            seg.well_formed(),
            seg.start() == start_address,
            seg.pages() == num_pages,
            seg.page() == page_size,
            seg.state() == slab.initial_state(),
            !seg.pinned(),
            seg.id() == (SegmentId { slab_id: slab.slab_id(), index: segment_id }),
    {
        DatapathSegment {
            start_address,
            num_pages,
            page_size,
            pinning_state: slab.default_pinning_state(),
            id: SegmentId::new(slab.get_slab_id(), segment_id),
        }
    }

    /// The segment's identifier.
    pub fn get_id(&self) -> (id: SegmentId)
        ensures
            id == self.id(),
    {
        self.id
    }

    /// Size of each page in bytes.
    pub fn get_page_size_as_num(&self) -> (n: usize)
        ensures
            n == self.page().bytes(),
    {
        self.page_size.as_num()
    }

    /// Asks the pool to pin the whole segment.
    pub fn register(&mut self, priv_info: &Slab::PrivateInfo)
        requires
            old(self).well_formed(),
        ensures
            final(self).same_extent(old(self)),
            Slab::pin_effect(
                old(self).state(),
                *priv_info,
                old(self).start(),
                old(self).len_bytes() as usize,
                final(self).state(),
            ),
    {
        let reglen = self.num_pages * self.get_page_size_as_num();
        Slab::pin_segment(&mut self.pinning_state, priv_info, self.start_address, reglen)
    }

    /// Asks the pool to release the segment.
    pub fn unregister(&mut self)
        ensures
            final(self).same_extent(old(self)),
            Slab::unpin_effect(old(self).state(), final(self).state()),
    {
        Slab::unpin_segment(&mut self.pinning_state);
    }

    /// Whether the pool has the segment pinned.
    pub fn is_pinned(&self) -> (pinned: bool)
        ensures
            pinned == self.pinned(),
    {
        Slab::is_pinned(&self.pinning_state)
    }

    /// Size of each page.
    pub fn get_page_size(&self) -> (size: PageSize)
        ensures
            size == self.page(),
    {
        self.page_size
    }

    /// Address of the first byte.
    pub fn get_start_address(&self) -> (addr: usize)
        ensures
            addr == self.start(),
    {
        self.start_address
    }

    /// The device-visible descriptor the pool keeps for the segment.
    pub fn get_io_info(&self) -> (info: Slab::IOInfo)
        ensures
            info == Slab::io_info(self.state()),
    {
        Slab::get_io_info(&self.pinning_state)
    }

    /// Number of pages.
    pub fn get_num_pages(&self) -> (n: usize)
        ensures
            n == self.pages(),
    {
        self.num_pages
    }

    /// The page starts, if the pages have the given size; else nothing.
    fn pages_of_size(&self, size: PageSize) -> (addrs: Vec<usize>)
        requires
            self.well_formed(),
        ensures
            addrs@ == self.page_addrs_of(size),
    {
        let mut addrs: Vec<usize> = Vec::new();
        if self.page_size == size {
            let step = self.get_page_size_as_num();
            let mut i: usize = 0;
            while i < self.num_pages
                invariant
                    i <= self.num_pages,
                    self.well_formed(),
                    step == self.page().bytes(),
                    addrs@ == self.page_addrs().take(i as int),
                decreases self.num_pages - i,
            {
                assert(i * step <= self.num_pages * step) by (nonlinear_arith)
                    requires
                        i <= self.num_pages,
                ;
                addrs.push(self.start_address + step * i);
                assert(step * i == i * step) by (nonlinear_arith);
                assert(addrs@ =~= self.page_addrs().take(i + 1));
                i += 1;
            }
            assert(addrs@ =~= self.page_addrs());
        }
        addrs
    }

    /// The page starts of a segment of 1 GiB pages; else nothing.
    pub fn get_1gb_pages(&self) -> (addrs: Vec<usize>)
        requires
            self.well_formed(),
        ensures
            addrs@ == self.page_addrs_of(PageSize::PG1GB),
    {
        self.pages_of_size(PageSize::PG1GB)
    }

    /// The page starts of a segment of 2 MiB pages; else nothing.
    pub fn get_2mb_pages(&self) -> (addrs: Vec<usize>)
        requires
            self.well_formed(),
        ensures
            addrs@ == self.page_addrs_of(PageSize::PG2MB),
    {
        self.pages_of_size(PageSize::PG2MB)
    }

    /// The page starts of a segment of 4 KiB pages; else nothing.
    pub fn get_4kb_pages(&self) -> (addrs: Vec<usize>)
        requires
            self.well_formed(),
        ensures
            addrs@ == self.page_addrs_of(PageSize::PG4KB),
    {
        self.pages_of_size(PageSize::PG4KB)
    }
}

/// How one step of unpinning a segment ended.
#[derive(Clone, Copy, Debug, PartialEq, Eq, Structural)]
pub enum UnpinStatus {
    /// The memory pool released the segment.
    Unpinned,
    /// I/Os are still in flight: the segment stays pinned and refuses new I/O
    /// until a later step finds it drained.
    Draining,
    /// The memory pool was asked to release the segment and did not.
    StillPinned,
    /// The segment is not registered.
    NotFound,
}

/// A registered segment together with what the cache tracks about it.
pub struct SegmentSlot<Slab: DatapathSlab> {
    /// The segment.
    pub segment: DatapathSegment<Slab>,
    /// Number of I/Os handed out on the segment and not yet completed.
    pub in_flight: u64,
    /// Whether an unpin is waiting for the in-flight I/Os to drain.
    pub quiescing: bool,
}

impl<Slab: DatapathSlab> SegmentSlot<Slab> {
    /// Whether this slot is `before` after a pin step: the memory pool is asked
    /// to pin the whole segment unless it is pinned already, and nothing else
    /// changes.
    pub open spec fn pinned_from(&self, before: &Self, private_info: Slab::PrivateInfo) -> bool {
        &&& self.in_flight == before.in_flight
        &&& self.quiescing == before.quiescing
        &&& self.segment.same_extent(&before.segment)
        &&& if before.segment.pinned() {
            self.segment.state() == before.segment.state()
        } else {
            Slab::pin_effect(
                before.segment.state(),
                private_info,
                before.segment.start(),
                before.segment.len_bytes() as usize,
                self.segment.state(),
            )
        }
    }

    /// Whether this slot is `before` after an unpin step: with I/O in flight the
    /// segment is left as it is and marked quiescing; without, the memory pool
    /// is asked to release it and the mark is cleared.
    pub open spec fn unpinned_from(&self, before: &Self) -> bool {
        &&& self.in_flight == before.in_flight
        &&& self.segment.same_extent(&before.segment)
        &&& if before.in_flight > 0 {
            self.quiescing && self.segment.state() == before.segment.state()
        } else {
            !self.quiescing && Slab::unpin_effect(before.segment.state(), self.segment.state())
        }
    }

    /// How an unpin step that turned `before` into this slot ended.
    pub open spec fn unpin_status(&self, before: &Self) -> UnpinStatus {
        if before.in_flight > 0 {
            UnpinStatus::Draining
        } else if self.segment.pinned() {
            UnpinStatus::StillPinned
        } else {
            UnpinStatus::Unpinned
        }
    }

    /// A slot for a segment no I/O has touched yet.
    pub fn new(segment: DatapathSegment<Slab>) -> (slot: Self)
        ensures
            slot.segment == segment,
            slot.in_flight == 0,
            !slot.quiescing,
    {
        SegmentSlot { segment, in_flight: 0, quiescing: false }
    }

    /// Pins the segment unless it is pinned already, and returns its I/O info.
    ///
    /// Fails with `PinFailed` exactly when the segment is not pinned afterwards.
    pub fn pin(&mut self, priv_info: &Slab::PrivateInfo) -> (pinned: Result<Slab::IOInfo, ZccError>)
        requires
            old(self).segment.well_formed(),
        ensures
            final(self).pinned_from(old(self), *priv_info),
            pinned is Ok <==> final(self).segment.pinned(),
            pinned matches Ok(info) ==> info == Slab::io_info(final(self).segment.state()),
            pinned matches Err(e) ==> e == ZccError::PinFailed,
    {
        if !self.segment.is_pinned() {
            self.segment.register(priv_info);
        }
        if self.segment.is_pinned() {
            Ok(self.segment.get_io_info())
        } else {
            Err(ZccError::PinFailed)
        }
    }

    /// One step of the drain protocol: marks the segment quiescing and, if no
    /// I/O is in flight, releases it and clears the mark.
    pub fn unpin(&mut self) -> (status: UnpinStatus)
        ensures
            final(self).unpinned_from(old(self)),
            status == final(self).unpin_status(old(self)),
    {
        self.quiescing = true;
        if self.in_flight == 0 {
            self.segment.unregister();
            self.quiescing = false;
            if self.segment.is_pinned() {
                UnpinStatus::StillPinned
            } else {
                UnpinStatus::Unpinned
            }
        } else {
            UnpinStatus::Draining
        }
    }
}

} // verus!
