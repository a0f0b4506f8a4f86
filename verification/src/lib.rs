//! A pinning cache for zero-copy datapaths.
//!
//! Device I/O needs its buffers pinned, pinning is expensive, and only a bounded
//! number of bytes can be pinned at once. The cache splits each memory pool into
//! fixed-size segments, watches which segments are touched, and keeps the most
//! valuable ones pinned within the byte budget.
//!
//! - [`pagesizes`]: page sizes and rounding of addresses to page boundaries.
//! - [`data_structures`]: segment identifiers, the memory-pool capability, the
//!   replacement policies, and the cache with its registry, its fast path and
//!   its reconciliation pass.
//! - [`zerocopylru`] and [`zerocopytinylfu`]: key-value caches of a fixed size
//!   over the `lru` and `wtinylfu` crates.
//!
//! The cache is a sequential state machine: every operation takes the cache by
//! exclusive reference and returns. What the datapath threads and the
//! reconciler share, and how long they wait for each other, is the host's
//! business.
pub mod data_structures;
pub mod pagesizes;
pub mod zerocopylru;
pub mod zerocopytinylfu;
