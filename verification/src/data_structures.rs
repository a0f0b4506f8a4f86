//! The pinning cache and the pieces it is built from: segment identifiers, the
//! memory-pool capability, the replacement policies and the cache itself.
pub mod cache;
pub mod cache_type;
pub mod error;
pub mod keys;
pub mod linked_list_lru;
pub mod metrics;
pub mod mfu;
pub mod noalg;
pub mod on_demand_lru;
pub mod policy;
pub mod ranking;
pub mod scored;
pub mod segment_id;
pub mod slab;
pub mod timestamp_lru;

pub use cache::reconcile::ReconcileOutcome;
pub use cache::ZeroCopyCache;
pub use cache_type::CacheType;
pub use error::ZccError;
pub use keys::CacheKey;
pub use keys::CacheValue;
pub use keys::DEFAULT_CACHE_SIZE;
pub use linked_list_lru::LinkedListLruCache;
pub use metrics::Metrics;
pub use mfu::MfuCache;
pub use noalg::NoAlgCache;
pub use on_demand_lru::OnDemandLruCache;
pub use policy::CacheBuilder;
pub use ranking::ScoreTable;
pub use scored::ScoredPins;
pub use segment_id::SegmentId;
pub use segment_id::SegmentSet;
pub use slab::DatapathSegment;
pub use slab::DatapathSlab;
pub use slab::SegmentSlot;
pub use slab::UnpinStatus;
pub use timestamp_lru::TimestampLruCache;
