//! Keys and values of the key-value caches.
use vstd::prelude::*;

verus! {

/// Number of pairs a cache holds unless told otherwise.
pub const DEFAULT_CACHE_SIZE: usize = 10_000;

/// The key of a cached pair.
#[derive(Clone, Copy, Debug, PartialEq, Eq, Hash, Structural)]
pub struct CacheKey {
    pub id: u64,
}

impl CacheKey {
    /// The key with the given number.
    pub fn new(id: u64) -> (key: CacheKey)
        ensures
            key.id == id,
    {
        CacheKey { id }
    }
}

/// The value of a cached pair.
#[derive(Clone, Copy, Debug, PartialEq, Eq, Hash, Structural)]
pub struct CacheValue {
    pub data: u64,
}

impl CacheValue {
    /// The value with the given content.
    pub fn new(data: u64) -> (value: CacheValue)
        ensures
            value.data == data,
    {
        CacheValue { data }
    }
}

} // verus!
