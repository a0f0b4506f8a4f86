//! A cache of key-value pairs of a fixed size, kept in a W-TinyLFU cache of the
//! `wtinylfu` crate.
//!
//! Which pair a W-TinyLFU cache lets go when it is full depends on frequency
//! estimates that are hashed with seeds drawn at construction, so this module
//! says of its contents only what holds whichever pair leaves.
use vstd::prelude::*;
use crate::data_structures::metrics::Metrics;
use crate::data_structures::keys::{CacheKey, CacheValue};

verus! {

/// `wtinylfu::WTinyLfuCache`, carried as an opaque value. What it holds is
/// named by `wtinylfu_entries`.
#[verifier::external_type_specification]
#[verifier::external_body]
#[verifier::reject_recursive_types(K)]
#[verifier::reject_recursive_types(V)]
pub struct ExWTinyLfuCache<K: std::hash::Hash + Eq, V>(wtinylfu::WTinyLfuCache<K, V>);

/// The pairs a `wtinylfu::WTinyLfuCache` holds, in its window and its main part
/// together.
pub uninterp spec fn wtinylfu_entries(cache: wtinylfu::WTinyLfuCache<u64, u64>) -> Map<u64, u64>;

/// The pairs a `wtinylfu::WTinyLfuCache` holds in its window: those that came
/// in last. The others are in its main part.
pub uninterp spec fn wtinylfu_window(cache: wtinylfu::WTinyLfuCache<u64, u64>) -> Map<u64, u64>;

/// Whether `entries` are `n` pairs.
pub open spec fn holds_pairs(entries: Map<u64, u64>, n: usize) -> bool {
    entries.dom().finite() && entries.dom().len() == n
}

/// Whether `after` has only pairs of `before`, except perhaps one under `key`.
pub open spec fn kept_from(after: Map<u64, u64>, before: Map<u64, u64>, key: u64) -> bool {
    forall|k: u64|
        k != key && #[trigger] after.contains_key(k) ==> before.contains_key(k) && after[k]
            == before[k]
}

/// Whether `after` is `before` with one pair more under `key`, or with the pair
/// under `key` replaced, and with at most one other pair gone, and none if
/// `key` was there.
pub open spec fn put_into(after: Map<u64, u64>, before: Map<u64, u64>, key: u64, value: u64) -> bool {
    &&& after.dom().finite()
    &&& after.contains_key(key)
    &&& after[key] == value
    &&& kept_from(after, before, key)
    &&& before.contains_key(key) ==> after.dom() == before.dom()
    &&& !before.contains_key(key) ==> before.dom().len() <= after.dom().len() <= before.dom().len()
        + 1
}

/// Whether `after` is `before` without the pair `popped`, or `before` itself if
/// nothing was popped.
pub open spec fn popped_from(
    after: Map<u64, u64>,
    before: Map<u64, u64>,
    popped: Option<(u64, u64)>,
) -> bool {
    match popped {
        Some((k, v)) => before.contains_key(k) && before[k] == v && after == before.remove(k),
        None => after == before,
    }
}

/// Whether a cache that held `before`, `window_before` of it in its window,
/// holds `after` and `window_after` once the least recently used pair of the
/// window was asked for and `popped` came back: a pair of the window, which is
/// gone from the cache, or nothing, which is the answer of an empty window.
pub open spec fn popped_from_window(
    after: Map<u64, u64>,
    before: Map<u64, u64>,
    window_after: Map<u64, u64>,
    window_before: Map<u64, u64>,
    popped: Option<(u64, u64)>,
) -> bool {
    &&& popped_from(after, before, popped)
    &&& match popped {
        Some((k, v)) => window_before.contains_key(k) && window_before[k] == v && window_after
            == window_before.remove(k),
        None => window_before == Map::<u64, u64>::empty() && window_after == window_before,
    }
}

/// The same for the main part: a pair that was not in the window, which is gone
/// from the cache, or nothing, which is the answer of a cache that holds
/// nothing outside its window.
pub open spec fn popped_from_main(
    after: Map<u64, u64>,
    before: Map<u64, u64>,
    window_after: Map<u64, u64>,
    window_before: Map<u64, u64>,
    popped: Option<(u64, u64)>,
) -> bool {
    &&& popped_from(after, before, popped)
    &&& window_after == window_before
    &&& match popped {
        Some((k, v)) => !window_before.contains_key(k),
        None => forall|k: u64| #[trigger] before.contains_key(k) ==> window_before.contains_key(k),
    }
}

/// What one removal does: the window gives up a pair if it holds any, else the
/// main part does.
pub open spec fn popped_one(
    after: Map<u64, u64>,
    before: Map<u64, u64>,
    window_after: Map<u64, u64>,
    window_before: Map<u64, u64>,
    popped: Option<(u64, u64)>,
) -> bool {
    if window_before == Map::<u64, u64>::empty() {
        popped_from_main(after, before, window_after, window_before, popped)
    } else {
        popped is Some && popped_from_window(after, before, window_after, window_before, popped)
    }
}

/// The largest capacity a cache is built with.
pub const MAX_DIMENSION: usize = 0x7fff_ffff;

/// The largest sample size a cache is built with. The underlying cache keeps
/// its frequency estimates in 16 bits and adds one to an estimate without a
/// check; an estimate stays below twice the sample size, so with this bound the
/// addition stays in range.
pub const MAX_SAMPLE_SIZE: usize = 0x7fff;

/// `wtinylfu::WTinyLfuCache::new`: an empty cache. The call panics for a
/// capacity of zero and for a sample size of zero; it reserves memory in
/// proportion to both, rounding sizes up to powers of two, and panics where
/// those leave the integer range. A cache built with a sample size above
/// `MAX_SAMPLE_SIZE` can panic later, in `put`, when a frequency estimate of
/// 16 bits overflows.
#[verifier::external_body]
fn wtinylfu_new(cap: usize, sample_size: usize) -> (cache: wtinylfu::WTinyLfuCache<u64, u64>)
    requires
        1 <= cap <= MAX_DIMENSION,
        1 <= sample_size <= MAX_SAMPLE_SIZE,
    ensures
        wtinylfu_entries(cache) == (Map::<u64, u64>::empty()),
{
    wtinylfu::WTinyLfuCache::new(cap, sample_size)
}

/// `wtinylfu::WTinyLfuCache::len`: the number of pairs held.
#[verifier::external_body]
fn wtinylfu_len(cache: &wtinylfu::WTinyLfuCache<u64, u64>) -> (n: usize)
    ensures
        holds_pairs(wtinylfu_entries(*cache), n),
{
    cache.len()
}

/// `wtinylfu::WTinyLfuCache::put`: stores the pair and returns the value that
/// was stored under the key, if any. A new key enters the window, which may
/// push one other pair out of the cache. On a cache that `wtinylfu_new` built,
/// the frequency estimates that decide which pair goes stay within 16 bits.
#[verifier::external_body]
fn wtinylfu_put(cache: &mut wtinylfu::WTinyLfuCache<u64, u64>, key: u64, value: u64) -> (replaced:
    Option<u64>)
    ensures
        put_into(wtinylfu_entries(*final(cache)), wtinylfu_entries(*old(cache)), key, value),
        replaced == (if wtinylfu_entries(*old(cache)).contains_key(key) {
            Some(wtinylfu_entries(*old(cache))[key])
        } else {
            None
        }),
{
    cache.put(key, value)
}

/// `wtinylfu::WTinyLfuCache::get`: returns the value stored under the key, if
/// any. The pairs held stay the same.
#[verifier::external_body]
fn wtinylfu_get(cache: &mut wtinylfu::WTinyLfuCache<u64, u64>, key: u64) -> (found: Option<u64>)
    ensures
        wtinylfu_entries(*final(cache)) == wtinylfu_entries(*old(cache)),
        found == (if wtinylfu_entries(*old(cache)).contains_key(key) {
            Some(wtinylfu_entries(*old(cache))[key])
        } else {
            None
        }),
{
    cache.get(&key).copied()
}

/// `wtinylfu::WTinyLfuCache::pop_lru_window`: removes and returns the least
/// recently used pair of the window. Nothing comes back, and nothing changes,
/// exactly when the window is empty.
#[verifier::external_body]
fn wtinylfu_pop_lru_window(cache: &mut wtinylfu::WTinyLfuCache<u64, u64>) -> (popped: Option<
    (u64, u64),
>)
    ensures
        popped_from_window(
            wtinylfu_entries(*final(cache)),
            wtinylfu_entries(*old(cache)),
            wtinylfu_window(*final(cache)),
            wtinylfu_window(*old(cache)),
            popped,
        ),
{
    cache.pop_lru_window()
}

/// `wtinylfu::WTinyLfuCache::pop_lru_main`: removes and returns the least
/// recently used pair of the main part, and leaves the window alone. Nothing
/// comes back, and nothing changes, exactly when the main part is empty, which
/// is when every pair held is in the window.
#[verifier::external_body]
fn wtinylfu_pop_lru_main(cache: &mut wtinylfu::WTinyLfuCache<u64, u64>) -> (popped: Option<
    (u64, u64),
>)
    ensures
        popped_from_main(
            wtinylfu_entries(*final(cache)),
            wtinylfu_entries(*old(cache)),
            wtinylfu_window(*final(cache)),
            wtinylfu_window(*old(cache)),
            popped,
        ),
{
    cache.pop_lru_main()
}

/// A cache that holds about `len` of the pairs put into it, and prefers to keep
/// those that are used often.
pub struct UnboundedwTinyLfuCache {
    len: usize,
    cache: wtinylfu::WTinyLfuCache<u64, u64>,
    metrics: Metrics,
}

impl UnboundedwTinyLfuCache {
    /// The number of pairs the cache is meant to hold.
    pub closed spec fn size_limit(&self) -> usize {
        self.len
    }

    /// The pairs held.
    pub closed spec fn entries(&self) -> Map<u64, u64> {
        wtinylfu_entries(self.cache)
    }

    /// The pairs held in the window of the underlying cache.
    pub closed spec fn window(&self) -> Map<u64, u64> {
        wtinylfu_window(self.cache)
    }

    /// The hit and miss counters of `get`.
    pub closed spec fn counters(&self) -> Metrics {
        self.metrics
    }

    /// An empty cache for `size` pairs, which estimates frequencies over
    /// `sample_size` uses.
    pub fn new(size: usize, sample_size: usize) -> (cache: UnboundedwTinyLfuCache)
        requires
            1 <= size <= MAX_DIMENSION,
            1 <= sample_size <= MAX_SAMPLE_SIZE,
        ensures
            cache.size_limit() == size,
            cache.entries() == Map::<u64, u64>::empty(),
            cache.counters().lookups() == 0,
    {
        UnboundedwTinyLfuCache {
            len: size,
            cache: wtinylfu_new(size, sample_size),
            metrics: Metrics::new(),
        }
    }

    /// `new`, for every size and sample size: `None` where `new` cannot be
    /// called.
    pub fn try_new(size: usize, sample_size: usize) -> (made: Option<UnboundedwTinyLfuCache>)
        ensures
            made is Some <==> 1 <= size <= MAX_DIMENSION && 1 <= sample_size <= MAX_SAMPLE_SIZE,
            made matches Some(cache) ==> cache.size_limit() == size && cache.entries() == Map::<
                u64,
                u64,
            >::empty() && cache.counters().lookups() == 0,
    {
        if size >= 1 && size <= MAX_DIMENSION && sample_size >= 1 && sample_size <= MAX_SAMPLE_SIZE {
            Some(UnboundedwTinyLfuCache::new(size, sample_size))
        } else {
            None
        }
    }

    /// Removes one pair: the least recently used of the window, or of the main
    /// part if the window is empty. A pair comes back exactly when the cache
    /// holds one, and the pair that comes back is gone from the cache.
    fn pop_lru(&mut self) -> (popped: Option<(u64, u64)>)
        ensures
            final(self).size_limit() == old(self).size_limit(),
            final(self).counters() == old(self).counters(),
            popped is None <==> old(self).entries() == Map::<u64, u64>::empty(),
            popped_from(final(self).entries(), old(self).entries(), popped),
            popped_one(
                final(self).entries(),
                old(self).entries(),
                final(self).window(),
                old(self).window(),
                popped,
            ),
    {
        let popped = match wtinylfu_pop_lru_window(&mut self.cache) {
            Some(pair) => Some(pair),
            None => wtinylfu_pop_lru_main(&mut self.cache),
        };
        proof {
            let held = old(self).entries();
            if popped is None {
                assert(held =~= Map::<u64, u64>::empty());
            }
        }
        popped
    }

    /// Puts the pair into the cache.
    ///
    /// While the cache holds fewer pairs than it is meant to, the pair is put
    /// and returned. Else one pair is removed first and returned, unless the
    /// cache holds none. Either way the underlying cache may let one more pair
    /// go to make room.
    pub fn put(&mut self, key: CacheKey, value: CacheValue) -> (dropped: Option<
        (CacheKey, CacheValue),
    >)
        ensures
            final(self).size_limit() == old(self).size_limit(),
            final(self).counters() == old(self).counters(),
            final(self).entries().contains_key(key.id),
            final(self).entries()[key.id] == value.data,
            kept_from(final(self).entries(), old(self).entries(), key.id),
            old(self).size_limit() > old(self).entries().dom().len() ==> dropped == Some(
                (key, value),
            ) && put_into(final(self).entries(), old(self).entries(), key.id, value.data),
            old(self).size_limit() <= old(self).entries().dom().len() ==> match dropped {
                Some((k, v)) => old(self).entries().contains_key(k.id) && old(self).entries()[k.id]
                    == v.data && put_into(
                    final(self).entries(),
                    old(self).entries().remove(k.id),
                    key.id,
                    value.data,
                ),
                None => put_into(final(self).entries(), old(self).entries(), key.id, value.data),
            },
            old(self).size_limit() <= old(self).entries().dom().len() ==> (dropped is None
                <==> old(self).entries() == Map::<u64, u64>::empty()),
    {
        if self.len > wtinylfu_len(&self.cache) {
            wtinylfu_put(&mut self.cache, key.id, value.data);
            Some((key, value))
        } else {
            let dropped_buffer = self.pop_lru();
            wtinylfu_put(&mut self.cache, key.id, value.data);
            match dropped_buffer {
                Some((k, v)) => Some((CacheKey::new(k), CacheValue::new(v))),
                None => None,
            }
        }
    }

    /// The value stored under `key`, if any. Counts a hit if there is a value, a
    /// miss if not.
    pub fn get(&mut self, key: CacheKey) -> (found: Option<CacheValue>)
        ensures
            final(self).size_limit() == old(self).size_limit(),
            final(self).entries() == old(self).entries(),
            final(self).counters().counted(old(self).counters(), found is Some),
            found == (if old(self).entries().contains_key(key.id) {
                Some(CacheValue { data: old(self).entries()[key.id] })
            } else {
                None
            }),
    {
        match wtinylfu_get(&mut self.cache, key.id) {
            Some(data) => {
                self.metrics.record_hit();
                Some(CacheValue::new(data))
            },
            None => {
                self.metrics.record_miss();
                None
            },
        }
    }

    /// The number of pairs held.
    pub fn get_cache_size(&self) -> (n: usize)
        ensures
            n == self.entries().dom().len(),
    {
        wtinylfu_len(&self.cache)
    }

    /// Sets the number of pairs the cache is meant to hold. When the number goes
    /// down by `d`, `d` pairs are removed, one after the other, or all pairs if
    /// there are fewer.
    pub fn resize_cache(&mut self, new_size: usize)
        ensures
            final(self).size_limit() == new_size,
            final(self).counters() == old(self).counters(),
            final(self).entries().submap_of(old(self).entries()),
            new_size >= old(self).size_limit() ==> final(self).entries() == old(self).entries(),
            new_size < old(self).size_limit() ==> final(self).entries().dom().len() == (if old(
                self,
            ).entries().dom().len() <= old(self).size_limit() - new_size {
                0
            } else {
                old(self).entries().dom().len() - (old(self).size_limit() - new_size)
            }),
    {
        if new_size >= self.len {
            self.len = new_size;
        } else {
            let difference = self.len - new_size;
            let ghost before = self.entries();
            let held = wtinylfu_len(&self.cache);
            let mut i: usize = 0;
            while i < difference && i < held
                invariant
                    i <= difference,
                    i <= held,
                    held == before.dom().len(),
                    self.counters() == old(self).counters(),
                    before == old(self).entries(),
                    before.dom().finite(),
                    self.entries().submap_of(before),
                    self.entries().dom().finite(),
                    self.entries().dom().len() + i == before.dom().len(),
                decreases difference - i,
            {
                let ghost now = self.entries();
                let popped = self.pop_lru();
                proof {
                    assert(now.dom().len() > 0);
                    assert(now != Map::<u64, u64>::empty());
                    if let Some((k, v)) = popped {
                        assert(self.entries().dom() =~= now.dom().remove(k));
                    }
                }
                i += 1;
            }
            self.len = new_size;
        }
    }
}

} // verus!
