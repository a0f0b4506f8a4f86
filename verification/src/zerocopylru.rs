//! A cache of key-value pairs with least-recently-used eviction at a fixed size,
//! kept in an unbounded `lru::LruCache`.
use vstd::prelude::*;
use crate::data_structures::keys::{CacheKey, CacheValue, DEFAULT_CACHE_SIZE};
use crate::data_structures::metrics::Metrics;

verus! {

/// `lru::DefaultHasher`, the hasher an `lru::LruCache` is built with unless it
/// is given another. Nothing is said of it.
#[verifier::external_type_specification]
#[verifier::external_body]
pub struct ExLruHasher(lru::DefaultHasher);

/// `lru::LruCache`, carried as an opaque value. What it holds is named by
/// `lru_entries` and `lru_capacity`.
#[verifier::external_type_specification]
#[verifier::external_body]
#[verifier::reject_recursive_types(K)]
#[verifier::reject_recursive_types(V)]
#[verifier::reject_recursive_types(S)]
pub struct ExLruCache<K, V, S>(lru::LruCache<K, V, S>);

/// The pairs an `lru::LruCache` holds, most recently used first.
pub uninterp spec fn lru_entries(cache: lru::LruCache<u64, u64>) -> Seq<(u64, u64)>;

/// The number of pairs an `lru::LruCache` was made to hold.
pub uninterp spec fn lru_capacity(cache: lru::LruCache<u64, u64>) -> nat;

/// Whether a pair with key `key` is among `entries`.
pub open spec fn holds_key(entries: Seq<(u64, u64)>, key: u64) -> bool {
    exists|i: int| 0 <= i < entries.len() && (#[trigger] entries[i]).0 == key
}

/// Where the pair with key `key` stands in `entries`.
pub open spec fn place_of(entries: Seq<(u64, u64)>, key: u64) -> int {
    choose|i: int| 0 <= i < entries.len() && (#[trigger] entries[i]).0 == key
}

/// Whether no two pairs of `entries` have the same key.
pub open spec fn distinct_keys(entries: Seq<(u64, u64)>) -> bool {
    forall|i: int, j: int|
        0 <= i < entries.len() && 0 <= j < entries.len() && i != j ==> (#[trigger] entries[i]).0 != (
        #[trigger] entries[j]).0
}

/// `entries` after the pair with key `key` was used: it moves to the front.
pub open spec fn after_use(entries: Seq<(u64, u64)>, key: u64) -> Seq<(u64, u64)> {
    if holds_key(entries, key) {
        seq![entries[place_of(entries, key)]] + entries.remove(place_of(entries, key))
    } else {
        entries
    }
}

/// `entries` after `key` was put with `value` into a cache that holds at most
/// `capacity` pairs: the pair goes to the front; a pair with the same key is
/// replaced, else the last pair leaves if the cache is full.
pub open spec fn after_put(entries: Seq<(u64, u64)>, capacity: nat, key: u64, value: u64) -> Seq<
    (u64, u64),
> {
    if holds_key(entries, key) {
        seq![(key, value)] + entries.remove(place_of(entries, key))
    } else if entries.len() >= capacity && entries.len() > 0 {
        seq![(key, value)] + entries.drop_last()
    } else {
        seq![(key, value)] + entries
    }
}

/// `lru::LruCache::unbounded`: an empty cache whose capacity is `usize::MAX`.
#[verifier::external_body]
fn lru_unbounded() -> (cache: lru::LruCache<u64, u64>)
    ensures
        lru_entries(cache) == Seq::<(u64, u64)>::empty(),
        lru_capacity(cache) == usize::MAX,
{
    lru::LruCache::unbounded()
}

/// `lru::LruCache::len`: the number of pairs held.
#[verifier::external_body]
fn lru_len(cache: &lru::LruCache<u64, u64>) -> (n: usize)
    ensures
        n == lru_entries(*cache).len(),
{
    cache.len()
}

/// `lru::LruCache::put`: puts the pair at the front. If the key was there, its
/// pair is replaced and the old value returned; else nothing is returned, and
/// the least recently used pair leaves if the cache was full.
#[verifier::external_body]
fn lru_put(cache: &mut lru::LruCache<u64, u64>, key: u64, value: u64) -> (replaced: Option<u64>)
    ensures
        lru_capacity(*final(cache)) == lru_capacity(*old(cache)),
        lru_entries(*final(cache)) == after_put(
            lru_entries(*old(cache)),
            lru_capacity(*old(cache)),
            key,
            value,
        ),
        replaced == (if holds_key(lru_entries(*old(cache)), key) {
            Some(lru_entries(*old(cache))[place_of(lru_entries(*old(cache)), key)].1)
        } else {
            None
        }),
{
    cache.put(key, value)
}

/// `lru::LruCache::pop_lru`: removes and returns the least recently used pair,
/// if there is any.
#[verifier::external_body]
fn lru_pop_lru(cache: &mut lru::LruCache<u64, u64>) -> (popped: Option<(u64, u64)>)
    ensures
        lru_capacity(*final(cache)) == lru_capacity(*old(cache)),
        lru_entries(*old(cache)).len() == 0 ==> popped is None && lru_entries(*final(cache))
            == lru_entries(*old(cache)),
        lru_entries(*old(cache)).len() > 0 ==> popped == Some(lru_entries(*old(cache)).last())
            && lru_entries(*final(cache)) == lru_entries(*old(cache)).drop_last(),
{
    cache.pop_lru()
}

/// `lru::LruCache::get`: returns the value stored under the key, if any, and
/// moves its pair to the front.
#[verifier::external_body]
fn lru_get(cache: &mut lru::LruCache<u64, u64>, key: u64) -> (found: Option<u64>)
    ensures
        lru_capacity(*final(cache)) == lru_capacity(*old(cache)),
        lru_entries(*final(cache)) == after_use(lru_entries(*old(cache)), key),
        found == (if holds_key(lru_entries(*old(cache)), key) {
            Some(lru_entries(*old(cache))[place_of(lru_entries(*old(cache)), key)].1)
        } else {
            None
        }),
{
    cache.get(&key).copied()
}

/// A cache that holds the `len` most recently used of the pairs put into it.
pub struct UnboundedLRUCache {
    len: usize,
    cache: lru::LruCache<u64, u64>,
    metrics: Metrics,
}

impl UnboundedLRUCache {
    /// The number of pairs the cache was made for.
    pub closed spec fn size_limit(&self) -> usize {
        self.len
    }

    /// The pairs held, most recently used first.
    pub closed spec fn entries(&self) -> Seq<(u64, u64)> {
        lru_entries(self.cache)
    }

    /// The hit and miss counters of `get`.
    pub closed spec fn counters(&self) -> Metrics {
        self.metrics
    }

    /// No key is held twice, no more pairs are held than the cache was made
    /// for (one pair, if it was made for none), and the underlying cache never
    /// evicts by itself.
    pub closed spec fn well_formed(&self) -> bool {
        &&& distinct_keys(lru_entries(self.cache))
        &&& lru_entries(self.cache).len() <= self.len || lru_entries(self.cache).len() <= 1
        &&& lru_capacity(self.cache) == usize::MAX
    }

    /// A well-formed cache holds no key twice, and no more pairs than it was
    /// made for, or one pair if it was made for none.
    pub proof fn lemma_bounded(&self)
        requires
            self.well_formed(),
        ensures
            distinct_keys(self.entries()),
            self.entries().len() <= self.size_limit() || self.entries().len() <= 1,
    {
    }

    /// An empty cache for `size` pairs.
    pub fn new(size: usize) -> (cache: UnboundedLRUCache)
        ensures
            cache.well_formed(),
            cache.size_limit() == size,
            cache.entries() == Seq::<(u64, u64)>::empty(),
            cache.counters().lookups() == 0,
    {
        UnboundedLRUCache { len: size, cache: lru_unbounded(), metrics: Metrics::new() }
    }

    /// Puts the pair into the cache as the most recently used one.
    ///
    /// While the cache holds fewer pairs than it was made for, the pair is
    /// added, or replaces the pair of the same key, and is returned. Else the
    /// least recently used pair is dropped first and returned, if there is one.
    pub fn put(&mut self, key: CacheKey, value: CacheValue) -> (dropped: Option<
        (CacheKey, CacheValue),
    >)
        requires
            old(self).well_formed(),
        ensures
            final(self).well_formed(),
            final(self).size_limit() == old(self).size_limit(),
            final(self).counters() == old(self).counters(),
            old(self).size_limit() > old(self).entries().len() ==> {
                &&& final(self).entries() == after_put(
                    old(self).entries(),
                    usize::MAX as nat,
                    key.id,
                    value.data,
                )
                &&& dropped == Some((key, value))
            },
            old(self).size_limit() <= old(self).entries().len() && old(self).entries().len() > 0
                ==> {
                &&& final(self).entries() == after_put(
                    old(self).entries().drop_last(),
                    usize::MAX as nat,
                    key.id,
                    value.data,
                )
                &&& dropped == Some(
                    (
                        CacheKey { id: old(self).entries().last().0 },
                        CacheValue { data: old(self).entries().last().1 },
                    ),
                )
            },
            old(self).size_limit() <= old(self).entries().len() && old(self).entries().len() == 0
                ==> {
                &&& final(self).entries() == seq![(key.id, value.data)]
                &&& dropped is None
            },
    {
        if self.len > lru_len(&self.cache) {
            proof {
                lemma_put_keeps_distinct(lru_entries(self.cache), usize::MAX as nat, key.id, value.data);
            }
            lru_put(&mut self.cache, key.id, value.data);
            Some((key, value))
        } else {
            let dropped_buffer = lru_pop_lru(&mut self.cache);
            proof {
                let rest = lru_entries(self.cache);
                assert(distinct_keys(rest));
                lemma_put_keeps_distinct(rest, usize::MAX as nat, key.id, value.data);
                if old(self).entries().len() == 0 {
                    assert(!holds_key(rest, key.id));
                    assert(seq![(key.id, value.data)] + rest =~= seq![(key.id, value.data)]);
                }
            }
            lru_put(&mut self.cache, key.id, value.data);
            match dropped_buffer {
                Some((k, v)) => Some((CacheKey::new(k), CacheValue::new(v))),
                None => None,
            }
        }
    }

    /// The value stored under `key`, if any; its pair becomes the most recently
    /// used one. Counts a hit if there is a value, a miss if not.
    pub fn get(&mut self, key: CacheKey) -> (found: Option<CacheValue>)
        requires
            old(self).well_formed(),
        ensures
            final(self).well_formed(),
            final(self).size_limit() == old(self).size_limit(),
            final(self).entries() == after_use(old(self).entries(), key.id),
            final(self).counters().counted(old(self).counters(), found is Some),
            found == (if holds_key(old(self).entries(), key.id) {
                Some(CacheValue { data: old(self).entries()[place_of(old(self).entries(), key.id)].1 })
            } else {
                None
            }),
    {
        proof {
            lemma_use_keeps_distinct(lru_entries(self.cache), key.id);
        }
        match lru_get(&mut self.cache, key.id) {
            Some(data) => {
                self.metrics.record_hit();
                Some(CacheValue::new(data))
            },
            None => {
                self.metrics.record_miss();
                None
            },
        }
    }

    /// The number of pairs held.
    pub fn get_cache_size(&self) -> (n: usize)
        ensures
            n == self.entries().len(),
            self.well_formed() ==> n <= self.size_limit() || n <= 1,
    {
        lru_len(&self.cache)
    }

    /// How many calls of `get` found a value.
    pub fn hit_count(&self) -> (n: u64)
        ensures
            n == self.counters().hits(),
    {
        self.metrics.hit_count()
    }

    /// How many calls of `get` there were.
    pub fn total_count(&self) -> (n: u64)
        ensures
            n == self.counters().lookups(),
            self.counters().hits() + self.counters().misses() == self.counters().lookups(),
    {
        self.metrics.total_count()
    }
}

impl Default for UnboundedLRUCache {
    fn default() -> (cache: UnboundedLRUCache)
        ensures
            cache.well_formed(),
            cache.size_limit() == DEFAULT_CACHE_SIZE,
            cache.entries() == Seq::<(u64, u64)>::empty(),
    {
        UnboundedLRUCache::new(DEFAULT_CACHE_SIZE)
    }
}

/// Putting a pair into a cache without repeated keys leaves it without
/// repeated keys, with the pair in front.
pub proof fn lemma_put_keeps_distinct(entries: Seq<(u64, u64)>, capacity: nat, key: u64, value: u64)
    requires
        distinct_keys(entries),
    ensures
        distinct_keys(after_put(entries, capacity, key, value)),
        after_put(entries, capacity, key, value).len() > 0,
        after_put(entries, capacity, key, value)[0] == (key, value),
        holds_key(after_put(entries, capacity, key, value), key),
        place_of(after_put(entries, capacity, key, value), key) == 0,
{
    let after = after_put(entries, capacity, key, value);
    assert(after[0] == (key, value));
    if holds_key(entries, key) {
        let p = place_of(entries, key);
        assert forall|i: int| 1 <= i < after.len() implies (#[trigger] after[i]).0 != key by {
            if i - 1 < p {
                assert(after[i] == entries[i - 1]);
            } else {
                assert(after[i] == entries[i]);
            }
        }
        assert forall|i: int, j: int|
            0 <= i < after.len() && 0 <= j < after.len() && i != j implies (#[trigger] after[i]).0 != (
        #[trigger] after[j]).0 by {
            if i >= 1 && j >= 1 {
                let a = if i - 1 < p {
                    i - 1
                } else {
                    i
                };
                let b = if j - 1 < p {
                    j - 1
                } else {
                    j
                };
                assert(after[i] == entries[a]);
                assert(after[j] == entries[b]);
            }
        }
    } else {
        assert forall|i: int| 1 <= i < after.len() implies (#[trigger] after[i]).0 != key by {
            assert(after[i] == entries[i - 1]);
        }
        assert forall|i: int, j: int|
            0 <= i < after.len() && 0 <= j < after.len() && i != j implies (#[trigger] after[i]).0 != (
        #[trigger] after[j]).0 by {
            if i >= 1 && j >= 1 {
                assert(after[i] == entries[i - 1]);
                assert(after[j] == entries[j - 1]);
            }
        }
    }
    assert(holds_key(after, key));
    let q = place_of(after, key);
    if q != 0 {
        assert(after[q].0 != key);
    }
}

/// Using a pair of a cache without repeated keys leaves it without repeated
/// keys.
pub proof fn lemma_use_keeps_distinct(entries: Seq<(u64, u64)>, key: u64)
    requires
        distinct_keys(entries),
    ensures
        distinct_keys(after_use(entries, key)),
        after_use(entries, key).len() == entries.len(),
{
    let after = after_use(entries, key);
    if holds_key(entries, key) {
        let p = place_of(entries, key);
        assert forall|i: int, j: int|
            0 <= i < after.len() && 0 <= j < after.len() && i != j implies (#[trigger] after[i]).0 != (
        #[trigger] after[j]).0 by {
            let a = if i == 0 {
                p
            } else if i - 1 < p {
                i - 1
            } else {
                i
            };
            let b = if j == 0 {
                p
            } else if j - 1 < p {
                j - 1
            } else {
                j
            };
            assert(after[i] == entries[a]);
            assert(after[j] == entries[b]);
        }
    }
}

} // verus!
