use zero_copy_cache::data_structures::{CacheKey, CacheValue};
use zero_copy_cache::zerocopytinylfu::UnboundedwTinyLfuCache;

fn pair(k: u64, v: u64) -> (CacheKey, CacheValue) {
    (CacheKey::new(k), CacheValue::new(v))
}

#[test]
fn tinylfu_put_and_get() {
    let mut cache = UnboundedwTinyLfuCache::new(4, 10);
    assert_eq!(cache.get_cache_size(), 0);
    assert_eq!(cache.put(CacheKey::new(1), CacheValue::new(10)), Some(pair(1, 10)));
    assert_eq!(cache.put(CacheKey::new(2), CacheValue::new(20)), Some(pair(2, 20)));
    assert_eq!(cache.get(CacheKey::new(1)), Some(CacheValue::new(10)));
    assert_eq!(cache.get(CacheKey::new(2)), Some(CacheValue::new(20)));
    assert_eq!(cache.get(CacheKey::new(3)), None);
    assert_eq!(cache.get_cache_size(), 2);
}

#[test]
fn tinylfu_put_of_a_held_key_replaces_its_value() {
    let mut cache = UnboundedwTinyLfuCache::new(4, 10);
    cache.put(CacheKey::new(1), CacheValue::new(10));
    assert_eq!(cache.put(CacheKey::new(1), CacheValue::new(11)), Some(pair(1, 11)));
    assert_eq!(cache.get(CacheKey::new(1)), Some(CacheValue::new(11)));
    assert_eq!(cache.get_cache_size(), 1);
}

#[test]
fn tinylfu_full_cache_gives_up_a_pair_it_held() {
    let mut cache = UnboundedwTinyLfuCache::new(2, 10);
    cache.put(CacheKey::new(1), CacheValue::new(10));
    cache.put(CacheKey::new(2), CacheValue::new(20));
    let dropped = cache.put(CacheKey::new(3), CacheValue::new(30));
    assert!(dropped == Some(pair(1, 10)) || dropped == Some(pair(2, 20)));
    assert_eq!(cache.get(CacheKey::new(3)), Some(CacheValue::new(30)));
    assert!(cache.get_cache_size() <= 2);
    let (k, _) = dropped.unwrap();
    assert_eq!(cache.get(k), None);
}

#[test]
fn tinylfu_resize_down_removes_pairs() {
    let mut cache = UnboundedwTinyLfuCache::new(4, 10);
    for i in 0..4 {
        cache.put(CacheKey::new(i), CacheValue::new(i * 10));
    }
    let before = cache.get_cache_size();
    cache.resize_cache(2);
    let after = cache.get_cache_size();
    assert_eq!(after, before.saturating_sub(2));
    for i in 0..4 {
        if let Some(v) = cache.get(CacheKey::new(i)) {
            assert_eq!(v, CacheValue::new(i * 10));
        }
    }
}

#[test]
fn tinylfu_resize_up_keeps_pairs() {
    let mut cache = UnboundedwTinyLfuCache::new(2, 10);
    cache.put(CacheKey::new(1), CacheValue::new(10));
    cache.resize_cache(8);
    assert_eq!(cache.get_cache_size(), 1);
    assert_eq!(cache.get(CacheKey::new(1)), Some(CacheValue::new(10)));
}

#[test]
fn tinylfu_try_new_refuses_what_cannot_be_built() {
    assert!(UnboundedwTinyLfuCache::try_new(0, 10).is_none());
    assert!(UnboundedwTinyLfuCache::try_new(4, 0).is_none());
    assert!(UnboundedwTinyLfuCache::try_new(4, usize::MAX).is_none());
    assert!(UnboundedwTinyLfuCache::try_new(4, 0x8000).is_none());
    assert!(UnboundedwTinyLfuCache::try_new(4, 0x7fff).is_some());
    assert!(UnboundedwTinyLfuCache::try_new(1, 1).is_some());
}

#[test]
fn tinylfu_full_cache_drops_nothing_only_when_it_holds_nothing() {
    let mut cache = UnboundedwTinyLfuCache::new(4, 10);
    cache.resize_cache(0);
    // The cache is meant to hold nothing and holds nothing: there is no pair to
    // drop before the put.
    assert_eq!(cache.put(CacheKey::new(1), CacheValue::new(10)), None);
    assert_eq!(cache.get_cache_size(), 1);
    // From now on it holds a pair, which is dropped before the next put.
    assert_eq!(cache.put(CacheKey::new(2), CacheValue::new(20)), Some(pair(1, 10)));
    assert_eq!(cache.get_cache_size(), 1);
    assert_eq!(cache.get(CacheKey::new(1)), None);
    assert_eq!(cache.get(CacheKey::new(2)), Some(CacheValue::new(20)));
}

#[test]
fn tinylfu_resize_to_nothing_empties_the_cache() {
    let mut cache = UnboundedwTinyLfuCache::new(8, 10);
    for i in 0..3 {
        cache.put(CacheKey::new(i), CacheValue::new(i));
    }
    let before = cache.get_cache_size();
    assert!(before >= 1);
    cache.resize_cache(0);
    assert_eq!(cache.get_cache_size(), 0);
    for i in 0..3 {
        assert_eq!(cache.get(CacheKey::new(i)), None);
    }
}
