use rand::Rng;
use zero_copy_cache::data_structures::{
    CacheBuilder, LinkedListLruCache, MfuCache, NoAlgCache, OnDemandLruCache, ScoreTable,
    SegmentId, SegmentSet, TimestampLruCache,
};

fn seg(index: usize) -> SegmentId {
    SegmentId::new(1, index)
}

fn set_of(indices: &[usize]) -> SegmentSet {
    let mut set = SegmentSet::new();
    for i in indices {
        set.insert(seg(*i));
    }
    set
}

fn members(set: &SegmentSet) -> Vec<usize> {
    (0..set.len()).map(|i| set.get(i).index).collect()
}

fn create_random_array(no_of_segments: usize, no_of_elements: usize) -> Vec<usize> {
    let mut rand_vec: Vec<usize> = Vec::new();
    let mut rand_rng = rand::thread_rng();
    for _ in 0..no_of_elements {
        rand_vec.push(rand_rng.gen_range(0..no_of_segments));
    }
    rand_vec
}

fn create_segments(no_of_segments: usize) -> Vec<SegmentId> {
    let mut segment_vector = Vec::new();
    for i in 0..no_of_segments {
        segment_vector.push(SegmentId::new((i as u64) + 1, 4096));
    }
    segment_vector
}

#[test]
fn test_zcc_segment_insert() {
    let mut zero_copy_cache = MfuCache::new(5);
    let new_segments = create_segments(5);
    let access_list = create_random_array(5, 50);
    for val in &access_list {
        zero_copy_cache.update_access(new_segments[*val]);
    }

    let value_count = access_list.clone().iter().filter(|&n| *n == 3).count() as u64;
    assert_eq!(value_count, zero_copy_cache.access_count(new_segments[3]));
}

#[test]
fn segment_id_key_packs_pool_and_position() {
    assert_eq!(SegmentId::new(0, 0).key(), 0);
    assert_eq!(SegmentId::new(0, 5).key(), 5);
    assert_eq!(SegmentId::new(1, 0).key(), 1u128 << 64);
    assert_eq!(SegmentId::new(3, 7).key(), (3u128 << 64) + 7);
    assert_eq!(SegmentId::new(u64::MAX, usize::MAX).key(), u128::MAX);
    assert_ne!(SegmentId::new(1, 2).key(), SegmentId::new(2, 1).key());
}

#[test]
fn segment_set_keeps_insertion_order_without_repeats() {
    let mut set = SegmentSet::new();
    assert!(set.insert(seg(3)));
    assert!(set.insert(seg(1)));
    assert!(!set.insert(seg(3)));
    assert!(set.insert(seg(2)));
    assert_eq!(members(&set), vec![3, 1, 2]);
    assert!(set.contains(seg(1)));
    assert!(!set.contains(seg(4)));
    assert!(set.remove(seg(1)));
    assert!(!set.remove(seg(1)));
    assert_eq!(members(&set), vec![3, 2]);
    let copy = set.clone();
    assert_eq!(members(&copy), vec![3, 2]);
    assert_eq!(copy.len(), 2);
}

#[test]
fn score_table_selects_the_best() {
    let mut table = ScoreTable::new();
    table.set(seg(0), 5);
    table.set(seg(1), 9);
    table.set(seg(2), 5);
    table.set(seg(3), 1);
    assert_eq!(table.len(), 4);
    assert_eq!(table.get(seg(1)), Some(9));
    assert_eq!(table.get(seg(7)), None);
    assert_eq!(table.find(seg(2)), Some(2));
    assert_eq!(members(&table.top(0)), Vec::<usize>::new());
    assert_eq!(members(&table.top(1)), vec![1]);
    // Between equal scores the segment seen first wins.
    assert_eq!(members(&table.top(2)), vec![1, 0]);
    assert_eq!(members(&table.top(3)), vec![1, 0, 2]);
    assert_eq!(members(&table.top(10)), vec![1, 0, 2, 3]);
    table.set(seg(3), 100);
    assert_eq!(members(&table.top(1)), vec![3]);
    let copy = table.clone();
    assert_eq!(copy.get(seg(3)), Some(100));
}

#[test]
fn score_table_selects_the_least_valuable() {
    let mut table = ScoreTable::new();
    table.set(seg(0), 5);
    table.set(seg(1), 9);
    table.set(seg(2), 5);
    assert_eq!(table.lowest_of(&set_of(&[])), None);
    assert_eq!(table.lowest_of(&set_of(&[1])), Some(seg(1)));
    assert_eq!(table.lowest_of(&set_of(&[1, 0])), Some(seg(0)));
    // Between equal scores the segment seen later is the less valuable.
    assert_eq!(table.lowest_of(&set_of(&[0, 1, 2])), Some(seg(2)));
    assert_eq!(table.lowest_of(&set_of(&[2, 1, 0])), Some(seg(2)));
    // A segment without a score is less valuable than any with one.
    assert_eq!(table.lowest_of(&set_of(&[0, 8, 9])), Some(seg(8)));
    table.reset_all();
    assert_eq!(table.get(seg(1)), Some(0));
    assert_eq!(table.lowest_of(&set_of(&[0, 1, 2])), Some(seg(2)));
}

#[test]
fn mfu_wants_the_most_touched() {
    let mut mfu = MfuCache::new(2);
    for (index, times) in [(0usize, 3usize), (1, 7), (2, 5), (3, 1)] {
        for _ in 0..times {
            mfu.update_access(seg(index));
        }
    }
    assert_eq!(mfu.access_count(seg(1)), 7);
    assert_eq!(mfu.access_count(seg(9)), 0);
    assert_eq!(members(&mfu.return_top_segments_to_pin()), vec![1, 2]);
    // Asking again without an access gives the same answer.
    assert_eq!(members(&mfu.return_top_segments_to_pin()), vec![1, 2]);
}

#[test]
fn mfu_with_fewer_segments_than_the_limit_wants_them_all() {
    let mut mfu = MfuCache::new(4);
    mfu.update_access(seg(2));
    mfu.update_access(seg(0));
    assert_eq!(members(&mfu.return_top_segments_to_pin()), vec![2, 0]);
    let empty = MfuCache::new(4);
    assert_eq!(empty.return_top_segments_to_pin().len(), 0);
    let mut none = MfuCache::new(0);
    none.update_access(seg(1));
    assert_eq!(none.return_top_segments_to_pin().len(), 0);
}

#[test]
fn mfu_reset_zeroes_counts_and_keeps_the_segments() {
    let mut mfu = MfuCache::new(2);
    for (index, times) in [(0usize, 1usize), (1, 7), (2, 5)] {
        for _ in 0..times {
            mfu.update_access(seg(index));
        }
    }
    mfu.reset();
    for i in 0..3 {
        assert_eq!(mfu.access_count(seg(i)), 0);
    }
    // With all counts equal the segments touched first are wanted.
    let top = mfu.return_top_segments_to_pin();
    assert!(top.len() <= 2);
    assert_eq!(members(&top), vec![0, 1]);
    // What is wanted now depends on the accesses after the reset.
    mfu.update_access(seg(2));
    mfu.update_access(seg(2));
    mfu.update_access(seg(1));
    assert_eq!(mfu.access_count(seg(2)), 2);
    assert_eq!(members(&mfu.return_top_segments_to_pin()), vec![2, 1]);
}

#[test]
fn policies_keep_the_pinned_set_they_are_given() {
    let mut mfu = MfuCache::new(3);
    assert_eq!(mfu.current_pinned_segments().len(), 0);
    mfu.set_current_pinned_list(set_of(&[4, 2]));
    assert_eq!(members(mfu.current_pinned_segments()), vec![4, 2]);
    assert_eq!(mfu.current_bytes_pinned(4096), 8192);
    mfu.update_access(seg(9));
    mfu.reset();
    assert_eq!(members(mfu.current_pinned_segments()), vec![4, 2]);

    let mut noalg = NoAlgCache::new(3);
    noalg.set_current_pinned_list(set_of(&[1]));
    assert_eq!(noalg.current_bytes_pinned(100), 100);
    let mut lru = TimestampLruCache::new(3);
    lru.set_current_pinned_list(set_of(&[1, 2, 3]));
    assert_eq!(lru.current_bytes_pinned(2), 6);
    let mut list = LinkedListLruCache::new(3);
    list.set_current_pinned_list(set_of(&[]));
    assert_eq!(list.current_bytes_pinned(4096), 0);
    let mut on_demand = OnDemandLruCache::new(3);
    on_demand.set_current_pinned_list(set_of(&[7]));
    assert_eq!(members(on_demand.current_pinned_segments()), vec![7]);
}

#[test]
fn noalg_wants_what_is_pinned() {
    let mut noalg = NoAlgCache::new(2);
    assert_eq!(noalg.return_top_segments_to_pin().len(), 0);
    noalg.set_current_pinned_list(set_of(&[5, 3]));
    noalg.update_access(seg(9));
    noalg.reset();
    assert_eq!(members(&noalg.return_top_segments_to_pin()), vec![5, 3]);
    // The longest-pinned segment gives way to a newcomer.
    assert_eq!(noalg.insert_and_evict(seg(5)), None);
    assert_eq!(noalg.insert_and_evict(seg(8)), Some(seg(5)));
    assert_eq!(members(noalg.current_pinned_segments()), vec![3, 8]);
}

#[test]
fn mfu_admission_evicts_the_least_touched() {
    let mut mfu = MfuCache::new(2);
    for (index, times) in [(0usize, 4usize), (1, 2), (2, 9)] {
        for _ in 0..times {
            mfu.update_access(seg(index));
        }
    }
    assert_eq!(mfu.insert_and_evict(seg(0)), None);
    assert_eq!(mfu.insert_and_evict(seg(1)), None);
    assert_eq!(mfu.insert_and_evict(seg(1)), None);
    assert_eq!(mfu.insert_and_evict(seg(2)), Some(seg(1)));
    assert_eq!(members(mfu.current_pinned_segments()), vec![0, 2]);
}

#[test]
fn timestamp_lru_wants_the_most_recent() {
    let mut lru = TimestampLruCache::new(2);
    for i in [0usize, 1, 2, 0] {
        lru.update_access(seg(i));
    }
    assert_eq!(lru.last_access_time(seg(0)), 4);
    assert_eq!(lru.last_access_time(seg(1)), 2);
    assert_eq!(lru.last_access_time(seg(2)), 3);
    assert_eq!(lru.last_access_time(seg(3)), 0);
    assert_eq!(members(&lru.return_top_segments_to_pin()), vec![0, 2]);
    lru.reset();
    assert_eq!(lru.last_access_time(seg(0)), 0);
    lru.update_access(seg(1));
    assert_eq!(lru.last_access_time(seg(1)), 1);
    assert_eq!(members(&lru.return_top_segments_to_pin()), vec![1, 0]);
}

#[test]
fn timestamp_lru_admission_evicts_the_least_recent() {
    let mut lru = TimestampLruCache::new(2);
    for i in [0usize, 1, 0, 2] {
        lru.update_access(seg(i));
    }
    assert_eq!(lru.insert_and_evict(seg(0)), None);
    assert_eq!(lru.insert_and_evict(seg(1)), None);
    assert_eq!(lru.insert_and_evict(seg(2)), Some(seg(1)));
    assert_eq!(members(lru.current_pinned_segments()), vec![0, 2]);
}

#[test]
fn on_demand_lru_admits_by_recency() {
    let mut lru = OnDemandLruCache::new(1);
    lru.update_access(seg(0));
    assert_eq!(lru.insert_and_evict(seg(0)), None);
    lru.update_access(seg(1));
    assert_eq!(lru.insert_and_evict(seg(1)), Some(seg(0)));
    lru.update_access(seg(0));
    assert_eq!(lru.insert_and_evict(seg(0)), Some(seg(1)));
    assert_eq!(members(lru.current_pinned_segments()), vec![0]);
    assert_eq!(members(&lru.return_top_segments_to_pin()), vec![0]);
    assert_eq!(lru.last_access_time(seg(0)), 3);
}

#[test]
fn on_demand_lru_with_a_limit_of_zero_admits_nothing() {
    let mut lru = OnDemandLruCache::new(0);
    lru.update_access(seg(0));
    assert_eq!(lru.insert_and_evict(seg(0)), None);
    assert_eq!(lru.current_pinned_segments().len(), 0);
}

#[test]
fn on_demand_lru_evicts_a_never_touched_segment_first() {
    let mut lru = OnDemandLruCache::new(2);
    lru.set_current_pinned_list(set_of(&[4, 5]));
    lru.update_access(seg(4));
    lru.update_access(seg(6));
    assert_eq!(lru.insert_and_evict(seg(6)), Some(seg(5)));
    assert_eq!(members(lru.current_pinned_segments()), vec![4, 6]);
}

#[test]
fn linked_list_lru_wants_the_most_recent() {
    let mut lru = LinkedListLruCache::new(2);
    assert_eq!(lru.return_top_segments_to_pin().len(), 0);
    for i in [0usize, 1, 2, 0] {
        lru.update_access(seg(i));
    }
    assert_eq!(members(&lru.return_top_segments_to_pin()), vec![2, 0]);
    lru.reset();
    assert_eq!(lru.return_top_segments_to_pin().len(), 0);
    lru.update_access(seg(3));
    assert_eq!(members(&lru.return_top_segments_to_pin()), vec![3]);
}

#[test]
fn linked_list_lru_admission_evicts_the_least_recent() {
    let mut lru = LinkedListLruCache::new(2);
    for i in [0usize, 1, 0, 2] {
        lru.update_access(seg(i));
    }
    assert_eq!(lru.insert_and_evict(seg(0)), None);
    assert_eq!(lru.insert_and_evict(seg(1)), None);
    assert_eq!(lru.insert_and_evict(seg(2)), Some(seg(1)));
    assert_eq!(members(lru.current_pinned_segments()), vec![0, 2]);
    // A pinned segment that was never touched goes before any touched one.
    let mut other = LinkedListLruCache::new(2);
    other.set_current_pinned_list(set_of(&[7, 8]));
    other.update_access(seg(7));
    assert_eq!(other.insert_and_evict(seg(9)), Some(seg(8)));
}
