use elaru::LRUCache;

fn items<T>(cache: &LRUCache<T>) -> Vec<u16> {
    let mut keys = Vec::new();
    let mut it = cache.iter();
    while let Some((k, _)) = it.next() {
        keys.push(k);
    }
    keys
}

fn four() -> LRUCache<u32> {
    let mut cache = LRUCache::new(4);
    cache.insert(1, 10);
    cache.insert(2, 20);
    cache.insert(3, 30);
    cache.insert(4, 40);
    cache
}

#[test]
fn new_reports_capacity() {
    let cache: LRUCache<u32> = LRUCache::new(7);
    assert_eq!(cache.capacity(), 7);
    assert_eq!(cache.len(), 0);
    let big: LRUCache<u32> = LRUCache::new(65534);
    assert_eq!(big.capacity(), 65534);
}

#[test]
fn empty_store_misses_everything() {
    let mut cache: LRUCache<u32> = LRUCache::new(4);
    assert_eq!(cache.len(), 0);
    assert_eq!(items(&cache), Vec::<u16>::new());
    assert_eq!(cache.get(&0), None);
    assert_eq!(cache.get(&65535), None);
    assert_eq!(cache.get_mut(&1), None);
    assert_eq!(cache.remove_lru(), None);
    let mut it = cache.iter();
    assert_eq!(it.next(), None);
    assert_eq!(it.next(), None);
}

#[test]
fn overflow_evicts_least_recent() {
    let mut cache = four();
    assert_eq!(cache.insert(5, 50), None);
    assert_eq!(items(&cache), [5, 4, 3, 2]);
    assert_eq!(cache.len(), 4);
    assert_eq!(cache.get(&1), None);
    assert_eq!(items(&cache), [5, 4, 3, 2]);
}

#[test]
fn overflow_after_touch_evicts_untouched() {
    let mut cache = four();
    assert_eq!(cache.get(&1), Some(&10));
    cache.insert(5, 50);
    assert_eq!(items(&cache), [5, 1, 4, 3]);
    assert_eq!(cache.get(&2), None);
}

#[test]
fn get_moves_key_to_front() {
    let mut cache = four();
    assert_eq!(cache.get(&3), Some(&30));
    assert_eq!(items(&cache), [3, 4, 2, 1]);
    assert_eq!(cache.len(), 4);
    assert_eq!(cache.get(&3), Some(&30));
    assert_eq!(items(&cache), [3, 4, 2, 1]);
    assert_eq!(cache.get(&1), Some(&10));
    assert_eq!(items(&cache), [1, 3, 4, 2]);
}

#[test]
fn get_mut_writes_through() {
    let mut cache = four();
    if let Some(v) = cache.get_mut(&2) {
        *v = 222;
    }
    assert_eq!(items(&cache), [2, 4, 3, 1]);
    assert_eq!(cache.get(&2), Some(&222));
    assert_eq!(cache.get(&4), Some(&40));
}

#[test]
fn remove_lru_returns_tail() {
    let mut cache = four();
    assert_eq!(cache.remove_lru(), Some((1, 10)));
    assert_eq!(items(&cache), [4, 3, 2]);
    assert_eq!(cache.len(), 3);
}

#[test]
fn drain_is_reverse_of_iteration() {
    let mut cache = four();
    cache.get(&2);
    let forward = items(&cache);
    let mut drained = Vec::new();
    while let Some((k, _)) = cache.remove_lru() {
        drained.push(k);
    }
    drained.reverse();
    assert_eq!(forward, [2, 4, 3, 1]);
    assert_eq!(drained, forward);
    assert_eq!(cache.len(), 0);
}

#[test]
fn clear_empties_and_allows_reuse() {
    let mut cache = four();
    cache.clear();
    assert_eq!(cache.len(), 0);
    assert_eq!(items(&cache), Vec::<u16>::new());
    assert_eq!(cache.get(&1), None);
    cache.insert(9, 90);
    assert_eq!(items(&cache), [9]);
    assert_eq!(cache.remove_lru(), Some((9, 90)));
}

#[test]
fn insert_then_get_round_trip() {
    let mut cache = four();
    cache.insert(7, 70);
    assert_eq!(cache.get(&7), Some(&70));
    assert_eq!(items(&cache)[0], 7);
    cache.insert(3, 33);
    assert_eq!(cache.get(&3), Some(&33));
    assert_eq!(items(&cache)[0], 3);
}

#[test]
fn overwrite_returns_old_value_and_moves_to_front() {
    let mut cache = four();
    assert_eq!(cache.insert(2, 21), Some(20));
    assert_eq!(items(&cache), [2, 4, 3, 1]);
    assert_eq!(cache.len(), 4);
    assert_eq!(cache.insert(2, 22), Some(21));
    assert_eq!(items(&cache), [2, 4, 3, 1]);
    assert_eq!(cache.insert(1, 11), Some(10));
    assert_eq!(items(&cache), [1, 2, 4, 3]);
    assert_eq!(cache.get(&1), Some(&11));
}

#[test]
fn len_counts_distinct_keys() {
    let mut cache = LRUCache::new(5);
    for k in [3u16, 1, 3, 2, 1, 3] {
        cache.insert(k, u32::from(k));
    }
    assert_eq!(cache.len(), 3);
    assert_eq!(items(&cache), [3, 1, 2]);
}

#[test]
fn capacity_one_keeps_latest() {
    let mut cache = LRUCache::new(1);
    cache.insert(1, 'a');
    cache.insert(2, 'b');
    assert_eq!(items(&cache), [2]);
    assert_eq!(cache.get(&1), None);
    assert_eq!(cache.insert(2, 'c'), Some('b'));
    assert_eq!(cache.remove_lru(), Some((2, 'c')));
    assert_eq!(cache.len(), 0);
}

#[test]
fn iterator_stops_after_tail() {
    let mut cache = four();
    cache.remove_lru();
    let mut it = cache.iter();
    assert_eq!(it.next(), Some((4, &40)));
    assert_eq!(it.next(), Some((3, &30)));
    assert_eq!(it.next(), Some((2, &20)));
    assert_eq!(it.next(), None);
    assert_eq!(it.next(), None);
}

#[test]
fn unbounded_never_evicts() {
    let mut cache = LRUCache::unbounded(2);
    assert_eq!(cache.capacity(), 2);
    cache.insert(1, 10);
    cache.insert(2, 20);
    cache.insert(3, 30);
    assert_eq!(cache.len(), 3);
    assert_eq!(items(&cache), [3, 2, 1]);
    assert_eq!(cache.get(&1), Some(&10));
    assert_eq!(items(&cache), [1, 3, 2]);
    assert_eq!(cache.remove_lru(), Some((2, 20)));
    assert_eq!(items(&cache), [1, 3]);
}

#[test]
fn unbounded_with_zero_capacity_still_stores() {
    let mut cache = LRUCache::unbounded(0);
    assert_eq!(cache.insert(5, 'x'), None);
    assert_eq!(cache.insert(5, 'y'), Some('x'));
    assert_eq!(cache.len(), 1);
    assert_eq!(items(&cache), [5]);
}
