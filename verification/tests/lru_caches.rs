use algos::lru::LRUCache as ListLRUCache;
use algos::lru_bitmap::LRUCache;
use algos::lru_bitmap::LruCache;

#[test]
fn lru_bitmap_test_lru_cache_case_1() {
    let mut cache = LRUCache::new(2);
    assert_eq!(cache.get(2), -1);
    cache.put(2, 6);
    assert_eq!(cache.get(2), 6);
    assert_eq!(cache.get(1), -1);
    cache.put(1, 5);
    cache.put(1, 2);
    assert_eq!(cache.get(1), 2);
    assert_eq!(cache.get(2), 6);
}

#[test]
fn lru_bitmap_test_lru_cache_case_2() {
    let mut cache = LRUCache::new(2);
    cache.put(1, 1);
    cache.put(2, 2);
    assert_eq!(cache.get(1), 1);
    cache.put(3, 0);
    assert_eq!(cache.get(2), -1);
    cache.put(4, 4);
    assert_eq!(cache.get(1), -1);
    assert_eq!(cache.get(3), 0);
    assert_eq!(cache.get(4), 4);
}

#[test]
fn lru_bitmap_test_lru_cache_case_3() {
    let mut cache = LRUCache::new(2);
    cache.put(1, 1);
    cache.put(2, 2);
    assert_eq!(cache.get(1), 1);
    cache.put(3, 3);
    assert_eq!(cache.get(2), -1);
    cache.put(4, 4);
    assert_eq!(cache.get(1), -1);
    assert_eq!(cache.get(3), 3);
    assert_eq!(cache.get(4), 4);
}

#[test]
fn lru_test_lru_cache_case_1() {
    let mut cache = ListLRUCache::new(2);
    assert_eq!(cache.get(2), -1);
    cache.put(2, 6);
    assert_eq!(cache.get(1), -1);
    cache.put(1, 5);
    cache.put(1, 2);
    assert_eq!(cache.get(1), 2);
    assert_eq!(cache.get(2), 6);
}

#[test]
fn lru_test_lru_cache_case_2() {
    let mut cache = ListLRUCache::new(2);
    cache.put(1, 1);
    cache.put(2, 2);
    assert_eq!(cache.get(1), 1);
    cache.put(3, 0);
    assert_eq!(cache.get(2), -1);
    cache.put(4, 4);
    assert_eq!(cache.get(1), -1);
    assert_eq!(cache.get(3), 0);
    assert_eq!(cache.get(4), 4);
}

#[test]
fn lru_test_lru_cache_case_3() {
    let mut cache = ListLRUCache::new(2);
    cache.put(1, 1);
    cache.put(2, 2);
    assert_eq!(cache.get(1), 1);
    cache.put(3, 3);
    assert_eq!(cache.get(2), -1);
    cache.put(4, 4);
    assert_eq!(cache.get(1), -1);
    assert_eq!(cache.get(3), 3);
    assert_eq!(cache.get(4), 4);
}

/// Many uses of a small cache run the log round the ring several times, so the
/// log is compacted again and again; the cache must keep answering like an LRU.
#[test]
fn bitmap_cache_survives_compaction() {
    let mut cache = LruCache::new(3);
    let mut list = ListLRUCache::new(3);
    for round in 0..2000 {
        let key = (round * 7) % 5;
        if round % 3 == 0 {
            assert_eq!(cache.get(key), list.get(key));
        } else {
            cache.put(key, round);
            list.put(key, round);
        }
    }
    for key in 0..5 {
        assert_eq!(cache.get(key), list.get(key));
    }
}

#[test]
fn get_after_put_returns_value() {
    let mut cache = LruCache::new(1);
    cache.put(7, 70);
    assert_eq!(cache.get(7), 70);
    cache.put(8, 80);
    assert_eq!(cache.get(7), -1);
    assert_eq!(cache.get(8), 80);
}

#[test]
fn get_refreshes_recency() {
    let mut cache = ListLRUCache::new(2);
    cache.put(1, 10);
    cache.put(2, 20);
    assert_eq!(cache.get(1), 10);
    cache.put(3, 30);
    assert_eq!(cache.get(1), 10);
    assert_eq!(cache.get(2), -1);
    assert_eq!(cache.get(3), 30);
}

#[test]
fn update_keeps_size() {
    let mut cache = LruCache::new(2);
    cache.put(1, 1);
    cache.put(2, 2);
    cache.put(1, 11);
    cache.put(1, 111);
    assert_eq!(cache.get(2), 2);
    assert_eq!(cache.get(1), 111);
}

#[test]
fn missing_key_gives_minus_one() {
    let mut cache = LruCache::new(4);
    assert_eq!(cache.get(-5), -1);
    let mut list = ListLRUCache::new(4);
    assert_eq!(list.get(0), -1);
}

#[test]
fn last_write_wins_and_least_recent_leaves() {
    let mut a = LRUCache::new(2);
    let mut b = ListLRUCache::new(2);
    for (k, v) in [(1, 1), (2, 2), (1, 10), (3, 3)] {
        a.put(k, v);
        b.put(k, v);
    }
    assert_eq!(a.get(1), 10);
    assert_eq!(b.get(1), 10);
    assert_eq!(a.get(2), -1);
    assert_eq!(b.get(2), -1);
    assert_eq!(a.get(3), 3);
    assert_eq!(b.get(3), 3);
}
