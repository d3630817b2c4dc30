use algos::local_cache::{InnerLocalCache, LocalCache};
use std::sync::Arc;

#[test]
fn test_put_and_get() {
    let mut cache = LocalCache::<String>::new(10, 3600);
    let key = "key1".to_string();
    let value = Arc::new("value1".to_string());
    cache.put(key.clone(), value.clone());
    let retrieved = cache.get(&key);
    assert!(retrieved.is_some());
    assert_eq!(*retrieved.unwrap(), *value);
}

#[test]
fn test_get_non_existent() {
    let mut cache = LocalCache::<String>::new(10, 3600);
    let key = "key1".to_string();
    let retrieved = cache.get(&key);
    assert!(retrieved.is_none());
}

#[test]
fn test_update_value() {
    let mut cache = LocalCache::<String>::new(10, 3600);
    let key = "key1".to_string();
    let value1 = Arc::new("value1".to_string());
    let value2 = Arc::new("value2".to_string());
    cache.put(key.clone(), value1.clone());
    let retrieved1 = cache.get(&key);
    assert_eq!(*retrieved1.unwrap(), *value1);

    cache.put(key.clone(), value2.clone());
    let retrieved2 = cache.get(&key);
    assert_eq!(*retrieved2.unwrap(), *value2);
}

#[test]
fn test_lru_eviction() {
    let mut cache = LocalCache::<String>::new(2, 3600);
    let key1 = "key1".to_string();
    let value1 = Arc::new("value1".to_string());
    let key2 = "key2".to_string();
    let value2 = Arc::new("value2".to_string());
    let key3 = "key3".to_string();
    let value3 = Arc::new("value3".to_string());

    cache.put(key1.clone(), value1.clone());
    cache.put(key2.clone(), value2.clone());

    // Access key1 to make it most recently used
    cache.get(&key1);

    cache.put(key3.clone(), value3.clone());

    assert!(cache.get(&key1).is_some());
    assert!(cache.get(&key3).is_some());
    assert!(cache.get(&key2).is_none()); // key2 should be evicted
}

#[test]
fn test_lru_eviction_no_get() {
    let mut cache = LocalCache::<String>::new(2, 3600);
    let key1 = "key1".to_string();
    let value1 = Arc::new("value1".to_string());
    let key2 = "key2".to_string();
    let value2 = Arc::new("value2".to_string());
    let key3 = "key3".to_string();
    let value3 = Arc::new("value3".to_string());

    cache.put(key1.clone(), value1.clone());
    cache.put(key2.clone(), value2.clone());

    // No get, so key1 is the least recently used
    cache.put(key3.clone(), value3.clone());

    assert!(cache.get(&key1).is_none()); // key1 should be evicted
    assert!(cache.get(&key2).is_some());
    assert!(cache.get(&key3).is_some());
}

/// With the time given: an entry read after its expiry is not returned.
#[test]
fn expired_entry_is_not_returned() {
    let mut cache = InnerLocalCache::<String>::new(10, 1_000);
    let key = "key1".to_string();
    cache.put(key.clone(), Arc::new("value1".to_string()), 5_000);
    assert_eq!(cache.get(&key, 6_000).as_deref(), Some(&"value1".to_string()));
    assert!(cache.get(&key, 6_001).is_none());
}

/// With the time given: a write into a full cache drops expired entries first.
#[test]
fn put_drops_expired_before_evicting() {
    let mut cache = InnerLocalCache::<u32>::new(2, 1_000);
    let k1 = "k1".to_string();
    let k2 = "k2".to_string();
    let k3 = "k3".to_string();
    cache.put(k1.clone(), Arc::new(1), 0);
    cache.put(k2.clone(), Arc::new(2), 2_500);
    cache.put(k3.clone(), Arc::new(3), 3_000);
    assert!(cache.get(&k1, 3_000).is_none());
    assert_eq!(cache.get(&k2, 3_000).as_deref(), Some(&2));
    assert_eq!(cache.get(&k3, 3_000).as_deref(), Some(&3));
}

/// With the time given: a full cache without expired entries evicts the least
/// recently used one.
#[test]
fn put_evicts_least_recently_used() {
    let mut cache = InnerLocalCache::<u32>::new(2, 1_000_000);
    let k1 = "k1".to_string();
    let k2 = "k2".to_string();
    let k3 = "k3".to_string();
    cache.put(k1.clone(), Arc::new(1), 10);
    cache.put(k2.clone(), Arc::new(2), 20);
    assert!(cache.get(&k1, 30).is_some());
    cache.put(k3.clone(), Arc::new(3), 40);
    assert!(cache.get(&k2, 50).is_none());
    assert!(cache.get(&k1, 50).is_some());
    assert!(cache.get(&k3, 50).is_some());
}
