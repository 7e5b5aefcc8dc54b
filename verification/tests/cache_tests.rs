use lru_cache::cache::{CacheError, LruCache};

#[test]
fn test_basic_operations() {
    let mut cache = LruCache::new(2, None).unwrap();
    cache.put(1, 1, None, 1, 0);
    cache.put(2, 2, None, 1, 0);

    assert_eq!(cache.get(1, 0), Some(&1));
    assert_eq!(cache.get(2, 0), Some(&2));
    assert_eq!(cache.get(3, 0), None);

    cache.put(3, 3, None, 1, 0);
    assert_eq!(cache.get(1, 0), None);
    assert_eq!(cache.get(2, 0), Some(&2));
    assert_eq!(cache.get(3, 0), Some(&3));
}

#[test]
fn test_ttl_expiration() {
    let mut cache = LruCache::new(2, None).unwrap();
    cache.put(1, 1, Some(100), 1, 0);
    cache.put(2, 2, None, 1, 0);

    assert_eq!(cache.get(1, 0), Some(&1));
    assert_eq!(cache.get(2, 0), Some(&2));

    assert_eq!(cache.get(1, 150), None);
    assert_eq!(cache.get(2, 150), Some(&2));
}

#[test]
fn test_lru_eviction() {
    let mut cache = LruCache::new(3, None).unwrap();
    cache.put(1, 1, None, 1, 0);
    cache.put(2, 2, None, 1, 0);
    cache.put(3, 3, None, 1, 0);

    cache.get(1, 0);
    cache.put(4, 4, None, 1, 0);

    assert_eq!(cache.get(2, 0), None);
    assert_eq!(cache.get(1, 0), Some(&1));
    assert_eq!(cache.get(3, 0), Some(&3));
    assert_eq!(cache.get(4, 0), Some(&4));
}

#[test]
fn test_no_memory_leaks() {
    let mut cache = LruCache::new(2, None).unwrap();
    for i in 0..1000u64 {
        cache.put(i, Box::new([0u8; 1024]), None, 1024, i);
    }
}

#[test]
fn test_invalid_capacity() {
    assert_eq!(LruCache::<i32>::new(0, None).err(), Some(CacheError::InvalidCapacity));
    assert!(LruCache::<i32>::new(1, None).is_ok());
}

#[test]
fn test_invariants_across_sequence() {
    let mut cache = LruCache::new(3, Some(10)).unwrap();
    cache.put(1, 1, None, 4, 0);
    assert!(cache.len() <= cache.capacity());
    assert_eq!(cache.current_size(), 4);
    cache.put(2, 2, Some(50), 4, 1);
    assert!(cache.len() <= cache.capacity());
    assert_eq!(cache.current_size(), 8);
    cache.get(1, 2);
    assert_eq!(cache.len(), 2);
    assert_eq!(cache.current_size(), 8);
    cache.put(3, 3, None, 4, 3);
    assert!(cache.len() <= cache.capacity());
    assert!(cache.current_size() <= 10);
    cache.remove_oldest();
    assert!(cache.current_size() <= 10);
    assert!(cache.len() <= cache.capacity());
}

#[test]
fn test_recency_promotion_scenario() {
    let mut cache = LruCache::new(2, None).unwrap();
    cache.put(1, 1, None, 1, 0);
    cache.put(2, 2, None, 1, 0);
    assert_eq!(cache.get(1, 0), Some(&1));
    cache.put(3, 3, None, 1, 0);
    assert_eq!(cache.get(2, 0), None);
    assert_eq!(cache.get(1, 0), Some(&1));
    assert_eq!(cache.get(3, 0), Some(&3));
}

#[test]
fn test_size_budget_eviction() {
    let mut cache = LruCache::new(10, Some(100)).unwrap();
    cache.put(1, 10, None, 50, 0);
    cache.put(2, 20, None, 60, 1);
    assert_eq!(cache.len(), 1);
    assert_eq!(cache.get(1, 2), None);
    assert_eq!(cache.get(2, 2), Some(&20));
    cache.put(3, 30, None, 90, 3);
    assert_eq!(cache.len(), 1);
    assert_eq!(cache.get(2, 4), None);
    assert_eq!(cache.get(3, 4), Some(&30));
    assert_eq!(cache.current_size(), 90);
}

#[test]
fn test_oversized_entry_installed_alone() {
    let mut cache = LruCache::new(10, Some(100)).unwrap();
    cache.put(1, 10, None, 30, 0);
    cache.put(2, 20, None, 30, 0);
    assert_eq!(cache.len(), 2);
    cache.put(3, 30, None, 150, 1);
    assert_eq!(cache.len(), 1);
    assert_eq!(cache.current_size(), 150);
    assert_eq!(cache.get(3, 2), Some(&30));
}

#[test]
fn test_replace_does_not_double_count() {
    let mut cache = LruCache::new(4, Some(100)).unwrap();
    cache.put(1, 10, None, 30, 0);
    cache.put(2, 20, None, 30, 0);
    assert_eq!(cache.current_size(), 60);
    cache.put(1, 11, None, 40, 1);
    assert_eq!(cache.len(), 2);
    assert_eq!(cache.current_size(), 70);
    assert_eq!(cache.get(1, 2), Some(&11));
}

#[test]
fn test_expiry_boundary_is_closed() {
    let mut cache = LruCache::new(2, None).unwrap();
    cache.put(1, 1, Some(10), 1, 0);
    assert_eq!(cache.get(1, 9), Some(&1));
    assert_eq!(cache.get(1, 10), None);
}

#[test]
fn test_no_ttl_never_expires() {
    let mut cache = LruCache::new(2, None).unwrap();
    cache.put(1, 1, None, 1, 0);
    assert_eq!(cache.get(1, u64::MAX), Some(&1));
}

#[test]
fn test_clear_expired_eager_sweep() {
    let mut cache = LruCache::new(5, None).unwrap();
    cache.put(1, 1, Some(10), 1, 0);
    cache.put(2, 2, None, 1, 0);
    cache.put(3, 3, Some(5), 1, 0);
    assert_eq!(cache.len(), 3);
    cache.clear_expired(10);
    assert_eq!(cache.len(), 1);
    assert_eq!(cache.current_size(), 1);
    assert_eq!(cache.get(2, 10), Some(&2));
}

#[test]
fn test_get_mut_updates_value() {
    let mut cache = LruCache::new(2, None).unwrap();
    cache.put(1, 5, None, 1, 0);
    if let Some(v) = cache.get_mut(1, 0) {
        *v = 7;
    }
    assert_eq!(cache.get(1, 0), Some(&7));
    assert_eq!(cache.get_mut(9, 0), None);
}

#[test]
fn test_get_mut_expired_is_removed() {
    let mut cache = LruCache::new(2, None).unwrap();
    cache.put(1, 5, Some(10), 1, 0);
    assert_eq!(cache.get_mut(1, 10), None);
    assert_eq!(cache.len(), 0);
}

#[test]
fn test_remove_oldest() {
    let mut cache = LruCache::new(3, None).unwrap();
    cache.put(1, 1, None, 2, 0);
    cache.put(2, 2, None, 3, 0);
    cache.remove_oldest();
    assert_eq!(cache.len(), 1);
    assert_eq!(cache.current_size(), 3);
    assert_eq!(cache.get(1, 0), None);
    assert_eq!(cache.get(2, 0), Some(&2));
    cache.remove_oldest();
    assert!(cache.is_empty());
    cache.remove_oldest();
    assert!(cache.is_empty());
}

#[test]
fn test_put_replaces_ttl() {
    let mut cache = LruCache::new(2, None).unwrap();
    cache.put(1, 1, Some(10), 1, 0);
    cache.put(1, 2, None, 1, 5);
    assert_eq!(cache.get(1, 50), Some(&2));
    cache.put(1, 3, Some(10), 1, 60);
    assert_eq!(cache.get(1, 70), None);
}
