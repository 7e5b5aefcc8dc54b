use lru_cache::cache::CacheError;
use lru_cache::concurrent::ConcurrentLruCache;

#[test]
fn test_concurrent_basic() {
    let cache = ConcurrentLruCache::new(2, None).unwrap();
    assert!(cache.is_empty());
    assert_eq!(cache.capacity(), 2);
    assert_eq!(cache.max_size(), None);
    cache.put(1, 10, None, 1, 0);
    assert_eq!(cache.get(1, 0), Some(10));
    assert_eq!(cache.get(9, 0), None);
    assert!(!cache.is_empty());
    assert!(cache.len() <= 2);
}

#[test]
fn test_concurrent_invalid_capacity() {
    assert_eq!(ConcurrentLruCache::<i32>::new(0, Some(5)).err(), Some(CacheError::InvalidCapacity));
}

#[test]
fn test_concurrent_observes_own_writes() {
    let cache = ConcurrentLruCache::new(8, None).unwrap();
    for k in 0..8u64 {
        cache.put(k, k + 100, None, 1, 0);
    }
    for k in 0..8u64 {
        assert_eq!(cache.get(k, 0), Some(k + 100));
    }
}

#[test]
fn test_concurrent_eviction() {
    let cache = ConcurrentLruCache::new(2, None).unwrap();
    cache.put(1, 1, None, 1, 0);
    cache.put(2, 2, None, 1, 0);
    cache.put(3, 3, None, 1, 0);
    assert_eq!(cache.len(), 2);
    assert_eq!(cache.get(1, 0), None);
    assert_eq!(cache.get(2, 0), Some(2));
    assert_eq!(cache.get(3, 0), Some(3));
}

#[test]
fn test_concurrent_clear_expired() {
    let cache = ConcurrentLruCache::new(4, None).unwrap();
    cache.put(1, 1, Some(10), 1, 0);
    cache.put(2, 2, None, 1, 0);
    cache.clear_expired(20);
    assert_eq!(cache.len(), 1);
    assert_eq!(cache.get(1, 20), None);
    assert_eq!(cache.get(2, 20), Some(2));
}

#[test]
fn test_concurrent_remove_oldest() {
    let cache = ConcurrentLruCache::new(4, None).unwrap();
    cache.put(1, 1, None, 1, 0);
    cache.put(2, 2, None, 1, 0);
    cache.remove_oldest();
    assert_eq!(cache.len(), 1);
    assert_eq!(cache.get(1, 0), None);
    assert_eq!(cache.get(2, 0), Some(2));
}

#[test]
fn test_concurrent_get_promotes() {
    let cache = ConcurrentLruCache::new(2, None).unwrap();
    cache.put(1, 1, None, 1, 0);
    cache.put(2, 2, None, 1, 0);
    assert_eq!(cache.get(1, 0), Some(1));
    cache.put(3, 3, None, 1, 0);
    assert_eq!(cache.get(2, 0), None);
    assert_eq!(cache.get(1, 0), Some(1));
    assert_eq!(cache.get(3, 0), Some(3));
}
