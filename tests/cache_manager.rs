use workpool::cache::CacheManager;

type DataLoader<K, V> = dyn Fn(&K) -> Result<V, String> + Send + Sync;
type Cache = CacheManager<String, Box<DataLoader<String, String>>>;

#[test]
fn test_loader_error_handling() {
    let loader: Box<DataLoader<String, String>> = Box::new(|key| {
        if key == "error_key" {
            Err("Database connection failed".to_string())
        } else {
            Ok(format!("loaded_{}", key))
        }
    });

    let mut cache = CacheManager::with_loader(60_000, 100, loader);

    let success_result = cache.get(&"good_key".to_string());
    assert!(success_result.is_ok());
    assert!(success_result.unwrap().is_some());

    let error_result = cache.get(&"error_key".to_string());
    assert!(error_result.is_err());
    assert_eq!(error_result.unwrap_err(), "Database connection failed");

    let good_again = cache.get(&"good_key".to_string());
    assert!(good_again.is_ok());
    assert!(good_again.unwrap().is_some());
}

#[test]
fn test_clear_cache() {
    let mut cache: Cache = CacheManager::new(60_000, 100);

    cache.put("key1".to_string(), "value1".to_string()).unwrap();
    cache.put("key2".to_string(), "value2".to_string()).unwrap();

    assert_eq!(cache.get_stats().entries_count, 2);

    cache.clear();

    assert_eq!(cache.get_stats().entries_count, 0);
    assert!(cache.get_cached_only(&"key1".to_string()).is_none());
    assert!(cache.get_cached_only(&"key2".to_string()).is_none());
}

#[test]
fn test_is_full() {
    let mut cache: Cache = CacheManager::new(60_000, 2);

    assert!(!cache.is_full());

    cache.put("key1".to_string(), "value1".to_string()).unwrap();
    assert!(!cache.is_full());

    cache.put("key2".to_string(), "value2".to_string()).unwrap();
    assert!(cache.is_full());
}

#[test]
fn full_cache_rejects_new_keys_and_counts_eviction() {
    let mut cache: Cache = CacheManager::new(60_000, 1);
    cache.put("a".to_string(), "1".to_string()).unwrap();
    assert_eq!(cache.put("b".to_string(), "2".to_string()), Err("Cache is full".to_string()));
    assert_eq!(cache.get_stats().evictions, 1);
    assert_eq!(
        cache.put_with_ttl("b".to_string(), "2".to_string(), 10),
        Err("Cache is full".to_string())
    );
    assert_eq!(cache.get_stats().evictions, 1);
    cache.put("a".to_string(), "3".to_string()).unwrap();
    assert_eq!(cache.get_cached_only(&"a".to_string()), Some("3".to_string()));
    assert_eq!(cache.get_stats().entries_count, 1);
}

#[test]
fn hits_and_misses_are_counted() {
    let mut cache: Cache = CacheManager::new(60_000, 10);
    cache.put("k".to_string(), "v".to_string()).unwrap();
    assert_eq!(cache.get(&"k".to_string()), Ok(Some("v".to_string())));
    assert_eq!(cache.get(&"x".to_string()), Err("No loader configured".to_string()));
    assert_eq!(cache.get_cached_only(&"x".to_string()), None);
    let stats = cache.get_stats();
    assert_eq!(stats.hits, 1);
    assert_eq!(stats.misses, 1);
}

#[test]
fn remove_reports_presence() {
    let mut cache: Cache = CacheManager::new(60_000, 10);
    cache.put("k".to_string(), "v".to_string()).unwrap();
    cache.put("j".to_string(), "w".to_string()).unwrap();
    assert!(cache.remove(&"k".to_string()));
    assert!(!cache.remove(&"k".to_string()));
    assert_eq!(cache.get_stats().entries_count, 1);
    assert_eq!(cache.get_cached_only(&"j".to_string()), Some("w".to_string()));
}

#[test]
fn cleanup_at_a_time_drops_only_expired_entries() {
    let mut cache: Cache = CacheManager::new(60_000, 10);
    cache.put_with_ttl("short".to_string(), "1".to_string(), 30).unwrap();
    cache.put_with_ttl("long".to_string(), "2".to_string(), u64::MAX).unwrap();
    assert_eq!(cache.cleanup_expired_at(u64::MAX - 1), 1);
    assert!(cache.get_cached_only(&"short".to_string()).is_none());
    assert_eq!(cache.get_cached_only(&"long".to_string()), Some("2".to_string()));
    assert_eq!(cache.get_stats().entries_count, 1);
    assert_eq!(cache.cleanup_expired(), 0);
}
