use std::time::Duration;

use arch_toolkit::cache::MemoryCache;

fn bytes(s: &str) -> Vec<u8> {
    s.as_bytes().to_vec()
}

#[test]
fn test_memory_cache_get_set() {
    let mut cache = MemoryCache::new(10);
    let key = "test_key".to_string();
    let value = "test_value".to_string();
    assert!(cache.get(&key).is_none());
    cache.set(&key, bytes(&value), Duration::from_secs(60));
    let retrieved = cache.get(&key);
    assert_eq!(retrieved, Some(bytes(&value)));
}

#[test]
fn test_memory_cache_lru_eviction() {
    let mut cache = MemoryCache::new(2);
    cache.set("key1", bytes("value1"), Duration::from_secs(60));
    cache.set("key2", bytes("value2"), Duration::from_secs(60));
    // Reading key1 makes it the most recently used entry.
    cache.get("key1");
    cache.set("key3", bytes("value3"), Duration::from_secs(60));
    assert!(cache.get("key1").is_some());
    assert!(cache.get("key2").is_none());
    assert!(cache.get("key3").is_some());
}

#[test]
fn test_memory_cache_invalidate() {
    let mut cache = MemoryCache::new(10);
    let key = "test_key".to_string();
    cache.set(&key, bytes("test_value"), Duration::from_secs(60));
    assert!(cache.get(&key).is_some());
    cache.invalidate(&key);
    assert!(cache.get(&key).is_none());
}

#[test]
fn test_memory_cache_clear() {
    let mut cache = MemoryCache::new(10);
    cache.set("key1", bytes("test_value"), Duration::from_secs(60));
    cache.set("key2", bytes("test_value"), Duration::from_secs(60));
    cache.clear();
    assert!(cache.get("key1").is_none());
    assert!(cache.get("key2").is_none());
}

#[test]
fn memory_cache_entries_expire_at_their_time() {
    let mut cache = MemoryCache::new(4);
    cache.set_at("k", bytes("v"), 100, 1_000);
    assert_eq!(cache.get_at("k", 1_000, 1_100), Some(bytes("v")));
    assert_eq!(cache.get_at("k", 1_050, 1_101), None);
    // The expired entry was removed, so it stays absent.
    assert_eq!(cache.get_at("k", 0, 0), None);
    cache.set_at("a", bytes("1"), 10, 0);
    cache.set_at("b", bytes("2"), 1_000, 0);
    cache.cleanup_expired_at(11);
    assert_eq!(cache.get_at("a", 0, 0), None);
    assert_eq!(cache.get_at("b", 0, 0), Some(bytes("2")));
}

#[test]
fn memory_cache_replaces_values_and_keeps_capacity_one() {
    let mut cache = MemoryCache::new(0);
    cache.set_at("k", bytes("old"), 1_000, 0);
    cache.set_at("k", bytes("new"), 1_000, 0);
    assert_eq!(cache.get_at("k", 0, 0), Some(bytes("new")));
    cache.set_at("other", bytes("x"), 1_000, 0);
    assert_eq!(cache.get_at("k", 0, 0), None);
    assert_eq!(cache.get_at("other", 0, 0), Some(bytes("x")));
}
