use lru_cache::simple_cache::Cache;

#[test]
fn test_simple_cache() {
    let mut cache = Cache::new();
    cache.set("Hi".to_string(), "Hello".to_string());
    cache.set("1".to_string(), "56790".to_string());

    let value = cache.get(&"Hi".to_string());
    assert_eq!(value, Some("Hello".to_string()));

    assert!(cache.get(&"2".to_string()).is_none());
}

#[test]
fn simple_cache_overwrites() {
    let mut cache = Cache::new();
    assert!(cache.set("k".to_string(), "first".to_string()));
    assert!(cache.set("k".to_string(), "second".to_string()));
    assert_eq!(cache.get(&"k".to_string()), Some("second".to_string()));
}

#[test]
fn simple_cache_never_evicts() {
    let mut cache = Cache::new();
    for i in 0..100 {
        cache.set(format!("key{}", i), format!("value{}", i));
    }
    for i in 0..100 {
        assert_eq!(cache.get(&format!("key{}", i)), Some(format!("value{}", i)));
    }
}
