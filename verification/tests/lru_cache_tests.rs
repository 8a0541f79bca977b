use lru_cache::lru_cache::{ConfigurationError, LRUCache};

#[test]
fn lru_cache_test() {
    let mut lru_cache = LRUCache::new(2).unwrap();
    lru_cache.set("k1".to_string(), "Hello".to_string());
    lru_cache.set("k2".to_string(), "world".to_string());

    // this should move k1 to top.
    assert_eq!(lru_cache.get(&"k1".to_string()), Some("Hello".to_string()));

    lru_cache.set("k3".to_string(), "All world!".to_string()); // Should evict k2

    let k2 = lru_cache.get(&"k2".to_string());
    assert!(k2.is_none());
}

#[test]
fn construction_rejects_zero_capacity() {
    match LRUCache::new(0) {
        Err(e) => assert_eq!(e, ConfigurationError {}),
        Ok(_) => panic!("capacity 0 must be rejected"),
    }
    assert!(LRUCache::new(1).is_ok());
    assert!(LRUCache::new(1000).is_ok());
}

#[test]
fn new_cache_is_empty() {
    let mut cache = LRUCache::new(3).unwrap();
    assert!(cache.recency_keys().is_empty());
    assert_eq!(cache.get(&"anything".to_string()), None);
}

#[test]
fn scenario_set_two_keys() {
    let mut cache = LRUCache::new(2).unwrap();
    cache.set("k1".to_string(), "Hello".to_string());
    cache.set("k2".to_string(), "world".to_string());
    assert_eq!(cache.recency_keys(), vec!["k2".to_string(), "k1".to_string()]);
}

#[test]
fn scenario_read_promotes() {
    let mut cache = LRUCache::new(2).unwrap();
    cache.set("k1".to_string(), "Hello".to_string());
    cache.set("k2".to_string(), "world".to_string());
    assert_eq!(cache.get(&"k1".to_string()), Some("Hello".to_string()));
    assert_eq!(cache.recency_keys(), vec!["k1".to_string(), "k2".to_string()]);
}

#[test]
fn scenario_overflow_evicts_tail() {
    let mut cache = LRUCache::new(2).unwrap();
    cache.set("k1".to_string(), "Hello".to_string());
    cache.set("k2".to_string(), "world".to_string());
    assert_eq!(cache.get(&"k1".to_string()), Some("Hello".to_string()));
    cache.set("k3".to_string(), "All world!".to_string());
    assert_eq!(cache.recency_keys(), vec!["k3".to_string(), "k1".to_string()]);
    assert_eq!(cache.get(&"k2".to_string()), None);
    assert_eq!(cache.get(&"k1".to_string()), Some("Hello".to_string()));
}

#[test]
fn miss_leaves_recency_unchanged() {
    let mut cache = LRUCache::new(2).unwrap();
    cache.set("k1".to_string(), "Hello".to_string());
    cache.set("k2".to_string(), "world".to_string());
    assert_eq!(cache.get(&"k9".to_string()), None);
    assert_eq!(cache.recency_keys(), vec!["k2".to_string(), "k1".to_string()]);
}

#[test]
fn overwrite_does_not_evict() {
    let mut cache = LRUCache::new(2).unwrap();
    cache.set("k1".to_string(), "one".to_string());
    cache.set("k2".to_string(), "two".to_string());
    cache.set("k1".to_string(), "uno".to_string());
    assert_eq!(cache.recency_keys(), vec!["k1".to_string(), "k2".to_string()]);
    assert_eq!(cache.get(&"k1".to_string()), Some("uno".to_string()));
    assert_eq!(cache.get(&"k2".to_string()), Some("two".to_string()));
}

#[test]
fn capacity_bound_holds_under_many_sets() {
    let mut cache = LRUCache::new(3).unwrap();
    for i in 0..20 {
        cache.set(format!("key{}", i), format!("value{}", i));
        assert!(cache.recency_keys().len() <= 3);
    }
    assert_eq!(
        cache.recency_keys(),
        vec!["key19".to_string(), "key18".to_string(), "key17".to_string()]
    );
}

#[test]
fn capacity_one_keeps_only_latest() {
    let mut cache = LRUCache::new(1).unwrap();
    cache.set("a".to_string(), "1".to_string());
    cache.set("b".to_string(), "2".to_string());
    assert_eq!(cache.get(&"a".to_string()), None);
    assert_eq!(cache.get(&"b".to_string()), Some("2".to_string()));
}
