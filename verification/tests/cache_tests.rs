use lru_cache::cache::{Cache, CacheError};

fn keys(cache: &Cache) -> Vec<String> {
    cache.entries().into_iter().map(|e| e.key).collect()
}

#[test]
fn new_zero_capacity_rejected() {
    let r = Cache::new(0);
    assert!(matches!(r, Err(CacheError::InvalidCapacity)));
}

#[test]
fn new_positive_capacity_empty() {
    let c = Cache::new(3).unwrap();
    assert_eq!(c.len(), 0);
    assert_eq!(c.capacity(), 3);
    assert!(c.entries().is_empty());
}

#[test]
fn len_never_exceeds_capacity() {
    let mut c = Cache::new(3).unwrap();
    for i in 0..20 {
        c.put(&format!("k{}", i), format!("v{}", i));
        assert!(c.len() <= 3);
    }
    assert_eq!(c.len(), 3);
}

#[test]
fn put_evicts_least_recently_used() {
    let mut c = Cache::new(2).unwrap();
    c.put("x", "1".to_string());
    c.put("y", "2".to_string());
    c.put("z", "3".to_string());
    assert_eq!(keys(&c), vec!["y".to_string(), "z".to_string()]);
    assert_eq!(c.get("x"), None);
}

#[test]
fn get_promotes_without_changing_value() {
    let mut c = Cache::new(2).unwrap();
    c.put("x", "1".to_string());
    c.put("y", "2".to_string());
    assert_eq!(c.get("x"), Some("1".to_string()));
    assert_eq!(keys(&c), vec!["y".to_string(), "x".to_string()]);
    c.put("z", "3".to_string());
    assert_eq!(keys(&c), vec!["x".to_string(), "z".to_string()]);
    assert_eq!(c.get("x"), Some("1".to_string()));
    assert_eq!(c.get("y"), None);
}

#[test]
fn get_miss_changes_nothing() {
    let mut c = Cache::new(2).unwrap();
    c.put("a", "1".to_string());
    assert_eq!(c.get("nope"), None);
    assert_eq!(keys(&c), vec!["a".to_string()]);
}

#[test]
fn put_existing_key_updates_and_promotes() {
    let mut c = Cache::new(3).unwrap();
    c.put("a", "1".to_string());
    c.put("b", "2".to_string());
    c.put("a", "9".to_string());
    assert_eq!(c.len(), 2);
    assert_eq!(keys(&c), vec!["b".to_string(), "a".to_string()]);
    assert_eq!(c.get("a"), Some("9".to_string()));
}

#[test]
fn entries_does_not_change_recency() {
    let mut c = Cache::new(2).unwrap();
    c.put("a", "1".to_string());
    c.put("b", "2".to_string());
    let _ = c.entries();
    c.put("z", "3".to_string());
    assert_eq!(keys(&c), vec!["b".to_string(), "z".to_string()]);
}
