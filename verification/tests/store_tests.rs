use lru_cache::cache::Cache;
use lru_cache::store::{load_cache, save_cache, LoadError};

fn keys(cache: &Cache) -> Vec<String> {
    cache.entries().into_iter().map(|e| e.key).collect()
}

#[test]
fn cold_start_without_record_is_empty() {
    let c = load_cache(5, None).unwrap();
    assert_eq!(c.len(), 0);
    assert_eq!(c.capacity(), 5);
}

#[test]
fn zero_capacity_is_rejected() {
    assert!(matches!(load_cache(0, None), Err(LoadError::InvalidCapacity)));
    assert!(matches!(load_cache(0, Some("[]")), Err(LoadError::InvalidCapacity)));
}

#[test]
fn malformed_record_is_an_error_not_a_miss() {
    assert!(matches!(load_cache(5, Some("not a record")), Err(LoadError::Malformed)));
    assert!(matches!(load_cache(5, Some("")), Err(LoadError::Malformed)));
}

#[test]
fn save_then_load_keeps_records_and_recency() {
    let mut c = Cache::new(3).unwrap();
    c.put("a", "1".to_string());
    c.put("b", "2".to_string());
    c.put("c", "3".to_string());
    assert_eq!(c.get("a"), Some("1".to_string()));

    let record = save_cache(&c);
    let mut back = load_cache(3, Some(&record)).unwrap();

    assert_eq!(keys(&back), keys(&c));
    for e in c.entries() {
        assert_eq!(back.get(&e.key), Some(e.value.clone()));
    }
    // The restored recency order drives the same eviction as the cache it
    // was saved from.
    back.put("d", "4".to_string());
    c.put("d", "4".to_string());
    assert_eq!(keys(&back), keys(&c));
}

#[test]
fn saving_twice_without_mutation_is_identical() {
    let mut c = Cache::new(2).unwrap();
    c.put("x", "1".to_string());
    c.put("y", "2".to_string());
    let first = save_cache(&c);
    let second = save_cache(&c);
    assert_eq!(first, second);
}

#[test]
fn load_replays_oldest_first_and_evicts() {
    // Three records into a cache of two: the oldest is replayed first and
    // then evicted by the third.
    let record = "[{\"Key\":\"a\",\"Value\":\"1\"},{\"Key\":\"b\",\"Value\":\"2\"},{\"Key\":\"c\",\"Value\":\"3\"}]";
    let c = load_cache(2, Some(record)).unwrap();
    assert_eq!(keys(&c), vec!["b".to_string(), "c".to_string()]);
}

#[test]
fn concurrent_saves_are_last_writer_wins() {
    // Two instances rebuild their caches from the same record, diverge, and
    // save to the same location: the overwrite keeps only the later state,
    // with no merge.  Per-instance sequential consistency only.
    let mut first = load_cache(2, Some("[]")).unwrap();
    let mut second = load_cache(2, Some("[]")).unwrap();
    first.put("a", "1".to_string());
    second.put("b", "2".to_string());

    let _ = save_cache(&first);
    let storage = save_cache(&second);

    let c = load_cache(2, Some(&storage)).unwrap();
    assert_eq!(keys(&c), vec!["b".to_string()]);
    assert!(!keys(&c).contains(&"a".to_string()));
}

#[test]
fn load_accepts_empty_record() {
    let c = load_cache(4, Some("[]")).unwrap();
    assert_eq!(c.len(), 0);
}
