use std::num::NonZeroUsize;

use lru_cache::cache::Cache;

// The cache engine agrees with the lru crate on membership and on recency
// order under a mixed workload (the lru crate iterates most recent first).
#[test]
fn agrees_with_lru_crate() {
    let mut ours = Cache::new(3).unwrap();
    let mut theirs: lru::LruCache<String, String> =
        lru::LruCache::new(NonZeroUsize::new(3).unwrap());

    let ops: Vec<(&str, &str, &str)> = vec![
        ("put", "a", "1"),
        ("put", "b", "2"),
        ("put", "c", "3"),
        ("get", "a", ""),
        ("put", "d", "4"),
        ("get", "b", ""),
        ("put", "a", "9"),
        ("put", "e", "5"),
        ("get", "c", ""),
    ];
    for (op, k, v) in ops {
        match op {
            "put" => {
                ours.put(k, v.to_string());
                theirs.put(k.to_string(), v.to_string());
            },
            _ => {
                let mine = ours.get(k);
                let other = theirs.get(&k.to_string()).cloned();
                assert_eq!(mine, other, "lookup of {} disagrees", k);
            },
        }
    }

    let mine: Vec<(String, String)> =
        ours.entries().into_iter().map(|e| (e.key, e.value)).collect();
    let mut other: Vec<(String, String)> =
        theirs.iter().map(|(k, v)| (k.clone(), v.clone())).collect();
    other.reverse();
    assert_eq!(mine, other);
}
