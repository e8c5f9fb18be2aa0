use lru_cache::cache::Cache;
use lru_cache::dispatch::{default_value, dispatch, invalid_response, operation_recognized, Request};

fn req(operation: &str, key: &str, value: &str) -> Request {
    Request {
        operation: operation.to_string(),
        key: key.to_string(),
        value: value.to_string(),
    }
}

#[test]
fn default_value_text() {
    assert_eq!(default_value(), "default value");
}

#[test]
fn set_responds_with_stored_value() {
    let mut c = Cache::new(5).unwrap();
    let (resp, write) = dispatch(&mut c, &req("set", "a", "1"));
    assert!(write);
    assert_eq!(resp.value, "1");
    assert_eq!(resp.msg, "Successfuly set value!");
}

#[test]
fn get_hit_and_miss_messages() {
    let mut c = Cache::new(5).unwrap();
    dispatch(&mut c, &req("set", "a", "1"));
    let (hit, write_hit) = dispatch(&mut c, &req("get", "a", ""));
    assert!(write_hit);
    assert_eq!(hit.value, "1");
    assert_eq!(hit.msg, "Successfuly got value!");
    let (miss, write_miss) = dispatch(&mut c, &req("get", "missing", ""));
    assert!(write_miss);
    assert_eq!(miss.value, "null");
    assert_eq!(miss.msg, "Key not in cache");
}

#[test]
fn unknown_operation_fixed_response_and_no_write() {
    let mut c = Cache::new(5).unwrap();
    dispatch(&mut c, &req("set", "a", "1"));
    let before: Vec<(String, String)> =
        c.entries().into_iter().map(|e| (e.key, e.value)).collect();
    let (resp, write) = dispatch(&mut c, &req("delete", "a", "x"));
    assert!(!write);
    assert_eq!(resp.value, "null");
    assert_eq!(resp.msg, "Invalid command! Valid commands are get, set");
    let after: Vec<(String, String)> =
        c.entries().into_iter().map(|e| (e.key, e.value)).collect();
    assert_eq!(before, after);
}

#[test]
fn six_sets_on_capacity_five_evict_the_first() {
    let mut c = Cache::new(5).unwrap();
    for (k, v) in [("a", "1"), ("b", "2"), ("c", "3"), ("d", "4"), ("e", "5"), ("f", "6")] {
        dispatch(&mut c, &req("set", k, v));
    }
    let (miss, _) = dispatch(&mut c, &req("get", "a", ""));
    assert_eq!(miss.value, "null");
    assert_eq!(miss.msg, "Key not in cache");
    let (hit, _) = dispatch(&mut c, &req("get", "f", ""));
    assert_eq!(hit.value, "6");
}

#[test]
fn refreshed_key_survives_eviction() {
    let mut c = Cache::new(2).unwrap();
    dispatch(&mut c, &req("set", "x", "1"));
    dispatch(&mut c, &req("set", "y", "2"));
    dispatch(&mut c, &req("get", "x", ""));
    dispatch(&mut c, &req("set", "z", "3"));
    let (y, _) = dispatch(&mut c, &req("get", "y", ""));
    assert_eq!(y.value, "null");
    let (x, _) = dispatch(&mut c, &req("get", "x", ""));
    assert_eq!(x.value, "1");
    let (z, _) = dispatch(&mut c, &req("get", "z", ""));
    assert_eq!(z.value, "3");
}

#[test]
fn operation_recognition() {
    assert!(operation_recognized("get"));
    assert!(operation_recognized("set"));
    assert!(!operation_recognized("delete"));
    assert!(!operation_recognized(""));
    let r = invalid_response();
    assert_eq!(r.value, "null");
    assert_eq!(r.msg, "Invalid command! Valid commands are get, set");
}
