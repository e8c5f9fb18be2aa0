use lru_cache::cache::CacheEntry;
use lru_cache::snapshot::{encode_snapshot, parse_snapshot, SnapshotError};

fn entry(key: &str, value: &str) -> CacheEntry {
    CacheEntry { key: key.to_string(), value: value.to_string() }
}

#[test]
fn encode_empty() {
    let text = encode_snapshot(&Vec::new());
    assert_eq!(text, "[]");
}

#[test]
fn encode_two_records() {
    let text = encode_snapshot(&vec![entry("a", "1"), entry("b", "2")]);
    assert_eq!(text, "[{\"Key\":\"a\",\"Value\":\"1\"},{\"Key\":\"b\",\"Value\":\"2\"}]");
}

#[test]
fn encode_escapes_quotes_and_backslashes() {
    let text = encode_snapshot(&vec![entry("a\"b\\", "c\"")]);
    assert_eq!(text, "[{\"Key\":\"a\\\"b\\\\\",\"Value\":\"c\\\"\"}]");
}

#[test]
fn parse_empty() {
    let v = parse_snapshot("[]").unwrap();
    assert!(v.is_empty());
}

#[test]
fn parse_round_trip() {
    let records = vec![entry("a", "1"), entry("b\"", "with \\ inside"), entry("", "")];
    let text = encode_snapshot(&records);
    let back = parse_snapshot(&text).unwrap();
    assert_eq!(back.len(), records.len());
    for (orig, parsed) in records.iter().zip(back.iter()) {
        assert_eq!(orig.key, parsed.key);
        assert_eq!(orig.value, parsed.value);
    }
}

#[test]
fn parse_rejects_malformed_records() {
    for bad in [
        "",
        "[",
        "]",
        "{}",
        "[{\"Key\":\"a\"}]",
        "[{\"Key\":\"a\",\"Value\":\"1\"}",
        "[{\"Key\":\"a\",\"Value\":\"1\"},]",
        "[{\"key\":\"a\",\"value\":\"1\"}]",
        "[{\"Key\":\"a\",\"Value\":\"1\"}] ",
        "[{\"Key\":\"a\",\"Value\":\"1\"]",
    ] {
        assert!(
            matches!(parse_snapshot(bad), Err(SnapshotError::Malformed)),
            "accepted: {}",
            bad
        );
    }
}

#[test]
fn parse_rejects_truncated_escape() {
    assert!(matches!(parse_snapshot("[{\"Key\":\"a\\"), Err(SnapshotError::Malformed)));
    assert!(matches!(parse_snapshot("[{\"Key\":\"a\\n\",\"Value\":\"1\"}]"), Err(SnapshotError::Malformed)));
}
