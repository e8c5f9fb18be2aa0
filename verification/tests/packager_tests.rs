use std::io::{Cursor, Read};

use lru_cache::packager::{build, Payload};

fn payload(name: &str, data: &[u8]) -> Payload {
    Payload { name: name.to_string(), data: data.to_vec() }
}

#[test]
fn build_packs_payloads_in_order_and_byte_exact() {
    let b1: Vec<u8> = b"#!/bin/sh\necho runtime\n".to_vec();
    let b2: Vec<u8> = b"[{\"Key\":\"a\",\"Value\":\"1\"}]".to_vec();
    let blob = build(&vec![payload("bootstrap", &b1), payload("cache.json", &b2)]).unwrap();

    let mut archive = zip::ZipArchive::new(Cursor::new(blob)).unwrap();
    assert_eq!(archive.len(), 2);

    let mut first = Vec::new();
    {
        let mut f = archive.by_index(0).unwrap();
        assert_eq!(f.name(), "bootstrap");
        f.read_to_end(&mut first).unwrap();
    }
    assert_eq!(first, b1);

    let mut second = Vec::new();
    {
        let mut f = archive.by_index(1).unwrap();
        assert_eq!(f.name(), "cache.json");
        f.read_to_end(&mut second).unwrap();
    }
    assert_eq!(second, b2);
}

#[test]
fn build_stores_uncompressed_with_fixed_permissions() {
    let blob = build(&vec![payload("bootstrap", b"data")]).unwrap();
    let mut archive = zip::ZipArchive::new(Cursor::new(blob)).unwrap();
    let f = archive.by_index(0).unwrap();
    assert_eq!(f.compression(), zip::CompressionMethod::Stored);
    assert_eq!(f.unix_mode().unwrap() & 0o777, 0o777);
}

#[test]
fn build_empty_archive() {
    let blob = build(&Vec::new()).unwrap();
    let archive = zip::ZipArchive::new(Cursor::new(blob)).unwrap();
    assert_eq!(archive.len(), 0);
}

#[test]
fn build_handles_empty_payload_bytes() {
    let blob = build(&vec![payload("empty", b"")]).unwrap();
    let mut archive = zip::ZipArchive::new(Cursor::new(blob)).unwrap();
    let mut data = Vec::new();
    archive.by_index(0).unwrap().read_to_end(&mut data).unwrap();
    assert!(data.is_empty());
}

#[test]
fn build_rejects_duplicate_names() {
    let r = build(&vec![payload("same", b"1"), payload("same", b"2")]);
    assert!(matches!(r, Err(lru_cache::packager::PackagingError::Archive)));
}

#[test]
fn build_is_deterministic() {
    let payloads = vec![payload("bootstrap", b"exe bytes"), payload("cache.json", b"[]")];
    let first = build(&payloads).unwrap();
    let second = build(&payloads).unwrap();
    assert_eq!(first, second);
}
