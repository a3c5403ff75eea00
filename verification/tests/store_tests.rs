use std::time::{Duration, Instant};

use redis_starter_rust::Store;

#[test]
fn simple_get_on_empty_store() {
    let mut store = Store::new();
    assert_eq!(store.get("key".as_bytes().to_vec()), None);
}

#[test]
fn simple_get_set() {
    let mut store = Store::new();
    store.set("key".as_bytes().to_vec(), "value".as_bytes().to_vec(), None);
    assert_eq!(store.get("key".as_bytes().to_vec()), Some("value".as_bytes().to_vec()));
    assert_eq!(store.get("other_key".as_bytes().to_vec()), None);
}

#[test]
fn get_set_with_expiration() {
    let mut store = Store::new();
    store.set("key".as_bytes().to_vec(), "value".as_bytes().to_vec(), Some(10));
    assert_eq!(store.get("key".as_bytes().to_vec()), Some("value".as_bytes().to_vec()));

    let started = Instant::now();
    while started.elapsed() < Duration::from_millis(11) {}
    assert_eq!(store.get("key".as_bytes().to_vec()), None);
}

#[test]
fn entry_without_expiry_lasts_arbitrarily_long() {
    let mut store = Store::new();
    store.set_at("k".as_bytes().to_vec(), "v".as_bytes().to_vec(), None, 1_000);
    assert_eq!(
        store.get_at(&"k".as_bytes().to_vec(), u128::MAX),
        Some("v".as_bytes().to_vec())
    );
}

#[test]
fn entry_with_expiry_dies_at_its_deadline() {
    let mut store = Store::new();
    store.set_at("k".as_bytes().to_vec(), "v".as_bytes().to_vec(), Some(10), 1_000);
    assert_eq!(store.get_at(&"k".as_bytes().to_vec(), 1_000), Some("v".as_bytes().to_vec()));
    assert_eq!(store.get_at(&"k".as_bytes().to_vec(), 1_009), Some("v".as_bytes().to_vec()));
    assert_eq!(store.get_at(&"k".as_bytes().to_vec(), 1_010), None);
    assert_eq!(store.get_at(&"k".as_bytes().to_vec(), 2_000), None);
}

#[test]
fn second_set_replaces_value_and_expiry() {
    let mut store = Store::new();
    store.set_at("k".as_bytes().to_vec(), "v1".as_bytes().to_vec(), Some(10), 1_000);
    store.set_at("k".as_bytes().to_vec(), "v2".as_bytes().to_vec(), None, 1_001);
    assert_eq!(
        store.get_at(&"k".as_bytes().to_vec(), 999_999),
        Some("v2".as_bytes().to_vec())
    );
}

#[test]
fn keys_are_independent() {
    let mut store = Store::new();
    store.set_at("a".as_bytes().to_vec(), "1".as_bytes().to_vec(), None, 0);
    store.set_at("b".as_bytes().to_vec(), "2".as_bytes().to_vec(), Some(5), 0);
    assert_eq!(store.get_at(&"a".as_bytes().to_vec(), 100), Some("1".as_bytes().to_vec()));
    assert_eq!(store.get_at(&"b".as_bytes().to_vec(), 100), None);
    assert_eq!(store.get_at(&"b".as_bytes().to_vec(), 3), Some("2".as_bytes().to_vec()));
}
