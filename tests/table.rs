use brc::hashmap::{bytes_eq, compare_bytes, StackMap, MAP_SIZE};
use brc::stats::Stat;
use std::cmp::Ordering;

#[test]
fn new_table_is_empty() {
    let t = StackMap::new();
    assert_eq!(t.len(), 0);
    assert!(t.iter().is_empty());
    assert!(t.keys().is_empty());
    assert!(t.get(b"x").is_none());
    let u = StackMap::new_with_hasher(rustc_hash::FxBuildHasher);
    assert_eq!(u.len(), 0);
}

#[test]
fn upsert_twice_gives_same_slot() {
    let mut t = StackMap::new();
    let a = t.upsert(b"station").unwrap();
    let mut s = t.value_at(a);
    s.record(42);
    t.set_value_at(a, s);
    let b = t.upsert(b"station").unwrap();
    assert_eq!(a, b);
    assert_eq!(t.len(), 1);
    let got = t.get(b"station").unwrap();
    assert_eq!((got.min, got.max, got.sum, got.count), (42, 42, 42, 1));
}

#[test]
fn upsert_new_key_starts_empty() {
    let mut t = StackMap::new();
    let i = t.upsert(b"k").unwrap();
    let s = t.value_at(i);
    assert_eq!((s.min, s.max, s.sum, s.count), (i16::MAX, i16::MIN, 0, 0));
}

#[test]
fn insert_then_find() {
    let mut t = StackMap::new();
    let keys: Vec<Vec<u8>> = (0..500u32).map(|i| format!("key{i}").into_bytes()).collect();
    for (n, k) in keys.iter().enumerate() {
        let mut s = Stat::default();
        s.record(n as i16);
        let slot = t.insert(k.clone(), s);
        assert!(slot < MAP_SIZE);
    }
    assert_eq!(t.len(), 500);
    for (n, k) in keys.iter().enumerate() {
        let slot = t.find_slot(k).unwrap();
        assert_eq!(t.value_at(slot).sum, n as i64);
        assert_eq!(t.get(k).unwrap().min, n as i16);
    }
    assert!(t.find_slot(b"absent").is_none());
    let mut listed: Vec<Vec<u8>> = t.keys();
    listed.sort();
    let mut expected = keys.clone();
    expected.sort();
    assert_eq!(listed, expected);
    let entries = t.iter();
    assert_eq!(entries.len(), 500);
    for (k, s) in entries {
        assert_eq!(t.get(&k).unwrap().sum, s.sum);
    }
}

#[test]
fn capacity_boundary() {
    let mut t = StackMap::new();
    for i in 0..MAP_SIZE {
        let k = format!("{i}").into_bytes();
        assert!(t.upsert(&k).is_some(), "key {i}");
    }
    assert_eq!(t.len(), MAP_SIZE);
    // every key is still found in a full table
    assert!(t.upsert(b"0").is_some());
    assert!(t.find_slot(b"16383").is_some());
    // one more distinct key does not fit
    assert!(t.upsert(b"one more").is_none());
    assert!(t.find_slot(b"one more").is_none());
    assert_eq!(t.len(), MAP_SIZE);
}

#[test]
fn byte_order() {
    assert_eq!(compare_bytes(b"abc", b"abd"), Ordering::Less);
    assert_eq!(compare_bytes(b"abc", b"ab"), Ordering::Greater);
    assert_eq!(compare_bytes(b"", b"a"), Ordering::Less);
    assert_eq!(compare_bytes(b"same", b"same"), Ordering::Equal);
    assert_eq!(compare_bytes(b"\xff", b"a"), Ordering::Greater);
    assert!(bytes_eq(b"xy", b"xy"));
    assert!(!bytes_eq(b"xy", b"xz"));
    assert!(!bytes_eq(b"xy", b"x"));
}
