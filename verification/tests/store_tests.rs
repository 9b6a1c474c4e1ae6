//! Behavioural tests of the store engine: round trips, deletion, snapshots,
//! compaction, and the error paths.

use kvstore::{KeyValueStore, StoreError};

fn bytes(s: &str) -> Vec<u8> {
    s.as_bytes().to_vec()
}

#[test]
fn insert_then_get_returns_same_bytes() {
    let mut s = KeyValueStore::new();
    let _ = s.insert("alpha".to_string(), bytes("first value"));
    assert_eq!(s.get("alpha").unwrap(), Some(bytes("first value")));
}

#[test]
fn get_of_missing_key_is_none() {
    let s = KeyValueStore::new();
    assert_eq!(s.get("nothing").unwrap(), None);
}

#[test]
fn insert_overwrites_previous_value() {
    let mut s = KeyValueStore::new();
    let _ = s.insert("k".to_string(), bytes("old"));
    let _ = s.insert("k".to_string(), bytes("new"));
    assert_eq!(s.get("k").unwrap(), Some(bytes("new")));
}

#[test]
fn insert_empty_value_round_trips() {
    let mut s = KeyValueStore::new();
    let _ = s.insert("empty".to_string(), Vec::new());
    assert_eq!(s.get("empty").unwrap(), Some(Vec::new()));
}

#[test]
fn insert_reserves_disjoint_ranges() {
    let mut s = KeyValueStore::new();
    let off1 = s.insert("a".to_string(), bytes("12345"));
    let off2 = s.insert("b".to_string(), bytes("678"));
    let off3 = s.insert("c".to_string(), bytes("9"));
    assert_eq!(off1, 0);
    assert_eq!(off2, 5);
    assert_eq!(off3, 8);
    assert_eq!(s.log_bytes().len(), 9);
}

#[test]
fn delete_removes_visibility_and_second_delete_fails() {
    let mut s = KeyValueStore::new();
    let _ = s.insert("k".to_string(), bytes("v"));
    assert!(s.delete("k").is_ok());
    assert_eq!(s.get("k").unwrap(), None);
    assert_eq!(s.delete("k"), Err(StoreError::KeyNotFound));
}

#[test]
fn delete_of_absent_key_fails_with_key_not_found() {
    let mut s = KeyValueStore::new();
    assert_eq!(s.delete("never"), Err(StoreError::KeyNotFound));
}

#[test]
fn delete_leaves_log_bytes_in_place() {
    let mut s = KeyValueStore::new();
    let _ = s.insert("k".to_string(), bytes("garbage"));
    let before = s.log_bytes().len();
    s.delete("k").unwrap();
    assert_eq!(s.log_bytes().len(), before);
}

#[test]
fn snapshot_and_reload_preserve_contents() {
    let mut s = KeyValueStore::new();
    let _ = s.insert("one".to_string(), bytes("1"));
    let _ = s.insert("two".to_string(), bytes("22"));
    s.delete("one").unwrap();
    let snap = s.index_snapshot();
    let log = s.log_bytes().clone();
    let t = KeyValueStore::load(log, &snap).unwrap();
    assert_eq!(t.get("one").unwrap(), None);
    assert_eq!(t.get("two").unwrap(), Some(bytes("22")));
}

#[test]
fn empty_store_snapshot_reloads_empty() {
    let s = KeyValueStore::new();
    let snap = s.index_snapshot();
    assert_eq!(snap.len(), 8);
    let t = KeyValueStore::load(Vec::new(), &snap).unwrap();
    assert_eq!(t.get("anything").unwrap(), None);
}

#[test]
fn unicode_keys_survive_snapshot_reload() {
    let mut s = KeyValueStore::new();
    let _ = s.insert("clé-αβγ-鍵".to_string(), bytes("valeur"));
    let snap = s.index_snapshot();
    let t = KeyValueStore::load(s.log_bytes().clone(), &snap).unwrap();
    assert_eq!(t.get("clé-αβγ-鍵").unwrap(), Some(bytes("valeur")));
    assert_eq!(t.get("cle-αβγ-鍵").unwrap(), None);
}

#[test]
fn load_rejects_garbage_index_bytes() {
    assert_eq!(
        KeyValueStore::load(Vec::new(), &[1u8, 2, 3]).unwrap_err(),
        StoreError::CorruptIndex
    );
}

#[test]
fn load_rejects_snapshot_with_trailing_bytes() {
    let mut s = KeyValueStore::new();
    let _ = s.insert("k".to_string(), bytes("v"));
    let mut snap = s.index_snapshot();
    snap.push(0);
    assert_eq!(
        KeyValueStore::load(s.log_bytes().clone(), &snap).unwrap_err(),
        StoreError::CorruptIndex
    );
}

#[test]
fn load_rejects_truncated_snapshot() {
    let mut s = KeyValueStore::new();
    let _ = s.insert("key".to_string(), bytes("value"));
    let snap = s.index_snapshot();
    let cut = &snap[..snap.len() - 1];
    assert_eq!(
        KeyValueStore::load(s.log_bytes().clone(), cut).unwrap_err(),
        StoreError::CorruptIndex
    );
}

#[test]
fn load_rejects_invalid_utf8_key_bytes() {
    let mut s = KeyValueStore::new();
    let _ = s.insert("ab".to_string(), bytes("v"));
    let mut snap = s.index_snapshot();
    // The key bytes sit right after the entry count and the key length.
    snap[16] = 0xff;
    snap[17] = 0xfe;
    assert_eq!(
        KeyValueStore::load(s.log_bytes().clone(), &snap).unwrap_err(),
        StoreError::CorruptIndex
    );
}

#[test]
fn mismatched_log_fails_lazily_on_get() {
    let mut s = KeyValueStore::new();
    let _ = s.insert("short".to_string(), bytes("long enough value"));
    let snap = s.index_snapshot();
    let truncated_log = s.log_bytes()[..4].to_vec();
    // Loading does not validate the ranges against the log.
    let t = KeyValueStore::load(truncated_log, &snap).unwrap();
    assert_eq!(t.get("short").unwrap_err(), StoreError::TruncatedRead);
    assert_eq!(t.get("absent").unwrap(), None);
}

#[test]
fn gc_drops_garbage_and_keeps_live_entries() {
    let mut s = KeyValueStore::new();
    let _ = s.insert("keep".to_string(), bytes("live-bytes"));
    let _ = s.insert("drop".to_string(), bytes("dead-bytes"));
    let _ = s.insert("keep".to_string(), bytes("live-bytes-2"));
    s.delete("drop").unwrap();
    let before = s.log_bytes().len();
    s.gc().unwrap();
    let after = s.log_bytes().len();
    assert!(after <= before);
    assert_eq!(after, "live-bytes-2".len());
    assert_eq!(s.get("keep").unwrap(), Some(bytes("live-bytes-2")));
    assert_eq!(s.get("drop").unwrap(), None);
}

#[test]
fn gc_on_empty_store_yields_empty_log() {
    let mut s = KeyValueStore::new();
    let _ = s.insert("k".to_string(), bytes("v"));
    s.delete("k").unwrap();
    s.gc().unwrap();
    assert_eq!(s.log_bytes().len(), 0);
}

#[test]
fn gc_fails_with_truncated_read_on_mismatched_pair() {
    let mut s = KeyValueStore::new();
    let _ = s.insert("k".to_string(), bytes("0123456789"));
    let snap = s.index_snapshot();
    let mut t = KeyValueStore::load(s.log_bytes()[..3].to_vec(), &snap).unwrap();
    assert_eq!(t.gc().unwrap_err(), StoreError::TruncatedRead);
    // The failed pass left the pair untouched.
    assert_eq!(t.log_bytes().len(), 3);
}

#[test]
fn many_distinct_keys_all_independently_retrievable() {
    let mut s = KeyValueStore::new();
    for i in 0..100u32 {
        let _ = s.insert(format!("key-{}", i), bytes(&format!("value-{}", i)));
    }
    for i in 0..100u32 {
        assert_eq!(
            s.get(&format!("key-{}", i)).unwrap(),
            Some(bytes(&format!("value-{}", i)))
        );
    }
}

#[test]
fn snapshot_bytes_follow_the_documented_layout() {
    let mut s = KeyValueStore::new();
    let _ = s.insert("ab".to_string(), bytes("xyz"));
    let snap = s.index_snapshot();
    let mut expected = Vec::new();
    expected.extend_from_slice(&1u64.to_le_bytes());
    expected.extend_from_slice(&2u64.to_le_bytes());
    expected.extend_from_slice(b"ab");
    expected.extend_from_slice(&0u64.to_le_bytes());
    expected.extend_from_slice(&3u64.to_le_bytes());
    assert_eq!(snap, expected);
}

#[test]
fn arbitrary_binary_values_round_trip() {
    let mut s = KeyValueStore::new();
    let blob: Vec<u8> = vec![0, 255, 1, 254, 127, 128, 0, 0, 42];
    let _ = s.insert("blob".to_string(), blob.clone());
    assert_eq!(s.get("blob").unwrap(), Some(blob));
}

#[test]
fn scenario_two_keys_delete_gc_reload() {
    let mut s = KeyValueStore::new();
    let _ = s.insert("key1".to_string(), bytes("one"));
    let _ = s.insert("key2".to_string(), bytes("two"));
    assert_eq!(s.get("key2").unwrap(), Some(bytes("two")));
    s.delete("key1").unwrap();
    assert_eq!(s.get("key1").unwrap(), None);
    s.gc().unwrap();
    let snap = s.index_snapshot();
    let log = s.log_bytes().clone();
    let t = KeyValueStore::load(log, &snap).unwrap();
    assert_eq!(t.get("key2").unwrap(), Some(bytes("two")));
}
