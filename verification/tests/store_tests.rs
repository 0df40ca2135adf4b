use rand::Rng;
use sha2::Digest;
use std::collections::HashSet;

use rust_kv_store::bytetable::ByteTable;
use rust_kv_store::envelope::{encode, DataType, Value};
use rust_kv_store::store::{RocksDBStore, StoreError};
use rust_kv_store::{Backend, KVStore, StoreKey};

fn envelope(key: u64, payload: Vec<u8>) -> Value {
    Value {
        shape: vec![1, payload.len() as u64],
        dtype: DataType::Fp64.tag(),
        size_check: payload.len() as u64,
        key_check: key,
        data: vec![payload],
    }
}

#[test]
fn scenario_single_envelope() {
    let mut store = RocksDBStore::new().unwrap();
    let value = Value {
        shape: vec![2, 2],
        dtype: DataType::Fp64.tag(),
        size_check: 16,
        key_check: 12345,
        data: vec![vec![1, 2, 3, 4, 5, 6, 7, 8]],
    };
    assert_eq!(store.put(12345, value.clone()).unwrap(), None);

    let got = store.get(&12345).unwrap().unwrap();
    assert_eq!(got.shape, vec![2, 2]);
    assert_eq!(got.dtype, DataType::Fp64.tag());
    assert_eq!(got.size_check, 16);
    assert_eq!(got.key_check, 12345);
    assert_eq!(got.data, vec![vec![1, 2, 3, 4, 5, 6, 7, 8]]);

    assert_eq!(store.keys().unwrap(), vec![12345]);
    assert_eq!(store.delete(&12345).unwrap(), Some(value));
    assert_eq!(store.keys().unwrap(), Vec::<u64>::new());
}

#[test]
fn put_then_get_returns_stored_value() {
    let mut store = RocksDBStore::new().unwrap();
    let v = envelope(9, vec![10, 20, 30]);
    store.put(9, v.clone()).unwrap();
    assert_eq!(store.get(&9).unwrap(), Some(v));
}

#[test]
fn put_replaces_and_reports_prior_value() {
    let mut store = RocksDBStore::new().unwrap();
    let v1 = envelope(4, vec![1]);
    let v2 = envelope(4, vec![2, 2]);
    assert_eq!(store.put(4, v1.clone()).unwrap(), None);
    assert_eq!(store.put(4, v2.clone()).unwrap(), Some(v1));
    assert_eq!(store.get(&4).unwrap(), Some(v2));
    assert_eq!(store.len().unwrap(), 1);
}

#[test]
fn delete_absent_returns_none_and_keeps_len() {
    let mut store = RocksDBStore::new().unwrap();
    store.put(1, envelope(1, vec![7])).unwrap();
    assert_eq!(store.len().unwrap(), 1);
    assert_eq!(store.delete(&2).unwrap(), None);
    assert_eq!(store.len().unwrap(), 1);
}

#[test]
fn enumeration_is_complete_and_duplicate_free() {
    let mut store = RocksDBStore::new().unwrap();
    let n: u64 = 100;
    // Inserted in descending order; enumeration must still come out
    // ascending: the forward scan walks the ordered keyspace.
    for k in (0..n).rev() {
        store.put(k * 3, envelope(k * 3, vec![k as u8])).unwrap();
    }
    assert_eq!(store.len().unwrap(), n as usize);
    let expected: Vec<u64> = (0..n).map(|k| k * 3).collect();
    assert_eq!(store.keys().unwrap(), expected);
}

#[test]
fn persistent_bulk_round_trip() {
    // Distinct randomly-generated keys, each inserted once with an
    // 8-byte payload; every key retrievable with a byte-identical
    // payload, checked through a content hash; then a clear leaves the
    // store empty.
    let mut rng = rand::thread_rng();
    let mut store = RocksDBStore::new().unwrap();
    let mut keys_so_far: HashSet<u64> = HashSet::new();
    let mut keys_and_hashes: Vec<(u64, [u8; 32])> = Vec::new();
    for _ in 0..1000 {
        let mut key: u64 = rng.gen_range(0..1000000);
        while keys_so_far.contains(&key) {
            key = rng.gen_range(0..1000000);
        }
        keys_so_far.insert(key);
        let mut payload = [0u8; 8];
        rng.fill(&mut payload);
        let hash: [u8; 32] = sha2::Sha256::digest(payload).into();
        store.put(key, envelope(key, payload.to_vec())).unwrap();
        keys_and_hashes.push((key, hash));
    }
    assert_eq!(store.len().unwrap(), 1000);
    for (key, expected) in &keys_and_hashes {
        let value = store.get(key).unwrap().expect("every inserted key must be present");
        let got: [u8; 32] = sha2::Sha256::digest(&value.data[0]).into();
        assert_eq!(got, *expected);
    }
    let keys = store.keys().unwrap();
    assert!(keys.windows(2).all(|w| w[0] < w[1]));
    store.clear().unwrap();
    assert!(store.is_empty().unwrap());
}

#[test]
fn clear_removes_every_entry() {
    let mut store = RocksDBStore::new().unwrap();
    for k in 0..50u64 {
        store.put(k, envelope(k, vec![k as u8])).unwrap();
    }
    store.clear().unwrap();
    assert_eq!(store.len().unwrap(), 0);
    assert!(store.is_empty().unwrap());
    for k in 0..50u64 {
        assert_eq!(store.get(&k).unwrap(), None);
    }
}

#[test]
fn contains_key_tracks_membership() {
    let mut store = RocksDBStore::new().unwrap();
    assert!(!store.contains_key(&8).unwrap());
    store.put(8, envelope(8, vec![1])).unwrap();
    assert!(store.contains_key(&8).unwrap());
    store.delete(&8).unwrap();
    assert!(!store.contains_key(&8).unwrap());
}

#[test]
fn compact_preserves_content() {
    let mut store = RocksDBStore::new().unwrap();
    let v = envelope(5, vec![1, 2, 3]);
    store.put(5, v.clone()).unwrap();
    store.compact().unwrap();
    assert_eq!(store.get(&5).unwrap(), Some(v));
    assert_eq!(store.len().unwrap(), 1);
}

#[test]
fn db_size_counts_key_and_value_bytes() {
    let mut store = RocksDBStore::new().unwrap();
    assert_eq!(store.get_db_size().unwrap(), 0);
    let v = Value { shape: vec![], dtype: 0, size_check: 0, key_check: 0, data: vec![] };
    // The smallest envelope encodes to five zero bytes, under an 8-byte key.
    store.put(3, v).unwrap();
    assert_eq!(store.get_db_size().unwrap(), 13);

    let w = envelope(4, vec![9, 9]);
    let encoded_len = encode(&w).len() as u64;
    store.put(4, w).unwrap();
    assert_eq!(store.get_db_size().unwrap(), 13 + 8 + encoded_len);
}

#[test]
fn foreign_short_keys_are_skipped_by_enumeration() {
    let mut table = ByteTable::new();
    table.put(vec![1, 2, 3], vec![9, 9, 9]);
    let mut store = RocksDBStore::with_table(table);
    store.put(70, envelope(70, vec![1])).unwrap();
    // The scan counts every entry; key listing skips the 3-byte key.
    assert_eq!(store.len().unwrap(), 2);
    assert_eq!(store.keys().unwrap(), vec![70]);
}

#[test]
fn undecodable_stored_bytes_surface_as_decode_errors() {
    let mut table = ByteTable::new();
    let key_bytes = rust_kv_store::keybytes::encode_key(11);
    table.put(key_bytes, vec![0x80]);
    let mut store = RocksDBStore::with_table(table);
    assert_eq!(store.get(&11), Err(StoreError::Decode));
    assert_eq!(store.put(11, envelope(11, vec![1])), Err(StoreError::Decode));
    assert_eq!(store.delete(&11), Err(StoreError::Decode));
    // The failed operations left the corrupt entry in place.
    assert_eq!(store.len().unwrap(), 1);
}

#[test]
fn facade_forwards_to_persistent_backend() {
    let mut store = KVStore::new().unwrap();
    let v = envelope(21, vec![4, 5]);
    assert_eq!(store.put(StoreKey::Int(21), v.clone()).unwrap(), None);
    assert_eq!(store.get(&StoreKey::Int(21)).unwrap(), Some(v.clone()));
    assert!(store.contains_key(&StoreKey::Int(21)).unwrap());
    assert_eq!(store.len().unwrap(), 1);
    assert!(!store.is_empty().unwrap());
    assert_eq!(store.keys().unwrap(), vec![StoreKey::Int(21)]);
    store.compact().unwrap();
    assert!(store.get_db_size().unwrap() > 0);
    assert_eq!(store.delete(&StoreKey::Int(21)).unwrap(), Some(v));
    store.clear().unwrap();
    assert!(store.is_empty().unwrap());
}

#[test]
fn facade_refuses_keys_of_the_wrong_keyspace() {
    let mut persistent = KVStore::new().unwrap();
    let v = envelope(1, vec![1]);
    assert_eq!(persistent.put(StoreKey::Id(1), v.clone()), Err(StoreError::KeyKind));
    assert_eq!(persistent.get(&StoreKey::Id(1)), Err(StoreError::KeyKind));
    assert_eq!(persistent.delete(&StoreKey::Id(1)), Err(StoreError::KeyKind));
    assert_eq!(persistent.contains_key(&StoreKey::Id(1)), Err(StoreError::KeyKind));

    let mut volatile = KVStore::new_volatile();
    assert_eq!(volatile.put(StoreKey::Int(1), v), Err(StoreError::KeyKind));
    assert_eq!(volatile.get(&StoreKey::Int(1)), Err(StoreError::KeyKind));
}

#[test]
fn facade_volatile_refuses_maintenance_operations() {
    let mut volatile = KVStore::new_volatile();
    assert_eq!(volatile.compact(), Err(StoreError::Unsupported));
    assert_eq!(volatile.get_db_size(), Err(StoreError::Unsupported));
}

#[test]
fn facade_over_prebuilt_backend_sees_existing_entries() {
    let mut inner = RocksDBStore::new().unwrap();
    inner.put(33, envelope(33, vec![3])).unwrap();
    let store = KVStore::with_backend(Backend::Persistent(inner));
    assert!(store.contains_key(&StoreKey::Int(33)).unwrap());
}
