use rand::Rng;
use sha2::Digest;
use std::collections::HashSet;

use rust_kv_store::envelope::{DataType, Value};
use rust_kv_store::volatile::VolatileStore;
use rust_kv_store::{KVStore, StoreKey};

fn envelope(key_check: u64, payload: Vec<u8>) -> Value {
    Value {
        shape: vec![1, payload.len() as u64],
        dtype: DataType::Fp64.tag(),
        size_check: payload.len() as u64,
        key_check,
        data: vec![payload],
    }
}

#[test]
fn volatile_put_get_delete() {
    let mut store = VolatileStore::new();
    let v = envelope(1, vec![1, 2, 3]);
    assert_eq!(store.put(100, v.clone()), None);
    assert_eq!(store.get(&100), Some(&v));
    assert!(store.contains_key(&100));
    assert_eq!(store.len(), 1);
    assert_eq!(store.delete(&100), Some(v));
    assert_eq!(store.get(&100), None);
    assert!(store.is_empty());
}

#[test]
fn volatile_replace_reports_prior_value() {
    let mut store = VolatileStore::new();
    let v1 = envelope(1, vec![1]);
    let v2 = envelope(1, vec![2]);
    assert_eq!(store.put(5, v1.clone()), None);
    assert_eq!(store.put(5, v2.clone()), Some(v1));
    assert_eq!(store.get(&5), Some(&v2));
    assert_eq!(store.len(), 1);
}

#[test]
fn volatile_delete_absent_is_idempotent() {
    let mut store = VolatileStore::new();
    store.put(1, envelope(1, vec![1]));
    assert_eq!(store.delete(&2), None);
    assert_eq!(store.len(), 1);
}

#[test]
fn volatile_keys_form_a_complete_snapshot() {
    let mut store = VolatileStore::new();
    for k in 0..64u128 {
        store.put(k * 7, envelope(k as u64, vec![k as u8]));
    }
    let mut keys = store.keys();
    keys.sort();
    let expected: Vec<u128> = (0..64).map(|k| k * 7).collect();
    assert_eq!(keys, expected);
}

#[test]
fn volatile_clear_empties_the_store() {
    let mut store = VolatileStore::new();
    for k in 0..32u128 {
        store.put(k, envelope(k as u64, vec![1]));
    }
    store.clear();
    assert!(store.is_empty());
    assert_eq!(store.keys(), Vec::<u128>::new());
    for k in 0..32u128 {
        assert_eq!(store.get(&k), None);
    }
}

#[test]
fn bulk_inserts_stay_retrievable_byte_identical() {
    // 100,000 distinct randomly-generated keys, each inserted once with
    // an 8-byte payload; every key must be independently retrievable
    // with a byte-identical payload, checked through a content hash.
    let mut rng = rand::thread_rng();
    let mut store = VolatileStore::new();
    let mut keys_so_far: HashSet<u128> = HashSet::new();
    let mut keys_and_hashes: Vec<(u128, [u8; 32])> = Vec::new();

    for _ in 0..100000 {
        let mut key: u128 = rng.gen();
        while keys_so_far.contains(&key) {
            key = rng.gen();
        }
        keys_so_far.insert(key);

        let mut payload = [0u8; 8];
        rng.fill(&mut payload);
        let hash: [u8; 32] = sha2::Sha256::digest(payload).into();
        store.put(key, envelope(key as u64, payload.to_vec()));
        keys_and_hashes.push((key, hash));
    }

    assert_eq!(store.len(), 100000);
    for (key, expected) in &keys_and_hashes {
        let value = store.get(key).expect("every inserted key must be present");
        let got: [u8; 32] = sha2::Sha256::digest(&value.data[0]).into();
        assert_eq!(got, *expected);
    }
    store.clear();
    assert!(store.is_empty());
}

#[test]
fn facade_forwards_to_volatile_backend() {
    let mut store = KVStore::new_volatile();
    let v = envelope(9, vec![9, 8, 7]);
    assert_eq!(store.put(StoreKey::Id(900), v.clone()).unwrap(), None);
    assert_eq!(store.get(&StoreKey::Id(900)).unwrap(), Some(v.clone()));
    assert!(store.contains_key(&StoreKey::Id(900)).unwrap());
    assert_eq!(store.keys().unwrap(), vec![StoreKey::Id(900)]);
    assert_eq!(store.len().unwrap(), 1);
    assert_eq!(store.delete(&StoreKey::Id(900)).unwrap(), Some(v));
    assert!(store.is_empty().unwrap());
}
