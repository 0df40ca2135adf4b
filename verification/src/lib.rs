//! A verified key-value store for fixed-size numeric tensors.
//!
//! Stored values are self-describing envelopes (shape, element-type tag,
//! integrity fields, raw bytes) with a deterministic byte encoding. Two
//! backends expose one capability set: a persistent-format backend keyed by
//! 64-bit integers encoded as big-endian bytes, and a volatile in-memory
//! backend keyed by 128-bit identifiers. The [`KVStore`] facade owns exactly
//! one backend, chosen at construction, and forwards every operation to it.
use vstd::prelude::*;

pub mod bytetable;
pub mod envelope;
pub mod keybytes;
pub mod laws;
pub mod matrix;
pub mod server_types;
pub mod store;
pub mod varint;
pub mod volatile;

pub use envelope::{DataType, DecodeError, Value, ValueModel};
pub use store::{RocksDBStore, StoreError};
pub use volatile::VolatileStore;
pub use bytetable::{ByteTable, DeleteBatch};

use crate::envelope::{spec_decode, spec_encode};
use crate::keybytes::u64_be_bytes;

verus! {

/// A key in one of the two transport keyspaces: 64-bit integers belong
/// to the persistent backend, 128-bit identifiers to the volatile one.
/// The two keyspaces are never conflated.
#[derive(Debug, PartialEq, Eq, Clone, Copy)]
pub enum StoreKey {
    Int(u64),
    Id(u128),
}

/// A concrete backend: exactly one of the two variants backs a store.
pub enum Backend {
    Persistent(RocksDBStore),
    Volatile(VolatileStore),
}

/// The chosen backend's own invariant.
pub open spec fn backend_wf(b: Backend) -> bool {
    match b {
        Backend::Persistent(s) => s.wf(),
        Backend::Volatile(s) => s.wf(),
    }
}

/// The facade transport layers call: one backend for its whole lifetime,
/// every operation a pure forward to it.
pub struct KVStore {
    backend: Backend,
}

impl KVStore {
    /// The backend's invariant, carried through every operation.
    pub closed spec fn wf(self) -> bool {
        backend_wf(self.backend)
    }

    /// Whether this store was built over the persistent backend.
    pub closed spec fn is_persistent(self) -> bool {
        self.backend is Persistent
    }

    /// The persistent backend's content (meaningful when persistent).
    pub closed spec fn pview(self) -> Map<Seq<u8>, Seq<u8>> {
        match self.backend {
            Backend::Persistent(s) => s@,
            Backend::Volatile(_) => Map::empty(),
        }
    }

    /// The volatile backend's content (meaningful when volatile).
    pub closed spec fn vview(self) -> Map<u128, ValueModel> {
        match self.backend {
            Backend::Volatile(s) => s@,
            Backend::Persistent(_) => Map::empty(),
        }
    }

    /// Total bytes held by the persistent backend across keys and values.
    pub closed spec fn psize(self) -> int {
        match self.backend {
            Backend::Persistent(s) => s.byte_size(),
            Backend::Volatile(_) => 0,
        }
    }

    /// A store over a fresh persistent-format backend.
    pub fn new() -> (r: Result<KVStore, StoreError>)
        ensures
            r matches Ok(s) && s.wf() && s.is_persistent() && s.pview() == Map::<
                Seq<u8>,
                Seq<u8>,
            >::empty() && s.psize() == 0,
    {
        let inner = match RocksDBStore::new() {
            Ok(s) => s,
            Err(e) => {
                return Err(e);
            },
        };
        Ok(KVStore { backend: Backend::Persistent(inner) })
    }

    /// An ephemeral store over a fresh volatile backend.
    pub fn new_volatile() -> (r: KVStore)
        ensures
            r.wf(),
            !r.is_persistent(),
            r.vview() == Map::<u128, ValueModel>::empty(),
            r.psize() == 0,
    {
        KVStore { backend: Backend::Volatile(VolatileStore::new()) }
    }

    /// A store over a backend built elsewhere, as when a data directory
    /// already holds entries.
    pub fn with_backend(backend: Backend) -> (r: KVStore)
        requires
            backend_wf(backend),
        ensures
            r.wf(),
            r.is_persistent() == (backend is Persistent),
            backend matches Backend::Persistent(s) ==> r.pview() == s@ && r.psize()
                == s.byte_size(),
            backend matches Backend::Volatile(s) ==> r.vview() == s@ && r.psize() == 0,
    {
        KVStore { backend }
    }

    /// Inserts or replaces; returns the prior envelope if one existed, so
    /// callers can tell an insert from an update. A key of the wrong
    /// keyspace is refused and nothing changes.
    pub fn put(&mut self, key: StoreKey, value: Value) -> (r: Result<Option<Value>, StoreError>)
        requires
            old(self).wf(),
        ensures
            final(self).wf(),
            final(self).is_persistent() == old(self).is_persistent(),
            ({
                let pre_p = old(self).pview();
                let post_p = final(self).pview();
                let pre_v = old(self).vview();
                let post_v = final(self).vview();
                match key {
                    StoreKey::Int(k) => if old(self).is_persistent() {
                        let kb = u64_be_bytes(k);
                        match r {
                            Ok(prev) => {
                                &&& post_p == pre_p.insert(kb, spec_encode(value@))
                                &&& final(self).psize() == old(self).psize() + 8 + spec_encode(
                                    value@,
                                ).len() - (if pre_p.contains_key(kb) {
                                    8 + pre_p[kb].len()
                                } else {
                                    0
                                })
                                &&& match prev {
                                    Some(p) => pre_p.contains_key(kb) && spec_decode(pre_p[kb])
                                        == Some(p@),
                                    None => !pre_p.contains_key(kb),
                                }
                            },
                            Err(e) => {
                                &&& e == StoreError::Decode
                                &&& post_p == pre_p
                                &&& final(self).psize() == old(self).psize()
                                &&& pre_p.contains_key(kb)
                                &&& spec_decode(pre_p[kb]) is None
                            },
                        }
                    } else {
                        r == Err::<Option<Value>, StoreError>(StoreError::KeyKind) && post_v
                            == pre_v && final(self).psize() == old(self).psize()
                    },
                    StoreKey::Id(u) => if !old(self).is_persistent() {
                        &&& post_v == pre_v.insert(u, value@)
                        &&& final(self).psize() == old(self).psize()
                        &&& r matches Ok(prev) && match prev {
                            Some(p) => pre_v.contains_key(u) && p@ == pre_v[u],
                            None => !pre_v.contains_key(u),
                        }
                    } else {
                        r == Err::<Option<Value>, StoreError>(StoreError::KeyKind) && post_p
                            == pre_p && final(self).psize() == old(self).psize()
                    },
                }
            }),
    {
        match (&mut self.backend, key) {
            (Backend::Persistent(s), StoreKey::Int(k)) => s.put(k, value),
            (Backend::Volatile(s), StoreKey::Id(u)) => Ok(s.put(u, value)),
            _ => Err(StoreError::KeyKind),
        }
    }

    /// Pure lookup, no side effect. A key of the wrong keyspace is
    /// refused.
    pub fn get(&self, key: &StoreKey) -> (r: Result<Option<Value>, StoreError>)
        requires
            self.wf(),
        ensures
            ({
                match *key {
                    StoreKey::Int(k) => if self.is_persistent() {
                        let kb = u64_be_bytes(k);
                        let m = self.pview();
                        match r {
                            Ok(None) => !m.contains_key(kb),
                            Ok(Some(v)) => m.contains_key(kb) && spec_decode(m[kb]) == Some(v@),
                            Err(e) => e == StoreError::Decode && m.contains_key(kb) && spec_decode(
                                m[kb],
                            ) is None,
                        }
                    } else {
                        r == Err::<Option<Value>, StoreError>(StoreError::KeyKind)
                    },
                    StoreKey::Id(u) => if !self.is_persistent() {
                        match r {
                            Ok(None) => !self.vview().contains_key(u),
                            Ok(Some(v)) => self.vview().contains_key(u) && v@ == self.vview()[u],
                            Err(_) => false,
                        }
                    } else {
                        r == Err::<Option<Value>, StoreError>(StoreError::KeyKind)
                    },
                }
            }),
    {
        match (&self.backend, key) {
            (Backend::Persistent(s), StoreKey::Int(k)) => s.get(k),
            (Backend::Volatile(s), StoreKey::Id(u)) => match s.get(u) {
                Some(v) => Ok(Some(v.clone())),
                None => Ok(None),
            },
            _ => Err(StoreError::KeyKind),
        }
    }

    /// Removes the entry if present; returns what was removed. A key of
    /// the wrong keyspace is refused and nothing changes.
    pub fn delete(&mut self, key: &StoreKey) -> (r: Result<Option<Value>, StoreError>)
        requires
            old(self).wf(),
        ensures
            final(self).wf(),
            final(self).is_persistent() == old(self).is_persistent(),
            ({
                let pre_p = old(self).pview();
                let post_p = final(self).pview();
                let pre_v = old(self).vview();
                let post_v = final(self).vview();
                match *key {
                    StoreKey::Int(k) => if old(self).is_persistent() {
                        let kb = u64_be_bytes(k);
                        match r {
                            Ok(prev) => {
                                &&& post_p == pre_p.remove(kb)
                                &&& final(self).psize() == old(self).psize() - (
                                if pre_p.contains_key(kb) {
                                    8 + pre_p[kb].len()
                                } else {
                                    0
                                })
                                &&& match prev {
                                    Some(p) => pre_p.contains_key(kb) && spec_decode(pre_p[kb])
                                        == Some(p@),
                                    None => !pre_p.contains_key(kb),
                                }
                            },
                            Err(e) => {
                                &&& e == StoreError::Decode
                                &&& post_p == pre_p
                                &&& final(self).psize() == old(self).psize()
                                &&& pre_p.contains_key(kb)
                                &&& spec_decode(pre_p[kb]) is None
                            },
                        }
                    } else {
                        r == Err::<Option<Value>, StoreError>(StoreError::KeyKind) && post_v
                            == pre_v && final(self).psize() == old(self).psize()
                    },
                    StoreKey::Id(u) => if !old(self).is_persistent() {
                        &&& post_v == pre_v.remove(u)
                        &&& final(self).psize() == old(self).psize()
                        &&& r matches Ok(prev) && match prev {
                            Some(p) => pre_v.contains_key(u) && p@ == pre_v[u],
                            None => !pre_v.contains_key(u),
                        }
                    } else {
                        r == Err::<Option<Value>, StoreError>(StoreError::KeyKind) && post_p
                            == pre_p && final(self).psize() == old(self).psize()
                    },
                }
            }),
    {
        match (&mut self.backend, key) {
            (Backend::Persistent(s), StoreKey::Int(k)) => s.delete(k),
            (Backend::Volatile(s), StoreKey::Id(u)) => Ok(s.delete(u)),
            _ => Err(StoreError::KeyKind),
        }
    }

    /// Whether an entry exists at `key`. A key of the wrong keyspace is
    /// refused.
    pub fn contains_key(&self, key: &StoreKey) -> (r: Result<bool, StoreError>)
        requires
            self.wf(),
        ensures
            ({
                match *key {
                    StoreKey::Int(k) => if self.is_persistent() {
                        r matches Ok(b) && b == self.pview().contains_key(u64_be_bytes(k))
                    } else {
                        r == Err::<bool, StoreError>(StoreError::KeyKind)
                    },
                    StoreKey::Id(u) => if !self.is_persistent() {
                        r matches Ok(b) && b == self.vview().contains_key(u)
                    } else {
                        r == Err::<bool, StoreError>(StoreError::KeyKind)
                    },
                }
            }),
    {
        match (&self.backend, key) {
            (Backend::Persistent(s), StoreKey::Int(k)) => s.contains_key(k),
            (Backend::Volatile(s), StoreKey::Id(u)) => Ok(s.contains_key(u)),
            _ => Err(StoreError::KeyKind),
        }
    }

    /// The number of entries in the chosen backend.
    pub fn len(&self) -> (r: Result<usize, StoreError>)
        requires
            self.wf(),
        ensures
            r matches Ok(n) && n == if self.is_persistent() {
                self.pview().dom().len()
            } else {
                self.vview().dom().len()
            },
    {
        match &self.backend {
            Backend::Persistent(s) => s.len(),
            Backend::Volatile(s) => Ok(s.len()),
        }
    }

    /// Whether the chosen backend holds no entries.
    pub fn is_empty(&self) -> (r: Result<bool, StoreError>)
        requires
            self.wf(),
        ensures
            r matches Ok(b) && b == if self.is_persistent() {
                self.pview().dom().len() == 0
            } else {
                self.vview().dom().len() == 0
            },
    {
        match &self.backend {
            Backend::Persistent(s) => s.is_empty(),
            Backend::Volatile(s) => Ok(s.is_empty()),
        }
    }

    /// A snapshot of every stored key, each in its backend's keyspace:
    /// no key twice, no stored key missing. Persistent keys come in
    /// ascending numeric order, as the ordered forward scan yields them.
    pub fn keys(&self) -> (r: Result<Vec<StoreKey>, StoreError>)
        requires
            self.wf(),
        ensures
            r matches Ok(ks) && ks@.no_duplicates() && if self.is_persistent() {
                &&& forall|k: u64| #[trigger]
                    ks@.contains(StoreKey::Int(k)) <==> self.pview().contains_key(u64_be_bytes(k))
                &&& forall|u: u128| !ks@.contains(StoreKey::Id(u))
                &&& forall|i: int, j: int|
                    #![trigger ks@[i], ks@[j]]
                    0 <= i < j < ks@.len() ==> (ks@[i] matches StoreKey::Int(a)
                        && ks@[j] matches StoreKey::Int(b) && a < b)
            } else {
                &&& forall|u: u128| #[trigger]
                    ks@.contains(StoreKey::Id(u)) <==> self.vview().contains_key(u)
                &&& forall|k: u64| !ks@.contains(StoreKey::Int(k))
            },
    {
        match &self.backend {
            Backend::Persistent(s) => {
                let inner = match s.keys() {
                    Ok(v) => v,
                    Err(e) => {
                        return Err(e);
                    },
                };
                let mut ks: Vec<StoreKey> = Vec::new();
                let mut i: usize = 0;
                while i < inner.len()
                    invariant
                        i <= inner@.len(),
                        ks@.len() == i,
                        forall|t: int| 0 <= t < i ==> ks@[t] == StoreKey::Int(#[trigger] inner@[t]),
                    decreases inner@.len() - i,
                {
                    ks.push(StoreKey::Int(inner[i]));
                    i = i + 1;
                }
                proof {
                    assert forall|k: u64| #[trigger] ks@.contains(StoreKey::Int(k)) implies inner@.contains(
                        k,
                    ) by {
                        let t = choose|t: int| 0 <= t < ks@.len() && ks@[t] == StoreKey::Int(k);
                        assert(inner@[t] == k);
                        assert(inner@.contains(k));
                    }
                    assert forall|k: u64| inner@.contains(k) implies #[trigger] ks@.contains(
                        StoreKey::Int(k),
                    ) by {
                        let t = choose|t: int| 0 <= t < inner@.len() && inner@[t] == k;
                        assert(ks@[t] == StoreKey::Int(k));
                        assert(ks@.contains(StoreKey::Int(k)));
                    }
                    assert forall|u: u128| true implies !ks@.contains(StoreKey::Id(u)) by {
                        if ks@.contains(StoreKey::Id(u)) {
                            let t = choose|t: int| 0 <= t < ks@.len() && ks@[t] == StoreKey::Id(u);
                            assert(ks@[t] == StoreKey::Int(inner@[t]));
                        }
                    }
                    assert forall|a: int, b: int| 0 <= a < b < ks@.len() implies ks@[a]
                        != ks@[b] by {
                        assert(inner@[a] != inner@[b]);
                    }
                    assert forall|a: int, b: int|
                        #![trigger ks@[a], ks@[b]]
                        0 <= a < b < ks@.len() implies (ks@[a] matches StoreKey::Int(x) && ks@[b]
                        matches StoreKey::Int(y) && x < y) by {
                        assert(ks@[a] == StoreKey::Int(inner@[a]));
                        assert(ks@[b] == StoreKey::Int(inner@[b]));
                        assert(inner@[a] < inner@[b]);
                    }
                }
                Ok(ks)
            },
            Backend::Volatile(s) => {
                let inner = s.keys();
                let mut ks: Vec<StoreKey> = Vec::new();
                let mut i: usize = 0;
                while i < inner.len()
                    invariant
                        i <= inner@.len(),
                        ks@.len() == i,
                        forall|t: int| 0 <= t < i ==> ks@[t] == StoreKey::Id(#[trigger] inner@[t]),
                    decreases inner@.len() - i,
                {
                    ks.push(StoreKey::Id(inner[i]));
                    i = i + 1;
                }
                proof {
                    assert forall|u: u128| #[trigger] ks@.contains(StoreKey::Id(u)) implies inner@.contains(
                        u,
                    ) by {
                        let t = choose|t: int| 0 <= t < ks@.len() && ks@[t] == StoreKey::Id(u);
                        assert(inner@[t] == u);
                        assert(inner@.contains(u));
                    }
                    assert forall|u: u128| inner@.contains(u) implies #[trigger] ks@.contains(
                        StoreKey::Id(u),
                    ) by {
                        let t = choose|t: int| 0 <= t < inner@.len() && inner@[t] == u;
                        assert(ks@[t] == StoreKey::Id(u));
                        assert(ks@.contains(StoreKey::Id(u)));
                    }
                    assert forall|k: u64| true implies !ks@.contains(StoreKey::Int(k)) by {
                        if ks@.contains(StoreKey::Int(k)) {
                            let t = choose|t: int| 0 <= t < ks@.len() && ks@[t] == StoreKey::Int(k);
                            assert(ks@[t] == StoreKey::Id(inner@[t]));
                        }
                    }
                    assert forall|a: int, b: int| 0 <= a < b < ks@.len() implies ks@[a]
                        != ks@[b] by {
                        assert(inner@[a] != inner@[b]);
                    }
                }
                Ok(ks)
            },
        }
    }

    /// Removes all entries, as one atomic unit: after return the store
    /// is empty and every previously-present key reports absent.
    pub fn clear(&mut self) -> (r: Result<(), StoreError>)
        requires
            old(self).wf(),
        ensures
            final(self).wf(),
            final(self).is_persistent() == old(self).is_persistent(),
            r is Ok,
            final(self).pview() == Map::<Seq<u8>, Seq<u8>>::empty(),
            final(self).vview() == Map::<u128, ValueModel>::empty(),
            final(self).psize() == 0,
    {
        match &mut self.backend {
            Backend::Persistent(s) => s.clear(),
            Backend::Volatile(s) => {
                s.clear();
                Ok(())
            },
        }
    }

    /// Synchronous full-range compaction of the persistent backend; the
    /// logical content is unchanged. Not meaningful for the volatile
    /// backend, which refuses it.
    pub fn compact(&mut self) -> (r: Result<(), StoreError>)
        requires
            old(self).wf(),
        ensures
            final(self).wf(),
            final(self).is_persistent() == old(self).is_persistent(),
            final(self).pview() == old(self).pview(),
            final(self).vview() == old(self).vview(),
            final(self).psize() == old(self).psize(),
            if old(self).is_persistent() {
                r is Ok
            } else {
                r == Err::<(), StoreError>(StoreError::Unsupported)
            },
    {
        match &mut self.backend {
            Backend::Persistent(s) => s.compact(),
            Backend::Volatile(_) => Err(StoreError::Unsupported),
        }
    }

    /// Byte-accounting estimate of the persistent backend's content. Not
    /// meaningful for the volatile backend, which refuses it.
    pub fn get_db_size(&self) -> (r: Result<u64, StoreError>)
        requires
            self.wf(),
        ensures
            if self.is_persistent() {
                r matches Ok(n) && n as int == if self.psize() <= u64::MAX as int {
                    self.psize()
                } else {
                    u64::MAX as int
                }
            } else {
                r == Err::<u64, StoreError>(StoreError::Unsupported)
            },
    {
        match &self.backend {
            Backend::Persistent(s) => s.get_db_size(),
            Backend::Volatile(_) => Err(StoreError::Unsupported),
        }
    }
}

impl Default for KVStore {
    /// An empty store over the persistent-format backend.
    fn default() -> (r: KVStore)
        ensures
            r.wf(),
            r.is_persistent(),
            r.pview() == Map::<Seq<u8>, Seq<u8>>::empty(),
            r.psize() == 0,
    {
        KVStore { backend: Backend::Persistent(RocksDBStore::with_table(ByteTable::new())) }
    }
}

} // verus!
