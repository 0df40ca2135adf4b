//! The persistent-format backend: envelopes keyed by 64-bit integers,
//! stored in the ordered byte table under 8-byte big-endian keys with the
//! envelope's deterministic byte encoding as the stored value.
use vstd::prelude::*;

use crate::bytetable::{ByteTable, DeleteBatch, seq_has_key, sorted_keys, unique_keys};
use crate::envelope::{Value, spec_encode, spec_decode, encode, decode, clone_bytes};
use crate::keybytes::{u64_be_bytes, encode_key, decode_key, lemma_bytes_round_trip,
    lemma_key_encoding_injective, lemma_key_order_is_numeric, lex_lt};

verus! {

/// Why a store operation failed.
#[derive(Debug, PartialEq, Eq, Clone, Copy)]
pub enum StoreError {
    /// Stored bytes could not be parsed back into an envelope: on-disk
    /// corruption or a version mismatch.
    Decode,
    /// The key's form does not belong to the backend this store was
    /// built with.
    KeyKind,
    /// The operation is not meaningful for the backend this store was
    /// built with.
    Unsupported,
}

/// The persistent-format backend over the ordered byte table.
pub struct RocksDBStore {
    table: ByteTable,
}

impl View for RocksDBStore {
    type V = Map<Seq<u8>, Seq<u8>>;

    closed spec fn view(&self) -> Map<Seq<u8>, Seq<u8>> {
        self.table@
    }
}

impl RocksDBStore {
    /// The table invariant, carried through every operation.
    pub closed spec fn wf(self) -> bool {
        self.table.wf()
    }

    /// Total bytes held across keys and values.
    pub closed spec fn byte_size(self) -> int {
        self.table.byte_size()
    }

    /// A store with no entries.
    pub fn new() -> (r: Result<RocksDBStore, StoreError>)
        ensures
            r matches Ok(s) && s.wf() && s@ == Map::<Seq<u8>, Seq<u8>>::empty() && s.byte_size()
                == 0,
    {
        Ok(RocksDBStore { table: ByteTable::new() })
    }

    /// A store over an existing table, as when a directory already holds
    /// data written earlier.
    pub fn with_table(table: ByteTable) -> (r: RocksDBStore)
        requires
            table.wf(),
        ensures
            r.wf(),
            r@ == table@,
            r.byte_size() == table.byte_size(),
    {
        RocksDBStore { table }
    }

    /// Inserts or replaces the envelope at `key`; returns the previously
    /// stored envelope, if any. Reads the old value first, then writes:
    /// a failure to decode the old value leaves the store unchanged.
    pub fn put(&mut self, key: u64, value: Value) -> (r: Result<Option<Value>, StoreError>)
        requires
            old(self).wf(),
        ensures
            final(self).wf(),
            ({
                let kb = u64_be_bytes(key);
                let pre = old(self)@;
                match r {
                    Ok(prev) => {
                        &&& final(self)@ == pre.insert(kb, spec_encode(value@))
                        &&& final(self).byte_size() == old(self).byte_size() + 8 + spec_encode(
                            value@,
                        ).len() - (if pre.contains_key(kb) {
                            8 + pre[kb].len()
                        } else {
                            0
                        })
                        &&& match prev {
                            Some(p) => pre.contains_key(kb) && spec_decode(pre[kb]) == Some(p@),
                            None => !pre.contains_key(kb),
                        }
                    },
                    Err(e) => {
                        &&& e == StoreError::Decode
                        &&& final(self)@ == pre
                        &&& final(self).byte_size() == old(self).byte_size()
                        &&& pre.contains_key(kb)
                        &&& spec_decode(pre[kb]) is None
                    },
                }
            }),
    {
        let kb = encode_key(key);
        let prev = match self.table.get(&kb) {
            Some(bytes) => match decode(bytes) {
                Ok(v) => Some(v),
                Err(_) => {
                    return Err(StoreError::Decode);
                },
            },
            None => None,
        };
        let enc = encode(&value);
        let _ = self.table.put(kb, enc);
        Ok(prev)
    }

    /// Pure lookup: the envelope at `key`, if any.
    pub fn get(&self, key: &u64) -> (r: Result<Option<Value>, StoreError>)
        requires
            self.wf(),
        ensures
            ({
                let kb = u64_be_bytes(*key);
                match r {
                    Ok(None) => !self@.contains_key(kb),
                    Ok(Some(v)) => self@.contains_key(kb) && spec_decode(self@[kb]) == Some(v@),
                    Err(e) => e == StoreError::Decode && self@.contains_key(kb) && spec_decode(
                        self@[kb],
                    ) is None,
                }
            }),
    {
        let kb = encode_key(*key);
        match self.table.get(&kb) {
            Some(bytes) => match decode(bytes) {
                Ok(v) => Ok(Some(v)),
                Err(_) => Err(StoreError::Decode),
            },
            None => Ok(None),
        }
    }

    /// Removes the entry at `key` if present; returns what was removed.
    /// The pre-deletion value is read first: a failure to decode it
    /// leaves the store unchanged.
    pub fn delete(&mut self, key: &u64) -> (r: Result<Option<Value>, StoreError>)
        requires
            old(self).wf(),
        ensures
            final(self).wf(),
            ({
                let kb = u64_be_bytes(*key);
                let pre = old(self)@;
                match r {
                    Ok(prev) => {
                        &&& final(self)@ == pre.remove(kb)
                        &&& final(self).byte_size() == old(self).byte_size() - (
                        if pre.contains_key(kb) {
                            8 + pre[kb].len()
                        } else {
                            0
                        })
                        &&& match prev {
                            Some(p) => pre.contains_key(kb) && spec_decode(pre[kb]) == Some(p@),
                            None => !pre.contains_key(kb),
                        }
                    },
                    Err(e) => {
                        &&& e == StoreError::Decode
                        &&& final(self)@ == pre
                        &&& final(self).byte_size() == old(self).byte_size()
                        &&& pre.contains_key(kb)
                        &&& spec_decode(pre[kb]) is None
                    },
                }
            }),
    {
        let kb = encode_key(*key);
        let prev = match self.table.get(&kb) {
            Some(bytes) => match decode(bytes) {
                Ok(v) => Some(v),
                Err(_) => {
                    return Err(StoreError::Decode);
                },
            },
            None => None,
        };
        let _ = self.table.delete(&kb);
        Ok(prev)
    }

    /// Whether an entry exists at `key`.
    pub fn contains_key(&self, key: &u64) -> (r: Result<bool, StoreError>)
        requires
            self.wf(),
        ensures
            r matches Ok(b) && b == self@.contains_key(u64_be_bytes(*key)),
    {
        let kb = encode_key(*key);
        match self.table.get(&kb) {
            Some(_) => Ok(true),
            None => Ok(false),
        }
    }

    /// The number of entries, counted by a full forward scan.
    pub fn len(&self) -> (r: Result<usize, StoreError>)
        requires
            self.wf(),
        ensures
            r matches Ok(n) && n == self@.dom().len(),
    {
        Ok(self.table.len())
    }

    /// Whether the store holds no entries.
    pub fn is_empty(&self) -> (r: Result<bool, StoreError>)
        requires
            self.wf(),
        ensures
            r matches Ok(b) && b == (self@.dom().len() == 0),
    {
        Ok(self.table.len() == 0)
    }

    /// Every stored 64-bit key, collected by a full forward scan, in
    /// ascending numeric order: big-endian encoding makes the
    /// lexicographic scan order numeric. Entries whose key is not exactly
    /// 8 bytes are silently skipped: a defensive measure against foreign
    /// data, not an error.
    pub fn keys(&self) -> (r: Result<Vec<u64>, StoreError>)
        requires
            self.wf(),
        ensures
            r matches Ok(ks) && (forall|k: u64|
                ks@.contains(k) <==> self@.contains_key(u64_be_bytes(k))) && ks@.no_duplicates()
                && (forall|i: int, j: int| 0 <= i < j < ks@.len() ==> ks@[i] < ks@[j]),
    {
        let ents = self.table.entries();
        let mut ks: Vec<u64> = Vec::new();
        let mut i: usize = 0;
        while i < ents.len()
            invariant
                i <= ents@.len(),
                sorted_keys(ents@),
                unique_keys(ents@),
                forall|t: int| 0 <= t < ents@.len() ==> self@.contains_key(#[trigger] ents@[t].0@)
                    && self@[ents@[t].0@] == ents@[t].1@,
                forall|k: Seq<u8>| #[trigger] self@.contains_key(k) ==> seq_has_key(ents@, k),
                forall|k: u64| #[trigger] ks@.contains(k) <==> exists|t: int|
                    0 <= t < i && ents@[t].0@ == u64_be_bytes(k),
                ks@.no_duplicates(),
                forall|a: int, b: int| 0 <= a < b < ks@.len() ==> ks@[a] < ks@[b],
            decreases ents@.len() - i,
        {
            if ents[i].0.len() == 8 {
                let k = decode_key(&ents[i].0);
                proof {
                    lemma_bytes_round_trip(ents@[i as int].0@);
                    assert(u64_be_bytes(k) == ents@[i as int].0@);
                    assert(!ks@.contains(k)) by {
                        if ks@.contains(k) {
                            let t = choose|t: int| 0 <= t < i && ents@[t].0@ == u64_be_bytes(k);
                            assert(ents@[t].0@ == ents@[i as int].0@);
                        }
                    }
                }
                let ghost pre = ks@;
                ks.push(k);
                proof {
                    assert forall|q: u64| #[trigger] ks@.contains(q) implies exists|t: int|
                        0 <= t < i + 1 && ents@[t].0@ == u64_be_bytes(q) by {
                        let a = choose|a: int| 0 <= a < ks@.len() && ks@[a] == q;
                        if a < pre.len() {
                            assert(pre[a] == q);
                            assert(pre.contains(q));
                            let t = choose|t: int| 0 <= t < i && ents@[t].0@ == u64_be_bytes(q);
                            assert(0 <= t < i + 1 && ents@[t].0@ == u64_be_bytes(q));
                        } else {
                            assert(q == k);
                            assert(ents@[i as int].0@ == u64_be_bytes(q));
                        }
                    }
                    assert forall|a: int, b: int| 0 <= a < b < ks@.len() implies ks@[a]
                        < ks@[b] by {
                        if b == pre.len() as int {
                            assert(ks@[a] == pre[a]);
                            assert(pre.contains(pre[a]));
                            let t = choose|t: int|
                                0 <= t < i && ents@[t].0@ == u64_be_bytes(pre[a]);
                            assert(lex_lt(ents@[t].0@, ents@[i as int].0@));
                            lemma_key_order_is_numeric(pre[a], k);
                        }
                    }
                    assert forall|q: u64|
                        (exists|t: int| 0 <= t < i + 1 && ents@[t].0@ == u64_be_bytes(q)) implies #[trigger] ks@.contains(
                        q,
                    ) by {
                        let t = choose|t: int| 0 <= t < i + 1 && ents@[t].0@ == u64_be_bytes(q);
                        if t < i as int {
                            assert(pre.contains(q));
                            let a = choose|a: int| 0 <= a < pre.len() && pre[a] == q;
                            assert(ks@[a] == q);
                        } else {
                            lemma_bytes_round_trip(ents@[t].0@);
                            lemma_key_encoding_injective(q, k);
                            assert(q == k);
                            assert(ks@[pre.len() as int] == k);
                        }
                    }
                }
            } else {
                proof {
                    assert forall|q: u64| #[trigger] ks@.contains(q) == (exists|t: int|
                        0 <= t < i + 1 && ents@[t].0@ == u64_be_bytes(q)) by {
                        if exists|t: int| 0 <= t < i + 1 && ents@[t].0@ == u64_be_bytes(q) {
                            let t = choose|t: int| 0 <= t < i + 1 && ents@[t].0@ == u64_be_bytes(
                                q,
                            );
                            assert(u64_be_bytes(q).len() == 8);
                            assert(t < i as int);
                        }
                    }
                }
            }
            i = i + 1;
        }
        proof {
            assert forall|k: u64| #[trigger] ks@.contains(k) implies self@.contains_key(
                u64_be_bytes(k),
            ) by {
                let t = choose|t: int| 0 <= t < ents@.len() && ents@[t].0@ == u64_be_bytes(k);
                assert(self@.contains_key(ents@[t].0@));
            }
            assert forall|k: u64| self@.contains_key(u64_be_bytes(k)) implies #[trigger] ks@.contains(
                k,
            ) by {
                assert(seq_has_key(ents@, u64_be_bytes(k)));
                let t = choose|t: int|
                    0 <= t < ents@.len() && ents@[t].0@ == u64_be_bytes(k);
            }
        }
        Ok(ks)
    }

    /// Removes every entry: all keys are collected by a forward scan into
    /// one delete batch, applied as a single atomic unit.
    pub fn clear(&mut self) -> (r: Result<(), StoreError>)
        requires
            old(self).wf(),
        ensures
            final(self).wf(),
            r matches Ok(u) && u == (),
            final(self)@ == Map::<Seq<u8>, Seq<u8>>::empty(),
            final(self).byte_size() == 0,
    {
        let mut batch = DeleteBatch::new();
        let ghost mut ents_seq: Seq<(Vec<u8>, Vec<u8>)> = Seq::empty();
        {
            let ents = self.table.entries();
            proof {
                ents_seq = ents@;
            }
            let mut i: usize = 0;
            while i < ents.len()
                invariant
                    i <= ents@.len(),
                    ents_seq == ents@,
                    batch@.len() == i,
                    forall|t: int| 0 <= t < i ==> batch@[t] == #[trigger] ents@[t].0@,
                decreases ents@.len() - i,
            {
                let kb = clone_bytes(&ents[i].0);
                batch.delete(kb);
                i = i + 1;
            }
        }
        let ghost pre = self@;
        self.table.write(batch);
        proof {
            assert forall|k: Seq<u8>| true implies !self@.contains_key(k) by {
                if pre.contains_key(k) {
                    assert(seq_has_key(ents_seq, k));
                    let t = choose|t: int| 0 <= t < ents_seq.len() && ents_seq[t].0@ == k;
                    assert(batch@[t] == k);
                    assert(batch@.contains(k));
                    assert(batch@.to_set().contains(k));
                }
            }
            assert(self@ =~= Map::<Seq<u8>, Seq<u8>>::empty());
            self.table.lemma_empty_byte_size();
        }
        Ok(())
    }

    /// Synchronous full-range compaction: reclaims space only, never
    /// changes the logical content.
    pub fn compact(&mut self) -> (r: Result<(), StoreError>)
        requires
            old(self).wf(),
        ensures
            final(self).wf(),
            r matches Ok(u) && u == (),
            final(self)@ == old(self)@,
            final(self).byte_size() == old(self).byte_size(),
    {
        self.table.compact();
        Ok(())
    }

    /// Byte-accounting estimate: key length plus value length summed over
    /// every entry by a full forward scan, saturating at the largest
    /// 64-bit count. Not the on-disk footprint.
    pub fn get_db_size(&self) -> (r: Result<u64, StoreError>)
        requires
            self.wf(),
        ensures
            r matches Ok(n) && n as int == if self.byte_size() <= u64::MAX as int {
                self.byte_size()
            } else {
                u64::MAX as int
            },
    {
        Ok(self.table.total_bytes())
    }
}

} // verus!
