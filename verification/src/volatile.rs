//! The volatile backend: an in-memory associative store of envelopes
//! keyed by opaque 128-bit identifiers. No persistence: dropping the
//! store discards all data.
use vstd::prelude::*;

use std::collections::HashMap;

use crate::envelope::{Value, ValueModel};
use crate::laws::lemma_push_to_set;

verus! {

broadcast use vstd::std_specs::hash::group_hash_axioms;

/// Removing the only occurrence of an element removes it from the set.
proof fn lemma_remove_to_set<A>(s: Seq<A>, i: int)
    requires
        s.no_duplicates(),
        0 <= i < s.len(),
    ensures
        s.remove(i).no_duplicates(),
        s.remove(i).to_set() == s.to_set().remove(s[i]),
{
    let t = s.remove(i);
    assert forall|a: int, b: int| 0 <= a < b < t.len() implies t[a] != t[b] by {
        let a2: int = if a < i {
            a
        } else {
            a + 1
        };
        let b2: int = if b < i {
            b
        } else {
            b + 1
        };
        assert(t[a] == s[a2]);
        assert(t[b] == s[b2]);
    }
    assert forall|e: A| true implies t.to_set().contains(e) == s.to_set().remove(s[i]).contains(
        e,
    ) by {
        if t.contains(e) {
            let a = choose|a: int| 0 <= a < t.len() && t[a] == e;
            let a2: int = if a < i {
                a
            } else {
                a + 1
            };
            assert(t[a] == s[a2]);
            assert(s.contains(e));
            assert(e != s[i]);
        }
        if s.contains(e) && e != s[i] {
            let a = choose|a: int| 0 <= a < s.len() && s[a] == e;
            if a < i {
                assert(t[a] == e);
                assert(t.contains(e));
            } else {
                assert(t[a - 1] == s[a]);
                assert(t.contains(e));
            }
        }
    }
    assert(t.to_set() =~= s.to_set().remove(s[i]));
}

/// The volatile backend. Lookup, insertion and removal are amortized
/// constant-time through the hash map; the key list supports
/// enumeration snapshots.
pub struct VolatileStore {
    map: HashMap<u128, Value>,
    order: Vec<u128>,
}

impl View for VolatileStore {
    type V = Map<u128, ValueModel>;

    closed spec fn view(&self) -> Map<u128, ValueModel> {
        Map::new(|k: u128| self.map@.contains_key(k), |k: u128| self.map@[k]@)
    }
}

impl VolatileStore {
    /// The key list mirrors the map's domain exactly.
    pub closed spec fn wf(self) -> bool {
        &&& self.order@.no_duplicates()
        &&& self.order@.to_set() == self.map@.dom()
    }

    /// An empty store.
    pub fn new() -> (r: VolatileStore)
        ensures
            r.wf(),
            r@ == Map::<u128, ValueModel>::empty(),
    {
        let r = VolatileStore { map: HashMap::new(), order: Vec::new() };
        proof {
            assert(r.order@.to_set() =~= r.map@.dom());
            assert(r@ =~= Map::<u128, ValueModel>::empty());
        }
        r
    }

    /// Inserts or replaces the envelope at `key`; returns the previously
    /// stored envelope, if any.
    pub fn put(&mut self, key: u128, value: Value) -> (r: Option<Value>)
        requires
            old(self).wf(),
        ensures
            final(self).wf(),
            final(self)@ == old(self)@.insert(key, value@),
            match r {
                Some(p) => old(self)@.contains_key(key) && p@ == old(self)@[key],
                None => !old(self)@.contains_key(key),
            },
    {
        let ghost pre_order = self.order@;
        let prev = self.map.insert(key, value);
        if prev.is_none() {
            self.order.push(key);
            proof {
                lemma_push_to_set(pre_order, key);
                assert(self.order@.no_duplicates()) by {
                    assert(!pre_order.to_set().contains(key));
                    assert forall|a: int, b: int|
                        0 <= a < b < self.order@.len() implies self.order@[a] != self.order@[b] by {
                        if b == pre_order.len() as int {
                            assert(self.order@[a] == pre_order[a]);
                            if pre_order[a] == key {
                                assert(pre_order.contains(key));
                            }
                        }
                    }
                }
            }
        }
        proof {
            assert(self.order@.to_set() =~= self.map@.dom());
            assert(self@ =~= old(self)@.insert(key, value@));
        }
        prev
    }

    /// Pure lookup: a borrow of the envelope at `key`, if any.
    pub fn get(&self, key: &u128) -> (r: Option<&Value>)
        ensures
            match r {
                Some(v) => self@.contains_key(*key) && v@ == self@[*key],
                None => !self@.contains_key(*key),
            },
    {
        self.map.get(key)
    }

    /// Removes the entry at `key` if present; returns what was removed.
    pub fn delete(&mut self, key: &u128) -> (r: Option<Value>)
        requires
            old(self).wf(),
        ensures
            final(self).wf(),
            final(self)@ == old(self)@.remove(*key),
            match r {
                Some(p) => old(self)@.contains_key(*key) && p@ == old(self)@[*key],
                None => !old(self)@.contains_key(*key),
            },
    {
        let ghost pre_order = self.order@;
        let prev = self.map.remove(key);
        if prev.is_some() {
            proof {
                assert(pre_order.to_set().contains(*key));
                assert(pre_order.contains(*key));
            }
            let ghost jj = choose|j: int| 0 <= j < pre_order.len() && pre_order[j] == *key;
            let mut i: usize = 0;
            while self.order[i] != *key
                invariant
                    self.order@ == pre_order,
                    0 <= jj < pre_order.len(),
                    pre_order[jj] == *key,
                    0 <= i <= jj,
                    forall|t: int| 0 <= t < i ==> pre_order[t] != *key,
                decreases jj - i,
            {
                proof {
                    assert(self.order@[i as int] != *key);
                    assert((i as int) < jj);
                    assert(self.order.len() == self.order@.len());
                }
                i = i + 1;
            }
            let _ = self.order.remove(i);
            proof {
                lemma_remove_to_set(pre_order, i as int);
            }
        }
        proof {
            assert(self.order@.to_set() =~= self.map@.dom());
            assert(self@ =~= old(self)@.remove(*key));
        }
        prev
    }

    /// Whether an entry exists at `key`.
    pub fn contains_key(&self, key: &u128) -> (r: bool)
        ensures
            r == self@.contains_key(*key),
    {
        self.map.contains_key(key)
    }

    /// The number of entries held.
    pub fn len(&self) -> (r: usize)
        ensures
            r == self@.dom().len(),
    {
        proof {
            assert(self@.dom() =~= self.map@.dom());
        }
        self.map.len()
    }

    /// Whether the store holds no entries.
    pub fn is_empty(&self) -> (r: bool)
        ensures
            r == (self@.dom().len() == 0),
    {
        proof {
            assert(self@.dom() =~= self.map@.dom());
        }
        self.map.len() == 0
    }

    /// A point-in-time snapshot of every stored key.
    pub fn keys(&self) -> (r: Vec<u128>)
        requires
            self.wf(),
        ensures
            forall|k: u128| r@.contains(k) <==> self@.contains_key(k),
            r@.no_duplicates(),
    {
        let mut r: Vec<u128> = Vec::new();
        let mut i: usize = 0;
        while i < self.order.len()
            invariant
                i <= self.order@.len(),
                r@ == self.order@.take(i as int),
            decreases self.order@.len() - i,
        {
            r.push(self.order[i]);
            proof {
                assert(r@ =~= self.order@.take(i as int + 1));
            }
            i = i + 1;
        }
        proof {
            assert(self.order@.take(self.order@.len() as int) =~= self.order@);
            assert forall|k: u128| r@.contains(k) <==> self@.contains_key(k) by {
                assert(r@.contains(k) == self.order@.to_set().contains(k));
            }
        }
        r
    }

    /// Removes all entries.
    pub fn clear(&mut self)
        requires
            old(self).wf(),
        ensures
            final(self).wf(),
            final(self)@ == Map::<u128, ValueModel>::empty(),
    {
        self.map.clear();
        self.order.clear();
        proof {
            assert(self.order@.to_set() =~= self.map@.dom());
            assert(self@ =~= Map::<u128, ValueModel>::empty());
        }
    }
}

} // verus!
