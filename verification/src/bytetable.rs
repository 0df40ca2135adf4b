//! An ordered-key byte table: the embedded storage engine of the
//! persistent backend, holding raw byte keys mapped to raw byte values.
//! Its logical content is a finite map from byte sequences to byte
//! sequences; a batched delete applies as one atomic unit.
use vstd::prelude::*;

use crate::envelope::clone_bytes;
use crate::keybytes::{lex_lt, lex_less, lemma_lex_irreflexive, lemma_lex_total,
    lemma_lex_transitive};

verus! {

/// No two entries share a key.
pub open spec fn unique_keys(s: Seq<(Vec<u8>, Vec<u8>)>) -> bool {
    forall|i: int, j: int| 0 <= i < j < s.len() ==> s[i].0@ != s[j].0@
}

/// Some entry carries the key `k`.
pub open spec fn seq_has_key(s: Seq<(Vec<u8>, Vec<u8>)>, k: Seq<u8>) -> bool {
    exists|i: int| 0 <= i < s.len() && s[i].0@ == k
}

/// The index of the entry carrying `k`.
pub open spec fn seq_key_index(s: Seq<(Vec<u8>, Vec<u8>)>, k: Seq<u8>) -> int {
    choose|i: int| 0 <= i < s.len() && s[i].0@ == k
}

/// The finite map an entry sequence stands for.
pub open spec fn assoc_view(s: Seq<(Vec<u8>, Vec<u8>)>) -> Map<Seq<u8>, Seq<u8>> {
    Map::new(|k: Seq<u8>| seq_has_key(s, k), |k: Seq<u8>| s[seq_key_index(s, k)].1@)
}

/// Total bytes held by an entry sequence: key length plus value length,
/// summed over every entry.
pub open spec fn seq_byte_size(s: Seq<(Vec<u8>, Vec<u8>)>) -> int
    decreases s.len(),
{
    if s.len() == 0 {
        0
    } else {
        seq_byte_size(s.drop_last()) + s.last().0@.len() + s.last().1@.len()
    }
}

/// Entries come in strictly ascending lexicographic key order, as in an
/// ordered-key store's forward scan.
pub open spec fn sorted_keys(s: Seq<(Vec<u8>, Vec<u8>)>) -> bool {
    forall|i: int, j: int| 0 <= i < j < s.len() ==> lex_lt(s[i].0@, s[j].0@)
}

/// A strictly ordered entry sequence repeats no key.
proof fn lemma_sorted_implies_unique(s: Seq<(Vec<u8>, Vec<u8>)>)
    requires
        sorted_keys(s),
    ensures
        unique_keys(s),
{
    assert forall|i: int, j: int| 0 <= i < j < s.len() implies s[i].0@ != s[j].0@ by {
        assert(lex_lt(s[i].0@, s[j].0@));
        lemma_lex_irreflexive(s[i].0@);
    }
}

/// Removing an entry keeps the rest in order.
proof fn lemma_sorted_remove(s: Seq<(Vec<u8>, Vec<u8>)>, i: int)
    requires
        sorted_keys(s),
        0 <= i < s.len(),
    ensures
        sorted_keys(s.remove(i)),
{
    let t = s.remove(i);
    assert forall|a: int, b: int| 0 <= a < b < t.len() implies lex_lt(t[a].0@, t[b].0@) by {
        let a2: int = if a < i {
            a
        } else {
            a + 1
        };
        let b2: int = if b < i {
            b
        } else {
            b + 1
        };
        assert(t[a] == s[a2]);
        assert(t[b] == s[b2]);
        assert(lex_lt(s[a2].0@, s[b2].0@));
    }
}

/// Replacing an entry's value in place, key unchanged, keeps the order.
proof fn lemma_sorted_update_same_key(s: Seq<(Vec<u8>, Vec<u8>)>, i: int, e: (Vec<u8>, Vec<u8>))
    requires
        sorted_keys(s),
        0 <= i < s.len(),
        s[i].0@ == e.0@,
    ensures
        sorted_keys(s.update(i, e)),
{
    let t = s.update(i, e);
    assert forall|a: int, b: int| 0 <= a < b < t.len() implies lex_lt(t[a].0@, t[b].0@) by {
        assert(t[a].0@ == s[a].0@);
        assert(t[b].0@ == s[b].0@);
        assert(lex_lt(s[a].0@, s[b].0@));
    }
}

/// Inserting an entry between its neighbours keeps the order.
proof fn lemma_sorted_insert_at(s: Seq<(Vec<u8>, Vec<u8>)>, pos: int, e: (Vec<u8>, Vec<u8>))
    requires
        sorted_keys(s),
        0 <= pos <= s.len(),
        forall|t: int| 0 <= t < pos ==> lex_lt(#[trigger] s[t].0@, e.0@),
        forall|t: int| pos <= t < s.len() ==> lex_lt(e.0@, #[trigger] s[t].0@),
    ensures
        sorted_keys(s.insert(pos, e)),
{
    s.insert_ensures(pos, e);
    let t = s.insert(pos, e);
    assert forall|a: int, b: int| 0 <= a < b < t.len() implies lex_lt(t[a].0@, t[b].0@) by {
        if a < pos {
            assert(t[a] == s[a]);
        } else if a == pos {
            assert(t[a] == e);
        } else {
            assert(t[a] == s[a - 1]);
        }
        if b < pos {
            assert(t[b] == s[b]);
        } else if b == pos {
            assert(t[b] == e);
        } else {
            assert(t[b] == s[b - 1]);
        }
    }
}

/// Replacing the entry at a key's index updates the map at that key.
proof fn lemma_assoc_update(s: Seq<(Vec<u8>, Vec<u8>)>, i: int, e: (Vec<u8>, Vec<u8>))
    requires
        unique_keys(s),
        0 <= i < s.len(),
        s[i].0@ == e.0@,
    ensures
        unique_keys(s.update(i, e)),
        assoc_view(s.update(i, e)) == assoc_view(s).insert(e.0@, e.1@),
{
    let t = s.update(i, e);
    assert forall|j: int| 0 <= j < t.len() implies t[j].0@ == s[j].0@ by {
    }
    assert forall|k: Seq<u8>| true implies seq_has_key(t, k) == seq_has_key(s, k) by {
        if seq_has_key(t, k) {
            let a = choose|a: int| 0 <= a < t.len() && t[a].0@ == k;
            assert(s[a].0@ == k);
            assert(seq_has_key(s, k));
        }
        if seq_has_key(s, k) {
            let a = choose|a: int| 0 <= a < s.len() && s[a].0@ == k;
            assert(t[a].0@ == k);
            assert(seq_has_key(t, k));
        }
    }
    assert forall|k: Seq<u8>| seq_has_key(t, k) implies #[trigger] assoc_view(t)[k]
        == assoc_view(s).insert(e.0@, e.1@)[k] by {
        if k == e.0@ {
            lemma_key_index_unique(t, i);
        } else {
            let a = choose|a: int| 0 <= a < s.len() && s[a].0@ == k;
            assert(a != i);
            lemma_key_index_unique(t, a);
            lemma_key_index_unique(s, a);
            assert(t[a] == s[a]);
        }
    }
    assert(assoc_view(t) =~= assoc_view(s).insert(e.0@, e.1@));
}

/// Inserting an entry with a fresh key at any position inserts it into
/// the map.
proof fn lemma_assoc_insert_at(s: Seq<(Vec<u8>, Vec<u8>)>, pos: int, e: (Vec<u8>, Vec<u8>))
    requires
        unique_keys(s),
        !seq_has_key(s, e.0@),
        0 <= pos <= s.len(),
    ensures
        unique_keys(s.insert(pos, e)),
        assoc_view(s.insert(pos, e)) == assoc_view(s).insert(e.0@, e.1@),
{
    s.insert_ensures(pos, e);
    let t = s.insert(pos, e);
    assert forall|a: int, b: int| 0 <= a < b < t.len() implies t[a].0@ != t[b].0@ by {
        let a2: int = if a < pos {
            a
        } else {
            a - 1
        };
        let b2: int = if b < pos {
            b
        } else {
            b - 1
        };
        if a == pos {
            assert(t[a] == e);
            assert(t[b] == s[b2]);
            if s[b2].0@ == e.0@ {
                assert(seq_has_key(s, e.0@));
            }
        } else if b == pos {
            assert(t[b] == e);
            assert(t[a] == s[a2]);
            if s[a2].0@ == e.0@ {
                assert(seq_has_key(s, e.0@));
            }
        } else {
            assert(t[a] == s[a2]);
            assert(t[b] == s[b2]);
        }
    }
    assert forall|k: Seq<u8>| true implies seq_has_key(t, k) == (seq_has_key(s, k) || k
        == e.0@) by {
        if seq_has_key(t, k) {
            let a = choose|a: int| 0 <= a < t.len() && t[a].0@ == k;
            if a == pos {
                assert(t[a] == e);
            } else if a < pos {
                assert(t[a] == s[a]);
                assert(seq_has_key(s, k));
            } else {
                assert(t[a] == s[a - 1]);
                assert(seq_has_key(s, k));
            }
        }
        if seq_has_key(s, k) {
            let a = choose|a: int| 0 <= a < s.len() && s[a].0@ == k;
            if a < pos {
                assert(t[a].0@ == k);
            } else {
                assert(t[a + 1].0@ == k);
            }
            assert(seq_has_key(t, k));
        }
        if k == e.0@ {
            assert(t[pos].0@ == k);
            assert(seq_has_key(t, k));
        }
    }
    assert forall|k: Seq<u8>| seq_has_key(t, k) implies #[trigger] assoc_view(t)[k]
        == assoc_view(s).insert(e.0@, e.1@)[k] by {
        if k == e.0@ {
            lemma_key_index_unique(t, pos);
        } else {
            let a = choose|a: int| 0 <= a < s.len() && s[a].0@ == k;
            lemma_key_index_unique(s, a);
            if a < pos {
                assert(t[a] == s[a]);
                lemma_key_index_unique(t, a);
            } else {
                assert(t[a + 1] == s[a]);
                lemma_key_index_unique(t, a + 1);
            }
        }
    }
    assert(assoc_view(t) =~= assoc_view(s).insert(e.0@, e.1@));
}

/// Replacing an entry swaps its bytes out of the total and the new
/// entry's bytes in.
proof fn lemma_byte_size_update(s: Seq<(Vec<u8>, Vec<u8>)>, i: int, e: (Vec<u8>, Vec<u8>))
    requires
        0 <= i < s.len(),
    ensures
        seq_byte_size(s.update(i, e)) == seq_byte_size(s) - s[i].0@.len() - s[i].1@.len()
            + e.0@.len() + e.1@.len(),
    decreases s.len(),
{
    let t = s.update(i, e);
    if i == s.len() - 1 {
        assert(t.drop_last() =~= s.drop_last());
        assert(t.last() == e);
    } else {
        assert(t.drop_last() =~= s.drop_last().update(i, e));
        assert(t.last() == s.last());
        lemma_byte_size_update(s.drop_last(), i, e);
    }
}

/// Inserting an entry adds its bytes to the total.
proof fn lemma_byte_size_insert(s: Seq<(Vec<u8>, Vec<u8>)>, pos: int, e: (Vec<u8>, Vec<u8>))
    requires
        0 <= pos <= s.len(),
    ensures
        seq_byte_size(s.insert(pos, e)) == seq_byte_size(s) + e.0@.len() + e.1@.len(),
    decreases s.len(),
{
    s.insert_ensures(pos, e);
    let t = s.insert(pos, e);
    if pos == s.len() {
        assert(t =~= s.push(e));
        lemma_byte_size_push(s, e);
    } else {
        s.drop_last().insert_ensures(pos, e);
        assert(t.drop_last() =~= s.drop_last().insert(pos, e));
        assert(t.last() == s.last());
        lemma_byte_size_insert(s.drop_last(), pos, e);
    }
}

/// Removing an entry drops its bytes from the total.
proof fn lemma_byte_size_remove(s: Seq<(Vec<u8>, Vec<u8>)>, i: int)
    requires
        0 <= i < s.len(),
    ensures
        seq_byte_size(s.remove(i)) == seq_byte_size(s) - s[i].0@.len() - s[i].1@.len(),
    decreases s.len(),
{
    s.remove_ensures(i);
    let t = s.remove(i);
    if i == s.len() - 1 {
        assert(t =~= s.drop_last());
    } else {
        s.drop_last().remove_ensures(i);
        assert(t.drop_last() =~= s.drop_last().remove(i));
        assert(t.last() == s.last());
        lemma_byte_size_remove(s.drop_last(), i);
    }
}

/// When keys are unique, the entry at `i` is the one `seq_key_index` picks.
proof fn lemma_key_index_unique(s: Seq<(Vec<u8>, Vec<u8>)>, i: int)
    requires
        unique_keys(s),
        0 <= i < s.len(),
    ensures
        seq_key_index(s, s[i].0@) == i,
        seq_has_key(s, s[i].0@),
{
    assert(seq_has_key(s, s[i].0@));
    let j = seq_key_index(s, s[i].0@);
    if j != i {
        assert(s[i].0@ != s[j].0@);
    }
}

/// Appending an entry with a fresh key inserts it into the map.
proof fn lemma_assoc_push(s: Seq<(Vec<u8>, Vec<u8>)>, e: (Vec<u8>, Vec<u8>))
    requires
        unique_keys(s),
        !seq_has_key(s, e.0@),
    ensures
        unique_keys(s.push(e)),
        assoc_view(s.push(e)) == assoc_view(s).insert(e.0@, e.1@),
{
    let t = s.push(e);
    assert forall|i: int, j: int| 0 <= i < j < t.len() implies t[i].0@ != t[j].0@ by {
        if j < s.len() {
        } else {
            assert(t[j] == e);
            assert(t[i] == s[i]);
            assert(!(s[i].0@ == e.0@)) by {
                if s[i].0@ == e.0@ {
                    assert(seq_has_key(s, e.0@));
                }
            }
        }
    }
    assert forall|k: Seq<u8>| true implies #[trigger] assoc_view(t).contains_key(k)
        == assoc_view(s).insert(e.0@, e.1@).contains_key(k) by {
        if k == e.0@ {
            assert(t[s.len() as int].0@ == k);
            assert(seq_has_key(t, k));
        } else {
            if seq_has_key(t, k) {
                let i = choose|i: int| 0 <= i < t.len() && t[i].0@ == k;
                assert(i < s.len());
                assert(s[i].0@ == k);
                assert(seq_has_key(s, k));
            }
            if seq_has_key(s, k) {
                let i = choose|i: int| 0 <= i < s.len() && s[i].0@ == k;
                assert(t[i].0@ == k);
                assert(seq_has_key(t, k));
            }
        }
    }
    assert forall|k: Seq<u8>| assoc_view(t).contains_key(k) implies #[trigger] assoc_view(t)[k]
        == assoc_view(s).insert(e.0@, e.1@)[k] by {
        if k == e.0@ {
            lemma_key_index_unique(t, s.len() as int);
        } else {
            let i = choose|i: int| 0 <= i < t.len() && t[i].0@ == k;
            assert(i < s.len());
            assert(s[i].0@ == k);
            lemma_key_index_unique(t, i);
            lemma_key_index_unique(s, i);
        }
    }
    assert(assoc_view(t) =~= assoc_view(s).insert(e.0@, e.1@));
}

/// Removing the entry carrying a key removes that key from the map.
proof fn lemma_assoc_remove(s: Seq<(Vec<u8>, Vec<u8>)>, i: int)
    requires
        unique_keys(s),
        0 <= i < s.len(),
    ensures
        unique_keys(s.remove(i)),
        assoc_view(s.remove(i)) == assoc_view(s).remove(s[i].0@),
{
    let t = s.remove(i);
    let k0 = s[i].0@;
    assert forall|a: int, b: int| 0 <= a < b < t.len() implies t[a].0@ != t[b].0@ by {
        let a2: int = if a < i {
            a
        } else {
            a + 1
        };
        let b2: int = if b < i {
            b
        } else {
            b + 1
        };
        assert(t[a] == s[a2]);
        assert(t[b] == s[b2]);
    }
    assert forall|k: Seq<u8>| true implies #[trigger] seq_has_key(t, k) == (seq_has_key(s, k) && k
        != k0) by {
        if seq_has_key(t, k) {
            let a = choose|a: int| 0 <= a < t.len() && t[a].0@ == k;
            let a2: int = if a < i {
                a
            } else {
                a + 1
            };
            assert(t[a] == s[a2]);
            assert(seq_has_key(s, k));
            if k == k0 {
                lemma_key_index_unique(s, a2);
                lemma_key_index_unique(s, i);
            }
        }
        if seq_has_key(s, k) && k != k0 {
            let a = choose|a: int| 0 <= a < s.len() && s[a].0@ == k;
            if a < i {
                assert(t[a] == s[a]);
                assert(seq_has_key(t, k));
            } else {
                assert(a != i);
                assert(t[a - 1] == s[a]);
                assert(seq_has_key(t, k));
            }
        }
    }
    assert forall|k: Seq<u8>| seq_has_key(t, k) implies #[trigger] assoc_view(t)[k]
        == assoc_view(s)[k] by {
        let a = seq_key_index(t, k);
        assert(0 <= a < t.len() && t[a].0@ == k);
        let a2: int = if a < i {
            a
        } else {
            a + 1
        };
        assert(t[a] == s[a2]);
        lemma_key_index_unique(s, a2);
    }
    assert(assoc_view(t) =~= assoc_view(s).remove(k0));
}

/// The map of a unique-keyed sequence has one key per entry.
proof fn lemma_assoc_len(s: Seq<(Vec<u8>, Vec<u8>)>)
    requires
        unique_keys(s),
    ensures
        assoc_view(s).dom().finite(),
        assoc_view(s).dom().len() == s.len(),
    decreases s.len(),
{
    if s.len() == 0 {
        assert(assoc_view(s).dom() =~= Set::<Seq<u8>>::empty());
    } else {
        let pre = s.drop_last();
        let e = s.last();
        assert(unique_keys(pre)) by {
            assert forall|i: int, j: int| 0 <= i < j < pre.len() implies pre[i].0@ != pre[j].0@ by {
                assert(pre[i] == s[i]);
                assert(pre[j] == s[j]);
            }
        }
        assert(!seq_has_key(pre, e.0@)) by {
            if seq_has_key(pre, e.0@) {
                let i = choose|i: int| 0 <= i < pre.len() && pre[i].0@ == e.0@;
                assert(s[i].0@ == s[s.len() - 1].0@);
            }
        }
        lemma_assoc_len(pre);
        assert(s =~= pre.push(e));
        lemma_assoc_push(pre, e);
        assert(assoc_view(s).dom() =~= assoc_view(pre).dom().insert(e.0@));
    }
}

/// Dropping the last entry drops its bytes from the total.
proof fn lemma_byte_size_push(s: Seq<(Vec<u8>, Vec<u8>)>, e: (Vec<u8>, Vec<u8>))
    ensures
        seq_byte_size(s.push(e)) == seq_byte_size(s) + e.0@.len() + e.1@.len(),
{
    let t = s.push(e);
    assert(t.drop_last() =~= s);
    assert(t.last() == e);
}

/// Reports whether two byte vectors hold the same bytes.
pub fn bytes_eq(a: &Vec<u8>, b: &Vec<u8>) -> (r: bool)
    ensures
        r == (a@ == b@),
{
    if a.len() != b.len() {
        return false;
    }
    let mut i: usize = 0;
    while i < a.len()
        invariant
            i <= a.len(),
            a@.len() == b@.len(),
            forall|j: int| 0 <= j < i ==> a@[j] == b@[j],
        decreases a.len() - i,
    {
        if a[i] != b[i] {
            return false;
        }
        i = i + 1;
    }
    proof {
        assert(a@ =~= b@);
    }
    true
}

/// A set of keys to remove in one atomic unit.
pub struct DeleteBatch {
    keys: Vec<Vec<u8>>,
}

impl View for DeleteBatch {
    type V = Seq<Seq<u8>>;

    closed spec fn view(&self) -> Seq<Seq<u8>> {
        self.keys.deep_view()
    }
}

impl DeleteBatch {
    /// An empty batch.
    pub fn new() -> (r: DeleteBatch)
        ensures
            r@ == Seq::<Seq<u8>>::empty(),
    {
        let r = DeleteBatch { keys: Vec::new() };
        proof {
            assert(r@ =~= Seq::<Seq<u8>>::empty());
        }
        r
    }

    /// Records one key to delete.
    pub fn delete(&mut self, key: Vec<u8>)
        ensures
            final(self)@ == old(self)@.push(key@),
    {
        let ghost pre = self.keys@;
        self.keys.push(key);
        proof {
            assert forall|k: int| 0 <= k < self.keys@.len() implies self.keys.deep_view()[k]
                == old(self)@.push(key@)[k] by {
                if k < pre.len() {
                    assert(self.keys@[k] == pre[k]);
                } else {
                    assert(self.keys@[k] == key);
                }
            }
            assert(self.keys.deep_view() =~= old(self)@.push(key@));
        }
    }
}

/// The byte table. Entry keys are unique; the logical content is the
/// association of each key with its stored bytes.
pub struct ByteTable {
    entries: Vec<(Vec<u8>, Vec<u8>)>,
}

impl View for ByteTable {
    type V = Map<Seq<u8>, Seq<u8>>;

    closed spec fn view(&self) -> Map<Seq<u8>, Seq<u8>> {
        assoc_view(self.entries@)
    }
}

impl ByteTable {
    /// The table's structural invariant: entries in strictly ascending
    /// lexicographic key order, as an ordered-key store's forward scan
    /// yields them (keys are therefore unique).
    pub closed spec fn wf(self) -> bool {
        sorted_keys(self.entries@)
    }

    /// Total bytes held: key length plus value length over every entry.
    pub closed spec fn byte_size(self) -> int {
        seq_byte_size(self.entries@)
    }

    /// An empty table.
    pub fn new() -> (r: ByteTable)
        ensures
            r.wf(),
            r@ == Map::<Seq<u8>, Seq<u8>>::empty(),
            r.byte_size() == 0,
    {
        let r = ByteTable { entries: Vec::new() };
        proof {
            assert(r@ =~= Map::<Seq<u8>, Seq<u8>>::empty());
        }
        r
    }

    fn find(&self, key: &Vec<u8>) -> (r: Option<usize>)
        ensures
            match r {
                Some(i) => i < self.entries@.len() && self.entries@[i as int].0@ == key@,
                None => !seq_has_key(self.entries@, key@),
            },
    {
        let mut i: usize = 0;
        while i < self.entries.len()
            invariant
                i <= self.entries@.len(),
                forall|j: int| 0 <= j < i ==> self.entries@[j].0@ != key@,
            decreases self.entries@.len() - i,
        {
            if bytes_eq(&self.entries[i].0, key) {
                return Some(i);
            }
            i = i + 1;
        }
        None
    }

    /// Looks the key up; no side effect.
    pub fn get(&self, key: &Vec<u8>) -> (r: Option<&Vec<u8>>)
        requires
            self.wf(),
        ensures
            match r {
                Some(v) => self@.contains_key(key@) && v@ == self@[key@],
                None => !self@.contains_key(key@),
            },
    {
        proof {
            lemma_sorted_implies_unique(self.entries@);
        }
        match self.find(key) {
            Some(i) => {
                proof {
                    lemma_key_index_unique(self.entries@, i as int);
                }
                Some(&self.entries[i].1)
            },
            None => None,
        }
    }

    /// Inserts or replaces, at the key's position in the order; returns
    /// the bytes previously stored at the key, if any.
    pub fn put(&mut self, key: Vec<u8>, value: Vec<u8>) -> (r: Option<Vec<u8>>)
        requires
            old(self).wf(),
        ensures
            final(self).wf(),
            final(self)@ == old(self)@.insert(key@, value@),
            final(self).byte_size() == old(self).byte_size() + key@.len() + value@.len() - (
            if old(self)@.contains_key(key@) {
                key@.len() + old(self)@[key@].len()
            } else {
                0
            }),
            match r {
                Some(p) => old(self)@.contains_key(key@) && p@ == old(self)@[key@],
                None => !old(self)@.contains_key(key@),
            },
    {
        proof {
            lemma_sorted_implies_unique(self.entries@);
        }
        let ghost pre = self.entries@;
        let mut pos: usize = 0;
        while pos < self.entries.len() && lex_less(&self.entries[pos].0, &key)
            invariant
                pos <= self.entries@.len(),
                self.entries@ == pre,
                forall|t: int| 0 <= t < pos ==> lex_lt(#[trigger] pre[t].0@, key@),
            decreases self.entries@.len() - pos,
        {
            pos = pos + 1;
        }
        if pos < self.entries.len() && bytes_eq(&self.entries[pos].0, &key) {
            proof {
                lemma_key_index_unique(pre, pos as int);
            }
            let prev = clone_bytes(&self.entries[pos].1);
            let ghost e = (key, value);
            self.entries[pos] = (key, value);
            proof {
                assert(self.entries@ == pre.update(pos as int, e));
                lemma_sorted_update_same_key(pre, pos as int, e);
                lemma_assoc_update(pre, pos as int, e);
                lemma_byte_size_update(pre, pos as int, e);
            }
            Some(prev)
        } else {
            proof {
                assert forall|t: int| pos <= t < pre.len() implies lex_lt(
                    key@,
                    #[trigger] pre[t].0@,
                ) by {
                    lemma_lex_total(pre[pos as int].0@, key@);
                    if t > pos {
                        lemma_lex_transitive(key@, pre[pos as int].0@, pre[t].0@);
                    }
                }
                assert(!seq_has_key(pre, key@)) by {
                    if seq_has_key(pre, key@) {
                        let t = choose|t: int| 0 <= t < pre.len() && pre[t].0@ == key@;
                        lemma_lex_irreflexive(key@);
                        if t < pos {
                            assert(lex_lt(pre[t].0@, key@));
                        } else {
                            assert(lex_lt(key@, pre[t].0@));
                        }
                    }
                }
            }
            let ghost e = (key, value);
            self.entries.insert(pos, (key, value));
            proof {
                assert(self.entries@ == pre.insert(pos as int, e));
                lemma_sorted_insert_at(pre, pos as int, e);
                lemma_assoc_insert_at(pre, pos as int, e);
                lemma_byte_size_insert(pre, pos as int, e);
            }
            None
        }
    }

    /// Removes the key if present; returns what was removed.
    pub fn delete(&mut self, key: &Vec<u8>) -> (r: Option<Vec<u8>>)
        requires
            old(self).wf(),
        ensures
            final(self).wf(),
            final(self)@ == old(self)@.remove(key@),
            final(self).byte_size() == old(self).byte_size() - (
            if old(self)@.contains_key(key@) {
                key@.len() + old(self)@[key@].len()
            } else {
                0
            }),
            match r {
                Some(p) => old(self)@.contains_key(key@) && p@ == old(self)@[key@],
                None => !old(self)@.contains_key(key@),
            },
    {
        proof {
            lemma_sorted_implies_unique(self.entries@);
        }
        let ghost pre = self.entries@;
        match self.find(key) {
            Some(i) => {
                proof {
                    lemma_key_index_unique(pre, i as int);
                }
                let old_pair = self.entries.remove(i);
                proof {
                    lemma_sorted_remove(pre, i as int);
                    lemma_assoc_remove(pre, i as int);
                    lemma_byte_size_remove(pre, i as int);
                }
                Some(old_pair.1)
            },
            None => {
                proof {
                    assert(old(self)@.remove(key@) =~= old(self)@);
                }
                None
            },
        }
    }

    /// The number of entries held.
    pub fn len(&self) -> (r: usize)
        requires
            self.wf(),
        ensures
            r == self@.dom().len(),
    {
        proof {
            lemma_sorted_implies_unique(self.entries@);
            lemma_assoc_len(self.entries@);
        }
        self.entries.len()
    }

    /// A borrowed forward scan over every entry, in ascending key order.
    pub fn entries(&self) -> (r: &Vec<(Vec<u8>, Vec<u8>)>)
        requires
            self.wf(),
        ensures
            sorted_keys(r@),
            unique_keys(r@),
            r@.len() == self@.dom().len(),
            forall|i: int| 0 <= i < r@.len() ==> self@.contains_key(#[trigger] r@[i].0@)
                && self@[r@[i].0@] == r@[i].1@,
            forall|k: Seq<u8>| #[trigger] self@.contains_key(k) ==> seq_has_key(r@, k),
            seq_byte_size(r@) == self.byte_size(),
    {
        proof {
            lemma_sorted_implies_unique(self.entries@);
            lemma_assoc_len(self.entries@);
            assert forall|i: int| 0 <= i < self.entries@.len() implies self@.contains_key(
                #[trigger] self.entries@[i].0@,
            ) && self@[self.entries@[i].0@] == self.entries@[i].1@ by {
                lemma_key_index_unique(self.entries@, i);
            }
        }
        &self.entries
    }

    /// Applies every delete in the batch as one unit.
    pub fn write(&mut self, batch: DeleteBatch)
        requires
            old(self).wf(),
        ensures
            final(self).wf(),
            final(self)@ == old(self)@.remove_keys(batch@.to_set()),
    {
        let ghost all = batch@;
        let mut t: usize = 0;
        proof {
            assert(self@ =~= old(self)@.remove_keys(all.take(0).to_set()));
        }
        while t < batch.keys.len()
            invariant
                t <= batch.keys@.len(),
                batch@ == all,
                batch@.len() == batch.keys@.len(),
                self.wf(),
                self@ == old(self)@.remove_keys(all.take(t as int).to_set()),
            decreases batch.keys@.len() - t,
        {
            let _ = self.delete(&batch.keys[t]);
            proof {
                assert(all[t as int] == batch.keys@[t as int].deep_view());
                assert(batch.keys@[t as int].deep_view() =~= batch.keys@[t as int]@);
                let s0 = all.take(t as int);
                let s1 = all.take(t as int + 1);
                assert(s1 =~= s0.push(all[t as int]));
                assert forall|e: Seq<u8>| true implies s1.to_set().contains(e) == s0.to_set().insert(
                    all[t as int],
                ).contains(e) by {
                    if s1.contains(e) {
                        let i = choose|i: int| 0 <= i < s1.len() && s1[i] == e;
                        if i < t as int {
                            assert(s0[i] == e);
                            assert(s0.contains(e));
                        } else {
                            assert(e == all[t as int]);
                        }
                    }
                    if s0.contains(e) {
                        let i = choose|i: int| 0 <= i < s0.len() && s0[i] == e;
                        assert(s1[i] == e);
                        assert(s1.contains(e));
                    }
                    if e == all[t as int] {
                        assert(s1[t as int] == e);
                        assert(s1.contains(e));
                    }
                }
                assert(s1.to_set() =~= s0.to_set().insert(all[t as int]));
                assert(self@ =~= old(self)@.remove_keys(s1.to_set()));
            }
            t = t + 1;
        }
        proof {
            assert(all.take(all.len() as int) =~= all);
        }
    }

    /// A table holding no entries holds no bytes.
    pub proof fn lemma_empty_byte_size(self)
        requires
            self@ == Map::<Seq<u8>, Seq<u8>>::empty(),
        ensures
            self.byte_size() == 0,
    {
        if self.entries@.len() > 0 {
            assert(seq_has_key(self.entries@, self.entries@[0].0@));
            assert(self@.contains_key(self.entries@[0].0@));
        }
    }

    /// Reclaims any internal slack; the content is unchanged. Storage in
    /// this table is exact, so there is nothing to rewrite.
    pub fn compact(&mut self)
        ensures
            final(self).wf() == old(self).wf(),
            final(self)@ == old(self)@,
            final(self).byte_size() == old(self).byte_size(),
    {
    }

    /// Total bytes held, saturating at the largest 64-bit count.
    pub fn total_bytes(&self) -> (r: u64)
        requires
            self.wf(),
        ensures
            r as int == if self.byte_size() <= u64::MAX as int {
                self.byte_size()
            } else {
                u64::MAX as int
            },
    {
        let mut size: u64 = 0;
        let mut i: usize = 0;
        proof {
            assert(self.entries@.take(0) =~= Seq::<(Vec<u8>, Vec<u8>)>::empty());
        }
        while i < self.entries.len()
            invariant
                i <= self.entries@.len(),
                size as int == if seq_byte_size(self.entries@.take(i as int)) <= u64::MAX as int {
                    seq_byte_size(self.entries@.take(i as int))
                } else {
                    u64::MAX as int
                },
                seq_byte_size(self.entries@.take(i as int)) >= 0,
            decreases self.entries@.len() - i,
        {
            proof {
                assert(self.entries@.take(i as int + 1) =~= self.entries@.take(i as int).push(
                    self.entries@[i as int],
                ));
                lemma_byte_size_push(self.entries@.take(i as int), self.entries@[i as int]);
            }
            let klen: usize = self.entries[i].0.len();
            let vlen: usize = self.entries[i].1.len();
            size = saturating_add_u64(size, klen as u64);
            size = saturating_add_u64(size, vlen as u64);
            i = i + 1;
        }
        proof {
            assert(self.entries@.take(self.entries@.len() as int) =~= self.entries@);
        }
        size
    }
}

/// Addition on 64-bit counters that stops at the maximum.
fn saturating_add_u64(a: u64, b: u64) -> (r: u64)
    ensures
        r as int == if a as int + b as int <= u64::MAX as int {
            a as int + b as int
        } else {
            u64::MAX as int
        },
{
    if u64::MAX - a < b {
        u64::MAX
    } else {
        a + b
    }
}

} // verus!
