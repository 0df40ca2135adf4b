//! The store's cross-operation laws, stated over the backend models that
//! the operations' own contracts use: the byte map of the persistent
//! backend and the envelope map of the volatile one.
use vstd::prelude::*;

use crate::envelope::{ValueModel, spec_encode, spec_decode, valid_model,
    lemma_encode_decode_round_trip};
use crate::keybytes::u64_be_bytes;

verus! {

/// Put-then-get: after storing `v` at `k`, the byte map holds the key
/// and its bytes decode back to exactly `v`; a following lookup returns
/// `Some(v)`.
pub proof fn lemma_put_then_get(m: Map<Seq<u8>, Seq<u8>>, k: u64, v: ValueModel)
    requires
        valid_model(v),
    ensures
        ({
            let m2 = m.insert(u64_be_bytes(k), spec_encode(v));
            m2.contains_key(u64_be_bytes(k)) && spec_decode(m2[u64_be_bytes(k)]) == Some(v)
        }),
{
    lemma_encode_decode_round_trip(v);
}

/// Replace semantics: storing `v1` then `v2` at the same key makes the
/// second store see exactly `v1` as the prior value, and a following
/// lookup returns exactly `v2` — never both, never neither.
pub proof fn lemma_replace(m: Map<Seq<u8>, Seq<u8>>, k: u64, v1: ValueModel, v2: ValueModel)
    requires
        valid_model(v1),
        valid_model(v2),
    ensures
        ({
            let kb = u64_be_bytes(k);
            let m1 = m.insert(kb, spec_encode(v1));
            let m2 = m1.insert(kb, spec_encode(v2));
            &&& m1.contains_key(kb) && spec_decode(m1[kb]) == Some(v1)
            &&& m2.contains_key(kb) && spec_decode(m2[kb]) == Some(v2)
        }),
{
    lemma_encode_decode_round_trip(v1);
    lemma_encode_decode_round_trip(v2);
}

/// Delete-absent idempotence: removing a key that is not present leaves
/// the map — and with it the entry count — unchanged.
pub proof fn lemma_delete_absent(m: Map<Seq<u8>, Seq<u8>>, k: u64)
    requires
        !m.contains_key(u64_be_bytes(k)),
    ensures
        m.remove(u64_be_bytes(k)) == m,
{
    assert(m.remove(u64_be_bytes(k)) =~= m);
}

/// One element appended to a sequence joins its set.
pub(crate) proof fn lemma_push_to_set<A>(s: Seq<A>, x: A)
    ensures
        s.push(x).to_set() == s.to_set().insert(x),
{
    let t = s.push(x);
    assert forall|e: A| true implies t.to_set().contains(e) == s.to_set().insert(x).contains(
        e,
    ) by {
        if t.contains(e) {
            let i = choose|i: int| 0 <= i < t.len() && t[i] == e;
            if i < s.len() {
                assert(s[i] == e);
                assert(s.contains(e));
            } else {
                assert(e == x);
            }
        }
        if s.contains(e) {
            let i = choose|i: int| 0 <= i < s.len() && s[i] == e;
            assert(t[i] == e);
            assert(t.contains(e));
        }
        if e == x {
            assert(t[s.len() as int] == e);
            assert(t.contains(e));
        }
    }
    assert(t.to_set() =~= s.to_set().insert(x));
}

/// The byte encodings of a duplicate-free key list form a set with one
/// element per key.
proof fn lemma_be_image_card(ks: Seq<u64>)
    requires
        ks.no_duplicates(),
    ensures
        ks.map_values(|k: u64| u64_be_bytes(k)).to_set().finite(),
        ks.map_values(|k: u64| u64_be_bytes(k)).to_set().len() == ks.len(),
    decreases ks.len(),
{
    let f = |k: u64| u64_be_bytes(k);
    if ks.len() == 0 {
        assert(ks.map_values(f).to_set() =~= Set::<Seq<u8>>::empty());
    } else {
        let pre = ks.drop_last();
        let x = ks.last();
        lemma_be_image_card(pre);
        assert(ks.map_values(f) =~= pre.map_values(f).push(f(x)));
        lemma_push_to_set(pre.map_values(f), f(x));
        assert(!pre.map_values(f).to_set().contains(f(x))) by {
            if pre.map_values(f).contains(f(x)) {
                let i = choose|i: int| 0 <= i < pre.len() && pre.map_values(f)[i] == f(x);
                crate::keybytes::lemma_key_encoding_injective(pre[i], x);
                assert(ks[i] == ks[ks.len() - 1]);
            }
        }
    }
}

/// Enumeration completeness: when a store's byte map holds exactly the
/// encodings of `n` distinct keys, enumeration finds each of those keys,
/// no key twice, and the entry count is exactly `n`.
pub proof fn lemma_enumeration(m: Map<Seq<u8>, Seq<u8>>, ks: Seq<u64>)
    requires
        ks.no_duplicates(),
        m.dom() == ks.map_values(|k: u64| u64_be_bytes(k)).to_set(),
    ensures
        m.dom().len() == ks.len(),
        forall|k: u64| m.contains_key(u64_be_bytes(k)) <==> ks.contains(k),
    decreases ks.len(),
{
    let f = |k: u64| u64_be_bytes(k);
    lemma_be_image_card(ks);
    assert forall|k: u64| m.contains_key(u64_be_bytes(k)) <==> ks.contains(k) by {
        if m.contains_key(u64_be_bytes(k)) {
            assert(ks.map_values(f).contains(u64_be_bytes(k)));
            let i = choose|i: int| 0 <= i < ks.len() && ks.map_values(f)[i] == u64_be_bytes(k);
            crate::keybytes::lemma_key_encoding_injective(ks[i], k);
            assert(ks[i] == k);
            assert(ks.contains(k));
        }
        if ks.contains(k) {
            let i = choose|i: int| 0 <= i < ks.len() && ks[i] == k;
            assert(ks.map_values(f)[i] == u64_be_bytes(k));
            assert(ks.map_values(f).contains(u64_be_bytes(k)));
        }
    }
}

/// Clear atomicity: the empty map holds no key, and its entry count is
/// zero — so after a clear, every lookup reports absent and the length
/// reads zero.
pub proof fn lemma_clear_empty(k: u64)
    ensures
        !Map::<Seq<u8>, Seq<u8>>::empty().contains_key(u64_be_bytes(k)),
        Map::<Seq<u8>, Seq<u8>>::empty().dom().len() == 0,
{
    assert(Map::<Seq<u8>, Seq<u8>>::empty().dom() =~= Set::<Seq<u8>>::empty());
}

/// Put-then-get on the volatile backend: after storing `v` at `u`, the
/// envelope map holds exactly `v` at `u`.
pub proof fn lemma_volatile_put_then_get(m: Map<u128, ValueModel>, u: u128, v: ValueModel)
    ensures
        m.insert(u, v).contains_key(u),
        m.insert(u, v)[u] == v,
{
}

} // verus!

