//! Fixed-width key encoding: a 64-bit key as 8 big-endian bytes, so that
//! lexicographic byte order over stored keys equals numeric key order.
use vstd::prelude::*;

verus! {

/// The 8 big-endian bytes of a 64-bit key.
pub open spec fn u64_be_bytes(k: u64) -> Seq<u8> {
    seq![
        (k >> 56) as u8,
        (k >> 48) as u8,
        (k >> 40) as u8,
        (k >> 32) as u8,
        (k >> 24) as u8,
        (k >> 16) as u8,
        (k >> 8) as u8,
        k as u8,
    ]
}

/// The 64-bit key read back from 8 big-endian bytes.
pub open spec fn be_bytes_to_u64(s: Seq<u8>) -> u64 {
    ((s[0] as u64) << 56) | ((s[1] as u64) << 48) | ((s[2] as u64) << 40) | ((s[3] as u64) << 32)
        | ((s[4] as u64) << 24) | ((s[5] as u64) << 16) | ((s[6] as u64) << 8) | (s[7] as u64)
}

/// Decoding the 8 big-endian bytes of a key gives the key back.
pub proof fn lemma_key_round_trip(k: u64)
    ensures
        be_bytes_to_u64(u64_be_bytes(k)) == k,
{
    let s = u64_be_bytes(k);
    assert(((((k >> 56) as u8) as u64) << 56) | ((((k >> 48) as u8) as u64) << 48)
        | ((((k >> 40) as u8) as u64) << 40) | ((((k >> 32) as u8) as u64) << 32)
        | ((((k >> 24) as u8) as u64) << 24) | ((((k >> 16) as u8) as u64) << 16)
        | ((((k >> 8) as u8) as u64) << 8) | ((k as u8) as u64) == k) by (bit_vector);
}

/// Re-encoding the key read from any 8 bytes gives those bytes back.
pub proof fn lemma_bytes_round_trip(s: Seq<u8>)
    requires
        s.len() == 8,
    ensures
        u64_be_bytes(be_bytes_to_u64(s)) == s,
{
    let b0 = s[0];
    let b1 = s[1];
    let b2 = s[2];
    let b3 = s[3];
    let b4 = s[4];
    let b5 = s[5];
    let b6 = s[6];
    let b7 = s[7];
    let k = ((b0 as u64) << 56) | ((b1 as u64) << 48) | ((b2 as u64) << 40) | ((b3 as u64) << 32)
        | ((b4 as u64) << 24) | ((b5 as u64) << 16) | ((b6 as u64) << 8) | (b7 as u64);
    assert((k >> 56) as u8 == b0 && (k >> 48) as u8 == b1 && (k >> 40) as u8 == b2 && (k >> 32)
        as u8 == b3 && (k >> 24) as u8 == b4 && (k >> 16) as u8 == b5 && (k >> 8) as u8 == b6 && k
        as u8 == b7) by (bit_vector)
        requires
            k == ((b0 as u64) << 56) | ((b1 as u64) << 48) | ((b2 as u64) << 40) | ((b3 as u64)
                << 32) | ((b4 as u64) << 24) | ((b5 as u64) << 16) | ((b6 as u64) << 8) | (b7
                as u64),
    ;
    assert(u64_be_bytes(be_bytes_to_u64(s)) =~= s);
}

/// Two distinct keys never share a byte encoding.
pub proof fn lemma_key_encoding_injective(a: u64, b: u64)
    requires
        u64_be_bytes(a) == u64_be_bytes(b),
    ensures
        a == b,
{
    lemma_key_round_trip(a);
    lemma_key_round_trip(b);
}

/// Lexicographic order on byte sequences: a proper prefix comes first,
/// otherwise the first differing byte decides.
pub open spec fn lex_lt(a: Seq<u8>, b: Seq<u8>) -> bool
    decreases a.len(),
{
    if b.len() == 0 {
        false
    } else if a.len() == 0 {
        true
    } else if a[0] < b[0] {
        true
    } else if a[0] > b[0] {
        false
    } else {
        lex_lt(a.drop_first(), b.drop_first())
    }
}

/// No byte sequence precedes itself.
pub proof fn lemma_lex_irreflexive(a: Seq<u8>)
    ensures
        !lex_lt(a, a),
    decreases a.len(),
{
    if a.len() > 0 {
        lemma_lex_irreflexive(a.drop_first());
    }
}

/// Any two byte sequences compare: below, above, or equal.
pub proof fn lemma_lex_total(a: Seq<u8>, b: Seq<u8>)
    ensures
        lex_lt(a, b) || lex_lt(b, a) || a == b,
    decreases a.len(),
{
    if a.len() == 0 && b.len() == 0 {
        assert(a =~= b);
    } else if a.len() > 0 && b.len() > 0 {
        if a[0] == b[0] {
            lemma_lex_total(a.drop_first(), b.drop_first());
            if a.drop_first() == b.drop_first() {
                assert(a.drop_first().len() == a.len() - 1);
                assert(b.drop_first().len() == b.len() - 1);
                assert(a.len() == b.len());
                assert forall|t: int| 0 <= t < a.len() implies a[t] == b[t] by {
                    if t > 0 {
                        assert(a.drop_first()[t - 1] == a[t]);
                        assert(b.drop_first()[t - 1] == b[t]);
                    }
                }
                assert(a =~= b);
            }
        }
    }
}

/// The order is transitive.
pub proof fn lemma_lex_transitive(a: Seq<u8>, b: Seq<u8>, c: Seq<u8>)
    requires
        lex_lt(a, b),
        lex_lt(b, c),
    ensures
        lex_lt(a, c),
    decreases a.len(),
{
    if a.len() > 0 {
        if a[0] == b[0] && b[0] == c[0] {
            lemma_lex_transitive(a.drop_first(), b.drop_first(), c.drop_first());
        }
    }
}

/// Equal prefixes do not decide the order: it is settled by the rests.
proof fn lemma_lex_common_prefix(a: Seq<u8>, b: Seq<u8>, i: int)
    requires
        0 <= i <= a.len(),
        i <= b.len(),
        forall|t: int| 0 <= t < i ==> a[t] == b[t],
    ensures
        lex_lt(a, b) == lex_lt(a.skip(i), b.skip(i)),
    decreases i,
{
    if i == 0 {
        assert(a.skip(0) =~= a);
        assert(b.skip(0) =~= b);
    } else {
        assert(a[0] == b[0]);
        assert(a.drop_first() =~= a.skip(1));
        assert(b.drop_first() =~= b.skip(1));
        lemma_lex_common_prefix(a.skip(1), b.skip(1), i - 1);
        assert(a.skip(1).skip(i - 1) =~= a.skip(i));
        assert(b.skip(1).skip(i - 1) =~= b.skip(i));
    }
}

/// Compares two byte vectors in lexicographic order.
pub fn lex_less(a: &Vec<u8>, b: &Vec<u8>) -> (r: bool)
    ensures
        r == lex_lt(a@, b@),
{
    let mut i: usize = 0;
    while i < a.len() && i < b.len()
        invariant
            i <= a.len(),
            i <= b.len(),
            forall|t: int| 0 <= t < i ==> a@[t] == b@[t],
        decreases a.len() - i,
    {
        proof {
            lemma_lex_common_prefix(a@, b@, i as int);
        }
        if a[i] < b[i] {
            proof {
                assert(a@.skip(i as int)[0] == a@[i as int]);
                assert(b@.skip(i as int)[0] == b@[i as int]);
            }
            return true;
        }
        if a[i] > b[i] {
            proof {
                assert(a@.skip(i as int)[0] == a@[i as int]);
                assert(b@.skip(i as int)[0] == b@[i as int]);
            }
            return false;
        }
        i = i + 1;
    }
    proof {
        lemma_lex_common_prefix(a@, b@, i as int);
    }
    a.len() < b.len()
}

/// Big-endian encoding makes lexicographic order over stored keys equal
/// to numeric order, so a forward scan of the table walks keys in
/// ascending numeric order.
pub proof fn lemma_key_order_is_numeric(j: u64, k: u64)
    ensures
        lex_lt(u64_be_bytes(j), u64_be_bytes(k)) <==> j < k,
{
    let a = u64_be_bytes(j);
    let b = u64_be_bytes(k);
    let a1 = a.drop_first();
    let b1 = b.drop_first();
    let a2 = a1.drop_first();
    let b2 = b1.drop_first();
    let a3 = a2.drop_first();
    let b3 = b2.drop_first();
    let a4 = a3.drop_first();
    let b4 = b3.drop_first();
    let a5 = a4.drop_first();
    let b5 = b4.drop_first();
    let a6 = a5.drop_first();
    let b6 = b5.drop_first();
    let a7 = a6.drop_first();
    let b7 = b6.drop_first();
    let a8 = a7.drop_first();
    let b8 = b7.drop_first();
    assert(a8.len() == 0 && b8.len() == 0);
    assert(!lex_lt(a8, b8));
    let l = (a[0] < b[0] || (a[0] == b[0] && (a[1] < b[1] || (a[1] == b[1] && (a[2] < b[2] || (a[2]
        == b[2] && (a[3] < b[3] || (a[3] == b[3] && (a[4] < b[4] || (a[4] == b[4] && (a[5] < b[5]
        || (a[5] == b[5] && (a[6] < b[6] || (a[6] == b[6] && a[7] < b[7]))))))))))))));
    assert(lex_lt(a7, b7) == (a[7] < b[7])) by {
        assert(a7[0] == a[7] && b7[0] == b[7]);
    }
    assert(lex_lt(a6, b6) == (a[6] < b[6] || (a[6] == b[6] && lex_lt(a7, b7)))) by {
        assert(a6[0] == a[6] && b6[0] == b[6]);
    }
    assert(lex_lt(a5, b5) == (a[5] < b[5] || (a[5] == b[5] && lex_lt(a6, b6)))) by {
        assert(a5[0] == a[5] && b5[0] == b[5]);
    }
    assert(lex_lt(a4, b4) == (a[4] < b[4] || (a[4] == b[4] && lex_lt(a5, b5)))) by {
        assert(a4[0] == a[4] && b4[0] == b[4]);
    }
    assert(lex_lt(a3, b3) == (a[3] < b[3] || (a[3] == b[3] && lex_lt(a4, b4)))) by {
        assert(a3[0] == a[3] && b3[0] == b[3]);
    }
    assert(lex_lt(a2, b2) == (a[2] < b[2] || (a[2] == b[2] && lex_lt(a3, b3)))) by {
        assert(a2[0] == a[2] && b2[0] == b[2]);
    }
    assert(lex_lt(a1, b1) == (a[1] < b[1] || (a[1] == b[1] && lex_lt(a2, b2)))) by {
        assert(a1[0] == a[1] && b1[0] == b[1]);
    }
    assert(lex_lt(a, b) == l);
    let d0 = ((j >> 56) as u8) < ((k >> 56) as u8);
    let e0 = (j >> 56) as u8 == (k >> 56) as u8;
    let d1 = ((j >> 48) as u8) < ((k >> 48) as u8);
    let e1 = (j >> 48) as u8 == (k >> 48) as u8;
    let d2 = ((j >> 40) as u8) < ((k >> 40) as u8);
    let e2 = (j >> 40) as u8 == (k >> 40) as u8;
    let d3 = ((j >> 32) as u8) < ((k >> 32) as u8);
    let e3 = (j >> 32) as u8 == (k >> 32) as u8;
    let d4 = ((j >> 24) as u8) < ((k >> 24) as u8);
    let e4 = (j >> 24) as u8 == (k >> 24) as u8;
    let d5 = ((j >> 16) as u8) < ((k >> 16) as u8);
    let e5 = (j >> 16) as u8 == (k >> 16) as u8;
    let d6 = ((j >> 8) as u8) < ((k >> 8) as u8);
    let e6 = (j >> 8) as u8 == (k >> 8) as u8;
    let d7 = (j as u8) < (k as u8);
    let flat = d0 || (e0 && d1) || (e0 && e1 && d2) || (e0 && e1 && e2 && d3) || (e0 && e1 && e2
        && e3 && d4) || (e0 && e1 && e2 && e3 && e4 && d5) || (e0 && e1 && e2 && e3 && e4 && e5
        && d6) || (e0 && e1 && e2 && e3 && e4 && e5 && e6 && d7);
    assert(l == flat);
    assert(((j >> 56) as u8) < ((k >> 56) as u8) ==> j < k) by (bit_vector);
    assert((j >> 56) as u8 == (k >> 56) as u8 && ((j >> 48) as u8) < ((k >> 48) as u8) ==> j
        < k) by (bit_vector);
    assert((j >> 56) as u8 == (k >> 56) as u8 && (j >> 48) as u8 == (k >> 48) as u8 && ((j >> 40)
        as u8) < ((k >> 40) as u8) ==> j < k) by (bit_vector);
    assert((j >> 56) as u8 == (k >> 56) as u8 && (j >> 48) as u8 == (k >> 48) as u8 && (j >> 40)
        as u8 == (k >> 40) as u8 && ((j >> 32) as u8) < ((k >> 32) as u8) ==> j < k) by (bit_vector);
    assert((j >> 56) as u8 == (k >> 56) as u8 && (j >> 48) as u8 == (k >> 48) as u8 && (j >> 40)
        as u8 == (k >> 40) as u8 && (j >> 32) as u8 == (k >> 32) as u8 && ((j >> 24) as u8) < ((k
        >> 24) as u8) ==> j < k) by (bit_vector);
    assert((j >> 56) as u8 == (k >> 56) as u8 && (j >> 48) as u8 == (k >> 48) as u8 && (j >> 40)
        as u8 == (k >> 40) as u8 && (j >> 32) as u8 == (k >> 32) as u8 && (j >> 24) as u8 == (k
        >> 24) as u8 && ((j >> 16) as u8) < ((k >> 16) as u8) ==> j < k) by (bit_vector);
    assert((j >> 56) as u8 == (k >> 56) as u8 && (j >> 48) as u8 == (k >> 48) as u8 && (j >> 40)
        as u8 == (k >> 40) as u8 && (j >> 32) as u8 == (k >> 32) as u8 && (j >> 24) as u8 == (k
        >> 24) as u8 && (j >> 16) as u8 == (k >> 16) as u8 && ((j >> 8) as u8) < ((k >> 8)
        as u8) ==> j < k) by (bit_vector);
    assert((j >> 56) as u8 == (k >> 56) as u8 && (j >> 48) as u8 == (k >> 48) as u8 && (j >> 40)
        as u8 == (k >> 40) as u8 && (j >> 32) as u8 == (k >> 32) as u8 && (j >> 24) as u8 == (k
        >> 24) as u8 && (j >> 16) as u8 == (k >> 16) as u8 && (j >> 8) as u8 == (k >> 8) as u8 && (
        j as u8) < (k as u8) ==> j < k) by (bit_vector);
    assert(j < k ==> flat) by {
        if j < k && !flat {
            assert(j >= k) by (bit_vector)
                requires
                    !(((j >> 56) as u8) < ((k >> 56) as u8)),
                    !((j >> 56) as u8 == (k >> 56) as u8) || !(((j >> 48) as u8) < ((k >> 48)
                        as u8)),
                    !((j >> 56) as u8 == (k >> 56) as u8 && (j >> 48) as u8 == (k >> 48) as u8)
                        || !(((j >> 40) as u8) < ((k >> 40) as u8)),
                    !((j >> 56) as u8 == (k >> 56) as u8 && (j >> 48) as u8 == (k >> 48) as u8 && (
                    j >> 40) as u8 == (k >> 40) as u8) || !(((j >> 32) as u8) < ((k >> 32) as u8)),
                    !((j >> 56) as u8 == (k >> 56) as u8 && (j >> 48) as u8 == (k >> 48) as u8 && (
                    j >> 40) as u8 == (k >> 40) as u8 && (j >> 32) as u8 == (k >> 32) as u8) || !((
                    (j >> 24) as u8) < ((k >> 24) as u8)),
                    !((j >> 56) as u8 == (k >> 56) as u8 && (j >> 48) as u8 == (k >> 48) as u8 && (
                    j >> 40) as u8 == (k >> 40) as u8 && (j >> 32) as u8 == (k >> 32) as u8 && (j
                        >> 24) as u8 == (k >> 24) as u8) || !(((j >> 16) as u8) < ((k >> 16)
                        as u8)),
                    !((j >> 56) as u8 == (k >> 56) as u8 && (j >> 48) as u8 == (k >> 48) as u8 && (
                    j >> 40) as u8 == (k >> 40) as u8 && (j >> 32) as u8 == (k >> 32) as u8 && (j
                        >> 24) as u8 == (k >> 24) as u8 && (j >> 16) as u8 == (k >> 16) as u8)
                        || !(((j >> 8) as u8) < ((k >> 8) as u8)),
                    !((j >> 56) as u8 == (k >> 56) as u8 && (j >> 48) as u8 == (k >> 48) as u8 && (
                    j >> 40) as u8 == (k >> 40) as u8 && (j >> 32) as u8 == (k >> 32) as u8 && (j
                        >> 24) as u8 == (k >> 24) as u8 && (j >> 16) as u8 == (k >> 16) as u8 && (j
                        >> 8) as u8 == (k >> 8) as u8) || !((j as u8) < (k as u8)),
            ;
        }
    }
}

/// Writes the 8 big-endian bytes of `k`.
pub fn encode_key(k: u64) -> (r: Vec<u8>)
    ensures
        r@ == u64_be_bytes(k),
{
    let mut out: Vec<u8> = Vec::new();
    out.push(#[verifier::truncate] ((k >> 56) as u8));
    out.push(#[verifier::truncate] ((k >> 48) as u8));
    out.push(#[verifier::truncate] ((k >> 40) as u8));
    out.push(#[verifier::truncate] ((k >> 32) as u8));
    out.push(#[verifier::truncate] ((k >> 24) as u8));
    out.push(#[verifier::truncate] ((k >> 16) as u8));
    out.push(#[verifier::truncate] ((k >> 8) as u8));
    out.push(#[verifier::truncate] (k as u8));
    proof {
        assert(out@ =~= u64_be_bytes(k));
    }
    out
}

/// Reads a 64-bit key from 8 big-endian bytes.
pub fn decode_key(bytes: &Vec<u8>) -> (r: u64)
    requires
        bytes@.len() == 8,
    ensures
        r == be_bytes_to_u64(bytes@),
{
    ((bytes[0] as u64) << 56) | ((bytes[1] as u64) << 48) | ((bytes[2] as u64) << 40) | ((bytes[3]
        as u64) << 32) | ((bytes[4] as u64) << 24) | ((bytes[5] as u64) << 16) | ((bytes[6] as u64)
        << 8) | (bytes[7] as u64)
}

} // verus!
