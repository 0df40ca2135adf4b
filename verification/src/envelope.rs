//! The value envelope: the self-describing record stored for one key
//! (tensor shape, element-type tag, two integrity fields, raw payload
//! chunks), with a deterministic byte encoding and its inverse.
//!
//! The store carries envelopes byte-for-byte and never interprets the
//! `size_check` and `key_check` fields: they are integrity hints for the
//! caller. Unknown element-type tags round-trip unchanged, so the format
//! is forward-extensible.
use vstd::prelude::*;

use crate::varint::{venc, vdec, parse_varint, encode_varint_into, lemma_varint_round_trip};

verus! {

/// Mathematical model of an envelope.
pub ghost struct ValueModel {
    pub shape: Seq<u64>,
    pub dtype: u32,
    pub size_check: u64,
    pub key_check: u64,
    pub data: Seq<Seq<u8>>,
}

/// Element-type tags with a defined meaning. The envelope stores the raw
/// tag, so tags outside this list are carried through unchanged.
#[derive(Debug, PartialEq, Eq, Clone, Copy)]
pub enum DataType {
    Fp64,
    Fp32,
    Int64,
    Int32,
}

impl DataType {
    pub open spec fn spec_tag(self) -> u32 {
        match self {
            DataType::Fp64 => 0,
            DataType::Fp32 => 1,
            DataType::Int64 => 2,
            DataType::Int32 => 3,
        }
    }

    /// The wire tag of this element type.
    pub fn tag(&self) -> (r: u32)
        ensures
            r == self.spec_tag(),
    {
        match self {
            DataType::Fp64 => 0,
            DataType::Fp32 => 1,
            DataType::Int64 => 2,
            DataType::Int32 => 3,
        }
    }

    /// The element type a wire tag stands for, if it has a defined meaning.
    pub fn from_tag(t: u32) -> (r: Option<DataType>)
        ensures
            match r {
                Some(d) => d.spec_tag() == t,
                None => t > 3,
            },
    {
        if t == 0 {
            Some(DataType::Fp64)
        } else if t == 1 {
            Some(DataType::Fp32)
        } else if t == 2 {
            Some(DataType::Int64)
        } else if t == 3 {
            Some(DataType::Int32)
        } else {
            None
        }
    }
}

/// One stored envelope.
#[derive(Debug, PartialEq, Eq)]
pub struct Value {
    /// Tensor dimensions.
    pub shape: Vec<u64>,
    /// Raw element-type tag (see [`DataType`]).
    pub dtype: u32,
    /// Expected payload byte length implied by `shape` and `dtype`;
    /// written by the producer, never recomputed by the store.
    pub size_check: u64,
    /// Copy of the key the envelope was stored under; never validated
    /// or rewritten by the store.
    pub key_check: u64,
    /// Raw payload chunks, opaque to the store.
    pub data: Vec<Vec<u8>>,
}

impl View for Value {
    type V = ValueModel;

    open spec fn view(&self) -> ValueModel {
        ValueModel {
            shape: self.shape@,
            dtype: self.dtype,
            size_check: self.size_check,
            key_check: self.key_check,
            data: self.data.deep_view(),
        }
    }
}

impl Clone for Value {
    /// A clone carries the same model.
    fn clone(&self) -> (res: Self)
        ensures
            res@ == self@,
    {
        let res = Value {
            shape: clone_u64_vec(&self.shape),
            dtype: self.dtype,
            size_check: self.size_check,
            key_check: self.key_check,
            data: clone_chunk_vec(&self.data),
        };
        res
    }
}

fn clone_u64_vec(v: &Vec<u64>) -> (r: Vec<u64>)
    ensures
        r@ == v@,
{
    let mut r: Vec<u64> = Vec::new();
    let mut i: usize = 0;
    while i < v.len()
        invariant
            i <= v.len(),
            r@ == v@.take(i as int),
        decreases v.len() - i,
    {
        r.push(v[i]);
        proof {
            assert(r@ =~= v@.take(i as int + 1));
        }
        i = i + 1;
    }
    proof {
        assert(v@.take(v@.len() as int) =~= v@);
    }
    r
}

/// Byte-for-byte copy of one payload chunk.
pub fn clone_bytes(v: &Vec<u8>) -> (r: Vec<u8>)
    ensures
        r@ == v@,
{
    let mut r: Vec<u8> = Vec::new();
    let mut i: usize = 0;
    while i < v.len()
        invariant
            i <= v.len(),
            r@ == v@.take(i as int),
        decreases v.len() - i,
    {
        r.push(v[i]);
        proof {
            assert(r@ =~= v@.take(i as int + 1));
        }
        i = i + 1;
    }
    proof {
        assert(v@.take(v@.len() as int) =~= v@);
    }
    r
}

fn clone_chunk_vec(v: &Vec<Vec<u8>>) -> (r: Vec<Vec<u8>>)
    ensures
        r.deep_view() == v.deep_view(),
{
    let mut r: Vec<Vec<u8>> = Vec::new();
    let mut i: usize = 0;
    while i < v.len()
        invariant
            i <= v.len(),
            r@.len() == i as int,
            r.deep_view() == v.deep_view().take(i as int),
        decreases v.len() - i,
    {
        let c = clone_bytes(&v[i]);
        let ghost prev = r.deep_view();
        let ghost pre = r@;
        r.push(c);
        proof {
            assert(r@ == pre.push(c));
            assert(c@ == v@[i as int]@);
            assert(c.deep_view() =~= v@[i as int].deep_view());
            assert forall|k: int| 0 <= k < r@.len() implies r.deep_view()[k] == v.deep_view().take(
                i as int + 1,
            )[k] by {
                assert(r.deep_view()[k] == r@[k].deep_view());
                assert(v.deep_view().take(i as int + 1)[k] == v@[k].deep_view());
                if k < i as int {
                    assert(r@[k] == pre[k]);
                    assert(prev[k] == pre[k].deep_view());
                    assert(prev[k] == v.deep_view().take(i as int)[k]);
                    assert(v.deep_view().take(i as int)[k] == v@[k].deep_view());
                } else {
                    assert(r@[k] == c);
                }
            }
            assert(r.deep_view() =~= v.deep_view().take(i as int + 1));
        }
        i = i + 1;
    }
    proof {
        assert(v.deep_view().take(v@.len() as int) =~~= v.deep_view());
    }
    r
}

/// A model the byte format can represent: every count fits the wire's
/// 64-bit lengths. Models of executable values always qualify.
pub open spec fn valid_model(m: ValueModel) -> bool {
    &&& m.shape.len() <= u64::MAX
    &&& m.data.len() <= u64::MAX
    &&& forall|i: int| 0 <= i < m.data.len() ==> #[trigger] m.data[i].len() <= u64::MAX
}

/// Concatenated varint encodings of a list of integers.
pub open spec fn enc_u64_list(s: Seq<u64>) -> Seq<u8>
    decreases s.len(),
{
    if s.len() == 0 {
        Seq::empty()
    } else {
        venc(s[0]) + enc_u64_list(s.drop_first())
    }
}

/// Concatenated length-prefixed payload chunks.
pub open spec fn enc_chunk_list(s: Seq<Seq<u8>>) -> Seq<u8>
    decreases s.len(),
{
    if s.len() == 0 {
        Seq::empty()
    } else {
        venc(s[0].len() as u64) + s[0] + enc_chunk_list(s.drop_first())
    }
}

/// The deterministic byte encoding of an envelope: shape count, shape
/// entries, element-type tag, the two integrity fields, chunk count,
/// then each chunk length-prefixed.
pub open spec fn spec_encode(m: ValueModel) -> Seq<u8> {
    venc(m.shape.len() as u64) + (enc_u64_list(m.shape) + (venc(m.dtype as u64) + (venc(
        m.size_check,
    ) + (venc(m.key_check) + (venc(m.data.len() as u64) + enc_chunk_list(m.data))))))
}

/// Decodes `count` varints from the front of `s`.
pub open spec fn dec_u64_list(s: Seq<u8>, count: u64) -> Option<(Seq<u64>, int)>
    decreases count,
{
    if count == 0 {
        Some((Seq::empty(), 0))
    } else {
        match vdec(s) {
            None => None,
            Some((v, c)) => match dec_u64_list(s.skip(c), (count - 1) as u64) {
                None => None,
                Some((rest, c2)) => Some((seq![v] + rest, c + c2)),
            },
        }
    }
}

/// Decodes `count` length-prefixed chunks from the front of `s`.
pub open spec fn dec_chunk_list(s: Seq<u8>, count: u64) -> Option<(Seq<Seq<u8>>, int)>
    decreases count,
{
    if count == 0 {
        Some((Seq::empty(), 0))
    } else {
        match vdec(s) {
            None => None,
            Some((len, c)) => {
                if s.skip(c).len() < len {
                    None
                } else {
                    match dec_chunk_list(s.skip(c).skip(len as int), (count - 1) as u64) {
                        None => None,
                        Some((rest, c2)) => Some(
                            (seq![s.skip(c).take(len as int)] + rest, c + len + c2),
                        ),
                    }
                }
            },
        }
    }
}

/// The envelope a byte sequence stands for, or `None` when the bytes are
/// not a complete encoding.
pub open spec fn spec_decode(b: Seq<u8>) -> Option<ValueModel> {
    match vdec(b) {
        None => None,
        Some((nshape, c0)) => match dec_u64_list(b.skip(c0), nshape) {
            None => None,
            Some((shape, c1)) => match vdec(b.skip(c0 + c1)) {
                None => None,
                Some((dt, c2)) => if dt > u32::MAX as u64 {
                    None
                } else {
                    match vdec(b.skip(c0 + c1 + c2)) {
                        None => None,
                        Some((sc, c3)) => match vdec(b.skip(c0 + c1 + c2 + c3)) {
                            None => None,
                            Some((kc, c4)) => match vdec(b.skip(c0 + c1 + c2 + c3 + c4)) {
                                None => None,
                                Some((ndata, c5)) => match dec_chunk_list(
                                    b.skip(c0 + c1 + c2 + c3 + c4 + c5),
                                    ndata,
                                ) {
                                    None => None,
                                    Some((data, c6)) => if b.len() == c0 + c1 + c2 + c3 + c4 + c5
                                        + c6 {
                                        Some(
                                            ValueModel {
                                                shape,
                                                dtype: dt as u32,
                                                size_check: sc,
                                                key_check: kc,
                                                data,
                                            },
                                        )
                                    } else {
                                        None
                                    },
                                },
                            },
                        },
                    }
                },
            },
        },
    }
}

/// Decoding a list of encoded integers gives the list back, whatever
/// bytes follow it.
pub proof fn lemma_u64_list_round_trip(s: Seq<u64>, rest: Seq<u8>)
    requires
        s.len() <= u64::MAX,
    ensures
        dec_u64_list(enc_u64_list(s) + rest, s.len() as u64) == Some(
            (s, enc_u64_list(s).len() as int),
        ),
    decreases s.len(),
{
    if s.len() == 0 {
        assert(s =~= Seq::<u64>::empty());
    } else {
        let head = s[0];
        let tail = s.drop_first();
        let inner = enc_u64_list(tail) + rest;
        assert(enc_u64_list(s) + rest =~= venc(head) + inner);
        lemma_varint_round_trip(head, inner);
        let c0 = venc(head).len() as int;
        assert((enc_u64_list(s) + rest).skip(c0) =~= inner);
        lemma_u64_list_round_trip(tail, rest);
        assert(seq![head] + tail =~= s);
    }
}

/// Decoding a list of encoded chunks gives the chunks back, whatever
/// bytes follow them.
pub proof fn lemma_chunk_list_round_trip(s: Seq<Seq<u8>>, rest: Seq<u8>)
    requires
        s.len() <= u64::MAX,
        forall|i: int| 0 <= i < s.len() ==> #[trigger] s[i].len() <= u64::MAX,
    ensures
        dec_chunk_list(enc_chunk_list(s) + rest, s.len() as u64) == Some(
            (s, enc_chunk_list(s).len() as int),
        ),
    decreases s.len(),
{
    if s.len() == 0 {
        assert(s =~= Seq::<Seq<u8>>::empty());
    } else {
        let head = s[0];
        let tail = s.drop_first();
        let len = head.len() as u64;
        let inner = head + (enc_chunk_list(tail) + rest);
        assert(enc_chunk_list(s) + rest =~= venc(len) + inner);
        lemma_varint_round_trip(len, inner);
        let c0 = venc(len).len() as int;
        let whole = enc_chunk_list(s) + rest;
        assert(whole.skip(c0) =~= inner);
        assert(inner.len() >= len);
        assert(inner.take(len as int) =~= head);
        assert(inner.skip(len as int) =~= enc_chunk_list(tail) + rest);
        lemma_chunk_list_round_trip(tail, rest);
        assert(seq![head] + tail =~= s);
        assert(enc_chunk_list(s).len() == c0 + len + enc_chunk_list(tail).len());
    }
}

/// Skipping a leading segment of a concatenation leaves the rest.
proof fn lemma_concat_skip(a: Seq<u8>, b: Seq<u8>)
    ensures
        (a + b).skip(a.len() as int) == b,
{
    assert((a + b).skip(a.len() as int) =~= b);
}

/// Two skips compose into one.
proof fn lemma_skip_skip(s: Seq<u8>, i: int, j: int)
    requires
        0 <= i,
        0 <= j,
        i + j <= s.len(),
    ensures
        s.skip(i).skip(j) == s.skip(i + j),
{
    assert(s.skip(i).skip(j) =~= s.skip(i + j));
}

/// Round trip: decoding the encoding of any representable envelope gives
/// that envelope back.
#[verifier::rlimit(50)]
pub proof fn lemma_encode_decode_round_trip(m: ValueModel)
    requires
        valid_model(m),
    ensures
        spec_decode(spec_encode(m)) == Some(m),
{
    let e_ns = venc(m.shape.len() as u64);
    let e_sh = enc_u64_list(m.shape);
    let e_dt = venc(m.dtype as u64);
    let e_sc = venc(m.size_check);
    let e_kc = venc(m.key_check);
    let e_nd = venc(m.data.len() as u64);
    let e_ch = enc_chunk_list(m.data);
    let b = spec_encode(m);

    let r1 = e_sh + (e_dt + (e_sc + (e_kc + (e_nd + e_ch))));
    let r2 = e_dt + (e_sc + (e_kc + (e_nd + e_ch)));
    let r3 = e_sc + (e_kc + (e_nd + e_ch));
    let r4 = e_kc + (e_nd + e_ch);
    let r5 = e_nd + e_ch;

    lemma_varint_round_trip(m.shape.len() as u64, r1);
    let c0 = e_ns.len() as int;
    lemma_concat_skip(e_ns, r1);

    lemma_u64_list_round_trip(m.shape, r2);
    let c1 = e_sh.len() as int;
    lemma_skip_skip(b, c0, c1);
    lemma_concat_skip(e_sh, r2);

    lemma_varint_round_trip(m.dtype as u64, r3);
    let c2 = e_dt.len() as int;
    lemma_skip_skip(b, c0 + c1, c2);
    lemma_concat_skip(e_dt, r3);

    lemma_varint_round_trip(m.size_check, r4);
    let c3 = e_sc.len() as int;
    lemma_skip_skip(b, c0 + c1 + c2, c3);
    lemma_concat_skip(e_sc, r4);

    lemma_varint_round_trip(m.key_check, r5);
    let c4 = e_kc.len() as int;
    lemma_skip_skip(b, c0 + c1 + c2 + c3, c4);
    lemma_concat_skip(e_kc, r5);

    lemma_varint_round_trip(m.data.len() as u64, e_ch);
    let c5 = e_nd.len() as int;
    lemma_skip_skip(b, c0 + c1 + c2 + c3 + c4, c5);
    lemma_concat_skip(e_nd, e_ch);

    assert(e_ch + Seq::<u8>::empty() =~= e_ch);
    lemma_chunk_list_round_trip(m.data, Seq::<u8>::empty());
    let c6 = e_ch.len() as int;

    assert(b.len() == c0 + c1 + c2 + c3 + c4 + c5 + c6);
    assert((m.dtype as u64) as u32 == m.dtype);
}

/// Every model of an executable envelope fits the byte format.
pub proof fn lemma_exec_value_valid(v: Value)
    ensures
        valid_model(v@),
{
    assert(v.shape.len() == v.shape@.len());
    assert(v.data.len() == v.data@.len());
    assert forall|i: int| 0 <= i < v@.data.len() implies #[trigger] v@.data[i].len()
        <= u64::MAX by {
        assert(v@.data[i] == v.data@[i]@);
        assert(v.data@[i].len() == v.data@[i]@.len());
    }
}

/// Error returned when stored bytes are not a complete envelope encoding.
#[derive(Debug, PartialEq, Eq, Clone, Copy)]
pub struct DecodeError;

/// Encodes an envelope into its deterministic byte form.
pub fn encode(v: &Value) -> (r: Vec<u8>)
    ensures
        r@ == spec_encode(v@),
{
    let mut out: Vec<u8> = Vec::new();
    encode_varint_into(v.shape.len() as u64, &mut out);

    let ghost pre_shape = out@;
    let mut i: usize = 0;
    while i < v.shape.len()
        invariant
            i <= v.shape.len(),
            out@ == pre_shape + enc_u64_list(v.shape@.take(i as int)),
        decreases v.shape.len() - i,
    {
        encode_varint_into(v.shape[i], &mut out);
        proof {
            lemma_enc_u64_list_snoc(v.shape@.take(i as int), v.shape@[i as int]);
            assert(v.shape@.take(i as int + 1) =~= v.shape@.take(i as int).push(
                v.shape@[i as int],
            ));
            assert(out@ =~= pre_shape + enc_u64_list(v.shape@.take(i as int + 1)));
        }
        i = i + 1;
    }
    proof {
        assert(v.shape@.take(v.shape@.len() as int) =~= v.shape@);
    }

    encode_varint_into(v.dtype as u64, &mut out);
    encode_varint_into(v.size_check, &mut out);
    encode_varint_into(v.key_check, &mut out);
    encode_varint_into(v.data.len() as u64, &mut out);

    let ghost pre_chunks = out@;
    let mut j: usize = 0;
    while j < v.data.len()
        invariant
            j <= v.data.len(),
            out@ == pre_chunks + enc_chunk_list(v.data.deep_view().take(j as int)),
        decreases v.data.len() - j,
    {
        let ghost before = out@;
        let clen: usize = v.data[j].len();
        encode_varint_into(clen as u64, &mut out);
        let mut t: usize = 0;
        while t < clen
            invariant
                t <= clen,
                j < v.data.len(),
                clen == v.data@[j as int]@.len(),
                out@ == before + venc(v.data@[j as int]@.len() as u64) + v.data@[j as int]@.take(
                    t as int,
                ),
            decreases clen - t,
        {
            let b = v.data[j][t];
            out.push(b);
            proof {
                assert(out@ =~= before + venc(v.data@[j as int]@.len() as u64)
                    + v.data@[j as int]@.take(t as int + 1));
            }
            t = t + 1;
        }
        proof {
            let chunk = v.data@[j as int]@;
            assert(chunk.take(chunk.len() as int) =~= chunk);
            lemma_enc_chunk_list_snoc(v.data.deep_view().take(j as int), chunk);
            assert(v.data.deep_view().take(j as int + 1) =~~= v.data.deep_view().take(
                j as int,
            ).push(chunk));
            assert(out@ =~= pre_chunks + enc_chunk_list(v.data.deep_view().take(j as int + 1)));
        }
        j = j + 1;
    }
    proof {
        assert(v.data.deep_view().take(v.data@.len() as int) =~= v.data.deep_view());
        assert(out@ =~= spec_encode(v@));
    }
    out
}

/// Appending one integer to a list appends its encoding to the list's.
pub proof fn lemma_enc_u64_list_snoc(s: Seq<u64>, x: u64)
    ensures
        enc_u64_list(s.push(x)) == enc_u64_list(s) + venc(x),
    decreases s.len(),
{
    if s.len() == 0 {
        assert(s.push(x) =~= seq![x]);
        assert(seq![x].drop_first() =~= Seq::<u64>::empty());
        assert(enc_u64_list(Seq::<u64>::empty()) == Seq::<u8>::empty());
        assert(enc_u64_list(seq![x]) == venc(x) + Seq::<u8>::empty());
        assert(venc(x) + Seq::<u8>::empty() =~= Seq::<u8>::empty() + venc(x));
    } else {
        let tail = s.drop_first();
        assert(s.push(x).drop_first() =~= tail.push(x));
        lemma_enc_u64_list_snoc(tail, x);
        assert(enc_u64_list(s.push(x)) == venc(s[0]) + enc_u64_list(tail.push(x)));
        assert(enc_u64_list(s) == venc(s[0]) + enc_u64_list(tail));
        assert(venc(s[0]) + (enc_u64_list(tail) + venc(x)) =~= (venc(s[0]) + enc_u64_list(tail))
            + venc(x));
    }
}

/// Appending one chunk to a list appends its length-prefixed bytes to the
/// list's encoding.
pub proof fn lemma_enc_chunk_list_snoc(s: Seq<Seq<u8>>, x: Seq<u8>)
    ensures
        enc_chunk_list(s.push(x)) == enc_chunk_list(s) + venc(x.len() as u64) + x,
    decreases s.len(),
{
    if s.len() == 0 {
        assert(s.push(x) =~= seq![x]);
        assert(seq![x].drop_first() =~= Seq::<Seq<u8>>::empty());
        assert(enc_chunk_list(Seq::<Seq<u8>>::empty()) == Seq::<u8>::empty());
        assert(enc_chunk_list(seq![x]) == venc(x.len() as u64) + x + Seq::<u8>::empty());
        assert(venc(x.len() as u64) + x + Seq::<u8>::empty() =~= Seq::<u8>::empty() + venc(
            x.len() as u64,
        ) + x);
    } else {
        let tail = s.drop_first();
        assert(s.push(x).drop_first() =~= tail.push(x));
        lemma_enc_chunk_list_snoc(tail, x);
        assert(enc_chunk_list(s.push(x)) == venc(s[0].len() as u64) + s[0] + enc_chunk_list(
            tail.push(x),
        ));
        assert(enc_chunk_list(s) == venc(s[0].len() as u64) + s[0] + enc_chunk_list(tail));
        assert(venc(s[0].len() as u64) + s[0] + (enc_chunk_list(tail) + venc(x.len() as u64) + x)
            =~= (venc(s[0].len() as u64) + s[0] + enc_chunk_list(tail)) + venc(x.len() as u64)
            + x);
    }
}

fn parse_u64_list(bytes: &Vec<u8>, start: usize, count: u64) -> (r: Option<(Vec<u64>, usize)>)
    requires
        start <= bytes.len(),
    ensures
        match dec_u64_list(bytes@.skip(start as int), count) {
            None => r is None,
            Some((vals, c)) => r matches Some(p) && p.0@ == vals && p.1 as int == start + c && p.1
                <= bytes.len(),
        },
{
    let mut acc: Vec<u64> = Vec::new();
    let mut pos: usize = start;
    let mut rem: u64 = count;
    loop
        invariant
            start <= pos <= bytes.len(),
            ({
                let d0 = dec_u64_list(bytes@.skip(start as int), count);
                match dec_u64_list(bytes@.skip(pos as int), rem) {
                    None => d0 is None,
                    Some((vals, c)) => d0 matches Some(p) && p.0 == acc@ + vals && p.1 == pos
                        - start + c,
                }
            }),
        decreases rem,
    {
        if rem == 0 {
            proof {
                assert(acc@ + Seq::<u64>::empty() =~= acc@);
            }
            return Some((acc, pos));
        }
        match parse_varint(bytes, pos) {
            None => {
                return None;
            },
            Some((v, np)) => {
                proof {
                    crate::varint::lemma_vdec_bounds(bytes@.skip(pos as int));
                    assert(bytes@.skip(pos as int).skip(np - pos) =~= bytes@.skip(np as int));
                }
                let ghost old_acc = acc@;
                acc.push(v);
                proof {
                    let d2 = dec_u64_list(bytes@.skip(np as int), (rem - 1) as u64);
                    if d2 is Some {
                        let (vals2, c2) = d2.unwrap();
                        assert(acc@ + vals2 =~= old_acc + (seq![v] + vals2));
                    }
                }
                pos = np;
                rem = rem - 1;
            },
        }
    }
}

fn parse_chunk_list(bytes: &Vec<u8>, start: usize, count: u64) -> (r: Option<
    (Vec<Vec<u8>>, usize),
>)
    requires
        start <= bytes.len(),
    ensures
        match dec_chunk_list(bytes@.skip(start as int), count) {
            None => r is None,
            Some((vals, c)) => r matches Some(p) && p.0.deep_view() == vals && p.1 as int == start
                + c && p.1 <= bytes.len(),
        },
{
    let mut acc: Vec<Vec<u8>> = Vec::new();
    let mut pos: usize = start;
    let mut rem: u64 = count;
    loop
        invariant
            start <= pos <= bytes.len(),
            ({
                let d0 = dec_chunk_list(bytes@.skip(start as int), count);
                match dec_chunk_list(bytes@.skip(pos as int), rem) {
                    None => d0 is None,
                    Some((vals, c)) => d0 matches Some(p) && p.0 == acc.deep_view() + vals && p.1
                        == pos - start + c,
                }
            }),
        decreases rem,
    {
        if rem == 0 {
            proof {
                assert(acc.deep_view() + Seq::<Seq<u8>>::empty() =~= acc.deep_view());
            }
            return Some((acc, pos));
        }
        match parse_varint(bytes, pos) {
            None => {
                return None;
            },
            Some((len, np)) => {
                proof {
                    crate::varint::lemma_vdec_bounds(bytes@.skip(pos as int));
                    assert(bytes@.skip(pos as int).skip(np - pos) =~= bytes@.skip(np as int));
                }
                if ((bytes.len() - np) as u64) < len {
                    proof {
                        assert(bytes@.skip(np as int).len() < len);
                    }
                    return None;
                }
                let len_u: usize = len as usize;
                let mut chunk: Vec<u8> = Vec::new();
                let mut t: usize = 0;
                while t < len_u
                    invariant
                        t <= len_u,
                        np + len_u <= bytes.len(),
                        chunk@ == bytes@.subrange(np as int, np as int + t as int),
                    decreases len_u - t,
                {
                    let b = bytes[np + t];
                    chunk.push(b);
                    proof {
                        assert(chunk@ =~= bytes@.subrange(np as int, np as int + t as int + 1));
                    }
                    t = t + 1;
                }
                proof {
                    assert(bytes@.skip(np as int).take(len as int) =~= bytes@.subrange(
                        np as int,
                        np as int + len as int,
                    ));
                    assert(bytes@.skip(np as int).skip(len as int) =~= bytes@.skip(
                        np as int + len as int,
                    ));
                }
                let ghost old_acc = acc.deep_view();
                let ghost spec_chunk = bytes@.skip(np as int).take(len as int);
                acc.push(chunk);
                proof {
                    assert(acc.deep_view() =~~= old_acc.push(spec_chunk));
                    let d2 = dec_chunk_list(bytes@.skip(np as int + len as int), (rem - 1) as u64);
                    if d2 is Some {
                        let (vals2, c2) = d2.unwrap();
                        assert(acc.deep_view() + vals2 =~= old_acc + (seq![spec_chunk] + vals2));
                    }
                }
                pos = np + len_u;
                rem = rem - 1;
            },
        }
    }
}

/// Decodes an envelope from its byte form; fails exactly on byte
/// sequences that are not a complete encoding.
pub fn decode(bytes: &Vec<u8>) -> (r: Result<Value, DecodeError>)
    ensures
        match spec_decode(bytes@) {
            None => r is Err,
            Some(m) => r matches Ok(v) && v@ == m,
        },
{
    proof {
        assert(bytes@.skip(0) =~= bytes@);
    }
    let (nshape, p0) = match parse_varint(bytes, 0) {
        None => {
            return Err(DecodeError);
        },
        Some(x) => x,
    };
    proof {
        crate::varint::lemma_vdec_bounds(bytes@);
    }
    let (shape, p1) = match parse_u64_list(bytes, p0, nshape) {
        None => {
            return Err(DecodeError);
        },
        Some(x) => x,
    };
    let (dt, p2) = match parse_varint(bytes, p1) {
        None => {
            return Err(DecodeError);
        },
        Some(x) => x,
    };
    if dt > u32::MAX as u64 {
        return Err(DecodeError);
    }
    proof {
        crate::varint::lemma_vdec_bounds(bytes@.skip(p1 as int));
    }
    let (sc, p3) = match parse_varint(bytes, p2) {
        None => {
            return Err(DecodeError);
        },
        Some(x) => x,
    };
    proof {
        crate::varint::lemma_vdec_bounds(bytes@.skip(p2 as int));
    }
    let (kc, p4) = match parse_varint(bytes, p3) {
        None => {
            return Err(DecodeError);
        },
        Some(x) => x,
    };
    proof {
        crate::varint::lemma_vdec_bounds(bytes@.skip(p3 as int));
    }
    let (ndata, p5) = match parse_varint(bytes, p4) {
        None => {
            return Err(DecodeError);
        },
        Some(x) => x,
    };
    proof {
        crate::varint::lemma_vdec_bounds(bytes@.skip(p4 as int));
    }
    let (data, p6) = match parse_chunk_list(bytes, p5, ndata) {
        None => {
            return Err(DecodeError);
        },
        Some(x) => x,
    };
    if p6 != bytes.len() {
        return Err(DecodeError);
    }
    let v = Value { shape, dtype: dt as u32, size_check: sc, key_check: kc, data };
    Ok(v)
}

} // verus!
