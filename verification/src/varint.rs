//! Variable-length integer encoding: seven value bits per byte, low bits
//! first, with the high bit of a byte marking that more bytes follow.
//! This is the length/integer primitive of the envelope byte format.
use vstd::prelude::*;
use vstd::arithmetic::div_mod::lemma_fundamental_div_mod;

verus! {

/// Byte encoding of a 64-bit integer, low seven bits first.
pub open spec fn venc(n: u64) -> Seq<u8>
    decreases n,
{
    if n < 128 {
        seq![n as u8]
    } else {
        seq![(128 + n % 128) as u8] + venc(n / 128)
    }
}

/// Decoding of a varint from the front of `s`: the value and the number of
/// bytes consumed, or `None` when `s` is exhausted early or the value does
/// not fit in 64 bits.
pub open spec fn vdec(s: Seq<u8>) -> Option<(u64, int)>
    decreases s.len(),
{
    if s.len() == 0 {
        None
    } else {
        let b = s[0];
        if b < 128 {
            Some((b as u64, 1))
        } else {
            match vdec(s.skip(1)) {
                None => None,
                Some((v, c)) => {
                    if 128 * (v as int) + (b as int - 128) <= u64::MAX as int {
                        Some(((128 * (v as int) + (b as int - 128)) as u64, c + 1))
                    } else {
                        None
                    }
                },
            }
        }
    }
}

/// A successful decode consumes between 1 byte and the whole input.
pub proof fn lemma_vdec_bounds(s: Seq<u8>)
    ensures
        vdec(s) matches Some((v, c)) ==> 1 <= c <= s.len(),
    decreases s.len(),
{
    if s.len() > 0 && s[0] >= 128 {
        lemma_vdec_bounds(s.skip(1));
    }
}

/// Decoding inverts encoding, whatever bytes follow the encoding.
pub proof fn lemma_varint_round_trip(n: u64, rest: Seq<u8>)
    ensures
        vdec(venc(n) + rest) == Some((n, venc(n).len() as int)),
    decreases n,
{
    if n < 128 {
        assert(venc(n) + rest =~= seq![n as u8] + rest);
        assert((seq![n as u8] + rest)[0] == n as u8);
    } else {
        let b = (128 + n % 128) as u8;
        let s = venc(n) + rest;
        assert(s =~= seq![b] + (venc(n / 128) + rest));
        assert(s[0] == b);
        assert(s.skip(1) =~= venc(n / 128) + rest);
        lemma_varint_round_trip(n / 128, rest);
        lemma_fundamental_div_mod(n as int, 128);
        assert(128 * ((n / 128) as int) + (b as int - 128) == n as int);
        assert(venc(n).len() == 1 + venc(n / 128).len());
    }
}

/// Reads one varint starting at `pos`; returns the value and the position
/// just after it.
pub fn parse_varint(bytes: &Vec<u8>, pos: usize) -> (r: Option<(u64, usize)>)
    requires
        pos <= bytes.len(),
    ensures
        match vdec(bytes@.skip(pos as int)) {
            None => r is None,
            Some((v, c)) => r == Some((v, (pos + c) as usize)),
        },
    decreases bytes.len() - pos,
{
    proof {
        lemma_vdec_bounds(bytes@.skip(pos as int));
    }
    if pos == bytes.len() {
        return None;
    }
    let b = bytes[pos];
    if b < 128 {
        Some((b as u64, pos + 1))
    } else {
        proof {
            assert(bytes@.skip(pos as int).skip(1) =~= bytes@.skip(pos as int + 1));
        }
        match parse_varint(bytes, pos + 1) {
            None => None,
            Some((v, np)) => {
                let low: u64 = (b - 128) as u64;
                if v <= (u64::MAX - low) / 128 {
                    proof {
                        assert(128 * (v as int) + (low as int) <= u64::MAX as int) by (nonlinear_arith)
                            requires
                                v as int <= (u64::MAX as int - low as int) / 128,
                                0 <= low as int <= 127,
                                0 <= v as int,
                        ;
                    }
                    Some((128 * v + low, np))
                } else {
                    proof {
                        assert(!(128 * (v as int) + (low as int) <= u64::MAX as int)) by (nonlinear_arith)
                            requires
                                v as int > (u64::MAX as int - low as int) / 128,
                                0 <= low as int <= 127,
                                0 <= v as int,
                        ;
                    }
                    None
                }
            },
        }
    }
}

/// Appends the encoding of `n` to `out`.
pub fn encode_varint_into(n: u64, out: &mut Vec<u8>)
    ensures
        final(out)@ == old(out)@ + venc(n),
    decreases n,
{
    if n < 128 {
        out.push(n as u8);
        proof {
            assert(out@ =~= old(out)@ + venc(n));
        }
    } else {
        let b: u8 = (128 + n % 128) as u8;
        out.push(b);
        encode_varint_into(n / 128, out);
        proof {
            assert(out@ =~= old(out)@ + venc(n));
        }
    }
}

} // verus!
