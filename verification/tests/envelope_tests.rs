use rust_kv_store::envelope::{decode, encode, DataType, Value};
use rust_kv_store::keybytes::{decode_key, encode_key};
use rust_kv_store::varint::{encode_varint_into, parse_varint};

fn sample_value() -> Value {
    Value {
        shape: vec![2, 2],
        dtype: DataType::Fp64.tag(),
        size_check: 32,
        key_check: 7,
        data: vec![vec![1, 2, 3, 4], vec![5, 6, 7, 8]],
    }
}

#[test]
fn envelope_round_trip_basic() {
    let v = sample_value();
    let bytes = encode(&v);
    let back = decode(&bytes).unwrap();
    assert_eq!(back, v);
}

#[test]
fn envelope_round_trip_scalar_shape() {
    // A zero-length shape (a scalar) and empty payload both round-trip.
    let v = Value { shape: vec![], dtype: 0, size_check: 0, key_check: 0, data: vec![] };
    let bytes = encode(&v);
    assert_eq!(bytes, vec![0u8, 0, 0, 0, 0]);
    let back = decode(&bytes).unwrap();
    assert_eq!(back, v);
}

#[test]
fn envelope_round_trip_unknown_dtype() {
    // Tags with no defined meaning are carried through unchanged.
    let v = Value {
        shape: vec![3],
        dtype: 999,
        size_check: 1,
        key_check: 2,
        data: vec![vec![9]],
    };
    let back = decode(&encode(&v)).unwrap();
    assert_eq!(back.dtype, 999);
    assert_eq!(back, v);
}

#[test]
fn envelope_round_trip_large_fields() {
    let v = Value {
        shape: vec![u64::MAX, 0, 127, 128],
        dtype: u32::MAX,
        size_check: u64::MAX,
        key_check: u64::MAX - 1,
        data: vec![vec![], vec![255; 300]],
    };
    let back = decode(&encode(&v)).unwrap();
    assert_eq!(back, v);
}

#[test]
fn decode_rejects_truncated_input() {
    let v = sample_value();
    let bytes = encode(&v);
    for cut in 0..bytes.len() {
        assert!(decode(&bytes[..cut].to_vec()).is_err());
    }
}

#[test]
fn decode_rejects_trailing_bytes() {
    let v = sample_value();
    let mut bytes = encode(&v);
    bytes.push(0);
    assert!(decode(&bytes).is_err());
}

#[test]
fn decode_rejects_unterminated_varint() {
    // A lone continuation byte is not a complete envelope.
    assert!(decode(&vec![0x80u8]).is_err());
}

#[test]
fn decode_rejects_oversized_chunk_length() {
    // Claims one chunk of 100 bytes but carries none.
    let bytes = vec![0u8, 0, 0, 0, 1, 100];
    assert!(decode(&bytes).is_err());
}

#[test]
fn dtype_tags_round_trip() {
    for d in [DataType::Fp64, DataType::Fp32, DataType::Int64, DataType::Int32] {
        assert_eq!(DataType::from_tag(d.tag()), Some(d));
    }
    assert_eq!(DataType::Fp64.tag(), 0);
    assert_eq!(DataType::from_tag(4), None);
}

#[test]
fn varint_round_trips() {
    for n in [0u64, 1, 127, 128, 129, 16383, 16384, 1 << 40, u64::MAX] {
        let mut out: Vec<u8> = Vec::new();
        encode_varint_into(n, &mut out);
        let (value, consumed) = parse_varint(&out, 0).unwrap();
        assert_eq!(value, n);
        assert_eq!(consumed, out.len());
    }
}

#[test]
fn varint_single_byte_values() {
    let mut out: Vec<u8> = Vec::new();
    encode_varint_into(5, &mut out);
    assert_eq!(out, vec![5u8]);
    let mut out2: Vec<u8> = Vec::new();
    encode_varint_into(300, &mut out2);
    assert_eq!(out2, vec![0xACu8, 0x02]);
}

#[test]
fn key_encoding_is_big_endian() {
    let bytes = encode_key(0x0102030405060708);
    assert_eq!(bytes, vec![1u8, 2, 3, 4, 5, 6, 7, 8]);
    assert_eq!(decode_key(&bytes), 0x0102030405060708);
    assert_eq!(encode_key(0), vec![0u8; 8]);
    assert_eq!(decode_key(&encode_key(u64::MAX)), u64::MAX);
}

#[test]
fn key_encoding_orders_numerically() {
    // Lexicographic order over encoded keys equals numeric order.
    let mut encoded: Vec<Vec<u8>> = [3u64, 256, 1, u64::MAX, 0, 255]
        .iter()
        .map(|k| encode_key(*k))
        .collect();
    encoded.sort();
    let decoded: Vec<u64> = encoded.iter().map(decode_key).collect();
    assert_eq!(decoded, vec![0, 1, 3, 255, 256, u64::MAX]);
}

#[test]
fn envelope_clone_is_deep() {
    let v = sample_value();
    let c = v.clone();
    assert_eq!(c, v);
}
