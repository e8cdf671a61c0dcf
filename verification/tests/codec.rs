//! Byte-level tests of the decoder and encoder: exact canonical bytes,
//! width boundaries, error paths, and round trips.
use cbors::DecodeError;
use cbors::Value;
use cbors::decode;
use cbors::encode;

fn num(i: i128) -> Value {
    Value::Integer(i)
}

fn text(s: &str) -> Value {
    Value::Text(s.to_string())
}

#[test]
fn encode_null_bool() {
    assert_eq!(encode(&Value::Null), vec![0xf6]);
    assert_eq!(encode(&Value::Bool(true)), vec![0xf5]);
    assert_eq!(encode(&Value::Bool(false)), vec![0xf4]);
}

#[test]
fn encode_uint_boundaries() {
    assert_eq!(encode(&num(0)), vec![0x00]);
    assert_eq!(encode(&num(23)), vec![0x17]);
    assert_eq!(encode(&num(24)), vec![0x18, 24]);
    assert_eq!(encode(&num(255)), vec![0x18, 0xff]);
    assert_eq!(encode(&num(256)), vec![0x19, 0x01, 0x00]);
    assert_eq!(encode(&num(65535)), vec![0x19, 0xff, 0xff]);
    assert_eq!(encode(&num(65536)), vec![0x1a, 0x00, 0x01, 0x00, 0x00]);
    assert_eq!(encode(&num(4294967295)), vec![0x1a, 0xff, 0xff, 0xff, 0xff]);
    assert_eq!(
        encode(&num(4294967296)),
        vec![0x1b, 0x00, 0x00, 0x00, 0x01, 0x00, 0x00, 0x00, 0x00]
    );
    assert_eq!(
        encode(&num(0xffff_ffff_ffff_ffff)),
        vec![0x1b, 0xff, 0xff, 0xff, 0xff, 0xff, 0xff, 0xff, 0xff]
    );
}

#[test]
fn encode_uint_boundary_lengths() {
    assert_eq!(encode(&num(23)).len(), 1);
    assert_eq!(encode(&num(24)).len(), 2);
    assert_eq!(encode(&num(65535)).len(), 3);
    assert_eq!(encode(&num(65536)).len(), 5);
}

#[test]
fn encode_negative_ints() {
    assert_eq!(encode(&num(-1)), vec![0x20]);
    assert_eq!(encode(&num(-24)), vec![0x37]);
    assert_eq!(encode(&num(-25)), vec![0x38, 24]);
    assert_eq!(encode(&num(-500)), vec![0x39, 0x01, 0xf3]);
    let min = -(0x1_0000_0000_0000_0000i128);
    assert_eq!(
        encode(&num(min)),
        vec![0x3b, 0xff, 0xff, 0xff, 0xff, 0xff, 0xff, 0xff, 0xff]
    );
}

#[test]
fn encode_float_bits() {
    let bits = (1.5f64).to_bits();
    assert_eq!(
        encode(&Value::Float(bits)),
        vec![0xfb, 0x3f, 0xf8, 0x00, 0x00, 0x00, 0x00, 0x00, 0x00]
    );
}

#[test]
fn encode_text_and_bytes() {
    assert_eq!(encode(&text("abc")), vec![0x63, 0x61, 0x62, 0x63]);
    assert_eq!(encode(&text("")), vec![0x60]);
    assert_eq!(encode(&Value::Bytes(vec![1, 2])), vec![0x42, 1, 2]);
    assert_eq!(encode(&Value::Bytes(vec![])), vec![0x40]);
}

#[test]
fn encode_array_and_map() {
    assert_eq!(
        encode(&Value::Array(vec![num(1), num(2), num(3)])),
        vec![0x83, 1, 2, 3]
    );
    assert_eq!(encode(&Value::Array(vec![])), vec![0x80]);
    assert_eq!(
        encode(&Value::Mapping(vec![(num(1), num(2))])),
        vec![0xa1, 1, 2]
    );
    assert_eq!(encode(&Value::Mapping(vec![])), vec![0xa0]);
}

#[test]
fn decode_scalars() {
    assert_eq!(decode(&[0xf6]), Ok(Value::Null));
    assert_eq!(decode(&[0xf5]), Ok(Value::Bool(true)));
    assert_eq!(decode(&[0xf4]), Ok(Value::Bool(false)));
    assert_eq!(decode(&[0x17]), Ok(num(23)));
    assert_eq!(decode(&[0x38, 24]), Ok(num(-25)));
    assert_eq!(
        decode(&[0xfb, 0x3f, 0xf8, 0, 0, 0, 0, 0, 0]),
        Ok(Value::Float((1.5f64).to_bits()))
    );
}

#[test]
fn decode_accepts_non_minimal_ints() {
    assert_eq!(decode(&[0x18, 0x05]), Ok(num(5)));
    assert_eq!(decode(&[0x19, 0x00, 0x05]), Ok(num(5)));
    assert_eq!(decode(&[0x1b, 0, 0, 0, 0, 0, 0, 0, 5]), Ok(num(5)));
    assert_eq!(encode(&decode(&[0x19, 0x00, 0x05]).unwrap()), vec![0x05]);
}

#[test]
fn decode_empty_input_is_an_error() {
    assert_eq!(decode(&[]), Err(DecodeError::UnexpectedEnd));
}

#[test]
fn decode_truncated_array_is_an_error() {
    assert_eq!(decode(&[0x83, 0x01]), Err(DecodeError::UnexpectedEnd));
}

#[test]
fn decode_truncated_scalars_are_errors() {
    assert_eq!(decode(&[0x18]), Err(DecodeError::UnexpectedEnd));
    assert_eq!(decode(&[0x19, 0x01]), Err(DecodeError::UnexpectedEnd));
    assert_eq!(decode(&[0x62, 0x61]), Err(DecodeError::UnexpectedEnd));
    assert_eq!(decode(&[0xfb, 0, 0, 0]), Err(DecodeError::UnexpectedEnd));
}

#[test]
fn decode_trailing_bytes_are_an_error() {
    assert_eq!(decode(&[0x01, 0x02]), Err(DecodeError::TrailingData));
}

#[test]
fn decode_unsupported_heads_are_errors() {
    assert_eq!(decode(&[0xc0, 0x01]), Err(DecodeError::Unsupported));
    assert_eq!(decode(&[0x9f]), Err(DecodeError::Unsupported));
    assert_eq!(decode(&[0x1c]), Err(DecodeError::Unsupported));
    assert_eq!(decode(&[0xf9, 0x3c, 0x00]), Err(DecodeError::Unsupported));
    assert_eq!(decode(&[0xf7]), Err(DecodeError::Unsupported));
}

#[test]
fn decode_multibyte_utf8_text() {
    assert_eq!(decode(&[0x62, 0xc3, 0xa9]), Ok(text("\u{e9}")));
    assert_eq!(encode(&text("\u{e9}")), vec![0x62, 0xc3, 0xa9]);
}

#[test]
fn decode_invalid_utf8_is_an_error() {
    assert_eq!(decode(&[0x61, 0xff]), Err(DecodeError::InvalidUtf8));
}

#[test]
fn decode_map_sorts_keys() {
    let bytes = [0xa2, 0x02, 0x14, 0x01, 0x15];
    let expected = Value::Mapping(vec![(num(1), num(21)), (num(2), num(20))]);
    assert_eq!(decode(&bytes), Ok(expected));
}

#[test]
fn decode_map_later_duplicate_key_wins() {
    let bytes = [0xa2, 0x01, 0x61, 0x61, 0x01, 0x61, 0x62];
    let expected = Value::Mapping(vec![(num(1), text("b"))]);
    assert_eq!(decode(&bytes), Ok(expected));
}

#[test]
fn round_trip_nested_value() {
    let v = Value::Mapping(vec![
        (num(1), Value::Array(vec![num(-3), Value::Null, text("x")])),
        (text("k"), Value::Bytes(vec![0xde, 0xad])),
    ]);
    let bytes = encode(&v);
    assert_eq!(decode(&bytes), Ok(v));
}

#[test]
fn round_trip_float_bit_patterns() {
    for bits in [0u64, (1.5f64).to_bits(), f64::NAN.to_bits(), u64::MAX] {
        let v = Value::Float(bits);
        assert_eq!(decode(&encode(&v)), Ok(Value::Float(bits)));
    }
}

#[test]
fn decoder_is_total_and_deterministic_on_junk() {
    let mut x: u64 = 0x12345678;
    for len in 0..64usize {
        let mut bytes = Vec::new();
        for _ in 0..len {
            x = x.wrapping_mul(6364136223846793005).wrapping_add(1442695040888963407);
            bytes.push((x >> 33) as u8);
        }
        let first = decode(&bytes);
        let second = decode(&bytes);
        assert_eq!(first, second);
    }
}

#[test]
fn decode_every_single_byte_input_safely() {
    for b in 0..=255u8 {
        let _ = decode(&[b]);
    }
}

#[test]
fn array_with_two_byte_length_head() {
    let mut items = Vec::new();
    for _ in 0..24 {
        items.push(num(0));
    }
    let v = Value::Array(items);
    let bytes = encode(&v);
    assert_eq!(bytes[0], 0x98);
    assert_eq!(bytes[1], 24);
    assert_eq!(bytes.len(), 26);
    assert_eq!(decode(&bytes), Ok(v));
}

#[test]
fn deeply_nested_arrays_round_trip() {
    let mut v = num(7);
    for _ in 0..50 {
        v = Value::Array(vec![v]);
    }
    let bytes = encode(&v);
    assert_eq!(decode(&bytes), Ok(v));
}

#[test]
fn map_with_many_entries_round_trips_sorted() {
    let mut entries = Vec::new();
    for k in 0..30i128 {
        entries.push((num(k), num(k + 100)));
    }
    let v = Value::Mapping(entries);
    let bytes = encode(&v);
    assert_eq!(bytes[0], 0xb8);
    assert_eq!(bytes[1], 30);
    assert_eq!(decode(&bytes), Ok(v));
}
