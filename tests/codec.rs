use binjson::{
    decode, decode_varint, encode, encode_varint, read_from, read_length, serialize_to,
    write_length, write_str, DecodeError, JValue, MAX_DEPTH,
};

fn text(s: &str) -> JValue {
    JValue::String(s.to_string())
}

fn sample() -> JValue {
    JValue::Object(vec![
        ("a".to_string(), JValue::Number(1.5f64.to_bits())),
        ("b".to_string(), JValue::Array(vec![JValue::True, JValue::Null])),
    ])
}

fn varied() -> JValue {
    JValue::Array(vec![
        JValue::Null,
        JValue::True,
        JValue::False,
        JValue::Number((-0.0f64).to_bits()),
        JValue::Number(f64::NAN.to_bits()),
        JValue::Number(f64::MAX.to_bits()),
        text(""),
        text("héllo, wörld ✓ 𝄞"),
        JValue::Object(vec![
            ("k".to_string(), text("first")),
            ("k".to_string(), text("second")),
            ("".to_string(), JValue::Array(vec![])),
        ]),
        JValue::Array(vec![JValue::Array(vec![JValue::Object(vec![])])]),
        text(&"x".repeat(300)),
    ])
}

#[test]
fn varint_small_values() {
    assert_eq!(encode_varint(0), vec![0x00]);
    assert_eq!(encode_varint(1), vec![0x01]);
    assert_eq!(encode_varint(127), vec![0x7f]);
    assert_eq!(encode_varint(128), vec![0x80, 0x01]);
    assert_eq!(encode_varint(300), vec![0xac, 0x02]);
    assert_eq!(encode_varint(16384), vec![0x80, 0x80, 0x01]);
}

#[test]
fn varint_largest_value() {
    let bytes = encode_varint(u64::MAX);
    assert_eq!(
        bytes,
        vec![0xff, 0xff, 0xff, 0xff, 0xff, 0xff, 0xff, 0xff, 0xff, 0x01]
    );
    assert_eq!(decode_varint(&bytes), Ok(u64::MAX));
}

#[test]
fn varint_round_trip() {
    let values = [
        0u64,
        1,
        127,
        128,
        255,
        300,
        16383,
        16384,
        u32::MAX as u64,
        1 << 35,
        (1 << 63) - 1,
        1 << 63,
        u64::MAX - 1,
        u64::MAX,
    ];
    for n in values {
        assert_eq!(decode_varint(&encode_varint(n)), Ok(n), "value {}", n);
    }
}

#[test]
fn varint_errors() {
    assert_eq!(decode_varint(&[]), Err(DecodeError::Truncated));
    assert_eq!(decode_varint(&[0x80]), Err(DecodeError::Truncated));
    assert_eq!(decode_varint(&[0x80, 0x80]), Err(DecodeError::Truncated));
    // ten bytes whose last group would carry bit 64
    let too_big = [0xff, 0xff, 0xff, 0xff, 0xff, 0xff, 0xff, 0xff, 0xff, 0x02];
    assert_eq!(decode_varint(&too_big), Err(DecodeError::VarintOverflow));
    // an eleventh byte is never reached
    let too_long = [0x80; 11];
    assert_eq!(decode_varint(&too_long), Err(DecodeError::VarintOverflow));
    assert_eq!(decode_varint(&[0x01, 0x00]), Err(DecodeError::TrailingBytes));
}

#[test]
fn write_length_appends_and_counts() {
    let mut out = vec![0xaa];
    assert_eq!(write_length(&mut out, 300), 2);
    assert_eq!(out, vec![0xaa, 0xac, 0x02]);
    assert_eq!(write_length(&mut out, 0), 1);
    assert_eq!(out, vec![0xaa, 0xac, 0x02, 0x00]);
}

#[test]
fn read_length_at_offset() {
    let bytes = [0x09, 0xac, 0x02, 0x07];
    assert_eq!(read_length(&bytes, 1), Ok((300, 3)));
    assert_eq!(read_length(&bytes, 3), Ok((7, 4)));
    assert_eq!(read_length(&bytes, 4), Err(DecodeError::Truncated));
    assert_eq!(read_length(&bytes, 99), Err(DecodeError::Truncated));
}

#[test]
fn write_str_writes_utf8_length_then_bytes() {
    let mut out = Vec::new();
    assert_eq!(write_str(&mut out, "hé"), 4);
    assert_eq!(out, vec![0x03, b'h', 0xc3, 0xa9]);
}

#[test]
fn scenario_object_with_number_and_array() {
    let expected = vec![
        0x06, 0x02, 0x01, 0x61, 0x03, 0x3f, 0xf8, 0x00, 0x00, 0x00, 0x00, 0x00, 0x00, 0x01, 0x62,
        0x05, 0x02, 0x01, 0x00,
    ];
    assert_eq!(encode(&sample()), expected);
    assert_eq!(decode(&expected), Ok(sample()));
}

#[test]
fn serialize_to_appends_and_counts() {
    let mut out = vec![0xee];
    let n = serialize_to(&mut out, &sample());
    assert_eq!(n, 19);
    assert_eq!(out.len(), 20);
    assert_eq!(out[0], 0xee);
    assert_eq!(&out[1..], &encode(&sample())[..]);
}

#[test]
fn scalars_encode_to_their_tags() {
    assert_eq!(encode(&JValue::Null), vec![0x00]);
    assert_eq!(encode(&JValue::True), vec![0x01]);
    assert_eq!(encode(&JValue::False), vec![0x02]);
    assert_eq!(
        encode(&JValue::Number((-2.0f64).to_bits())),
        vec![0x03, 0xc0, 0x00, 0x00, 0x00, 0x00, 0x00, 0x00, 0x00]
    );
    assert_eq!(encode(&text("ab")), vec![0x04, 0x02, b'a', b'b']);
}

#[test]
fn empty_collections() {
    assert_eq!(encode(&JValue::Array(vec![])), vec![0x05, 0x00]);
    assert_eq!(encode(&JValue::Object(vec![])), vec![0x06, 0x00]);
    assert_eq!(decode(&[0x05, 0x00]), Ok(JValue::Array(vec![])));
    assert_eq!(decode(&[0x06, 0x00]), Ok(JValue::Object(vec![])));
}

#[test]
fn round_trip_varied_tree() {
    let v = varied();
    assert_eq!(decode(&encode(&v)), Ok(varied()));
}

#[test]
fn round_trip_keeps_numbers_bit_for_bit() {
    for x in [0.0f64, -0.0, 1.5, -1.0e300, f64::INFINITY, f64::MIN_POSITIVE] {
        let v = JValue::Number(x.to_bits());
        match decode(&encode(&v)) {
            Ok(JValue::Number(bits)) => assert_eq!(f64::from_bits(bits).to_bits(), x.to_bits()),
            other => panic!("unexpected {:?}", other),
        }
    }
}

#[test]
fn decoded_text_is_the_original_text() {
    let v = text("né ✓");
    assert_eq!(decode(&encode(&v)), Ok(text("né ✓")));
    assert_eq!(decode(&[0x04, 0x02, 0xc3, 0xa9]), Ok(text("é")));
}

#[test]
fn duplicate_keys_are_kept_in_order() {
    let v = JValue::Object(vec![
        ("k".to_string(), JValue::True),
        ("k".to_string(), JValue::False),
    ]);
    let bytes = encode(&v);
    assert_eq!(bytes, vec![0x06, 0x02, 0x01, b'k', 0x01, 0x01, b'k', 0x02]);
    assert_eq!(decode(&bytes), Ok(v));
}

#[test]
fn encoding_is_deterministic() {
    assert_eq!(encode(&varied()), encode(&varied()));
    assert_eq!(encode(&sample()), encode(&sample()));
}

#[test]
fn every_truncation_fails() {
    let bytes = encode(&varied());
    for k in 0..bytes.len() {
        assert!(decode(&bytes[..k]).is_err(), "prefix of length {}", k);
    }
    let bytes = encode(&sample());
    for k in 0..bytes.len() {
        assert_eq!(decode(&bytes[..k]), Err(DecodeError::Truncated), "prefix {}", k);
    }
}

#[test]
fn unknown_tags_are_rejected() {
    assert_eq!(decode(&[0x07]), Err(DecodeError::InvalidTag));
    assert_eq!(decode(&[0xff, 0x00]), Err(DecodeError::InvalidTag));
    assert_eq!(decode(&[0x05, 0x01, 0x09]), Err(DecodeError::InvalidTag));
}

#[test]
fn invalid_utf8_is_rejected() {
    assert_eq!(decode(&[0x04, 0x02, 0xff, 0xfe]), Err(DecodeError::InvalidUtf8));
    // overlong encoding of NUL
    assert_eq!(decode(&[0x04, 0x02, 0xc0, 0x80]), Err(DecodeError::InvalidUtf8));
    // a surrogate
    assert_eq!(decode(&[0x04, 0x03, 0xed, 0xa0, 0x80]), Err(DecodeError::InvalidUtf8));
    // an object key
    assert_eq!(
        decode(&[0x06, 0x01, 0x01, 0x80, 0x00]),
        Err(DecodeError::InvalidUtf8)
    );
}

#[test]
fn declared_length_past_end_is_truncated() {
    assert_eq!(decode(&[0x04, 0x05, b'a']), Err(DecodeError::Truncated));
    assert_eq!(decode(&[0x03, 0x00, 0x00]), Err(DecodeError::Truncated));
    assert_eq!(decode(&[]), Err(DecodeError::Truncated));
    // a huge count runs out of input instead of allocating
    let huge = [0x05, 0xff, 0xff, 0xff, 0xff, 0xff, 0xff, 0xff, 0xff, 0xff, 0x01, 0x00];
    assert_eq!(decode(&huge), Err(DecodeError::Truncated));
}

#[test]
fn nesting_is_capped() {
    let mut ok = vec![0x05, 0x01].repeat(MAX_DEPTH);
    ok.push(0x00);
    assert!(decode(&ok).is_ok());
    let mut deep = vec![0x05, 0x01].repeat(MAX_DEPTH + 1);
    deep.push(0x00);
    assert_eq!(decode(&deep), Err(DecodeError::TooDeep));
}

#[test]
fn trailing_bytes_and_streams() {
    assert_eq!(decode(&[0x00, 0x00]), Err(DecodeError::TrailingBytes));
    let stream = [0x01, 0x04, 0x01, b'z', 0x02];
    let (first, p) = read_from(&stream, 0).unwrap();
    assert_eq!(first, JValue::True);
    let (second, p) = read_from(&stream, p).unwrap();
    assert_eq!(second, text("z"));
    let (third, p) = read_from(&stream, p).unwrap();
    assert_eq!(third, JValue::False);
    assert_eq!(p, stream.len());
    assert_eq!(read_from(&stream, p), Err(DecodeError::Truncated));
}
