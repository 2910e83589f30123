use bolt_proto::decode::decode;
use bolt_proto::encode::encode;
use bolt_proto::marker::Marker;
use bolt_proto::{BoltMap, Error, Value};

fn s(x: &str) -> String {
    x.to_string()
}

fn map_of(pairs: Vec<(&str, Value)>) -> BoltMap {
    BoltMap::from_entries(pairs.into_iter().map(|(k, v)| (s(k), v)).collect())
}

#[test]
fn null_encodes_to_one_byte() {
    assert_eq!(encode(&Value::Null).unwrap(), vec![0xC0]);
    assert_eq!(decode(&[0xC0]).unwrap(), (Value::Null, 1));
}

#[test]
fn tiny_integer_encodes_to_its_byte() {
    assert_eq!(encode(&Value::Integer(110)).unwrap(), vec![0x6E]);
    assert_eq!(decode(&[0x6E]).unwrap(), (Value::Integer(110), 1));
}

#[test]
fn small_negative_integer_takes_int8() {
    assert_eq!(encode(&Value::Integer(-50)).unwrap(), vec![0xC8, 0xCE]);
}

#[test]
fn one_entry_map_bytes() {
    let m = Value::BoltMap(map_of(vec![("a", Value::Integer(1))]));
    assert_eq!(encode(&m).unwrap(), vec![0xA1, 0x81, 0x61, 0x01]);
}

#[test]
fn long_string_takes_sixteen_bit_size() {
    let v = Value::String("string".repeat(1000));
    let bytes = encode(&v).unwrap();
    assert_eq!(&bytes[..3], &[0xD1, 0x17, 0x70]);
    assert_eq!(bytes.len(), 3 + 6000);
}

#[test]
fn empty_list_bytes() {
    assert_eq!(encode(&Value::List(vec![])).unwrap(), vec![0x90]);
    assert_eq!(decode(&[0x90]).unwrap(), (Value::List(vec![]), 1));
}

#[test]
fn integer_widths_at_boundaries() {
    let cases: Vec<(i64, usize)> = vec![
        (i64::MIN, 9),
        (-(1_i64 << 31) - 1, 9),
        (-(1_i64 << 31), 5),
        (-(1_i64 << 15) - 1, 5),
        (-(1_i64 << 15), 3),
        (-129, 3),
        (-128, 2),
        (-17, 2),
        (-16, 1),
        (-1, 1),
        (0, 1),
        (127, 1),
        (128, 3),
        ((1_i64 << 15) - 1, 3),
        (1_i64 << 15, 5),
        ((1_i64 << 31) - 1, 5),
        (1_i64 << 31, 9),
        (i64::MAX, 9),
    ];
    for (n, width) in cases {
        let bytes = encode(&Value::Integer(n)).unwrap();
        assert_eq!(bytes.len(), width, "width of {}", n);
        assert_eq!(decode(&bytes).unwrap(), (Value::Integer(n), width));
        assert_eq!(encode(&decode(&bytes).unwrap().0).unwrap(), bytes);
    }
}

#[test]
fn wide_integer_encodings_are_accepted() {
    assert_eq!(decode(&[0xC9, 0x00, 0x05]).unwrap(), (Value::Integer(5), 3));
    assert_eq!(decode(&[0xCB, 0, 0, 0, 0, 0, 0, 0, 0x2A]).unwrap(), (Value::Integer(42), 9));
    assert_eq!(decode(&[0xCA, 0xFF, 0xFF, 0xFF, 0xFE]).unwrap(), (Value::Integer(-2), 5));
}

#[test]
fn string_size_boundaries_round_trip() {
    for (n, header) in [(0_usize, 1_usize), (1, 1), (15, 1), (16, 2), (255, 2), (256, 3), (65_535, 3), (65_536, 5)] {
        let v = Value::String("x".repeat(n));
        let bytes = encode(&v).unwrap();
        assert_eq!(bytes.len(), header + n);
        assert_eq!(decode(&bytes).unwrap(), (Value::String("x".repeat(n)), header + n));
    }
}

#[test]
fn list_size_boundaries_round_trip() {
    for (n, header) in [(0_usize, 1_usize), (15, 1), (16, 2), (255, 2), (256, 3), (65_535, 3), (65_536, 5)] {
        let v = Value::List((0..n).map(|_| Value::Null).collect());
        let bytes = encode(&v).unwrap();
        assert_eq!(bytes.len(), header + n);
        assert_eq!(decode(&bytes).unwrap(), (Value::List((0..n).map(|_| Value::Null).collect()), header + n));
    }
}

#[test]
fn float_bytes_are_big_endian() {
    let bytes = encode(&Value::Float(1.0_f64.to_bits())).unwrap();
    assert_eq!(bytes, vec![0xC1, 0x3F, 0xF0, 0, 0, 0, 0, 0, 0]);
}

#[test]
fn bytes_outside_the_table_are_invalid_markers() {
    for m in [0xC4_u8, 0xC5, 0xC6, 0xC7, 0xCC, 0xCD, 0xCE, 0xCF, 0xD3, 0xD7, 0xDB, 0xDE, 0xDF, 0xE0, 0xEF] {
        assert_eq!(decode(&[m, 0, 0, 0, 0]), Err(Error::InvalidMarker(m)));
    }
}

#[test]
fn empty_and_short_input_is_truncated() {
    assert_eq!(decode(&[]), Err(Error::Truncated));
    assert_eq!(decode(&[0xC9, 0x01]), Err(Error::Truncated));
    assert_eq!(decode(&[0x83, b'a']), Err(Error::Truncated));
    assert_eq!(decode(&[0x92, 0x01]), Err(Error::Truncated));
}

#[test]
fn malformed_utf8_is_refused() {
    assert_eq!(decode(&[0x82, 0xC3, 0x28]), Err(Error::Utf8));
}

#[test]
fn unknown_signature_is_refused() {
    let bytes = [
        0xB3, 0x99, 0x01, 0x91, 0x86, b'P', b'e', b'r', b's', b'o', b'n', 0xA1, 0x84, b'n', b'a',
        b'm', b'e', 0x85, b'A', b'l', b'i', b'c', b'e',
    ];
    assert_eq!(decode(&bytes), Err(Error::InvalidSignature(0x99)));
}

#[test]
fn structure_with_wrong_fields_is_refused() {
    assert_eq!(decode(&[0xB2, 0x4E, 0x01, 0x90]), Err(Error::InvalidStructure(0x4E)));
    assert_eq!(decode(&[0xB3, 0x4E, 0xC0, 0x90, 0xA0]), Err(Error::InvalidStructure(0x4E)));
}

#[test]
fn nesting_beyond_the_limit_is_refused() {
    let mut deep = vec![0x91_u8; 300];
    deep.push(0xC0);
    assert_eq!(decode(&deep), Err(Error::NestingTooDeep));
    let mut ok = vec![0x91_u8; 255];
    ok.push(0xC0);
    assert!(decode(&ok).is_ok());
}

#[test]
fn map_key_must_be_a_string() {
    assert_eq!(decode(&[0xA1, 0x01, 0x01]), Err(Error::InvalidMarker(0x01)));
}

#[test]
fn repeated_key_keeps_the_last_value() {
    let bytes = [0xA2, 0x81, b'a', 0x01, 0x81, b'a', 0x02];
    assert_eq!(
        decode(&bytes).unwrap(),
        (Value::BoltMap(map_of(vec![("a", Value::Integer(2))])), 7)
    );
    let mut m = map_of(vec![("a", Value::Integer(1)), ("b", Value::Integer(2))]);
    m.insert(s("a"), Value::Integer(3));
    assert_eq!(m, map_of(vec![("a", Value::Integer(3)), ("b", Value::Integer(2))]));
    assert_eq!(m.len(), 2);
}

#[test]
fn trailing_bytes_are_left() {
    assert_eq!(decode(&[0x01, 0x02, 0x03]).unwrap(), (Value::Integer(1), 1));
}

#[test]
fn non_map_is_refused_as_map() {
    assert_eq!(BoltMap::try_from_bytes(&[0x90]), Err(Error::InvalidMarker(0x90)));
}

#[test]
fn value_markers() {
    assert_eq!(Value::Null.get_marker(), Ok(0xC0));
    assert_eq!(Value::Integer(-50).get_marker(), Ok(0xC8));
    assert_eq!(Value::Integer(1 << 40).get_marker(), Ok(0xCB));
    assert_eq!(Value::String("x".repeat(300)).get_marker(), Ok(0xD1));
    assert_eq!(Value::List((0..20).map(|_| Value::Null).collect()).get_marker(), Ok(0xD4));
}

#[test]
fn deep_nested_map_is_ok() {
    let bytes = [0xA4, 0x84, 0x74, 0x79, 0x70, 0x65, 0x81, 0x72, 0xD0, 0x15, 0x72, 0x65, 0x73, 0x75,
            0x6C, 0x74, 0x5F, 0x63, 0x6F, 0x6E, 0x73, 0x75, 0x6D, 0x65, 0x64, 0x5F, 0x61, 0x66,
            0x74, 0x65, 0x72, 0x0C, 0x84, 0x70, 0x6C, 0x61, 0x6E, 0xA4, 0x84, 0x61, 0x72, 0x67,
            0x73, 0xA7, 0x8C, 0x72, 0x75, 0x6E, 0x74, 0x69, 0x6D, 0x65, 0x2D, 0x69, 0x6D, 0x70,
            0x6C, 0x8B, 0x49, 0x4E, 0x54, 0x45, 0x52, 0x50, 0x52, 0x45, 0x54, 0x45, 0x44, 0x8C,
            0x70, 0x6C, 0x61, 0x6E, 0x6E, 0x65, 0x72, 0x2D, 0x69, 0x6D, 0x70, 0x6C, 0x83, 0x49,
            0x44, 0x50, 0x87, 0x76, 0x65, 0x72, 0x73, 0x69, 0x6F, 0x6E, 0x8A, 0x43, 0x59, 0x50,
            0x48, 0x45, 0x52, 0x20, 0x33, 0x2E, 0x31, 0x88, 0x4B, 0x65, 0x79, 0x4E, 0x61, 0x6D,
            0x65, 0x73, 0x84, 0x6E, 0x2C, 0x20, 0x6D, 0x8D, 0x45, 0x73, 0x74, 0x69, 0x6D, 0x61,
            0x74, 0x65, 0x64, 0x52, 0x6F, 0x77, 0x73, 0xC1, 0x3F, 0xF0, 0x00, 0x00, 0x00, 0x00,
            0x00, 0x00, 0x87, 0x70, 0x6C, 0x61, 0x6E, 0x6E, 0x65, 0x72, 0x84, 0x43, 0x4F, 0x53,
            0x54, 0x87, 0x72, 0x75, 0x6E, 0x74, 0x69, 0x6D, 0x65, 0x8B, 0x49, 0x4E, 0x54, 0x45,
            0x52, 0x50, 0x52, 0x45, 0x54, 0x45, 0x44, 0x88, 0x63, 0x68, 0x69, 0x6C, 0x64, 0x72,
            0x65, 0x6E, 0x91, 0xA4, 0x84, 0x61, 0x72, 0x67, 0x73, 0xA1, 0x8D, 0x45, 0x73, 0x74,
            0x69, 0x6D, 0x61, 0x74, 0x65, 0x64, 0x52, 0x6F, 0x77, 0x73, 0xC1, 0x3F, 0xF0, 0x00,
            0x00, 0x00, 0x00, 0x00, 0x00, 0x88, 0x63, 0x68, 0x69, 0x6C, 0x64, 0x72, 0x65, 0x6E,
            0x92, 0xA4, 0x84, 0x61, 0x72, 0x67, 0x73, 0xA1, 0x8D, 0x45, 0x73, 0x74, 0x69, 0x6D,
            0x61, 0x74, 0x65, 0x64, 0x52, 0x6F, 0x77, 0x73, 0xC1, 0x3F, 0xF0, 0x00, 0x00, 0x00,
            0x00, 0x00, 0x00, 0x88, 0x63, 0x68, 0x69, 0x6C, 0x64, 0x72, 0x65, 0x6E, 0x90, 0x8B,
            0x69, 0x64, 0x65, 0x6E, 0x74, 0x69, 0x66, 0x69, 0x65, 0x72, 0x73, 0x91, 0x81, 0x6E,
            0x8C, 0x6F, 0x70, 0x65, 0x72, 0x61, 0x74, 0x6F, 0x72, 0x54, 0x79, 0x70, 0x65, 0x8C,
            0x41, 0x6C, 0x6C, 0x4E, 0x6F, 0x64, 0x65, 0x73, 0x53, 0x63, 0x61, 0x6E, 0xA4, 0x84,
            0x61, 0x72, 0x67, 0x73, 0xA1, 0x8D, 0x45, 0x73, 0x74, 0x69, 0x6D, 0x61, 0x74, 0x65,
            0x64, 0x52, 0x6F, 0x77, 0x73, 0xC1, 0x3F, 0xF0, 0x00, 0x00, 0x00, 0x00, 0x00, 0x00,
            0x88, 0x63, 0x68, 0x69, 0x6C, 0x64, 0x72, 0x65, 0x6E, 0x90, 0x8B, 0x69, 0x64, 0x65,
            0x6E, 0x74, 0x69, 0x66, 0x69, 0x65, 0x72, 0x73, 0x91, 0x81, 0x6D, 0x8C, 0x6F, 0x70,
            0x65, 0x72, 0x61, 0x74, 0x6F, 0x72, 0x54, 0x79, 0x70, 0x65, 0x8C, 0x41, 0x6C, 0x6C,
            0x4E, 0x6F, 0x64, 0x65, 0x73, 0x53, 0x63, 0x61, 0x6E, 0x8B, 0x69, 0x64, 0x65, 0x6E,
            0x74, 0x69, 0x66, 0x69, 0x65, 0x72, 0x73, 0x92, 0x81, 0x6D, 0x81, 0x6E, 0x8C, 0x6F,
            0x70, 0x65, 0x72, 0x61, 0x74, 0x6F, 0x72, 0x54, 0x79, 0x70, 0x65, 0xD0, 0x10, 0x43,
            0x61, 0x72, 0x74, 0x65, 0x73, 0x69, 0x61, 0x6E, 0x50, 0x72, 0x6F, 0x64, 0x75, 0x63,
            0x74, 0x8B, 0x69, 0x64, 0x65, 0x6E, 0x74, 0x69, 0x66, 0x69, 0x65, 0x72, 0x73, 0x92,
            0x81, 0x6D, 0x81, 0x6E, 0x8C, 0x6F, 0x70, 0x65, 0x72, 0x61, 0x74, 0x6F, 0x72, 0x54,
            0x79, 0x70, 0x65, 0x8E, 0x50, 0x72, 0x6F, 0x64, 0x75, 0x63, 0x65, 0x52, 0x65, 0x73,
            0x75, 0x6C, 0x74, 0x73, 0x8D, 0x6E, 0x6F, 0x74, 0x69, 0x66, 0x69, 0x63, 0x61, 0x74,
            0x69, 0x6F, 0x6E, 0x73, 0x91, 0xA5, 0x88, 0x73, 0x65, 0x76, 0x65, 0x72, 0x69, 0x74,
            0x79, 0x87, 0x57, 0x41, 0x52, 0x4E, 0x49, 0x4E, 0x47, 0x85, 0x74, 0x69, 0x74, 0x6C,
            0x65, 0xD0, 0x44, 0x54, 0x68, 0x69, 0x73, 0x20, 0x71, 0x75, 0x65, 0x72, 0x79, 0x20,
            0x62, 0x75, 0x69, 0x6C, 0x64, 0x73, 0x20, 0x61, 0x20, 0x63, 0x61, 0x72, 0x74, 0x65,
            0x73, 0x69, 0x61, 0x6E, 0x20, 0x70, 0x72, 0x6F, 0x64, 0x75, 0x63, 0x74, 0x20, 0x62,
            0x65, 0x74, 0x77, 0x65, 0x65, 0x6E, 0x20, 0x64, 0x69, 0x73, 0x63, 0x6F, 0x6E, 0x6E,
            0x65, 0x63, 0x74, 0x65, 0x64, 0x20, 0x70, 0x61, 0x74, 0x74, 0x65, 0x72, 0x6E, 0x73,
            0x2E, 0x84, 0x63, 0x6F, 0x64, 0x65, 0xD0, 0x38, 0x4E, 0x65, 0x6F, 0x2E, 0x43, 0x6C,
            0x69, 0x65, 0x6E, 0x74, 0x4E, 0x6F, 0x74, 0x69, 0x66, 0x69, 0x63, 0x61, 0x74, 0x69,
            0x6F, 0x6E, 0x2E, 0x53, 0x74, 0x61, 0x74, 0x65, 0x6D, 0x65, 0x6E, 0x74, 0x2E, 0x43,
            0x61, 0x72, 0x74, 0x65, 0x73, 0x69, 0x61, 0x6E, 0x50, 0x72, 0x6F, 0x64, 0x75, 0x63,
            0x74, 0x57, 0x61, 0x72, 0x6E, 0x69, 0x6E, 0x67, 0x8B, 0x64, 0x65, 0x73, 0x63, 0x72,
            0x69, 0x70, 0x74, 0x69, 0x6F, 0x6E, 0xD1, 0x01, 0xA9, 0x49, 0x66, 0x20, 0x61, 0x20,
            0x70, 0x61, 0x72, 0x74, 0x20, 0x6F, 0x66, 0x20, 0x61, 0x20, 0x71, 0x75, 0x65, 0x72,
            0x79, 0x20, 0x63, 0x6F, 0x6E, 0x74, 0x61, 0x69, 0x6E, 0x73, 0x20, 0x6D, 0x75, 0x6C,
            0x74, 0x69, 0x70, 0x6C, 0x65, 0x20, 0x64, 0x69, 0x73, 0x63, 0x6F, 0x6E, 0x6E, 0x65,
            0x63, 0x74, 0x65, 0x64, 0x20, 0x70, 0x61, 0x74, 0x74, 0x65, 0x72, 0x6E, 0x73, 0x2C,
            0x20, 0x74, 0x68, 0x69, 0x73, 0x20, 0x77, 0x69, 0x6C, 0x6C, 0x20, 0x62, 0x75, 0x69,
            0x6C, 0x64, 0x20, 0x61, 0x20, 0x63, 0x61, 0x72, 0x74, 0x65, 0x73, 0x69, 0x61, 0x6E,
            0x20, 0x70, 0x72, 0x6F, 0x64, 0x75, 0x63, 0x74, 0x20, 0x62, 0x65, 0x74, 0x77, 0x65,
            0x65, 0x6E, 0x20, 0x61, 0x6C, 0x6C, 0x20, 0x74, 0x68, 0x6F, 0x73, 0x65, 0x20, 0x70,
            0x61, 0x72, 0x74, 0x73, 0x2E, 0x20, 0x54, 0x68, 0x69, 0x73, 0x20, 0x6D, 0x61, 0x79,
            0x20, 0x70, 0x72, 0x6F, 0x64, 0x75, 0x63, 0x65, 0x20, 0x61, 0x20, 0x6C, 0x61, 0x72,
            0x67, 0x65, 0x20, 0x61, 0x6D, 0x6F, 0x75, 0x6E, 0x74, 0x20, 0x6F, 0x66, 0x20, 0x64,
            0x61, 0x74, 0x61, 0x20, 0x61, 0x6E, 0x64, 0x20, 0x73, 0x6C, 0x6F, 0x77, 0x20, 0x64,
            0x6F, 0x77, 0x6E, 0x20, 0x71, 0x75, 0x65, 0x72, 0x79, 0x20, 0x70, 0x72, 0x6F, 0x63,
            0x65, 0x73, 0x73, 0x69, 0x6E, 0x67, 0x2E, 0x20, 0x57, 0x68, 0x69, 0x6C, 0x65, 0x20,
            0x6F, 0x63, 0x63, 0x61, 0x73, 0x69, 0x6F, 0x6E, 0x61, 0x6C, 0x6C, 0x79, 0x20, 0x69,
            0x6E, 0x74, 0x65, 0x6E, 0x64, 0x65, 0x64, 0x2C, 0x20, 0x69, 0x74, 0x20, 0x6D, 0x61,
            0x79, 0x20, 0x6F, 0x66, 0x74, 0x65, 0x6E, 0x20, 0x62, 0x65, 0x20, 0x70, 0x6F, 0x73,
            0x73, 0x69, 0x62, 0x6C, 0x65, 0x20, 0x74, 0x6F, 0x20, 0x72, 0x65, 0x66, 0x6F, 0x72,
            0x6D, 0x75, 0x6C, 0x61, 0x74, 0x65, 0x20, 0x74, 0x68, 0x65, 0x20, 0x71, 0x75, 0x65,
            0x72, 0x79, 0x20, 0x74, 0x68, 0x61, 0x74, 0x20, 0x61, 0x76, 0x6F, 0x69, 0x64, 0x73,
            0x20, 0x74, 0x68, 0x65, 0x20, 0x75, 0x73, 0x65, 0x20, 0x6F, 0x66, 0x20, 0x74, 0x68,
            0x69, 0x73, 0x20, 0x63, 0x72, 0x6F, 0x73, 0x73, 0x20, 0x70, 0x72, 0x6F, 0x64, 0x75,
            0x63, 0x74, 0x2C, 0x20, 0x70, 0x65, 0x72, 0x68, 0x61, 0x70, 0x73, 0x20, 0x62, 0x79,
            0x20, 0x61, 0x64, 0x64, 0x69, 0x6E, 0x67, 0x20, 0x61, 0x20, 0x72, 0x65, 0x6C, 0x61,
            0x74, 0x69, 0x6F, 0x6E, 0x73, 0x68, 0x69, 0x70, 0x20, 0x62, 0x65, 0x74, 0x77, 0x65,
            0x65, 0x6E, 0x20, 0x74, 0x68, 0x65, 0x20, 0x64, 0x69, 0x66, 0x66, 0x65, 0x72, 0x65,
            0x6E, 0x74, 0x20, 0x70, 0x61, 0x72, 0x74, 0x73, 0x20, 0x6F, 0x72, 0x20, 0x62, 0x79,
            0x20, 0x75, 0x73, 0x69, 0x6E, 0x67, 0x20, 0x4F, 0x50, 0x54, 0x49, 0x4F, 0x4E, 0x41,
            0x4C, 0x20, 0x4D, 0x41, 0x54, 0x43, 0x48, 0x20, 0x28, 0x69, 0x64, 0x65, 0x6E, 0x74,
            0x69, 0x66, 0x69, 0x65, 0x72, 0x20, 0x69, 0x73, 0x3A, 0x20, 0x28, 0x6D, 0x29, 0x29,
            0x88, 0x70, 0x6F, 0x73, 0x69, 0x74, 0x69, 0x6F, 0x6E, 0xA3, 0x86, 0x6F, 0x66, 0x66,
            0x73, 0x65, 0x74, 0x00, 0x86, 0x63, 0x6F, 0x6C, 0x75, 0x6D, 0x6E, 0x01, 0x84, 0x6C,
            0x69, 0x6E, 0x65, 0x01,
    ];
    assert!(BoltMap::try_from_bytes(&bytes).is_ok());
    let (v, n) = decode(&bytes).unwrap();
    assert_eq!(n, bytes.len());
    assert_eq!(encode(&v).unwrap().len(), bytes.len());
}

#[test]
fn map_equality_ignores_entry_order() {
    let a = map_of(vec![("a", Value::Integer(1)), ("b", Value::Integer(2))]);
    let b = map_of(vec![("b", Value::Integer(2)), ("a", Value::Integer(1))]);
    assert_eq!(a, b);
    assert_eq!(Value::BoltMap(a), Value::BoltMap(b));
    let c = map_of(vec![("a", Value::Integer(1)), ("b", Value::Integer(3))]);
    let d = map_of(vec![("a", Value::Integer(1))]);
    assert_ne!(map_of(vec![("a", Value::Integer(1)), ("b", Value::Integer(2))]), c);
    assert_ne!(map_of(vec![("a", Value::Integer(1)), ("b", Value::Integer(2))]), d);
}

#[test]
fn float_equality_follows_ieee() {
    let nan = Value::Float(f64::NAN.to_bits());
    assert_ne!(nan, Value::Float(f64::NAN.to_bits()));
    assert_eq!(Value::Float(0.0_f64.to_bits()), Value::Float((-0.0_f64).to_bits()));
    assert_eq!(Value::Float(1.5_f64.to_bits()), Value::Float(1.5_f64.to_bits()));
    assert_ne!(Value::Float(1.5_f64.to_bits()), Value::Float(2.5_f64.to_bits()));
}

#[test]
fn values_of_different_kinds_differ() {
    assert_ne!(Value::Integer(1), Value::Boolean(true));
    assert_ne!(Value::List(vec![Value::Null]), Value::List(vec![]));
    assert_ne!(Value::String(s("a")), Value::String(s("b")));
}
