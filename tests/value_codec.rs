use yad::error::ErrorKind;
use yad::header::{choose_width, decode_header, ByteLength, Type};
use yad::value::Value;

fn kind_of<T: std::fmt::Debug>(r: Result<T, yad::error::ErrorMessage>) -> ErrorKind {
    r.unwrap_err().kind
}

#[test]
fn uint8_encodes_and_decodes() {
    let v = Value::from_u8(42);
    assert_eq!(v.bytes().clone(), vec![0x11, 0x2A]);
    let back = Value::decode(vec![0x11, 0x2A]).unwrap();
    assert_eq!(back.as_u8().unwrap(), 42);
    assert_eq!(back, v);
}

#[test]
fn string_encoding() {
    let v = Value::from_string("Johan".to_string()).unwrap();
    assert_eq!(v.bytes().clone(), vec![0x41, 0x05, b'J', b'o', b'h', b'a', b'n']);
    assert_eq!(v.as_string().unwrap(), "Johan");
}

#[test]
fn array_encoding() {
    let v = Value::from_vec(vec![Value::from_u8(20), Value::from_u8(50)]).unwrap();
    assert_eq!(v.bytes().clone(), vec![0x51, 0x02, 0x11, 0x14, 0x11, 0x32]);
    let items = v.as_array().unwrap();
    assert_eq!(items.len(), 2);
    assert_eq!(items[0].as_u8().unwrap(), 20);
    assert_eq!(items[1].as_u8().unwrap(), 50);
}

#[test]
fn choose_width_is_minimal() {
    assert_eq!(choose_width(1).unwrap(), ByteLength::One);
    assert_eq!(choose_width(255).unwrap(), ByteLength::One);
    assert_eq!(choose_width(256).unwrap(), ByteLength::Two);
    assert_eq!(choose_width(65535).unwrap(), ByteLength::Two);
    assert_eq!(choose_width(65536).unwrap(), ByteLength::Four);
    assert_eq!(choose_width(0xFFFF_FFFF).unwrap(), ByteLength::Four);
    assert_eq!(choose_width(0x1_0000_0000).unwrap(), ByteLength::Eight);
    assert_eq!(kind_of(choose_width(0)), ErrorKind::EmptyCollection);
}

#[test]
fn width_nibble_is_an_ordinal() {
    assert_eq!(Value::from_u32(1).bytes().clone(), vec![0x13, 0, 0, 0, 1]);
    assert_eq!(Value::from_u64(1).bytes().clone(), vec![0x14, 0, 0, 0, 0, 0, 0, 0, 1]);
    assert_eq!(Value::from_u16(0x0102).bytes().clone(), vec![0x12, 0x01, 0x02]);
    assert_eq!(decode_header(0x53).unwrap(), (Type::Array, ByteLength::Four));
    assert_eq!(decode_header(0x81).unwrap(), (Type::True, ByteLength::Zero));
    assert_eq!(decode_header(0x80).unwrap(), (Type::False, ByteLength::Zero));
}

#[test]
fn empty_collections_are_refused() {
    assert_eq!(kind_of(Value::from_string(String::new())), ErrorKind::EmptyCollection);
    assert_eq!(kind_of(Value::from_vec(Vec::new())), ErrorKind::EmptyCollection);
    assert_eq!(kind_of(Value::decode(vec![0x40])), ErrorKind::EmptyCollection);
    assert_eq!(kind_of(Value::decode(vec![0x50])), ErrorKind::EmptyCollection);
    assert_eq!(kind_of(Value::decode(vec![0x41, 0x00])), ErrorKind::EmptyCollection);
    assert_eq!(kind_of(Value::decode(vec![0x51, 0x00])), ErrorKind::EmptyCollection);
}

#[test]
fn numbers_round_trip() {
    let cases: Vec<Value> = vec![
        Value::from_u8(0xFE),
        Value::from_i8(-5),
        Value::from_u16(0xBEEF),
        Value::from_i16(-2),
        Value::from_u32(0xDEAD_BEEF),
        Value::from_i32(i32::MIN),
        Value::from_u64(u64::MAX),
        Value::from_i64(-1),
    ];
    for v in cases {
        let back = Value::decode(v.bytes().clone()).unwrap();
        assert_eq!(back, v);
    }
    assert_eq!(Value::from_i16(-2).bytes().clone(), vec![0x22, 0xFF, 0xFE]);
    assert_eq!(Value::from_i8(-5).as_i8().unwrap(), -5);
    assert_eq!(Value::from_i16(-2).as_i16().unwrap(), -2);
    assert_eq!(Value::from_i32(i32::MIN).as_i32().unwrap(), i32::MIN);
    assert_eq!(Value::from_i64(-1).as_i64().unwrap(), -1);
    assert_eq!(Value::from_i64(i64::MAX).as_i64().unwrap(), i64::MAX);
    assert_eq!(Value::from_u16(0xBEEF).as_u16().unwrap(), 0xBEEF);
    assert_eq!(Value::from_u32(0xDEAD_BEEF).as_u32().unwrap(), 0xDEAD_BEEF);
    assert_eq!(Value::from_u64(u64::MAX).as_u64().unwrap(), u64::MAX);
}

#[test]
fn float_payloads_keep_their_bits() {
    let half = Value::from_number(vec![0x32, 0x3C, 0x00]).unwrap();
    assert_eq!(half.isolate_value_bytes(), &[0x3C, 0x00]);
    let mini = Value::from_number(vec![0x31, 0x38, 0x99]).unwrap();
    assert_eq!(mini.bytes().clone(), vec![0x31, 0x38]);
    let back = Value::decode(mini.bytes().clone()).unwrap();
    assert_eq!(back.isolate_value_bytes(), &[0x38]);
    assert_eq!(back.kind(), Type::Float);
    assert_eq!(back.length(), ByteLength::One);
}

#[test]
fn booleans_are_single_bytes() {
    let t = Value::from_bool(true).unwrap();
    let f = Value::from_bool(false).unwrap();
    assert_eq!(t.bytes().clone(), vec![0x81]);
    assert_eq!(f.bytes().clone(), vec![0x80]);
    assert_eq!(Value::decode(vec![0x81]).unwrap().as_bool().unwrap(), true);
    assert_eq!(Value::decode(vec![0x80]).unwrap().as_bool().unwrap(), false);
    assert!(t.isolate_value_bytes().is_empty());
}

#[test]
fn nested_arrays_round_trip_in_order() {
    let inner = Value::from_vec(vec![Value::from_bool(true).unwrap(), Value::from_i8(-1)]).unwrap();
    let outer = Value::from_vec(vec![
        Value::from_string("ab".to_string()).unwrap(),
        inner,
        Value::from_u16(7),
    ])
    .unwrap();
    let bytes = outer.bytes().clone();
    assert_eq!(
        bytes,
        vec![0x51, 0x03, 0x41, 0x02, b'a', b'b', 0x51, 0x02, 0x81, 0x21, 0xFF, 0x12, 0x00, 0x07]
    );
    let back = Value::decode(bytes).unwrap();
    assert_eq!(back, outer);
    let items = back.as_array().unwrap();
    assert_eq!(items[0].as_string().unwrap(), "ab");
    assert_eq!(items[1].as_array().unwrap()[1].as_i8().unwrap(), -1);
    assert_eq!(items[2].as_u16().unwrap(), 7);
}

#[test]
fn strict_prefixes_are_truncated() {
    let v = Value::from_vec(vec![
        Value::from_string("héllo".to_string()).unwrap(),
        Value::from_u32(9),
        Value::from_vec(vec![Value::from_bool(false).unwrap()]).unwrap(),
    ])
    .unwrap();
    let bytes = v.bytes().clone();
    for k in 0..bytes.len() {
        let prefix = bytes[..k].to_vec();
        assert_eq!(kind_of(Value::decode(prefix)), ErrorKind::TruncatedInput);
    }
    assert_eq!(Value::decode(bytes).unwrap(), v);
}

#[test]
fn decode_ignores_trailing_bytes_and_reports_consumption() {
    let (v, used) = Value::decode_at(&[0x00, 0x11, 0x2A, 0xFF], 1).unwrap();
    assert_eq!(v.as_u8().unwrap(), 42);
    assert_eq!(used, 2);
    assert_eq!(Value::decode(vec![0x11, 0x2A, 0x99]).unwrap().as_u8().unwrap(), 42);
}

#[test]
fn non_minimal_widths_decode_to_canonical_values() {
    let v = Value::decode(vec![0x42, 0x00, 0x01, b'a']).unwrap();
    assert_eq!(v.as_string().unwrap(), "a");
    assert_eq!(v.bytes().clone(), vec![0x41, 0x01, b'a']);
}

#[test]
fn bad_headers_are_refused() {
    assert_eq!(kind_of(Value::decode(vec![0x60, 0x01])), ErrorKind::InvalidHeader);
    assert_eq!(kind_of(Value::decode(vec![0x15, 0x01])), ErrorKind::InvalidHeader);
    assert_eq!(kind_of(Value::decode(vec![0x10, 0x01])), ErrorKind::InvalidHeader);
    assert_eq!(kind_of(Value::decode(vec![0x82])), ErrorKind::InvalidHeader);
    assert_eq!(kind_of(Value::decode(vec![0xF3])), ErrorKind::InvalidHeader);
    assert_eq!(kind_of(Value::decode(Vec::new())), ErrorKind::TruncatedInput);
}

#[test]
fn invalid_utf8_is_refused() {
    assert_eq!(kind_of(Value::decode(vec![0x41, 0x01, 0xFF])), ErrorKind::InvalidUtf8);
    assert_eq!(kind_of(Value::decode(vec![0x41, 0x02, 0xC3, 0x28])), ErrorKind::InvalidUtf8);
}

#[test]
fn reading_the_wrong_type_fails() {
    let s = Value::from_string("x".to_string()).unwrap();
    assert_eq!(kind_of(s.as_u8()), ErrorKind::WrongType);
    assert_eq!(kind_of(s.as_bool()), ErrorKind::WrongType);
    assert_eq!(kind_of(s.as_array()), ErrorKind::WrongType);
    assert_eq!(kind_of(Value::from_u16(1).as_u8()), ErrorKind::WrongType);
    assert_eq!(kind_of(Value::from_u8(1).as_i8()), ErrorKind::WrongType);
    assert_eq!(kind_of(Value::from_u8(1).as_string()), ErrorKind::WrongType);
}

#[test]
fn from_number_takes_only_numbers() {
    assert_eq!(Value::from_number(vec![0x12, 0x01, 0x02]).unwrap().as_u16().unwrap(), 0x0102);
    assert_eq!(kind_of(Value::from_number(vec![0x41, 0x01, b'a'])), ErrorKind::WrongType);
    assert_eq!(kind_of(Value::from_number(vec![0x12, 0x01])), ErrorKind::TruncatedInput);
    assert_eq!(kind_of(Value::from_number(Vec::new())), ErrorKind::TruncatedInput);
}

#[test]
fn isolate_value_bytes_skips_header_and_count() {
    let s = Value::from_string("Johan".to_string()).unwrap();
    assert_eq!(s.isolate_value_bytes(), b"Johan");
    let a = Value::from_vec(vec![Value::from_u8(20)]).unwrap();
    assert_eq!(a.isolate_value_bytes(), &[0x11, 0x14]);
    assert_eq!(Value::from_i16(-2).isolate_value_bytes(), &[0xFF, 0xFE]);
}

#[test]
fn long_strings_use_wider_count_fields() {
    let text = "z".repeat(300);
    let v = Value::from_string(text.clone()).unwrap();
    assert_eq!(v.length(), ByteLength::Two);
    assert_eq!(&v.bytes()[..3], &[0x42, 0x01, 0x2C]);
    assert_eq!(Value::decode(v.bytes().clone()).unwrap().as_string().unwrap(), text);
}
