use yad::document::current_version;
use yad::error::ErrorKind;
use yad::key::Key;
use yad::row::Row;
use yad::segment::{segment, segment_keys, segment_rows};
use yad::value::Value;
use yad::{deserialize, serialize, Version, YAD};

fn user_row(id_first: bool) -> Row {
    let id = Key::new("id".to_string(), Value::from_u8(42));
    let name = Key::new("name".to_string(), Value::from_string("Johan".to_string()).unwrap());
    let keys = if id_first { vec![id, name] } else { vec![name, id] };
    Row::new("user".to_string(), keys)
}

fn assert_user_row(row: &Row) {
    assert_eq!(row.name, "user");
    assert_eq!(row.get_keys().len(), 2);
    assert_eq!(row.get_key("id").unwrap().value.as_u8().unwrap(), 42);
    assert_eq!(row.get_key("name").unwrap().value.as_string().unwrap(), "Johan");
}

#[test]
fn user_document_round_trip() {
    for id_first in [true, false] {
        let mut doc = YAD::new_empty(Version::new(1, 0, 0, 0));
        doc.add_row(user_row(id_first));
        let bytes = doc.serialize().unwrap();
        assert_eq!(&bytes[..5], &[0xF0, 0x01, 0x00, 0x00, 0x00]);
        assert_eq!(bytes[5], 0xF1);
        assert_eq!(&bytes[6..12], &[0x61, 0x04, b'u', b's', b'e', b'r']);
        assert_eq!(*bytes.last().unwrap(), 0xF2);
        let back = YAD::deserialize(bytes).unwrap();
        assert_eq!(back.version, Version::new(1, 0, 0, 0));
        assert_eq!(back.get_rows().len(), 1);
        assert_user_row(back.get_row("user").unwrap());
    }
}

#[test]
fn key_insertion_order_does_not_matter() {
    let mut a = YAD::new();
    a.add_row(user_row(true));
    let mut b = YAD::new();
    b.add_row(user_row(false));
    let da = deserialize(serialize(&a).unwrap()).unwrap();
    let db = deserialize(serialize(&b).unwrap()).unwrap();
    assert_user_row(da.get_row("user").unwrap());
    assert_user_row(db.get_row("user").unwrap());
}

#[test]
fn marker_bytes_inside_names_and_values_round_trip() {
    let text = "a\u{F0000}b\u{100000}".to_string();
    assert!(text.as_bytes().contains(&0xF3));
    assert!(text.as_bytes().contains(&0xF4));
    let mut row = Row::new_empty("r".to_string());
    row.insert_key("k".to_string(), Value::from_string(text.clone()).unwrap());
    row.insert_key("n".to_string(), Value::from_u8(0xF4));
    let bytes = row.encode().unwrap();
    let back = Row::decode(bytes).unwrap();
    assert_eq!(back.get_key("k").unwrap().value.as_string().unwrap(), text);
    assert_eq!(back.get_key("n").unwrap().value.as_u8().unwrap(), 0xF4);
    let mut doc = YAD::new();
    doc.add_row(back);
    doc.insert_row("\u{F0000}".to_string(), vec![Key::new("x".to_string(), Value::from_u8(0xF2))]);
    let again = YAD::deserialize(doc.serialize().unwrap()).unwrap();
    assert_eq!(again.get_rows().len(), 2);
    assert_eq!(again.get_row("r").unwrap().get_key("k").unwrap().value.as_string().unwrap(), text);
    assert_eq!(again.get_row("\u{F0000}").unwrap().get_key("x").unwrap().value.as_u8().unwrap(), 0xF2);
}

#[test]
fn key_encoding_layout() {
    let key = Key::new("id".to_string(), Value::from_u8(42));
    let bytes = key.encode().unwrap();
    assert_eq!(bytes, vec![0xF3, 0x71, 0x02, b'i', b'd', 0x11, 0x2A, 0xF4]);
    assert_eq!(key.serialize().unwrap(), bytes);
    let back = Key::decode(bytes.clone()).unwrap();
    assert_eq!(back, key);
    assert_eq!(Key::deserialize(bytes).unwrap(), key);
}

#[test]
fn key_decoding_errors() {
    let err = |v: Vec<u8>| Key::decode(v).unwrap_err().kind;
    assert_eq!(err(vec![0xF3]), ErrorKind::MalformedBoundary);
    assert_eq!(err(vec![0x00, 0x71, 0x01, b'a', 0x11, 0x01, 0xF4]), ErrorKind::MalformedBoundary);
    assert_eq!(err(vec![0xF3, 0x71, 0x01, b'a', 0x11, 0x01, 0x00]), ErrorKind::MalformedBoundary);
    assert_eq!(err(vec![0xF3, 0x61, 0x01, b'a', 0x11, 0x01, 0xF4]), ErrorKind::MalformedName);
    assert_eq!(err(vec![0xF3, 0x70, 0x11, 0x01, 0xF4]), ErrorKind::EmptyCollection);
    assert_eq!(err(vec![0xF3, 0x71, 0x01, 0xFF, 0x11, 0x01, 0xF4]), ErrorKind::InvalidUtf8);
    assert_eq!(err(vec![0xF3, 0x71, 0x01, b'a', 0x11, 0x01, 0x80, 0xF4]), ErrorKind::MalformedBoundary);
    assert_eq!(err(vec![0xF3, 0x71, 0x01, b'a', 0x12, 0x01, 0xF4]), ErrorKind::TruncatedInput);
}

#[test]
fn empty_names_cannot_be_encoded() {
    let key = Key::new(String::new(), Value::from_u8(1));
    assert_eq!(key.encode().unwrap_err().kind, ErrorKind::EmptyCollection);
    let row = Row::new(String::new(), Vec::new());
    assert_eq!(row.encode().unwrap_err().kind, ErrorKind::EmptyCollection);
    let row = Row::new("r".to_string(), vec![Key::new(String::new(), Value::from_u8(1))]);
    assert_eq!(row.serialize().unwrap_err().kind, ErrorKind::EmptyCollection);
    let mut doc = YAD::new();
    doc.add_row(row);
    assert_eq!(doc.serialize().unwrap_err().kind, ErrorKind::EmptyCollection);
}

#[test]
fn duplicate_key_names_keep_the_last() {
    let row = Row::new(
        "r".to_string(),
        vec![Key::new("a".to_string(), Value::from_u8(1)), Key::new("a".to_string(), Value::from_u8(2))],
    );
    assert_eq!(row.get_keys().len(), 1);
    assert_eq!(row.get_key("a").unwrap().value.as_u8().unwrap(), 2);
    let bytes = vec![
        0xF1, 0x61, 0x01, b'r', 0xF3, 0x71, 0x01, b'a', 0x11, 0x01, 0xF4, 0xF3, 0x71, 0x01, b'a', 0x11, 0x02,
        0xF4, 0xF2,
    ];
    let back = Row::deserialize(bytes).unwrap();
    assert_eq!(back.get_keys().len(), 1);
    assert_eq!(back.get_key("a").unwrap().value.as_u8().unwrap(), 2);
}

#[test]
fn duplicate_row_names_keep_the_last() {
    let bytes = vec![
        0xF0, 1, 2, 3, 4, 0xF1, 0x61, 0x01, b'r', 0xF3, 0x71, 0x01, b'a', 0x11, 0x01, 0xF4, 0xF2, 0xF1, 0x61,
        0x01, b'r', 0xF2,
    ];
    let doc = deserialize(bytes).unwrap();
    assert_eq!(doc.version, Version::new(1, 2, 3, 4));
    assert_eq!(doc.get_rows().len(), 1);
    assert!(doc.get_row("r").unwrap().get_keys().is_empty());
}

#[test]
fn row_and_key_editing() {
    let mut row = Row::new_empty("r".to_string());
    row.new_key("a", Value::from_u8(1));
    row.add_key(Key::new("b".to_string(), Value::from_u8(2)));
    row.insert_key("a".to_string(), Value::from_u8(3));
    assert_eq!(row.get_keys().len(), 2);
    assert_eq!(row.get_key("a").unwrap().value.as_u8().unwrap(), 3);
    let removed = row.remove_key("a").unwrap();
    assert_eq!(removed.value.as_u8().unwrap(), 3);
    assert!(row.get_key("a").is_none());
    assert!(row.remove_key("a").is_none());
    let mut key = Key::new("k".to_string(), Value::from_u8(1));
    key.set_value(Value::from_bool(true).unwrap());
    assert_eq!(key.value.as_bool().unwrap(), true);
}

#[test]
fn document_editing() {
    let mut doc = YAD::new();
    assert_eq!(doc.version, current_version());
    doc.insert_row("a".to_string(), Vec::new());
    doc.add_row(Row::new_empty("b".to_string()));
    doc.insert_row("a".to_string(), vec![Key::new("k".to_string(), Value::from_u8(1))]);
    assert_eq!(doc.get_rows().len(), 2);
    assert_eq!(doc.get_row("a").unwrap().get_keys().len(), 1);
    assert!(doc.remove_row("b").is_some());
    assert!(doc.get_row("b").is_none());
    assert!(doc.remove_row("b").is_none());
}

#[test]
fn version_stamp() {
    let v = Version::new(1, 0, 0, 2);
    assert_eq!(v.serialize(), [0xF0, 1, 0, 0, 2]);
    assert_eq!(Version::decode(&[0xF0, 1, 0, 0, 2, 9]).unwrap(), v);
    assert_eq!(Version::deserialize(vec![0xF0, 1, 0, 0, 2]).unwrap(), v);
    assert_eq!(Version::decode(&[0xF0, 1, 0]).unwrap_err().kind, ErrorKind::MalformedVersion);
    assert_eq!(Version::decode(&[0xF1, 1, 0, 0, 0]).unwrap_err().kind, ErrorKind::MalformedVersion);
    assert!(Version::new(1, 0, 0, 1) > Version::new(1, 0, 0, 0));
    assert!(Version::new(1, 2, 0, 0) > Version::new(1, 1, 9, 9));
    assert!(Version::new(2, 0, 0, 0) > Version::new(1, 9, 9, 9));
}

#[test]
fn document_decoding_errors() {
    assert_eq!(deserialize(vec![0xF0, 1, 0]).unwrap_err().kind, ErrorKind::MalformedVersion);
    assert_eq!(deserialize(Vec::new()).unwrap_err().kind, ErrorKind::MalformedVersion);
    assert_eq!(deserialize(vec![0xF0, 1, 0, 0, 0, 0x00]).unwrap_err().kind, ErrorKind::MalformedBoundary);
    assert_eq!(
        deserialize(vec![0xF0, 1, 0, 0, 0, 0xF1, 0x61, 0x01, b'r']).unwrap_err().kind,
        ErrorKind::TruncatedInput
    );
    assert_eq!(
        deserialize(vec![0xF0, 1, 0, 0, 0, 0xF1, 0x71, 0x01, b'r', 0xF2]).unwrap_err().kind,
        ErrorKind::MalformedName
    );
    let empty = deserialize(vec![0xF0, 1, 0, 0, 0]).unwrap();
    assert!(empty.get_rows().is_empty());
}

#[test]
fn row_chunk_must_be_exact() {
    let row = Row::new("r".to_string(), vec![Key::new("a".to_string(), Value::from_u8(1))]);
    let mut bytes = row.encode().unwrap();
    bytes.push(0xF2);
    assert_eq!(Row::decode(bytes).unwrap_err().kind, ErrorKind::MalformedBoundary);
    assert_eq!(Row::decode(vec![0xF1]).unwrap_err().kind, ErrorKind::MalformedBoundary);
    let (back, used) = Row::decode_at(&row.encode().unwrap(), 0).unwrap();
    assert_eq!(back, row);
    assert_eq!(used, row.encode().unwrap().len());
}

#[test]
fn segmenter_splits_on_markers() {
    let segments = segment(&vec![0x01, 0x02, 0x03, 0x04, 0x02], &0x01, &0x04);
    assert_eq!(segments, vec![vec![0x01, 0x02, 0x03, 0x04]]);
    let keys = segment_keys(&vec![0xF3, 1, 0xF4, 0xF3, 2, 0xF4]);
    assert_eq!(keys.len(), 2);
    let rows = segment_rows(&vec![0xF1, 1, 0xF2, 0xF1, 2, 0xF2]);
    assert_eq!(rows, vec![vec![0xF1, 1, 0xF2], vec![0xF1, 2, 0xF2]]);
    let restarted = segment(&vec![0x01, 9, 0x01, 8, 0x04, 0x04], &0x01, &0x04);
    assert_eq!(restarted, vec![vec![0x01, 8, 0x04]]);
    assert!(segment(&vec![0x01, 9], &0x01, &0x04).is_empty());
}

#[test]
fn error_messages_are_readable() {
    let e = Value::decode(Vec::new()).unwrap_err();
    assert_eq!(e.message(), "Not enough bytes");
}
