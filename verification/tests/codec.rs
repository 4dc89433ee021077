use constelladb::codec::{decode_values, encode_value, encode_values};
use constelladb::model::{Type, Value};

#[test]
fn encode_int_and_text() {
    assert_eq!(encode_value(Type::Int, &Value::Int(1)), Some(vec![1, 0, 0, 0]));
    assert_eq!(encode_value(Type::Int, &Value::Int(-1)), Some(vec![255, 255, 255, 255]));
    assert_eq!(encode_value(Type::VarChar(4), &Value::VarChar("ab".to_string())), Some(vec![b'a', b'b', 0, 0]));
    assert_eq!(encode_value(Type::VarChar(2), &Value::VarChar("abc".to_string())), Some(vec![b'a', b'b']));
    assert_eq!(encode_value(Type::Int, &Value::VarChar("x".to_string())), None);
    assert_eq!(encode_value(Type::VarChar(3), &Value::Int(1)), None);
}

#[test]
fn decode_column_values() {
    let vs = decode_values(Type::Int, &[5, 0, 0, 0, 0, 1, 0, 0, 1]);
    assert_eq!(vs.len(), 2);
    assert!(matches!(vs[0], Value::Int(5)));
    assert!(matches!(vs[1], Value::Int(256)));
    let ts = decode_values(Type::VarChar(3), &[b'h', b'i', 0, b'a', 0, b'b']);
    assert!(matches!(&ts[0], Value::VarChar(s) if s == "hi"));
    // only trailing NULs are removed
    assert!(matches!(&ts[1], Value::VarChar(s) if s == "a\0b"));
}

#[test]
fn encode_column_stops_at_mismatch() {
    let vals = vec![Value::Int(1), Value::VarChar("x".to_string()), Value::Int(2)];
    let (bytes, ok) = encode_values(Type::Int, &vals);
    assert_eq!(bytes, vec![1, 0, 0, 0]);
    assert!(!ok);
    let (bytes, ok) = encode_values(Type::Int, &vec![Value::Int(1), Value::Int(2)]);
    assert_eq!(bytes, vec![1, 0, 0, 0, 2, 0, 0, 0]);
    assert!(ok);
}

#[test]
fn multibyte_text_cut_mid_character() {
    // "é" takes two bytes; a width of one keeps the first only, which reads as U+FFFD
    let b = encode_value(Type::VarChar(1), &Value::VarChar("é".to_string())).unwrap();
    assert_eq!(b, vec![0xc3]);
    let vs = decode_values(Type::VarChar(1), &b);
    assert!(matches!(&vs[0], Value::VarChar(s) if s == "\u{FFFD}"));
}
