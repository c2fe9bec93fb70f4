use b_fast::{BFast, BFastError, Value};

fn encode(value: &Value, compress: bool) -> Result<Vec<u8>, BFastError> {
    let mut engine = BFast::new();
    engine.encode_packed(value, compress)
}

#[test]
fn null_is_header_and_one_tag() {
    let out = encode(&Value::Null, false).unwrap();
    assert_eq!(out, vec![0x42, 0x46, 0x00, 0x01, 0x00, 0x00, 0x10]);
}

#[test]
fn small_int_boundary_is_inline_up_to_fifteen() {
    let fifteen = encode(&Value::Int(15), false).unwrap();
    assert_eq!(fifteen[6..], [0x3F]);
    let sixteen = encode(&Value::Int(16), false).unwrap();
    assert_eq!(sixteen[6..], [0x38, 16, 0, 0, 0, 0, 0, 0, 0]);
}

#[test]
fn record_keys_are_interned_in_first_seen_order() {
    let value = Value::Sequence(vec![
        Value::Record(vec![("b".to_string(), Value::Int(1)), ("a".to_string(), Value::Null)]),
        Value::Record(vec![("a".to_string(), Value::Bool(true))]),
    ]);
    let out = encode(&value, false).unwrap();
    let expected: Vec<u8> = vec![
        0x42, 0x46, 0x00, 0x01, 0x02, 0x00, // header, two keys
        1, b'b', 1, b'a', // string table
        0x60, 2, 0, 0, 0, // sequence of two
        0x70, 0, 0, 0, 0, 0x31, 1, 0, 0, 0, 0x10, 0x7F, // first record
        0x70, 1, 0, 0, 0, 0x21, 0x7F, // second record
    ];
    assert_eq!(out, expected);
}
