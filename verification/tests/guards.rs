use b_fast::{decode, BFast, BFastError, Value};

fn encode(value: &Value, compress: bool) -> Result<Vec<u8>, BFastError> {
    let mut engine = BFast::new();
    engine.encode_packed(value, compress)
}

fn nested_sequences(levels: usize) -> Value {
    let mut value = Value::Sequence(vec![]);
    for _ in 1..levels {
        value = Value::Sequence(vec![value]);
    }
    value
}

fn nested_records(levels: usize) -> Value {
    let mut value = Value::Record(vec![]);
    for _ in 1..levels {
        value = Value::Record(vec![("k".to_string(), value)]);
    }
    value
}

#[test]
fn sequence_nested_129_levels_fails() {
    assert_eq!(encode(&nested_sequences(129), false), Err(BFastError::RecursionLimitExceeded));
    assert_eq!(encode(&nested_sequences(129), true), Err(BFastError::RecursionLimitExceeded));
}

#[test]
fn sequence_nested_127_levels_succeeds() {
    let value = nested_sequences(127);
    let out = encode(&value, false).unwrap();
    assert_eq!(out.len(), 6 + 127 * 5);
    assert_eq!(decode(&out).unwrap(), value);
}

#[test]
fn sequence_nested_128_levels_is_the_deepest_that_succeeds() {
    let value = nested_sequences(128);
    assert_eq!(decode(&encode(&value, false).unwrap()).unwrap(), value);
}

#[test]
fn records_count_toward_the_depth_like_sequences() {
    assert!(encode(&nested_records(128), false).is_ok());
    assert_eq!(encode(&nested_records(129), false), Err(BFastError::RecursionLimitExceeded));
    let mixed = Value::Record(vec![("k".to_string(), nested_sequences(128))]);
    assert_eq!(encode(&mixed, false), Err(BFastError::RecursionLimitExceeded));
}

#[test]
fn decoding_refuses_nesting_beyond_the_ceiling() {
    let mut stream = vec![0x42, 0x46, 0, 1, 0, 0];
    for _ in 0..129 {
        stream.extend_from_slice(&[0x60, 1, 0, 0, 0]);
    }
    stream.push(0x10);
    assert_eq!(decode(&stream), Err(BFastError::RecursionLimitExceeded));
}

#[test]
fn record_key_of_256_bytes_fails() {
    let key = "k".repeat(256);
    let value = Value::Record(vec![(key.clone(), Value::Null)]);
    assert_eq!(encode(&value, false), Err(BFastError::StringTooLong(key)));
}

#[test]
fn record_key_of_255_bytes_succeeds() {
    let key = "k".repeat(255);
    let value = Value::Record(vec![(key.clone(), Value::Null)]);
    let out = encode(&value, false).unwrap();
    assert_eq!(out[4..7], [1, 0, 255]);
    assert_eq!(&out[7..7 + 255], key.as_bytes());
    assert_eq!(decode(&out).unwrap(), value);
}

#[test]
fn key_length_counts_bytes_and_not_characters() {
    let key = "é".repeat(128);
    assert_eq!(key.len(), 256);
    let value = Value::Record(vec![(key.clone(), Value::Null)]);
    assert_eq!(encode(&value, false), Err(BFastError::StringTooLong(key)));
}

#[test]
fn long_text_values_are_no_keys_and_pass() {
    let value = Value::Text("v".repeat(1000));
    assert_eq!(decode(&encode(&value, false).unwrap()).unwrap(), value);
}

#[test]
fn the_first_failure_in_writing_order_is_reported() {
    let long = "k".repeat(300);
    let deep_first = Value::Sequence(vec![
        nested_sequences(128),
        Value::Record(vec![(long.clone(), Value::Null)]),
    ]);
    assert_eq!(encode(&deep_first, false), Err(BFastError::RecursionLimitExceeded));
    let long_first = Value::Sequence(vec![
        Value::Record(vec![(long.clone(), Value::Null)]),
        nested_sequences(128),
    ]);
    assert_eq!(encode(&long_first, false), Err(BFastError::StringTooLong(long)));
}

#[test]
fn more_keys_than_the_header_can_count_fail() {
    let pairs: Vec<(String, Value)> = (0..65536).map(|i| (format!("{}", i), Value::Null)).collect();
    assert_eq!(encode(&Value::Record(pairs), false), Err(BFastError::LengthOverflow));
    let pairs: Vec<(String, Value)> = (0..65535).map(|i| (format!("{}", i), Value::Null)).collect();
    let out = encode(&Value::Record(pairs), false).unwrap();
    assert_eq!(out[4..6], [0xFF, 0xFF]);
}

fn record_with_keys(count: usize) -> Value {
    Value::Record((0..count).map(|i| (format!("key{}", i), Value::Int(i as i64))).collect())
}

#[test]
fn a_table_of_127_keys_comes_back() {
    let value = record_with_keys(127);
    assert_eq!(decode(&encode(&value, false).unwrap()).unwrap(), value);
    assert_eq!(decode(&encode(&value, true).unwrap()).unwrap(), value);
}

#[test]
fn key_id_127_is_read_as_the_end_of_the_record() {
    // The id's low byte is the end tag: the format cannot tell them apart.
    let value = record_with_keys(128);
    let out = encode(&value, false).unwrap();
    assert_ne!(decode(&out), Ok(value));
}

#[test]
fn a_compressed_stream_of_the_signature_length_is_taken_for_plain() {
    // 0x0100_4642 bytes of stream: its size prefix spells a plain header.
    let value = Value::Bytes(vec![0u8; 0x0100_4642 - 11]);
    let out = encode(&value, true).unwrap();
    assert_eq!(out[..4], [0x42, 0x46, 0x00, 0x01]);
    assert_ne!(decode(&out), Ok(value));
    let inner = b_fast::compress::decompress(&out).unwrap();
    assert_eq!(inner.len(), 0x0100_4642);
    assert_eq!(inner[..4], [0x42, 0x46, 0x01, 0x01]);
}
