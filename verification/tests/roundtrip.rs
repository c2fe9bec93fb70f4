use b_fast::{decode, BFast, TimeKind, Value};

fn encode(value: &Value, compress: bool) -> Vec<u8> {
    let mut engine = BFast::new();
    engine.encode_packed(value, compress).unwrap()
}

fn text(s: &str) -> Value {
    Value::Text(s.to_string())
}

fn sample() -> Value {
    Value::Record(vec![
        ("id".to_string(), Value::Int(42)),
        ("name".to_string(), text("Ada Lovelace")),
        ("ratio".to_string(), Value::Float(0.25f64.to_bits())),
        ("active".to_string(), Value::Bool(true)),
        ("nothing".to_string(), Value::Null),
        ("blob".to_string(), Value::Bytes(vec![0, 1, 2, 0x7F, 0xFF])),
        ("tags".to_string(), Value::Sequence(vec![text("a"), text("b"), Value::Int(-1)])),
        ("samples".to_string(), Value::NumericArray(vec![1.5f64.to_bits(), (-2.0f64).to_bits()])),
        (
            "born".to_string(),
            Value::Timestamp { kind: TimeKind::Date, text: "1815-12-10".to_string() },
        ),
        (
            "seen".to_string(),
            Value::Timestamp { kind: TimeKind::DateTime, text: "2024-01-02T03:04:05".to_string() },
        ),
        ("at".to_string(), Value::Timestamp { kind: TimeKind::Time, text: "03:04:05".to_string() }),
        ("uuid".to_string(), Value::Uuid("123e4567e89b12d3a456426614174000".to_string())),
        ("price".to_string(), Value::Decimal("19.990000000000000001".to_string())),
        (
            "nested".to_string(),
            Value::Record(vec![("id".to_string(), Value::Int(7)), ("deep".to_string(), text("x"))]),
        ),
    ])
}

#[test]
fn every_kind_of_value_comes_back() {
    let value = sample();
    assert_eq!(decode(&encode(&value, false)).unwrap(), value);
}

#[test]
fn every_kind_of_value_comes_back_compressed() {
    let value = Value::Sequence(vec![sample(), sample(), sample(), sample()]);
    let out = encode(&value, true);
    assert_ne!(&out[..2], b"BF".as_slice());
    assert_eq!(decode(&out).unwrap(), value);
}

#[test]
fn integers_come_back_at_every_boundary() {
    for n in [0i64, 1, 7, 8, 9, 15, 16, 127, 128, 255, 256, -1, -16, i64::MAX, i64::MIN] {
        let out = encode(&Value::Int(n), false);
        assert_eq!(decode(&out).unwrap(), Value::Int(n), "{}", n);
    }
}

#[test]
fn small_int_inline_and_full_forms() {
    assert_eq!(encode(&Value::Int(0), false)[6..], [0x30]);
    assert_eq!(encode(&Value::Int(7), false)[6..], [0x37]);
    assert_eq!(encode(&Value::Int(8), false)[6..], [0x38, 8, 0, 0, 0, 0, 0, 0, 0]);
    assert_eq!(encode(&Value::Int(9), false)[6..], [0x39]);
    assert_eq!(encode(&Value::Int(15), false)[6..], [0x3F]);
    assert_eq!(encode(&Value::Int(16), false)[6..], [0x38, 16, 0, 0, 0, 0, 0, 0, 0]);
    assert_eq!(
        encode(&Value::Int(-1), false)[6..],
        [0x38, 0xFF, 0xFF, 0xFF, 0xFF, 0xFF, 0xFF, 0xFF, 0xFF]
    );
    assert_eq!(
        encode(&Value::Int(0x0102030405060708), false)[6..],
        [0x38, 8, 7, 6, 5, 4, 3, 2, 1]
    );
}

#[test]
fn float_bits_are_kept_even_for_nan() {
    let nan = f64::NAN.to_bits() | 0x1234;
    let out = encode(&Value::Float(nan), false);
    assert_eq!(out[6], 0x40);
    assert_eq!(out[7..], nan.to_le_bytes());
    assert_eq!(decode(&out).unwrap(), Value::Float(nan));
    let one = encode(&Value::Float(1.0f64.to_bits()), false);
    assert_eq!(one[6..], [0x40, 0, 0, 0, 0, 0, 0, 0xF0, 0x3F]);
}

#[test]
fn leaf_tags_and_lengths_are_exact() {
    assert_eq!(encode(&Value::Bool(false), false)[6..], [0x20]);
    assert_eq!(encode(&Value::Bool(true), false)[6..], [0x21]);
    assert_eq!(encode(&text("hi"), false)[6..], [0x50, 2, 0, 0, 0, b'h', b'i']);
    assert_eq!(encode(&text("é"), false)[6..], [0x50, 2, 0, 0, 0, 0xC3, 0xA9]);
    assert_eq!(encode(&Value::Bytes(vec![9, 8]), false)[6..], [0x80, 2, 0, 0, 0, 9, 8]);
    assert_eq!(encode(&Value::Sequence(vec![]), false)[6..], [0x60, 0, 0, 0, 0]);
    assert_eq!(encode(&Value::Record(vec![]), false)[6..], [0x70, 0x7F]);
    assert_eq!(encode(&Value::Uuid("ab".to_string()), false)[6..], [0xD4, 2, 0, 0, 0, b'a', b'b']);
    assert_eq!(encode(&Value::Decimal("1.0".to_string()), false)[6..], [0xD5, 3, 0, 0, 0, b'1', b'.', b'0']);
    let stamp = |kind| Value::Timestamp { kind, text: "x".to_string() };
    assert_eq!(encode(&stamp(TimeKind::DateTime), false)[6..], [0xD1, 1, 0, 0, 0, b'x']);
    assert_eq!(encode(&stamp(TimeKind::Date), false)[6..], [0xD2, 1, 0, 0, 0, b'x']);
    assert_eq!(encode(&stamp(TimeKind::Time), false)[6..], [0xD3, 1, 0, 0, 0, b'x']);
}

#[test]
fn numeric_array_is_count_and_raw_words() {
    let value = Value::NumericArray(vec![1.0f64.to_bits(), 2]);
    let out = encode(&value, false);
    assert_eq!(
        out[6..],
        [0x90, 2, 0, 0, 0, 0, 0, 0, 0, 0, 0, 0xF0, 0x3F, 2, 0, 0, 0, 0, 0, 0, 0]
    );
    assert_eq!(decode(&out).unwrap(), value);
}

#[test]
fn decimal_text_is_never_rounded() {
    let value = Value::Decimal("0.1000000000000000055511151231257827".to_string());
    assert_eq!(decode(&encode(&value, false)).unwrap(), value);
}

#[test]
fn round_trip_across_the_compression_threshold() {
    // Header 6 + tag 1 + length 4 = 11 bytes around the body.
    for body in [244usize, 245, 246, 300] {
        let value = Value::Bytes(vec![7u8; body]);
        let plain = encode(&value, false);
        assert_eq!(plain.len(), body + 11);
        let packed = encode(&value, true);
        if plain.len() <= 256 {
            assert_eq!(packed, plain);
            assert_eq!(packed[2], 0);
        } else {
            assert_ne!(packed, plain);
            assert_eq!(packed[..4], (plain.len() as u32).to_le_bytes());
        }
        assert_eq!(decode(&packed).unwrap(), value);
        assert_eq!(decode(&plain).unwrap(), value);
    }
}

#[test]
fn round_trip_across_the_chunking_threshold() {
    for total in [999_999usize, 1_000_000, 1_000_001] {
        let body: Vec<u8> = (0..total - 11).map(|i| (i % 251) as u8).collect();
        let value = Value::Bytes(body);
        let packed = encode(&value, true);
        assert_eq!(packed[..4], (total as u32).to_le_bytes());
        if total >= 1_000_000 {
            assert_eq!(packed[4..8], 4u32.to_le_bytes());
        }
        assert_eq!(decode(&packed).unwrap(), value);
    }
}

#[test]
fn compressed_flag_is_set_only_where_the_stream_was_compressed() {
    let small = Value::Bytes(vec![1u8; 10]);
    assert_eq!(encode(&small, true)[2], 0);
    let large = Value::Bytes(vec![1u8; 1000]);
    let inner = b_fast::compress::decompress(&encode(&large, true)).unwrap();
    assert_eq!(&inner[..4], &[0x42, 0x46, 0x01, 0x01]);
    assert_eq!(encode(&large, false)[2], 0);
}

#[test]
fn repeated_keys_share_one_id() {
    let value = Value::Sequence(vec![
        Value::Record(vec![("k".to_string(), Value::Int(1))]),
        Value::Record(vec![("k".to_string(), Value::Int(2))]),
        Value::Record(vec![("other".to_string(), Value::Int(3)), ("k".to_string(), Value::Int(4))]),
    ]);
    let mut engine = BFast::new();
    let out = engine.encode_packed(&value, false).unwrap();
    assert_eq!(engine.string_table(), vec!["k".to_string(), "other".to_string()]);
    assert_eq!(out[4..6], [2, 0]);
    assert_eq!(decode(&out).unwrap(), value);
}

#[test]
fn many_keys_that_collide_in_the_cache_keep_their_own_ids() {
    // Far more keys than cache slots, each looked up again afterwards.
    let names: Vec<String> = (0..120).map(|i| format!("field_{}", i)).collect();
    let first: Vec<(String, Value)> =
        names.iter().enumerate().map(|(i, n)| (n.clone(), Value::Int(i as i64))).collect();
    let second: Vec<(String, Value)> =
        names.iter().rev().enumerate().map(|(i, n)| (n.clone(), Value::Int(i as i64))).collect();
    let value = Value::Sequence(vec![Value::Record(first), Value::Record(second)]);
    let mut engine = BFast::new();
    let out = engine.encode_packed(&value, false).unwrap();
    assert_eq!(engine.string_table(), names);
    assert_eq!(decode(&out).unwrap(), value);
}

#[test]
fn an_engine_starts_every_call_with_an_empty_table() {
    let mut engine = BFast::new();
    let a = Value::Record(vec![("a".to_string(), Value::Null)]);
    let b = Value::Record(vec![("b".to_string(), Value::Null)]);
    engine.encode_packed(&a, false).unwrap();
    let out = engine.encode_packed(&b, false).unwrap();
    assert_eq!(engine.string_table(), vec!["b".to_string()]);
    assert_eq!(out, vec![0x42, 0x46, 0, 1, 1, 0, 1, b'b', 0x70, 0, 0, 0, 0, 0x10, 0x7F]);
}

#[test]
fn interning_is_the_same_in_two_fresh_engines() {
    let value = Value::Sequence(vec![sample(), sample()]);
    let mut first = BFast::new();
    let mut second = BFast::new();
    let out1 = first.encode_packed(&value, false).unwrap();
    let out2 = second.encode_packed(&value, false).unwrap();
    assert_eq!(out1, out2);
    assert_eq!(first.string_table(), second.string_table());
    assert_eq!(first.string_table()[..3], ["id".to_string(), "name".to_string(), "ratio".to_string()]);
}
