use b_fast::{decode, BFast, BFastError, TimeKind, Value};

fn encode(value: &Value) -> Vec<u8> {
    let mut engine = BFast::new();
    engine.encode_packed(value, false).unwrap()
}

fn person(i: i64) -> Value {
    Value::Record(vec![
        ("id".to_string(), Value::Int(i)),
        ("name".to_string(), Value::Text(format!("user{}", i))),
        ("score".to_string(), Value::Float((i as f64 * 0.5).to_bits())),
        ("active".to_string(), Value::Bool(i % 2 == 0)),
    ])
}

fn copy(value: &Value) -> Value {
    match value {
        Value::Null => Value::Null,
        Value::Bool(b) => Value::Bool(*b),
        Value::Int(n) => Value::Int(*n),
        Value::Float(bits) => Value::Float(*bits),
        Value::Text(s) => Value::Text(s.clone()),
        Value::Bytes(b) => Value::Bytes(b.clone()),
        Value::Sequence(items) => Value::Sequence(items.iter().map(copy).collect()),
        Value::Record(pairs) => {
            Value::Record(pairs.iter().map(|(k, v)| (k.clone(), copy(v))).collect())
        }
        Value::NumericArray(xs) => Value::NumericArray(xs.clone()),
        Value::Timestamp { kind, text } => Value::Timestamp { kind: *kind, text: text.clone() },
        Value::Uuid(s) => Value::Uuid(s.clone()),
        Value::Decimal(s) => Value::Decimal(s.clone()),
    }
}

#[test]
fn homogeneous_batch_is_written_as_the_generic_path_writes_it() {
    let records: Vec<Value> = (0..20).map(person).collect();
    let out = encode(&Value::Sequence(records.iter().map(copy).collect()));
    // Expected stream, put together by hand from single records.
    let mut expected = vec![0x42, 0x46, 0, 1, 4, 0];
    for key in ["id", "name", "score", "active"] {
        expected.push(key.len() as u8);
        expected.extend_from_slice(key.as_bytes());
    }
    expected.extend_from_slice(&[0x60, 20, 0, 0, 0]);
    for record in &records {
        let alone = encode(record);
        expected.extend_from_slice(&alone[6 + 3 + 5 + 6 + 7..]);
    }
    assert_eq!(out, expected);
}

#[test]
fn batch_and_generic_path_agree_byte_for_byte() {
    for count in [1usize, 8, 9, 20, 300] {
        let records: Vec<Value> = (0..count as i64).map(person).collect();
        let mut engine = BFast::new();
        let batch = engine.encode_batch(&records).unwrap();
        let batch_keys = engine.string_table();
        let value = Value::Sequence(records);
        let generic = engine.encode_generic(&value).unwrap();
        assert_eq!(batch, generic);
        assert_eq!(batch_keys, engine.string_table());
        assert_eq!(encode(&value), batch);
    }
}

#[test]
fn batch_with_extended_types_agrees_with_the_generic_path() {
    let records: Vec<Value> = (0..10)
        .map(|i| {
            Value::Record(vec![
                ("amount".to_string(), Value::Decimal(format!("{}.25", i))),
                ("tags".to_string(), Value::Sequence(vec![Value::Int(i), Value::Null])),
                ("raw".to_string(), Value::Bytes(vec![i as u8; 3])),
                ("inner".to_string(), Value::Record(vec![("amount".to_string(), Value::Int(i))])),
            ])
        })
        .collect();
    let mut engine = BFast::new();
    let batch = engine.encode_batch(&records).unwrap();
    let generic = engine.encode_generic(&Value::Sequence(records)).unwrap();
    assert_eq!(batch, generic);
}

#[test]
fn batch_differs_where_the_generic_path_interns_a_nested_key_first() {
    let records: Vec<Value> = (0..9)
        .map(|i| {
            Value::Record(vec![
                ("a".to_string(), Value::Record(vec![("x".to_string(), Value::Int(i))])),
                ("b".to_string(), Value::Int(i)),
            ])
        })
        .collect();
    let mut engine = BFast::new();
    let batch = engine.encode_batch(&records).unwrap();
    assert_eq!(engine.string_table(), ["a", "b", "x"]);
    let value = Value::Sequence(records);
    let generic = engine.encode_generic(&value).unwrap();
    assert_eq!(engine.string_table(), ["a", "x", "b"]);
    assert_ne!(batch, generic);
    assert_eq!(decode(&batch).unwrap(), value);
    assert_eq!(decode(&generic).unwrap(), value);
}

#[test]
fn the_batch_path_refuses_what_is_no_batch_of_records() {
    let mut engine = BFast::new();
    let mixed = vec![person(0), Value::Int(1)];
    assert_eq!(engine.encode_batch(&mixed), Err(BFastError::NotHomogeneousBatch));
    assert_eq!(engine.encode_batch(&vec![Value::Null]), Err(BFastError::NotHomogeneousBatch));
    assert_eq!(
        engine.encode_batch(&Vec::new()).unwrap(),
        vec![0x42, 0x46, 0, 1, 0, 0, 0x60, 0, 0, 0, 0]
    );
    let value = Value::Sequence(mixed);
    assert_eq!(decode(&encode(&value)).unwrap(), value);
}

#[test]
fn the_batch_path_projects_where_the_generic_path_does_not() {
    let records = vec![
        Value::Record(vec![("a".to_string(), Value::Int(1)), ("b".to_string(), Value::Int(2))]),
        Value::Record(vec![("b".to_string(), Value::Int(3)), ("c".to_string(), Value::Int(4))]),
    ];
    let mut engine = BFast::new();
    let batch = engine.encode_batch(&records).unwrap();
    assert_eq!(
        decode(&batch).unwrap(),
        Value::Sequence(vec![
            Value::Record(vec![("a".to_string(), Value::Int(1)), ("b".to_string(), Value::Int(2))]),
            Value::Record(vec![("a".to_string(), Value::Null), ("b".to_string(), Value::Int(3))]),
        ])
    );
    let value = Value::Sequence(records);
    let generic = engine.encode_generic(&value).unwrap();
    assert_eq!(decode(&generic).unwrap(), value);
}

#[test]
fn short_sequences_of_records_take_the_generic_path_with_the_same_bytes() {
    let eight: Vec<Value> = (0..8).map(person).collect();
    let nine: Vec<Value> = (0..9).map(person).collect();
    let short = encode(&Value::Sequence(eight));
    let long = encode(&Value::Sequence(nine));
    let last = encode(&person(8));
    let record = &last[6 + 3 + 5 + 6 + 7..];
    assert_eq!(long.len(), short.len() + record.len());
    assert_eq!(long[..28], short[..28]);
    assert_eq!(long[28], 9);
    assert_eq!(short[28], 8);
    assert_eq!(long[29..short.len()], short[29..]);
    assert_eq!(&long[short.len()..], record);
}

#[test]
fn element_three_of_twenty_lacking_a_field_decodes_it_as_null() {
    let mut records: Vec<Value> = (0..20).map(person).collect();
    records[3] = Value::Record(vec![
        ("id".to_string(), Value::Int(3)),
        ("score".to_string(), Value::Float(1.5f64.to_bits())),
        ("active".to_string(), Value::Bool(false)),
    ]);
    let out = encode(&Value::Sequence(records));
    let decoded = decode(&out).unwrap();
    let Value::Sequence(items) = decoded else { panic!("no sequence") };
    assert_eq!(items.len(), 20);
    assert_eq!(
        items[3],
        Value::Record(vec![
            ("id".to_string(), Value::Int(3)),
            ("name".to_string(), Value::Null),
            ("score".to_string(), Value::Float(1.5f64.to_bits())),
            ("active".to_string(), Value::Bool(false)),
        ])
    );
    for (i, item) in items.iter().enumerate() {
        if i != 3 {
            assert_eq!(*item, person(i as i64));
        }
    }
}

#[test]
fn fields_outside_the_layout_are_dropped_and_order_follows_the_layout() {
    let mut records: Vec<Value> = (0..10).map(person).collect();
    records[5] = Value::Record(vec![
        ("extra".to_string(), Value::Int(99)),
        ("active".to_string(), Value::Bool(true)),
        ("name".to_string(), Value::Text("swapped".to_string())),
        ("id".to_string(), Value::Int(5)),
        ("score".to_string(), Value::Null),
    ]);
    let mut engine = BFast::new();
    let out = engine.encode_packed(&Value::Sequence(records), false).unwrap();
    assert_eq!(engine.string_table(), ["id", "name", "score", "active"]);
    let Value::Sequence(items) = decode(&out).unwrap() else { panic!("no sequence") };
    assert_eq!(
        items[5],
        Value::Record(vec![
            ("id".to_string(), Value::Int(5)),
            ("name".to_string(), Value::Text("swapped".to_string())),
            ("score".to_string(), Value::Null),
            ("active".to_string(), Value::Bool(true)),
        ])
    );
}

#[test]
fn a_later_record_with_extended_types_is_still_written_in_full() {
    // The first record is simple, so the batch takes the lean leaf writer.
    let mut records: Vec<Value> = (0..10).map(person).collect();
    records[7] = Value::Record(vec![
        ("id".to_string(), Value::Decimal("7.00".to_string())),
        ("name".to_string(), Value::Uuid("00ff".to_string())),
        (
            "score".to_string(),
            Value::Timestamp { kind: TimeKind::Time, text: "12:00:00".to_string() },
        ),
        (
            "active".to_string(),
            Value::Sequence(vec![Value::Record(vec![("inner".to_string(), Value::Bytes(vec![1]))])]),
        ),
    ]);
    let expected = copy(&records[7]);
    let out = encode(&Value::Sequence(records));
    let Value::Sequence(items) = decode(&out).unwrap() else { panic!("no sequence") };
    assert_eq!(items[7], expected);
}

#[test]
fn a_batch_with_extended_types_in_the_first_record_comes_back() {
    let records: Vec<Value> = (0..12)
        .map(|i| {
            Value::Record(vec![
                ("when".to_string(), Value::Timestamp {
                    kind: TimeKind::DateTime,
                    text: format!("2024-01-{:02}T00:00:00", i + 1),
                }),
                ("amount".to_string(), Value::Decimal(format!("{}.50", i))),
                ("ref".to_string(), Value::Uuid(format!("{:032x}", i))),
                ("n".to_string(), Value::Int(i)),
            ])
        })
        .collect();
    let value = Value::Sequence(records);
    assert_eq!(decode(&encode(&value)).unwrap(), value);
}

#[test]
fn a_long_sequence_that_holds_more_than_records_takes_the_generic_path() {
    let mut items: Vec<Value> = (0..10).map(person).collect();
    items[9] = Value::Int(1);
    let value = Value::Sequence(items);
    let out = encode(&value);
    assert_eq!(decode(&out).unwrap(), value);
    let mut first_not_record: Vec<Value> = (0..10).map(person).collect();
    first_not_record[0] = Value::Null;
    let value = Value::Sequence(first_not_record);
    assert_eq!(decode(&encode(&value)).unwrap(), value);
}

#[test]
fn nested_records_in_a_batch_intern_their_keys_after_the_layout() {
    let records: Vec<Value> = (0..9)
        .map(|i| {
            Value::Record(vec![
                ("a".to_string(), Value::Record(vec![("x".to_string(), Value::Int(i))])),
                ("b".to_string(), Value::Int(i)),
            ])
        })
        .collect();
    let value = Value::Sequence(records);
    let mut engine = BFast::new();
    let out = engine.encode_packed(&value, false).unwrap();
    assert_eq!(engine.string_table(), ["a", "b", "x"]);
    assert_eq!(decode(&out).unwrap(), value);
    let eight = Value::Sequence(
        (0..8)
            .map(|i| {
                Value::Record(vec![
                    ("a".to_string(), Value::Record(vec![("x".to_string(), Value::Int(i))])),
                    ("b".to_string(), Value::Int(i)),
                ])
            })
            .collect(),
    );
    engine.encode_packed(&eight, false).unwrap();
    assert_eq!(engine.string_table(), ["a", "x", "b"]);
}
