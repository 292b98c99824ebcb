use int_tag::DecodeError;
use int_tag::FieldSpec;
use int_tag::FieldType;
use int_tag::FieldValue;
use int_tag::Record;
use int_tag::RecordSchema;
use int_tag::SchemaError;
use int_tag::Value;
use int_tag::decode_record_from_bytes;
use int_tag::default_record_for;
use int_tag::encode_record_to_bytes;

fn basic_schema() -> RecordSchema {
    RecordSchema::new(vec![
        FieldSpec { tag: 1, optional: false, ty: FieldType::Text },
        FieldSpec { tag: 2, optional: false, ty: FieldType::Uint },
        FieldSpec { tag: 3, optional: false, ty: FieldType::Bool },
    ])
    .unwrap()
}

fn basic_record(name: &str, age: u64, active: bool) -> Record {
    Record {
        fields: vec![
            Some(FieldValue::Text(name.to_string())),
            Some(FieldValue::Uint(age)),
            Some(FieldValue::Bool(active)),
        ],
    }
}

fn optional_schema() -> RecordSchema {
    RecordSchema::new(vec![
        FieldSpec { tag: 1, optional: true, ty: FieldType::Text },
        FieldSpec { tag: 2, optional: true, ty: FieldType::Uint },
    ])
    .unwrap()
}

#[test]
fn test_basic_struct() {
    let schema = basic_schema();
    let original = basic_record("test", 42, true);

    let buffer = encode_record_to_bytes(&schema, &original);

    let expected = vec![
        0xA3, // map(3)
        0x01, // unsigned(1)
        0x64, // text(4)
        0x74, 0x65, 0x73, 0x74, // "test"
        0x02, // unsigned(2)
        0x18, 0x2A, // unsigned(42)
        0x03, // unsigned(3)
        0xF5, // true
    ];
    assert_eq!(buffer, expected);

    let deserialized = decode_record_from_bytes(&schema, &buffer).unwrap();
    assert_eq!(original, deserialized);
}

#[test]
fn test_optional_struct_all_some() {
    let schema = optional_schema();
    let original = Record {
        fields: vec![
            Some(FieldValue::Text("Alice".to_string())),
            Some(FieldValue::Uint(25)),
        ],
    };

    let buffer = encode_record_to_bytes(&schema, &original);

    let expected = vec![
        0xA2, // map(2)
        0x01, // unsigned(1)
        0x65, // text(5)
        0x41, 0x6C, 0x69, 0x63, 0x65, // "Alice"
        0x02, // unsigned(2)
        0x18, 0x19, // unsigned(25) - minimal encoding
    ];
    assert_eq!(buffer, expected);

    let deserialized = decode_record_from_bytes(&schema, &buffer).unwrap();
    assert_eq!(original, deserialized);
}

#[test]
fn test_optional_struct_all_none() {
    let schema = optional_schema();
    let original = Record { fields: vec![None, None] };

    let buffer = encode_record_to_bytes(&schema, &original);

    let expected = vec![0xA0]; // empty map
    assert_eq!(buffer, expected);

    let deserialized = decode_record_from_bytes(&schema, &buffer).unwrap();
    assert_eq!(original, deserialized);
}

#[test]
fn test_nested_struct() {
    let schema = RecordSchema::new(vec![
        FieldSpec { tag: 1, optional: false, ty: FieldType::Uint },
        FieldSpec { tag: 2, optional: false, ty: FieldType::Record(basic_schema()) },
    ])
    .unwrap();
    let original = Record {
        fields: vec![
            Some(FieldValue::Uint(123)),
            Some(FieldValue::Record(basic_record("Bob", 30, false))),
        ],
    };

    let buffer = encode_record_to_bytes(&schema, &original);

    let expected = vec![
        0xA2, // map(2)
        0x01, // unsigned(1)
        0x18, 0x7B, // unsigned(123)
        0x02, // unsigned(2)
        0xA3, // map(3)
        0x01, // unsigned(1)
        0x63, // text(3)
        0x42, 0x6F, 0x62, // "Bob"
        0x02, // unsigned(2)
        0x18, 0x1E, // unsigned(30)
        0x03, // unsigned(3)
        0xF4, // false
    ];
    assert_eq!(buffer, expected);

    let deserialized = decode_record_from_bytes(&schema, &buffer).unwrap();
    assert_eq!(original, deserialized);
}

#[test]
fn test_map_struct() {
    let schema = RecordSchema::new(vec![
        FieldSpec { tag: 1, optional: false, ty: FieldType::Dict },
    ])
    .unwrap();
    let scores = vec![
        (Value::Uint(1), Value::Text("one".to_string())),
        (Value::Uint(2), Value::Text("two".to_string())),
    ];
    let original = Record { fields: vec![Some(FieldValue::Dict(scores))] };

    let buffer = encode_record_to_bytes(&schema, &original);

    let expected = vec![
        0xA1, // map(1)
        0x01, // unsigned(1)
        0xA2, // map(2)
        0x01, // unsigned(1)
        0x63, // text(3)
        0x6F, 0x6E, 0x65, // "one"
        0x02, // unsigned(2)
        0x63, // text(3)
        0x74, 0x77, 0x6F, // "two"
    ];
    assert_eq!(buffer, expected);

    let deserialized = decode_record_from_bytes(&schema, &buffer).unwrap();
    assert_eq!(original, deserialized);
}

#[test]
fn test_missing_tags_deserialization() {
    let partial_data = vec![
        0xA1, // map(1)
        0x01, // unsigned(1)
        0x64, // text(4)
        0x74, 0x65, 0x73, 0x74, // "test"
    ];

    let schema = basic_schema();
    let deserialized = decode_record_from_bytes(&schema, &partial_data).unwrap();
    let expected = basic_record("test", 0, false);
    assert_eq!(deserialized, expected);
}

#[test]
fn test_extra_tags_deserialization() {
    let extra_data = vec![
        0xA4, // map(4)
        0x01, // unsigned(1)
        0x64, // text(4)
        0x74, 0x65, 0x73, 0x74, // "test"
        0x02, // unsigned(2)
        0x18, 0x2A, // unsigned(42)
        0x03, // unsigned(3)
        0xF5, // true
        0x04, // unsigned(4) - unknown tag
        0x18, 0xFF, // unsigned(255)
    ];

    let schema = basic_schema();
    let deserialized = decode_record_from_bytes(&schema, &extra_data).unwrap();
    let expected = basic_record("test", 42, true);
    assert_eq!(deserialized, expected);
}

#[test]
fn test_empty_map_deserialization() {
    let empty_data = vec![0xA0]; // empty map

    let schema = basic_schema();
    let deserialized = decode_record_from_bytes(&schema, &empty_data).unwrap();
    let expected = default_record_for(&schema);
    assert_eq!(deserialized, expected);
    assert_eq!(expected, basic_record("", 0, false));
}

#[test]
fn duplicate_tag_last_occurrence_wins() {
    let duplicate_data = vec![
        0xA2, // map(2)
        0x02, // unsigned(2)
        0x0A, // unsigned(10)
        0x02, // unsigned(2)
        0x18, 0x2A, // unsigned(42)
    ];

    let schema = basic_schema();
    let deserialized = decode_record_from_bytes(&schema, &duplicate_data).unwrap();
    assert_eq!(deserialized, basic_record("", 42, false));
}

#[test]
fn count_matches_present_optional_fields() {
    let schema = optional_schema();
    let cases: Vec<(Option<&str>, Option<u64>, u8)> = vec![
        (None, None, 0xA0),
        (Some("a"), None, 0xA1),
        (None, Some(7), 0xA1),
        (Some("a"), Some(7), 0xA2),
    ];
    for (name, age, head) in cases {
        let rec = Record {
            fields: vec![
                name.map(|s| FieldValue::Text(s.to_string())),
                age.map(FieldValue::Uint),
            ],
        };
        let buffer = encode_record_to_bytes(&schema, &rec);
        assert_eq!(buffer[0], head);
        let back = decode_record_from_bytes(&schema, &buffer).unwrap();
        assert_eq!(back, rec);
    }
}

#[test]
fn absent_optional_tag_never_on_wire() {
    let schema = optional_schema();
    let rec = Record {
        fields: vec![Some(FieldValue::Text("x".to_string())), None],
    };
    let buffer = encode_record_to_bytes(&schema, &rec);
    // map(1) holding only tag 1; tag 2 appears nowhere.
    assert_eq!(buffer, vec![0xA1, 0x01, 0x61, 0x78]);
}

#[test]
fn wrong_type_under_known_tag_fails() {
    let schema = basic_schema();
    // tag 1 declared Text, carrying true
    let data = vec![0xA1, 0x01, 0xF5];
    assert_eq!(
        decode_record_from_bytes(&schema, &data),
        Err(DecodeError::WrongType)
    );
}

#[test]
fn non_integer_key_fails() {
    let schema = basic_schema();
    // map(1) with text key "a"
    let data = vec![0xA1, 0x61, 0x61, 0x01];
    assert_eq!(
        decode_record_from_bytes(&schema, &data),
        Err(DecodeError::NonIntegerKey)
    );
}

#[test]
fn top_level_non_map_fails() {
    let schema = basic_schema();
    // unsigned(42), not a map
    let data = vec![0x18, 0x2A];
    assert_eq!(
        decode_record_from_bytes(&schema, &data),
        Err(DecodeError::ExpectedMap)
    );
}

#[test]
fn truncated_input_fails() {
    let schema = basic_schema();
    // map(1) with a key and no value
    let data = vec![0xA1, 0x01];
    assert_eq!(
        decode_record_from_bytes(&schema, &data),
        Err(DecodeError::Malformed)
    );
    // reserved header byte
    let reserved = vec![0x1C];
    assert_eq!(
        decode_record_from_bytes(&schema, &reserved),
        Err(DecodeError::Malformed)
    );
    // invalid UTF-8 under a text header
    let bad_text = vec![0xA1, 0x01, 0x62, 0xFF, 0xFE];
    assert_eq!(
        decode_record_from_bytes(&schema, &bad_text),
        Err(DecodeError::Malformed)
    );
}

#[test]
fn duplicate_tag_schema_rejected() {
    let r = RecordSchema::new(vec![
        FieldSpec { tag: 1, optional: false, ty: FieldType::Uint },
        FieldSpec { tag: 1, optional: false, ty: FieldType::Bool },
    ]);
    assert_eq!(r, Err(SchemaError::DuplicateTag));
}

#[test]
fn wide_integers_round_trip() {
    let schema = RecordSchema::new(vec![
        FieldSpec { tag: 1, optional: false, ty: FieldType::Uint },
    ])
    .unwrap();
    for n in [
        0u64,
        23,
        24,
        255,
        256,
        65535,
        65536,
        0xFFFF_FFFF,
        0x1_0000_0000,
        u64::MAX,
    ] {
        let rec = Record { fields: vec![Some(FieldValue::Uint(n))] };
        let buffer = encode_record_to_bytes(&schema, &rec);
        let back = decode_record_from_bytes(&schema, &buffer).unwrap();
        assert_eq!(back, rec);
    }
    let max = Record { fields: vec![Some(FieldValue::Uint(u64::MAX))] };
    let buffer = encode_record_to_bytes(&schema, &max);
    assert_eq!(
        buffer,
        vec![0xA1, 0x01, 0x1B, 0xFF, 0xFF, 0xFF, 0xFF, 0xFF, 0xFF, 0xFF, 0xFF]
    );
}

#[test]
fn non_minimal_integer_accepted_on_decode() {
    let schema = basic_schema();
    // tag 2 as unsigned(5) in a needlessly wide two-byte form
    let data = vec![0xA1, 0x02, 0x19, 0x00, 0x05];
    let deserialized = decode_record_from_bytes(&schema, &data).unwrap();
    assert_eq!(deserialized, basic_record("", 5, false));
}

#[test]
fn multibyte_text_round_trips() {
    let schema = RecordSchema::new(vec![
        FieldSpec { tag: 1, optional: false, ty: FieldType::Text },
    ])
    .unwrap();
    let rec = Record {
        fields: vec![Some(FieldValue::Text("caf\u{e9} \u{1F600}".to_string()))],
    };
    let buffer = encode_record_to_bytes(&schema, &rec);
    let back = decode_record_from_bytes(&schema, &buffer).unwrap();
    assert_eq!(back, rec);
}
