use ciborium::value::Integer;
use ciborium::value::Value as CborValue;
use int_tag::FieldSpec;
use int_tag::FieldType;
use int_tag::FieldValue;
use int_tag::Record;
use int_tag::RecordSchema;
use int_tag::encode_record_to_bytes;
use int_tag::decode_record_from_bytes;

fn person_schema() -> RecordSchema {
    RecordSchema::new(vec![
        FieldSpec { tag: 1, optional: false, ty: FieldType::Text },
        FieldSpec { tag: 2, optional: false, ty: FieldType::Uint },
        FieldSpec { tag: 3, optional: false, ty: FieldType::Bool },
    ])
    .unwrap()
}

fn person_record() -> Record {
    Record {
        fields: vec![
            Some(FieldValue::Text("test".to_string())),
            Some(FieldValue::Uint(42)),
            Some(FieldValue::Bool(true)),
        ],
    }
}

fn person_cbor() -> CborValue {
    CborValue::Map(vec![
        (
            CborValue::Integer(Integer::from(1u64)),
            CborValue::Text("test".to_string()),
        ),
        (
            CborValue::Integer(Integer::from(2u64)),
            CborValue::Integer(Integer::from(42u64)),
        ),
        (CborValue::Integer(Integer::from(3u64)), CborValue::Bool(true)),
    ])
}

#[test]
fn emitted_bytes_parse_as_the_expected_cbor_map() {
    let schema = person_schema();
    let buffer = encode_record_to_bytes(&schema, &person_record());
    let parsed: CborValue = ciborium::de::from_reader(&buffer[..]).unwrap();
    assert_eq!(parsed, person_cbor());
}

#[test]
fn emitted_bytes_match_reference_serializer() {
    let schema = person_schema();
    let ours = encode_record_to_bytes(&schema, &person_record());
    let mut reference = Vec::new();
    ciborium::ser::into_writer(&person_cbor(), &mut reference).unwrap();
    assert_eq!(ours, reference);
}

#[test]
fn reference_serializer_bytes_decode_to_the_record() {
    let schema = person_schema();
    let mut reference = Vec::new();
    ciborium::ser::into_writer(&person_cbor(), &mut reference).unwrap();
    let decoded = decode_record_from_bytes(&schema, &reference).unwrap();
    assert_eq!(decoded, person_record());
}

#[test]
fn nested_map_bytes_match_reference_serializer() {
    let schema = RecordSchema::new(vec![
        FieldSpec { tag: 1, optional: false, ty: FieldType::Uint },
        FieldSpec { tag: 7, optional: false, ty: FieldType::Record(person_schema()) },
    ])
    .unwrap();
    let rec = Record {
        fields: vec![
            Some(FieldValue::Uint(999)),
            Some(FieldValue::Record(person_record())),
        ],
    };
    let ours = encode_record_to_bytes(&schema, &rec);

    let outer = CborValue::Map(vec![
        (
            CborValue::Integer(Integer::from(1u64)),
            CborValue::Integer(Integer::from(999u64)),
        ),
        (CborValue::Integer(Integer::from(7u64)), person_cbor()),
    ]);
    let mut reference = Vec::new();
    ciborium::ser::into_writer(&outer, &mut reference).unwrap();
    assert_eq!(ours, reference);

    let back = decode_record_from_bytes(&schema, &ours).unwrap();
    assert_eq!(back, rec);
}
