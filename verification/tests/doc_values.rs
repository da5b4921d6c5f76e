use cloudsearch::doc_values::{fits_columns, DocValueType, DocValuesWriter};
use cloudsearch::json::{parse_json, Json};
use cloudsearch::map::StringMap;
use cloudsearch::types::{FieldMapping, FieldType, IndexDocument};

fn mapping(field_type: FieldType) -> StringMap<FieldMapping> {
    let mut mappings = StringMap::new();
    mappings.insert("field".to_string(), FieldMapping { field_type });
    mappings
}

fn json(text: &str) -> Json {
    parse_json(text).expect("valid JSON")
}

fn docs(values: &[&str]) -> Vec<IndexDocument> {
    values
        .iter()
        .enumerate()
        .map(|(i, v)| IndexDocument {
            id: format!("doc-{i}"),
            source: json(v),
        })
        .collect()
}

#[test]
fn test_encode_keyword_roundtrip() {
    let mappings = mapping(FieldType::Keyword);
    let documents = docs(&[
        r#"{"field": "apple"}"#,
        r#"{"field": "banana"}"#,
        r#"{"field": "cherry"}"#,
    ]);

    let fields = DocValuesWriter::build_from_documents(&documents, &mappings);
    let field = fields.get("field").expect("field exists");

    assert_eq!(field.doc_count, 3);
    assert_eq!(field.value_type, DocValueType::Keyword);

    // First 12 bytes (3 * 4) are the offset table
    let offsets = &field.data[..12];
    let pool = &field.data[12..];

    // Parse offsets and decode strings from pool
    let off0 = u32::from_le_bytes(offsets[0..4].try_into().unwrap()) as usize;
    let off1 = u32::from_le_bytes(offsets[4..8].try_into().unwrap()) as usize;
    let off2 = u32::from_le_bytes(offsets[8..12].try_into().unwrap()) as usize;
    let end2 = pool.len();

    let s0 = std::str::from_utf8(&pool[off0..off1]).unwrap();
    let s1 = std::str::from_utf8(&pool[off1..off2]).unwrap();
    let s2 = std::str::from_utf8(&pool[off2..end2]).unwrap();

    assert_eq!(s0, "apple");
    assert_eq!(s1, "banana");
    assert_eq!(s2, "cherry");
}

#[test]
fn test_encode_keyword_missing() {
    let mappings = mapping(FieldType::Keyword);
    let documents = docs(&[
        r#"{"field": "present"}"#,
        r#"{}"#, // missing field
        r#"{"field": "also-present"}"#,
    ]);

    let fields = DocValuesWriter::build_from_documents(&documents, &mappings);
    let field = fields.get("field").expect("field exists");

    // Verify doc_count is 3
    assert_eq!(field.doc_count, 3);

    // First offset should be > 0 (some string in pool after null byte)
    let off0 = u32::from_le_bytes(field.data[0..4].try_into().unwrap());
    assert!(off0 > 0, "first offset should be > 0 since 'present' is non-empty");

    // Second offset (missing doc) should be 0
    let off1 = u32::from_le_bytes(field.data[4..8].try_into().unwrap());
    assert_eq!(off1, 0, "missing field should have offset 0");

    // Third offset should be > off0 (the pool grew after adding "also-present")
    let off2 = u32::from_le_bytes(field.data[8..12].try_into().unwrap());
    assert!(off2 > off0, "third string should be stored after the second in pool");
}

fn words(data: &[u8]) -> Vec<i64> {
    data.chunks(8)
        .map(|c| i64::from_le_bytes(c.try_into().unwrap()))
        .collect()
}

fn doubles(data: &[u8]) -> Vec<f64> {
    data.chunks(8)
        .map(|c| f64::from_le_bytes(c.try_into().unwrap()))
        .collect()
}

#[test]
fn test_encode_i64_roundtrip() {
    let mappings = mapping(FieldType::Long);
    let max = format!("{{\"field\": {}}}", i64::MAX);
    let min = format!("{{\"field\": {}}}", i64::MIN);
    let documents = docs(&[r#"{"field": 42}"#, r#"{"field": -10}"#, &max, &min]);

    let fields = DocValuesWriter::build_from_documents(&documents, &mappings);
    let field = fields.get("field").expect("field exists");

    assert_eq!(field.doc_count, 4);
    assert_eq!(field.value_type, DocValueType::Long);
    assert_eq!(field.data.len(), 32); // 4 docs * 8 bytes
    assert_eq!(words(&field.data), [42, -10, i64::MAX, i64::MIN]);
}

#[test]
fn test_encode_i64_missing() {
    let mappings = mapping(FieldType::Long);
    let documents = docs(&[r#"{"field": 5}"#, r#"{}"#, r#"{"field": 99}"#]);

    let fields = DocValuesWriter::build_from_documents(&documents, &mappings);
    let field = fields.get("field").expect("field exists");

    assert_eq!(words(&field.data), [5, 0, 99]);
}

#[test]
fn test_encode_f64_roundtrip() {
    let mappings = mapping(FieldType::Double);
    let documents = docs(&[
        r#"{"field": 0.0}"#,
        r#"{"field": 2.5}"#,
        r#"{"field": -2.5e-10}"#,
    ]);

    let fields = DocValuesWriter::build_from_documents(&documents, &mappings);
    let field = fields.get("field").expect("field exists");

    assert_eq!(field.doc_count, 3);
    assert_eq!(field.value_type, DocValueType::Double);
    assert_eq!(doubles(&field.data), [0.0, 2.5, -2.5e-10]);
}

#[test]
fn test_encode_f64_missing() {
    let mappings = mapping(FieldType::Double);
    let documents = docs(&[r#"{}"#, r#"{"field": 1.5}"#]);

    let fields = DocValuesWriter::build_from_documents(&documents, &mappings);
    let field = fields.get("field").expect("field exists");

    assert_eq!(doubles(&field.data), [0.0, 1.5]);
}

#[test]
fn test_encode_boolean_roundtrip() {
    let mappings = mapping(FieldType::Boolean);
    let documents = docs(&[
        r#"{"field": true}"#,
        r#"{"field": false}"#,
        r#"{"field": true}"#,
        r#"{"field": false}"#,
    ]);

    let fields = DocValuesWriter::build_from_documents(&documents, &mappings);
    let field = fields.get("field").expect("field exists");

    assert_eq!(field.doc_count, 4);
    assert_eq!(field.value_type, DocValueType::Boolean);
    assert_eq!(field.data.len(), 1); // 4 docs / 8 = 1 byte

    // Bit packing: doc0=true → bit0, doc1=false → bit1 clear, doc2=true → bit2, doc3=false → bit3 clear
    // byte 0 = 0b0000_0101 = 5
    assert_eq!(field.data[0], 0b0000_0101);
}

#[test]
fn test_encode_boolean_all_true() {
    let mappings = mapping(FieldType::Boolean);
    let documents = docs(&[
        r#"{"field": true}"#,
        r#"{"field": true}"#,
        r#"{"field": true}"#,
        r#"{"field": true}"#,
    ]);

    let fields = DocValuesWriter::build_from_documents(&documents, &mappings);
    let field = fields.get("field").expect("field exists");

    assert_eq!(field.data[0], 0b0000_1111); // all 4 bits set
}

#[test]
fn test_encode_boolean_all_false() {
    let mappings = mapping(FieldType::Boolean);
    let documents = docs(&[
        r#"{"field": false}"#,
        r#"{"field": false}"#,
        r#"{"field": false}"#,
        r#"{"field": false}"#,
    ]);

    let fields = DocValuesWriter::build_from_documents(&documents, &mappings);
    let field = fields.get("field").expect("field exists");

    assert_eq!(field.data[0], 0b0000_0000); // all bits clear
}

#[test]
fn test_encode_empty_documents() {
    let mappings = mapping(FieldType::Keyword);
    let documents: Vec<IndexDocument> = vec![];

    let fields = DocValuesWriter::build_from_documents(&documents, &mappings);
    let field = fields.get("field").expect("field exists");

    assert_eq!(field.doc_count, 0);
    // Pool has 1 byte (null offset), offset table is empty
    assert_eq!(field.data.len(), 1);
    assert_eq!(field.data[0], 0); // null offset
}

#[test]
fn test_encode_timestamp() {
    let mappings = mapping(FieldType::Timestamp);
    let ts = 1_600_000_000_000_i64; // ~2020-09-28
    let documents = docs(&[&format!("{{\"field\": {ts}}}")]);

    let fields = DocValuesWriter::build_from_documents(&documents, &mappings);
    let field = fields.get("field").expect("field exists");

    assert_eq!(field.value_type, DocValueType::Timestamp);
    let val = i64::from_le_bytes(field.data.as_slice().try_into().unwrap());
    assert_eq!(val, ts);
}

#[test]
fn test_encode_integer() {
    let mappings = mapping(FieldType::Integer);
    let documents = docs(&[r#"{"field": 100}"#, r#"{"field": -50}"#]);

    let fields = DocValuesWriter::build_from_documents(&documents, &mappings);
    let field = fields.get("field").expect("field exists");

    assert_eq!(field.value_type, DocValueType::Integer);
    assert_eq!(words(&field.data), [100, -50]);
}

#[test]
fn objects_get_no_column() {
    let mut mappings = mapping(FieldType::Long);
    mappings.insert(
        "nested".to_string(),
        FieldMapping {
            field_type: FieldType::Object,
        },
    );
    let documents = docs(&[r#"{"field": 1, "nested": {"a": 2}}"#]);
    let fields = DocValuesWriter::build_from_documents(&documents, &mappings);
    assert_eq!(fields.len(), 1);
    assert!(fields.get("nested").is_none());
}

#[test]
fn small_texts_fit_their_columns() {
    let documents = docs(&[r#"{"field": "a"}"#, r#"{"field": "b"}"#]);
    assert!(fits_columns(&documents, &mapping(FieldType::Keyword)));
    assert!(fits_columns(&documents, &mapping(FieldType::Long)));
}

#[test]
fn nine_booleans_take_two_bytes() {
    let mappings = mapping(FieldType::Boolean);
    let values = vec![r#"{"field": true}"#; 9];
    let fields = DocValuesWriter::build_from_documents(&docs(&values), &mappings);
    let field = fields.get("field").expect("field exists");
    assert_eq!(field.data, vec![0xff, 0x01]);
}
