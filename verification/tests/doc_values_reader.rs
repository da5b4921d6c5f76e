use cloudsearch::doc_values::{DocValueType, DocValuesField, DocValuesWriter};
use cloudsearch::doc_values_reader::DocValuesReader;
use cloudsearch::json::parse_json;
use cloudsearch::map::StringMap;
use cloudsearch::types::{FieldMapping, FieldType, IndexDocument};

fn keyword_field(offsets: &[u32], pool: &[u8], doc_count: u64) -> DocValuesField {
    let mut data = Vec::with_capacity(offsets.len() * 4 + pool.len());
    for off in offsets {
        data.extend_from_slice(&off.to_le_bytes());
    }
    data.extend_from_slice(pool);
    DocValuesField {
        field: "field".to_string(),
        value_type: DocValueType::Keyword,
        doc_count,
        data,
    }
}

fn i64_field(values: &[i64], vt: DocValueType) -> DocValuesField {
    let mut data = Vec::with_capacity(values.len() * 8);
    for v in values {
        data.extend_from_slice(&v.to_le_bytes());
    }
    DocValuesField {
        field: "field".to_string(),
        value_type: vt,
        doc_count: values.len() as u64,
        data,
    }
}

fn f64_field(values: &[f64]) -> DocValuesField {
    let mut data = Vec::with_capacity(values.len() * 8);
    for v in values {
        data.extend_from_slice(&v.to_le_bytes());
    }
    DocValuesField {
        field: "field".to_string(),
        value_type: DocValueType::Double,
        doc_count: values.len() as u64,
        data,
    }
}

fn bool_field(bits: u8, doc_count: u64) -> DocValuesField {
    DocValuesField {
        field: "field".to_string(),
        value_type: DocValueType::Boolean,
        doc_count,
        data: vec![bits],
    }
}

fn reader_with_field(field: DocValuesField) -> DocValuesReader {
    let mut fields = StringMap::new();
    fields.insert("field".to_string(), field);
    DocValuesReader::new(fields)
}

fn as_doubles(bits: Vec<u64>) -> Vec<f64> {
    bits.into_iter().map(f64::from_bits).collect()
}

#[test]
fn test_keywords_roundtrip() {
    // Build keyword field: pool has null byte + "apple" + "banana"
    // Offsets: [1, 6] (relative to pool start after 12-byte offset table)
    let pool = b"\x00applebanana";
    let offsets = [1u32, 6];
    let field = keyword_field(&offsets, pool, 2);
    let reader = reader_with_field(field);

    let keywords = reader.keywords("field").unwrap();
    assert_eq!(keywords, vec!["apple", "banana"]);
}

#[test]
fn test_keywords_returns_correct_strings() {
    // Pool layout: [null byte at 0][1:"a"][2:"bc"][4:"x"]
    // Offsets: doc0→1 ("a"), doc1→2 ("bc"), doc2→4 ("x")
    let pool = b"\x00abcx"; // pool[0]='\0', pool[1..2]="a", pool[2..4]="bc", pool[4..5]="x"
    let offsets = [1u32, 2, 4];
    let field = keyword_field(&offsets, pool, 3);
    let reader = reader_with_field(field);

    let keywords = reader.keywords("field").unwrap();
    assert_eq!(keywords, vec!["a", "bc", "x"]);
}

#[test]
fn test_keywords_with_different_lengths() {
    // Pool: [null byte][1:"hello"][7:"world!"][14:"test"]
    let pool = b"\x00hellotestworld!"; // approximate layout
    let offsets = [1u32, 7, 14]; // "hello"(6), "world!"(7), "test"(4)
    let field = keyword_field(&offsets, pool, 3);
    let reader = reader_with_field(field);

    let keywords = reader.keywords("field").unwrap();
    // This test verifies the reader correctly slices variable-length strings
    assert_eq!(keywords.len(), 3);
}

#[test]
fn test_i64_values_roundtrip() {
    let field = i64_field(&[42, -10, i64::MAX, i64::MIN], DocValueType::Long);
    let reader = reader_with_field(field);

    let values = reader.i64_values("field").unwrap();
    assert_eq!(values, [42, -10, i64::MAX, i64::MIN]);
}

#[test]
fn test_integer_values() {
    let field = i64_field(&[100, -50], DocValueType::Integer);
    let reader = reader_with_field(field);

    let values = reader.i64_values("field").unwrap();
    assert_eq!(values, [100, -50]);
}

#[test]
fn test_timestamp_values() {
    let ts = 1_600_000_000_000_i64;
    let field = i64_field(&[ts], DocValueType::Timestamp);
    let reader = reader_with_field(field);

    let values = reader.i64_values("field").unwrap();
    assert_eq!(values, [ts]);
}

#[test]
fn test_f64_values_roundtrip() {
    let field = f64_field(&[0.0, 2.0, -2.5e-10]);
    let reader = reader_with_field(field);

    let values = as_doubles(reader.f64_values("field").unwrap());
    assert_eq!(values, [0.0, 2.0, -2.5e-10]);
}

#[test]
fn test_boolean_values_roundtrip() {
    // Bits: doc0=true (bit0), doc1=false, doc2=true (bit2), doc3=false → 0b0000_0101
    let field = bool_field(0b0000_0101, 4);
    let reader = reader_with_field(field);

    let values = reader.bool_values("field").unwrap();
    assert_eq!(values, vec![true, false, true, false]);
}

#[test]
fn test_wrong_type_returns_none() {
    let field = i64_field(&[1, 2, 3], DocValueType::Integer);
    let reader = reader_with_field(field);

    // Ask for keyword data from an integer field
    assert!(reader.keywords("field").is_none());
    // Ask for f64 data from an integer field
    assert!(reader.f64_values("field").is_none());
    // Boolean from integer
    assert!(reader.bool_values("field").is_none());
}

#[test]
fn test_missing_field_returns_none() {
    let field = i64_field(&[1, 2, 3], DocValueType::Long);
    let reader = reader_with_field(field);

    assert!(reader.keywords("nonexistent").is_none());
    assert!(reader.i64_values("nonexistent").is_none());
    assert!(reader.f64_values("nonexistent").is_none());
    assert!(reader.bool_values("nonexistent").is_none());
}

#[test]
fn test_doc_count() {
    let field = i64_field(&[1, 2, 3, 4, 5], DocValueType::Long);
    let reader = reader_with_field(field);

    assert_eq!(reader.doc_count(), 5);
}

#[test]
fn test_empty_fields() {
    let reader = DocValuesReader::new(StringMap::new());
    assert_eq!(reader.doc_count(), 0);
    assert!(reader.fields().is_empty());
}

#[test]
fn test_fields_iterator() {
    let mut fields = StringMap::new();
    fields.insert("a".to_string(), i64_field(&[1], DocValueType::Long));
    fields.insert("b".to_string(), keyword_field(&[1], b"\x00x", 1));
    let reader = DocValuesReader::new(fields);

    let field_names: Vec<_> = reader.fields();
    assert_eq!(field_names, vec!["a", "b"]);
}

#[test]
fn test_keywords_truncated_offset_table() {
    // doc_count=3 but data only has 8 bytes (needs 12 for 3 offsets)
    let data = vec![1u8, 0, 0, 0, 6, 0, 0, 0]; // only 2 offsets, not 3
    let field = DocValuesField {
        field: "field".to_string(),
        value_type: DocValueType::Keyword,
        doc_count: 3,
        data,
    };
    let reader = reader_with_field(field);
    assert!(reader.keywords("field").is_none());
}

#[test]
fn test_i64_values_truncated_data() {
    // 3 values need 24 bytes, but only 20 bytes provided
    let mut data = vec![0u8; 20];
    data[0..8].copy_from_slice(&0_i64.to_le_bytes());
    data[8..16].copy_from_slice(&1_i64.to_le_bytes());
    let field = DocValuesField {
        field: "field".to_string(),
        value_type: DocValueType::Long,
        doc_count: 3,
        data,
    };
    let reader = reader_with_field(field);
    assert!(reader.i64_values("field").is_none());
}

#[test]
fn test_f64_values_truncated_data() {
    // 3 f64 values need 24 bytes, but only 16 bytes
    let mut data = vec![0u8; 16];
    data[..8].copy_from_slice(&1.0_f64.to_le_bytes());
    data[8..16].copy_from_slice(&2.0_f64.to_le_bytes());
    let field = DocValuesField {
        field: "field".to_string(),
        value_type: DocValueType::Double,
        doc_count: 3,
        data,
    };
    let reader = reader_with_field(field);
    assert!(reader.f64_values("field").is_none());
}

#[test]
fn test_bool_values_truncated_data() {
    // 10 docs need 2 bytes, but only 1 byte provided
    let field = DocValuesField {
        field: "field".to_string(),
        value_type: DocValueType::Boolean,
        doc_count: 10,
        data: vec![0b0000_0101],
    };
    let reader = reader_with_field(field);
    assert!(reader.bool_values("field").is_none());
}

#[test]
fn test_keywords_malformed_offset_past_pool() {
    // Offset table says doc0 starts at byte 100, but pool is only 10 bytes
    let pool = b"\x00abcdefghi"; // 11 bytes total (0-10)
    let offsets = [100u32, 0, 0]; // doc0 offset way past pool
    let mut data = Vec::new();
    for off in offsets {
        data.extend_from_slice(&off.to_le_bytes());
    }
    data.extend_from_slice(pool);
    let field = DocValuesField {
        field: "field".to_string(),
        value_type: DocValueType::Keyword,
        doc_count: 3,
        data,
    };
    let reader = reader_with_field(field);
    assert!(reader.keywords("field").is_none());
}

fn columns_of(field_type: FieldType, sources: &[&str]) -> DocValuesReader {
    let mut mappings = StringMap::new();
    mappings.insert("field".to_string(), FieldMapping { field_type });
    let documents: Vec<IndexDocument> = sources
        .iter()
        .map(|source| IndexDocument {
            id: "doc".to_string(),
            source: parse_json(source).expect("valid JSON"),
        })
        .collect();
    DocValuesReader::new(DocValuesWriter::build_from_documents(&documents, &mappings))
}

#[test]
fn written_columns_read_back() {
    let texts = columns_of(
        FieldType::Keyword,
        &[r#"{"field": "müller"}"#, r#"{}"#, r#"{"field": "b"}"#],
    );
    assert_eq!(texts.keywords("field").unwrap(), vec!["müller", "", "b"]);

    let integers = columns_of(FieldType::Long, &[r#"{"field": -3}"#, r#"{"field": 1.5}"#]);
    assert_eq!(integers.i64_values("field").unwrap(), [-3, 0]);

    let doubles = columns_of(FieldType::Double, &[r#"{"field": -0.5}"#, r#"{"field": 7}"#]);
    assert_eq!(as_doubles(doubles.f64_values("field").unwrap()), [-0.5, 7.0]);

    let booleans = columns_of(FieldType::Boolean, &[r#"{"field": true}"#, r#"{"field": 1}"#]);
    assert_eq!(booleans.bool_values("field").unwrap(), [true, false]);
}

#[test]
fn keywords_that_are_no_text_read_as_empty() {
    let reader = reader_with_field(keyword_field(&[1], b"\x00\xff\xfe", 1));
    assert_eq!(reader.keywords("field").unwrap(), vec![""]);
}
