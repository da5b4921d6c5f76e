use cloudsearch::aggregations::{
    compute_date_histogram_aggregation, compute_stats_aggregation, compute_terms_aggregation,
    AggregationResult,
    DateHistogramAggregationResult, DateHistogramBucket, StatsAggregationResult,
    TermsAggregationResult, TermsBucket,
};
use cloudsearch::catalog::{
    create_index, create_index_at, legacy_segment, require_document, require_index,
    require_snapshot, update_index_settings,
};
use cloudsearch::compat::{
    multi_search_item, to_compat_search_response, write_result, CompatAggregation,
    MultiSearchOutcome,
};
use cloudsearch::config::AppConfig;
use cloudsearch::distance::{edit_distance, is_within_fuzziness};
use cloudsearch::doc_values::DocValuesWriter;
use cloudsearch::doc_values_reader::DocValuesReader;
use cloudsearch::errors::ApiError;
use cloudsearch::index::{IndexMetrics, SegmentSnapshot};
use cloudsearch::json::{parse_json, same_json, Json, JsonNumber};
use cloudsearch::map::StringMap;
use cloudsearch::mapping::{
    infer_field_type, validate_and_update_mappings, validate_search_request,
    MAX_FIELDS_PER_INDEX,
};
use cloudsearch::matching::{build_wildcard_regex, Score};
use cloudsearch::metrics::{AnswerTime, MetricsState};
use cloudsearch::numbers::{parse_i64, parse_numeric};
use cloudsearch::positions::{extract_positions, hash_doc_id};
use cloudsearch::requests::parse_search_request;
use cloudsearch::search::{HitsMetadata, SearchHit, SearchResponse};
use cloudsearch::text::tokenize;
use cloudsearch::time::{shift, truncate_timestamp, Timestamp};
use cloudsearch::types::{
    CloudSearchError, CreateIndexRequest, DateHistogramInterval, FieldMapping, FieldType,
    Fuzziness, IndexDocument, IndexMetadata, IndexSettings, MappingMode, UpdateSettingsRequest,
};

fn json(text: &str) -> Json {
    parse_json(text).expect("valid JSON")
}

fn plain() -> CreateIndexRequest {
    CreateIndexRequest {
        settings: IndexSettings::default(),
        mappings: None,
    }
}

fn in_namespace(namespace: &str) -> CreateIndexRequest {
    CreateIndexRequest {
        settings: IndexSettings {
            namespace: Some(namespace.to_string()),
            ..Default::default()
        },
        mappings: None,
    }
}

#[test]
fn test_cloudsearch_error_display() {
    assert_eq!(
        CloudSearchError::IndexAlreadyExists("my-index".to_string()).message(),
        "index 'my-index' already exists"
    );
    assert_eq!(
        CloudSearchError::IndexNotFound("logs".to_string()).message(),
        "index 'logs' not found"
    );
    assert_eq!(
        CloudSearchError::DocumentNotFound("doc-123".to_string()).message(),
        "document 'doc-123' not found"
    );
}

#[test]
fn each_error_has_its_words_and_its_status() {
    let told = |e: fn(String) -> CloudSearchError| {
        let (status, body) = ApiError(e("x".to_string())).response();
        (status, body.error)
    };
    let answer = |status: u16, text: &str| (status, text.to_string());
    assert_eq!(told(CloudSearchError::IndexAlreadyExists), answer(409, "index 'x' already exists"));
    assert_eq!(told(CloudSearchError::IndexNotFound), answer(404, "index 'x' not found"));
    assert_eq!(told(CloudSearchError::DocumentNotFound), answer(404, "document 'x' not found"));
    assert_eq!(told(CloudSearchError::SnapshotNotFound), answer(404, "snapshot 'x' not found"));
    assert_eq!(told(CloudSearchError::InvalidIndexName), answer(400, "invalid index name 'x'"));
    assert_eq!(told(CloudSearchError::InvalidNamespace), answer(400, "invalid namespace: x"));
    assert_eq!(
        told(CloudSearchError::InvalidSearchRequest),
        answer(400, "invalid search request: x")
    );
    assert_eq!(told(CloudSearchError::MappingConflict), answer(400, "mapping conflict: x"));
    assert_eq!(
        told(CloudSearchError::UnknownFieldRejected),
        answer(400, "unknown field rejected: x")
    );
    assert_eq!(
        told(CloudSearchError::UnsupportedArrayField),
        answer(400, "array fields are unsupported: x")
    );
    assert_eq!(
        told(CloudSearchError::MappingLimitExceeded),
        answer(400, "mapping limit exceeded: x")
    );
    assert_eq!(
        told(CloudSearchError::ResourceLimitExceeded),
        answer(400, "resource limit exceeded: x")
    );
    assert_eq!(told(CloudSearchError::InvalidWalRecord), answer(503, "invalid WAL record: x"));
    assert_eq!(told(CloudSearchError::Io), answer(503, "io error: x"));
    assert_eq!(told(CloudSearchError::Serde), answer(400, "serialization error: x"));
    let (status, body) = ApiError(CloudSearchError::WalChecksumMismatch).response();
    assert_eq!((status, body.error.as_str()), (503, "WAL checksum mismatch"));
}

#[test]
fn test_index_metadata_new_generates_uuid_and_timestamps() {
    let before = chrono::Utc::now();
    let meta = IndexMetadata::new("test-index", IndexSettings::default());
    let after = chrono::Utc::now();
    let time = |t: Timestamp| chrono::DateTime::from_timestamp(t.secs, t.nanos).expect("a date");

    assert_eq!(meta.name, "test-index");
    assert!(time(meta.created_at) >= before && time(meta.created_at) <= after);
    assert!(time(meta.updated_at) >= before && time(meta.updated_at) <= after);
    assert_ne!(meta.id, 0);
    assert_eq!(meta.mappings.len(), 0);
}

#[test]
fn creates_and_loads_index_metadata() {
    let created = create_index("logs-2026", plain(), false).expect("create index");
    assert_eq!(created.name, "logs-2026");
    assert!(require_index("logs-2026", true).is_ok());
}

#[test]
fn creates_index_with_namespace() {
    let created = create_index("logs", in_namespace("tenant_abc-123"), false).expect("create");
    assert_eq!(created.settings.namespace.as_deref(), Some("tenant_abc-123"));
}

#[test]
fn rejects_invalid_namespace_empty() {
    assert!(matches!(
        create_index("logs", in_namespace(""), false),
        Err(CloudSearchError::InvalidNamespace(_))
    ));
}

#[test]
fn rejects_invalid_namespace_too_long() {
    assert!(matches!(
        create_index("logs", in_namespace(&"a".repeat(65)), false),
        Err(CloudSearchError::InvalidNamespace(_))
    ));
}

#[test]
fn rejects_invalid_namespace_special_chars() {
    assert!(matches!(
        create_index("logs", in_namespace("tenant@abc"), false),
        Err(CloudSearchError::InvalidNamespace(_))
    ));
}

#[test]
fn accepts_max_length_namespace() {
    assert!(create_index("logs", in_namespace(&"a".repeat(64)), false).is_ok());
}

#[test]
fn rejects_duplicate_index_creation() {
    assert!(matches!(
        create_index("logs", plain(), true),
        Err(CloudSearchError::IndexAlreadyExists(name)) if name == "logs"
    ));
}

#[test]
fn rejects_uppercase_index_name() {
    assert!(matches!(
        create_index("Logs", plain(), false),
        Err(CloudSearchError::InvalidIndexName(_))
    ));
}

#[test]
fn rejects_index_name_too_long() {
    let long_name = "a".repeat(256);
    assert!(matches!(
        create_index(&long_name, plain(), false),
        Err(CloudSearchError::InvalidIndexName(_))
    ));
    assert!(create_index(&long_name[1..], plain(), false).is_ok());
}

#[test]
fn rejects_index_name_with_special_chars() {
    for name in ["log s", "log.name", "log@name", "log/name"] {
        assert!(matches!(
            create_index(name, plain(), false),
            Err(CloudSearchError::InvalidIndexName(_))
        ));
    }
}

#[test]
fn delete_missing_index_returns_not_found() {
    assert!(matches!(
        require_index("missing", false),
        Err(CloudSearchError::IndexNotFound(name)) if name == "missing"
    ));
    assert!(matches!(
        require_index("", false),
        Err(CloudSearchError::InvalidIndexName(_))
    ));
}

#[test]
fn what_is_not_there_is_named() {
    assert!(matches!(require_document("d", Some(7)), Ok(7)));
    assert!(matches!(
        require_document::<u8>("d", None),
        Err(CloudSearchError::DocumentNotFound(id)) if id == "d"
    ));
    assert!(matches!(require_snapshot("s", Some(7)), Ok(7)));
    assert!(matches!(
        require_snapshot::<u8>("s", None),
        Err(CloudSearchError::SnapshotNotFound(name)) if name == "s"
    ));
}

#[test]
fn an_index_starts_with_its_request() {
    let mut mappings = StringMap::new();
    mappings.insert(
        "n".to_string(),
        FieldMapping {
            field_type: FieldType::Long,
        },
    );
    let request = CreateIndexRequest {
        settings: IndexSettings {
            mapping_mode: MappingMode::Strict,
            ..Default::default()
        },
        mappings: Some(mappings),
    };
    let at = Timestamp { secs: 5, nanos: 6 };
    let mut metadata = create_index_at(9, at, "logs", request, false).unwrap();
    assert_eq!(metadata.id, 9);
    assert_eq!(metadata.created_at, at);
    assert_eq!(metadata.settings.mapping_mode, MappingMode::Strict);
    assert_eq!(metadata.mappings.get("n").unwrap().field_type, FieldType::Long);
    let later = Timestamp { secs: 7, nanos: 0 };
    update_index_settings(
        &mut metadata,
        &UpdateSettingsRequest {
            retention_secs: Some(3600),
        },
        later,
    );
    assert_eq!(metadata.settings.retention_secs, Some(3600));
    assert_eq!(metadata.created_at, at);
    assert_eq!(metadata.updated_at, later);
}

#[test]
fn an_index_in_one_file_has_one_segment() {
    let known = legacy_segment(&Some(SegmentSnapshot {
        last_sequence_number: 12,
        documents: vec![IndexDocument {
            id: "1".to_string(),
            source: json("{}"),
        }],
    }));
    assert_eq!(
        (known.segment_number, known.last_sequence_number, known.document_count, known.checksum),
        (1, 12, 1, 0)
    );
    let unknown = legacy_segment(&None);
    assert_eq!((unknown.segment_number, unknown.last_sequence_number), (1, 0));
    assert_eq!(unknown.document_count, 0);
}

#[test]
fn test_app_config_defaults() {
    let config = AppConfig::default();
    assert_eq!(config.bind_addr, "127.0.0.1:4000");
    assert_eq!(config.data_dir, "./data");
    assert_eq!(config.max_indexes, None);
}

fn is_bad_request(body: &str) -> bool {
    match parse_search_request(&json(body)) {
        Ok(_) => false,
        Err(e) => e.status() == 400,
    }
}

#[test]
fn rejects_query_with_multiple_clauses() {
    assert!(is_bad_request(
        r#"{"query":{"term":{"field":"x","value":"y"},"bool":{"must":[{"term":{"field":"a","value":"b"}}]}}}"#
    ));
}

#[test]
fn rejects_term_query_missing_field() {
    assert!(is_bad_request(r#"{"query":{"term":{"value":"y"}}}"#));
}

#[test]
fn rejects_term_query_missing_value() {
    assert!(is_bad_request(r#"{"query":{"term":{"field":"x"}}}"#));
}

#[test]
fn rejects_bool_clause_non_array() {
    assert!(is_bad_request(r#"{"query":{"bool":{"must":"not-an-array"}}}"#));
}

#[test]
fn rejects_unsupported_query_type_at_api_layer() {
    assert!(is_bad_request(r#"{"query":{"fuzzy":{"field":"x","value":"y"}}}"#));
}

#[test]
fn rejects_search_with_non_object_query() {
    assert!(is_bad_request(r#"{"query":"just a string"}"#));
}

#[test]
fn rejects_range_query_missing_field() {
    assert!(is_bad_request(r#"{"query":{"range":{"gte":1}}}"#));
}

#[test]
fn rejects_unsupported_elasticsearch_style_shapes() {
    for payload in [
        r#"{"query": {"term": {"service": "billing", "level": "info"}}}"#,
        r#"{"query": {"terms": {"service": "billing"}}}"#,
        r#"{"query": {"bool": {"must": {"term": {"service": "billing"}}}}}"#,
        r#"{"sort": [{"latency": {"order": "asc"}}, {"service": {"order": "desc"}}]}"#,
    ] {
        assert!(is_bad_request(payload), "{payload}");
    }
}

#[test]
fn malformed_json_is_no_value() {
    assert!(parse_json("{not-json").is_none());
    assert!(same_json(&json("[1, 2.5, -3, \"a\", null]"), &json("[1,2.5,-3,\"a\",null]")));
    assert!(!same_json(&json("1"), &json("1.0")));
}

fn mappings_of(fields: &[(&str, FieldType)]) -> StringMap<FieldMapping> {
    let mut mappings = StringMap::new();
    for (name, field_type) in fields {
        mappings.insert(
            name.to_string(),
            FieldMapping {
                field_type: *field_type,
            },
        );
    }
    mappings
}

#[test]
fn values_tell_their_types() {
    let infer = |text: &str| infer_field_type("f", &json(text)).unwrap();
    assert_eq!(infer("null"), None);
    assert_eq!(infer("true"), Some(FieldType::Boolean));
    assert_eq!(infer("42"), Some(FieldType::Integer));
    assert_eq!(infer("2147483648"), Some(FieldType::Long));
    assert_eq!(infer("-2147483648"), Some(FieldType::Integer));
    assert_eq!(infer("18446744073709551615"), Some(FieldType::Double));
    assert_eq!(infer("1.5"), Some(FieldType::Double));
    assert_eq!(infer("\"x\""), Some(FieldType::Keyword));
    assert_eq!(infer("\"2026-03-14T10:00:00Z\""), Some(FieldType::Timestamp));
    assert_eq!(infer("{}"), Some(FieldType::Object));
    assert!(matches!(
        infer_field_type("f", &json("[]")),
        Err(CloudSearchError::UnsupportedArrayField(field)) if field == "f"
    ));
}

#[test]
fn mappings_keep_types_and_limit() {
    let at = Timestamp { secs: 5, nanos: 0 };
    let later = Timestamp { secs: 6, nanos: 0 };
    let request = CreateIndexRequest {
        settings: IndexSettings::default(),
        mappings: Some(mappings_of(&[("n", FieldType::Integer)])),
    };
    let mut metadata = create_index_at(1, at, "logs", request, false).unwrap();
    assert!(matches!(
        validate_and_update_mappings(&mut metadata, &json("[]"), later),
        Err(CloudSearchError::MappingConflict(_))
    ));
    assert!(matches!(
        validate_and_update_mappings(&mut metadata, &json(r#"{"n": "x"}"#), later),
        Err(CloudSearchError::MappingConflict(_))
    ));
    assert!(matches!(
        validate_and_update_mappings(&mut metadata, &json(r#"{"n": 7}"#), later),
        Ok(false)
    ));
    assert_eq!((metadata.mappings.len(), metadata.updated_at), (1, at));
    assert!(matches!(
        validate_and_update_mappings(&mut metadata, &json(r#"{"m": 1}"#), later),
        Ok(true)
    ));
    assert_eq!(metadata.mappings.get("n").unwrap().field_type, FieldType::Integer);
    assert_eq!((metadata.mappings.len(), metadata.updated_at), (2, later));
    for i in metadata.mappings.len()..MAX_FIELDS_PER_INDEX {
        metadata.mappings.insert(
            format!("f{i}"),
            FieldMapping {
                field_type: FieldType::Keyword,
            },
        );
    }
    assert!(matches!(
        validate_and_update_mappings(&mut metadata, &json(r#"{"one-more": 1}"#), later),
        Err(CloudSearchError::MappingLimitExceeded(_))
    ));
    assert_eq!(metadata.mappings.len(), MAX_FIELDS_PER_INDEX);
}

#[test]
fn objects_cannot_be_searched_sorted_or_counted() {
    let mappings = mappings_of(&[("o", FieldType::Object), ("k", FieldType::Keyword)]);
    let fine = |body: &str| {
        validate_search_request(&mappings, &parse_search_request(&json(body)).unwrap()).is_ok()
    };
    assert!(fine(r#"{"query": {"term": {"k": "x"}}, "sort": {"field": "k", "order": "asc"}}"#));
    assert!(!fine(r#"{"sort": {"field": "o", "order": "asc"}}"#));
    assert!(!fine(r#"{"query": {"range": {"k": {"gte": 1}}}}"#));
    assert!(!fine(r#"{"aggs": {"a": {"terms": {"field": "o"}}}}"#));
    assert!(!fine(r#"{"aggs": {"a": {"date_histogram": {"field": "k", "interval": "day"}}}}"#));
}

#[test]
fn written_documents_are_created_or_updated() {
    assert_eq!(write_result(false), "created");
    assert_eq!(write_result(true), "updated");
}

fn one_hit() -> SearchResponse {
    let mut aggregations = StringMap::new();
    aggregations.insert(
        "t".to_string(),
        AggregationResult::Terms(TermsAggregationResult {
            buckets: vec![TermsBucket {
                key: json("\"a\""),
                doc_count: 2,
            }],
        }),
    );
    aggregations.insert(
        "d".to_string(),
        AggregationResult::DateHistogram(DateHistogramAggregationResult {
            buckets: vec![DateHistogramBucket {
                key: "2026-03-14T10:00:00Z".to_string(),
                doc_count: 3,
            }],
        }),
    );
    aggregations.insert(
        "s".to_string(),
        AggregationResult::Stats(StatsAggregationResult {
            count: 0,
            values: Vec::new(),
            min: None,
            max: None,
        }),
    );
    SearchResponse {
        hits: HitsMetadata {
            total: 5,
            hits: vec![SearchHit {
                id: "1".to_string(),
                source: json("{\"a\": 1}"),
                score: Some(Score::One),
                highlight: None,
            }],
        },
        aggregations,
    }
}

#[test]
fn answers_show_totals_and_buckets() {
    let shown = to_compat_search_response(one_hit());
    assert_eq!(shown.hits.total.value, 5);
    assert_eq!(shown.hits.total.relation, "eq");
    assert_eq!(shown.hits.hits[0].id, "1");
    let buckets = |name: &str| match shown.aggregations.get(name) {
        Some(CompatAggregation::Buckets(value)) => value,
        other => panic!("expected buckets, got {other:?}"),
    };
    assert!(same_json(
        buckets("t"),
        &json(r#"{"buckets": [{"key": "a", "doc_count": 2}]}"#)
    ));
    assert!(same_json(
        buckets("d"),
        &json(r#"{"buckets": [{"key": "2026-03-14T10:00:00Z", "doc_count": 3}]}"#)
    ));
    assert!(matches!(
        shown.aggregations.get("s"),
        Some(CompatAggregation::Stats(stats)) if stats.count == 0
    ));
}

#[test]
fn one_search_of_many_fails_alone() {
    let missing = multi_search_item(
        "a".to_string(),
        MultiSearchOutcome::Unopened(CloudSearchError::IndexNotFound("a".to_string())),
    );
    assert_eq!(missing.status, 404);
    assert_eq!(missing.error.as_deref(), Some("index 'a' not found"));
    assert!(missing.response.is_none());
    let invalid = multi_search_item(
        "a".to_string(),
        MultiSearchOutcome::Invalid(CloudSearchError::InvalidSearchRequest("x".to_string())),
    );
    assert_eq!(invalid.status, 400);
    let found = multi_search_item("a".to_string(), MultiSearchOutcome::Found(one_hit()));
    assert_eq!((found.index.as_str(), found.status), ("a", 200));
    assert_eq!(found.response.unwrap().hits.total, 5);
    assert!(found.error.is_none());
}

#[test]
fn metrics_are_listed_in_order() {
    let mut state = MetricsState::new();
    state.record_request("search", "POST", 200);
    state.record_request("search", "POST", 200);
    state.record_request("search", "POST", 404);
    state.record_request("index_create", "PUT", 201);
    state.search_requests_total = 3;
    let times = vec![AnswerTime {
        route: "search".to_string(),
        method: "POST".to_string(),
        seconds: "0.25".to_string(),
    }];
    let indexes = vec![(
        "logs".to_string(),
        IndexMetrics {
            document_count: 4,
            pending_operations: 1,
            last_sequence_number: 9,
        },
    )];
    let expected = "\
cloudsearch_bulk_operations_total 0
cloudsearch_bulk_requests_total 0
cloudsearch_delete_index_total 0
cloudsearch_flush_total 0
cloudsearch_index_documents_total{index=\"logs\"} 4
cloudsearch_index_last_sequence_number{index=\"logs\"} 9
cloudsearch_index_pending_ops{index=\"logs\"} 1
cloudsearch_index_writes_total 0
cloudsearch_merge_total 0
cloudsearch_open_indexes 1
cloudsearch_refresh_total 0
cloudsearch_request_duration_seconds_count{route=\"index_create\",method=\"PUT\"} 1
cloudsearch_request_duration_seconds_count{route=\"search\",method=\"POST\"} 3
cloudsearch_request_duration_seconds_sum{route=\"search\",method=\"POST\"} 0.25
cloudsearch_requests_total{route=\"index_create\",method=\"PUT\",status=\"201\"} 1
cloudsearch_requests_total{route=\"search\",method=\"POST\",status=\"200\"} 2
cloudsearch_requests_total{route=\"search\",method=\"POST\",status=\"404\"} 1
cloudsearch_search_requests_total 3
";
    assert_eq!(state.render(&times, 1, &indexes), expected);
}

#[test]
fn metrics_do_not_depend_on_the_order_of_indexes() {
    let state = MetricsState::new();
    let index = |name: &str, document_count: usize| {
        let metrics = IndexMetrics {
            document_count,
            pending_operations: 0,
            last_sequence_number: 1,
        };
        (name.to_string(), metrics)
    };
    let report = state.render(&Vec::new(), 3, &vec![index("b", 2), index("a", 1), index("c", 3)]);
    let other = state.render(&Vec::new(), 3, &vec![index("c", 3), index("b", 2), index("a", 1)]);
    assert_eq!(report, other);
    assert!(report.contains("cloudsearch_index_documents_total{index=\"b\"} 2\n"));
}

#[test]
fn distances_count_edits() {
    assert_eq!(edit_distance("kitten", "sitting"), 3);
    assert_eq!(edit_distance("", "abc"), 3);
    assert_eq!(edit_distance("abc", ""), 3);
    assert_eq!(edit_distance("flaw", "lawn"), edit_distance("lawn", "flaw"));
    assert!(is_within_fuzziness("same", "same", Fuzziness::Exact(0)));
    assert!(!is_within_fuzziness("sama", "same", Fuzziness::Exact(0)));
    assert!(is_within_fuzziness("sama", "same", Fuzziness::Auto));
    assert!(!is_within_fuzziness("aa", "ab", Fuzziness::Auto));
    assert!(is_within_fuzziness("longer", "longre", Fuzziness::Auto));
}

#[test]
fn intervals_begin_with_their_first_second() {
    // 2026-03-14T14:53:20Z
    let t = Timestamp {
        secs: 1_773_500_000,
        nanos: 5,
    };
    assert_eq!(truncate_timestamp(t, DateHistogramInterval::Minute), 1_773_499_980);
    assert_eq!(truncate_timestamp(t, DateHistogramInterval::Hour), 1_773_496_800);
    assert_eq!(truncate_timestamp(t, DateHistogramInterval::Day), 1_773_446_400);
    let before_epoch = Timestamp { secs: -1, nanos: 0 };
    assert_eq!(truncate_timestamp(before_epoch, DateHistogramInterval::Day), -86_400);
    assert_eq!(shift(before_epoch, 3), Some(Timestamp { secs: 2, nanos: 0 }));
    assert_eq!(shift(before_epoch, i64::MAX), None);
}

#[test]
fn numbers_are_read_from_texts() {
    assert_eq!(parse_i64("-9223372036854775808"), Some(i64::MIN));
    assert_eq!(parse_i64("+7"), Some(7));
    assert_eq!(parse_i64("9223372036854775808"), None);
    assert_eq!(parse_i64(""), None);
    assert!(matches!(parse_numeric("12"), Some(Json::Number(JsonNumber::PosInt(12)))));
    assert!(matches!(parse_numeric("-12"), Some(Json::Number(JsonNumber::NegInt(_)))));
    assert_eq!(parse_numeric("1.5").unwrap().as_double().map(f64::from_bits), Some(1.5));
    assert!(parse_numeric("abc").is_none());
}

#[test]
fn wildcards_are_escaped() {
    assert_eq!(build_wildcard_regex("a.b*c?"), "^a\\.b.*c.$");
}

#[test]
fn positions_point_into_the_text() {
    let document = IndexDocument {
        id: "1".to_string(),
        source: json(r#"{"a": "Big cat", "n": 1}"#),
    };
    let positions = extract_positions(&document);
    assert_eq!(positions.get("big"), Some(&vec![0]));
    assert_eq!(positions.get("cat"), Some(&vec![4]));
    assert_eq!(positions.len(), 2);
    assert_eq!(hash_doc_id("1"), hash_doc_id("1"));
    assert_ne!(hash_doc_id("1"), hash_doc_id("2"));
}

#[test]
fn words_of_other_scripts_are_kept() {
    assert_eq!(tokenize(" Grüße, КОТ\u{3000}猫! "), ["grüße,", "КОТ", "猫!"]);
}

#[test]
fn integers_become_the_nearest_doubles() {
    let double = |text: &str| f64::from_bits(json(text).as_double().expect("a number"));
    assert_eq!(double("0"), 0.0);
    assert_eq!(double("3"), 3.0);
    assert_eq!(double("-3"), -3.0);
    assert_eq!(double("9007199254740993"), 9007199254740992.0);
    assert_eq!(double("9007199254740995"), 9007199254740996.0);
    assert_eq!(double("18446744073709551615"), 18446744073709551616.0);
    assert_eq!(double("-9223372036854775808"), -9223372036854775808.0);
    assert_eq!(double("2.5"), 2.5);
    assert!(json("\"3\"").as_double().is_none());
}

#[test]
fn scalars_have_their_json_texts() {
    let text = |value: &str| json(value).scalar_text();
    assert_eq!(text("true").as_deref(), Some("true"));
    assert_eq!(text("-12").as_deref(), Some("-12"));
    assert_eq!(text("0.5").as_deref(), Some("0.5"));
    let escaped = r#""a\"b\\c\n\r\t\b\f\u0001\u001fé""#;
    assert_eq!(text(escaped).as_deref(), Some(escaped));
    assert_eq!(text("null"), None);
    assert_eq!(text("[]"), None);
}

#[test]
fn histograms_count_what_was_found_whatever_the_columns_hold() {
    let documents: Vec<IndexDocument> = ["2026-03-14T10:05:00Z", "2026-03-14T10:45:00.5Z"]
        .iter()
        .map(|at| IndexDocument {
            id: (*at).to_string(),
            source: json(&format!("{{\"at\": \"{at}\"}}")),
        })
        .collect();
    let mappings = mappings_of(&[("at", FieldType::Timestamp)]);
    let columns = DocValuesReader::new(DocValuesWriter::build_from_documents(&documents, &mappings));
    let by = |documents: &Vec<IndexDocument>, interval: DateHistogramInterval| {
        compute_date_histogram_aggregation(documents, "at", interval, Some(&columns)).buckets
    };
    let hours = by(&documents, DateHistogramInterval::Hour);
    assert_eq!(hours.len(), 1);
    assert_eq!((hours[0].key.as_str(), hours[0].doc_count), ("2026-03-14T10:00:00Z", 2));
    let minutes = by(&documents, DateHistogramInterval::Minute);
    assert_eq!(minutes.len(), 2);
    assert_eq!(minutes[1].key, "2026-03-14T10:45:00Z");
    assert!(by(&Vec::new(), DateHistogramInterval::Day).is_empty());
}

#[test]
fn of_equal_numbers_the_first_is_the_least_and_the_greatest() {
    let documents: Vec<IndexDocument> = ["0.0", "-0.0", "0"]
        .iter()
        .map(|n| IndexDocument {
            id: (*n).to_string(),
            source: json(&format!("{{\"n\": {n}}}")),
        })
        .collect();
    let stats = compute_stats_aggregation(&documents, "n", None);
    assert_eq!(stats.count, 3);
    assert_eq!(stats.min, Some(0.0_f64.to_bits()));
    assert_eq!(stats.max, Some(0.0_f64.to_bits()));
    let none = compute_stats_aggregation(&documents, "m", None);
    assert_eq!((none.count, none.min, none.max), (0, None, None));
}

#[test]
fn texts_are_counted_apart_from_their_json_texts() {
    let documents: Vec<IndexDocument> = [r#""a""#, r#""\"a\"""#, r#""a""#, "1", r#""1""#, "null"]
        .iter()
        .enumerate()
        .map(|(i, value)| IndexDocument {
            id: i.to_string(),
            source: json(&format!("{{\"f\": {value}}}")),
        })
        .collect();
    let buckets = compute_terms_aggregation(&documents, "f", None).buckets;
    let counts: Vec<(Option<&str>, usize)> = buckets
        .iter()
        .map(|bucket| (bucket.key.as_str(), bucket.doc_count))
        .collect();
    assert_eq!(
        counts,
        [(Some("a"), 2), (Some("1"), 1), (Some("\"a\""), 1), (None, 1)]
    );
}
