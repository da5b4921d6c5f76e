use cloudsearch::bulk::{bulk_response, to_compat_bulk_response, CompatBulkItem};
use cloudsearch::aggregations::AggregationResult;
use cloudsearch::catalog::create_index;
use cloudsearch::doc_values::DocValuesWriter;
use cloudsearch::doc_values_reader::DocValuesReader;
use cloudsearch::index::segments::{extract_entries, MergePlan, PostingEntry};
use cloudsearch::index::snapshots::{snapshot_created, RestoreFault};
use cloudsearch::index::{
    checksum_of, verify_checksum, IndexHandle, IndexManifest, SegmentMeta, SegmentSnapshot,
    WalEntry, WalRecord, MERGE_TRIGGER_DOCUMENT_COUNT,
};
use cloudsearch::json::{parse_json, Json, JsonNumber};
use cloudsearch::map::StringMap;
use cloudsearch::matching::Score;
use cloudsearch::needed::position_terms;
use cloudsearch::positions::{Posting, PositionsReader};
use cloudsearch::requests::{parse_query, parse_search_request, parse_url_request};
use cloudsearch::search::SearchResponse;
use cloudsearch::time::Timestamp;
use cloudsearch::types::{
    BulkDeleteOperation, BulkIndexOperation, BulkItem, BulkOperation, BulkRequest,
    CloudSearchError, CreateIndexRequest, FieldMapping, FieldType, FlushResponse, Fuzziness,
    IndexDocument, IndexMetadata, IndexSettings, MappingMode, SearchQuery, SearchRequest,
    SortOrder, SortSpec, TermQuery,
};

const NOW: Timestamp = Timestamp {
    secs: 1_773_500_000,
    nanos: 0,
};

fn json(text: &str) -> Json {
    parse_json(text).expect("valid JSON")
}

fn doc(id: &str, source: &str) -> IndexDocument {
    IndexDocument {
        id: id.to_string(),
        source: json(source),
    }
}

fn copy_mappings(mappings: &StringMap<FieldMapping>) -> StringMap<FieldMapping> {
    let mut copy = StringMap::new();
    for i in 0..mappings.len() {
        copy.insert(mappings.key_at(i).clone(), *mappings.value_at(i));
    }
    copy
}

fn copy_metadata(metadata: &IndexMetadata) -> IndexMetadata {
    IndexMetadata {
        id: metadata.id,
        name: metadata.name.clone(),
        created_at: metadata.created_at,
        updated_at: metadata.updated_at,
        settings: IndexSettings {
            mapping_mode: metadata.settings.mapping_mode,
            primary_time_field: metadata.settings.primary_time_field.clone(),
            namespace: metadata.settings.namespace.clone(),
            retention_secs: metadata.settings.retention_secs,
            merge_threshold_docs: metadata.settings.merge_threshold_docs,
        },
        mappings: copy_mappings(&metadata.mappings),
    }
}

fn copy_snapshot(snapshot: &SegmentSnapshot) -> SegmentSnapshot {
    SegmentSnapshot {
        last_sequence_number: snapshot.last_sequence_number,
        documents: snapshot.documents.iter().map(|d| d.copy()).collect(),
    }
}

fn reader_of(entries: Vec<PostingEntry>) -> Option<PositionsReader> {
    if entries.is_empty() {
        return None;
    }
    let mut terms: std::collections::BTreeMap<String, Vec<Posting>> =
        std::collections::BTreeMap::new();
    for entry in entries {
        terms.entry(entry.term).or_default().push(Posting {
            doc_id: entry.doc_id,
            positions: vec![entry.position],
        });
    }
    let mut map = StringMap::new();
    for (term, postings) in terms {
        map.insert(term, postings);
    }
    Some(PositionsReader { terms: map })
}

fn value(score: &Score) -> f32 {
    match score {
        Score::One => 1.0,
        Score::Ratio { matched, total } => *matched as f32 / *total as f32,
        Score::Gap(gap) => 1.0 / (1.0 + *gap as f32 * 0.1),
        Score::Mean(parts) => parts.iter().map(value).sum::<f32>() / parts.len() as f32,
    }
}

/// What is kept of an index when it is closed.
struct Store {
    metadata: IndexMetadata,
    segments: Vec<(SegmentMeta, SegmentSnapshot)>,
    version: u64,
    wal: Vec<WalEntry>,
}

struct Index {
    handle: IndexHandle,
    readers: Vec<PositionsReader>,
    store: Store,
}

impl Index {
    fn with_request(request: CreateIndexRequest) -> Index {
        let metadata = create_index("logs", request, false).expect("create index");
        Index::open(Store {
            metadata,
            segments: Vec::new(),
            version: 1,
            wal: Vec::new(),
        })
    }

    fn new() -> Index {
        Index::with_request(CreateIndexRequest {
            settings: IndexSettings::default(),
            mappings: None,
        })
    }

    fn open(store: Store) -> Index {
        let manifest = IndexManifest {
            version: store.version,
            last_updated: NOW,
            segments: store.segments.iter().map(|(meta, _)| *meta).collect(),
        };
        let snapshots: Vec<Option<SegmentSnapshot>> = store
            .segments
            .iter()
            .map(|(_, snapshot)| Some(copy_snapshot(snapshot)))
            .collect();
        let mut handle =
            IndexHandle::open(copy_metadata(&store.metadata), manifest, &snapshots, None);
        let from = handle.last_sequence_number();
        let entries: Vec<WalEntry> = store
            .wal
            .iter()
            .filter(|entry| entry.sequence_number > from)
            .map(|entry| WalEntry {
                sequence_number: entry.sequence_number,
                record: match &entry.record {
                    WalRecord::IndexDocument { document } => WalRecord::IndexDocument {
                        document: document.copy(),
                    },
                    WalRecord::DeleteDocument { document_id } => WalRecord::DeleteDocument {
                        document_id: document_id.clone(),
                    },
                    WalRecord::MappingUpdate => WalRecord::MappingUpdate,
                },
            })
            .collect();
        assert!(handle.replay(&entries).is_ok());
        Index {
            handle,
            readers: Vec::new(),
            store,
        }
    }

    fn reopen(self) -> Index {
        Index::open(self.store)
    }

    fn index(&mut self, id: &str, source: &str) -> Result<u64, CloudSearchError> {
        let document = doc(id, source);
        if self.handle.admit_document(&document, NOW)? {
            self.store.metadata = copy_metadata(self.handle.metadata());
        }
        assert!(self.handle.note_expiry(&document).is_ok());
        let sequence_number = self.handle.next_sequence_number().expect("room in the log");
        self.store.wal.push(WalEntry {
            sequence_number,
            record: WalRecord::IndexDocument {
                document: document.copy(),
            },
        });
        assert_eq!(self.handle.index_document(document), sequence_number);
        Ok(sequence_number)
    }

    fn put(&mut self, id: &str, source: &str) {
        self.index(id, source).expect("index doc");
    }

    fn delete(&mut self, id: &str) -> u64 {
        let sequence_number = self.handle.next_sequence_number().expect("room in the log");
        self.store.wal.push(WalEntry {
            sequence_number,
            record: WalRecord::DeleteDocument {
                document_id: id.to_string(),
            },
        });
        self.handle.delete_document(id)
    }

    fn refresh(&mut self) -> usize {
        self.handle.refresh(NOW)
    }

    fn next_segment_number(&self) -> u64 {
        self.handle
            .manifest()
            .segments
            .iter()
            .map(|s| s.segment_number)
            .max()
            .unwrap_or(0)
            + 1
    }

    fn flush(&mut self) -> FlushResponse {
        let snapshot = self.handle.flush_snapshot();
        let number = self.next_segment_number();
        let manifest = self
            .handle
            .flush_manifest(number, &snapshot, checksum_of(b"segment"), NOW);
        let entries = self.handle.flush_entries(&snapshot);
        self.install(&manifest, &snapshot);
        self.handle.install_manifest(manifest, &snapshot);
        if self.store.segments.len() == 1 {
            self.readers.clear();
        }
        self.readers.extend(reader_of(entries));
        let response = self.handle.flush(&snapshot);
        self.store
            .wal
            .retain(|entry| entry.sequence_number > snapshot.last_sequence_number);
        if let Some(plan) = self.handle.plan_merge() {
            self.apply(&plan);
        }
        response
    }

    /// Keeps the segments that a manifest lists, the last of which is new.
    fn install(&mut self, manifest: &IndexManifest, snapshot: &SegmentSnapshot) {
        let listed = |number: u64| manifest.segments.iter().any(|s| s.segment_number == number);
        self.store
            .segments
            .retain(|(meta, _)| listed(meta.segment_number));
        let meta = *manifest.segments.last().expect("new segment");
        self.store.segments.push((meta, copy_snapshot(snapshot)));
        self.store.version = manifest.version;
        assert_eq!(self.store.segments.len(), manifest.segments.len());
    }

    fn apply(&mut self, plan: &MergePlan) {
        let snapshot = self.handle.merge_snapshot(&self.handle.current_documents());
        let number = self.next_segment_number();
        let manifest =
            self.handle
                .merge_manifest(plan, number, &snapshot, checksum_of(b"merged"), NOW);
        self.install(&manifest, &snapshot);
        self.handle.apply_merge_plan(plan, manifest);
        self.readers = reader_of(extract_entries(&snapshot.documents))
            .into_iter()
            .collect();
    }

    fn search(&self, request: &SearchRequest) -> SearchResponse {
        self.search_at(request, NOW)
    }

    fn search_at(&self, request: &SearchRequest, at: Timestamp) -> SearchResponse {
        let found = self.handle.find(request, at, &self.readers);
        let ranks: Vec<u32> = found.iter().map(|m| value(&m.score).to_bits()).collect();
        self.handle.search(request, found, &ranks, &self.readers)
    }

    fn query(&self, text: &str) -> SearchResponse {
        self.search(&SearchRequest {
            query: Some(parse_query(&json(text)).expect("query")),
            ..Default::default()
        })
    }

    fn ask(&self, text: &str) -> SearchResponse {
        self.search(&parse_search_request(&json(text)).expect("request"))
    }

    fn total(&self) -> usize {
        self.search(&SearchRequest::default()).hits.total
    }

    fn message(&self, id: &str) -> String {
        let document = self.handle.get_document(id).expect("document exists");
        document
            .source
            .text_of("message")
            .expect("message")
            .to_string()
    }
}

fn ids(response: &SearchResponse) -> Vec<&str> {
    response.hits.hits.iter().map(|h| h.id.as_str()).collect()
}

#[test]
fn infers_and_persists_mappings_across_reopen() {
    let mut index = Index::new();
    index.put(
        "doc-1",
        r#"{"service": "billing", "latency": 42, "active": true,
            "timestamp": "2026-03-14T10:00:00Z"}"#,
    );
    let reopened = index.reopen();
    let mappings = &reopened.handle.metadata().mappings;
    let field_type = |field: &str| mappings.get(field).expect("mapped").field_type;
    assert_eq!(field_type("service"), FieldType::Keyword);
    assert_eq!(field_type("latency"), FieldType::Integer);
    assert_eq!(field_type("active"), FieldType::Boolean);
    assert_eq!(field_type("timestamp"), FieldType::Timestamp);
}

#[test]
fn strict_mode_rejects_unknown_fields_and_arrays() {
    let mut index = Index::with_request(CreateIndexRequest {
        settings: IndexSettings {
            mapping_mode: MappingMode::Strict,
            ..Default::default()
        },
        mappings: None,
    });
    let unknown = index
        .index("doc-1", r#"{"service": "billing"}"#)
        .expect_err("strict mode should reject unknown field");
    assert!(matches!(unknown, CloudSearchError::UnknownFieldRejected(_)));
    let array = index
        .index("doc-2", r#"{"services": ["billing", "search"]}"#)
        .expect_err("arrays should be rejected");
    assert!(matches!(array, CloudSearchError::UnsupportedArrayField(_)));
}

#[test]
fn explicit_mappings_are_respected_and_conflicts_are_rejected() {
    let mut mappings = StringMap::new();
    mappings.insert(
        "status".to_string(),
        FieldMapping {
            field_type: FieldType::Keyword,
        },
    );
    mappings.insert(
        "count".to_string(),
        FieldMapping {
            field_type: FieldType::Integer,
        },
    );
    let mut index = Index::with_request(CreateIndexRequest {
        settings: IndexSettings::default(),
        mappings: Some(mappings),
    });
    index.put("doc-1", r#"{"status": "active", "count": 42}"#);
    let conflict = index
        .index("doc-2", r#"{"status": 123, "count": 1}"#)
        .expect_err("keyword field receiving integer should fail");
    assert!(matches!(conflict, CloudSearchError::MappingConflict(_)));
    index.put("doc-3", r#"{"status": "ok", "count": 10, "message": "hello"}"#);
    let loaded = &index.store.metadata.mappings;
    assert_eq!(loaded.get("status").unwrap().field_type, FieldType::Keyword);
    assert_eq!(loaded.get("count").unwrap().field_type, FieldType::Integer);
    assert_eq!(loaded.get("message").unwrap().field_type, FieldType::Keyword);
}

#[test]
fn rejects_mapping_conflicts_and_invalid_query_usage() {
    let mut index = Index::new();
    index.put("doc-1", r#"{"service": "billing", "meta": {"host": "a"}}"#);
    let conflict = index
        .index("doc-2", r#"{"meta": "not-an-object"}"#)
        .expect_err("conflict should fail");
    assert!(matches!(conflict, CloudSearchError::MappingConflict(_)));
    let request = parse_search_request(&json(
        r#"{"query": {"range": {"service": {"gte": "a"}}}}"#,
    ))
    .unwrap();
    assert!(matches!(
        index.handle.validate_search_request(&request),
        Err(CloudSearchError::InvalidSearchRequest(_))
    ));
}

#[test]
fn replays_documents_from_wal() {
    let mut index = Index::new();
    index.put("doc-1", r#"{"message": "hello"}"#);
    index.put("doc-2", r#"{"message": "world"}"#);
    index.delete("doc-1");
    let recovered = index.reopen();
    assert_eq!(recovered.handle.documents().len(), 1);
    assert!(recovered.handle.documents().contains_key("doc-2"));
    assert!(!recovered.handle.documents().contains_key("doc-1"));
}

#[test]
fn gets_document_by_id_after_reopen() {
    let mut index = Index::new();
    index.put("doc-42", r#"{"message": "persist me"}"#);
    let reopened = index.reopen();
    assert_eq!(reopened.handle.get_document("doc-42").unwrap().id, "doc-42");
    assert_eq!(reopened.message("doc-42"), "persist me");
    assert!(reopened.handle.get_document("missing").is_none());
}

#[test]
fn writes_are_searchable_only_after_refresh() {
    let mut index = Index::new();
    index.put("doc-1", r#"{"service": "billing"}"#);
    assert_eq!(index.total(), 0);
    assert!(index.handle.get_document("doc-1").is_some());
    assert_eq!(index.refresh(), 1);
    assert_eq!(index.total(), 1);
}

#[test]
fn delete_becomes_search_visible_after_refresh() {
    let mut index = Index::new();
    index.put("doc-1", r#"{"message": "hello"}"#);
    index.refresh();
    index.delete("doc-1");
    assert_eq!(index.total(), 1);
    index.refresh();
    assert_eq!(index.total(), 0);
}

#[test]
fn flush_persists_searchable_state_but_not_pending_writes() {
    let mut index = Index::new();
    index.put("doc-1", r#"{"message": "visible"}"#);
    index.refresh();
    index.flush();
    index.put("doc-2", r#"{"message": "pending"}"#);
    let reopened = index.reopen();
    assert_eq!(reopened.total(), 2);
    assert_eq!(reopened.message("doc-1"), "visible");
    assert_eq!(reopened.message("doc-2"), "pending");
}

#[test]
fn flush_response_reports_sequence_and_document_count() {
    let mut index = Index::new();
    index.put("doc-1", r#"{"message": "hello"}"#);
    index.refresh();
    let flushed = index.flush();
    assert_eq!(flushed.result, "flushed");
    assert_eq!(flushed.flushed_documents, 1);
    assert_eq!(flushed.sequence_number, 1);
}

#[test]
fn searches_match_all_and_term_queries_after_reopen() {
    let mut index = Index::new();
    index.put("doc-1", r#"{"service": "billing", "level": "info"}"#);
    index.put("doc-2", r#"{"service": "search", "level": "info"}"#);
    let reopened = index.reopen();
    assert_eq!(reopened.total(), 2);
    let term = reopened.query(r#"{"term": {"service": "billing"}}"#);
    assert_eq!(term.hits.total, 1);
    assert_eq!(term.hits.hits[0].id, "doc-1");
    let filtered = reopened.query(r#"{"bool": {"filter": [{"term": {"level": "info"}}]}}"#);
    assert_eq!(filtered.hits.total, 2);
}

#[test]
fn latest_document_version_wins_after_reopen() {
    let mut index = Index::new();
    index.put("doc-1", r#"{"message": "first"}"#);
    index.put("doc-1", r#"{"message": "second"}"#);
    assert_eq!(index.reopen().message("doc-1"), "second");
}

#[test]
fn search_handles_empty_indexes_missing_fields_and_multiple_filters() {
    let mut index = Index::new();
    assert_eq!(index.total(), 0);
    index.put(
        "doc-1",
        r#"{"service": "billing", "level": "info", "active": true}"#,
    );
    index.put(
        "doc-2",
        r#"{"service": "billing", "level": "error", "active": false}"#,
    );
    index.delete("doc-2");
    let reopened = index.reopen();
    let missing_field = reopened.query(r#"{"term": {"missing": "nope"}}"#);
    assert_eq!(missing_field.hits.total, 0);
    let multiple_filters = reopened.query(
        r#"{"bool": {"filter": [{"term": {"service": "billing"}}, {"term": {"active": true}}]}}"#,
    );
    assert_eq!(multiple_filters.hits.total, 1);
    assert_eq!(multiple_filters.hits.hits[0].id, "doc-1");
}

#[test]
fn repeated_reopen_preserves_overwrite_and_delete_sequence() {
    let mut first = Index::new();
    first.put("doc-1", r#"{"message": "first"}"#);
    let mut second = first.reopen();
    second.put("doc-1", r#"{"message": "second"}"#);
    second.delete("doc-1");
    second.put("doc-2", r#"{"message": "survivor"}"#);
    let third = second.reopen();
    assert!(third.handle.get_document("doc-1").is_none());
    assert_eq!(third.total(), 1);
    assert_eq!(third.message("doc-2"), "survivor");
}

#[test]
fn deleting_missing_document_is_safe_across_reopen() {
    let mut index = Index::new();
    assert_eq!(index.delete("missing-doc"), 1);
    let reopened = index.reopen();
    assert_eq!(reopened.total(), 0);
    assert!(reopened.handle.get_document("missing-doc").is_none());
}

#[test]
fn boolean_and_numeric_term_queries_match_exact_values() {
    let mut index = Index::new();
    index.put("doc-1", r#"{"active": true, "latency": 42}"#);
    let reopened = index.reopen();
    assert_eq!(reopened.query(r#"{"term": {"active": true}}"#).hits.total, 1);
    assert_eq!(reopened.query(r#"{"term": {"latency": 42}}"#).hits.total, 1);
    assert_eq!(reopened.query(r#"{"term": {"latency": "42"}}"#).hits.total, 0);
}

#[test]
fn range_queries_match_numeric_and_timestamp_values() {
    let mut index = Index::new();
    index.put("doc-1", r#"{"latency": 42, "timestamp": "2026-03-14T10:00:00Z"}"#);
    index.put("doc-2", r#"{"latency": 7, "timestamp": "2026-03-14T12:00:00Z"}"#);
    index.refresh();
    let numeric = index.query(r#"{"range": {"latency": {"gte": 10, "lte": 50}}}"#);
    assert_eq!(ids(&numeric), ["doc-1"]);
    let timestamp = index.query(
        r#"{"range": {"timestamp": {"gte": "2026-03-14T11:00:00Z", "lt": "2026-03-14T13:00:00Z"}}}"#,
    );
    assert_eq!(ids(&timestamp), ["doc-2"]);
    let missing = index.query(r#"{"range": {"missing": {"gte": 1}}}"#);
    assert_eq!(missing.hits.total, 0);
}

#[test]
fn deleted_documents_do_not_appear_in_match_all_after_reopen() {
    let mut index = Index::new();
    index.put("doc-1", r#"{"message": "remove me"}"#);
    index.put("doc-2", r#"{"message": "keep me"}"#);
    index.delete("doc-1");
    let reopened = index.reopen();
    let all = reopened.search(&SearchRequest::default());
    assert_eq!(all.hits.total, 1);
    assert_eq!(ids(&all), ["doc-2"]);
}

#[test]
fn bool_filter_with_no_clauses_matches_all_documents() {
    let mut index = Index::new();
    index.put("doc-1", r#"{"message": "a"}"#);
    index.put("doc-2", r#"{"message": "b"}"#);
    let reopened = index.reopen();
    assert_eq!(reopened.query(r#"{"bool": {"filter": []}}"#).hits.total, 2);
}

#[test]
fn expanded_bool_query_supports_must_should_and_must_not() {
    let mut index = Index::new();
    index.put("doc-1", r#"{"service": "billing", "level": "info"}"#);
    index.put("doc-2", r#"{"service": "billing", "level": "error"}"#);
    index.put("doc-3", r#"{"service": "search", "level": "info"}"#);
    index.refresh();
    let must = index.query(r#"{"bool": {"must": [{"term": {"service": "billing"}}]}}"#);
    assert_eq!(must.hits.total, 2);
    let should = index.query(
        r#"{"bool": {"should": [{"term": {"service": "billing"}}, {"term": {"service": "search"}}]}}"#,
    );
    assert_eq!(should.hits.total, 3);
    let must_not = index.query(
        r#"{"bool": {"filter": [{"term": {"service": "billing"}}],
                     "must_not": [{"term": {"level": "error"}}]}}"#,
    );
    assert_eq!(must_not.hits.total, 1);
    assert_eq!(must_not.hits.hits[0].id, "doc-1");
}

fn index_operation(id: &str, source: &str) -> BulkOperation {
    BulkOperation::Index(BulkIndexOperation {
        id: id.to_string(),
        source: json(source),
    })
}

fn delete_operation(id: &str) -> BulkOperation {
    BulkOperation::Delete(BulkDeleteOperation { id: id.to_string() })
}

fn apply_bulk(
    index: &mut Index,
    request: &BulkRequest,
    sources: &[&str],
) -> cloudsearch::types::BulkResponse {
    let mut outcomes = Vec::new();
    for (operation, source) in request.operations.iter().zip(sources) {
        outcomes.push(match operation {
            BulkOperation::Index(op) => index.index(&op.id, source),
            BulkOperation::Delete(op) => Ok(index.delete(&op.id)),
        });
    }
    bulk_response(request, &outcomes)
}

#[test]
fn bulk_apply_orders_updates_and_requires_refresh() {
    let mut index = Index::new();
    let sources = [
        r#"{"message": "first"}"#,
        r#"{"message": "second"}"#,
        "",
        r#"{"message": "survivor"}"#,
    ];
    let request = BulkRequest {
        operations: vec![
            index_operation("doc-1", sources[0]),
            index_operation("doc-1", sources[1]),
            delete_operation("doc-2"),
            index_operation("doc-2", sources[3]),
        ],
    };
    let response = apply_bulk(&mut index, &request, &sources);
    assert!(!response.errors);
    assert_eq!(response.items.len(), 4);
    assert_eq!(index.total(), 0);
    index.refresh();
    assert_eq!(index.total(), 2);
    assert_eq!(index.message("doc-1"), "second");
    assert_eq!(index.message("doc-2"), "survivor");
}

#[test]
fn bulk_state_survives_reopen_after_refresh() {
    let mut index = Index::new();
    let sources = [r#"{"service": "billing"}"#, r#"{"service": "search"}"#, ""];
    let request = BulkRequest {
        operations: vec![
            index_operation("doc-1", sources[0]),
            index_operation("doc-2", sources[1]),
            delete_operation("doc-1"),
        ],
    };
    apply_bulk(&mut index, &request, &sources);
    index.refresh();
    let reopened = index.reopen();
    assert_eq!(reopened.total(), 1);
    assert!(reopened.handle.get_document("doc-1").is_none());
    let document = reopened.handle.get_document("doc-2").unwrap();
    assert_eq!(document.source.text_of("service"), Some("search"));
}

#[test]
fn a_failed_operation_does_not_stop_the_others() {
    let mut index = Index::new();
    let sources = [r#"{"a": 1}"#, r#"{"a": "text"}"#, ""];
    let request = BulkRequest {
        operations: vec![
            index_operation("doc-1", sources[0]),
            index_operation("doc-2", sources[1]),
            delete_operation("doc-1"),
        ],
    };
    let response = apply_bulk(&mut index, &request, &sources);
    assert!(response.errors);
    match &response.items[0] {
        BulkItem::Index(result) => {
            assert_eq!(result.id, "doc-1");
            assert_eq!(result.result, "created");
            assert_eq!(result.sequence_number, 1);
        }
        other => panic!("expected Index, got {other:?}"),
    }
    match &response.items[1] {
        BulkItem::Index(result) => {
            assert!(result.result.starts_with("error: mapping conflict: "));
            assert_eq!(result.sequence_number, 0);
        }
        other => panic!("expected Index, got {other:?}"),
    }
    match &response.items[2] {
        BulkItem::Delete(result) => {
            assert_eq!(result.result, "deleted");
            assert_eq!(result.sequence_number, 2);
        }
        other => panic!("expected Delete, got {other:?}"),
    }
    let shown = to_compat_bulk_response(response);
    assert!(shown.errors);
    assert_eq!(shown.items.len(), 3);
    assert!(matches!(&shown.items[0], CompatBulkItem::Index(r) if r.id == "doc-1" && r.result == "created"));
    assert!(matches!(&shown.items[2], CompatBulkItem::Delete(r) if r.id == "doc-1" && r.result == "deleted"));
}

#[test]
fn terms_query_matches_multiple_values() {
    let mut index = Index::new();
    index.put("doc-1", r#"{"service": "billing"}"#);
    index.put("doc-2", r#"{"service": "search"}"#);
    index.put("doc-3", r#"{"service": "auth"}"#);
    index.refresh();
    let response = index.query(r#"{"terms": {"service": ["billing", "auth"]}}"#);
    assert_eq!(response.hits.total, 2);
    assert_eq!(ids(&response), ["doc-1", "doc-3"]);
}

#[test]
fn terms_query_handles_empty_duplicate_numeric_and_boolean_values() {
    let mut index = Index::new();
    index.put("doc-1", r#"{"service": "billing", "latency": 30, "active": true}"#);
    index.put("doc-2", r#"{"service": "search", "latency": 10, "active": false}"#);
    index.refresh();
    assert_eq!(index.query(r#"{"terms": {"service": []}}"#).hits.total, 0);
    let duplicates = index.query(r#"{"terms": {"service": ["billing", "billing"]}}"#);
    assert_eq!(duplicates.hits.total, 1);
    assert_eq!(ids(&duplicates), ["doc-1"]);
    let numeric = index.query(r#"{"terms": {"latency": [10, 99]}}"#);
    assert_eq!(numeric.hits.total, 1);
    assert_eq!(ids(&numeric), ["doc-2"]);
    let booleans = index.query(r#"{"terms": {"active": [true]}}"#);
    assert_eq!(booleans.hits.total, 1);
    assert_eq!(ids(&booleans), ["doc-1"]);
}

#[test]
fn search_supports_pagination_and_sorting() {
    let mut index = Index::new();
    for (id, latency, service, active, timestamp) in [
        ("doc-1", 30, "billing", true, "2026-03-14T10:00:00Z"),
        ("doc-2", 10, "search", false, "2026-03-14T11:00:00Z"),
        ("doc-3", 20, "auth", true, "2026-03-14T12:00:00Z"),
    ] {
        index.put(
            id,
            &format!(
                r#"{{"latency": {latency}, "service": "{service}", "active": {active}, "timestamp": "{timestamp}"}}"#
            ),
        );
    }
    index.refresh();
    let paged = index.ask(r#"{"from": 1, "size": 1, "sort": {"field": "latency", "order": "asc"}}"#);
    assert_eq!(paged.hits.total, 3);
    assert_eq!(paged.hits.hits.len(), 1);
    assert_eq!(paged.hits.hits[0].id, "doc-3");
    let strings = index.ask(r#"{"size": 2, "sort": {"field": "service", "order": "desc"}}"#);
    assert_eq!(ids(&strings), ["doc-2", "doc-1"]);
    let booleans = index.ask(r#"{"sort": {"field": "active", "order": "asc"}}"#);
    assert_eq!(booleans.hits.hits[0].id, "doc-2");
    let timestamps = index.ask(r#"{"sort": {"field": "timestamp", "order": "desc"}}"#);
    assert_eq!(timestamps.hits.hits[0].id, "doc-3");
}

#[test]
fn terms_and_stats_aggregations_respect_query_and_ignore_pagination() {
    let mut index = Index::new();
    index.put("doc-1", r#"{"service": "billing", "level": "info", "latency": 10}"#);
    index.put("doc-2", r#"{"service": "billing", "level": "error", "latency": 20}"#);
    index.put("doc-3", r#"{"service": "search", "level": "info", "latency": 30}"#);
    index.put("doc-4", r#"{"service": "search", "level": "info"}"#);
    index.refresh();
    let response = index.ask(
        r#"{"query": {"term": {"level": "info"}}, "from": 0, "size": 1,
            "aggs": {"services": {"terms": {"field": "service"}},
                     "latency_stats": {"stats": {"field": "latency"}}}}"#,
    );
    assert_eq!(response.hits.total, 3);
    assert_eq!(response.hits.hits.len(), 1);
    match response.aggregations.get("services") {
        Some(AggregationResult::Terms(terms)) => {
            assert_eq!(terms.buckets.len(), 2);
            assert_eq!(terms.buckets[0].key.as_str(), Some("search"));
            assert_eq!(terms.buckets[0].doc_count, 2);
            assert_eq!(terms.buckets[1].key.as_str(), Some("billing"));
            assert_eq!(terms.buckets[1].doc_count, 1);
        }
        other => panic!("unexpected aggregation result: {other:?}"),
    }
    match response.aggregations.get("latency_stats") {
        Some(AggregationResult::Stats(stats)) => {
            let values: Vec<f64> = stats.values.iter().copied().map(f64::from_bits).collect();
            let sum: f64 = values.iter().sum();
            assert_eq!(stats.count, 2);
            assert_eq!(stats.min.map(f64::from_bits), Some(10.0));
            assert_eq!(stats.max.map(f64::from_bits), Some(30.0));
            assert_eq!(sum / stats.count as f64, 20.0);
            assert_eq!(sum, 40.0);
        }
        other => panic!("unexpected aggregation result: {other:?}"),
    }
}

fn refuses(index: &Index, request: &str) -> String {
    match index
        .handle
        .validate_search_request(&parse_search_request(&json(request)).expect("request"))
    {
        Err(CloudSearchError::InvalidSearchRequest(reason)) => reason,
        other => panic!("expected a refusal, got {other:?}"),
    }
}

#[test]
fn terms_aggregation_rejects_object_field() {
    let mut index = Index::new();
    index.put("doc-1", r#"{"metadata": {"key": "value"}}"#);
    refuses(&index, r#"{"aggs": {"by_field": {"terms": {"field": "metadata"}}}}"#);
}

#[test]
fn stats_aggregation_rejects_object_field() {
    let mut index = Index::new();
    index.put("doc-1", r#"{"metadata": {"key": "value"}}"#);
    refuses(&index, r#"{"aggs": {"field_stats": {"stats": {"field": "metadata"}}}}"#);
}

#[test]
fn date_histogram_aggregation_rejects_non_timestamp_field() {
    let mut index = Index::new();
    index.put("doc-1", r#"{"count": 42}"#);
    refuses(
        &index,
        r#"{"aggs": {"over_time": {"date_histogram": {"field": "count", "interval": "day"}}}}"#,
    );
}

#[test]
fn date_histogram_buckets_by_hour_and_ignores_missing_values() {
    let mut index = Index::new();
    index.put("doc-1", r#"{"timestamp": "2026-03-14T10:05:00Z", "service": "billing"}"#);
    index.put("doc-2", r#"{"timestamp": "2026-03-14T10:45:00Z", "service": "billing"}"#);
    index.put("doc-3", r#"{"timestamp": "2026-03-14T11:15:00Z", "service": "billing"}"#);
    index.put("doc-4", r#"{"service": "billing"}"#);
    index.put("doc-5", r#"{"service": "billing"}"#);
    index.refresh();
    let response = index.ask(
        r#"{"aggs": {"events_over_time":
            {"date_histogram": {"field": "timestamp", "interval": "hour"}}}}"#,
    );
    match response.aggregations.get("events_over_time") {
        Some(AggregationResult::DateHistogram(histogram)) => {
            assert_eq!(histogram.buckets.len(), 2);
            assert_eq!(histogram.buckets[0].key, "2026-03-14T10:00:00Z");
            assert_eq!(histogram.buckets[0].doc_count, 2);
            assert_eq!(histogram.buckets[1].key, "2026-03-14T11:00:00Z");
            assert_eq!(histogram.buckets[1].doc_count, 1);
        }
        other => panic!("unexpected aggregation result: {other:?}"),
    }
}

#[test]
fn pagination_edges_and_missing_sort_field_are_stable() {
    let mut index = Index::new();
    index.put("doc-1", r#"{"latency": 30}"#);
    index.put("doc-2", r#"{"latency": 10}"#);
    index.put("doc-3", r#"{"message": "missing-latency"}"#);
    index.refresh();
    let zero_size = index.ask(r#"{"size": 0}"#);
    assert_eq!(zero_size.hits.total, 3);
    assert!(zero_size.hits.hits.is_empty());
    let exact_end = index.ask(r#"{"from": 3, "size": 2}"#);
    assert_eq!(exact_end.hits.total, 3);
    assert!(exact_end.hits.hits.is_empty());
    let missing_last = index.ask(r#"{"sort": {"field": "latency", "order": "asc"}}"#);
    assert_eq!(ids(&missing_last), ["doc-2", "doc-1", "doc-3"]);
}

#[test]
fn range_query_rejects_string_and_boolean_fields() {
    let mut index = Index::new();
    index.put("doc-1", r#"{"service": "billing", "active": true}"#);
    index.refresh();
    assert_eq!(index.query(r#"{"range": {"service": {"gte": "a"}}}"#).hits.total, 0);
    assert_eq!(index.query(r#"{"range": {"active": {"gte": true}}}"#).hits.total, 0);
}

#[test]
fn repeated_flushes_without_new_writes_are_stable() {
    let mut index = Index::new();
    index.put("doc-1", r#"{"message": "hello"}"#);
    index.refresh();
    let first = index.flush();
    let second = index.flush();
    assert_eq!(first.flushed_documents, 1);
    assert_eq!(second.flushed_documents, 1);
    assert_eq!(index.reopen().total(), 1);
}

#[test]
fn merge_plan_is_empty_for_small_indexes() {
    let mut index = Index::new();
    index.put("doc-1", r#"{"message": "hello"}"#);
    index.refresh();
    assert!(index.handle.plan_merge().is_none());
}

#[test]
fn merge_plan_appears_once_threshold_is_met() {
    let mut index = Index::new();
    for i in 0..MERGE_TRIGGER_DOCUMENT_COUNT {
        index.put(&format!("doc-{i}"), &format!(r#"{{"message": "doc {i}"}}"#));
    }
    index.refresh();
    index.flush();
    let plan = index.handle.plan_merge().expect("merge plan");
    assert_eq!(plan.segments.len(), 1);
    assert_eq!(
        plan.segments[0].document_count,
        MERGE_TRIGGER_DOCUMENT_COUNT as u64
    );
    assert_eq!(
        plan.segments[0].last_sequence_number,
        MERGE_TRIGGER_DOCUMENT_COUNT as u64
    );
}

#[test]
fn merge_removes_duplicate_overwrites() {
    let mut index = Index::new();
    index.put("doc-1", r#"{"message": "v1"}"#);
    index.put("doc-1", r#"{"message": "v2"}"#);
    index.refresh();
    let merged = index.handle.merge();
    assert_eq!(merged.result, "merged");
    assert_eq!(merged.merged_documents, 1);
    let result = index.search(&SearchRequest::default());
    assert_eq!(result.hits.total, 1);
    assert_eq!(result.hits.hits[0].source.text_of("message"), Some("v2"));
}

#[test]
fn merge_removes_deleted_documents() {
    let mut index = Index::new();
    index.put("doc-1", r#"{"message": "hello"}"#);
    index.refresh();
    index.delete("doc-1");
    index.refresh();
    assert_eq!(index.handle.merge().merged_documents, 0);
    assert_eq!(index.total(), 0);
}

#[test]
fn reopen_after_merge_is_stable() {
    let mut index = Index::new();
    index.put("doc-1", r#"{"message": "hello"}"#);
    index.refresh();
    index.handle.merge();
    assert_eq!(index.reopen().total(), 1);
}

fn merged_snapshot(index: &mut Index) -> SegmentSnapshot {
    let documents = index.handle.current_documents();
    let snapshot = index.handle.merge_snapshot(&documents);
    index.handle.merge();
    snapshot
}

#[test]
fn merge_writes_persisted_snapshot_without_refresh() {
    let mut index = Index::new();
    index.put("doc-1", r#"{"message": "hello"}"#);
    let persisted = merged_snapshot(&mut index);
    assert_eq!(persisted.documents.len(), 1);
    assert_eq!(persisted.documents[0].id, "doc-1");
}

#[test]
fn merge_compacts_overwrites_without_prior_refresh() {
    let mut index = Index::new();
    index.put("doc-1", r#"{"message": "v1"}"#);
    index.put("doc-1", r#"{"message": "v2"}"#);
    let persisted = merged_snapshot(&mut index);
    assert_eq!(persisted.documents.len(), 1);
    assert_eq!(persisted.documents[0].source.text_of("message"), Some("v2"));
}

#[test]
fn merge_applies_pending_delete_without_refresh() {
    let mut index = Index::new();
    index.put("doc-1", r#"{"message": "hello"}"#);
    index.refresh();
    index.delete("doc-1");
    assert_eq!(merged_snapshot(&mut index).documents.len(), 0);
}

#[test]
fn prefix_queries_match_string_prefixes() {
    let mut index = Index::new();
    index.put("doc-1", r#"{"service": "auth-service", "message": "hello"}"#);
    index.put("doc-2", r#"{"service": "auth-worker", "message": "world"}"#);
    index.put("doc-3", r#"{"service": "billing-api", "message": "hi"}"#);
    index.refresh();
    let total = |field: &str, value: &str| {
        index
            .query(&format!(r#"{{"prefix": {{"{field}": "{value}"}}}}"#))
            .hits
            .total
    };
    assert_eq!(total("service", "auth-"), 2);
    assert_eq!(total("service", "auth-worker"), 1);
    assert_eq!(total("service", "xyz"), 0);
    // Prefix matching is case-sensitive
    assert_eq!(total("service", "Auth-"), 0);
    assert_eq!(total("nonexistent", "test"), 0);
    // Empty prefix matches any string
    assert_eq!(total("service", ""), 3);
}

#[test]
fn wildcard_queries_match_string_patterns() {
    let mut index = Index::new();
    index.put("doc-1", r#"{"service": "auth-service", "message": "hello"}"#);
    index.put("doc-2", r#"{"service": "auth-worker", "message": "world"}"#);
    index.put("doc-3", r#"{"service": "billing-api", "message": "hi"}"#);
    index.put("doc-4", r#"{"service": "search-service", "message": "test"}"#);
    index.refresh();
    let total = |value: &str| {
        index
            .query(&format!(r#"{{"wildcard": {{"service": "{value}"}}}}"#))
            .hits
            .total
    };
    assert_eq!(total("auth-*"), 2);
    assert_eq!(total("*service"), 2);
    assert_eq!(total("*-api"), 1);
    assert_eq!(total("*-service"), 2);
    assert_eq!(total("xyz*"), 0);
    // Case-sensitive: "Auth-*" doesn't match "auth-service"
    assert_eq!(total("Auth-*"), 0);
    // "?" stands for one character, and "." for itself
    assert_eq!(total("auth-work?r"), 1);
    assert_eq!(total("auth.work*"), 0);
}

#[test]
fn match_queries_find_tokens_in_text_fields() {
    let mut index = Index::new();
    index.put("doc-1", r#"{"message": "hello world"}"#);
    index.put("doc-2", r#"{"message": "hello there world"}"#);
    index.put("doc-3", r#"{"message": "foo bar"}"#);
    index.refresh();
    let hello = index.query(r#"{"match": {"message": "hello"}}"#);
    assert_eq!(hello.hits.total, 2);
    assert_eq!(hello.hits.hits[0].id, "doc-1");
    assert_eq!(hello.hits.hits[0].score.as_ref().map(value), Some(1.0));
    let both = index.query(r#"{"match": {"message": "hello world"}}"#);
    assert_eq!(both.hits.total, 2);
    assert_eq!(ids(&both), ["doc-1", "doc-2"]);
    assert_eq!(both.hits.hits[0].score.as_ref().map(value), Some(1.0));
    assert_eq!(both.hits.hits[1].score.as_ref().map(value), Some(1.0));
    assert_eq!(index.query(r#"{"match": {"message": "xyz"}}"#).hits.total, 0);
    assert_eq!(index.query(r#"{"match": {"message": "HELLO"}}"#).hits.total, 2);
    // The better match comes first
    let ranked = index.query(r#"{"match": {"message": "there world"}}"#);
    assert_eq!(ids(&ranked), ["doc-2", "doc-1"]);
    assert_eq!(ranked.hits.hits[1].score.as_ref().map(value), Some(0.5));
}

#[test]
fn get_document_returns_none_for_pending_delete() {
    let mut index = Index::new();
    index.put("1", r#"{"x": 1}"#);
    index.delete("1");
    assert!(index.handle.get_document("1").is_none());
}

#[test]
fn apply_merge_plan_skips_when_no_on_disk_segment() {
    let mut index = Index::new();
    index.put("1", r#"{"x": 1}"#);
    let plan = MergePlan::new(vec![SegmentMeta {
        segment_number: 1,
        last_sequence_number: 1,
        document_count: 1,
        checksum: 0,
    }]);
    index.apply(&plan);
    assert_eq!(index.handle.documents().len(), 1);
    assert_eq!(index.handle.manifest().segments.len(), 1);
}

#[test]
fn validate_search_request_rejects_nested_bool_with_object_field() {
    let mut index = Index::new();
    index.put("1", r#"{"meta": {"nested": "value"}}"#);
    index.refresh();
    refuses(
        &index,
        r#"{"query": {"bool": {"must": [{"bool": {"must": [{"term": {"meta": "value"}}]}}]}},
            "sort": {"field": "meta", "order": "asc"}}"#,
    );
}

#[test]
fn validate_search_request_rejects_size_exceeding_max() {
    assert_eq!(
        refuses(&Index::new(), r#"{"size": 100000}"#),
        "size (100000) exceeds maximum allowed value (10000)"
    );
}

#[test]
fn validate_search_request_rejects_from_exceeding_max() {
    assert_eq!(
        refuses(&Index::new(), r#"{"from": 2000000}"#),
        "from (2000000) exceeds maximum allowed value (1000000)"
    );
}

#[test]
fn validate_search_request_rejects_search_after_without_sort() {
    let request = SearchRequest {
        search_after: Some(vec![json("1.0"), json("\"doc123\"")]),
        ..Default::default()
    };
    let result = Index::new().handle.validate_search_request(&request);
    assert!(
        result.is_err(),
        "search_after without sort field should be rejected"
    );
}

#[test]
fn validate_search_request_rejects_fuzzy_with_search_after() {
    let request = SearchRequest {
        query: Some(SearchQuery::Term(TermQuery {
            field: "name".to_string(),
            value: json("\"admin\""),
            fuzziness: Some(Fuzziness::Auto),
        })),
        search_after: Some(vec![json("1.0"), json("\"doc123\"")]),
        sort: Some(SortSpec {
            field: "name".to_string(),
            order: SortOrder::Asc,
        }),
        ..Default::default()
    };
    let result = Index::new().handle.validate_search_request(&request);
    assert!(
        result.is_err(),
        "fuzzy query with search_after should be rejected"
    );
}

fn fragments(response: &SearchResponse, field: &str) -> Vec<String> {
    let hit = response.hits.hits.first().expect("should have a hit");
    match &hit.highlight {
        Some(highlight) => highlight.get(field).expect("highlighted field").clone(),
        None => Vec::new(),
    }
}

#[test]
fn highlight_positions_case_insensitive() {
    let mut index = Index::new();
    index.put("1", r#"{"content": "ERROR log ERROR message"}"#);
    index.refresh();
    index.flush();
    let result = index.query(r#"{"match": {"content": "error"}}"#);
    assert!(
        result.hits.hits[0].highlight.is_some(),
        "lowercase 'error' should find highlight in 'ERROR log ERROR'"
    );
    // Each word is noted twice, and each fragment is shown once
    let shown = fragments(&result, "content");
    assert_eq!(shown.len(), 2);
    assert_ne!(shown[0], shown[1]);
}

#[test]
fn highlight_positions_multiple_occurrences() {
    let mut index = Index::new();
    index.put("1", r#"{"content": "info error info error"}"#);
    index.refresh();
    index.flush();
    let result = index.query(r#"{"match": {"content": "info"}}"#);
    assert!(
        result.hits.hits[0].highlight.is_some(),
        "'info' should be highlighted even when it appears twice"
    );
}

#[test]
fn highlight_positions_no_match() {
    let mut index = Index::new();
    index.put("1", r#"{"content": "hello world"}"#);
    index.refresh();
    index.flush();
    let result = index.query(r#"{"match_all": {}}"#);
    let hit = result.hits.hits.first().expect("doc should be found with MatchAll");
    assert!(
        hit.highlight.is_none(),
        "MatchAll query should produce no highlight (no query terms to highlight)"
    );
}

#[test]
fn highlight_positions_empty_field() {
    let mut index = Index::new();
    index.put("1", r#"{"content": ""}"#);
    index.refresh();
    index.flush();
    let result = index.query(r#"{"match": {"content": "any"}}"#);
    assert!(
        result.hits.hits.is_empty() || result.hits.hits.iter().all(|h| h.highlight.is_none()),
        "no highlight for empty text field"
    );
}

#[test]
fn fuzzy_match_exact_edit_distance_within_threshold() {
    let mut index = Index::new();
    index.put("1", r#"{"name": "admin"}"#);
    index.refresh();
    let result =
        index.query(r#"{"term": {"field": "name", "value": "admim", "fuzziness": 1}}"#);
    assert_eq!(
        result.hits.total, 1,
        "edit distance 1 should match with fuzziness=1"
    );
    assert_eq!(result.hits.hits[0].id, "1");
}

#[test]
fn fuzzy_match_no_match_when_exceeding_threshold() {
    let mut index = Index::new();
    index.put("1", r#"{"name": "admin"}"#);
    index.refresh();
    let result = index.query(r#"{"term": {"field": "name", "value": "xyz", "fuzziness": 1}}"#);
    assert_eq!(
        result.hits.total, 0,
        "edit distance 5 should NOT match with fuzziness=1"
    );
}

#[test]
fn fuzzy_match_auto_mode_threshold_2_for_long_terms() {
    let mut index = Index::new();
    index.put("1", r#"{"name": "admin"}"#);
    index.refresh();
    let result =
        index.query(r#"{"term": {"field": "name", "value": "admim", "fuzziness": "auto"}}"#);
    assert_eq!(
        result.hits.total, 1,
        "Auto fuzziness (threshold=2) should match edit distance 1"
    );
}

#[test]
fn minimum_should_match_requires_multiple_should_matches() {
    let mut index = Index::new();
    index.put("1", r#"{"x": "a"}"#);
    index.put("2", r#"{"x": "b"}"#);
    index.refresh();
    let result = index.query(
        r#"{"bool": {"should": [{"term": {"x": "a"}}, {"term": {"x": "b"}}],
                     "minimum_should_match": 2}}"#,
    );
    assert_eq!(
        result.hits.total, 0,
        "minimum_should_match=2 should reject docs with only 1 matching should clause"
    );
}

#[test]
fn minimum_should_match_zero_allows_no_should_matches() {
    let mut index = Index::new();
    index.put("1", r#"{"x": "a"}"#);
    index.refresh();
    let result = index.query(
        r#"{"bool": {"should": [{"term": {"x": "a"}}, {"term": {"x": "b"}}],
                     "minimum_should_match": 0}}"#,
    );
    assert_eq!(
        result.hits.total, 1,
        "minimum_should_match=0 should allow doc when no should clauses match"
    );
}

#[test]
fn phrases_need_their_words_in_order() {
    let mut index = Index::new();
    index.put("1", r#"{"content": "hello world today"}"#);
    index.put("2", r#"{"content": "world hello"}"#);
    index.put("3", r#"{"content": "hello there is a wide world"}"#);
    index.refresh();
    assert_eq!(index.query(r#"{"phrase": {"content": "hello world"}}"#).hits.total, 0);
    index.flush();
    let near = index.query(r#"{"phrase": {"content": "Hello World"}}"#);
    assert_eq!(ids(&near), ["1", "3"]);
    assert_eq!(near.hits.hits[0].score.as_ref().map(value), Some(1.0));
    // The words of the third document stand 22 bytes apart
    let far = near.hits.hits[1].score.as_ref().map(value).unwrap();
    assert_eq!(far, 1.0 / (1.0 + 22.0_f32 * 0.1));
    assert_eq!(index.query(r#"{"phrase": {"content": "hello"}}"#).hits.total, 0);
}

#[test]
fn highlights_mark_the_words_of_the_query() {
    let mut index = Index::new();
    index.put("1", r#"{"content": "an ERROR occurred"}"#);
    index.refresh();
    index.flush();
    let result = index.query(r#"{"match": {"content": "error"}}"#);
    let found = fragments(&result, "content");
    assert_eq!(found.len(), 1);
    assert!(found[0].contains("<em>ERROR</em>"), "{found:?}");
}

#[test]
fn highlights_show_fifty_characters_before_and_thirty_behind() {
    let mut index = Index::new();
    let text = format!("{} error {}", "é".repeat(60), "é".repeat(40));
    index.put("1", &format!(r#"{{"content": "{text}"}}"#));
    index.refresh();
    index.flush();
    let result = index.query(r#"{"match": {"content": "error"}}"#);
    let expected = format!("{} <em>error</em> {}", "é".repeat(49), "é".repeat(29));
    assert_eq!(fragments(&result, "content"), [expected]);
}

#[test]
fn highlights_skip_positions_inside_a_character() {
    let mut index = Index::new();
    // The word stands at the fourth byte, which is the second of a character in the other text
    index.put("1", r#"{"a": "ab word", "b": "éééééé", "c": "zz zz zz"}"#);
    index.refresh();
    index.flush();
    let result = index.query(r#"{"match": {"a": "word"}}"#);
    let highlight = result.hits.hits[0].highlight.as_ref().expect("highlight");
    assert_eq!(fragments(&result, "a"), ["ab <em>word</em>"]);
    assert!(highlight.get("b").is_none());
    assert_eq!(fragments(&result, "c"), ["zz <em>zz z</em>z"]);
}

#[test]
fn a_search_needs_the_words_of_its_phrases_and_highlights() {
    let query = parse_query(&json(
        r#"{"bool": {"must": [{"phrase": {"a": "Big Cat"}}],
                     "must_not": [{"phrase": {"a": "bad dog"}}],
                     "filter": [{"term": {"b": "X"}}]}}"#,
    ))
    .unwrap();
    assert_eq!(
        position_terms(&query),
        ["big", "cat", "bad", "dog", "big", "cat", "x"]
    );
}

fn retained(secs: u64) -> Index {
    Index::with_request(CreateIndexRequest {
        settings: IndexSettings {
            primary_time_field: Some("at".to_string()),
            retention_secs: Some(secs),
            ..Default::default()
        },
        mappings: None,
    })
}

#[test]
fn expired_documents_are_not_found_and_can_be_evicted() {
    let mut index = retained(60);
    index.put("old", r#"{"at": 1773499940}"#);
    index.put("new", r#"{"at": 1773499941}"#);
    index.put("timeless", r#"{"v": 1}"#);
    index.refresh();
    assert!(index.handle.has_retention_policy());
    assert_eq!(index.handle.retention_secs(), Some(60));
    assert_eq!(index.handle.primary_time_field(), Some("at"));
    assert!(index.handle.is_expired("old", NOW));
    assert!(!index.handle.is_expired("new", NOW));
    let found = index.search(&SearchRequest::default());
    assert_eq!(ids(&found), ["new", "timeless"]);
    let expired = index.handle.expired_ids(NOW);
    assert_eq!(expired, ["old"]);
    assert_eq!(index.handle.evict_expired_documents(&expired), 1);
    assert!(index.handle.get_document("old").is_none());
    assert!(index.handle.expired_ids(NOW).is_empty());
    index.refresh();
    assert_eq!(index.handle.documents().len(), 2);
}

#[test]
fn dates_can_be_written_as_text() {
    let mut index = retained(60);
    index.put("old", r#"{"at": "2026-03-14T14:52:20Z"}"#);
    index.put("new", r#"{"at": "2026-03-14T16:52:21+02:00"}"#);
    index.refresh();
    assert_eq!(index.handle.expired_ids(NOW), ["old"]);
    assert_eq!(ids(&index.search(&SearchRequest::default())), ["new"]);
}

#[test]
fn documents_without_retention_never_expire() {
    let mut index = Index::new();
    index.put("old", r#"{"at": 1}"#);
    index.refresh();
    assert!(!index.handle.has_retention_policy());
    assert!(index.handle.expired_ids(NOW).is_empty());
    assert_eq!(index.total(), 1);
}

#[test]
fn an_expiry_that_no_date_can_name_is_reported() {
    let mut index = retained(9_000_000_000_000_000);
    let document = doc("1", r#"{"at": 0}"#);
    assert!(index.handle.note_expiry(&document).is_err());
}

#[test]
fn metrics_count_documents_and_waiting_operations() {
    let mut index = Index::new();
    index.put("1", r#"{"x": 1}"#);
    index.refresh();
    index.put("2", r#"{"x": 2}"#);
    index.delete("1");
    let metrics = index.handle.metrics();
    assert_eq!(metrics.document_count, 1);
    assert_eq!(metrics.pending_operations, 2);
    assert_eq!(metrics.last_sequence_number, 3);
}

#[test]
fn a_snapshot_brings_the_documents_back() {
    let mut index = retained(60);
    index.put("1", r#"{"at": 1773499990, "v": 1}"#);
    index.refresh();
    index.put("2", r#"{"at": 1773499990, "v": 2}"#);
    let snapshot = index.handle.snapshot_documents();
    assert_eq!(snapshot.documents.len(), 2);
    let metadata = index
        .handle
        .create_snapshot("before", &snapshot, b"snapshot", NOW);
    let created = snapshot_created(&metadata);
    assert_eq!(created.name, "before");
    assert_eq!(created.document_count, 2);
    assert_eq!(created.last_sequence_number, 2);
    assert_eq!(created.checksum, checksum_of(b"snapshot"));

    index.put("3", r#"{"at": 1773499990}"#);
    index.delete("1");
    index.refresh();
    assert_eq!(
        index
            .handle
            .restore_snapshot(&snapshot, &metadata, b"other bytes")
            .expect_err("wrong bytes"),
        RestoreFault::ChecksumMismatch
    );
    assert_eq!(index.handle.documents().len(), 2);
    let restored = index
        .handle
        .restore_snapshot(&snapshot, &metadata, b"snapshot")
        .expect("restore");
    assert_eq!(restored.result, "restored");
    assert_eq!(restored.restored_documents, 2);
    assert_eq!(restored.sequence_number, 2);
    let found = index.search(&SearchRequest::default());
    assert_eq!(ids(&found), ["1", "2"]);
    assert_eq!(index.handle.last_sequence_number(), 2);
    let later = Timestamp {
        secs: NOW.secs + 51,
        nanos: 0,
    };
    assert_eq!(index.handle.expired_ids(later), ["1", "2"]);
}

#[test]
fn restoring_reports_an_expiry_that_no_date_can_name() {
    let mut index = retained(9_000_000_000_000_000);
    let snapshot = SegmentSnapshot {
        last_sequence_number: 1,
        documents: vec![doc("1", r#"{"at": 0}"#)],
    };
    assert_eq!(index.handle.index_document(doc("2", r#"{"n": 0}"#)), 1);
    let metadata = index.handle.create_snapshot("s", &snapshot, b"x", NOW);
    assert_eq!(
        index
            .handle
            .restore_snapshot(&snapshot, &metadata, b"x")
            .expect_err("no such date"),
        RestoreFault::ExpiryOutOfRange
    );
    assert!(index.handle.get_document("1").is_none());
    assert!(index.handle.get_document("2").is_some());
    assert_eq!(index.handle.last_sequence_number(), 1);
    assert_eq!(index.handle.refresh(NOW), 1);
}

#[test]
fn checksums_are_castagnoli() {
    // The check value of CRC-32C
    assert_eq!(checksum_of(b"123456789"), 0xe306_9283);
    assert!(verify_checksum(b"123456789", 0xe306_9283).is_ok());
    assert!(matches!(
        verify_checksum(b"123456789", 0),
        Err(CloudSearchError::WalChecksumMismatch)
    ));
}

#[test]
fn small_segments_are_merged_into_one() {
    let mut index = Index::new();
    index.put("1", r#"{"v": 1}"#);
    index.refresh();
    index.flush();
    assert_eq!(index.handle.manifest().segments.len(), 1);
    index.put("2", r#"{"v": 2}"#);
    index.refresh();
    index.flush();
    let segments = &index.handle.manifest().segments;
    assert_eq!(segments.len(), 1);
    assert_eq!(segments[0].segment_number, 3);
    assert_eq!(segments[0].document_count, 2);
    assert_eq!(segments[0].last_sequence_number, 2);
    assert_eq!(index.reopen().total(), 2);
}

#[test]
fn an_empty_plan_changes_nothing() {
    let mut index = Index::new();
    index.put("1", r#"{"v": 1}"#);
    index.refresh();
    let manifest = IndexManifest {
        version: 9,
        last_updated: NOW,
        segments: Vec::new(),
    };
    let plan = MergePlan::new(Vec::new());
    assert!(plan.is_empty());
    index.handle.apply_merge_plan(&plan, manifest);
    assert_eq!(index.handle.manifest().version, 1);
    assert_eq!(index.handle.documents().len(), 1);
}

#[test]
fn flushed_positions_name_term_document_and_place() {
    let mut index = Index::new();
    index.put("1", r#"{"a": "one two one"}"#);
    index.refresh();
    let snapshot = index.handle.flush_snapshot();
    let entries = index.handle.flush_entries(&snapshot);
    let listed: Vec<(&str, u32)> = entries
        .iter()
        .map(|e| (e.term.as_str(), e.position))
        .collect();
    // A word that comes twice has its places noted twice
    assert_eq!(
        listed,
        [("one", 0), ("one", 8), ("one", 0), ("one", 8), ("two", 4)]
    );
    assert!(entries
        .iter()
        .all(|e| e.doc_id == cloudsearch::positions::hash_doc_id("1")));
    index.handle.flush(&snapshot);
    assert!(index.handle.flush_entries(&snapshot).is_empty());
    assert_eq!(extract_entries(&snapshot.documents).len(), 5);
}

#[test]
fn aggregations_count_what_was_found_whatever_the_columns_hold() {
    let mut index = Index::new();
    index.put("1", r#"{"service": "a", "n": 3}"#);
    index.put("2", r#"{"service": "b", "n": 5}"#);
    index.put("3", r#"{"service": "b", "n": 4}"#);
    index.refresh();
    let snapshot = index.handle.flush_snapshot();
    let columns =
        DocValuesWriter::build_from_documents(&snapshot.documents, &index.handle.metadata().mappings);
    let manifest = IndexManifest {
        version: 1,
        last_updated: NOW,
        segments: vec![SegmentMeta {
            segment_number: 1,
            last_sequence_number: 3,
            document_count: 3,
            checksum: 0,
        }],
    };
    index.handle = IndexHandle::open(
        copy_metadata(&index.store.metadata),
        manifest,
        &vec![Some(snapshot)],
        Some(DocValuesReader::new(columns)),
    );
    let response = index.ask(
        r#"{"aggs": {"s": {"terms": {"field": "service"}}, "n": {"stats": {"field": "n"}}}}"#,
    );
    match response.aggregations.get("s") {
        Some(AggregationResult::Terms(terms)) => {
            assert_eq!(terms.buckets[0].key.as_str(), Some("b"));
            assert_eq!(terms.buckets[0].doc_count, 2);
            assert_eq!(terms.buckets[1].doc_count, 1);
        }
        other => panic!("unexpected aggregation result: {other:?}"),
    }
    match response.aggregations.get("n") {
        Some(AggregationResult::Stats(stats)) => {
            assert_eq!(stats.count, 3);
            assert_eq!(stats.min.map(f64::from_bits), Some(3.0));
            assert_eq!(stats.max.map(f64::from_bits), Some(5.0));
        }
        other => panic!("unexpected aggregation result: {other:?}"),
    }
    let response = index.ask(
        r#"{"query": {"term": {"service": "a"}},
            "aggs": {"s": {"terms": {"field": "service"}}, "n": {"stats": {"field": "n"}}}}"#,
    );
    assert_eq!(response.hits.total, 1);
    match response.aggregations.get("s") {
        Some(AggregationResult::Terms(terms)) => {
            assert_eq!(terms.buckets.len(), 1);
            assert_eq!(terms.buckets[0].key.as_str(), Some("a"));
            assert_eq!(terms.buckets[0].doc_count, 1);
        }
        other => panic!("unexpected aggregation result: {other:?}"),
    }
    match response.aggregations.get("n") {
        Some(AggregationResult::Stats(stats)) => {
            assert_eq!(stats.count, 1);
            assert_eq!(stats.max.map(f64::from_bits), Some(3.0));
        }
        other => panic!("unexpected aggregation result: {other:?}"),
    }
}

#[test]
fn a_flush_takes_writes_along_that_wait() {
    let mut index = Index::new();
    index.put("doc-1", r#"{"message": "gone"}"#);
    index.refresh();
    index.put("doc-2", r#"{"message": "waiting"}"#);
    index.delete("doc-1");
    let flushed = index.flush();
    assert_eq!(flushed.flushed_documents, 1);
    assert_eq!(flushed.sequence_number, 3);
    assert!(index.store.wal.is_empty());
    let reopened = index.reopen();
    assert_eq!(reopened.handle.documents().len(), 1);
    assert_eq!(reopened.message("doc-2"), "waiting");
    assert!(reopened.handle.get_document("doc-1").is_none());
    assert_eq!(reopened.handle.last_sequence_number(), 3);
}

#[test]
fn a_document_deleted_between_flushes_stays_deleted() {
    let mut index = Index::with_request(CreateIndexRequest {
        settings: IndexSettings {
            merge_threshold_docs: Some(1),
            ..IndexSettings::default()
        },
        mappings: None,
    });
    index.put("1", r#"{"text": "one two"}"#);
    index.put("2", r#"{"text": "two three"}"#);
    index.refresh();
    index.flush();
    index.delete("1");
    index.refresh();
    index.flush();
    let found = index.query(r#"{"phrase": {"text": "two three"}}"#);
    assert_eq!(ids(&found), ["2"]);
    let reopened = index.reopen();
    assert!(reopened.handle.get_document("1").is_none());
    assert_eq!(reopened.total(), 1);
    assert_eq!(reopened.handle.last_sequence_number(), 3);
}

#[test]
fn segments_are_left_behind_where_they_hold_what_is_gone() {
    let mut index = Index::new();
    let flush = |index: &mut Index, number: u64| {
        let snapshot = index.handle.flush_snapshot();
        let manifest = index.handle.flush_manifest(number, &snapshot, 0, NOW);
        let entries = index.handle.flush_entries(&snapshot);
        index.install(&manifest, &snapshot);
        index.handle.install_manifest(manifest, &snapshot);
        index.handle.flush(&snapshot);
        entries.len()
    };
    index.put("1", r#"{"text": "one"}"#);
    assert_eq!(flush(&mut index, 1), 1);
    index.put("2", r#"{"text": "two"}"#);
    // The positions of the first document went with the first segment
    assert_eq!(flush(&mut index, 2), 1);
    assert_eq!(index.handle.manifest().segments.len(), 2);
    index.delete("1");
    index.put("3", r#"{"text": "three"}"#);
    assert_eq!(flush(&mut index, 3), 2);
    let segments = &index.handle.manifest().segments;
    assert_eq!(segments.len(), 1);
    assert_eq!((segments[0].segment_number, segments[0].document_count), (3, 2));
    let reopened = index.reopen();
    assert_eq!(reopened.handle.documents().len(), 2);
    assert!(reopened.handle.get_document("1").is_none());
}

#[test]
fn a_plan_keeps_every_document() {
    let mut index = Index::new();
    index.put("1", r#"{"v": 1}"#);
    index.put("2", r#"{"v": 2}"#);
    index.refresh();
    index.flush();
    let number = index.handle.manifest().segments[0].segment_number;
    index.put("3", r#"{"v": 3}"#);
    index.refresh();
    index.delete("1");
    let plan = MergePlan::new(vec![SegmentMeta {
        segment_number: number,
        last_sequence_number: 2,
        document_count: 2,
        checksum: 0,
    }]);
    index.apply(&plan);
    assert!(index.handle.get_document("1").is_none());
    assert!(index.handle.get_document("2").is_some());
    assert!(index.handle.get_document("3").is_some());
    assert_eq!(index.handle.documents().len(), 2);
    index.apply(&MergePlan::new(vec![SegmentMeta {
        segment_number: 99,
        last_sequence_number: 0,
        document_count: 1,
        checksum: 0,
    }]));
    assert_eq!(index.handle.documents().len(), 2);
    assert_eq!(index.handle.manifest().segments.len(), 2);
    let reopened = index.reopen();
    assert_eq!(reopened.handle.documents().len(), 2);
    assert!(reopened.handle.get_document("1").is_none());
    assert_eq!(reopened.handle.last_sequence_number(), 4);
}

#[test]
fn a_page_is_part_of_the_whole_answer() {
    let mut index = Index::new();
    for i in 0..6 {
        index.put(&format!("doc-{i}"), &format!(r#"{{"n": {}}}"#, (i * 5) % 6));
    }
    index.refresh();
    let whole = index.ask(
        r#"{"sort": {"field": "n", "order": "desc"},
            "aggs": {"t": {"terms": {"field": "n"}}, "s": {"stats": {"field": "n"}}}}"#,
    );
    let page = index.ask(
        r#"{"sort": {"field": "n", "order": "desc"}, "from": 2, "size": 3,
            "aggs": {"t": {"terms": {"field": "n"}}, "s": {"stats": {"field": "n"}}}}"#,
    );
    assert_eq!(whole.hits.hits.len(), 6);
    assert_eq!(ids(&page), ids(&whole)[2..5]);
    assert_eq!(page.hits.total, whole.hits.total);
    assert_eq!(page.aggregations.len(), 2);
    for name in ["t", "s"] {
        assert_eq!(
            format!("{:?}", page.aggregations.get(name)),
            format!("{:?}", whole.aggregations.get(name))
        );
    }
    let past_the_end = index.ask(r#"{"from": 6, "size": 3}"#);
    assert!(past_the_end.hits.hits.is_empty());
    assert_eq!(past_the_end.hits.total, 6);
}

#[test]
fn admitting_a_document_writes_nothing() {
    let mut index = Index::new();
    index.put("1", r#"{"a": 1}"#);
    let document = doc("2", r#"{"b": true}"#);
    assert!(index.handle.admit_document(&document, NOW).unwrap());
    assert!(index.handle.note_expiry(&document).is_ok());
    assert_eq!(index.handle.last_sequence_number(), 1);
    let reopened = index.reopen();
    assert_eq!(reopened.handle.documents().len(), 1);
    assert_eq!(reopened.handle.last_sequence_number(), 1);
}

#[test]
fn a_segment_that_could_not_be_read_is_left_out() {
    let metadata = create_index(
        "logs",
        CreateIndexRequest {
            settings: IndexSettings::default(),
            mappings: None,
        },
        false,
    )
    .unwrap();
    let meta = |number: u64, sequence: u64| SegmentMeta {
        segment_number: number,
        last_sequence_number: sequence,
        document_count: 1,
        checksum: 0,
    };
    let manifest = IndexManifest {
        version: 2,
        last_updated: NOW,
        segments: vec![meta(1, 4), meta(2, 9)],
    };
    let snapshots = vec![
        Some(SegmentSnapshot {
            last_sequence_number: 4,
            documents: vec![doc("1", r#"{"n": 1}"#)],
        }),
        None,
    ];
    let handle = IndexHandle::open(metadata, manifest, &snapshots, None);
    assert_eq!(handle.last_sequence_number(), 4);
    assert_eq!(handle.documents().len(), 1);
    assert!(matches!(
        handle.get_document("1").unwrap().source.get("n"),
        Some(Json::Number(JsonNumber::PosInt(1)))
    ));
}

#[test]
fn query_strings_combine_what_they_find() {
    let mut index = Index::new();
    index.put("1", r#"{"level": "error", "service": "billing", "latency": 5}"#);
    index.put("2", r#"{"level": "error", "service": "search", "latency": 50}"#);
    index.put("3", r#"{"level": "info", "service": "search", "latency": 500}"#);
    index.refresh();
    let found = |text: &str| {
        let request = parse_url_request(Some(text)).expect("query string");
        let response = index.search(&request);
        response.hits.hits.into_iter().map(|hit| hit.id).collect::<Vec<_>>()
    };
    assert_eq!(found("level:error AND service:search"), ["2"]);
    assert_eq!(found("level:error service:search"), ["2"]);
    assert_eq!(found("service:billing OR level:info"), ["1", "3"]);
    assert_eq!(found("level:error NOT service:search"), ["1"]);
    assert_eq!(found("latency:10..100"), ["2"]);
    assert_eq!(found("latency:>=50"), ["2", "3"]);
    assert_eq!(found("service:bill*"), ["1"]);
    assert_eq!(found("(service:billing OR service:search) AND level:info"), ["3"]);
    assert_eq!(
        found("level:error AND service:search OR level:info"),
        ["2", "3"]
    );
    assert_eq!(found("level:info OR level:error AND service:billing"), ["1", "3"]);
    assert_eq!(
        found("level:error NOT service:search NOT service:billing"),
        Vec::<String>::new()
    );
    assert_eq!(found("level:error NOT service:billing OR level:info"), ["2", "3"]);
    assert_eq!(found("(service:search NOT level:info) latency:>1"), ["2"]);
}

#[test]
fn pages_take_up_where_the_last_one_ends() {
    let mut index = Index::new();
    for i in 0..5 {
        index.put(&format!("doc-{i}"), &format!(r#"{{"n": {i}}}"#));
    }
    index.refresh();
    let mut seen = Vec::new();
    for from in [0, 2, 4, 6] {
        let page = index.search(&SearchRequest {
            from: Some(from),
            size: Some(2),
            ..Default::default()
        });
        assert_eq!(page.hits.total, 5);
        seen.extend(page.hits.hits.into_iter().map(|hit| hit.id));
    }
    assert_eq!(seen, ["doc-0", "doc-1", "doc-2", "doc-3", "doc-4"]);
}

#[test]
fn a_reopened_index_reads_as_before() {
    let mut index = Index::new();
    index.put("1", r#"{"message": "flushed"}"#);
    index.put("2", r#"{"message": "replaced later"}"#);
    index.refresh();
    index.flush();
    index.put("2", r#"{"message": "replaced"}"#);
    index.put("3", r#"{"message": "new"}"#);
    index.delete("1");
    let reopened = index.reopen();
    assert_eq!(reopened.handle.last_sequence_number(), 5);
    assert_eq!(reopened.handle.documents().len(), 2);
    assert_eq!(reopened.message("2"), "replaced");
    assert_eq!(reopened.message("3"), "new");
}
