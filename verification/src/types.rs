//! Requests, responses, settings and errors of the service.
use vstd::prelude::*;

use crate::json::Json;
use crate::json::json_views;
use crate::json::JsonView;
use crate::map::StringMap;
use crate::time::Timestamp;

verus! {

/// What can go wrong.
#[derive(Debug)]
pub enum CloudSearchError {
    IndexAlreadyExists(String),
    IndexNotFound(String),
    DocumentNotFound(String),
    SnapshotNotFound(String),
    InvalidIndexName(String),
    InvalidNamespace(String),
    InvalidSearchRequest(String),
    MappingConflict(String),
    UnknownFieldRejected(String),
    UnsupportedArrayField(String),
    MappingLimitExceeded(String),
    ResourceLimitExceeded(String),
    InvalidWalRecord(String),
    WalChecksumMismatch,
    Io(String),
    Serde(String),
}

/// What a [`CloudSearchError`] stands for.
pub ghost enum ErrorView {
    IndexAlreadyExists(Seq<char>),
    IndexNotFound(Seq<char>),
    DocumentNotFound(Seq<char>),
    SnapshotNotFound(Seq<char>),
    InvalidIndexName(Seq<char>),
    InvalidNamespace(Seq<char>),
    InvalidSearchRequest(Seq<char>),
    MappingConflict(Seq<char>),
    UnknownFieldRejected(Seq<char>),
    UnsupportedArrayField(Seq<char>),
    MappingLimitExceeded(Seq<char>),
    ResourceLimitExceeded(Seq<char>),
    InvalidWalRecord(Seq<char>),
    WalChecksumMismatch,
    Io(Seq<char>),
    Serde(Seq<char>),
}

impl View for CloudSearchError {
    type V = ErrorView;

    open spec fn view(&self) -> ErrorView {
        match *self {
            CloudSearchError::IndexAlreadyExists(s) => ErrorView::IndexAlreadyExists(s@),
            CloudSearchError::IndexNotFound(s) => ErrorView::IndexNotFound(s@),
            CloudSearchError::DocumentNotFound(s) => ErrorView::DocumentNotFound(s@),
            CloudSearchError::SnapshotNotFound(s) => ErrorView::SnapshotNotFound(s@),
            CloudSearchError::InvalidIndexName(s) => ErrorView::InvalidIndexName(s@),
            CloudSearchError::InvalidNamespace(s) => ErrorView::InvalidNamespace(s@),
            CloudSearchError::InvalidSearchRequest(s) => ErrorView::InvalidSearchRequest(s@),
            CloudSearchError::MappingConflict(s) => ErrorView::MappingConflict(s@),
            CloudSearchError::UnknownFieldRejected(s) => ErrorView::UnknownFieldRejected(s@),
            CloudSearchError::UnsupportedArrayField(s) => ErrorView::UnsupportedArrayField(s@),
            CloudSearchError::MappingLimitExceeded(s) => ErrorView::MappingLimitExceeded(s@),
            CloudSearchError::ResourceLimitExceeded(s) => ErrorView::ResourceLimitExceeded(s@),
            CloudSearchError::InvalidWalRecord(s) => ErrorView::InvalidWalRecord(s@),
            CloudSearchError::WalChecksumMismatch => ErrorView::WalChecksumMismatch,
            CloudSearchError::Io(s) => ErrorView::Io(s@),
            CloudSearchError::Serde(s) => ErrorView::Serde(s@),
        }
    }
}

/// Whether documents may bring fields that have no mapping yet.
#[derive(Clone, Copy, Debug, PartialEq, Eq, Structural)]
pub enum MappingMode {
    Strict,
    ControlledDynamic,
}

impl Default for MappingMode {
    fn default() -> (r: MappingMode)
        ensures
            r == MappingMode::ControlledDynamic,
    {
        MappingMode::ControlledDynamic
    }
}

/// Settings of an index.
#[derive(Debug)]
pub struct IndexSettings {
    pub mapping_mode: MappingMode,
    pub primary_time_field: Option<String>,
    pub namespace: Option<String>,
    pub retention_secs: Option<u64>,
    pub merge_threshold_docs: Option<usize>,
}

impl Default for IndexSettings {
    fn default() -> (r: IndexSettings)
        ensures
            r.mapping_mode == MappingMode::ControlledDynamic,
            r.primary_time_field is None,
            r.namespace is None,
            r.retention_secs is None,
            r.merge_threshold_docs is None,
    {
        IndexSettings {
            mapping_mode: MappingMode::ControlledDynamic,
            primary_time_field: None,
            namespace: None,
            retention_secs: None,
            merge_threshold_docs: None,
        }
    }
}

/// The type of a field's values.
#[derive(Clone, Copy, Debug, PartialEq, Eq, Structural)]
pub enum FieldType {
    Keyword,
    Boolean,
    Integer,
    Long,
    Double,
    Timestamp,
    Object,
}

/// How a field is stored.
#[derive(Clone, Copy, Debug, PartialEq, Eq, Structural)]
pub struct FieldMapping {
    pub field_type: FieldType,
}

/// Name, settings and mappings of an index.
#[derive(Debug)]
pub struct IndexMetadata {
    pub id: u128,
    pub name: String,
    pub created_at: Timestamp,
    pub updated_at: Timestamp,
    pub settings: IndexSettings,
    pub mappings: StringMap<FieldMapping>,
}

/// Settings and mappings of an index to be made.
#[derive(Debug)]
pub struct CreateIndexRequest {
    pub settings: IndexSettings,
    pub mappings: Option<StringMap<FieldMapping>>,
}

/// New settings of an index.
#[derive(Clone, Copy, Debug, PartialEq, Eq, Structural)]
pub struct UpdateSettingsRequest {
    pub retention_secs: Option<u64>,
}

/// A document with its id.
#[derive(Debug)]
pub struct IndexDocument {
    pub id: String,
    pub source: Json,
}

/// What an [`IndexDocument`] stands for.
pub ghost struct DocumentView {
    pub id: Seq<char>,
    pub source: JsonView,
}

impl View for IndexDocument {
    type V = DocumentView;

    open spec fn view(&self) -> DocumentView {
        DocumentView { id: self.id@, source: self.source@ }
    }
}

impl IndexDocument {
    /// A copy of the document.
    pub fn copy(&self) -> (r: IndexDocument)
        ensures
            r@ == self@,
    {
        IndexDocument { id: self.id.clone(), source: self.source.copy() }
    }
}

/// A document to be indexed.
#[derive(Debug)]
pub struct IndexDocumentRequest {
    pub id: String,
    pub source: Json,
}

/// The outcome of indexing a document.
#[derive(Debug)]
pub struct IndexDocumentResponse {
    pub id: String,
    pub result: &'static str,
    pub sequence_number: u64,
}

/// A document that was asked for.
#[derive(Debug)]
pub struct GetDocumentResponse {
    pub id: String,
    pub found: bool,
    pub source: Json,
}

/// Operations to be applied in order.
#[derive(Debug)]
pub struct BulkRequest {
    pub operations: Vec<BulkOperation>,
}

/// One operation of a bulk request.
#[derive(Debug)]
pub enum BulkOperation {
    Index(BulkIndexOperation),
    Delete(BulkDeleteOperation),
}

/// Index a document.
#[derive(Debug)]
pub struct BulkIndexOperation {
    pub id: String,
    pub source: Json,
}

/// Delete a document.
#[derive(Debug)]
pub struct BulkDeleteOperation {
    pub id: String,
}

/// The outcomes of a bulk request, in the order of its operations.
#[derive(Debug)]
pub struct BulkResponse {
    pub errors: bool,
    pub items: Vec<BulkItem>,
}

/// The outcome of one operation of a bulk request.
#[derive(Debug)]
pub enum BulkItem {
    Index(BulkItemResult),
    Delete(BulkItemResult),
}

/// What an operation of a bulk request came to.
#[derive(Debug)]
pub struct BulkItemResult {
    pub id: String,
    pub result: String,
    pub sequence_number: u64,
}

/// The outcome of a refresh.
#[derive(Clone, Copy, Debug)]
pub struct RefreshResponse {
    pub result: &'static str,
    pub refreshed_documents: usize,
}

/// The outcome of a flush.
#[derive(Clone, Copy, Debug)]
pub struct FlushResponse {
    pub result: &'static str,
    pub flushed_documents: usize,
    pub sequence_number: u64,
}

/// The outcome of a merge.
#[derive(Clone, Copy, Debug)]
pub struct MergeResponse {
    pub result: &'static str,
    pub merged_documents: usize,
}

/// A named snapshot that was made.
#[derive(Debug)]
pub struct CreateSnapshotResponse {
    pub name: String,
    pub created_at: Timestamp,
    pub last_sequence_number: u64,
    pub document_count: usize,
    pub checksum: u32,
}

/// What is known of a named snapshot.
#[derive(Debug)]
pub struct SnapshotMetadata {
    pub name: String,
    pub created_at: Timestamp,
    pub last_sequence_number: u64,
    pub document_count: usize,
    pub checksum: u32,
}

/// The snapshots of an index.
#[derive(Debug)]
pub struct ListSnapshotsResponse {
    pub snapshots: Vec<SnapshotMetadata>,
}

/// The outcome of restoring a snapshot.
#[derive(Debug)]
pub struct RestoreResponse {
    pub result: String,
    pub restored_documents: usize,
    pub sequence_number: u64,
}

/// A search.
#[derive(Debug)]
pub struct SearchRequest {
    pub query: Option<SearchQuery>,
    pub from: Option<usize>,
    pub size: Option<usize>,
    pub sort: Option<SortSpec>,
    pub search_after: Option<Vec<Json>>,
    pub aggs: Option<StringMap<AggregationRequest>>,
}

impl Default for SearchRequest {
    fn default() -> (r: SearchRequest)
        ensures
            r.query is None,
            r.from is None,
            r.size is None,
            r.sort is None,
            r.search_after is None,
            r.aggs is None,
    {
        SearchRequest {
            query: None,
            from: None,
            size: None,
            sort: None,
            search_after: None,
            aggs: None,
        }
    }
}

/// Which documents are looked for.
#[derive(Debug)]
pub enum SearchQuery {
    MatchAll,
    Term(TermQuery),
    Terms(TermsQuery),
    Range(RangeQuery),
    Bool(BoolQuery),
    Prefix(PrefixQuery),
    Wildcard(WildcardQuery),
    Match(MatchQuery),
    Phrase(PhraseQuery),
}

/// How far a term may be from the value that is looked for.
#[derive(Clone, Copy, Debug, PartialEq, Eq, Structural)]
pub enum Fuzziness {
    Auto,
    Exact(usize),
}

/// The field has the value, or one near to it.
#[derive(Debug)]
pub struct TermQuery {
    pub field: String,
    pub value: Json,
    pub fuzziness: Option<Fuzziness>,
}

/// The field has one of the values.
#[derive(Debug)]
pub struct TermsQuery {
    pub field: String,
    pub values: Vec<Json>,
}

/// The field's value keeps within the bounds.
#[derive(Debug)]
pub struct RangeQuery {
    pub field: String,
    pub gte: Option<Json>,
    pub gt: Option<Json>,
    pub lte: Option<Json>,
    pub lt: Option<Json>,
}

/// A combination of queries.
#[derive(Debug)]
pub struct BoolQuery {
    pub must: Vec<SearchQuery>,
    pub should: Vec<SearchQuery>,
    pub filter: Vec<SearchQuery>,
    pub must_not: Vec<SearchQuery>,
    pub minimum_should_match: Option<u32>,
}

/// The field's text starts with the value.
#[derive(Debug)]
pub struct PrefixQuery {
    pub field: String,
    pub value: String,
}

/// The field's text has the form of the value, in which `*` stands for any text and `?` for
/// any character.
#[derive(Debug)]
pub struct WildcardQuery {
    pub field: String,
    pub value: String,
}

/// The field's text holds words of the value.
#[derive(Debug)]
pub struct MatchQuery {
    pub field: String,
    pub value: String,
}

/// The field's text holds the words of the value in their order.
#[derive(Debug)]
pub struct PhraseQuery {
    pub field: String,
    pub value: String,
}

/// What a [`SearchQuery`] stands for.
pub ghost enum QueryView {
    MatchAll,
    Term { field: Seq<char>, value: JsonView, fuzziness: Option<Fuzziness> },
    Terms { field: Seq<char>, values: Seq<JsonView> },
    Range(RangeView),
    Bool {
        must: Seq<QueryView>,
        should: Seq<QueryView>,
        filter: Seq<QueryView>,
        must_not: Seq<QueryView>,
        minimum_should_match: Option<u32>,
    },
    Prefix { field: Seq<char>, text: Seq<char> },
    Wildcard { field: Seq<char>, text: Seq<char> },
    Match { field: Seq<char>, text: Seq<char> },
    Phrase { field: Seq<char>, text: Seq<char> },
}

/// What a [`RangeQuery`] stands for.
pub ghost struct RangeView {
    pub field: Seq<char>,
    pub gte: Option<JsonView>,
    pub gt: Option<JsonView>,
    pub lte: Option<JsonView>,
    pub lt: Option<JsonView>,
}

/// The view of an optional value.
pub open spec fn opt_json_view(value: Option<Json>) -> Option<JsonView> {
    match value {
        Some(v) => Some(v@),
        None => None,
    }
}

impl View for RangeQuery {
    type V = RangeView;

    open spec fn view(&self) -> RangeView {
        RangeView {
            field: self.field@,
            gte: opt_json_view(self.gte),
            gt: opt_json_view(self.gt),
            lte: opt_json_view(self.lte),
            lt: opt_json_view(self.lt),
        }
    }
}

/// What a [`SearchQuery`] stands for, clause by clause.
pub open spec fn query_view(query: SearchQuery) -> QueryView
    decreases query,
{
    match query {
        SearchQuery::MatchAll => QueryView::MatchAll,
        SearchQuery::Term(q) => QueryView::Term {
            field: q.field@,
            value: q.value@,
            fuzziness: q.fuzziness,
        },
        SearchQuery::Terms(q) => QueryView::Terms { field: q.field@, values: json_views(q.values@) },
        SearchQuery::Range(q) => QueryView::Range(q@),
        SearchQuery::Bool(q) => QueryView::Bool {
            must: Seq::new(
                q.must@.len(),
                |i: int|
                    if 0 <= i < q.must@.len() {
                        query_view(q.must@[i])
                    } else {
                        QueryView::MatchAll
                    },
            ),
            should: Seq::new(
                q.should@.len(),
                |i: int|
                    if 0 <= i < q.should@.len() {
                        query_view(q.should@[i])
                    } else {
                        QueryView::MatchAll
                    },
            ),
            filter: Seq::new(
                q.filter@.len(),
                |i: int|
                    if 0 <= i < q.filter@.len() {
                        query_view(q.filter@[i])
                    } else {
                        QueryView::MatchAll
                    },
            ),
            must_not: Seq::new(
                q.must_not@.len(),
                |i: int|
                    if 0 <= i < q.must_not@.len() {
                        query_view(q.must_not@[i])
                    } else {
                        QueryView::MatchAll
                    },
            ),
            minimum_should_match: q.minimum_should_match,
        },
        SearchQuery::Prefix(q) => QueryView::Prefix { field: q.field@, text: q.value@ },
        SearchQuery::Wildcard(q) => QueryView::Wildcard { field: q.field@, text: q.value@ },
        SearchQuery::Match(q) => QueryView::Match { field: q.field@, text: q.value@ },
        SearchQuery::Phrase(q) => QueryView::Phrase { field: q.field@, text: q.value@ },
    }
}

impl View for SearchQuery {
    type V = QueryView;

    open spec fn view(&self) -> QueryView {
        query_view(*self)
    }
}

/// The views of a list of queries.
pub open spec fn query_views(queries: Seq<SearchQuery>) -> Seq<QueryView> {
    Seq::new(queries.len(), |i: int| queries[i]@)
}

/// The view of a [`BoolQuery`] as a query.
pub open spec fn bool_view(q: BoolQuery) -> QueryView {
    QueryView::Bool {
        must: query_views(q.must@),
        should: query_views(q.should@),
        filter: query_views(q.filter@),
        must_not: query_views(q.must_not@),
        minimum_should_match: q.minimum_should_match,
    }
}

/// The view of a combination lists the views of its parts.
pub broadcast proof fn lemma_bool_view(q: BoolQuery)
    ensures
        #[trigger] query_view(SearchQuery::Bool(q)) == bool_view(q),
{
    let v = query_view(SearchQuery::Bool(q));
    assert(v->must =~= query_views(q.must@));
    assert(v->should =~= query_views(q.should@));
    assert(v->filter =~= query_views(q.filter@));
    assert(v->must_not =~= query_views(q.must_not@));
}

/// By which field hits are sorted.
#[derive(Debug)]
pub struct SortSpec {
    pub field: String,
    pub order: SortOrder,
}

/// Which end comes first.
#[derive(Clone, Copy, Debug, PartialEq, Eq, Structural)]
pub enum SortOrder {
    Asc,
    Desc,
}

impl Default for SortOrder {
    fn default() -> (r: SortOrder)
        ensures
            r == SortOrder::Asc,
    {
        SortOrder::Asc
    }
}

/// An aggregation over the matching documents.
#[derive(Debug)]
pub enum AggregationRequest {
    Terms(TermsAggregationRequest),
    Stats(StatsAggregationRequest),
    DateHistogram(DateHistogramAggregationRequest),
}

/// How often each value of the field occurs.
#[derive(Debug)]
pub struct TermsAggregationRequest {
    pub field: String,
}

/// Count, bounds and mean of the field's numbers.
#[derive(Debug)]
pub struct StatsAggregationRequest {
    pub field: String,
}

/// How many of the field's timestamps fall into each interval.
#[derive(Debug)]
pub struct DateHistogramAggregationRequest {
    pub field: String,
    pub interval: DateHistogramInterval,
}

/// The width of a bucket of timestamps.
#[derive(Clone, Copy, Debug, PartialEq, Eq, Structural)]
pub enum DateHistogramInterval {
    Minute,
    Hour,
    Day,
}

/// Whether the service is up.
#[derive(Clone, Copy, Debug)]
pub struct HealthResponse {
    pub status: &'static str,
}

/// What a failed request is answered.
#[derive(Debug)]
pub struct ErrorResponse {
    pub error: String,
}

} // verus!
