//! The life of an index: writing, refreshing, flushing, merging, snapshots and recovery.
use vstd::prelude::*;

use crate::aggregations::Columns;
use crate::doc_values_reader::DocValuesReader;
use crate::documents::apply_pending;
use crate::documents::document_ids;
use crate::documents::document_views;
use crate::documents::documents_view;
use crate::documents::overlay;
use crate::documents::pending_under_own_ids;
use crate::documents::pending_view;
use crate::documents::put_documents;
use crate::documents::under_own_ids;
use crate::documents::with_documents;
use crate::documents::Documents;
use crate::documents::Pending;
use crate::documents::PendingOperation;
use crate::documents::PendingView;
use crate::json::JsonView;
use crate::map::keys_ascend;
use crate::map::StringMap;
use crate::mapping::admitted_by;
use crate::mapping::validate_and_update_mappings;
use crate::mapping::with_mappings;
use crate::positions::document_positions;
use crate::positions::extract_positions;
use crate::positions::positions_view;
use crate::positions::PositionsMap;
use crate::time::instant_of;
use crate::time::has_date;
use crate::time::now;
use crate::time::parse_rfc3339;
use crate::time::shift;
use crate::time::shifted;
use crate::time::timestamp_from_secs;
use crate::time::Timestamp;
use crate::types::CloudSearchError;
use crate::types::DocumentView;
use crate::types::ErrorView;
use crate::types::FieldMapping;
use crate::types::IndexDocument;
use crate::types::IndexMetadata;
use crate::types::IndexSettings;

pub mod durability;
pub mod properties;
pub mod searching;
pub mod segments;
pub mod snapshots;

verus! {

/// How many documents a segment has to have to be merged by itself, if the settings do not say.
pub const MERGE_TRIGGER_DOCUMENT_COUNT: usize = 8;

/// What is known of a segment on disk.
#[derive(Clone, Copy, Debug, PartialEq, Eq, Structural)]
pub struct SegmentMeta {
    pub segment_number: u64,
    pub last_sequence_number: u64,
    pub document_count: u64,
    pub checksum: u32,
}

/// The segments of an index.
#[derive(Debug)]
pub struct IndexManifest {
    pub version: u64,
    pub last_updated: Timestamp,
    pub segments: Vec<SegmentMeta>,
}

/// The documents of a segment.
#[derive(Debug)]
pub struct SegmentSnapshot {
    pub last_sequence_number: u64,
    pub documents: Vec<IndexDocument>,
}

/// A record of the write-ahead log.
#[derive(Debug)]
pub enum WalRecord {
    IndexDocument { document: IndexDocument },
    DeleteDocument { document_id: String },
    MappingUpdate,
}

/// A record of the write-ahead log and its number.
#[derive(Debug)]
pub struct WalEntry {
    pub sequence_number: u64,
    pub record: WalRecord,
}

/// What a [`WalRecord`] stands for.
pub ghost enum RecordView {
    Index(DocumentView),
    Delete(Seq<char>),
    Other,
}

/// What a [`WalEntry`] stands for.
pub ghost struct EntryView {
    pub sequence_number: u64,
    pub record: RecordView,
}

impl View for WalEntry {
    type V = EntryView;

    open spec fn view(&self) -> EntryView {
        EntryView {
            sequence_number: self.sequence_number,
            record: match self.record {
                WalRecord::IndexDocument { document } => RecordView::Index(document@),
                WalRecord::DeleteDocument { document_id } => RecordView::Delete(document_id@),
                WalRecord::MappingUpdate => RecordView::Other,
            },
        }
    }
}

/// The views of a list of entries.
pub open spec fn entry_views(entries: Seq<WalEntry>) -> Seq<EntryView> {
    Seq::new(entries.len(), |i: int| entries[i]@)
}

/// A time at which a document expires that no date can name.
#[derive(Debug)]
pub struct ExpiryOutOfRange;

/// An index that is open.
#[derive(Debug)]
pub struct IndexHandle {
    metadata: IndexMetadata,
    manifest: IndexManifest,
    searchable_documents: StringMap<IndexDocument>,
    pending_operations: StringMap<PendingOperation>,
    last_sequence_number: u64,
    document_timestamps: StringMap<Timestamp>,
    doc_values_reader: Option<DocValuesReader>,
    per_doc_inverted_index: StringMap<StringMap<Vec<u32>>>,
    stored_documents: StringMap<()>,
}

/// What an [`IndexHandle`] stands for.
pub ghost struct IndexView {
    /// Name, settings and mappings.
    pub metadata: IndexMetadata,
    /// The segments on disk.
    pub manifest: IndexManifest,
    /// The documents that a search sees.
    pub documents: Documents,
    /// The operations that the next refresh applies.
    pub pending: Pending,
    /// The number of the last record of the write-ahead log.
    pub sequence_number: u64,
    /// When documents expire.
    pub expiries: Map<Seq<char>, Timestamp>,
    /// The columns that were read from disk.
    pub columns: Columns,
    /// The positions of the words of the documents written since the last flush.
    pub positions: Map<Seq<char>, PositionsMap>,
    /// The ids of the documents that the segments on disk hold.
    pub stored: Set<Seq<char>>,
}

/// The positions of the words of several documents.
pub open spec fn all_positions_view(map: Map<Seq<char>, StringMap<Vec<u32>>>) -> Map<
    Seq<char>,
    PositionsMap,
> {
    map.map_values(|m: StringMap<Vec<u32>>| positions_view(m@))
}

impl View for IndexHandle {
    type V = IndexView;

    closed spec fn view(&self) -> IndexView {
        IndexView {
            metadata: self.metadata,
            manifest: self.manifest,
            documents: documents_view(self.searchable_documents@),
            pending: pending_view(self.pending_operations@),
            sequence_number: self.last_sequence_number,
            expiries: self.document_timestamps@,
            columns: match self.doc_values_reader {
                Some(reader) => Some(reader@),
                None => None,
            },
            positions: all_positions_view(self.per_doc_inverted_index@),
            stored: self.stored_documents@.dom(),
        }
    }
}

impl IndexView {
    /// Whether each document and operation stands under its id.
    pub open spec fn wf(self) -> bool {
        under_own_ids(self.documents) && pending_under_own_ids(self.pending)
    }

    /// The documents as all writes so far have left them.
    pub open spec fn current(self) -> Documents {
        overlay(self.documents, self.pending)
    }

    /// The segments that the next manifest takes over: all of them, or none where they hold a
    /// document that is gone since. The segment that the next manifest adds holds every document.
    pub open spec fn kept_segments(self) -> Seq<SegmentMeta> {
        if self.stored.subset_of(self.current().dom()) {
            self.manifest.segments@
        } else {
            Seq::empty()
        }
    }

    /// Whether documents of this index expire.
    pub open spec fn has_retention(self) -> bool {
        self.metadata.settings.retention_secs is Some
            && self.metadata.settings.primary_time_field is Some
    }

    /// Whether a document has expired.
    pub open spec fn expired(self, id: Seq<char>, at: Timestamp) -> bool {
        self.has_retention() && self.expiries.contains_key(id) && self.expiries[id].le(at)
    }
}

/// The time of a document: that of the field for it, as an RFC 3339 text or as seconds since
/// the Unix epoch.
pub open spec fn document_time(settings: IndexSettings, source: JsonView) -> Option<Timestamp> {
    match settings.primary_time_field {
        None => None,
        Some(field) => match source.member(field@) {
            None => None,
            Some(JsonView::Text(text)) => instant_of(text),
            Some(value) => match value.as_i64() {
                Some(secs) => if has_date(secs as int) {
                    Some(Timestamp { secs, nanos: 0 })
                } else {
                    None
                },
                None => None,
            },
        },
    }
}

/// The time of a document.
pub fn extract_document_timestamp(settings: &IndexSettings, document: &IndexDocument) -> (r: Option<
    Timestamp,
>)
    ensures
        r == document_time(*settings, document.source@),
        r matches Some(t) ==> t.valid(),
{
    let Some(field) = &settings.primary_time_field else {
        return None;
    };
    let Some(value) = document.source.get(field.as_str()) else {
        return None;
    };
    if let Some(text) = value.as_str() {
        return parse_rfc3339(text);
    }
    match value.as_i64() {
        Some(secs) => timestamp_from_secs(secs),
        None => None,
    }
}

/// When a document of that time expires: after as many seconds as documents are kept, read as a
/// signed number.
pub open spec fn expiry(time: Timestamp, retention_secs: u64) -> Option<Timestamp> {
    shifted(time, retention_secs as i64)
}

/// When a document of that time expires.
fn expiry_of(time: Timestamp, retention_secs: u64) -> (r: Option<Timestamp>)
    requires
        time.valid(),
    ensures
        r == expiry(time, retention_secs),
{
    shift(time, retention_secs as i64)
}

/// The CRC-32C checksum of bytes.
pub uninterp spec fn crc32c_of(bytes: Seq<u8>) -> u32;

/// `crc32c::crc32c` computes the CRC-32C checksum of bytes. The claim is that it depends on the
/// bytes alone.
#[verifier::external_body]
fn compute_crc32c(bytes: &[u8]) -> (r: u32)
    ensures
        r == crc32c_of(bytes@),
{
    crc32c::crc32c(bytes)
}

/// The checksum of a segment or snapshot, of which those are the bytes.
pub fn checksum_of(bytes: &[u8]) -> (r: u32)
    ensures
        r == crc32c_of(bytes@),
{
    compute_crc32c(bytes)
}

/// Checks the bytes of a snapshot against the checksum that was kept of it.
pub fn verify_checksum(bytes: &[u8], expected: u32) -> (r: Result<(), CloudSearchError>)
    ensures
        match r {
            Ok(_) => crc32c_of(bytes@) == expected,
            Err(e) => crc32c_of(bytes@) != expected && e@ == ErrorView::WalChecksumMismatch,
        },
{
    if compute_crc32c(bytes) == expected {
        Ok(())
    } else {
        Err(CloudSearchError::WalChecksumMismatch)
    }
}

/// `uuid::Uuid::new_v4` makes a random identifier. All that is claimed is what marks it as one:
/// the version is four and the variant is that of RFC 4122, so that it is not zero.
#[verifier::external_body]
pub(crate) fn random_id() -> (r: u128)
    ensures
        (r >> 76) & 0xf == 4,
        (r >> 62) & 0x3 == 2,
        r != 0,
{
    uuid::Uuid::new_v4().as_u128()
}

impl IndexMetadata {
    /// The metadata of a new index, made at that time with that identifier.
    pub fn at(id: u128, time: Timestamp, name: &str, settings: IndexSettings) -> (r: IndexMetadata)
        ensures
            r.id == id,
            r.name@ == name@,
            r.created_at == time,
            r.updated_at == time,
            r.settings == settings,
            r.mappings@ == Map::<Seq<char>, FieldMapping>::empty(),
    {
        IndexMetadata {
            id,
            name: name.to_owned(),
            created_at: time,
            updated_at: time,
            settings,
            mappings: StringMap::new(),
        }
    }

    /// The metadata of a new index, made now with a random identifier.
    pub fn new(name: &str, settings: IndexSettings) -> (r: IndexMetadata)
        ensures
            r.id != 0,
            r.name@ == name@,
            r.created_at == r.updated_at,
            r.created_at.valid(),
            r.settings == settings,
            r.mappings@ == Map::<Seq<char>, FieldMapping>::empty(),
    {
        IndexMetadata::at(random_id(), now(), name, settings)
    }
}

/// The documents of the first `k` segments that could be read, the later in place of the
/// earlier.
pub open spec fn loaded_documents(snapshots: Seq<Option<SegmentSnapshot>>, k: int) -> Documents
    decreases k,
{
    if k <= 0 || k > snapshots.len() {
        Map::empty()
    } else {
        match snapshots[k - 1] {
            Some(snapshot) => with_documents(
                loaded_documents(snapshots, k - 1),
                document_views(snapshot.documents@),
            ),
            None => loaded_documents(snapshots, k - 1),
        }
    }
}

/// The greatest number up to which one of the first `k` segments that could be read holds all
/// writes.
pub open spec fn loaded_sequence(
    segments: Seq<SegmentMeta>,
    snapshots: Seq<Option<SegmentSnapshot>>,
    k: int,
) -> u64
    decreases k,
{
    if k <= 0 || k > snapshots.len() {
        0
    } else {
        let before = loaded_sequence(segments, snapshots, k - 1);
        if snapshots[k - 1] is Some && segments[k - 1].last_sequence_number > before {
            segments[k - 1].last_sequence_number
        } else {
            before
        }
    }
}

/// Documents, expiries and sequence number of an index that is being recovered.
pub ghost struct Recovery {
    pub documents: Documents,
    pub expiries: Map<Seq<char>, Timestamp>,
    pub sequence_number: u64,
}

/// What recovering the first `k` records of the write-ahead log comes to: nothing where a
/// document expires at a time that no date can name.
pub open spec fn recovered(
    start: Recovery,
    entries: Seq<EntryView>,
    settings: IndexSettings,
    k: int,
) -> Option<Recovery>
    decreases k,
{
    if k <= 0 || k > entries.len() {
        Some(start)
    } else {
        match recovered(start, entries, settings, k - 1) {
            None => None,
            Some(before) => recovered_one(before, entries[k - 1], settings),
        }
    }
}

/// What recovering one record comes to.
pub open spec fn recovered_one(
    before: Recovery,
    entry: EntryView,
    settings: IndexSettings,
) -> Option<Recovery> {
    match entry.record {
        RecordView::Index(document) => {
            let written = Recovery {
                documents: before.documents.insert(document.id, document),
                sequence_number: entry.sequence_number,
                ..before
            };
            match (document_time(settings, document.source), settings.retention_secs) {
                (Some(time), Some(secs)) => match expiry(time, secs) {
                    Some(at) => Some(
                        Recovery { expiries: before.expiries.insert(document.id, at), ..written },
                    ),
                    None => None,
                },
                _ => Some(written),
            }
        },
        RecordView::Delete(id) => Some(
            Recovery {
                documents: before.documents.remove(id),
                expiries: before.expiries.remove(id),
                sequence_number: entry.sequence_number,
            },
        ),
        RecordView::Other => Some(
            Recovery { sequence_number: entry.sequence_number, ..before },
        ),
    }
}

/// The part of an index that recovery changes.
pub open spec fn recovery_of(view: IndexView) -> Recovery {
    Recovery {
        documents: view.documents,
        expiries: view.expiries,
        sequence_number: view.sequence_number,
    }
}

proof fn lemma_with_documents_ids(documents: Documents, list: Seq<DocumentView>)
    requires
        under_own_ids(documents),
    ensures
        under_own_ids(with_documents(documents, list)),
    decreases list.len(),
{
    if list.len() > 0 {
        lemma_with_documents_ids(documents, list.drop_last());
    }
}

/// The documents of those segments that could be read, the later in place of the earlier.
pub fn load_documents(snapshots: &Vec<Option<SegmentSnapshot>>) -> (r: StringMap<IndexDocument>)
    ensures
        documents_view(r@) == loaded_documents(snapshots@, snapshots@.len() as int),
        under_own_ids(documents_view(r@)),
{
    let mut documents: StringMap<IndexDocument> = StringMap::new();
    let mut i: usize = 0;
    proof {
        assert(documents_view(documents@) =~= Map::empty());
    }
    while i < snapshots.len()
        invariant
            i <= snapshots@.len(),
            documents_view(documents@) == loaded_documents(snapshots@, i as int),
            under_own_ids(documents_view(documents@)),
        decreases snapshots@.len() - i,
    {
        if let Some(snapshot) = &snapshots[i] {
            proof {
                lemma_with_documents_ids(
                    documents_view(documents@),
                    document_views(snapshot.documents@),
                );
            }
            put_documents(&mut documents, &snapshot.documents);
        }
        i += 1;
    }
    documents
}

impl IndexHandle {
    /// Opens an index with the documents of those of its segments that could be read. The
    /// write-ahead log is to be replayed from its sequence number on.
    pub fn open(
        metadata: IndexMetadata,
        manifest: IndexManifest,
        snapshots: &Vec<Option<SegmentSnapshot>>,
        doc_values_reader: Option<DocValuesReader>,
    ) -> (r: IndexHandle)
        requires
            snapshots@.len() == manifest.segments@.len(),
        ensures
            r@.wf(),
            r@.metadata == metadata,
            r@.manifest == manifest,
            r@.documents == loaded_documents(snapshots@, snapshots@.len() as int),
            r@.pending == Map::<Seq<char>, PendingView>::empty(),
            r@.sequence_number == loaded_sequence(
                manifest.segments@,
                snapshots@,
                snapshots@.len() as int,
            ),
            r@.expiries == Map::<Seq<char>, Timestamp>::empty(),
            r@.columns == (match doc_values_reader {
                Some(reader) => Some(reader@),
                None => None,
            }),
            r@.positions == Map::<Seq<char>, PositionsMap>::empty(),
            r@.stored == r@.documents.dom(),
    {
        let documents = load_documents(snapshots);
        let stored_documents = document_ids(&documents);
        let mut sequence: u64 = 0;
        let mut i: usize = 0;
        while i < snapshots.len()
            invariant
                i <= snapshots@.len(),
                snapshots@.len() == manifest.segments@.len(),
                sequence == loaded_sequence(manifest.segments@, snapshots@, i as int),
            decreases snapshots@.len() - i,
        {
            if snapshots[i].is_some() && manifest.segments[i].last_sequence_number > sequence {
                sequence = manifest.segments[i].last_sequence_number;
            }
            i += 1;
        }
        let r = IndexHandle {
            metadata,
            manifest,
            searchable_documents: documents,
            pending_operations: StringMap::new(),
            last_sequence_number: sequence,
            document_timestamps: StringMap::new(),
            doc_values_reader,
            per_doc_inverted_index: StringMap::new(),
            stored_documents,
        };
        proof {
            assert(r@.pending =~= Map::empty());
            assert(r@.positions =~= Map::empty());
        }
        r
    }

    /// Recovers one record of the write-ahead log.
    fn replay_one(&mut self, entry: &WalEntry) -> (r: Result<(), ExpiryOutOfRange>)
        requires
            old(self)@.wf(),
        ensures
            final(self)@.metadata == old(self)@.metadata,
            final(self)@.manifest == old(self)@.manifest,
            final(self)@.pending == old(self)@.pending,
            final(self)@.columns == old(self)@.columns,
            final(self)@.positions == old(self)@.positions,
            final(self)@.stored == old(self)@.stored,
            match r {
                Ok(_) => final(self)@.wf() && recovered_one(
                    recovery_of(old(self)@),
                    entry@,
                    old(self)@.metadata.settings,
                ) == Some(recovery_of(final(self)@)),
                Err(_) => recovered_one(
                    recovery_of(old(self)@),
                    entry@,
                    old(self)@.metadata.settings,
                ) is None,
            },
    {
        self.last_sequence_number = entry.sequence_number;
        match &entry.record {
            WalRecord::IndexDocument { document } => {
                let ghost before = self.searchable_documents@;
                let copy = document.copy();
                self.searchable_documents.insert(document.id.clone(), copy);
                proof {
                    assert(documents_view(self.searchable_documents@) =~= documents_view(
                        before,
                    ).insert(document@.id, document@));
                }
                if let Some(time) = extract_document_timestamp(&self.metadata.settings, document) {
                    if let Some(secs) = self.metadata.settings.retention_secs {
                        match expiry_of(time, secs) {
                            Some(at) => {
                                self.document_timestamps.insert(document.id.clone(), at);
                            },
                            None => {
                                return Err(ExpiryOutOfRange);
                            },
                        }
                    }
                }
                Ok(())
            },
            WalRecord::DeleteDocument { document_id } => {
                let ghost before = self.searchable_documents@;
                self.searchable_documents.remove(document_id.as_str());
                self.document_timestamps.remove(document_id.as_str());
                proof {
                    assert(documents_view(self.searchable_documents@) =~= documents_view(
                        before,
                    ).remove(document_id@));
                }
                Ok(())
            },
            WalRecord::MappingUpdate => Ok(()),
        }
    }

    /// Recovers the records of the write-ahead log, in their order.
    pub fn replay(&mut self, entries: &Vec<WalEntry>) -> (r: Result<(), ExpiryOutOfRange>)
        requires
            old(self)@.wf(),
        ensures
            final(self)@.metadata == old(self)@.metadata,
            final(self)@.manifest == old(self)@.manifest,
            final(self)@.pending == old(self)@.pending,
            final(self)@.columns == old(self)@.columns,
            final(self)@.positions == old(self)@.positions,
            final(self)@.stored == old(self)@.stored,
            match r {
                Ok(_) => final(self)@.wf() && recovered(
                    recovery_of(old(self)@),
                    entry_views(entries@),
                    old(self)@.metadata.settings,
                    entries@.len() as int,
                ) == Some(recovery_of(final(self)@)),
                Err(_) => recovered(
                    recovery_of(old(self)@),
                    entry_views(entries@),
                    old(self)@.metadata.settings,
                    entries@.len() as int,
                ) is None,
            },
    {
        let ghost start = recovery_of(self@);
        let ghost settings = self@.metadata.settings;
        let ghost all = entry_views(entries@);
        let mut i: usize = 0;
        while i < entries.len()
            invariant
                i <= entries@.len(),
                all == entry_views(entries@),
                self@.wf(),
                self@.metadata == old(self)@.metadata,
                self@.manifest == old(self)@.manifest,
                self@.pending == old(self)@.pending,
                self@.columns == old(self)@.columns,
                self@.positions == old(self)@.positions,
                self@.stored == old(self)@.stored,
                settings == old(self)@.metadata.settings,
                start == recovery_of(old(self)@),
                recovered(start, all, settings, i as int) == Some(recovery_of(self@)),
            decreases entries@.len() - i,
        {
            proof {
                assert(all[i as int] == entries@[i as int]@);
            }
            if let Err(e) = self.replay_one(&entries[i]) {
                proof {
                    lemma_recovery_stays_undefined(start, all, settings, i + 1);
                }
                return Err(e);
            }
            i += 1;
        }
        Ok(())
    }
}

proof fn lemma_recovery_stays_undefined(
    start: Recovery,
    entries: Seq<EntryView>,
    settings: IndexSettings,
    k: int,
)
    requires
        0 <= k <= entries.len(),
        recovered(start, entries, settings, k) is None,
    ensures
        recovered(start, entries, settings, entries.len() as int) is None,
    decreases entries.len() - k,
{
    if k < entries.len() {
        lemma_recovery_stays_undefined(start, entries, settings, k + 1);
    }
}

/// What is known of the resources of an index.
#[derive(Clone, Copy, Debug, PartialEq, Eq, Structural)]
pub struct IndexMetrics {
    pub document_count: usize,
    pub pending_operations: usize,
    pub last_sequence_number: u64,
}

/// Whether two views differ in their metadata at most.
pub open spec fn same_but_metadata(a: IndexView, b: IndexView) -> bool {
    a == IndexView { metadata: a.metadata, ..b }
}

/// Whether two views differ in their expiries at most.
pub open spec fn same_but_expiries(a: IndexView, b: IndexView) -> bool {
    a == IndexView { expiries: a.expiries, ..b }
}

/// The expiries after a document was written: it expires as many seconds after its time as
/// documents are kept, at once where the settings do not say. Nothing where no date can name
/// that time; a document without a time leaves them as they are.
pub open spec fn expiries_after(
    settings: IndexSettings,
    expiries: Map<Seq<char>, Timestamp>,
    document: DocumentView,
) -> Option<Map<Seq<char>, Timestamp>> {
    let secs = match settings.retention_secs {
        Some(secs) => secs,
        None => 0,
    };
    match document_time(settings, document.source) {
        None => Some(expiries),
        Some(time) => match expiry(time, secs) {
            Some(at) => Some(expiries.insert(document.id, at)),
            None => None,
        },
    }
}

/// The view after a document was written under the next sequence number.
pub open spec fn after_index(view: IndexView, document: DocumentView) -> IndexView {
    let positions = document_positions(document.source);
    IndexView {
        pending: view.pending.insert(document.id, PendingView::Upsert(document)),
        sequence_number: (view.sequence_number + 1) as u64,
        positions: if positions == Map::<Seq<char>, Seq<u32>>::empty() {
            view.positions
        } else {
            view.positions.insert(document.id, positions)
        },
        ..view
    }
}

/// The view after a document was deleted under the next sequence number.
pub open spec fn after_delete(view: IndexView, id: Seq<char>) -> IndexView {
    IndexView {
        pending: view.pending.insert(id, PendingView::Delete),
        sequence_number: (view.sequence_number + 1) as u64,
        ..view
    }
}

/// The view after an expired document was deleted under the next sequence number.
pub open spec fn after_eviction(view: IndexView, id: Seq<char>) -> IndexView {
    IndexView { expiries: view.expiries.remove(id), ..after_delete(view, id) }
}

/// The view after the first `k` of those expired documents were deleted.
pub open spec fn evicted(view: IndexView, ids: Seq<Seq<char>>, k: int) -> IndexView
    decreases k,
{
    if k <= 0 || k > ids.len() {
        view
    } else {
        after_eviction(evicted(view, ids, k - 1), ids[k - 1])
    }
}

/// The view after all waiting operations were applied.
pub open spec fn after_refresh(view: IndexView) -> IndexView {
    IndexView { documents: view.current(), pending: Map::empty(), ..view }
}

/// The ids of the documents that have expired, in their order.
pub open spec fn are_expired_ids(ids: Seq<Seq<char>>, view: IndexView, at: Timestamp) -> bool {
    &&& forall|i: int| 0 <= i < ids.len() ==> view.expired(#[trigger] ids[i], at)
    &&& forall|id: Seq<char>| #[trigger] view.expired(id, at) ==> ids.contains(id)
    &&& forall|i: int, j: int|
        0 <= i < j < ids.len() ==> crate::text::text_lt(#[trigger] ids[i], #[trigger] ids[j])
}

impl IndexHandle {
    /// Name, settings and mappings.
    pub fn metadata(&self) -> (r: &IndexMetadata)
        ensures
            *r == self@.metadata,
    {
        &self.metadata
    }

    /// The segments on disk.
    pub fn manifest(&self) -> (r: &IndexManifest)
        ensures
            *r == self@.manifest,
    {
        &self.manifest
    }

    /// The documents that a search sees.
    pub fn documents(&self) -> (r: &StringMap<IndexDocument>)
        ensures
            documents_view(r@) == self@.documents,
    {
        &self.searchable_documents
    }

    /// The number of the last record of the write-ahead log.
    pub fn last_sequence_number(&self) -> (r: u64)
        ensures
            r == self@.sequence_number,
    {
        self.last_sequence_number
    }

    /// For how many seconds documents are kept, if the settings say.
    pub fn retention_secs(&self) -> (r: Option<u64>)
        ensures
            r == self@.metadata.settings.retention_secs,
    {
        self.metadata.settings.retention_secs
    }

    /// The field for the time of a document, if the settings say.
    pub fn primary_time_field(&self) -> (r: Option<&str>)
        ensures
            match r {
                Some(field) => self@.metadata.settings.primary_time_field is Some && field@
                    == self@.metadata.settings.primary_time_field->0@,
                None => self@.metadata.settings.primary_time_field is None,
            },
    {
        match &self.metadata.settings.primary_time_field {
            Some(field) => Some(field.as_str()),
            None => None,
        }
    }

    /// Whether documents of this index expire.
    pub fn has_retention_policy(&self) -> (r: bool)
        ensures
            r == self@.has_retention(),
    {
        self.metadata.settings.retention_secs.is_some()
            && self.metadata.settings.primary_time_field.is_some()
    }

    /// How many documents and waiting operations there are.
    pub fn metrics(&self) -> (r: IndexMetrics)
        ensures
            self@.documents.dom().finite(),
            r.document_count == self@.documents.dom().len(),
            self@.pending.dom().finite(),
            r.pending_operations == self@.pending.dom().len(),
            r.last_sequence_number == self@.sequence_number,
    {
        let document_count: usize = self.searchable_documents.len();
        let pending_operations: usize = self.pending_operations.len();
        proof {
            crate::map::lemma_map_len(self.searchable_documents.pairs());
            crate::map::lemma_map_len(self.pending_operations.pairs());
            assert(self@.documents.dom() =~= self.searchable_documents@.dom());
            assert(self@.pending.dom() =~= self.pending_operations@.dom());
        }
        IndexMetrics {
            document_count,
            pending_operations,
            last_sequence_number: self.last_sequence_number,
        }
    }

    /// Whether a document has expired.
    pub fn is_expired(&self, document_id: &str, at: Timestamp) -> (r: bool)
        ensures
            r == self@.expired(document_id@, at),
    {
        if !self.has_retention_policy() {
            return false;
        }
        match self.document_timestamps.get(document_id) {
            Some(expiry) => expiry.not_after(&at),
            None => false,
        }
    }

    /// The document as all writes so far have left it, if there is one.
    pub fn get_document(&self, document_id: &str) -> (r: Option<&IndexDocument>)
        ensures
            match r {
                Some(document) => self@.current().contains_key(document_id@)
                    && self@.current()[document_id@] == document@,
                None => !self@.current().contains_key(document_id@),
            },
    {
        match self.pending_operations.get(document_id) {
            Some(PendingOperation::Upsert(document)) => Some(document),
            Some(PendingOperation::Delete) => None,
            None => self.searchable_documents.get(document_id),
        }
    }

    /// Admits a document: its new fields get mappings. Tells whether there were new fields.
    pub fn admit_document(&mut self, document: &IndexDocument, at: Timestamp) -> (r: Result<
        bool,
        CloudSearchError,
    >)
        ensures
            same_but_metadata(final(self)@, old(self)@),
            match r {
                Ok(changed) => {
                    &&& admitted_by(old(self)@.metadata, document.source@) matches Ok(new)
                    &&& changed == (new.len() > 0)
                    &&& final(self)@.metadata.mappings@ == with_mappings(
                        old(self)@.metadata.mappings@,
                        new,
                    )
                    &&& final(self)@.metadata.updated_at == if changed {
                        at
                    } else {
                        old(self)@.metadata.updated_at
                    }
                    &&& final(self)@.metadata.id == old(self)@.metadata.id
                    &&& final(self)@.metadata.name == old(self)@.metadata.name
                    &&& final(self)@.metadata.created_at == old(self)@.metadata.created_at
                    &&& final(self)@.metadata.settings == old(self)@.metadata.settings
                },
                Err(e) => {
                    &&& admitted_by(old(self)@.metadata, document.source@) == Err::<
                        Seq<(Seq<char>, FieldMapping)>,
                        _,
                    >(e@)
                    &&& final(self)@ == old(self)@
                },
            },
    {
        validate_and_update_mappings(&mut self.metadata, &document.source, at)
    }

    /// Notes when a document expires.
    pub fn note_expiry(&mut self, document: &IndexDocument) -> (r: Result<(), ExpiryOutOfRange>)
        ensures
            same_but_expiries(final(self)@, old(self)@),
            match r {
                Ok(_) => expiries_after(
                    old(self)@.metadata.settings,
                    old(self)@.expiries,
                    document@,
                ) == Some(final(self)@.expiries),
                Err(_) => expiries_after(
                    old(self)@.metadata.settings,
                    old(self)@.expiries,
                    document@,
                ) is None && final(self)@ == old(self)@,
            },
    {
        if let Some(time) = extract_document_timestamp(&self.metadata.settings, document) {
            let secs: u64 = match self.metadata.settings.retention_secs {
                Some(secs) => secs,
                None => 0,
            };
            match expiry_of(time, secs) {
                Some(at) => {
                    self.document_timestamps.insert(document.id.clone(), at);
                },
                None => {
                    return Err(ExpiryOutOfRange);
                },
            }
        }
        Ok(())
    }

    /// The number of the next record of the write-ahead log, if there is one.
    pub fn next_sequence_number(&self) -> (r: Option<u64>)
        ensures
            r == if self@.sequence_number < u64::MAX {
                Some((self@.sequence_number + 1) as u64)
            } else {
                None
            },
    {
        if self.last_sequence_number < u64::MAX {
            Some(self.last_sequence_number + 1)
        } else {
            None
        }
    }

    /// Writes a document whose record has the next sequence number. A search sees it after the
    /// next refresh.
    pub fn index_document(&mut self, document: IndexDocument) -> (r: u64)
        requires
            old(self)@.wf(),
            old(self)@.sequence_number < u64::MAX,
        ensures
            final(self)@.wf(),
            final(self)@ == after_index(old(self)@, document@),
            r == final(self)@.sequence_number,
    {
        let positions = extract_positions(&document);
        let ghost before = *self;
        if positions.len() > 0 {
            self.per_doc_inverted_index.insert(document.id.clone(), positions);
        }
        let id = document.id.clone();
        let ghost view = document@;
        self.pending_operations.insert(id, PendingOperation::Upsert(document));
        self.last_sequence_number = self.last_sequence_number + 1;
        proof {
            crate::map::lemma_map_len(positions.pairs());
            assert(positions_view(positions@).dom() =~= positions@.dom());
            if positions.pairs().len() == 0 {
                assert(positions_view(positions@) =~= Map::empty());
            } else {
                assert(positions_view(positions@) != Map::<Seq<char>, Seq<u32>>::empty()) by {
                    if positions_view(positions@) == Map::<Seq<char>, Seq<u32>>::empty() {
                        assert(positions@.dom() =~= Set::empty());
                    }
                }
                assert(self@.positions =~= before@.positions.insert(
                    view.id,
                    positions_view(positions@),
                ));
            }
            assert(self@.pending =~= before@.pending.insert(view.id, PendingView::Upsert(view)));
        }
        self.last_sequence_number
    }

    /// Deletes a document by a record with the next sequence number. A search no longer sees it
    /// after the next refresh.
    pub fn delete_document(&mut self, document_id: &str) -> (r: u64)
        requires
            old(self)@.wf(),
            old(self)@.sequence_number < u64::MAX,
        ensures
            final(self)@.wf(),
            final(self)@ == after_delete(old(self)@, document_id@),
            r == final(self)@.sequence_number,
    {
        let ghost before = *self;
        self.pending_operations.insert(document_id.to_owned(), PendingOperation::Delete);
        self.last_sequence_number = self.last_sequence_number + 1;
        proof {
            assert(self@.pending =~= before@.pending.insert(document_id@, PendingView::Delete));
        }
        self.last_sequence_number
    }

    /// The ids of the documents that have expired, in their order.
    pub fn expired_ids(&self, at: Timestamp) -> (r: Vec<String>)
        ensures
            are_expired_ids(crate::text::views(r@), self@, at),
    {
        let mut r: Vec<String> = Vec::new();
        if !self.has_retention_policy() {
            proof {
                assert(crate::text::views(r@) =~= Seq::empty());
            }
            return r;
        }
        let ghost pairs = self.document_timestamps.pairs();
        let count: usize = self.document_timestamps.len();
        let mut i: usize = 0;
        while i < count
            invariant
                i <= count,
                count == pairs.len(),
                pairs == self.document_timestamps.pairs(),
                keys_ascend(pairs),
                self@.has_retention(),
                forall|k: int|
                    0 <= k < r@.len() ==> self@.expired(#[trigger] crate::text::views(r@)[k], at),
                forall|k: int, j: int|
                    0 <= k < r@.len() && i <= j < pairs.len() ==> crate::text::text_lt(
                        #[trigger] crate::text::views(r@)[k],
                        (#[trigger] pairs[j]).0,
                    ),
                forall|j: int|
                    0 <= j < i && self@.expired(#[trigger] pairs[j].0, at)
                        ==> crate::text::views(r@).contains(pairs[j].0),
                forall|k: int, l: int|
                    0 <= k < l < r@.len() ==> crate::text::text_lt(
                        #[trigger] crate::text::views(r@)[k],
                        #[trigger] crate::text::views(r@)[l],
                    ),
            decreases count - i,
        {
            proof {
                crate::map::lemma_pair_in_map(pairs, i as int);
            }
            let id = self.document_timestamps.key_at(i);
            let ghost before = r@;
            if self.document_timestamps.value_at(i).not_after(&at) {
                r.push(id.clone());
                proof {
                    let ids = crate::text::views(r@);
                    assert(ids =~= crate::text::views(before).push(id@));
                    assert forall|k: int| 0 <= k < r@.len() implies self@.expired(
                        #[trigger] ids[k],
                        at,
                    ) by {
                        if k < before.len() {
                            assert(crate::text::views(before)[k] == ids[k]);
                        }
                    }
                    assert forall|k: int, j: int|
                        0 <= k < r@.len() && i + 1 <= j < pairs.len() implies crate::text::text_lt(
                        #[trigger] ids[k],
                        (#[trigger] pairs[j]).0,
                    ) by {
                        if k < before.len() {
                            assert(crate::text::views(before)[k] == ids[k]);
                        } else {
                            assert(crate::text::text_lt(pairs[i as int].0, pairs[j].0));
                        }
                    }
                    assert forall|j: int|
                        0 <= j < i + 1 && self@.expired(#[trigger] pairs[j].0, at) implies ids.contains(
                        pairs[j].0,
                    ) by {
                        if j < i {
                            let k = choose|k: int|
                                0 <= k < crate::text::views(before).len() && crate::text::views(
                                    before,
                                )[k] == pairs[j].0;
                            assert(ids[k] == pairs[j].0);
                        } else {
                            assert(ids[before.len() as int] == pairs[j].0);
                        }
                    }
                    assert forall|k: int, l: int| 0 <= k < l < r@.len() implies crate::text::text_lt(
                        #[trigger] ids[k],
                        #[trigger] ids[l],
                    ) by {
                        assert(crate::text::views(before)[k] == ids[k]);
                        if l < before.len() {
                            assert(crate::text::views(before)[l] == ids[l]);
                        } else {
                            assert(crate::text::text_lt(ids[k], pairs[i as int].0));
                        }
                    }
                }
            }
            i += 1;
        }
        proof {
            assert forall|id: Seq<char>| #[trigger] self@.expired(id, at) implies crate::text::views(
                r@,
            ).contains(id) by {
                let j = crate::map::key_index(pairs, id);
                assert(pairs[j].0 == id);
                crate::map::lemma_pair_in_map(pairs, j);
            }
        }
        r
    }

    /// Deletes an expired document by a record with the next sequence number.
    pub fn evict_document(&mut self, document_id: &str) -> (r: u64)
        requires
            old(self)@.wf(),
            old(self)@.sequence_number < u64::MAX,
        ensures
            final(self)@.wf(),
            final(self)@ == after_eviction(old(self)@, document_id@),
            r == final(self)@.sequence_number,
    {
        let r: u64 = self.delete_document(document_id);
        self.document_timestamps.remove(document_id);
        r
    }

    /// Deletes expired documents, one by one, by records with the next sequence numbers. Gives
    /// back how many there were.
    pub fn evict_expired_documents(&mut self, ids: &Vec<String>) -> (r: usize)
        requires
            old(self)@.wf(),
            old(self)@.sequence_number + ids@.len() <= u64::MAX,
        ensures
            final(self)@.wf(),
            final(self)@ == evicted(
                old(self)@,
                crate::text::views(ids@),
                ids@.len() as int,
            ),
            r == ids@.len(),
    {
        let ghost all = crate::text::views(ids@);
        let ghost start = self@;
        let mut i: usize = 0;
        while i < ids.len()
            invariant
                i <= ids@.len(),
                all == crate::text::views(ids@),
                start == old(self)@,
                self@.wf(),
                self@ == evicted(start, all, i as int),
                self@.sequence_number == start.sequence_number + i,
                start.sequence_number + ids@.len() <= u64::MAX,
            decreases ids@.len() - i,
        {
            proof {
                assert(all[i as int] == ids@[i as int]@);
            }
            self.evict_document(ids[i].as_str());
            i += 1;
        }
        i
    }

    /// Applies all waiting operations, at the time `at`. Gives back how many there were.
    pub fn refresh(&mut self, at: Timestamp) -> (r: usize)
        requires
            old(self)@.wf(),
        ensures
            final(self)@.wf(),
            same_but_metadata(final(self)@, after_refresh(old(self)@)),
            final(self)@.metadata == (IndexMetadata { updated_at: at, ..old(self)@.metadata }),
            old(self)@.pending.dom().finite(),
            r == old(self)@.pending.dom().len(),
    {
        let count: usize = self.pending_operations.len();
        proof {
            crate::map::lemma_map_len(self.pending_operations.pairs());
            assert(self@.pending.dom() =~= self.pending_operations@.dom());
        }
        apply_pending(&mut self.searchable_documents, &self.pending_operations);
        self.pending_operations = StringMap::new();
        self.metadata.updated_at = at;
        proof {
            assert(self@.pending =~= Map::empty());
        }
        count
    }
}

} // verus!
