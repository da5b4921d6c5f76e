//! Named snapshots of an index.
use vstd::prelude::*;

use crate::documents::document_views;
use crate::documents::documents_view;
use crate::documents::put_documents;
use crate::documents::with_documents;
use crate::documents::PendingView;
use crate::index::crc32c_of;
use crate::index::document_time;
use crate::index::expiry;
use crate::index::expiry_of;
use crate::index::extract_document_timestamp;
use crate::index::lemma_with_documents_ids;
use crate::index::segments::is_snapshot_of;
use crate::index::verify_checksum;
use crate::index::IndexHandle;
use crate::index::IndexView;
use crate::index::SegmentSnapshot;
use crate::map::StringMap;
use crate::time::Timestamp;
use crate::types::CreateSnapshotResponse;
use crate::types::DocumentView;
use crate::types::IndexSettings;
use crate::types::RestoreResponse;
use crate::types::SnapshotMetadata;

verus! {

/// Why a snapshot could not be restored.
#[derive(Clone, Copy, Debug, PartialEq, Eq, Structural)]
pub enum RestoreFault {
    /// Its bytes are not those that it was made of.
    ChecksumMismatch,
    /// A document expires at a time that no date can name.
    ExpiryOutOfRange,
}

/// The expiries of the first `k` documents. Nothing where no date can name one of them.
pub open spec fn expiries_of(
    settings: IndexSettings,
    secs: u64,
    documents: Seq<DocumentView>,
    k: int,
) -> Option<Map<Seq<char>, Timestamp>>
    decreases k,
{
    if k <= 0 || k > documents.len() {
        Some(Map::empty())
    } else {
        match expiries_of(settings, secs, documents, k - 1) {
            None => None,
            Some(before) => match document_time(settings, documents[k - 1].source) {
                None => Some(before),
                Some(time) => match expiry(time, secs) {
                    None => None,
                    Some(at) => Some(before.insert(documents[k - 1].id, at)),
                },
            },
        }
    }
}

/// The expiries of restored documents: none where the settings do not say how long documents
/// are kept.
pub open spec fn restored_expiries(
    settings: IndexSettings,
    documents: Seq<DocumentView>,
) -> Option<Map<Seq<char>, Timestamp>> {
    match settings.retention_secs {
        None => Some(Map::empty()),
        Some(secs) => expiries_of(settings, secs, documents, documents.len() as int),
    }
}

/// The view after a snapshot with those documents and expiries was restored.
pub open spec fn after_restore(
    view: IndexView,
    documents: Seq<DocumentView>,
    sequence_number: u64,
    expiries: Map<Seq<char>, Timestamp>,
) -> IndexView {
    IndexView {
        documents: with_documents(Map::empty(), documents),
        pending: Map::empty(),
        sequence_number,
        expiries,
        ..view
    }
}

proof fn lemma_expiries_stay_undefined(
    settings: IndexSettings,
    secs: u64,
    documents: Seq<DocumentView>,
    k: int,
)
    requires
        0 <= k <= documents.len(),
        expiries_of(settings, secs, documents, k) is None,
    ensures
        expiries_of(settings, secs, documents, documents.len() as int) is None,
    decreases documents.len() - k,
{
    if k < documents.len() {
        lemma_expiries_stay_undefined(settings, secs, documents, k + 1);
    }
}

impl IndexHandle {
    /// The documents of a named snapshot: those that all writes so far have left.
    pub fn snapshot_documents(&self) -> (r: SegmentSnapshot)
        ensures
            is_snapshot_of(r, self@.current(), self@.sequence_number),
    {
        let documents = self.current_documents();
        self.merge_snapshot(&documents)
    }

    /// What is to be known of a snapshot with those documents, which take those bytes.
    pub fn create_snapshot(
        &self,
        name: &str,
        snapshot: &SegmentSnapshot,
        bytes: &[u8],
        at: Timestamp,
    ) -> (r: SnapshotMetadata)
        ensures
            r.name@ == name@,
            r.created_at == at,
            r.last_sequence_number == self@.sequence_number,
            r.document_count == snapshot.documents@.len(),
            r.checksum == crc32c_of(bytes@),
    {
        SnapshotMetadata {
            name: name.to_owned(),
            created_at: at,
            last_sequence_number: self.last_sequence_number,
            document_count: snapshot.documents.len(),
            checksum: crate::index::checksum_of(bytes),
        }
    }

    /// Restores a snapshot, whose documents take those bytes. Where it is refused nothing changes.
    pub fn restore_snapshot(
        &mut self,
        snapshot: &SegmentSnapshot,
        metadata: &SnapshotMetadata,
        bytes: &[u8],
    ) -> (r: Result<RestoreResponse, RestoreFault>)
        requires
            old(self)@.wf(),
        ensures
            match r {
                Ok(response) => {
                    let documents = document_views(snapshot.documents@);
                    let expiries = restored_expiries(old(self)@.metadata.settings, documents);
                    &&& crc32c_of(bytes@) == metadata.checksum
                    &&& expiries is Some
                    &&& final(self)@.wf()
                    &&& final(self)@ == after_restore(
                        old(self)@,
                        documents,
                        metadata.last_sequence_number,
                        expiries->0,
                    )
                    &&& response.result@ == "restored"@
                    &&& response.restored_documents == documents.len()
                    &&& response.sequence_number == snapshot.last_sequence_number
                },
                Err(RestoreFault::ChecksumMismatch) => crc32c_of(bytes@) != metadata.checksum
                    && final(self)@ == old(self)@,
                Err(RestoreFault::ExpiryOutOfRange) => crc32c_of(bytes@) == metadata.checksum
                    && restored_expiries(
                    old(self)@.metadata.settings,
                    document_views(snapshot.documents@),
                ) is None && final(self)@ == old(self)@,
            },
    {
        if verify_checksum(bytes, metadata.checksum).is_err() {
            return Err(RestoreFault::ChecksumMismatch);
        }
        let ghost all = document_views(snapshot.documents@);
        let ghost settings = self.metadata.settings;
        let mut timestamps: StringMap<Timestamp> = StringMap::new();
        proof {
            assert(timestamps@ =~= Map::empty());
        }
        if let Some(secs) = self.metadata.settings.retention_secs {
            let mut i: usize = 0;
            while i < snapshot.documents.len()
                invariant
                    i <= snapshot.documents@.len(),
                    all == document_views(snapshot.documents@),
                    settings == self.metadata.settings,
                    self@ == old(self)@,
                    settings == old(self)@.metadata.settings,
                    settings.retention_secs == Some(secs),
                    crc32c_of(bytes@) == metadata.checksum,
                    expiries_of(settings, secs, all, i as int) == Some(timestamps@),
                decreases snapshot.documents@.len() - i,
            {
                let document = &snapshot.documents[i];
                proof {
                    assert(all[i as int] == document@);
                }
                if let Some(time) = extract_document_timestamp(&self.metadata.settings, document) {
                    match expiry_of(time, secs) {
                        Some(at) => {
                            timestamps.insert(document.id.clone(), at);
                        },
                        None => {
                            proof {
                                lemma_expiries_stay_undefined(settings, secs, all, i + 1);
                            }
                            return Err(RestoreFault::ExpiryOutOfRange);
                        },
                    }
                }
                i += 1;
            }
        }
        let mut documents: StringMap<crate::types::IndexDocument> = StringMap::new();
        proof {
            assert(documents_view(documents@) =~= Map::empty());
            lemma_with_documents_ids(Map::empty(), all);
        }
        put_documents(&mut documents, &snapshot.documents);
        self.searchable_documents = documents;
        self.pending_operations = StringMap::new();
        self.last_sequence_number = metadata.last_sequence_number;
        self.document_timestamps = timestamps;
        proof {
            assert(self@.pending =~= Map::<Seq<char>, PendingView>::empty());
        }
        Ok(
            RestoreResponse {
                result: "restored".to_owned(),
                restored_documents: snapshot.documents.len(),
                sequence_number: snapshot.last_sequence_number,
            },
        )
    }
}

/// The answer to a request for a snapshot that was made.
pub fn snapshot_created(metadata: &SnapshotMetadata) -> (r: CreateSnapshotResponse)
    ensures
        r.name@ == metadata.name@,
        r.created_at == metadata.created_at,
        r.last_sequence_number == metadata.last_sequence_number,
        r.document_count == metadata.document_count,
        r.checksum == metadata.checksum,
{
    CreateSnapshotResponse {
        name: metadata.name.clone(),
        created_at: metadata.created_at,
        last_sequence_number: metadata.last_sequence_number,
        document_count: metadata.document_count,
        checksum: metadata.checksum,
    }
}

} // verus!
