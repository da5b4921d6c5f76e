//! Which indexes, documents and snapshots can be made, changed and read.
use vstd::prelude::*;

use crate::index::random_id;
use crate::index::SegmentMeta;
use crate::index::SegmentSnapshot;
use crate::names::namespace_fault;
use crate::names::valid_index_name;
use crate::names::validate_index_name;
use crate::names::validate_namespace;
use crate::time::now;
use crate::time::Timestamp;
use crate::types::CloudSearchError;
use crate::types::CreateIndexRequest;
use crate::types::ErrorView;
use crate::types::FieldMapping;
use crate::types::IndexMetadata;
use crate::types::IndexSettings;
use crate::types::UpdateSettingsRequest;

verus! {

/// What keeps an index of that name and with those settings from being made, apart from one that
/// is there already: the name, then the namespace.
pub open spec fn request_fault(name: Seq<char>, settings: IndexSettings) -> Option<ErrorView> {
    if !valid_index_name(name) {
        Some(ErrorView::InvalidIndexName(name))
    } else {
        match settings.namespace {
            None => None,
            Some(namespace) => match namespace_fault(namespace@) {
                Some(fault) => Some(ErrorView::InvalidNamespace(fault)),
                None => None,
            },
        }
    }
}

/// What keeps an index from being made.
pub open spec fn create_fault(
    name: Seq<char>,
    settings: IndexSettings,
    exists: bool,
) -> Option<ErrorView> {
    match request_fault(name, settings) {
        Some(fault) => Some(fault),
        None => if exists {
            Some(ErrorView::IndexAlreadyExists(name))
        } else {
            None
        },
    }
}

/// The mappings that an index starts with.
pub open spec fn first_mappings(request: CreateIndexRequest) -> Map<Seq<char>, FieldMapping> {
    match request.mappings {
        Some(mappings) => mappings@,
        None => Map::empty(),
    }
}

/// Checks name and namespace of an index to be made.
pub fn check_create(name: &str, settings: &IndexSettings) -> (r: Result<(), CloudSearchError>)
    ensures
        match r {
            Ok(_) => request_fault(name@, *settings) is None,
            Err(e) => request_fault(name@, *settings) == Some(e@),
        },
{
    if let Err(e) = validate_index_name(name) {
        return Err(e);
    }
    match &settings.namespace {
        Some(namespace) => validate_namespace(namespace.as_str()),
        None => Ok(()),
    }
}

/// The metadata of an index to be made, with that identifier and at that time. `exists` tells
/// whether one of that name is there already.
pub fn create_index_at(
    id: u128,
    time: Timestamp,
    name: &str,
    request: CreateIndexRequest,
    exists: bool,
) -> (r: Result<IndexMetadata, CloudSearchError>)
    ensures
        match r {
            Ok(metadata) => {
                &&& create_fault(name@, request.settings, exists) is None
                &&& metadata.id == id
                &&& metadata.name@ == name@
                &&& metadata.created_at == time
                &&& metadata.updated_at == time
                &&& metadata.settings == request.settings
                &&& metadata.mappings@ == first_mappings(request)
            },
            Err(e) => create_fault(name@, request.settings, exists) == Some(e@),
        },
{
    if let Err(e) = check_create(name, &request.settings) {
        return Err(e);
    }
    if exists {
        return Err(CloudSearchError::IndexAlreadyExists(name.to_owned()));
    }
    let mut metadata = IndexMetadata::at(id, time, name, request.settings);
    if let Some(mappings) = request.mappings {
        metadata.mappings = mappings;
    }
    Ok(metadata)
}

/// The metadata of an index to be made now, with a random identifier.
pub fn create_index(name: &str, request: CreateIndexRequest, exists: bool) -> (r: Result<
    IndexMetadata,
    CloudSearchError,
>)
    ensures
        match r {
            Ok(metadata) => {
                &&& create_fault(name@, request.settings, exists) is None
                &&& metadata.id != 0
                &&& metadata.name@ == name@
                &&& metadata.created_at == metadata.updated_at
                &&& metadata.created_at.valid()
                &&& metadata.settings == request.settings
                &&& metadata.mappings@ == first_mappings(request)
            },
            Err(e) => create_fault(name@, request.settings, exists) == Some(e@),
        },
{
    create_index_at(random_id(), now(), name, request, exists)
}

/// What keeps an index from being read, changed or deleted.
pub open spec fn index_fault(name: Seq<char>, exists: bool) -> Option<ErrorView> {
    if !valid_index_name(name) {
        Some(ErrorView::InvalidIndexName(name))
    } else if !exists {
        Some(ErrorView::IndexNotFound(name))
    } else {
        None
    }
}

/// Checks that an index can be read, changed or deleted. `exists` tells whether it is there.
pub fn require_index(name: &str, exists: bool) -> (r: Result<(), CloudSearchError>)
    ensures
        match r {
            Ok(_) => index_fault(name@, exists) is None,
            Err(e) => index_fault(name@, exists) == Some(e@),
        },
{
    if let Err(e) = validate_index_name(name) {
        return Err(e);
    }
    if exists {
        Ok(())
    } else {
        Err(CloudSearchError::IndexNotFound(name.to_owned()))
    }
}

/// A document that was asked for.
pub fn require_document<T>(id: &str, found: Option<T>) -> (r: Result<T, CloudSearchError>)
    ensures
        match r {
            Ok(document) => found == Some(document),
            Err(e) => found is None && e@ == ErrorView::DocumentNotFound(id@),
        },
{
    match found {
        Some(document) => Ok(document),
        None => Err(CloudSearchError::DocumentNotFound(id.to_owned())),
    }
}

/// A snapshot that was asked for.
pub fn require_snapshot<T>(name: &str, found: Option<T>) -> (r: Result<T, CloudSearchError>)
    ensures
        match r {
            Ok(snapshot) => found == Some(snapshot),
            Err(e) => found is None && e@ == ErrorView::SnapshotNotFound(name@),
        },
{
    match found {
        Some(snapshot) => Ok(snapshot),
        None => Err(CloudSearchError::SnapshotNotFound(name.to_owned())),
    }
}

/// Changes for how long the documents of an index are kept.
pub fn update_index_settings(
    metadata: &mut IndexMetadata,
    request: &UpdateSettingsRequest,
    at: Timestamp,
)
    ensures
        *final(metadata) == (IndexMetadata {
            settings: IndexSettings {
                retention_secs: request.retention_secs,
                ..old(metadata).settings
            },
            updated_at: at,
            ..*old(metadata)
        }),
{
    metadata.settings.retention_secs = request.retention_secs;
    metadata.updated_at = at;
}

/// What is known of the first segment of an index that kept all its documents in one file: what
/// the file says, or nothing where it could not be read.
pub fn legacy_segment(snapshot: &Option<SegmentSnapshot>) -> (r: SegmentMeta)
    ensures
        r.segment_number == 1,
        r.checksum == 0,
        match snapshot {
            Some(snapshot) => r.last_sequence_number == snapshot.last_sequence_number
                && r.document_count == snapshot.documents@.len(),
            None => r.last_sequence_number == 0 && r.document_count == 0,
        },
{
    match snapshot {
        Some(snapshot) => SegmentMeta {
            segment_number: 1,
            last_sequence_number: snapshot.last_sequence_number,
            document_count: snapshot.documents.len() as u64,
            checksum: 0,
        },
        None => SegmentMeta {
            segment_number: 1,
            last_sequence_number: 0,
            document_count: 0,
            checksum: 0,
        },
    }
}

} // verus!
