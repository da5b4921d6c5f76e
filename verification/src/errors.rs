//! What errors say, and with which status they are answered.
use vstd::prelude::*;

use crate::text::cat3;
use crate::types::CloudSearchError;
use crate::types::ErrorResponse;
use crate::types::ErrorView;

verus! {

/// What an error says.
pub open spec fn message_of(error: ErrorView) -> Seq<char> {
    match error {
        ErrorView::IndexAlreadyExists(name) => "index '"@ + name + "' already exists"@,
        ErrorView::IndexNotFound(name) => "index '"@ + name + "' not found"@,
        ErrorView::DocumentNotFound(id) => "document '"@ + id + "' not found"@,
        ErrorView::SnapshotNotFound(name) => "snapshot '"@ + name + "' not found"@,
        ErrorView::InvalidIndexName(name) => "invalid index name '"@ + name + "'"@,
        ErrorView::InvalidNamespace(reason) => "invalid namespace: "@ + reason,
        ErrorView::InvalidSearchRequest(reason) => "invalid search request: "@ + reason,
        ErrorView::MappingConflict(reason) => "mapping conflict: "@ + reason,
        ErrorView::UnknownFieldRejected(field) => "unknown field rejected: "@ + field,
        ErrorView::UnsupportedArrayField(field) => "array fields are unsupported: "@ + field,
        ErrorView::MappingLimitExceeded(reason) => "mapping limit exceeded: "@ + reason,
        ErrorView::ResourceLimitExceeded(reason) => "resource limit exceeded: "@ + reason,
        ErrorView::InvalidWalRecord(reason) => "invalid WAL record: "@ + reason,
        ErrorView::WalChecksumMismatch => "WAL checksum mismatch"@,
        ErrorView::Io(reason) => "io error: "@ + reason,
        ErrorView::Serde(reason) => "serialization error: "@ + reason,
    }
}

/// The status of the answer to a request that failed: it conflicts with what is there, asks for
/// what is not there, is bad, or cannot be served.
pub open spec fn status_of(error: ErrorView) -> u16 {
    match error {
        ErrorView::IndexAlreadyExists(_) => 409,
        ErrorView::IndexNotFound(_) => 404,
        ErrorView::DocumentNotFound(_) => 404,
        ErrorView::SnapshotNotFound(_) => 404,
        ErrorView::InvalidWalRecord(_) => 503,
        ErrorView::WalChecksumMismatch => 503,
        ErrorView::Io(_) => 503,
        _ => 400,
    }
}

fn cat2(a: &str, b: &str) -> (r: String)
    ensures
        r@ == a@ + b@,
{
    let mut r = a.to_owned();
    r.append(b);
    r
}

impl CloudSearchError {
    /// What the error says.
    pub fn message(&self) -> (r: String)
        ensures
            r@ == message_of(self@),
    {
        match self {
            CloudSearchError::IndexAlreadyExists(name) => cat3(
                "index '",
                name.as_str(),
                "' already exists",
            ),
            CloudSearchError::IndexNotFound(name) => cat3("index '", name.as_str(), "' not found"),
            CloudSearchError::DocumentNotFound(id) => cat3(
                "document '",
                id.as_str(),
                "' not found",
            ),
            CloudSearchError::SnapshotNotFound(name) => cat3(
                "snapshot '",
                name.as_str(),
                "' not found",
            ),
            CloudSearchError::InvalidIndexName(name) => cat3(
                "invalid index name '",
                name.as_str(),
                "'",
            ),
            CloudSearchError::InvalidNamespace(reason) => cat2(
                "invalid namespace: ",
                reason.as_str(),
            ),
            CloudSearchError::InvalidSearchRequest(reason) => cat2(
                "invalid search request: ",
                reason.as_str(),
            ),
            CloudSearchError::MappingConflict(reason) => cat2(
                "mapping conflict: ",
                reason.as_str(),
            ),
            CloudSearchError::UnknownFieldRejected(field) => cat2(
                "unknown field rejected: ",
                field.as_str(),
            ),
            CloudSearchError::UnsupportedArrayField(field) => cat2(
                "array fields are unsupported: ",
                field.as_str(),
            ),
            CloudSearchError::MappingLimitExceeded(reason) => cat2(
                "mapping limit exceeded: ",
                reason.as_str(),
            ),
            CloudSearchError::ResourceLimitExceeded(reason) => cat2(
                "resource limit exceeded: ",
                reason.as_str(),
            ),
            CloudSearchError::InvalidWalRecord(reason) => cat2(
                "invalid WAL record: ",
                reason.as_str(),
            ),
            CloudSearchError::WalChecksumMismatch => "WAL checksum mismatch".to_owned(),
            CloudSearchError::Io(reason) => cat2("io error: ", reason.as_str()),
            CloudSearchError::Serde(reason) => cat2("serialization error: ", reason.as_str()),
        }
    }

    /// The status of the answer to the request that failed so.
    pub fn status(&self) -> (r: u16)
        ensures
            r == status_of(self@),
    {
        match self {
            CloudSearchError::IndexAlreadyExists(_) => 409,
            CloudSearchError::IndexNotFound(_) => 404,
            CloudSearchError::DocumentNotFound(_) => 404,
            CloudSearchError::SnapshotNotFound(_) => 404,
            CloudSearchError::InvalidWalRecord(_) => 503,
            CloudSearchError::WalChecksumMismatch => 503,
            CloudSearchError::Io(_) => 503,
            _ => 400,
        }
    }
}

/// What a request is answered that failed.
#[derive(Debug)]
pub struct ApiError(pub CloudSearchError);

impl ApiError {
    /// The status and the body of the answer.
    pub fn response(&self) -> (r: (u16, ErrorResponse))
        ensures
            r.0 == status_of(self.0@),
            r.1.error@ == message_of(self.0@),
    {
        (self.0.status(), ErrorResponse { error: self.0.message() })
    }
}

} // verus!
