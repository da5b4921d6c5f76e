//! Which names an index and a namespace may have.
use vstd::prelude::*;
use vstd::utf8::encode_utf8;

use crate::types::CloudSearchError;
use crate::types::ErrorView;

verus! {

/// Whether an index name may hold `c`.
pub open spec fn is_index_char(c: char) -> bool {
    'a' <= c <= 'z' || '0' <= c <= '9' || c == '-' || c == '_'
}

/// Whether `name` is one that an index may have: 1 to 255 bytes of lower case ASCII letters,
/// digits, hyphens and underscores.
pub open spec fn valid_index_name(name: Seq<char>) -> bool {
    &&& 0 < name.len() <= 255
    &&& forall|i: int| 0 <= i < name.len() ==> is_index_char(#[trigger] name[i])
}

/// Whether a namespace may hold `c`.
pub open spec fn is_namespace_char(c: char) -> bool {
    'a' <= c <= 'z' || 'A' <= c <= 'Z' || '0' <= c <= '9' || c == '-' || c == '_'
}

/// What is wrong with a namespace, if anything is: it is empty, longer than 64 bytes, or holds
/// another character than ASCII letters, digits, hyphens and underscores.
pub open spec fn namespace_fault(namespace: Seq<char>) -> Option<Seq<char>> {
    if namespace.len() == 0 {
        Some("namespace cannot be empty"@)
    } else if encode_utf8(namespace).len() > 64 {
        Some("namespace cannot exceed 64 characters"@)
    } else if exists|i: int| 0 <= i < namespace.len() && !is_namespace_char(#[trigger] namespace[i]) {
        Some("namespace must be alphanumeric, hyphens, or underscores"@)
    } else {
        None
    }
}

/// Checks a namespace.
pub fn validate_namespace(namespace: &str) -> (r: Result<(), CloudSearchError>)
    ensures
        match r {
            Ok(_) => namespace_fault(namespace@) is None,
            Err(e) => namespace_fault(namespace@) is Some && e@ == ErrorView::InvalidNamespace(
                namespace_fault(namespace@)->0,
            ),
        },
{
    if namespace.is_empty() {
        return Err(CloudSearchError::InvalidNamespace("namespace cannot be empty".to_owned()));
    }
    if namespace.as_bytes().len() > 64 {
        return Err(
            CloudSearchError::InvalidNamespace("namespace cannot exceed 64 characters".to_owned()),
        );
    }
    for c in it: namespace.chars()
        invariant
            it.seq() == namespace@,
            namespace@.len() > 0,
            encode_utf8(namespace@).len() <= 64,
            forall|i: int| 0 <= i < it.index() ==> is_namespace_char(#[trigger] namespace@[i]),
    {
        let fine: bool = ('a' <= c && c <= 'z') || ('A' <= c && c <= 'Z') || ('0' <= c && c <= '9')
            || c == '-' || c == '_';
        if !fine {
            proof {
                assert(!is_namespace_char(namespace@[it.index() as int]));
            }
            return Err(
                CloudSearchError::InvalidNamespace(
                    "namespace must be alphanumeric, hyphens, or underscores".to_owned(),
                ),
            );
        }
    }
    Ok(())
}

/// Checks an index name.
pub fn validate_index_name(name: &str) -> (r: Result<(), CloudSearchError>)
    ensures
        match r {
            Ok(_) => valid_index_name(name@),
            Err(e) => !valid_index_name(name@) && e@ == ErrorView::InvalidIndexName(name@),
        },
{
    if name.is_empty() || name.unicode_len() > 255 {
        return Err(CloudSearchError::InvalidIndexName(name.to_owned()));
    }
    for c in it: name.chars()
        invariant
            it.seq() == name@,
            0 < name@.len() <= 255,
            forall|i: int| 0 <= i < it.index() ==> is_index_char(#[trigger] name@[i]),
    {
        let fine: bool = ('a' <= c && c <= 'z') || ('0' <= c && c <= '9') || c == '-' || c == '_';
        if !fine {
            proof {
                assert(!is_index_char(name@[it.index() as int]));
            }
            return Err(CloudSearchError::InvalidIndexName(name.to_owned()));
        }
    }
    Ok(())
}

} // verus!
