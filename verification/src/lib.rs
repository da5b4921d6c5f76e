//! Logic of a document search service: query parsing, matching, aggregation,
//! columnar doc values and the life cycle of an index.
use vstd::prelude::*;

pub mod aggregations;
pub mod bulk;
pub mod catalog;
pub mod compat;
pub mod config;
pub mod distance;
pub mod doc_values;
pub mod doc_values_reader;
pub mod doubles;
pub mod errors;
pub mod grammar;
pub mod guarantees;
pub mod highlight;
pub mod documents;
pub mod index;
pub mod json;
pub mod map;
pub mod mapping;
pub mod matching;
pub mod metrics;
pub mod names;
pub mod needed;
pub mod numbers;
pub mod positions;
pub mod query_string;
pub mod requests;
pub mod search;
pub mod semantics;
pub mod sort;
pub mod text;
pub mod time;
pub mod types;

verus! {

} // verus!
