//! Searching an index.
use vstd::prelude::*;

use crate::documents::documents_in_order;
use crate::documents::lemma_document_listing;
use crate::documents::listing_of;
use crate::documents::view_pairs;
use crate::index::IndexHandle;
use crate::index::IndexView;
use crate::mapping::reports;
use crate::mapping::request_fault;
use crate::matching::query_score;
use crate::matching::score_query;
use crate::positions::doc_id_hash;
use crate::positions::hash_doc_id;
use crate::positions::reader_views;
use crate::positions::PositionsReader;
use crate::positions::ReaderView;
use crate::search::answer_search;
use crate::search::is_response;
use crate::search::match_views;
use crate::search::query_of_request;
use crate::search::Match;
use crate::search::MatchView;
use crate::search::SearchResponse;
use crate::time::Timestamp;
use crate::types::CloudSearchError;
use crate::types::DocumentView;
use crate::types::QueryView;
use crate::types::SearchQuery;
use crate::types::SearchRequest;

verus! {

/// Whether a document has not expired and matches, and how well.
pub open spec fn match_of(
    view: IndexView,
    document: DocumentView,
    query: QueryView,
    at: Timestamp,
    readers: Seq<ReaderView>,
) -> Option<MatchView> {
    if view.expired(document.id, at) {
        None
    } else {
        match query_score(document.source, query, doc_id_hash(document.id), readers) {
            Some(score) => Some(MatchView { document, score }),
            None => None,
        }
    }
}

/// The matches among the first `k` documents.
pub open spec fn matches_among(
    view: IndexView,
    documents: Seq<DocumentView>,
    query: QueryView,
    at: Timestamp,
    readers: Seq<ReaderView>,
    k: int,
) -> Seq<MatchView>
    decreases k,
{
    if k <= 0 || k > documents.len() {
        Seq::empty()
    } else {
        let before = matches_among(view, documents, query, at, readers, k - 1);
        match match_of(view, documents[k - 1], query, at, readers) {
            Some(found) => before.push(found),
            None => before,
        }
    }
}

/// The matches in an index, in the order of the ids of the documents.
pub open spec fn matches_in(
    view: IndexView,
    query: QueryView,
    at: Timestamp,
    readers: Seq<ReaderView>,
) -> Seq<MatchView> {
    let documents = documents_in_order(view.documents);
    matches_among(view, documents, query, at, readers, documents.len() as int)
}

impl IndexHandle {
    /// Checks a search request against the mappings.
    pub fn validate_search_request(&self, request: &SearchRequest) -> (r: Result<
        (),
        CloudSearchError,
    >)
        ensures
            reports(r, request_fault(self@.metadata.mappings@, *request)),
    {
        crate::mapping::validate_search_request(&self.metadata.mappings, request)
    }

    /// The documents that a search finds at that time, in the order of their ids.
    pub fn find(
        &self,
        request: &SearchRequest,
        at: Timestamp,
        readers: &Vec<PositionsReader>,
    ) -> (r: Vec<Match>)
        ensures
            match_views(r@) == matches_in(
                self@,
                query_of_request(*request),
                at,
                reader_views(readers@),
            ),
    {
        let everything = SearchQuery::MatchAll;
        let query = match &request.query {
            Some(query) => query,
            None => &everything,
        };
        let ghost segments = reader_views(readers@);
        let ghost pairs = self.searchable_documents.pairs();
        let ghost documents = documents_in_order(self@.documents);
        let count: usize = self.searchable_documents.len();
        proof {
            lemma_document_listing(pairs);
            assert(listing_of(self@.documents) == view_pairs(pairs));
        }
        let mut r: Vec<Match> = Vec::new();
        let mut i: usize = 0;
        proof {
            assert(match_views(r@) =~= Seq::<MatchView>::empty());
        }
        while i < count
            invariant
                i <= count,
                count == pairs.len(),
                pairs == self.searchable_documents.pairs(),
                segments == reader_views(readers@),
                query@ == query_of_request(*request),
                documents.len() == pairs.len(),
                forall|j: int| 0 <= j < pairs.len() ==> documents[j] == (#[trigger] pairs[j]).1@,
                match_views(r@) == matches_among(
                    self@,
                    documents,
                    query@,
                    at,
                    segments,
                    i as int,
                ),
            decreases count - i,
        {
            let document = self.searchable_documents.value_at(i);
            proof {
                assert(documents[i as int] == pairs[i as int].1@);
            }
            if !self.is_expired(document.id.as_str(), at) {
                let doc_id: u64 = hash_doc_id(document.id.as_str());
                if let Some(score) = score_query(document, query, doc_id, readers) {
                    let ghost before = r@;
                    r.push(Match { document: document.copy(), score });
                    proof {
                        assert(match_views(r@) =~= match_views(before).push(r@.last()@));
                    }
                }
            }
            i += 1;
        }
        r
    }

    /// Answers a search that found those documents. Their ranks say which match better.
    pub fn search(
        &self,
        request: &SearchRequest,
        found: Vec<Match>,
        ranks: &Vec<u32>,
        readers: &Vec<PositionsReader>,
    ) -> (r: SearchResponse)
        requires
            ranks@.len() == found@.len(),
        ensures
            is_response(r, match_views(found@), ranks@, *request, reader_views(readers@)),
    {
        answer_search(request, found, ranks, readers, self.doc_values_reader.as_ref())
    }
}

} // verus!
