//! Ordering, paging and answering a search.
use vstd::prelude::*;

use crate::aggregations::aggregations_are_determined;
use crate::aggregations::answers_all;
use crate::aggregations::compute_aggregations;
use crate::aggregations::requests_of;
use crate::aggregations::same_results;
use crate::aggregations::AggregationResult;
use crate::doc_values::sources;
use crate::doc_values_reader::DocValuesReader;
use crate::doubles::double_total_rank;
use crate::doubles::total_rank_of_double;
use crate::highlight::extract_highlight;
use crate::highlight::highlights_are_determined;
use crate::highlight::is_highlight;
use crate::highlight::same_highlight;
use crate::highlight::query_terms;
use crate::json::Json;
use crate::json::JsonView;
use crate::map::StringMap;
use crate::mapping::request_fault;
use crate::mapping::MAX_SEARCH_OFFSET;
use crate::mapping::MAX_SEARCH_SIZE;
use crate::matching::comparable;
use crate::matching::comparable_value;
use crate::matching::instant_rank;
use crate::matching::ComparableValue;
use crate::matching::ComparableView;
use crate::matching::Score;
use crate::matching::ScoreView;
use crate::positions::doc_id_hash;
use crate::positions::hash_doc_id;
use crate::positions::reader_views;
use crate::positions::PositionsReader;
use crate::positions::ReaderView;
use crate::sort::arranged;
use crate::sort::is_arrangement;
use crate::sort::lemma_one_arrangement;
use crate::sort::sort;
use crate::sort::strictly_ordered;
use crate::sort::Sortable;
use crate::text::text_lt;
use crate::text::text_lt_asymmetric;
use crate::text::text_lt_irreflexive;
use crate::text::text_lt_total;
use crate::text::text_lt_transitive;
use crate::text::text_order;
use crate::text::TextOrder;
use crate::types::DocumentView;
use crate::types::FieldMapping;
use crate::types::IndexDocument;
use crate::types::QueryView;
use crate::types::SearchQuery;
use crate::types::SearchRequest;
use crate::types::SortOrder;
use crate::types::SortSpec;

verus! {

/// A document that a query found, and how well it matches.
#[derive(Debug)]
pub struct Match {
    pub document: IndexDocument,
    pub score: Score,
}

/// What a [`Match`] stands for.
pub ghost struct MatchView {
    pub document: DocumentView,
    pub score: ScoreView,
}

impl View for Match {
    type V = MatchView;

    open spec fn view(&self) -> MatchView {
        MatchView { document: self.document@, score: self.score@ }
    }
}

/// The views of a list of matches.
pub open spec fn match_views(matches: Seq<Match>) -> Seq<MatchView> {
    Seq::new(matches.len(), |i: int| matches[i]@)
}

/// A hit of a search.
#[derive(Debug)]
pub struct SearchHit {
    pub id: String,
    pub source: Json,
    pub score: Option<Score>,
    pub highlight: Option<StringMap<Vec<String>>>,
}

/// How many hits a search has, and those on its page.
#[derive(Debug)]
pub struct HitsMetadata {
    pub total: usize,
    pub hits: Vec<SearchHit>,
}

/// The answer to a search.
#[derive(Debug)]
pub struct SearchResponse {
    pub hits: HitsMetadata,
    pub aggregations: StringMap<AggregationResult>,
}

/// What the document's value of a field compares by, if it has one that does.
pub open spec fn sort_value(source: JsonView, field: Seq<char>) -> Option<ComparableView> {
    match source.member(field) {
        Some(v) => comparable(v),
        None => None,
    }
}

/// Whether one value is less than another of the same kind. Values of different kinds are not.
pub open spec fn value_less(a: ComparableView, b: ComparableView) -> bool {
    match (a, b) {
        (ComparableView::Number(x), ComparableView::Number(y)) => double_total_rank(x)
            < double_total_rank(y),
        (ComparableView::Timestamp(x), ComparableView::Timestamp(y)) => instant_rank(x)
            < instant_rank(y),
        (ComparableView::Text(x), ComparableView::Text(y)) => text_lt(x, y),
        (ComparableView::Boolean(x), ComparableView::Boolean(y)) => !x && y,
        _ => false,
    }
}

/// By what matches are ordered: the value of a field in either direction, or their rank.
pub ghost struct SortKey {
    pub value: Option<ComparableView>,
    pub descending: bool,
    pub rank: u32,
    pub id: Seq<char>,
}

/// Whether a match has to stand before another: the better rank first, then by value, one
/// without a value last, and by their ids where nothing else tells them apart.
pub open spec fn key_before(a: SortKey, b: SortKey) -> bool {
    if a.rank != b.rank {
        a.rank > b.rank
    } else {
        match (a.value, b.value) {
            (Some(x), Some(y)) => {
                let less = if a.descending {
                    value_less(y, x)
                } else {
                    value_less(x, y)
                };
                let more = if a.descending {
                    value_less(x, y)
                } else {
                    value_less(y, x)
                };
                less || (!more && text_lt(a.id, b.id))
            },
            (Some(_), None) => true,
            (None, Some(_)) => false,
            (None, None) => text_lt(a.id, b.id),
        }
    }
}

/// The sort key of a match: the value of the field if a sort is asked for, else its rank.
pub open spec fn sort_key(m: MatchView, sort: Option<SortSpec>, rank: u32) -> SortKey {
    match sort {
        Some(sort) => SortKey {
            value: sort_value(m.document.source, sort.field@),
            descending: sort.order == SortOrder::Desc,
            rank: 0,
            id: m.document.id,
        },
        None => SortKey { value: None, descending: false, rank, id: m.document.id },
    }
}

/// The sort keys of a list of matches.
pub open spec fn sort_keys(
    matches: Seq<MatchView>,
    sort: Option<SortSpec>,
    ranks: Seq<u32>,
) -> Seq<SortKey> {
    Seq::new(matches.len(), |i: int| sort_key(matches[i], sort, ranks[i]))
}

/// Whether two values are of the same kind.
pub open spec fn same_kind(a: ComparableView, b: ComparableView) -> bool {
    match (a, b) {
        (ComparableView::Number(_), ComparableView::Number(_)) => true,
        (ComparableView::Timestamp(_), ComparableView::Timestamp(_)) => true,
        (ComparableView::Text(_), ComparableView::Text(_)) => true,
        (ComparableView::Boolean(_), ComparableView::Boolean(_)) => true,
        _ => false,
    }
}

/// Whether the keys can be put in order: no id occurs twice, and all values are of one kind, as
/// the values of a mapped field are.
pub open spec fn can_be_ordered(keys: Seq<SortKey>) -> bool {
    &&& forall|i: int, j: int|
        0 <= i < j < keys.len() ==> (#[trigger] keys[i]).id != (#[trigger] keys[j]).id
    &&& forall|i: int, j: int|
        0 <= i < keys.len() && 0 <= j < keys.len() ==> (#[trigger] keys[i]).descending == (
        #[trigger] keys[j]).descending && (keys[i].value is Some && keys[j].value is Some
            ==> same_kind(keys[i].value->0, keys[j].value->0))
}

/// Whether `order` lists all keys, and in their order if they can be put in order.
pub open spec fn is_order_of(order: Seq<int>, keys: Seq<SortKey>) -> bool {
    &&& is_arrangement(order, keys.len() as int)
    &&& can_be_ordered(keys) ==> forall|i: int, j: int|
        0 <= i < j < order.len() ==> key_before(keys[#[trigger] order[i]], keys[#[trigger] order[j]])
}

/// How many hits are left out before the page.
pub open spec fn page_start(request: SearchRequest) -> int {
    let from = match request.from {
        Some(from) => from as int,
        None => 0,
    };
    if from <= MAX_SEARCH_OFFSET {
        from
    } else {
        MAX_SEARCH_OFFSET as int
    }
}

/// How many hits can stand on the page.
pub open spec fn page_size(request: SearchRequest, total: int) -> int {
    let size = match request.size {
        Some(size) => size as int,
        None => total,
    };
    if size <= MAX_SEARCH_SIZE {
        size
    } else {
        MAX_SEARCH_SIZE as int
    }
}

/// How many hits stand on the page.
pub open spec fn page_length(request: SearchRequest, total: int) -> int {
    if page_start(request) >= total {
        0
    } else if total - page_start(request) <= page_size(request, total) {
        total - page_start(request)
    } else {
        page_size(request, total)
    }
}

/// Whether `hit` is the hit of a match.
pub open spec fn is_hit_of(
    hit: SearchHit,
    m: MatchView,
    readers: Seq<ReaderView>,
    terms: Seq<Seq<char>>,
) -> bool {
    &&& hit.id@ == m.document.id
    &&& hit.source@ == m.document.source
    &&& hit.score is Some && hit.score->0@ == m.score
    &&& is_highlight(
        hit.highlight,
        m.document.source,
        readers,
        terms,
        doc_id_hash(m.document.id),
    )
}

/// The query of a request, or the one that finds everything.
pub open spec fn query_of_request(request: SearchRequest) -> QueryView {
    match request.query {
        Some(query) => query@,
        None => QueryView::MatchAll,
    }
}

/// Whether `hits` is the page of the matches in that order.
pub open spec fn is_page(
    hits: Seq<SearchHit>,
    matches: Seq<MatchView>,
    order: Seq<int>,
    request: SearchRequest,
    readers: Seq<ReaderView>,
) -> bool {
    &&& hits.len() == page_length(request, matches.len() as int)
    &&& forall|i: int|
        0 <= i < hits.len() ==> is_hit_of(
            #[trigger] hits[i],
            matches[order[page_start(request) + i]],
            readers,
            query_terms(query_of_request(request)),
        )
}

/// The sources of the matches.
pub open spec fn match_sources(matches: Seq<MatchView>) -> Seq<JsonView> {
    Seq::new(matches.len(), |i: int| matches[i].document.source)
}

/// Whether `response` answers a request for which those matches were found: it counts all of
/// them, holds the page of them in their order, and aggregates over all of them.
pub open spec fn is_response(
    response: SearchResponse,
    matches: Seq<MatchView>,
    ranks: Seq<u32>,
    request: SearchRequest,
    readers: Seq<ReaderView>,
) -> bool {
    &&& response.hits.total == matches.len()
    &&& answers_all(
        response.aggregations@,
        requests_of(request.aggs),
        match_sources(matches),
    )
    &&& exists|order: Seq<int>| #[trigger]
        is_order_of(order, sort_keys(matches, request.sort, ranks)) && is_page(
            response.hits.hits@,
            matches,
            order,
            request,
            readers,
        )
}

/// A match with its sort key.
struct Candidate {
    found: Match,
    value: Option<ComparableValue>,
    descending: bool,
    rank: u32,
}

impl Candidate {
    spec fn key(self) -> SortKey {
        SortKey {
            value: match self.value {
                Some(v) => Some(v@),
                None => None,
            },
            descending: self.descending,
            rank: self.rank,
            id: self.found.document.id@,
        }
    }
}

fn is_value_less(a: &ComparableValue, b: &ComparableValue) -> (r: bool)
    ensures
        r == value_less(a@, b@),
{
    match (a, b) {
        (ComparableValue::Number(x), ComparableValue::Number(y)) => total_rank_of_double(*x)
            < total_rank_of_double(*y),
        (ComparableValue::Timestamp(x), ComparableValue::Timestamp(y)) => !y.not_after(x),
        (ComparableValue::Text(x), ComparableValue::Text(y)) => match text_order(
            x.as_str(),
            y.as_str(),
        ) {
            TextOrder::Before => true,
            _ => false,
        },
        (ComparableValue::Boolean(x), ComparableValue::Boolean(y)) => !*x && *y,
        _ => false,
    }
}

impl Sortable for Candidate {
    closed spec fn before(self, other: Candidate) -> bool {
        key_before(self.key(), other.key())
    }

    fn goes_before(&self, other: &Candidate) -> (r: bool) {
        if self.rank != other.rank {
            return self.rank > other.rank;
        }
        match (&self.value, &other.value) {
            (Some(x), Some(y)) => {
                let (less, more): (bool, bool) = if self.descending {
                    (is_value_less(y, x), is_value_less(x, y))
                } else {
                    (is_value_less(x, y), is_value_less(y, x))
                };
                if less {
                    return true;
                }
                if more {
                    return false;
                }
            },
            (Some(_), None) => {
                return true;
            },
            (None, Some(_)) => {
                return false;
            },
            (None, None) => {},
        }
        match text_order(self.found.document.id.as_str(), other.found.document.id.as_str()) {
            TextOrder::Before => true,
            _ => false,
        }
    }
}

proof fn lemma_value_less(a: ComparableView, b: ComparableView, c: ComparableView)
    requires
        same_kind(a, b),
        same_kind(b, c),
    ensures
        value_less(a, b) && value_less(b, c) ==> value_less(a, c),
        value_less(a, b) ==> !value_less(b, a),
        !value_less(a, b) && !value_less(b, a) && value_less(b, c) ==> value_less(a, c),
        !value_less(a, b) && !value_less(b, a) && value_less(c, b) ==> value_less(c, a),
        !value_less(b, c) && !value_less(c, b) && value_less(a, b) ==> value_less(a, c),
        !value_less(b, c) && !value_less(c, b) && value_less(b, a) ==> value_less(c, a),
        !value_less(a, b) && !value_less(b, a) && !value_less(b, c) && !value_less(c, b)
            ==> !value_less(a, c) && !value_less(c, a),
        value_less(c, b) && value_less(b, a) ==> value_less(c, a),
{
    match (a, b, c) {
        (ComparableView::Text(x), ComparableView::Text(y), ComparableView::Text(z)) => {
            text_lt_irreflexive(x);
            text_lt_total(x, y);
            text_lt_total(y, z);
            if text_lt(x, y) {
                text_lt_asymmetric(x, y);
                if text_lt(y, z) {
                    text_lt_transitive(x, y, z);
                }
            }
            if text_lt(z, y) && text_lt(y, x) {
                text_lt_transitive(z, y, x);
            }
        },
        _ => {},
    }
}

proof fn lemma_key_before_total(a: SortKey, b: SortKey)
    requires
        a.id != b.id,
        a.descending == b.descending,
        a.value is Some && b.value is Some ==> same_kind(a.value->0, b.value->0),
    ensures
        key_before(a, b) <==> !key_before(b, a),
{
    text_lt_total(a.id, b.id);
    if text_lt(a.id, b.id) {
        text_lt_asymmetric(a.id, b.id);
    } else {
        text_lt_asymmetric(b.id, a.id);
    }
    if a.value is Some && b.value is Some {
        lemma_value_less(a.value->0, b.value->0, a.value->0);
        lemma_value_less(b.value->0, a.value->0, b.value->0);
    }
}

proof fn lemma_key_before_transitive(a: SortKey, b: SortKey, c: SortKey)
    requires
        key_before(a, b),
        key_before(b, c),
        a.descending == b.descending,
        b.descending == c.descending,
        a.value is Some && b.value is Some ==> same_kind(a.value->0, b.value->0),
        b.value is Some && c.value is Some ==> same_kind(b.value->0, c.value->0),
        a.value is Some && c.value is Some ==> same_kind(a.value->0, c.value->0),
    ensures
        key_before(a, c),
{
    if text_lt(a.id, b.id) && text_lt(b.id, c.id) {
        text_lt_transitive(a.id, b.id, c.id);
    }
    if a.value is Some && b.value is Some && c.value is Some {
        lemma_value_less(a.value->0, b.value->0, c.value->0);
        lemma_value_less(c.value->0, b.value->0, a.value->0);
    }
}

/// Puts matches in order.
fn order_matches(found: Vec<Match>, sort_spec: &Option<SortSpec>, ranks: &Vec<u32>) -> (r: Vec<
    Candidate,
>)
    requires
        ranks@.len() == found@.len(),
    ensures
        exists|order: Seq<int>| #[trigger]
            is_order_of(order, sort_keys(match_views(found@), *sort_spec, ranks@))
                && r@.len() == found@.len() && forall|i: int|
                0 <= i < r@.len() ==> (#[trigger] r@[i]).found@ == match_views(found@)[order[i]],
{
    let ghost matches = match_views(found@);
    let ghost keys = sort_keys(matches, *sort_spec, ranks@);
    let mut rest = found;
    let mut list: Vec<Candidate> = Vec::new();
    let ghost total = rest@.len() as int;
    // The matches are taken from the end, so the list is in the opposite order.
    while rest.len() > 0
        invariant
            total == matches.len(),
            matches == match_views(found@),
            keys == sort_keys(matches, *sort_spec, ranks@),
            ranks@.len() == total,
            rest@.len() + list@.len() == total,
            rest@ == found@.take(rest@.len() as int),
            forall|i: int|
                0 <= i < list@.len() ==> (#[trigger] list@[i]).found@ == matches[total - 1 - i]
                    && list@[i].key() == keys[total - 1 - i],
        decreases rest@.len(),
    {
        let at: usize = rest.len() - 1;
        let Some(one) = rest.pop() else {
            return list;
        };
        proof {
            assert(one@ == matches[at as int]);
            assert(rest@ =~= found@.take(at as int));
        }
        let candidate = match sort_spec {
            Some(spec) => {
                let value = match one.document.source.get(spec.field.as_str()) {
                    Some(v) => comparable_value(v),
                    None => None,
                };
                let descending: bool = match spec.order {
                    SortOrder::Asc => false,
                    SortOrder::Desc => true,
                };
                Candidate { found: one, value, descending, rank: 0 }
            },
            None => Candidate { found: one, value: None, descending: false, rank: ranks[at] },
        };
        proof {
            assert(candidate.key() == keys[at as int]);
        }
        list.push(candidate);
    }
    let ghost unsorted = list@;
    proof {
        if can_be_ordered(keys) {
            assert(strictly_ordered(unsorted)) by {
                assert forall|i: int, j: int|
                    0 <= i < unsorted.len() && 0 <= j < unsorted.len() && i != j implies ((
                #[trigger] unsorted[i]).before(#[trigger] unsorted[j]) <==> !unsorted[j].before(
                    unsorted[i],
                )) by {
                    let a = keys[total - 1 - i];
                    let b = keys[total - 1 - j];
                    if i < j {
                        assert(b.id != a.id);
                    } else {
                        assert(a.id != b.id);
                    }
                    lemma_key_before_total(a, b);
                }
                assert forall|i: int, j: int, k: int|
                    0 <= i < unsorted.len() && 0 <= j < unsorted.len() && 0 <= k < unsorted.len()
                        && (#[trigger] unsorted[i]).before(#[trigger] unsorted[j])
                        && unsorted[j].before(#[trigger] unsorted[k]) implies unsorted[i].before(
                    unsorted[k],
                ) by {
                    let a = keys[total - 1 - i];
                    let b = keys[total - 1 - j];
                    let c = keys[total - 1 - k];
                    lemma_key_before_transitive(a, b, c);
                }
            }
        }
    }
    let sorted = sort(list);
    let ghost places = choose|places: Seq<int>|
        #[trigger] is_arrangement(places, unsorted.len() as int) && sorted@ == arranged(
            unsorted,
            places,
        );
    let ghost order = Seq::new(places.len(), |i: int| total - 1 - places[i]);
    proof {
        assert(is_order_of(order, keys)) by {
            assert(is_arrangement(order, total)) by {
                assert forall|i: int, j: int| 0 <= i < j < total implies #[trigger] order[i]
                    != #[trigger] order[j] by {
                    assert(places[i] != places[j]);
                }
            }
            if can_be_ordered(keys) {
                assert forall|i: int, j: int| 0 <= i < j < order.len() implies key_before(
                    keys[#[trigger] order[i]],
                    keys[#[trigger] order[j]],
                ) by {
                    assert(sorted@[i].before(sorted@[j]));
                    assert(sorted@[i] == unsorted[places[i]]);
                    assert(sorted@[j] == unsorted[places[j]]);
                }
            }
        }
        assert forall|i: int| 0 <= i < sorted@.len() implies (#[trigger] sorted@[i]).found@
            == matches[order[i]] by {
            assert(sorted@[i] == unsorted[places[i]]);
        }
    }
    sorted
}

impl Score {
    /// A copy of the score.
    pub fn copy(&self) -> (r: Score)
        ensures
            r@ == self@,
        decreases self,
    {
        match self {
            Score::One => Score::One,
            Score::Ratio { matched, total } => Score::Ratio { matched: *matched, total: *total },
            Score::Gap(g) => Score::Gap(*g),
            Score::Mean(parts) => {
                let mut copies: Vec<Score> = Vec::new();
                let mut i: usize = 0;
                while i < parts.len()
                    invariant
                        i <= parts@.len(),
                        copies@.len() == i,
                        *self == Score::Mean(*parts),
                        forall|j: int| 0 <= j < i ==> (#[trigger] copies@[j])@ == parts@[j]@,
                    decreases parts@.len() - i,
                {
                    proof {
                        assert(decreases_to!(self => self->Mean_0));
                        assert(decreases_to!(parts => parts@));
                        assert(decreases_to!(parts@ => parts@[i as int]));
                        assert(decreases_to!(self => parts@[i as int]));
                    }
                    copies.push(parts[i].copy());
                    i += 1;
                }
                let r = Score::Mean(copies);
                proof {
                    assert(r@->Mean_0 =~= self@->Mean_0);
                }
                r
            },
        }
    }
}

/// The hit of a match.
fn make_hit(found: &Match, query: &SearchQuery, readers: &Vec<PositionsReader>) -> (r: SearchHit)
    ensures
        is_hit_of(r, found@, reader_views(readers@), query_terms(query@)),
{
    let doc_id: u64 = hash_doc_id(found.document.id.as_str());
    SearchHit {
        id: found.document.id.clone(),
        source: found.document.source.copy(),
        score: Some(found.score.copy()),
        highlight: extract_highlight(&found.document, doc_id, readers, query),
    }
}

/// Answers a search for which those matches were found. Their ranks say which match better:
/// the greater rank the better match.
pub fn answer_search(
    request: &SearchRequest,
    found: Vec<Match>,
    ranks: &Vec<u32>,
    readers: &Vec<PositionsReader>,
    doc_values: Option<&DocValuesReader>,
) -> (r: SearchResponse)
    requires
        ranks@.len() == found@.len(),
    ensures
        is_response(r, match_views(found@), ranks@, *request, reader_views(readers@)),
{
    let ghost matches = match_views(found@);
    let ghost segments = reader_views(readers@);
    let total: usize = found.len();
    let mut documents: Vec<IndexDocument> = Vec::new();
    let mut k: usize = 0;
    while k < total
        invariant
            k <= total,
            total == found@.len(),
            documents@.len() == k,
            forall|i: int| 0 <= i < k ==> (#[trigger] documents@[i])@ == found@[i].document@,
        decreases total - k,
    {
        documents.push(found[k].document.copy());
        k += 1;
    }
    proof {
        assert(sources(documents@) =~= match_sources(matches)) by {
            assert forall|i: int| 0 <= i < total implies sources(documents@)[i] == match_sources(
                matches,
            )[i] by {
                assert(documents@[i]@ == found@[i].document@);
            }
        }
    }
    let aggregations = compute_aggregations(&documents, &request.aggs, doc_values);
    let ordered = order_matches(found, &request.sort, ranks);
    let ghost order = choose|order: Seq<int>|
        #[trigger] is_order_of(order, sort_keys(matches, request.sort, ranks@)) && ordered@.len()
            == matches.len() && forall|i: int|
            0 <= i < ordered@.len() ==> (#[trigger] ordered@[i]).found@ == matches[order[i]];
    let from: usize = match request.from {
        Some(from) => if from <= MAX_SEARCH_OFFSET {
            from
        } else {
            MAX_SEARCH_OFFSET
        },
        None => 0,
    };
    let wanted: usize = match request.size {
        Some(size) => size,
        None => total,
    };
    let size: usize = if wanted <= MAX_SEARCH_SIZE {
        wanted
    } else {
        MAX_SEARCH_SIZE
    };
    let length: usize = if from >= total {
        0
    } else if total - from <= size {
        total - from
    } else {
        size
    };
    let everything = SearchQuery::MatchAll;
    let query = match &request.query {
        Some(query) => query,
        None => &everything,
    };
    let mut hits: Vec<SearchHit> = Vec::new();
    let mut i: usize = 0;
    while i < length
        invariant
            i <= length,
            from == page_start(*request),
            length == page_length(*request, total as int),
            length > 0 ==> from + length <= total,
            total == matches.len(),
            ordered@.len() == total,
            matches == match_views(found@),
            segments == reader_views(readers@),
            query@ == query_of_request(*request),
            is_order_of(order, sort_keys(matches, request.sort, ranks@)),
            forall|j: int|
                0 <= j < ordered@.len() ==> (#[trigger] ordered@[j]).found@ == matches[order[j]],
            hits@.len() == i,
            forall|j: int|
                0 <= j < i ==> is_hit_of(
                    #[trigger] hits@[j],
                    matches[order[from + j]],
                    segments,
                    query_terms(query@),
                ),
        decreases length - i,
    {
        proof {
            assert(ordered@[from + i].found@ == matches[order[from + i]]);
        }
        hits.push(make_hit(&ordered[from + i].found, query, readers));
        i += 1;
    }
    proof {
        assert(is_page(hits@, matches, order, *request, segments));
    }
    SearchResponse { hits: HitsMetadata { total, hits }, aggregations }
}

/// A page stays within the hits, within its size and within the limit on sizes; a request without
/// a size gets all hits up to that limit.
pub proof fn pages_stay_within_limits(request: SearchRequest, total: int)
    requires
        0 <= total,
    ensures
        0 <= page_length(request, total) <= MAX_SEARCH_SIZE,
        page_length(request, total) > 0 ==> page_start(request) + page_length(request, total)
            <= total,
        request.size matches Some(size) ==> page_length(request, total) <= size,
        request.size is None && request.from is None && total <= MAX_SEARCH_SIZE ==> page_length(
            request,
            total,
        ) == total,
{
}

/// Of pages of one size that follow each other, as far as the limits reach, each takes up where
/// the one before it ends, and none is short but the last.
pub proof fn pages_follow_each_other(first: SearchRequest, next: SearchRequest, total: int)
    requires
        first.size is Some,
        first.size->0 <= MAX_SEARCH_SIZE,
        next.size == first.size,
        next.from is Some,
        next.from->0 == page_start(first) + first.size->0,
        next.from->0 <= MAX_SEARCH_OFFSET,
        0 <= total,
    ensures
        page_start(next) == page_start(first) + first.size->0,
        page_length(next, total) > 0 ==> page_length(first, total) == first.size->0,
{
}

/// A search that is accepted gets the page that it asks for: the limits cut nothing off, except
/// where it asks for no size.
pub proof fn accepted_searches_get_their_page(
    mappings: Map<Seq<char>, FieldMapping>,
    request: SearchRequest,
    total: int,
)
    requires
        request_fault(mappings, request) is None,
    ensures
        page_start(request) == match request.from {
            Some(from) => from as int,
            None => 0,
        },
        request.size matches Some(size) ==> page_size(request, total) == size,
{
}

/// A page is a part of the whole answer to the same request: where the matches can be put in
/// order, the hits on it are those that the answer without a page has there, as far as that goes.
/// Both count the same and show the same aggregations.
pub proof fn page_is_part_of_whole_answer(
    page: SearchResponse,
    whole: SearchResponse,
    matches: Seq<MatchView>,
    ranks: Seq<u32>,
    request: SearchRequest,
    unpaged: SearchRequest,
    readers: Seq<ReaderView>,
)
    requires
        is_response(page, matches, ranks, request, readers),
        is_response(whole, matches, ranks, unpaged, readers),
        query_of_request(unpaged) == query_of_request(request),
        unpaged.sort == request.sort,
        requests_of(unpaged.aggs) == requests_of(request.aggs),
        unpaged.from is None,
        unpaged.size is None,
        can_be_ordered(sort_keys(matches, request.sort, ranks)),
    ensures
        page.hits.total == whole.hits.total,
        same_results(page.aggregations@, whole.aggregations@),
        page.hits.hits@.len() == page_length(request, whole.hits.total as int),
        matches.len() <= MAX_SEARCH_SIZE ==> whole.hits.hits@.len() == matches.len(),
        forall|i: int|
            0 <= i < page.hits.hits@.len() && page_start(request) + i < whole.hits.hits@.len()
                ==> same_hit(
                #[trigger] page.hits.hits@[i],
                whole.hits.hits@[page_start(request) + i],
            ),
{
    let keys = sort_keys(matches, request.sort, ranks);
    let n = keys.len() as int;
    let first = choose|order: Seq<int>| #[trigger]
        is_order_of(order, keys) && is_page(page.hits.hits@, matches, order, request, readers);
    let second = choose|order: Seq<int>| #[trigger]
        is_order_of(order, keys) && is_page(whole.hits.hits@, matches, order, unpaged, readers);
    let before = |x: int, y: int| x != y && key_before(keys[x], keys[y]);
    assert forall|x: int, y: int|
        0 <= x < n && 0 <= y < n && #[trigger] before(x, y) implies !before(y, x) by {
        if x < y {
            assert(keys[x].id != keys[y].id);
        } else {
            assert(keys[y].id != keys[x].id);
        }
        lemma_key_before_total(keys[x], keys[y]);
    }
    lemma_one_arrangement(first, second, n, before);
    aggregations_are_determined(
        page.aggregations@,
        whole.aggregations@,
        requests_of(request.aggs),
        match_sources(matches),
    );
    assert(page_start(unpaged) == 0);
    assert forall|i: int|
        0 <= i < page.hits.hits@.len() && page_start(request) + i
            < whole.hits.hits@.len() implies same_hit(
        #[trigger] page.hits.hits@[i],
        whole.hits.hits@[page_start(request) + i],
    ) by {
        let p = page_start(request) + i;
        let a = page.hits.hits@[i];
        let b = whole.hits.hits@[p];
        let m = matches[first[p]];
        let terms = query_terms(query_of_request(request));
        assert(is_hit_of(a, m, readers, terms));
        assert(is_hit_of(b, matches[second[page_start(unpaged) + p]], readers, terms));
        highlights_are_determined(
            a.highlight,
            b.highlight,
            m.document.source,
            readers,
            terms,
            doc_id_hash(m.document.id),
        );
    }
}

/// Whether two hits show the same document with the same score and highlight.
pub open spec fn same_hit(a: SearchHit, b: SearchHit) -> bool {
    &&& a.id@ == b.id@
    &&& a.source@ == b.source@
    &&& a.score is Some && b.score is Some && a.score->0@ == b.score->0@
    &&& same_highlight(a.highlight, b.highlight)
}

} // verus!
