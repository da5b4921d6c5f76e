//! Which hits an answer holds, and in which order.
use vstd::prelude::*;

use crate::aggregations::answers;
use crate::aggregations::requests_of;
use crate::aggregations::AggregationResult;
use crate::guarantees::matching::date_named;
use crate::guarantees::matching::exact_integer;
use crate::guarantees::matching::exact_integers_compare_as_doubles;
use crate::guarantees::matching::is_earlier;
use crate::guarantees::matching::is_lesser_double;
use crate::guarantees::texts::stands_before;
use crate::guarantees::texts::texts_are_ordered_as_in_a_dictionary;
use crate::highlight::is_highlight;
use crate::highlight::query_terms;
use crate::json::JsonView;
use crate::positions::doc_id_hash;
use crate::positions::ReaderView;
use crate::search::can_be_ordered;
use crate::search::is_order_of;
use crate::search::is_page;
use crate::search::is_response;
use crate::search::key_before;
use crate::search::match_sources;
use crate::search::page_is_part_of_whole_answer;
use crate::search::page_start;
use crate::search::query_of_request;
use crate::search::same_kind;
use crate::search::sort_keys;
use crate::search::MatchView;
use crate::search::SearchHit;
use crate::search::SearchResponse;
use crate::sort::lemma_arrangement_covers;
use crate::types::QueryView;
use crate::types::SearchRequest;
use crate::types::SortOrder;
use crate::types::SortSpec;

verus! {

/// Whether no two matches are of documents with the same id.
pub open spec fn have_their_own_ids(matches: Seq<MatchView>) -> bool {
    forall|i: int, j: int|
        0 <= i < j < matches.len() ==> (#[trigger] matches[i]).document.id != (
        #[trigger] matches[j]).document.id
}

/// Whether a document has nothing in the field by which it could be sorted.
pub open spec fn has_no_value(source: JsonView, field: Seq<char>) -> bool {
    match source.member(field) {
        None => true,
        Some(JsonView::Null) => true,
        Some(JsonView::Array(_)) => true,
        Some(JsonView::Object(_)) => true,
        Some(_) => false,
    }
}

/// Whether a hit shows that match.
pub open spec fn shows(hit: SearchHit, m: MatchView) -> bool {
    &&& hit.id@ == m.document.id
    &&& hit.source@ == m.document.source
    &&& hit.score is Some
    &&& hit.score->0@ == m.score
}

/// The order of the matches in an answer.
proof fn lemma_order(
    response: SearchResponse,
    matches: Seq<MatchView>,
    ranks: Seq<u32>,
    request: SearchRequest,
    readers: Seq<ReaderView>,
) -> (order: Seq<int>)
    requires
        is_response(response, matches, ranks, request, readers),
    ensures
        is_order_of(order, sort_keys(matches, request.sort, ranks)),
        is_page(response.hits.hits@, matches, order, request, readers),
        forall|i: int|
            0 <= i < response.hits.hits@.len() ==> 0 <= order[page_start(request) + i]
                < matches.len() && shows(
                #[trigger] response.hits.hits@[i],
                matches[order[page_start(request) + i]],
            ),
{
    let order = choose|order: Seq<int>| #[trigger]
        is_order_of(order, sort_keys(matches, request.sort, ranks)) && is_page(
            response.hits.hits@,
            matches,
            order,
            request,
            readers,
        );
    assert forall|i: int| 0 <= i < response.hits.hits@.len() implies 0 <= order[page_start(request)
        + i] < matches.len() && shows(
        #[trigger] response.hits.hits@[i],
        matches[order[page_start(request) + i]],
    ) by {}
    order
}

/// The position of the match that a hit shows, among the matches in their order.
proof fn lemma_places(
    response: SearchResponse,
    matches: Seq<MatchView>,
    ranks: Seq<u32>,
    request: SearchRequest,
    readers: Seq<ReaderView>,
    i: int,
    j: int,
) -> (r: (int, int))
    requires
        is_response(response, matches, ranks, request, readers),
        0 <= i < j < response.hits.hits@.len(),
    ensures
        0 <= r.0 < matches.len(),
        0 <= r.1 < matches.len(),
        r.0 != r.1,
        shows(response.hits.hits@[i], matches[r.0]),
        shows(response.hits.hits@[j], matches[r.1]),
        ({
            let keys = sort_keys(matches, request.sort, ranks);
            can_be_ordered(keys) ==> key_before(keys[r.0], keys[r.1])
        }),
{
    let order = lemma_order(response, matches, ranks, request, readers);
    let start = page_start(request);
    assert(shows(response.hits.hits@[i], matches[order[start + i]]));
    assert(shows(response.hits.hits@[j], matches[order[start + j]]));
    assert(order[start + i] != order[start + j]);
    (order[start + i], order[start + j])
}

/// An answer counts all matches and shows each at most once. Without limits it shows them all, and
/// with them as many as are left of the size asked for behind those left out, but never more than
/// ten thousand.
pub proof fn answers_show_the_matches(
    response: SearchResponse,
    matches: Seq<MatchView>,
    ranks: Seq<u32>,
    request: SearchRequest,
    readers: Seq<ReaderView>,
)
    requires
        is_response(response, matches, ranks, request, readers),
    ensures
        response.hits.total == matches.len(),
        ({
            let hits = response.hits.hits@;
            let from = match request.from {
                Some(from) => from as int,
                None => 0,
            };
            let size = match request.size {
                Some(size) => size as int,
                None => 10_000,
            };
            let left = if matches.len() >= from {
                matches.len() - from
            } else {
                0
            };
            &&& hits.len() <= 10_000
            &&& from <= 1_000_000 && size <= 10_000 ==> hits.len() == (if left <= size {
                left
            } else {
                size
            })
            &&& forall|i: int|
                0 <= i < hits.len() ==> exists|p: int|
                    0 <= p < matches.len() && shows(#[trigger] hits[i], #[trigger] matches[p])
            &&& have_their_own_ids(matches) ==> forall|i: int, j: int|
                0 <= i < j < hits.len() ==> (#[trigger] hits[i]).id@ != (#[trigger] hits[j]).id@
            &&& from == 0 && hits.len() == matches.len() ==> forall|p: int|
                0 <= p < matches.len() ==> exists|i: int|
                    0 <= i < hits.len() && shows(#[trigger] hits[i], #[trigger] matches[p])
        }),
{
    let hits = response.hits.hits@;
    let order = lemma_order(response, matches, ranks, request, readers);
    let start = page_start(request);
    assert forall|i: int| 0 <= i < hits.len() implies exists|p: int|
        0 <= p < matches.len() && shows(#[trigger] hits[i], #[trigger] matches[p]) by {
        assert(shows(hits[i], matches[order[start + i]]));
    }
    if have_their_own_ids(matches) {
        assert forall|i: int, j: int| 0 <= i < j < hits.len() implies (#[trigger] hits[i]).id@ != (
        #[trigger] hits[j]).id@ by {
            let (p, q) = lemma_places(response, matches, ranks, request, readers, i, j);
            if p < q {
                assert(matches[p].document.id != matches[q].document.id);
            } else {
                assert(matches[q].document.id != matches[p].document.id);
            }
        }
    }
    if start == 0 && hits.len() == matches.len() {
        assert forall|p: int| 0 <= p < matches.len() implies exists|i: int|
            0 <= i < hits.len() && shows(#[trigger] hits[i], #[trigger] matches[p]) by {
            lemma_arrangement_covers(order, matches.len() as int, p);
            let i = choose|i: int| 0 <= i < matches.len() && #[trigger] order[i] == p;
            assert(shows(hits[i], matches[order[start + i]]));
        }
    }
}

/// The matches of a sorted request can be put in order where their values are of one kind.
proof fn lemma_can_be_ordered(
    matches: Seq<MatchView>,
    ranks: Seq<u32>,
    sort: Option<SortSpec>,
)
    requires
        have_their_own_ids(matches),
        forall|i: int, j: int|
            0 <= i < matches.len() && 0 <= j < matches.len() ==> {
                let a = (#[trigger] sort_keys(matches, sort, ranks)[i]).value;
                let b = (#[trigger] sort_keys(matches, sort, ranks)[j]).value;
                a is Some && b is Some ==> same_kind(a->0, b->0)
            },
    ensures
        can_be_ordered(sort_keys(matches, sort, ranks)),
{
    let keys = sort_keys(matches, sort, ranks);
    assert forall|i: int, j: int| 0 <= i < j < keys.len() implies (#[trigger] keys[i]).id != (
    #[trigger] keys[j]).id by {
        assert(matches[i].document.id != matches[j].document.id);
    }
    assert forall|i: int, j: int| 0 <= i < keys.len() && 0 <= j < keys.len() implies (
    #[trigger] keys[i]).descending == (#[trigger] keys[j]).descending && (keys[i].value is Some
        && keys[j].value is Some ==> same_kind(keys[i].value->0, keys[j].value->0)) by {}
}

/// Without a sort the hits with the greater rank come first, and those of the same rank in the
/// order of their ids.
pub proof fn better_matches_come_first(
    response: SearchResponse,
    matches: Seq<MatchView>,
    ranks: Seq<u32>,
    request: SearchRequest,
    readers: Seq<ReaderView>,
    i: int,
    j: int,
)
    requires
        is_response(response, matches, ranks, request, readers),
        ranks.len() == matches.len(),
        request.sort is None,
        have_their_own_ids(matches),
        0 <= i < j < response.hits.hits@.len(),
    ensures
        exists|p: int, q: int|
            0 <= p < matches.len() && 0 <= q < matches.len() && shows(
                response.hits.hits@[i],
                #[trigger] matches[p],
            ) && shows(response.hits.hits@[j], #[trigger] matches[q]) && (ranks[p] > ranks[q] || (
            ranks[p] == ranks[q] && stands_before(
                response.hits.hits@[i].id@,
                response.hits.hits@[j].id@,
            ))),
{
    lemma_can_be_ordered(matches, ranks, request.sort);
    let (p, q) = lemma_places(response, matches, ranks, request, readers, i, j);
    texts_are_ordered_as_in_a_dictionary(matches[p].document.id, matches[q].document.id);
    assert(shows(response.hits.hits@[i], matches[p]));
    assert(shows(response.hits.hits@[j], matches[q]));
}

/// Whether each match has an integer in the field that doubles hold exactly, or no value.
pub open spec fn have_integers(matches: Seq<MatchView>, field: Seq<char>) -> bool {
    forall|i: int|
        0 <= i < matches.len() ==> has_no_value((#[trigger] matches[i]).document.source, field) || (
        matches[i].document.source.member(field) matches Some(v) && exact_integer(v) is Some)
}

/// Sorted by integers, the hits ascend or descend as is asked for, those with the same integer in
/// the order of their ids, and those without a value come last in either direction.
pub proof fn hits_are_sorted_by_their_integers(
    response: SearchResponse,
    matches: Seq<MatchView>,
    ranks: Seq<u32>,
    request: SearchRequest,
    readers: Seq<ReaderView>,
    sort: SortSpec,
    i: int,
    j: int,
)
    requires
        is_response(response, matches, ranks, request, readers),
        request.sort == Some(sort),
        have_their_own_ids(matches),
        have_integers(matches, sort.field@),
        0 <= i < j < response.hits.hits@.len(),
    ensures
        ({
            let first = response.hits.hits@[i];
            let second = response.hits.hits@[j];
            if has_no_value(first.source@, sort.field@) {
                has_no_value(second.source@, sort.field@) && stands_before(first.id@, second.id@)
            } else if has_no_value(second.source@, sort.field@) {
                true
            } else {
                let a = exact_integer(first.source@.member(sort.field@)->0);
                let b = exact_integer(second.source@.member(sort.field@)->0);
                &&& a is Some && b is Some
                &&& (match sort.order {
                    SortOrder::Asc => a->0 < b->0,
                    SortOrder::Desc => a->0 > b->0,
                }) || (a->0 == b->0 && stands_before(first.id@, second.id@))
            }
        }),
{
    lemma_can_be_ordered(matches, ranks, request.sort);
    let (p, q) = lemma_places(response, matches, ranks, request, readers, i, j);
    texts_are_ordered_as_in_a_dictionary(matches[p].document.id, matches[q].document.id);
    let a = matches[p].document.source;
    let b = matches[q].document.source;
    if !has_no_value(a, sort.field@) && !has_no_value(b, sort.field@) {
        exact_integers_compare_as_doubles(
            a.member(sort.field@)->0,
            b.member(sort.field@)->0,
        );
    }
}

/// Whether each match has a boolean in the field, or no value.
pub open spec fn have_booleans(matches: Seq<MatchView>, field: Seq<char>) -> bool {
    forall|i: int|
        0 <= i < matches.len() ==> has_no_value((#[trigger] matches[i]).document.source, field) || (
        matches[i].document.source.member(field) matches Some(v) && v is Bool)
}

/// Sorted by booleans, the hits with `false` come before those with `true`, or behind them where
/// they descend, those with the same in the order of their ids, and those without a value last.
pub proof fn hits_are_sorted_by_their_booleans(
    response: SearchResponse,
    matches: Seq<MatchView>,
    ranks: Seq<u32>,
    request: SearchRequest,
    readers: Seq<ReaderView>,
    sort: SortSpec,
    i: int,
    j: int,
)
    requires
        is_response(response, matches, ranks, request, readers),
        request.sort == Some(sort),
        have_their_own_ids(matches),
        have_booleans(matches, sort.field@),
        0 <= i < j < response.hits.hits@.len(),
    ensures
        ({
            let first = response.hits.hits@[i];
            let second = response.hits.hits@[j];
            if has_no_value(first.source@, sort.field@) {
                has_no_value(second.source@, sort.field@) && stands_before(first.id@, second.id@)
            } else if has_no_value(second.source@, sort.field@) {
                true
            } else {
                match (
                    first.source@.member(sort.field@)->0,
                    second.source@.member(sort.field@)->0,
                ) {
                    (JsonView::Bool(a), JsonView::Bool(b)) => if a == b {
                        stands_before(first.id@, second.id@)
                    } else {
                        match sort.order {
                            SortOrder::Asc => b,
                            SortOrder::Desc => a,
                        }
                    },
                    _ => false,
                }
            }
        }),
{
    lemma_can_be_ordered(matches, ranks, request.sort);
    let (p, q) = lemma_places(response, matches, ranks, request, readers, i, j);
    texts_are_ordered_as_in_a_dictionary(matches[p].document.id, matches[q].document.id);
}

/// Whether each match has a text that names a point in time in the field, or no value.
pub open spec fn have_dates(matches: Seq<MatchView>, field: Seq<char>) -> bool {
    forall|i: int|
        0 <= i < matches.len() ==> has_no_value((#[trigger] matches[i]).document.source, field) || (
        matches[i].document.source.member(field) matches Some(v) && date_named(v) is Some)
}

/// Sorted by dates, the hits go from the earliest to the latest, or the other way where they
/// descend, those of the same point in time in the order of their ids, and those without a value
/// come last.
pub proof fn hits_are_sorted_by_their_dates(
    response: SearchResponse,
    matches: Seq<MatchView>,
    ranks: Seq<u32>,
    request: SearchRequest,
    readers: Seq<ReaderView>,
    sort: SortSpec,
    i: int,
    j: int,
)
    requires
        is_response(response, matches, ranks, request, readers),
        request.sort == Some(sort),
        have_their_own_ids(matches),
        0 <= i < j < response.hits.hits@.len(),
    ensures
        have_dates(matches, sort.field@) ==> {
            let first = response.hits.hits@[i];
            let second = response.hits.hits@[j];
            if has_no_value(first.source@, sort.field@) {
                has_no_value(second.source@, sort.field@) && stands_before(first.id@, second.id@)
            } else if has_no_value(second.source@, sort.field@) {
                true
            } else {
                let a = date_named(first.source@.member(sort.field@)->0);
                let b = date_named(second.source@.member(sort.field@)->0);
                &&& a is Some && b is Some
                &&& (match sort.order {
                    SortOrder::Asc => is_earlier(a->0, b->0),
                    SortOrder::Desc => is_earlier(b->0, a->0),
                }) || (a == b && stands_before(first.id@, second.id@))
            }
        },
{
    if have_dates(matches, sort.field@) {
        lemma_can_be_ordered(matches, ranks, request.sort);
        let (p, q) = lemma_places(response, matches, ranks, request, readers, i, j);
        texts_are_ordered_as_in_a_dictionary(matches[p].document.id, matches[q].document.id);
    }
}

/// Whether each match has a text that names no point in time in the field, or no value.
pub open spec fn have_plain_texts(matches: Seq<MatchView>, field: Seq<char>) -> bool {
    forall|i: int|
        0 <= i < matches.len() ==> has_no_value((#[trigger] matches[i]).document.source, field) || (
        matches[i].document.source.member(field) matches Some(v) && v is Text && date_named(v)
            is None)
}

/// Sorted by texts that are no dates, the hits stand as in a dictionary, or the other way where
/// they descend, those with the same text in the order of their ids, and those without a value
/// come last.
pub proof fn hits_are_sorted_by_their_texts(
    response: SearchResponse,
    matches: Seq<MatchView>,
    ranks: Seq<u32>,
    request: SearchRequest,
    readers: Seq<ReaderView>,
    sort: SortSpec,
    i: int,
    j: int,
)
    requires
        is_response(response, matches, ranks, request, readers),
        request.sort == Some(sort),
        have_their_own_ids(matches),
        0 <= i < j < response.hits.hits@.len(),
    ensures
        have_plain_texts(matches, sort.field@) ==> {
            let first = response.hits.hits@[i];
            let second = response.hits.hits@[j];
            if has_no_value(first.source@, sort.field@) {
                has_no_value(second.source@, sort.field@) && stands_before(first.id@, second.id@)
            } else if has_no_value(second.source@, sort.field@) {
                true
            } else {
                match (
                    first.source@.member(sort.field@)->0,
                    second.source@.member(sort.field@)->0,
                ) {
                    (JsonView::Text(a), JsonView::Text(b)) => (match sort.order {
                        SortOrder::Asc => stands_before(a, b),
                        SortOrder::Desc => stands_before(b, a),
                    }) || (a == b && stands_before(first.id@, second.id@)),
                    _ => false,
                }
            }
        },
{
    if have_plain_texts(matches, sort.field@) {
        lemma_can_be_ordered(matches, ranks, request.sort);
        let (p, q) = lemma_places(response, matches, ranks, request, readers, i, j);
        texts_are_ordered_as_in_a_dictionary(matches[p].document.id, matches[q].document.id);
        let x = matches[p].document.source.member(sort.field@);
        let y = matches[q].document.source.member(sort.field@);
        if let (Some(JsonView::Text(a)), Some(JsonView::Text(b))) = (x, y) {
            texts_are_ordered_as_in_a_dictionary(a, b);
            texts_are_ordered_as_in_a_dictionary(b, a);
            crate::text::text_lt_total(a, b);
        }
    }
}

/// Whether each match has a number in the field, or no value.
pub open spec fn have_numbers(matches: Seq<MatchView>, field: Seq<char>) -> bool {
    forall|i: int|
        0 <= i < matches.len() ==> has_no_value((#[trigger] matches[i]).document.source, field) || (
        matches[i].document.source.member(field) matches Some(v) && v is Number)
}

/// Sorted by numbers of any kind, the doubles of the hits never decrease, or never increase where
/// they descend, and those without a value come last.
pub proof fn hits_are_sorted_by_their_doubles(
    response: SearchResponse,
    matches: Seq<MatchView>,
    ranks: Seq<u32>,
    request: SearchRequest,
    readers: Seq<ReaderView>,
    sort: SortSpec,
    i: int,
    j: int,
)
    requires
        is_response(response, matches, ranks, request, readers),
        request.sort == Some(sort),
        have_their_own_ids(matches),
        have_numbers(matches, sort.field@),
        0 <= i < j < response.hits.hits@.len(),
    ensures
        ({
            let first = response.hits.hits@[i];
            let second = response.hits.hits@[j];
            if has_no_value(first.source@, sort.field@) {
                has_no_value(second.source@, sort.field@)
            } else if has_no_value(second.source@, sort.field@) {
                true
            } else {
                let a = first.source@.member(sort.field@)->0.as_double()->0;
                let b = second.source@.member(sort.field@)->0.as_double()->0;
                match sort.order {
                    SortOrder::Asc => !is_lesser_double(b, a),
                    SortOrder::Desc => !is_lesser_double(a, b),
                }
            }
        }),
{
    lemma_can_be_ordered(matches, ranks, request.sort);
    let (p, q) = lemma_places(response, matches, ranks, request, readers, i, j);
}

/// The hits on a page are those that the whole answer has behind as many as are left out: the first
/// hit of a page that leaves out `n` is the one behind the first `n` of all.
pub proof fn pages_begin_behind_what_is_left_out(
    page: SearchResponse,
    whole: SearchResponse,
    matches: Seq<MatchView>,
    ranks: Seq<u32>,
    request: SearchRequest,
    unpaged: SearchRequest,
    readers: Seq<ReaderView>,
    left_out: usize,
    i: int,
)
    requires
        is_response(page, matches, ranks, request, readers),
        is_response(whole, matches, ranks, unpaged, readers),
        query_of_request(unpaged) == query_of_request(request),
        unpaged.sort == request.sort,
        requests_of(unpaged.aggs) == requests_of(request.aggs),
        unpaged.from is None,
        unpaged.size is None,
        request.from == Some(left_out),
        left_out <= 1_000_000,
        matches.len() <= 10_000,
        can_be_ordered(sort_keys(matches, request.sort, ranks)),
        0 <= i < page.hits.hits@.len(),
    ensures
        left_out + i < whole.hits.hits@.len(),
        page.hits.hits@[i].id@ == whole.hits.hits@[left_out + i].id@,
        page.hits.hits@[i].source@ == whole.hits.hits@[left_out + i].source@,
{
    page_is_part_of_whole_answer(page, whole, matches, ranks, request, unpaged, readers);
    assert(page_start(request) == left_out);
    assert(crate::search::same_hit(page.hits.hits@[i], whole.hits.hits@[left_out + i]));
}

/// An answer has the aggregations that were asked for, by their names, each over all matches and
/// not over those on the page alone. Each hit has the highlight of its document for the words of
/// the query.
pub proof fn answers_aggregate_all_matches_and_highlight_hits(
    response: SearchResponse,
    matches: Seq<MatchView>,
    ranks: Seq<u32>,
    request: SearchRequest,
    readers: Seq<ReaderView>,
)
    requires
        is_response(response, matches, ranks, request, readers),
    ensures
        request.aggs is None ==> response.aggregations@ == Map::<
            Seq<char>,
            AggregationResult,
        >::empty(),
        request.aggs matches Some(aggs) ==> forall|name: Seq<char>| #[trigger]
            aggs@.contains_key(name) ==> response.aggregations@.contains_key(name) && answers(
                response.aggregations@[name],
                aggs@[name],
                Seq::new(matches.len(), |i: int| matches[i].document.source),
            ),
        request.aggs matches Some(aggs) ==> forall|name: Seq<char>| #[trigger]
            response.aggregations@.contains_key(name) ==> aggs@.contains_key(name),
        forall|i: int|
            0 <= i < response.hits.hits@.len() ==> is_highlight(
                (#[trigger] response.hits.hits@[i]).highlight,
                response.hits.hits@[i].source@,
                readers,
                query_terms(
                    match request.query {
                        Some(query) => query@,
                        None => QueryView::MatchAll,
                    },
                ),
                doc_id_hash(response.hits.hits@[i].id@),
            ),
{
    let order = lemma_order(response, matches, ranks, request, readers);
    assert(match_sources(matches) =~= Seq::new(
        matches.len(),
        |i: int| matches[i].document.source,
    ));
    if request.aggs is None {
        assert(response.aggregations@ =~= Map::<Seq<char>, AggregationResult>::empty());
    }
    if let Some(aggs) = request.aggs {
        assert forall|name: Seq<char>| #[trigger] aggs@.contains_key(name) implies
            response.aggregations@.contains_key(name) && answers(
            response.aggregations@[name],
            aggs@[name],
            Seq::new(matches.len(), |i: int| matches[i].document.source),
        ) by {
            assert(response.aggregations@.dom().contains(name));
        }
        assert forall|name: Seq<char>| #[trigger]
            response.aggregations@.contains_key(name) implies aggs@.contains_key(name) by {
            assert(response.aggregations@.dom().contains(name));
        }
    }
}

} // verus!
