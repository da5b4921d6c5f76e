//! What requests are answered, and what is reported of them.
use vstd::prelude::*;

use crate::aggregations::AggregationResult;
use crate::aggregations::StatsAggregationResult;
use crate::bulk::answers_bulk;
use crate::bulk::ItemView;
use crate::catalog::create_fault;
use crate::catalog::first_mappings;
use crate::catalog::index_fault;
use crate::compat::answers_item;
use crate::compat::shows_aggregation;
use crate::compat::shows_response;
use crate::compat::CompatAggregation;
use crate::compat::CompatSearchResponse;
use crate::compat::MultiSearchItemResponse;
use crate::compat::MultiSearchOutcome;
use crate::config::normalized;
use crate::config::AppConfig;
use crate::errors::message_of;
use crate::errors::status_of;
use crate::json::find_member;
use crate::json::JsonView;
use crate::json::NumberView;
use crate::metrics::answered;
use crate::metrics::AnswerView;
use crate::names::namespace_fault;
use crate::names::valid_index_name;
use crate::search::SearchResponse;
use crate::types::BulkOperation;
use crate::types::BulkResponse;
use crate::types::CloudSearchError;
use crate::types::CreateIndexRequest;
use crate::types::ErrorView;
use crate::types::IndexSettings;

verus! {

/// What is not there is answered with 404, what is there already with 409, what the storage cannot
/// give with 503, and every other error with 400.
pub proof fn errors_have_the_status_of_their_kind(error: ErrorView)
    ensures
        status_of(error) == 404 <==> error is IndexNotFound || error is DocumentNotFound || error
            is SnapshotNotFound,
        status_of(error) == 409 <==> error is IndexAlreadyExists,
        status_of(error) == 503 <==> error is Io || error is InvalidWalRecord || error
            is WalChecksumMismatch,
        status_of(error) == 404 || status_of(error) == 409 || status_of(error) == 503 || status_of(
            error,
        ) == 400,
{
}

/// Whether a text stands in another.
pub open spec fn stands_in(part: Seq<char>, whole: Seq<char>) -> bool {
    exists|front: Seq<char>, back: Seq<char>| whole == #[trigger] (front + part + back)
}

proof fn lemma_stands_in(front: Seq<char>, part: Seq<char>, back: Seq<char>)
    ensures
        stands_in(part, front + part + back),
{
    assert(front + part + back == front + part + back);
}

/// What an error says of a name or a reason stands in its message.
pub proof fn messages_hold_what_they_tell_of(error: ErrorView, told: Seq<char>)
    requires
        match error {
            ErrorView::IndexAlreadyExists(s) => s == told,
            ErrorView::IndexNotFound(s) => s == told,
            ErrorView::DocumentNotFound(s) => s == told,
            ErrorView::SnapshotNotFound(s) => s == told,
            ErrorView::InvalidIndexName(s) => s == told,
            ErrorView::InvalidNamespace(s) => s == told,
            ErrorView::InvalidSearchRequest(s) => s == told,
            ErrorView::MappingConflict(s) => s == told,
            ErrorView::UnknownFieldRejected(s) => s == told,
            ErrorView::UnsupportedArrayField(s) => s == told,
            ErrorView::MappingLimitExceeded(s) => s == told,
            ErrorView::ResourceLimitExceeded(s) => s == told,
            ErrorView::InvalidWalRecord(s) => s == told,
            ErrorView::WalChecksumMismatch => told == Seq::<char>::empty(),
            ErrorView::Io(s) => s == told,
            ErrorView::Serde(s) => s == told,
        },
    ensures
        stands_in(told, message_of(error)),
{
    let none = Seq::<char>::empty();
    let message = message_of(error);
    match error {
        ErrorView::IndexAlreadyExists(s) => {
            lemma_stands_in("index '"@, told, "' already exists"@);
        },
        ErrorView::IndexNotFound(s) => {
            lemma_stands_in("index '"@, told, "' not found"@);
        },
        ErrorView::DocumentNotFound(s) => {
            lemma_stands_in("document '"@, told, "' not found"@);
        },
        ErrorView::SnapshotNotFound(s) => {
            lemma_stands_in("snapshot '"@, told, "' not found"@);
        },
        ErrorView::InvalidIndexName(s) => {
            lemma_stands_in("invalid index name '"@, told, "'"@);
        },
        ErrorView::WalChecksumMismatch => {
            assert(message + told + none =~= message);
        },
        _ => {
            let front = message.take(message.len() - told.len());
            assert(message =~= front + told + none);
        },
    }
}

/// A bulk request is answered with one item for each of its operations, in their order and of their
/// kind, with the id of the document. One that was done has its sequence number and says what was
/// done, one that failed has none and says why. There are errors if and only if one failed.
pub proof fn bulk_answers_tell_of_each_operation(
    response: BulkResponse,
    operations: Seq<BulkOperation>,
    outcomes: Seq<Result<u64, CloudSearchError>>,
    i: int,
)
    requires
        answers_bulk(response, operations, outcomes),
        operations.len() == outcomes.len(),
        0 <= i < operations.len(),
    ensures
        response.items@.len() == operations.len(),
        response.errors <==> !(forall|k: int|
            0 <= k < outcomes.len() ==> #[trigger] outcomes[k] is Ok),
        match operations[i] {
            BulkOperation::Index(index) => response.items@[i]@ matches ItemView::Index(result) && {
                &&& result.id == index.id@
                &&& match outcomes[i] {
                    Ok(number) => result.sequence_number == number && result.result == "created"@,
                    Err(e) => result.sequence_number == 0 && result.result == "error: "@
                        + message_of(e@),
                }
            },
            BulkOperation::Delete(delete) => response.items@[i]@ matches ItemView::Delete(
                result,
            ) && {
                &&& result.id == delete.id@
                &&& match outcomes[i] {
                    Ok(number) => result.sequence_number == number && result.result == "deleted"@,
                    Err(e) => result.sequence_number == 0 && result.result == "error: "@
                        + message_of(e@),
                }
            },
        },
{
    assert(response.items@[i]@ == crate::bulk::item_of(
        operations[i],
        crate::bulk::outcome_view(outcomes[i]),
    ));
    if response.errors {
        let k = choose|k: int| 0 <= k < outcomes.len() && #[trigger] outcomes[k] is Err;
        assert(!(outcomes[k] is Ok));
    }
    if !(forall|k: int| 0 <= k < outcomes.len() ==> #[trigger] outcomes[k] is Ok) {
        let k = choose|k: int| 0 <= k < outcomes.len() && !(#[trigger] outcomes[k] is Ok);
        assert(outcomes[k] is Err);
    }
}

/// One of several searches is answered with 200 and its response, or with an error alone: 404 where
/// the index could not be opened, 400 where the search is invalid.
pub proof fn each_of_several_searches_has_its_answer(
    item: MultiSearchItemResponse,
    index: Seq<char>,
    outcome: MultiSearchOutcome,
)
    requires
        answers_item(item, index, outcome),
    ensures
        item.index@ == index,
        item.status == 200 <==> outcome is Found,
        item.status == 404 <==> outcome is Unopened,
        item.status == 400 <==> outcome is Invalid,
        item.response is Some <==> item.status == 200,
        item.error is None <==> item.status == 200,
        outcome matches MultiSearchOutcome::Found(response) ==> item.response == Some(response),
        outcome matches MultiSearchOutcome::Invalid(e) ==> item.error->0@ == message_of(e@),
        outcome matches MultiSearchOutcome::Unopened(e) ==> item.error->0@ == message_of(e@),
{
}

proof fn lemma_two_members(members: Seq<(Seq<char>, JsonView)>)
    requires
        members.len() == 2,
        members[0].0 != members[1].0,
    ensures
        find_member(members, members[0].0) == Some(members[0].1),
        find_member(members, members[1].0) == Some(members[1].1),
{
    reveal_with_fuel(find_member, 3);
    assert(members.drop_first()[0] == members[1]);
}

/// The buckets of an aggregation are shown in their order, each with its key and its count.
pub proof fn buckets_are_shown_with_key_and_count(
    shown: CompatAggregation,
    result: AggregationResult,
    i: int,
)
    requires
        shows_aggregation(shown, result),
    ensures
        result matches AggregationResult::Terms(terms) ==> (shown is Buckets) && (
        shown->Buckets_0@.member("buckets"@) matches Some(JsonView::Array(buckets)) && {
            &&& buckets.len() == terms.buckets@.len()
            &&& 0 <= i < buckets.len() ==> {
                &&& buckets[i].member("key"@) == Some(terms.buckets@[i].key@)
                &&& buckets[i].member("doc_count"@) == Some(
                    JsonView::Number(NumberView::PosInt(terms.buckets@[i].doc_count as u64)),
                )
            }
        }),
        result matches AggregationResult::DateHistogram(histogram) ==> (shown is Buckets) && (
        shown->Buckets_0@.member("buckets"@) matches Some(JsonView::Array(buckets)) && {
            &&& buckets.len() == histogram.buckets@.len()
            &&& 0 <= i < buckets.len() ==> {
                &&& buckets[i].member("key"@) == Some(JsonView::Text(histogram.buckets@[i].key@))
                &&& buckets[i].member("doc_count"@) == Some(
                    JsonView::Number(NumberView::PosInt(histogram.buckets@[i].doc_count as u64)),
                )
            }
        }),
{
    reveal_strlit("key");
    reveal_strlit("doc_count");
    assert("key"@.len() == 3 && "doc_count"@.len() == 9);
    match result {
        AggregationResult::Terms(terms) => {
            let value = shown->Buckets_0@;
            let buckets = value->Object_0[0].1->Array_0;
            assert(value.member("buckets"@) == Some(JsonView::Array(buckets)));
            if 0 <= i < buckets.len() {
                lemma_two_members(buckets[i]->Object_0);
            }
        },
        AggregationResult::DateHistogram(histogram) => {
            let value = shown->Buckets_0@;
            let buckets = value->Object_0[0].1->Array_0;
            assert(value.member("buckets"@) == Some(JsonView::Array(buckets)));
            if 0 <= i < buckets.len() {
                lemma_two_members(buckets[i]->Object_0);
            }
        },
        AggregationResult::Stats(stats) => {},
    }
}

/// An index can be made if and only if its name is valid, its namespace is where it has one, and
/// there is none of that name. What is wrong with the name is told first, then what is wrong with
/// the namespace.
pub proof fn indexes_are_made_where_nothing_is_wrong(
    name: Seq<char>,
    settings: IndexSettings,
    exists: bool,
)
    ensures
        create_fault(name, settings, exists) is None <==> {
            &&& valid_index_name(name)
            &&& settings.namespace matches Some(namespace) ==> namespace_fault(namespace@) is None
            &&& !exists
        },
        !valid_index_name(name) ==> create_fault(name, settings, exists) == Some(
            ErrorView::InvalidIndexName(name),
        ),
        valid_index_name(name) && (settings.namespace matches Some(namespace) && namespace_fault(
            namespace@,
        ) is Some) ==> (create_fault(name, settings, exists) matches Some(error) && error
            is InvalidNamespace),
        create_fault(name, settings, exists) matches Some(error) ==> (error is IndexAlreadyExists
            <==> valid_index_name(name) && (settings.namespace matches Some(namespace)
            ==> namespace_fault(namespace@) is None)),
{
}

/// An index can be read, changed or deleted if and only if its name is valid and it is there.
pub proof fn indexes_are_read_where_they_are(name: Seq<char>, exists: bool)
    ensures
        index_fault(name, exists) is None <==> valid_index_name(name) && exists,
        index_fault(name, exists) matches Some(error) ==> (if valid_index_name(name) {
            error == ErrorView::IndexNotFound(name)
        } else {
            error == ErrorView::InvalidIndexName(name)
        }),
{
}

/// Normalizing puts one second, half a minute, a minute and a minute in place of intervals of zero,
/// and changes nothing else.
pub proof fn normalizing_changes_zero_alone(config: AppConfig)
    ensures
        ({
            let after = normalized(config);
            &&& after.refresh_interval_secs == (if config.refresh_interval_secs > 0 {
                config.refresh_interval_secs
            } else {
                1
            })
            &&& after.flush_interval_secs == (if config.flush_interval_secs > 0 {
                config.flush_interval_secs
            } else {
                30
            })
            &&& after.merge_interval_secs == (if config.merge_interval_secs > 0 {
                config.merge_interval_secs
            } else {
                60
            })
            &&& after.retention_interval_secs == (if config.retention_interval_secs > 0 {
                config.retention_interval_secs
            } else {
                60
            })
            &&& after.bind_addr == config.bind_addr
            &&& after.data_dir == config.data_dir
            &&& after.max_indexes == config.max_indexes
            &&& after.max_documents_per_index == config.max_documents_per_index
            &&& after.max_concurrent_background_ops == config.max_concurrent_background_ops
        }),
{
}

/// How many answers are counted for that route and method.
pub open spec fn answers_for(counts: Seq<AnswerView>, route: Seq<char>, method: Seq<char>) -> int
    decreases counts.len(),
{
    if counts.len() == 0 {
        0
    } else {
        answers_for(counts.drop_first(), route, method) + (if counts[0].route == route
            && counts[0].method == method {
            counts[0].count as int
        } else {
            0
        })
    }
}

/// Counting an answer raises the count for its route and method by one, and no other.
pub proof fn one_answer_counts_once(
    counts: Seq<AnswerView>,
    route: Seq<char>,
    method: Seq<char>,
    other_route: Seq<char>,
    other_method: Seq<char>,
)
    requires
        forall|i: int| 0 <= i < counts.len() ==> (#[trigger] counts[i]).count < u64::MAX,
    ensures
        answers_for(answered(counts, route, method), other_route, other_method) == answers_for(
            counts,
            other_route,
            other_method,
        ) + (if other_route == route && other_method == method {
            1int
        } else {
            0
        }),
    decreases counts.len(),
{
    let after = answered(counts, route, method);
    if counts.len() == 0 {
        assert(after.drop_first() =~= Seq::empty());
        assert(answers_for(after.drop_first(), other_route, other_method) == 0);
    } else {
        let rest = counts.drop_first();
        if counts[0].route == route && counts[0].method == method {
            assert(after.drop_first() =~= rest);
        } else {
            assert forall|i: int| 0 <= i < rest.len() implies (#[trigger] rest[i]).count
                < u64::MAX by {
                assert(rest[i] == counts[i + 1]);
            }
            one_answer_counts_once(rest, route, method, other_route, other_method);
            assert(after.drop_first() =~= answered(rest, route, method));
        }
    }
}

/// Clients see the number of all hits as exact, the hits of the page in their order, each as it is,
/// and the aggregations under their names.
pub proof fn clients_see_the_hits_as_they_are(
    shown: CompatSearchResponse,
    response: SearchResponse,
    i: int,
)
    requires
        shows_response(shown, response),
    ensures
        shown.hits.total.value == response.hits.total,
        shown.hits.total.relation@ == "eq"@,
        shown.hits.hits@.len() == response.hits.hits@.len(),
        0 <= i < shown.hits.hits@.len() ==> {
            &&& shown.hits.hits@[i].id@ == response.hits.hits@[i].id@
            &&& shown.hits.hits@[i].source@ == response.hits.hits@[i].source@
            &&& shown.hits.hits@[i].score == response.hits.hits@[i].score
            &&& shown.hits.hits@[i].highlight == response.hits.hits@[i].highlight
        },
        forall|name: Seq<char>| #[trigger]
            shown.aggregations@.contains_key(name) <==> response.aggregations@.contains_key(name),
{
    assert forall|name: Seq<char>| #[trigger]
        shown.aggregations@.contains_key(name) <==> response.aggregations@.contains_key(name) by {
        assert(shown.aggregations@.dom().contains(name) == response.aggregations@.dom().contains(
            name,
        ));
    }
    if 0 <= i < shown.hits.hits@.len() {
        assert(crate::compat::shows_hit(shown.hits.hits@[i], response.hits.hits@[i]));
    }
}

/// An index starts with the mappings that are asked for, and with none where none are.
pub proof fn indexes_start_with_the_mappings_asked_for(request: CreateIndexRequest)
    ensures
        request.mappings matches Some(mappings) ==> first_mappings(request) == mappings@,
        request.mappings is None ==> first_mappings(request).dom() == Set::<Seq<char>>::empty(),
{
}

/// Statistics are shown with the count, the least and the greatest value that were found.
pub proof fn statistics_are_shown_as_they_are(
    shown: CompatAggregation,
    stats: StatsAggregationResult,
)
    requires
        shows_aggregation(shown, AggregationResult::Stats(stats)),
    ensures
        shown matches CompatAggregation::Stats(s) && s.count == stats.count && s.min == stats.min
            && s.max == stats.max && s.values@ == stats.values@,
{
}

} // verus!
