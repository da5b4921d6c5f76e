//! Answers as clients see them.
use vstd::prelude::*;

use crate::aggregations::AggregationResult;
use crate::aggregations::DateHistogramAggregationResult;
use crate::aggregations::DateHistogramBucket;
use crate::aggregations::StatsAggregationResult;
use crate::aggregations::TermsAggregationResult;
use crate::aggregations::TermsBucket;
use crate::errors::message_of;
use crate::json::json_views;
use crate::json::lemma_array_view;
use crate::json::lemma_object_view;
use crate::json::member_views;
use crate::json::Json;
use crate::json::JsonNumber;
use crate::json::JsonView;
use crate::json::NumberView;
use crate::map::StringMap;
use crate::matching::Score;
use crate::search::SearchHit;
use crate::search::SearchResponse;
use crate::types::CloudSearchError;

verus! {

/// What writing a document came to.
pub fn write_result(existed: bool) -> (r: &'static str)
    ensures
        r@ == if existed {
            "updated"@
        } else {
            "created"@
        },
{
    if existed {
        "updated"
    } else {
        "created"
    }
}

/// How many hits there are, and whether that is exact.
#[derive(Debug)]
pub struct CompatTotalHits {
    pub value: usize,
    pub relation: &'static str,
}

/// A hit.
#[derive(Debug)]
pub struct CompatSearchHit {
    pub id: String,
    pub score: Option<Score>,
    pub source: Json,
    pub highlight: Option<StringMap<Vec<String>>>,
}

/// The hits.
#[derive(Debug)]
pub struct CompatHitsMetadata {
    pub total: CompatTotalHits,
    pub hits: Vec<CompatSearchHit>,
}

/// What an aggregation came to: its buckets in JSON, or the numbers that statistics are made of.
#[derive(Debug)]
pub enum CompatAggregation {
    Buckets(Json),
    Stats(StatsAggregationResult),
}

/// The answer to a search.
#[derive(Debug)]
pub struct CompatSearchResponse {
    pub hits: CompatHitsMetadata,
    pub aggregations: StringMap<CompatAggregation>,
}

/// A bucket of values in JSON.
pub open spec fn terms_bucket_json(bucket: TermsBucket) -> JsonView {
    JsonView::Object(
        seq![
            ("doc_count"@, JsonView::Number(NumberView::PosInt(bucket.doc_count as u64))),
            ("key"@, bucket.key@),
        ],
    )
}

/// A bucket of timestamps in JSON.
pub open spec fn histogram_bucket_json(bucket: DateHistogramBucket) -> JsonView {
    JsonView::Object(
        seq![
            ("doc_count"@, JsonView::Number(NumberView::PosInt(bucket.doc_count as u64))),
            ("key"@, JsonView::Text(bucket.key@)),
        ],
    )
}

/// Buckets in JSON.
pub open spec fn buckets_json(buckets: Seq<JsonView>) -> JsonView {
    JsonView::Object(seq![("buckets"@, JsonView::Array(buckets))])
}

fn bucket_json(doc_count: usize, key: Json) -> (r: Json)
    ensures
        r@ == JsonView::Object(
            seq![
                ("doc_count"@, JsonView::Number(NumberView::PosInt(doc_count as u64))),
                ("key"@, key@),
            ],
        ),
{
    let mut members: Vec<(String, Json)> = Vec::new();
    members.push(("doc_count".to_owned(), Json::Number(JsonNumber::PosInt(doc_count as u64))));
    members.push(("key".to_owned(), key));
    proof {
        lemma_object_view(members);
        assert(member_views(members@) =~= seq![
            ("doc_count"@, JsonView::Number(NumberView::PosInt(doc_count as u64))),
            ("key"@, key@),
        ]);
    }
    Json::Object(members)
}

fn wrap_buckets(buckets: Vec<Json>) -> (r: Json)
    ensures
        r@ == buckets_json(json_views(buckets@)),
{
    let mut members: Vec<(String, Json)> = Vec::new();
    let list = Json::Array(buckets);
    members.push(("buckets".to_owned(), list));
    proof {
        lemma_array_view(buckets);
        lemma_object_view(members);
        assert(member_views(members@) =~= seq![
            ("buckets"@, JsonView::Array(json_views(buckets@))),
        ]);
    }
    Json::Object(members)
}

/// The buckets of values in JSON.
pub fn terms_aggregation_to_json(result: &TermsAggregationResult) -> (r: Json)
    ensures
        r@ == buckets_json(
            Seq::new(result.buckets@.len(), |i: int| terms_bucket_json(result.buckets@[i])),
        ),
{
    let mut buckets: Vec<Json> = Vec::new();
    let mut i: usize = 0;
    while i < result.buckets.len()
        invariant
            i <= result.buckets@.len(),
            buckets@.len() == i,
            forall|j: int|
                0 <= j < i ==> (#[trigger] buckets@[j])@ == terms_bucket_json(result.buckets@[j]),
        decreases result.buckets@.len() - i,
    {
        buckets.push(bucket_json(result.buckets[i].doc_count, result.buckets[i].key.copy()));
        i += 1;
    }
    proof {
        assert(json_views(buckets@) =~= Seq::new(
            result.buckets@.len(),
            |i: int| terms_bucket_json(result.buckets@[i]),
        ));
    }
    wrap_buckets(buckets)
}

/// The buckets of timestamps in JSON.
pub fn date_histogram_aggregation_to_json(result: &DateHistogramAggregationResult) -> (r: Json)
    ensures
        r@ == buckets_json(
            Seq::new(result.buckets@.len(), |i: int| histogram_bucket_json(result.buckets@[i])),
        ),
{
    let mut buckets: Vec<Json> = Vec::new();
    let mut i: usize = 0;
    while i < result.buckets.len()
        invariant
            i <= result.buckets@.len(),
            buckets@.len() == i,
            forall|j: int|
                0 <= j < i ==> (#[trigger] buckets@[j])@ == histogram_bucket_json(
                    result.buckets@[j],
                ),
        decreases result.buckets@.len() - i,
    {
        buckets.push(
            bucket_json(result.buckets[i].doc_count, Json::Text(result.buckets[i].key.clone())),
        );
        i += 1;
    }
    proof {
        assert(json_views(buckets@) =~= Seq::new(
            result.buckets@.len(),
            |i: int| histogram_bucket_json(result.buckets@[i]),
        ));
    }
    wrap_buckets(buckets)
}

/// Whether a client sees the result of an aggregation so.
pub open spec fn shows_aggregation(shown: CompatAggregation, result: AggregationResult) -> bool {
    match result {
        AggregationResult::Terms(terms) => shown is Buckets && shown->Buckets_0@ == buckets_json(
            Seq::new(terms.buckets@.len(), |i: int| terms_bucket_json(terms.buckets@[i])),
        ),
        AggregationResult::DateHistogram(histogram) => shown is Buckets && shown->Buckets_0@
            == buckets_json(
            Seq::new(
                histogram.buckets@.len(),
                |i: int| histogram_bucket_json(histogram.buckets@[i]),
            ),
        ),
        AggregationResult::Stats(stats) => shown is Stats && shown->Stats_0.count == stats.count
            && shown->Stats_0.values@ == stats.values@ && shown->Stats_0.min == stats.min
            && shown->Stats_0.max == stats.max,
    }
}

/// The result of an aggregation as clients see it.
pub fn aggregation_to_json(result: &AggregationResult) -> (r: CompatAggregation)
    ensures
        shows_aggregation(r, *result),
{
    match result {
        AggregationResult::Terms(terms) => CompatAggregation::Buckets(
            terms_aggregation_to_json(terms),
        ),
        AggregationResult::DateHistogram(histogram) => CompatAggregation::Buckets(
            date_histogram_aggregation_to_json(histogram),
        ),
        AggregationResult::Stats(stats) => CompatAggregation::Stats(
            StatsAggregationResult {
                count: stats.count,
                values: copy_numbers(&stats.values),
                min: stats.min,
                max: stats.max,
            },
        ),
    }
}

fn copy_numbers(numbers: &Vec<u64>) -> (r: Vec<u64>)
    ensures
        r@ == numbers@,
{
    let mut r: Vec<u64> = Vec::new();
    let mut i: usize = 0;
    while i < numbers.len()
        invariant
            i <= numbers@.len(),
            r@ == numbers@.take(i as int),
        decreases numbers@.len() - i,
    {
        r.push(numbers[i]);
        proof {
            assert(numbers@.take(i + 1) =~= numbers@.take(i as int).push(numbers@[i as int]));
        }
        i += 1;
    }
    proof {
        assert(numbers@.take(i as int) =~= numbers@);
    }
    r
}

/// Whether a client sees a hit so.
pub open spec fn shows_hit(shown: CompatSearchHit, hit: SearchHit) -> bool {
    shown.id == hit.id && shown.score == hit.score && shown.source == hit.source
        && shown.highlight == hit.highlight
}

/// A hit as clients see it.
pub fn to_compat_search_hit(hit: SearchHit) -> (r: CompatSearchHit)
    ensures
        shows_hit(r, hit),
{
    CompatSearchHit {
        id: hit.id,
        score: hit.score,
        source: hit.source,
        highlight: hit.highlight,
    }
}

/// Whether a client sees an answer so: the number of hits is exact, the hits stand in the same
/// order, and each aggregation under its name.
pub open spec fn shows_response(shown: CompatSearchResponse, response: SearchResponse) -> bool {
    &&& shown.hits.total.value == response.hits.total
    &&& shown.hits.total.relation@ == "eq"@
    &&& shown.hits.hits@.len() == response.hits.hits@.len()
    &&& forall|i: int|
        0 <= i < shown.hits.hits@.len() ==> shows_hit(
            #[trigger] shown.hits.hits@[i],
            response.hits.hits@[i],
        )
    &&& shown.aggregations@.dom() == response.aggregations@.dom()
    &&& forall|name: Seq<char>| #[trigger]
        shown.aggregations@.contains_key(name) ==> shows_aggregation(
            shown.aggregations@[name],
            response.aggregations@[name],
        )
}

fn show_aggregations(results: &StringMap<AggregationResult>) -> (r: StringMap<CompatAggregation>)
    ensures
        r@.dom() == results@.dom(),
        forall|name: Seq<char>| #[trigger]
            r@.contains_key(name) ==> shows_aggregation(r@[name], results@[name]),
{
    let count: usize = results.len();
    let ghost pairs = results.pairs();
    let mut r: StringMap<CompatAggregation> = StringMap::new();
    let mut i: usize = 0;
    while i < count
        invariant
            i <= count,
            count == pairs.len(),
            pairs == results.pairs(),
            crate::map::keys_ascend(pairs),
            forall|j: int| 0 <= j < i ==> r@.contains_key((#[trigger] pairs[j]).0),
            forall|name: Seq<char>| #[trigger]
                r@.contains_key(name) ==> results@.contains_key(name) && shows_aggregation(
                    r@[name],
                    results@[name],
                ),
        decreases count - i,
    {
        proof {
            crate::map::lemma_pair_in_map(pairs, i as int);
        }
        let name = results.key_at(i);
        let shown = aggregation_to_json(results.value_at(i));
        r.insert(name.clone(), shown);
        i += 1;
    }
    proof {
        assert forall|name: Seq<char>| results@.contains_key(name) implies r@.contains_key(
            name,
        ) by {
            let j = crate::map::key_index(pairs, name);
            assert(pairs[j].0 == name);
        }
        assert(r@.dom() =~= results@.dom());
    }
    r
}

/// An answer as clients see it.
pub fn to_compat_search_response(response: SearchResponse) -> (r: CompatSearchResponse)
    ensures
        shows_response(r, response),
{
    let aggregations = show_aggregations(&response.aggregations);
    let ghost all = response.hits.hits@;
    let total: usize = response.hits.total;
    let mut rest = response.hits.hits;
    let mut reversed: Vec<CompatSearchHit> = Vec::new();
    while rest.len() > 0
        invariant
            rest@.len() + reversed@.len() == all.len(),
            rest@ == all.take(rest@.len() as int),
            forall|i: int|
                0 <= i < reversed@.len() ==> shows_hit(
                    #[trigger] reversed@[i],
                    all[all.len() - 1 - i],
                ),
        decreases rest@.len(),
    {
        let ghost before = rest@;
        if let Some(hit) = rest.pop() {
            proof {
                assert(hit == all[before.len() - 1]);
                assert(rest@ =~= all.take(rest@.len() as int));
            }
            reversed.push(to_compat_search_hit(hit));
        }
    }
    let mut hits: Vec<CompatSearchHit> = Vec::new();
    while reversed.len() > 0
        invariant
            hits@.len() + reversed@.len() == all.len(),
            forall|i: int|
                0 <= i < reversed@.len() ==> shows_hit(
                    #[trigger] reversed@[i],
                    all[all.len() - 1 - i],
                ),
            forall|i: int| 0 <= i < hits@.len() ==> shows_hit(#[trigger] hits@[i], all[i]),
        decreases reversed@.len(),
    {
        if let Some(hit) = reversed.pop() {
            hits.push(hit);
        }
    }
    CompatSearchResponse {
        hits: CompatHitsMetadata { total: CompatTotalHits { value: total, relation: "eq" }, hits },
        aggregations,
    }
}

/// What one of several searches came to.
#[derive(Debug)]
pub enum MultiSearchOutcome {
    /// The index could not be opened.
    Unopened(CloudSearchError),
    /// The search is invalid.
    Invalid(CloudSearchError),
    /// The search was answered.
    Found(SearchResponse),
}

/// What one of several searches is answered.
#[derive(Debug)]
pub struct MultiSearchItemResponse {
    pub index: String,
    pub status: u16,
    pub response: Option<SearchResponse>,
    pub error: Option<String>,
}

/// Whether `item` answers one of several searches: with the answer, or with what kept it from
/// being answered.
pub open spec fn answers_item(
    item: MultiSearchItemResponse,
    index: Seq<char>,
    outcome: MultiSearchOutcome,
) -> bool {
    &&& item.index@ == index
    &&& match outcome {
        MultiSearchOutcome::Unopened(e) => item.status == 404 && item.response is None
            && item.error is Some && item.error->0@ == message_of(e@),
        MultiSearchOutcome::Invalid(e) => item.status == 400 && item.response is None
            && item.error is Some && item.error->0@ == message_of(e@),
        MultiSearchOutcome::Found(response) => item.status == 200 && item.response == Some(
            response,
        ) && item.error is None,
    }
}

/// What one of several searches is answered.
pub fn multi_search_item(index: String, outcome: MultiSearchOutcome) -> (r: MultiSearchItemResponse)
    ensures
        answers_item(r, index@, outcome),
{
    match outcome {
        MultiSearchOutcome::Unopened(e) => MultiSearchItemResponse {
            index,
            status: 404,
            response: None,
            error: Some(e.message()),
        },
        MultiSearchOutcome::Invalid(e) => MultiSearchItemResponse {
            index,
            status: 400,
            response: None,
            error: Some(e.message()),
        },
        MultiSearchOutcome::Found(response) => MultiSearchItemResponse {
            index,
            status: 200,
            response: Some(response),
            error: None,
        },
    }
}

} // verus!
