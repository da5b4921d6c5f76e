//! How queries and requests are read from JSON.
use vstd::prelude::*;

use crate::json::find_member;
use crate::json::JsonView;
use crate::json::NumberView;
use crate::requests::aggregations_in;
use crate::requests::explicit_form;
use crate::requests::parsed_aggregation;
use crate::requests::parsed_aggregations;
use crate::requests::parsed_bool;
use crate::requests::parsed_clauses;
use crate::requests::parsed_count;
use crate::requests::parsed_items;
use crate::requests::parsed_minimum;
use crate::requests::parsed_query;
use crate::requests::parsed_range;
use crate::requests::parsed_request;
use crate::requests::parsed_sort;
use crate::requests::parsed_term;
use crate::requests::short_form;
use crate::requests::AggregationView;
use crate::requests::Refusal;
use crate::requests::SortView;
use crate::types::DateHistogramInterval;
use crate::types::Fuzziness;
use crate::types::QueryView;
use crate::types::RangeView;
use crate::types::SortOrder;

verus! {

/// A value, or null for none.
pub open spec fn or_null(value: Option<JsonView>) -> JsonView {
    match value {
        Some(v) => v,
        None => JsonView::Null,
    }
}

/// A natural number as JSON.
pub open spec fn natural(n: u64) -> JsonView {
    JsonView::Number(NumberView::PosInt(n))
}

/// How a term is written with its fuzziness.
pub open spec fn written_term(field: Seq<char>, value: JsonView, fuzziness: Option<Fuzziness>) -> JsonView {
    match fuzziness {
        None => explicit_form(field, "value"@, value),
        Some(f) => JsonView::Object(
            seq![
                ("field"@, JsonView::Text(field)),
                ("value"@, value),
                (
                    "fuzziness"@,
                    match f {
                        Fuzziness::Exact(n) => natural(n as u64),
                        Fuzziness::Auto => JsonView::Text("auto"@),
                    },
                ),
            ],
        ),
    }
}

/// How a range is written.
pub open spec fn written_range(range: RangeView) -> JsonView {
    JsonView::Object(
        seq![
            ("field"@, JsonView::Text(range.field)),
            ("gte"@, or_null(range.gte)),
            ("gt"@, or_null(range.gt)),
            ("lte"@, or_null(range.lte)),
            ("lt"@, or_null(range.lt)),
        ],
    )
}

/// How a query is written.
pub open spec fn written(query: QueryView) -> JsonView
    decreases query, 0int,
{
    match query {
        QueryView::MatchAll => short_form("match_all"@, JsonView::Null),
        QueryView::Term { field, value, fuzziness } => short_form(
            "term"@,
            written_term(field, value, fuzziness),
        ),
        QueryView::Terms { field, values } => short_form(
            "terms"@,
            explicit_form(field, "values"@, JsonView::Array(values)),
        ),
        QueryView::Range(range) => short_form("range"@, written_range(range)),
        QueryView::Bool { must, should, filter, must_not, minimum_should_match } => short_form(
            "bool"@,
            JsonView::Object(
                seq![
                    ("must"@, JsonView::Array(written_all(must, must.len() as int))),
                    ("should"@, JsonView::Array(written_all(should, should.len() as int))),
                    ("filter"@, JsonView::Array(written_all(filter, filter.len() as int))),
                    ("must_not"@, JsonView::Array(written_all(must_not, must_not.len() as int))),
                    (
                        "minimum_should_match"@,
                        match minimum_should_match {
                            Some(n) => natural(n as u64),
                            None => JsonView::Null,
                        },
                    ),
                ],
            ),
        ),
        QueryView::Prefix { field, text } => short_form(
            "prefix"@,
            explicit_form(field, "value"@, JsonView::Text(text)),
        ),
        QueryView::Wildcard { field, text } => short_form(
            "wildcard"@,
            explicit_form(field, "value"@, JsonView::Text(text)),
        ),
        QueryView::Match { field, text } => short_form(
            "match"@,
            explicit_form(field, "value"@, JsonView::Text(text)),
        ),
        QueryView::Phrase { field, text } => short_form(
            "phrase"@,
            explicit_form(field, "value"@, JsonView::Text(text)),
        ),
    }
}

/// How the first `k` queries are written.
pub open spec fn written_all(queries: Seq<QueryView>, k: int) -> Seq<JsonView>
    decreases queries, k,
{
    if k <= 0 || k > queries.len() {
        Seq::empty()
    } else {
        written_all(queries, k - 1).push(written(queries[k - 1]))
    }
}

/// Whether a query can be written: no bound of a range in it is null, and no fuzziness goes beyond
/// what a number in JSON holds.
pub open spec fn can_be_written(query: QueryView) -> bool
    decreases query, 0int,
{
    match query {
        QueryView::Range(range) => {
            &&& range.gte != Some(JsonView::Null)
            &&& range.gt != Some(JsonView::Null)
            &&& range.lte != Some(JsonView::Null)
            &&& range.lt != Some(JsonView::Null)
        },
        QueryView::Bool { must, should, filter, must_not, minimum_should_match } => {
            &&& all_can_be_written(must, must.len() as int)
            &&& all_can_be_written(should, should.len() as int)
            &&& all_can_be_written(filter, filter.len() as int)
            &&& all_can_be_written(must_not, must_not.len() as int)
        },
        _ => true,
    }
}

/// Whether the first `k` queries can be written.
pub open spec fn all_can_be_written(queries: Seq<QueryView>, k: int) -> bool
    decreases queries, k,
{
    k <= 0 || k > queries.len() || (all_can_be_written(queries, k - 1) && can_be_written(
        queries[k - 1],
    ))
}

/// The names that queries are written with are different.
pub(crate) proof fn lemma_kinds_differ()
    ensures
        "match_all"@ != "term"@,
        "match_all"@ != "terms"@,
        "match_all"@ != "range"@,
        "match_all"@ != "bool"@,
        "match_all"@ != "prefix"@,
        "match_all"@ != "wildcard"@,
        "match_all"@ != "match"@,
        "match_all"@ != "phrase"@,
        "term"@ != "terms"@,
        "term"@ != "range"@,
        "term"@ != "bool"@,
        "term"@ != "prefix"@,
        "term"@ != "wildcard"@,
        "term"@ != "match"@,
        "term"@ != "phrase"@,
        "terms"@ != "range"@,
        "terms"@ != "bool"@,
        "terms"@ != "prefix"@,
        "terms"@ != "wildcard"@,
        "terms"@ != "match"@,
        "terms"@ != "phrase"@,
        "range"@ != "bool"@,
        "range"@ != "prefix"@,
        "range"@ != "wildcard"@,
        "range"@ != "match"@,
        "range"@ != "phrase"@,
        "bool"@ != "prefix"@,
        "bool"@ != "wildcard"@,
        "bool"@ != "match"@,
        "bool"@ != "phrase"@,
        "prefix"@ != "wildcard"@,
        "prefix"@ != "match"@,
        "prefix"@ != "phrase"@,
        "wildcard"@ != "match"@,
        "wildcard"@ != "phrase"@,
        "match"@ != "phrase"@,
{
    reveal_strlit("match_all");
    reveal_strlit("term");
    reveal_strlit("terms");
    reveal_strlit("range");
    reveal_strlit("bool");
    reveal_strlit("prefix");
    reveal_strlit("wildcard");
    reveal_strlit("match");
    reveal_strlit("phrase");
    assert("match_all"@.len() == 9 && "match"@.len() == 5 && "wildcard"@.len() == 8);
    assert("term"@.len() == 4 && "terms"@.len() == 5);
    assert("term"@[0] == 't' && "bool"@[0] == 'b');
    assert("terms"@[0] == 't' && "range"@[0] == 'r' && "match"@[0] == 'm');
    assert("prefix"@[1] == 'r' && "phrase"@[1] == 'h');
}

/// The names of the members that queries are written with are different.
proof fn lemma_names_differ()
    ensures
        "field"@ != "value"@,
        "field"@ != "values"@,
        "field"@ != "fuzziness"@,
        "value"@ != "fuzziness"@,
        "field"@ != "gte"@,
        "field"@ != "gt"@,
        "field"@ != "lte"@,
        "field"@ != "lt"@,
        "gte"@ != "gt"@,
        "gte"@ != "lte"@,
        "gte"@ != "lt"@,
        "gt"@ != "lte"@,
        "gt"@ != "lt"@,
        "lte"@ != "lt"@,
{
    reveal_strlit("field");
    reveal_strlit("value");
    reveal_strlit("values");
    reveal_strlit("fuzziness");
    reveal_strlit("gte");
    reveal_strlit("gt");
    reveal_strlit("lte");
    reveal_strlit("lt");
    assert("field"@.len() == 5 && "fuzziness"@.len() == 9);
    assert("gte"@.len() == 3 && "gt"@.len() == 2 && "lte"@.len() == 3 && "lt"@.len() == 2);
    assert("field"@[0] == 'f' && "value"@[0] == 'v');
    assert("gte"@[0] == 'g' && "lte"@[0] == 'l');
    assert("gt"@[0] == 'g' && "lt"@[0] == 'l');
}

/// The names of the parts of a combination are different.
proof fn lemma_parts_differ()
    ensures
        "must"@ != "should"@,
        "must"@ != "filter"@,
        "must"@ != "must_not"@,
        "must"@ != "minimum_should_match"@,
        "should"@ != "filter"@,
        "should"@ != "must_not"@,
        "should"@ != "minimum_should_match"@,
        "filter"@ != "must_not"@,
        "filter"@ != "minimum_should_match"@,
        "must_not"@ != "minimum_should_match"@,
{
    reveal_strlit("must");
    reveal_strlit("should");
    reveal_strlit("filter");
    reveal_strlit("must_not");
    reveal_strlit("minimum_should_match");
    assert("must"@.len() == 4 && "must_not"@.len() == 8 && "minimum_should_match"@.len() == 20);
    assert("should"@[0] == 's' && "filter"@[0] == 'f');
}

/// The members of an object with five members.
proof fn lemma_five_members(members: Seq<(Seq<char>, JsonView)>)
    requires
        members.len() == 5,
        forall|i: int, j: int|
            0 <= i < j < 5 ==> (#[trigger] members[i]).0 != (#[trigger] members[j]).0,
    ensures
        forall|i: int|
            0 <= i < 5 ==> find_member(members, (#[trigger] members[i]).0) == Some(members[i].1),
{
    assert forall|i: int| 0 <= i < 5 implies find_member(members, (#[trigger] members[i]).0)
        == Some(members[i].1) by {
        lemma_member_at(members, i);
    }
}

pub(crate) proof fn lemma_member_at(members: Seq<(Seq<char>, JsonView)>, i: int)
    requires
        0 <= i < members.len(),
        forall|i: int, j: int|
            0 <= i < j < members.len() ==> (#[trigger] members[i]).0 != (#[trigger] members[j]).0,
    ensures
        find_member(members, members[i].0) == Some(members[i].1),
    decreases members.len(),
{
    if i > 0 {
        let rest = members.drop_first();
        assert forall|i: int, j: int| 0 <= i < j < rest.len() implies (#[trigger] rest[i]).0 != (
        #[trigger] rest[j]).0 by {
            assert(members[i + 1].0 != members[j + 1].0);
        }
        assert(members[0].0 != members[i].0);
        assert(rest[i - 1] == members[i]);
        lemma_member_at(rest, i - 1);
    }
}

pub(crate) proof fn lemma_no_member(members: Seq<(Seq<char>, JsonView)>, name: Seq<char>)
    requires
        forall|i: int| 0 <= i < members.len() ==> (#[trigger] members[i]).0 != name,
    ensures
        find_member(members, name) is None,
    decreases members.len(),
{
    if members.len() > 0 {
        let rest = members.drop_first();
        assert forall|i: int| 0 <= i < rest.len() implies (#[trigger] rest[i]).0 != name by {
            assert(members[i + 1] == rest[i]);
        }
        assert(members[0].0 != name);
        lemma_no_member(rest, name);
    }
}

proof fn lemma_term_comes_back(field: Seq<char>, value: JsonView, fuzziness: Option<Fuzziness>)
    ensures
        parsed_term(written_term(field, value, fuzziness)) == Ok::<_, Refusal>(
            QueryView::Term { field, value, fuzziness },
        ),
{
    lemma_names_differ();
    let form = written_term(field, value, fuzziness);
    let members = form->Object_0;
    assert(members[0].0 == "field"@);
    assert(members[1].0 == "value"@);
    lemma_member_at(members, 0);
    lemma_member_at(members, 1);
    match fuzziness {
        None => {
            lemma_no_member(members, "fuzziness"@);
        },
        Some(f) => {
            assert(members[2].0 == "fuzziness"@);
            lemma_member_at(members, 2);
            reveal_strlit("auto");
            assert(crate::text::lower_all("auto"@) =~= "auto"@);
        },
    }
}

proof fn lemma_range_comes_back(range: RangeView)
    requires
        can_be_written(QueryView::Range(range)),
    ensures
        parsed_range(written_range(range)) == Ok::<_, Refusal>(range),
{
    lemma_names_differ();
    let members = written_range(range)->Object_0;
    lemma_five_members(members);
    assert(members[0].0 == "field"@);
    assert(members[1].0 == "gte"@);
    assert(members[2].0 == "gt"@);
    assert(members[3].0 == "lte"@);
    assert(members[4].0 == "lt"@);
}

proof fn lemma_explicit_members(field: Seq<char>, name: Seq<char>, value: JsonView)
    requires
        name != "field"@,
    ensures
        explicit_form(field, name, value).member("field"@) == Some(JsonView::Text(field)),
        explicit_form(field, name, value).member(name) == Some(value),
{
    let members = explicit_form(field, name, value)->Object_0;
    assert(members[0].0 == "field"@);
    assert(members[1].0 == name);
    lemma_member_at(members, 0);
    lemma_member_at(members, 1);
}

proof fn lemma_all_come_back(queries: Seq<QueryView>, k: int)
    requires
        0 <= k <= queries.len(),
        all_can_be_written(queries, queries.len() as int),
    ensures
        written_all(queries, k).len() == k,
        parsed_items(written_all(queries, k), k) == Ok::<_, Refusal>(queries.take(k)),
    decreases queries, k,
{
    if k > 0 {
        lemma_each_can_be_written(queries, queries.len() as int, k);
        lemma_all_come_back(queries, k - 1);
        queries_come_back(queries[k - 1]);
        let items = written_all(queries, k);
        let before = written_all(queries, k - 1);
        assert(items.drop_last() =~= before);
        lemma_items_of_part(before, items, k - 1);
        assert(items[k - 1] == written(queries[k - 1]));
        assert(queries.take(k) =~= queries.take(k - 1).push(queries[k - 1]));
    } else {
        assert(queries.take(k) =~= Seq::empty());
    }
}

proof fn lemma_each_can_be_written(queries: Seq<QueryView>, n: int, k: int)
    requires
        0 < k <= n <= queries.len(),
        all_can_be_written(queries, n),
    ensures
        can_be_written(queries[k - 1]),
    decreases n,
{
    if k < n {
        lemma_each_can_be_written(queries, n - 1, k);
    }
}

proof fn lemma_items_of_part(part: Seq<JsonView>, whole: Seq<JsonView>, k: int)
    requires
        0 <= k <= part.len() <= whole.len(),
        forall|i: int| 0 <= i < part.len() ==> #[trigger] part[i] == whole[i],
    ensures
        parsed_items(part, k) == parsed_items(whole, k),
    decreases k,
{
    if k > 0 {
        lemma_items_of_part(part, whole, k - 1);
        assert(part[k - 1] == whole[k - 1]);
    }
}

proof fn lemma_bool_comes_back(query: QueryView)
    requires
        query is Bool,
        can_be_written(query),
    ensures
        parsed_bool(written(query)->Object_0[0].1) == Ok::<_, Refusal>(query),
    decreases query, 1int,
{
    if let QueryView::Bool { must, should, filter, must_not, minimum_should_match } = query {
        lemma_parts_differ();
        let body = written(query)->Object_0[0].1;
        let members = body->Object_0;
        lemma_five_members(members);
        assert(members[0].0 == "must"@);
        assert(members[1].0 == "should"@);
        assert(members[2].0 == "filter"@);
        assert(members[3].0 == "must_not"@);
        assert(members[4].0 == "minimum_should_match"@);
        lemma_no_foreign(members);
        lemma_clauses_come_back(body, "must"@, "bool.must"@, must);
        lemma_clauses_come_back(body, "should"@, "bool.should"@, should);
        lemma_clauses_come_back(body, "filter"@, "bool.filter"@, filter);
        lemma_clauses_come_back(body, "must_not"@, "bool.must_not"@, must_not);
    }
}

proof fn lemma_clauses_come_back(
    body: JsonView,
    name: Seq<char>,
    title: Seq<char>,
    queries: Seq<QueryView>,
)
    requires
        body.member(name) == Some(JsonView::Array(written_all(queries, queries.len() as int))),
        all_can_be_written(queries, queries.len() as int),
    ensures
        parsed_clauses(body, name, title) == Ok::<_, Refusal>(queries),
    decreases queries, queries.len() + 1,
{
    lemma_all_come_back(queries, queries.len() as int);
    assert(queries.take(queries.len() as int) =~= queries);
}

proof fn lemma_no_foreign(members: Seq<(Seq<char>, JsonView)>)
    requires
        forall|i: int|
            0 <= i < members.len() ==> crate::requests::is_bool_clause((#[trigger] members[i]).0),
    ensures
        crate::requests::foreign_clause(members) is None,
    decreases members.len(),
{
    if members.len() > 0 {
        let rest = members.drop_first();
        assert forall|i: int| 0 <= i < rest.len() implies crate::requests::is_bool_clause(
            (#[trigger] rest[i]).0,
        ) by {
            assert(members[i + 1] == rest[i]);
        }
        lemma_no_foreign(rest);
        assert(crate::requests::is_bool_clause(members[0].0));
    }
}

/// A query that is written in JSON is read as that query, whatever its kind.
pub proof fn queries_come_back(query: QueryView)
    requires
        can_be_written(query),
    ensures
        parsed_query(written(query)) == Ok::<_, Refusal>(query),
    decreases query, 2int,
{
    lemma_kinds_differ();
    lemma_names_differ();
    match query {
        QueryView::MatchAll => {},
        QueryView::Term { field, value, fuzziness } => {
            lemma_term_comes_back(field, value, fuzziness);
        },
        QueryView::Terms { field, values } => {
            lemma_explicit_members(field, "values"@, JsonView::Array(values));
        },
        QueryView::Range(range) => {
            lemma_range_comes_back(range);
        },
        QueryView::Bool { must, should, filter, must_not, minimum_should_match } => {
            lemma_bool_comes_back(query);
        },
        QueryView::Prefix { field, text } => {
            lemma_explicit_members(field, "value"@, JsonView::Text(text));
        },
        QueryView::Wildcard { field, text } => {
            lemma_explicit_members(field, "value"@, JsonView::Text(text));
        },
        QueryView::Match { field, text } => {
            lemma_explicit_members(field, "value"@, JsonView::Text(text));
        },
        QueryView::Phrase { field, text } => {
            lemma_explicit_members(field, "value"@, JsonView::Text(text));
        },
    }
}

/// The short form of a range has its field as the name of the one member and the bounds in it.
pub proof fn short_ranges_are_read(range: RangeView)
    requires
        can_be_written(QueryView::Range(range)),
        range.field != "field"@,
    ensures
        parsed_range(
            short_form(
                range.field,
                JsonView::Object(
                    seq![
                        ("gte"@, or_null(range.gte)),
                        ("gt"@, or_null(range.gt)),
                        ("lte"@, or_null(range.lte)),
                        ("lt"@, or_null(range.lt)),
                    ],
                ),
            ),
        ) == Ok::<_, Refusal>(range),
{
    lemma_names_differ();
    let bounds = seq![
        ("gte"@, or_null(range.gte)),
        ("gt"@, or_null(range.gt)),
        ("lte"@, or_null(range.lte)),
        ("lt"@, or_null(range.lt)),
    ];
    assert(bounds[0].0 == "gte"@);
    assert(bounds[1].0 == "gt"@);
    assert(bounds[2].0 == "lte"@);
    assert(bounds[3].0 == "lt"@);
    lemma_member_at(bounds, 0);
    lemma_member_at(bounds, 1);
    lemma_member_at(bounds, 2);
    lemma_member_at(bounds, 3);
    let form = short_form(range.field, JsonView::Object(bounds));
    lemma_no_member(form->Object_0, "field"@);
}

/// What is no object with one member is no query.
pub proof fn queries_have_one_clause(value: JsonView)
    ensures
        parsed_query(value) is Ok ==> (value matches JsonView::Object(members) && members.len() == 1),
{
}

/// How a sort is written.
pub open spec fn written_sort(sort: SortView) -> JsonView {
    explicit_form(
        sort.field,
        "order"@,
        JsonView::Text(
            match sort.order {
                SortOrder::Asc => "asc"@,
                SortOrder::Desc => "desc"@,
            },
        ),
    )
}

pub(crate) proof fn lemma_orders_differ()
    ensures
        "order"@ != "field"@,
        "asc"@ != "desc"@,
{
    reveal_strlit("order");
    reveal_strlit("field");
    reveal_strlit("asc");
    reveal_strlit("desc");
    assert("order"@[0] == 'o' && "field"@[0] == 'f');
    assert("asc"@.len() == 3 && "desc"@.len() == 4);
}

/// A sort that is written with its field and its order is read as that sort.
pub proof fn sorts_come_back(sort: SortView)
    ensures
        parsed_sort(written_sort(sort)) == Ok::<_, Refusal>(sort),
{
    lemma_orders_differ();
    lemma_explicit_members(sort.field, "order"@, written_sort(sort)->Object_0[1].1);
}

/// The short form of a sort has its field as the name of the one member, alone or as the one item
/// of an array. It ascends where it does not say otherwise.
pub proof fn short_sorts_are_read(field: Seq<char>, order: SortOrder)
    requires
        field != "field"@,
    ensures
        ({
            let word = match order {
                SortOrder::Asc => "asc"@,
                SortOrder::Desc => "desc"@,
            };
            let said = short_form(field, short_form("order"@, JsonView::Text(word)));
            let unsaid = short_form(field, JsonView::Object(Seq::empty()));
            &&& parsed_sort(said) == Ok::<_, Refusal>(SortView { field, order })
            &&& parsed_sort(JsonView::Array(seq![said])) == Ok::<_, Refusal>(
                SortView { field, order },
            )
            &&& parsed_sort(unsaid) == Ok::<_, Refusal>(SortView { field, order: SortOrder::Asc })
        }),
{
    lemma_orders_differ();
    let word = match order {
        SortOrder::Asc => "asc"@,
        SortOrder::Desc => "desc"@,
    };
    let inner = short_form("order"@, JsonView::Text(word));
    let said = short_form(field, inner);
    let unsaid = short_form(field, JsonView::Object(Seq::empty()));
    lemma_member_at(inner->Object_0, 0);
    assert(inner.member("order"@) == Some(JsonView::Text(word)));
    lemma_no_member(said->Object_0, "field"@);
    lemma_no_member(unsaid->Object_0, "field"@);
    assert(JsonView::Object(Seq::empty()).member("order"@) is None);
}

/// How an aggregation is written.
pub open spec fn written_aggregation(aggregation: AggregationView) -> JsonView {
    match aggregation {
        AggregationView::Terms(field) => short_form(
            "terms"@,
            short_form("field"@, JsonView::Text(field)),
        ),
        AggregationView::Stats(field) => short_form(
            "stats"@,
            short_form("field"@, JsonView::Text(field)),
        ),
        AggregationView::DateHistogram(field, interval) => short_form(
            "date_histogram"@,
            explicit_form(
                field,
                "interval"@,
                JsonView::Text(
                    match interval {
                        DateHistogramInterval::Minute => "minute"@,
                        DateHistogramInterval::Hour => "hour"@,
                        DateHistogramInterval::Day => "day"@,
                    },
                ),
            ),
        ),
    }
}

/// An aggregation that is written in JSON is read as that aggregation.
pub proof fn aggregations_come_back(aggregation: AggregationView)
    ensures
        parsed_aggregation(written_aggregation(aggregation)) == Some(aggregation),
{
    reveal_strlit("terms");
    reveal_strlit("stats");
    reveal_strlit("date_histogram");
    reveal_strlit("field");
    reveal_strlit("interval");
    reveal_strlit("minute");
    reveal_strlit("hour");
    reveal_strlit("day");
    assert("terms"@.len() == 5 && "stats"@.len() == 5 && "date_histogram"@.len() == 14);
    assert("terms"@[0] == 't' && "stats"@[0] == 's');
    assert("field"@.len() == 5 && "interval"@.len() == 8);
    assert("minute"@.len() == 6 && "hour"@.len() == 4 && "day"@.len() == 3);
    match aggregation {
        AggregationView::Terms(field) => {
            lemma_member_at(short_form("field"@, JsonView::Text(field))->Object_0, 0);
        },
        AggregationView::Stats(field) => {
            lemma_member_at(short_form("field"@, JsonView::Text(field))->Object_0, 0);
        },
        AggregationView::DateHistogram(field, interval) => {
            let body = written_aggregation(aggregation)->Object_0[0].1;
            lemma_explicit_members(field, "interval"@, body->Object_0[1].1);
        },
    }
}

/// Whether the map has the aggregations of the list under their names, and nothing else.
pub open spec fn has_named(
    map: Map<Seq<char>, AggregationView>,
    list: Seq<(Seq<char>, AggregationView)>,
) -> bool {
    &&& forall|i: int|
        0 <= i < list.len() ==> map.contains_key((#[trigger] list[i]).0) && map[list[i].0]
            == list[i].1
    &&& forall|name: Seq<char>| #[trigger]
        map.contains_key(name) ==> exists|i: int| 0 <= i < list.len() && (#[trigger] list[i]).0 == name
}

/// How named aggregations are written.
pub open spec fn written_aggregations(list: Seq<(Seq<char>, AggregationView)>) -> Seq<
    (Seq<char>, JsonView),
> {
    Seq::new(list.len(), |i: int| (list[i].0, written_aggregation(list[i].1)))
}

proof fn lemma_named(list: Seq<(Seq<char>, AggregationView)>, k: int)
    requires
        0 <= k <= list.len(),
        forall|i: int, j: int|
            0 <= i < j < list.len() ==> (#[trigger] list[i]).0 != (#[trigger] list[j]).0,
    ensures
        parsed_aggregations(written_aggregations(list), k) matches Some(map) && has_named(
            map,
            list.take(k),
        ),
    decreases k,
{
    let members = written_aggregations(list);
    if k > 0 {
        lemma_named(list, k - 1);
        aggregations_come_back(list[k - 1].1);
        assert(members[k - 1] == (list[k - 1].0, written_aggregation(list[k - 1].1)));
        let before = parsed_aggregations(members, k - 1)->0;
        let map = parsed_aggregations(members, k)->0;
        let less = list.take(k - 1);
        let more = list.take(k);
        assert(map == before.insert(list[k - 1].0, list[k - 1].1));
        assert forall|i: int| 0 <= i < more.len() implies map.contains_key((#[trigger] more[i]).0)
            && map[more[i].0] == more[i].1 by {
            assert(more[i] == list[i]);
            if i < k - 1 {
                assert(less[i] == list[i]);
                assert(list[i].0 != list[k - 1].0);
            }
        }
        assert forall|name: Seq<char>| #[trigger] map.contains_key(name) implies exists|i: int|
            0 <= i < more.len() && (#[trigger] more[i]).0 == name by {
            if name == list[k - 1].0 {
                assert(more[k - 1].0 == name);
            } else {
                assert(before.contains_key(name));
                let i = choose|i: int| 0 <= i < less.len() && (#[trigger] less[i]).0 == name;
                assert(more[i] == less[i]);
            }
        }
    }
}

/// Aggregations that are written in JSON are read as those aggregations under their names.
pub proof fn named_aggregations_come_back(list: Seq<(Seq<char>, AggregationView)>)
    requires
        forall|i: int, j: int|
            0 <= i < j < list.len() ==> (#[trigger] list[i]).0 != (#[trigger] list[j]).0,
    ensures
        aggregations_in(JsonView::Object(written_aggregations(list))) matches Ok(map) && has_named(
            map,
            list,
        ),
{
    lemma_named(list, list.len() as int);
    assert(list.take(list.len() as int) =~= list);
}

/// How a request is written.
pub open spec fn written_request(
    query: Option<QueryView>,
    from: Option<usize>,
    size: Option<usize>,
    sort: Option<SortView>,
    aggregations: Option<Seq<(Seq<char>, AggregationView)>>,
) -> JsonView {
    JsonView::Object(
        seq![
            (
                "query"@,
                match query {
                    Some(query) => written(query),
                    None => JsonView::Null,
                },
            ),
            (
                "from"@,
                match from {
                    Some(n) => natural(n as u64),
                    None => JsonView::Null,
                },
            ),
            (
                "size"@,
                match size {
                    Some(n) => natural(n as u64),
                    None => JsonView::Null,
                },
            ),
            (
                "sort"@,
                match sort {
                    Some(sort) => written_sort(sort),
                    None => JsonView::Null,
                },
            ),
            (
                "aggs"@,
                match aggregations {
                    Some(list) => JsonView::Object(written_aggregations(list)),
                    None => JsonView::Null,
                },
            ),
        ],
    )
}

proof fn lemma_request_names_differ()
    ensures
        "query"@ != "from"@,
        "query"@ != "size"@,
        "query"@ != "sort"@,
        "query"@ != "aggs"@,
        "from"@ != "size"@,
        "from"@ != "sort"@,
        "from"@ != "aggs"@,
        "size"@ != "sort"@,
        "size"@ != "aggs"@,
        "sort"@ != "aggs"@,
{
    reveal_strlit("query");
    reveal_strlit("from");
    reveal_strlit("size");
    reveal_strlit("sort");
    reveal_strlit("aggs");
    assert("query"@.len() == 5 && "from"@.len() == 4 && "size"@.len() == 4);
    assert("sort"@.len() == 4 && "aggs"@.len() == 4);
    assert("from"@[0] == 'f' && "size"@[0] == 's' && "sort"@[0] == 's' && "aggs"@[0] == 'a');
    assert("size"@[1] == 'i' && "sort"@[1] == 'o');
}

/// A request that is written in JSON is read as that request, each part of it as it was written and
/// nothing where there was none.
pub proof fn requests_come_back(
    query: Option<QueryView>,
    from: Option<usize>,
    size: Option<usize>,
    sort: Option<SortView>,
    aggregations: Option<Seq<(Seq<char>, AggregationView)>>,
)
    requires
        query matches Some(q) ==> can_be_written(q),
        aggregations matches Some(list) ==> forall|i: int, j: int|
            0 <= i < j < list.len() ==> (#[trigger] list[i]).0 != (#[trigger] list[j]).0,
    ensures
        parsed_request(written_request(query, from, size, sort, aggregations)) matches Ok(request) && {
            &&& request.query == query
            &&& request.from == from
            &&& request.size == size
            &&& request.sort == sort
            &&& request.search_after is None
            &&& match aggregations {
                Some(list) => request.aggs matches Some(map) && has_named(map, list),
                None => request.aggs is None,
            }
        },
{
    lemma_request_names_differ();
    let value = written_request(query, from, size, sort, aggregations);
    let members = value->Object_0;
    lemma_five_members(members);
    assert(members[0].0 == "query"@);
    assert(members[1].0 == "from"@);
    assert(members[2].0 == "size"@);
    assert(members[3].0 == "sort"@);
    assert(members[4].0 == "aggs"@);
    if let Some(q) = query {
        queries_come_back(q);
        assert(written(q) is Object);
    }
    if let Some(s) = sort {
        sorts_come_back(s);
    }
    if let Some(list) = aggregations {
        named_aggregations_come_back(list);
    }
}

/// Whether a text is the name of a kind of query.
pub open spec fn is_kind_of_query(name: Seq<char>) -> bool {
    ||| name == "match_all"@
    ||| name == "term"@
    ||| name == "terms"@
    ||| name == "range"@
    ||| name == "bool"@
    ||| name == "prefix"@
    ||| name == "wildcard"@
    ||| name == "match"@
    ||| name == "phrase"@
}

/// A query of an unknown kind is refused, and a known one never made another kind.
pub proof fn queries_are_of_the_kind_they_name(name: Seq<char>, body: JsonView)
    ensures
        ({
            let outcome = parsed_query(short_form(name, body));
            &&& !is_kind_of_query(name) ==> outcome is Err
            &&& outcome matches Ok(query) ==> match query {
                QueryView::MatchAll => name == "match_all"@,
                QueryView::Term { .. } => name == "term"@,
                QueryView::Terms { .. } => name == "terms"@,
                QueryView::Range(_) => name == "range"@,
                QueryView::Bool { .. } => name == "bool"@,
                QueryView::Prefix { .. } => name == "prefix"@,
                QueryView::Wildcard { .. } => name == "wildcard"@,
                QueryView::Match { .. } => name == "match"@,
                QueryView::Phrase { .. } => name == "phrase"@,
            }
        }),
{
    let members = short_form(name, body)->Object_0;
    assert(members[0] == (name, body));
}

/// A count is a non-negative integer, and anything else is refused.
pub proof fn counts_are_natural_numbers(value: JsonView, name: Seq<char>)
    ensures
        match value {
            JsonView::Number(NumberView::PosInt(n)) => n <= usize::MAX ==> parsed_count(value, name)
                == Ok::<usize, Refusal>(n as usize),
            _ => parsed_count(value, name) is Err,
        },
{
}

/// The fuzziness of a term is a non-negative integer or the word `auto` in any case, and anything
/// else is refused.
pub proof fn fuzziness_is_a_number_or_auto(field: Seq<char>, value: JsonView, fuzziness: JsonView)
    ensures
        ({
            let term = JsonView::Object(
                seq![
                    ("field"@, JsonView::Text(field)),
                    ("value"@, value),
                    ("fuzziness"@, fuzziness),
                ],
            );
            match fuzziness {
                JsonView::Number(NumberView::PosInt(n)) => n <= usize::MAX ==> parsed_term(term)
                    == Ok::<QueryView, Refusal>(
                    QueryView::Term {
                        field,
                        value,
                        fuzziness: Some(Fuzziness::Exact(n as usize)),
                    },
                ),
                JsonView::Text(text) => if crate::text::lower_all(text) == "auto"@ {
                    parsed_term(term) == Ok::<QueryView, Refusal>(
                        QueryView::Term { field, value, fuzziness: Some(Fuzziness::Auto) },
                    )
                } else {
                    parsed_term(term) is Err
                },
                _ => parsed_term(term) is Err,
            }
        }),
{
    lemma_names_differ();
    let members = seq![
        ("field"@, JsonView::Text(field)),
        ("value"@, value),
        ("fuzziness"@, fuzziness),
    ];
    assert(members[0].0 == "field"@);
    assert(members[1].0 == "value"@);
    assert(members[2].0 == "fuzziness"@);
    lemma_member_at(members, 0);
    lemma_member_at(members, 1);
    lemma_member_at(members, 2);
}

proof fn lemma_foreign(members: Seq<(Seq<char>, JsonView)>, i: int)
    requires
        0 <= i < members.len(),
        !crate::requests::is_bool_clause(members[i].0),
    ensures
        crate::requests::foreign_clause(members) is Some,
    decreases members.len(),
{
    if i > 0 {
        assert(members.drop_first()[i - 1] == members[i]);
        lemma_foreign(members.drop_first(), i - 1);
    }
}

/// A combination with a member of another name than those of its parts is refused.
pub proof fn combinations_have_no_other_parts(members: Seq<(Seq<char>, JsonView)>, i: int)
    requires
        0 <= i < members.len(),
        members[i].0 != "must"@,
        members[i].0 != "should"@,
        members[i].0 != "filter"@,
        members[i].0 != "must_not"@,
        members[i].0 != "minimum_should_match"@,
    ensures
        parsed_bool(JsonView::Object(members)) is Err,
{
    lemma_foreign(members, i);
}

/// What is no object is no request.
pub proof fn requests_are_objects(value: JsonView)
    ensures
        parsed_request(value) is Ok ==> value is Object,
{
}

/// A sort can be written as an array of its field and its order, and an order as an object whose one
/// member has the word as its name.
pub proof fn sorts_have_other_forms(sort: SortView)
    ensures
        ({
            let word = match sort.order {
                SortOrder::Asc => "asc"@,
                SortOrder::Desc => "desc"@,
            };
            let text = JsonView::Text(word);
            let object = short_form(word, JsonView::Null);
            &&& parsed_sort(JsonView::Array(seq![JsonView::Text(sort.field), text])) == Ok::<
                _,
                Refusal,
            >(sort)
            &&& parsed_sort(JsonView::Array(seq![JsonView::Text(sort.field), object])) == Ok::<
                _,
                Refusal,
            >(sort)
        }),
{
    lemma_orders_differ();
}

/// An order that is neither of the two words is refused.
pub proof fn sorts_have_one_of_two_orders(field: Seq<char>, word: Seq<char>)
    requires
        word != "asc"@,
        word != "desc"@,
    ensures
        parsed_sort(short_form(field, short_form("order"@, JsonView::Text(word)))) is Err,
{
    lemma_orders_differ();
    let inner = short_form("order"@, JsonView::Text(word));
    let outer = short_form(field, inner);
    lemma_member_at(inner->Object_0, 0);
    assert(inner.member("order"@) == Some(JsonView::Text(word)));
    assert(outer->Object_0[0] == (field, inner));
    if field != "order"@ {
        lemma_no_member(outer->Object_0, "order"@);
    } else {
        lemma_member_at(outer->Object_0, 0);
    }
    if field != "field"@ {
        lemma_no_member(outer->Object_0, "field"@);
    } else {
        lemma_member_at(outer->Object_0, 0);
    }
}

/// An item of a combination that is null stands for no clause.
pub proof fn null_is_no_clause(items: Seq<JsonView>)
    ensures
        parsed_items(items.push(JsonView::Null), items.len() as int + 1) == parsed_items(
            items,
            items.len() as int,
        ),
{
    let more = items.push(JsonView::Null);
    lemma_items_of_part(items, more, items.len() as int);
    assert(more[items.len() as int] is Null);
}

/// Aggregations can be named by the longer word too.
pub proof fn aggregations_have_two_names(list: Seq<(Seq<char>, AggregationView)>)
    requires
        forall|i: int, j: int|
            0 <= i < j < list.len() ==> (#[trigger] list[i]).0 != (#[trigger] list[j]).0,
    ensures
        parsed_request(
            short_form("aggregations"@, JsonView::Object(written_aggregations(list))),
        ) matches Ok(request) && request.query is None && request.from is None && request.size
            is None && request.sort is None && (request.aggs matches Some(map) && has_named(
            map,
            list,
        )),
{
    reveal_strlit("aggregations");
    reveal_strlit("aggs");
    reveal_strlit("query");
    reveal_strlit("from");
    reveal_strlit("size");
    reveal_strlit("sort");
    assert("aggregations"@.len() == 12 && "aggs"@.len() == 4 && "query"@.len() == 5);
    assert("from"@.len() == 4 && "size"@.len() == 4 && "sort"@.len() == 4);
    let value = short_form("aggregations"@, JsonView::Object(written_aggregations(list)));
    let members = value->Object_0;
    assert(members[0].0 == "aggregations"@);
    lemma_member_at(members, 0);
    lemma_no_member(members, "aggs"@);
    lemma_no_member(members, "query"@);
    lemma_no_member(members, "from"@);
    lemma_no_member(members, "size"@);
    lemma_no_member(members, "sort"@);
    named_aggregations_come_back(list);
}

/// A combination says how many of its optional clauses have to match by a natural number. Anything
/// else says nothing, and a number beyond 32 bits is refused.
pub proof fn minimum_is_a_natural_number(value: JsonView)
    ensures
        match value.member("minimum_should_match"@) {
            Some(JsonView::Number(NumberView::PosInt(n))) => if n < 0x1_0000_0000 {
                parsed_minimum(value) == Ok::<Option<u32>, Refusal>(Some(n as u32))
            } else {
                parsed_minimum(value) is Err
            },
            _ => parsed_minimum(value) == Ok::<Option<u32>, Refusal>(None),
        },
{
}

} // verus!
