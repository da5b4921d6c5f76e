//! Which requests are refused: each query, sort and aggregation has its forms and no others.
use vstd::prelude::*;

use crate::guarantees::reading::lemma_kinds_differ;
use crate::guarantees::reading::lemma_member_at;
use crate::guarantees::reading::lemma_no_member;
use crate::guarantees::reading::lemma_orders_differ;
use crate::json::text_member;
use crate::json::JsonView;
use crate::requests::parsed_aggregation;
use crate::requests::parsed_clauses;
use crate::requests::parsed_fuzziness;
use crate::requests::parsed_items;
use crate::requests::parsed_query;
use crate::requests::parsed_sort;
use crate::requests::short_form;
use crate::requests::AggregationView;
use crate::requests::Refusal;
use crate::requests::SortView;
use crate::types::QueryView;
use crate::types::SortOrder;

verus! {

/// Whether a query of that kind looks for a text in a field.
pub open spec fn is_kind_of_text_query(kind: Seq<char>) -> bool {
    kind == "prefix"@ || kind == "wildcard"@ || kind == "match"@ || kind == "phrase"@
}

/// The field and the text that a query looks for.
pub open spec fn text_sought(query: QueryView) -> Option<(Seq<char>, Seq<char>)> {
    match query {
        QueryView::Prefix { field, text } => Some((field, text)),
        QueryView::Wildcard { field, text } => Some((field, text)),
        QueryView::Match { field, text } => Some((field, text)),
        QueryView::Phrase { field, text } => Some((field, text)),
        _ => None,
    }
}

/// A query for a text is written with its field and its value and nothing else, or as one field
/// with the text. It is refused in any other form.
pub proof fn text_queries_have_two_forms(kind: Seq<char>, members: Seq<(Seq<char>, JsonView)>)
    requires
        is_kind_of_text_query(kind),
    ensures
        ({
            let body = JsonView::Object(members);
            let outcome = parsed_query(short_form(kind, body));
            let field = body.member("field"@);
            let value = body.member("value"@);
            let long = members.len() == 2 && field is Some && field->0 is Text && value is Some
                && value->0 is Text;
            let short = members.len() == 1 && field is None && value is None && members[0].1
                is Text;
            &&& outcome is Ok <==> long || short
            &&& long ==> text_sought(outcome->Ok_0) == Some((field->0->Text_0, value->0->Text_0))
            &&& short ==> text_sought(outcome->Ok_0) == Some((members[0].0, members[0].1->Text_0))
        }),
{
    lemma_kinds_differ();
    let outer = short_form(kind, JsonView::Object(members))->Object_0;
    assert(outer[0] == (kind, JsonView::Object(members)));
}

/// A term is written with its field and its value, or as one field with the value. It is refused in
/// any other form, and where its fuzziness is.
pub proof fn terms_have_two_forms(members: Seq<(Seq<char>, JsonView)>)
    ensures
        ({
            let body = JsonView::Object(members);
            let outcome = parsed_query(short_form("term"@, body));
            let field = body.member("field"@);
            let value = body.member("value"@);
            let long = field is Some && field->0 is Text && value is Some;
            let short = members.len() == 1 && field is None && value is None;
            &&& outcome is Ok <==> parsed_fuzziness(body) is Ok && (long || short)
            &&& outcome is Ok && long ==> outcome->Ok_0 == (QueryView::Term {
                field: field->0->Text_0,
                value: value->0,
                fuzziness: parsed_fuzziness(body)->Ok_0,
            })
            &&& outcome is Ok && short ==> outcome->Ok_0 == (QueryView::Term {
                field: members[0].0,
                value: members[0].1,
                fuzziness: parsed_fuzziness(body)->Ok_0,
            })
        }),
{
    lemma_kinds_differ();
    let outer = short_form("term"@, JsonView::Object(members))->Object_0;
    assert(outer[0] == ("term"@, JsonView::Object(members)));
}

/// A list of terms is written with its field and its values, or as one field with the values. It is
/// refused in any other form, and where the values are no array.
pub proof fn lists_of_terms_have_two_forms(members: Seq<(Seq<char>, JsonView)>)
    ensures
        ({
            let body = JsonView::Object(members);
            let outcome = parsed_query(short_form("terms"@, body));
            let field = body.member("field"@);
            let values = body.member("values"@);
            let long = field is Some && field->0 is Text && values is Some && values->0 is Array;
            let short = members.len() == 1 && field is None && values is None && members[0].1
                is Array;
            &&& outcome is Ok <==> long || short
            &&& long ==> outcome->Ok_0 == (QueryView::Terms {
                field: field->0->Text_0,
                values: values->0->Array_0,
            })
            &&& short ==> outcome->Ok_0 == (QueryView::Terms {
                field: members[0].0,
                values: members[0].1->Array_0,
            })
        }),
{
    lemma_kinds_differ();
    let outer = short_form("terms"@, JsonView::Object(members))->Object_0;
    assert(outer[0] == ("terms"@, JsonView::Object(members)));
}

/// A range is written with its field beside the bounds, or as one field with an object of bounds.
/// It is refused in any other form.
pub proof fn ranges_have_two_forms(members: Seq<(Seq<char>, JsonView)>)
    ensures
        ({
            let body = JsonView::Object(members);
            let outcome = parsed_query(short_form("range"@, body));
            let field = body.member("field"@);
            let long = field is Some && field->0 is Text;
            let short = members.len() == 1 && field is None && members[0].1 is Object;
            &&& outcome is Ok <==> long || short
            &&& long ==> (outcome->Ok_0 matches QueryView::Range(range) && range.field
                == field->0->Text_0)
            &&& short ==> (outcome->Ok_0 matches QueryView::Range(range) && range.field
                == members[0].0)
        }),
{
    lemma_kinds_differ();
    let outer = short_form("range"@, JsonView::Object(members))->Object_0;
    assert(outer[0] == ("range"@, JsonView::Object(members)));
}

/// Every query but the one that finds everything is an object.
pub proof fn queries_hold_an_object(kind: Seq<char>, body: JsonView)
    requires
        kind != "match_all"@,
        !(body is Object),
    ensures
        parsed_query(short_form(kind, body)) is Err,
{
    let outer = short_form(kind, body)->Object_0;
    assert(outer[0] == (kind, body));
}

/// Whether an item of a combination can be read: it is null or a query that is not refused.
pub open spec fn is_readable(item: JsonView) -> bool {
    item is Null || parsed_query(item) is Ok
}

proof fn lemma_items(items: Seq<JsonView>, k: int)
    requires
        0 <= k <= items.len(),
    ensures
        parsed_items(items, k) is Ok <==> forall|i: int|
            0 <= i < k ==> is_readable(#[trigger] items[i]),
    decreases k,
{
    if k > 0 {
        lemma_items(items, k - 1);
        if parsed_items(items, k) is Ok {
            assert forall|i: int| 0 <= i < k implies is_readable(#[trigger] items[i]) by {
                if i < k - 1 {
                    assert(is_readable(items[i]));
                }
            }
        } else {
            assert(!is_readable(items[k - 1]) || parsed_items(items, k - 1) is Err);
        }
    }
}

/// A part of a combination is missing, null or an array of clauses that can all be read.
pub proof fn parts_of_combinations_are_lists(value: JsonView, key: Seq<char>, name: Seq<char>)
    ensures
        parsed_clauses(value, key, name) is Ok <==> match value.member(key) {
            None => true,
            Some(JsonView::Null) => true,
            Some(JsonView::Array(items)) => forall|i: int|
                0 <= i < items.len() ==> is_readable(#[trigger] items[i]),
            Some(_) => false,
        },
{
    if let Some(JsonView::Array(items)) = value.member(key) {
        lemma_items(items, items.len() as int);
    }
}

/// A combination with a part that cannot be read is refused.
pub proof fn combinations_are_refused_with_their_parts(value: JsonView, key: Seq<char>)
    requires
        key == "must"@ || key == "should"@ || key == "filter"@ || key == "must_not"@,
        match value.member(key) {
            None => false,
            Some(JsonView::Null) => false,
            Some(JsonView::Array(items)) => exists|i: int|
                0 <= i < items.len() && !is_readable(#[trigger] items[i]),
            Some(_) => true,
        },
    ensures
        parsed_query(short_form("bool"@, value)) is Err,
{
    lemma_kinds_differ();
    let outer = short_form("bool"@, value)->Object_0;
    assert(outer[0] == ("bool"@, value));
    parts_of_combinations_are_lists(value, "must"@, "bool.must"@);
    parts_of_combinations_are_lists(value, "should"@, "bool.should"@);
    parts_of_combinations_are_lists(value, "filter"@, "bool.filter"@);
    parts_of_combinations_are_lists(value, "must_not"@, "bool.must_not"@);
}

/// The order that a word names.
pub open spec fn order_named(word: Seq<char>) -> Option<SortOrder> {
    if word == "asc"@ {
        Some(SortOrder::Asc)
    } else if word == "desc"@ {
        Some(SortOrder::Desc)
    } else {
        None
    }
}

/// A list is a sort where it holds one sort or a field and its order, and is refused else.
pub proof fn lists_hold_one_sort(items: Seq<JsonView>)
    ensures
        items.len() == 0 || items.len() > 2 ==> parsed_sort(JsonView::Array(items)) is Err,
        items.len() == 1 && items[0] is Text ==> parsed_sort(JsonView::Array(items)) is Err,
        items.len() == 2 && items[1] is Text ==> {
            let outcome = parsed_sort(JsonView::Array(items));
            let order = order_named(items[1]->Text_0);
            if items[0] is Text && order is Some {
                outcome == Ok::<SortView, Refusal>(
                    SortView { field: items[0]->Text_0, order: order->0 },
                )
            } else {
                outcome is Err
            }
        },
{
}

/// A sort by several fields is refused.
pub proof fn sorts_hold_one_field(members: Seq<(Seq<char>, JsonView)>)
    requires
        members.len() != 1,
        JsonView::Object(members).member("field"@) is None || JsonView::Object(members).member(
            "order"@,
        ) is None,
    ensures
        parsed_sort(JsonView::Object(members)) is Err,
{
}

/// An order in the place of a word can be an object of one word with null, and is refused where it
/// holds anything else.
pub proof fn orders_hold_nothing(field: Seq<char>, word: Seq<char>, value: JsonView)
    ensures
        ({
            let outcome = parsed_sort(
                short_form(field, short_form("order"@, short_form(word, value))),
            );
            if value is Null && order_named(word) is Some {
                outcome == Ok::<SortView, Refusal>(
                    SortView { field, order: order_named(word)->0 },
                )
            } else {
                outcome is Err
            }
        }),
{
    lemma_orders_differ();
    let order = short_form(word, value);
    let inner = short_form("order"@, order);
    let outer = short_form(field, inner);
    assert(order->Object_0[0] == (word, value));
    lemma_member_at(inner->Object_0, 0);
    assert(inner.member("order"@) == Some(order));
    assert(outer->Object_0[0] == (field, inner));
    if field != "order"@ {
        lemma_no_member(outer->Object_0, "order"@);
    } else {
        lemma_member_at(outer->Object_0, 0);
        lemma_no_member(outer->Object_0, "field"@);
    }
    if field == "field"@ {
        lemma_member_at(outer->Object_0, 0);
    }
}

/// An aggregation of values or of statistics is read where its body has a field, as a member or as
/// its only item. It is refused else.
pub proof fn aggregations_want_their_field(body: JsonView)
    ensures
        ({
            let field = match body {
                JsonView::Object(_) => text_member(body, "field"@),
                JsonView::Array(items) => if items.len() == 1 {
                    items[0].as_str()
                } else {
                    None
                },
                _ => None,
            };
            let terms = parsed_aggregation(short_form("terms"@, body));
            let stats = parsed_aggregation(short_form("stats"@, body));
            match field {
                Some(field) => terms == Some(AggregationView::Terms(field)) && stats == Some(
                    AggregationView::Stats(field),
                ),
                None => terms is None && stats is None,
            }
        }),
{
    reveal_strlit("terms");
    reveal_strlit("stats");
    assert("terms"@[0] == 't' && "stats"@[0] == 's');
    assert(short_form("terms"@, body)->Object_0[0] == ("terms"@, body));
    assert(short_form("stats"@, body)->Object_0[0] == ("stats"@, body));
}

/// An aggregation of an unknown kind, or of several kinds at once, is refused.
pub proof fn aggregations_are_of_one_known_kind(members: Seq<(Seq<char>, JsonView)>)
    requires
        members.len() != 1 || !(members[0].0 == "terms"@ || members[0].0 == "stats"@
            || members[0].0 == "date_histogram"@),
    ensures
        parsed_aggregation(JsonView::Object(members)) is None,
{
}

} // verus!
