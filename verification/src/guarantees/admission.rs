//! Which documents an index takes, which types their fields get, and which requests go with them.
use vstd::prelude::*;
use vstd::utf8::encode_utf8;

use crate::guarantees::counting::lemma_none;
use crate::guarantees::counting::lemma_one_more;
use crate::json::JsonView;
use crate::json::NumberView;
use crate::mapping::admitted;
use crate::mapping::aggregation_fault;
use crate::mapping::aggregations_fault;
use crate::mapping::clause_fault;
use crate::mapping::inferred_type;
use crate::mapping::is_fuzzy;
use crate::mapping::new_mappings;
use crate::mapping::page_fault;
use crate::mapping::query_fault;
use crate::mapping::request_fault;
use crate::mapping::some_fuzzy;
use crate::mapping::sort_fault;
use crate::mapping::with_mappings;
use crate::mapping::Mappings;
use crate::names::namespace_fault;
use crate::names::valid_index_name;
use crate::time::rfc3339_instant;
use crate::types::AggregationRequest;
use crate::types::ErrorView;
use crate::types::FieldMapping;
use crate::types::FieldType;
use crate::types::MappingMode;
use crate::types::QueryView;
use crate::types::RangeView;
use crate::types::SearchRequest;

verus! {

/// The type of a value that is no array, if it is not null.
pub open spec fn type_of(value: JsonView) -> Option<FieldType> {
    match inferred_type(Seq::empty(), value) {
        Ok(field_type) => field_type,
        Err(_) => None,
    }
}

/// An integer is of the narrower type if it has 32 bits, of the wider if it has 64, and a double
/// beyond; a fraction is a double. A text is a timestamp if it names one and otherwise a keyword.
/// Null has no type, and an array cannot have one.
pub proof fn values_have_their_types(field: Seq<char>, value: JsonView)
    ensures
        inferred_type(field, value) is Err <==> value is Array,
        value is Array ==> inferred_type(field, value) == Err::<Option<FieldType>, _>(
            ErrorView::UnsupportedArrayField(field),
        ),
        !(value is Array) ==> inferred_type(field, value) == Ok::<_, ErrorView>(type_of(value)),
        type_of(value) is None <==> value is Null || value is Array,
        type_of(value) == Some(FieldType::Boolean) <==> value is Bool,
        type_of(value) == Some(FieldType::Object) <==> value is Object,
        value matches JsonView::Number(NumberView::PosInt(n)) ==> {
            &&& type_of(value) == Some(FieldType::Integer) <==> n < 0x8000_0000
            &&& type_of(value) == Some(FieldType::Long) <==> 0x8000_0000 <= n
                < 0x8000_0000_0000_0000
            &&& type_of(value) == Some(FieldType::Double) <==> 0x8000_0000_0000_0000 <= n
        },
        value matches JsonView::Number(NumberView::NegInt(n)) ==> {
            &&& type_of(value) == Some(FieldType::Integer) <==> -0x8000_0000 <= n < 0x8000_0000
            &&& type_of(value) == Some(FieldType::Long) <==> n < -0x8000_0000 || 0x8000_0000 <= n
        },
        value matches JsonView::Number(NumberView::Float(_, _)) ==> type_of(value) == Some(
            FieldType::Double,
        ),
        value matches JsonView::Text(text) ==> type_of(value) == Some(
            if rfc3339_instant(text) is Some {
                FieldType::Timestamp
            } else {
                FieldType::Keyword
            },
        ),
{
}

/// Whether a member of a document can be admitted: it is null, or it is no array and has the type
/// that its field has, or its field is new and new fields are allowed.
pub open spec fn fits(member: (Seq<char>, JsonView), mappings: Mappings, mode: MappingMode) -> bool {
    match type_of(member.1) {
        None => member.1 is Null,
        Some(field_type) => if mappings.contains_key(member.0) {
            mappings[member.0].field_type == field_type
        } else {
            mode != MappingMode::Strict
        },
    }
}

/// Whether a member of a document adds a field.
pub open spec fn adds_field(mappings: Mappings) -> spec_fn((Seq<char>, JsonView)) -> bool {
    |member: (Seq<char>, JsonView)|
        !(member.1 is Null) && !(member.1 is Array) && !mappings.contains_key(member.0)
}

/// The name of a member and the mapping that it adds.
pub open spec fn entry_of(member: (Seq<char>, JsonView)) -> (Seq<char>, FieldMapping) {
    (member.0, FieldMapping { field_type: type_of(member.1)->0 })
}

/// Whether one of the first `k` members adds that mapping under its name.
pub open spec fn is_added(
    entry: (Seq<char>, FieldMapping),
    members: Seq<(Seq<char>, JsonView)>,
    mappings: Mappings,
    k: int,
) -> bool {
    exists|i: int|
        0 <= i < k && adds_field(mappings)(#[trigger] members[i]) && entry == entry_of(members[i])
}

proof fn lemma_new_mappings(
    members: Seq<(Seq<char>, JsonView)>,
    mappings: Mappings,
    mode: MappingMode,
    k: int,
)
    requires
        0 <= k <= members.len(),
    ensures
        new_mappings(members, mappings, mode, k) is Ok <==> forall|i: int|
            0 <= i < k ==> fits(#[trigger] members[i], mappings, mode),
        new_mappings(members, mappings, mode, k) matches Ok(new) ==> {
            &&& new.len() == members.take(k).filter(adds_field(mappings)).len()
            &&& forall|i: int|
                0 <= i < k && adds_field(mappings)(#[trigger] members[i]) ==> new.contains(
                    entry_of(members[i]),
                )
            &&& forall|j: int|
                0 <= j < new.len() ==> is_added(#[trigger] new[j], members, mappings, k)
        },
    decreases k,
{
    let adds = adds_field(mappings);
    if k > 0 {
        lemma_new_mappings(members, mappings, mode, k - 1);
        let member = members[k - 1];
        assert(members.take(k).drop_last() =~= members.take(k - 1));
        assert(members.take(k).last() == member);
        lemma_one_more(members.take(k), adds);
        if let Ok(before) = new_mappings(members, mappings, mode, k - 1) {
            if let Ok(new) = new_mappings(members, mappings, mode, k) {
                assert forall|i: int| 0 <= i < k && adds(#[trigger] members[i]) implies new.contains(
                    entry_of(members[i]),
                ) by {
                    let entry = entry_of(members[i]);
                    if i < k - 1 {
                        assert(before.contains(entry));
                        let j = choose|j: int| 0 <= j < before.len() && before[j] == entry;
                        assert(new[j] == entry);
                    } else {
                        assert(new[before.len() as int] == entry);
                    }
                }
                assert forall|j: int| 0 <= j < new.len() implies is_added(
                    #[trigger] new[j],
                    members,
                    mappings,
                    k,
                ) by {
                    if j < before.len() {
                        assert(before[j] == new[j]);
                        assert(is_added(before[j], members, mappings, k - 1));
                        let i = choose|i: int|
                            0 <= i < k - 1 && adds(#[trigger] members[i]) && before[j] == entry_of(members[i]);
                        assert(adds(members[i]));
                    } else {
                        assert(adds(members[k - 1]));
                    }
                }
            }
        }
    } else {
        lemma_none(members.take(k), adds);
    }
}

/// A document is admitted if and only if it is an object whose members all fit and whose new
/// fields leave the index with no more than a thousand.
pub proof fn documents_that_fit_are_admitted(
    source: JsonView,
    name: Seq<char>,
    mappings: Mappings,
    count: nat,
    mode: MappingMode,
)
    ensures
        admitted(source, name, mappings, count, mode) is Ok <==> {
            &&& source matches JsonView::Object(members)
            &&& forall|i: int| 0 <= i < members.len() ==> fits(#[trigger] members[i], mappings, mode)
            &&& count + members.filter(adds_field(mappings)).len() <= 1000
        },
        admitted(source, name, mappings, count, mode) matches Ok(new) ==> new.len()
            == source->Object_0.filter(adds_field(mappings)).len(),
{
    if let JsonView::Object(members) = source {
        lemma_new_mappings(members, mappings, mode, members.len() as int);
        assert(members.take(members.len() as int) =~= members);
    }
}

proof fn lemma_first_misfit(
    members: Seq<(Seq<char>, JsonView)>,
    mappings: Mappings,
    mode: MappingMode,
    k: int,
)
    requires
        0 <= k <= members.len(),
        new_mappings(members, mappings, mode, k) is Err,
    ensures
        exists|i: int|
            0 <= i < k && !fits(#[trigger] members[i], mappings, mode) && (forall|j: int|
                0 <= j < i ==> fits(#[trigger] members[j], mappings, mode))
                && misfit_is_told(
                members[i],
                mappings,
                new_mappings(members, mappings, mode, k)->Err_0,
            ),
    decreases k,
{
    if k > 0 {
        if new_mappings(members, mappings, mode, k - 1) is Err {
            lemma_first_misfit(members, mappings, mode, k - 1);
        } else {
            lemma_new_mappings(members, mappings, mode, k - 1);
            assert(!fits(members[k - 1], mappings, mode));
        }
    }
}

/// Whether an error says why a member does not fit: it is an array, its field has another type, or
/// its field is new where none may be.
pub open spec fn misfit_is_told(
    member: (Seq<char>, JsonView),
    mappings: Mappings,
    error: ErrorView,
) -> bool {
    if member.1 is Array {
        error == ErrorView::UnsupportedArrayField(member.0)
    } else if mappings.contains_key(member.0) {
        error is MappingConflict
    } else {
        error == ErrorView::UnknownFieldRejected(member.0)
    }
}

/// A document that is not admitted is told why: it is no object, or of its first member that does
/// not fit, or else that there are too many fields.
pub proof fn documents_that_are_not_admitted_are_told_why(
    source: JsonView,
    name: Seq<char>,
    mappings: Mappings,
    count: nat,
    mode: MappingMode,
)
    ensures
        admitted(source, name, mappings, count, mode) matches Err(error) ==> match source {
            JsonView::Object(members) => if forall|i: int|
                0 <= i < members.len() ==> fits(#[trigger] members[i], mappings, mode) {
                error is MappingLimitExceeded
            } else {
                exists|i: int|
                    0 <= i < members.len() && !fits(#[trigger] members[i], mappings, mode) && (
                    forall|j: int| 0 <= j < i ==> fits(#[trigger] members[j], mappings, mode))
                        && misfit_is_told(members[i], mappings, error)
            },
            _ => error is MappingConflict,
        },
{
    if let JsonView::Object(members) = source {
        let n = members.len() as int;
        lemma_new_mappings(members, mappings, mode, n);
        if new_mappings(members, mappings, mode, n) is Err {
            lemma_first_misfit(members, mappings, mode, n);
        }
    }
}

proof fn lemma_with_mappings_holds(mappings: Mappings, new: Seq<(Seq<char>, FieldMapping)>)
    ensures
        forall|field: Seq<char>| #[trigger]
            with_mappings(mappings, new).contains_key(field) <==> mappings.contains_key(field)
                || exists|j: int| 0 <= j < new.len() && (#[trigger] new[j]).0 == field,
        forall|field: Seq<char>| #[trigger]
            with_mappings(mappings, new).contains_key(field) ==> (exists|j: int|
                0 <= j < new.len() && #[trigger] new[j] == (
                    field,
                    with_mappings(mappings, new)[field],
                )) || (mappings.contains_key(field) && with_mappings(mappings, new)[field]
                == mappings[field] && forall|j: int|
                0 <= j < new.len() ==> (#[trigger] new[j]).0 != field),
    decreases new.len(),
{
    if new.len() > 0 {
        let before = new.drop_last();
        let last = new[new.len() - 1];
        lemma_with_mappings_holds(mappings, before);
        let after = with_mappings(mappings, new);
        assert forall|field: Seq<char>| #[trigger]
            after.contains_key(field) <==> mappings.contains_key(field) || exists|j: int|
            0 <= j < new.len() && (#[trigger] new[j]).0 == field by {
            if exists|j: int| 0 <= j < before.len() && (#[trigger] before[j]).0 == field {
                let j = choose|j: int| 0 <= j < before.len() && (#[trigger] before[j]).0 == field;
                assert(new[j] == before[j]);
            }
            if exists|j: int| 0 <= j < new.len() && (#[trigger] new[j]).0 == field {
                let j = choose|j: int| 0 <= j < new.len() && (#[trigger] new[j]).0 == field;
                if j < before.len() {
                    assert(before[j] == new[j]);
                }
            }
            if field == last.0 {
                assert(new[new.len() - 1].0 == field);
            }
            let known = with_mappings(mappings, before);
            assert(known.contains_key(field) <==> mappings.contains_key(field) || exists|j: int|
                0 <= j < before.len() && (#[trigger] before[j]).0 == field);
            assert(after.contains_key(field) <==> known.contains_key(field) || field == last.0);
        }
        assert forall|field: Seq<char>| #[trigger] after.contains_key(field) implies (exists|j: int|
            0 <= j < new.len() && #[trigger] new[j] == (field, after[field])) || (
        mappings.contains_key(field) && after[field] == mappings[field] && forall|j: int|
            0 <= j < new.len() ==> (#[trigger] new[j]).0 != field) by {
            if field == last.0 {
                assert(new[new.len() - 1] == (field, after[field]));
            } else {
                assert(with_mappings(mappings, before).contains_key(field));
                if exists|j: int|
                    0 <= j < before.len() && #[trigger] before[j] == (
                        field,
                        with_mappings(mappings, before)[field],
                    ) {
                    let j = choose|j: int|
                        0 <= j < before.len() && #[trigger] before[j] == (
                            field,
                            with_mappings(mappings, before)[field],
                        );
                    assert(new[j] == (field, after[field]));
                } else {
                    assert forall|j: int| 0 <= j < new.len() implies (#[trigger] new[j]).0
                        != field by {
                        if j < before.len() {
                            assert(before[j] == new[j]);
                        }
                    }
                }
            }
        }
    }
}

/// Whether no two members of an object have the same name.
pub open spec fn have_their_own_names(members: Seq<(Seq<char>, JsonView)>) -> bool {
    forall|i: int, j: int|
        0 <= i < j < members.len() ==> (#[trigger] members[i]).0 != (#[trigger] members[j]).0
}

/// Once a document is admitted, each field of it that is not null has the type of its value, and
/// all other fields are as before.
pub proof fn admitted_documents_give_their_fields_types(
    members: Seq<(Seq<char>, JsonView)>,
    name: Seq<char>,
    mappings: Mappings,
    count: nat,
    mode: MappingMode,
)
    requires
        have_their_own_names(members),
    ensures
        admitted(JsonView::Object(members), name, mappings, count, mode) matches Ok(new) ==> {
            let after = with_mappings(mappings, new);
            &&& forall|i: int|
                0 <= i < members.len() && !((#[trigger] members[i]).1 is Null)
                    ==> after.contains_key(members[i].0) && type_of(members[i].1) == Some(
                    after[members[i].0].field_type,
                )
            &&& forall|field: Seq<char>| #[trigger]
                after.contains_key(field) <==> mappings.contains_key(field) || exists|i: int|
                    0 <= i < members.len() && (#[trigger] members[i]).0 == field && !(members[i].1
                        is Null)
            &&& forall|field: Seq<char>| #[trigger]
                mappings.contains_key(field) ==> after[field] == mappings[field]
        },
{
    let n = members.len() as int;
    lemma_new_mappings(members, mappings, mode, n);
    if let Ok(new) = admitted(JsonView::Object(members), name, mappings, count, mode) {
        let adds = adds_field(mappings);
        let after = with_mappings(mappings, new);
        lemma_with_mappings_holds(mappings, new);
        assert forall|i: int| 0 <= i < n && !((#[trigger] members[i]).1 is Null) implies
            after.contains_key(members[i].0) && type_of(members[i].1) == Some(
            after[members[i].0].field_type,
        ) by {
            let field = members[i].0;
            assert(fits(members[i], mappings, mode));
            if adds(members[i]) {
                let entry = entry_of(members[i]);
                assert(new.contains(entry));
                let j = choose|j: int| 0 <= j < new.len() && new[j] == entry;
                assert(new[j].0 == field);
                assert(after.contains_key(field));
                let k = choose|k: int|
                    0 <= k < new.len() && #[trigger] new[k] == (field, after[field]);
                assert(is_added(new[k], members, mappings, n));
                let m = choose|m: int|
                    0 <= m < n && adds(#[trigger] members[m]) && new[k] == entry_of(members[m]);
                assert(m == i);
            } else {
                assert(mappings.contains_key(field));
                assert(after.contains_key(field));
                if exists|j: int| 0 <= j < new.len() && #[trigger] new[j] == (field, after[field]) {
                    let j = choose|j: int|
                        0 <= j < new.len() && #[trigger] new[j] == (field, after[field]);
                    assert(is_added(new[j], members, mappings, n));
                    let m = choose|m: int|
                        0 <= m < n && adds(#[trigger] members[m]) && new[j] == entry_of(members[m]);
                    assert(false);
                }
            }
        }
        assert forall|field: Seq<char>| #[trigger]
            after.contains_key(field) <==> mappings.contains_key(field) || exists|i: int|
            0 <= i < n && (#[trigger] members[i]).0 == field && !(members[i].1 is Null) by {
            if exists|j: int| 0 <= j < new.len() && (#[trigger] new[j]).0 == field {
                let j = choose|j: int| 0 <= j < new.len() && (#[trigger] new[j]).0 == field;
                assert(is_added(new[j], members, mappings, n));
                let m = choose|m: int|
                    0 <= m < n && adds(#[trigger] members[m]) && new[j] == entry_of(members[m]);
                assert(members[m].0 == field);
            }
            if exists|i: int|
                0 <= i < n && (#[trigger] members[i]).0 == field && !(members[i].1 is Null) {
                let i = choose|i: int|
                    0 <= i < n && (#[trigger] members[i]).0 == field && !(members[i].1 is Null);
                assert(after.contains_key(members[i].0));
            }
        }
        assert forall|field: Seq<char>| #[trigger] mappings.contains_key(field) implies after[field]
            == mappings[field] by {
            assert(after.contains_key(field));
            if exists|j: int| 0 <= j < new.len() && #[trigger] new[j] == (field, after[field]) {
                let j = choose|j: int|
                    0 <= j < new.len() && #[trigger] new[j] == (field, after[field]);
                assert(is_added(new[j], members, mappings, n));
                let m = choose|m: int|
                    0 <= m < n && adds(#[trigger] members[m]) && new[j] == entry_of(members[m]);
                assert(false);
            }
        }
    }
}

/// A query for a value, a list, a prefix or a form goes with every field but objects, one for words
/// or a phrase with keywords alone, and a range with numbers and timestamps. What an index does not
/// know yet goes with everything.
pub proof fn queries_go_with_the_type_of_their_field(
    mappings: Mappings,
    field: Seq<char>,
    value: JsonView,
    values: Seq<JsonView>,
    text: Seq<char>,
    range: RangeView,
)
    requires
        range.field == field,
    ensures
        ({
            let known = mappings.contains_key(field);
            let kind = mappings[field].field_type;
            &&& query_fault(mappings, QueryView::MatchAll) is None
            &&& query_fault(
                mappings,
                QueryView::Term { field, value, fuzziness: None },
            ) is Some <==> known && kind == FieldType::Object
            &&& query_fault(mappings, QueryView::Terms { field, values }) is Some <==> known && kind
                == FieldType::Object
            &&& query_fault(mappings, QueryView::Prefix { field, text }) is Some <==> known && kind
                == FieldType::Object
            &&& query_fault(mappings, QueryView::Wildcard { field, text }) is Some <==> known
                && kind == FieldType::Object
            &&& query_fault(mappings, QueryView::Match { field, text }) is None <==> !known || kind
                == FieldType::Keyword
            &&& query_fault(mappings, QueryView::Phrase { field, text }) is None <==> !known || kind
                == FieldType::Keyword
            &&& query_fault(mappings, QueryView::Range(range)) is Some <==> known && (kind
                == FieldType::Keyword || kind == FieldType::Boolean || kind == FieldType::Object)
        }),
{
}

/// Fuzziness makes no difference to which fields a term goes with.
pub proof fn fuzzy_terms_go_with_the_same_fields(mappings: Mappings, query: QueryView)
    requires
        query is Term,
    ensures
        query_fault(mappings, query) == query_fault(
            mappings,
            QueryView::Term { field: query->Term_field, value: query->value, fuzziness: None },
        ),
{
}

proof fn lemma_clause_faults(mappings: Mappings, queries: Seq<QueryView>, k: int)
    requires
        0 <= k <= queries.len(),
    ensures
        clause_fault(mappings, queries, k) is None <==> forall|i: int|
            0 <= i < k ==> query_fault(mappings, #[trigger] queries[i]) is None,
    decreases k,
{
    if k > 0 {
        lemma_clause_faults(mappings, queries, k - 1);
    }
}

/// A combination goes with the mappings if and only if each of its clauses does.
pub proof fn combinations_go_where_their_clauses_go(
    mappings: Mappings,
    must: Seq<QueryView>,
    should: Seq<QueryView>,
    filter: Seq<QueryView>,
    must_not: Seq<QueryView>,
    minimum_should_match: Option<u32>,
)
    ensures
        query_fault(
            mappings,
            QueryView::Bool { must, should, filter, must_not, minimum_should_match },
        ) is None <==> {
            &&& forall|i: int|
                0 <= i < must.len() ==> query_fault(mappings, #[trigger] must[i]) is None
            &&& forall|i: int|
                0 <= i < should.len() ==> query_fault(mappings, #[trigger] should[i]) is None
            &&& forall|i: int|
                0 <= i < filter.len() ==> query_fault(mappings, #[trigger] filter[i]) is None
            &&& forall|i: int|
                0 <= i < must_not.len() ==> query_fault(mappings, #[trigger] must_not[i]) is None
        },
{
    lemma_clause_faults(mappings, must, must.len() as int);
    lemma_clause_faults(mappings, should, should.len() as int);
    lemma_clause_faults(mappings, filter, filter.len() as int);
    lemma_clause_faults(mappings, must_not, must_not.len() as int);
}

proof fn lemma_some_fuzzy(queries: Seq<QueryView>, k: int)
    requires
        0 <= k <= queries.len(),
    ensures
        some_fuzzy(queries, k) <==> exists|i: int| 0 <= i < k && is_fuzzy(#[trigger] queries[i]),
    decreases k,
{
    if k > 0 {
        lemma_some_fuzzy(queries, k - 1);
        if is_fuzzy(queries[k - 1]) {
            assert(is_fuzzy(queries[k - 1]));
        }
    }
}

/// A term is fuzzy if it says how, a combination if one of its clauses is, and nothing else is.
pub proof fn combinations_are_as_fuzzy_as_their_clauses(
    query: QueryView,
    must: Seq<QueryView>,
    should: Seq<QueryView>,
    filter: Seq<QueryView>,
    must_not: Seq<QueryView>,
    minimum_should_match: Option<u32>,
)
    ensures
        query is Term ==> (is_fuzzy(query) <==> query->fuzziness is Some),
        !(query is Term) && !(query is Bool) ==> !is_fuzzy(query),
        is_fuzzy(QueryView::Bool { must, should, filter, must_not, minimum_should_match }) <==> {
            ||| exists|i: int| 0 <= i < must.len() && is_fuzzy(#[trigger] must[i])
            ||| exists|i: int| 0 <= i < should.len() && is_fuzzy(#[trigger] should[i])
            ||| exists|i: int| 0 <= i < filter.len() && is_fuzzy(#[trigger] filter[i])
            ||| exists|i: int| 0 <= i < must_not.len() && is_fuzzy(#[trigger] must_not[i])
        },
{
    lemma_some_fuzzy(must, must.len() as int);
    lemma_some_fuzzy(should, should.len() as int);
    lemma_some_fuzzy(filter, filter.len() as int);
    lemma_some_fuzzy(must_not, must_not.len() as int);
}

/// Counting values goes with every field but objects, statistics with numbers, and a date histogram
/// with timestamps.
pub proof fn aggregations_go_with_the_type_of_their_field(
    mappings: Mappings,
    name: Seq<char>,
    request: AggregationRequest,
)
    ensures
        aggregation_fault(mappings, name, request) is None <==> match request {
            AggregationRequest::Terms(q) => mappings.contains_key(q.field@)
                ==> mappings[q.field@].field_type != FieldType::Object,
            AggregationRequest::Stats(q) => mappings.contains_key(q.field@) ==> {
                ||| mappings[q.field@].field_type == FieldType::Integer
                ||| mappings[q.field@].field_type == FieldType::Long
                ||| mappings[q.field@].field_type == FieldType::Double
            },
            AggregationRequest::DateHistogram(q) => mappings.contains_key(q.field@)
                ==> mappings[q.field@].field_type == FieldType::Timestamp,
        },
{
}

proof fn lemma_aggregation_faults(
    mappings: Mappings,
    requests: Seq<(Seq<char>, AggregationRequest)>,
    k: int,
)
    requires
        0 <= k <= requests.len(),
    ensures
        aggregations_fault(mappings, requests, k) is None <==> forall|i: int|
            0 <= i < k ==> aggregation_fault(mappings, (#[trigger] requests[i]).0, requests[i].1)
                is None,
    decreases k,
{
    if k > 0 {
        lemma_aggregation_faults(mappings, requests, k - 1);
    }
}

/// A search is accepted if and only if its query and its aggregations go with the mappings, it is
/// not sorted by an object, it goes on behind a hit only where it is sorted and not fuzzy, and it
/// asks for no more than ten thousand hits and leaves out no more than a million.
pub proof fn searches_are_accepted_where_all_parts_are(mappings: Mappings, request: SearchRequest)
    ensures
        request_fault(mappings, request) is None <==> {
            &&& request.query matches Some(query) ==> query_fault(mappings, query@) is None
            &&& request.sort matches Some(sort) ==> (mappings.contains_key(sort.field@)
                ==> mappings[sort.field@].field_type != FieldType::Object)
            &&& request.search_after is Some ==> request.sort is Some && (request.query
                matches Some(query) ==> !is_fuzzy(query@))
            &&& request.size matches Some(size) ==> size <= 10_000
            &&& request.from matches Some(from) ==> from <= 1_000_000
            &&& request.aggs matches Some(aggs) ==> forall|i: int|
                0 <= i < aggs.pairs().len() ==> aggregation_fault(
                    mappings,
                    (#[trigger] aggs.pairs()[i]).0,
                    aggs.pairs()[i].1,
                ) is None
        },
{
    if let Some(aggs) = request.aggs {
        lemma_aggregation_faults(mappings, aggs.pairs(), aggs.pairs().len() as int);
    }
    assert(sort_fault(mappings, request) is None || sort_fault(mappings, request) is Some);
    assert(page_fault(request) is None || page_fault(request) is Some);
}

/// An index has a name of 1 to 255 characters, each a lower case ASCII letter, a digit, a hyphen
/// or an underscore.
pub proof fn index_names_are_short_and_plain(name: Seq<char>)
    ensures
        valid_index_name(name) <==> 1 <= name.len() <= 255 && forall|i: int|
            0 <= i < name.len() ==> {
                let c = #[trigger] name[i] as int;
                97 <= c <= 122 || 48 <= c <= 57 || c == 45 || c == 95
            },
{
    assert forall|i: int| 0 <= i < name.len() implies {
        let c = #[trigger] name[i] as int;
        crate::names::is_index_char(name[i]) <==> 97 <= c <= 122 || 48 <= c <= 57 || c == 45 || c
            == 95
    } by {}
}

/// A namespace has 1 to 64 bytes, each an ASCII letter, a digit, a hyphen or an underscore.
pub proof fn namespaces_are_short_and_plain(namespace: Seq<char>)
    ensures
        namespace_fault(namespace) is None <==> namespace.len() > 0 && encode_utf8(namespace).len()
            <= 64 && forall|i: int|
            0 <= i < namespace.len() ==> {
                let c = #[trigger] namespace[i] as int;
                97 <= c <= 122 || 65 <= c <= 90 || 48 <= c <= 57 || c == 45 || c == 95
            },
{
    assert forall|i: int| 0 <= i < namespace.len() implies {
        let c = #[trigger] namespace[i] as int;
        crate::names::is_namespace_char(namespace[i]) <==> 97 <= c <= 122 || 65 <= c <= 90 || 48
            <= c <= 57 || c == 45 || c == 95
    } by {}
}

} // verus!
