//! Search requests written in JSON.
use vstd::prelude::*;

use crate::json::json_views;
use crate::json::lemma_array_view;
use crate::json::lemma_object_view;
use crate::json::member_views;
use crate::json::text_member;
use crate::json::Json;
use crate::json::JsonNumber;
use crate::json::JsonView;
use crate::json::NumberView;
use crate::map::StringMap;
use crate::query_string::parse_query_string;
use crate::query_string::query_of;
use crate::text::cat3;
use crate::text::lower_all;
use crate::text::lower_text;
use crate::text::text_eq;
use crate::types::bool_view;
use crate::types::lemma_bool_view;
use crate::types::query_views;
use crate::types::AggregationRequest;
use crate::types::BoolQuery;
use crate::types::CloudSearchError;
use crate::types::DateHistogramAggregationRequest;
use crate::types::DateHistogramInterval;
use crate::types::ErrorView;
use crate::types::Fuzziness;
use crate::types::MatchQuery;
use crate::types::PhraseQuery;
use crate::types::PrefixQuery;
use crate::types::QueryView;
use crate::types::RangeQuery;
use crate::types::RangeView;
use crate::types::SearchQuery;
use crate::types::SearchRequest;
use crate::types::SortOrder;
use crate::types::SortSpec;
use crate::types::StatsAggregationRequest;
use crate::types::TermQuery;
use crate::types::TermsAggregationRequest;
use crate::types::TermsQuery;
use crate::types::WildcardQuery;

verus! {

/// Why a request is refused: it is invalid for a reason, or a part of it has not the form that
/// it has to have.
pub ghost enum Refusal {
    Invalid(Seq<char>),
    Malformed,
}

/// Whether an error tells of that refusal. What it says of a malformed part is left open.
pub open spec fn tells(error: ErrorView, refusal: Refusal) -> bool {
    match refusal {
        Refusal::Invalid(reason) => error == ErrorView::InvalidSearchRequest(reason),
        Refusal::Malformed => error is Serde,
    }
}

fn invalid(reason: &str) -> (r: CloudSearchError)
    ensures
        r@ == ErrorView::InvalidSearchRequest(reason@),
{
    CloudSearchError::InvalidSearchRequest(reason.to_owned())
}

fn invalid2(a: &str, b: &str) -> (r: CloudSearchError)
    ensures
        r@ == ErrorView::InvalidSearchRequest(a@ + b@),
{
    let mut reason = a.to_owned();
    reason.append(b);
    CloudSearchError::InvalidSearchRequest(reason)
}

fn invalid3(a: &str, b: &str, c: &str) -> (r: CloudSearchError)
    ensures
        r@ == ErrorView::InvalidSearchRequest(a@ + b@ + c@),
{
    CloudSearchError::InvalidSearchRequest(cat3(a, b, c))
}

/// The member of that name, unless it is null.
pub open spec fn present(value: JsonView, key: Seq<char>) -> Option<JsonView> {
    match value.member(key) {
        Some(JsonView::Null) => None,
        other => other,
    }
}

fn present_member<'a>(value: &'a Json, key: &str) -> (r: Option<&'a Json>)
    ensures
        match r {
            Some(v) => present(value@, key@) == Some(v@),
            None => present(value@, key@) is None,
        },
{
    match value.get(key) {
        Some(v) => if v.is_null() {
            None
        } else {
            Some(v)
        },
        None => None,
    }
}

fn present_copy(value: &Json, key: &str) -> (r: Option<Json>)
    ensures
        crate::types::opt_json_view(r) == present(value@, key@),
{
    match present_member(value, key) {
        Some(v) => Some(v.copy()),
        None => None,
    }
}

/// A query on a text of a field, in which the field and the text are members of their own, or the
/// one member has the field as its name and the text as its value.
pub open spec fn parsed_text(kind: Seq<char>, subject: Seq<char>, value: JsonView) -> Result<
    (Seq<char>, Seq<char>),
    Refusal,
> {
    match value {
        JsonView::Object(members) => {
            let has_field = value.member("field"@) is Some;
            let has_value = value.member("value"@) is Some;
            if has_field && has_value {
                if members.len() != 2 {
                    Err(
                        Refusal::Invalid(
                            kind + " query explicit form must contain only 'field' and 'value'"@,
                        ),
                    )
                } else if text_member(value, "field"@) is None {
                    Err(Refusal::Invalid(kind + " query requires string 'field'"@))
                } else if text_member(value, "value"@) is None {
                    Err(Refusal::Invalid(kind + " query requires string 'value'"@))
                } else {
                    Ok((text_member(value, "field"@)->0, text_member(value, "value"@)->0))
                }
            } else if has_field || has_value {
                Err(
                    Refusal::Invalid(
                        kind + " query explicit form requires both 'field' and 'value'"@,
                    ),
                )
            } else if members.len() != 1 {
                Err(Refusal::Invalid(kind + " query must contain exactly one field"@))
            } else {
                match members[0].1.as_str() {
                    Some(text) => Ok((members[0].0, text)),
                    None => Err(Refusal::Invalid(subject + " must be a string"@)),
                }
            }
        },
        _ => Err(Refusal::Invalid(kind + " query must be a JSON object"@)),
    }
}

/// Reads a query on a text of a field: the field and the text.
fn parse_text_query(kind: &str, subject: &str, value: &Json) -> (r: Result<
    (String, String),
    CloudSearchError,
>)
    ensures
        match r {
            Ok((field, text)) => parsed_text(kind@, subject@, value@) == Ok::<_, Refusal>(
                (field@, text@),
            ),
            Err(e) => parsed_text(kind@, subject@, value@) is Err && tells(
                e@,
                parsed_text(kind@, subject@, value@)->Err_0,
            ),
        },
{
    broadcast use lemma_object_view;

    match value {
        Json::Object(members) => {
            let has_field: bool = value.get("field").is_some();
            let has_value: bool = value.get("value").is_some();
            if has_field && has_value {
                if members.len() != 2 {
                    return Err(
                        invalid2(
                            kind,
                            " query explicit form must contain only 'field' and 'value'",
                        ),
                    );
                }
                let Some(field) = value.text_of("field") else {
                    return Err(invalid2(kind, " query requires string 'field'"));
                };
                let Some(text) = value.text_of("value") else {
                    return Err(invalid2(kind, " query requires string 'value'"));
                };
                return Ok((field.to_owned(), text.to_owned()));
            }
            if has_field || has_value {
                return Err(
                    invalid2(kind, " query explicit form requires both 'field' and 'value'"),
                );
            }
            if members.len() != 1 {
                return Err(invalid2(kind, " query must contain exactly one field"));
            }
            match members[0].1.as_str() {
                Some(text) => Ok((members[0].0.clone(), text.to_owned())),
                None => Err(invalid2(subject, " must be a string")),
            }
        },
        _ => Err(invalid2(kind, " query must be a JSON object")),
    }
}

/// Reads a prefix query.
pub fn parse_prefix_query(value: &Json) -> (r: Result<PrefixQuery, CloudSearchError>)
    ensures
        match r {
            Ok(q) => parsed_text("prefix"@, "prefix value"@, value@) == Ok::<_, Refusal>(
                (q.field@, q.value@),
            ),
            Err(e) => parsed_text("prefix"@, "prefix value"@, value@) is Err && tells(
                e@,
                parsed_text("prefix"@, "prefix value"@, value@)->Err_0,
            ),
        },
{
    match parse_text_query("prefix", "prefix value", value) {
        Ok((field, value)) => Ok(PrefixQuery { field, value }),
        Err(e) => Err(e),
    }
}

/// Reads a wildcard query.
pub fn parse_wildcard_query(value: &Json) -> (r: Result<WildcardQuery, CloudSearchError>)
    ensures
        match r {
            Ok(q) => parsed_text("wildcard"@, "wildcard value"@, value@) == Ok::<_, Refusal>(
                (q.field@, q.value@),
            ),
            Err(e) => parsed_text("wildcard"@, "wildcard value"@, value@) is Err && tells(
                e@,
                parsed_text("wildcard"@, "wildcard value"@, value@)->Err_0,
            ),
        },
{
    match parse_text_query("wildcard", "wildcard value", value) {
        Ok((field, value)) => Ok(WildcardQuery { field, value }),
        Err(e) => Err(e),
    }
}

/// Reads a match query.
pub fn parse_match_query(value: &Json) -> (r: Result<MatchQuery, CloudSearchError>)
    ensures
        match r {
            Ok(q) => parsed_text("match"@, "match query value"@, value@) == Ok::<_, Refusal>(
                (q.field@, q.value@),
            ),
            Err(e) => parsed_text("match"@, "match query value"@, value@) is Err && tells(
                e@,
                parsed_text("match"@, "match query value"@, value@)->Err_0,
            ),
        },
{
    match parse_text_query("match", "match query value", value) {
        Ok((field, value)) => Ok(MatchQuery { field, value }),
        Err(e) => Err(e),
    }
}

/// Reads a phrase query.
pub fn parse_phrase_query(value: &Json) -> (r: Result<PhraseQuery, CloudSearchError>)
    ensures
        match r {
            Ok(q) => parsed_text("phrase"@, "phrase query value"@, value@) == Ok::<_, Refusal>(
                (q.field@, q.value@),
            ),
            Err(e) => parsed_text("phrase"@, "phrase query value"@, value@) is Err && tells(
                e@,
                parsed_text("phrase"@, "phrase query value"@, value@)->Err_0,
            ),
        },
{
    match parse_text_query("phrase", "phrase query value", value) {
        Ok((field, value)) => Ok(PhraseQuery { field, value }),
        Err(e) => Err(e),
    }
}

/// The fuzziness that a term query asks for.
pub open spec fn parsed_fuzziness(value: JsonView) -> Result<Option<Fuzziness>, Refusal> {
    match value.member("fuzziness"@) {
        None => Ok(None),
        Some(JsonView::Text(text)) => if lower_all(text) == "auto"@ {
            Ok(Some(Fuzziness::Auto))
        } else {
            Err(Refusal::Invalid("fuzziness must be 'auto' or a non-negative integer"@))
        },
        Some(JsonView::Number(NumberView::PosInt(n))) => if n <= usize::MAX {
            Ok(Some(Fuzziness::Exact(n as usize)))
        } else {
            Err(Refusal::Invalid("fuzziness value is too large"@))
        },
        Some(_) => Err(Refusal::Invalid("fuzziness must be 'auto' or a non-negative integer"@)),
    }
}

fn parse_fuzziness(value: &Json) -> (r: Result<Option<Fuzziness>, CloudSearchError>)
    ensures
        match r {
            Ok(f) => parsed_fuzziness(value@) == Ok::<_, Refusal>(f),
            Err(e) => parsed_fuzziness(value@) is Err && tells(
                e@,
                parsed_fuzziness(value@)->Err_0,
            ),
        },
{
    let Some(fuzziness) = value.get("fuzziness") else {
        return Ok(None);
    };
    match fuzziness {
        Json::Text(text) => if text_eq(lower_text(text.as_str()).as_str(), "auto") {
            Ok(Some(Fuzziness::Auto))
        } else {
            Err(invalid("fuzziness must be 'auto' or a non-negative integer"))
        },
        Json::Number(JsonNumber::PosInt(n)) => if *n <= usize::MAX as u64 {
            Ok(Some(Fuzziness::Exact(*n as usize)))
        } else {
            Err(invalid("fuzziness value is too large"))
        },
        _ => Err(invalid("fuzziness must be 'auto' or a non-negative integer")),
    }
}

/// A term query, in which the field and the value are members of their own, or the one member has
/// the field as its name and the value as its value.
pub open spec fn parsed_term(value: JsonView) -> Result<QueryView, Refusal> {
    match value {
        JsonView::Object(members) => match parsed_fuzziness(value) {
            Err(refusal) => Err(refusal),
            Ok(fuzziness) => if value.member("field"@) is Some || value.member("value"@) is Some {
                match (text_member(value, "field"@), value.member("value"@)) {
                    (None, _) => Err(
                        Refusal::Invalid("internal term query shape requires string 'field'"@),
                    ),
                    (Some(_), None) => Err(
                        Refusal::Invalid("internal term query shape requires 'value'"@),
                    ),
                    (Some(field), Some(value)) => Ok(QueryView::Term { field, value, fuzziness }),
                }
            } else if members.len() != 1 {
                Err(Refusal::Invalid("term query must contain exactly one field"@))
            } else {
                Ok(QueryView::Term { field: members[0].0, value: members[0].1, fuzziness })
            },
        },
        _ => Err(Refusal::Invalid("term query must be a JSON object"@)),
    }
}

/// Reads a term query.
pub fn parse_term_query(value: &Json) -> (r: Result<TermQuery, CloudSearchError>)
    ensures
        match r {
            Ok(q) => parsed_term(value@) == Ok::<_, Refusal>(
                QueryView::Term { field: q.field@, value: q.value@, fuzziness: q.fuzziness },
            ),
            Err(e) => parsed_term(value@) is Err && tells(e@, parsed_term(value@)->Err_0),
        },
{
    broadcast use lemma_object_view;

    let Json::Object(members) = value else {
        return Err(invalid("term query must be a JSON object"));
    };
    let fuzziness = match parse_fuzziness(value) {
        Ok(fuzziness) => fuzziness,
        Err(e) => {
            return Err(e);
        },
    };
    if value.get("field").is_some() || value.get("value").is_some() {
        let Some(field) = value.text_of("field") else {
            return Err(invalid("internal term query shape requires string 'field'"));
        };
        let Some(term) = value.get("value") else {
            return Err(invalid("internal term query shape requires 'value'"));
        };
        return Ok(TermQuery { field: field.to_owned(), value: term.copy(), fuzziness });
    }
    if members.len() != 1 {
        return Err(invalid("term query must contain exactly one field"));
    }
    Ok(TermQuery { field: members[0].0.clone(), value: members[0].1.copy(), fuzziness })
}

/// A query for one of several values, in which the field and the values are members of their own,
/// or the one member has the field as its name and the values as its value.
pub open spec fn parsed_terms(value: JsonView) -> Result<QueryView, Refusal> {
    match value {
        JsonView::Object(members) => if value.member("field"@) is Some || value.member("values"@)
            is Some {
            match (text_member(value, "field"@), value.member("values"@)) {
                (None, _) => Err(
                    Refusal::Invalid("internal terms query shape requires string 'field'"@),
                ),
                (Some(field), Some(JsonView::Array(values))) => Ok(
                    QueryView::Terms { field, values },
                ),
                (Some(_), _) => Err(
                    Refusal::Invalid("internal terms query shape requires array 'values'"@),
                ),
            }
        } else if members.len() != 1 {
            Err(Refusal::Invalid("terms query must contain exactly one field"@))
        } else {
            match members[0].1 {
                JsonView::Array(values) => Ok(QueryView::Terms { field: members[0].0, values }),
                _ => Err(Refusal::Invalid("terms query field must map to an array"@)),
            }
        },
        _ => Err(Refusal::Invalid("terms query must be a JSON object"@)),
    }
}

fn copy_values(values: &Vec<Json>) -> (r: Vec<Json>)
    ensures
        json_views(r@) == json_views(values@),
{
    let mut r: Vec<Json> = Vec::new();
    let mut i: usize = 0;
    while i < values.len()
        invariant
            i <= values@.len(),
            r@.len() == i,
            forall|j: int| 0 <= j < i ==> (#[trigger] r@[j])@ == values@[j]@,
        decreases values@.len() - i,
    {
        r.push(values[i].copy());
        i += 1;
    }
    proof {
        assert(json_views(r@) =~= json_views(values@));
    }
    r
}

/// Reads a query for one of several values.
pub fn parse_terms_query(value: &Json) -> (r: Result<TermsQuery, CloudSearchError>)
    ensures
        match r {
            Ok(q) => parsed_terms(value@) == Ok::<_, Refusal>(
                QueryView::Terms { field: q.field@, values: json_views(q.values@) },
            ),
            Err(e) => parsed_terms(value@) is Err && tells(e@, parsed_terms(value@)->Err_0),
        },
{
    broadcast use lemma_object_view;
    broadcast use lemma_array_view;

    let Json::Object(members) = value else {
        return Err(invalid("terms query must be a JSON object"));
    };
    if value.get("field").is_some() || value.get("values").is_some() {
        let Some(field) = value.text_of("field") else {
            return Err(invalid("internal terms query shape requires string 'field'"));
        };
        return match value.get("values") {
            Some(Json::Array(values)) => Ok(
                TermsQuery { field: field.to_owned(), values: copy_values(values) },
            ),
            _ => Err(invalid("internal terms query shape requires array 'values'")),
        };
    }
    if members.len() != 1 {
        return Err(invalid("terms query must contain exactly one field"));
    }
    match &members[0].1 {
        Json::Array(values) => Ok(
            TermsQuery { field: members[0].0.clone(), values: copy_values(values) },
        ),
        _ => Err(invalid("terms query field must map to an array")),
    }
}

/// The bounds that the members of an object name. A null is no bound.
pub open spec fn bounds_in(field: Seq<char>, bounds: JsonView) -> RangeView {
    RangeView {
        field,
        gte: present(bounds, "gte"@),
        gt: present(bounds, "gt"@),
        lte: present(bounds, "lte"@),
        lt: present(bounds, "lt"@),
    }
}

/// A range query, in which the field is a member beside the bounds, or the one member has the
/// field as its name and the bounds as its value.
pub open spec fn parsed_range(value: JsonView) -> Result<RangeView, Refusal> {
    match value {
        JsonView::Object(members) => if value.member("field"@) is Some {
            match text_member(value, "field"@) {
                Some(field) => Ok(bounds_in(field, value)),
                None => Err(
                    Refusal::Invalid("internal range query shape requires string 'field'"@),
                ),
            }
        } else if members.len() != 1 {
            Err(Refusal::Invalid("range query must contain exactly one field"@))
        } else {
            match members[0].1 {
                JsonView::Object(_) => Ok(bounds_in(members[0].0, members[0].1)),
                _ => Err(Refusal::Invalid("range bounds must be a JSON object"@)),
            }
        },
        _ => Err(Refusal::Invalid("range query must be a JSON object"@)),
    }
}

fn read_bounds(field: &str, bounds: &Json) -> (r: RangeQuery)
    ensures
        r@ == bounds_in(field@, bounds@),
{
    RangeQuery {
        field: field.to_owned(),
        gte: present_copy(bounds, "gte"),
        gt: present_copy(bounds, "gt"),
        lte: present_copy(bounds, "lte"),
        lt: present_copy(bounds, "lt"),
    }
}

/// Reads a range query.
pub fn parse_range_query(value: &Json) -> (r: Result<RangeQuery, CloudSearchError>)
    ensures
        match r {
            Ok(q) => parsed_range(value@) == Ok::<_, Refusal>(q@),
            Err(e) => parsed_range(value@) is Err && tells(e@, parsed_range(value@)->Err_0),
        },
{
    broadcast use lemma_object_view;

    let Json::Object(members) = value else {
        return Err(invalid("range query must be a JSON object"));
    };
    if value.get("field").is_some() {
        return match value.text_of("field") {
            Some(field) => Ok(read_bounds(field, value)),
            None => Err(invalid("internal range query shape requires string 'field'")),
        };
    }
    if members.len() != 1 {
        return Err(invalid("range query must contain exactly one field"));
    }
    match &members[0].1 {
        Json::Object(_) => Ok(read_bounds(members[0].0.as_str(), &members[0].1)),
        _ => Err(invalid("range bounds must be a JSON object")),
    }
}

/// A member of a value is smaller than the value.
pub proof fn lemma_member_is_smaller(value: JsonView, key: Seq<char>)
    ensures
        value.member(key) is Some ==> decreases_to!(value => value.member(key)->0),
{
    if value.member(key) is Some {
        let members = value->Object_0;
        let i = lemma_member_is_listed(members, key);
        assert(decreases_to!(value => value->Object_0));
        assert(decreases_to!(members => members[i]));
        assert(decreases_to!(members[i] => members[i].1));
        assert(decreases_to!(value => members[i].1));
    }
}

proof fn lemma_member_is_listed(members: Seq<(Seq<char>, JsonView)>, key: Seq<char>) -> (i: int)
    requires
        crate::json::find_member(members, key) is Some,
    ensures
        0 <= i < members.len(),
        members[i].1 == crate::json::find_member(members, key)->0,
    decreases members.len(),
{
    if members[0].0 == key {
        0
    } else {
        let j = lemma_member_is_listed(members.drop_first(), key);
        j + 1
    }
}

/// The value of the one member of an object is smaller than the object.
pub proof fn lemma_one_member_is_smaller(value: JsonView)
    ensures
        value matches JsonView::Object(members) ==> members.len() == 1 ==> decreases_to!(
            value => members[0].1
        ),
{
    if value is Object && value->Object_0.len() == 1 {
        let members = value->Object_0;
        assert(decreases_to!(value => value->Object_0));
        assert(decreases_to!(members => members[0]));
        assert(decreases_to!(members[0] => members[0].1));
        assert(decreases_to!(value => members[0].1));
    }
}

/// A query: an object whose one member has the kind of the query as its name.
pub open spec fn parsed_query(value: JsonView) -> Result<QueryView, Refusal>
    decreases value, 3int,
{
    match value {
        JsonView::Object(members) => if members.len() != 1 {
            Err(Refusal::Invalid("query object must contain exactly one clause"@))
        } else {
            proof {
                lemma_one_member_is_smaller(value);
            }
            let kind = members[0].0;
            let body = members[0].1;
            if kind == "match_all"@ {
                Ok(QueryView::MatchAll)
            } else if kind == "term"@ {
                parsed_term(body)
            } else if kind == "terms"@ {
                parsed_terms(body)
            } else if kind == "range"@ {
                match parsed_range(body) {
                    Ok(range) => Ok(QueryView::Range(range)),
                    Err(refusal) => Err(refusal),
                }
            } else if kind == "bool"@ {
                parsed_bool(body)
            } else if kind == "prefix"@ {
                match parsed_text("prefix"@, "prefix value"@, body) {
                    Ok((field, text)) => Ok(QueryView::Prefix { field, text }),
                    Err(refusal) => Err(refusal),
                }
            } else if kind == "wildcard"@ {
                match parsed_text("wildcard"@, "wildcard value"@, body) {
                    Ok((field, text)) => Ok(QueryView::Wildcard { field, text }),
                    Err(refusal) => Err(refusal),
                }
            } else if kind == "match"@ {
                match parsed_text("match"@, "match query value"@, body) {
                    Ok((field, text)) => Ok(QueryView::Match { field, text }),
                    Err(refusal) => Err(refusal),
                }
            } else if kind == "phrase"@ {
                match parsed_text("phrase"@, "phrase query value"@, body) {
                    Ok((field, text)) => Ok(QueryView::Phrase { field, text }),
                    Err(refusal) => Err(refusal),
                }
            } else {
                Err(Refusal::Invalid("unsupported query clause '"@ + kind + "'"@))
            }
        },
        _ => Err(Refusal::Invalid("query must be a JSON object"@)),
    }
}

/// Whether a combination may have a member of that name.
pub open spec fn is_bool_clause(key: Seq<char>) -> bool {
    key == "must"@ || key == "should"@ || key == "filter"@ || key == "must_not"@ || key
        == "minimum_should_match"@
}

/// The name of the first member that a combination may not have.
pub open spec fn foreign_clause(members: Seq<(Seq<char>, JsonView)>) -> Option<Seq<char>>
    decreases members.len(),
{
    if members.len() == 0 {
        None
    } else if !is_bool_clause(members[0].0) {
        Some(members[0].0)
    } else {
        foreign_clause(members.drop_first())
    }
}

/// How many of the optional clauses of a combination have to hold, if it says so by a
/// non-negative integer.
pub open spec fn parsed_minimum(value: JsonView) -> Result<Option<u32>, Refusal> {
    match value.member("minimum_should_match"@) {
        Some(count) => match count.as_u64() {
            Some(n) => if n <= u32::MAX {
                Ok(Some(n as u32))
            } else {
                Err(
                    Refusal::Invalid("minimum_should_match must be a non-negative integer"@),
                )
            },
            None => Ok(None),
        },
        None => Ok(None),
    }
}

/// A combination of queries.
pub open spec fn parsed_bool(value: JsonView) -> Result<QueryView, Refusal>
    decreases value, 2int,
{
    match value {
        JsonView::Object(members) => match foreign_clause(members) {
            Some(key) => Err(Refusal::Invalid("unsupported bool clause '"@ + key + "'"@)),
            None => match parsed_minimum(value) {
                Err(refusal) => Err(refusal),
                Ok(minimum_should_match) => {
                    let must = parsed_clauses(value, "must"@, "bool.must"@);
                    let should = parsed_clauses(value, "should"@, "bool.should"@);
                    let filter = parsed_clauses(value, "filter"@, "bool.filter"@);
                    let must_not = parsed_clauses(value, "must_not"@, "bool.must_not"@);
                    match (must, should, filter, must_not) {
                        (Err(refusal), _, _, _) => Err(refusal),
                        (Ok(_), Err(refusal), _, _) => Err(refusal),
                        (Ok(_), Ok(_), Err(refusal), _) => Err(refusal),
                        (Ok(_), Ok(_), Ok(_), Err(refusal)) => Err(refusal),
                        (Ok(must), Ok(should), Ok(filter), Ok(must_not)) => Ok(
                            QueryView::Bool { must, should, filter, must_not, minimum_should_match },
                        ),
                    }
                },
            },
        },
        _ => Err(Refusal::Invalid("bool query must be a JSON object"@)),
    }
}

/// The queries that a member of a combination lists.
pub open spec fn parsed_clauses(value: JsonView, key: Seq<char>, name: Seq<char>) -> Result<
    Seq<QueryView>,
    Refusal,
>
    decreases value, 1int,
{
    proof {
        lemma_member_is_smaller(value, key);
    }
    match present(value, key) {
        None => Ok(Seq::empty()),
        Some(JsonView::Array(items)) => {
            proof {
                let member = value.member(key)->0;
                assert(decreases_to!(member => member->Array_0));
                assert(decreases_to!(value => member->Array_0));
            }
            parsed_items(items, items.len() as int)
        },
        Some(_) => Err(Refusal::Invalid(name + " must be an array"@)),
    }
}

/// The queries that the first `k` items stand for. A null stands for none.
pub open spec fn parsed_items(items: Seq<JsonView>, k: int) -> Result<Seq<QueryView>, Refusal>
    decreases items, k,
{
    if k <= 0 || k > items.len() {
        Ok(Seq::empty())
    } else {
        match parsed_items(items, k - 1) {
            Err(refusal) => Err(refusal),
            Ok(before) => if items[k - 1] is Null {
                Ok(before)
            } else {
                match parsed_query(items[k - 1]) {
                    Ok(query) => Ok(before.push(query)),
                    Err(refusal) => Err(refusal),
                }
            },
        }
    }
}

proof fn lemma_items_stay_refused(items: Seq<JsonView>, k: int)
    requires
        0 <= k <= items.len(),
        parsed_items(items, k) is Err,
    ensures
        parsed_items(items, items.len() as int) == parsed_items(items, k),
    decreases items.len() - k,
{
    if k < items.len() {
        lemma_items_stay_refused(items, k + 1);
    }
}

/// Reads a query.
pub fn parse_query(value: &Json) -> (r: Result<SearchQuery, CloudSearchError>)
    ensures
        match r {
            Ok(q) => parsed_query(value@) == Ok::<_, Refusal>(q@),
            Err(e) => parsed_query(value@) is Err && tells(e@, parsed_query(value@)->Err_0),
        },
    decreases value@, 3int,
{
    broadcast use lemma_object_view;

    let Json::Object(members) = value else {
        return Err(invalid("query must be a JSON object"));
    };
    if members.len() != 1 {
        return Err(invalid("query object must contain exactly one clause"));
    }
    proof {
        lemma_one_member_is_smaller(value@);
        assert(value@->Object_0[0] == (members@[0].0@, members@[0].1@));
    }
    let kind = members[0].0.as_str();
    let body = &members[0].1;
    if text_eq(kind, "match_all") {
        Ok(SearchQuery::MatchAll)
    } else if text_eq(kind, "term") {
        match parse_term_query(body) {
            Ok(q) => Ok(SearchQuery::Term(q)),
            Err(e) => Err(e),
        }
    } else if text_eq(kind, "terms") {
        match parse_terms_query(body) {
            Ok(q) => Ok(SearchQuery::Terms(q)),
            Err(e) => Err(e),
        }
    } else if text_eq(kind, "range") {
        match parse_range_query(body) {
            Ok(q) => Ok(SearchQuery::Range(q)),
            Err(e) => Err(e),
        }
    } else if text_eq(kind, "bool") {
        match parse_bool_query(body) {
            Ok(q) => {
                proof {
                    lemma_bool_view(q);
                }
                Ok(SearchQuery::Bool(q))
            },
            Err(e) => Err(e),
        }
    } else if text_eq(kind, "prefix") {
        match parse_prefix_query(body) {
            Ok(q) => Ok(SearchQuery::Prefix(q)),
            Err(e) => Err(e),
        }
    } else if text_eq(kind, "wildcard") {
        match parse_wildcard_query(body) {
            Ok(q) => Ok(SearchQuery::Wildcard(q)),
            Err(e) => Err(e),
        }
    } else if text_eq(kind, "match") {
        match parse_match_query(body) {
            Ok(q) => Ok(SearchQuery::Match(q)),
            Err(e) => Err(e),
        }
    } else if text_eq(kind, "phrase") {
        match parse_phrase_query(body) {
            Ok(q) => Ok(SearchQuery::Phrase(q)),
            Err(e) => Err(e),
        }
    } else {
        Err(invalid3("unsupported query clause '", kind, "'"))
    }
}

/// Finds the name of the first member that a combination may not have.
fn find_foreign_clause(members: &Vec<(String, Json)>) -> (r: Option<&String>)
    ensures
        match r {
            Some(key) => foreign_clause(member_views(members@)) == Some(key@),
            None => foreign_clause(member_views(members@)) is None,
        },
{
    let ghost all = member_views(members@);
    let mut i: usize = 0;
    proof {
        assert(all.skip(0) =~= all);
    }
    while i < members.len()
        invariant
            i <= members@.len(),
            all == member_views(members@),
            foreign_clause(all) == foreign_clause(all.skip(i as int)),
        decreases members@.len() - i,
    {
        let key = &members[i].0;
        proof {
            assert(all.skip(i as int)[0] == all[i as int]);
            assert(all.skip(i as int).drop_first() =~= all.skip(i + 1));
        }
        let known: bool = text_eq(key.as_str(), "must") || text_eq(key.as_str(), "should")
            || text_eq(key.as_str(), "filter") || text_eq(key.as_str(), "must_not") || text_eq(
            key.as_str(),
            "minimum_should_match",
        );
        if !known {
            return Some(key);
        }
        i += 1;
    }
    None
}

/// Reads a combination of queries.
pub fn parse_bool_query(value: &Json) -> (r: Result<BoolQuery, CloudSearchError>)
    ensures
        match r {
            Ok(q) => parsed_bool(value@) == Ok::<_, Refusal>(bool_view(q)),
            Err(e) => parsed_bool(value@) is Err && tells(e@, parsed_bool(value@)->Err_0),
        },
    decreases value@, 2int,
{
    broadcast use lemma_object_view;

    let Json::Object(members) = value else {
        return Err(invalid("bool query must be a JSON object"));
    };
    if let Some(key) = find_foreign_clause(members) {
        return Err(invalid3("unsupported bool clause '", key.as_str(), "'"));
    }
    let minimum_should_match: Option<u32> = match value.get("minimum_should_match") {
        Some(count) => match count.as_u64() {
            Some(n) => if n <= u32::MAX as u64 {
                Some(n as u32)
            } else {
                return Err(invalid("minimum_should_match must be a non-negative integer"));
            },
            None => None,
        },
        None => None,
    };
    let must = match parse_bool_clause_array(value, "must", "bool.must") {
        Ok(queries) => queries,
        Err(e) => {
            return Err(e);
        },
    };
    let should = match parse_bool_clause_array(value, "should", "bool.should") {
        Ok(queries) => queries,
        Err(e) => {
            return Err(e);
        },
    };
    let filter = match parse_bool_clause_array(value, "filter", "bool.filter") {
        Ok(queries) => queries,
        Err(e) => {
            return Err(e);
        },
    };
    let must_not = match parse_bool_clause_array(value, "must_not", "bool.must_not") {
        Ok(queries) => queries,
        Err(e) => {
            return Err(e);
        },
    };
    Ok(BoolQuery { must, should, filter, must_not, minimum_should_match })
}

/// Reads the queries that a member of a combination lists.
pub fn parse_bool_clause_array(value: &Json, key: &str, name: &str) -> (r: Result<
    Vec<SearchQuery>,
    CloudSearchError,
>)
    ensures
        match r {
            Ok(queries) => parsed_clauses(value@, key@, name@) == Ok::<_, Refusal>(
                query_views(queries@),
            ),
            Err(e) => parsed_clauses(value@, key@, name@) is Err && tells(
                e@,
                parsed_clauses(value@, key@, name@)->Err_0,
            ),
        },
    decreases value@, 1int,
{
    broadcast use lemma_array_view;

    let mut queries: Vec<SearchQuery> = Vec::new();
    proof {
        assert(query_views(queries@) =~= Seq::<QueryView>::empty());
        lemma_member_is_smaller(value@, key@);
    }
    let Some(member) = present_member(value, key) else {
        return Ok(queries);
    };
    let Json::Array(items) = member else {
        return Err(invalid2(name, " must be an array"));
    };
    let ghost all = json_views(items@);
    let mut i: usize = 0;
    proof {
        assert(member@ == JsonView::Array(all));
        assert(decreases_to!(member@ => member@->Array_0));
        assert(decreases_to!(value@ => all));
    }
    while i < items.len()
        invariant
            i <= items@.len(),
            all == json_views(items@),
            decreases_to!(value@ => all),
            present(value@, key@) == Some(JsonView::Array(all)),
            parsed_items(all, i as int) == Ok::<_, Refusal>(query_views(queries@)),
        decreases items@.len() - i,
    {
        proof {
            assert(all[i as int] == items@[i as int]@);
            assert(decreases_to!(all => all[i as int]));
            assert(decreases_to!(value@ => all[i as int]));
        }
        if !items[i].is_null() {
            match parse_query(&items[i]) {
                Ok(query) => {
                    let ghost before = queries@;
                    queries.push(query);
                    proof {
                        assert(query_views(queries@) =~= query_views(before).push(query@));
                    }
                },
                Err(e) => {
                    proof {
                        lemma_items_stay_refused(all, i + 1);
                    }
                    return Err(e);
                },
            }
        }
        i += 1;
    }
    Ok(queries)
}

/// The part of a record of `count` parts: of an object the member of that name, of an array with
/// `count` items the item at that place.
pub open spec fn record_part(value: JsonView, count: int, place: int, name: Seq<char>) -> Option<
    JsonView,
> {
    match value {
        JsonView::Object(_) => value.member(name),
        JsonView::Array(items) => if items.len() == count {
            Some(items[place])
        } else {
            None
        },
        _ => None,
    }
}

/// The text of a part of a record.
pub open spec fn record_text(value: JsonView, count: int, place: int, name: Seq<char>) -> Option<
    Seq<char>,
> {
    match record_part(value, count, place, name) {
        Some(part) => part.as_str(),
        None => None,
    }
}

fn part_of<'a>(value: &'a Json, count: usize, place: usize, name: &str) -> (r: Option<&'a Json>)
    requires
        place < count,
    ensures
        match r {
            Some(part) => record_part(value@, count as int, place as int, name@) == Some(part@),
            None => record_part(value@, count as int, place as int, name@) is None,
        },
{
    broadcast use lemma_array_view;
    broadcast use lemma_object_view;

    match value {
        Json::Object(_) => value.get(name),
        Json::Array(items) => if items.len() == count {
            Some(&items[place])
        } else {
            None
        },
        _ => None,
    }
}

fn text_part(value: &Json, count: usize, place: usize, name: &str) -> (r: Option<String>)
    requires
        place < count,
    ensures
        match r {
            Some(text) => record_text(value@, count as int, place as int, name@) == Some(text@),
            None => record_text(value@, count as int, place as int, name@) is None,
        },
{
    match part_of(value, count, place, name) {
        Some(part) => match part.as_str() {
            Some(text) => Some(text.to_owned()),
            None => None,
        },
        None => None,
    }
}

/// A word out of a fixed choice: a string, or the name of the one member of an object whose value
/// is null.
pub open spec fn chosen_word(value: JsonView) -> Option<Seq<char>> {
    match value {
        JsonView::Text(text) => Some(text),
        JsonView::Object(members) => if members.len() == 1 && members[0].1 is Null {
            Some(members[0].0)
        } else {
            None
        },
        _ => None,
    }
}

fn word_of(value: &Json) -> (r: Option<&String>)
    ensures
        match r {
            Some(word) => chosen_word(value@) == Some(word@),
            None => chosen_word(value@) is None,
        },
{
    broadcast use lemma_object_view;

    match value {
        Json::Text(text) => Some(text),
        Json::Object(members) => if members.len() == 1 && members[0].1.is_null() {
            Some(&members[0].0)
        } else {
            None
        },
        _ => None,
    }
}

/// Which end comes first in a sort.
pub open spec fn order_in(value: JsonView) -> Option<SortOrder> {
    match chosen_word(value) {
        Some(word) => if word == "asc"@ {
            Some(SortOrder::Asc)
        } else if word == "desc"@ {
            Some(SortOrder::Desc)
        } else {
            None
        },
        None => None,
    }
}

fn read_order(value: &Json) -> (r: Option<SortOrder>)
    ensures
        r == order_in(value@),
{
    match word_of(value) {
        Some(word) => if text_eq(word.as_str(), "asc") {
            Some(SortOrder::Asc)
        } else if text_eq(word.as_str(), "desc") {
            Some(SortOrder::Desc)
        } else {
            None
        },
        None => None,
    }
}

/// What a [`SortSpec`] stands for.
pub ghost struct SortView {
    pub field: Seq<char>,
    pub order: SortOrder,
}

impl View for SortSpec {
    type V = SortView;

    open spec fn view(&self) -> SortView {
        SortView { field: self.field@, order: self.order }
    }
}

/// A sort with a field and an order.
pub open spec fn full_sort(value: JsonView) -> Option<SortView> {
    match (record_text(value, 2, 0, "field"@), record_part(value, 2, 1, "order"@)) {
        (Some(field), Some(order)) => match order_in(order) {
            Some(order) => Some(SortView { field, order }),
            None => None,
        },
        _ => None,
    }
}

fn read_full_sort(value: &Json) -> (r: Option<SortSpec>)
    ensures
        match r {
            Some(sort) => full_sort(value@) == Some(sort@),
            None => full_sort(value@) is None,
        },
{
    let Some(field) = text_part(value, 2, 0, "field") else {
        return None;
    };
    match part_of(value, 2, 1, "order") {
        Some(order) => match read_order(order) {
            Some(order) => Some(SortSpec { field, order }),
            None => None,
        },
        None => None,
    }
}

/// What an item of a sort stands for: its one member has the field as its name, and as its value
/// an object that may give the order.
pub open spec fn short_sort(item: JsonView) -> Result<SortView, Refusal> {
    match item {
        JsonView::Object(members) => if members.len() != 1 {
            Err(Refusal::Invalid("sort object must contain exactly one field"@))
        } else {
            match members[0].1.member("order"@) {
                None => Ok(SortView { field: members[0].0, order: SortOrder::Asc }),
                Some(order) => match order_in(order) {
                    Some(order) => Ok(SortView { field: members[0].0, order }),
                    None => Err(Refusal::Malformed),
                },
            }
        },
        _ => Err(Refusal::Invalid("sort must be an object or single-entry array"@)),
    }
}

/// A sort.
pub open spec fn parsed_sort(value: JsonView) -> Result<SortView, Refusal> {
    match full_sort(value) {
        Some(sort) => Ok(sort),
        None => match value {
            JsonView::Array(items) => if items.len() != 1 {
                Err(Refusal::Invalid("only one sort entry is supported"@))
            } else {
                short_sort(items[0])
            },
            _ => short_sort(value),
        },
    }
}

/// Reads a sort.
pub fn parse_sort(value: &Json) -> (r: Result<SortSpec, CloudSearchError>)
    ensures
        match r {
            Ok(sort) => parsed_sort(value@) == Ok::<_, Refusal>(sort@),
            Err(e) => parsed_sort(value@) is Err && tells(e@, parsed_sort(value@)->Err_0),
        },
{
    broadcast use lemma_array_view;
    broadcast use lemma_object_view;

    if let Some(sort) = read_full_sort(value) {
        return Ok(sort);
    }
    let item = match value {
        Json::Array(items) => {
            if items.len() != 1 {
                return Err(invalid("only one sort entry is supported"));
            }
            &items[0]
        },
        _ => value,
    };
    let Json::Object(members) = item else {
        return Err(invalid("sort must be an object or single-entry array"));
    };
    if members.len() != 1 {
        return Err(invalid("sort object must contain exactly one field"));
    }
    let field = members[0].0.clone();
    match members[0].1.get("order") {
        None => Ok(SortSpec { field, order: SortOrder::Asc }),
        Some(order) => match read_order(order) {
            Some(order) => Ok(SortSpec { field, order }),
            None => Err(CloudSearchError::Serde("sort order is neither asc nor desc".to_owned())),
        },
    }
}

/// What an [`AggregationRequest`] stands for.
pub ghost enum AggregationView {
    Terms(Seq<char>),
    Stats(Seq<char>),
    DateHistogram(Seq<char>, DateHistogramInterval),
}

impl View for AggregationRequest {
    type V = AggregationView;

    open spec fn view(&self) -> AggregationView {
        match *self {
            AggregationRequest::Terms(a) => AggregationView::Terms(a.field@),
            AggregationRequest::Stats(a) => AggregationView::Stats(a.field@),
            AggregationRequest::DateHistogram(a) => AggregationView::DateHistogram(
                a.field@,
                a.interval,
            ),
        }
    }
}

/// The width of the buckets of a histogram.
pub open spec fn interval_in(value: JsonView) -> Option<DateHistogramInterval> {
    match chosen_word(value) {
        Some(word) => if word == "minute"@ {
            Some(DateHistogramInterval::Minute)
        } else if word == "hour"@ {
            Some(DateHistogramInterval::Hour)
        } else if word == "day"@ {
            Some(DateHistogramInterval::Day)
        } else {
            None
        },
        None => None,
    }
}

fn read_interval(value: &Json) -> (r: Option<DateHistogramInterval>)
    ensures
        r == interval_in(value@),
{
    match word_of(value) {
        Some(word) => if text_eq(word.as_str(), "minute") {
            Some(DateHistogramInterval::Minute)
        } else if text_eq(word.as_str(), "hour") {
            Some(DateHistogramInterval::Hour)
        } else if text_eq(word.as_str(), "day") {
            Some(DateHistogramInterval::Day)
        } else {
            None
        },
        None => None,
    }
}

/// An aggregation: an object whose one member has the kind of the aggregation as its name.
pub open spec fn parsed_aggregation(value: JsonView) -> Option<AggregationView> {
    match value {
        JsonView::Object(members) => if members.len() != 1 {
            None
        } else {
            let kind = members[0].0;
            let body = members[0].1;
            if kind == "terms"@ {
                match record_text(body, 1, 0, "field"@) {
                    Some(field) => Some(AggregationView::Terms(field)),
                    None => None,
                }
            } else if kind == "stats"@ {
                match record_text(body, 1, 0, "field"@) {
                    Some(field) => Some(AggregationView::Stats(field)),
                    None => None,
                }
            } else if kind == "date_histogram"@ {
                match (
                    record_text(body, 2, 0, "field"@),
                    record_part(body, 2, 1, "interval"@),
                ) {
                    (Some(field), Some(interval)) => match interval_in(interval) {
                        Some(interval) => Some(AggregationView::DateHistogram(field, interval)),
                        None => None,
                    },
                    _ => None,
                }
            } else {
                None
            }
        },
        _ => None,
    }
}

/// Reads an aggregation.
pub fn parse_aggregation(value: &Json) -> (r: Option<AggregationRequest>)
    ensures
        match r {
            Some(aggregation) => parsed_aggregation(value@) == Some(aggregation@),
            None => parsed_aggregation(value@) is None,
        },
{
    broadcast use lemma_object_view;

    let Json::Object(members) = value else {
        return None;
    };
    if members.len() != 1 {
        return None;
    }
    let kind = members[0].0.as_str();
    let body = &members[0].1;
    if text_eq(kind, "terms") {
        match text_part(body, 1, 0, "field") {
            Some(field) => Some(AggregationRequest::Terms(TermsAggregationRequest { field })),
            None => None,
        }
    } else if text_eq(kind, "stats") {
        match text_part(body, 1, 0, "field") {
            Some(field) => Some(AggregationRequest::Stats(StatsAggregationRequest { field })),
            None => None,
        }
    } else if text_eq(kind, "date_histogram") {
        let Some(field) = text_part(body, 2, 0, "field") else {
            return None;
        };
        match part_of(body, 2, 1, "interval") {
            Some(interval) => match read_interval(interval) {
                Some(interval) => Some(
                    AggregationRequest::DateHistogram(
                        DateHistogramAggregationRequest { field, interval },
                    ),
                ),
                None => None,
            },
            None => None,
        }
    } else {
        None
    }
}

/// The aggregations that the first `k` members name. Of two of the same name the later counts.
pub open spec fn parsed_aggregations(members: Seq<(Seq<char>, JsonView)>, k: int) -> Option<
    Map<Seq<char>, AggregationView>,
>
    decreases k,
{
    if k <= 0 || k > members.len() {
        Some(Map::empty())
    } else {
        match (parsed_aggregations(members, k - 1), parsed_aggregation(members[k - 1].1)) {
            (Some(before), Some(aggregation)) => Some(
                before.insert(members[k - 1].0, aggregation),
            ),
            _ => None,
        }
    }
}

/// The views of named aggregations.
pub open spec fn aggregation_views(map: Map<Seq<char>, AggregationRequest>) -> Map<
    Seq<char>,
    AggregationView,
> {
    map.map_values(|a: AggregationRequest| a@)
}

proof fn lemma_aggregations_stay_malformed(members: Seq<(Seq<char>, JsonView)>, k: int)
    requires
        0 <= k <= members.len(),
        parsed_aggregations(members, k) is None,
    ensures
        parsed_aggregations(members, members.len() as int) is None,
    decreases members.len() - k,
{
    if k < members.len() {
        lemma_aggregations_stay_malformed(members, k + 1);
    }
}

/// What the aggregations of a request stand for.
pub open spec fn aggregations_in(value: JsonView) -> Result<
    Map<Seq<char>, AggregationView>,
    Refusal,
> {
    match value {
        JsonView::Object(members) => match parsed_aggregations(members, members.len() as int) {
            Some(aggregations) => Ok(aggregations),
            None => Err(Refusal::Malformed),
        },
        _ => Err(Refusal::Malformed),
    }
}

/// Reads the aggregations of a request.
pub fn parse_aggregations(value: &Json) -> (r: Result<
    StringMap<AggregationRequest>,
    CloudSearchError,
>)
    ensures
        match r {
            Ok(map) => aggregations_in(value@) == Ok::<_, Refusal>(aggregation_views(map@)),
            Err(e) => aggregations_in(value@) == Err::<Map<Seq<char>, AggregationView>, _>(
                Refusal::Malformed,
            ) && tells(e@, Refusal::Malformed),
        },
{
    broadcast use lemma_object_view;

    let Json::Object(members) = value else {
        return Err(CloudSearchError::Serde("aggregations are no object".to_owned()));
    };
    let ghost all = member_views(members@);
    let mut map: StringMap<AggregationRequest> = StringMap::new();
    let mut i: usize = 0;
    proof {
        assert(aggregation_views(map@) =~= Map::empty());
    }
    while i < members.len()
        invariant
            i <= members@.len(),
            all == member_views(members@),
            value@ == JsonView::Object(all),
            parsed_aggregations(all, i as int) == Some(aggregation_views(map@)),
        decreases members@.len() - i,
    {
        proof {
            assert(all[i as int] == (members@[i as int].0@, members@[i as int].1@));
        }
        match parse_aggregation(&members[i].1) {
            Some(aggregation) => {
                let ghost before = map@;
                map.insert(members[i].0.clone(), aggregation);
                proof {
                    assert(aggregation_views(map@) =~= aggregation_views(before).insert(
                        members@[i as int].0@,
                        aggregation@,
                    ));
                }
            },
            None => {
                proof {
                    lemma_aggregations_stay_malformed(all, i + 1);
                }
                return Err(
                    CloudSearchError::Serde(
                        cat3("aggregation '", members[i].0.as_str(), "' is malformed"),
                    ),
                );
            },
        }
        i += 1;
    }
    Ok(map)
}

/// A count that a request gives.
pub open spec fn parsed_count(value: JsonView, name: Seq<char>) -> Result<usize, Refusal> {
    match value.as_u64() {
        None => Err(Refusal::Invalid(name + " must be a non-negative integer"@)),
        Some(n) => if n <= usize::MAX {
            Ok(n as usize)
        } else {
            Err(Refusal::Invalid(name + " is too large"@))
        },
    }
}

/// Reads a count that a request gives.
pub fn parse_usize_field(value: &Json, name: &str) -> (r: Result<usize, CloudSearchError>)
    ensures
        match r {
            Ok(n) => parsed_count(value@, name@) == Ok::<_, Refusal>(n),
            Err(e) => parsed_count(value@, name@) is Err && tells(
                e@,
                parsed_count(value@, name@)->Err_0,
            ),
        },
{
    match value.as_u64() {
        None => Err(invalid2(name, " must be a non-negative integer")),
        Some(n) => if n <= usize::MAX as u64 {
            Ok(n as usize)
        } else {
            Err(invalid2(name, " is too large"))
        },
    }
}

/// What a [`SearchRequest`] stands for.
pub ghost struct RequestView {
    pub query: Option<QueryView>,
    pub from: Option<usize>,
    pub size: Option<usize>,
    pub sort: Option<SortView>,
    pub aggs: Option<Map<Seq<char>, AggregationView>>,
    pub search_after: Option<Seq<JsonView>>,
}

impl View for SearchRequest {
    type V = RequestView;

    open spec fn view(&self) -> RequestView {
        RequestView {
            query: match self.query {
                Some(query) => Some(query@),
                None => None,
            },
            from: self.from,
            size: self.size,
            sort: match self.sort {
                Some(sort) => Some(sort@),
                None => None,
            },
            aggs: match self.aggs {
                Some(aggs) => Some(aggregation_views(aggs@)),
                None => None,
            },
            search_after: match self.search_after {
                Some(values) => Some(json_views(values@)),
                None => None,
            },
        }
    }
}

/// The member with the aggregations, under either of its names, unless it is null.
pub open spec fn aggregations_member(value: JsonView) -> Option<JsonView> {
    if value.member("aggs"@) is Some {
        present(value, "aggs"@)
    } else {
        present(value, "aggregations"@)
    }
}

/// The query of a request.
pub open spec fn request_query(value: JsonView) -> Result<Option<QueryView>, Refusal> {
    match present(value, "query"@) {
        None => Ok(None),
        Some(query) => match parsed_query(query) {
            Ok(query) => Ok(Some(query)),
            Err(refusal) => Err(refusal),
        },
    }
}

/// A count of a request.
pub open spec fn request_count(value: JsonView, name: Seq<char>) -> Result<Option<usize>, Refusal> {
    match present(value, name) {
        None => Ok(None),
        Some(count) => match parsed_count(count, name) {
            Ok(count) => Ok(Some(count)),
            Err(refusal) => Err(refusal),
        },
    }
}

/// The sort of a request.
pub open spec fn request_sort(value: JsonView) -> Result<Option<SortView>, Refusal> {
    match present(value, "sort"@) {
        None => Ok(None),
        Some(sort) => match parsed_sort(sort) {
            Ok(sort) => Ok(Some(sort)),
            Err(refusal) => Err(refusal),
        },
    }
}

/// The aggregations of a request.
pub open spec fn request_aggregations(value: JsonView) -> Result<
    Option<Map<Seq<char>, AggregationView>>,
    Refusal,
> {
    match aggregations_member(value) {
        None => Ok(None),
        Some(aggregations) => match aggregations_in(aggregations) {
            Ok(aggregations) => Ok(Some(aggregations)),
            Err(refusal) => Err(refusal),
        },
    }
}

/// A search request. A part that is missing or null is left out, and the first part that is
/// refused has the request refused. Nothing says after which values to begin.
pub open spec fn parsed_request(value: JsonView) -> Result<RequestView, Refusal> {
    if !(value is Object) {
        Err(Refusal::Invalid("search request must be a JSON object"@))
    } else {
        match request_query(value) {
            Err(refusal) => Err(refusal),
            Ok(query) => match request_count(value, "from"@) {
                Err(refusal) => Err(refusal),
                Ok(from) => match request_count(value, "size"@) {
                    Err(refusal) => Err(refusal),
                    Ok(size) => match request_sort(value) {
                        Err(refusal) => Err(refusal),
                        Ok(sort) => match request_aggregations(value) {
                            Err(refusal) => Err(refusal),
                            Ok(aggs) => Ok(
                                RequestView { query, from, size, sort, aggs, search_after: None },
                            ),
                        },
                    },
                },
            },
        }
    }
}

/// A request that asks for nothing in particular.
pub open spec fn no_request() -> RequestView {
    RequestView {
        query: None,
        from: None,
        size: None,
        sort: None,
        aggs: None,
        search_after: None,
    }
}

/// Reads a search request.
pub fn parse_search_request(value: &Json) -> (r: Result<SearchRequest, CloudSearchError>)
    ensures
        match r {
            Ok(request) => parsed_request(value@) == Ok::<_, Refusal>(request@),
            Err(e) => parsed_request(value@) is Err && tells(e@, parsed_request(value@)->Err_0),
        },
{
    broadcast use lemma_object_view;

    let Json::Object(_) = value else {
        return Err(invalid("search request must be a JSON object"));
    };
    let mut request = SearchRequest::default();
    if let Some(query) = present_member(value, "query") {
        match parse_query(query) {
            Ok(query) => {
                request.query = Some(query);
            },
            Err(e) => {
                return Err(e);
            },
        }
    }
    if let Some(from) = present_member(value, "from") {
        match parse_usize_field(from, "from") {
            Ok(from) => {
                request.from = Some(from);
            },
            Err(e) => {
                return Err(e);
            },
        }
    }
    if let Some(size) = present_member(value, "size") {
        match parse_usize_field(size, "size") {
            Ok(size) => {
                request.size = Some(size);
            },
            Err(e) => {
                return Err(e);
            },
        }
    }
    if let Some(sort) = present_member(value, "sort") {
        match parse_sort(sort) {
            Ok(sort) => {
                request.sort = Some(sort);
            },
            Err(e) => {
                return Err(e);
            },
        }
    }
    let aggregations = if value.get("aggs").is_some() {
        present_member(value, "aggs")
    } else {
        present_member(value, "aggregations")
    };
    if let Some(aggregations) = aggregations {
        match parse_aggregations(aggregations) {
            Ok(aggs) => {
                request.aggs = Some(aggs);
            },
            Err(e) => {
                return Err(e);
            },
        }
    }
    Ok(request)
}

/// Reads the query string of a URL into a search request. What a query string is refused for is
/// told behind another announcement of the refusal.
pub fn parse_url_request(q: Option<&str>) -> (r: Result<SearchRequest, CloudSearchError>)
    ensures
        match (q, r) {
            (None, Ok(request)) => request@ == no_request(),
            (Some(text), Ok(request)) => {
                &&& query_of(text@) matches Ok(query)
                &&& request@ == (RequestView { query: Some(query), ..no_request() })
            },
            (Some(text), Err(e)) => query_of(text@) is Err && e@ == ErrorView::InvalidSearchRequest(
                "invalid search request: "@ + query_of(text@)->Err_0,
            ),
            (None, Err(_)) => false,
        },
{
    let mut request = SearchRequest::default();
    if let Some(text) = q {
        match parse_query_string(text) {
            Ok(query) => {
                request.query = Some(query);
            },
            Err(e) => {
                return Err(CloudSearchError::InvalidSearchRequest(e.message()));
            },
        }
    }
    Ok(request)
}

/// An object with those two members, in the order of their names.
pub open spec fn explicit_form(
    field: Seq<char>,
    name: Seq<char>,
    value: JsonView,
) -> JsonView {
    JsonView::Object(seq![("field"@, JsonView::Text(field)), (name, value)])
}

/// An object with that one member.
pub open spec fn short_form(field: Seq<char>, value: JsonView) -> JsonView {
    JsonView::Object(seq![(field, value)])
}

proof fn lemma_forms(field: Seq<char>, name: Seq<char>, value: JsonView, other: Seq<char>)
    requires
        name != "field"@,
    ensures
        explicit_form(field, name, value).member("field"@) == Some(JsonView::Text(field)),
        explicit_form(field, name, value).member(name) == Some(value),
        other != name && other != "field"@ ==> explicit_form(field, name, value).member(other)
            is None,
        other != field ==> short_form(field, value).member(other) is None,
{
    let members = seq![("field"@, JsonView::Text(field)), (name, value)];
    assert(members.drop_first() =~= seq![(name, value)]);
    assert(members.drop_first().drop_first() =~= Seq::empty());
    assert(seq![(field, value)].drop_first() =~= Seq::empty());
    reveal_with_fuel(crate::json::find_member, 3);
}

/// A query on a text of a field means the same in its short form and in its explicit form, unless
/// the name of the field is that of a member of the explicit form.
pub proof fn text_query_forms_agree(
    kind: Seq<char>,
    subject: Seq<char>,
    field: Seq<char>,
    text: Seq<char>,
)
    requires
        field != "field"@,
        field != "value"@,
    ensures
        parsed_text(kind, subject, short_form(field, JsonView::Text(text))) == Ok::<_, Refusal>(
            (field, text),
        ),
        parsed_text(kind, subject, explicit_form(field, "value"@, JsonView::Text(text))) == Ok::<
            _,
            Refusal,
        >((field, text)),
{
    reveal_strlit("field");
    reveal_strlit("value");
    assert("field"@[0] != "value"@[0]);
    lemma_forms(field, "value"@, JsonView::Text(text), "field"@);
    lemma_forms(field, "value"@, JsonView::Text(text), "value"@);
}

/// A term query means the same in its short form and in its explicit form, unless the name of the
/// field is that of a member of the explicit form.
pub proof fn term_query_forms_agree(field: Seq<char>, value: JsonView)
    requires
        field != "field"@,
        field != "value"@,
        field != "fuzziness"@,
    ensures
        parsed_term(short_form(field, value)) == Ok::<_, Refusal>(
            QueryView::Term { field, value, fuzziness: None },
        ),
        parsed_term(explicit_form(field, "value"@, value)) == Ok::<_, Refusal>(
            QueryView::Term { field, value, fuzziness: None },
        ),
{
    reveal_strlit("field");
    reveal_strlit("value");
    reveal_strlit("fuzziness");
    assert("field"@[0] != "value"@[0]);
    assert("fuzziness"@.len() != "value"@.len());
    assert("fuzziness"@.len() != "field"@.len());
    lemma_forms(field, "value"@, value, "field"@);
    lemma_forms(field, "value"@, value, "value"@);
    lemma_forms(field, "value"@, value, "fuzziness"@);
}

/// A query for one of several values means the same in its short form and in its explicit form,
/// unless the name of the field is that of a member of the explicit form.
pub proof fn terms_query_forms_agree(field: Seq<char>, values: Seq<JsonView>)
    requires
        field != "field"@,
        field != "values"@,
    ensures
        parsed_terms(short_form(field, JsonView::Array(values))) == Ok::<_, Refusal>(
            QueryView::Terms { field, values },
        ),
        parsed_terms(explicit_form(field, "values"@, JsonView::Array(values))) == Ok::<_, Refusal>(
            QueryView::Terms { field, values },
        ),
{
    reveal_strlit("field");
    reveal_strlit("values");
    assert("field"@.len() != "values"@.len());
    lemma_forms(field, "values"@, JsonView::Array(values), "field"@);
    lemma_forms(field, "values"@, JsonView::Array(values), "values"@);
}

} // verus!
