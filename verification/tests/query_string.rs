use cloudsearch::json::{Json, JsonNumber};
use cloudsearch::query_string::{
    make_bool_must, make_bool_must_not_and, make_bool_should, parse_query_string,
    plain_term,
};
use cloudsearch::types::{BoolQuery, CloudSearchError, RangeQuery, SearchQuery};

fn expect_term(query: SearchQuery, field: &str) -> Json {
    match query {
        SearchQuery::Term(term) => {
            assert_eq!(term.field, field);
            assert!(term.fuzziness.is_none());
            term.value
        }
        other => panic!("expected Term, got {other:?}"),
    }
}

fn expect_bool(query: SearchQuery) -> BoolQuery {
    match query {
        SearchQuery::Bool(b) => b,
        other => panic!("expected Bool, got {other:?}"),
    }
}

fn expect_range(query: SearchQuery) -> RangeQuery {
    match query {
        SearchQuery::Range(r) => r,
        other => panic!("expected Range, got {other:?}"),
    }
}

fn is_number(value: &Option<Json>, n: u64) -> bool {
    matches!(value, Some(Json::Number(JsonNumber::PosInt(m))) if *m == n)
}

fn is_text(value: &Json, text: &str) -> bool {
    matches!(value, Json::Text(s) if s == text)
}

#[test]
fn test_simple_term() {
    let result = parse_query_string("status:active").unwrap();
    assert!(is_text(&expect_term(result, "status"), "active"));
}

#[test]
fn test_term_with_numeric_value() {
    let result = parse_query_string("count:42").unwrap();
    assert!(is_number(&Some(expect_term(result, "count")), 42));
}

#[test]
fn test_implicit_and() {
    let result = parse_query_string("status:active type:post").unwrap();
    let bool_q = expect_bool(result);
    assert_eq!(bool_q.must.len(), 2);
}

#[test]
fn test_explicit_and() {
    let result = parse_query_string("status:active AND type:post").unwrap();
    let bool_q = expect_bool(result);
    assert_eq!(bool_q.must.len(), 2);
}

#[test]
fn test_or() {
    let result = parse_query_string("tag:foo OR tag:bar").unwrap();
    let bool_q = expect_bool(result);
    assert_eq!(bool_q.should.len(), 2);
}

#[test]
fn test_not() {
    let result = parse_query_string("status:active NOT deleted:true").unwrap();
    let bool_q = expect_bool(result);
    assert_eq!(bool_q.must.len(), 1);
    assert_eq!(bool_q.must_not.len(), 1);
}

#[test]
fn test_parens_grouping() {
    let result = parse_query_string("(tag:foo OR tag:bar) AND status:active").unwrap();
    let bool_q = expect_bool(result);
    assert_eq!(bool_q.must.len(), 2);
}

#[test]
fn test_quoted_string() {
    let result = parse_query_string("message:\"hello world\"").unwrap();
    assert!(is_text(&expect_term(result, "message"), "hello world"));
}

#[test]
fn test_wildcard() {
    let result = parse_query_string("service:auth-*").unwrap();
    match result {
        SearchQuery::Wildcard(q) => {
            assert_eq!(q.field, "service");
            assert_eq!(q.value, "auth-*");
        }
        other => panic!("expected Wildcard, got {other:?}"),
    }
}

#[test]
fn test_prefix() {
    let result = parse_query_string("service:auth*").unwrap();
    match result {
        SearchQuery::Wildcard(q) => {
            assert_eq!(q.field, "service");
            assert_eq!(q.value, "auth*");
        }
        other => panic!("expected Wildcard, got {other:?}"),
    }
}

#[test]
fn test_range_gt() {
    let range = expect_range(parse_query_string("price:>10").unwrap());
    assert_eq!(range.field, "price");
    assert!(range.gte.is_none());
    assert!(is_number(&range.gt, 10));
    assert!(range.lte.is_none());
    assert!(range.lt.is_none());
}

#[test]
fn test_range_gte() {
    let range = expect_range(parse_query_string("price:>=10").unwrap());
    assert_eq!(range.field, "price");
    assert!(is_number(&range.gte, 10));
    assert!(range.gt.is_none());
    assert!(range.lte.is_none());
    assert!(range.lt.is_none());
}

#[test]
fn test_range_lt() {
    let range = expect_range(parse_query_string("price:<100").unwrap());
    assert_eq!(range.field, "price");
    assert!(range.gte.is_none());
    assert!(range.gt.is_none());
    assert!(range.lte.is_none());
    assert!(is_number(&range.lt, 100));
}

#[test]
fn test_range_lte() {
    let range = expect_range(parse_query_string("price:<=100").unwrap());
    assert_eq!(range.field, "price");
    assert!(range.gte.is_none());
    assert!(range.gt.is_none());
    assert!(is_number(&range.lte, 100));
    assert!(range.lt.is_none());
}

#[test]
fn test_range_between() {
    let range = expect_range(parse_query_string("price:10..100").unwrap());
    assert_eq!(range.field, "price");
    assert!(is_number(&range.gte, 10));
    assert!(range.gt.is_none());
    assert!(is_number(&range.lte, 100));
    assert!(range.lt.is_none());
}

#[test]
fn test_complex_expression() {
    let result =
        parse_query_string("status:active AND (tag:featured OR tag:promoted) NOT deleted:true")
            .unwrap();
    let bool_q = expect_bool(result);
    assert_eq!(bool_q.must.len(), 2); // status:active + the OR group
    assert_eq!(bool_q.must_not.len(), 1);
}

fn refusal(input: &str) -> String {
    match parse_query_string(input) {
        Err(CloudSearchError::InvalidSearchRequest(reason)) => reason,
        other => panic!("expected a refusal, got {other:?}"),
    }
}

#[test]
fn malformed_query_strings_are_refused() {
    assert_eq!(refusal(""), "unexpected end of query");
    assert_eq!(refusal("status:"), "missing value for field 'status'");
    assert_eq!(refusal("message:\"open"), "unclosed quoted string");
    assert_eq!(refusal("(tag:foo"), "expected closing parenthesis");
    assert_eq!(refusal("price:>cheap"), "invalid number 'cheap'");
    assert_eq!(
        refusal("tag:foo )"),
        "unexpected characters at end of query: ')'"
    );
}

#[test]
fn a_word_by_itself_is_a_tag() {
    let result = parse_query_string("  urgent ").unwrap();
    assert!(is_text(&expect_term(result, "tag"), "urgent"));
}

#[test]
fn numbers_in_ranges_may_be_doubles() {
    let range = expect_range(parse_query_string("price:>=2.5").unwrap());
    match range.gte {
        Some(Json::Number(JsonNumber::Float(f))) => assert_eq!(f64::from_bits(f.bits), 2.5),
        other => panic!("expected a double, got {other:?}"),
    }
    let range = expect_range(parse_query_string("price:<-3").unwrap());
    assert!(matches!(
        range.lt,
        Some(Json::Number(JsonNumber::NegInt(-3)))
    ));
}

#[test]
fn values_are_read_as_json_where_they_are() {
    assert!(matches!(
        expect_term(parse_query_string("deleted:true").unwrap(), "deleted"),
        Json::Bool(true)
    ));
    assert!(matches!(
        expect_term(parse_query_string("owner:null").unwrap(), "owner"),
        Json::Null
    ));
    assert!(is_text(
        &expect_term(parse_query_string("v:1.2.3").unwrap(), "v"),
        "1.2.3"
    ));
}

#[test]
fn operators_inside_words_are_no_operators() {
    let result = parse_query_string("ORDER").unwrap();
    assert!(is_text(&expect_term(result, "tag"), "ORDER"));
    let bool_q = expect_bool(parse_query_string("tag:a NOTES").unwrap());
    assert_eq!(bool_q.must.len(), 2);
    assert!(bool_q.must_not.is_empty());
}

#[test]
fn a_value_goes_on_over_operators_inside_it() {
    assert!(is_text(
        &expect_term(parse_query_string("level:ERROR").unwrap(), "level"),
        "ERROR"
    ));
    assert!(is_text(
        &expect_term(parse_query_string("(name:NOTEBOOK)").unwrap(), "name"),
        "NOTEBOOK"
    ));
    let bool_q = expect_bool(parse_query_string("city:OAKLAND AND state:OREGON").unwrap());
    assert_eq!(bool_q.must.len(), 2);
}

#[test]
fn a_conjunction_is_one_alternative() {
    let bool_q = expect_bool(parse_query_string("a:1 AND b:2 OR c:3 OR d:4").unwrap());
    assert!(bool_q.must.is_empty());
    assert_eq!(bool_q.should.len(), 3);
    let mut alternatives = bool_q.should.into_iter();
    assert_eq!(expect_bool(alternatives.next().unwrap()).must.len(), 2);
    assert!(is_number(&Some(expect_term(alternatives.next().unwrap(), "c")), 3));
    assert!(is_number(&Some(expect_term(alternatives.next().unwrap(), "d")), 4));
}

#[test]
fn each_exclusion_counts() {
    let bool_q = expect_bool(parse_query_string("a:1 NOT b:2 NOT c:3").unwrap());
    assert_eq!(bool_q.must.len(), 1);
    assert_eq!(bool_q.must_not.len(), 2);
}

#[test]
fn combining_keeps_how_many_have_to_hold() {
    let two_of_three = || {
        SearchQuery::Bool(BoolQuery {
            must: Vec::new(),
            should: vec![
                parse_query_string("a:1").unwrap(),
                parse_query_string("b:2").unwrap(),
                parse_query_string("c:3").unwrap(),
            ],
            filter: Vec::new(),
            must_not: Vec::new(),
            minimum_should_match: Some(2),
        })
    };
    let other = || parse_query_string("d:4").unwrap();
    let both = expect_bool(make_bool_must(two_of_three(), other()));
    let kept = expect_bool(both.must.into_iter().next().unwrap());
    assert_eq!(kept.minimum_should_match, Some(2));
    let without = expect_bool(make_bool_must_not_and(two_of_three(), other()));
    assert_eq!(without.minimum_should_match, Some(2));
    let either = expect_bool(make_bool_should(two_of_three(), other()));
    assert_eq!(either.should.len(), 2);
}

#[test]
fn a_blank_reads_as_and_and_parentheses_change_nothing() {
    let shape = |text: &str| format!("{:?}", parse_query_string(text).unwrap());
    assert_eq!(shape("a:1 b:2"), shape("a:1 AND b:2"));
    assert_eq!(shape("a:1 OR b:2 c:3 NOT d:4"), shape("a:1 OR b:2 AND c:3 NOT d:4"));
    assert_eq!(shape("(a:1 OR b:2)"), shape("a:1 OR b:2"));
    assert_eq!(shape("((a:1) )"), shape("a:1"));
}

#[test]
fn an_operator_is_no_value() {
    for input in ["a:OR", "a: AND b:1", "a:NOT", "a:AND", "(a:OR)", "a:OR b:1"] {
        assert_eq!(refusal(input), "missing value for field 'a'", "{input}");
    }
    assert!(is_text(
        &expect_term(parse_query_string("a:\"OR\"").unwrap(), "a"),
        "OR"
    ));
    assert!(is_text(
        &expect_term(parse_query_string("a:ORB").unwrap(), "a"),
        "ORB"
    ));
}

#[test]
fn a_parenthesis_wants_closing() {
    for input in ["(a:1", "(a:1 OR b:2", "((a:1)", "(urgent "] {
        assert_eq!(refusal(input), "expected closing parenthesis", "{input}");
    }
}

#[test]
fn plain_values_are_json_or_text() {
    assert!(is_number(
        &Some(expect_term(
            plain_term("n", "7", Some(Json::Number(JsonNumber::PosInt(7)))),
            "n"
        )),
        7
    ));
    assert!(is_text(&expect_term(plain_term("n", "7a", None), "n"), "7a"));
}
