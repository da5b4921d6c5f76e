use cloudsearch::json::{parse_json, Json};
use cloudsearch::requests::{
    parse_aggregation, parse_bool_query, parse_match_query, parse_phrase_query, parse_prefix_query,
    parse_query, parse_range_query, parse_search_request, parse_sort, parse_term_query,
    parse_terms_query, parse_url_request, parse_usize_field, parse_wildcard_query,
};
use cloudsearch::types::{
    AggregationRequest, CloudSearchError, DateHistogramInterval, Fuzziness, SearchQuery, SortOrder,
};

fn json(text: &str) -> Json {
    parse_json(text).expect("valid JSON")
}

#[test]
fn parse_term_query_with_fuzziness_auto() {
    let json = json(r#"{"field": "name", "value": "admin", "fuzziness": "auto"}"#);
    let result = parse_term_query(&json).expect("should parse");
    assert_eq!(result.fuzziness, Some(Fuzziness::Auto));
}

#[test]
fn parse_term_query_with_fuzziness_auto_uppercase() {
    let json = json(r#"{"field": "name", "value": "admin", "fuzziness": "AUTO"}"#);
    let result = parse_term_query(&json).expect("should parse");
    assert_eq!(result.fuzziness, Some(Fuzziness::Auto));
}

#[test]
fn parse_term_query_with_fuzziness_exact_integer() {
    let json = json(r#"{"field": "name", "value": "admin", "fuzziness": 2}"#);
    let result = parse_term_query(&json).expect("should parse");
    assert_eq!(result.fuzziness, Some(Fuzziness::Exact(2)));
}

#[test]
fn parse_term_query_with_fuzziness_zero() {
    let json = json(r#"{"field": "name", "value": "admin", "fuzziness": 0}"#);
    let result = parse_term_query(&json).expect("should parse");
    assert_eq!(result.fuzziness, Some(Fuzziness::Exact(0)));
}

#[test]
fn parse_term_query_with_fuzziness_missing() {
    let json = json(r#"{"field": "name", "value": "admin"}"#);
    let result = parse_term_query(&json).expect("should parse");
    assert_eq!(result.fuzziness, None);
}

#[test]
fn parse_term_query_with_fuzziness_wrong_type_rejected() {
    let json = json(r#"{"field": "name", "value": "admin", "fuzziness": true}"#);
    let result = parse_term_query(&json);
    assert!(result.is_err(), "fuzziness: true should be rejected");
}

#[test]
fn parse_term_query_with_fuzziness_unknown_string_rejected() {
    let json = json(r#"{"field": "name", "value": "admin", "fuzziness": "unknown"}"#);
    let result = parse_term_query(&json);
    assert!(result.is_err(), "fuzziness: unknown should be rejected");
}

fn refusal<T: std::fmt::Debug>(result: Result<T, CloudSearchError>) -> String {
    match result {
        Err(CloudSearchError::InvalidSearchRequest(reason)) => reason,
        other => panic!("expected a refusal, got {other:?}"),
    }
}

#[test]
fn a_term_query_has_two_forms() {
    let short = parse_term_query(&json(r#"{"status": "active"}"#)).unwrap();
    let explicit =
        parse_term_query(&json(r#"{"field": "status", "value": "active"}"#)).unwrap();
    for query in [short, explicit] {
        assert_eq!(query.field, "status");
        assert!(matches!(query.value, Json::Text(s) if s == "active"));
    }
    assert_eq!(
        refusal(parse_term_query(&json(r#"{"a": 1, "b": 2}"#))),
        "term query must contain exactly one field"
    );
    assert_eq!(
        refusal(parse_term_query(&json(r#"{"field": 1, "value": 2}"#))),
        "internal term query shape requires string 'field'"
    );
    assert_eq!(
        refusal(parse_term_query(&json(r#"{"field": "a"}"#))),
        "internal term query shape requires 'value'"
    );
    assert_eq!(
        refusal(parse_term_query(&json("[]"))),
        "term query must be a JSON object"
    );
    assert_eq!(
        refusal(parse_term_query(&json(r#"{"a": 1, "fuzziness": -1}"#))),
        "fuzziness must be 'auto' or a non-negative integer"
    );
}

#[test]
fn a_terms_query_has_two_forms() {
    let short = parse_terms_query(&json(r#"{"status": ["a", "b"]}"#)).unwrap();
    let explicit =
        parse_terms_query(&json(r#"{"field": "status", "values": ["a", "b"]}"#)).unwrap();
    for query in [short, explicit] {
        assert_eq!(query.field, "status");
        assert_eq!(query.values.len(), 2);
    }
    assert_eq!(
        refusal(parse_terms_query(&json(r#"{"status": "a"}"#))),
        "terms query field must map to an array"
    );
    assert_eq!(
        refusal(parse_terms_query(&json(r#"{"field": "status"}"#))),
        "internal terms query shape requires array 'values'"
    );
}

#[test]
fn a_range_query_has_two_forms() {
    let short = parse_range_query(&json(r#"{"price": {"gte": 1, "lt": null}}"#)).unwrap();
    let explicit = parse_range_query(&json(r#"{"field": "price", "gte": 1}"#)).unwrap();
    for query in [short, explicit] {
        assert_eq!(query.field, "price");
        assert!(query.gte.is_some());
        assert!(query.gt.is_none() && query.lte.is_none() && query.lt.is_none());
    }
    assert_eq!(
        refusal(parse_range_query(&json(r#"{"price": 3}"#))),
        "range bounds must be a JSON object"
    );
}

#[test]
fn queries_on_texts_have_two_forms() {
    let value = json(r#"{"name": "al"}"#);
    let explicit = json(r#"{"field": "name", "value": "al"}"#);
    for value in [value, explicit] {
        let prefix = parse_prefix_query(&value).unwrap();
        assert_eq!((prefix.field.as_str(), prefix.value.as_str()), ("name", "al"));
        let wildcard = parse_wildcard_query(&value).unwrap();
        assert_eq!((wildcard.field.as_str(), wildcard.value.as_str()), ("name", "al"));
        let matching = parse_match_query(&value).unwrap();
        assert_eq!((matching.field.as_str(), matching.value.as_str()), ("name", "al"));
        let phrase = parse_phrase_query(&value).unwrap();
        assert_eq!((phrase.field.as_str(), phrase.value.as_str()), ("name", "al"));
    }
}

#[test]
fn malformed_queries_on_texts_are_refused() {
    assert_eq!(
        refusal(parse_prefix_query(&json("3"))),
        "prefix query must be a JSON object"
    );
    assert_eq!(
        refusal(parse_prefix_query(&json(r#"{"name": 3}"#))),
        "prefix value must be a string"
    );
    assert_eq!(
        refusal(parse_wildcard_query(&json(r#"{"field": "name"}"#))),
        "wildcard query explicit form requires both 'field' and 'value'"
    );
    assert_eq!(
        refusal(parse_match_query(&json(
            r#"{"boost": 1, "field": "name", "value": "al"}"#
        ))),
        "match query explicit form must contain only 'field' and 'value'"
    );
    assert_eq!(
        refusal(parse_match_query(&json(r#"{"name": 3}"#))),
        "match query value must be a string"
    );
    assert_eq!(
        refusal(parse_phrase_query(&json(r#"{"field": 1, "value": "al"}"#))),
        "phrase query requires string 'field'"
    );
    assert_eq!(
        refusal(parse_phrase_query(&json("{}"))),
        "phrase query must contain exactly one field"
    );
}

#[test]
fn a_combination_lists_its_clauses() {
    let query = parse_bool_query(&json(
        r#"{
            "must": [{"term": {"a": 1}}, null],
            "should": [{"match_all": {}}, {"bool": {"must_not": [{"prefix": {"b": "c"}}]}}],
            "filter": null,
            "minimum_should_match": 2
        }"#,
    ))
    .unwrap();
    assert_eq!(query.must.len(), 1);
    assert_eq!(query.should.len(), 2);
    assert!(query.filter.is_empty());
    assert!(query.must_not.is_empty());
    assert_eq!(query.minimum_should_match, Some(2));
    match &query.should[1] {
        SearchQuery::Bool(inner) => assert_eq!(inner.must_not.len(), 1),
        other => panic!("expected Bool, got {other:?}"),
    }
}

#[test]
fn malformed_combinations_are_refused() {
    assert_eq!(
        refusal(parse_bool_query(&json(r#"{"must": [], "boost": 2}"#))),
        "unsupported bool clause 'boost'"
    );
    assert_eq!(
        refusal(parse_bool_query(&json(r#"{"should": {}}"#))),
        "bool.should must be an array"
    );
    assert_eq!(
        refusal(parse_bool_query(&json(r#"{"minimum_should_match": 4294967296}"#))),
        "minimum_should_match must be a non-negative integer"
    );
    assert_eq!(
        refusal(parse_query(&json(r#"{"fuzzy": {}}"#))),
        "unsupported query clause 'fuzzy'"
    );
    assert_eq!(
        refusal(parse_query(&json(r#"{"term": {"a": 1}, "range": {}}"#))),
        "query object must contain exactly one clause"
    );
    assert_eq!(
        refusal(parse_query(&json(r#""all""#))),
        "query must be a JSON object"
    );
}

#[test]
fn sorts_come_in_three_forms() {
    for (text, order) in [
        (r#"{"field": "price", "order": "desc"}"#, SortOrder::Desc),
        (r#"{"price": {"order": "desc"}}"#, SortOrder::Desc),
        (r#"[{"price": {"order": "asc"}}]"#, SortOrder::Asc),
        (r#"[{"price": {}}]"#, SortOrder::Asc),
        (r#"["price", "desc"]"#, SortOrder::Desc),
    ] {
        let sort = parse_sort(&json(text)).expect("sort");
        assert_eq!(sort.field, "price");
        assert_eq!(sort.order, order);
    }
    assert_eq!(
        refusal(parse_sort(&json(r#"[{"a": {}}, {"b": {}}]"#))),
        "only one sort entry is supported"
    );
    assert_eq!(
        refusal(parse_sort(&json(r#""price""#))),
        "sort must be an object or single-entry array"
    );
    assert_eq!(
        refusal(parse_sort(&json(r#"{"a": {}, "b": {}}"#))),
        "sort object must contain exactly one field"
    );
    assert!(matches!(
        parse_sort(&json(r#"{"price": {"order": "up"}}"#)),
        Err(CloudSearchError::Serde(_))
    ));
}

#[test]
fn aggregations_are_told_apart_by_their_kind() {
    assert!(matches!(
        parse_aggregation(&json(r#"{"terms": {"field": "status"}}"#)),
        Some(AggregationRequest::Terms(a)) if a.field == "status"
    ));
    assert!(matches!(
        parse_aggregation(&json(r#"{"stats": {"field": "price"}}"#)),
        Some(AggregationRequest::Stats(a)) if a.field == "price"
    ));
    match parse_aggregation(&json(
        r#"{"date_histogram": {"field": "at", "interval": "hour"}}"#,
    )) {
        Some(AggregationRequest::DateHistogram(a)) => {
            assert_eq!(a.field, "at");
            assert_eq!(a.interval, DateHistogramInterval::Hour);
        }
        other => panic!("expected a histogram, got {other:?}"),
    }
    assert!(parse_aggregation(&json(r#"{"terms": {}}"#)).is_none());
    assert!(parse_aggregation(&json(r#"{"top_hits": {}}"#)).is_none());
    assert!(parse_aggregation(&json(
        r#"{"date_histogram": {"field": "at", "interval": "week"}}"#
    ))
    .is_none());
}

#[test]
fn a_request_reads_all_its_parts() {
    let request = parse_search_request(&json(
        r#"{
            "query": {"term": {"status": "open"}},
            "from": 5,
            "size": 10,
            "sort": [{"price": {"order": "desc"}}],
            "aggregations": {"by_status": {"terms": {"field": "status"}}}
        }"#,
    ))
    .unwrap();
    assert!(matches!(request.query, Some(SearchQuery::Term(_))));
    assert_eq!(request.from, Some(5));
    assert_eq!(request.size, Some(10));
    assert_eq!(request.sort.unwrap().order, SortOrder::Desc);
    assert!(request.aggs.unwrap().contains_key("by_status"));
    assert!(request.search_after.is_none());
}

#[test]
fn missing_and_null_parts_are_left_out() {
    for text in [
        "{}",
        r#"{"query": null, "from": null, "size": null, "sort": null, "aggs": null}"#,
        r#"{"aggs": null, "aggregations": {"a": {"terms": {"field": "f"}}}}"#,
    ] {
        let request = parse_search_request(&json(text)).unwrap();
        assert!(request.query.is_none());
        assert!(request.from.is_none());
        assert!(request.size.is_none());
        assert!(request.sort.is_none());
        assert!(request.aggs.is_none());
    }
}

#[test]
fn malformed_requests_are_refused() {
    assert_eq!(
        refusal(parse_search_request(&json("[]"))),
        "search request must be a JSON object"
    );
    assert_eq!(
        refusal(parse_search_request(&json(r#"{"from": -1}"#))),
        "from must be a non-negative integer"
    );
    assert_eq!(
        refusal(parse_search_request(&json(r#"{"size": "many"}"#))),
        "size must be a non-negative integer"
    );
    assert!(matches!(
        parse_search_request(&json(r#"{"aggs": {"a": {"sum": {"field": "f"}}}}"#)),
        Err(CloudSearchError::Serde(_))
    ));
    assert!(matches!(
        parse_search_request(&json(r#"{"aggs": 3}"#)),
        Err(CloudSearchError::Serde(_))
    ));
    assert_eq!(parse_usize_field(&json("7"), "size").unwrap(), 7);
}

#[test]
fn a_url_carries_a_query_string() {
    let plain = parse_url_request(None).unwrap();
    assert!(plain.query.is_none() && plain.size.is_none() && plain.sort.is_none());
    let asked = parse_url_request(Some("level:error")).unwrap();
    assert!(matches!(asked.query, Some(SearchQuery::Term(term)) if term.field == "level"));
    assert!(refusal(parse_url_request(Some("(level:error"))).starts_with("invalid search request: "));
}
