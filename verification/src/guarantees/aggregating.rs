//! What aggregations say of the documents that they are taken over.
use vstd::prelude::*;

use crate::aggregations::answers;
use crate::aggregations::by_frequency;
use crate::aggregations::count_of;
use crate::aggregations::first_of;
use crate::aggregations::greatest_at;
use crate::aggregations::least_at;
use crate::aggregations::numbers_of;
use crate::aggregations::scalar_entries;
use crate::aggregations::text_intervals;
use crate::aggregations::AggregationResult;
use crate::aggregations::DateHistogramAggregationResult;
use crate::aggregations::StatsAggregationResult;
use crate::aggregations::TermsAggregationResult;
use crate::doubles::integers_have_finite_doubles;
use crate::guarantees::counting::lemma_kept_counts;
use crate::guarantees::counting::lemma_none;
use crate::guarantees::counting::lemma_one_is_kept;
use crate::guarantees::counting::lemma_one_more;
use crate::guarantees::counting::lemma_same_are_kept;
use crate::guarantees::matching::exact_integer;
use crate::guarantees::matching::exact_integers_compare_as_doubles;
use crate::guarantees::texts::stands_before;
use crate::guarantees::texts::texts_are_ordered_as_in_a_dictionary;
use crate::json::quoted;
use crate::json::quoted_texts_stay_apart;
use crate::json::scalar_text;
use crate::json::JsonView;
use crate::json::NumberView;
use crate::text::decimal;
use crate::text::text_lt_asymmetric;
use crate::time::rfc3339_instant;
use crate::time::rfc3339_text_of;
use crate::types::AggregationRequest;
use crate::types::DateHistogramAggregationRequest;
use crate::types::DateHistogramInterval;
use crate::types::StatsAggregationRequest;
use crate::types::TermsAggregationRequest;

verus! {

/// The second of the point in time that the document's text in the field names, if it names one.
pub open spec fn second_of(document: JsonView, field: Seq<char>) -> Option<int> {
    match document.member(field) {
        Some(JsonView::Text(text)) => match rfc3339_instant(text) {
            Some((secs, _)) => Some(secs as int),
            None => None,
        },
        _ => None,
    }
}

/// How many seconds a minute, an hour and a day have.
pub open spec fn seconds_in(interval: DateHistogramInterval) -> int {
    match interval {
        DateHistogramInterval::Minute => 60,
        DateHistogramInterval::Hour => 3_600,
        DateHistogramInterval::Day => 86_400,
    }
}

/// Whether the document's date falls into an interval of that width whose first second has that
/// text.
pub open spec fn falls_into(field: Seq<char>, width: int, key: Seq<char>) -> spec_fn(
    JsonView,
) -> bool {
    |document: JsonView|
        second_of(document, field) matches Some(second) && rfc3339_text_of(
            (second / width * width) as i64,
        ) == key
}

/// Whether the document's date falls into the seconds from `start` on, before `end`.
pub open spec fn falls_between(field: Seq<char>, start: int, end: int) -> spec_fn(
    JsonView,
) -> bool {
    |document: JsonView| second_of(document, field) matches Some(second) && start <= second < end
}

proof fn lemma_start(second: int, width: int)
    requires
        width > 0,
    ensures
        second - second % width == second / width * width,
        second / width * width <= second < second / width * width + width,
        (second / width * width) % width == 0,
        (second / width * width) / width == second / width,
{
    vstd::arithmetic::div_mod::lemma_fundamental_div_mod(second, width);
    vstd::arithmetic::mul::lemma_mul_is_commutative(second / width, width);
    vstd::arithmetic::div_mod::lemma_mod_multiples_basic(second / width, width);
    vstd::arithmetic::div_mod::lemma_div_multiples_vanish(second / width, width);
}

proof fn lemma_intervals_count(
    documents: Seq<JsonView>,
    field: Seq<char>,
    interval: DateHistogramInterval,
    key: Seq<char>,
)
    ensures
        count_of(text_intervals(documents, field, interval), key) == documents.filter(
            falls_into(field, seconds_in(interval), key),
        ).len(),
    decreases documents.len(),
{
    let keep = falls_into(field, seconds_in(interval), key);
    if documents.len() == 0 {
        lemma_none(documents, keep);
    } else {
        let before = text_intervals(documents.drop_last(), field, interval);
        let all = text_intervals(documents, field, interval);
        lemma_intervals_count(documents.drop_last(), field, interval, key);
        lemma_one_more(documents, keep);
        if let Some(second) = second_of(documents.last(), field) {
            lemma_start(second, seconds_in(interval));
            assert(all.drop_last() =~= before);
        }
    }
}

/// A date histogram has a bucket for each minute, hour or day, as is asked for, in which the date
/// of a document falls, and no other. Its key is the text of the first second of that time, and
/// it counts the documents whose date falls into it. No two buckets have the same key, and they
/// stand in the order of their keys.
pub proof fn histograms_count_dates_by_the_interval(
    result: DateHistogramAggregationResult,
    request: DateHistogramAggregationRequest,
    documents: Seq<JsonView>,
)
    requires
        answers(
            AggregationResult::DateHistogram(result),
            AggregationRequest::DateHistogram(request),
            documents,
        ),
    ensures
        ({
            let buckets = result.buckets@;
            let field = request.field@;
            let width = seconds_in(request.interval);
            &&& forall|i: int|
                0 <= i < buckets.len() ==> (#[trigger] buckets[i]).doc_count == documents.filter(
                    falls_into(field, width, buckets[i].key@),
                ).len()
            &&& forall|i: int|
                0 <= i < buckets.len() ==> exists|k: int, start: int|
                    0 <= k < documents.len() && start % width == 0 && (second_of(
                        #[trigger] documents[k],
                        field,
                    ) matches Some(second) && start <= second < start + width) && (
                    #[trigger] buckets[i]).key@ == #[trigger] rfc3339_text_of(start as i64)
            &&& forall|k: int|
                0 <= k < documents.len() ==> (second_of(#[trigger] documents[k], field) matches Some(
                    second,
                ) ==> exists|i: int|
                    0 <= i < buckets.len() && (#[trigger] buckets[i]).key@ == rfc3339_text_of(
                        (second / width * width) as i64,
                    ))
            &&& forall|i: int, j: int|
                0 <= i < j < buckets.len() ==> stands_before(
                    (#[trigger] buckets[i]).key@,
                    (#[trigger] buckets[j]).key@,
                ) && buckets[i].key@ != buckets[j].key@
        }),
{
    let buckets = result.buckets@;
    let field = request.field@;
    let width = seconds_in(request.interval);
    let entries = text_intervals(documents, field, request.interval);
    assert forall|i: int| 0 <= i < buckets.len() implies (#[trigger] buckets[i]).doc_count
        == documents.filter(falls_into(field, width, buckets[i].key@)).len() && exists|
        k: int,
        start: int,
    |
        0 <= k < documents.len() && start % width == 0 && (second_of(
            #[trigger] documents[k],
            field,
        ) matches Some(second) && start <= second < start + width) && buckets[i].key@
            == #[trigger] rfc3339_text_of(start as i64) by {
        let keep = falls_into(field, width, buckets[i].key@);
        lemma_intervals_count(documents, field, request.interval, buckets[i].key@);
        lemma_one_is_kept(documents, keep);
        let k = choose|k: int| 0 <= k < documents.len() && keep(#[trigger] documents[k]);
        let second = second_of(documents[k], field)->0;
        lemma_start(second, width);
        let start = second / width * width;
        assert(buckets[i].key@ == rfc3339_text_of(start as i64));
    }
    assert forall|k: int| 0 <= k < documents.len() implies (second_of(
        #[trigger] documents[k],
        field,
    ) matches Some(second) ==> exists|i: int|
        0 <= i < buckets.len() && (#[trigger] buckets[i]).key@ == rfc3339_text_of(
            (second / width * width) as i64,
        )) by {
        if let Some(second) = second_of(documents[k], field) {
            let key = rfc3339_text_of((second / width * width) as i64);
            lemma_intervals_count(documents, field, request.interval, key);
            lemma_kept_counts(documents, falls_into(field, width, key), k);
            assert(count_of(entries, key) > 0);
        }
    }
    assert forall|i: int, j: int| 0 <= i < j < buckets.len() implies stands_before(
        (#[trigger] buckets[i]).key@,
        (#[trigger] buckets[j]).key@,
    ) && buckets[i].key@ != buckets[j].key@ by {
        texts_are_ordered_as_in_a_dictionary(buckets[i].key@, buckets[j].key@);
        text_lt_asymmetric(buckets[i].key@, buckets[j].key@);
    }
}

/// Whether different seconds in the dates of the documents start intervals of different texts.
pub open spec fn starts_have_their_own_texts(
    documents: Seq<JsonView>,
    field: Seq<char>,
    width: int,
) -> bool {
    forall|j: int, k: int|
        0 <= j < documents.len() && 0 <= k < documents.len() ==> (second_of(
            #[trigger] documents[j],
            field,
        ) matches Some(a) ==> (second_of(#[trigger] documents[k], field) matches Some(b) ==> (a
            / width != b / width ==> rfc3339_text_of((a / width * width) as i64)
            != rfc3339_text_of((b / width * width) as i64))))
}

/// Two documents whose dates have the same quotient by the width are counted in the same bucket,
/// and where different seconds have different texts, no others are: a bucket then counts the
/// documents whose date falls between its first second and the first of the next.
pub proof fn histograms_count_what_falls_between(
    result: DateHistogramAggregationResult,
    request: DateHistogramAggregationRequest,
    documents: Seq<JsonView>,
)
    requires
        answers(
            AggregationResult::DateHistogram(result),
            AggregationRequest::DateHistogram(request),
            documents,
        ),
    ensures
        ({
            let buckets = result.buckets@;
            let field = request.field@;
            let width = seconds_in(request.interval);
            &&& forall|i: int, start: int|
                0 <= i < buckets.len() && start % width == 0 && (#[trigger] buckets[i]).key@
                    == #[trigger] rfc3339_text_of(start as i64) ==> buckets[i].doc_count
                    >= documents.filter(falls_between(field, start, start + width)).len()
            &&& starts_have_their_own_texts(documents, field, width) ==> forall|i: int|
                0 <= i < buckets.len() ==> exists|start: int|
                    start % width == 0 && (#[trigger] buckets[i]).key@
                        == #[trigger] rfc3339_text_of(start as i64) && buckets[i].doc_count
                        == documents.filter(falls_between(field, start, start + width)).len()
        }),
{
    let buckets = result.buckets@;
    let field = request.field@;
    let width = seconds_in(request.interval);
    assert forall|i: int, start: int|
        0 <= i < buckets.len() && start % width == 0 && (#[trigger] buckets[i]).key@
            == #[trigger] rfc3339_text_of(start as i64) implies buckets[i].doc_count
        >= documents.filter(falls_between(field, start, start + width)).len() by {
        lemma_intervals_count(documents, field, request.interval, buckets[i].key@);
        lemma_between_is_within(documents, field, start, width, buckets[i].key@);
    }
    if starts_have_their_own_texts(documents, field, width) {
        assert forall|i: int| 0 <= i < buckets.len() implies exists|start: int|
            start % width == 0 && (#[trigger] buckets[i]).key@ == #[trigger] rfc3339_text_of(
                start as i64,
            ) && buckets[i].doc_count == documents.filter(
                falls_between(field, start, start + width),
            ).len() by {
            let key = buckets[i].key@;
            let keep = falls_into(field, width, key);
            lemma_intervals_count(documents, field, request.interval, key);
            lemma_one_is_kept(documents, keep);
            let k = choose|k: int| 0 <= k < documents.len() && keep(#[trigger] documents[k]);
            let second = second_of(documents[k], field)->0;
            lemma_start(second, width);
            let start = second / width * width;
            let between = falls_between(field, start, start + width);
            assert forall|j: int| 0 <= j < documents.len() implies keep(#[trigger] documents[j])
                == between(documents[j]) by {
                assert(documents[k] == documents[k]);
                if let Some(a) = second_of(documents[j], field) {
                    lemma_start(a, width);
                    if start <= a < start + width {
                        lemma_same_start(a, start, width);
                    }
                    if a / width == second / width {
                        assert(a / width * width == start);
                    }
                }
            }
            lemma_same_are_kept(documents, keep, between);
            assert(key == rfc3339_text_of(start as i64));
        }
    }
}

proof fn lemma_same_start(second: int, start: int, width: int)
    requires
        width > 0,
        start % width == 0,
        start <= second < start + width,
    ensures
        second / width * width == start,
        second / width == start / width,
{
    vstd::arithmetic::div_mod::lemma_fundamental_div_mod(start, width);
    vstd::arithmetic::mul::lemma_mul_is_commutative(start / width, width);
    vstd::arithmetic::div_mod::lemma_fundamental_div_mod_converse(
        second,
        width,
        start / width,
        second - start,
    );
}

proof fn lemma_between_is_within(
    documents: Seq<JsonView>,
    field: Seq<char>,
    start: int,
    width: int,
    key: Seq<char>,
)
    requires
        width > 0,
        start % width == 0,
        key == rfc3339_text_of(start as i64),
    ensures
        documents.filter(falls_into(field, width, key)).len() >= documents.filter(
            falls_between(field, start, start + width),
        ).len(),
    decreases documents.len(),
{
    let keep = falls_into(field, width, key);
    let between = falls_between(field, start, start + width);
    if documents.len() == 0 {
        lemma_none(documents, keep);
        lemma_none(documents, between);
    } else {
        lemma_one_more(documents, keep);
        lemma_one_more(documents, between);
        lemma_between_is_within(documents.drop_last(), field, start, width, key);
        if let Some(second) = second_of(documents.last(), field) {
            if start <= second < start + width {
                lemma_same_start(second, start, width);
            }
        }
    }
}

/// Whether the document has a value in the field with that JSON text.
pub open spec fn has_value_written(field: Seq<char>, text: Seq<char>) -> spec_fn(JsonView) -> bool {
    |document: JsonView|
        document.member(field) matches Some(value) && scalar_text(value) == Some(text)
}

/// Whether the document has that value in the field.
pub open spec fn has_value(field: Seq<char>, value: JsonView) -> spec_fn(JsonView) -> bool {
    |document: JsonView| document.member(field) == Some(value)
}

/// Whether a value can be counted as it is: a text, a boolean or an integer. An integer that is
/// not negative is kept as such.
pub open spec fn is_plain(value: JsonView) -> bool {
    match value {
        JsonView::Text(_) => true,
        JsonView::Bool(_) => true,
        JsonView::Number(NumberView::PosInt(_)) => true,
        JsonView::Number(NumberView::NegInt(n)) => n < 0,
        _ => false,
    }
}

proof fn lemma_terms_count(documents: Seq<JsonView>, field: Seq<char>, text: Seq<char>)
    ensures
        count_of(scalar_entries(documents, field), text) == documents.filter(
            has_value_written(field, text),
        ).len(),
    decreases documents.len(),
{
    let keep = has_value_written(field, text);
    if documents.len() == 0 {
        lemma_none(documents, keep);
    } else {
        let before = scalar_entries(documents.drop_last(), field);
        let all = scalar_entries(documents, field);
        lemma_terms_count(documents.drop_last(), field, text);
        lemma_one_more(documents, keep);
        if let Some(value) = documents.last().member(field) {
            if scalar_text(value) is Some {
                assert(all.drop_last() =~= before);
            }
        }
    }
}

proof fn lemma_first_of(documents: Seq<JsonView>, field: Seq<char>, text: Seq<char>)
    requires
        count_of(scalar_entries(documents, field), text) > 0,
    ensures
        scalar_text(first_of(scalar_entries(documents, field), text)) == Some(text),
        exists|i: int|
            0 <= i < documents.len() && (#[trigger] documents[i]).member(field) == Some(
                first_of(scalar_entries(documents, field), text),
            ),
    decreases documents.len(),
{
    if documents.len() > 0 {
        let before = scalar_entries(documents.drop_last(), field);
        let all = scalar_entries(documents, field);
        let last = documents.last();
        if all != before {
            assert(all.drop_last() =~= before);
        }
        if count_of(before, text) > 0 {
            lemma_first_of(documents.drop_last(), field, text);
            let i = choose|i: int|
                0 <= i < documents.len() - 1 && (#[trigger] documents.drop_last()[i]).member(field)
                    == Some(first_of(before, text));
            assert(documents[i].member(field) == Some(first_of(before, text)));
        } else {
            assert(documents[documents.len() - 1] == last);
        }
    }
}

proof fn lemma_decimal_digits(n: nat)
    ensures
        decimal(n).len() > 0,
        forall|i: int| 0 <= i < decimal(n).len() ==> 48 <= #[trigger] decimal(n)[i] as int <= 57,
    decreases n,
{
    if n >= 10 {
        lemma_decimal_digits(n / 10);
        assert forall|i: int| 0 <= i < decimal(n).len() implies 48 <= #[trigger] decimal(
            n,
        )[i] as int <= 57 by {
            if i < decimal(n / 10).len() {
                assert(decimal(n)[i] == decimal(n / 10)[i]);
            }
        }
    }
}

proof fn lemma_decimals_stay_apart(m: nat, n: nat)
    requires
        decimal(m) == decimal(n),
    ensures
        m == n,
    decreases m,
{
    lemma_decimal_digits(m / 10);
    lemma_decimal_digits(n / 10);
    assert(decimal(m).last() as int == 48 + m % 10);
    assert(decimal(n).last() as int == 48 + n % 10);
    if m >= 10 && n >= 10 {
        assert(decimal(m).drop_last() =~= decimal(m / 10));
        assert(decimal(n).drop_last() =~= decimal(n / 10));
        lemma_decimals_stay_apart(m / 10, n / 10);
    } else if m >= 10 {
        assert(decimal(m).len() == decimal(m / 10).len() + 1);
        assert(decimal(n).len() == 1);
    } else if n >= 10 {
        assert(decimal(n).len() == decimal(n / 10).len() + 1);
        assert(decimal(m).len() == 1);
    }
}

/// Different values that are counted as they are have different JSON texts.
pub proof fn plain_values_have_their_own_texts(a: JsonView, b: JsonView)
    requires
        is_plain(a),
        is_plain(b),
        scalar_text(a) == scalar_text(b),
    ensures
        a == b,
{
    reveal_strlit("true");
    reveal_strlit("false");
    lemma_text_starts(a);
    lemma_text_starts(b);
    match (a, b) {
        (JsonView::Text(x), JsonView::Text(y)) => {
            quoted_texts_stay_apart(x, y);
        },
        (
            JsonView::Number(NumberView::PosInt(x)),
            JsonView::Number(NumberView::PosInt(y)),
        ) => {
            lemma_decimals_stay_apart(x as nat, y as nat);
        },
        (
            JsonView::Number(NumberView::NegInt(x)),
            JsonView::Number(NumberView::NegInt(y)),
        ) => {
            let s = scalar_text(a)->0;
            assert(s.drop_first() =~= decimal((-x) as nat));
            assert(s.drop_first() =~= decimal((-y) as nat));
            lemma_decimals_stay_apart((-x) as nat, (-y) as nat);
        },
        _ => {},
    }
}

proof fn lemma_text_starts(a: JsonView)
    requires
        is_plain(a),
    ensures
        scalar_text(a) matches Some(s) && s.len() > 0 && (s[0] as int == 0x22 <==> a is Text) && (
        s[0] as int == 0x2d <==> a matches JsonView::Number(NumberView::NegInt(_))) && (48
            <= s[0] as int <= 57 <==> a matches JsonView::Number(NumberView::PosInt(_))),
        scalar_text(a)->0[0] as int == 0x74 <==> a == JsonView::Bool(true),
        scalar_text(a)->0[0] as int == 0x66 <==> a == JsonView::Bool(false),
{
    reveal_strlit("true");
    reveal_strlit("false");
    match a {
        JsonView::Text(x) => {
            assert(quoted(x)[0] == '"');
        },
        JsonView::Number(NumberView::PosInt(n)) => {
            lemma_decimal_digits(n as nat);
            assert(48 <= decimal(n as nat)[0] as int <= 57);
        },
        _ => {},
    }
}

/// Terms are counted by document: a bucket has a value that a document has in the field, and
/// counts the documents that have it. Each value of a document gets a bucket, and no value two.
/// The value that more documents have comes first, and of those that as many have the one whose
/// JSON text stands first.
pub proof fn terms_count_the_documents_with_a_value(
    result: TermsAggregationResult,
    request: TermsAggregationRequest,
    documents: Seq<JsonView>,
)
    requires
        answers(
            AggregationResult::Terms(result),
            AggregationRequest::Terms(request),
            documents,
        ),
        forall|k: int|
            0 <= k < documents.len() ==> ((#[trigger] documents[k]).member(request.field@)
                matches Some(value) ==> is_plain(value) || value is Null || value is Array
                || value is Object),
    ensures
        ({
            let buckets = result.buckets@;
            let field = request.field@;
            &&& forall|i: int|
                0 <= i < buckets.len() ==> is_plain((#[trigger] buckets[i]).key@)
                    && buckets[i].doc_count == documents.filter(
                    has_value(field, buckets[i].key@),
                ).len() && buckets[i].doc_count > 0
            &&& forall|k: int|
                0 <= k < documents.len() ==> ((#[trigger] documents[k]).member(field) matches Some(
                    value,
                ) ==> (is_plain(value) ==> exists|i: int|
                    0 <= i < buckets.len() && (#[trigger] buckets[i]).key@ == value))
            &&& forall|i: int, j: int|
                0 <= i < j < buckets.len() ==> {
                    &&& (#[trigger] buckets[i]).key@ != (#[trigger] buckets[j]).key@
                    &&& buckets[i].doc_count >= buckets[j].doc_count
                    &&& buckets[i].doc_count == buckets[j].doc_count ==> stands_before(
                        scalar_text(buckets[i].key@)->0,
                        scalar_text(buckets[j].key@)->0,
                    )
                }
        }),
{
    let buckets = result.buckets@;
    let field = request.field@;
    let entries = scalar_entries(documents, field);
    let texts = choose|texts: Seq<Seq<char>>| #[trigger]
        by_frequency(texts, entries) && texts.len() == buckets.len() && forall|i: int|
            0 <= i < texts.len() ==> (#[trigger] buckets[i]).key@ == first_of(entries, texts[i])
                && buckets[i].doc_count == count_of(entries, texts[i]);
    assert forall|i: int| 0 <= i < buckets.len() implies is_plain((#[trigger] buckets[i]).key@)
        && buckets[i].doc_count == documents.filter(has_value(field, buckets[i].key@)).len()
        && buckets[i].doc_count > 0 && scalar_text(buckets[i].key@) == Some(texts[i]) by {
        let text = texts[i];
        assert(count_of(entries, text) > 0);
        lemma_terms_count(documents, field, text);
        lemma_first_of(documents, field, text);
        let value = first_of(entries, text);
        assert(buckets[i].key@ == value);
        let k = choose|k: int|
            0 <= k < documents.len() && (#[trigger] documents[k]).member(field) == Some(value);
        assert(is_plain(value));
        let written = has_value_written(field, text);
        let same = has_value(field, value);
        assert forall|j: int| 0 <= j < documents.len() implies written(#[trigger] documents[j])
            == same(documents[j]) by {
            if let Some(other) = documents[j].member(field) {
                if scalar_text(other) == Some(text) {
                    plain_values_have_their_own_texts(other, value);
                }
            }
        }
        lemma_same_are_kept(documents, written, same);
    }
    assert forall|k: int| 0 <= k < documents.len() implies ((#[trigger] documents[k]).member(field)
        matches Some(value) ==> (is_plain(value) ==> exists|i: int|
        0 <= i < buckets.len() && (#[trigger] buckets[i]).key@ == value)) by {
        if let Some(value) = documents[k].member(field) {
            if is_plain(value) {
                let text = scalar_text(value)->0;
                lemma_terms_count(documents, field, text);
                lemma_kept_counts(documents, has_value_written(field, text), k);
                assert(count_of(entries, text) > 0);
                let i = choose|i: int| 0 <= i < texts.len() && texts[i] == text;
                assert(scalar_text(buckets[i].key@) == Some(texts[i]));
                plain_values_have_their_own_texts(buckets[i].key@, value);
            }
        }
    }
    assert forall|i: int, j: int| 0 <= i < j < buckets.len() implies {
        &&& (#[trigger] buckets[i]).key@ != (#[trigger] buckets[j]).key@
        &&& buckets[i].doc_count >= buckets[j].doc_count
        &&& buckets[i].doc_count == buckets[j].doc_count ==> stands_before(
            scalar_text(buckets[i].key@)->0,
            scalar_text(buckets[j].key@)->0,
        )
    } by {
        assert(scalar_text(buckets[i].key@) == Some(texts[i]));
        assert(scalar_text(buckets[j].key@) == Some(texts[j]));
        texts_are_ordered_as_in_a_dictionary(texts[i], texts[j]);
        if crate::text::text_lt(texts[i], texts[j]) {
            text_lt_asymmetric(texts[i], texts[j]);
        }
    }
}

/// Whether the document has a number in the field.
pub open spec fn has_number(field: Seq<char>) -> spec_fn(JsonView) -> bool {
    |document: JsonView| document.member(field) matches Some(value) && value is Number
}

proof fn lemma_numbers(documents: Seq<JsonView>, field: Seq<char>)
    ensures
        numbers_of(documents, field).len() == documents.filter(has_number(field)).len(),
        forall|i: int|
            0 <= i < numbers_of(documents, field).len() ==> exists|k: int|
                0 <= k < documents.len() && ((#[trigger] documents[k]).member(field) matches Some(
                    value,
                ) && value.as_double() == Some(#[trigger] numbers_of(documents, field)[i])),
        forall|k: int|
            0 <= k < documents.len() ==> ((#[trigger] documents[k]).member(field) matches Some(
                value,
            ) ==> (value.as_double() matches Some(bits) ==> numbers_of(documents, field).contains(
                bits,
            ))),
    decreases documents.len(),
{
    let numbers = numbers_of(documents, field);
    if documents.len() == 0 {
        lemma_none(documents, has_number(field));
    } else {
        let less = documents.drop_last();
        let before = numbers_of(less, field);
        let last = documents[documents.len() - 1];
        lemma_numbers(less, field);
        lemma_one_more(documents, has_number(field));
        assert forall|i: int| 0 <= i < numbers.len() implies exists|k: int|
            0 <= k < documents.len() && ((#[trigger] documents[k]).member(field) matches Some(value)
                && value.as_double() == Some(#[trigger] numbers[i])) by {
            if i < before.len() {
                assert(numbers[i] == before[i]);
                let k = choose|k: int|
                    0 <= k < less.len() && ((#[trigger] less[k]).member(field) matches Some(value)
                        && value.as_double() == Some(before[i]));
                assert(documents[k] == less[k]);
            } else {
                assert(last.member(field) is Some);
            }
        }
        assert forall|k: int| 0 <= k < documents.len() implies ((#[trigger] documents[k]).member(
            field,
        ) matches Some(value) ==> (value.as_double() matches Some(bits) ==> numbers.contains(
            bits,
        ))) by {
            if let Some(value) = documents[k].member(field) {
                if let Some(bits) = value.as_double() {
                    if k < less.len() {
                        assert(less[k] == documents[k]);
                        assert(before.contains(bits));
                        let i = choose|i: int| 0 <= i < before.len() && before[i] == bits;
                        assert(numbers[i] == bits);
                    } else {
                        assert(numbers[before.len() as int] == bits);
                    }
                }
            }
        }
    }
}

/// Statistics count the documents with a number in the field. Where these are integers that
/// doubles hold exactly, the bounds are the least and the greatest of them, and there are bounds
/// if there is a number.
pub proof fn statistics_bound_the_integers(
    result: StatsAggregationResult,
    request: StatsAggregationRequest,
    documents: Seq<JsonView>,
)
    requires
        answers(
            AggregationResult::Stats(result),
            AggregationRequest::Stats(request),
            documents,
        ),
    ensures
        result.count == documents.filter(has_number(request.field@)).len(),
        result.values@.len() == result.count,
        result.min is Some <==> result.count > 0,
        result.max is Some <==> result.count > 0,
        (forall|k: int|
            0 <= k < documents.len() ==> ((#[trigger] documents[k]).member(request.field@)
                matches Some(value) ==> (value is Number ==> exact_integer(value) is Some))) ==> {
            &&& result.min matches Some(bits) ==> exists|k: int|
                0 <= k < documents.len() && ((#[trigger] documents[k]).member(request.field@)
                    matches Some(least) && least.as_double() == Some(bits) && forall|j: int|
                    0 <= j < documents.len() ==> ((#[trigger] documents[j]).member(request.field@)
                        matches Some(other) ==> (other is Number ==> exact_integer(least)->0
                        <= exact_integer(other)->0)))
            &&& result.max matches Some(bits) ==> exists|k: int|
                0 <= k < documents.len() && ((#[trigger] documents[k]).member(request.field@)
                    matches Some(greatest) && greatest.as_double() == Some(bits) && forall|j: int|
                    0 <= j < documents.len() ==> ((#[trigger] documents[j]).member(request.field@)
                        matches Some(other) ==> (other is Number ==> exact_integer(greatest)->0
                        >= exact_integer(other)->0)))
        },
{
    let field = request.field@;
    let numbers = numbers_of(documents, field);
    lemma_numbers(documents, field);
    if forall|k: int|
        0 <= k < documents.len() ==> ((#[trigger] documents[k]).member(request.field@)
            matches Some(value) ==> (value is Number ==> exact_integer(value) is Some)) {
        if let Some(bits) = result.min {
            let at = choose|at: int| #[trigger] least_at(numbers, at) && numbers[at] == bits;
            let k = choose|k: int|
                0 <= k < documents.len() && ((#[trigger] documents[k]).member(field) matches Some(
                    value,
                ) && value.as_double() == Some(numbers[at]));
            let least = documents[k].member(field)->0;
            assert forall|j: int| 0 <= j < documents.len() implies ((
            #[trigger] documents[j]).member(field) matches Some(other) ==> (other is Number
                ==> exact_integer(least)->0 <= exact_integer(other)->0)) by {
                if let Some(other) = documents[j].member(field) {
                    if other is Number {
                        let i = choose|i: int|
                            0 <= i < numbers.len() && numbers[i] == other.as_double()->0;
                        lemma_not_nan(least);
                        lemma_not_nan(other);
                        exact_integers_compare_as_doubles(other, least);
                        assert(crate::aggregations::no_greater(numbers[at], numbers[i]));
                    }
                }
            }
        }
        if let Some(bits) = result.max {
            let at = choose|at: int| #[trigger] greatest_at(numbers, at) && numbers[at] == bits;
            let k = choose|k: int|
                0 <= k < documents.len() && ((#[trigger] documents[k]).member(field) matches Some(
                    value,
                ) && value.as_double() == Some(numbers[at]));
            let greatest = documents[k].member(field)->0;
            assert forall|j: int| 0 <= j < documents.len() implies ((
            #[trigger] documents[j]).member(field) matches Some(other) ==> (other is Number
                ==> exact_integer(greatest)->0 >= exact_integer(other)->0)) by {
                if let Some(other) = documents[j].member(field) {
                    if other is Number {
                        let i = choose|i: int|
                            0 <= i < numbers.len() && numbers[i] == other.as_double()->0;
                        lemma_not_nan(greatest);
                        lemma_not_nan(other);
                        exact_integers_compare_as_doubles(greatest, other);
                        assert(crate::aggregations::no_less(numbers[at], numbers[i]));
                    }
                }
            }
        }
    }
}

proof fn lemma_not_nan(value: JsonView)
    requires
        exact_integer(value) is Some,
    ensures
        value.as_double() is Some,
        !crate::aggregations::is_nan(value.as_double()->0),
{
    integers_have_finite_doubles(exact_integer(value)->0);
}

} // verus!
