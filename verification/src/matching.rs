//! Which documents a query finds, and how well they match.
use vstd::prelude::*;
use vstd::utf8::encode_utf8;

use crate::distance::is_within_fuzziness;
use crate::distance::within_fuzziness;
use crate::doubles::double_rank;
use crate::doubles::integers_compare_as_doubles;
use crate::doubles::rank_of_double;
use crate::doubles::GREATEST_EXACT;
use crate::json::json_eq;
use crate::json::json_views;
use crate::json::same_json;
use crate::json::text_member;
use crate::json::Json;
use crate::json::JsonView;
use crate::json::NumberView;
use crate::positions::reader_views;
use crate::positions::term_positions;
use crate::positions::PositionsReader;
use crate::positions::ReaderView;
use crate::text::has_prefix;
use crate::text::text_eq;
use crate::text::text_starts_with;
use crate::text::tokenize;
use crate::text::tokens;
use crate::text::views;
use crate::time::instant_of;
use crate::time::parse_rfc3339;
use crate::time::Timestamp;
use crate::types::bool_view;
use crate::types::lemma_bool_view;
use crate::types::opt_json_view;
use crate::types::query_views;
use crate::types::BoolQuery;
use crate::types::Fuzziness;
use crate::types::IndexDocument;
use crate::types::MatchQuery;
use crate::types::PhraseQuery;
use crate::types::PrefixQuery;
use crate::types::QueryView;
use crate::types::RangeQuery;
use crate::types::RangeView;
use crate::types::SearchQuery;
use crate::types::TermQuery;
use crate::types::TermsQuery;
use crate::types::WildcardQuery;

verus! {

/// How well a document matches. A score stands for a number from 0 to 1: `One` for 1, a ratio
/// for its quotient, a gap of `g` for `1 / (1 + g / 10)`, a mean for the mean of its parts.
#[derive(Debug)]
pub enum Score {
    One,
    Ratio { matched: usize, total: usize },
    Gap(u32),
    Mean(Vec<Score>),
}

/// What a [`Score`] stands for.
pub ghost enum ScoreView {
    One,
    Ratio { matched: nat, total: nat },
    Gap(u32),
    Mean(Seq<ScoreView>),
}

pub open spec fn score_view(score: Score) -> ScoreView
    decreases score,
{
    match score {
        Score::One => ScoreView::One,
        Score::Ratio { matched, total } => ScoreView::Ratio {
            matched: matched as nat,
            total: total as nat,
        },
        Score::Gap(g) => ScoreView::Gap(g),
        Score::Mean(parts) => ScoreView::Mean(
            Seq::new(
                parts@.len(),
                |i: int|
                    if 0 <= i < parts@.len() {
                        score_view(parts@[i])
                    } else {
                        ScoreView::One
                    },
            ),
        ),
    }
}

impl View for Score {
    type V = ScoreView;

    open spec fn view(&self) -> ScoreView {
        score_view(*self)
    }
}

/// The views of a list of scores.
pub open spec fn score_views(scores: Seq<Score>) -> Seq<ScoreView> {
    Seq::new(scores.len(), |i: int| scores[i]@)
}

proof fn lemma_mean_view(parts: Vec<Score>)
    ensures
        Score::Mean(parts)@ == ScoreView::Mean(score_views(parts@)),
{
    assert(Score::Mean(parts)@->Mean_0 =~= score_views(parts@));
}

/// The view of an optional score.
pub open spec fn opt_score_view(score: Option<Score>) -> Option<ScoreView> {
    match score {
        Some(s) => Some(s@),
        None => None,
    }
}

/// The score of a match that is not graded.
pub open spec fn full_if(matches: bool) -> Option<ScoreView> {
    if matches {
        Some(ScoreView::One)
    } else {
        None
    }
}

/// What a value compares by.
pub ghost enum ComparableView {
    Number(u64),
    Timestamp(Timestamp),
    Text(Seq<char>),
    Boolean(bool),
}

/// What a value compares by, if it does: a number as a double, a string as the point in time
/// that it names, if it names one.
pub open spec fn comparable(value: JsonView) -> Option<ComparableView> {
    match value {
        JsonView::Number(_) => Some(ComparableView::Number(value.as_double()->0)),
        JsonView::Bool(b) => Some(ComparableView::Boolean(b)),
        JsonView::Text(text) => match instant_of(text) {
            Some(t) => Some(ComparableView::Timestamp(t)),
            None => Some(ComparableView::Text(text)),
        },
        _ => None,
    }
}

/// What a value compares by.
pub enum ComparableValue {
    Number(u64),
    Timestamp(Timestamp),
    Text(String),
    Boolean(bool),
}

impl View for ComparableValue {
    type V = ComparableView;

    open spec fn view(&self) -> ComparableView {
        match *self {
            ComparableValue::Number(bits) => ComparableView::Number(bits),
            ComparableValue::Timestamp(t) => ComparableView::Timestamp(t),
            ComparableValue::Text(s) => ComparableView::Text(s@),
            ComparableValue::Boolean(b) => ComparableView::Boolean(b),
        }
    }
}

/// What a value compares by, if it does.
pub fn comparable_value(value: &Json) -> (r: Option<ComparableValue>)
    ensures
        match r {
            Some(v) => comparable(value@) == Some(v@),
            None => comparable(value@) is None,
        },
{
    if let Some(bits) = value.as_double() {
        return Some(ComparableValue::Number(bits));
    }
    match value {
        Json::Bool(b) => Some(ComparableValue::Boolean(*b)),
        Json::Text(text) => match parse_rfc3339(text.as_str()) {
            Some(t) => Some(ComparableValue::Timestamp(t)),
            None => Some(ComparableValue::Text(text.clone())),
        },
        _ => None,
    }
}

/// How a value has to stand to a bound.
#[derive(Clone, Copy, PartialEq, Eq, Structural)]
pub enum Bound {
    AtLeast,
    Above,
    AtMost,
    Below,
}

/// Whether a value of that rank keeps a bound of the other rank.
pub open spec fn keeps(rank: int, bound: int, kind: Bound) -> bool {
    match kind {
        Bound::AtLeast => rank >= bound,
        Bound::Above => rank > bound,
        Bound::AtMost => rank <= bound,
        Bound::Below => rank < bound,
    }
}

/// Whether a number keeps a bound. One that is not a number is never kept.
pub open spec fn number_keeps(bits: u64, bound: Option<JsonView>, kind: Bound) -> bool {
    match bound {
        None => true,
        Some(v) => match v.as_double() {
            Some(other) => keeps(double_rank(bits), double_rank(other), kind),
            None => false,
        },
    }
}

/// A number by which points in time compare.
pub open spec fn instant_rank(t: Timestamp) -> int {
    t.secs * 0x1_0000_0000 + t.nanos
}

/// Whether a point in time keeps a bound. One that names no point in time is never kept.
pub open spec fn instant_keeps(t: Timestamp, bound: Option<JsonView>, kind: Bound) -> bool {
    match bound {
        None => true,
        Some(v) => match v.as_str() {
            Some(text) => match instant_of(text) {
                Some(other) => keeps(instant_rank(t), instant_rank(other), kind),
                None => false,
            },
            None => false,
        },
    }
}

/// Whether the field's value keeps all bounds of the range. Only numbers and points in time do.
pub open spec fn in_range(source: JsonView, range: RangeView) -> bool {
    match source.member(range.field) {
        None => false,
        Some(value) => match comparable(value) {
            Some(ComparableView::Number(bits)) => {
                &&& number_keeps(bits, range.gte, Bound::AtLeast)
                &&& number_keeps(bits, range.gt, Bound::Above)
                &&& number_keeps(bits, range.lte, Bound::AtMost)
                &&& number_keeps(bits, range.lt, Bound::Below)
            },
            Some(ComparableView::Timestamp(t)) => {
                &&& instant_keeps(t, range.gte, Bound::AtLeast)
                &&& instant_keeps(t, range.gt, Bound::Above)
                &&& instant_keeps(t, range.lte, Bound::AtMost)
                &&& instant_keeps(t, range.lt, Bound::Below)
            },
            _ => false,
        },
    }
}

fn compare_numeric_bound(bits: u64, bound: &Option<Json>, kind: Bound) -> (r: bool)
    ensures
        r == number_keeps(bits, opt_json_view(*bound), kind),
{
    match bound {
        None => true,
        Some(v) => match v.as_double() {
            Some(other) => {
                let rank: i64 = rank_of_double(bits);
                let limit: i64 = rank_of_double(other);
                match kind {
                    Bound::AtLeast => rank >= limit,
                    Bound::Above => rank > limit,
                    Bound::AtMost => rank <= limit,
                    Bound::Below => rank < limit,
                }
            },
            None => false,
        },
    }
}

fn compare_timestamp_bound(t: Timestamp, bound: &Option<Json>, kind: Bound) -> (r: bool)
    ensures
        r == instant_keeps(t, opt_json_view(*bound), kind),
{
    match bound {
        None => true,
        Some(v) => match v.as_str() {
            Some(text) => match parse_rfc3339(text) {
                Some(other) => match kind {
                    Bound::AtLeast => other.not_after(&t),
                    Bound::Above => !t.not_after(&other),
                    Bound::AtMost => t.not_after(&other),
                    Bound::Below => !other.not_after(&t),
                },
                None => false,
            },
            None => false,
        },
    }
}

/// Whether the document's value keeps within the range.
pub fn matches_range_query(document: &IndexDocument, range: &RangeQuery) -> (r: bool)
    ensures
        r == in_range(document.source@, range@),
{
    let Some(value) = document.source.get(range.field.as_str()) else {
        return false;
    };
    match comparable_value(value) {
        Some(ComparableValue::Number(bits)) => {
            compare_numeric_bound(bits, &range.gte, Bound::AtLeast) && compare_numeric_bound(
                bits,
                &range.gt,
                Bound::Above,
            ) && compare_numeric_bound(bits, &range.lte, Bound::AtMost) && compare_numeric_bound(
                bits,
                &range.lt,
                Bound::Below,
            )
        },
        Some(ComparableValue::Timestamp(t)) => {
            compare_timestamp_bound(t, &range.gte, Bound::AtLeast) && compare_timestamp_bound(
                t,
                &range.gt,
                Bound::Above,
            ) && compare_timestamp_bound(t, &range.lte, Bound::AtMost) && compare_timestamp_bound(
                t,
                &range.lt,
                Bound::Below,
            )
        },
        _ => false,
    }
}

/// The integer of a JSON value, if it is one.
pub open spec fn integer_in(value: JsonView) -> Option<int> {
    match value {
        JsonView::Number(NumberView::PosInt(n)) => Some(n as int),
        JsonView::Number(NumberView::NegInt(n)) => Some(n as int),
        _ => None,
    }
}

/// Whether a value is an integer that a double holds exactly, as all nearer to zero are.
pub open spec fn is_exact_integer(value: JsonView) -> bool {
    integer_in(value) matches Some(n) && -GREATEST_EXACT <= n <= GREATEST_EXACT
}

/// Whether an integer keeps a bound that is an integer.
pub open spec fn integer_keeps(n: int, bound: Option<JsonView>, kind: Bound) -> bool {
    match bound {
        None => true,
        Some(v) => keeps(n, integer_in(v)->0, kind),
    }
}

proof fn lemma_integer_keeps(value: JsonView, bound: Option<JsonView>, kind: Bound)
    requires
        is_exact_integer(value),
        bound matches Some(v) ==> is_exact_integer(v),
    ensures
        number_keeps(value.as_double()->0, bound, kind) == integer_keeps(
            integer_in(value)->0,
            bound,
            kind,
        ),
{
    if let Some(v) = bound {
        let m = integer_in(value)->0;
        let n = integer_in(v)->0;
        if m < n {
            integers_compare_as_doubles(m, n);
        } else if n < m {
            integers_compare_as_doubles(n, m);
        }
    }
}

/// A range query compares integers as integers, as far as doubles hold every integer.
pub proof fn ranges_of_integers_are_exact(source: JsonView, range: RangeView)
    requires
        source.member(range.field) matches Some(value) && is_exact_integer(value),
        range.gte matches Some(v) ==> is_exact_integer(v),
        range.gt matches Some(v) ==> is_exact_integer(v),
        range.lte matches Some(v) ==> is_exact_integer(v),
        range.lt matches Some(v) ==> is_exact_integer(v),
    ensures
        ({
            let n = integer_in(source.member(range.field)->0)->0;
            in_range(source, range) == (integer_keeps(n, range.gte, Bound::AtLeast)
                && integer_keeps(n, range.gt, Bound::Above) && integer_keeps(
                n,
                range.lte,
                Bound::AtMost,
            ) && integer_keeps(n, range.lt, Bound::Below))
        }),
{
    let value = source.member(range.field)->0;
    lemma_integer_keeps(value, range.gte, Bound::AtLeast);
    lemma_integer_keeps(value, range.gt, Bound::Above);
    lemma_integer_keeps(value, range.lte, Bound::AtMost);
    lemma_integer_keeps(value, range.lt, Bound::Below);
}

/// Whether the field has the value. With fuzziness, a text near enough to a wanted text counts.
pub open spec fn has_term(
    source: JsonView,
    field: Seq<char>,
    value: JsonView,
    fuzziness: Option<Fuzziness>,
) -> bool {
    match source.member(field) {
        None => false,
        Some(found) => match (fuzziness, found, value) {
            (Some(f), JsonView::Text(text), JsonView::Text(wanted)) => within_fuzziness(
                text,
                wanted,
                f,
            ),
            _ => json_eq(found, value),
        },
    }
}

fn matches_term_query(document: &IndexDocument, term: &TermQuery) -> (r: bool)
    ensures
        r == has_term(document.source@, term.field@, term.value@, term.fuzziness),
{
    let Some(found) = document.source.get(term.field.as_str()) else {
        return false;
    };
    match (term.fuzziness, found, &term.value) {
        (Some(f), Json::Text(text), Json::Text(wanted)) => is_within_fuzziness(
            text.as_str(),
            wanted.as_str(),
            f,
        ),
        _ => same_json(found, &term.value),
    }
}

/// Whether the field has one of the values.
pub open spec fn has_one_of(source: JsonView, field: Seq<char>, values: Seq<JsonView>) -> bool {
    match source.member(field) {
        None => false,
        Some(found) => exists|i: int| 0 <= i < values.len() && json_eq(#[trigger] values[i], found),
    }
}

/// Whether the document has one of the values.
pub fn matches_terms_query(document: &IndexDocument, terms: &TermsQuery) -> (r: bool)
    ensures
        r == has_one_of(document.source@, terms.field@, json_views(terms.values@)),
{
    let Some(found) = document.source.get(terms.field.as_str()) else {
        return false;
    };
    let ghost values = json_views(terms.values@);
    let mut i: usize = 0;
    while i < terms.values.len()
        invariant
            i <= terms.values@.len(),
            values == json_views(terms.values@),
            document.source@.member(terms.field@) == Some(found@),
            forall|j: int| 0 <= j < i ==> !json_eq(#[trigger] values[j], found@),
        decreases terms.values@.len() - i,
    {
        proof {
            assert(values[i as int] == terms.values@[i as int]@);
        }
        if same_json(&terms.values[i], found) {
            return true;
        }
        i += 1;
    }
    false
}

/// Whether the field's text begins with the prefix.
pub open spec fn has_text_prefix(source: JsonView, field: Seq<char>, prefix: Seq<char>) -> bool {
    match text_member(source, field) {
        Some(text) => has_prefix(text, prefix),
        None => false,
    }
}

/// Whether the document's text begins with the prefix.
pub fn matches_prefix_query(document: &IndexDocument, prefix: &PrefixQuery) -> (r: bool)
    ensures
        r == has_text_prefix(document.source@, prefix.field@, prefix.value@),
{
    match document.source.text_of(prefix.field.as_str()) {
        Some(text) => text_starts_with(text, prefix.value.as_str()),
        None => false,
    }
}

/// Whether a character means something else than itself in a regular expression.
pub open spec fn is_meta(c: char) -> bool {
    ||| c == '\\' || c == '.' || c == '+' || c == '*' || c == '?' || c == '(' || c == ')'
    ||| c == '|' || c == '[' || c == ']' || c == '{' || c == '}' || c == '^' || c == '$'
    ||| c == '#' || c == '&' || c == '-' || c == '~'
}

/// `regex::escape` puts a backslash before each character that means something else than
/// itself, here before the one character that it is given.
#[verifier::external_body]
fn escape_char(c: char) -> (r: String)
    ensures
        r@ == if is_meta(c) {
            seq!['\\', c]
        } else {
            seq![c]
        },
{
    regex::escape(&c.to_string())
}

/// Whether a regular expression matches a text; nothing where it is none.
pub uninterp spec fn regex_match(pattern: Seq<char>, text: Seq<char>) -> Option<bool>;

/// `regex::Regex::new` compiles a pattern and `is_match` looks for a match in a text. The claim
/// is that whether it compiles, and whether it matches, depends on pattern and text alone.
#[verifier::external_body]
fn regex_is_match(pattern: &str, text: &str) -> (r: Option<bool>)
    ensures
        r == regex_match(pattern@, text@),
{
    regex::Regex::new(pattern).ok().map(|re| re.is_match(text))
}

/// What a character of a wildcard pattern stands for in a regular expression.
pub open spec fn wildcard_part(c: char) -> Seq<char> {
    if c == '*' {
        seq!['.', '*']
    } else if c == '?' {
        seq!['.']
    } else if is_meta(c) {
        seq!['\\', c]
    } else {
        seq![c]
    }
}

/// What a wildcard pattern stands for in a regular expression.
pub open spec fn wildcard_parts(pattern: Seq<char>) -> Seq<char>
    decreases pattern.len(),
{
    if pattern.len() == 0 {
        Seq::empty()
    } else {
        wildcard_parts(pattern.drop_last()) + wildcard_part(pattern.last())
    }
}

/// The regular expression of a wildcard pattern, which has to match the whole text.
pub open spec fn wildcard_regex(pattern: Seq<char>) -> Seq<char> {
    seq!['^'] + wildcard_parts(pattern) + seq!['$']
}

/// Builds the regular expression of a wildcard pattern.
pub fn build_wildcard_regex(pattern: &str) -> (r: String)
    ensures
        r@ == wildcard_regex(pattern@),
{
    let mut r = String::new();
    r.push('^');
    proof {
        assert(wildcard_parts(pattern@.take(0)) =~= Seq::empty());
        assert(r@ =~= seq!['^'] + wildcard_parts(pattern@.take(0)));
    }
    for c in it: pattern.chars()
        invariant
            it.seq() == pattern@,
            r@ == seq!['^'] + wildcard_parts(pattern@.take(it.index() as int)),
    {
        let ghost k = it.index() as int;
        let ghost before = r@;
        proof {
            assert(pattern@.take(k + 1).drop_last() =~= pattern@.take(k));
            assert(pattern@.take(k + 1).last() == c);
        }
        if c == '*' {
            r.push('.');
            r.push('*');
        } else if c == '?' {
            r.push('.');
        } else {
            r.append(escape_char(c).as_str());
        }
        proof {
            assert(r@ =~= before + wildcard_part(c));
            assert(before + wildcard_part(c) =~= seq!['^'] + wildcard_parts(pattern@.take(k + 1)));
        }
    }
    proof {
        assert(pattern@.take(pattern@.len() as int) =~= pattern@);
    }
    r.push('$');
    proof {
        assert(r@ =~= wildcard_regex(pattern@));
    }
    r
}

/// Whether the field's text has the form of the pattern.
pub open spec fn has_wildcard(source: JsonView, field: Seq<char>, pattern: Seq<char>) -> bool {
    match text_member(source, field) {
        Some(text) => regex_match(wildcard_regex(pattern), text) == Some(true),
        None => false,
    }
}

/// Whether the document's text has the form of the pattern.
pub fn matches_wildcard_query(document: &IndexDocument, wildcard: &WildcardQuery) -> (r: bool)
    ensures
        r == has_wildcard(document.source@, wildcard.field@, wildcard.value@),
{
    match document.source.text_of(wildcard.field.as_str()) {
        Some(text) => {
            let pattern = build_wildcard_regex(wildcard.value.as_str());
            match regex_is_match(pattern.as_str(), text) {
                Some(found) => found,
                None => false,
            }
        },
        None => false,
    }
}

/// How many of the words are among the others.
pub open spec fn count_known(words: Seq<Seq<char>>, known: Seq<Seq<char>>) -> nat
    decreases words.len(),
{
    if words.len() == 0 {
        0
    } else {
        count_known(words.drop_last(), known) + if known.contains(words.last()) {
            1nat
        } else {
            0nat
        }
    }
}

/// The score of a match query: the share of its words that the field's text holds, if it holds
/// any.
pub open spec fn match_score(source: JsonView, field: Seq<char>, value: Seq<char>) -> Option<
    ScoreView,
> {
    match text_member(source, field) {
        Some(text) => {
            let matched = count_known(tokens(value), tokens(text));
            if matched > 0 {
                Some(ScoreView::Ratio { matched, total: tokens(value).len() })
            } else {
                None
            }
        },
        None => None,
    }
}

/// Whether one of the strings is `word`.
pub fn holds_word(list: &Vec<String>, word: &str) -> (r: bool)
    ensures
        r == views(list@).contains(word@),
{
    let mut i: usize = 0;
    while i < list.len()
        invariant
            i <= list@.len(),
            forall|j: int| 0 <= j < i ==> #[trigger] views(list@)[j] != word@,
        decreases list@.len() - i,
    {
        proof {
            assert(views(list@)[i as int] == list@[i as int]@);
        }
        if text_eq(list[i].as_str(), word) {
            return true;
        }
        i += 1;
    }
    false
}

/// The score of a match query.
pub fn score_match_query(document: &IndexDocument, query: &MatchQuery) -> (r: Option<Score>)
    ensures
        opt_score_view(r) == match_score(document.source@, query.field@, query.value@),
{
    let Some(text) = document.source.text_of(query.field.as_str()) else {
        return None;
    };
    let known = tokenize(text);
    let words = tokenize(query.value.as_str());
    let ghost all = tokens(query.value@);
    let mut matched: usize = 0;
    let mut i: usize = 0;
    proof {
        assert(all.len() == words@.len());
        assert(all.take(0) =~= Seq::empty());
    }
    while i < words.len()
        invariant
            i <= words@.len(),
            all == views(words@),
            matched <= i,
            matched == count_known(all.take(i as int), views(known@)),
        decreases words@.len() - i,
    {
        proof {
            assert(all.take(i + 1).drop_last() =~= all.take(i as int));
            assert(all.take(i + 1).last() == words@[i as int]@);
        }
        if holds_word(&known, words[i].as_str()) {
            matched += 1;
        }
        i += 1;
    }
    proof {
        assert(all.take(i as int) =~= all);
    }
    if matched > 0 {
        Some(Score::Ratio { matched, total: words.len() })
    } else {
        None
    }
}

/// The first position after `previous`, in the order in which they are listed.
pub open spec fn next_after(positions: Seq<u32>, previous: u32) -> Option<u32>
    decreases positions.len(),
{
    if positions.len() == 0 {
        None
    } else if positions[0] > previous {
        Some(positions[0])
    } else {
        next_after(positions.drop_first(), previous)
    }
}

/// The larger of two numbers.
pub open spec fn larger(a: u32, b: u32) -> u32 {
    if a >= b {
        a
    } else {
        b
    }
}

/// The widest gap between the words of a phrase: each word from number `k` on stands at its
/// first position after the word before. `gap` is the widest so far.
pub open spec fn phrase_gap(
    reader: ReaderView,
    words: Seq<Seq<char>>,
    doc_id: u64,
    k: int,
    previous: u32,
    gap: u32,
) -> Option<u32>
    decreases words.len() - k,
{
    if k < 0 || k >= words.len() {
        Some(gap)
    } else {
        match next_after(term_positions(reader, words[k], doc_id), previous) {
            None => None,
            Some(p) => phrase_gap(reader, words, doc_id, k + 1, p, larger(gap, (p - previous) as u32)),
        }
    }
}

/// The smaller of two gaps, where there are any.
pub open spec fn least_gap(a: Option<u32>, b: Option<u32>) -> Option<u32> {
    match (a, b) {
        (Some(x), Some(y)) => Some(
            if x <= y {
                x
            } else {
                y
            },
        ),
        (Some(x), None) => Some(x),
        (None, _) => b,
    }
}

/// The least gap of the phrase among those that begin at one of the first `k` positions within
/// the text.
pub open spec fn least_gap_at(
    reader: ReaderView,
    words: Seq<Seq<char>>,
    doc_id: u64,
    starts: Seq<u32>,
    k: int,
    length: nat,
) -> Option<u32>
    decreases k,
{
    if k <= 0 || k > starts.len() {
        None
    } else {
        let start = starts[k - 1];
        let here = if start < length {
            phrase_gap(reader, words, doc_id, 1, start, 0)
        } else {
            None
        };
        least_gap(least_gap_at(reader, words, doc_id, starts, k - 1, length), here)
    }
}

/// The least gap of the phrase in the first `k` segments.
pub open spec fn least_gap_in(
    readers: Seq<ReaderView>,
    words: Seq<Seq<char>>,
    doc_id: u64,
    k: int,
    length: nat,
) -> Option<u32>
    decreases k,
{
    if k <= 0 || k > readers.len() {
        None
    } else {
        let starts = term_positions(readers[k - 1], words[0], doc_id);
        least_gap(
            least_gap_in(readers, words, doc_id, k - 1, length),
            least_gap_at(readers[k - 1], words, doc_id, starts, starts.len() as int, length),
        )
    }
}

/// The score of a phrase: full where its words stand near to each other, less where the widest
/// gap between two of them is more than ten bytes. A phrase has two words or more.
pub open spec fn phrase_score(
    source: JsonView,
    field: Seq<char>,
    value: Seq<char>,
    doc_id: u64,
    readers: Seq<ReaderView>,
) -> Option<ScoreView> {
    match text_member(source, field) {
        Some(text) => {
            let words = tokens(value);
            if words.len() < 2 {
                None
            } else {
                match least_gap_in(
                    readers,
                    words,
                    doc_id,
                    readers.len() as int,
                    encode_utf8(text).len(),
                ) {
                    None => None,
                    Some(gap) => if gap <= 10 {
                        Some(ScoreView::One)
                    } else {
                        Some(ScoreView::Gap(gap))
                    },
                }
            }
        },
        None => None,
    }
}

fn find_next_after(positions: &Vec<u32>, previous: u32) -> (r: Option<u32>)
    ensures
        r == next_after(positions@, previous),
        r matches Some(p) ==> p > previous,
{
    let mut i: usize = 0;
    proof {
        assert(positions@.skip(0) =~= positions@);
    }
    while i < positions.len()
        invariant
            i <= positions@.len(),
            next_after(positions@, previous) == next_after(positions@.skip(i as int), previous),
        decreases positions@.len() - i,
    {
        proof {
            assert(positions@.skip(i as int)[0] == positions@[i as int]);
            assert(positions@.skip(i as int).drop_first() =~= positions@.skip(i + 1));
        }
        if positions[i] > previous {
            return Some(positions[i]);
        }
        i += 1;
    }
    None
}

fn measure_phrase(
    reader: &PositionsReader,
    words: &Vec<String>,
    doc_id: u64,
    start: u32,
) -> (r: Option<u32>)
    requires
        words@.len() > 0,
    ensures
        r == phrase_gap(reader@, views(words@), doc_id, 1, start, 0),
{
    let ghost all = views(words@);
    let mut previous: u32 = start;
    let mut gap: u32 = 0;
    let mut k: usize = 1;
    while k < words.len()
        invariant
            1 <= k <= words@.len(),
            all == views(words@),
            phrase_gap(reader@, all, doc_id, 1, start, 0) == phrase_gap(
                reader@,
                all,
                doc_id,
                k as int,
                previous,
                gap,
            ),
        decreases words@.len() - k,
    {
        proof {
            assert(all[k as int] == words@[k as int]@);
        }
        let positions = reader.positions_of(words[k].as_str(), doc_id);
        match find_next_after(&positions, previous) {
            None => {
                return None;
            },
            Some(p) => {
                let step: u32 = p - previous;
                if step > gap {
                    gap = step;
                }
                previous = p;
            },
        }
        k += 1;
    }
    Some(gap)
}

fn smaller_gap(a: Option<u32>, b: Option<u32>) -> (r: Option<u32>)
    ensures
        r == least_gap(a, b),
{
    match (a, b) {
        (Some(x), Some(y)) => Some(
            if x <= y {
                x
            } else {
                y
            },
        ),
        (Some(x), None) => Some(x),
        (None, other) => other,
    }
}

fn measure_phrase_in(
    reader: &PositionsReader,
    words: &Vec<String>,
    doc_id: u64,
    length: usize,
) -> (r: Option<u32>)
    requires
        words@.len() > 0,
    ensures
        ({
            let starts = term_positions(reader@, views(words@)[0], doc_id);
            r == least_gap_at(
                reader@,
                views(words@),
                doc_id,
                starts,
                starts.len() as int,
                length as nat,
            )
        }),
{
    let ghost all = views(words@);
    let starts = reader.positions_of(words[0].as_str(), doc_id);
    let mut best: Option<u32> = None;
    let mut k: usize = 0;
    while k < starts.len()
        invariant
            k <= starts@.len(),
            words@.len() > 0,
            all == views(words@),
            best == least_gap_at(reader@, all, doc_id, starts@, k as int, length as nat),
        decreases starts@.len() - k,
    {
        let here: Option<u32> = if (starts[k] as usize) < length {
            measure_phrase(reader, words, doc_id, starts[k])
        } else {
            None
        };
        best = smaller_gap(best, here);
        k += 1;
    }
    best
}

/// The score of a phrase query.
pub fn score_phrase_query(
    document: &IndexDocument,
    phrase: &PhraseQuery,
    doc_id: u64,
    readers: &Vec<PositionsReader>,
) -> (r: Option<Score>)
    ensures
        opt_score_view(r) == phrase_score(
            document.source@,
            phrase.field@,
            phrase.value@,
            doc_id,
            reader_views(readers@),
        ),
{
    let Some(text) = document.source.text_of(phrase.field.as_str()) else {
        return None;
    };
    let words = tokenize(phrase.value.as_str());
    let ghost all = tokens(phrase.value@);
    let ghost segments = reader_views(readers@);
    proof {
        assert(all.len() == words@.len());
    }
    if words.len() < 2 {
        return None;
    }
    let length: usize = text.as_bytes().len();
    let mut best: Option<u32> = None;
    let mut k: usize = 0;
    while k < readers.len()
        invariant
            k <= readers@.len(),
            segments == reader_views(readers@),
            all == views(words@),
            words@.len() >= 2,
            best == least_gap_in(segments, all, doc_id, k as int, length as nat),
        decreases readers@.len() - k,
    {
        proof {
            assert(segments[k as int] == readers@[k as int]@);
        }
        best = smaller_gap(best, measure_phrase_in(&readers[k], &words, doc_id, length));
        k += 1;
    }
    match best {
        None => None,
        Some(gap) => if gap <= 10 {
            Some(Score::One)
        } else {
            Some(Score::Gap(gap))
        },
    }
}

/// The scores among the outcomes, in their order.
pub open spec fn scores_of(outcomes: Seq<Option<ScoreView>>) -> Seq<ScoreView>
    decreases outcomes.len(),
{
    if outcomes.len() == 0 {
        Seq::empty()
    } else {
        match outcomes.last() {
            Some(s) => scores_of(outcomes.drop_last()).push(s),
            None => scores_of(outcomes.drop_last()),
        }
    }
}

/// How many optional clauses have to match: as many as asked for, else one where there is
/// nothing but optional clauses.
pub open spec fn required_should(
    must: nat,
    filter: nat,
    should: nat,
    minimum_should_match: Option<u32>,
) -> nat {
    match minimum_should_match {
        Some(n) => n as nat,
        None => if must == 0 && filter == 0 && should > 0 {
            1
        } else {
            0
        },
    }
}

/// The score of a combination whose clauses have those outcomes: the mean of the scores of the
/// clauses that have to match and of the optional ones that do.
pub open spec fn combined_score(
    must: Seq<Option<ScoreView>>,
    should: Seq<Option<ScoreView>>,
    filter: Seq<Option<ScoreView>>,
    must_not: Seq<Option<ScoreView>>,
    minimum_should_match: Option<u32>,
) -> Option<ScoreView> {
    let parts = scores_of(must) + scores_of(should);
    if scores_of(must).len() == must.len() && scores_of(filter).len() == filter.len()
        && scores_of(must_not).len() == 0 && scores_of(should).len() >= required_should(
        must.len(),
        filter.len(),
        should.len(),
        minimum_should_match,
    ) {
        Some(
            if parts.len() > 0 {
                ScoreView::Mean(parts)
            } else {
                ScoreView::One
            },
        )
    } else {
        None
    }
}

/// How well a document matches a query, if it does.
pub open spec fn query_score(
    source: JsonView,
    query: QueryView,
    doc_id: u64,
    readers: Seq<ReaderView>,
) -> Option<ScoreView>
    decreases query, 0int,
{
    match query {
        QueryView::MatchAll => Some(ScoreView::One),
        QueryView::Term { field, value, fuzziness } => full_if(
            has_term(source, field, value, fuzziness),
        ),
        QueryView::Terms { field, values } => full_if(has_one_of(source, field, values)),
        QueryView::Range(range) => full_if(in_range(source, range)),
        QueryView::Bool { must, should, filter, must_not, minimum_should_match } => combined_score(
            clause_scores(source, must, must.len() as int, doc_id, readers),
            clause_scores(source, should, should.len() as int, doc_id, readers),
            clause_scores(source, filter, filter.len() as int, doc_id, readers),
            clause_scores(source, must_not, must_not.len() as int, doc_id, readers),
            minimum_should_match,
        ),
        QueryView::Prefix { field, text } => full_if(has_text_prefix(source, field, text)),
        QueryView::Wildcard { field, text } => full_if(has_wildcard(source, field, text)),
        QueryView::Match { field, text } => match_score(source, field, text),
        QueryView::Phrase { field, text } => phrase_score(source, field, text, doc_id, readers),
    }
}

/// How well a document matches each of the first `k` queries.
pub open spec fn clause_scores(
    source: JsonView,
    queries: Seq<QueryView>,
    k: int,
    doc_id: u64,
    readers: Seq<ReaderView>,
) -> Seq<Option<ScoreView>>
    decreases queries, k,
{
    if k <= 0 || k > queries.len() {
        Seq::empty()
    } else {
        clause_scores(source, queries, k - 1, doc_id, readers).push(
            query_score(source, queries[k - 1], doc_id, readers),
        )
    }
}

/// How well a document matches each of the queries.
pub open spec fn query_scores(
    source: JsonView,
    queries: Seq<QueryView>,
    doc_id: u64,
    readers: Seq<ReaderView>,
) -> Seq<Option<ScoreView>> {
    Seq::new(queries.len(), |i: int| query_score(source, queries[i], doc_id, readers))
}

/// Listing the outcomes one by one gives all of them.
pub proof fn lemma_clause_scores(
    source: JsonView,
    queries: Seq<QueryView>,
    k: int,
    doc_id: u64,
    readers: Seq<ReaderView>,
)
    requires
        0 <= k <= queries.len(),
    ensures
        clause_scores(source, queries, k, doc_id, readers) == query_scores(
            source,
            queries,
            doc_id,
            readers,
        ).take(k),
    decreases k,
{
    let all = query_scores(source, queries, doc_id, readers);
    if k > 0 {
        lemma_clause_scores(source, queries, k - 1, doc_id, readers);
        assert(all.take(k) =~= all.take(k - 1).push(all[k - 1]));
    } else {
        assert(all.take(0) =~= Seq::empty());
    }
}

/// The score of a combination follows from the scores of its clauses.
pub proof fn lemma_bool_score(
    source: JsonView,
    must: Seq<QueryView>,
    should: Seq<QueryView>,
    filter: Seq<QueryView>,
    must_not: Seq<QueryView>,
    minimum_should_match: Option<u32>,
    doc_id: u64,
    readers: Seq<ReaderView>,
)
    ensures
        query_score(
            source,
            QueryView::Bool { must, should, filter, must_not, minimum_should_match },
            doc_id,
            readers,
        ) == combined_score(
            query_scores(source, must, doc_id, readers),
            query_scores(source, should, doc_id, readers),
            query_scores(source, filter, doc_id, readers),
            query_scores(source, must_not, doc_id, readers),
            minimum_should_match,
        ),
{
    lemma_all_clause_scores(source, must, doc_id, readers);
    lemma_all_clause_scores(source, should, doc_id, readers);
    lemma_all_clause_scores(source, filter, doc_id, readers);
    lemma_all_clause_scores(source, must_not, doc_id, readers);
}

proof fn lemma_all_clause_scores(
    source: JsonView,
    queries: Seq<QueryView>,
    doc_id: u64,
    readers: Seq<ReaderView>,
)
    ensures
        clause_scores(source, queries, queries.len() as int, doc_id, readers) == query_scores(
            source,
            queries,
            doc_id,
            readers,
        ),
{
    lemma_clause_scores(source, queries, queries.len() as int, doc_id, readers);
    let all = query_scores(source, queries, doc_id, readers);
    assert(all.take(queries.len() as int) =~= all);
}

/// The scores of the clauses that match, and how many there are of them.
fn score_clauses(
    document: &IndexDocument,
    queries: &Vec<SearchQuery>,
    doc_id: u64,
    readers: &Vec<PositionsReader>,
) -> (r: Vec<Score>)
    ensures
        score_views(r@) == scores_of(
            query_scores(
                document.source@,
                query_views(queries@),
                doc_id,
                reader_views(readers@),
            ),
        ),
        r@.len() <= queries@.len(),
    decreases queries, 0int,
{
    let ghost outcomes = query_scores(
        document.source@,
        query_views(queries@),
        doc_id,
        reader_views(readers@),
    );
    let mut r: Vec<Score> = Vec::new();
    let mut i: usize = 0;
    proof {
        assert(outcomes.take(0) =~= Seq::empty());
        assert(score_views(r@) =~= Seq::empty());
    }
    while i < queries.len()
        invariant
            i <= queries@.len(),
            r@.len() <= i,
            outcomes == query_scores(
                document.source@,
                query_views(queries@),
                doc_id,
                reader_views(readers@),
            ),
            score_views(r@) == scores_of(outcomes.take(i as int)),
        decreases queries@.len() - i,
    {
        proof {
            assert(decreases_to!(queries => queries@));
            assert(decreases_to!(queries@ => queries@[i as int]));
            assert(outcomes.take(i + 1).drop_last() =~= outcomes.take(i as int));
            assert(outcomes.take(i + 1).last() == outcomes[i as int]);
            assert(query_views(queries@)[i as int] == queries@[i as int]@);
        }
        if let Some(score) = score_query(document, &queries[i], doc_id, readers) {
            let ghost before = r@;
            r.push(score);
            proof {
                assert(score_views(r@) =~= score_views(before).push(score@));
            }
        }
        i += 1;
    }
    proof {
        assert(outcomes.take(i as int) =~= outcomes);
    }
    r
}

/// The score of a combination of queries.
pub fn score_bool_query(
    document: &IndexDocument,
    query: &BoolQuery,
    doc_id: u64,
    readers: &Vec<PositionsReader>,
) -> (r: Option<Score>)
    ensures
        opt_score_view(r) == query_score(
            document.source@,
            bool_view(*query),
            doc_id,
            reader_views(readers@),
        ),
    decreases query, 1int,
{
    proof {
        lemma_bool_score(
            document.source@,
            query_views(query.must@),
            query_views(query.should@),
            query_views(query.filter@),
            query_views(query.must_not@),
            query.minimum_should_match,
            doc_id,
            reader_views(readers@),
        );
    }
    let mut parts = score_clauses(document, &query.must, doc_id, readers);
    let ghost must = parts@;
    if parts.len() < query.must.len() {
        return None;
    }
    let filters = score_clauses(document, &query.filter, doc_id, readers);
    if filters.len() < query.filter.len() {
        return None;
    }
    let excluded = score_clauses(document, &query.must_not, doc_id, readers);
    if excluded.len() > 0 {
        return None;
    }
    let mut options = score_clauses(document, &query.should, doc_id, readers);
    let ghost should = options@;
    let enough: bool = match query.minimum_should_match {
        Some(n) => options.len() as u64 >= n as u64,
        None => options.len() > 0 || query.must.len() > 0 || query.filter.len() > 0
            || query.should.len() == 0,
    };
    proof {
        assert(score_views(must).len() == must.len());
        assert(score_views(filters@).len() == filters@.len());
        assert(score_views(excluded@).len() == excluded@.len());
        assert(score_views(should).len() == should.len());
    }
    if !enough {
        return None;
    }
    parts.append(&mut options);
    proof {
        assert(score_views(parts@) =~= score_views(must) + score_views(should));
        lemma_mean_view(parts);
    }
    if parts.len() > 0 {
        Some(Score::Mean(parts))
    } else {
        Some(Score::One)
    }
}

/// How well a document matches a query, if it does.
pub fn score_query(
    document: &IndexDocument,
    query: &SearchQuery,
    doc_id: u64,
    readers: &Vec<PositionsReader>,
) -> (r: Option<Score>)
    ensures
        opt_score_view(r) == query_score(
            document.source@,
            query@,
            doc_id,
            reader_views(readers@),
        ),
    decreases query, 2int,
{
    let matches: bool = match query {
        SearchQuery::MatchAll => true,
        SearchQuery::Term(term) => matches_term_query(document, term),
        SearchQuery::Terms(terms) => matches_terms_query(document, terms),
        SearchQuery::Range(range) => matches_range_query(document, range),
        SearchQuery::Bool(combination) => {
            proof {
                lemma_bool_view(*combination);
            }
            return score_bool_query(document, combination, doc_id, readers);
        },
        SearchQuery::Prefix(prefix) => matches_prefix_query(document, prefix),
        SearchQuery::Wildcard(wildcard) => matches_wildcard_query(document, wildcard),
        SearchQuery::Match(query) => {
            return score_match_query(document, query);
        },
        SearchQuery::Phrase(phrase) => {
            return score_phrase_query(document, phrase, doc_id, readers);
        },
    };
    if matches {
        Some(Score::One)
    } else {
        None
    }
}

} // verus!
