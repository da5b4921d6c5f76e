//! Query strings such as `field:value AND (tag:foo OR tag:bar)`.
use vstd::prelude::*;

use crate::json::parse_json;
use crate::json::parsed_json;
use crate::json::Json;
use crate::json::JsonView;
use crate::numbers::numeric_of;
use crate::numbers::parse_numeric;
use crate::text::cat3;
use crate::text::chars_of;
use crate::text::letter_or_number;
use crate::text::is_space;
use crate::text::string_of;
use crate::types::bool_view;
use crate::types::lemma_bool_view;
use crate::types::query_views;
use crate::types::BoolQuery;
use crate::types::CloudSearchError;
use crate::types::ErrorView;
use crate::types::QueryView;
use crate::types::RangeQuery;
use crate::types::RangeView;
use crate::types::SearchQuery;
use crate::types::TermQuery;
use crate::types::WildcardQuery;

verus! {

broadcast use lemma_bool_view;

/// A query and the position behind it, or what is wrong.
pub type Parsed = Result<(QueryView, int), Seq<char>>;

/// Whether a word can hold `c`.
pub open spec fn is_word_char(c: char) -> bool {
    letter_or_number(c) || c == '_' || c == '-'
}

/// The first position from `i` on that is not white space.
pub open spec fn skip_space(s: Seq<char>, i: int) -> int
    decreases s.len() - i,
{
    if 0 <= i < s.len() && is_space(s[i]) {
        skip_space(s, i + 1)
    } else {
        i
    }
}

/// White space is skipped forwards and not past the end.
pub proof fn lemma_skip_space(s: Seq<char>, i: int)
    ensures
        i <= skip_space(s, i),
        0 <= i <= s.len() ==> skip_space(s, i) <= s.len(),
    decreases s.len() - i,
{
    if 0 <= i < s.len() && is_space(s[i]) {
        lemma_skip_space(s, i + 1);
    }
}

/// The first position from `i` on that no word character holds.
pub open spec fn word_stop(s: Seq<char>, i: int) -> int
    decreases s.len() - i,
{
    if 0 <= i < s.len() && is_word_char(s[i]) {
        word_stop(s, i + 1)
    } else {
        i
    }
}

/// Whether `AND` stands at `i`.
pub open spec fn and_at(s: Seq<char>, i: int) -> bool {
    0 <= i && i + 3 <= s.len() && s[i] == 'A' && s[i + 1] == 'N' && s[i + 2] == 'D'
}

/// Whether `OR` stands at `i`.
pub open spec fn or_at(s: Seq<char>, i: int) -> bool {
    0 <= i && i + 2 <= s.len() && s[i] == 'O' && s[i + 1] == 'R'
}

/// Whether `NOT` stands at `i`.
pub open spec fn not_at(s: Seq<char>, i: int) -> bool {
    0 <= i && i + 3 <= s.len() && s[i] == 'N' && s[i + 1] == 'O' && s[i + 2] == 'T'
}

/// Whether a word that ends at `i` goes no further.
pub open spec fn ends_word(s: Seq<char>, i: int) -> bool {
    !(0 <= i < s.len() && is_word_char(s[i]))
}

/// Whether one of the words `AND`, `OR` and `NOT` stands at `i`, and goes no further.
pub open spec fn operator_word(s: Seq<char>, i: int) -> bool {
    ||| and_at(s, i) && ends_word(s, i + 3)
    ||| or_at(s, i) && ends_word(s, i + 2)
    ||| not_at(s, i) && ends_word(s, i + 3)
}

/// Whether an operator that ends a value stands at `i`: a parenthesis. The operators that are
/// words have white space in front, which has ended the value already.
pub open spec fn operator_starts(s: Seq<char>, i: int) -> bool {
    0 <= i < s.len() && (s[i] == '(' || s[i] == ')')
}

/// The first position from `i` on at which a value without quotes ends: at white space or at a
/// parenthesis.
pub open spec fn value_stop(s: Seq<char>, i: int) -> int
    decreases s.len() - i,
{
    if 0 <= i < s.len() && !is_space(s[i]) && !operator_starts(s, i) {
        value_stop(s, i + 1)
    } else {
        i
    }
}

/// The position of the closing quote from `i` on. A backslash takes the character behind it
/// along.
pub open spec fn quote_stop(s: Seq<char>, i: int) -> Option<int>
    decreases s.len() - i,
{
    if i < 0 || i >= s.len() {
        None
    } else if s[i] == '\\' && i + 1 < s.len() {
        quote_stop(s, i + 2)
    } else if s[i] == '"' {
        Some(i)
    } else {
        quote_stop(s, i + 1)
    }
}

/// The value that stands at `i`, and the position behind it. There is none where an operator
/// stands in its place.
pub open spec fn value_at(s: Seq<char>, i: int) -> Result<(Seq<char>, int), Seq<char>> {
    let j = skip_space(s, i);
    if j >= s.len() {
        Ok((Seq::empty(), j))
    } else if s[j] == '"' {
        match quote_stop(s, j + 1) {
            Some(k) => Ok((s.subrange(j + 1, k), k + 1)),
            None => Err("unclosed quoted string"@),
        }
    } else if operator_word(s, j) {
        Ok((Seq::empty(), j))
    } else {
        Ok((s.subrange(j, value_stop(s, j)), value_stop(s, j)))
    }
}

/// A range without bounds.
pub open spec fn no_bounds(field: Seq<char>) -> RangeView {
    RangeView { field, gte: None, gt: None, lte: None, lt: None }
}

/// The number in a range, or what is wrong with it.
pub open spec fn bound_of(s: Seq<char>) -> Result<JsonView, Seq<char>> {
    match numeric_of(s) {
        Some(v) => Ok(v),
        None => Err("invalid number '"@ + s + "'"@),
    }
}

/// The position of the first two dots from `i` on.
pub open spec fn dots_at(s: Seq<char>, i: int) -> Option<int>
    decreases s.len() - i,
{
    if i < 0 || i + 2 > s.len() {
        None
    } else if s[i] == '.' && s[i + 1] == '.' {
        Some(i)
    } else {
        dots_at(s, i + 1)
    }
}

/// The JSON value of a plain value: what it is as JSON, else the text itself.
pub open spec fn plain_value(s: Seq<char>) -> JsonView {
    match parsed_json(s) {
        Some(v) => v,
        None => JsonView::Text(s),
    }
}

/// The query for a value without a comparison in front: a range where it holds two dots with
/// something at either side, a wildcard where it holds `*` or `?`, else a term.
pub open spec fn plain_query(field: Seq<char>, value: Seq<char>) -> Result<QueryView, Seq<char>> {
    match dots_at(value, 0) {
        Some(i) if value.len() > 2 => match (
            bound_of(value.take(i)),
            bound_of(value.skip(i + 2)),
        ) {
            (Err(m), _) => Err(m),
            (Ok(_), Err(m)) => Err(m),
            (Ok(low), Ok(high)) => Ok(
                QueryView::Range(RangeView { gte: Some(low), lte: Some(high), ..no_bounds(field) }),
            ),
        },
        _ => if value.contains('*') || value.contains('?') {
            Ok(QueryView::Wildcard { field, text: value })
        } else {
            Ok(QueryView::Term { field, value: plain_value(value), fuzziness: None })
        },
    }
}

/// The query that `field:value` stands for.
pub open spec fn field_query(field: Seq<char>, value: Seq<char>) -> Result<QueryView, Seq<char>> {
    if value.len() >= 2 && value[0] == '>' && value[1] == '=' {
        match bound_of(value.skip(2)) {
            Ok(v) => Ok(QueryView::Range(RangeView { gte: Some(v), ..no_bounds(field) })),
            Err(m) => Err(m),
        }
    } else if value.len() >= 2 && value[0] == '<' && value[1] == '=' {
        match bound_of(value.skip(2)) {
            Ok(v) => Ok(QueryView::Range(RangeView { lte: Some(v), ..no_bounds(field) })),
            Err(m) => Err(m),
        }
    } else if value.len() >= 1 && value[0] == '>' {
        match bound_of(value.skip(1)) {
            Ok(v) => Ok(QueryView::Range(RangeView { gt: Some(v), ..no_bounds(field) })),
            Err(m) => Err(m),
        }
    } else if value.len() >= 1 && value[0] == '<' {
        match bound_of(value.skip(1)) {
            Ok(v) => Ok(QueryView::Range(RangeView { lt: Some(v), ..no_bounds(field) })),
            Err(m) => Err(m),
        }
    } else {
        plain_query(field, value)
    }
}

/// The clause at `i`: `field:value`, or a word by itself, which stands for that tag.
pub open spec fn clause(s: Seq<char>, i: int) -> Parsed {
    let e = word_stop(s, i);
    let word = s.subrange(i, e);
    let c = skip_space(s, e);
    if e == i {
        Err("unexpected end of query"@)
    } else if c < s.len() && s[c] == ':' {
        match value_at(s, c + 1) {
            Err(m) => Err(m),
            Ok((value, k)) => if value.len() == 0 {
                Err("missing value for field '"@ + word + "'"@)
            } else {
                match field_query(word, value) {
                    Ok(q) => Ok((q, k)),
                    Err(m) => Err(m),
                }
            },
        }
    } else {
        Ok(
            (
                QueryView::Term { field: "tag"@, value: JsonView::Text(word), fuzziness: None },
                e,
            ),
        )
    }
}

/// What a query contributes to a conjunction: what has to hold, and what must not.
pub open spec fn conjunct(q: QueryView) -> (Seq<QueryView>, Seq<QueryView>) {
    match q {
        QueryView::Bool { must, should, filter, must_not, minimum_should_match } => {
            let kept = if must.len() > 0 || filter.len() > 0 || should.len() > 0
                || minimum_should_match is Some {
                seq![
                    QueryView::Bool {
                        must,
                        should,
                        filter,
                        must_not: Seq::empty(),
                        minimum_should_match,
                    },
                ]
            } else {
                Seq::empty()
            };
            (kept, must_not)
        },
        _ => (seq![q], Seq::empty()),
    }
}

/// Both queries hold.
pub open spec fn both(left: QueryView, right: QueryView) -> QueryView {
    QueryView::Bool {
        must: conjunct(left).0 + conjunct(right).0,
        should: Seq::empty(),
        filter: Seq::empty(),
        must_not: conjunct(left).1 + conjunct(right).1,
        minimum_should_match: None,
    }
}

/// Whether a query is a combination of optional clauses alone, one of which has to hold, as `OR`
/// makes it.
pub open spec fn is_alternative(query: QueryView) -> bool {
    match query {
        QueryView::Bool { must, should, filter, must_not, minimum_should_match } => {
            &&& must.len() == 0
            &&& filter.len() == 0
            &&& must_not.len() == 0
            &&& should.len() > 0
            &&& minimum_should_match is None
        },
        _ => false,
    }
}

/// What a query contributes to a disjunction: its clauses where it is one itself, else the query
/// as a whole.
pub open spec fn disjunct(q: QueryView) -> Seq<QueryView> {
    if is_alternative(q) {
        q->should
    } else {
        seq![q]
    }
}

/// One of the queries holds.
pub open spec fn either(left: QueryView, right: QueryView) -> QueryView {
    QueryView::Bool {
        must: Seq::empty(),
        should: disjunct(left) + disjunct(right),
        filter: Seq::empty(),
        must_not: Seq::empty(),
        minimum_should_match: None,
    }
}

/// The left query holds and the right one does not.
pub open spec fn without(left: QueryView, right: QueryView) -> QueryView {
    match left {
        QueryView::Bool { must, should, filter, must_not, minimum_should_match } => {
            QueryView::Bool {
                must,
                should,
                filter,
                must_not: must_not + seq![right],
                minimum_should_match,
            }
        },
        _ => QueryView::Bool {
            must: seq![left],
            should: Seq::empty(),
            filter: Seq::empty(),
            must_not: seq![right],
            minimum_should_match: None,
        },
    }
}

/// A conjunction, then conjunctions joined to it by `OR` or `NOT`.
pub open spec fn or_expr(s: Seq<char>, i: int) -> Parsed
    decreases s.len() - i, 3int,
{
    match and_expr(s, i) {
        Ok((left, k)) if i < k <= s.len() => or_rest(s, k, left),
        other => other,
    }
}

/// What follows `left`, from position `i` on, joined to it by `OR` or `NOT`.
pub open spec fn or_rest(s: Seq<char>, i: int, left: QueryView) -> Parsed
    decreases s.len() - i, 2int,
{
    proof {
        lemma_skip_space(s, i);
    }
    let j = skip_space(s, i);
    if not_at(s, j) && ends_word(s, j + 3) {
        match and_expr(s, j + 3) {
            Ok((right, k)) if j + 3 < k <= s.len() => or_rest(s, k, without(left, right)),
            other => other,
        }
    } else if or_at(s, j) && ends_word(s, j + 2) {
        match and_expr(s, j + 2) {
            Ok((right, k)) if j + 2 < k <= s.len() => or_rest(s, k, either(left, right)),
            other => other,
        }
    } else {
        Ok((left, j))
    }
}

/// A clause or group, then clauses or groups joined to it by `AND` or by nothing.
pub open spec fn and_expr(s: Seq<char>, i: int) -> Parsed
    decreases s.len() - i, 2int,
{
    match primary(s, i) {
        Ok((left, k)) if i < k <= s.len() => and_rest(s, k, left),
        other => other,
    }
}

/// What follows `left`, from position `i` on, joined to it by `AND` or by nothing.
pub open spec fn and_rest(s: Seq<char>, i: int, left: QueryView) -> Parsed
    decreases s.len() - i, 1int,
{
    proof {
        lemma_skip_space(s, i);
    }
    let j = skip_space(s, i);
    if j >= s.len() || s[j] == ')' {
        Ok((left, j))
    } else if and_at(s, j) && ends_word(s, j + 3) {
        match primary(s, j + 3) {
            Ok((right, k)) if j + 3 < k <= s.len() => and_rest(s, k, both(left, right)),
            other => other,
        }
    } else if (or_at(s, j) && ends_word(s, j + 2)) || (not_at(s, j) && ends_word(s, j + 3)) {
        Ok((left, j))
    } else {
        match primary(s, j) {
            Ok((right, k)) if j < k <= s.len() => and_rest(s, k, both(left, right)),
            other => other,
        }
    }
}

/// A query in parentheses, or a clause.
pub open spec fn primary(s: Seq<char>, i: int) -> Parsed
    decreases s.len() - i, 0int,
{
    proof {
        lemma_skip_space(s, i);
    }
    let j = skip_space(s, i);
    if 0 <= j < s.len() && s[j] == '(' {
        match or_expr(s, j + 1) {
            Ok((q, k)) => {
                let c = skip_space(s, k);
                if c < s.len() && s[c] == ')' {
                    Ok((q, c + 1))
                } else {
                    Err("expected closing parenthesis"@)
                }
            },
            Err(m) => Err(m),
        }
    } else {
        clause(s, j)
    }
}

/// The query that a query string stands for, or what is wrong with it.
pub open spec fn query_of(s: Seq<char>) -> Result<QueryView, Seq<char>> {
    match or_expr(s, 0) {
        Ok((q, k)) => {
            let j = skip_space(s, k);
            if j < s.len() {
                Err("unexpected characters at end of query: '"@ + s.skip(j) + "'"@)
            } else {
                Ok(q)
            }
        },
        Err(m) => Err(m),
    }
}

pub(crate) proof fn lemma_word_stop(s: Seq<char>, i: int)
    requires
        0 <= i <= s.len(),
    ensures
        i <= word_stop(s, i) <= s.len(),
    decreases s.len() - i,
{
    if i < s.len() && is_word_char(s[i]) {
        lemma_word_stop(s, i + 1);
    }
}

pub(crate) proof fn lemma_value_stop(s: Seq<char>, i: int)
    requires
        0 <= i <= s.len(),
    ensures
        i <= value_stop(s, i) <= s.len(),
    decreases s.len() - i,
{
    if i < s.len() && !is_space(s[i]) && !operator_starts(s, i) {
        lemma_value_stop(s, i + 1);
    }
}

pub(crate) proof fn lemma_quote_stop(s: Seq<char>, i: int)
    requires
        0 <= i <= s.len(),
    ensures
        quote_stop(s, i) matches Some(k) ==> i <= k < s.len(),
    decreases s.len() - i,
{
    if i < s.len() {
        if s[i] == '\\' && i + 1 < s.len() {
            lemma_quote_stop(s, i + 2);
        } else if s[i] != '"' {
            lemma_quote_stop(s, i + 1);
        }
    }
}

/// A clause takes at least one character.
pub(crate) proof fn lemma_clause(s: Seq<char>, i: int)
    requires
        0 <= i <= s.len(),
    ensures
        clause(s, i) matches Ok((q, k)) ==> i < k <= s.len(),
{
    lemma_word_stop(s, i);
    let e = word_stop(s, i);
    lemma_skip_space(s, e);
    let c = skip_space(s, e);
    if c < s.len() {
        lemma_skip_space(s, c + 1);
        let j = skip_space(s, c + 1);
        lemma_value_stop(s, j);
        if j < s.len() {
            lemma_quote_stop(s, j + 1);
        }
    }
}

/// Each rule of the grammar takes at least one character.
pub(crate) proof fn lemma_progress(s: Seq<char>, i: int, level: int)
    requires
        0 <= i <= s.len(),
        0 <= level <= 2,
    ensures
        level == 0 ==> (primary(s, i) matches Ok((q, k)) ==> i < k <= s.len()),
        level == 1 ==> (and_expr(s, i) matches Ok((q, k)) ==> i < k <= s.len()),
        level == 2 ==> (or_expr(s, i) matches Ok((q, k)) ==> i < k <= s.len()),
    decreases s.len() - i, level + 2,
{
    lemma_skip_space(s, i);
    let j = skip_space(s, i);
    if level == 0 {
        if j < s.len() && s[j] == '(' {
            lemma_progress(s, j + 1, 2);
            if let Ok((q, k)) = or_expr(s, j + 1) {
                lemma_skip_space(s, k);
            }
        } else {
            lemma_clause(s, j);
        }
    } else if level == 1 {
        lemma_progress(s, i, 0);
        if let Ok((left, k)) = primary(s, i) {
            lemma_and_rest(s, k, left);
        }
    } else {
        lemma_progress(s, i, 1);
        if let Ok((left, k)) = and_expr(s, i) {
            lemma_or_rest(s, k, left);
        }
    }
}

pub(crate) proof fn lemma_and_rest(s: Seq<char>, i: int, left: QueryView)
    requires
        0 <= i <= s.len(),
    ensures
        and_rest(s, i, left) matches Ok((q, k)) ==> i <= k <= s.len(),
    decreases s.len() - i, 5int,
{
    lemma_skip_space(s, i);
    let j = skip_space(s, i);
    if j >= s.len() || s[j] == ')' {
    } else if and_at(s, j) && ends_word(s, j + 3) {
        lemma_progress(s, j + 3, 0);
        if let Ok((right, k)) = primary(s, j + 3) {
            lemma_and_rest(s, k, both(left, right));
        }
    } else if (or_at(s, j) && ends_word(s, j + 2)) || (not_at(s, j) && ends_word(s, j + 3)) {
    } else {
        lemma_progress(s, j, 0);
        if let Ok((right, k)) = primary(s, j) {
            lemma_and_rest(s, k, both(left, right));
        }
    }
}

pub(crate) proof fn lemma_or_rest(s: Seq<char>, i: int, left: QueryView)
    requires
        0 <= i <= s.len(),
    ensures
        or_rest(s, i, left) matches Ok((q, k)) ==> i <= k <= s.len(),
    decreases s.len() - i, 5int,
{
    lemma_skip_space(s, i);
    let j = skip_space(s, i);
    if not_at(s, j) && ends_word(s, j + 3) {
        lemma_progress(s, j + 3, 1);
        if let Ok((right, k)) = and_expr(s, j + 3) {
            lemma_or_rest(s, k, without(left, right));
        }
    } else if or_at(s, j) && ends_word(s, j + 2) {
        lemma_progress(s, j + 2, 1);
        if let Ok((right, k)) = and_expr(s, j + 2) {
            lemma_or_rest(s, k, either(left, right));
        }
    }
}

/// Whether an outcome of the parser is what the grammar says.
pub open spec fn agrees(r: Result<SearchQuery, CloudSearchError>, end: int, p: Parsed) -> bool {
    match r {
        Ok(q) => p == Parsed::Ok((q@, end)),
        Err(e) => p is Err && e@ == ErrorView::InvalidSearchRequest(p->Err_0),
    }
}

/// A single character of the grammar.
enum Token {
    Colon,
    Lparen,
    Rparen,
}

spec fn token_char(token: Token) -> char {
    match token {
        Token::Colon => ':',
        Token::Lparen => '(',
        Token::Rparen => ')',
    }
}

/// A query string and how far it has been read.
struct Parser {
    input: Vec<char>,
    pos: usize,
}

fn invalid(message: &str) -> (r: CloudSearchError)
    ensures
        r@ == ErrorView::InvalidSearchRequest(message@),
{
    CloudSearchError::InvalidSearchRequest(message.to_owned())
}

impl Parser {
    spec fn wf(&self) -> bool {
        self.pos <= self.input@.len()
    }

    fn new(input: &str) -> (r: Parser)
        ensures
            r.input@ == input@,
            r.pos == 0,
    {
        Parser { input: chars_of(input), pos: 0 }
    }

    /// The text between two positions.
    fn slice(&self, start: usize, end: usize) -> (r: String)
        requires
            start <= end <= self.input@.len(),
        ensures
            r@ == self.input@.subrange(start as int, end as int),
    {
        let mut r = String::new();
        let mut i: usize = start;
        proof {
            assert(self.input@.subrange(start as int, start as int) =~= Seq::empty());
        }
        while i < end
            invariant
                start <= i <= end <= self.input@.len(),
                r@ == self.input@.subrange(start as int, i as int),
            decreases end - i,
        {
            proof {
                assert(self.input@.subrange(start as int, i + 1) =~= self.input@.subrange(
                    start as int,
                    i as int,
                ).push(self.input@[i as int]));
            }
            r.push(self.input[i]);
            i += 1;
        }
        r
    }

    fn skip_whitespace(&mut self)
        requires
            old(self).wf(),
        ensures
            final(self).wf(),
            final(self).input == old(self).input,
            final(self).pos == skip_space(old(self).input@, old(self).pos as int),
    {
        while self.pos < self.input.len() && self.input[self.pos].is_whitespace()
            invariant
                self.wf(),
                self.input == old(self).input,
                skip_space(self.input@, self.pos as int) == skip_space(
                    old(self).input@,
                    old(self).pos as int,
                ),
            decreases self.input@.len() - self.pos,
        {
            self.pos += 1;
        }
    }

    /// Whether the character at `i` can stand in a word.
    fn word_char_at(&self, i: usize) -> (r: bool)
        requires
            i < self.input@.len(),
        ensures
            r == is_word_char(self.input@[i as int]),
    {
        let c = self.input[i];
        c.is_alphanumeric() || c == '_' || c == '-'
    }

    fn ends_word_at(&self, i: usize) -> (r: bool)
        ensures
            r == ends_word(self.input@, i as int),
    {
        i >= self.input.len() || !self.word_char_at(i)
    }

    fn is_and(&self, i: usize) -> (r: bool)
        requires
            i <= self.input@.len(),
        ensures
            r == and_at(self.input@, i as int),
            r ==> i + 3 <= usize::MAX,
    {
        self.input.len() - i >= 3 && self.input[i] == 'A' && self.input[i + 1] == 'N'
            && self.input[i + 2] == 'D'
    }

    fn is_or(&self, i: usize) -> (r: bool)
        requires
            i <= self.input@.len(),
        ensures
            r == or_at(self.input@, i as int),
            r ==> i + 2 <= usize::MAX,
    {
        self.input.len() - i >= 2 && self.input[i] == 'O' && self.input[i + 1] == 'R'
    }

    fn is_not(&self, i: usize) -> (r: bool)
        requires
            i <= self.input@.len(),
        ensures
            r == not_at(self.input@, i as int),
            r ==> i + 3 <= usize::MAX,
    {
        self.input.len() - i >= 3 && self.input[i] == 'N' && self.input[i + 1] == 'O'
            && self.input[i + 2] == 'T'
    }

    fn is_operator_word(&self) -> (r: bool)
        requires
            self.wf(),
        ensures
            r == operator_word(self.input@, self.pos as int),
    {
        (self.is_and(self.pos) && self.ends_word_at(self.pos + 3)) || (self.is_or(self.pos)
            && self.ends_word_at(self.pos + 2)) || (self.is_not(self.pos) && self.ends_word_at(
            self.pos + 3,
        ))
    }

    fn is_operator_start(&self) -> (r: bool)
        requires
            self.wf(),
        ensures
            r == operator_starts(self.input@, self.pos as int),
    {
        self.pos < self.input.len() && (self.input[self.pos] == '(' || self.input[self.pos] == ')')
    }

    /// Reads the word at the current position, which may be empty.
    fn read_word(&mut self) -> (r: String)
        requires
            old(self).wf(),
        ensures
            final(self).wf(),
            final(self).input == old(self).input,
            final(self).pos == word_stop(old(self).input@, old(self).pos as int),
            final(self).pos >= old(self).pos,
            r@ == old(self).input@.subrange(old(self).pos as int, final(self).pos as int),
    {
        let start: usize = self.pos;
        while self.pos < self.input.len() && self.word_char_at(self.pos)
            invariant
                self.wf(),
                start <= self.pos,
                self.input == old(self).input,
                word_stop(self.input@, self.pos as int) == word_stop(
                    old(self).input@,
                    old(self).pos as int,
                ),
            decreases self.input@.len() - self.pos,
        {
            self.pos += 1;
        }
        self.slice(start, self.pos)
    }

    fn read_quoted_string(&mut self) -> (r: Result<String, CloudSearchError>)
        requires
            old(self).pos < old(self).input@.len(),
        ensures
            final(self).wf(),
            final(self).input == old(self).input,
            match r {
                Ok(s) => quote_stop(old(self).input@, old(self).pos + 1) == Some(
                    final(self).pos - 1,
                ) && s@ == old(self).input@.subrange(old(self).pos + 1, final(self).pos - 1),
                Err(e) => quote_stop(old(self).input@, old(self).pos + 1) is None && e@
                    == ErrorView::InvalidSearchRequest("unclosed quoted string"@),
            },
    {
        let length: usize = self.input.len();
        self.pos += 1;
        let start: usize = self.pos;
        while self.pos < length
            invariant
                length == self.input@.len(),
                self.wf(),
                start <= self.pos,
                start == old(self).pos + 1,
                self.input == old(self).input,
                quote_stop(self.input@, self.pos as int) == quote_stop(
                    old(self).input@,
                    start as int,
                ),
            decreases self.input@.len() - self.pos,
        {
            let c = self.input[self.pos];
            if c == '\\' && self.pos + 1 < length {
                self.pos += 2;
            } else if c == '"' {
                let s = self.slice(start, self.pos);
                self.pos += 1;
                return Ok(s);
            } else {
                self.pos += 1;
            }
        }
        Err(invalid("unclosed quoted string"))
    }

    /// Reads the value at the current position: up to white space or a parenthesis, or in quotes.
    /// It is empty where an operator stands in its place.
    fn read_value(&mut self) -> (r: Result<String, CloudSearchError>)
        requires
            old(self).wf(),
        ensures
            final(self).wf(),
            final(self).input == old(self).input,
            match r {
                Ok(s) => value_at(old(self).input@, old(self).pos as int) == Ok::<_, Seq<char>>(
                    (s@, final(self).pos as int),
                ),
                Err(e) => value_at(old(self).input@, old(self).pos as int) is Err && e@
                    == ErrorView::InvalidSearchRequest(
                    value_at(old(self).input@, old(self).pos as int)->Err_0,
                ),
            },
    {
        self.skip_whitespace();
        if self.pos >= self.input.len() {
            return Ok(String::new());
        }
        if self.input[self.pos] == '"' {
            return self.read_quoted_string();
        }
        if self.is_operator_word() {
            return Ok(String::new());
        }
        let start: usize = self.pos;
        while self.pos < self.input.len() && !self.input[self.pos].is_whitespace()
            && !self.is_operator_start()
            invariant
                self.wf(),
                start <= self.pos,
                self.input == old(self).input,
                value_stop(self.input@, self.pos as int) == value_stop(
                    self.input@,
                    start as int,
                ),
            decreases self.input@.len() - self.pos,
        {
            self.pos += 1;
        }
        Ok(self.slice(start, self.pos))
    }

    /// Skips white space and, if it stands there, the token.
    fn skip(&mut self, token: Token) -> (r: bool)
        requires
            old(self).wf(),
        ensures
            final(self).wf(),
            final(self).input == old(self).input,
            ({
                let j = skip_space(old(self).input@, old(self).pos as int);
                &&& r == (j < old(self).input@.len() && old(self).input@[j] == token_char(token))
                &&& final(self).pos == if r {
                    j + 1
                } else {
                    j
                }
            }),
    {
        self.skip_whitespace();
        let wanted = match token {
            Token::Colon => ':',
            Token::Lparen => '(',
            Token::Rparen => ')',
        };
        if self.pos < self.input.len() && self.input[self.pos] == wanted {
            self.pos += 1;
            true
        } else {
            false
        }
    }

    fn expect(&mut self, token: Token, message: &str) -> (r: Result<(), CloudSearchError>)
        requires
            old(self).wf(),
        ensures
            final(self).wf(),
            final(self).input == old(self).input,
            ({
                let j = skip_space(old(self).input@, old(self).pos as int);
                match r {
                    Ok(_) => j < old(self).input@.len() && old(self).input@[j] == token_char(token)
                        && final(self).pos == j + 1,
                    Err(e) => !(j < old(self).input@.len() && old(self).input@[j] == token_char(
                        token,
                    )) && e@ == ErrorView::InvalidSearchRequest(message@),
                }
            }),
    {
        if self.skip(token) {
            Ok(())
        } else {
            Err(invalid(message))
        }
    }

    fn ensure_exhausted(&self) -> (r: Result<(), CloudSearchError>)
        requires
            self.wf(),
        ensures
            ({
                let j = skip_space(self.input@, self.pos as int);
                match r {
                    Ok(_) => j >= self.input@.len(),
                    Err(e) => j < self.input@.len() && e@ == ErrorView::InvalidSearchRequest(
                        "unexpected characters at end of query: '"@ + self.input@.skip(j) + "'"@,
                    ),
                }
            }),
    {
        let mut pos: usize = self.pos;
        while pos < self.input.len() && self.input[pos].is_whitespace()
            invariant
                pos <= self.input@.len(),
                skip_space(self.input@, pos as int) == skip_space(self.input@, self.pos as int),
            decreases self.input@.len() - pos,
        {
            pos += 1;
        }
        if pos < self.input.len() {
            let rest = self.slice(pos, self.input.len());
            proof {
                assert(self.input@.subrange(pos as int, self.input@.len() as int)
                    =~= self.input@.skip(pos as int));
            }
            Err(
                invalid(
                    cat3("unexpected characters at end of query: '", rest.as_str(), "'").as_str(),
                ),
            )
        } else {
            Ok(())
        }
    }

    /// Reads `field:value`, if that is what stands at the current position.
    fn try_parse_field_value(&mut self) -> (r: Result<Option<(String, String)>, CloudSearchError>)
        requires
            old(self).wf(),
        ensures
            final(self).wf(),
            final(self).input == old(self).input,
            ({
                let s = old(self).input@;
                let i = old(self).pos as int;
                let e = word_stop(s, i);
                let c = skip_space(s, e);
                let word = s.subrange(i, e);
                if e == i || !(c < s.len() && s[c] == ':') {
                    r == Ok::<_, CloudSearchError>(None::<(String, String)>) && final(self).pos == i
                } else {
                    match (r, value_at(s, c + 1)) {
                        (Ok(Some((field, value))), Ok((v, k))) => {
                            field@ == word && value@ == v && v.len() > 0 && final(self).pos == k
                        },
                        (Err(m), Ok((v, k))) => v.len() == 0 && final(self).pos == i && m@
                            == ErrorView::InvalidSearchRequest(
                            "missing value for field '"@ + word + "'"@,
                        ),
                        (Err(m), Err(n)) => m@ == ErrorView::InvalidSearchRequest(n),
                        _ => false,
                    }
                }
            }),
    {
        let start: usize = self.pos;
        let field = self.read_word();
        proof {
            lemma_skip_space(self.input@, self.pos as int);
        }
        if self.pos == start {
            return Ok(None);
        }
        if !self.skip(Token::Colon) {
            self.pos = start;
            return Ok(None);
        }
        match self.read_value() {
            Err(e) => Err(e),
            Ok(value) => if value.as_str().is_empty() {
                self.pos = start;
                Err(invalid(cat3("missing value for field '", field.as_str(), "'").as_str()))
            } else {
                Ok(Some((field, value)))
            },
        }
    }

    /// CLAUSE ::= FIELD ":" VALUE | WORD
    fn parse_clause(&mut self) -> (r: Result<SearchQuery, CloudSearchError>)
        requires
            old(self).wf(),
        ensures
            final(self).wf(),
            final(self).input == old(self).input,
            agrees(r, final(self).pos as int, clause(old(self).input@, old(self).pos as int)),
    {
        proof {
            lemma_word_stop(self.input@, self.pos as int);
        }
        match self.try_parse_field_value() {
            Err(e) => Err(e),
            Ok(Some((field, value))) => classify_and_build_query(field.as_str(), value.as_str()),
            Ok(None) => {
                let start: usize = self.pos;
                let word = self.read_word();
                if self.pos == start {
                    return Err(invalid("unexpected end of query"));
                }
                Ok(
                    SearchQuery::Term(
                        TermQuery {
                            field: "tag".to_owned(),
                            value: Json::Text(word),
                            fuzziness: None,
                        },
                    ),
                )
            },
        }
    }

    /// PRIMARY ::= "(" QUERY ")" | CLAUSE
    fn parse_primary(&mut self) -> (r: Result<SearchQuery, CloudSearchError>)
        requires
            old(self).wf(),
        ensures
            final(self).wf(),
            final(self).input == old(self).input,
            agrees(r, final(self).pos as int, primary(old(self).input@, old(self).pos as int)),
        decreases old(self).input@.len() - old(self).pos, 0int,
    {
        proof {
            lemma_skip_space(self.input@, self.pos as int);
        }
        if self.skip(Token::Lparen) {
            let query = match self.parse_query() {
                Ok(query) => query,
                Err(e) => {
                    return Err(e);
                },
            };
            match self.expect(Token::Rparen, "expected closing parenthesis") {
                Ok(_) => Ok(query),
                Err(e) => Err(e),
            }
        } else {
            self.parse_clause()
        }
    }

    /// `AND_EXPR` ::= PRIMARY ( "AND"? PRIMARY )*
    fn parse_and_expr(&mut self) -> (r: Result<SearchQuery, CloudSearchError>)
        requires
            old(self).wf(),
        ensures
            final(self).wf(),
            final(self).input == old(self).input,
            agrees(r, final(self).pos as int, and_expr(old(self).input@, old(self).pos as int)),
        decreases old(self).input@.len() - old(self).pos, 2int,
    {
        let ghost s = self.input@;
        let ghost start = self.pos as int;
        proof {
            lemma_progress(s, start, 0);
        }
        let mut left = match self.parse_primary() {
            Ok(left) => left,
            Err(e) => {
                return Err(e);
            },
        };
        loop
            invariant
                self.wf(),
                self.input == old(self).input,
                s == self.input@,
                start == old(self).pos,
                start < self.pos,
                and_expr(s, start) == and_rest(s, self.pos as int, left@),
            decreases self.input@.len() - self.pos,
        {
            let ghost before = self.pos as int;
            proof {
                lemma_skip_space(s, before);
            }
            self.skip_whitespace();
            if self.pos >= self.input.len() || self.input[self.pos] == ')' {
                return Ok(left);
            }
            if self.is_and(self.pos) && self.ends_word_at(self.pos + 3) {
                self.pos += 3;
            } else if (self.is_or(self.pos) && self.ends_word_at(self.pos + 2)) || (self.is_not(
                self.pos,
            ) && self.ends_word_at(self.pos + 3)) {
                return Ok(left);
            }
            proof {
                lemma_progress(s, self.pos as int, 0);
            }
            match self.parse_primary() {
                Ok(right) => {
                    left = make_bool_must(left, right);
                },
                Err(e) => {
                    return Err(e);
                },
            }
        }
    }

    /// `OR_EXPR` ::= `AND_EXPR` ( ( "OR" | "NOT" ) `AND_EXPR` )*
    fn parse_or_expr(&mut self) -> (r: Result<SearchQuery, CloudSearchError>)
        requires
            old(self).wf(),
        ensures
            final(self).wf(),
            final(self).input == old(self).input,
            agrees(r, final(self).pos as int, or_expr(old(self).input@, old(self).pos as int)),
        decreases old(self).input@.len() - old(self).pos, 3int,
    {
        let ghost s = self.input@;
        let ghost start = self.pos as int;
        proof {
            lemma_progress(s, start, 1);
        }
        let mut left = match self.parse_and_expr() {
            Ok(left) => left,
            Err(e) => {
                return Err(e);
            },
        };
        loop
            invariant
                self.wf(),
                self.input == old(self).input,
                s == self.input@,
                start == old(self).pos,
                start < self.pos,
                or_expr(s, start) == or_rest(s, self.pos as int, left@),
            decreases self.input@.len() - self.pos,
        {
            proof {
                lemma_skip_space(s, self.pos as int);
            }
            self.skip_whitespace();
            if self.is_not(self.pos) && self.ends_word_at(self.pos + 3) {
                self.pos += 3;
                proof {
                    lemma_progress(s, self.pos as int, 1);
                }
                match self.parse_and_expr() {
                    Ok(right) => {
                        left = make_bool_must_not_and(left, right);
                    },
                    Err(e) => {
                        return Err(e);
                    },
                }
            } else if self.is_or(self.pos) && self.ends_word_at(self.pos + 2) {
                self.pos += 2;
                proof {
                    lemma_progress(s, self.pos as int, 1);
                }
                match self.parse_and_expr() {
                    Ok(right) => {
                        left = make_bool_should(left, right);
                    },
                    Err(e) => {
                        return Err(e);
                    },
                }
            } else {
                return Ok(left);
            }
        }
    }

    /// QUERY ::= `OR_EXPR`
    fn parse_query(&mut self) -> (r: Result<SearchQuery, CloudSearchError>)
        requires
            old(self).wf(),
        ensures
            final(self).wf(),
            final(self).input == old(self).input,
            agrees(r, final(self).pos as int, or_expr(old(self).input@, old(self).pos as int)),
        decreases old(self).input@.len() - old(self).pos, 4int,
    {
        self.parse_or_expr()
    }
}

/// Reads a bound of a range.
fn parse_bound(s: &str) -> (r: Result<Json, CloudSearchError>)
    ensures
        match r {
            Ok(v) => bound_of(s@) == Ok::<JsonView, Seq<char>>(v@),
            Err(e) => bound_of(s@) is Err && e@ == ErrorView::InvalidSearchRequest(
                bound_of(s@)->Err_0,
            ),
        },
{
    match parse_numeric(s) {
        Some(v) => Ok(v),
        None => Err(invalid(cat3("invalid number '", s, "'").as_str())),
    }
}

/// The range without bounds.
fn open_range(field: &str) -> (r: RangeQuery)
    ensures
        r@ == no_bounds(field@),
{
    RangeQuery { field: field.to_owned(), gte: None, gt: None, lte: None, lt: None }
}

/// The text from position `start` on.
fn tail(chars: &Vec<char>, start: usize) -> (r: String)
    requires
        start <= chars@.len(),
    ensures
        r@ == chars@.skip(start as int),
{
    let mut r = String::new();
    let mut i: usize = start;
    proof {
        assert(chars@.subrange(start as int, start as int) =~= Seq::empty());
    }
    while i < chars.len()
        invariant
            start <= i <= chars@.len(),
            r@ == chars@.subrange(start as int, i as int),
        decreases chars@.len() - i,
    {
        proof {
            assert(chars@.subrange(start as int, i + 1) =~= chars@.subrange(
                start as int,
                i as int,
            ).push(chars@[i as int]));
        }
        r.push(chars[i]);
        i += 1;
    }
    proof {
        assert(chars@.subrange(start as int, i as int) =~= chars@.skip(start as int));
    }
    r
}

/// Where the first two dots stand.
fn find_dots(chars: &Vec<char>) -> (r: Option<usize>)
    ensures
        match r {
            Some(i) => dots_at(chars@, 0) == Some(i as int) && i + 2 <= chars@.len(),
            None => dots_at(chars@, 0) is None,
        },
{
    let mut i: usize = 0;
    while chars.len() - i >= 2
        invariant
            i <= chars@.len(),
            dots_at(chars@, 0) == dots_at(chars@, i as int),
        decreases chars@.len() - i,
    {
        if chars[i] == '.' && chars[i + 1] == '.' {
            return Some(i);
        }
        i += 1;
    }
    None
}

/// Whether `c` is one of the characters.
fn holds_char(chars: &Vec<char>, c: char) -> (r: bool)
    ensures
        r == chars@.contains(c),
{
    let mut i: usize = 0;
    while i < chars.len()
        invariant
            i <= chars@.len(),
            forall|j: int| 0 <= j < i ==> chars@[j] != c,
        decreases chars@.len() - i,
    {
        if chars[i] == c {
            return true;
        }
        i += 1;
    }
    false
}

/// The query for a plain value that was read as JSON, or could not be.
pub fn plain_term(field: &str, value: &str, parsed: Option<Json>) -> (r: SearchQuery)
    ensures
        r@ == (QueryView::Term {
            field: field@,
            value: match parsed {
                Some(v) => v@,
                None => JsonView::Text(value@),
            },
            fuzziness: None,
        }),
{
    let json = match parsed {
        Some(v) => v,
        None => Json::Text(value.to_owned()),
    };
    SearchQuery::Term(TermQuery { field: field.to_owned(), value: json, fuzziness: None })
}

/// The query for a value without a comparison in front.
fn build_plain_query(field: &str, value: &str) -> (r: Result<SearchQuery, CloudSearchError>)
    ensures
        match r {
            Ok(q) => plain_query(field@, value@) == Ok::<QueryView, Seq<char>>(q@),
            Err(e) => plain_query(field@, value@) is Err && e@ == ErrorView::InvalidSearchRequest(
                plain_query(field@, value@)->Err_0,
            ),
        },
{
    let chars = chars_of(value);
    if let Some(i) = find_dots(&chars) {
        if chars.len() > 2 {
            let head = string_of(vstd::slice::slice_subrange(chars.as_slice(), 0, i));
            proof {
                assert(value@.subrange(0, i as int) =~= value@.take(i as int));
            }
            let low = match parse_bound(head.as_str()) {
                Ok(low) => low,
                Err(e) => {
                    return Err(e);
                },
            };
            let high = match parse_bound(tail(&chars, i + 2).as_str()) {
                Ok(high) => high,
                Err(e) => {
                    return Err(e);
                },
            };
            return Ok(
                SearchQuery::Range(
                    RangeQuery { gte: Some(low), lte: Some(high), ..open_range(field) },
                ),
            );
        }
    }
    if holds_char(&chars, '*') || holds_char(&chars, '?') {
        return Ok(
            SearchQuery::Wildcard(
                WildcardQuery { field: field.to_owned(), value: value.to_owned() },
            ),
        );
    }
    Ok(plain_term(field, value, parse_json(value)))
}

/// Builds the query that `field:value` stands for.
pub fn classify_and_build_query(field: &str, value: &str) -> (r: Result<
    SearchQuery,
    CloudSearchError,
>)
    ensures
        match r {
            Ok(q) => field_query(field@, value@) == Ok::<QueryView, Seq<char>>(q@),
            Err(e) => field_query(field@, value@) is Err && e@ == ErrorView::InvalidSearchRequest(
                field_query(field@, value@)->Err_0,
            ),
        },
{
    let chars = chars_of(value);
    let greater: bool = chars.len() >= 1 && chars[0] == '>';
    let less: bool = chars.len() >= 1 && chars[0] == '<';
    if !greater && !less {
        return build_plain_query(field, value);
    }
    let inclusive: bool = chars.len() >= 2 && chars[1] == '=';
    let start: usize = if inclusive {
        2
    } else {
        1
    };
    let bound = match parse_bound(tail(&chars, start).as_str()) {
        Ok(bound) => bound,
        Err(e) => {
            return Err(e);
        },
    };
    let range = open_range(field);
    Ok(
        SearchQuery::Range(
            if greater && inclusive {
                RangeQuery { gte: Some(bound), ..range }
            } else if inclusive {
                RangeQuery { lte: Some(bound), ..range }
            } else if greater {
                RangeQuery { gt: Some(bound), ..range }
            } else {
                RangeQuery { lt: Some(bound), ..range }
            },
        ),
    )
}

/// Adds what a query contributes to a conjunction.
fn add_conjunct(must: &mut Vec<SearchQuery>, must_not: &mut Vec<SearchQuery>, query: SearchQuery)
    ensures
        query_views(final(must)@) == query_views(old(must)@) + conjunct(query@).0,
        query_views(final(must_not)@) == query_views(old(must_not)@) + conjunct(query@).1,
{
    let ghost view = query@;
    match query {
        SearchQuery::Bool(b) => {
            let ghost before = b;
            proof {
                assert(view == bool_view(before));
            }
            let BoolQuery {
                must: inner,
                should,
                filter,
                must_not: mut excluded,
                minimum_should_match,
            } = b;
            if inner.len() > 0 || filter.len() > 0 || should.len() > 0
                || minimum_should_match.is_some() {
                let kept = BoolQuery {
                    must: inner,
                    should,
                    filter,
                    must_not: Vec::new(),
                    minimum_should_match,
                };
                proof {
                    assert(query_views(kept.must_not@) =~= Seq::empty());
                    assert(SearchQuery::Bool(kept)@ == conjunct(view).0[0]);
                }
                must.push(SearchQuery::Bool(kept));
            }
            must_not.append(&mut excluded);
        },
        other => {
            must.push(other);
        },
    }
    proof {
        assert(query_views(must@) =~= query_views(old(must)@) + conjunct(view).0);
        assert(query_views(must_not@) =~= query_views(old(must_not)@) + conjunct(view).1);
    }
}

/// Combines two queries that both have to hold.
pub fn make_bool_must(left: SearchQuery, right: SearchQuery) -> (r: SearchQuery)
    ensures
        r@ == both(left@, right@),
{
    let mut must: Vec<SearchQuery> = Vec::new();
    let mut must_not: Vec<SearchQuery> = Vec::new();
    let ghost (l, r) = (left@, right@);
    proof {
        assert(query_views(must@) =~= Seq::empty());
        assert(query_views(must_not@) =~= Seq::empty());
    }
    add_conjunct(&mut must, &mut must_not, left);
    add_conjunct(&mut must, &mut must_not, right);
    let b = BoolQuery {
        must,
        should: Vec::new(),
        filter: Vec::new(),
        must_not,
        minimum_should_match: None,
    };
    proof {
        assert(query_views(b.must@) =~= conjunct(l).0 + conjunct(r).0);
        assert(query_views(b.must_not@) =~= conjunct(l).1 + conjunct(r).1);
        assert(query_views(b.should@) =~= Seq::empty());
        assert(query_views(b.filter@) =~= Seq::empty());
    }
    SearchQuery::Bool(b)
}

/// Adds what a query contributes to a disjunction.
fn add_disjunct(should: &mut Vec<SearchQuery>, query: SearchQuery)
    ensures
        query_views(final(should)@) == query_views(old(should)@) + disjunct(query@),
{
    let ghost view = query@;
    match query {
        SearchQuery::Bool(b) => {
            let ghost before = b;
            proof {
                assert(view == bool_view(before));
            }
            let mut b = b;
            if b.must.len() == 0 && b.filter.len() == 0 && b.must_not.len() == 0 && b.should.len()
                > 0 && b.minimum_should_match.is_none() {
                should.append(&mut b.should);
            } else {
                should.push(SearchQuery::Bool(b));
            }
        },
        other => {
            should.push(other);
        },
    }
    proof {
        assert(query_views(should@) =~= query_views(old(should)@) + disjunct(view));
    }
}

/// Combines two queries of which one has to hold.
pub fn make_bool_should(left: SearchQuery, right: SearchQuery) -> (r: SearchQuery)
    ensures
        r@ == either(left@, right@),
{
    let mut should: Vec<SearchQuery> = Vec::new();
    let ghost (l, r) = (left@, right@);
    proof {
        assert(query_views(should@) =~= Seq::empty());
    }
    add_disjunct(&mut should, left);
    add_disjunct(&mut should, right);
    let b = BoolQuery {
        must: Vec::new(),
        should,
        filter: Vec::new(),
        must_not: Vec::new(),
        minimum_should_match: None,
    };
    proof {
        assert(query_views(b.must@) =~= Seq::empty());
        assert(query_views(b.should@) =~= disjunct(l) + disjunct(r));
        assert(query_views(b.must_not@) =~= Seq::empty());
        assert(query_views(b.filter@) =~= Seq::empty());
    }
    SearchQuery::Bool(b)
}

/// Combines a query that has to hold with one that must not.
pub fn make_bool_must_not_and(left: SearchQuery, right: SearchQuery) -> (r: SearchQuery)
    ensures
        r@ == without(left@, right@),
{
    let ghost (l, r) = (left@, right@);
    match left {
        SearchQuery::Bool(b) => {
            let ghost before = b;
            proof {
                assert(l == bool_view(before));
            }
            let mut b = b;
            b.must_not.push(right);
            proof {
                assert(query_views(b.must_not@) =~= query_views(before.must_not@) + seq![r]);
            }
            SearchQuery::Bool(b)
        },
        other => {
            let mut must: Vec<SearchQuery> = Vec::new();
            must.push(other);
            let mut must_not: Vec<SearchQuery> = Vec::new();
            must_not.push(right);
            let b = BoolQuery {
                must,
                should: Vec::new(),
                filter: Vec::new(),
                must_not,
                minimum_should_match: None,
            };
            proof {
                assert(query_views(b.must@) =~= seq![l]);
                assert(query_views(b.must_not@) =~= seq![r]);
                assert(query_views(b.should@) =~= Seq::empty());
                assert(query_views(b.filter@) =~= Seq::empty());
            }
            SearchQuery::Bool(b)
        },
    }
}

/// Parses a query string: clauses joined by `AND`, by `OR`, by `NOT` or by nothing, and groups
/// of them in parentheses.
pub fn parse_query_string(input: &str) -> (r: Result<SearchQuery, CloudSearchError>)
    ensures
        match r {
            Ok(q) => query_of(input@) == Ok::<QueryView, Seq<char>>(q@),
            Err(e) => query_of(input@) is Err && e@ == ErrorView::InvalidSearchRequest(
                query_of(input@)->Err_0,
            ),
        },
{
    let mut parser = Parser::new(input);
    let query = match parser.parse_query() {
        Ok(query) => query,
        Err(e) => {
            return Err(e);
        },
    };
    match parser.ensure_exhausted() {
        Ok(_) => Ok(query),
        Err(e) => Err(e),
    }
}

} // verus!
