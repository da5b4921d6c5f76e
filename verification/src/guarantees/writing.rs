//! What clauses in query strings stand for.
use vstd::prelude::*;

use crate::json::JsonView;
use crate::json::NumberView;
use crate::json::parsed_json;
use crate::numbers::digits_value;
use crate::numbers::i64_of;
use crate::numbers::numeric_of;
use crate::query_string::and_expr;
use crate::query_string::and_rest;
use crate::query_string::clause;
use crate::query_string::dots_at;
use crate::query_string::field_query;
use crate::query_string::is_word_char;
use crate::query_string::operator_word;
use crate::query_string::or_expr;
use crate::query_string::or_rest;
use crate::query_string::primary;
use crate::query_string::query_of;
use crate::query_string::quote_stop;
use crate::query_string::skip_space;
use crate::query_string::value_at;
use crate::query_string::value_stop;
use crate::query_string::word_stop;
use crate::query_string::Parsed;
use crate::text::decimal;
use crate::text::is_space;
use crate::types::QueryView;
use crate::types::RangeView;

verus! {

/// Whether a text is a word: letters, numbers, hyphens and underscores, none of them white space,
/// and not empty.
pub open spec fn is_word(s: Seq<char>) -> bool {
    s.len() > 0 && forall|i: int|
        0 <= i < s.len() ==> is_word_char(#[trigger] s[i]) && !is_space(s[i])
}

proof fn lemma_word(s: Seq<char>, back: Seq<char>, i: int)
    requires
        forall|i: int| 0 <= i < s.len() ==> is_word_char(#[trigger] s[i]),
        back.len() > 0 ==> !is_word_char(back[0]),
        0 <= i <= s.len(),
    ensures
        word_stop(s + back, i) == s.len(),
    decreases s.len() - i,
{
    let t = s + back;
    if i < s.len() {
        assert(t[i] == s[i]);
        lemma_word(s, back, i + 1);
    } else if back.len() > 0 {
        assert(t[i] == back[0]);
    }
}

/// A clause that is all of a text is the query.
proof fn lemma_only_clause(s: Seq<char>)
    requires
        s.len() > 0,
        !is_space(s[0]),
        s[0] != '(',
        clause(s, 0) matches Ok((q, k)) ==> k == s.len(),
    ensures
        query_of(s) == (match clause(s, 0) {
            Ok((q, k)) => Ok::<QueryView, Seq<char>>(q),
            Err(m) => Err(m),
        }),
{
    let n = s.len() as int;
    assert(skip_space(s, 0) == 0);
    assert(primary(s, 0) == clause(s, 0));
    if let Ok((q, k)) = clause(s, 0) {
        assert(skip_space(s, n) == n);
        assert(and_rest(s, n, q) == Parsed::Ok((q, n)));
        assert(and_expr(s, 0) == Parsed::Ok((q, n)));
        assert(or_rest(s, n, q) == Parsed::Ok((q, n)));
        assert(or_expr(s, 0) == Parsed::Ok((q, n)));
    } else {
        assert(and_expr(s, 0) == clause(s, 0));
        assert(or_expr(s, 0) == clause(s, 0));
    }
}

/// A word by itself stands for that tag.
pub proof fn words_stand_for_tags(word: Seq<char>)
    requires
        is_word(word),
    ensures
        query_of(word) == Ok::<QueryView, Seq<char>>(
            QueryView::Term { field: "tag"@, value: JsonView::Text(word), fuzziness: None },
        ),
{
    let none = Seq::<char>::empty();
    assert(word + none =~= word);
    lemma_word(word, none, 0);
    assert(is_word_char(word[0]));
    assert(word.subrange(0, word.len() as int) =~= word);
    assert(skip_space(word, word.len() as int) == word.len());
    lemma_only_clause(word);
}

/// Whether a text can stand as a value without quotes: it is not empty, holds neither white space
/// nor a parenthesis, and does not begin with a quote or with an operator.
pub open spec fn is_bare_value(s: Seq<char>) -> bool {
    &&& s.len() > 0
    &&& forall|i: int|
        0 <= i < s.len() ==> !is_space(#[trigger] s[i]) && s[i] != '(' && s[i] != ')'
    &&& s[0] != '"'
    &&& !operator_word(s, 0)
}

proof fn lemma_value_stops_at_end(s: Seq<char>, i: int, from: int)
    requires
        0 <= from <= i <= s.len(),
        forall|i: int|
            from <= i < s.len() ==> !is_space(#[trigger] s[i]) && s[i] != '(' && s[i] != ')',
    ensures
        value_stop(s, i) == s.len(),
    decreases s.len() - i,
{
    if i < s.len() {
        lemma_value_stops_at_end(s, i + 1, from);
    }
}

proof fn lemma_operator_word_moved(p: Seq<char>, s: Seq<char>)
    ensures
        operator_word(p + s, p.len() as int) == operator_word(s, 0),
{
    let t = p + s;
    let n = p.len() as int;
    if s.len() > 0 {
        assert(t[n] == s[0]);
    }
    if s.len() > 1 {
        assert(t[n + 1] == s[1]);
    }
    if s.len() > 2 {
        assert(t[n + 2] == s[2]);
    }
    if s.len() > 3 {
        assert(t[n + 3] == s[3]);
    }
}

/// A word, a colon and a value stand for that value in the field of that name.
pub proof fn fields_and_values_are_parted_by_a_colon(field: Seq<char>, value: Seq<char>)
    requires
        is_word(field),
        is_bare_value(value),
    ensures
        query_of(field + seq![':'] + value) == field_query(field, value),
{
    let colon = seq![':'];
    let t = field + colon + value;
    let e = field.len() as int;
    assert(t =~= field + (colon + value));
    lemma_word(field, colon + value, 0);
    assert(is_word_char(field[0]));
    assert(t[0] == field[0]);
    assert(t[e] == ':');
    assert(skip_space(t, e) == e);
    assert(t.subrange(0, e) =~= field);
    assert(t[e + 1] == value[0]);
    assert(skip_space(t, e + 1) == e + 1);
    lemma_operator_word_moved(field + colon, value);
    assert forall|i: int| e + 1 <= i < t.len() implies !is_space(#[trigger] t[i]) && t[i] != '('
        && t[i] != ')' by {
        assert(t[i] == value[i - e - 1]);
    }
    lemma_value_stops_at_end(t, e + 1, e + 1);
    assert(t.subrange(e + 1, t.len() as int) =~= value);
    assert(value_at(t, e + 1) == Ok::<(Seq<char>, int), Seq<char>>((value, t.len() as int)));
    lemma_only_clause(t);
}

proof fn lemma_quote_at_end(s: Seq<char>, i: int, from: int)
    requires
        0 <= from <= i < s.len(),
        s[s.len() - 1] == '"',
        forall|i: int| from <= i < s.len() - 1 ==> #[trigger] s[i] != '"' && s[i] != '\\',
    ensures
        quote_stop(s, i) == Some(s.len() - 1),
    decreases s.len() - i,
{
    if i < s.len() - 1 {
        lemma_quote_at_end(s, i + 1, from);
    }
}

/// A value in quotes may hold white space, parentheses and operators.
pub proof fn quotes_hold_a_value_together(field: Seq<char>, value: Seq<char>)
    requires
        is_word(field),
        value.len() > 0,
        forall|i: int| 0 <= i < value.len() ==> #[trigger] value[i] != '"' && value[i] != '\\',
    ensures
        query_of(field + seq![':', '"'] + value + seq!['"']) == field_query(field, value),
{
    let colon = seq![':', '"'];
    let t = field + colon + value + seq!['"'];
    let e = field.len() as int;
    let n = t.len() as int;
    assert(t =~= field + (colon + value + seq!['"']));
    lemma_word(field, colon + value + seq!['"'], 0);
    assert(is_word_char(field[0]));
    assert(t[0] == field[0]);
    assert(t[e] == ':');
    assert(t[e + 1] == '"');
    assert(skip_space(t, e) == e);
    assert(t.subrange(0, e) =~= field);
    assert(skip_space(t, e + 1) == e + 1);
    assert forall|i: int| e + 2 <= i < n - 1 implies #[trigger] t[i] != '"' && t[i] != '\\' by {
        assert(t[i] == value[i - e - 2]);
    }
    lemma_quote_at_end(t, e + 2, e + 2);
    assert(t.subrange(e + 2, n - 1) =~= value);
    assert(value_at(t, e + 1) == Ok::<(Seq<char>, int), Seq<char>>((value, n)));
    lemma_only_clause(t);
}

/// A comparison in front of a number asks for a range with that bound, and one in front of anything
/// else is refused.
pub proof fn comparisons_ask_for_ranges(field: Seq<char>, number: Seq<char>)
    ensures
        ({
            let none = RangeView { field, gte: None, gt: None, lte: None, lt: None };
            let least = field_query(field, seq!['>', '='] + number);
            let greatest = field_query(field, seq!['<', '='] + number);
            let above = field_query(field, seq!['>'] + number);
            let below = field_query(field, seq!['<'] + number);
            let plain = number.len() == 0 || number[0] != '=';
            match numeric_of(number) {
                Some(v) => {
                    &&& least == Ok::<QueryView, Seq<char>>(
                        QueryView::Range(RangeView { gte: Some(v), ..none }),
                    )
                    &&& greatest == Ok::<QueryView, Seq<char>>(
                        QueryView::Range(RangeView { lte: Some(v), ..none }),
                    )
                    &&& plain ==> above == Ok::<QueryView, Seq<char>>(
                        QueryView::Range(RangeView { gt: Some(v), ..none }),
                    )
                    &&& plain ==> below == Ok::<QueryView, Seq<char>>(
                        QueryView::Range(RangeView { lt: Some(v), ..none }),
                    )
                },
                None => least is Err && greatest is Err && (plain ==> above is Err && below is Err),
            }
        }),
{
    assert((seq!['>', '='] + number).skip(2) =~= number);
    assert((seq!['<', '='] + number).skip(2) =~= number);
    let above = seq!['>'] + number;
    let below = seq!['<'] + number;
    assert(above.skip(1) =~= number);
    assert(below.skip(1) =~= number);
    if number.len() > 0 {
        assert(above[1] == number[0]);
        assert(below[1] == number[0]);
    }
}

proof fn lemma_dots_between(low: Seq<char>, high: Seq<char>, i: int)
    requires
        0 <= i <= low.len(),
        forall|j: int| 0 <= j < low.len() ==> #[trigger] low[j] != '.',
    ensures
        dots_at(low + seq!['.', '.'] + high, i) == Some(low.len() as int),
    decreases low.len() - i,
{
    let t = low + seq!['.', '.'] + high;
    if i < low.len() {
        assert(t[i] == low[i]);
        lemma_dots_between(low, high, i + 1);
    } else {
        assert(t[i] == '.' && t[i + 1] == '.');
    }
}

/// Two numbers with two dots between them ask for the range from the first to the second.
pub proof fn dots_ask_for_what_lies_between(field: Seq<char>, low: Seq<char>, high: Seq<char>)
    requires
        low.len() > 0 || high.len() > 0,
        forall|j: int| 0 <= j < low.len() ==> #[trigger] low[j] != '.',
        low.len() > 0 ==> low[0] != '<' && low[0] != '>',
    ensures
        match (numeric_of(low), numeric_of(high)) {
            (Some(a), Some(b)) => field_query(field, low + seq!['.', '.'] + high) == Ok::<
                QueryView,
                Seq<char>,
            >(
                QueryView::Range(
                    RangeView { field, gte: Some(a), gt: None, lte: Some(b), lt: None },
                ),
            ),
            _ => field_query(field, low + seq!['.', '.'] + high) is Err,
        },
{
    let t = low + seq!['.', '.'] + high;
    lemma_dots_between(low, high, 0);
    assert(t.take(low.len() as int) =~= low);
    assert(t.skip(low.len() as int + 2) =~= high);
    if low.len() > 0 {
        assert(t[0] == low[0]);
    } else {
        assert(t[0] == '.');
    }
}

proof fn lemma_no_dots(s: Seq<char>, i: int)
    requires
        0 <= i <= s.len(),
        forall|j: int| 0 < j < s.len() ==> !(s[j - 1] == '.' && #[trigger] s[j] == '.'),
    ensures
        dots_at(s, i) is None,
    decreases s.len() - i,
{
    if i + 2 <= s.len() {
        assert(!(s[i + 1 - 1] == '.' && s[i + 1] == '.'));
        lemma_no_dots(s, i + 1);
    }
}

/// A value without a comparison or two dots is a wildcard pattern where it holds an asterisk or a
/// question mark, else the JSON value that it is, else that text.
pub proof fn other_values_are_patterns_or_terms(field: Seq<char>, value: Seq<char>)
    requires
        value.len() > 0,
        value[0] != '<',
        value[0] != '>',
        forall|j: int| 0 < j < value.len() ==> !(value[j - 1] == '.' && #[trigger] value[j] == '.'),
    ensures
        field_query(field, value) == Ok::<QueryView, Seq<char>>(
            if exists|i: int| 0 <= i < value.len() && (#[trigger] value[i] == '*' || value[i] == '?') {
                QueryView::Wildcard { field, text: value }
            } else {
                QueryView::Term {
                    field,
                    value: match parsed_json(value) {
                        Some(v) => v,
                        None => JsonView::Text(value),
                    },
                    fuzziness: None,
                }
            },
        ),
{
    lemma_no_dots(value, 0);
    if exists|i: int| 0 <= i < value.len() && (#[trigger] value[i] == '*' || value[i] == '?') {
        let i = choose|i: int|
            0 <= i < value.len() && (#[trigger] value[i] == '*' || value[i] == '?');
        assert(value.contains('*') || value.contains('?'));
    }
}

proof fn lemma_decimal_is_read(n: nat)
    ensures
        decimal(n).len() > 0,
        crate::numbers::all_digits(decimal(n)),
        digits_value(decimal(n)) == n,
    decreases n,
{
    let s = decimal(n);
    if n >= 10 {
        lemma_decimal_is_read(n / 10);
        assert(s.drop_last() =~= decimal(n / 10));
        assert(s.last() as int == 48 + n % 10);
        assert forall|i: int| 0 <= i < s.len() implies crate::numbers::is_digit(
            #[trigger] s[i],
        ) by {
            if i < s.len() - 1 {
                assert(s[i] == decimal(n / 10)[i]);
                assert(crate::numbers::is_digit(decimal(n / 10)[i]));
            }
        }
    } else {
        assert(s.drop_last() =~= Seq::empty());
        assert(digits_value(s.drop_last()) == 0);
        assert(s.last() as int == 48 + n);
    }
}

/// The digits of a number are read as that number, with a sign in front or without.
pub proof fn numbers_are_read_as_they_are_written(n: nat)
    requires
        n < 0x8000_0000_0000_0000,
    ensures
        numeric_of(decimal(n)) == Some(JsonView::Number(NumberView::PosInt(n as u64))),
        numeric_of(seq!['+'] + decimal(n)) == Some(JsonView::Number(NumberView::PosInt(n as u64))),
        n > 0 ==> numeric_of(seq!['-'] + decimal(n)) == Some(
            JsonView::Number(NumberView::NegInt((-(n as int)) as i64)),
        ),
{
    let s = decimal(n);
    lemma_decimal_is_read(n);
    assert(crate::numbers::is_digit(s[0]));
    assert((seq!['+'] + s).drop_first() =~= s);
    assert((seq!['-'] + s).drop_first() =~= s);
}

/// A field without a value is refused.
pub proof fn fields_want_a_value(field: Seq<char>)
    requires
        is_word(field),
    ensures
        query_of(field + seq![':']) is Err,
{
    let t = field + seq![':'];
    let e = field.len() as int;
    lemma_word(field, seq![':'], 0);
    assert(is_word_char(field[0]));
    assert(t[0] == field[0]);
    assert(t[e] == ':');
    assert(skip_space(t, e) == e);
    assert(skip_space(t, e + 1) == e + 1);
    lemma_only_clause(t);
}

proof fn lemma_no_quote(s: Seq<char>, i: int, from: int)
    requires
        0 <= from <= i,
        forall|i: int| from <= i < s.len() ==> #[trigger] s[i] != '"',
    ensures
        quote_stop(s, i) is None,
    decreases s.len() - i,
{
    if i < s.len() {
        if s[i] == '\\' && i + 1 < s.len() {
            lemma_no_quote(s, i + 2, from);
        } else {
            lemma_no_quote(s, i + 1, from);
        }
    }
}

/// A quote that nothing closes is refused.
pub proof fn quotes_want_closing(field: Seq<char>, value: Seq<char>)
    requires
        is_word(field),
        forall|i: int| 0 <= i < value.len() ==> #[trigger] value[i] != '"',
    ensures
        query_of(field + seq![':', '"'] + value) is Err,
{
    let colon = seq![':', '"'];
    let t = field + colon + value;
    let e = field.len() as int;
    assert(t =~= field + (colon + value));
    lemma_word(field, colon + value, 0);
    assert(is_word_char(field[0]));
    assert(t[0] == field[0]);
    assert(t[e] == ':');
    assert(t[e + 1] == '"');
    assert(skip_space(t, e) == e);
    assert(skip_space(t, e + 1) == e + 1);
    assert forall|i: int| e + 2 <= i < t.len() implies #[trigger] t[i] != '"' by {
        assert(t[i] == value[i - e - 2]);
    }
    lemma_no_quote(t, e + 2, e + 2);
    lemma_only_clause(t);
}

proof fn lemma_all_space(s: Seq<char>, i: int)
    requires
        0 <= i <= s.len(),
        forall|i: int| 0 <= i < s.len() ==> is_space(#[trigger] s[i]),
    ensures
        skip_space(s, i) == s.len(),
    decreases s.len() - i,
{
    if i < s.len() {
        lemma_all_space(s, i + 1);
    }
}

/// White space alone is no query.
pub proof fn white_space_is_no_query(s: Seq<char>)
    requires
        forall|i: int| 0 <= i < s.len() ==> is_space(#[trigger] s[i]),
    ensures
        query_of(s) is Err,
{
    lemma_all_space(s, 0);
    let n = s.len() as int;
    assert(word_stop(s, n) == n);
    assert(clause(s, n) is Err);
    assert(primary(s, 0) == clause(s, n));
    assert(and_expr(s, 0) is Err);
    assert(or_expr(s, 0) is Err);
}

/// What holds anything but digits behind an optional sign, or no digit, is no integer.
pub proof fn integers_hold_digits_alone(s: Seq<char>, i: int)
    requires
        s.len() == 0 || (0 <= i < s.len() && !('0' <= s[i] <= '9') && (i > 0 || (s[0] != '+' && s[0]
            != '-'))),
    ensures
        i64_of(s) is None,
{
    if s.len() > 0 {
        if s[0] == '+' || s[0] == '-' {
            assert(s.drop_first()[i - 1] == s[i]);
            assert(!crate::numbers::is_digit(s.drop_first()[i - 1]));
        } else {
            assert(!crate::numbers::is_digit(s[i]));
        }
    }
}

/// Of the ASCII characters, a word can hold letters, digits, the hyphen and the underscore.
pub proof fn words_hold_letters_digits_and_two_signs(c: char)
    requires
        (c as int) < 0x80,
    ensures
        is_word_char(c) <==> 48 <= c as int <= 57 || 65 <= c as int <= 90 || 97 <= c as int <= 122
            || c == '-' || c == '_',
{
}

proof fn lemma_quote_behind(s: Seq<char>, i: int, from: int, to: int)
    requires
        0 <= from <= i <= to < s.len(),
        forall|i: int| from <= i < to ==> #[trigger] s[i] != '"' && s[i] != '\\',
    ensures
        quote_stop(s, i) == quote_stop(s, to),
    decreases to - i,
{
    if i < to {
        lemma_quote_behind(s, i + 1, from, to);
    }
}

/// A backslash in quotes takes the character behind it along, even a quote, and both stay in the
/// value.
pub proof fn backslashes_take_a_character_along(
    field: Seq<char>,
    a: Seq<char>,
    c: char,
    b: Seq<char>,
)
    requires
        is_word(field),
        forall|i: int| 0 <= i < a.len() ==> #[trigger] a[i] != '"' && a[i] != '\\',
        forall|i: int| 0 <= i < b.len() ==> #[trigger] b[i] != '"' && b[i] != '\\',
    ensures
        query_of(field + seq![':', '"'] + (a + seq!['\\', c] + b) + seq!['"']) == field_query(
            field,
            a + seq!['\\', c] + b,
        ),
{
    let colon = seq![':', '"'];
    let value = a + seq!['\\', c] + b;
    let t = field + colon + value + seq!['"'];
    let e = field.len() as int;
    let n = t.len() as int;
    let at = e + 2 + a.len() as int;
    assert(t =~= field + (colon + value + seq!['"']));
    lemma_word(field, colon + value + seq!['"'], 0);
    assert(is_word_char(field[0]));
    assert(t[0] == field[0]);
    assert(t[e] == ':');
    assert(t[e + 1] == '"');
    assert(skip_space(t, e) == e);
    assert(t.subrange(0, e) =~= field);
    assert(skip_space(t, e + 1) == e + 1);
    assert forall|i: int| e + 2 <= i < at implies #[trigger] t[i] != '"' && t[i] != '\\' by {
        assert(t[i] == a[i - e - 2]);
    }
    assert(t[at] == '\\');
    lemma_quote_behind(t, e + 2, e + 2, at);
    assert(quote_stop(t, at) == quote_stop(t, at + 2));
    assert forall|i: int| at + 2 <= i < n - 1 implies #[trigger] t[i] != '"' && t[i] != '\\' by {
        assert(t[i] == b[i - at - 2]);
    }
    assert(t[n - 1] == '"');
    lemma_quote_at_end(t, at + 2, at + 2);
    assert(t.subrange(e + 2, n - 1) =~= value);
    assert(value_at(t, e + 1) == Ok::<(Seq<char>, int), Seq<char>>((value, n)));
    lemma_only_clause(t);
}

/// An operator in the place of a value is no value: the field is refused.
pub proof fn operators_are_no_values(field: Seq<char>, word: Seq<char>, back: Seq<char>)
    requires
        is_word(field),
        back.len() > 0 ==> !is_word_char(back[0]),
        word == seq!['A', 'N', 'D'] || word == seq!['O', 'R'] || word == seq!['N', 'O', 'T'],
    ensures
        query_of(field + seq![':'] + (word + back)) is Err,
{
    let colon = seq![':'];
    let value = word + back;
    let t = field + colon + value;
    let e = field.len() as int;
    assert(t =~= field + (colon + value));
    lemma_word(field, colon + value, 0);
    assert(is_word_char(field[0]));
    assert(t[0] == field[0]);
    assert(t[e] == ':');
    assert(skip_space(t, e) == e);
    assert(value[0] == word[0] && value[1] == word[1]);
    if word.len() == 3 {
        assert(value[2] == word[2]);
    }
    if back.len() > 0 {
        assert(value[word.len() as int] == back[0]);
    }
    assert(operator_word(value, 0));
    lemma_operator_word_moved(field + colon, value);
    assert(t[e + 1] == value[0]);
    assert(skip_space(t, e + 1) == e + 1);
    assert(value_at(t, e + 1) == Ok::<(Seq<char>, int), Seq<char>>((Seq::empty(), e + 1)));
    assert(clause(t, 0) is Err);
    lemma_only_clause(t);
}

} // verus!
