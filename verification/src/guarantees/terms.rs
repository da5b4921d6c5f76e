//! What queries for values, words and forms find.
use vstd::prelude::*;

use crate::json::find_member;
use crate::json::JsonView;
use crate::json::NumberView;
use crate::matching::count_known;
use crate::matching::query_score;
use crate::matching::regex_match;
use crate::matching::wildcard_parts;
use crate::matching::wildcard_regex;
use crate::matching::ScoreView;
use crate::positions::ReaderView;
use crate::text::tokens;
use crate::types::Fuzziness;
use crate::types::QueryView;

verus! {

/// A member of an object is found by its name, the first where several have it.
pub proof fn members_are_found_by_name(members: Seq<(Seq<char>, JsonView)>, name: Seq<char>)
    ensures
        match JsonView::Object(members).member(name) {
            Some(value) => exists|i: int|
                0 <= i < members.len() && #[trigger] members[i] == (name, value) && forall|j: int|
                    0 <= j < i ==> (#[trigger] members[j]).0 != name,
            None => forall|i: int| 0 <= i < members.len() ==> (#[trigger] members[i]).0 != name,
        },
    decreases members.len(),
{
    if members.len() > 0 {
        let rest = members.drop_first();
        if members[0].0 == name {
            assert(members[0] == (name, members[0].1));
        } else {
            members_are_found_by_name(rest, name);
            match find_member(rest, name) {
                Some(value) => {
                    let i = choose|i: int|
                        0 <= i < rest.len() && #[trigger] rest[i] == (name, value) && forall|j: int|
                            0 <= j < i ==> (#[trigger] rest[j]).0 != name;
                    assert(members[i + 1] == (name, value));
                    assert forall|j: int| 0 <= j < i + 1 implies (#[trigger] members[j]).0
                        != name by {
                        if j > 0 {
                            assert(rest[j - 1] == members[j]);
                        }
                    }
                },
                None => {
                    assert forall|i: int| 0 <= i < members.len() implies (#[trigger] members[i]).0
                        != name by {
                        if i > 0 {
                            assert(rest[i - 1] == members[i]);
                        }
                    }
                },
            }
        }
    }
}

/// Nothing but an object has members.
pub proof fn only_objects_have_members(value: JsonView, name: Seq<char>)
    ensures
        !(value is Object) ==> value.member(name) is None,
{
}

/// Whether a value is equal to another if and only if it is the same: a text, a boolean, an integer
/// or null.
pub open spec fn is_simple(value: JsonView) -> bool {
    match value {
        JsonView::Null => true,
        JsonView::Bool(_) => true,
        JsonView::Text(_) => true,
        JsonView::Number(NumberView::Float(_, _)) => false,
        JsonView::Number(_) => true,
        _ => false,
    }
}

/// A term finds the documents that have that value in the field, with full score. Fuzziness makes
/// a difference between texts only.
pub proof fn terms_find_their_value(
    source: JsonView,
    field: Seq<char>,
    value: JsonView,
    fuzziness: Option<Fuzziness>,
    doc_id: u64,
    readers: Seq<ReaderView>,
)
    requires
        is_simple(value),
        fuzziness is None || !(value is Text) || !(source.member(field) matches Some(found)
            && found is Text),
    ensures
        query_score(source, QueryView::Term { field, value, fuzziness }, doc_id, readers) == (
        if source.member(field) == Some(value) {
            Some(ScoreView::One)
        } else {
            None
        }),
{
}

/// A list of terms finds the documents that have one of the values in the field.
pub proof fn lists_of_terms_find_each_of_their_values(
    source: JsonView,
    field: Seq<char>,
    values: Seq<JsonView>,
    doc_id: u64,
    readers: Seq<ReaderView>,
)
    requires
        forall|i: int| 0 <= i < values.len() ==> is_simple(#[trigger] values[i]),
    ensures
        query_score(source, QueryView::Terms { field, values }, doc_id, readers) == (
        if source.member(field) matches Some(found) && values.contains(found) {
            Some(ScoreView::One)
        } else {
            None
        }),
{
    if let Some(found) = source.member(field) {
        if values.contains(found) {
            let i = choose|i: int| 0 <= i < values.len() && values[i] == found;
            assert(crate::json::json_eq(values[i], found));
        }
        if exists|i: int| 0 <= i < values.len() && crate::json::json_eq(#[trigger] values[i], found) {
            let i = choose|i: int|
                0 <= i < values.len() && crate::json::json_eq(#[trigger] values[i], found);
            assert(values[i] == found);
        }
    }
}

/// A prefix finds the documents whose text in the field it begins.
pub proof fn prefixes_find_texts_that_they_begin(
    source: JsonView,
    field: Seq<char>,
    prefix: Seq<char>,
    doc_id: u64,
    readers: Seq<ReaderView>,
)
    ensures
        query_score(source, QueryView::Prefix { field, text: prefix }, doc_id, readers) == (
        if exists|rest: Seq<char>|
            source.member(field) == Some(JsonView::Text(#[trigger] (prefix + rest))) {
            Some(ScoreView::One)
        } else {
            None
        }),
{
    if let Some(JsonView::Text(text)) = source.member(field) {
        if prefix.len() <= text.len() && text.take(prefix.len() as int) == prefix {
            assert(text =~= prefix + text.skip(prefix.len() as int));
        }
        assert forall|rest: Seq<char>| text == #[trigger] (prefix + rest) implies prefix.len()
            <= text.len() && text.take(prefix.len() as int) == prefix by {
            assert(text.take(prefix.len() as int) =~= prefix);
        }
    }
}

/// A query that finds everything finds every document with full score.
pub proof fn everything_is_found(source: JsonView, doc_id: u64, readers: Seq<ReaderView>)
    ensures
        query_score(source, QueryView::MatchAll, doc_id, readers) == Some(ScoreView::One),
{
}

proof fn lemma_known(words: Seq<Seq<char>>, known: Seq<Seq<char>>)
    ensures
        count_known(words, known) == words.filter(|word: Seq<char>| known.contains(word)).len(),
        count_known(words, known) > 0 <==> exists|i: int|
            0 <= i < words.len() && known.contains(#[trigger] words[i]),
    decreases words.len(),
{
    reveal(Seq::filter);
    if words.len() > 0 {
        let before = words.drop_last();
        lemma_known(before, known);
        if known.contains(words.last()) {
            assert(known.contains(words[words.len() - 1]));
        }
        if exists|i: int| 0 <= i < before.len() && known.contains(#[trigger] before[i]) {
            let i = choose|i: int| 0 <= i < before.len() && known.contains(#[trigger] before[i]);
            assert(known.contains(words[i]));
        }
        if exists|i: int| 0 <= i < words.len() && known.contains(#[trigger] words[i]) {
            let i = choose|i: int| 0 <= i < words.len() && known.contains(#[trigger] words[i]);
            if i < before.len() {
                assert(known.contains(before[i]));
            }
        }
    }
}

/// A match query finds the documents whose text in the field has a word with it in common. Its
/// score is the share of its words that the text has.
pub proof fn matches_share_a_word(
    source: JsonView,
    field: Seq<char>,
    text: Seq<char>,
    wanted: Seq<char>,
    doc_id: u64,
    readers: Seq<ReaderView>,
)
    ensures
        ({
            let score = query_score(
                source,
                QueryView::Match { field, text: wanted },
                doc_id,
                readers,
            );
            &&& !(source.member(field) matches Some(value) && value is Text) ==> score is None
            &&& source.member(field) == Some(JsonView::Text(text)) ==> {
                &&& score is Some <==> exists|i: int|
                    0 <= i < tokens(wanted).len() && tokens(text).contains(
                        #[trigger] tokens(wanted)[i],
                    )
                &&& score matches Some(s) ==> s == (ScoreView::Ratio {
                    matched: tokens(wanted).filter(
                        |word: Seq<char>| tokens(text).contains(word),
                    ).len(),
                    total: tokens(wanted).len(),
                })
            }
        }),
{
    lemma_known(tokens(wanted), tokens(text));
}

/// A wildcard pattern finds the documents whose whole text in the field its regular expression
/// matches.
pub proof fn wildcards_are_matched_against_the_whole_text(
    source: JsonView,
    field: Seq<char>,
    pattern: Seq<char>,
    doc_id: u64,
    readers: Seq<ReaderView>,
)
    ensures
        query_score(source, QueryView::Wildcard { field, text: pattern }, doc_id, readers) == (
        if source.member(field) matches Some(JsonView::Text(text)) && regex_match(
            wildcard_regex(pattern),
            text,
        ) == Some(true) {
            Some(ScoreView::One)
        } else {
            None
        }),
        wildcard_regex(pattern) == seq!['^'] + wildcard_parts(pattern) + seq!['$'],
{
}

/// The parts of a pattern are written one after the other.
pub proof fn wildcards_are_written_part_by_part(a: Seq<char>, b: Seq<char>)
    ensures
        wildcard_parts(a + b) == wildcard_parts(a) + wildcard_parts(b),
        wildcard_parts(Seq::<char>::empty()) == Seq::<char>::empty(),
    decreases b.len(),
{
    if b.len() == 0 {
        assert(a + b =~= a);
        assert(wildcard_parts(a) + wildcard_parts(b) =~= wildcard_parts(a));
    } else {
        assert((a + b).drop_last() =~= a + b.drop_last());
        wildcards_are_written_part_by_part(a, b.drop_last());
        assert(wildcard_parts(a + b) =~= wildcard_parts(a) + wildcard_parts(b));
    }
}

/// An asterisk stands for anything, a question mark for any one character. A letter, a digit or a
/// space stands for itself, and so does, behind a backslash, what means something else in a regular
/// expression.
pub proof fn wildcards_stand_for_what_they_match(c: char)
    ensures
        c == '*' ==> wildcard_parts(seq![c]) == seq!['.', '*'],
        c == '?' ==> wildcard_parts(seq![c]) == seq!['.'],
        'a' <= c <= 'z' || 'A' <= c <= 'Z' || '0' <= c <= '9' || c == ' ' || c == '_'
            ==> wildcard_parts(seq![c]) == seq![c],
        c == '.' || c == '\\' || c == '+' || c == '(' || c == ')' || c == '|' || c == '[' || c
            == ']' || c == '{' || c == '}' || c == '^' || c == '$' ==> wildcard_parts(seq![c])
            == seq!['\\', c],
{
    let pattern = seq![c];
    assert(pattern.drop_last() =~= Seq::empty());
    assert(wildcard_parts(pattern) =~= crate::matching::wildcard_part(c)) by {
        assert(wildcard_parts(pattern.drop_last()) =~= Seq::empty());
    }
}

} // verus!
