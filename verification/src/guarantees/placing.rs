//! Where the words of documents are noted.
use vstd::arithmetic::div_mod::lemma_fundamental_div_mod;
use vstd::prelude::*;
use vstd::utf8::encode_utf8;

use crate::guarantees::matching::listed_in_order;
use crate::guarantees::matching::phrases_find_words_that_stand_in_order;
use crate::guarantees::matching::stand_in_order;
use crate::json::JsonView;
use crate::matching::query_score;
use crate::positions::document_positions;
use crate::positions::find_from;
use crate::positions::lemma_find_from;
use crate::positions::member_positions;
use crate::positions::occurrences;
use crate::positions::stands_at;
use crate::positions::term_positions;
use crate::positions::text_positions;
use crate::positions::word_positions;
use crate::positions::ReaderView;
use crate::text::lower_all;
use crate::text::tokens;
use crate::text::tokens_are_lower_case_words;
use crate::types::QueryView;

verus! {

/// Whether the bytes of `word` stand in `text` from byte `p` on.
pub open spec fn is_written_at(text: Seq<u8>, word: Seq<u8>, p: int) -> bool {
    &&& 0 <= p
    &&& p + word.len() <= text.len()
    &&& forall|i: int| 0 <= i < word.len() ==> text[p + i] == #[trigger] word[i]
}

proof fn lemma_written(text: Seq<u8>, word: Seq<u8>, p: int)
    ensures
        stands_at(text, word, p) <==> is_written_at(text, word, p),
{
    if 0 <= p && p + word.len() <= text.len() {
        let part = text.subrange(p, p + word.len());
        if is_written_at(text, word, p) {
            assert(part =~= word);
        }
        if part == word {
            assert forall|i: int| 0 <= i < word.len() implies text[p + i] == #[trigger] word[i] by {
                assert(part[i] == word[i]);
            }
        }
    }
}

/// Whether a list has the places of a word from a byte on, one after the other: the word stands
/// at each, and each place at which it stands lies within one that is listed.
pub open spec fn are_places_from(places: Seq<u32>, text: Seq<u8>, word: Seq<u8>, from: int) -> bool {
    &&& forall|i: int|
        0 <= i < places.len() ==> from <= #[trigger] places[i] && is_written_at(
            text,
            word,
            places[i] as int,
        )
    &&& forall|i: int, j: int|
        0 <= i < j < places.len() ==> #[trigger] places[i] + word.len() <= #[trigger] places[j]
    &&& forall|p: int|
        from <= p <= u32::MAX && #[trigger] is_written_at(text, word, p) ==> exists|i: int|
            0 <= i < places.len() && #[trigger] places[i] <= p < places[i] + word.len()
}

proof fn lemma_occurrences_are_places(text: Seq<u8>, word: Seq<u8>, from: int)
    requires
        word.len() > 0,
        0 <= from,
    ensures
        are_places_from(occurrences(text, word, from), text, word, from),
    decreases text.len() - from,
{
    lemma_find_from(text, word, from);
    let places = occurrences(text, word, from);
    match find_from(text, word, from) {
        None => {
            assert forall|p: int|
                from <= p <= u32::MAX && #[trigger] is_written_at(text, word, p) implies exists|i:
                int,
            | 0 <= i < places.len() && #[trigger] places[i] <= p < places[i] + word.len() by {
                lemma_written(text, word, p);
            }
        },
        Some(at) => {
            lemma_written(text, word, at);
            if at <= u32::MAX {
                let next = at + word.len() as int;
                let rest = occurrences(text, word, next);
                lemma_occurrences_are_places(text, word, next);
                assert(places =~= seq![at as u32] + rest);
                assert forall|i: int| 0 <= i < places.len() implies from <= #[trigger] places[i]
                    && is_written_at(text, word, places[i] as int) by {
                    if i > 0 {
                        assert(places[i] == rest[i - 1]);
                    }
                }
                assert forall|i: int, j: int| 0 <= i < j < places.len() implies #[trigger] places[i]
                    + word.len() <= #[trigger] places[j] by {
                    assert(places[j] == rest[j - 1]);
                    if i > 0 {
                        assert(places[i] == rest[i - 1]);
                    }
                }
                assert forall|p: int|
                    from <= p <= u32::MAX && #[trigger] is_written_at(text, word, p) implies exists|
                    i: int,
                | 0 <= i < places.len() && #[trigger] places[i] <= p < places[i] + word.len() by {
                    lemma_written(text, word, p);
                    if p < next {
                        assert(places[0] <= p < places[0] + word.len());
                    } else {
                        let i = choose|i: int|
                            0 <= i < rest.len() && #[trigger] rest[i] <= p < rest[i] + word.len();
                        assert(places[i + 1] == rest[i]);
                    }
                }
            } else {
                lemma_occurrences_are_places(text, word, at + 1);
                assert forall|p: int|
                    from <= p <= u32::MAX && #[trigger] is_written_at(text, word, p) implies exists|
                    i: int,
                | 0 <= i < places.len() && #[trigger] places[i] <= p < places[i] + word.len() by {
                    lemma_written(text, word, p);
                }
            }
        },
    }
}

/// Whether a list is another one, written out some number of times.
pub open spec fn repeats(list: Seq<u32>, once: Seq<u32>) -> bool {
    &&& once.len() > 0
    &&& list.len() > 0
    &&& list.len() as int % once.len() as int == 0
    &&& forall|i: int|
        0 <= i < list.len() ==> #[trigger] list[i] == once[i % (once.len() as int)]
}

proof fn lemma_one_more_time(list: Seq<u32>, once: Seq<u32>)
    requires
        repeats(list, once),
    ensures
        repeats(list + once, once),
{
    let n = once.len() as int;
    let m = list.len() as int;
    let more = list + once;
    lemma_fundamental_div_mod(m, n);
    assert forall|i: int| 0 <= i < more.len() implies #[trigger] more[i] == once[i % n] by {
        if i >= m {
            let x = i - m;
            assert(i == n * (m / n) + x);
            vstd::arithmetic::div_mod::lemma_fundamental_div_mod_converse(i, n, m / n, x);
        } else {
            assert(more[i] == list[i]);
        }
    }
    assert((m + n) % n == 0) by {
        vstd::arithmetic::mul::lemma_mul_is_distributive_add(n, m / n, 1);
        vstd::arithmetic::div_mod::lemma_fundamental_div_mod_converse(m + n, n, m / n + 1, 0);
    }
}

proof fn lemma_word_repeats(text: Seq<u8>, words: Seq<Seq<char>>, k: int, word: Seq<char>)
    requires
        0 <= k <= words.len(),
    ensures
        ({
            let once = occurrences(text, encode_utf8(word), 0);
            let noted = word_positions(text, words, k);
            &&& noted.contains_key(word) <==> words.take(k).contains(word) && once.len() > 0
            &&& noted.contains_key(word) ==> repeats(noted[word], once)
        }),
    decreases k,
{
    let once = occurrences(text, encode_utf8(word), 0);
    if k > 0 {
        lemma_word_repeats(text, words, k - 1, word);
        let before = word_positions(text, words, k - 1);
        let less = words.take(k - 1);
        let more = words.take(k);
        assert(more =~= less.push(words[k - 1]));
        if less.contains(word) {
            let i = choose|i: int| 0 <= i < less.len() && less[i] == word;
            assert(more[i] == word);
        }
        if words[k - 1] == word {
            assert(more[k - 1] == word);
            if once.len() > 0 {
                if before.contains_key(word) {
                    lemma_one_more_time(before[word], once);
                } else {
                    assert forall|i: int| 0 <= i < once.len() implies #[trigger] once[i] == once[i
                        % (once.len() as int)] by {
                        vstd::arithmetic::div_mod::lemma_small_mod(i as nat, once.len());
                    }
                    assert(repeats(once, once));
                }
            }
        } else if more.contains(word) {
            let i = choose|i: int| 0 <= i < more.len() && more[i] == word;
            assert(less[i] == word);
        }
    }
}

/// A list that is written out several times is in order where it ascends.
proof fn lemma_repeats_in_order(list: Seq<u32>, once: Seq<u32>)
    requires
        repeats(list, once),
        forall|i: int, j: int| 0 <= i < j < once.len() ==> #[trigger] once[i] < #[trigger] once[j],
    ensures
        listed_in_order(list),
{
    let n = once.len() as int;
    assert forall|i: int, j: int|
        0 <= i < j < list.len() && #[trigger] list[i] > #[trigger] list[j] implies exists|k: int|
        0 <= k < i && list[k] == list[j] by {
        lemma_fundamental_div_mod(i, n);
        lemma_fundamental_div_mod(j, n);
        let x = i % n;
        let y = j % n;
        assert(0 <= x < n && 0 <= y < n);
        assert(once[x] > once[y]);
        assert(y < x) by {
            if x < y {
                assert(once[x] < once[y]);
            }
        }
        let k = i - x + y;
        assert(k == n * (i / n) + y);
        assert(n * (i / n) >= 0) by {
            vstd::arithmetic::div_mod::lemma_div_pos_is_pos(i, n);
            vstd::arithmetic::mul::lemma_mul_nonnegative(n, i / n);
        }
        vstd::arithmetic::div_mod::lemma_fundamental_div_mod_converse(k, n, i / n, y);
        assert(list[k] == once[k % n]);
    }
}

proof fn lemma_bytes_of_word(word: Seq<char>)
    requires
        word.len() > 0,
    ensures
        encode_utf8(word).len() > 0,
{
    if encode_utf8(word).len() == 0 {
        vstd::utf8::encode_utf8_decode_utf8(word);
        vstd::utf8::encode_utf8_decode_utf8(Seq::<char>::empty());
        assert(encode_utf8(word) =~= Seq::empty());
        assert(encode_utf8(Seq::<char>::empty()) =~= Seq::empty());
    }
}

/// Of a text, the words are noted that stand in it, each with the places at which it stands in the
/// lower case text, as bytes: none is left out that does not overlap with another, and they are
/// listed in order, as often as the word comes.
pub proof fn words_are_noted_where_they_stand(text: Seq<char>, word: Seq<char>)
    requires
        word.len() > 0,
    ensures
        ({
            let bytes = encode_utf8(lower_all(text));
            let noted = text_positions(text);
            &&& noted.contains_key(word) <==> tokens(text).contains(word) && exists|p: int|
                p <= u32::MAX && #[trigger] is_written_at(bytes, encode_utf8(word), p)
            &&& noted.contains_key(word) ==> listed_in_order(noted[word]) && exists|
                once: Seq<u32>,
            | #[trigger] repeats(noted[word], once) && are_places_from(
                once,
                bytes,
                encode_utf8(word),
                0,
            )
        }),
{
    let bytes = encode_utf8(lower_all(text));
    let noted = text_positions(text);
    let words = tokens(text);
    let once = occurrences(bytes, encode_utf8(word), 0);
    lemma_bytes_of_word(word);
    lemma_occurrences_are_places(bytes, encode_utf8(word), 0);
    lemma_word_repeats(bytes, words, words.len() as int, word);
    assert(words.take(words.len() as int) =~= words);
    if once.len() > 0 {
        assert(is_written_at(bytes, encode_utf8(word), once[0] as int));
    }
    if exists|p: int| p <= u32::MAX && #[trigger] is_written_at(bytes, encode_utf8(word), p) {
        let p = choose|p: int|
            p <= u32::MAX && #[trigger] is_written_at(bytes, encode_utf8(word), p);
        let i = choose|i: int|
            0 <= i < once.len() && #[trigger] once[i] <= p < once[i] + encode_utf8(word).len();
        assert(once.len() > 0);
    }
    if noted.contains_key(word) {
        assert forall|i: int, j: int| 0 <= i < j < once.len() implies #[trigger] once[i]
            < #[trigger] once[j] by {}
        lemma_repeats_in_order(noted[word], once);
        assert(repeats(noted[word], once));
    }
}

proof fn lemma_member_positions(members: Seq<(Seq<char>, JsonView)>, k: int, word: Seq<char>)
    requires
        0 <= k <= members.len(),
    ensures
        match member_positions(members, k).contains_key(word) {
            true => exists|i: int|
                0 <= i < k && (#[trigger] members[i]).1 is Text && text_positions(
                    members[i].1->Text_0,
                ).contains_key(word) && member_positions(members, k)[word] == text_positions(
                    members[i].1->Text_0,
                )[word] && forall|j: int|
                    i < j < k && (#[trigger] members[j]).1 is Text ==> !text_positions(
                        members[j].1->Text_0,
                    ).contains_key(word),
            false => forall|i: int|
                0 <= i < k && (#[trigger] members[i]).1 is Text ==> !text_positions(
                    members[i].1->Text_0,
                ).contains_key(word),
        },
    decreases k,
{
    if k > 0 {
        lemma_member_positions(members, k - 1, word);
        let last = members[k - 1];
        if last.1 is Text && text_positions(last.1->Text_0).contains_key(word) {
            assert(members[k - 1].1 is Text);
        } else if member_positions(members, k - 1).contains_key(word) {
            let i = choose|i: int|
                0 <= i < k - 1 && (#[trigger] members[i]).1 is Text && text_positions(
                    members[i].1->Text_0,
                ).contains_key(word) && member_positions(members, k - 1)[word] == text_positions(
                    members[i].1->Text_0,
                )[word] && forall|j: int|
                    i < j < k - 1 && (#[trigger] members[j]).1 is Text ==> !text_positions(
                        members[j].1->Text_0,
                    ).contains_key(word);
            assert(members[i].1 is Text);
        }
    }
}

/// Of a document, the words of its texts are noted: each as the last of the texts has it in which
/// it stands.
pub proof fn documents_note_the_words_of_their_texts(
    members: Seq<(Seq<char>, JsonView)>,
    word: Seq<char>,
)
    ensures
        ({
            let noted = document_positions(JsonView::Object(members));
            if noted.contains_key(word) {
                exists|i: int|
                    0 <= i < members.len() && (#[trigger] members[i]).1 is Text && text_positions(
                        members[i].1->Text_0,
                    ).contains_key(word) && noted[word] == text_positions(
                        members[i].1->Text_0,
                    )[word] && forall|j: int|
                        i < j < members.len() && (#[trigger] members[j]).1 is Text
                            ==> !text_positions(members[j].1->Text_0).contains_key(word)
            } else {
                forall|i: int|
                    0 <= i < members.len() && (#[trigger] members[i]).1 is Text ==> !text_positions(
                        members[i].1->Text_0,
                    ).contains_key(word)
            }
        }),
{
    lemma_member_positions(members, members.len() as int, word);
}

proof fn lemma_noted_in_order(source: JsonView, word: Seq<char>)
    requires
        word.len() > 0,
        document_positions(source).contains_key(word),
    ensures
        listed_in_order(document_positions(source)[word]),
{
    if let JsonView::Object(members) = source {
        documents_note_the_words_of_their_texts(members, word);
        let i = choose|i: int|
            0 <= i < members.len() && (#[trigger] members[i]).1 is Text && text_positions(
                members[i].1->Text_0,
            ).contains_key(word) && document_positions(source)[word] == text_positions(
                members[i].1->Text_0,
            )[word] && forall|j: int|
                i < j < members.len() && (#[trigger] members[j]).1 is Text ==> !text_positions(
                    members[j].1->Text_0,
                ).contains_key(word);
        words_are_noted_where_they_stand(members[i].1->Text_0, word);
    }
}

/// Where each segment has the positions that were noted of a document, a phrase finds the document
/// if and only if the phrase has at least two words and these stand in order in one of the segments:
/// each of them, at a position behind that of the word before it.
pub proof fn phrases_find_noted_words_that_stand_in_order(
    source: JsonView,
    field: Seq<char>,
    phrase: Seq<char>,
    text: Seq<char>,
    doc_id: u64,
    readers: Seq<ReaderView>,
    noted: Seq<JsonView>,
)
    requires
        source.member(field) == Some(JsonView::Text(text)),
        noted.len() == readers.len(),
        forall|r: int, word: Seq<char>|
            0 <= r < readers.len() ==> #[trigger] term_positions(readers[r], word, doc_id) == (
            if document_positions(noted[r]).contains_key(word) {
                document_positions(noted[r])[word]
            } else {
                Seq::empty()
            }),
    ensures
        query_score(source, QueryView::Phrase { field, text: phrase }, doc_id, readers) is Some
            <==> tokens(phrase).len() >= 2 && exists|r: int, places: Seq<u32>|
            0 <= r < readers.len() && #[trigger] stand_in_order(
                places,
                readers[r],
                tokens(phrase),
                doc_id,
                encode_utf8(text).len(),
            ),
{
    let words = tokens(phrase);
    tokens_are_lower_case_words(phrase);
    phrases_find_words_that_stand_in_order(source, field, phrase, doc_id, readers);
    assert forall|r: int, i: int| 0 <= r < readers.len() && 0 <= i < words.len() implies
        listed_in_order(term_positions(#[trigger] readers[r], #[trigger] words[i], doc_id)) by {
        assert(crate::text::is_token(words[i]));
        if document_positions(noted[r]).contains_key(words[i]) {
            lemma_noted_in_order(noted[r], words[i]);
        }
    }
    if words.len() >= 2 && exists|r: int, places: Seq<u32>|
        0 <= r < readers.len() && #[trigger] stand_in_order(
            places,
            readers[r],
            words,
            doc_id,
            encode_utf8(text).len(),
        ) {
        let (r, places) = choose|r: int, places: Seq<u32>|
            0 <= r < readers.len() && #[trigger] stand_in_order(
                places,
                readers[r],
                words,
                doc_id,
                encode_utf8(text).len(),
            );
        assert forall|i: int| 0 <= i < words.len() implies listed_in_order(
            term_positions(readers[r], #[trigger] words[i], doc_id),
        ) by {
            assert(listed_in_order(term_positions(readers[r], words[i], doc_id)));
        }
        assert(stand_in_order(places, readers[r], words, doc_id, encode_utf8(text).len()));
    }
}

} // verus!
