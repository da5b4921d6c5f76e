//! How texts are ordered and split into words.
use vstd::prelude::*;

use crate::text::is_space;
use crate::text::lemma_word_end;
use crate::text::lower_all;
use crate::text::text_lt;
use crate::text::tokens;
use crate::text::tokens_from;
use crate::text::word_end;

verus! {

/// Whether the texts are the same up to position `k`, where the first ends or has the character
/// that comes earlier.
pub open spec fn parts_at(a: Seq<char>, b: Seq<char>, k: int) -> bool {
    &&& 0 <= k <= a.len()
    &&& k < b.len()
    &&& forall|i: int| 0 <= i < k ==> #[trigger] a[i] == b[i]
    &&& k == a.len() || (a[k] as int) < (b[k] as int)
}

/// Whether the first text stands before the second in the order of a dictionary.
pub open spec fn stands_before(a: Seq<char>, b: Seq<char>) -> bool {
    exists|k: int| parts_at(a, b, k)
}

/// Texts are ordered by the first character in which they differ, and a text comes after each of
/// its beginnings.
pub proof fn texts_are_ordered_as_in_a_dictionary(a: Seq<char>, b: Seq<char>)
    ensures
        text_lt(a, b) <==> stands_before(a, b),
    decreases a.len(),
{
    if b.len() == 0 {
    } else if a.len() == 0 {
        assert(parts_at(a, b, 0));
    } else if a[0] != b[0] {
        if (a[0] as int) < (b[0] as int) {
            assert(parts_at(a, b, 0));
        }
    } else {
        let x = a.drop_first();
        let y = b.drop_first();
        texts_are_ordered_as_in_a_dictionary(x, y);
        if stands_before(x, y) {
            let k = choose|k: int| parts_at(x, y, k);
            assert forall|i: int| 0 <= i < k + 1 implies #[trigger] a[i] == b[i] by {
                if i > 0 {
                    assert(x[i - 1] == y[i - 1]);
                }
            }
            assert(parts_at(a, b, k + 1));
        }
        if stands_before(a, b) {
            let k = choose|k: int| parts_at(a, b, k);
            assert(k > 0);
            assert forall|i: int| 0 <= i < k - 1 implies #[trigger] x[i] == y[i] by {
                assert(a[i + 1] == b[i + 1]);
            }
            assert(parts_at(x, y, k - 1));
        }
    }
}

proof fn lemma_word_end_of_part(s: Seq<char>, t: Seq<char>, i: int)
    requires
        0 <= i <= s.len(),
        s.len() < t.len(),
        forall|k: int| 0 <= k < s.len() ==> #[trigger] t[k] == s[k],
        is_space(t[s.len() as int]),
    ensures
        word_end(t, i) == word_end(s, i),
    decreases s.len() - i,
{
    if i < s.len() {
        assert(t[i] == s[i]);
        if !is_space(s[i]) {
            lemma_word_end_of_part(s, t, i + 1);
        }
    }
}

proof fn lemma_word_end_shifts(s: Seq<char>, t: Seq<char>, shift: int, i: int)
    requires
        0 <= i <= s.len(),
        0 <= shift,
        t.len() == s.len() + shift,
        forall|k: int| 0 <= k < s.len() ==> t[#[trigger] (k + shift)] == s[k],
    ensures
        word_end(t, i + shift) == word_end(s, i) + shift,
    decreases s.len() - i,
{
    if i < s.len() {
        assert(t[i + shift] == s[i]);
        if !is_space(s[i]) {
            lemma_word_end_shifts(s, t, shift, i + 1);
        }
    }
}

proof fn lemma_tokens_shift(s: Seq<char>, t: Seq<char>, shift: int, i: int)
    requires
        0 <= i <= s.len(),
        0 <= shift,
        t.len() == s.len() + shift,
        forall|k: int| 0 <= k < s.len() ==> t[#[trigger] (k + shift)] == s[k],
    ensures
        tokens_from(t, i + shift) == tokens_from(s, i),
    decreases s.len() - i,
{
    if i < s.len() {
        assert(t[i + shift] == s[i]);
        if is_space(s[i]) {
            lemma_tokens_shift(s, t, shift, i + 1);
        } else {
            lemma_word_end(s, i);
            let e = word_end(s, i);
            lemma_word_end_shifts(s, t, shift, i);
            lemma_tokens_shift(s, t, shift, e);
            let word = s.subrange(i, e);
            let other = t.subrange(i + shift, e + shift);
            assert forall|k: int| 0 <= k < word.len() implies #[trigger] word[k] == other[k] by {
                assert(t[(i + k) + shift] == s[i + k]);
            }
            assert(word =~= other);
        }
    }
}

proof fn lemma_tokens_of_part(a: Seq<char>, space: char, b: Seq<char>, i: int)
    requires
        0 <= i <= a.len(),
        is_space(space),
    ensures
        tokens_from(a + seq![space] + b, i) == tokens_from(a, i) + tokens(b),
    decreases a.len() - i,
{
    let whole = a + seq![space] + b;
    let n = a.len() as int;
    if i >= n {
        assert(whole[n] == space);
        assert forall|k: int| 0 <= k < b.len() implies whole[#[trigger] (k + (n + 1))] == b[k] by {}
        lemma_tokens_shift(b, whole, n + 1, 0);
        assert(tokens_from(whole, n) == tokens_from(whole, n + 1));
        assert(tokens_from(a, i) + tokens(b) =~= tokens(b));
    } else {
        assert(whole[i] == a[i]);
        if is_space(a[i]) {
            lemma_tokens_of_part(a, space, b, i + 1);
        } else {
            lemma_word_end(a, i);
            let e = word_end(a, i);
            assert(whole[n] == space);
            assert forall|k: int| 0 <= k < a.len() implies #[trigger] whole[k] == a[k] by {}
            lemma_word_end_of_part(a, whole, i);
            lemma_tokens_of_part(a, space, b, e);
            assert(whole.subrange(i, e) =~= a.subrange(i, e));
            let word = seq![lower_all(a.subrange(i, e))];
            assert(word + (tokens_from(a, e) + tokens(b)) =~= word + tokens_from(a, e) + tokens(b));
        }
    }
}

/// White space separates words: what stands before and after it is split on its own.
pub proof fn white_space_separates_words(a: Seq<char>, space: char, b: Seq<char>)
    requires
        is_space(space),
    ensures
        tokens(a + seq![space] + b) == tokens(a) + tokens(b),
{
    lemma_tokens_of_part(a, space, b, 0);
}

/// A text without white space is one word, with its ASCII capitals in lower case, and the empty
/// text is none.
pub proof fn text_without_white_space_is_one_word(text: Seq<char>)
    requires
        forall|i: int| 0 <= i < text.len() ==> !is_space(#[trigger] text[i]),
    ensures
        text.len() == 0 ==> tokens(text) == Seq::<Seq<char>>::empty(),
        text.len() > 0 ==> tokens(text).len() == 1 && tokens(text)[0].len() == text.len()
            && forall|i: int|
            0 <= i < text.len() ==> #[trigger] tokens(text)[0][i] as int == (if 65
                <= text[i] as int <= 90 {
                text[i] as int + 32
            } else {
                text[i] as int
            }),
{
    if text.len() > 0 {
        lemma_word_end(text, 0);
        let e = word_end(text, 0);
        assert(!is_space(text[0]));
        if e < text.len() {
            assert(!is_space(text[e]));
        }
        assert(text.subrange(0, e) =~= text);
        assert(tokens_from(text, e) =~= Seq::empty());
        assert(tokens(text) =~= seq![lower_all(text)]);
    }
}

} // verus!
