//! Where the words of a document stand in its texts.
use vstd::prelude::*;
use vstd::utf8::encode_utf8;

use crate::json::lemma_object_view;
use crate::json::member_views;
use crate::json::Json;
use crate::json::JsonView;
use crate::map::StringMap;
use crate::text::is_token;
use crate::text::lower_all;
use crate::text::lower_text;
use crate::text::tokenize;
use crate::text::tokens;
use crate::text::tokens_are_lower_case_words;
use crate::text::views;
use crate::types::IndexDocument;

verus! {

/// The positions of a term in one document.
#[derive(Debug)]
pub struct Posting {
    pub doc_id: u64,
    pub positions: Vec<u32>,
}

/// What a [`Posting`] stands for.
pub ghost struct PostingView {
    pub doc_id: u64,
    pub positions: Seq<u32>,
}

impl View for Posting {
    type V = PostingView;

    open spec fn view(&self) -> PostingView {
        PostingView { doc_id: self.doc_id, positions: self.positions@ }
    }
}

/// The postings of each term of a segment.
#[derive(Debug)]
pub struct PositionsReader {
    pub terms: StringMap<Vec<Posting>>,
}

/// The views of a list of postings.
pub open spec fn posting_views(postings: Seq<Posting>) -> Seq<PostingView> {
    Seq::new(postings.len(), |i: int| postings[i]@)
}

/// What a [`PositionsReader`] stands for: the postings of each term.
pub type ReaderView = Map<Seq<char>, Seq<PostingView>>;

impl View for PositionsReader {
    type V = ReaderView;

    open spec fn view(&self) -> ReaderView {
        self.terms@.map_values(|postings: Vec<Posting>| posting_views(postings@))
    }
}

/// The views of a list of readers.
pub open spec fn reader_views(readers: Seq<PositionsReader>) -> Seq<ReaderView> {
    Seq::new(readers.len(), |i: int| readers[i]@)
}

/// The hash of a document id.
pub uninterp spec fn doc_id_hash(id: Seq<char>) -> u64;

/// `DefaultHasher` hashes a text. One made by `DefaultHasher::new` is the same as any other made
/// so, and the claim is that the hash depends on the text alone.
#[verifier::external_body]
fn default_hash(text: &str) -> (r: u64)
    ensures
        r == doc_id_hash(text@),
{
    let mut hasher = std::collections::hash_map::DefaultHasher::new();
    std::hash::Hash::hash(text, &mut hasher);
    std::hash::Hasher::finish(&hasher)
}

/// The number by which postings name a document.
pub fn hash_doc_id(id: &str) -> (r: u64)
    ensures
        r == doc_id_hash(id@),
{
    default_hash(id)
}

/// The positions of the postings of that document, in the order in which they are listed.
pub open spec fn positions_in(postings: Seq<PostingView>, doc_id: u64) -> Seq<u32>
    decreases postings.len(),
{
    if postings.len() == 0 {
        Seq::empty()
    } else if postings.last().doc_id == doc_id {
        positions_in(postings.drop_last(), doc_id) + postings.last().positions
    } else {
        positions_in(postings.drop_last(), doc_id)
    }
}

/// The positions of a term in a document.
pub open spec fn term_positions(reader: ReaderView, term: Seq<char>, doc_id: u64) -> Seq<u32> {
    if reader.contains_key(term) {
        positions_in(reader[term], doc_id)
    } else {
        Seq::empty()
    }
}

impl PositionsReader {
    /// The positions of a term in a document.
    pub fn positions_of(&self, term: &str, doc_id: u64) -> (r: Vec<u32>)
        ensures
            r@ == term_positions(self@, term@, doc_id),
    {
        let mut r: Vec<u32> = Vec::new();
        if let Some(postings) = self.terms.get(term) {
            let ghost all = posting_views(postings@);
            let mut i: usize = 0;
            proof {
                assert(self@[term@] == all);
                assert(all.take(0) =~= Seq::empty());
            }
            while i < postings.len()
                invariant
                    i <= postings@.len(),
                    all == posting_views(postings@),
                    r@ == positions_in(all.take(i as int), doc_id),
                decreases postings@.len() - i,
            {
                let posting = &postings[i];
                proof {
                    assert(all.take(i + 1).drop_last() =~= all.take(i as int));
                    assert(all.take(i + 1).last() == posting@);
                }
                if posting.doc_id == doc_id {
                    let ghost before = r@;
                    let mut j: usize = 0;
                    while j < posting.positions.len()
                        invariant
                            j <= posting.positions@.len(),
                            r@ == before + posting.positions@.take(j as int),
                        decreases posting.positions@.len() - j,
                    {
                        proof {
                            assert(posting.positions@.take(j + 1) =~= posting.positions@.take(
                                j as int,
                            ).push(posting.positions@[j as int]));
                        }
                        r.push(posting.positions[j]);
                        j += 1;
                    }
                    proof {
                        assert(posting.positions@.take(j as int) =~= posting.positions@);
                    }
                }
                i += 1;
            }
            proof {
                assert(all.take(i as int) =~= all);
            }
        }
        r
    }
}

/// Whether `token` stands in `text` at `i`.
pub open spec fn stands_at(text: Seq<u8>, token: Seq<u8>, i: int) -> bool {
    0 <= i && i + token.len() <= text.len() && text.subrange(i, i + token.len()) == token
}

/// The first position from `from` on at which `token` stands in `text`.
pub open spec fn find_from(text: Seq<u8>, token: Seq<u8>, from: int) -> Option<int>
    decreases text.len() + 1 - from,
{
    if from < 0 || from + token.len() > text.len() {
        None
    } else if stands_at(text, token, from) {
        Some(from)
    } else {
        find_from(text, token, from + 1)
    }
}

/// What is found stands there, and nothing earlier does.
pub proof fn lemma_find_from(text: Seq<u8>, token: Seq<u8>, from: int)
    requires
        0 <= from,
    ensures
        find_from(text, token, from) matches Some(p) ==> from <= p && stands_at(text, token, p)
            && forall|q: int| from <= q < p ==> !#[trigger] stands_at(text, token, q),
        find_from(text, token, from) is None ==> forall|q: int|
            from <= q ==> !#[trigger] stands_at(text, token, q),
    decreases text.len() + 1 - from,
{
    if from + token.len() <= text.len() && !stands_at(text, token, from) {
        lemma_find_from(text, token, from + 1);
    }
}

/// Where `token` stands in `text` from `from` on, each time behind the last, as far as the
/// position fits.
pub open spec fn occurrences(text: Seq<u8>, token: Seq<u8>, from: int) -> Seq<u32>
    decreases text.len() - from,
{
    if token.len() == 0 || from < 0 {
        Seq::empty()
    } else {
        proof {
            lemma_find_from(text, token, from);
        }
        match find_from(text, token, from) {
            None => Seq::empty(),
            Some(p) => if p <= u32::MAX {
                seq![p as u32] + occurrences(text, token, p + token.len())
            } else {
                occurrences(text, token, p + 1)
            },
        }
    }
}

fn is_at(text: &[u8], token: &[u8], i: usize) -> (r: bool)
    requires
        i + token@.len() <= text@.len(),
    ensures
        r == stands_at(text@, token@, i as int),
{
    let length: usize = text.len();
    let mut k: usize = 0;
    while k < token.len()
        invariant
            i + token@.len() <= text@.len(),
            text@.len() == length,
            k <= token@.len(),
            forall|j: int| 0 <= j < k ==> text@[i + j] == #[trigger] token@[j],
        decreases token@.len() - k,
    {
        if text[i + k] != token[k] {
            proof {
                assert(text@.subrange(i as int, i + token@.len())[k as int] == text@[i + k]);
            }
            return false;
        }
        k += 1;
    }
    proof {
        assert(text@.subrange(i as int, i + token@.len()) =~= token@);
    }
    true
}

fn find_token(text: &[u8], token: &[u8], from: usize) -> (r: Option<usize>)
    requires
        from <= text@.len(),
        token@.len() > 0,
    ensures
        match r {
            Some(p) => find_from(text@, token@, from as int) == Some(p as int) && from <= p && p
                + token@.len() <= text@.len(),
            None => find_from(text@, token@, from as int) is None,
        },
{
    let mut i: usize = from;
    while text.len() - i >= token.len()
        invariant
            from <= i <= text@.len(),
            token@.len() > 0,
            find_from(text@, token@, from as int) == find_from(text@, token@, i as int),
        decreases text@.len() - i,
    {
        if is_at(text, token, i) {
            return Some(i);
        }
        i += 1;
    }
    None
}

fn token_occurrences(text: &[u8], token: &[u8]) -> (r: Vec<u32>)
    requires
        token@.len() > 0,
    ensures
        r@ == occurrences(text@, token@, 0),
{
    let length: usize = text.len();
    let mut r: Vec<u32> = Vec::new();
    let mut from: usize = 0;
    proof {
        assert(r@ + occurrences(text@, token@, 0) =~= occurrences(text@, token@, 0));
    }
    loop
        invariant
            from <= text@.len(),
            text@.len() == length,
            token@.len() > 0,
            occurrences(text@, token@, 0) == r@ + occurrences(text@, token@, from as int),
        decreases text@.len() - from,
    {
        match find_token(text, token, from) {
            None => {
                proof {
                    assert(r@ + occurrences(text@, token@, from as int) =~= r@);
                }
                return r;
            },
            Some(p) => {
                if p <= 0xffff_ffff {
                    let ghost before = r@;
                    r.push(p as u32);
                    from = p + token.len();
                    proof {
                        assert(before + (seq![p as u32] + occurrences(text@, token@, from as int))
                            =~= r@ + occurrences(text@, token@, from as int));
                    }
                } else {
                    from = p + 1;
                }
            },
        }
    }
}

/// The positions of the terms of a text or a document.
pub type PositionsMap = Map<Seq<char>, Seq<u32>>;

/// What the first `k` words of a text contribute: each time a word comes, all places at which
/// it stands in the text.
pub open spec fn word_positions(text: Seq<u8>, words: Seq<Seq<char>>, k: int) -> PositionsMap
    decreases k,
{
    if k <= 0 || k > words.len() {
        Map::empty()
    } else {
        let before = word_positions(text, words, k - 1);
        let word = words[k - 1];
        let found = occurrences(text, encode_utf8(word), 0);
        if found.len() == 0 {
            before
        } else if before.contains_key(word) {
            before.insert(word, before[word] + found)
        } else {
            before.insert(word, found)
        }
    }
}

/// The positions of the words of a text.
pub open spec fn text_positions(text: Seq<char>) -> PositionsMap {
    word_positions(encode_utf8(lower_all(text)), tokens(text), tokens(text).len() as int)
}

/// The positions of the words of the first `k` members: those of a later member take the place
/// of those of an earlier.
pub open spec fn member_positions(members: Seq<(Seq<char>, JsonView)>, k: int) -> PositionsMap
    decreases k,
{
    if k <= 0 || k > members.len() {
        Map::empty()
    } else {
        match members[k - 1].1 {
            JsonView::Text(text) => member_positions(members, k - 1).union_prefer_right(
                text_positions(text),
            ),
            _ => member_positions(members, k - 1),
        }
    }
}

/// The positions of the words of a document.
pub open spec fn document_positions(source: JsonView) -> PositionsMap {
    match source {
        JsonView::Object(members) => member_positions(members, members.len() as int),
        _ => Map::empty(),
    }
}

/// The positions that a map lists.
pub open spec fn positions_view(map: Map<Seq<char>, Vec<u32>>) -> PositionsMap {
    map.map_values(|positions: Vec<u32>| positions@)
}

fn extract_text_positions(text: &str) -> (r: StringMap<Vec<u32>>)
    ensures
        positions_view(r@) == text_positions(text@),
{
    let words = tokenize(text);
    let lower = lower_text(text);
    let bytes = lower.as_str().as_bytes();
    let ghost all = tokens(text@);
    let mut seen: StringMap<Vec<u32>> = StringMap::new();
    let mut i: usize = 0;
    proof {
        tokens_are_lower_case_words(text@);
        assert(views(words@).len() == words@.len());
        assert(positions_view(seen@) =~= word_positions(bytes@, all, 0));
    }
    while i < words.len()
        invariant
            i <= words@.len(),
            all == views(words@),
            forall|k: int| 0 <= k < all.len() ==> is_token(#[trigger] all[k]),
            positions_view(seen@) == word_positions(bytes@, all, i as int),
        decreases words@.len() - i,
    {
        let word = &words[i];
        let token = word.as_str().as_bytes();
        proof {
            assert(all[i as int] == word@);
            lemma_encoding_not_empty(word@);
        }
        let mut found = token_occurrences(bytes, token);
        let ghost before = seen@;
        let ghost new = found@;
        if found.len() > 0 {
            let mut positions: Vec<u32> = match seen.remove(word.as_str()) {
                Some(positions) => positions,
                None => Vec::new(),
            };
            let ghost old_positions = positions@;
            positions.append(&mut found);
            seen.insert(word.clone(), positions);
            proof {
                assert(positions@ == old_positions + new);
                assert(positions_view(seen@) =~= positions_view(before).insert(
                    word@,
                    old_positions + new,
                ));
                if before.contains_key(word@) {
                    assert(positions_view(before)[word@] == old_positions);
                } else {
                    assert(old_positions + new =~= new);
                }
            }
        }
        i += 1;
    }
    seen
}

proof fn lemma_encoding_not_empty(s: Seq<char>)
    requires
        s.len() > 0,
    ensures
        encode_utf8(s).len() > 0,
{
    vstd::utf8::encode_utf8_first_scalar(s);
}

/// The positions of the words of a document's texts, by which matches are highlighted.
pub fn extract_positions(document: &IndexDocument) -> (r: StringMap<Vec<u32>>)
    ensures
        positions_view(r@) == document_positions(document.source@),
{
    broadcast use lemma_object_view;

    let mut r: StringMap<Vec<u32>> = StringMap::new();
    proof {
        assert(positions_view(r@) =~= Map::empty());
    }
    if let Json::Object(members) = &document.source {
        let ghost all = member_views(members@);
        let mut i: usize = 0;
        while i < members.len()
            invariant
                i <= members@.len(),
                all == member_views(members@),
                positions_view(r@) == member_positions(all, i as int),
            decreases members@.len() - i,
        {
            let ghost before = r@;
            if let Json::Text(text) = &members[i].1 {
                let found = extract_text_positions(text.as_str());
                proof {
                    assert(all[i as int].1 == JsonView::Text(text@));
                }
                merge_positions(&mut r, &found);
            }
            i += 1;
        }
    }
    r
}

/// Puts the entries of `found` into `all`, in place of what stood there.
fn merge_positions(all: &mut StringMap<Vec<u32>>, found: &StringMap<Vec<u32>>)
    ensures
        positions_view(final(all)@) == positions_view(old(all)@).union_prefer_right(
            positions_view(found@),
        ),
{
    let n: usize = found.len();
    let ghost pairs = found.pairs();
    let ghost start = all@;
    let mut i: usize = 0;
    while i < n
        invariant
            i <= n,
            n == pairs.len(),
            pairs == found.pairs(),
            crate::map::keys_ascend(pairs),
            forall|k: Seq<char>|
                positions_view(all@).contains_key(k) <==> positions_view(start).contains_key(k) || (
                exists|j: int| 0 <= j < i && #[trigger] pairs[j].0 == k),
            forall|j: int|
                0 <= j < i ==> all@.contains_key(#[trigger] pairs[j].0) && all@[pairs[j].0]@
                    == pairs[j].1@,
            forall|k: Seq<char>|
                start.contains_key(k) && !(exists|j: int| 0 <= j < i && #[trigger] pairs[j].0 == k)
                    ==> #[trigger] all@[k] == start[k],
        decreases n - i,
    {
        let key = found.key_at(i);
        let positions = copy_positions(found.value_at(i));
        let ghost before = all@;
        all.insert(key.clone(), positions);
        proof {
            assert(all@ == before.insert(pairs[i as int].0, positions));
            assert forall|j: int| 0 <= j < i + 1 implies all@.contains_key(#[trigger] pairs[j].0)
                && all@[pairs[j].0]@ == pairs[j].1@ by {
                if j < i {
                    crate::text::text_lt_asymmetric(pairs[j].0, pairs[i as int].0);
                }
            }
        }
        i += 1;
    }
    proof {
        let found_map = positions_view(found@);
        let result = positions_view(all@);
        assert forall|k: Seq<char>| #[trigger] found_map.contains_key(k) implies result.contains_key(k)
            && result[k] == found_map[k] by {
            let j = crate::map::key_index(pairs, k);
            crate::map::lemma_pair_in_map(pairs, j);
            assert(pairs[j].0 == k);
        }
        assert forall|k: Seq<char>|
            (exists|j: int| 0 <= j < n && #[trigger] pairs[j].0 == k) implies found_map.contains_key(
            k,
        ) by {
            let j = choose|j: int| 0 <= j < n && #[trigger] pairs[j].0 == k;
            crate::map::lemma_pair_in_map(pairs, j);
        }
        assert(result =~= positions_view(start).union_prefer_right(found_map));
    }
}

/// A copy of a list of positions.
pub fn copy_positions(positions: &Vec<u32>) -> (r: Vec<u32>)
    ensures
        r@ == positions@,
{
    let mut r: Vec<u32> = Vec::new();
    let mut i: usize = 0;
    while i < positions.len()
        invariant
            i <= positions@.len(),
            r@ == positions@.take(i as int),
        decreases positions@.len() - i,
    {
        proof {
            assert(positions@.take(i + 1) =~= positions@.take(i as int).push(positions@[i as int]));
        }
        r.push(positions[i]);
        i += 1;
    }
    proof {
        assert(positions@.take(i as int) =~= positions@);
    }
    r
}

proof fn lemma_occurrences(text: Seq<u8>, token: Seq<u8>, from: int)
    requires
        0 <= from,
    ensures
        forall|i: int|
            0 <= i < occurrences(text, token, from).len() ==> stands_at(
                text,
                token,
                #[trigger] occurrences(text, token, from)[i] as int,
            ),
    decreases text.len() - from,
{
    let found = occurrences(text, token, from);
    if token.len() > 0 {
        lemma_find_from(text, token, from);
        if let Some(p) = find_from(text, token, from) {
            if p <= u32::MAX {
                lemma_occurrences(text, token, p + token.len());
                let rest = occurrences(text, token, p + token.len());
                assert(found =~= seq![p as u32] + rest);
                assert forall|i: int| 0 <= i < found.len() implies stands_at(
                    text,
                    token,
                    #[trigger] found[i] as int,
                ) by {
                    if i > 0 {
                        assert(found[i] == rest[i - 1]);
                    }
                }
            } else {
                lemma_occurrences(text, token, p + 1);
                assert(found == occurrences(text, token, p + 1));
            }
        } else {
            assert(found.len() == 0);
        }
    } else {
        assert(found.len() == 0);
    }
}

proof fn lemma_word_positions(text: Seq<u8>, words: Seq<Seq<char>>, k: int, word: Seq<char>)
    requires
        0 <= k <= words.len(),
        word_positions(text, words, k).contains_key(word),
    ensures
        words.contains(word),
        forall|i: int|
            0 <= i < word_positions(text, words, k)[word].len() ==> stands_at(
                text,
                encode_utf8(word),
                #[trigger] word_positions(text, words, k)[word][i] as int,
            ),
    decreases k,
{
    if k > 0 {
        let before = word_positions(text, words, k - 1);
        let latest = words[k - 1];
        let found = occurrences(text, encode_utf8(latest), 0);
        lemma_occurrences(text, encode_utf8(latest), 0);
        if before.contains_key(word) {
            lemma_word_positions(text, words, k - 1, word);
        }
        if word == latest && found.len() > 0 {
            assert(words[k - 1] == word);
            let all = word_positions(text, words, k)[word];
            assert forall|i: int| 0 <= i < all.len() implies stands_at(
                text,
                encode_utf8(word),
                #[trigger] all[i] as int,
            ) by {
                if before.contains_key(word) {
                    if i < before[word].len() {
                        assert(all[i] == before[word][i]);
                    } else {
                        assert(all[i] == found[i - before[word].len()]);
                    }
                } else {
                    assert(all[i] == found[i]);
                }
            }
        }
    }
}

/// Each term whose positions are noted is a word of the text, and stands at each of them in the
/// lower case text.
pub proof fn positions_point_at_their_words(text: Seq<char>, word: Seq<char>)
    requires
        text_positions(text).contains_key(word),
    ensures
        tokens(text).contains(word),
        forall|i: int|
            0 <= i < text_positions(text)[word].len() ==> stands_at(
                encode_utf8(lower_all(text)),
                encode_utf8(word),
                #[trigger] text_positions(text)[word][i] as int,
            ),
{
    lemma_word_positions(
        encode_utf8(lower_all(text)),
        tokens(text),
        tokens(text).len() as int,
        word,
    );
}

} // verus!
