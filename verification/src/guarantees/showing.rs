//! What the highlights of a hit show.
use vstd::prelude::*;
use vstd::utf8::decode_utf8;
use vstd::utf8::decode_utf8_encode_utf8;
use vstd::utf8::decode_utf8_split;
use vstd::utf8::encode_utf8;
use vstd::utf8::encode_utf8_decode_utf8;
use vstd::utf8::encode_utf8_valid_utf8;
use vstd::utf8::is_char_boundary;
use vstd::utf8::is_char_boundary_iff_not_is_continuation_byte;
use vstd::utf8::is_char_boundary_start_end_of_seq;
use vstd::utf8::valid_utf8;
use vstd::utf8::valid_utf8_split;

use crate::guarantees::counting::lemma_in_both;
use crate::guarantees::matching::lemma_stands;
use crate::guarantees::matching::stands;
use crate::highlight::all_places;
use crate::highlight::are_first_fragments;
use crate::highlight::clause_terms;
use crate::highlight::distinct;
use crate::highlight::fragment_start;
use crate::highlight::fragment_text;
use crate::highlight::fragments_in_order;
use crate::highlight::highlighted_in;
use crate::highlight::highlighted_texts;
use crate::highlight::in_start_order;
use crate::highlight::is_highlight;
use crate::highlight::lowercase;
use crate::highlight::lowercase_texts;
use crate::highlight::mark_end;
use crate::highlight::places_at;
use crate::highlight::query_terms;
use crate::highlight::splits;
use crate::highlight::term_places;
use crate::highlight::text_before;
use crate::highlight::text_behind;
use crate::highlight::text_places;
use crate::highlight::Place;
use crate::json::JsonView;
use crate::map::StringMap;
use crate::positions::term_positions;
use crate::positions::ReaderView;
use crate::sort::lemma_arrangement_covers;
use crate::text::tokens;
use crate::text::views;
use crate::types::QueryView;

verus! {

/// The byte behind a word that begins at `p`, or the end of the text where that comes first.
pub open spec fn behind_word(text: Seq<char>, term: Seq<char>, p: u32) -> int {
    if p + encode_utf8(term).len() <= encode_utf8(text).len() {
        p + encode_utf8(term).len()
    } else {
        encode_utf8(text).len() as int
    }
}

/// Whether a term is noted at byte `p` of a document in one of the segments, `p` lies within the
/// text, and neither `p` nor the byte behind the term lies within a character of the text.
pub open spec fn is_marked(
    text: Seq<char>,
    readers: Seq<ReaderView>,
    terms: Seq<Seq<char>>,
    doc_id: u64,
    term: Seq<char>,
    p: u32,
) -> bool {
    &&& terms.contains(term)
    &&& exists|r: int| 0 <= r < readers.len() && stands(#[trigger] readers[r], term, doc_id, p)
    &&& p < encode_utf8(text).len()
    &&& is_char_boundary(encode_utf8(text), p as int)
    &&& is_char_boundary(encode_utf8(text), behind_word(text, term, p))
}

/// Whether a fragment shows the term at byte `p`, from character `start` of the text on: what the
/// term covers between marks, up to fifty characters before it and up to thirty behind it, fewer
/// only where the text has no more.
pub open spec fn shows_in_parts(
    fragment: Seq<char>,
    text: Seq<char>,
    term: Seq<char>,
    p: u32,
    start: int,
    parts: (Seq<char>, Seq<char>, Seq<char>, Seq<char>, Seq<char>),
) -> bool {
    let (front, before, marked, behind, back) = parts;
    &&& text == front + before + marked + behind + back
    &&& encode_utf8(front + before).len() == p
    &&& encode_utf8(marked).len() == behind_word(text, term, p) - p
    &&& start == front.len()
    &&& before.len() <= 50 && (front.len() > 0 ==> before.len() == 50)
    &&& behind.len() <= 30 && (back.len() > 0 ==> behind.len() == 30)
    &&& fragment == before + "<em>"@ + marked + "</em>"@ + behind
}

/// Whether a fragment shows the term at byte `p`, from character `start` of the text on.
pub open spec fn shows_term(
    fragment: Seq<char>,
    text: Seq<char>,
    term: Seq<char>,
    p: u32,
    start: int,
) -> bool {
    exists|parts: (Seq<char>, Seq<char>, Seq<char>, Seq<char>, Seq<char>)| #[trigger]
        shows_in_parts(fragment, text, term, p, start, parts)
}

proof fn lemma_boundary_in_front(bytes: Seq<u8>, a: int, b: int)
    requires
        valid_utf8(bytes),
        0 <= a <= b <= bytes.len(),
        is_char_boundary(bytes, a),
        is_char_boundary(bytes, b),
    ensures
        is_char_boundary(bytes.subrange(0, b), a),
        valid_utf8(bytes.subrange(0, b)),
{
    let front = bytes.subrange(0, b);
    valid_utf8_split(bytes, b);
    if a < b {
        assert(front[a] == bytes[a]);
        is_char_boundary_iff_not_is_continuation_byte(bytes, a);
        is_char_boundary_iff_not_is_continuation_byte(front, a);
    } else {
        is_char_boundary_start_end_of_seq(front);
    }
}

proof fn lemma_fragment_shows(text: Seq<char>, term: Seq<char>, p: u32)
    requires
        p < encode_utf8(text).len(),
        is_char_boundary(encode_utf8(text), p as int),
        is_char_boundary(encode_utf8(text), behind_word(text, term, p)),
    ensures
        ({
            let place = Place { pos: p as int, width: encode_utf8(term).len() as int };
            shows_term(
                fragment_text(encode_utf8(text), place),
                text,
                term,
                p,
                fragment_start(encode_utf8(text), place),
            )
        }),
{
    let bytes = encode_utf8(text);
    let place = Place { pos: p as int, width: encode_utf8(term).len() as int };
    let a = p as int;
    let b = behind_word(text, term, p);
    encode_utf8_valid_utf8(text);
    encode_utf8_decode_utf8(text);
    assert(b == mark_end(bytes, place));
    let front_bytes = bytes.subrange(0, b);
    let marked_bytes = bytes.subrange(a, b);
    lemma_boundary_in_front(bytes, a, b);
    valid_utf8_split(bytes, b);
    valid_utf8_split(front_bytes, a);
    decode_utf8_split(bytes, b);
    decode_utf8_split(front_bytes, a);
    assert(front_bytes.subrange(0, a) =~= bytes.subrange(0, a));
    assert(front_bytes.subrange(a, front_bytes.len() as int) =~= marked_bytes);
    let before = text_before(bytes, place);
    let marked = decode_utf8(marked_bytes);
    let behind = text_behind(bytes, place);
    decode_utf8_encode_utf8(bytes.subrange(0, a));
    decode_utf8_encode_utf8(marked_bytes);
    let start = fragment_start(bytes, place);
    let length = crate::highlight::at_most(behind.len() as int, 30);
    let parts = (
        before.take(start),
        before.skip(start),
        marked,
        behind.take(length),
        behind.skip(length),
    );
    assert(before.take(start) + before.skip(start) =~= before);
    assert(text =~= before + marked + behind);
    assert(text =~= parts.0 + parts.1 + parts.2 + parts.3 + parts.4);
    assert(shows_in_parts(fragment_text(bytes, place), text, term, p, start, parts));
}

/// Whether one of the positions is a place that can be marked.
spec fn has_place(positions: Seq<u32>, width: int, bytes: Seq<u8>, place: Place) -> bool {
    &&& place.width == width
    &&& 0 <= place.pos <= u32::MAX
    &&& positions.contains(place.pos as u32)
    &&& place.pos < bytes.len()
    &&& !splits(bytes, place)
}

proof fn lemma_places_at(positions: Seq<u32>, width: int, bytes: Seq<u8>, place: Place)
    ensures
        places_at(positions, width, bytes).contains(place) <==> has_place(
            positions,
            width,
            bytes,
            place,
        ),
    decreases positions.len(),
{
    if positions.len() > 0 {
        let less = positions.drop_last();
        let before = places_at(less, width, bytes);
        let all = places_at(positions, width, bytes);
        let last = Place { pos: positions.last() as int, width };
        lemma_places_at(less, width, bytes, place);
        assert(positions[positions.len() - 1] == positions.last());
        if before.contains(place) {
            let i = choose|i: int| 0 <= i < before.len() && before[i] == place;
            assert(all[i] == place);
            let j = choose|j: int| 0 <= j < less.len() && less[j] == place.pos as u32;
            assert(positions[j] == place.pos as u32);
        }
        if has_place(positions, width, bytes, place) {
            let j = choose|j: int| 0 <= j < positions.len() && positions[j] == place.pos as u32;
            if j < less.len() {
                assert(less[j] == place.pos as u32);
            } else {
                assert(place == last);
                assert(all[before.len() as int] == place);
            }
        }
        if all.contains(place) {
            let i = choose|i: int| 0 <= i < all.len() && all[i] == place;
            if i < before.len() {
                assert(before[i] == place);
            } else {
                assert(place == last);
            }
        }
    }
}

proof fn lemma_term_places(
    readers: Seq<ReaderView>,
    term: Seq<char>,
    doc_id: u64,
    bytes: Seq<u8>,
    k: int,
    place: Place,
)
    requires
        0 <= k <= readers.len(),
    ensures
        term_places(readers, term, doc_id, bytes, k).contains(place) <==> exists|r: int|
            0 <= r < k && has_place(
                term_positions(#[trigger] readers[r], term, doc_id),
                encode_utf8(term).len() as int,
                bytes,
                place,
            ),
    decreases k,
{
    if k > 0 {
        let width = encode_utf8(term).len() as int;
        let positions = term_positions(readers[k - 1], term, doc_id);
        lemma_term_places(readers, term, doc_id, bytes, k - 1, place);
        lemma_places_at(positions, width, bytes, place);
        lemma_in_both(
            term_places(readers, term, doc_id, bytes, k - 1),
            places_at(positions, width, bytes),
            place,
        );
    }
}

proof fn lemma_all_places(
    readers: Seq<ReaderView>,
    terms: Seq<Seq<char>>,
    doc_id: u64,
    bytes: Seq<u8>,
    k: int,
    place: Place,
)
    requires
        0 <= k <= terms.len(),
    ensures
        all_places(readers, terms, doc_id, bytes, k).contains(place) <==> exists|t: int|
            0 <= t < k && term_places(
                readers,
                #[trigger] terms[t],
                doc_id,
                bytes,
                readers.len() as int,
            ).contains(place),
    decreases k,
{
    if k > 0 {
        lemma_all_places(readers, terms, doc_id, bytes, k - 1, place);
        lemma_in_both(
            all_places(readers, terms, doc_id, bytes, k - 1),
            term_places(readers, terms[k - 1], doc_id, bytes, readers.len() as int),
            place,
        );
    }
}

/// The places that are marked are those at which a term is noted.
proof fn lemma_marked(
    text: Seq<char>,
    readers: Seq<ReaderView>,
    terms: Seq<Seq<char>>,
    doc_id: u64,
    place: Place,
)
    ensures
        text_places(text, readers, terms, doc_id).contains(place) <==> exists|
            term: Seq<char>,
            p: u32,
        | #[trigger]
            is_marked(text, readers, terms, doc_id, term, p) && place == (Place {
                pos: p as int,
                width: encode_utf8(term).len() as int,
            }),
{
    let bytes = encode_utf8(text);
    let n = readers.len() as int;
    lemma_all_places(readers, terms, doc_id, bytes, terms.len() as int, place);
    if text_places(text, readers, terms, doc_id).contains(place) {
        let t = choose|t: int|
            0 <= t < terms.len() && term_places(readers, #[trigger] terms[t], doc_id, bytes, n)
                .contains(place);
        let term = terms[t];
        lemma_term_places(readers, term, doc_id, bytes, n, place);
        let r = choose|r: int|
            0 <= r < n && has_place(
                term_positions(#[trigger] readers[r], term, doc_id),
                encode_utf8(term).len() as int,
                bytes,
                place,
            );
        lemma_stands(readers[r], term, doc_id, place.pos as u32);
        assert(stands(readers[r], term, doc_id, place.pos as u32));
        assert(is_marked(text, readers, terms, doc_id, term, place.pos as u32));
    }
    if exists|term: Seq<char>, p: u32| #[trigger]
        is_marked(text, readers, terms, doc_id, term, p) && place == (Place {
            pos: p as int,
            width: encode_utf8(term).len() as int,
        }) {
        let (term, p) = choose|term: Seq<char>, p: u32| #[trigger]
            is_marked(text, readers, terms, doc_id, term, p) && place == (Place {
                pos: p as int,
                width: encode_utf8(term).len() as int,
            });
        let t = choose|t: int| 0 <= t < terms.len() && terms[t] == term;
        let r = choose|r: int| 0 <= r < n && stands(#[trigger] readers[r], term, doc_id, p);
        lemma_stands(readers[r], term, doc_id, p);
        lemma_term_places(readers, term, doc_id, bytes, n, place);
        assert(has_place(
            term_positions(readers[r], term, doc_id),
            encode_utf8(term).len() as int,
            bytes,
            place,
        ));
        assert(term_places(readers, terms[t], doc_id, bytes, n).contains(place));
    }
}

/// Whether the text at `y` is among the different ones, and stands first no later.
spec fn is_known_by(found: Seq<Seq<char>>, first: Seq<int>, texts: Seq<Seq<char>>, y: int) -> bool {
    exists|i: int| 0 <= i < found.len() && found[i] == texts[y] && #[trigger] first[i] <= y
}

/// Whether `first` says where each of the different texts of a list stands first.
spec fn are_first_places(first: Seq<int>, found: Seq<Seq<char>>, texts: Seq<Seq<char>>) -> bool {
    &&& first.len() == found.len()
    &&& forall|i: int| 0 <= i < first.len() ==> 0 <= #[trigger] first[i] < texts.len()
    &&& forall|i: int| 0 <= i < first.len() ==> texts[first[i]] == #[trigger] found[i]
    &&& forall|i: int, j: int| 0 <= i < j < first.len() ==> #[trigger] first[i] < #[trigger] first[j]
    &&& forall|y: int| 0 <= y < texts.len() ==> #[trigger] is_known_by(found, first, texts, y)
}

proof fn lemma_first_places(texts: Seq<Seq<char>>) -> (first: Seq<int>)
    ensures
        are_first_places(first, distinct(texts), texts),
    decreases texts.len(),
{
    if texts.len() == 0 {
        Seq::empty()
    } else {
        let less = texts.drop_last();
        let before = distinct(less);
        let n = less.len() as int;
        let first = lemma_first_places(less);
        let found = distinct(texts);
        let all = if before.contains(texts.last()) {
            first
        } else {
            first.push(n)
        };
        assert forall|i: int| 0 <= i < all.len() implies 0 <= #[trigger] all[i] < texts.len() by {
            if i < first.len() {
                assert(all[i] == first[i]);
            }
        }
        assert forall|i: int| 0 <= i < all.len() implies texts[all[i]] == #[trigger] found[i] by {
            if i < first.len() {
                assert(all[i] == first[i]);
                assert(found[i] == before[i]);
                assert(less[first[i]] == texts[first[i]]);
            }
        }
        assert forall|i: int, j: int| 0 <= i < j < all.len() implies #[trigger] all[i]
            < #[trigger] all[j] by {
            assert(all[i] == first[i]);
            if j < first.len() {
                assert(all[j] == first[j]);
            }
        }
        assert forall|y: int| 0 <= y < texts.len() implies #[trigger] is_known_by(
            found,
            all,
            texts,
            y,
        ) by {
            if y < n {
                assert(is_known_by(before, first, less, y));
                let i = choose|i: int|
                    0 <= i < before.len() && before[i] == less[y] && #[trigger] first[i] <= y;
                assert(all[i] == first[i]);
                assert(found[i] == before[i]);
            } else if before.contains(texts.last()) {
                let i = choose|i: int| 0 <= i < before.len() && before[i] == texts.last();
                assert(all[i] == first[i]);
            } else {
                assert(all[first.len() as int] == n);
            }
        }
        all
    }
}

/// Whether the fragments of a text are the first three, by where they begin, of those that show a
/// term, or all where there are fewer.
pub open spec fn are_the_first(
    fragments: Seq<Seq<char>>,
    starts: Seq<int>,
    text: Seq<char>,
    readers: Seq<ReaderView>,
    terms: Seq<Seq<char>>,
    doc_id: u64,
) -> bool {
    &&& fragments.len() <= 3
    &&& starts.len() == fragments.len()
    &&& forall|i: int, j: int| 0 <= i < j < starts.len() ==> #[trigger] starts[i] <= #[trigger] starts[j]
    &&& forall|i: int|
        0 <= i < fragments.len() ==> is_of_term(
            #[trigger] fragments[i],
            starts[i],
            text,
            readers,
            terms,
            doc_id,
        )
    &&& forall|term: Seq<char>, p: u32| #[trigger]
        is_marked(text, readers, terms, doc_id, term, p) ==> exists|fragment: Seq<char>, start: int|
         #[trigger]
            shows_term(fragment, text, term, p, start) && (fragments.contains(fragment) || (
            fragments.len() == 3 && start >= starts[2]))
}

/// Whether a fragment shows one of the terms where it is noted.
pub open spec fn is_of_term(
    fragment: Seq<char>,
    start: int,
    text: Seq<char>,
    readers: Seq<ReaderView>,
    terms: Seq<Seq<char>>,
    doc_id: u64,
) -> bool {
    exists|term: Seq<char>, p: u32| #[trigger]
        is_marked(text, readers, terms, doc_id, term, p) && shows_term(fragment, text, term, p, start)
}

proof fn lemma_first_fragments(
    fragments: Seq<Seq<char>>,
    text: Seq<char>,
    readers: Seq<ReaderView>,
    terms: Seq<Seq<char>>,
    doc_id: u64,
) -> (starts: Seq<int>)
    requires
        are_first_fragments(text, text_places(text, readers, terms, doc_id), fragments),
    ensures
        are_the_first(fragments, starts, text, readers, terms, doc_id),
{
    let bytes = encode_utf8(text);
    let places = text_places(text, readers, terms, doc_id);
    let order = choose|order: Seq<int>| #[trigger]
        in_start_order(bytes, places, order) && {
            let all = distinct(fragments_in_order(bytes, places, order));
            fragments == all.take(crate::highlight::at_most(all.len() as int, 3))
        };
    let texts = fragments_in_order(bytes, places, order);
    let all = distinct(texts);
    let first = lemma_first_places(texts);
    let starts = Seq::new(
        fragments.len(),
        |i: int| fragment_start(bytes, places[order[first[i]]]),
    );
    assert forall|i: int, j: int| 0 <= i < j < starts.len() implies #[trigger] starts[i]
        <= #[trigger] starts[j] by {
        assert(first[i] < first[j]);
        assert(order[first[i]] != order[first[j]]);
    }
    assert forall|i: int| 0 <= i < fragments.len() implies is_of_term(
        #[trigger] fragments[i],
        starts[i],
        text,
        readers,
        terms,
        doc_id,
    ) by {
        let at = order[first[i]];
        let place = places[at];
        assert(all[i] == fragments[i]);
        assert(texts[first[i]] == fragment_text(bytes, place));
        assert(places.contains(place));
        lemma_marked(text, readers, terms, doc_id, place);
        let (term, p) = choose|term: Seq<char>, p: u32| #[trigger]
            is_marked(text, readers, terms, doc_id, term, p) && place == (Place {
                pos: p as int,
                width: encode_utf8(term).len() as int,
            });
        lemma_fragment_shows(text, term, p);
        assert(is_marked(text, readers, terms, doc_id, term, p));
    }
    assert forall|term: Seq<char>, p: u32| #[trigger]
        is_marked(text, readers, terms, doc_id, term, p) implies exists|
        fragment: Seq<char>,
        start: int,
    | #[trigger]
        shows_term(fragment, text, term, p, start) && (fragments.contains(fragment) || (
        fragments.len() == 3 && start >= starts[2])) by {
        let place = Place { pos: p as int, width: encode_utf8(term).len() as int };
        lemma_marked(text, readers, terms, doc_id, place);
        lemma_fragment_shows(text, term, p);
        let fragment = fragment_text(bytes, place);
        let start = fragment_start(bytes, place);
        assert(shows_term(fragment, text, term, p, start));
        let x = choose|x: int| 0 <= x < places.len() && places[x] == place;
        lemma_arrangement_covers(order, places.len() as int, x);
        let y = choose|y: int| 0 <= y < places.len() && #[trigger] order[y] == x;
        assert(texts[y] == fragment);
        assert(is_known_by(all, first, texts, y));
        let i = choose|i: int|
            0 <= i < all.len() && all[i] == texts[y] && #[trigger] first[i] <= y;
        if i < fragments.len() {
            assert(fragments[i] == fragment);
        } else {
            assert(first[2] < first[i]);
            assert(order[first[2]] != order[y]);
        }
    }
    starts
}

proof fn lemma_highlighted_texts(
    members: Seq<(Seq<char>, JsonView)>,
    readers: Seq<ReaderView>,
    terms: Seq<Seq<char>>,
    doc_id: u64,
    k: int,
    name: Seq<char>,
)
    requires
        0 <= k <= members.len(),
    ensures
        ({
            let found = highlighted_texts(members, readers, terms, doc_id, k);
            &&& found.contains_key(name) ==> exists|i: int|
                0 <= i < k && #[trigger] members[i] == (name, JsonView::Text(found[name]))
                    && text_places(found[name], readers, terms, doc_id).len() > 0
            &&& forall|i: int|
                0 <= i < k && (#[trigger] members[i]).0 == name && members[i].1 is Text
                    && text_places(members[i].1->Text_0, readers, terms, doc_id).len() > 0
                    ==> found.contains_key(name)
        }),
    decreases k,
{
    if k > 0 {
        lemma_highlighted_texts(members, readers, terms, doc_id, k - 1, name);
        let last = members[k - 1];
        assert(members[k - 1] == last);
    }
}

/// A text of a document is highlighted if and only if one of the terms is noted in it. Its highlight
/// is the first three fragments that show a term, by where they begin, or all where there are
/// fewer.
pub proof fn highlights_show_terms_where_they_stand(
    highlight: Option<StringMap<Vec<String>>>,
    members: Seq<(Seq<char>, JsonView)>,
    readers: Seq<ReaderView>,
    terms: Seq<Seq<char>>,
    doc_id: u64,
    at: int,
)
    requires
        is_highlight(highlight, JsonView::Object(members), readers, terms, doc_id),
        0 <= at < members.len(),
        forall|i: int, j: int|
            0 <= i < j < members.len() ==> (#[trigger] members[i]).0 != (#[trigger] members[j]).0,
    ensures
        ({
            let name = members[at].0;
            let is_shown = highlight matches Some(h) && h@.contains_key(name);
            match members[at].1 {
                JsonView::Text(text) => {
                    &&& is_shown <==> exists|term: Seq<char>, p: u32| #[trigger]
                        is_marked(text, readers, terms, doc_id, term, p)
                    &&& is_shown ==> exists|starts: Seq<int>| #[trigger]
                        are_the_first(
                            views(highlight->0@[name]@),
                            starts,
                            text,
                            readers,
                            terms,
                            doc_id,
                        )
                },
                _ => !is_shown,
            }
        }),
{
    let name = members[at].0;
    let n = members.len() as int;
    let found = highlighted_in(JsonView::Object(members), readers, terms, doc_id);
    lemma_highlighted_texts(members, readers, terms, doc_id, n, name);
    let is_shown = highlight matches Some(h) && h@.contains_key(name);
    if highlight is None {
        assert(!found.contains_key(name));
    } else {
        assert(highlight->0@.dom().contains(name) == found.dom().contains(name));
    }
    assert(is_shown == found.contains_key(name));
    if found.contains_key(name) {
        let i = choose|i: int|
            0 <= i < n && #[trigger] members[i] == (name, JsonView::Text(found[name]))
                && text_places(found[name], readers, terms, doc_id).len() > 0;
        if i < at {
            assert(members[i].0 != members[at].0);
        } else if at < i {
            assert(members[at].0 != members[i].0);
        }
    }
    if let JsonView::Text(text) = members[at].1 {
        let places = text_places(text, readers, terms, doc_id);
        if places.len() > 0 {
            assert(places.contains(places[0]));
            lemma_marked(text, readers, terms, doc_id, places[0]);
        }
        assert forall|term: Seq<char>, p: u32| #[trigger]
            is_marked(text, readers, terms, doc_id, term, p) implies places.len() > 0 by {
            let place = Place { pos: p as int, width: encode_utf8(term).len() as int };
            lemma_marked(text, readers, terms, doc_id, place);
        }
        if is_shown {
            assert(found.contains_key(name));
            assert(found[name] == text);
            let starts = lemma_first_fragments(
                views(highlight->0@[name]@),
                text,
                readers,
                terms,
                doc_id,
            );
            assert(are_the_first(
                views(highlight->0@[name]@),
                starts,
                text,
                readers,
                terms,
                doc_id,
            ));
        }
    }
}

proof fn lemma_clause_terms(queries: Seq<QueryView>, k: int, word: Seq<char>)
    requires
        0 <= k <= queries.len(),
    ensures
        clause_terms(queries, k).contains(word) <==> exists|i: int|
            0 <= i < k && query_terms(#[trigger] queries[i]).contains(word),
    decreases k,
{
    if k > 0 {
        lemma_clause_terms(queries, k - 1, word);
        lemma_in_both(
            clause_terms(queries, k - 1),
            query_terms(queries[k - 1]),
            word,
        );
    }
}

/// Of a combination those words are highlighted that are of a clause that has to match, may match
/// or filters. What must not match is not highlighted.
pub proof fn combinations_highlight_what_they_look_for(
    must: Seq<QueryView>,
    should: Seq<QueryView>,
    filter: Seq<QueryView>,
    must_not: Seq<QueryView>,
    minimum_should_match: Option<u32>,
    word: Seq<char>,
)
    ensures
        query_terms(
            QueryView::Bool { must, should, filter, must_not, minimum_should_match },
        ).contains(word) <==> {
            ||| exists|i: int|
                0 <= i < must.len() && query_terms(#[trigger] must[i]).contains(word)
            ||| exists|i: int|
                0 <= i < should.len() && query_terms(#[trigger] should[i]).contains(word)
            ||| exists|i: int|
                0 <= i < filter.len() && query_terms(#[trigger] filter[i]).contains(word)
        },
{
    let a = clause_terms(must, must.len() as int);
    let b = clause_terms(should, should.len() as int);
    let c = clause_terms(filter, filter.len() as int);
    lemma_clause_terms(must, must.len() as int, word);
    lemma_clause_terms(should, should.len() as int, word);
    lemma_clause_terms(filter, filter.len() as int, word);
    lemma_in_both(a, b, word);
    lemma_in_both(a + b, c, word);
}

proof fn lemma_lowercase_texts(values: Seq<JsonView>, word: Seq<char>)
    ensures
        lowercase_texts(values).contains(word) <==> exists|i: int|
            0 <= i < values.len() && #[trigger] values[i] is Text && lowercase(values[i]->Text_0)
                == word,
    decreases values.len(),
{
    if values.len() > 0 {
        let less = values.drop_last();
        lemma_lowercase_texts(less, word);
        let before = lowercase_texts(less);
        let all = lowercase_texts(values);
        let last = values[values.len() - 1];
        if last is Text {
            lemma_in_both(before, seq![lowercase(last->Text_0)], word);
            assert(all =~= before + seq![lowercase(last->Text_0)]);
            assert(seq![lowercase(last->Text_0)][0] == lowercase(last->Text_0));
        }
        if exists|i: int|
            0 <= i < less.len() && #[trigger] less[i] is Text && lowercase(less[i]->Text_0)
                == word {
            let i = choose|i: int|
                0 <= i < less.len() && #[trigger] less[i] is Text && lowercase(less[i]->Text_0)
                    == word;
            assert(values[i] == less[i]);
        }
        if exists|i: int|
            0 <= i < values.len() && #[trigger] values[i] is Text && lowercase(values[i]->Text_0)
                == word {
            let i = choose|i: int|
                0 <= i < values.len() && #[trigger] values[i] is Text && lowercase(
                    values[i]->Text_0,
                ) == word;
            if i < less.len() {
                assert(less[i] == values[i]);
            }
        }
    }
}

/// Of a query for values the texts are highlighted, in lower case, of one for words or forms its
/// words, and of a range or of everything nothing.
pub proof fn queries_highlight_what_they_look_for(
    query: QueryView,
    values: Seq<JsonView>,
    field: Seq<char>,
    text: Seq<char>,
    word: Seq<char>,
)
    ensures
        query is MatchAll || query is Range ==> query_terms(query).len() == 0,
        query is Term ==> (query_terms(query).contains(word) <==> query->value is Text && lowercase(
            query->value->Text_0,
        ) == word),
        query_terms(QueryView::Terms { field, values }).contains(word) <==> exists|i: int|
            0 <= i < values.len() && #[trigger] values[i] is Text && lowercase(values[i]->Text_0)
                == word,
        query_terms(QueryView::Match { field, text }) == tokens(text),
        query_terms(QueryView::Phrase { field, text }) == tokens(text),
        query_terms(QueryView::Prefix { field, text }) == tokens(text),
        query_terms(QueryView::Wildcard { field, text }) == tokens(text),
{
    lemma_lowercase_texts(values, word);
    if query is Term {
        lemma_lowercase_texts(seq![query->value], word);
        assert(seq![query->value][0] == query->value);
    }
}

} // verus!
