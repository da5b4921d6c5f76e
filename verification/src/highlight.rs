//! Fragments of a document's texts around the words of a query.
use vstd::prelude::*;
use vstd::slice::slice_subrange;
use vstd::utf8::decode_utf8;
use vstd::utf8::encode_utf8;
use vstd::utf8::encode_utf8_decode_utf8;
use vstd::utf8::encode_utf8_valid_utf8;
use vstd::utf8::is_ascii_chars;
use vstd::utf8::is_char_boundary;
use vstd::utf8::is_char_boundary_iff_not_is_continuation_byte;
use vstd::utf8::is_char_boundary_start_end_of_seq;
use vstd::utf8::valid_utf8_split;

use crate::json::json_views;
use crate::json::lemma_object_view;
use crate::json::member_views;
use crate::json::Json;
use crate::json::JsonView;
use crate::map::StringMap;
use crate::positions::reader_views;
use crate::positions::term_positions;
use crate::positions::PositionsReader;
use crate::positions::ReaderView;
use crate::sort::arranged;
use crate::sort::ascends;
use crate::sort::is_arrangement;
use crate::sort::lemma_one_arrangement;
use crate::sort::sort;
use crate::sort::strictly_ordered;
use crate::sort::Sortable;
use crate::text::chars_of;
use crate::text::lower_all;
use crate::text::string_of;
use crate::text::tokenize;
use crate::text::tokens;
use crate::text::text_eq;
use crate::text::views;
use crate::types::lemma_bool_view;
use crate::types::query_views;
use crate::types::IndexDocument;
use crate::types::QueryView;
use crate::types::SearchQuery;

verus! {

/// A text in lower case, as the Unicode tables have it.
pub uninterp spec fn lowercase(text: Seq<char>) -> Seq<char>;

/// `str::to_lowercase` puts a text in lower case. The claim is that the result depends on the
/// text alone, and that in an ASCII text it changes the ASCII capitals and nothing else.
#[verifier::external_body]
fn to_lowercase(text: &str) -> (r: String)
    ensures
        r@ == lowercase(text@),
        is_ascii_chars(text@) ==> r@ == lower_all(text@),
{
    text.to_lowercase()
}

/// The texts among the values, in lower case.
pub open spec fn lowercase_texts(values: Seq<JsonView>) -> Seq<Seq<char>>
    decreases values.len(),
{
    if values.len() == 0 {
        Seq::empty()
    } else {
        match values.last() {
            JsonView::Text(text) => lowercase_texts(values.drop_last()).push(lowercase(text)),
            _ => lowercase_texts(values.drop_last()),
        }
    }
}

/// The words of a query that are highlighted.
pub open spec fn query_terms(query: QueryView) -> Seq<Seq<char>>
    decreases query, 0int,
{
    match query {
        QueryView::MatchAll => Seq::empty(),
        QueryView::Range(_) => Seq::empty(),
        QueryView::Term { field, value, fuzziness } => lowercase_texts(seq![value]),
        QueryView::Terms { field, values } => lowercase_texts(values),
        QueryView::Bool { must, should, filter, must_not, minimum_should_match } => clause_terms(
            must,
            must.len() as int,
        ) + clause_terms(should, should.len() as int) + clause_terms(filter, filter.len() as int),
        QueryView::Prefix { field, text } => tokens(text),
        QueryView::Wildcard { field, text } => tokens(text),
        QueryView::Match { field, text } => tokens(text),
        QueryView::Phrase { field, text } => tokens(text),
    }
}

/// The words of the first `k` queries.
pub open spec fn clause_terms(queries: Seq<QueryView>, k: int) -> Seq<Seq<char>>
    decreases queries, k,
{
    if k <= 0 || k > queries.len() {
        Seq::empty()
    } else {
        clause_terms(queries, k - 1) + query_terms(queries[k - 1])
    }
}

fn push_lowercase(terms: &mut Vec<String>, value: &Json)
    ensures
        views(final(terms)@) == views(old(terms)@) + lowercase_texts(seq![value@]),
{
    proof {
        assert(seq![value@].drop_last() =~= Seq::empty());
        assert(seq![value@].last() == value@);
        reveal_with_fuel(lowercase_texts, 2);
    }
    if let Json::Text(text) = value {
        terms.push(to_lowercase(text.as_str()));
        proof {
            assert(views(terms@) =~= views(old(terms)@) + seq![lowercase(text@)]);
            assert(lowercase_texts(seq![value@]) =~= seq![lowercase(text@)]);
        }
    } else {
        proof {
            assert(lowercase_texts(seq![value@]) =~= Seq::empty());
            assert(views(terms@) =~= views(old(terms)@) + Seq::empty());
        }
    }
}

fn get_clause_terms(queries: &Vec<SearchQuery>) -> (r: Vec<String>)
    ensures
        views(r@) == clause_terms(query_views(queries@), queries@.len() as int),
    decreases queries, 0int,
{
    let ghost all = query_views(queries@);
    let mut r: Vec<String> = Vec::new();
    let mut i: usize = 0;
    proof {
        assert(views(r@) =~= Seq::empty());
    }
    while i < queries.len()
        invariant
            i <= queries@.len(),
            all == query_views(queries@),
            views(r@) == clause_terms(all, i as int),
        decreases queries@.len() - i,
    {
        proof {
            assert(decreases_to!(queries => queries@));
            assert(decreases_to!(queries@ => queries@[i as int]));
            assert(all[i as int] == queries@[i as int]@);
        }
        let mut more = get_query_terms(&queries[i]);
        let ghost before = r@;
        let ghost new = more@;
        r.append(&mut more);
        proof {
            assert(views(r@) =~= views(before) + views(new));
        }
        i += 1;
    }
    r
}

/// The words of a query that are highlighted.
pub fn get_query_terms(query: &SearchQuery) -> (r: Vec<String>)
    ensures
        views(r@) == query_terms(query@),
    decreases query, 1int,
{
    let mut r: Vec<String> = Vec::new();
    proof {
        assert(views(r@) =~= Seq::empty());
    }
    match query {
        SearchQuery::MatchAll => r,
        SearchQuery::Range(_) => r,
        SearchQuery::Term(term) => {
            push_lowercase(&mut r, &term.value);
            proof {
                assert(views(r@) =~= lowercase_texts(seq![term.value@]));
            }
            r
        },
        SearchQuery::Terms(terms) => {
            let ghost values = json_views(terms.values@);
            let mut i: usize = 0;
            proof {
                assert(values.take(0) =~= Seq::empty());
            }
            while i < terms.values.len()
                invariant
                    i <= terms.values@.len(),
                    values == json_views(terms.values@),
                    views(r@) == lowercase_texts(values.take(i as int)),
                decreases terms.values@.len() - i,
            {
                let ghost before = r@;
                push_lowercase(&mut r, &terms.values[i]);
                proof {
                    let one = seq![terms.values@[i as int]@];
                    assert(values.take(i + 1).drop_last() =~= values.take(i as int));
                    assert(values.take(i + 1).last() == terms.values@[i as int]@);
                    assert(one.drop_last() =~= Seq::empty());
                    reveal_with_fuel(lowercase_texts, 2);
                    assert(views(r@) =~= lowercase_texts(values.take(i + 1)));
                }
                i += 1;
            }
            proof {
                assert(values.take(i as int) =~= values);
            }
            r
        },
        SearchQuery::Bool(combination) => {
            proof {
                lemma_bool_view(*combination);
            }
            let mut must = get_clause_terms(&combination.must);
            let mut should = get_clause_terms(&combination.should);
            let mut filter = get_clause_terms(&combination.filter);
            let ghost (a, b, c) = (must@, should@, filter@);
            must.append(&mut should);
            must.append(&mut filter);
            proof {
                assert(views(must@) =~= views(a) + views(b) + views(c));
            }
            must
        },
        SearchQuery::Prefix(prefix) => tokenize(prefix.value.as_str()),
        SearchQuery::Wildcard(wildcard) => tokenize(wildcard.value.as_str()),
        SearchQuery::Match(query) => tokenize(query.value.as_str()),
        SearchQuery::Phrase(phrase) => tokenize(phrase.value.as_str()),
    }
}

/// A place in a text: where a word begins, and how many bytes long it is.
pub ghost struct Place {
    pub pos: int,
    pub width: int,
}

/// The smaller of two numbers.
pub open spec fn at_most(a: int, b: int) -> int {
    if a <= b {
        a
    } else {
        b
    }
}

/// Where the marked word ends.
pub open spec fn mark_end(bytes: Seq<u8>, place: Place) -> int {
    at_most(place.pos + place.width, bytes.len() as int)
}

/// Whether one of the ends of the marked word splits a character.
pub open spec fn splits(bytes: Seq<u8>, place: Place) -> bool {
    !(is_char_boundary(bytes, place.pos) && is_char_boundary(bytes, mark_end(bytes, place)))
}

/// The text in front of the marked word.
pub open spec fn text_before(bytes: Seq<u8>, place: Place) -> Seq<char> {
    decode_utf8(bytes.subrange(0, place.pos))
}

/// The text behind the marked word.
pub open spec fn text_behind(bytes: Seq<u8>, place: Place) -> Seq<char> {
    decode_utf8(bytes.subrange(mark_end(bytes, place), bytes.len() as int))
}

/// The character at which the fragment around a place begins: up to fifty before the word.
pub open spec fn fragment_start(bytes: Seq<u8>, place: Place) -> int {
    if text_before(bytes, place).len() >= 50 {
        text_before(bytes, place).len() - 50
    } else {
        0
    }
}

/// The fragment around a place, with the word marked: up to fifty characters before the word and
/// up to thirty behind it.
pub open spec fn fragment_text(bytes: Seq<u8>, place: Place) -> Seq<char> {
    let before = text_before(bytes, place);
    let behind = text_behind(bytes, place);
    before.skip(fragment_start(bytes, place)) + "<em>"@ + decode_utf8(
        bytes.subrange(place.pos, mark_end(bytes, place)),
    ) + "</em>"@ + behind.take(at_most(behind.len() as int, 30))
}

/// The places among the positions: those that lie within the text and split no character.
pub open spec fn places_at(positions: Seq<u32>, width: int, bytes: Seq<u8>) -> Seq<Place>
    decreases positions.len(),
{
    if positions.len() == 0 {
        Seq::empty()
    } else {
        let before = places_at(positions.drop_last(), width, bytes);
        let place = Place { pos: positions.last() as int, width };
        if positions.last() < bytes.len() && !splits(bytes, place) {
            before.push(place)
        } else {
            before
        }
    }
}

/// The places of a term in the first `k` segments.
pub open spec fn term_places(
    readers: Seq<ReaderView>,
    term: Seq<char>,
    doc_id: u64,
    bytes: Seq<u8>,
    k: int,
) -> Seq<Place>
    decreases k,
{
    if k <= 0 || k > readers.len() {
        Seq::empty()
    } else {
        term_places(readers, term, doc_id, bytes, k - 1) + places_at(
            term_positions(readers[k - 1], term, doc_id),
            encode_utf8(term).len() as int,
            bytes,
        )
    }
}

/// The places of the first `k` terms.
pub open spec fn all_places(
    readers: Seq<ReaderView>,
    terms: Seq<Seq<char>>,
    doc_id: u64,
    bytes: Seq<u8>,
    k: int,
) -> Seq<Place>
    decreases k,
{
    if k <= 0 || k > terms.len() {
        Seq::empty()
    } else {
        all_places(readers, terms, doc_id, bytes, k - 1) + term_places(
            readers,
            terms[k - 1],
            doc_id,
            bytes,
            readers.len() as int,
        )
    }
}

/// The places that are highlighted in a text.
pub open spec fn text_places(
    text: Seq<char>,
    readers: Seq<ReaderView>,
    terms: Seq<Seq<char>>,
    doc_id: u64,
) -> Seq<Place> {
    all_places(readers, terms, doc_id, encode_utf8(text), terms.len() as int)
}

/// Whether `order` lists all places by where their fragments begin, those that begin at the
/// same character in the order in which they were found.
pub open spec fn in_start_order(bytes: Seq<u8>, places: Seq<Place>, order: Seq<int>) -> bool {
    &&& is_arrangement(order, places.len() as int)
    &&& forall|i: int, j: int|
        0 <= i < j < order.len() ==> {
            let a = #[trigger] order[i];
            let b = #[trigger] order[j];
            fragment_start(bytes, places[a]) < fragment_start(bytes, places[b]) || (fragment_start(bytes, places[a])
                == fragment_start(bytes, places[b]) && a < b)
        }
}

/// The texts of a list, each where it stands first.
pub open spec fn distinct(texts: Seq<Seq<char>>) -> Seq<Seq<char>>
    decreases texts.len(),
{
    if texts.len() == 0 {
        Seq::empty()
    } else {
        let before = distinct(texts.drop_last());
        if before.contains(texts.last()) {
            before
        } else {
            before.push(texts.last())
        }
    }
}

/// The fragments of those places, in that order.
pub open spec fn fragments_in_order(
    bytes: Seq<u8>,
    places: Seq<Place>,
    order: Seq<int>,
) -> Seq<Seq<char>> {
    Seq::new(order.len(), |i: int| fragment_text(bytes, places[order[i]]))
}

/// Whether `fragments` are the first three different fragments of the text, or all of them where
/// there are fewer.
pub open spec fn are_first_fragments(
    text: Seq<char>,
    places: Seq<Place>,
    fragments: Seq<Seq<char>>,
) -> bool {
    exists|order: Seq<int>| #[trigger]
        in_start_order(encode_utf8(text), places, order) && {
            let all = distinct(fragments_in_order(encode_utf8(text), places, order));
            fragments == all.take(at_most(all.len() as int, 3))
        }
}

/// No text stands twice among the different ones, and there is one where there are any.
proof fn lemma_distinct(texts: Seq<Seq<char>>)
    ensures
        texts.len() > 0 ==> distinct(texts).len() > 0,
        forall|i: int, j: int|
            0 <= i < j < distinct(texts).len() ==> #[trigger] distinct(texts)[i]
                != #[trigger] distinct(texts)[j],
    decreases texts.len(),
{
    if texts.len() > 0 {
        lemma_distinct(texts.drop_last());
        let before = distinct(texts.drop_last());
        if before.contains(texts.last()) {
            let i = choose|i: int| 0 <= i < before.len() && before[i] == texts.last();
            assert(before.len() > 0);
        } else {
            assert forall|i: int, j: int|
                0 <= i < j < distinct(texts).len() implies #[trigger] distinct(texts)[i]
                != #[trigger] distinct(texts)[j] by {
                assert(before[i] == distinct(texts)[i]);
            }
        }
    }
}

/// The different ones of the first texts come first among the different ones of all.
proof fn lemma_distinct_grows(texts: Seq<Seq<char>>, k: int)
    requires
        0 <= k <= texts.len(),
    ensures
        distinct(texts.take(k)).len() <= distinct(texts).len(),
        distinct(texts.take(k)) == distinct(texts).take(distinct(texts.take(k)).len() as int),
    decreases texts.len() - k,
{
    if k < texts.len() {
        lemma_distinct_grows(texts, k + 1);
        assert(texts.take(k + 1).drop_last() =~= texts.take(k));
        let shorter = distinct(texts.take(k));
        let longer = distinct(texts.take(k + 1));
        assert(shorter =~= longer.take(shorter.len() as int));
        assert(distinct(texts).take(longer.len() as int).take(shorter.len() as int)
            =~= distinct(texts).take(shorter.len() as int));
    } else {
        assert(texts.take(k) =~= texts);
        assert(distinct(texts).take(distinct(texts).len() as int) =~= distinct(texts));
    }
}

/// A fragment, where it begins, and how many were found before it.
struct Fragment {
    start: usize,
    found: usize,
    text: String,
}

impl Sortable for Fragment {
    closed spec fn before(self, other: Fragment) -> bool {
        self.start < other.start || (self.start == other.start && self.found < other.found)
    }

    fn goes_before(&self, other: &Fragment) -> (r: bool) {
        self.start < other.start || (self.start == other.start && self.found < other.found)
    }
}

/// Whether the fragments are those of the places, numbered as they were found.
spec fn are_fragments_of(fragments: Seq<Fragment>, bytes: Seq<u8>, places: Seq<Place>) -> bool {
    &&& fragments.len() == places.len()
    &&& forall|i: int|
        0 <= i < places.len() ==> (#[trigger] fragments[i]).start == fragment_start(bytes, places[i])
            && fragments[i].found == i && fragments[i].text@ == fragment_text(bytes, places[i])
}

proof fn lemma_boundary_in_head(bytes: Seq<u8>, a: int, b: int)
    requires
        vstd::utf8::valid_utf8(bytes),
        0 <= a <= b <= bytes.len(),
        is_char_boundary(bytes, b),
    ensures
        is_char_boundary(bytes.subrange(0, b), a) == is_char_boundary(bytes, a),
        vstd::utf8::valid_utf8(bytes.subrange(0, b)),
{
    let head = bytes.subrange(0, b);
    valid_utf8_split(bytes, b);
    if a < b {
        assert(head[a] == bytes[a]);
        is_char_boundary_iff_not_is_continuation_byte(bytes, a);
        is_char_boundary_iff_not_is_continuation_byte(head, a);
    } else {
        is_char_boundary_start_end_of_seq(head);
    }
}

/// The part of a text between two bytes, if both are boundaries between characters.
fn slice(text: &str, a: usize, b: usize) -> (r: Option<&str>)
    requires
        a <= b <= encode_utf8(text@).len(),
    ensures
        r is Some <==> is_char_boundary(encode_utf8(text@), a as int) && is_char_boundary(
            encode_utf8(text@),
            b as int,
        ),
        r matches Some(s) ==> s@ == decode_utf8(
            encode_utf8(text@).subrange(a as int, b as int),
        ),
{
    let ghost bytes = encode_utf8(text@);
    proof {
        encode_utf8_valid_utf8(text@);
    }
    if !text.is_char_boundary(b) {
        return None;
    }
    let (head, _) = text.split_at(b);
    proof {
        lemma_boundary_in_head(bytes, a as int, b as int);
        assert(encode_utf8(head@) == bytes.subrange(0, b as int));
    }
    if !head.is_char_boundary(a) {
        return None;
    }
    let (_, part) = head.split_at(a);
    proof {
        assert(bytes.subrange(0, b as int).subrange(a as int, b as int) =~= bytes.subrange(
            a as int,
            b as int,
        ));
        assert(encode_utf8(part@) == bytes.subrange(a as int, b as int));
        encode_utf8_decode_utf8(part@);
    }
    Some(part)
}

/// The fragment around a position, and the character at which it begins, unless the word there
/// splits a character.
fn make_fragment(text: &str, length: usize, pos: usize, width: usize) -> (r: Option<(usize, String)>)
    requires
        length == encode_utf8(text@).len(),
        pos < length,
    ensures
        ({
            let bytes = encode_utf8(text@);
            let place = Place { pos: pos as int, width: width as int };
            match r {
                Some((start, fragment)) => !splits(bytes, place) && start == fragment_start(
                    bytes,
                    place,
                ) && fragment@ == fragment_text(bytes, place),
                None => splits(bytes, place),
            }
        }),
{
    let room: usize = length - pos;
    let marked: usize = if width <= room {
        pos + width
    } else {
        length
    };
    let ghost bytes = encode_utf8(text@);
    let ghost place = Place { pos: pos as int, width: width as int };
    proof {
        assert(marked == mark_end(bytes, place));
        encode_utf8_valid_utf8(text@);
        is_char_boundary_start_end_of_seq(bytes);
    }
    match (slice(text, 0, pos), slice(text, pos, marked), slice(text, marked, length)) {
        (Some(before), Some(word), Some(behind)) => {
            let front = chars_of(before);
            let back = chars_of(behind);
            let start: usize = if front.len() >= 50 {
                front.len() - 50
            } else {
                0
            };
            let end: usize = if back.len() <= 30 {
                back.len()
            } else {
                30
            };
            let near = string_of(slice_subrange(front.as_slice(), start, front.len()));
            let next = string_of(slice_subrange(back.as_slice(), 0, end));
            proof {
                assert(near@ =~= text_before(bytes, place).skip(start as int));
                assert(next@ =~= text_behind(bytes, place).take(end as int));
            }
            let fragment = crate::text::cat5(near.as_str(), "<em>", word, "</em>", next.as_str());
            Some((start, fragment))
        },
        _ => None,
    }
}

/// Adds the fragments around the positions of a term.
fn add_fragments(
    fragments: &mut Vec<Fragment>,
    text: &str,
    length: usize,
    positions: &Vec<u32>,
    width: usize,
    Ghost(places): Ghost<Seq<Place>>,
)
    requires
        length == encode_utf8(text@).len(),
        are_fragments_of(old(fragments)@, encode_utf8(text@), places),
    ensures
        are_fragments_of(
            final(fragments)@,
            encode_utf8(text@),
            places + places_at(positions@, width as int, encode_utf8(text@)),
        ),
{
    let ghost bytes = encode_utf8(text@);
    let mut i: usize = 0;
    proof {
        assert(positions@.take(0) =~= Seq::empty());
        assert(places + places_at(positions@.take(0), width as int, bytes) =~= places);
    }
    while i < positions.len()
        invariant
            i <= positions@.len(),
            length == bytes.len(),
            bytes == encode_utf8(text@),
            are_fragments_of(
                fragments@,
                bytes,
                places + places_at(positions@.take(i as int), width as int, bytes),
            ),
        decreases positions@.len() - i,
    {
        let ghost done = places_at(positions@.take(i as int), width as int, bytes);
        let ghost next = places_at(positions@.take(i + 1), width as int, bytes);
        let pos: usize = positions[i] as usize;
        let ghost place = Place { pos: pos as int, width: width as int };
        proof {
            assert(positions@.take(i + 1).drop_last() =~= positions@.take(i as int));
            assert(positions@.take(i + 1).last() == positions@[i as int]);
        }
        if pos < length {
            if let Some((start, fragment)) = make_fragment(text, length, pos, width) {
                let found: usize = fragments.len();
                let ghost before = fragments@;
                fragments.push(Fragment { start, found, text: fragment });
                proof {
                    assert(next == done.push(place));
                    assert(places + next =~= (places + done).push(place));
                    assert forall|k: int| 0 <= k < (places + next).len() implies (
                    #[trigger] fragments@[k]).start == fragment_start(bytes, (places + next)[k])
                        && fragments@[k].found == k && fragments@[k].text@ == fragment_text(
                        bytes,
                        (places + next)[k],
                    ) by {
                        if k < before.len() {
                            assert(fragments@[k] == before[k]);
                            assert((places + next)[k] == (places + done)[k]);
                        }
                    }
                }
            }
        }
        i += 1;
    }
    proof {
        assert(positions@.take(i as int) =~= positions@);
    }
}

/// Adds the fragments around the places of a term in all segments.
fn add_term_fragments(
    fragments: &mut Vec<Fragment>,
    text: &str,
    length: usize,
    term: &str,
    readers: &Vec<PositionsReader>,
    doc_id: u64,
    Ghost(places): Ghost<Seq<Place>>,
)
    requires
        length == encode_utf8(text@).len(),
        are_fragments_of(old(fragments)@, encode_utf8(text@), places),
    ensures
        are_fragments_of(
            final(fragments)@,
            encode_utf8(text@),
            places + term_places(
                reader_views(readers@),
                term@,
                doc_id,
                encode_utf8(text@),
                readers@.len() as int,
            ),
        ),
{
    let ghost bytes = encode_utf8(text@);
    let ghost segments = reader_views(readers@);
    let width: usize = term.as_bytes().len();
    let mut k: usize = 0;
    proof {
        assert(places + term_places(segments, term@, doc_id, bytes, 0) =~= places);
    }
    while k < readers.len()
        invariant
            k <= readers@.len(),
            length == bytes.len(),
            bytes == encode_utf8(text@),
            width == encode_utf8(term@).len(),
            segments == reader_views(readers@),
            are_fragments_of(
                fragments@,
                bytes,
                places + term_places(segments, term@, doc_id, bytes, k as int),
            ),
        decreases readers@.len() - k,
    {
        let ghost done = term_places(segments, term@, doc_id, bytes, k as int);
        let positions = readers[k].positions_of(term, doc_id);
        let ghost new = places_at(positions@, width as int, bytes);
        add_fragments(fragments, text, length, &positions, width, Ghost(places + done));
        proof {
            assert(segments[k as int] == readers@[k as int]@);
            assert(term_places(segments, term@, doc_id, bytes, k + 1) == done + new);
            assert((places + done) + new =~= places + (done + new));
        }
        k += 1;
    }
}

/// The first three fragments of a text.
fn text_fragments(
    text: &str,
    terms: &Vec<String>,
    readers: &Vec<PositionsReader>,
    doc_id: u64,
) -> (r: Vec<String>)
    ensures
        are_first_fragments(
            text@,
            text_places(text@, reader_views(readers@), views(terms@), doc_id),
            views(r@),
        ),
{
    let ghost bytes = encode_utf8(text@);
    let ghost segments = reader_views(readers@);
    let ghost words = views(terms@);
    let length: usize = text.as_bytes().len();
    let mut fragments: Vec<Fragment> = Vec::new();
    let mut k: usize = 0;
    while k < terms.len()
        invariant
            k <= terms@.len(),
            length == bytes.len(),
            bytes == encode_utf8(text@),
            segments == reader_views(readers@),
            words == views(terms@),
            are_fragments_of(
                fragments@,
                bytes,
                all_places(segments, words, doc_id, bytes, k as int),
            ),
        decreases terms@.len() - k,
    {
        let ghost done = all_places(segments, words, doc_id, bytes, k as int);
        proof {
            assert(words[k as int] == terms@[k as int]@);
        }
        add_term_fragments(
            &mut fragments,
            text,
            length,
            terms[k].as_str(),
            readers,
            doc_id,
            Ghost(done),
        );
        k += 1;
    }
    first_fragments(fragments, Ghost(text@), Ghost(text_places(text@, segments, words, doc_id)))
}

/// Whether a text is among those of a list.
fn lists_text(list: &Vec<String>, text: &str) -> (r: bool)
    ensures
        r == views(list@).contains(text@),
{
    let mut i: usize = 0;
    while i < list.len()
        invariant
            i <= list@.len(),
            forall|j: int| 0 <= j < i ==> (#[trigger] list@[j])@ != text@,
        decreases list@.len() - i,
    {
        if text_eq(list[i].as_str(), text) {
            proof {
                assert(views(list@)[i as int] == text@);
            }
            return true;
        }
        i += 1;
    }
    proof {
        if views(list@).contains(text@) {
            let j = choose|j: int| 0 <= j < views(list@).len() && views(list@)[j] == text@;
            assert(list@[j]@ == text@);
        }
    }
    false
}

/// The texts of the first three different fragments.
fn first_fragments(
    fragments: Vec<Fragment>,
    Ghost(text): Ghost<Seq<char>>,
    Ghost(places): Ghost<Seq<Place>>,
) -> (r: Vec<String>)
    requires
        are_fragments_of(fragments@, encode_utf8(text), places),
    ensures
        are_first_fragments(text, places, views(r@)),
{
    let ghost bytes = encode_utf8(text);
    let ghost found = fragments@;
    let sorted = sort(fragments);
    let ghost order = choose|order: Seq<int>|
        #[trigger] is_arrangement(order, found.len() as int) && sorted@ == arranged(found, order);
    proof {
        assert(strictly_ordered(found));
        assert(ascends(sorted@));
        assert(in_start_order(bytes, places, order)) by {
            assert forall|i: int, j: int| 0 <= i < j < order.len() implies ({
                let a = #[trigger] order[i];
                let b = #[trigger] order[j];
                fragment_start(bytes, places[a]) < fragment_start(bytes, places[b]) || (fragment_start(
                    bytes,
                    places[a],
                ) == fragment_start(bytes, places[b]) && a < b)
            }) by {
                assert(sorted@[i].before(sorted@[j]));
                assert(sorted@[i] == found[order[i]]);
                assert(sorted@[j] == found[order[j]]);
            }
        }
    }
    let ghost all = fragments_in_order(encode_utf8(text), places, order);
    let mut r: Vec<String> = Vec::new();
    let mut i: usize = 0;
    proof {
        assert(all.take(0) =~= Seq::empty());
        assert(views(r@) =~= distinct(all.take(0)));
    }
    while i < sorted.len() && r.len() < 3
        invariant
            i <= sorted@.len(),
            sorted@.len() == all.len(),
            sorted@ == arranged(found, order),
            is_arrangement(order, found.len() as int),
            are_fragments_of(found, encode_utf8(text), places),
            all == fragments_in_order(encode_utf8(text), places, order),
            views(r@) == distinct(all.take(i as int)),
            r@.len() <= 3,
        decreases sorted@.len() - i,
    {
        let ghost before = r@;
        proof {
            assert(sorted@[i as int] == found[order[i as int]]);
            assert(all.take(i + 1).drop_last() =~= all.take(i as int));
            assert(all.take(i + 1).last() == sorted@[i as int].text@);
        }
        if !lists_text(&r, sorted[i].text.as_str()) {
            r.push(sorted[i].text.clone());
            proof {
                assert(views(r@) =~= views(before).push(sorted@[i as int].text@));
            }
        }
        i += 1;
    }
    proof {
        lemma_distinct_grows(all, i as int);
        assert(views(r@).len() == r@.len());
        if i == all.len() {
            assert(all.take(i as int) =~= all);
        }
        assert(views(r@) =~= distinct(all).take(at_most(distinct(all).len() as int, 3)));
    }
    r
}

/// The texts with highlights among the first `k` members of a document, by their names.
pub open spec fn highlighted_texts(
    members: Seq<(Seq<char>, JsonView)>,
    readers: Seq<ReaderView>,
    terms: Seq<Seq<char>>,
    doc_id: u64,
    k: int,
) -> Map<Seq<char>, Seq<char>>
    decreases k,
{
    if k <= 0 || k > members.len() {
        Map::empty()
    } else {
        let before = highlighted_texts(members, readers, terms, doc_id, k - 1);
        match members[k - 1].1 {
            JsonView::Text(text) => if text_places(text, readers, terms, doc_id).len() > 0 {
                before.insert(members[k - 1].0, text)
            } else {
                before
            },
            _ => before,
        }
    }
}

/// The texts with highlights in a document, by their names.
pub open spec fn highlighted_in(
    source: JsonView,
    readers: Seq<ReaderView>,
    terms: Seq<Seq<char>>,
    doc_id: u64,
) -> Map<Seq<char>, Seq<char>> {
    match source {
        JsonView::Object(members) => highlighted_texts(
            members,
            readers,
            terms,
            doc_id,
            members.len() as int,
        ),
        _ => Map::empty(),
    }
}

/// Whether `highlights` holds the first fragments of each of the texts.
pub open spec fn are_highlights(
    highlights: Map<Seq<char>, Vec<String>>,
    texts: Map<Seq<char>, Seq<char>>,
    readers: Seq<ReaderView>,
    terms: Seq<Seq<char>>,
    doc_id: u64,
) -> bool {
    &&& highlights.dom() == texts.dom()
    &&& forall|name: Seq<char>| #[trigger]
        texts.contains_key(name) ==> are_first_fragments(
            texts[name],
            text_places(texts[name], readers, terms, doc_id),
            views(highlights[name]@),
        )
}

/// The outcome of highlighting a document: nothing where no text has a highlight.
pub open spec fn is_highlight(
    r: Option<StringMap<Vec<String>>>,
    source: JsonView,
    readers: Seq<ReaderView>,
    terms: Seq<Seq<char>>,
    doc_id: u64,
) -> bool {
    let texts = highlighted_in(source, readers, terms, doc_id);
    match r {
        None => texts == Map::<Seq<char>, Seq<char>>::empty(),
        Some(highlights) => texts != Map::<Seq<char>, Seq<char>>::empty() && are_highlights(
            highlights@,
            texts,
            readers,
            terms,
            doc_id,
        ),
    }
}

/// There are fragments where there are places, and only there.
proof fn lemma_fragments_of_places(
    text: Seq<char>,
    places: Seq<Place>,
    fragments: Seq<Seq<char>>,
)
    requires
        are_first_fragments(text, places, fragments),
    ensures
        fragments.len() > 0 <==> places.len() > 0,
{
    let bytes = encode_utf8(text);
    let order = choose|order: Seq<int>| #[trigger]
        in_start_order(bytes, places, order) && {
            let all = distinct(fragments_in_order(bytes, places, order));
            fragments == all.take(at_most(all.len() as int, 3))
        };
    lemma_distinct(fragments_in_order(bytes, places, order));
}

/// The fragments of a document's texts around the words of a query, up to three of each text.
pub fn extract_highlight(
    document: &IndexDocument,
    doc_id: u64,
    readers: &Vec<PositionsReader>,
    query: &SearchQuery,
) -> (r: Option<StringMap<Vec<String>>>)
    ensures
        is_highlight(r, document.source@, reader_views(readers@), query_terms(query@), doc_id),
{
    broadcast use lemma_object_view;

    let terms = get_query_terms(query);
    let ghost segments = reader_views(readers@);
    let ghost words = query_terms(query@);
    let mut r: StringMap<Vec<String>> = StringMap::new();
    if let Json::Object(members) = &document.source {
        let ghost all = member_views(members@);
        let mut i: usize = 0;
        proof {
            assert(r@.dom() =~= highlighted_texts(all, segments, words, doc_id, 0).dom());
        }
        while i < members.len()
            invariant
                i <= members@.len(),
                all == member_views(members@),
                document.source@ == JsonView::Object(all),
                segments == reader_views(readers@),
                words == views(terms@),
                words == query_terms(query@),
                are_highlights(
                    r@,
                    highlighted_texts(all, segments, words, doc_id, i as int),
                    segments,
                    words,
                    doc_id,
                ),
            decreases members@.len() - i,
        {
            let ghost texts = highlighted_texts(all, segments, words, doc_id, i as int);
            let ghost next = highlighted_texts(all, segments, words, doc_id, i + 1);
            proof {
                assert(all[i as int] == (members@[i as int].0@, members@[i as int].1@));
            }
            if let Json::Text(text) = &members[i].1 {
                let ghost places = text_places(text@, segments, words, doc_id);
                let fragments = text_fragments(text.as_str(), &terms, readers, doc_id);
                proof {
                    lemma_fragments_of_places(text@, places, views(fragments@));
                    assert(views(fragments@).len() == fragments@.len());
                }
                if fragments.len() > 0 {
                    r.insert(members[i].0.clone(), fragments);
                    proof {
                        assert(next == texts.insert(all[i as int].0, text@));
                        assert(r@.dom() =~= next.dom());
                        assert forall|name: Seq<char>| #[trigger]
                            next.contains_key(name) implies are_first_fragments(
                            next[name],
                            text_places(next[name], segments, words, doc_id),
                            views(r@[name]@),
                        ) by {
                            if name != all[i as int].0 {
                                assert(texts.contains_key(name));
                            }
                        }
                    }
                }
            }
            i += 1;
        }
    }
    proof {
        let texts = highlighted_in(document.source@, segments, words, doc_id);
        assert(r@.dom() =~= texts.dom());
    }
    let count: usize = r.len();
    proof {
        crate::map::lemma_map_len(r.pairs());
        let texts = highlighted_in(document.source@, segments, words, doc_id);
        if count == 0 {
            assert(texts =~= Map::empty());
        } else {
            assert(texts != Map::<Seq<char>, Seq<char>>::empty()) by {
                if texts == Map::<Seq<char>, Seq<char>>::empty() {
                    assert(r@.dom() =~= Set::empty());
                }
            }
        }
    }
    if count == 0 {
        None
    } else {
        Some(r)
    }
}

/// A highlighted text has one, two or three fragments, no two of which are the same.
pub proof fn highlights_have_up_to_three_fragments(
    highlights: StringMap<Vec<String>>,
    source: JsonView,
    readers: Seq<ReaderView>,
    terms: Seq<Seq<char>>,
    doc_id: u64,
    name: Seq<char>,
)
    requires
        is_highlight(Some(highlights), source, readers, terms, doc_id),
        highlights@.contains_key(name),
    ensures
        1 <= highlights@[name]@.len() <= 3,
        forall|i: int, j: int|
            0 <= i < j < highlights@[name]@.len() ==> (#[trigger] highlights@[name]@[i])@ != (
            #[trigger] highlights@[name]@[j])@,
{
    let texts = highlighted_in(source, readers, terms, doc_id);
    assert(texts.contains_key(name));
    if let JsonView::Object(members) = source {
        lemma_highlighted_have_places(
            members,
            readers,
            terms,
            doc_id,
            members.len() as int,
            name,
        );
    }
    let shown = views(highlights@[name]@);
    assert(shown.len() == highlights@[name]@.len());
    let places = text_places(texts[name], readers, terms, doc_id);
    let bytes = encode_utf8(texts[name]);
    let order = choose|order: Seq<int>| #[trigger]
        in_start_order(bytes, places, order) && {
            let all = distinct(fragments_in_order(bytes, places, order));
            shown == all.take(at_most(all.len() as int, 3))
        };
    let all = distinct(fragments_in_order(bytes, places, order));
    lemma_distinct(fragments_in_order(bytes, places, order));
    assert forall|i: int, j: int| 0 <= i < j < highlights@[name]@.len() implies (
    #[trigger] highlights@[name]@[i])@ != (#[trigger] highlights@[name]@[j])@ by {
        assert(shown[i] == all[i] && shown[j] == all[j]);
    }
}

proof fn lemma_highlighted_have_places(
    members: Seq<(Seq<char>, JsonView)>,
    readers: Seq<ReaderView>,
    terms: Seq<Seq<char>>,
    doc_id: u64,
    k: int,
    name: Seq<char>,
)
    requires
        highlighted_texts(members, readers, terms, doc_id, k).contains_key(name),
    ensures
        text_places(
            highlighted_texts(members, readers, terms, doc_id, k)[name],
            readers,
            terms,
            doc_id,
        ).len() > 0,
    decreases k,
{
    if 0 < k <= members.len() {
        if highlighted_texts(members, readers, terms, doc_id, k - 1).contains_key(name) {
            lemma_highlighted_have_places(members, readers, terms, doc_id, k - 1, name);
        }
    }
}

/// Whether two highlights show the same fragments of the same texts.
pub open spec fn same_highlight(
    a: Option<StringMap<Vec<String>>>,
    b: Option<StringMap<Vec<String>>>,
) -> bool {
    match (a, b) {
        (None, None) => true,
        (Some(x), Some(y)) => {
            &&& x@.dom() == y@.dom()
            &&& forall|name: Seq<char>| #[trigger]
                x@.contains_key(name) ==> views(x@[name]@) == views(y@[name]@)
        },
        _ => false,
    }
}

/// A document has one highlight.
pub proof fn highlights_are_determined(
    a: Option<StringMap<Vec<String>>>,
    b: Option<StringMap<Vec<String>>>,
    source: JsonView,
    readers: Seq<ReaderView>,
    terms: Seq<Seq<char>>,
    doc_id: u64,
)
    requires
        is_highlight(a, source, readers, terms, doc_id),
        is_highlight(b, source, readers, terms, doc_id),
    ensures
        same_highlight(a, b),
{
    let texts = highlighted_in(source, readers, terms, doc_id);
    if let (Some(x), Some(y)) = (a, b) {
        assert forall|name: Seq<char>| #[trigger] x@.contains_key(name) implies views(x@[name]@)
            == views(y@[name]@) by {
            assert(texts.contains_key(name));
            lemma_one_choice_of_fragments(
                texts[name],
                text_places(texts[name], readers, terms, doc_id),
                views(x@[name]@),
                views(y@[name]@),
            );
        }
    }
}

proof fn lemma_one_choice_of_fragments(
    text: Seq<char>,
    places: Seq<Place>,
    a: Seq<Seq<char>>,
    b: Seq<Seq<char>>,
)
    requires
        are_first_fragments(text, places, a),
        are_first_fragments(text, places, b),
    ensures
        a == b,
{
    let bytes = encode_utf8(text);
    let first = choose|order: Seq<int>| #[trigger]
        in_start_order(bytes, places, order) && {
            let all = distinct(fragments_in_order(bytes, places, order));
            a == all.take(at_most(all.len() as int, 3))
        };
    let second = choose|order: Seq<int>| #[trigger]
        in_start_order(bytes, places, order) && {
            let all = distinct(fragments_in_order(bytes, places, order));
            b == all.take(at_most(all.len() as int, 3))
        };
    let before = |x: int, y: int|
        fragment_start(bytes, places[x]) < fragment_start(bytes, places[y]) || (fragment_start(bytes, places[x])
            == fragment_start(bytes, places[y]) && x < y);
    lemma_one_arrangement(first, second, places.len() as int, before);
}

} // verus!
