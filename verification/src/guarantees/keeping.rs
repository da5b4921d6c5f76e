//! How long an index keeps its documents, and what it makes of its segments and its log.
use vstd::prelude::*;
use vstd::utf8::encode_utf8;

use crate::documents::documents_in_order;
use crate::documents::lemma_listing_exists;
use crate::documents::listing_of;
use crate::documents::under_own_ids;
use crate::documents::with_documents;
use crate::documents::Documents;
use crate::guarantees::counting::lemma_in_both;
use crate::guarantees::texts::stands_before;
use crate::guarantees::texts::texts_are_ordered_as_in_a_dictionary;
use crate::index::after_delete;
use crate::index::after_index;
use crate::index::expiries_after;
use crate::index::loaded_documents;
use crate::index::loaded_sequence;
use crate::index::properties::search_finds_what_matches;
use crate::index::recovered_one;
use crate::index::searching::matches_in;
use crate::index::segments::after_plan;
use crate::index::segments::document_entries;
use crate::index::segments::is_next_manifest;
use crate::index::segments::merge_candidates;
use crate::index::segments::merge_threshold;
use crate::index::segments::noted_entries;
use crate::index::segments::own_entries;
use crate::index::segments::small_segments;
use crate::index::segments::term_entries;
use crate::index::segments::terms_entries;
use crate::index::segments::EntryOfPosting;
use crate::index::snapshots::after_restore;
use crate::index::snapshots::expiries_of;
use crate::index::snapshots::restored_expiries;
use crate::index::EntryView;
use crate::index::IndexManifest;
use crate::index::IndexView;
use crate::index::RecordView;
use crate::index::Recovery;
use crate::index::SegmentMeta;
use crate::index::SegmentSnapshot;
use crate::json::JsonView;
use crate::json::NumberView;
use crate::map::lemma_pair_in_map;
use crate::map::map_of_pairs;
use crate::matching::query_score;
use crate::positions::doc_id_hash;
use crate::positions::document_positions;
use crate::positions::member_positions;
use crate::positions::text_positions;
use crate::positions::word_positions;
use crate::positions::PositionsMap;
use crate::positions::ReaderView;
use crate::text::lower_all;
use crate::text::tokens;
use crate::time::rfc3339_instant;
use crate::time::shifted;
use crate::time::Timestamp;
use crate::types::DocumentView;
use crate::types::IndexSettings;
use crate::types::QueryView;

verus! {

/// The second and nanosecond of a document, in the field that the settings name for it: that which
/// its text names, or its integer as seconds.
pub open spec fn time_of(settings: IndexSettings, source: JsonView) -> Option<(i64, u32)> {
    match settings.primary_time_field {
        None => None,
        Some(field) => match source.member(field@) {
            Some(JsonView::Text(text)) => rfc3339_instant(text),
            Some(JsonView::Number(NumberView::PosInt(n))) => if n <= 8_210_266_876_799 {
                Some((n as i64, 0u32))
            } else {
                None
            },
            Some(JsonView::Number(NumberView::NegInt(n))) => if -8_334_601_228_800 <= n
                <= 8_210_266_876_799 {
                Some((n, 0u32))
            } else {
                None
            },
            _ => None,
        },
    }
}

/// A document with a time expires as many seconds after it as the settings keep documents, and at
/// once where they do not say. One without a time leaves all expiries as they are.
pub proof fn documents_expire_after_their_time(
    settings: IndexSettings,
    expiries: Map<Seq<char>, Timestamp>,
    document: DocumentView,
)
    ensures
        match time_of(settings, document.source) {
            None => expiries_after(settings, expiries, document) == Some(expiries),
            Some((secs, nanos)) => {
                let kept = match settings.retention_secs {
                    Some(kept) => kept as int,
                    None => 0,
                };
                nanos < 1_000_000_000 && kept <= 9_000_000_000_000_000 && -8_334_601_228_800 <= secs
                    && secs + kept <= 8_210_266_876_799 ==> (expiries_after(
                    settings,
                    expiries,
                    document,
                ) matches Some(after) && {
                    &&& after.contains_key(document.id)
                    &&& after[document.id].secs == secs + kept
                    &&& after[document.id].nanos == nanos
                    &&& after.remove(document.id) == expiries.remove(document.id)
                })
            },
        },
{
    if let Some((secs, nanos)) = time_of(settings, document.source) {
        if let Some(after) = expiries_after(settings, expiries, document) {
            assert(after.remove(document.id) =~= expiries.remove(document.id));
        }
    }
}

/// Whether a point in time has come.
pub open spec fn has_come(time: Timestamp, now: Timestamp) -> bool {
    time.secs < now.secs || (time.secs == now.secs && time.nanos <= now.nanos)
}

/// A search finds a document if and only if it is one that a search sees, it matches the query, and
/// it has not expired: its index does not keep documents for a time, or the end of that time has
/// not been noted for it or has not come.
pub proof fn searches_find_what_has_not_expired(
    view: IndexView,
    query: QueryView,
    now: Timestamp,
    readers: Seq<ReaderView>,
    id: Seq<char>,
)
    requires
        view.wf(),
        view.documents.dom().finite(),
    ensures
        (exists|i: int|
            0 <= i < matches_in(view, query, now, readers).len() && (#[trigger] matches_in(
                view,
                query,
                now,
                readers,
            )[i]).document.id == id) <==> {
            &&& view.documents.contains_key(id)
            &&& query_score(view.documents[id].source, query, doc_id_hash(id), readers) is Some
            &&& !(view.metadata.settings.retention_secs is Some
                && view.metadata.settings.primary_time_field is Some && view.expiries.contains_key(
                id,
            ) && has_come(view.expiries[id], now))
        },
        forall|i: int|
            0 <= i < matches_in(view, query, now, readers).len() ==> {
                let found = #[trigger] matches_in(view, query, now, readers)[i];
                &&& view.documents[found.document.id] == found.document
                &&& query_score(
                    found.document.source,
                    query,
                    doc_id_hash(found.document.id),
                    readers,
                ) == Some(found.score)
            },
{
    search_finds_what_matches(view, query, now, readers);
    let found = matches_in(view, query, now, readers);
    if view.documents.contains_key(id) {
        let document = view.documents[id];
        assert(document.id == id);
        if crate::index::searching::match_of(view, document, query, now, readers) is Some {
            let m = crate::index::searching::match_of(view, document, query, now, readers)->0;
            assert(found.contains(m));
            let i = choose|i: int| 0 <= i < found.len() && found[i] == m;
            assert(matches_in(view, query, now, readers)[i].document.id == id);
        }
    }
}

/// Recovering the record of a written document brings the document back, and notes the end of its
/// time as writing it did where documents are kept for a time. Recovering the record of a deletion
/// takes the document and its end away. All else stays, and the number of the record is taken over.
pub proof fn records_are_recovered_as_they_were_written(
    before: Recovery,
    entry: EntryView,
    settings: IndexSettings,
)
    ensures
        match entry.record {
            RecordView::Index(document) => match recovered_one(before, entry, settings) {
                Some(after) => {
                    &&& after.documents == before.documents.insert(document.id, document)
                    &&& after.sequence_number == entry.sequence_number
                    &&& if settings.retention_secs is Some {
                        expiries_after(settings, before.expiries, document) == Some(after.expiries)
                    } else {
                        after.expiries == before.expiries
                    }
                },
                None => expiries_after(settings, before.expiries, document) is None,
            },
            RecordView::Delete(id) => recovered_one(before, entry, settings) matches Some(after) && {
                &&& after.documents == before.documents.remove(id)
                &&& after.expiries == before.expiries.remove(id)
                &&& after.sequence_number == entry.sequence_number
            },
            RecordView::Other => recovered_one(before, entry, settings) matches Some(after) && {
                &&& after.documents == before.documents
                &&& after.expiries == before.expiries
                &&& after.sequence_number == entry.sequence_number
            },
        },
{
}

/// Whether a list holds a document of that id.
pub open spec fn holds_id(list: Seq<DocumentView>, id: Seq<char>) -> bool {
    exists|i: int| 0 <= i < list.len() && (#[trigger] list[i]).id == id
}

proof fn lemma_with_documents(documents: Documents, list: Seq<DocumentView>, id: Seq<char>)
    ensures
        ({
            let after = with_documents(documents, list);
            &&& after.contains_key(id) <==> documents.contains_key(id) || holds_id(list, id)
            &&& holds_id(list, id) ==> list.contains(after[id]) && after[id].id == id
            &&& !holds_id(list, id) && documents.contains_key(id) ==> after[id] == documents[id]
        }),
    decreases list.len(),
{
    if list.len() > 0 {
        let less = list.drop_last();
        let last = list[list.len() - 1];
        lemma_with_documents(documents, less, id);
        let after = with_documents(documents, list);
        if holds_id(less, id) {
            let i = choose|i: int| 0 <= i < less.len() && (#[trigger] less[i]).id == id;
            assert(list[i].id == id);
        }
        if holds_id(list, id) {
            let i = choose|i: int| 0 <= i < list.len() && (#[trigger] list[i]).id == id;
            if i < less.len() {
                assert(less[i].id == id);
            }
        }
        if last.id == id {
            assert(list[list.len() - 1].id == id);
            assert(list.contains(last));
        } else if holds_id(less, id) {
            let j = choose|j: int|
                0 <= j < less.len() && less[j] == with_documents(documents, less)[id];
            assert(list[j] == after[id]);
        }
    }
}

/// Whether a segment could be read and holds a document of that id.
pub open spec fn segment_holds(snapshot: Option<SegmentSnapshot>, id: Seq<char>) -> bool {
    snapshot matches Some(s) && holds_id(crate::documents::document_views(s.documents@), id)
}

proof fn lemma_loaded(snapshots: Seq<Option<SegmentSnapshot>>, k: int, id: Seq<char>)
    requires
        0 <= k <= snapshots.len(),
    ensures
        ({
            let loaded = loaded_documents(snapshots, k);
            if loaded.contains_key(id) {
                exists|i: int|
                    0 <= i < k && segment_holds(#[trigger] snapshots[i], id)
                        && crate::documents::document_views(snapshots[i]->0.documents@).contains(
                        loaded[id],
                    ) && loaded[id].id == id && forall|j: int|
                        i < j < k ==> !segment_holds(#[trigger] snapshots[j], id)
            } else {
                forall|i: int| 0 <= i < k ==> !segment_holds(#[trigger] snapshots[i], id)
            }
        }),
    decreases k,
{
    if k > 0 {
        lemma_loaded(snapshots, k - 1, id);
        let before = loaded_documents(snapshots, k - 1);
        let last = snapshots[k - 1];
        if let Some(snapshot) = last {
            lemma_with_documents(
                before,
                crate::documents::document_views(snapshot.documents@),
                id,
            );
        }
        if segment_holds(last, id) {
            assert(segment_holds(snapshots[k - 1], id));
        } else if before.contains_key(id) {
            let i = choose|i: int|
                0 <= i < k - 1 && segment_holds(#[trigger] snapshots[i], id)
                    && crate::documents::document_views(snapshots[i]->0.documents@).contains(
                    before[id],
                ) && before[id].id == id && forall|j: int|
                    i < j < k - 1 ==> !segment_holds(#[trigger] snapshots[j], id);
            assert(segment_holds(snapshots[i], id));
        }
    }
}

/// An index that is opened has each document that a segment holds, as the last segment has it that
/// does, and no other.
pub proof fn later_segments_come_before_earlier(
    snapshots: Seq<Option<SegmentSnapshot>>,
    id: Seq<char>,
)
    ensures
        ({
            let loaded = loaded_documents(snapshots, snapshots.len() as int);
            if loaded.contains_key(id) {
                exists|i: int|
                    0 <= i < snapshots.len() && segment_holds(#[trigger] snapshots[i], id)
                        && crate::documents::document_views(snapshots[i]->0.documents@).contains(
                        loaded[id],
                    ) && loaded[id].id == id && forall|j: int|
                        i < j < snapshots.len() ==> !segment_holds(#[trigger] snapshots[j], id)
            } else {
                forall|i: int|
                    0 <= i < snapshots.len() ==> !segment_holds(#[trigger] snapshots[i], id)
            }
        }),
{
    lemma_loaded(snapshots, snapshots.len() as int, id);
}

proof fn lemma_loaded_sequence(
    segments: Seq<SegmentMeta>,
    snapshots: Seq<Option<SegmentSnapshot>>,
    k: int,
)
    requires
        0 <= k <= snapshots.len(),
        segments.len() == snapshots.len(),
    ensures
        forall|i: int|
            0 <= i < k && #[trigger] snapshots[i] is Some ==> segments[i].last_sequence_number
                <= loaded_sequence(segments, snapshots, k),
        loaded_sequence(segments, snapshots, k) == 0 || exists|i: int|
            0 <= i < k && #[trigger] snapshots[i] is Some && segments[i].last_sequence_number
                == loaded_sequence(segments, snapshots, k),
    decreases k,
{
    if k > 0 {
        lemma_loaded_sequence(segments, snapshots, k - 1);
        let before = loaded_sequence(segments, snapshots, k - 1);
        if loaded_sequence(segments, snapshots, k) != before {
            assert(snapshots[k - 1] is Some);
        } else if before != 0 {
            let i = choose|i: int|
                0 <= i < k - 1 && #[trigger] snapshots[i] is Some
                    && segments[i].last_sequence_number == before;
            assert(snapshots[i] is Some);
        }
    }
}

/// An index that is opened goes on behind the greatest number up to which a segment that could be
/// read holds all writes, or from the start where none could.
pub proof fn opening_goes_on_behind_the_last_segment(
    segments: Seq<SegmentMeta>,
    snapshots: Seq<Option<SegmentSnapshot>>,
)
    requires
        segments.len() == snapshots.len(),
    ensures
        ({
            let last = loaded_sequence(segments, snapshots, snapshots.len() as int);
            &&& forall|i: int|
                0 <= i < snapshots.len() && #[trigger] snapshots[i] is Some
                    ==> segments[i].last_sequence_number <= last
            &&& last == 0 || exists|i: int|
                0 <= i < snapshots.len() && #[trigger] snapshots[i] is Some
                    && segments[i].last_sequence_number == last
        }),
{
    lemma_loaded_sequence(segments, snapshots, snapshots.len() as int);
}

/// Whether a segment has documents, and fewer than that many.
pub open spec fn has_fewer_than(threshold: int) -> spec_fn(SegmentMeta) -> bool {
    |segment: SegmentMeta| 0 < segment.document_count && segment.document_count < threshold
}

proof fn lemma_small_segments(segments: Seq<SegmentMeta>, threshold: int, k: int)
    requires
        0 <= k <= segments.len(),
    ensures
        small_segments(segments, threshold, k) == segments.take(k).filter(has_fewer_than(threshold)),
    decreases k,
{
    reveal(Seq::filter);
    if k > 0 {
        lemma_small_segments(segments, threshold, k - 1);
        assert(segments.take(k).drop_last() =~= segments.take(k - 1));
        assert(segments.take(k).last() == segments[k - 1]);
    } else {
        assert(segments.take(k) =~= Seq::empty());
    }
}

/// Where at least two segments have documents but fewer than the threshold, all those are merged, in
/// their order. Else the last segment is merged by itself once it has reached the threshold, and
/// nothing before. The threshold is eight documents where the settings do not say.
pub proof fn small_segments_are_merged(segments: Seq<SegmentMeta>, settings: IndexSettings)
    ensures
        ({
            let threshold = match settings.merge_threshold_docs {
                Some(count) => count as int,
                None => 8,
            };
            let small = segments.filter(has_fewer_than(threshold));
            merge_candidates(segments, merge_threshold(settings)) == (if small.len() >= 2 {
                Some(small)
            } else if segments.len() > 0 && segments[segments.len() - 1].document_count
                >= threshold {
                Some(seq![segments[segments.len() - 1]])
            } else {
                None
            })
        }),
{
    let threshold = merge_threshold(settings);
    lemma_small_segments(segments, threshold, segments.len() as int);
    assert(segments.take(segments.len() as int) =~= segments);
}

proof fn lemma_term_entries(
    term: Seq<char>,
    doc_id: u64,
    positions: Seq<u32>,
    entry: EntryOfPosting,
)
    ensures
        term_entries(term, doc_id, positions).contains(entry) <==> entry.term == term
            && entry.doc_id == doc_id && positions.contains(entry.position),
{
    let entries = term_entries(term, doc_id, positions);
    if entries.contains(entry) {
        let i = choose|i: int| 0 <= i < entries.len() && entries[i] == entry;
        assert(positions[i] == entry.position);
    }
    if entry.term == term && entry.doc_id == doc_id && positions.contains(entry.position) {
        let i = choose|i: int| 0 <= i < positions.len() && positions[i] == entry.position;
        assert(entries[i] == entry);
    }
}

proof fn lemma_terms_entries(
    terms: Seq<(Seq<char>, Seq<u32>)>,
    doc_id: u64,
    k: int,
    entry: EntryOfPosting,
)
    requires
        0 <= k <= terms.len(),
    ensures
        terms_entries(terms, doc_id, k).contains(entry) <==> entry.doc_id == doc_id && exists|i:
            int| 0 <= i < k && (#[trigger] terms[i]).0 == entry.term && terms[i].1.contains(
            entry.position,
        ),
    decreases k,
{
    if k > 0 {
        lemma_terms_entries(terms, doc_id, k - 1, entry);
        lemma_term_entries(terms[k - 1].0, doc_id, terms[k - 1].1, entry);
        lemma_in_both(
            terms_entries(terms, doc_id, k - 1),
            term_entries(terms[k - 1].0, doc_id, terms[k - 1].1),
            entry,
        );
    }
}

proof fn lemma_document_entries(id: Seq<char>, positions: PositionsMap, entry: EntryOfPosting)
    requires
        positions.dom().finite(),
    ensures
        document_entries(id, positions).contains(entry) <==> entry.doc_id == doc_id_hash(id)
            && positions.contains_key(entry.term) && positions[entry.term].contains(entry.position),
{
    let terms = listing_of(positions);
    lemma_listing_exists(positions);
    lemma_terms_entries(terms, doc_id_hash(id), terms.len() as int, entry);
    if exists|i: int|
        0 <= i < terms.len() && (#[trigger] terms[i]).0 == entry.term && terms[i].1.contains(
            entry.position,
        ) {
        let i = choose|i: int|
            0 <= i < terms.len() && (#[trigger] terms[i]).0 == entry.term && terms[i].1.contains(
                entry.position,
            );
        lemma_pair_in_map(terms, i);
    }
    if positions.contains_key(entry.term) {
        assert(map_of_pairs(terms).contains_key(entry.term));
        let i = choose|i: int| 0 <= i < terms.len() && (#[trigger] terms[i]).0 == entry.term;
        lemma_pair_in_map(terms, i);
    }
}

proof fn lemma_word_positions_finite(text: Seq<u8>, words: Seq<Seq<char>>, k: int)
    ensures
        word_positions(text, words, k).dom().finite(),
    decreases k,
{
    if 0 < k <= words.len() {
        lemma_word_positions_finite(text, words, k - 1);
    }
}

proof fn lemma_member_positions_finite(members: Seq<(Seq<char>, JsonView)>, k: int)
    ensures
        member_positions(members, k).dom().finite(),
    decreases k,
{
    if 0 < k <= members.len() {
        lemma_member_positions_finite(members, k - 1);
        if let JsonView::Text(text) = members[k - 1].1 {
            let bytes = encode_utf8(lower_all(text));
            let words = tokens(text);
            lemma_word_positions_finite(bytes, words, words.len() as int);
            let before = member_positions(members, k - 1);
            assert(before.union_prefer_right(text_positions(text)).dom() =~= before.dom().union(
                text_positions(text).dom(),
            ));
        }
    }
}

proof fn lemma_noted_entries(
    documents: Seq<DocumentView>,
    noted: Map<Seq<char>, PositionsMap>,
    k: int,
    entry: EntryOfPosting,
)
    requires
        0 <= k <= documents.len(),
        forall|id: Seq<char>| #[trigger] noted.contains_key(id) ==> noted[id].dom().finite(),
    ensures
        noted_entries(documents, noted, k).contains(entry) <==> exists|i: int|
            0 <= i < k && noted.contains_key((#[trigger] documents[i]).id) && entry.doc_id
                == doc_id_hash(documents[i].id) && noted[documents[i].id].contains_key(entry.term)
                && noted[documents[i].id][entry.term].contains(entry.position),
    decreases k,
{
    if k > 0 {
        let id = documents[k - 1].id;
        lemma_noted_entries(documents, noted, k - 1, entry);
        if noted.contains_key(id) {
            lemma_document_entries(id, noted[id], entry);
            lemma_in_both(
                noted_entries(documents, noted, k - 1),
                document_entries(id, noted[id]),
                entry,
            );
        }
    }
}

/// The entries that a flush writes are the positions noted for its documents, and no others.
pub proof fn flushes_write_the_noted_positions(
    documents: Seq<DocumentView>,
    noted: Map<Seq<char>, PositionsMap>,
    entry: EntryOfPosting,
)
    requires
        forall|id: Seq<char>| #[trigger] noted.contains_key(id) ==> noted[id].dom().finite(),
    ensures
        noted_entries(documents, noted, documents.len() as int).contains(entry) <==> exists|i: int|
            0 <= i < documents.len() && noted.contains_key((#[trigger] documents[i]).id)
                && entry.doc_id == doc_id_hash(documents[i].id)
                && noted[documents[i].id].contains_key(entry.term)
                && noted[documents[i].id][entry.term].contains(entry.position),
{
    lemma_noted_entries(documents, noted, documents.len() as int, entry);
}

proof fn lemma_own_entries(documents: Seq<DocumentView>, k: int, entry: EntryOfPosting)
    requires
        0 <= k <= documents.len(),
    ensures
        own_entries(documents, k).contains(entry) <==> exists|i: int|
            0 <= i < k && entry.doc_id == doc_id_hash((#[trigger] documents[i]).id)
                && document_positions(documents[i].source).contains_key(entry.term)
                && document_positions(documents[i].source)[entry.term].contains(entry.position),
    decreases k,
{
    if k > 0 {
        let document = documents[k - 1];
        let positions = document_positions(document.source);
        lemma_own_entries(documents, k - 1, entry);
        if let JsonView::Object(members) = document.source {
            lemma_member_positions_finite(members, members.len() as int);
        }
        assert(positions.dom().finite());
        lemma_document_entries(document.id, positions, entry);
        lemma_in_both(
            own_entries(documents, k - 1),
            document_entries(document.id, positions),
            entry,
        );
    }
}

/// The entries of documents are the positions of the words of their texts, and no others.
pub proof fn entries_are_the_positions_of_words(
    documents: Seq<DocumentView>,
    entry: EntryOfPosting,
)
    ensures
        own_entries(documents, documents.len() as int).contains(entry) <==> exists|i: int|
            0 <= i < documents.len() && entry.doc_id == doc_id_hash((#[trigger] documents[i]).id)
                && document_positions(documents[i].source).contains_key(entry.term)
                && document_positions(documents[i].source)[entry.term].contains(entry.position),
{
    lemma_own_entries(documents, documents.len() as int, entry);
}

/// Whether a document that is written alone expires at that time.
pub open spec fn expires_alike(
    settings: IndexSettings,
    document: DocumentView,
    at: Timestamp,
) -> bool {
    expiries_after(settings, Map::empty(), document) matches Some(alone) && alone.contains_key(
        document.id,
    ) && alone[document.id] == at
}

proof fn lemma_expiries_of(
    settings: IndexSettings,
    kept: u64,
    documents: Seq<DocumentView>,
    k: int,
)
    requires
        0 <= k <= documents.len(),
        expiries_of(settings, kept, documents, k) is Some,
        settings.retention_secs == Some(kept),
        forall|i: int, j: int|
            0 <= i < j < documents.len() ==> (#[trigger] documents[i]).id != (
            #[trigger] documents[j]).id,
    ensures
        ({
            let expiries = expiries_of(settings, kept, documents, k)->0;
            &&& forall|i: int|
                0 <= i < k ==> (expiries.contains_key((#[trigger] documents[i]).id) <==> time_of(
                    settings,
                    documents[i].source,
                ) is Some)
            &&& forall|i: int|
                0 <= i < k && expiries.contains_key((#[trigger] documents[i]).id)
                    ==> expires_alike(settings, documents[i], expiries[documents[i].id])
            &&& forall|id: Seq<char>| #[trigger]
                expiries.contains_key(id) ==> exists|i: int|
                    0 <= i < k && (#[trigger] documents[i]).id == id
        }),
    decreases k,
{
    if k > 0 {
        lemma_expiries_of(settings, kept, documents, k - 1);
        let last = documents[k - 1];
        let before = expiries_of(settings, kept, documents, k - 1)->0;
        let expiries = expiries_of(settings, kept, documents, k)->0;
        documents_expire_after_their_time(settings, Map::empty(), last);
        assert(!before.contains_key(last.id)) by {
            if before.contains_key(last.id) {
                let i = choose|i: int| 0 <= i < k - 1 && (#[trigger] documents[i]).id == last.id;
                assert(documents[i].id != documents[k - 1].id);
            }
        }
        assert forall|i: int| 0 <= i < k implies (expiries.contains_key((#[trigger] documents[i]).id)
            <==> time_of(settings, documents[i].source) is Some) by {
            if i < k - 1 {
                assert(documents[i].id != documents[k - 1].id);
            }
        }
        assert forall|i: int| 0 <= i < k && expiries.contains_key(
            (#[trigger] documents[i]).id,
        ) implies expires_alike(settings, documents[i], expiries[documents[i].id]) by {
            if i < k - 1 {
                assert(documents[i].id != documents[k - 1].id);
                assert(before.contains_key(documents[i].id));
            }
        }
        assert forall|id: Seq<char>| #[trigger] expiries.contains_key(id) implies exists|i: int|
            0 <= i < k && (#[trigger] documents[i]).id == id by {
            if id == last.id {
                assert(documents[k - 1].id == id);
            } else {
                assert(before.contains_key(id));
            }
        }
    }
}

/// Restored documents expire as if they were written anew: where documents are kept for a time, each
/// with a time of its own has an end and no other has. Where they are not, none has.
pub proof fn restored_documents_expire_as_written_ones(
    settings: IndexSettings,
    documents: Seq<DocumentView>,
)
    requires
        forall|i: int, j: int|
            0 <= i < j < documents.len() ==> (#[trigger] documents[i]).id != (
            #[trigger] documents[j]).id,
    ensures
        settings.retention_secs is None ==> restored_expiries(settings, documents) == Some(
            Map::<Seq<char>, Timestamp>::empty(),
        ),
        settings.retention_secs is Some ==> (restored_expiries(settings, documents) matches Some(
            expiries,
        ) ==> {
            &&& forall|i: int|
                0 <= i < documents.len() ==> (expiries.contains_key((#[trigger] documents[i]).id)
                    <==> time_of(settings, documents[i].source) is Some)
            &&& forall|i: int|
                0 <= i < documents.len() && expiries.contains_key((#[trigger] documents[i]).id)
                    ==> expires_alike(settings, documents[i], expiries[documents[i].id])
            &&& forall|id: Seq<char>| #[trigger]
                expiries.contains_key(id) ==> exists|i: int|
                    0 <= i < documents.len() && (#[trigger] documents[i]).id == id
        }),
{
    if let Some(kept) = settings.retention_secs {
        if restored_expiries(settings, documents) is Some {
            lemma_expiries_of(settings, kept, documents, documents.len() as int);
        }
    }
}

/// A document that is written is noted with the positions of its words, if it has any, and what is
/// noted of others stays. It waits for the next refresh, and the number of the write is the next.
pub proof fn written_documents_are_noted(view: IndexView, document: DocumentView, id: Seq<char>)
    requires
        view.sequence_number < u64::MAX,
    ensures
        ({
            let after = after_index(view, document);
            let words = document_positions(document.source);
            &&& words != Map::<Seq<char>, Seq<u32>>::empty() ==> after.positions.contains_key(
                document.id,
            ) && after.positions[document.id] == words
            &&& id != document.id ==> after.positions.contains_key(id)
                == view.positions.contains_key(id) && (view.positions.contains_key(id)
                ==> after.positions[id] == view.positions[id])
            &&& after.documents == view.documents
            &&& after.pending.contains_key(document.id)
            &&& after.sequence_number == view.sequence_number + 1
            &&& after.expiries == view.expiries
            &&& after.manifest == view.manifest
            &&& after.stored == view.stored
            &&& after.metadata == view.metadata
        }),
{
}

/// A document that is deleted waits for the next refresh to be gone from searches, under the next
/// number, and nothing else changes.
pub proof fn deletions_wait(view: IndexView, id: Seq<char>)
    requires
        view.sequence_number < u64::MAX,
    ensures
        ({
            let after = after_delete(view, id);
            &&& !after.current().contains_key(id)
            &&& after.documents == view.documents
            &&& after.sequence_number == view.sequence_number + 1
            &&& after.expiries == view.expiries
            &&& after.positions == view.positions
            &&& after.manifest == view.manifest
            &&& after.stored == view.stored
            &&& after.metadata == view.metadata
        }),
{
}

/// What a segment or a snapshot lists are all documents, each once and in the order of their ids.
pub proof fn listings_hold_each_document_once(documents: Documents)
    requires
        documents.dom().finite(),
        under_own_ids(documents),
    ensures
        ({
            let list = documents_in_order(documents);
            &&& list.len() == documents.dom().len()
            &&& forall|i: int|
                0 <= i < list.len() ==> documents.contains_key((#[trigger] list[i]).id)
                    && documents[list[i].id] == list[i]
            &&& forall|id: Seq<char>| #[trigger]
                documents.contains_key(id) ==> list.contains(documents[id])
            &&& forall|i: int, j: int|
                0 <= i < j < list.len() ==> stands_before(
                    (#[trigger] list[i]).id,
                    (#[trigger] list[j]).id,
                )
        }),
{
    let list = documents_in_order(documents);
    let pairs = listing_of(documents);
    lemma_listing_exists(documents);
    crate::map::lemma_map_len(pairs);
    assert forall|i: int| 0 <= i < list.len() implies documents.contains_key(
        (#[trigger] list[i]).id,
    ) && documents[list[i].id] == list[i] && list[i].id == pairs[i].0 by {
        lemma_pair_in_map(pairs, i);
    }
    assert forall|id: Seq<char>| #[trigger] documents.contains_key(id) implies list.contains(
        documents[id],
    ) by {
        assert(map_of_pairs(pairs).contains_key(id));
        let i = choose|i: int| 0 <= i < pairs.len() && (#[trigger] pairs[i]).0 == id;
        lemma_pair_in_map(pairs, i);
        assert(list[i] == documents[id]);
    }
    assert forall|i: int, j: int| 0 <= i < j < list.len() implies stands_before(
        (#[trigger] list[i]).id,
        (#[trigger] list[j]).id,
    ) by {
        assert(list[i].id == pairs[i].0);
        assert(list[j].id == pairs[j].0);
        assert(crate::text::text_lt(pairs[i].0, pairs[j].0));
        texts_are_ordered_as_in_a_dictionary(list[i].id, list[j].id);
    }
}

/// Seconds are added to a point in time, which keeps its nanoseconds, as far as a date can name
/// the outcome.
pub proof fn seconds_are_added(t: Timestamp, seconds: i64)
    requires
        t.nanos < 1_000_000_000,
        -9_000_000_000_000_000 <= seconds <= 9_000_000_000_000_000,
    ensures
        shifted(t, seconds) == (if -8_334_601_228_800 <= t.secs + seconds <= 8_210_266_876_799 {
            Some(Timestamp { secs: (t.secs + seconds) as i64, nanos: t.nanos })
        } else {
            None
        }),
{
}

/// A restored index has the number and the expiries that it was restored with, nothing waits in it,
/// and its name, settings, mappings and segments are as before.
pub proof fn restoring_replaces_documents_alone(
    view: IndexView,
    documents: Seq<DocumentView>,
    sequence_number: u64,
    expiries: Map<Seq<char>, Timestamp>,
    id: Seq<char>,
)
    ensures
        ({
            let after = after_restore(view, documents, sequence_number, expiries);
            &&& after.documents.contains_key(id) <==> holds_id(documents, id)
            &&& after.current().contains_key(id) <==> holds_id(documents, id)
            &&& after.sequence_number == sequence_number
            &&& after.expiries == expiries
            &&& after.metadata == view.metadata
            &&& after.manifest == view.manifest
        }),
{
    lemma_with_documents(Map::empty(), documents, id);
}

/// Ending a plan installs the manifest that was written, and leaves what waits, the numbers and the
/// expiries as they are.
pub proof fn plans_install_their_manifest(view: IndexView, manifest: IndexManifest)
    ensures
        ({
            let after = after_plan(view, manifest);
            &&& after.manifest == manifest
            &&& after.pending == view.pending
            &&& after.sequence_number == view.sequence_number
            &&& after.expiries == view.expiries
            &&& after.metadata == view.metadata
        }),
{
}

/// Each manifest has the number behind that of the one before it, and holds the segment that it adds
/// behind those it was made with.
pub proof fn manifests_count_up(
    first: IndexManifest,
    second: IndexManifest,
    third: IndexManifest,
    segments: Seq<SegmentMeta>,
    one: SegmentMeta,
    other: SegmentMeta,
    at: Timestamp,
    later: Timestamp,
)
    requires
        is_next_manifest(second, first, segments, one, at),
        is_next_manifest(third, second, second.segments@, other, later),
    ensures
        third.version == first.version + 2,
        third.last_updated == later,
        third.segments@ == segments + seq![one, other],
{
}

} // verus!
