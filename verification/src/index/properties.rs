//! What holds of an index over several operations.
use vstd::prelude::*;

use crate::documents::documents_in_order;
use crate::documents::lemma_listed_documents_come_back;
use crate::documents::lemma_listing_exists;
use crate::documents::listing_of;
use crate::documents::overlay;
use crate::documents::Documents;
use crate::documents::PendingView;
use crate::index::after_delete;
use crate::index::after_eviction;
use crate::index::after_index;
use crate::index::after_refresh;
use crate::index::are_expired_ids;
use crate::index::evicted;
use crate::index::expiries_after;
use crate::index::recovered;
use crate::index::searching::match_of;
use crate::index::searching::matches_among;
use crate::index::searching::matches_in;
use crate::index::segments::after_plan;
use crate::index::segments::has_number;
use crate::index::segments::other_segments;
use crate::index::snapshots::after_restore;
use crate::index::EntryView;
use crate::index::IndexManifest;
use crate::index::IndexView;
use crate::index::RecordView;
use crate::index::Recovery;
use crate::index::SegmentMeta;
use crate::positions::ReaderView;
use crate::search::can_be_ordered;
use crate::search::same_kind;
use crate::search::sort_keys;
use crate::search::sort_value;
use crate::search::MatchView;
use crate::text::text_lt_asymmetric;
use crate::time::Timestamp;
use crate::types::DocumentView;
use crate::types::IndexSettings;
use crate::types::QueryView;
use crate::types::SortSpec;

verus! {

/// A document that was written is read as it was written, and no other has changed.
pub proof fn written_document_is_read(view: IndexView, document: DocumentView)
    ensures
        after_index(view, document).current() == view.current().insert(document.id, document),
        view.sequence_number < u64::MAX ==> after_index(view, document).sequence_number
            == view.sequence_number + 1,
{
    assert(after_index(view, document).current() =~= view.current().insert(
        document.id,
        document,
    ));
}

/// A document that was deleted is no longer read, and no other has changed.
pub proof fn deleted_document_is_gone(view: IndexView, id: Seq<char>)
    ensures
        after_delete(view, id).current() == view.current().remove(id),
        view.sequence_number < u64::MAX ==> after_delete(view, id).sequence_number
            == view.sequence_number + 1,
{
    assert(after_delete(view, id).current() =~= view.current().remove(id));
}

proof fn lemma_same_matches(
    a: IndexView,
    b: IndexView,
    documents: Seq<DocumentView>,
    query: QueryView,
    at: Timestamp,
    readers: Seq<ReaderView>,
    k: int,
)
    requires
        a.metadata == b.metadata,
        a.expiries == b.expiries,
    ensures
        matches_among(a, documents, query, at, readers, k) == matches_among(
            b,
            documents,
            query,
            at,
            readers,
            k,
        ),
    decreases k,
{
    if 0 < k <= documents.len() {
        lemma_same_matches(a, b, documents, query, at, readers, k - 1);
    }
}

/// A search finds the same before and after a document is written or deleted, until the index is
/// refreshed.
pub proof fn writes_wait_for_refresh(
    view: IndexView,
    document: DocumentView,
    id: Seq<char>,
    query: QueryView,
    at: Timestamp,
    readers: Seq<ReaderView>,
)
    ensures
        matches_in(after_index(view, document), query, at, readers) == matches_in(
            view,
            query,
            at,
            readers,
        ),
        matches_in(after_delete(view, id), query, at, readers) == matches_in(
            view,
            query,
            at,
            readers,
        ),
{
    let documents = documents_in_order(view.documents);
    let n = documents.len() as int;
    lemma_same_matches(after_index(view, document), view, documents, query, at, readers, n);
    lemma_same_matches(after_delete(view, id), view, documents, query, at, readers, n);
}

/// After a refresh a search sees all writes so far, no write waits, and no document reads
/// otherwise than before. A second refresh changes nothing.
pub proof fn refresh_shows_all_writes(view: IndexView)
    ensures
        after_refresh(view).documents == view.current(),
        after_refresh(view).pending == Map::<Seq<char>, PendingView>::empty(),
        after_refresh(view).current() == view.current(),
        after_refresh(after_refresh(view)) == after_refresh(view),
{
    assert(overlay(view.current(), Map::empty()) =~= view.current());
}

/// A document is found by a search if and only if the search sees it, it has not expired and it
/// matches the query; it is then found once, with its score.
pub proof fn search_finds_what_matches(
    view: IndexView,
    query: QueryView,
    at: Timestamp,
    readers: Seq<ReaderView>,
)
    requires
        view.wf(),
        view.documents.dom().finite(),
    ensures
        forall|i: int|
            #![trigger matches_in(view, query, at, readers)[i]]
            0 <= i < matches_in(view, query, at, readers).len() ==> {
                let found = matches_in(view, query, at, readers)[i];
                &&& view.documents.contains_key(found.document.id)
                &&& view.documents[found.document.id] == found.document
                &&& match_of(view, found.document, query, at, readers) == Some(found)
            },
        forall|id: Seq<char>|
            #![trigger view.documents[id]]
            view.documents.contains_key(id) && match_of(
                view,
                view.documents[id],
                query,
                at,
                readers,
            ) is Some ==> matches_in(view, query, at, readers).contains(
                match_of(view, view.documents[id], query, at, readers)->0,
            ),
        forall|i: int, j: int|
            #![trigger matches_in(view, query, at, readers)[i],
                matches_in(view, query, at, readers)[j]]
            0 <= i < j < matches_in(view, query, at, readers).len() ==> crate::text::text_lt(
                matches_in(view, query, at, readers)[i].document.id,
                matches_in(view, query, at, readers)[j].document.id,
            ),
{
    lemma_listing_exists(view.documents);
    let listing = listing_of(view.documents);
    let documents = documents_in_order(view.documents);
    assert forall|i: int| 0 <= i < documents.len() implies {
        let id = (#[trigger] documents[i]).id;
        &&& id == listing[i].0
        &&& view.documents.contains_key(id)
        &&& view.documents[id] == documents[i]
    } by {
        crate::map::lemma_pair_in_map(listing, i);
        assert(view.documents.contains_key(listing[i].0));
    }
    lemma_matches_among(view, listing, query, at, readers, documents.len() as int);
    let all = matches_in(view, query, at, readers);
    assert forall|id: Seq<char>|
        #![trigger view.documents[id]]
        view.documents.contains_key(id) && match_of(
            view,
            view.documents[id],
            query,
            at,
            readers,
        ) is Some implies all.contains(
        match_of(view, view.documents[id], query, at, readers)->0,
    ) by {
        assert(crate::map::has_key(listing, id));
        let i = crate::map::key_index(listing, id);
        crate::map::lemma_pair_in_map(listing, i);
        assert(documents[i] == view.documents[id]);
    }
}

/// Whether the values that documents have in a field are all of one kind, as those of a mapped
/// field are.
pub open spec fn of_one_kind(documents: Documents, field: Seq<char>) -> bool {
    forall|a: Seq<char>, b: Seq<char>| #[trigger]
        documents.contains_key(a) && #[trigger] documents.contains_key(b) && sort_value(
            documents[a].source,
            field,
        ) is Some && sort_value(documents[b].source, field) is Some ==> same_kind(
            sort_value(documents[a].source, field)->0,
            sort_value(documents[b].source, field)->0,
        )
}

/// What a search finds can be put in order: by how well it matches, or by a field whose values are
/// of one kind.
pub proof fn found_matches_can_be_ordered(
    view: IndexView,
    query: QueryView,
    at: Timestamp,
    readers: Seq<ReaderView>,
    sort: Option<SortSpec>,
    ranks: Seq<u32>,
)
    requires
        view.wf(),
        view.documents.dom().finite(),
        sort matches Some(spec) ==> of_one_kind(view.documents, spec.field@),
    ensures
        can_be_ordered(sort_keys(matches_in(view, query, at, readers), sort, ranks)),
{
    search_finds_what_matches(view, query, at, readers);
    let matches = matches_in(view, query, at, readers);
    let keys = sort_keys(matches, sort, ranks);
    assert forall|i: int, j: int| 0 <= i < j < keys.len() implies (#[trigger] keys[i]).id != (
    #[trigger] keys[j]).id by {
        text_lt_asymmetric(matches[i].document.id, matches[j].document.id);
    }
    assert forall|i: int, j: int| 0 <= i < keys.len() && 0 <= j < keys.len() implies (
    #[trigger] keys[i]).descending == (#[trigger] keys[j]).descending && (keys[i].value is Some
        && keys[j].value is Some ==> same_kind(keys[i].value->0, keys[j].value->0)) by {
        assert(view.documents.contains_key(matches[i].document.id));
        assert(view.documents.contains_key(matches[j].document.id));
    }
}

proof fn lemma_matches_among(
    view: IndexView,
    listing: Seq<(Seq<char>, DocumentView)>,
    query: QueryView,
    at: Timestamp,
    readers: Seq<ReaderView>,
    k: int,
)
    requires
        view.wf(),
        listing == listing_of(view.documents),
        crate::map::keys_ascend(listing),
        0 <= k <= listing.len(),
        forall|i: int|
            0 <= i < listing.len() ==> {
                let document = (#[trigger] documents_in_order(view.documents)[i]);
                &&& document.id == listing[i].0
                &&& view.documents.contains_key(document.id)
                &&& view.documents[document.id] == document
            },
    ensures
        forall|i: int|
            0 <= i < matches_among(
                view,
                documents_in_order(view.documents),
                query,
                at,
                readers,
                k,
            ).len() ==> {
                let found = (#[trigger] matches_among(
                    view,
                    documents_in_order(view.documents),
                    query,
                    at,
                    readers,
                    k,
                )[i]);
                &&& view.documents.contains_key(found.document.id)
                &&& view.documents[found.document.id] == found.document
                &&& match_of(view, found.document, query, at, readers) == Some(found)
                &&& forall|j: int|
                    k <= j < listing.len() ==> crate::text::text_lt(
                        found.document.id,
                        (#[trigger] listing[j]).0,
                    )
            },
        forall|j: int|
            0 <= j < k && match_of(
                view,
                #[trigger] documents_in_order(view.documents)[j],
                query,
                at,
                readers,
            ) is Some ==> matches_among(
                view,
                documents_in_order(view.documents),
                query,
                at,
                readers,
                k,
            ).contains(
                match_of(view, documents_in_order(view.documents)[j], query, at, readers)->0,
            ),
        ids_ascend(
            matches_among(view, documents_in_order(view.documents), query, at, readers, k),
        ),
    decreases k,
{
    if k > 0 {
        lemma_matches_among(view, listing, query, at, readers, k - 1);
        let documents = documents_in_order(view.documents);
        let before = matches_among(view, documents, query, at, readers, k - 1);
        let after = matches_among(view, documents, query, at, readers, k);
        let document = documents[k - 1];
        assert(document.id == listing[k - 1].0);
        let this = match_of(view, document, query, at, readers);
        assert forall|i: int| 0 <= i < after.len() implies {
            let found = #[trigger] after[i];
            &&& view.documents.contains_key(found.document.id)
            &&& view.documents[found.document.id] == found.document
            &&& match_of(view, found.document, query, at, readers) == Some(found)
            &&& forall|j: int|
                k <= j < listing.len() ==> crate::text::text_lt(
                    found.document.id,
                    (#[trigger] listing[j]).0,
                )
        } by {
            if i < before.len() {
                assert(after[i] == before[i]);
            } else {
                assert(after[i] == this->0);
                assert forall|j: int| k <= j < listing.len() implies crate::text::text_lt(
                    document.id,
                    (#[trigger] listing[j]).0,
                ) by {
                    assert(crate::text::text_lt(listing[k - 1].0, listing[j].0));
                }
            }
        }
        assert forall|j: int|
            0 <= j < k && match_of(view, #[trigger] documents[j], query, at, readers)
                is Some implies after.contains(
            match_of(view, documents[j], query, at, readers)->0,
        ) by {
            if j < k - 1 {
                let found = match_of(view, documents[j], query, at, readers)->0;
                assert(before.contains(found));
                let i = choose|i: int| 0 <= i < before.len() && before[i] == found;
                assert(after[i] == found);
            } else {
                assert(after[before.len() as int] == this->0);
            }
        }
        assert forall|i: int, j: int| 0 <= i < j < after.len() implies crate::text::text_lt(
            (#[trigger] after[i]).document.id,
            (#[trigger] after[j]).document.id,
        ) by {
            assert(after[i] == before[i]);
            if j < before.len() {
                assert(after[j] == before[j]);
            } else {
                assert(crate::text::text_lt(before[i].document.id, listing[k - 1].0));
            }
        }
    }
}

/// Whether the ids of the documents ascend.
pub open spec fn ids_ascend(matches: Seq<MatchView>) -> bool {
    forall|i: int, j: int|
        0 <= i < j < matches.len() ==> crate::text::text_lt(
            (#[trigger] matches[i]).document.id,
            (#[trigger] matches[j]).document.id,
        )
}

/// Evicting the documents that have expired deletes them and no others, and none has expired
/// afterwards.
pub proof fn eviction_deletes_what_expired(view: IndexView, ids: Seq<Seq<char>>, at: Timestamp)
    requires
        are_expired_ids(ids, view, at),
    ensures
        evicted(view, ids, ids.len() as int).current() == view.current().remove_keys(
            Set::new(|id: Seq<char>| view.expired(id, at)),
        ),
        forall|id: Seq<char>| !#[trigger] evicted(view, ids, ids.len() as int).expired(id, at),
{
    let after = evicted(view, ids, ids.len() as int);
    lemma_evicted(view, ids, ids.len() as int);
    assert(ids.take(ids.len() as int) =~= ids);
    assert forall|id: Seq<char>| ids.contains(id) == view.expired(id, at) by {
        if ids.contains(id) {
            let i = choose|i: int| 0 <= i < ids.len() && ids[i] == id;
            assert(view.expired(ids[i], at));
        }
    }
    assert(after.current() =~= view.current().remove_keys(
        Set::new(|id: Seq<char>| view.expired(id, at)),
    ));
    assert forall|id: Seq<char>| !#[trigger] after.expired(id, at) by {
        if after.expired(id, at) {
            assert(view.expired(id, at));
        }
    }
}

proof fn lemma_evicted(view: IndexView, ids: Seq<Seq<char>>, k: int)
    requires
        0 <= k <= ids.len(),
    ensures
        evicted(view, ids, k).metadata == view.metadata,
        forall|id: Seq<char>| #[trigger]
            evicted(view, ids, k).current().contains_key(id) == (view.current().contains_key(id)
                && !ids.take(k).contains(id)),
        forall|id: Seq<char>| #[trigger]
            evicted(view, ids, k).current().contains_key(id) ==> evicted(view, ids, k).current()[id]
                == view.current()[id],
        forall|id: Seq<char>| #[trigger]
            evicted(view, ids, k).expiries.contains_key(id) == (view.expiries.contains_key(id)
                && !ids.take(k).contains(id)),
        forall|id: Seq<char>| #[trigger]
            evicted(view, ids, k).expiries.contains_key(id) ==> evicted(view, ids, k).expiries[id]
                == view.expiries[id],
    decreases k,
{
    if k > 0 {
        lemma_evicted(view, ids, k - 1);
        let before = evicted(view, ids, k - 1);
        let id = ids[k - 1];
        deleted_document_is_gone(before, id);
        assert(after_eviction(before, id).current() =~= after_delete(before, id).current());
        let shorter = ids.take(k - 1);
        let longer = ids.take(k);
        assert forall|other: Seq<char>| #[trigger] longer.contains(other) == (shorter.contains(
            other,
        ) || other == id) by {
            if shorter.contains(other) {
                let i = choose|i: int| 0 <= i < shorter.len() && shorter[i] == other;
                assert(longer[i] == other);
            }
            if other == id {
                assert(longer[k - 1] == other);
            }
            if longer.contains(other) && other != id {
                let i = choose|i: int| 0 <= i < longer.len() && longer[i] == other;
                assert(shorter[i] == other);
            }
        }
        assert forall|other: Seq<char>| #[trigger]
            evicted(view, ids, k).current().contains_key(other) == (view.current().contains_key(
                other,
            ) && !ids.take(k).contains(other)) by {
            assert(before.current().contains_key(other) == (view.current().contains_key(other)
                && !ids.take(k - 1).contains(other)));
        }
        assert forall|other: Seq<char>| #[trigger]
            evicted(view, ids, k).expiries.contains_key(other) == (view.expiries.contains_key(
                other,
            ) && !ids.take(k).contains(other)) by {
            assert(before.expiries.contains_key(other) == (view.expiries.contains_key(other)
                && !ids.take(k - 1).contains(other)));
        }
        assert forall|other: Seq<char>| #[trigger]
            evicted(view, ids, k).current().contains_key(other) implies evicted(
            view,
            ids,
            k,
        ).current()[other] == view.current()[other] by {
            assert(before.current().contains_key(other));
        }
        assert forall|other: Seq<char>| #[trigger]
            evicted(view, ids, k).expiries.contains_key(other) implies evicted(
            view,
            ids,
            k,
        ).expiries[other] == view.expiries[other] by {
            assert(before.expiries.contains_key(other));
        }
    }
}

/// Merging everything changes no document: each reads as before, a search sees them all, and the
/// refresh that follows leaves them as they are.
pub proof fn merge_changes_no_document(view: IndexView)
    ensures
        (IndexView { documents: view.current(), ..view }).current() == view.current(),
        after_refresh(IndexView { documents: view.current(), ..view }).documents
            == view.current(),
{
    assert((IndexView { documents: view.current(), ..view }).current() =~= view.current());
}

/// A plan changes no document, whatever it merges: each reads as before, a search sees them all,
/// and the segments hold them all.
pub proof fn plan_changes_no_document(view: IndexView, manifest: IndexManifest)
    ensures
        after_plan(view, manifest).current() == view.current(),
        after_plan(view, manifest).documents == view.current(),
        after_plan(view, manifest).stored == view.current().dom(),
{
    assert(after_plan(view, manifest).current() =~= view.current());
}

/// A plan takes from the manifest the segments whose numbers it lists and no others, and leaves
/// the rest in their order.
pub proof fn plan_leaves_other_segments(segments: Seq<SegmentMeta>, plan: Seq<SegmentMeta>)
    ensures
        other_segments(segments, plan, segments.len() as int) == segments.filter(
            |s: SegmentMeta| !has_number(plan, s.segment_number),
        ),
{
    lemma_other_segments(segments, plan, segments.len() as int);
    assert(segments.take(segments.len() as int) =~= segments);
}

proof fn lemma_other_segments(segments: Seq<SegmentMeta>, plan: Seq<SegmentMeta>, k: int)
    requires
        0 <= k <= segments.len(),
    ensures
        other_segments(segments, plan, k) == segments.take(k).filter(
            |s: SegmentMeta| !has_number(plan, s.segment_number),
        ),
    decreases k,
{
    let keep = |s: SegmentMeta| !has_number(plan, s.segment_number);
    reveal(Seq::filter);
    if k > 0 {
        lemma_other_segments(segments, plan, k - 1);
        assert(segments.take(k).drop_last() =~= segments.take(k - 1));
        assert(segments.take(k).last() == segments[k - 1]);
    } else {
        assert(segments.take(0) =~= Seq::empty());
    }
}

/// Restoring a snapshot brings back the documents that the index had when the snapshot was made,
/// whatever was written since, and forgets the writes that wait.
pub proof fn snapshot_comes_back(
    made: IndexView,
    later: IndexView,
    sequence_number: u64,
    expiries: Map<Seq<char>, Timestamp>,
)
    requires
        made.wf(),
        made.current().dom().finite(),
    ensures
        ({
            let restored = after_restore(
                later,
                documents_in_order(made.current()),
                sequence_number,
                expiries,
            );
            &&& restored.documents == made.current()
            &&& restored.current() == made.current()
        }),
{
    let documents = made.current();
    lemma_listing_exists(documents);
    lemma_listed_documents_come_back(documents, listing_of(documents));
    let restored = after_restore(
        later,
        documents_in_order(documents),
        sequence_number,
        expiries,
    );
    assert(restored.current() =~= documents);
}

/// The view after the first `k` records were written, under the next sequence numbers.
pub open spec fn written(view: IndexView, records: Seq<RecordView>, k: int) -> IndexView
    decreases k,
{
    if k <= 0 || k > records.len() {
        view
    } else {
        let before = written(view, records, k - 1);
        match records[k - 1] {
            RecordView::Index(document) => after_index(before, document),
            RecordView::Delete(id) => after_delete(before, id),
            RecordView::Other => IndexView {
                sequence_number: (before.sequence_number + 1) as u64,
                ..before
            },
        }
    }
}

/// The entries of the write-ahead log for those records.
pub open spec fn logged(sequence_number: u64, records: Seq<RecordView>) -> Seq<EntryView> {
    Seq::new(
        records.len(),
        |i: int| EntryView { sequence_number: (sequence_number + 1 + i) as u64, record: records[i] },
    )
}

/// Whether dates can name when the documents of those records expire.
pub open spec fn expiries_have_dates(records: Seq<RecordView>, settings: IndexSettings) -> bool {
    forall|i: int|
        0 <= i < records.len() ==> (#[trigger] records[i] matches RecordView::Index(document)
            ==> expiries_after(settings, Map::empty(), document) is Some)
}

/// Recovering the write-ahead log brings back the documents and the sequence number that the
/// writes came to.
pub proof fn recovery_brings_writes_back(
    view: IndexView,
    expiries: Map<Seq<char>, Timestamp>,
    records: Seq<RecordView>,
    settings: IndexSettings,
)
    requires
        view.sequence_number + records.len() <= u64::MAX,
        expiries_have_dates(records, settings),
    ensures
        ({
            let start = Recovery {
                documents: view.current(),
                expiries,
                sequence_number: view.sequence_number,
            };
            let entries = logged(view.sequence_number, records);
            let after = written(view, records, records.len() as int);
            &&& recovered(start, entries, settings, entries.len() as int) matches Some(end)
            &&& end.documents == after.current()
            &&& end.sequence_number == after.sequence_number
        }),
{
    lemma_recovery(view, expiries, records, settings, records.len() as int);
}

proof fn lemma_recovery(
    view: IndexView,
    expiries: Map<Seq<char>, Timestamp>,
    records: Seq<RecordView>,
    settings: IndexSettings,
    k: int,
)
    requires
        0 <= k <= records.len(),
        view.sequence_number + records.len() <= u64::MAX,
        expiries_have_dates(records, settings),
    ensures
        written(view, records, k).sequence_number == view.sequence_number + k,
        ({
            let start = Recovery {
                documents: view.current(),
                expiries,
                sequence_number: view.sequence_number,
            };
            let after = written(view, records, k);
            &&& recovered(start, logged(view.sequence_number, records), settings, k) matches Some(
                end,
            )
            &&& end.documents == after.current()
            &&& end.sequence_number == after.sequence_number
        }),
    decreases k,
{
    if k > 0 {
        lemma_recovery(view, expiries, records, settings, k - 1);
        let before = written(view, records, k - 1);
        let entries = logged(view.sequence_number, records);
        assert(entries[k - 1].record == records[k - 1]);
        assert(entries[k - 1].sequence_number == view.sequence_number + k);
        match records[k - 1] {
            RecordView::Index(document) => {
                written_document_is_read(before, document);
            },
            RecordView::Delete(id) => {
                deleted_document_is_gone(before, id);
            },
            RecordView::Other => {},
        }
    }
}

} // verus!
