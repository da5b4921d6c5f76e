//! What an index finds on disk when it is opened again.
use vstd::prelude::*;

use crate::documents::document_views;
use crate::documents::documents_in_order;
use crate::documents::lemma_listed_documents_come_back;
use crate::documents::lemma_listing_exists;
use crate::documents::listing_of;
use crate::documents::under_own_ids;
use crate::documents::with_documents;
use crate::documents::Documents;
use crate::documents::PendingView;
use crate::index::after_delete;
use crate::index::after_eviction;
use crate::index::after_index;
use crate::index::after_refresh;
use crate::index::lemma_with_documents_ids;
use crate::index::loaded_documents;
use crate::index::loaded_sequence;
use crate::index::properties::deleted_document_is_gone;
use crate::index::properties::expiries_have_dates;
use crate::index::properties::logged;
use crate::index::properties::merge_changes_no_document;
use crate::index::properties::plan_changes_no_document;
use crate::index::properties::written_document_is_read;
use crate::index::recovered;
use crate::index::segments::after_plan;
use crate::index::segments::has_number;
use crate::index::segments::is_snapshot_of;
use crate::index::segments::other_segments;
use crate::index::EntryView;
use crate::index::IndexManifest;
use crate::index::IndexView;
use crate::index::RecordView;
use crate::index::Recovery;
use crate::index::SegmentMeta;
use crate::index::SegmentSnapshot;
use crate::time::Timestamp;
use crate::types::DocumentView;
use crate::types::IndexMetadata;
use crate::types::IndexSettings;

verus! {

/// An open index, those of its segments that can be read, and the records of the write-ahead log
/// behind them.
pub ghost struct Store {
    pub view: IndexView,
    pub snapshots: Seq<Option<SegmentSnapshot>>,
    pub records: Seq<RecordView>,
}

/// The documents after the first `k` records.
pub open spec fn documents_after(documents: Documents, records: Seq<RecordView>, k: int) -> Documents
    decreases k,
{
    if k <= 0 || k > records.len() {
        documents
    } else {
        let before = documents_after(documents, records, k - 1);
        match records[k - 1] {
            RecordView::Index(document) => before.insert(document.id, document),
            RecordView::Delete(id) => before.remove(id),
            RecordView::Other => before,
        }
    }
}

impl Store {
    /// The documents that the segments come to.
    pub open spec fn loaded(self) -> Documents {
        loaded_documents(self.snapshots, self.snapshots.len() as int)
    }

    /// The number of the last write that the segments hold.
    pub open spec fn loaded_number(self) -> u64 {
        loaded_sequence(
            self.view.manifest.segments@,
            self.snapshots,
            self.snapshots.len() as int,
        )
    }

    /// Whether segments and records together come to what the index holds.
    pub open spec fn complete(self) -> bool {
        &&& self.view.wf()
        &&& self.view.current().dom().finite()
        &&& self.snapshots.len() == self.view.manifest.segments@.len()
        &&& self.view.stored == self.loaded().dom()
        &&& self.loaded_number() + self.records.len() == self.view.sequence_number
        &&& expiries_have_dates(self.records, self.view.metadata.settings)
        &&& documents_after(self.loaded(), self.records, self.records.len() as int)
            == self.view.current()
    }

    /// The segments that the next manifest takes over, as they can be read.
    pub open spec fn kept_snapshots(self) -> Seq<Option<SegmentSnapshot>> {
        if self.view.stored.subset_of(self.view.current().dom()) {
            self.snapshots
        } else {
            Seq::empty()
        }
    }
}

/// The ones of the first `k` segments that a plan does not merge, as they can be read.
pub open spec fn other_snapshots(
    segments: Seq<SegmentMeta>,
    snapshots: Seq<Option<SegmentSnapshot>>,
    plan: Seq<SegmentMeta>,
    k: int,
) -> Seq<Option<SegmentSnapshot>>
    decreases k,
{
    if k <= 0 || k > segments.len() {
        Seq::empty()
    } else if has_number(plan, segments[k - 1].segment_number) {
        other_snapshots(segments, snapshots, plan, k - 1)
    } else {
        other_snapshots(segments, snapshots, plan, k - 1).push(snapshots[k - 1])
    }
}

/// Something that is done to an index: a document is admitted, which leaves other metadata, its
/// expiry is noted, a record is written, an expired document is deleted, the index is refreshed,
/// merged or flushed, or a plan is carried out. Restoring a named snapshot is none of these: it is
/// not entered in the manifest.
pub ghost enum Step {
    Admit(IndexMetadata),
    NoteExpiry(Map<Seq<char>, Timestamp>),
    Write(RecordView),
    Evict(Seq<char>),
    Refresh(IndexMetadata),
    Merge,
    Flush { manifest: IndexManifest, snapshot: SegmentSnapshot },
    Plan { plan: Seq<SegmentMeta>, manifest: IndexManifest, snapshot: SegmentSnapshot },
}

/// Whether a manifest adds a segment with all documents to those segments.
pub open spec fn adds_segment(
    manifest: IndexManifest,
    kept: Seq<SegmentMeta>,
    snapshot: SegmentSnapshot,
    view: IndexView,
) -> bool {
    &&& is_snapshot_of(snapshot, view.current(), view.sequence_number)
    &&& manifest.segments@.len() == kept.len() + 1
    &&& manifest.segments@.drop_last() == kept
    &&& manifest.segments@.last().last_sequence_number == snapshot.last_sequence_number
}

/// Whether a step can be taken: there is a number for the record that it writes and a date at
/// which its document expires, and the segment that it writes is the one that is due. A plan that
/// merges nothing is no step.
pub open spec fn can_take(store: Store, step: Step) -> bool {
    let view = store.view;
    match step {
        Step::Admit(metadata) => metadata.settings == view.metadata.settings,
        Step::NoteExpiry(_) => true,
        Step::Write(record) => view.sequence_number < u64::MAX && expiries_have_dates(
            seq![record],
            view.metadata.settings,
        ),
        Step::Evict(id) => view.sequence_number < u64::MAX,
        Step::Refresh(metadata) => metadata.settings == view.metadata.settings,
        Step::Merge => true,
        Step::Flush { manifest, snapshot } => adds_segment(
            manifest,
            view.kept_segments(),
            snapshot,
            view,
        ),
        Step::Plan { plan, manifest, snapshot } => plan.len() > 0 && adds_segment(
            manifest,
            other_segments(view.kept_segments(), plan, view.kept_segments().len() as int),
            snapshot,
            view,
        ),
    }
}

/// The index, its segments and its records after a step.
pub open spec fn after_step(store: Store, step: Step) -> Store {
    let view = store.view;
    match step {
        Step::Admit(metadata) => Store { view: IndexView { metadata, ..view }, ..store },
        Step::NoteExpiry(expiries) => Store { view: IndexView { expiries, ..view }, ..store },
        Step::Write(record) => Store {
            view: match record {
                RecordView::Index(document) => after_index(view, document),
                RecordView::Delete(id) => after_delete(view, id),
                RecordView::Other => IndexView {
                    sequence_number: (view.sequence_number + 1) as u64,
                    ..view
                },
            },
            records: store.records.push(record),
            ..store
        },
        Step::Evict(id) => Store {
            view: after_eviction(view, id),
            records: store.records.push(RecordView::Delete(id)),
            ..store
        },
        Step::Refresh(metadata) => Store {
            view: IndexView { metadata, ..after_refresh(view) },
            ..store
        },
        Step::Merge => Store { view: IndexView { documents: view.current(), ..view }, ..store },
        Step::Flush { manifest, snapshot } => Store {
            view: IndexView {
                manifest,
                stored: with_documents(Map::empty(), document_views(snapshot.documents@)).dom(),
                positions: Map::empty(),
                ..view
            },
            snapshots: store.kept_snapshots().push(Some(snapshot)),
            records: Seq::empty(),
        },
        Step::Plan { plan, manifest, snapshot } => Store {
            view: after_plan(view, manifest),
            snapshots: other_snapshots(
                view.kept_segments(),
                store.kept_snapshots(),
                plan,
                view.kept_segments().len() as int,
            ).push(Some(snapshot)),
            records: Seq::empty(),
        },
    }
}

/// The index, its segments and its records after the first `k` steps.
pub open spec fn after_steps(store: Store, steps: Seq<Step>, k: int) -> Store
    decreases k,
{
    if k <= 0 || k > steps.len() {
        store
    } else {
        after_step(after_steps(store, steps, k - 1), steps[k - 1])
    }
}

/// Whether those steps can be taken one after the other.
pub open spec fn can_take_all(store: Store, steps: Seq<Step>) -> bool {
    forall|k: int|
        0 <= k < steps.len() ==> can_take(after_steps(store, steps, k), #[trigger] steps[k])
}

/// What opening the index again comes to.
pub open spec fn reopened(store: Store) -> Option<Recovery> {
    recovered(
        Recovery {
            documents: store.loaded(),
            expiries: Map::empty(),
            sequence_number: store.loaded_number(),
        },
        logged(store.loaded_number(), store.records),
        store.view.metadata.settings,
        store.records.len() as int,
    )
}

/// Admitting a document and noting its expiry leave what the index holds, where it stands and what
/// opening it again comes to.
pub proof fn admitting_writes_nothing(
    store: Store,
    metadata: IndexMetadata,
    expiries: Map<Seq<char>, Timestamp>,
)
    requires
        metadata.settings == store.view.metadata.settings,
    ensures
        ({
            let end = after_step(
                after_step(store, Step::Admit(metadata)),
                Step::NoteExpiry(expiries),
            );
            &&& reopened(end) == reopened(store)
            &&& end.view.current() == store.view.current()
            &&& end.view.sequence_number == store.view.sequence_number
        }),
{
    let admitted = after_step(store, Step::Admit(metadata));
    let end = after_step(admitted, Step::NoteExpiry(expiries));
    assert(end.view.current() =~= store.view.current());
}

/// An index that is opened again after any documents were admitted, written, deleted or evicted,
/// and any refreshes, merges, flushes and plans, reads as before: it has each document as the last
/// write left it, none that was deleted, and goes on behind the last record. Restoring a named
/// snapshot is left out: it is not entered in the manifest.
pub proof fn reopened_index_reads_as_before(store: Store, steps: Seq<Step>)
    requires
        store.complete(),
        can_take_all(store, steps),
    ensures
        ({
            let end = after_steps(store, steps, steps.len() as int);
            &&& reopened(end) matches Some(found)
            &&& found.documents == end.view.current()
            &&& found.sequence_number == end.view.sequence_number
        }),
{
    lemma_after_steps(store, steps, steps.len() as int);
    let end = after_steps(store, steps, steps.len() as int);
    lemma_recovered(
        end.loaded(),
        end.loaded_number(),
        end.records,
        end.view.metadata.settings,
        end.records.len() as int,
    );
}

/// A document that was deleted before a flush stays deleted when the index is opened again, and
/// one that was written and not yet refreshed is there.
pub proof fn flushed_documents_come_back(
    store: Store,
    manifest: IndexManifest,
    snapshot: SegmentSnapshot,
)
    requires
        store.complete(),
        adds_segment(manifest, store.view.kept_segments(), snapshot, store.view),
    ensures
        ({
            let end = after_step(store, Step::Flush { manifest, snapshot });
            &&& end.loaded() == store.view.current()
            &&& end.loaded_number() == store.view.sequence_number
            &&& reopened(end) == Some(
                Recovery {
                    documents: store.view.current(),
                    expiries: Map::empty(),
                    sequence_number: store.view.sequence_number,
                },
            )
        }),
{
    lemma_after_step(store, Step::Flush { manifest, snapshot });
}

/// An index that was just opened holds what its segments come to.
pub proof fn opened_index_is_complete(view: IndexView, snapshots: Seq<Option<SegmentSnapshot>>)
    requires
        snapshots.len() == view.manifest.segments@.len(),
        view.documents == loaded_documents(snapshots, snapshots.len() as int),
        view.pending == Map::<Seq<char>, PendingView>::empty(),
        view.sequence_number == loaded_sequence(
            view.manifest.segments@,
            snapshots,
            snapshots.len() as int,
        ),
        view.stored == view.documents.dom(),
    ensures
        (Store { view, snapshots, records: Seq::empty() }).complete(),
{
    lemma_loaded(snapshots, snapshots.len() as int);
    assert(view.current() =~= view.documents);
}

proof fn lemma_loaded(snapshots: Seq<Option<SegmentSnapshot>>, k: int)
    ensures
        under_own_ids(loaded_documents(snapshots, k)),
        loaded_documents(snapshots, k).dom().finite(),
    decreases k,
{
    if 0 < k <= snapshots.len() {
        lemma_loaded(snapshots, k - 1);
        if let Some(snapshot) = snapshots[k - 1] {
            let before = loaded_documents(snapshots, k - 1);
            lemma_with_documents_ids(before, document_views(snapshot.documents@));
            lemma_with_documents_finite(before, document_views(snapshot.documents@));
        }
    }
}

proof fn lemma_with_documents_finite(documents: Documents, list: Seq<DocumentView>)
    requires
        documents.dom().finite(),
    ensures
        with_documents(documents, list).dom().finite(),
    decreases list.len(),
{
    if list.len() > 0 {
        lemma_with_documents_finite(documents, list.drop_last());
    }
}

proof fn lemma_recovered(
    documents: Documents,
    number: u64,
    records: Seq<RecordView>,
    settings: IndexSettings,
    k: int,
)
    requires
        0 <= k <= records.len(),
        number + records.len() <= u64::MAX,
        expiries_have_dates(records, settings),
    ensures
        ({
            let start = Recovery { documents, expiries: Map::empty(), sequence_number: number };
            &&& recovered(start, logged(number, records), settings, k) matches Some(found)
            &&& found.documents == documents_after(documents, records, k)
            &&& found.sequence_number == number + k
        }),
    decreases k,
{
    if k > 0 {
        lemma_recovered(documents, number, records, settings, k - 1);
        let entries: Seq<EntryView> = logged(number, records);
        assert(entries[k - 1].record == records[k - 1]);
        assert(entries[k - 1].sequence_number == number + k);
    }
}

proof fn lemma_after_steps(store: Store, steps: Seq<Step>, k: int)
    requires
        store.complete(),
        can_take_all(store, steps),
        0 <= k <= steps.len(),
    ensures
        after_steps(store, steps, k).complete(),
    decreases k,
{
    if k > 0 {
        lemma_after_steps(store, steps, k - 1);
        assert(can_take(after_steps(store, steps, k - 1), steps[k - 1]));
        lemma_after_step(after_steps(store, steps, k - 1), steps[k - 1]);
    }
}

proof fn lemma_after_step(store: Store, step: Step)
    requires
        store.complete(),
        can_take(store, step),
    ensures
        after_step(store, step).complete(),
        (step is Flush || step is Plan) ==> {
            &&& after_step(store, step).loaded() == store.view.current()
            &&& after_step(store, step).loaded_number() == store.view.sequence_number
        },
{
    let view = store.view;
    let after = after_step(store, step);
    match step {
        Step::Admit(_) | Step::NoteExpiry(_) => {
            assert(after.view.current() =~= view.current());
        },
        Step::Write(record) => {
            match record {
                RecordView::Index(document) => {
                    written_document_is_read(view, document);
                },
                RecordView::Delete(id) => {
                    deleted_document_is_gone(view, id);
                },
                RecordView::Other => {},
            }
            lemma_one_more(store.loaded(), store.records, record, store.records.len() as int);
            assert(seq![record][0] == record);
            assert(after.records.last() == record);
        },
        Step::Evict(id) => {
            deleted_document_is_gone(view, id);
            assert(after.view.current() =~= after_delete(view, id).current());
            lemma_one_more(
                store.loaded(),
                store.records,
                RecordView::Delete(id),
                store.records.len() as int,
            );
            assert(after.records.last() == RecordView::Delete(id));
        },
        Step::Refresh(_) => {
            assert(after.view.current() =~= view.current());
        },
        Step::Merge => {
            merge_changes_no_document(view);
        },
        Step::Flush { manifest, snapshot } => {
            let kept = view.kept_segments();
            let snapshots = store.kept_snapshots();
            assert(manifest.segments@ =~= kept.push(manifest.segments@.last()));
            lemma_adds_segment(store, kept, snapshots, manifest, snapshot);
            assert(after.view.current() =~= view.current());
        },
        Step::Plan { plan, manifest, snapshot } => {
            let kept = view.kept_segments();
            let n = kept.len() as int;
            let others = other_segments(kept, plan, n);
            lemma_other_snapshots(kept, store.kept_snapshots(), plan, n);
            plan_changes_no_document(view, manifest);
            assert(manifest.segments@ =~= others.push(manifest.segments@.last()));
            lemma_adds_segment(
                store,
                others,
                other_snapshots(kept, store.kept_snapshots(), plan, n),
                manifest,
                snapshot,
            );
        },
    }
}

proof fn lemma_one_more(
    documents: Documents,
    records: Seq<RecordView>,
    record: RecordView,
    k: int,
)
    requires
        0 <= k <= records.len(),
    ensures
        documents_after(documents, records.push(record), k) == documents_after(
            documents,
            records,
            k,
        ),
    decreases k,
{
    if k > 0 {
        lemma_one_more(documents, records, record, k - 1);
        assert(records.push(record)[k - 1] == records[k - 1]);
    }
}

/// A segment with all documents, behind segments that hold no others, comes to all documents.
proof fn lemma_adds_segment(
    store: Store,
    kept: Seq<SegmentMeta>,
    snapshots: Seq<Option<SegmentSnapshot>>,
    manifest: IndexManifest,
    snapshot: SegmentSnapshot,
)
    requires
        store.complete(),
        adds_segment(manifest, kept, snapshot, store.view),
        kept.len() == snapshots.len(),
        loaded_documents(snapshots, snapshots.len() as int).dom().subset_of(
            store.view.current().dom(),
        ),
        loaded_sequence(kept, snapshots, snapshots.len() as int) <= store.view.sequence_number,
    ensures
        ({
            let all = snapshots.push(Some(snapshot));
            &&& loaded_documents(all, all.len() as int) == store.view.current()
            &&& loaded_sequence(manifest.segments@, all, all.len() as int)
                == store.view.sequence_number
            &&& with_documents(Map::empty(), document_views(snapshot.documents@))
                == store.view.current()
        }),
{
    let documents = store.view.current();
    let n = snapshots.len() as int;
    let added = manifest.segments@.last();
    assert(manifest.segments@ =~= kept.push(added));
    lemma_same_beginning(kept, snapshots, added, Some(snapshot), n);
    assert(snapshots.push(Some(snapshot))[n] == Some(snapshot));
    lemma_listing_exists(documents);
    lemma_listed_documents_come_back(documents, listing_of(documents));
    let earlier = loaded_documents(snapshots, n);
    lemma_with_documents_over(earlier, documents_in_order(documents));
    assert(earlier.union_prefer_right(documents) =~= documents);
}

proof fn lemma_other_snapshots(
    segments: Seq<SegmentMeta>,
    snapshots: Seq<Option<SegmentSnapshot>>,
    plan: Seq<SegmentMeta>,
    k: int,
)
    requires
        0 <= k <= segments.len(),
        segments.len() == snapshots.len(),
    ensures
        ({
            let others = other_segments(segments, plan, k);
            let read = other_snapshots(segments, snapshots, plan, k);
            &&& others.len() == read.len()
            &&& loaded_documents(read, read.len() as int).dom().subset_of(
                loaded_documents(snapshots, k).dom(),
            )
            &&& loaded_sequence(others, read, read.len() as int) <= loaded_sequence(
                segments,
                snapshots,
                k,
            )
        }),
    decreases k,
{
    if k > 0 {
        lemma_other_snapshots(segments, snapshots, plan, k - 1);
        let others = other_segments(segments, plan, k - 1);
        let read = other_snapshots(segments, snapshots, plan, k - 1);
        let before = loaded_documents(snapshots, k - 1);
        let some = loaded_documents(read, read.len() as int);
        if let Some(snapshot) = snapshots[k - 1] {
            let list = document_views(snapshot.documents@);
            lemma_with_documents_over(before, list);
            lemma_with_documents_over(some, list);
        }
        if !has_number(plan, segments[k - 1].segment_number) {
            lemma_same_beginning(
                others,
                read,
                segments[k - 1],
                snapshots[k - 1],
                read.len() as int,
            );
            let longer = read.push(snapshots[k - 1]);
            assert(longer[read.len() as int] == snapshots[k - 1]);
            assert(others.push(segments[k - 1])[others.len() as int] == segments[k - 1]);
        }
    }
}

/// One more segment changes nothing in what the segments before it come to.
proof fn lemma_same_beginning(
    segments: Seq<SegmentMeta>,
    snapshots: Seq<Option<SegmentSnapshot>>,
    added: SegmentMeta,
    snapshot: Option<SegmentSnapshot>,
    k: int,
)
    requires
        0 <= k <= snapshots.len(),
        segments.len() == snapshots.len(),
    ensures
        loaded_documents(snapshots.push(snapshot), k) == loaded_documents(snapshots, k),
        loaded_sequence(segments.push(added), snapshots.push(snapshot), k) == loaded_sequence(
            segments,
            snapshots,
            k,
        ),
    decreases k,
{
    if k > 0 {
        lemma_same_beginning(segments, snapshots, added, snapshot, k - 1);
        assert(snapshots.push(snapshot)[k - 1] == snapshots[k - 1]);
        assert(segments.push(added)[k - 1] == segments[k - 1]);
    }
}

proof fn lemma_with_documents_over(earlier: Documents, list: Seq<DocumentView>)
    ensures
        with_documents(earlier, list) == earlier.union_prefer_right(
            with_documents(Map::empty(), list),
        ),
    decreases list.len(),
{
    if list.len() > 0 {
        lemma_with_documents_over(earlier, list.drop_last());
        assert(with_documents(earlier, list) =~= earlier.union_prefer_right(
            with_documents(Map::empty(), list),
        ));
    } else {
        assert(earlier.union_prefer_right(Map::empty()) =~= earlier);
    }
}

} // verus!
