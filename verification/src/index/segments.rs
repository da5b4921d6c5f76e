//! Flushing an index to segments, and merging its segments.
use vstd::prelude::*;

use crate::documents::apply_pending;
use crate::documents::copy_documents;
use crate::documents::document_ids;
use crate::documents::document_views;
use crate::documents::documents_in_order;
use crate::documents::documents_view;
use crate::documents::list_documents;
use crate::documents::listed_ids;
use crate::documents::lemma_listing;
use crate::documents::listing_of;
use crate::documents::with_documents;
use crate::documents::Documents;
use crate::documents::PendingOperation;
use crate::index::IndexHandle;
use crate::index::IndexManifest;
use crate::index::IndexView;
use crate::index::SegmentMeta;
use crate::index::SegmentSnapshot;
use crate::index::MERGE_TRIGGER_DOCUMENT_COUNT;
use crate::map::has_key;
use crate::map::key_index;
use crate::map::keys_ascend;
use crate::map::lemma_pair_in_map;
use crate::map::map_of_pairs;
use crate::map::StringMap;
use crate::positions::doc_id_hash;
use crate::positions::document_positions;
use crate::positions::extract_positions;
use crate::positions::hash_doc_id;
use crate::positions::positions_view;
use crate::positions::PositionsMap;
use crate::time::Timestamp;
use crate::types::DocumentView;
use crate::types::FlushResponse;
use crate::types::IndexDocument;
use crate::types::IndexSettings;
use crate::types::MergeResponse;

verus! {

/// Segments that are to be merged into one.
#[derive(Debug)]
pub struct MergePlan {
    pub segments: Vec<SegmentMeta>,
}

impl MergePlan {
    /// The plan to merge those segments.
    pub fn new(segments: Vec<SegmentMeta>) -> (r: MergePlan)
        ensures
            r.segments == segments,
    {
        MergePlan { segments }
    }

    /// Whether there is nothing to merge.
    pub fn is_empty(&self) -> (r: bool)
        ensures
            r == (self.segments@.len() == 0),
    {
        self.segments.len() == 0
    }
}

/// From how many documents on a segment is merged by itself.
pub open spec fn merge_threshold(settings: IndexSettings) -> int {
    match settings.merge_threshold_docs {
        Some(count) => count as int,
        None => MERGE_TRIGGER_DOCUMENT_COUNT as int,
    }
}

/// Whether a segment is small: it has documents, and fewer than the threshold.
pub open spec fn is_small(segment: SegmentMeta, threshold: int) -> bool {
    0 < segment.document_count < threshold
}

/// The small ones of the first `k` segments.
pub open spec fn small_segments(
    segments: Seq<SegmentMeta>,
    threshold: int,
    k: int,
) -> Seq<SegmentMeta>
    decreases k,
{
    if k <= 0 || k > segments.len() {
        Seq::empty()
    } else if is_small(segments[k - 1], threshold) {
        small_segments(segments, threshold, k - 1).push(segments[k - 1])
    } else {
        small_segments(segments, threshold, k - 1)
    }
}

/// The segments that are to be merged: all small ones where there are at least two of them, else
/// the last segment if it has reached the threshold.
pub open spec fn merge_candidates(segments: Seq<SegmentMeta>, threshold: int) -> Option<
    Seq<SegmentMeta>,
> {
    let small = small_segments(segments, threshold, segments.len() as int);
    if small.len() >= 2 {
        Some(small)
    } else if segments.len() > 0 && segments.last().document_count >= threshold {
        Some(seq![segments.last()])
    } else {
        None
    }
}

/// The ones of the first `k` segments that a plan does not merge.
pub open spec fn other_segments(
    segments: Seq<SegmentMeta>,
    plan: Seq<SegmentMeta>,
    k: int,
) -> Seq<SegmentMeta>
    decreases k,
{
    if k <= 0 || k > segments.len() {
        Seq::empty()
    } else if has_number(plan, segments[k - 1].segment_number) {
        other_segments(segments, plan, k - 1)
    } else {
        other_segments(segments, plan, k - 1).push(segments[k - 1])
    }
}

/// Whether one of the segments has that number.
pub open spec fn has_number(segments: Seq<SegmentMeta>, number: u64) -> bool {
    exists|i: int| 0 <= i < segments.len() && (#[trigger] segments[i]).segment_number == number
}

fn lists_number(segments: &Vec<SegmentMeta>, number: u64) -> (r: bool)
    ensures
        r == has_number(segments@, number),
{
    let mut i: usize = 0;
    while i < segments.len()
        invariant
            i <= segments@.len(),
            forall|j: int| 0 <= j < i ==> (#[trigger] segments@[j]).segment_number != number,
        decreases segments@.len() - i,
    {
        if segments[i].segment_number == number {
            proof {
                assert(segments@[i as int].segment_number == number);
            }
            return true;
        }
        i += 1;
    }
    false
}

impl IndexHandle {
    /// Which segments are to be merged, if any.
    pub fn plan_merge(&self) -> (r: Option<MergePlan>)
        ensures
            match r {
                Some(plan) => merge_candidates(
                    self@.manifest.segments@,
                    merge_threshold(self@.metadata.settings),
                ) == Some(plan.segments@),
                None => merge_candidates(
                    self@.manifest.segments@,
                    merge_threshold(self@.metadata.settings),
                ) is None,
            },
    {
        let threshold: u64 = match self.metadata.settings.merge_threshold_docs {
            Some(count) => count as u64,
            None => MERGE_TRIGGER_DOCUMENT_COUNT as u64,
        };
        let segments = &self.manifest.segments;
        let mut small: Vec<SegmentMeta> = Vec::new();
        let mut i: usize = 0;
        while i < segments.len()
            invariant
                i <= segments@.len(),
                small@ == small_segments(segments@, threshold as int, i as int),
            decreases segments@.len() - i,
        {
            let segment = segments[i];
            if segment.document_count > 0 && segment.document_count < threshold {
                small.push(segment);
            }
            i += 1;
        }
        if small.len() >= 2 {
            return Some(MergePlan::new(small));
        }
        let count: usize = segments.len();
        if count > 0 && segments[count - 1].document_count >= threshold {
            let mut large: Vec<SegmentMeta> = Vec::new();
            large.push(segments[count - 1]);
            proof {
                assert(large@ =~= seq![segments@.last()]);
            }
            return Some(MergePlan::new(large));
        }
        None
    }
}

/// One position of a term in a document.
#[derive(Debug)]
pub struct PostingEntry {
    pub term: String,
    pub doc_id: u64,
    pub position: u32,
}

/// What a [`PostingEntry`] stands for.
pub ghost struct EntryOfPosting {
    pub term: Seq<char>,
    pub doc_id: u64,
    pub position: u32,
}

impl View for PostingEntry {
    type V = EntryOfPosting;

    open spec fn view(&self) -> EntryOfPosting {
        EntryOfPosting { term: self.term@, doc_id: self.doc_id, position: self.position }
    }
}

/// The views of a list of entries.
pub open spec fn posting_entry_views(entries: Seq<PostingEntry>) -> Seq<EntryOfPosting> {
    Seq::new(entries.len(), |i: int| entries[i]@)
}

/// The entries of one term of a document.
pub open spec fn term_entries(
    term: Seq<char>,
    doc_id: u64,
    positions: Seq<u32>,
) -> Seq<EntryOfPosting> {
    Seq::new(
        positions.len(),
        |i: int| EntryOfPosting { term, doc_id, position: positions[i] },
    )
}

/// The entries of the first `k` terms of a document.
pub open spec fn terms_entries(
    terms: Seq<(Seq<char>, Seq<u32>)>,
    doc_id: u64,
    k: int,
) -> Seq<EntryOfPosting>
    decreases k,
{
    if k <= 0 || k > terms.len() {
        Seq::empty()
    } else {
        terms_entries(terms, doc_id, k - 1) + term_entries(
            terms[k - 1].0,
            doc_id,
            terms[k - 1].1,
        )
    }
}

/// The entries of a document with those positions, term by term in the order of the terms.
pub open spec fn document_entries(id: Seq<char>, positions: PositionsMap) -> Seq<EntryOfPosting> {
    let terms = listing_of(positions);
    terms_entries(terms, doc_id_hash(id), terms.len() as int)
}

/// The entries of the first `k` documents, each with the positions noted for it.
pub open spec fn noted_entries(
    documents: Seq<DocumentView>,
    noted: Map<Seq<char>, PositionsMap>,
    k: int,
) -> Seq<EntryOfPosting>
    decreases k,
{
    if k <= 0 || k > documents.len() {
        Seq::empty()
    } else if noted.contains_key(documents[k - 1].id) {
        noted_entries(documents, noted, k - 1) + document_entries(
            documents[k - 1].id,
            noted[documents[k - 1].id],
        )
    } else {
        noted_entries(documents, noted, k - 1)
    }
}

/// The entries of the first `k` documents, each with the positions of its own words.
pub open spec fn own_entries(documents: Seq<DocumentView>, k: int) -> Seq<EntryOfPosting>
    decreases k,
{
    if k <= 0 || k > documents.len() {
        Seq::empty()
    } else {
        own_entries(documents, k - 1) + document_entries(
            documents[k - 1].id,
            document_positions(documents[k - 1].source),
        )
    }
}

/// The entries of a map of positions, viewed.
spec fn position_pairs(pairs: Seq<(Seq<char>, Vec<u32>)>) -> Seq<(Seq<char>, Seq<u32>)> {
    Seq::new(pairs.len(), |i: int| (pairs[i].0, pairs[i].1@))
}

proof fn lemma_position_listing(pairs: Seq<(Seq<char>, Vec<u32>)>)
    requires
        keys_ascend(pairs),
    ensures
        listing_of(positions_view(map_of_pairs(pairs))) == position_pairs(pairs),
{
    let views = position_pairs(pairs);
    let map = positions_view(map_of_pairs(pairs));
    assert forall|i: int, j: int| 0 <= i < j < views.len() implies crate::text::text_lt(
        #[trigger] views[i].0,
        #[trigger] views[j].0,
    ) by {
        assert(crate::text::text_lt(pairs[i].0, pairs[j].0));
    }
    assert forall|term: Seq<char>| map_of_pairs(views).contains_key(term) == map.contains_key(
        term,
    ) by {
        if has_key(views, term) {
            assert(pairs[key_index(views, term)].0 == term);
        }
        if has_key(pairs, term) {
            assert(views[key_index(pairs, term)].0 == term);
        }
    }
    assert forall|term: Seq<char>| map.contains_key(term) implies #[trigger] map_of_pairs(
        views,
    )[term] == map[term] by {
        let i = key_index(pairs, term);
        lemma_pair_in_map(pairs, i);
        assert(views[i].0 == term);
        lemma_pair_in_map(views, i);
    }
    assert(map_of_pairs(views) =~= map);
    lemma_listing(views, map);
}

/// Appends the entries of a document with those positions.
fn append_entries(entries: &mut Vec<PostingEntry>, id: &str, positions: &StringMap<Vec<u32>>)
    ensures
        posting_entry_views(final(entries)@) == posting_entry_views(old(entries)@)
            + document_entries(id@, positions_view(positions@)),
{
    let doc_id: u64 = hash_doc_id(id);
    let ghost pairs = positions.pairs();
    let ghost terms = position_pairs(pairs);
    let ghost start = posting_entry_views(entries@);
    let count: usize = positions.len();
    let mut i: usize = 0;
    proof {
        lemma_position_listing(pairs);
        assert(start =~= start + terms_entries(terms, doc_id, 0));
    }
    while i < count
        invariant
            i <= count,
            count == pairs.len(),
            pairs == positions.pairs(),
            terms == position_pairs(pairs),
            posting_entry_views(entries@) == start + terms_entries(terms, doc_id, i as int),
        decreases count - i,
    {
        let term = positions.key_at(i);
        let list = positions.value_at(i);
        let ghost before = posting_entry_views(entries@);
        let length: usize = list.len();
        let mut j: usize = 0;
        proof {
            assert(before =~= before + term_entries(term@, doc_id, list@.take(0)));
        }
        while j < length
            invariant
                j <= length,
                length == list@.len(),
                posting_entry_views(entries@) == before + term_entries(
                    term@,
                    doc_id,
                    list@.take(j as int),
                ),
            decreases length - j,
        {
            let ghost so_far = entries@;
            entries.push(PostingEntry { term: term.clone(), doc_id, position: list[j] });
            proof {
                assert(posting_entry_views(entries@) =~= posting_entry_views(so_far).push(
                    EntryOfPosting { term: term@, doc_id, position: list@[j as int] },
                ));
                assert(term_entries(term@, doc_id, list@.take(j + 1)) =~= term_entries(
                    term@,
                    doc_id,
                    list@.take(j as int),
                ).push(EntryOfPosting { term: term@, doc_id, position: list@[j as int] }));
            }
            j += 1;
        }
        proof {
            assert(list@.take(j as int) =~= list@);
            assert(terms[i as int] == (term@, list@));
            assert(posting_entry_views(entries@) =~= start + terms_entries(terms, doc_id, i + 1));
        }
        i += 1;
    }
}

/// The entries of the positions of documents, extracted from their texts.
pub fn extract_entries(documents: &Vec<IndexDocument>) -> (r: Vec<PostingEntry>)
    ensures
        posting_entry_views(r@) == own_entries(
            document_views(documents@),
            documents@.len() as int,
        ),
{
    let ghost all = document_views(documents@);
    let mut r: Vec<PostingEntry> = Vec::new();
    let mut i: usize = 0;
    proof {
        assert(posting_entry_views(r@) =~= own_entries(all, 0));
    }
    while i < documents.len()
        invariant
            i <= documents@.len(),
            all == document_views(documents@),
            posting_entry_views(r@) == own_entries(all, i as int),
        decreases documents@.len() - i,
    {
        let document = &documents[i];
        let positions = extract_positions(document);
        append_entries(&mut r, document.id.as_str(), &positions);
        proof {
            assert(all[i as int] == document@);
        }
        i += 1;
    }
    r
}

/// The manifest with one more segment.
pub open spec fn is_next_manifest(
    next: IndexManifest,
    before: IndexManifest,
    segments: Seq<SegmentMeta>,
    added: SegmentMeta,
    at: Timestamp,
) -> bool {
    &&& next.version == before.version + 1
    &&& next.last_updated == at
    &&& next.segments@ == segments.push(added)
}

/// Copies the segments.
fn copy_segments(segments: &Vec<SegmentMeta>) -> (r: Vec<SegmentMeta>)
    ensures
        r@ == segments@,
{
    let mut r: Vec<SegmentMeta> = Vec::new();
    let mut i: usize = 0;
    while i < segments.len()
        invariant
            i <= segments@.len(),
            r@ == segments@.take(i as int),
        decreases segments@.len() - i,
    {
        r.push(segments[i]);
        proof {
            assert(segments@.take(i + 1) =~= segments@.take(i as int).push(segments@[i as int]));
        }
        i += 1;
    }
    proof {
        assert(segments@.take(i as int) =~= segments@);
    }
    r
}

/// Whether `snapshot` holds those documents, in the order of their ids.
pub open spec fn is_snapshot_of(
    snapshot: SegmentSnapshot,
    documents: Documents,
    sequence_number: u64,
) -> bool {
    &&& snapshot.last_sequence_number == sequence_number
    &&& document_views(snapshot.documents@) == documents_in_order(documents)
}

impl IndexHandle {
    /// Whether the next manifest takes over the segments on disk: no document that they hold is
    /// gone.
    fn keeps_segments(&self) -> (r: bool)
        ensures
            r == self@.stored.subset_of(self@.current().dom()),
    {
        let ghost pairs = self.stored_documents.pairs();
        let count: usize = self.stored_documents.len();
        let mut i: usize = 0;
        while i < count
            invariant
                i <= count,
                count == pairs.len(),
                pairs == self.stored_documents.pairs(),
                keys_ascend(pairs),
                forall|j: int|
                    0 <= j < i ==> self@.current().contains_key((#[trigger] pairs[j]).0),
            decreases count - i,
        {
            let id = self.stored_documents.key_at(i);
            let held = match self.pending_operations.get(id.as_str()) {
                Some(PendingOperation::Upsert(_)) => true,
                Some(PendingOperation::Delete) => false,
                None => self.searchable_documents.contains_key(id.as_str()),
            };
            if !held {
                proof {
                    lemma_pair_in_map(pairs, i as int);
                    assert(self@.stored.contains(id@));
                    assert(!self@.current().dom().contains(id@));
                }
                return false;
            }
            proof {
                assert(pairs[i as int].0 == id@);
            }
            i += 1;
        }
        proof {
            assert forall|id: Seq<char>| self@.stored.contains(
                id,
            ) implies self@.current().dom().contains(id) by {
                assert(pairs[key_index(pairs, id)].0 == id);
            }
        }
        true
    }

    /// The segment that a flush writes: the documents as all writes so far have left them.
    pub fn flush_snapshot(&self) -> (r: SegmentSnapshot)
        ensures
            is_snapshot_of(r, self@.current(), self@.sequence_number),
    {
        SegmentSnapshot {
            last_sequence_number: self.last_sequence_number,
            documents: list_documents(&self.current_documents()),
        }
    }

    /// The manifest that a flush writes: that of the index with one more segment, or with that
    /// segment alone where those before it hold a document that is gone.
    pub fn flush_manifest(
        &self,
        segment_number: u64,
        snapshot: &SegmentSnapshot,
        checksum: u32,
        at: Timestamp,
    ) -> (r: IndexManifest)
        requires
            self@.manifest.version < u64::MAX,
        ensures
            is_next_manifest(
                r,
                self@.manifest,
                self@.kept_segments(),
                SegmentMeta {
                    segment_number,
                    last_sequence_number: snapshot.last_sequence_number,
                    document_count: snapshot.documents@.len() as u64,
                    checksum,
                },
                at,
            ),
    {
        let mut segments: Vec<SegmentMeta> = Vec::new();
        if self.keeps_segments() {
            segments = copy_segments(&self.manifest.segments);
        }
        segments.push(
            SegmentMeta {
                segment_number,
                last_sequence_number: snapshot.last_sequence_number,
                document_count: snapshot.documents.len() as u64,
                checksum,
            },
        );
        IndexManifest { version: self.manifest.version + 1, last_updated: at, segments }
    }

    /// Takes over a manifest that was written, with the segment that it adds.
    pub fn install_manifest(&mut self, manifest: IndexManifest, snapshot: &SegmentSnapshot)
        requires
            old(self)@.wf(),
        ensures
            final(self)@.wf(),
            final(self)@ == (IndexView {
                manifest,
                stored: with_documents(Map::empty(), document_views(snapshot.documents@)).dom(),
                ..old(self)@
            }),
    {
        self.manifest = manifest;
        self.stored_documents = listed_ids(&snapshot.documents);
    }

    /// The entries of the positions that go with the segment that a flush writes: those noted for
    /// its documents, or those of all their words where the segments before it are left behind.
    pub fn flush_entries(&self, snapshot: &SegmentSnapshot) -> (r: Vec<PostingEntry>)
        ensures
            posting_entry_views(r@) == if self@.stored.subset_of(self@.current().dom()) {
                noted_entries(
                    document_views(snapshot.documents@),
                    self@.positions,
                    snapshot.documents@.len() as int,
                )
            } else {
                own_entries(document_views(snapshot.documents@), snapshot.documents@.len() as int)
            },
    {
        if !self.keeps_segments() {
            return extract_entries(&snapshot.documents);
        }
        let ghost all = document_views(snapshot.documents@);
        let mut r: Vec<PostingEntry> = Vec::new();
        let mut i: usize = 0;
        proof {
            assert(posting_entry_views(r@) =~= noted_entries(all, self@.positions, 0));
        }
        while i < snapshot.documents.len()
            invariant
                i <= snapshot.documents@.len(),
                all == document_views(snapshot.documents@),
                posting_entry_views(r@) == noted_entries(all, self@.positions, i as int),
            decreases snapshot.documents@.len() - i,
        {
            let document = &snapshot.documents[i];
            proof {
                assert(all[i as int] == document@);
            }
            if let Some(positions) = self.per_doc_inverted_index.get(document.id.as_str()) {
                append_entries(&mut r, document.id.as_str(), positions);
            }
            i += 1;
        }
        r
    }

    /// Ends a flush: the positions noted so far are on disk.
    pub fn flush(&mut self, snapshot: &SegmentSnapshot) -> (r: FlushResponse)
        requires
            old(self)@.wf(),
        ensures
            final(self)@.wf(),
            final(self)@ == (IndexView { positions: Map::empty(), ..old(self)@ }),
            r.result@ == "flushed"@,
            r.flushed_documents == snapshot.documents@.len(),
            r.sequence_number == snapshot.last_sequence_number,
    {
        self.per_doc_inverted_index = StringMap::new();
        proof {
            assert(self@.positions =~= Map::empty());
        }
        FlushResponse {
            result: "flushed",
            flushed_documents: snapshot.documents.len(),
            sequence_number: snapshot.last_sequence_number,
        }
    }

    /// The documents as all writes so far have left them.
    pub fn current_documents(&self) -> (r: StringMap<IndexDocument>)
        ensures
            documents_view(r@) == self@.current(),
    {
        let mut r = copy_documents(&self.searchable_documents);
        apply_pending(&mut r, &self.pending_operations);
        r
    }

    /// The segment that a merge writes.
    pub fn merge_snapshot(&self, documents: &StringMap<IndexDocument>) -> (r: SegmentSnapshot)
        ensures
            is_snapshot_of(r, documents_view(documents@), self@.sequence_number),
    {
        SegmentSnapshot {
            last_sequence_number: self.last_sequence_number,
            documents: list_documents(documents),
        }
    }

    /// Ends a merge of everything: a search sees the documents as all writes so far have left
    /// them.
    pub fn merge(&mut self) -> (r: MergeResponse)
        requires
            old(self)@.wf(),
        ensures
            final(self)@.wf(),
            final(self)@ == (IndexView { documents: old(self)@.current(), ..old(self)@ }),
            r.result@ == "merged"@,
            old(self)@.current().dom().finite(),
            r.merged_documents == old(self)@.current().dom().len(),
    {
        apply_pending(&mut self.searchable_documents, &self.pending_operations);
        let merged_documents: usize = self.searchable_documents.len();
        proof {
            crate::map::lemma_map_len(self.searchable_documents.pairs());
            assert(self@.documents.dom() =~= self.searchable_documents@.dom());
        }
        MergeResponse { result: "merged", merged_documents }
    }

    /// The manifest after a plan: that of the index without the merged segments and with the one
    /// that they were merged into, or with that one alone where the others hold a document that is
    /// gone.
    pub fn merge_manifest(
        &self,
        plan: &MergePlan,
        segment_number: u64,
        snapshot: &SegmentSnapshot,
        checksum: u32,
        at: Timestamp,
    ) -> (r: IndexManifest)
        requires
            self@.manifest.version < u64::MAX,
        ensures
            is_next_manifest(
                r,
                self@.manifest,
                other_segments(
                    self@.kept_segments(),
                    plan.segments@,
                    self@.kept_segments().len() as int,
                ),
                SegmentMeta {
                    segment_number,
                    last_sequence_number: snapshot.last_sequence_number,
                    document_count: snapshot.documents@.len() as u64,
                    checksum,
                },
                at,
            ),
    {
        let mut segments: Vec<SegmentMeta> = Vec::new();
        let count: usize = if self.keeps_segments() {
            self.manifest.segments.len()
        } else {
            0
        };
        let mut i: usize = 0;
        while i < count
            invariant
                i <= count,
                count == self@.kept_segments().len(),
                count > 0 ==> self.manifest.segments@ == self@.kept_segments(),
                segments@ == other_segments(self@.kept_segments(), plan.segments@, i as int),
            decreases count - i,
        {
            let segment = self.manifest.segments[i];
            if !lists_number(&plan.segments, segment.segment_number) {
                segments.push(segment);
            }
            i += 1;
        }
        segments.push(
            SegmentMeta {
                segment_number,
                last_sequence_number: snapshot.last_sequence_number,
                document_count: snapshot.documents.len() as u64,
                checksum,
            },
        );
        IndexManifest { version: self.manifest.version + 1, last_updated: at, segments }
    }

    /// Ends a plan: a search sees the documents as all writes so far have left them. An empty plan
    /// changes nothing.
    pub fn apply_merge_plan(&mut self, plan: &MergePlan, manifest: IndexManifest)
        requires
            old(self)@.wf(),
        ensures
            final(self)@.wf(),
            final(self)@ == if plan.segments@.len() == 0 {
                old(self)@
            } else {
                after_plan(old(self)@, manifest)
            },
    {
        if plan.is_empty() {
            return;
        }
        apply_pending(&mut self.searchable_documents, &self.pending_operations);
        self.manifest = manifest;
        self.stored_documents = document_ids(&self.searchable_documents);
    }
}

/// The view after a plan: all waiting operations are applied, and go on waiting, and the segments
/// hold what there is.
pub open spec fn after_plan(view: IndexView, manifest: IndexManifest) -> IndexView {
    IndexView {
        manifest,
        documents: view.current(),
        stored: view.current().dom(),
        ..view
    }
}

} // verus!
