//! Documents by their ids, and operations that wait to be applied to them.
use vstd::prelude::*;

use crate::map::key_index;
use crate::map::keys_ascend;
use crate::map::lemma_pair_in_map;
use crate::map::lemma_pairs_determined;
use crate::map::map_of_pairs;
use crate::map::StringMap;
use crate::text::text_lt_asymmetric;
use crate::types::DocumentView;
use crate::types::IndexDocument;

verus! {

/// Documents by their ids.
pub type Documents = Map<Seq<char>, DocumentView>;

/// An operation that waits to be applied.
#[derive(Debug)]
pub enum PendingOperation {
    Upsert(IndexDocument),
    Delete,
}

/// What a [`PendingOperation`] stands for.
pub ghost enum PendingView {
    Upsert(DocumentView),
    Delete,
}

impl View for PendingOperation {
    type V = PendingView;

    open spec fn view(&self) -> PendingView {
        match *self {
            PendingOperation::Upsert(d) => PendingView::Upsert(d@),
            PendingOperation::Delete => PendingView::Delete,
        }
    }
}

/// Waiting operations by the ids of their documents.
pub type Pending = Map<Seq<char>, PendingView>;

/// The documents that a map holds.
pub open spec fn documents_view(map: Map<Seq<char>, IndexDocument>) -> Documents {
    map.map_values(|d: IndexDocument| d@)
}

/// The operations that a map holds.
pub open spec fn pending_view(map: Map<Seq<char>, PendingOperation>) -> Pending {
    map.map_values(|p: PendingOperation| p@)
}

/// Whether each document is listed under its own id.
pub open spec fn under_own_ids(documents: Documents) -> bool {
    forall|id: Seq<char>| #[trigger] documents.contains_key(id) ==> documents[id].id == id
}

/// Whether each operation is listed under the id of its document.
pub open spec fn pending_under_own_ids(pending: Pending) -> bool {
    forall|id: Seq<char>| #[trigger]
        pending.contains_key(id) ==> (pending[id] matches PendingView::Upsert(d) ==> d.id == id)
}

/// The documents after one operation.
pub open spec fn after_operation(
    documents: Documents,
    id: Seq<char>,
    operation: PendingView,
) -> Documents {
    match operation {
        PendingView::Upsert(d) => documents.insert(id, d),
        PendingView::Delete => documents.remove(id),
    }
}

/// The documents after all waiting operations.
pub open spec fn overlay(documents: Documents, pending: Pending) -> Documents {
    Map::new(
        |id: Seq<char>|
            if pending.contains_key(id) {
                pending[id] is Upsert
            } else {
                documents.contains_key(id)
            },
        |id: Seq<char>|
            if pending.contains_key(id) {
                pending[id]->Upsert_0
            } else {
                documents[id]
            },
    )
}

/// Entries of a map, in the order of their keys.
pub open spec fn is_listing<V>(listing: Seq<(Seq<char>, V)>, map: Map<Seq<char>, V>) -> bool {
    keys_ascend(listing) && map_of_pairs(listing) == map
}

/// The entries of a map, in the order of their keys.
pub open spec fn listing_of<V>(map: Map<Seq<char>, V>) -> Seq<(Seq<char>, V)> {
    choose|listing: Seq<(Seq<char>, V)>| is_listing(listing, map)
}

/// A map has one listing.
pub proof fn lemma_listing<V>(listing: Seq<(Seq<char>, V)>, map: Map<Seq<char>, V>)
    requires
        is_listing(listing, map),
    ensures
        listing_of(map) == listing,
{
    lemma_pairs_determined(listing, listing_of(map));
}

/// The views of the entries of a map.
pub open spec fn view_pairs(pairs: Seq<(Seq<char>, IndexDocument)>) -> Seq<
    (Seq<char>, DocumentView),
> {
    Seq::new(pairs.len(), |i: int| (pairs[i].0, pairs[i].1@))
}

/// The entries of a map of documents, viewed, list the documents.
pub proof fn lemma_document_listing(pairs: Seq<(Seq<char>, IndexDocument)>)
    requires
        keys_ascend(pairs),
    ensures
        is_listing(view_pairs(pairs), documents_view(map_of_pairs(pairs))),
        listing_of(documents_view(map_of_pairs(pairs))) == view_pairs(pairs),
{
    let views = view_pairs(pairs);
    let map = documents_view(map_of_pairs(pairs));
    assert forall|i: int, j: int| 0 <= i < j < views.len() implies crate::text::text_lt(
        #[trigger] views[i].0,
        #[trigger] views[j].0,
    ) by {
        assert(crate::text::text_lt(pairs[i].0, pairs[j].0));
    }
    assert forall|id: Seq<char>|
        map_of_pairs(views).contains_key(id) == map.contains_key(id) by {
        if crate::map::has_key(views, id) {
            assert(pairs[key_index(views, id)].0 == id);
        }
        if crate::map::has_key(pairs, id) {
            assert(views[key_index(pairs, id)].0 == id);
        }
    }
    assert forall|id: Seq<char>| map.contains_key(id) implies #[trigger] map_of_pairs(views)[id]
        == map[id] by {
        let i = key_index(pairs, id);
        lemma_pair_in_map(pairs, i);
        assert(views[i].0 == id);
        lemma_pair_in_map(views, i);
    }
    assert(map_of_pairs(views) =~= map);
    lemma_listing(views, map);
}

/// The views of a list of documents.
pub open spec fn document_views(documents: Seq<IndexDocument>) -> Seq<DocumentView> {
    Seq::new(documents.len(), |i: int| documents[i]@)
}

/// The documents, in the order of their ids.
pub open spec fn documents_in_order(documents: Documents) -> Seq<DocumentView> {
    Seq::new(listing_of(documents).len(), |i: int| listing_of(documents)[i].1)
}

/// The documents with those of a list put in, each under its id, the later in place of the
/// earlier.
pub open spec fn with_documents(documents: Documents, list: Seq<DocumentView>) -> Documents
    decreases list.len(),
{
    if list.len() == 0 {
        documents
    } else {
        with_documents(documents, list.drop_last()).insert(list.last().id, list.last())
    }
}

/// A copy of a map of documents.
pub fn copy_documents(documents: &StringMap<IndexDocument>) -> (r: StringMap<IndexDocument>)
    ensures
        documents_view(r@) == documents_view(documents@),
{
    let ghost pairs = documents.pairs();
    let count: usize = documents.len();
    let mut r: StringMap<IndexDocument> = StringMap::new();
    let mut i: usize = 0;
    proof {
        assert(documents_view(r@) =~= documents_view(map_of_pairs(pairs.take(0))));
    }
    while i < count
        invariant
            i <= count,
            count == pairs.len(),
            pairs == documents.pairs(),
            keys_ascend(pairs),
            documents_view(r@) == documents_view(map_of_pairs(pairs.take(i as int))),
        decreases count - i,
    {
        let ghost before = r@;
        let copy = documents.value_at(i).copy();
        r.insert(documents.key_at(i).clone(), copy);
        proof {
            lemma_take_one(pairs, i as int);
            let (id, document) = pairs[i as int];
            assert(documents_view(r@) =~= documents_view(before).insert(id, document@));
            assert(documents_view(map_of_pairs(pairs.take(i + 1))) =~= documents_view(
                map_of_pairs(pairs.take(i as int)),
            ).insert(id, document@));
        }
        i += 1;
    }
    proof {
        assert(pairs.take(i as int) =~= pairs);
    }
    r
}

/// One entry more in a listing is one entry more in the map.
pub proof fn lemma_take_one<V>(pairs: Seq<(Seq<char>, V)>, i: int)
    requires
        keys_ascend(pairs),
        0 <= i < pairs.len(),
    ensures
        keys_ascend(pairs.take(i)),
        !map_of_pairs(pairs.take(i)).contains_key(pairs[i].0),
        map_of_pairs(pairs.take(i + 1)) == map_of_pairs(pairs.take(i)).insert(
            pairs[i].0,
            pairs[i].1,
        ),
{
    let shorter = pairs.take(i);
    let longer = pairs.take(i + 1);
    assert(keys_ascend(shorter));
    assert(keys_ascend(longer));
    assert(!crate::map::has_key(shorter, pairs[i].0)) by {
        if crate::map::has_key(shorter, pairs[i].0) {
            let k = key_index(shorter, pairs[i].0);
            text_lt_asymmetric(pairs[k].0, pairs[i].0);
        }
    }
    assert forall|id: Seq<char>|
        map_of_pairs(longer).contains_key(id) == map_of_pairs(shorter).insert(
            pairs[i].0,
            pairs[i].1,
        ).contains_key(id) by {
        if crate::map::has_key(longer, id) {
            let k = key_index(longer, id);
            if k < i {
                assert(shorter[k].0 == id);
            }
        }
        if crate::map::has_key(shorter, id) {
            assert(longer[key_index(shorter, id)].0 == id);
        }
        assert(longer[i].0 == pairs[i].0);
    }
    assert forall|id: Seq<char>|
        map_of_pairs(longer).contains_key(id) implies #[trigger] map_of_pairs(longer)[id]
        == map_of_pairs(shorter).insert(pairs[i].0, pairs[i].1)[id] by {
        let k = key_index(longer, id);
        lemma_pair_in_map(longer, k);
        if k < i {
            lemma_pair_in_map(shorter, k);
            text_lt_asymmetric(pairs[k].0, pairs[i].0);
        }
    }
    assert(map_of_pairs(longer) =~= map_of_pairs(shorter).insert(pairs[i].0, pairs[i].1));
}

/// Copies of the documents, in the order of their ids.
pub fn list_documents(documents: &StringMap<IndexDocument>) -> (r: Vec<IndexDocument>)
    ensures
        document_views(r@) == documents_in_order(documents_view(documents@)),
{
    let ghost pairs = documents.pairs();
    let count: usize = documents.len();
    let mut r: Vec<IndexDocument> = Vec::new();
    let mut i: usize = 0;
    while i < count
        invariant
            i <= count,
            count == pairs.len(),
            pairs == documents.pairs(),
            r@.len() == i,
            forall|j: int| 0 <= j < i ==> (#[trigger] r@[j])@ == pairs[j].1@,
        decreases count - i,
    {
        r.push(documents.value_at(i).copy());
        i += 1;
    }
    proof {
        lemma_document_listing(pairs);
        assert(document_views(r@) =~= documents_in_order(documents_view(documents@)));
    }
    r
}

/// Puts copies of the documents of a list into a map, each under its id.
pub fn put_documents(documents: &mut StringMap<IndexDocument>, list: &Vec<IndexDocument>)
    ensures
        documents_view(final(documents)@) == with_documents(
            documents_view(old(documents)@),
            document_views(list@),
        ),
{
    let ghost all = document_views(list@);
    let ghost start = documents_view(documents@);
    let mut i: usize = 0;
    proof {
        assert(all.take(0) =~= Seq::empty());
    }
    while i < list.len()
        invariant
            i <= list@.len(),
            all == document_views(list@),
            documents_view(documents@) == with_documents(start, all.take(i as int)),
        decreases list@.len() - i,
    {
        proof {
            assert(all.take(i + 1).drop_last() =~= all.take(i as int));
            assert(all.take(i + 1).last() == list@[i as int]@);
        }
        let ghost before = documents@;
        let copy = list[i].copy();
        documents.insert(list[i].id.clone(), copy);
        proof {
            assert(documents_view(documents@) =~= documents_view(before).insert(
                list@[i as int].id@,
                copy@,
            ));
        }
        i += 1;
    }
    proof {
        assert(all.take(i as int) =~= all);
    }
}

/// The ids of the documents of a list.
pub fn listed_ids(list: &Vec<IndexDocument>) -> (r: StringMap<()>)
    ensures
        r@.dom() == with_documents(Map::empty(), document_views(list@)).dom(),
{
    let ghost all = document_views(list@);
    let mut r: StringMap<()> = StringMap::new();
    let mut i: usize = 0;
    proof {
        assert(all.take(0) =~= Seq::empty());
        assert(r@.dom() =~= with_documents(Map::empty(), all.take(0)).dom());
    }
    while i < list.len()
        invariant
            i <= list@.len(),
            all == document_views(list@),
            r@.dom() == with_documents(Map::empty(), all.take(i as int)).dom(),
        decreases list@.len() - i,
    {
        r.insert(list[i].id.clone(), ());
        proof {
            assert(all.take(i + 1).drop_last() =~= all.take(i as int));
            assert(all.take(i + 1).last() == list@[i as int]@);
            assert(r@.dom() =~= with_documents(Map::empty(), all.take(i + 1)).dom());
        }
        i += 1;
    }
    proof {
        assert(all.take(i as int) =~= all);
    }
    r
}

/// The ids of the documents of a map.
pub fn document_ids(documents: &StringMap<IndexDocument>) -> (r: StringMap<()>)
    ensures
        r@.dom() == documents_view(documents@).dom(),
{
    let ghost pairs = documents.pairs();
    let count: usize = documents.len();
    let mut r: StringMap<()> = StringMap::new();
    let mut i: usize = 0;
    proof {
        assert(r@.dom() =~= map_of_pairs(pairs.take(0)).dom());
    }
    while i < count
        invariant
            i <= count,
            count == pairs.len(),
            pairs == documents.pairs(),
            keys_ascend(pairs),
            r@.dom() == map_of_pairs(pairs.take(i as int)).dom(),
        decreases count - i,
    {
        r.insert(documents.key_at(i).clone(), ());
        proof {
            lemma_take_one(pairs, i as int);
            assert(r@.dom() =~= map_of_pairs(pairs.take(i + 1)).dom());
        }
        i += 1;
    }
    proof {
        assert(pairs.take(i as int) =~= pairs);
        assert(documents_view(documents@).dom() =~= documents@.dom());
    }
    r
}

/// Applies waiting operations to documents, and leaves them waiting.
pub fn apply_pending(
    documents: &mut StringMap<IndexDocument>,
    pending: &StringMap<PendingOperation>,
)
    ensures
        documents_view(final(documents)@) == overlay(
            documents_view(old(documents)@),
            pending_view(pending@),
        ),
{
    let ghost pairs = pending.pairs();
    let ghost start = documents_view(documents@);
    let count: usize = pending.len();
    let mut i: usize = 0;
    proof {
        assert(documents_view(documents@) =~= overlay(
            start,
            pending_view(map_of_pairs(pairs.take(0))),
        ));
    }
    while i < count
        invariant
            i <= count,
            count == pairs.len(),
            pairs == pending.pairs(),
            keys_ascend(pairs),
            documents_view(documents@) == overlay(
                start,
                pending_view(map_of_pairs(pairs.take(i as int))),
            ),
        decreases count - i,
    {
        let ghost before = documents@;
        let id = pending.key_at(i);
        match pending.value_at(i) {
            PendingOperation::Upsert(document) => {
                documents.insert(id.clone(), document.copy());
            },
            PendingOperation::Delete => {
                documents.remove(id.as_str());
            },
        }
        proof {
            lemma_take_one(pairs, i as int);
            let (key, operation) = pairs[i as int];
            let done = pending_view(map_of_pairs(pairs.take(i as int)));
            assert(documents_view(documents@) =~= after_operation(
                documents_view(before),
                key,
                operation@,
            ));
            assert(pending_view(map_of_pairs(pairs.take(i + 1))) =~= done.insert(key, operation@));
            assert(after_operation(overlay(start, done), key, operation@) =~= overlay(
                start,
                done.insert(key, operation@),
            ));
        }
        i += 1;
    }
    proof {
        assert(pairs.take(i as int) =~= pairs);
    }
}

/// Documents that are listed under their own ids can be listed and put together again.
pub proof fn lemma_listed_documents_come_back(documents: Documents, listing: Seq<
    (Seq<char>, DocumentView),
>)
    requires
        is_listing(listing, documents),
        under_own_ids(documents),
    ensures
        with_documents(Map::empty(), documents_in_order(documents)) == documents,
{
    lemma_listing(listing, documents);
    let list = documents_in_order(documents);
    lemma_listed_prefix(listing, documents, listing.len() as int);
    assert(list.take(listing.len() as int) =~= list);
    assert(listing.take(listing.len() as int) =~= listing);
}

proof fn lemma_listed_prefix(
    listing: Seq<(Seq<char>, DocumentView)>,
    documents: Documents,
    k: int,
)
    requires
        is_listing(listing, documents),
        listing_of(documents) == listing,
        under_own_ids(documents),
        0 <= k <= listing.len(),
    ensures
        with_documents(Map::empty(), documents_in_order(documents).take(k)) == map_of_pairs(
            listing.take(k),
        ),
    decreases k,
{
    let list = documents_in_order(documents);
    if k == 0 {
        assert(map_of_pairs(listing.take(0)) =~= Map::empty());
    } else {
        lemma_listed_prefix(listing, documents, k - 1);
        lemma_take_one(listing, k - 1);
        lemma_pair_in_map(listing, k - 1);
        assert(documents.contains_key(listing[k - 1].0));
        assert(list.take(k).drop_last() =~= list.take(k - 1));
        assert(list.take(k).last() == listing[k - 1].1);
    }
}

/// How many of the keys stand before that one.
spec fn keys_before<V>(listing: Seq<(Seq<char>, V)>, key: Seq<char>, k: int) -> int
    decreases k,
{
    if k <= 0 || k > listing.len() {
        0
    } else if crate::text::text_lt(listing[k - 1].0, key) {
        k
    } else {
        keys_before(listing, key, k - 1)
    }
}

proof fn lemma_keys_before<V>(listing: Seq<(Seq<char>, V)>, key: Seq<char>, k: int)
    requires
        keys_ascend(listing),
        0 <= k <= listing.len(),
        !crate::map::has_key(listing, key),
    ensures
        0 <= keys_before(listing, key, k) <= k,
        forall|i: int|
            0 <= i < keys_before(listing, key, k) ==> crate::text::text_lt(
                (#[trigger] listing[i]).0,
                key,
            ),
        forall|i: int|
            keys_before(listing, key, k) <= i < k ==> crate::text::text_lt(
                key,
                (#[trigger] listing[i]).0,
            ),
    decreases k,
{
    if k > 0 {
        if crate::text::text_lt(listing[k - 1].0, key) {
            assert forall|i: int| 0 <= i < k implies crate::text::text_lt(
                (#[trigger] listing[i]).0,
                key,
            ) by {
                if i < k - 1 {
                    crate::text::text_lt_transitive(listing[i].0, listing[k - 1].0, key);
                }
            }
        } else {
            lemma_keys_before(listing, key, k - 1);
            assert(listing[k - 1].0 != key);
            crate::text::text_lt_total(listing[k - 1].0, key);
        }
    }
}

/// A finite map has a listing.
pub proof fn lemma_listing_exists<V>(map: Map<Seq<char>, V>)
    requires
        map.dom().finite(),
    ensures
        is_listing(listing_of(map), map),
    decreases map.dom().len(),
{
    if map.dom().len() == 0 {
        let none = Seq::<(Seq<char>, V)>::empty();
        assert(map.dom() =~= Set::empty());
        assert(map_of_pairs(none) =~= map);
        assert(is_listing(none, map));
    } else {
        let key = map.dom().choose();
        let rest = map.remove(key);
        assert(rest.dom() =~= map.dom().remove(key));
        lemma_listing_exists(rest);
        let shorter = listing_of(rest);
        assert(!crate::map::has_key(shorter, key)) by {
            if crate::map::has_key(shorter, key) {
                assert(rest.contains_key(key));
            }
        }
        let p = keys_before(shorter, key, shorter.len() as int);
        lemma_keys_before(shorter, key, shorter.len() as int);
        let longer = shorter.insert(p, (key, map[key]));
        assert forall|i: int, j: int| 0 <= i < j < longer.len() implies crate::text::text_lt(
            #[trigger] longer[i].0,
            #[trigger] longer[j].0,
        ) by {
            let a = if i < p { i } else { i - 1 };
            let b = if j < p { j } else { j - 1 };
            if i != p {
                assert(longer[i] == shorter[a]);
            }
            if j != p {
                assert(longer[j] == shorter[b]);
            }
            if i != p && j != p {
                assert(crate::text::text_lt(shorter[a].0, shorter[b].0));
            }
        }
        assert forall|id: Seq<char>| map_of_pairs(longer).contains_key(id) == map.contains_key(
            id,
        ) by {
            if crate::map::has_key(longer, id) {
                let i = key_index(longer, id);
                if i != p {
                    let a = if i < p { i } else { i - 1 };
                    assert(shorter[a].0 == id);
                    assert(rest.contains_key(id));
                }
            }
            if map.contains_key(id) {
                if id == key {
                    assert(longer[p].0 == id);
                } else {
                    assert(rest.contains_key(id));
                    assert(crate::map::has_key(shorter, id));
                    let a = key_index(shorter, id);
                    assert(longer[if a < p { a } else { a + 1 }].0 == id);
                }
            }
        }
        assert forall|id: Seq<char>| map.contains_key(id) implies #[trigger] map_of_pairs(
            longer,
        )[id] == map[id] by {
            if id == key {
                lemma_pair_in_map(longer, p);
            } else {
                assert(rest.contains_key(id));
                let a = key_index(shorter, id);
                lemma_pair_in_map(shorter, a);
                lemma_pair_in_map(longer, if a < p { a } else { a + 1 });
            }
        }
        assert(map_of_pairs(longer) =~= map);
        assert(is_listing(longer, map));
    }
}

} // verus!
