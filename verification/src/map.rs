//! A map from strings to values that keeps its keys in order.
use vstd::prelude::*;

use crate::text::text_lt;
use crate::text::text_lt_asymmetric;
use crate::text::text_lt_irreflexive;
use crate::text::text_lt_transitive;
use crate::text::text_order;
use crate::text::TextOrder;

verus! {

/// Whether the keys of `pairs` strictly ascend.
pub open spec fn keys_ascend<V>(pairs: Seq<(Seq<char>, V)>) -> bool {
    forall|i: int, j: int|
        0 <= i < j < pairs.len() ==> text_lt(#[trigger] pairs[i].0, #[trigger] pairs[j].0)
}

/// Whether `key` is the key of one of `pairs`.
pub open spec fn has_key<V>(pairs: Seq<(Seq<char>, V)>, key: Seq<char>) -> bool {
    exists|i: int| 0 <= i < pairs.len() && #[trigger] pairs[i].0 == key
}

/// Where `key` stands in `pairs`.
pub open spec fn key_index<V>(pairs: Seq<(Seq<char>, V)>, key: Seq<char>) -> int {
    choose|i: int| 0 <= i < pairs.len() && #[trigger] pairs[i].0 == key
}

/// The map that `pairs` lists.
pub open spec fn map_of_pairs<V>(pairs: Seq<(Seq<char>, V)>) -> Map<Seq<char>, V> {
    Map::new(|key: Seq<char>| has_key(pairs, key), |key: Seq<char>| pairs[key_index(pairs, key)].1)
}

/// Each listed pair is in the map, under its key.
pub proof fn lemma_pair_in_map<V>(pairs: Seq<(Seq<char>, V)>, i: int)
    requires
        keys_ascend(pairs),
        0 <= i < pairs.len(),
    ensures
        map_of_pairs(pairs).contains_key(pairs[i].0),
        map_of_pairs(pairs)[pairs[i].0] == pairs[i].1,
        key_index(pairs, pairs[i].0) == i,
{
    let k = key_index(pairs, pairs[i].0);
    assert(pairs[i].0 == pairs[i].0);
    assert(0 <= k < pairs.len() && pairs[k].0 == pairs[i].0);
    text_lt_irreflexive(pairs[i].0);
    if k < i {
        assert(text_lt(pairs[k].0, pairs[i].0));
    } else if i < k {
        assert(text_lt(pairs[i].0, pairs[k].0));
    }
}

/// The map has as many keys as pairs are listed.
pub proof fn lemma_map_len<V>(pairs: Seq<(Seq<char>, V)>)
    requires
        keys_ascend(pairs),
    ensures
        map_of_pairs(pairs).dom().finite(),
        map_of_pairs(pairs).dom().len() == pairs.len(),
    decreases pairs.len(),
{
    if pairs.len() == 0 {
        assert(map_of_pairs(pairs).dom() =~= Set::empty());
    } else {
        let rest = pairs.drop_last();
        assert(keys_ascend(rest)) by {
            assert forall|i: int, j: int| 0 <= i < j < rest.len() implies text_lt(
                #[trigger] rest[i].0,
                #[trigger] rest[j].0,
            ) by {
                assert(rest[i] == pairs[i] && rest[j] == pairs[j]);
            }
        }
        lemma_map_len(rest);
        let last = pairs.last().0;
        assert(!has_key(rest, last)) by {
            if has_key(rest, last) {
                let i = key_index(rest, last);
                assert(rest[i] == pairs[i]);
                assert(text_lt(pairs[i].0, pairs[pairs.len() - 1].0));
                text_lt_irreflexive(last);
            }
        }
        assert(map_of_pairs(pairs).dom() =~= map_of_pairs(rest).dom().insert(last)) by {
            assert forall|k: Seq<char>|
                map_of_pairs(pairs).dom().contains(k) == map_of_pairs(rest).dom().insert(
                    last,
                ).contains(k) by {
                if has_key(pairs, k) {
                    let i = key_index(pairs, k);
                    if i < rest.len() {
                        assert(rest[i].0 == k);
                    }
                }
                if has_key(rest, k) {
                    let i = key_index(rest, k);
                    assert(pairs[i].0 == k);
                }
                assert(pairs[pairs.len() - 1].0 == last);
            }
        }
    }
}

/// Lists with ascending keys that list the same map are the same list.
pub proof fn lemma_pairs_determined<V>(a: Seq<(Seq<char>, V)>, b: Seq<(Seq<char>, V)>)
    requires
        keys_ascend(a),
        keys_ascend(b),
        map_of_pairs(a) == map_of_pairs(b),
    ensures
        a == b,
{
    lemma_map_len(a);
    lemma_map_len(b);
    assert forall|i: int| 0 <= i < a.len() implies a[i] == b[i] by {
        lemma_same_at(a, b, i);
    }
    assert(a =~= b);
}

proof fn lemma_same_at<V>(a: Seq<(Seq<char>, V)>, b: Seq<(Seq<char>, V)>, i: int)
    requires
        keys_ascend(a),
        keys_ascend(b),
        map_of_pairs(a) == map_of_pairs(b),
        a.len() == b.len(),
        0 <= i < a.len(),
    ensures
        a[i] == b[i],
    decreases i,
{
    lemma_pair_in_map(a, i);
    lemma_pair_in_map(b, i);
    let p = key_index(b, a[i].0);
    let q = key_index(a, b[i].0);
    assert(has_key(b, a[i].0)) by {
        assert(map_of_pairs(b).contains_key(a[i].0));
    }
    assert(has_key(a, b[i].0)) by {
        assert(map_of_pairs(a).contains_key(b[i].0));
    }
    assert(0 <= p < b.len() && b[p].0 == a[i].0);
    assert(0 <= q < a.len() && a[q].0 == b[i].0);
    if p < i {
        lemma_same_at(a, b, p);
        assert(text_lt(a[p].0, a[i].0));
        text_lt_irreflexive(a[i].0);
    }
    if q < i {
        lemma_same_at(a, b, q);
        assert(text_lt(b[q].0, b[i].0));
        text_lt_irreflexive(b[i].0);
    }
    if p > i {
        assert(text_lt(b[i].0, b[p].0));
        if q > i {
            assert(text_lt(a[i].0, a[q].0));
            text_lt_asymmetric(a[i].0, a[q].0);
        }
    }
    lemma_pair_in_map(b, p);
}

/// A map from strings to values that lists its keys in ascending order.
#[derive(Debug)]
pub struct StringMap<V> {
    entries: Vec<(String, V)>,
}

impl<V> StringMap<V> {
    /// The keys and values, in the order of the keys.
    pub closed spec fn pairs(&self) -> Seq<(Seq<char>, V)> {
        Seq::new(self.entries@.len(), |i: int| (self.entries@[i].0@, self.entries@[i].1))
    }

    #[verifier::type_invariant]
    spec fn ordered(self) -> bool {
        keys_ascend(self.pairs())
    }

    /// The map without entries.
    pub fn new() -> (r: StringMap<V>)
        ensures
            r.pairs() == Seq::<(Seq<char>, V)>::empty(),
            r@ == Map::<Seq<char>, V>::empty(),
    {
        let r = StringMap { entries: Vec::new() };
        proof {
            assert(r.pairs() =~= Seq::empty());
            assert(r@ =~= Map::empty());
        }
        r
    }

    /// How many entries there are.
    pub fn len(&self) -> (r: usize)
        ensures
            r == self.pairs().len(),
            keys_ascend(self.pairs()),
    {
        proof {
            use_type_invariant(self);
        }
        self.entries.len()
    }

    /// The key that stands at position `i`.
    pub fn key_at(&self, i: usize) -> (r: &String)
        requires
            i < self.pairs().len(),
        ensures
            r@ == self.pairs()[i as int].0,
    {
        &self.entries[i].0
    }

    /// The value that stands at position `i`.
    pub fn value_at(&self, i: usize) -> (r: &V)
        requires
            i < self.pairs().len(),
        ensures
            *r == self.pairs()[i as int].1,
    {
        &self.entries[i].1
    }

    /// The position of `key`, or the position at which it would have to stand.
    fn position(&self, key: &str) -> (r: (bool, usize))
        ensures
            r.1 <= self.pairs().len(),
            r.0 ==> r.1 < self.pairs().len() && self.pairs()[r.1 as int].0 == key@,
            !r.0 ==> !has_key(self.pairs(), key@),
            forall|i: int| 0 <= i < r.1 ==> text_lt(#[trigger] self.pairs()[i].0, key@),
            !r.0 ==> forall|i: int|
                r.1 <= i < self.pairs().len() ==> text_lt(key@, #[trigger] self.pairs()[i].0),
    {
        proof {
            use_type_invariant(self);
        }
        let ghost pairs = self.pairs();
        let mut low: usize = 0;
        let mut high: usize = self.entries.len();
        while low < high
            invariant
                pairs == self.pairs(),
                keys_ascend(pairs),
                pairs.len() == self.entries@.len(),
                low <= high <= pairs.len(),
                forall|i: int| 0 <= i < low ==> text_lt(#[trigger] pairs[i].0, key@),
                forall|i: int| high <= i < pairs.len() ==> text_lt(key@, #[trigger] pairs[i].0),
            decreases high - low,
        {
            let middle: usize = low + (high - low) / 2;
            match text_order(self.entries[middle].0.as_str(), key) {
                TextOrder::Same => {
                    proof {
                        assert(pairs[middle as int].0 == key@);
                        assert forall|i: int| 0 <= i < middle implies text_lt(
                            #[trigger] pairs[i].0,
                            key@,
                        ) by {}
                    }
                    return (true, middle);
                },
                TextOrder::Before => {
                    proof {
                        assert(text_lt(pairs[middle as int].0, key@));
                        assert forall|i: int| 0 <= i < middle + 1 implies text_lt(
                            #[trigger] pairs[i].0,
                            key@,
                        ) by {
                            if i < middle {
                                text_lt_transitive(pairs[i].0, pairs[middle as int].0, key@);
                            }
                        }
                    }
                    low = middle + 1;
                },
                TextOrder::After => {
                    proof {
                        assert(text_lt(key@, pairs[middle as int].0));
                        assert forall|i: int| middle <= i < pairs.len() implies text_lt(
                            key@,
                            #[trigger] pairs[i].0,
                        ) by {
                            if middle < i {
                                text_lt_transitive(key@, pairs[middle as int].0, pairs[i].0);
                            }
                        }
                    }
                    high = middle;
                },
            }
        }
        proof {
            if has_key(pairs, key@) {
                let i = key_index(pairs, key@);
                text_lt_irreflexive(key@);
                if i < low {
                    assert(text_lt(pairs[i].0, key@));
                } else {
                    assert(text_lt(key@, pairs[i].0));
                }
            }
        }
        (false, low)
    }

    /// The value under `key`, if there is one.
    pub fn get(&self, key: &str) -> (r: Option<&V>)
        ensures
            match r {
                Some(v) => self@.contains_key(key@) && *v == self@[key@],
                None => !self@.contains_key(key@),
            },
    {
        let (found, i) = self.position(key);
        if found {
            proof {
                use_type_invariant(self);
                lemma_pair_in_map(self.pairs(), i as int);
            }
            Some(&self.entries[i].1)
        } else {
            None
        }
    }

    /// Whether there is a value under `key`.
    pub fn contains_key(&self, key: &str) -> (r: bool)
        ensures
            r == self@.contains_key(key@),
    {
        self.get(key).is_some()
    }

    /// Puts `value` under `key`, in place of what stood there.
    pub fn insert(&mut self, key: String, value: V)
        ensures
            final(self)@ == old(self)@.insert(key@, value),
    {
        let (found, i) = self.position(key.as_str());
        proof {
            use_type_invariant(&*self);
        }
        let ghost before = self.pairs();
        let mut entries: Vec<(String, V)> = Vec::new();
        std::mem::swap(&mut self.entries, &mut entries);
        if found {
            entries.set(i, (key, value));
        } else {
            entries.insert(i, (key, value));
        }
        let ghost after = Seq::new(entries@.len(), |k: int| (entries@[k].0@, entries@[k].1));
        proof {
            if found {
                assert(after =~= before.update(i as int, (key@, value)));
                lemma_update(before, i as int, value);
            } else {
                assert(after =~= before.insert(i as int, (key@, value)));
                lemma_insert(before, i as int, key@, value);
            }
        }
        self.entries = entries;
        proof {
            assert(self.pairs() =~= after);
        }
    }

    /// Takes the entry under `key` away and gives back its value.
    pub fn remove(&mut self, key: &str) -> (r: Option<V>)
        ensures
            final(self)@ == old(self)@.remove(key@),
            match r {
                Some(v) => old(self)@.contains_key(key@) && v == old(self)@[key@],
                None => !old(self)@.contains_key(key@),
            },
    {
        let (found, i) = self.position(key);
        proof {
            use_type_invariant(&*self);
        }
        let ghost before = self.pairs();
        if found {
            let mut entries: Vec<(String, V)> = Vec::new();
            std::mem::swap(&mut self.entries, &mut entries);
            let (_, value) = entries.remove(i);
            let ghost after = Seq::new(entries@.len(), |k: int| (entries@[k].0@, entries@[k].1));
            proof {
                assert(after =~= before.remove(i as int));
                lemma_pair_in_map(before, i as int);
                lemma_remove(before, i as int);
            }
            self.entries = entries;
            proof {
                assert(self.pairs() =~= after);
            }
            Some(value)
        } else {
            proof {
                assert(map_of_pairs(before).remove(key@) =~= map_of_pairs(before));
            }
            None
        }
    }
}

impl<V> View for StringMap<V> {
    type V = Map<Seq<char>, V>;

    open spec fn view(&self) -> Map<Seq<char>, V> {
        map_of_pairs(self.pairs())
    }
}

proof fn lemma_update<V>(before: Seq<(Seq<char>, V)>, i: int, value: V)
    requires
        keys_ascend(before),
        0 <= i < before.len(),
    ensures
        keys_ascend(before.update(i, (before[i].0, value))),
        map_of_pairs(before.update(i, (before[i].0, value))) == map_of_pairs(before).insert(
            before[i].0,
            value,
        ),
{
    let after = before.update(i, (before[i].0, value));
    assert forall|j: int| 0 <= j < after.len() implies (#[trigger] after[j]).0 == before[j].0 by {}
    assert(keys_ascend(after));
    assert forall|k: Seq<char>|
        map_of_pairs(after).contains_key(k) == map_of_pairs(before).insert(
            before[i].0,
            value,
        ).contains_key(k) by {
        if has_key(after, k) {
            assert(before[key_index(after, k)].0 == k);
        }
        if has_key(before, k) {
            assert(after[key_index(before, k)].0 == k);
        }
        assert(after[i].0 == before[i].0);
    }
    assert forall|k: Seq<char>| map_of_pairs(after).contains_key(k) implies #[trigger] map_of_pairs(
        after,
    )[k] == map_of_pairs(before).insert(before[i].0, value)[k] by {
        let j = key_index(after, k);
        lemma_pair_in_map(after, j);
        lemma_pair_in_map(before, j);
        lemma_pair_in_map(before, i);
        assert(before[j].0 == k);
    }
    assert(map_of_pairs(after) =~= map_of_pairs(before).insert(before[i].0, value));
}

proof fn lemma_insert<V>(before: Seq<(Seq<char>, V)>, i: int, key: Seq<char>, value: V)
    requires
        keys_ascend(before),
        0 <= i <= before.len(),
        forall|j: int| 0 <= j < i ==> text_lt(#[trigger] before[j].0, key),
        forall|j: int| i <= j < before.len() ==> text_lt(key, #[trigger] before[j].0),
    ensures
        keys_ascend(before.insert(i, (key, value))),
        map_of_pairs(before.insert(i, (key, value))) == map_of_pairs(before).insert(key, value),
{
    let after = before.insert(i, (key, value));
    assert(keys_ascend(after)) by {
        assert forall|a: int, b: int| 0 <= a < b < after.len() implies text_lt(
            #[trigger] after[a].0,
            #[trigger] after[b].0,
        ) by {
            let ka = if a < i { a } else { a - 1 };
            let kb = if b < i { b } else { b - 1 };
            if a != i {
                assert(after[a] == before[ka]);
            }
            if b != i {
                assert(after[b] == before[kb]);
            }
        }
    }
    assert forall|k: Seq<char>|
        map_of_pairs(after).contains_key(k) == map_of_pairs(before).insert(
            key,
            value,
        ).contains_key(k) by {
        if has_key(after, k) {
            let j = key_index(after, k);
            if j < i {
                assert(before[j].0 == k);
            } else if j > i {
                assert(before[j - 1].0 == k);
            }
        }
        if has_key(before, k) {
            let j = key_index(before, k);
            if j < i {
                assert(after[j].0 == k);
            } else {
                assert(after[j + 1].0 == k);
            }
        }
        assert(after[i].0 == key);
    }
    assert forall|k: Seq<char>| map_of_pairs(after).contains_key(k) implies #[trigger] map_of_pairs(
        after,
    )[k] == map_of_pairs(before).insert(key, value)[k] by {
        let j = key_index(after, k);
        lemma_pair_in_map(after, j);
        lemma_pair_in_map(after, i);
        if j < i {
            lemma_pair_in_map(before, j);
            text_lt_irreflexive(key);
            assert(text_lt(before[j].0, key));
        } else if j > i {
            lemma_pair_in_map(before, j - 1);
            text_lt_irreflexive(key);
            assert(text_lt(key, before[j - 1].0));
        }
    }
    assert(map_of_pairs(after) =~= map_of_pairs(before).insert(key, value));
}

proof fn lemma_remove<V>(before: Seq<(Seq<char>, V)>, i: int)
    requires
        keys_ascend(before),
        0 <= i < before.len(),
    ensures
        keys_ascend(before.remove(i)),
        map_of_pairs(before.remove(i)) == map_of_pairs(before).remove(before[i].0),
{
    let after = before.remove(i);
    assert forall|a: int| 0 <= a < after.len() implies (#[trigger] after[a]) == before[if a < i {
        a
    } else {
        a + 1
    }] by {}
    assert(keys_ascend(after));
    assert forall|k: Seq<char>|
        map_of_pairs(after).contains_key(k) == map_of_pairs(before).remove(
            before[i].0,
        ).contains_key(k) by {
        if has_key(after, k) {
            let j = key_index(after, k);
            let b = if j < i { j } else { j + 1 };
            assert(before[b].0 == k);
            text_lt_irreflexive(k);
            if b < i {
                assert(text_lt(before[b].0, before[i].0));
            } else {
                assert(text_lt(before[i].0, before[b].0));
            }
        }
        if has_key(before, k) && k != before[i].0 {
            let j = key_index(before, k);
            if j < i {
                assert(after[j].0 == k);
            } else {
                assert(after[j - 1].0 == k);
            }
        }
    }
    assert forall|k: Seq<char>| map_of_pairs(after).contains_key(k) implies #[trigger] map_of_pairs(
        after,
    )[k] == map_of_pairs(before).remove(before[i].0)[k] by {
        let j = key_index(after, k);
        lemma_pair_in_map(after, j);
        lemma_pair_in_map(before, if j < i { j } else { j + 1 });
    }
    assert(map_of_pairs(after) =~= map_of_pairs(before).remove(before[i].0));
}

} // verus!
