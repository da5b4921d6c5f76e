//! How many items of a list are kept by a condition.
use vstd::prelude::*;

verus! {

/// One item more counts if it is kept.
pub proof fn lemma_one_more<T>(items: Seq<T>, keep: spec_fn(T) -> bool)
    requires
        items.len() > 0,
    ensures
        items.filter(keep).len() == items.drop_last().filter(keep).len() + (if keep(items.last()) {
            1int
        } else {
            0
        }),
{
    reveal(Seq::filter);
}

/// Nothing is kept of nothing.
pub proof fn lemma_none<T>(items: Seq<T>, keep: spec_fn(T) -> bool)
    requires
        items.len() == 0,
    ensures
        items.filter(keep).len() == 0,
{
    reveal(Seq::filter);
}

/// Where something is kept there is an item that is.
pub proof fn lemma_one_is_kept<T>(items: Seq<T>, keep: spec_fn(T) -> bool)
    requires
        items.filter(keep).len() > 0,
    ensures
        exists|k: int| 0 <= k < items.len() && keep(#[trigger] items[k]),
    decreases items.len(),
{
    if items.len() == 0 {
        lemma_none(items, keep);
    } else {
        lemma_one_more(items, keep);
        if keep(items.last()) {
            assert(keep(items[items.len() - 1]));
        } else {
            lemma_one_is_kept(items.drop_last(), keep);
            let k = choose|k: int|
                0 <= k < items.len() - 1 && keep(#[trigger] items.drop_last()[k]);
            assert(keep(items[k]));
        }
    }
}

/// Where there is an item that is kept something is.
pub proof fn lemma_kept_counts<T>(items: Seq<T>, keep: spec_fn(T) -> bool, k: int)
    requires
        0 <= k < items.len(),
        keep(items[k]),
    ensures
        items.filter(keep).len() > 0,
    decreases items.len(),
{
    lemma_one_more(items, keep);
    if k < items.len() - 1 {
        assert(items.drop_last()[k] == items[k]);
        lemma_kept_counts(items.drop_last(), keep, k);
    }
}

/// Conditions that keep the same items keep as many.
pub proof fn lemma_same_are_kept<T>(
    items: Seq<T>,
    a: spec_fn(T) -> bool,
    b: spec_fn(T) -> bool,
)
    requires
        forall|k: int| 0 <= k < items.len() ==> a(#[trigger] items[k]) == b(items[k]),
    ensures
        items.filter(a).len() == items.filter(b).len(),
    decreases items.len(),
{
    if items.len() == 0 {
        lemma_none(items, a);
        lemma_none(items, b);
    } else {
        lemma_one_more(items, a);
        lemma_one_more(items, b);
        let before = items.drop_last();
        assert forall|k: int| 0 <= k < before.len() implies a(#[trigger] before[k]) == b(
            before[k],
        ) by {
            assert(before[k] == items[k]);
        }
        lemma_same_are_kept(before, a, b);
        assert(a(items[items.len() - 1]) == b(items[items.len() - 1]));
    }
}

/// What is in two lists, one after the other, is in one of them.
pub proof fn lemma_in_both<T>(a: Seq<T>, b: Seq<T>, x: T)
    ensures
        (a + b).contains(x) <==> a.contains(x) || b.contains(x),
{
    if a.contains(x) {
        let i = choose|i: int| 0 <= i < a.len() && a[i] == x;
        assert((a + b)[i] == x);
    }
    if b.contains(x) {
        let i = choose|i: int| 0 <= i < b.len() && b[i] == x;
        assert((a + b)[a.len() + i] == x);
    }
    if (a + b).contains(x) {
        let i = choose|i: int| 0 <= i < (a + b).len() && (a + b)[i] == x;
        if i < a.len() {
            assert(a[i] == x);
        } else {
            assert(b[i - a.len()] == x);
        }
    }
}

} // verus!
