//! Sorting by a strict order.
use vstd::prelude::*;

verus! {

/// Values that can be put in order.
pub trait Sortable: Sized {
    /// Whether this value has to stand before the other.
    spec fn before(self, other: Self) -> bool;

    /// Whether this value has to stand before the other.
    fn goes_before(&self, other: &Self) -> (r: bool)
        ensures
            r == self.before(*other),
    ;
}

/// Whether the values at different positions of `s` are strictly and totally ordered.
pub open spec fn strictly_ordered<T: Sortable>(s: Seq<T>) -> bool {
    &&& forall|i: int, j: int|
        0 <= i < s.len() && 0 <= j < s.len() && i != j ==> ((#[trigger] s[i]).before(
            #[trigger] s[j],
        ) <==> !s[j].before(s[i]))
    &&& forall|i: int, j: int, k: int|
        0 <= i < s.len() && 0 <= j < s.len() && 0 <= k < s.len() && (#[trigger] s[i]).before(
            #[trigger] s[j],
        ) && s[j].before(#[trigger] s[k]) ==> s[i].before(s[k])
}

/// Whether each value of `s` stands before all that follow it.
pub open spec fn ascends<T: Sortable>(s: Seq<T>) -> bool {
    forall|i: int, j: int| 0 <= i < j < s.len() ==> (#[trigger] s[i]).before(#[trigger] s[j])
}

/// Whether `places` lists each position below `n` once.
pub open spec fn is_arrangement(places: Seq<int>, n: int) -> bool {
    &&& places.len() == n
    &&& forall|i: int| 0 <= i < n ==> 0 <= #[trigger] places[i] < n
    &&& forall|i: int, j: int| 0 <= i < j < n ==> #[trigger] places[i] != #[trigger] places[j]
}

/// The values of `s` at `places`.
pub open spec fn arranged<T>(s: Seq<T>, places: Seq<int>) -> Seq<T> {
    Seq::new(places.len(), |i: int| s[places[i]])
}

/// An arrangement lists every position.
pub proof fn lemma_arrangement_covers(order: Seq<int>, n: int, p: int)
    requires
        is_arrangement(order, n),
        0 <= p < n,
    ensures
        exists|q: int| 0 <= q < n && #[trigger] order[q] == p,
{
    let listed = order.to_set();
    let all = vstd::set_lib::set_int_range(0, n);
    vstd::set_lib::lemma_int_range(0, n);
    assert(order.no_duplicates());
    order.unique_seq_to_set();
    assert(listed.subset_of(all));
    vstd::set_lib::lemma_subset_equality(listed, all);
    assert(listed.contains(p));
    let q = choose|q: int| 0 <= q < order.len() && #[trigger] order[q] == p;
    assert(order[q] == p);
}

/// Two lists of the same values that are in the same strict order are the same.
pub proof fn lemma_one_listing<T>(a: Seq<T>, b: Seq<T>, before: spec_fn(T, T) -> bool)
    requires
        forall|x: T| #[trigger] a.contains(x) <==> b.contains(x),
        forall|i: int, j: int| 0 <= i < j < a.len() ==> before(#[trigger] a[i], #[trigger] a[j]),
        forall|i: int, j: int| 0 <= i < j < b.len() ==> before(#[trigger] b[i], #[trigger] b[j]),
        forall|x: T, y: T| #[trigger] before(x, y) ==> !before(y, x),
    ensures
        a == b,
    decreases a.len(),
{
    if a.len() == 0 || b.len() == 0 {
        if a.len() > 0 {
            assert(a.contains(a[0]));
            assert(b.contains(a[0]));
        }
        if b.len() > 0 {
            assert(b.contains(b[0]));
            assert(a.contains(b[0]));
        }
        assert(a =~= b);
    } else {
        let (x, y) = (a.last(), b.last());
        assert(a[a.len() - 1] == x && b[b.len() - 1] == y);
        assert(a.contains(x) && b.contains(y));
        assert(b.contains(x) && a.contains(y));
        let i = choose|i: int| 0 <= i < b.len() && b[i] == x;
        let j = choose|j: int| 0 <= j < a.len() && a[j] == y;
        if i < b.len() - 1 {
            assert(before(b[i], b[b.len() - 1]));
            if j < a.len() - 1 {
                assert(before(a[j], a[a.len() - 1]));
            }
            assert(before(x, y));
            assert(!before(y, x));
            assert(before(x, x));
        }
        assert(x == y);
        let (c, d) = (a.drop_last(), b.drop_last());
        assert forall|v: T| #[trigger] c.contains(v) <==> d.contains(v) by {
            if c.contains(v) {
                let k = choose|k: int| 0 <= k < c.len() && c[k] == v;
                assert(a[k] == v);
                assert(before(a[k], a[a.len() - 1]));
                assert(a.contains(v));
                assert(b.contains(v));
                let m = choose|m: int| 0 <= m < b.len() && b[m] == v;
                if m == b.len() - 1 {
                    assert(before(x, x));
                }
                assert(d[m] == v);
            }
            if d.contains(v) {
                let k = choose|k: int| 0 <= k < d.len() && d[k] == v;
                assert(b[k] == v);
                assert(before(b[k], b[b.len() - 1]));
                assert(b.contains(v));
                assert(a.contains(v));
                let m = choose|m: int| 0 <= m < a.len() && a[m] == v;
                if m == a.len() - 1 {
                    assert(before(x, x));
                }
                assert(c[m] == v);
            }
        }
        assert forall|k: int, m: int| 0 <= k < m < c.len() implies before(
            #[trigger] c[k],
            #[trigger] c[m],
        ) by {
            assert(before(a[k], a[m]));
        }
        assert forall|k: int, m: int| 0 <= k < m < d.len() implies before(
            #[trigger] d[k],
            #[trigger] d[m],
        ) by {
            assert(before(b[k], b[m]));
        }
        lemma_one_listing(c, d, before);
        assert(a =~= c.push(x));
        assert(b =~= d.push(y));
    }
}

/// Two arrangements that are in the same strict order are the same.
pub proof fn lemma_one_arrangement(
    a: Seq<int>,
    b: Seq<int>,
    n: int,
    before: spec_fn(int, int) -> bool,
)
    requires
        is_arrangement(a, n),
        is_arrangement(b, n),
        forall|i: int, j: int| 0 <= i < j < n ==> before(#[trigger] a[i], #[trigger] a[j]),
        forall|i: int, j: int| 0 <= i < j < n ==> before(#[trigger] b[i], #[trigger] b[j]),
        forall|x: int, y: int|
            0 <= x < n && 0 <= y < n && #[trigger] before(x, y) ==> !before(y, x),
    ensures
        a == b,
{
    lemma_same_start(a, b, n, before, n);
    assert(a.take(n) =~= a);
    assert(b.take(n) =~= b);
}

proof fn lemma_same_start(
    a: Seq<int>,
    b: Seq<int>,
    n: int,
    before: spec_fn(int, int) -> bool,
    k: int,
)
    requires
        is_arrangement(a, n),
        is_arrangement(b, n),
        forall|i: int, j: int| 0 <= i < j < n ==> before(#[trigger] a[i], #[trigger] a[j]),
        forall|i: int, j: int| 0 <= i < j < n ==> before(#[trigger] b[i], #[trigger] b[j]),
        forall|x: int, y: int|
            0 <= x < n && 0 <= y < n && #[trigger] before(x, y) ==> !before(y, x),
        0 <= k <= n,
    ensures
        a.take(k) == b.take(k),
    decreases k,
{
    if k > 0 {
        lemma_same_start(a, b, n, before, k - 1);
        let x = a[k - 1];
        let y = b[k - 1];
        lemma_arrangement_covers(b, n, x);
        lemma_arrangement_covers(a, n, y);
        let i = choose|i: int| 0 <= i < n && #[trigger] b[i] == x;
        let j = choose|j: int| 0 <= j < n && #[trigger] a[j] == y;
        if i < k - 1 {
            assert(a.take(k - 1)[i] == b.take(k - 1)[i]);
            assert(a[i] == a[k - 1]);
        }
        if j < k - 1 {
            assert(a.take(k - 1)[j] == b.take(k - 1)[j]);
            assert(b[j] == b[k - 1]);
        }
        if x != y {
            assert(before(b[k - 1], b[i]));
            assert(before(a[k - 1], a[j]));
        }
        assert(a.take(k) =~= a.take(k - 1).push(x));
        assert(b.take(k) =~= b.take(k - 1).push(y));
    } else {
        assert(a.take(0) =~= b.take(0));
    }
}

/// Puts `items` in order: the result holds the same values, each as often, and each before
/// all that follow it where the order is strict and total on them.
pub fn sort<T: Sortable>(items: Vec<T>) -> (r: Vec<T>)
    ensures
        exists|places: Seq<int>|
            #[trigger] is_arrangement(places, items@.len() as int) && r@ == arranged(items@, places),
        strictly_ordered(items@) ==> ascends(r@),
{
    let ghost input = items@;
    let ghost n = input.len() as int;
    let mut rest = items;
    let mut r: Vec<T> = Vec::new();
    let ghost mut places: Seq<int> = Seq::empty();
    proof {
        assert(input.take(n) =~= input);
    }
    while rest.len() > 0
        invariant
            n == input.len(),
            rest@.len() <= n,
            rest@ == input.take(rest@.len() as int),
            r@.len() == n - rest@.len(),
            places.len() == r@.len(),
            r@ == arranged(input, places),
            forall|i: int| 0 <= i < places.len() ==> rest@.len() <= #[trigger] places[i] < n,
            forall|i: int, j: int|
                0 <= i < j < places.len() ==> #[trigger] places[i] != #[trigger] places[j],
            strictly_ordered(input) ==> ascends(r@),
        decreases rest@.len(),
    {
        let ghost place = rest@.len() - 1;
        let Some(item) = rest.pop() else {
            return r;
        };
        proof {
            assert(rest@ =~= input.take(place));
            assert(item == input[place]);
        }
        let mut low: usize = 0;
        let mut high: usize = r.len();
        while low < high
            invariant
                n == input.len(),
                low <= high <= r@.len(),
                0 <= place < n,
                item == input[place],
                places.len() == r@.len(),
                r@ == arranged(input, places),
                forall|i: int| 0 <= i < places.len() ==> place < #[trigger] places[i] < n,
                strictly_ordered(input) ==> ascends(r@),
                strictly_ordered(input) ==> forall|i: int|
                    0 <= i < low ==> (#[trigger] r@[i]).before(item),
                strictly_ordered(input) ==> forall|i: int|
                    high <= i < r@.len() ==> item.before(#[trigger] r@[i]),
            decreases high - low,
        {
            let middle: usize = low + (high - low) / 2;
            if r[middle].goes_before(&item) {
                proof {
                    if strictly_ordered(input) {
                        assert forall|i: int| 0 <= i < middle + 1 implies (
                        #[trigger] r@[i]).before(item) by {
                            if i < middle {
                                assert(r@[i].before(r@[middle as int]));
                                assert(r@[i] == input[places[i]]);
                                assert(r@[middle as int] == input[places[middle as int]]);
                            }
                        }
                    }
                }
                low = middle + 1;
            } else {
                proof {
                    if strictly_ordered(input) {
                        assert(r@[middle as int] == input[places[middle as int]]);
                        assert(item.before(r@[middle as int]));
                        assert forall|i: int| middle <= i < r@.len() implies item.before(
                            #[trigger] r@[i],
                        ) by {
                            if middle < i {
                                assert(r@[middle as int].before(r@[i]));
                                assert(r@[i] == input[places[i]]);
                            }
                        }
                    }
                }
                high = middle;
            }
        }
        let ghost before = r@;
        let ghost old_places = places;
        r.insert(low, item);
        proof {
            places = places.insert(low as int, place);
            assert(r@ =~= before.insert(low as int, item));
            assert forall|i: int| 0 <= i < places.len() implies #[trigger] places[i] == (if i < low {
                old_places[i]
            } else if i == low {
                place
            } else {
                old_places[i - 1]
            }) by {}
            assert forall|i: int| 0 <= i < r@.len() implies #[trigger] r@[i] == (if i < low {
                before[i]
            } else if i == low {
                item
            } else {
                before[i - 1]
            }) by {}
            assert(r@ =~= arranged(input, places)) by {
                assert forall|i: int| 0 <= i < r@.len() implies r@[i] == input[places[i]] by {
                    if i < low {
                        assert(before[i] == input[old_places[i]]);
                    } else if i > low {
                        assert(before[i - 1] == input[old_places[i - 1]]);
                    }
                }
            }
        }
    }
    proof {
        assert(is_arrangement(places, n));
    }
    r
}

} // verus!
