//! How many edits lie between two texts.
use vstd::prelude::*;

use crate::distance::distance;
use crate::distance::distance_is_symmetric;
use crate::json::JsonView;
use crate::matching::query_score;
use crate::positions::ReaderView;
use crate::types::Fuzziness;
use crate::types::QueryView;

verus! {

/// Whether `b` is `a` with one character put in.
pub open spec fn is_insertion(a: Seq<char>, b: Seq<char>) -> bool {
    exists|i: int, c: char| 0 <= i <= a.len() && b == #[trigger] a.insert(i, c)
}

/// Whether `b` is `a` with one character replaced.
pub open spec fn is_replacement(a: Seq<char>, b: Seq<char>) -> bool {
    exists|i: int, c: char| 0 <= i < a.len() && b == #[trigger] a.update(i, c)
}

/// Whether one character has to be put in, taken out or replaced to make `b` of `a`.
pub open spec fn is_edit(a: Seq<char>, b: Seq<char>) -> bool {
    is_insertion(a, b) || is_insertion(b, a) || is_replacement(a, b)
}

/// Whether each of the texts is one edit away from the one before, from `a` to `b`.
pub open spec fn leads(steps: Seq<Seq<char>>, a: Seq<char>, b: Seq<char>) -> bool {
    &&& steps.len() > 0
    &&& steps[0] == a
    &&& steps.last() == b
    &&& forall|i: int| 0 < i < steps.len() ==> is_edit(steps[i - 1], #[trigger] steps[i])
}

proof fn lemma_last_counts_one(a: Seq<char>, c: Seq<char>)
    requires
        a.len() > 0,
    ensures
        distance(a, c) <= distance(a.drop_last(), c) + 1,
        distance(a.drop_last(), c) <= distance(a, c) + 1,
        distance(c, a) <= distance(c, a.drop_last()) + 1,
        distance(c, a.drop_last()) <= distance(c, a) + 1,
    decreases a.len() + c.len(),
{
    let less = a.drop_last();
    distance_is_symmetric(a, c);
    distance_is_symmetric(less, c);
    if c.len() > 0 {
        let rest = c.drop_last();
        lemma_last_counts_one(c, less);
        distance_is_symmetric(less, rest);
        lemma_last_counts_one(a, rest);
    }
}

proof fn lemma_replacing_last(p: Seq<char>, x: char, y: char, c: Seq<char>)
    ensures
        distance(p.push(x), c) <= distance(p.push(y), c) + 1,
    decreases c.len(),
{
    let a = p.push(x);
    let b = p.push(y);
    assert(a.drop_last() =~= p);
    assert(b.drop_last() =~= p);
    if c.len() > 0 {
        let rest = c.drop_last();
        lemma_replacing_last(p, x, y, rest);
        lemma_last_counts_one(c, p);
        lemma_last_counts_one(b, rest);
        lemma_last_counts_one(a, rest);
    }
}

/// What is no further off at the beginning of a text is no further off in the whole of it.
proof fn lemma_same_end(p: Seq<char>, q: Seq<char>, end: Seq<char>, c: Seq<char>)
    requires
        forall|d: Seq<char>| #[trigger] distance(p, d) <= distance(q, d) + 1,
        p.len() <= q.len() + 1,
    ensures
        distance(p + end, c) <= distance(q + end, c) + 1,
    decreases end.len() + c.len(),
{
    let a = p + end;
    let b = q + end;
    if end.len() == 0 {
        assert(a =~= p);
        assert(b =~= q);
    } else {
        let less = end.drop_last();
        assert(a.drop_last() =~= p + less);
        assert(b.drop_last() =~= q + less);
        assert(a.last() == end.last());
        assert(b.last() == end.last());
        if c.len() > 0 {
            let rest = c.drop_last();
            lemma_same_end(p, q, less, rest);
            lemma_same_end(p, q, less, c);
            lemma_same_end(p, q, end, rest);
        }
    }
}

proof fn lemma_insertion_counts_one(a: Seq<char>, i: int, x: char, c: Seq<char>)
    requires
        0 <= i <= a.len(),
    ensures
        distance(a.insert(i, x), c) <= distance(a, c) + 1,
        distance(a, c) <= distance(a.insert(i, x), c) + 1,
{
    let p = a.take(i);
    let q = p.push(x);
    let end = a.skip(i);
    assert(q.drop_last() =~= p);
    assert forall|d: Seq<char>| #[trigger] distance(p, d) <= distance(q, d) + 1 by {
        lemma_last_counts_one(q, d);
    }
    assert forall|d: Seq<char>| #[trigger] distance(q, d) <= distance(p, d) + 1 by {
        lemma_last_counts_one(q, d);
    }
    lemma_same_end(p, q, end, c);
    lemma_same_end(q, p, end, c);
    assert(p + end =~= a);
    assert(q + end =~= a.insert(i, x));
}

proof fn lemma_replacement_counts_one(a: Seq<char>, i: int, x: char, c: Seq<char>)
    requires
        0 <= i < a.len(),
    ensures
        distance(a, c) <= distance(a.update(i, x), c) + 1,
{
    let p = a.take(i);
    let end = a.skip(i + 1);
    let here = p.push(a[i]);
    let there = p.push(x);
    assert forall|d: Seq<char>| #[trigger] distance(here, d) <= distance(there, d) + 1 by {
        lemma_replacing_last(p, a[i], x, d);
    }
    lemma_same_end(here, there, end, c);
    assert(here + end =~= a);
    assert(there + end =~= a.update(i, x));
}

proof fn lemma_edit_counts_one(a: Seq<char>, b: Seq<char>, c: Seq<char>)
    requires
        is_edit(a, b),
    ensures
        distance(a, c) <= distance(b, c) + 1,
{
    if is_insertion(a, b) {
        let (i, x) = choose|i: int, x: char| 0 <= i <= a.len() && b == #[trigger] a.insert(i, x);
        lemma_insertion_counts_one(a, i, x, c);
    } else if is_insertion(b, a) {
        let (i, x) = choose|i: int, x: char| 0 <= i <= b.len() && a == #[trigger] b.insert(i, x);
        lemma_insertion_counts_one(b, i, x, c);
    } else {
        let (i, x) = choose|i: int, x: char| 0 <= i < a.len() && b == #[trigger] a.update(i, x);
        lemma_replacement_counts_one(a, i, x, c);
    }
}

/// However one text is made of another, it takes no fewer edits than their distance.
pub proof fn no_fewer_edits_do(steps: Seq<Seq<char>>, a: Seq<char>, b: Seq<char>)
    requires
        leads(steps, a, b),
    ensures
        distance(a, b) <= steps.len() - 1,
    decreases steps.len(),
{
    if steps.len() == 1 {
        crate::distance::distance_zero_is_equality(a, b);
    } else {
        let rest = steps.drop_first();
        assert forall|i: int| 0 < i < rest.len() implies is_edit(rest[i - 1], #[trigger] rest[i]) by {
            assert(is_edit(steps[i + 1 - 1], steps[i + 1]));
        }
        assert(rest[0] == steps[1]);
        assert(rest.last() == b);
        no_fewer_edits_do(rest, steps[1], b);
        assert(is_edit(steps[1 - 1], steps[1]));
        lemma_edit_counts_one(a, steps[1], b);
    }
}

/// The same edits do where the texts have one more character at their end.
proof fn lemma_edit_before_end(a: Seq<char>, b: Seq<char>, x: char)
    requires
        is_edit(a, b),
    ensures
        is_edit(a.push(x), b.push(x)),
{
    if is_insertion(a, b) {
        let (i, c) = choose|i: int, c: char| 0 <= i <= a.len() && b == #[trigger] a.insert(i, c);
        assert(b.push(x) =~= a.push(x).insert(i, c));
    } else if is_insertion(b, a) {
        let (i, c) = choose|i: int, c: char| 0 <= i <= b.len() && a == #[trigger] b.insert(i, c);
        assert(a.push(x) =~= b.push(x).insert(i, c));
    } else {
        let (i, c) = choose|i: int, c: char| 0 <= i < a.len() && b == #[trigger] a.update(i, c);
        assert(b.push(x) =~= a.push(x).update(i, c));
    }
}

proof fn lemma_steps_before_end(
    steps: Seq<Seq<char>>,
    a: Seq<char>,
    b: Seq<char>,
    x: char,
) -> (r: Seq<Seq<char>>)
    requires
        leads(steps, a, b),
    ensures
        leads(r, a.push(x), b.push(x)),
        r.len() == steps.len(),
{
    let r = Seq::new(steps.len(), |i: int| steps[i].push(x));
    assert forall|i: int| 0 < i < r.len() implies is_edit(r[i - 1], #[trigger] r[i]) by {
        assert(is_edit(steps[i - 1], steps[i]));
        lemma_edit_before_end(steps[i - 1], steps[i], x);
    }
    r
}

proof fn lemma_one_more_step(
    steps: Seq<Seq<char>>,
    a: Seq<char>,
    b: Seq<char>,
    c: Seq<char>,
) -> (r: Seq<Seq<char>>)
    requires
        leads(steps, a, b),
        is_edit(b, c),
    ensures
        leads(r, a, c),
        r.len() == steps.len() + 1,
{
    let r = steps.push(c);
    assert forall|i: int| 0 < i < r.len() implies is_edit(r[i - 1], #[trigger] r[i]) by {
        if i < steps.len() {
            assert(is_edit(steps[i - 1], steps[i]));
        }
    }
    r
}

/// One text can be made of another with as many edits as their distance says.
pub proof fn as_many_edits_do(a: Seq<char>, b: Seq<char>) -> (steps: Seq<Seq<char>>)
    ensures
        leads(steps, a, b),
        steps.len() == distance(a, b) + 1,
    decreases a.len() + b.len(),
{
    if a.len() == 0 && b.len() == 0 {
        assert(a =~= b);
        seq![a]
    } else if b.len() == 0 {
        let less = a.drop_last();
        let steps = as_many_edits_do(less, b);
        let before = lemma_steps_before_end(steps, less, b, a.last());
        assert(less.push(a.last()) =~= a);
        assert(b.push(a.last()) =~= b.insert(0, a.last()));
        assert(distance(less, b) == less.len());
        lemma_one_more_step(before, a, b.push(a.last()), b)
    } else if a.len() == 0 {
        let less = b.drop_last();
        let steps = as_many_edits_do(a, less);
        assert(less.insert(less.len() as int, b.last()) =~= b);
        assert(distance(a, less) == less.len());
        lemma_one_more_step(steps, a, less, b)
    } else {
        let x = a.drop_last();
        let y = b.drop_last();
        assert(x.push(a.last()) =~= a);
        assert(y.push(b.last()) =~= b);
        if a.last() == b.last() {
            let steps = as_many_edits_do(x, y);
            lemma_steps_before_end(steps, x, y, a.last())
        } else if distance(a, b) == 1 + distance(x, y) {
            let steps = as_many_edits_do(x, y);
            let before = lemma_steps_before_end(steps, x, y, a.last());
            let near = y.push(a.last());
            assert(near.update(y.len() as int, b.last()) =~= b);
            lemma_one_more_step(before, a, near, b)
        } else if distance(a, b) == 1 + distance(x, b) {
            let steps = as_many_edits_do(x, b);
            let before = lemma_steps_before_end(steps, x, b, a.last());
            let near = b.push(a.last());
            assert(b.insert(b.len() as int, a.last()) =~= near);
            lemma_one_more_step(before, a, near, b)
        } else {
            let steps = as_many_edits_do(a, y);
            assert(y.insert(y.len() as int, b.last()) =~= b);
            lemma_one_more_step(steps, a, y, b)
        }
    }
}

/// A term with fuzziness finds the texts that can be made of it with as many edits as it allows.
/// Where it is to find the number by itself, a term of fewer than three characters allows none, one
/// of fewer than six allows one, and a longer one two.
pub proof fn fuzzy_terms_find_texts_within_their_edits(
    source: JsonView,
    field: Seq<char>,
    text: Seq<char>,
    wanted: Seq<char>,
    fuzziness: Fuzziness,
    doc_id: u64,
    readers: Seq<ReaderView>,
)
    requires
        source.member(field) == Some(JsonView::Text(text)),
    ensures
        ({
            let allowed = match fuzziness {
                Fuzziness::Exact(n) => n as int,
                Fuzziness::Auto => if wanted.len() < 3 {
                    0
                } else if wanted.len() < 6 {
                    1
                } else {
                    2
                },
            };
            query_score(
                source,
                QueryView::Term {
                    field,
                    value: JsonView::Text(wanted),
                    fuzziness: Some(fuzziness),
                },
                doc_id,
                readers,
            ) is Some <==> exists|steps: Seq<Seq<char>>| #[trigger]
                leads(steps, text, wanted) && steps.len() - 1 <= allowed
        }),
{
    let least = as_many_edits_do(text, wanted);
    assert(leads(least, text, wanted));
    assert forall|steps: Seq<Seq<char>>| #[trigger] leads(steps, text, wanted) implies distance(
        text,
        wanted,
    ) <= steps.len() - 1 by {
        no_fewer_edits_do(steps, text, wanted);
    }
}

} // verus!
