//! Which documents the kinds of queries find, and with which scores.
use vstd::prelude::*;
use vstd::set_lib::set_int_range;
use vstd::utf8::encode_utf8;

use crate::doubles::integers_compare_as_doubles;
use crate::json::JsonView;
use crate::json::NumberView;
use crate::matching::clause_scores;
use crate::matching::least_gap_at;
use crate::matching::least_gap_in;
use crate::matching::next_after;
use crate::matching::phrase_gap;
use crate::matching::query_score;
use crate::matching::scores_of;
use crate::matching::ScoreView;
use crate::positions::positions_in;
use crate::positions::term_positions;
use crate::positions::PostingView;
use crate::positions::ReaderView;
use crate::semantics::combination_matches_when;
use crate::semantics::count_matching;
use crate::semantics::matches_all;
use crate::semantics::matches_some;
use crate::text::tokens;
use crate::time::rfc3339_instant;
use crate::types::QueryView;
use crate::types::RangeView;

verus! {

/// The positions of the queries that a document matches.
pub open spec fn matching_places(
    source: JsonView,
    queries: Seq<QueryView>,
    doc_id: u64,
    readers: Seq<ReaderView>,
) -> Set<int> {
    set_int_range(0, queries.len() as int).filter(
        |i: int| query_score(source, queries[i], doc_id, readers) is Some,
    )
}

proof fn lemma_matching_places(
    source: JsonView,
    queries: Seq<QueryView>,
    k: int,
    doc_id: u64,
    readers: Seq<ReaderView>,
)
    requires
        0 <= k <= queries.len(),
    ensures
        ({
            let found = set_int_range(0, k).filter(
                |i: int| query_score(source, queries[i], doc_id, readers) is Some,
            );
            &&& found.finite()
            &&& found.len() == count_matching(source, queries, k, doc_id, readers)
        }),
    decreases k,
{
    let hits = |i: int| query_score(source, queries[i], doc_id, readers) is Some;
    vstd::set_lib::lemma_int_range(0, k);
    let found = set_int_range(0, k).filter(hits);
    if k > 0 {
        lemma_matching_places(source, queries, k - 1, doc_id, readers);
        let before = set_int_range(0, k - 1).filter(hits);
        if hits(k - 1) {
            assert(found =~= before.insert(k - 1));
        } else {
            assert(found =~= before);
        }
    } else {
        assert(found =~= Set::empty());
    }
}

/// A combination that does not say how many of its optional clauses have to match: beside a clause
/// that has to match none of them has to; without one at least one has to, if there are any.
pub proof fn optional_clauses_are_optional_beside_required_ones(
    source: JsonView,
    must: Seq<QueryView>,
    should: Seq<QueryView>,
    filter: Seq<QueryView>,
    must_not: Seq<QueryView>,
    doc_id: u64,
    readers: Seq<ReaderView>,
)
    ensures
        ({
            let found = |q: QueryView| query_score(source, q, doc_id, readers) is Some;
            let all = found(
                QueryView::Bool { must, should, filter, must_not, minimum_should_match: None },
            );
            let required = (forall|i: int| 0 <= i < must.len() ==> found(#[trigger] must[i])) && (
            forall|i: int| 0 <= i < filter.len() ==> found(#[trigger] filter[i])) && (forall|i: int|
                0 <= i < must_not.len() ==> !found(#[trigger] must_not[i]));
            &&& must.len() > 0 || filter.len() > 0 || should.len() == 0 ==> all == required
            &&& must.len() == 0 && filter.len() == 0 && should.len() > 0 ==> all == (required && (
            exists|i: int| 0 <= i < should.len() && found(#[trigger] should[i])))
        }),
{
    combination_matches_when(source, must, should, filter, must_not, None, doc_id, readers);
    lemma_some_place(source, should, doc_id, readers);
    let found = |q: QueryView| query_score(source, q, doc_id, readers) is Some;
    assert(matches_all(source, must, doc_id, readers) == (forall|i: int|
        0 <= i < must.len() ==> found(#[trigger] must[i]))) by {
        if matches_all(source, must, doc_id, readers) {
            assert forall|i: int| 0 <= i < must.len() implies found(#[trigger] must[i]) by {
                assert(crate::semantics::matches(source, must[i], doc_id, readers));
            }
        } else {
            let i = choose|i: int|
                0 <= i < must.len() && !crate::semantics::matches(source, #[trigger] must[i], doc_id, readers);
            assert(!found(must[i]));
        }
    }
    assert(matches_all(source, filter, doc_id, readers) == (forall|i: int|
        0 <= i < filter.len() ==> found(#[trigger] filter[i]))) by {
        if matches_all(source, filter, doc_id, readers) {
            assert forall|i: int| 0 <= i < filter.len() implies found(#[trigger] filter[i]) by {
                assert(crate::semantics::matches(source, filter[i], doc_id, readers));
            }
        } else {
            let i = choose|i: int|
                0 <= i < filter.len() && !crate::semantics::matches(source, #[trigger] filter[i], doc_id, readers);
            assert(!found(filter[i]));
        }
    }
    assert(matches_some(source, must_not, doc_id, readers) == !(forall|i: int|
        0 <= i < must_not.len() ==> !found(#[trigger] must_not[i]))) by {
        if matches_some(source, must_not, doc_id, readers) {
            let i = choose|i: int|
                0 <= i < must_not.len() && crate::semantics::matches(source, #[trigger] must_not[i], doc_id, readers);
            assert(found(must_not[i]));
        } else {
            assert forall|i: int| 0 <= i < must_not.len() implies !found(
                #[trigger] must_not[i],
            ) by {
                assert(!crate::semantics::matches(source, must_not[i], doc_id, readers));
            }
        }
    }
}

proof fn lemma_some_place(
    source: JsonView,
    queries: Seq<QueryView>,
    doc_id: u64,
    readers: Seq<ReaderView>,
)
    ensures
        ({
            let found = |q: QueryView| query_score(source, q, doc_id, readers) is Some;
            count_matching(source, queries, queries.len() as int, doc_id, readers) > 0 <==> (
            exists|i: int| 0 <= i < queries.len() && found(#[trigger] queries[i]))
        }),
{
    let found = |q: QueryView| query_score(source, q, doc_id, readers) is Some;
    let n = queries.len() as int;
    lemma_matching_places(source, queries, n, doc_id, readers);
    let places = matching_places(source, queries, doc_id, readers);
    if places.len() > 0 {
        let i = places.choose();
        assert(places.contains(i));
        assert(found(queries[i]));
    }
    if exists|i: int| 0 <= i < queries.len() && found(#[trigger] queries[i]) {
        let i = choose|i: int| 0 <= i < queries.len() && found(#[trigger] queries[i]);
        assert(places.contains(i));
    }
}

/// A combination that says how many of its optional clauses have to match matches where that many
/// do, whatever else it has.
pub proof fn as_many_optional_clauses_match_as_are_asked_for(
    source: JsonView,
    must: Seq<QueryView>,
    should: Seq<QueryView>,
    filter: Seq<QueryView>,
    must_not: Seq<QueryView>,
    wanted: u32,
    doc_id: u64,
    readers: Seq<ReaderView>,
)
    ensures
        matching_places(source, should, doc_id, readers).finite(),
        query_score(
            source,
            QueryView::Bool { must, should, filter, must_not, minimum_should_match: Some(wanted) },
            doc_id,
            readers,
        ) is Some <==> {
            &&& forall|i: int|
                0 <= i < must.len() ==> query_score(source, #[trigger] must[i], doc_id, readers)
                    is Some
            &&& forall|i: int|
                0 <= i < filter.len() ==> query_score(
                    source,
                    #[trigger] filter[i],
                    doc_id,
                    readers,
                ) is Some
            &&& forall|i: int|
                0 <= i < must_not.len() ==> query_score(
                    source,
                    #[trigger] must_not[i],
                    doc_id,
                    readers,
                ) is None
            &&& matching_places(source, should, doc_id, readers).len() >= wanted
        },
{
    combination_matches_when(
        source,
        must,
        should,
        filter,
        must_not,
        Some(wanted),
        doc_id,
        readers,
    );
    lemma_matching_places(source, should, should.len() as int, doc_id, readers);
    assert(matches_some(source, must_not, doc_id, readers) == !(forall|i: int|
        0 <= i < must_not.len() ==> query_score(source, #[trigger] must_not[i], doc_id, readers)
            is None)) by {
        if matches_some(source, must_not, doc_id, readers) {
            let i = choose|i: int|
                0 <= i < must_not.len() && crate::semantics::matches(source, #[trigger] must_not[i], doc_id, readers);
            assert(query_score(source, must_not[i], doc_id, readers) is Some);
        } else {
            assert forall|i: int| 0 <= i < must_not.len() implies query_score(
                source,
                #[trigger] must_not[i],
                doc_id,
                readers,
            ) is None by {
                assert(!crate::semantics::matches(source, must_not[i], doc_id, readers));
            }
        }
    }
    assert(matches_all(source, must, doc_id, readers) == (forall|i: int|
        0 <= i < must.len() ==> query_score(source, #[trigger] must[i], doc_id, readers) is Some))
        by {
        if !matches_all(source, must, doc_id, readers) {
            let i = choose|i: int|
                0 <= i < must.len() && !crate::semantics::matches(source, #[trigger] must[i], doc_id, readers);
            assert(query_score(source, must[i], doc_id, readers) is None);
        }
    }
    assert(matches_all(source, filter, doc_id, readers) == (forall|i: int|
        0 <= i < filter.len() ==> query_score(source, #[trigger] filter[i], doc_id, readers)
            is Some)) by {
        if !matches_all(source, filter, doc_id, readers) {
            let i = choose|i: int|
                0 <= i < filter.len() && !crate::semantics::matches(source, #[trigger] filter[i], doc_id, readers);
            assert(query_score(source, filter[i], doc_id, readers) is None);
        }
    }
}

/// Whether `picked` lists the positions of the queries that a document matches, in their order.
pub open spec fn lists_matching(
    picked: Seq<int>,
    source: JsonView,
    queries: Seq<QueryView>,
    doc_id: u64,
    readers: Seq<ReaderView>,
) -> bool {
    &&& forall|i: int, j: int| 0 <= i < j < picked.len() ==> #[trigger] picked[i] < #[trigger] picked[j]
    &&& forall|i: int|
        0 <= i < picked.len() ==> 0 <= #[trigger] picked[i] < queries.len() && query_score(
            source,
            queries[picked[i]],
            doc_id,
            readers,
        ) is Some
    &&& forall|p: int|
        0 <= p < queries.len() && query_score(source, #[trigger] queries[p], doc_id, readers)
            is Some ==> picked.contains(p)
}

proof fn lemma_picked(
    source: JsonView,
    queries: Seq<QueryView>,
    k: int,
    doc_id: u64,
    readers: Seq<ReaderView>,
) -> (picked: Seq<int>)
    requires
        0 <= k <= queries.len(),
    ensures
        lists_matching(picked, source, queries.take(k), doc_id, readers),
        scores_of(clause_scores(source, queries, k, doc_id, readers)) == Seq::new(
            picked.len(),
            |i: int| query_score(source, queries[picked[i]], doc_id, readers)->0,
        ),
        clause_scores(source, queries, k, doc_id, readers).len() == k,
    decreases k,
{
    if k <= 0 {
        let picked = Seq::<int>::empty();
        assert(scores_of(clause_scores(source, queries, k, doc_id, readers)) =~= Seq::new(
            picked.len(),
            |i: int| query_score(source, queries[picked[i]], doc_id, readers)->0,
        ));
        picked
    } else {
        let before = lemma_picked(source, queries, k - 1, doc_id, readers);
        let outcomes = clause_scores(source, queries, k, doc_id, readers);
        assert(outcomes.drop_last() =~= clause_scores(source, queries, k - 1, doc_id, readers));
        assert(outcomes.last() == query_score(source, queries[k - 1], doc_id, readers));
        let shorter = queries.take(k - 1);
        let longer = queries.take(k);
        assert forall|i: int| 0 <= i < shorter.len() implies #[trigger] shorter[i] == longer[i] by {}
        let picked = if outcomes.last() is Some {
            before.push(k - 1)
        } else {
            before
        };
        assert forall|i: int| 0 <= i < picked.len() implies 0 <= #[trigger] picked[i]
            < longer.len() && query_score(source, longer[picked[i]], doc_id, readers) is Some by {
            if i < before.len() {
                assert(before[i] == picked[i]);
                assert(shorter[before[i]] == longer[before[i]]);
            }
        }
        assert forall|i: int, j: int| 0 <= i < j < picked.len() implies #[trigger] picked[i]
            < #[trigger] picked[j] by {
            assert(before[i] == picked[i]);
            if j < before.len() {
                assert(before[j] == picked[j]);
            }
        }
        assert forall|p: int|
            0 <= p < longer.len() && query_score(source, #[trigger] longer[p], doc_id, readers)
                is Some implies picked.contains(p) by {
            if p < k - 1 {
                assert(shorter[p] == longer[p]);
                assert(before.contains(p));
                let i = choose|i: int| 0 <= i < before.len() && before[i] == p;
                assert(picked[i] == p);
            } else {
                assert(picked[before.len() as int] == p);
            }
        }
        assert(scores_of(outcomes) =~= Seq::new(
            picked.len(),
            |i: int| query_score(source, queries[picked[i]], doc_id, readers)->0,
        ));
        picked
    }
}

/// The score of a combination is the mean of the scores of the clauses that have to match and of
/// the optional ones that do, each once and in their order; where there are none of these it is
/// full. What merely filters has no part in it.
pub proof fn combinations_score_the_mean_of_their_clauses(
    source: JsonView,
    must: Seq<QueryView>,
    should: Seq<QueryView>,
    filter: Seq<QueryView>,
    must_not: Seq<QueryView>,
    minimum_should_match: Option<u32>,
    doc_id: u64,
    readers: Seq<ReaderView>,
)
    ensures
        query_score(
            source,
            QueryView::Bool { must, should, filter, must_not, minimum_should_match },
            doc_id,
            readers,
        ) matches Some(score) ==> exists|picked: Seq<int>| #[trigger]
            lists_matching(picked, source, should, doc_id, readers) && score == (if must.len()
                + picked.len() > 0 {
                ScoreView::Mean(
                    Seq::new(
                        must.len(),
                        |i: int| query_score(source, must[i], doc_id, readers)->0,
                    ) + Seq::new(
                        picked.len(),
                        |i: int| query_score(source, should[picked[i]], doc_id, readers)->0,
                    ),
                )
            } else {
                ScoreView::One
            }),
{
    let all = lemma_picked(source, must, must.len() as int, doc_id, readers);
    let picked = lemma_picked(source, should, should.len() as int, doc_id, readers);
    assert(should.take(should.len() as int) =~= should);
    assert(must.take(must.len() as int) =~= must);
    if query_score(
        source,
        QueryView::Bool { must, should, filter, must_not, minimum_should_match },
        doc_id,
        readers,
    ) is Some {
        assert(all.len() == must.len());
        lemma_all_picked(all, must.len() as int);
        assert(scores_of(clause_scores(source, must, must.len() as int, doc_id, readers))
            =~= Seq::new(must.len(), |i: int| query_score(source, must[i], doc_id, readers)->0));
        assert(lists_matching(picked, source, should, doc_id, readers));
    }
}

proof fn lemma_all_picked(all: Seq<int>, n: int)
    requires
        all.len() == n,
        forall|i: int, j: int| 0 <= i < j < all.len() ==> #[trigger] all[i] < #[trigger] all[j],
        forall|i: int| 0 <= i < all.len() ==> 0 <= #[trigger] all[i] < n,
    ensures
        forall|i: int| 0 <= i < n ==> #[trigger] all[i] == i,
{
    assert forall|i: int| 0 <= i < n implies #[trigger] all[i] == i by {
        lemma_at_least(all, i);
        lemma_at_most(all, n, i);
    }
}

proof fn lemma_at_least(all: Seq<int>, i: int)
    requires
        0 <= i < all.len(),
        forall|i: int, j: int| 0 <= i < j < all.len() ==> #[trigger] all[i] < #[trigger] all[j],
        forall|i: int| 0 <= i < all.len() ==> 0 <= #[trigger] all[i],
    ensures
        all[i] >= i,
    decreases i,
{
    if i > 0 {
        lemma_at_least(all, i - 1);
        assert(all[i - 1] < all[i]);
    }
}

proof fn lemma_at_most(all: Seq<int>, n: int, i: int)
    requires
        all.len() == n,
        0 <= i < n,
        forall|i: int, j: int| 0 <= i < j < all.len() ==> #[trigger] all[i] < #[trigger] all[j],
        forall|i: int| 0 <= i < all.len() ==> #[trigger] all[i] < n,
    ensures
        all[i] <= i,
    decreases n - i,
{
    if i < n - 1 {
        lemma_at_most(all, n, i + 1);
        assert(all[i] < all[i + 1]);
    }
}

/// The point in time that a bound names, in seconds and nanoseconds.
pub open spec fn date_named(bound: JsonView) -> Option<(i64, u32)> {
    match bound {
        JsonView::Text(text) => rfc3339_instant(text),
        _ => None,
    }
}

/// Whether the first point in time is the earlier.
pub open spec fn is_earlier(a: (i64, u32), b: (i64, u32)) -> bool {
    a.0 < b.0 || (a.0 == b.0 && a.1 < b.1)
}

/// A range finds a date that is not before `gte`, after `gt`, not after `lte` and before `lt`, for
/// each of them that is given. A bound that names no date is kept by none.
pub proof fn ranges_of_dates_are_exact(
    source: JsonView,
    range: RangeView,
    text: Seq<char>,
    doc_id: u64,
    readers: Seq<ReaderView>,
)
    requires
        source.member(range.field) == Some(JsonView::Text(text)),
    ensures
        match rfc3339_instant(text) {
            Some(at) => query_score(source, QueryView::Range(range), doc_id, readers) is Some <==> {
                &&& range.gte matches Some(b) ==> date_named(b) matches Some(d) && !is_earlier(at, d)
                &&& range.gt matches Some(b) ==> date_named(b) matches Some(d) && is_earlier(d, at)
                &&& range.lte matches Some(b) ==> date_named(b) matches Some(d) && !is_earlier(d, at)
                &&& range.lt matches Some(b) ==> date_named(b) matches Some(d) && is_earlier(at, d)
            },
            None => query_score(source, QueryView::Range(range), doc_id, readers) is None,
        },
{
}

/// The integer of a JSON value, if it is one that a double holds exactly, as all nearer to zero are.
pub open spec fn exact_integer(value: JsonView) -> Option<int> {
    match value {
        JsonView::Number(NumberView::PosInt(n)) => if n <= 0x20_0000_0000_0000 {
            Some(n as int)
        } else {
            None
        },
        JsonView::Number(NumberView::NegInt(n)) => if n >= -0x20_0000_0000_0000 && n
            <= 0x20_0000_0000_0000 {
            Some(n as int)
        } else {
            None
        },
        _ => None,
    }
}

/// Integers that doubles hold exactly have the doubles that compare as they do.
pub proof fn exact_integers_compare_as_doubles(a: JsonView, b: JsonView)
    requires
        exact_integer(a) is Some,
        exact_integer(b) is Some,
    ensures
        crate::doubles::double_rank(a.as_double()->0) < crate::doubles::double_rank(
            b.as_double()->0,
        ) <==> exact_integer(a)->0 < exact_integer(b)->0,
        crate::doubles::double_rank(a.as_double()->0) == crate::doubles::double_rank(
            b.as_double()->0,
        ) <==> exact_integer(a)->0 == exact_integer(b)->0,
{
    let m = exact_integer(a)->0;
    let n = exact_integer(b)->0;
    if m < n {
        integers_compare_as_doubles(m, n);
    } else if n < m {
        integers_compare_as_doubles(n, m);
    }
}

/// A range finds an integer that is at least `gte`, more than `gt`, at most `lte` and less than
/// `lt`, for each of them that is given, as far as doubles hold every integer.
pub proof fn ranges_of_whole_numbers_are_exact(
    source: JsonView,
    range: RangeView,
    value: JsonView,
    doc_id: u64,
    readers: Seq<ReaderView>,
)
    requires
        source.member(range.field) == Some(value),
        exact_integer(value) is Some,
        range.gte matches Some(b) ==> exact_integer(b) is Some,
        range.gt matches Some(b) ==> exact_integer(b) is Some,
        range.lte matches Some(b) ==> exact_integer(b) is Some,
        range.lt matches Some(b) ==> exact_integer(b) is Some,
    ensures
        ({
            let n = exact_integer(value)->0;
            query_score(source, QueryView::Range(range), doc_id, readers) is Some <==> {
                &&& range.gte matches Some(b) ==> n >= exact_integer(b)->0
                &&& range.gt matches Some(b) ==> n > exact_integer(b)->0
                &&& range.lte matches Some(b) ==> n <= exact_integer(b)->0
                &&& range.lt matches Some(b) ==> n < exact_integer(b)->0
            }
        }),
{
    if let Some(b) = range.gte {
        exact_integers_compare_as_doubles(value, b);
    }
    if let Some(b) = range.gt {
        exact_integers_compare_as_doubles(value, b);
    }
    if let Some(b) = range.lte {
        exact_integers_compare_as_doubles(value, b);
    }
    if let Some(b) = range.lt {
        exact_integers_compare_as_doubles(value, b);
    }
}

/// Whether the double of the first bit pattern is less than that of the second: by their
/// magnitudes where they have the same sign, which turns the order for negative ones. The two zeros
/// are equal.
pub open spec fn is_lesser_double(a: u64, b: u64) -> bool {
    let negative_a = a >= 0x8000_0000_0000_0000;
    let negative_b = b >= 0x8000_0000_0000_0000;
    if negative_a && negative_b {
        a > b
    } else if negative_a {
        !(a == 0x8000_0000_0000_0000 && b == 0)
    } else {
        !negative_b && a < b
    }
}

/// A range compares fractions as doubles.
pub proof fn ranges_of_fractions_compare_doubles(
    source: JsonView,
    range: RangeView,
    bits: u64,
    text: Seq<char>,
    doc_id: u64,
    readers: Seq<ReaderView>,
)
    requires
        source.member(range.field) == Some(JsonView::Number(NumberView::Float(bits, text))),
        range.gte matches Some(b) ==> b matches JsonView::Number(NumberView::Float(_, _)),
        range.gt matches Some(b) ==> b matches JsonView::Number(NumberView::Float(_, _)),
        range.lte matches Some(b) ==> b matches JsonView::Number(NumberView::Float(_, _)),
        range.lt matches Some(b) ==> b matches JsonView::Number(NumberView::Float(_, _)),
    ensures
        ({
            let of = |b: JsonView| b->Number_0->Float_0;
            query_score(source, QueryView::Range(range), doc_id, readers) is Some <==> {
                &&& range.gte matches Some(b) ==> !is_lesser_double(bits, of(b))
                &&& range.gt matches Some(b) ==> is_lesser_double(of(b), bits)
                &&& range.lte matches Some(b) ==> !is_lesser_double(of(b), bits)
                &&& range.lt matches Some(b) ==> is_lesser_double(bits, of(b))
            }
        }),
{
}

/// A range finds nothing where the field is missing or holds neither a number nor a text, and a
/// number is not within bounds that are no numbers.
pub proof fn ranges_find_numbers_and_dates_only(
    source: JsonView,
    range: RangeView,
    doc_id: u64,
    readers: Seq<ReaderView>,
)
    ensures
        ({
            let found = query_score(source, QueryView::Range(range), doc_id, readers) is Some;
            match source.member(range.field) {
                None => !found,
                Some(JsonView::Number(_)) => found ==> (range.gte matches Some(b) ==> b is Number)
                    && (range.gt matches Some(b) ==> b is Number) && (range.lte matches Some(b)
                    ==> b is Number) && (range.lt matches Some(b) ==> b is Number),
                Some(JsonView::Text(_)) => true,
                Some(_) => !found,
            }
        }),
{
}

/// Whether a word is noted at a position of that document in a segment.
pub open spec fn stands(reader: ReaderView, word: Seq<char>, doc_id: u64, p: u32) -> bool {
    reader.contains_key(word) && exists|j: int|
        0 <= j < reader[word].len() && (#[trigger] reader[word][j]).doc_id == doc_id
            && reader[word][j].positions.contains(p)
}

/// Whether `places` are positions at which the words stand in a segment, each behind the one
/// before, the first within the text.
pub open spec fn stand_in_order(
    places: Seq<u32>,
    reader: ReaderView,
    words: Seq<Seq<char>>,
    doc_id: u64,
    length: nat,
) -> bool {
    &&& places.len() == words.len()
    &&& places.len() > 0 && places[0] < length
    &&& forall|i: int| 0 <= i < words.len() ==> stands(reader, words[i], doc_id, #[trigger] places[i])
    &&& forall|i: int, j: int|
        0 <= i < j < places.len() ==> #[trigger] places[i] < #[trigger] places[j]
}

/// Whether the positions of a word are listed in order: none is listed for the first time behind a
/// greater one.
pub open spec fn listed_in_order(positions: Seq<u32>) -> bool {
    forall|i: int, j: int|
        0 <= i < j < positions.len() && #[trigger] positions[i] > #[trigger] positions[j] ==> exists|
            k: int,
        | 0 <= k < i && positions[k] == positions[j]
}

proof fn lemma_positions_in(postings: Seq<PostingView>, doc_id: u64, p: u32)
    ensures
        positions_in(postings, doc_id).contains(p) <==> exists|j: int|
            0 <= j < postings.len() && (#[trigger] postings[j]).doc_id == doc_id
                && postings[j].positions.contains(p),
    decreases postings.len(),
{
    if postings.len() > 0 {
        let before = postings.drop_last();
        let last = postings.last();
        lemma_positions_in(before, doc_id, p);
        let earlier = positions_in(before, doc_id);
        let all = positions_in(postings, doc_id);
        assert(postings[postings.len() - 1] == last);
        assert(all.contains(p) <==> earlier.contains(p) || (last.doc_id == doc_id
            && last.positions.contains(p))) by {
            if last.doc_id == doc_id {
                if earlier.contains(p) {
                    let i = choose|i: int| 0 <= i < earlier.len() && earlier[i] == p;
                    assert(all[i] == p);
                }
                if last.positions.contains(p) {
                    let i = choose|i: int| 0 <= i < last.positions.len() && last.positions[i] == p;
                    assert(all[earlier.len() + i] == p);
                }
                if all.contains(p) {
                    let i = choose|i: int| 0 <= i < all.len() && all[i] == p;
                    if i < earlier.len() {
                        assert(earlier[i] == p);
                    } else {
                        assert(last.positions[i - earlier.len()] == p);
                    }
                }
            }
        }
        if exists|j: int|
            0 <= j < before.len() && (#[trigger] before[j]).doc_id == doc_id
                && before[j].positions.contains(p) {
            let j = choose|j: int|
                0 <= j < before.len() && (#[trigger] before[j]).doc_id == doc_id
                    && before[j].positions.contains(p);
            assert(postings[j] == before[j]);
        }
        if exists|j: int|
            0 <= j < postings.len() && (#[trigger] postings[j]).doc_id == doc_id
                && postings[j].positions.contains(p) {
            let j = choose|j: int|
                0 <= j < postings.len() && (#[trigger] postings[j]).doc_id == doc_id
                    && postings[j].positions.contains(p);
            if j < before.len() {
                assert(before[j] == postings[j]);
            }
        }
    }
}

pub(crate) proof fn lemma_stands(reader: ReaderView, word: Seq<char>, doc_id: u64, p: u32)
    ensures
        term_positions(reader, word, doc_id).contains(p) <==> stands(reader, word, doc_id, p),
{
    if reader.contains_key(word) {
        lemma_positions_in(reader[word], doc_id, p);
    }
}

proof fn lemma_next_after(positions: Seq<u32>, previous: u32)
    ensures
        next_after(positions, previous) matches Some(p) ==> p > previous && exists|i: int|
            0 <= i < positions.len() && positions[i] == p && forall|j: int|
                0 <= j < i ==> #[trigger] positions[j] <= previous,
        next_after(positions, previous) is None ==> forall|i: int|
            0 <= i < positions.len() ==> #[trigger] positions[i] <= previous,
    decreases positions.len(),
{
    if positions.len() > 0 {
        if positions[0] > previous {
            assert(positions[0] == positions[0]);
        } else {
            let rest = positions.drop_first();
            lemma_next_after(rest, previous);
            if let Some(p) = next_after(rest, previous) {
                let i = choose|i: int|
                    0 <= i < rest.len() && rest[i] == p && forall|j: int|
                        0 <= j < i ==> #[trigger] rest[j] <= previous;
                assert(positions[i + 1] == p);
                assert forall|j: int| 0 <= j < i + 1 implies #[trigger] positions[j]
                    <= previous by {
                    if j > 0 {
                        assert(rest[j - 1] == positions[j]);
                    }
                }
            } else {
                assert forall|i: int| 0 <= i < positions.len() implies #[trigger] positions[i]
                    <= previous by {
                    if i > 0 {
                        assert(rest[i - 1] == positions[i]);
                    }
                }
            }
        }
    }
}

/// In an orderly list the first position behind another is the nearest.
proof fn lemma_nearest_after(positions: Seq<u32>, previous: u32, q: u32)
    requires
        listed_in_order(positions),
        positions.contains(q),
        q > previous,
    ensures
        next_after(positions, previous) matches Some(p) && p <= q,
{
    lemma_next_after(positions, previous);
    let j = choose|j: int| 0 <= j < positions.len() && positions[j] == q;
    if let Some(p) = next_after(positions, previous) {
        let i = choose|i: int|
            0 <= i < positions.len() && positions[i] == p && forall|j: int|
                0 <= j < i ==> #[trigger] positions[j] <= previous;
        if p > q {
            assert(!(j < i));
            assert(positions[i] > positions[j]);
            let k = choose|k: int| 0 <= k < i && positions[k] == positions[j];
            assert(positions[k] <= previous);
        }
    }
}

/// Whether the words from number `k` on stand in order behind a position.
spec fn follow(
    places: Seq<u32>,
    reader: ReaderView,
    words: Seq<Seq<char>>,
    doc_id: u64,
    k: int,
    previous: u32,
) -> bool {
    &&& places.len() == words.len() - k
    &&& forall|i: int|
        0 <= i < places.len() ==> stands(reader, words[k + i], doc_id, #[trigger] places[i])
    &&& forall|i: int| 0 <= i < places.len() ==> #[trigger] places[i] > previous
    &&& forall|i: int, j: int|
        0 <= i < j < places.len() ==> #[trigger] places[i] < #[trigger] places[j]
}

/// How far a position is from the one before it, the first from `previous`.
spec fn step(places: Seq<u32>, previous: u32, i: int) -> int {
    places[i] - (if i == 0 {
        previous
    } else {
        places[i - 1]
    })
}

/// Whether `gap` is the widest step, or nothing is wider than the least it may be.
spec fn is_widest(places: Seq<u32>, previous: u32, least: u32, gap: u32) -> bool {
    &&& gap >= least
    &&& forall|i: int| 0 <= i < places.len() ==> #[trigger] step(places, previous, i) <= gap
    &&& gap == least || exists|i: int|
        0 <= i < places.len() && #[trigger] step(places, previous, i) == gap
}

proof fn lemma_one_more(
    reader: ReaderView,
    words: Seq<Seq<char>>,
    doc_id: u64,
    k: int,
    previous: u32,
    p: u32,
    rest: Seq<u32>,
)
    requires
        0 <= k < words.len(),
        p > previous,
        stands(reader, words[k], doc_id, p),
        follow(rest, reader, words, doc_id, k + 1, p),
    ensures
        follow(seq![p] + rest, reader, words, doc_id, k, previous),
{
    let places = seq![p] + rest;
    assert forall|i: int| 0 <= i < places.len() implies stands(
        reader,
        words[k + i],
        doc_id,
        #[trigger] places[i],
    ) by {
        if i > 0 {
            assert(places[i] == rest[i - 1]);
            assert(words[k + 1 + (i - 1)] == words[k + i]);
        }
    }
    assert forall|i: int| 0 <= i < places.len() implies #[trigger] places[i] > previous by {
        if i > 0 {
            assert(places[i] == rest[i - 1]);
        }
    }
    assert forall|i: int, j: int| 0 <= i < j < places.len() implies #[trigger] places[i]
        < #[trigger] places[j] by {
        assert(places[j] == rest[j - 1]);
        if i > 0 {
            assert(places[i] == rest[i - 1]);
        }
    }
}

proof fn lemma_steps(previous: u32, p: u32, rest: Seq<u32>, least: u32, wider: u32, gap: u32)
    requires
        p > previous,
        wider == (if least >= p - previous {
            least
        } else {
            (p - previous) as u32
        }),
        is_widest(rest, p, wider, gap),
    ensures
        is_widest(seq![p] + rest, previous, least, gap),
{
    let places = seq![p] + rest;
    assert forall|i: int| 0 <= i < places.len() implies #[trigger] step(places, previous, i)
        <= gap by {
        if i > 0 {
            assert(step(places, previous, i) == step(rest, p, i - 1));
        }
    }
    if gap != least {
        if gap == wider {
            assert(step(places, previous, 0) == gap);
        } else {
            let i = choose|i: int| 0 <= i < rest.len() && #[trigger] step(rest, p, i) == gap;
            assert(step(places, previous, i + 1) == gap);
        }
    }
}

proof fn lemma_followers(
    reader: ReaderView,
    words: Seq<Seq<char>>,
    doc_id: u64,
    k: int,
    previous: u32,
    gap: u32,
) -> (places: Seq<u32>)
    requires
        0 <= k <= words.len(),
        phrase_gap(reader, words, doc_id, k, previous, gap) is Some,
    ensures
        follow(places, reader, words, doc_id, k, previous),
        is_widest(
            places,
            previous,
            gap,
            phrase_gap(reader, words, doc_id, k, previous, gap)->0,
        ),
    decreases words.len() - k,
{
    if k >= words.len() {
        Seq::empty()
    } else {
        let positions = term_positions(reader, words[k], doc_id);
        lemma_next_after(positions, previous);
        let p = next_after(positions, previous)->0;
        lemma_stands(reader, words[k], doc_id, p);
        let wider = if gap >= (p - previous) as u32 {
            gap
        } else {
            (p - previous) as u32
        };
        let rest = lemma_followers(reader, words, doc_id, k + 1, p, wider);
        lemma_one_more(reader, words, doc_id, k, previous, p, rest);
        lemma_steps(
            previous,
            p,
            rest,
            gap,
            wider,
            phrase_gap(reader, words, doc_id, k, previous, gap)->0,
        );
        seq![p] + rest
    }
}

proof fn lemma_followed(
    reader: ReaderView,
    words: Seq<Seq<char>>,
    doc_id: u64,
    k: int,
    previous: u32,
    gap: u32,
    places: Seq<u32>,
)
    requires
        0 <= k <= words.len(),
        places.len() == words.len() - k,
        forall|i: int|
            0 <= i < places.len() ==> stands(reader, words[k + i], doc_id, #[trigger] places[i]),
        places.len() > 0 ==> places[0] > previous,
        forall|i: int, j: int|
            0 <= i < j < places.len() ==> #[trigger] places[i] < #[trigger] places[j],
        forall|i: int|
            0 <= i < words.len() ==> listed_in_order(
                term_positions(reader, #[trigger] words[i], doc_id),
            ),
    ensures
        phrase_gap(reader, words, doc_id, k, previous, gap) is Some,
    decreases words.len() - k,
{
    if k < words.len() {
        let positions = term_positions(reader, words[k], doc_id);
        assert(words[k + 0] == words[k]);
        lemma_stands(reader, words[k], doc_id, places[0]);
        assert(listed_in_order(positions));
        lemma_nearest_after(positions, previous, places[0]);
        let p = next_after(positions, previous)->0;
        let rest = places.drop_first();
        assert forall|i: int| 0 <= i < rest.len() implies stands(
            reader,
            words[k + 1 + i],
            doc_id,
            #[trigger] rest[i],
        ) by {
            assert(places[i + 1] == rest[i]);
            assert(words[k + (i + 1)] == words[k + 1 + i]);
        }
        if rest.len() > 0 {
            assert(rest[0] == places[1]);
        }
        let wider = if gap >= (p - previous) as u32 {
            gap
        } else {
            (p - previous) as u32
        };
        lemma_followed(reader, words, doc_id, k + 1, p, wider, rest);
    }
}

proof fn lemma_least_gap_at(
    reader: ReaderView,
    words: Seq<Seq<char>>,
    doc_id: u64,
    starts: Seq<u32>,
    k: int,
    length: nat,
)
    requires
        0 <= k <= starts.len(),
    ensures
        least_gap_at(reader, words, doc_id, starts, k, length) matches Some(gap) ==> exists|i: int|
            0 <= i < k && #[trigger] starts[i] < length && phrase_gap(
                reader,
                words,
                doc_id,
                1,
                starts[i],
                0,
            ) == Some(gap),
        forall|i: int|
            0 <= i < k && #[trigger] starts[i] < length ==> (phrase_gap(
                reader,
                words,
                doc_id,
                1,
                starts[i],
                0,
            ) matches Some(here) ==> (least_gap_at(reader, words, doc_id, starts, k, length)
                matches Some(gap) && gap <= here)),
    decreases k,
{
    if k > 0 {
        lemma_least_gap_at(reader, words, doc_id, starts, k - 1, length);
        assert(starts[k - 1] == starts[k - 1]);
    }
}

proof fn lemma_least_gap_in(
    readers: Seq<ReaderView>,
    words: Seq<Seq<char>>,
    doc_id: u64,
    k: int,
    length: nat,
)
    requires
        0 <= k <= readers.len(),
    ensures
        least_gap_in(readers, words, doc_id, k, length) matches Some(gap) ==> exists|r: int, start: u32|
            0 <= r < k && start < length && #[trigger] stands(readers[r], words[0], doc_id, start)
                && phrase_gap(readers[r], words, doc_id, 1, start, 0) == Some(gap),
        forall|r: int, start: u32|
            0 <= r < k && start < length && #[trigger] stands(readers[r], words[0], doc_id, start)
                ==> (phrase_gap(readers[r], words, doc_id, 1, start, 0) matches Some(here) ==> (
            least_gap_in(readers, words, doc_id, k, length) matches Some(gap) && gap <= here)),
    decreases k,
{
    if k > 0 {
        lemma_least_gap_in(readers, words, doc_id, k - 1, length);
        let reader = readers[k - 1];
        let starts = term_positions(reader, words[0], doc_id);
        let n = starts.len() as int;
        lemma_least_gap_at(reader, words, doc_id, starts, n, length);
        let here = least_gap_at(reader, words, doc_id, starts, n, length);
        let before = least_gap_in(readers, words, doc_id, k - 1, length);
        let all = least_gap_in(readers, words, doc_id, k, length);
        if all is Some {
            if before == all {
                let (r, start) = choose|r: int, start: u32|
                    0 <= r < k - 1 && start < length && #[trigger] stands(
                        readers[r],
                        words[0],
                        doc_id,
                        start,
                    ) && phrase_gap(readers[r], words, doc_id, 1, start, 0) == before;
                assert(stands(readers[r], words[0], doc_id, start));
            } else {
                let i = choose|i: int|
                    0 <= i < n && #[trigger] starts[i] < length && phrase_gap(
                        reader,
                        words,
                        doc_id,
                        1,
                        starts[i],
                        0,
                    ) == here;
                assert(starts.contains(starts[i]));
                lemma_stands(reader, words[0], doc_id, starts[i]);
                assert(stands(readers[k - 1], words[0], doc_id, starts[i]));
            }
        }
        assert forall|r: int, start: u32|
            0 <= r < k && start < length && #[trigger] stands(readers[r], words[0], doc_id, start)
                implies (phrase_gap(readers[r], words, doc_id, 1, start, 0) matches Some(near) ==> (
        all matches Some(gap) && gap <= near)) by {
            if r == k - 1 {
                lemma_stands(reader, words[0], doc_id, start);
                let i = choose|i: int| 0 <= i < starts.len() && starts[i] == start;
                assert(starts[i] < length);
            }
        }
    }
}

/// A document that a phrase finds has all its words, each behind the one before, in one segment,
/// and the phrase has at least two words. Where the positions are listed in order, each document
/// that has the words so is found.
pub proof fn phrases_find_words_that_stand_in_order(
    source: JsonView,
    field: Seq<char>,
    phrase: Seq<char>,
    doc_id: u64,
    readers: Seq<ReaderView>,
)
    ensures
        ({
            let words = tokens(phrase);
            let found = query_score(
                source,
                QueryView::Phrase { field, text: phrase },
                doc_id,
                readers,
            ) is Some;
            match source.member(field) {
                Some(JsonView::Text(text)) => {
                    let length = encode_utf8(text).len();
                    &&& found ==> words.len() >= 2 && exists|r: int, places: Seq<u32>|
                        0 <= r < readers.len() && #[trigger] stand_in_order(
                            places,
                            readers[r],
                            words,
                            doc_id,
                            length,
                        )
                    &&& forall|r: int, places: Seq<u32>|
                        words.len() >= 2 && 0 <= r < readers.len() && #[trigger] stand_in_order(
                            places,
                            readers[r],
                            words,
                            doc_id,
                            length,
                        ) && (forall|i: int|
                            0 <= i < words.len() ==> listed_in_order(
                                term_positions(readers[r], #[trigger] words[i], doc_id),
                            )) ==> found
                },
                _ => !found,
            }
        }),
{
    let words = tokens(phrase);
    let n = readers.len() as int;
    if let Some(JsonView::Text(text)) = source.member(field) {
        let length = encode_utf8(text).len();
        lemma_least_gap_in(readers, words, doc_id, n, length);
        let all = least_gap_in(readers, words, doc_id, n, length);
        if words.len() >= 2 && all is Some {
            let (r, start) = choose|r: int, start: u32|
                0 <= r < n && start < length && #[trigger] stands(
                    readers[r],
                    words[0],
                    doc_id,
                    start,
                ) && phrase_gap(readers[r], words, doc_id, 1, start, 0) == all;
            let rest = lemma_followers(readers[r], words, doc_id, 1, start, 0);
            lemma_in_order(readers[r], words, doc_id, length, start, rest);
        }
        assert forall|r: int, places: Seq<u32>|
            words.len() >= 2 && 0 <= r < readers.len() && #[trigger] stand_in_order(
                places,
                readers[r],
                words,
                doc_id,
                length,
            ) && (forall|i: int|
                0 <= i < words.len() ==> listed_in_order(
                    term_positions(readers[r], #[trigger] words[i], doc_id),
                )) implies all is Some by {
            let rest = places.drop_first();
            assert(stands(readers[r], words[0], doc_id, places[0]));
            assert forall|i: int| 0 <= i < rest.len() implies stands(
                readers[r],
                words[1 + i],
                doc_id,
                #[trigger] rest[i],
            ) by {
                assert(places[i + 1] == rest[i]);
            }
            assert(rest[0] == places[1]);
            lemma_followed(readers[r], words, doc_id, 1, places[0], 0, rest);
        }
    }
}

proof fn lemma_in_order(
    reader: ReaderView,
    words: Seq<Seq<char>>,
    doc_id: u64,
    length: nat,
    start: u32,
    rest: Seq<u32>,
)
    requires
        words.len() > 0,
        start < length,
        stands(reader, words[0], doc_id, start),
        follow(rest, reader, words, doc_id, 1, start),
    ensures
        stand_in_order(seq![start] + rest, reader, words, doc_id, length),
{
    let places = seq![start] + rest;
    assert forall|i: int| 0 <= i < words.len() implies stands(
        reader,
        words[i],
        doc_id,
        #[trigger] places[i],
    ) by {
        if i > 0 {
            assert(places[i] == rest[i - 1]);
            assert(words[1 + (i - 1)] == words[i]);
        }
    }
    assert forall|i: int, j: int| 0 <= i < j < places.len() implies #[trigger] places[i]
        < #[trigger] places[j] by {
        assert(places[j] == rest[j - 1]);
        if i > 0 {
            assert(places[i] == rest[i - 1]);
        }
    }
}

/// The score of a phrase goes by the widest gap between neighbouring words: it is full where they
/// stand in order with no more than ten bytes from one to the next, and otherwise names the widest
/// gap of words that stand in order. Of a phrase of two words it is the narrowest gap there is.
pub proof fn phrases_score_by_their_gaps(
    source: JsonView,
    field: Seq<char>,
    phrase: Seq<char>,
    text: Seq<char>,
    doc_id: u64,
    readers: Seq<ReaderView>,
)
    requires
        source.member(field) == Some(JsonView::Text(text)),
    ensures
        ({
            let words = tokens(phrase);
            let length = encode_utf8(text).len();
            let score = query_score(
                source,
                QueryView::Phrase { field, text: phrase },
                doc_id,
                readers,
            );
            &&& score matches Some(s) ==> exists|r: int, places: Seq<u32>|
                0 <= r < readers.len() && #[trigger] stand_in_order(
                    places,
                    readers[r],
                    words,
                    doc_id,
                    length,
                ) && match s {
                    ScoreView::One => forall|i: int|
                        0 < i < places.len() ==> (#[trigger] places[i]) - places[i - 1] <= 10,
                    ScoreView::Gap(gap) => gap > 10 && (forall|i: int|
                        0 < i < places.len() ==> (#[trigger] places[i]) - places[i - 1] <= gap) && (
                    exists|i: int|
                        0 < i < places.len() && (#[trigger] places[i]) - places[i - 1] == gap),
                    _ => false,
                }
            &&& forall|r: int, places: Seq<u32>|
                words.len() == 2 && 0 <= r < readers.len() && #[trigger] stand_in_order(
                    places,
                    readers[r],
                    words,
                    doc_id,
                    length,
                ) && (forall|i: int|
                    0 <= i < words.len() ==> listed_in_order(
                        term_positions(readers[r], #[trigger] words[i], doc_id),
                    )) ==> (match score {
                    Some(ScoreView::One) => true,
                    Some(ScoreView::Gap(gap)) => gap <= places[1] - places[0],
                    _ => false,
                })
        }),
{
    let words = tokens(phrase);
    let n = readers.len() as int;
    let length = encode_utf8(text).len();
    lemma_least_gap_in(readers, words, doc_id, n, length);
    let all = least_gap_in(readers, words, doc_id, n, length);
    if words.len() >= 2 && all is Some {
        let (r, start) = choose|r: int, start: u32|
            0 <= r < n && start < length && #[trigger] stands(readers[r], words[0], doc_id, start)
                && phrase_gap(readers[r], words, doc_id, 1, start, 0) == all;
        let rest = lemma_followers(readers[r], words, doc_id, 1, start, 0);
        lemma_in_order(readers[r], words, doc_id, length, start, rest);
        let places = seq![start] + rest;
        let gap = all->0;
        assert forall|i: int| 0 < i < places.len() implies (#[trigger] places[i]) - places[i - 1]
            <= gap by {
            assert(step(rest, start, i - 1) <= gap);
        }
        if gap > 10 {
            let i = choose|i: int| 0 <= i < rest.len() && #[trigger] step(rest, start, i) == gap;
            assert(places[i + 1] == rest[i]);
            if i > 0 {
                assert(places[i] == rest[i - 1]);
            }
            assert(places[i + 1] - places[i] == gap);
        }
    }
    assert forall|r: int, places: Seq<u32>|
        words.len() == 2 && 0 <= r < readers.len() && #[trigger] stand_in_order(
            places,
            readers[r],
            words,
            doc_id,
            length,
        ) && (forall|i: int|
            0 <= i < words.len() ==> listed_in_order(
                term_positions(readers[r], #[trigger] words[i], doc_id),
            )) implies (all matches Some(gap) && gap <= places[1] - places[0]) by {
        assert(stands(readers[r], words[0], doc_id, places[0]));
        assert(stands(readers[r], words[1], doc_id, places[1]));
        lemma_stands(readers[r], words[1], doc_id, places[1]);
        let positions = term_positions(readers[r], words[1], doc_id);
        assert(listed_in_order(positions));
        lemma_nearest_after(positions, places[0], places[1]);
        lemma_next_after(positions, places[0]);
        let p = next_after(positions, places[0])->0;
        assert(phrase_gap(readers[r], words, doc_id, 2, p, (p - places[0]) as u32) == Some(
            (p - places[0]) as u32,
        ));
        assert(phrase_gap(readers[r], words, doc_id, 1, places[0], 0) == Some(
            (p - places[0]) as u32,
        ));
    }
}

} // verus!
