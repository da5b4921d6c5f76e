//! What combinations of queries mean.
use vstd::prelude::*;

use crate::json::text_member;
use crate::json::JsonView;
use crate::matching::clause_scores;
use crate::matching::count_known;
use crate::matching::query_score;
use crate::matching::required_should;
use crate::matching::scores_of;
use crate::matching::ScoreView;
use crate::positions::ReaderView;
use crate::query_string::both;
use crate::query_string::conjunct;
use crate::query_string::disjunct;
use crate::query_string::either;
use crate::query_string::is_alternative;
use crate::query_string::without;
use crate::text::tokens;
use crate::types::QueryView;

verus! {

/// Whether a document matches a query.
pub open spec fn matches(
    source: JsonView,
    query: QueryView,
    doc_id: u64,
    readers: Seq<ReaderView>,
) -> bool {
    query_score(source, query, doc_id, readers) is Some
}

/// How many of the first `k` queries a document matches.
pub open spec fn count_matching(
    source: JsonView,
    queries: Seq<QueryView>,
    k: int,
    doc_id: u64,
    readers: Seq<ReaderView>,
) -> nat
    decreases k,
{
    if k <= 0 || k > queries.len() {
        0
    } else {
        count_matching(source, queries, k - 1, doc_id, readers) + if matches(
            source,
            queries[k - 1],
            doc_id,
            readers,
        ) {
            1nat
        } else {
            0nat
        }
    }
}

/// Whether a document matches all of the queries.
pub open spec fn matches_all(
    source: JsonView,
    queries: Seq<QueryView>,
    doc_id: u64,
    readers: Seq<ReaderView>,
) -> bool {
    forall|i: int|
        0 <= i < queries.len() ==> matches(source, #[trigger] queries[i], doc_id, readers)
}

/// Whether a document matches one of the queries.
pub open spec fn matches_some(
    source: JsonView,
    queries: Seq<QueryView>,
    doc_id: u64,
    readers: Seq<ReaderView>,
) -> bool {
    exists|i: int|
        0 <= i < queries.len() && matches(source, #[trigger] queries[i], doc_id, readers)
}

proof fn lemma_count_matching(
    source: JsonView,
    queries: Seq<QueryView>,
    k: int,
    doc_id: u64,
    readers: Seq<ReaderView>,
)
    requires
        0 <= k <= queries.len(),
    ensures
        clause_scores(source, queries, k, doc_id, readers).len() == k,
        scores_of(clause_scores(source, queries, k, doc_id, readers)).len() == count_matching(
            source,
            queries,
            k,
            doc_id,
            readers,
        ),
        count_matching(source, queries, k, doc_id, readers) <= k,
        count_matching(source, queries, k, doc_id, readers) == k <==> (forall|i: int|
            0 <= i < k ==> matches(source, #[trigger] queries[i], doc_id, readers)),
        count_matching(source, queries, k, doc_id, readers) == 0 <==> (forall|i: int|
            0 <= i < k ==> !matches(source, #[trigger] queries[i], doc_id, readers)),
    decreases k,
{
    if k > 0 {
        lemma_count_matching(source, queries, k - 1, doc_id, readers);
        let outcomes = clause_scores(source, queries, k, doc_id, readers);
        assert(outcomes.drop_last() =~= clause_scores(source, queries, k - 1, doc_id, readers));
        assert(outcomes.last() == query_score(source, queries[k - 1], doc_id, readers));
        assert(matches(source, queries[k - 1], doc_id, readers) == (outcomes.last() is Some));
    }
}

/// A combination matches if and only if all that has to hold does, nothing that must not, and
/// enough of what may: as much as it asks for, or one where nothing has to hold.
pub proof fn combination_matches_when(
    source: JsonView,
    must: Seq<QueryView>,
    should: Seq<QueryView>,
    filter: Seq<QueryView>,
    must_not: Seq<QueryView>,
    minimum_should_match: Option<u32>,
    doc_id: u64,
    readers: Seq<ReaderView>,
)
    ensures
        matches(
            source,
            QueryView::Bool { must, should, filter, must_not, minimum_should_match },
            doc_id,
            readers,
        ) <==> {
            &&& matches_all(source, must, doc_id, readers)
            &&& matches_all(source, filter, doc_id, readers)
            &&& !matches_some(source, must_not, doc_id, readers)
            &&& count_matching(source, should, should.len() as int, doc_id, readers)
                >= required_should(must.len(), filter.len(), should.len(), minimum_should_match)
        },
{
    lemma_count_matching(source, must, must.len() as int, doc_id, readers);
    lemma_count_matching(source, should, should.len() as int, doc_id, readers);
    lemma_count_matching(source, filter, filter.len() as int, doc_id, readers);
    lemma_count_matching(source, must_not, must_not.len() as int, doc_id, readers);
}

proof fn lemma_conjunct(
    source: JsonView,
    query: QueryView,
    doc_id: u64,
    readers: Seq<ReaderView>,
)
    ensures
        matches(source, query, doc_id, readers) == (matches_all(
            source,
            conjunct(query).0,
            doc_id,
            readers,
        ) && !matches_some(source, conjunct(query).1, doc_id, readers)),
{
    let (kept, excluded) = conjunct(query);
    match query {
        QueryView::Bool { must, should, filter, must_not, minimum_should_match } => {
            combination_matches_when(
                source,
                must,
                should,
                filter,
                must_not,
                minimum_should_match,
                doc_id,
                readers,
            );
            combination_matches_when(
                source,
                must,
                should,
                filter,
                Seq::empty(),
                minimum_should_match,
                doc_id,
                readers,
            );
            let inner = QueryView::Bool {
                must,
                should,
                filter,
                must_not: Seq::empty(),
                minimum_should_match,
            };
            if must.len() > 0 || filter.len() > 0 || should.len() > 0
                || minimum_should_match is Some {
                assert(kept =~= seq![inner]);
                assert(kept[0] == inner);
                assert(matches_all(source, kept, doc_id, readers) == matches(
                    source,
                    inner,
                    doc_id,
                    readers,
                ));
                assert(!matches_some(source, Seq::empty(), doc_id, readers));
            } else {
                assert(kept =~= Seq::empty());
                assert(matches_all(source, kept, doc_id, readers));
            }
        },
        _ => {
            assert(kept[0] == query);
            assert(!matches_some(source, excluded, doc_id, readers));
        },
    }
}

/// What two queries joined by `AND` find is what both of them find.
pub proof fn and_finds_what_both_find(
    source: JsonView,
    left: QueryView,
    right: QueryView,
    doc_id: u64,
    readers: Seq<ReaderView>,
)
    ensures
        matches(source, both(left, right), doc_id, readers) <==> matches(
            source,
            left,
            doc_id,
            readers,
        ) && matches(source, right, doc_id, readers),
{
    lemma_conjunct(source, left, doc_id, readers);
    lemma_conjunct(source, right, doc_id, readers);
    let (a, c) = conjunct(left);
    let (b, d) = conjunct(right);
    combination_matches_when(
        source,
        a + b,
        Seq::empty(),
        Seq::empty(),
        c + d,
        None,
        doc_id,
        readers,
    );
    lemma_all_of_both(source, a, b, doc_id, readers);
    lemma_some_of_both(source, c, d, doc_id, readers);
    assert(matches_all(source, Seq::empty(), doc_id, readers));
}

proof fn lemma_all_of_both(
    source: JsonView,
    a: Seq<QueryView>,
    b: Seq<QueryView>,
    doc_id: u64,
    readers: Seq<ReaderView>,
)
    ensures
        matches_all(source, a + b, doc_id, readers) == (matches_all(source, a, doc_id, readers)
            && matches_all(source, b, doc_id, readers)),
{
    if matches_all(source, a + b, doc_id, readers) {
        assert forall|i: int| 0 <= i < a.len() implies matches(
            source,
            #[trigger] a[i],
            doc_id,
            readers,
        ) by {
            assert((a + b)[i] == a[i]);
        }
        assert forall|i: int| 0 <= i < b.len() implies matches(
            source,
            #[trigger] b[i],
            doc_id,
            readers,
        ) by {
            assert((a + b)[a.len() + i] == b[i]);
        }
    }
}

proof fn lemma_some_of_both(
    source: JsonView,
    a: Seq<QueryView>,
    b: Seq<QueryView>,
    doc_id: u64,
    readers: Seq<ReaderView>,
)
    ensures
        matches_some(source, a + b, doc_id, readers) == (matches_some(source, a, doc_id, readers)
            || matches_some(source, b, doc_id, readers)),
{
    if matches_some(source, a, doc_id, readers) {
        let i = choose|i: int|
            0 <= i < a.len() && matches(source, #[trigger] a[i], doc_id, readers);
        assert((a + b)[i] == a[i]);
    }
    if matches_some(source, b, doc_id, readers) {
        let i = choose|i: int|
            0 <= i < b.len() && matches(source, #[trigger] b[i], doc_id, readers);
        assert((a + b)[a.len() + i] == b[i]);
    }
}

proof fn lemma_disjunct(
    source: JsonView,
    query: QueryView,
    doc_id: u64,
    readers: Seq<ReaderView>,
)
    ensures
        disjunct(query).len() > 0,
        matches(source, query, doc_id, readers) == matches_some(
            source,
            disjunct(query),
            doc_id,
            readers,
        ),
{
    if is_alternative(query) {
        match query {
            QueryView::Bool { must, should, filter, must_not, minimum_should_match } => {
                combination_matches_when(
                    source,
                    must,
                    should,
                    filter,
                    must_not,
                    minimum_should_match,
                    doc_id,
                    readers,
                );
                lemma_count_matching(source, should, should.len() as int, doc_id, readers);
            },
            _ => {},
        }
    } else {
        assert(disjunct(query)[0] == query);
    }
}

/// What two queries joined by `OR` find is what one of them finds.
pub proof fn or_finds_what_either_finds(
    source: JsonView,
    left: QueryView,
    right: QueryView,
    doc_id: u64,
    readers: Seq<ReaderView>,
)
    ensures
        matches(source, either(left, right), doc_id, readers) <==> matches(
            source,
            left,
            doc_id,
            readers,
        ) || matches(source, right, doc_id, readers),
{
    lemma_disjunct(source, left, doc_id, readers);
    lemma_disjunct(source, right, doc_id, readers);
    let query = either(left, right);
    assert(is_alternative(query));
    lemma_disjunct(source, query, doc_id, readers);
    lemma_some_of_both(source, disjunct(left), disjunct(right), doc_id, readers);
}

/// What a query followed by `NOT` and another finds is what the first finds and the second does
/// not.
pub proof fn not_leaves_out_what_the_other_finds(
    source: JsonView,
    left: QueryView,
    right: QueryView,
    doc_id: u64,
    readers: Seq<ReaderView>,
)
    ensures
        matches(source, without(left, right), doc_id, readers) <==> matches(
            source,
            left,
            doc_id,
            readers,
        ) && !matches(source, right, doc_id, readers),
{
    assert(seq![right][0] == right);
    assert(matches_some(source, seq![right], doc_id, readers) == matches(
        source,
        right,
        doc_id,
        readers,
    ));
    match left {
        QueryView::Bool { must, should, filter, must_not, minimum_should_match } => {
            combination_matches_when(
                source,
                must,
                should,
                filter,
                must_not,
                minimum_should_match,
                doc_id,
                readers,
            );
            combination_matches_when(
                source,
                must,
                should,
                filter,
                must_not + seq![right],
                minimum_should_match,
                doc_id,
                readers,
            );
            lemma_some_of_both(source, must_not, seq![right], doc_id, readers);
        },
        _ => {
            combination_matches_when(
                source,
                seq![left],
                Seq::empty(),
                Seq::empty(),
                seq![right],
                None,
                doc_id,
                readers,
            );
            assert(seq![left][0] == left);
            assert(matches_all(source, Seq::empty(), doc_id, readers));
        },
    }
}

/// Whether a score is more than zero and at most one: a ratio has no more matched words than
/// words, and a mean is one of such scores.
pub open spec fn within_one(score: ScoreView) -> bool
    decreases score,
{
    match score {
        ScoreView::One => true,
        ScoreView::Ratio { matched, total } => 0 < matched <= total,
        ScoreView::Gap(gap) => gap > 10,
        ScoreView::Mean(parts) => parts.len() > 0 && forall|i: int|
            0 <= i < parts.len() ==> within_one(#[trigger] parts[i]),
    }
}

proof fn lemma_count_known(words: Seq<Seq<char>>, known: Seq<Seq<char>>)
    ensures
        count_known(words, known) <= words.len(),
    decreases words.len(),
{
    if words.len() > 0 {
        lemma_count_known(words.drop_last(), known);
    }
}

proof fn lemma_scores_of_within_one(outcomes: Seq<Option<ScoreView>>)
    requires
        forall|i: int|
            0 <= i < outcomes.len() && (#[trigger] outcomes[i]) is Some ==> within_one(
                outcomes[i]->0,
            ),
    ensures
        forall|i: int|
            0 <= i < scores_of(outcomes).len() ==> within_one(#[trigger] scores_of(outcomes)[i]),
    decreases outcomes.len(),
{
    if outcomes.len() > 0 {
        let before = outcomes.drop_last();
        assert forall|i: int|
            0 <= i < before.len() && (#[trigger] before[i]) is Some implies within_one(
            before[i]->0,
        ) by {
            assert(before[i] == outcomes[i]);
        }
        lemma_scores_of_within_one(before);
        assert(outcomes.last() == outcomes[outcomes.len() - 1]);
        let all = scores_of(outcomes);
        assert forall|i: int| 0 <= i < all.len() implies within_one(#[trigger] all[i]) by {
            if i < scores_of(before).len() {
                assert(all[i] == scores_of(before)[i]);
            } else {
                assert(all[i] == outcomes.last()->0);
            }
        }
    }
}

proof fn lemma_clauses_within_one(
    source: JsonView,
    queries: Seq<QueryView>,
    k: int,
    doc_id: u64,
    readers: Seq<ReaderView>,
)
    requires
        0 <= k <= queries.len(),
    ensures
        clause_scores(source, queries, k, doc_id, readers).len() == k,
        forall|i: int|
            0 <= i < k && (#[trigger] clause_scores(source, queries, k, doc_id, readers)[i])
                is Some ==> within_one(clause_scores(source, queries, k, doc_id, readers)[i]->0),
    decreases queries, k,
{
    if k > 0 {
        lemma_clauses_within_one(source, queries, k - 1, doc_id, readers);
        scores_stay_within_one(source, queries[k - 1], doc_id, readers);
        let before = clause_scores(source, queries, k - 1, doc_id, readers);
        let after = clause_scores(source, queries, k, doc_id, readers);
        assert forall|i: int| 0 <= i < k && (#[trigger] after[i]) is Some implies within_one(
            after[i]->0,
        ) by {
            if i < k - 1 {
                assert(after[i] == before[i]);
            }
        }
    }
}

/// The score of a document that matches is more than zero and at most one.
pub proof fn scores_stay_within_one(
    source: JsonView,
    query: QueryView,
    doc_id: u64,
    readers: Seq<ReaderView>,
)
    ensures
        query_score(source, query, doc_id, readers) matches Some(score) ==> within_one(score),
    decreases query, 1int,
{
    match query {
        QueryView::Match { field, text } => {
            if let Some(value) = text_member(source, field) {
                lemma_count_known(tokens(text), tokens(value));
            }
        },
        QueryView::Bool { must, should, filter, must_not, minimum_should_match } => {
            lemma_clauses_within_one(source, must, must.len() as int, doc_id, readers);
            lemma_clauses_within_one(source, should, should.len() as int, doc_id, readers);
            let a = clause_scores(source, must, must.len() as int, doc_id, readers);
            let b = clause_scores(source, should, should.len() as int, doc_id, readers);
            lemma_scores_of_within_one(a);
            lemma_scores_of_within_one(b);
            let parts = scores_of(a) + scores_of(b);
            assert forall|i: int| 0 <= i < parts.len() implies within_one(
                #[trigger] parts[i],
            ) by {
                if i < scores_of(a).len() {
                    assert(parts[i] == scores_of(a)[i]);
                } else {
                    assert(parts[i] == scores_of(b)[i - scores_of(a).len()]);
                }
            }
        },
        _ => {},
    }
}

} // verus!
