//! Whose positions a search reads.
use vstd::prelude::*;

use crate::highlight::all_places;
use crate::highlight::get_query_terms;
use crate::highlight::query_terms;
use crate::highlight::term_places;
use crate::highlight::text_places;
use crate::json::JsonView;
use crate::matching::clause_scores;
use crate::matching::least_gap_at;
use crate::matching::least_gap_in;
use crate::matching::phrase_gap;
use crate::matching::query_score;
use crate::positions::term_positions;
use crate::positions::ReaderView;
use crate::text::tokenize;
use crate::text::tokens;
use crate::text::views;
use crate::types::lemma_bool_view;
use crate::types::query_views;
use crate::types::QueryView;
use crate::types::SearchQuery;

verus! {

/// The words of the phrases in a query.
pub open spec fn phrase_words(query: QueryView) -> Seq<Seq<char>>
    decreases query, 0int,
{
    match query {
        QueryView::Phrase { field, text } => tokens(text),
        QueryView::Bool { must, should, filter, must_not, minimum_should_match } => {
            clause_words(must, must.len() as int) + clause_words(should, should.len() as int)
                + clause_words(filter, filter.len() as int) + clause_words(
                must_not,
                must_not.len() as int,
            )
        },
        _ => Seq::empty(),
    }
}

/// The words of the phrases in the first `k` queries.
pub open spec fn clause_words(queries: Seq<QueryView>, k: int) -> Seq<Seq<char>>
    decreases queries, k,
{
    if k <= 0 || k > queries.len() {
        Seq::empty()
    } else {
        clause_words(queries, k - 1) + phrase_words(queries[k - 1])
    }
}

fn get_clause_words(queries: &Vec<SearchQuery>) -> (r: Vec<String>)
    ensures
        views(r@) == clause_words(query_views(queries@), queries@.len() as int),
    decreases queries, 0int,
{
    let ghost all = query_views(queries@);
    let mut r: Vec<String> = Vec::new();
    let mut i: usize = 0;
    proof {
        assert(views(r@) =~= Seq::empty());
    }
    while i < queries.len()
        invariant
            i <= queries@.len(),
            all == query_views(queries@),
            views(r@) == clause_words(all, i as int),
        decreases queries@.len() - i,
    {
        proof {
            assert(decreases_to!(queries => queries@));
            assert(decreases_to!(queries@ => queries@[i as int]));
            assert(all[i as int] == queries@[i as int]@);
        }
        let mut more = get_phrase_words(&queries[i]);
        let ghost before = r@;
        let ghost new = more@;
        r.append(&mut more);
        proof {
            assert(views(r@) =~= views(before) + views(new));
        }
        i += 1;
    }
    r
}

/// The words of the phrases in a query.
pub fn get_phrase_words(query: &SearchQuery) -> (r: Vec<String>)
    ensures
        views(r@) == phrase_words(query@),
    decreases query, 1int,
{
    match query {
        SearchQuery::Phrase(phrase) => tokenize(phrase.value.as_str()),
        SearchQuery::Bool(combination) => {
            proof {
                lemma_bool_view(*combination);
            }
            let mut must = get_clause_words(&combination.must);
            let mut should = get_clause_words(&combination.should);
            let mut filter = get_clause_words(&combination.filter);
            let mut must_not = get_clause_words(&combination.must_not);
            let ghost (a, b, c, d) = (must@, should@, filter@, must_not@);
            must.append(&mut should);
            must.append(&mut filter);
            must.append(&mut must_not);
            proof {
                assert(views(must@) =~= views(a) + views(b) + views(c) + views(d));
            }
            must
        },
        _ => {
            let r: Vec<String> = Vec::new();
            proof {
                assert(views(r@) =~= Seq::empty());
            }
            r
        },
    }
}

/// The terms whose positions a search for the query reads: those of its phrases, and those that
/// are highlighted.
pub open spec fn needed_terms(query: QueryView) -> Seq<Seq<char>> {
    phrase_words(query) + query_terms(query)
}

/// The terms whose positions a search for the query reads.
pub fn position_terms(query: &SearchQuery) -> (r: Vec<String>)
    ensures
        views(r@) == needed_terms(query@),
{
    let mut r = get_phrase_words(query);
    let mut more = get_query_terms(query);
    let ghost (a, b) = (r@, more@);
    r.append(&mut more);
    proof {
        assert(views(r@) =~= views(a) + views(b));
    }
    r
}

/// Whether two lists of segments have the same positions of those terms.
pub open spec fn agree_on(a: Seq<ReaderView>, b: Seq<ReaderView>, terms: Seq<Seq<char>>) -> bool {
    &&& a.len() == b.len()
    &&& forall|i: int, term: Seq<char>, doc_id: u64|
        0 <= i < a.len() && terms.contains(term) ==> #[trigger] term_positions(a[i], term, doc_id)
            == term_positions(b[i], term, doc_id)
}

proof fn lemma_agree_on_fewer(
    a: Seq<ReaderView>,
    b: Seq<ReaderView>,
    more: Seq<Seq<char>>,
    fewer: Seq<Seq<char>>,
)
    requires
        agree_on(a, b, more),
        forall|i: int| 0 <= i < fewer.len() ==> more.contains(#[trigger] fewer[i]),
    ensures
        agree_on(a, b, fewer),
{
    assert forall|i: int, term: Seq<char>, doc_id: u64|
        0 <= i < a.len() && fewer.contains(term) implies #[trigger] term_positions(
        a[i],
        term,
        doc_id,
    ) == term_positions(b[i], term, doc_id) by {
        let j = choose|j: int| 0 <= j < fewer.len() && fewer[j] == term;
        assert(more.contains(fewer[j]));
    }
}

proof fn lemma_contains_part(a: Seq<Seq<char>>, b: Seq<Seq<char>>)
    ensures
        forall|i: int| 0 <= i < a.len() ==> (a + b).contains(#[trigger] a[i]),
        forall|i: int| 0 <= i < b.len() ==> (a + b).contains(#[trigger] b[i]),
{
    assert forall|i: int| 0 <= i < a.len() implies (a + b).contains(#[trigger] a[i]) by {
        assert((a + b)[i] == a[i]);
    }
    assert forall|i: int| 0 <= i < b.len() implies (a + b).contains(#[trigger] b[i]) by {
        assert((a + b)[a.len() + i] == b[i]);
    }
}

proof fn lemma_same_phrase_gap(
    a: ReaderView,
    b: ReaderView,
    words: Seq<Seq<char>>,
    doc_id: u64,
    k: int,
    previous: u32,
    gap: u32,
)
    requires
        0 <= k,
        forall|i: int|
            0 <= i < words.len() ==> term_positions(a, #[trigger] words[i], doc_id)
                == term_positions(b, words[i], doc_id),
    ensures
        phrase_gap(a, words, doc_id, k, previous, gap) == phrase_gap(
            b,
            words,
            doc_id,
            k,
            previous,
            gap,
        ),
    decreases words.len() - k,
{
    if k < words.len() {
        if let Some(p) = crate::matching::next_after(
            term_positions(a, words[k], doc_id),
            previous,
        ) {
            lemma_same_phrase_gap(
                a,
                b,
                words,
                doc_id,
                k + 1,
                p,
                crate::matching::larger(gap, (p - previous) as u32),
            );
        }
    }
}

proof fn lemma_same_least_gap_at(
    a: ReaderView,
    b: ReaderView,
    words: Seq<Seq<char>>,
    doc_id: u64,
    starts: Seq<u32>,
    k: int,
    length: nat,
)
    requires
        forall|i: int|
            0 <= i < words.len() ==> term_positions(a, #[trigger] words[i], doc_id)
                == term_positions(b, words[i], doc_id),
    ensures
        least_gap_at(a, words, doc_id, starts, k, length) == least_gap_at(
            b,
            words,
            doc_id,
            starts,
            k,
            length,
        ),
    decreases k,
{
    if 0 < k <= starts.len() {
        lemma_same_least_gap_at(a, b, words, doc_id, starts, k - 1, length);
        lemma_same_phrase_gap(a, b, words, doc_id, 1, starts[k - 1], 0);
    }
}

proof fn lemma_same_least_gap(
    a: Seq<ReaderView>,
    b: Seq<ReaderView>,
    words: Seq<Seq<char>>,
    doc_id: u64,
    k: int,
    length: nat,
)
    requires
        agree_on(a, b, words),
        words.len() > 0,
    ensures
        least_gap_in(a, words, doc_id, k, length) == least_gap_in(b, words, doc_id, k, length),
    decreases k,
{
    if 0 < k <= a.len() {
        lemma_same_least_gap(a, b, words, doc_id, k - 1, length);
        assert forall|i: int| 0 <= i < words.len() implies term_positions(
            a[k - 1],
            #[trigger] words[i],
            doc_id,
        ) == term_positions(b[k - 1], words[i], doc_id) by {
            assert(words.contains(words[i]));
        }
        let starts = term_positions(a[k - 1], words[0], doc_id);
        lemma_same_least_gap_at(
            a[k - 1],
            b[k - 1],
            words,
            doc_id,
            starts,
            starts.len() as int,
            length,
        );
    }
}

proof fn lemma_same_score(
    source: JsonView,
    query: QueryView,
    doc_id: u64,
    a: Seq<ReaderView>,
    b: Seq<ReaderView>,
)
    requires
        agree_on(a, b, phrase_words(query)),
    ensures
        query_score(source, query, doc_id, a) == query_score(source, query, doc_id, b),
    decreases query, 1int,
{
    match query {
        QueryView::Phrase { field, text } => {
            if let Some(value) = crate::json::text_member(source, field) {
                if tokens(text).len() >= 2 {
                    lemma_same_least_gap(
                        a,
                        b,
                        tokens(text),
                        doc_id,
                        a.len() as int,
                        vstd::utf8::encode_utf8(value).len(),
                    );
                }
            }
        },
        QueryView::Bool { must, should, filter, must_not, minimum_should_match } => {
            let m = clause_words(must, must.len() as int);
            let s = clause_words(should, should.len() as int);
            let f = clause_words(filter, filter.len() as int);
            let n = clause_words(must_not, must_not.len() as int);
            lemma_contains_part(m, s);
            lemma_contains_part(m + s, f);
            lemma_contains_part(m + s + f, n);
            lemma_agree_on_fewer(a, b, m + s + f + n, m + s + f);
            lemma_agree_on_fewer(a, b, m + s + f + n, n);
            lemma_agree_on_fewer(a, b, m + s + f, m + s);
            lemma_agree_on_fewer(a, b, m + s + f, f);
            lemma_agree_on_fewer(a, b, m + s, m);
            lemma_agree_on_fewer(a, b, m + s, s);
            lemma_same_scores(source, must, must.len() as int, doc_id, a, b);
            lemma_same_scores(source, should, should.len() as int, doc_id, a, b);
            lemma_same_scores(source, filter, filter.len() as int, doc_id, a, b);
            lemma_same_scores(source, must_not, must_not.len() as int, doc_id, a, b);
        },
        _ => {},
    }
}

proof fn lemma_same_scores(
    source: JsonView,
    queries: Seq<QueryView>,
    k: int,
    doc_id: u64,
    a: Seq<ReaderView>,
    b: Seq<ReaderView>,
)
    requires
        agree_on(a, b, clause_words(queries, k)),
    ensures
        clause_scores(source, queries, k, doc_id, a) == clause_scores(
            source,
            queries,
            k,
            doc_id,
            b,
        ),
    decreases queries, k,
{
    if 0 < k <= queries.len() {
        let before = clause_words(queries, k - 1);
        let here = phrase_words(queries[k - 1]);
        lemma_contains_part(before, here);
        lemma_agree_on_fewer(a, b, before + here, before);
        lemma_agree_on_fewer(a, b, before + here, here);
        lemma_same_scores(source, queries, k - 1, doc_id, a, b);
        lemma_same_score(source, queries[k - 1], doc_id, a, b);
    }
}

proof fn lemma_same_term_places(
    a: Seq<ReaderView>,
    b: Seq<ReaderView>,
    terms: Seq<Seq<char>>,
    term: Seq<char>,
    doc_id: u64,
    bytes: Seq<u8>,
    k: int,
)
    requires
        agree_on(a, b, terms),
        terms.contains(term),
    ensures
        term_places(a, term, doc_id, bytes, k) == term_places(b, term, doc_id, bytes, k),
    decreases k,
{
    if 0 < k <= a.len() {
        lemma_same_term_places(a, b, terms, term, doc_id, bytes, k - 1);
        assert(term_positions(a[k - 1], term, doc_id) == term_positions(b[k - 1], term, doc_id));
    }
}

proof fn lemma_same_places(
    a: Seq<ReaderView>,
    b: Seq<ReaderView>,
    terms: Seq<Seq<char>>,
    doc_id: u64,
    bytes: Seq<u8>,
    k: int,
)
    requires
        agree_on(a, b, terms),
    ensures
        all_places(a, terms, doc_id, bytes, k) == all_places(b, terms, doc_id, bytes, k),
    decreases k,
{
    if 0 < k <= terms.len() {
        lemma_same_places(a, b, terms, doc_id, bytes, k - 1);
        assert(terms.contains(terms[k - 1]));
        lemma_same_term_places(a, b, terms, terms[k - 1], doc_id, bytes, a.len() as int);
    }
}

/// A search reads no positions but those of the terms that it needs: where two lists of segments
/// agree on them, each document has the same score and the same places are highlighted.
pub proof fn search_reads_no_other_positions(
    source: JsonView,
    query: QueryView,
    doc_id: u64,
    a: Seq<ReaderView>,
    b: Seq<ReaderView>,
    text: Seq<char>,
)
    requires
        agree_on(a, b, needed_terms(query)),
    ensures
        query_score(source, query, doc_id, a) == query_score(source, query, doc_id, b),
        text_places(text, a, query_terms(query), doc_id) == text_places(
            text,
            b,
            query_terms(query),
            doc_id,
        ),
{
    lemma_contains_part(phrase_words(query), query_terms(query));
    lemma_agree_on_fewer(a, b, needed_terms(query), phrase_words(query));
    lemma_agree_on_fewer(a, b, needed_terms(query), query_terms(query));
    lemma_same_score(source, query, doc_id, a, b);
    lemma_same_places(
        a,
        b,
        query_terms(query),
        doc_id,
        vstd::utf8::encode_utf8(text),
        query_terms(query).len() as int,
    );
}

} // verus!
