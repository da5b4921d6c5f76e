//! What groups in parentheses come to where they are joined.
use vstd::prelude::*;

use super::ends_clause;
use super::lemma_or_expr_kept;
use super::lemma_or_expr_moved;
use super::lemma_space_kept;
use super::lemma_space_moved;
use super::settled;
use crate::json::JsonView;
use crate::matching::query_score;
use crate::positions::ReaderView;
use crate::query_string::and_at;
use crate::query_string::and_expr;
use crate::query_string::and_rest;
use crate::query_string::both;
use crate::query_string::either;
use crate::query_string::ends_word;
use crate::query_string::lemma_progress;
use crate::query_string::lemma_skip_space;
use crate::query_string::not_at;
use crate::query_string::or_at;
use crate::query_string::or_expr;
use crate::query_string::or_rest;
use crate::query_string::primary;
use crate::query_string::query_of;
use crate::query_string::skip_space;
use crate::query_string::without;
use crate::query_string::Parsed;
use crate::semantics::and_finds_what_both_find;
use crate::semantics::not_leaves_out_what_the_other_finds;
use crate::semantics::or_finds_what_either_finds;
use crate::types::QueryView;

verus! {

/// A text in parentheses.
pub open spec fn group(s: Seq<char>) -> Seq<char> {
    seq!['('] + s + seq![')']
}

/// A group reads as the query in it, whatever stands around it.
proof fn lemma_group(front: Seq<char>, s: Seq<char>, back: Seq<char>)
    requires
        query_of(s) is Ok,
    ensures
        primary(front + group(s) + back, front.len() as int) == Parsed::Ok(
            (query_of(s)->Ok_0, (front.len() + s.len() + 2) as int),
        ),
{
    let open = front + seq!['('];
    let close = seq![')'] + back;
    let whole = front + group(s) + back;
    let inner = s + close;
    let n = s.len() as int;
    let at = front.len() as int;
    assert(whole =~= open + inner);
    assert(ends_clause(close));
    lemma_progress(s, 0, 2);
    let (q, k) = or_expr(s, 0)->Ok_0;
    assert(settled(s, close, or_expr(s, 0)));
    lemma_or_expr_kept(s, close, 0);
    lemma_or_expr_moved(open, inner, 0);
    assert(or_expr(whole, at + 1) == Parsed::Ok((q, k + at + 1)));
    lemma_skip_space(s, k);
    lemma_space_kept(s, close, k);
    lemma_space_moved(open, inner, k);
    assert(whole[at] == '(');
    assert(skip_space(whole, at) == at);
    assert(whole[at + 1 + n] == ')');
    assert(skip_space(whole, k + at + 1) == at + 1 + n);
}

/// A group behind a blank reads as the query in it.
proof fn lemma_group_behind_blank(front: Seq<char>, s: Seq<char>, back: Seq<char>, at: int)
    requires
        query_of(s) is Ok,
        at == front.len() - 1,
        at >= 0,
        front[at] == ' ',
    ensures
        primary(front + group(s) + back, at) == Parsed::Ok(
            (query_of(s)->Ok_0, (front.len() + s.len() + 2) as int),
        ),
{
    let whole = front + group(s) + back;
    lemma_group(front, s, back);
    assert(whole[at] == ' ');
    assert(whole[at + 1] == '(');
    assert(skip_space(whole, at + 1) == at + 1);
    assert(skip_space(whole, at) == at + 1);
}

/// Nothing is joined at the end of a text.
proof fn lemma_ends(t: Seq<char>, q: QueryView)
    ensures
        and_rest(t, t.len() as int, q) == Parsed::Ok((q, t.len() as int)),
        or_rest(t, t.len() as int, q) == Parsed::Ok((q, t.len() as int)),
        skip_space(t, t.len() as int) == t.len(),
{
}

/// Two groups joined by `AND`.
pub open spec fn with_and(a: Seq<char>, b: Seq<char>) -> Seq<char> {
    group(a) + seq![' ', 'A', 'N', 'D', ' '] + group(b)
}

/// Two groups joined by `OR`.
pub open spec fn with_or(a: Seq<char>, b: Seq<char>) -> Seq<char> {
    group(a) + seq![' ', 'O', 'R', ' '] + group(b)
}

/// Two groups joined by `NOT`.
pub open spec fn with_not(a: Seq<char>, b: Seq<char>) -> Seq<char> {
    group(a) + seq![' ', 'N', 'O', 'T', ' '] + group(b)
}

/// Two groups joined by a blank.
pub open spec fn with_blank(a: Seq<char>, b: Seq<char>) -> Seq<char> {
    group(a) + seq![' '] + group(b)
}

#[verifier::spinoff_prover]
proof fn lemma_with_and(a: Seq<char>, b: Seq<char>)
    requires
        query_of(a) is Ok,
        query_of(b) is Ok,
    ensures
        query_of(with_and(a, b)) == Ok::<QueryView, Seq<char>>(
            both(query_of(a)->Ok_0, query_of(b)->Ok_0),
        ),
{
    let t = with_and(a, b);
    let sep = seq![' ', 'A', 'N', 'D', ' '];
    let n = a.len() as int + 2;
    let none = Seq::<char>::empty();
    assert(t =~= none + group(a) + (sep + group(b)));
    assert(t =~= (group(a) + sep) + group(b) + none);
    lemma_group(none, a, sep + group(b));
    lemma_group_behind_blank(group(a) + sep, b, none, n + 4);
    let left = query_of(a)->Ok_0;
    let q = both(left, query_of(b)->Ok_0);
    assert(t[n] == ' ' && t[n + 1] == 'A' && t[n + 2] == 'N' && t[n + 3] == 'D' && t[n + 4] == ' ');
    assert(skip_space(t, n + 1) == n + 1);
    assert(skip_space(t, n) == n + 1);
    assert(and_at(t, n + 1));
    assert(ends_word(t, n + 4));
    lemma_ends(t, q);
    assert(and_rest(t, n, left) == Parsed::Ok((q, t.len() as int)));
    assert(and_expr(t, 0) == Parsed::Ok((q, t.len() as int)));
    assert(or_expr(t, 0) == Parsed::Ok((q, t.len() as int)));
}

#[verifier::spinoff_prover]
proof fn lemma_with_blank(a: Seq<char>, b: Seq<char>)
    requires
        query_of(a) is Ok,
        query_of(b) is Ok,
    ensures
        query_of(with_blank(a, b)) == Ok::<QueryView, Seq<char>>(
            both(query_of(a)->Ok_0, query_of(b)->Ok_0),
        ),
{
    let t = with_blank(a, b);
    let sep = seq![' '];
    let n = a.len() as int + 2;
    let none = Seq::<char>::empty();
    assert(t =~= none + group(a) + (sep + group(b)));
    assert(t =~= (group(a) + sep) + group(b) + none);
    lemma_group(none, a, sep + group(b));
    lemma_group(group(a) + sep, b, none);
    let left = query_of(a)->Ok_0;
    let q = both(left, query_of(b)->Ok_0);
    assert(t[n] == ' ' && t[n + 1] == '(');
    assert(skip_space(t, n + 1) == n + 1);
    assert(skip_space(t, n) == n + 1);
    lemma_ends(t, q);
    assert(and_rest(t, n, left) == Parsed::Ok((q, t.len() as int)));
    assert(and_expr(t, 0) == Parsed::Ok((q, t.len() as int)));
    assert(or_expr(t, 0) == Parsed::Ok((q, t.len() as int)));
}

#[verifier::spinoff_prover]
proof fn lemma_with_or(a: Seq<char>, b: Seq<char>)
    requires
        query_of(a) is Ok,
        query_of(b) is Ok,
    ensures
        query_of(with_or(a, b)) == Ok::<QueryView, Seq<char>>(
            either(query_of(a)->Ok_0, query_of(b)->Ok_0),
        ),
{
    let t = with_or(a, b);
    let sep = seq![' ', 'O', 'R', ' '];
    let n = a.len() as int + 2;
    let none = Seq::<char>::empty();
    assert(t =~= none + group(a) + (sep + group(b)));
    assert(t =~= (group(a) + sep) + group(b) + none);
    lemma_group(none, a, sep + group(b));
    lemma_group_behind_blank(group(a) + sep, b, none, n + 3);
    let left = query_of(a)->Ok_0;
    let right = query_of(b)->Ok_0;
    let q = either(left, right);
    assert(t[n] == ' ' && t[n + 1] == 'O' && t[n + 2] == 'R' && t[n + 3] == ' ');
    assert(skip_space(t, n + 1) == n + 1);
    assert(skip_space(t, n) == n + 1);
    assert(or_at(t, n + 1));
    assert(ends_word(t, n + 3));
    lemma_ends(t, q);
    lemma_ends(t, right);
    assert(and_expr(t, 0) == Parsed::Ok((left, n + 1)));
    assert(and_expr(t, n + 3) == Parsed::Ok((right, t.len() as int)));
    assert(or_rest(t, n + 1, left) == Parsed::Ok((q, t.len() as int)));
    assert(or_expr(t, 0) == Parsed::Ok((q, t.len() as int)));
}

#[verifier::spinoff_prover]
proof fn lemma_with_not(a: Seq<char>, b: Seq<char>)
    requires
        query_of(a) is Ok,
        query_of(b) is Ok,
    ensures
        query_of(with_not(a, b)) == Ok::<QueryView, Seq<char>>(
            without(query_of(a)->Ok_0, query_of(b)->Ok_0),
        ),
{
    let t = with_not(a, b);
    let sep = seq![' ', 'N', 'O', 'T', ' '];
    let n = a.len() as int + 2;
    let none = Seq::<char>::empty();
    assert(t =~= none + group(a) + (sep + group(b)));
    assert(t =~= (group(a) + sep) + group(b) + none);
    lemma_group(none, a, sep + group(b));
    lemma_group_behind_blank(group(a) + sep, b, none, n + 4);
    let left = query_of(a)->Ok_0;
    let right = query_of(b)->Ok_0;
    let q = without(left, right);
    assert(t[n] == ' ' && t[n + 1] == 'N' && t[n + 2] == 'O' && t[n + 3] == 'T' && t[n + 4] == ' ');
    assert(skip_space(t, n + 1) == n + 1);
    assert(skip_space(t, n) == n + 1);
    assert(not_at(t, n + 1));
    assert(ends_word(t, n + 4));
    lemma_ends(t, q);
    lemma_ends(t, right);
    assert(and_expr(t, 0) == Parsed::Ok((left, n + 1)));
    assert(and_expr(t, n + 4) == Parsed::Ok((right, t.len() as int)));
    assert(or_rest(t, n + 1, left) == Parsed::Ok((q, t.len() as int)));
    assert(or_expr(t, 0) == Parsed::Ok((q, t.len() as int)));
}

/// Two groups joined by `AND`, or by a blank, find what both find; joined by `OR`, what one of
/// them finds; joined by `NOT`, what the first finds and the second does not.
pub proof fn operators_join_what_groups_find(
    a: Seq<char>,
    b: Seq<char>,
    source: JsonView,
    doc_id: u64,
    readers: Seq<ReaderView>,
)
    requires
        query_of(a) is Ok,
        query_of(b) is Ok,
    ensures
        ({
            let first = query_score(source, query_of(a)->Ok_0, doc_id, readers) is Some;
            let second = query_score(source, query_of(b)->Ok_0, doc_id, readers) is Some;
            &&& query_of(with_and(a, b)) matches Ok(q) && (query_score(source, q, doc_id, readers)
                is Some <==> first && second)
            &&& query_of(with_blank(a, b)) matches Ok(q) && (query_score(source, q, doc_id, readers)
                is Some <==> first && second)
            &&& query_of(with_or(a, b)) matches Ok(q) && (query_score(source, q, doc_id, readers)
                is Some <==> first || second)
            &&& query_of(with_not(a, b)) matches Ok(q) && (query_score(source, q, doc_id, readers)
                is Some <==> first && !second)
        }),
{
    lemma_with_and(a, b);
    lemma_with_blank(a, b);
    lemma_with_or(a, b);
    lemma_with_not(a, b);
    let left = query_of(a)->Ok_0;
    let right = query_of(b)->Ok_0;
    and_finds_what_both_find(source, left, right, doc_id, readers);
    or_finds_what_either_finds(source, left, right, doc_id, readers);
    not_leaves_out_what_the_other_finds(source, left, right, doc_id, readers);
}

/// A group, then two groups joined by `AND`, the first joined to them by `OR`.
pub open spec fn or_then_and(a: Seq<char>, b: Seq<char>, c: Seq<char>) -> Seq<char> {
    group(a) + seq![' ', 'O', 'R', ' '] + group(b) + seq![' ', 'A', 'N', 'D', ' '] + group(c)
}

#[verifier::spinoff_prover]
proof fn lemma_or_then_and(a: Seq<char>, b: Seq<char>, c: Seq<char>)
    requires
        query_of(a) is Ok,
        query_of(b) is Ok,
        query_of(c) is Ok,
    ensures
        query_of(or_then_and(a, b, c)) == Ok::<QueryView, Seq<char>>(
            either(query_of(a)->Ok_0, both(query_of(b)->Ok_0, query_of(c)->Ok_0)),
        ),
{
    let t = or_then_and(a, b, c);
    let or_sep = seq![' ', 'O', 'R', ' '];
    let and_sep = seq![' ', 'A', 'N', 'D', ' '];
    let n = a.len() as int + 2;
    let m = n + 4 + b.len() as int + 2;
    let none = Seq::<char>::empty();
    let front = group(a) + or_sep;
    let middle = front + group(b) + and_sep;
    assert(t =~= none + group(a) + (or_sep + group(b) + and_sep + group(c)));
    assert(t =~= front + group(b) + (and_sep + group(c)));
    assert(t =~= middle + group(c) + none);
    lemma_group(none, a, or_sep + group(b) + and_sep + group(c));
    lemma_group_behind_blank(front, b, and_sep + group(c), n + 3);
    lemma_group_behind_blank(middle, c, none, m + 4);
    let left = query_of(a)->Ok_0;
    let second = query_of(b)->Ok_0;
    let right = both(second, query_of(c)->Ok_0);
    let q = either(left, right);
    assert(t[n] == ' ' && t[n + 1] == 'O' && t[n + 2] == 'R' && t[n + 3] == ' ');
    assert(skip_space(t, n + 1) == n + 1);
    assert(skip_space(t, n) == n + 1);
    assert(or_at(t, n + 1));
    assert(ends_word(t, n + 3));
    assert(t[m] == ' ' && t[m + 1] == 'A' && t[m + 2] == 'N' && t[m + 3] == 'D' && t[m + 4] == ' ');
    assert(skip_space(t, m + 1) == m + 1);
    assert(skip_space(t, m) == m + 1);
    assert(and_at(t, m + 1));
    assert(ends_word(t, m + 4));
    lemma_ends(t, q);
    lemma_ends(t, right);
    assert(and_expr(t, 0) == Parsed::Ok((left, n + 1)));
    assert(and_rest(t, m, second) == Parsed::Ok((right, t.len() as int)));
    assert(and_expr(t, n + 3) == Parsed::Ok((right, t.len() as int)));
    assert(or_rest(t, n + 1, left) == Parsed::Ok((q, t.len() as int)));
    assert(or_expr(t, 0) == Parsed::Ok((q, t.len() as int)));
}

/// `AND` binds before `OR` does.
pub proof fn and_binds_before_or(
    a: Seq<char>,
    b: Seq<char>,
    c: Seq<char>,
    source: JsonView,
    doc_id: u64,
    readers: Seq<ReaderView>,
)
    requires
        query_of(a) is Ok,
        query_of(b) is Ok,
        query_of(c) is Ok,
    ensures
        ({
            let first = query_score(source, query_of(a)->Ok_0, doc_id, readers) is Some;
            let second = query_score(source, query_of(b)->Ok_0, doc_id, readers) is Some;
            let third = query_score(source, query_of(c)->Ok_0, doc_id, readers) is Some;
            query_of(or_then_and(a, b, c)) matches Ok(q) && (query_score(
                source,
                q,
                doc_id,
                readers,
            ) is Some <==> first || (second && third))
        }),
{
    lemma_or_then_and(a, b, c);
    let left = query_of(a)->Ok_0;
    let middle = query_of(b)->Ok_0;
    let right = query_of(c)->Ok_0;
    and_finds_what_both_find(source, middle, right, doc_id, readers);
    or_finds_what_either_finds(source, left, both(middle, right), doc_id, readers);
}

/// A closing parenthesis that nothing has opened is refused.
pub proof fn parenthesis_wants_opening(s: Seq<char>)
    requires
        query_of(s) is Ok,
    ensures
        query_of(s + seq![')']) is Err,
{
    let close = seq![')'];
    let whole = s + close;
    lemma_progress(s, 0, 2);
    let (q, k) = or_expr(s, 0)->Ok_0;
    assert(ends_clause(close));
    lemma_or_expr_kept(s, close, 0);
    assert(or_expr(whole, 0) == or_expr(s, 0));
    lemma_skip_space(s, k);
    lemma_space_kept(s, close, k);
    assert(skip_space(whole, k) == s.len());
}

} // verus!
