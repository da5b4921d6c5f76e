//! Different ways to write the same query.
use vstd::prelude::*;

use crate::query_string::and_at;
use crate::query_string::and_expr;
use crate::query_string::and_rest;
use crate::query_string::both;
use crate::query_string::clause;
use crate::query_string::either;
use crate::query_string::ends_word;
use crate::query_string::is_word_char;
use crate::query_string::lemma_and_rest;
use crate::query_string::lemma_or_rest;
use crate::query_string::lemma_progress;
use crate::query_string::lemma_quote_stop;
use crate::query_string::lemma_skip_space;
use crate::query_string::lemma_value_stop;
use crate::query_string::lemma_word_stop;
use crate::query_string::not_at;
use crate::query_string::operator_starts;
use crate::query_string::or_at;
use crate::query_string::or_expr;
use crate::query_string::or_rest;
use crate::query_string::primary;
use crate::query_string::query_of;
use crate::query_string::quote_stop;
use crate::query_string::skip_space;
use crate::query_string::value_at;
use crate::query_string::value_stop;
use crate::query_string::without;
use crate::query_string::word_stop;
use crate::query_string::Parsed;
use crate::text::is_space;
use crate::types::QueryView;

pub mod groups;

verus! {

/// An outcome whose position lies `d` further on.
spec fn moved(p: Parsed, d: int) -> Parsed {
    match p {
        Ok((q, k)) => Ok((q, k + d)),
        Err(m) => Err(m),
    }
}

proof fn lemma_space_moved(p: Seq<char>, s: Seq<char>, i: int)
    requires
        0 <= i <= s.len(),
    ensures
        skip_space(p + s, p.len() + i) == p.len() + skip_space(s, i),
    decreases s.len() - i,
{
    if i < s.len() {
        assert((p + s)[p.len() + i] == s[i]);
        if is_space(s[i]) {
            lemma_space_moved(p, s, i + 1);
        }
    }
}

proof fn lemma_word_moved(p: Seq<char>, s: Seq<char>, i: int)
    requires
        0 <= i <= s.len(),
    ensures
        word_stop(p + s, p.len() + i) == p.len() + word_stop(s, i),
    decreases s.len() - i,
{
    if i < s.len() {
        assert((p + s)[p.len() + i] == s[i]);
        if is_word_char(s[i]) {
            lemma_word_moved(p, s, i + 1);
        }
    }
}

proof fn lemma_value_moved(p: Seq<char>, s: Seq<char>, i: int)
    requires
        0 <= i <= s.len(),
    ensures
        value_stop(p + s, p.len() + i) == p.len() + value_stop(s, i),
    decreases s.len() - i,
{
    if i < s.len() {
        assert((p + s)[p.len() + i] == s[i]);
        if !is_space(s[i]) && !operator_starts(s, i) {
            lemma_value_moved(p, s, i + 1);
        }
    }
}

proof fn lemma_quote_moved(p: Seq<char>, s: Seq<char>, i: int)
    requires
        0 <= i <= s.len(),
    ensures
        quote_stop(p + s, p.len() + i) == (match quote_stop(s, i) {
            Some(k) => Some(p.len() + k),
            None => None,
        }),
    decreases s.len() - i,
{
    if i < s.len() {
        assert((p + s)[p.len() + i] == s[i]);
        if s[i] == '\\' && i + 1 < s.len() {
            lemma_quote_moved(p, s, i + 2);
        } else if s[i] != '"' {
            lemma_quote_moved(p, s, i + 1);
        }
    }
}

proof fn lemma_operators_moved(p: Seq<char>, s: Seq<char>, i: int)
    requires
        0 <= i <= s.len(),
    ensures
        and_at(p + s, p.len() + i) == and_at(s, i),
        or_at(p + s, p.len() + i) == or_at(s, i),
        not_at(p + s, p.len() + i) == not_at(s, i),
        ends_word(p + s, p.len() + i + 2) == ends_word(s, i + 2),
        ends_word(p + s, p.len() + i + 3) == ends_word(s, i + 3),
{
    let t = p + s;
    assert forall|j: int| 0 <= j < s.len() implies #[trigger] t[p.len() + j] == s[j] by {}
    if i < s.len() {
        assert(t[p.len() + i] == s[i]);
    }
    if i + 1 < s.len() {
        assert(t[p.len() + (i + 1)] == s[i + 1]);
    }
    if i + 2 < s.len() {
        assert(t[p.len() + (i + 2)] == s[i + 2]);
    }
    if i + 3 < s.len() {
        assert(t[p.len() + (i + 3)] == s[i + 3]);
    }
}

proof fn lemma_value_at_moved(p: Seq<char>, s: Seq<char>, i: int)
    requires
        0 <= i <= s.len(),
    ensures
        value_at(p + s, p.len() + i) == (match value_at(s, i) {
            Ok((v, k)) => Ok::<(Seq<char>, int), Seq<char>>((v, p.len() + k)),
            Err(m) => Err(m),
        }),
{
    let t = p + s;
    let d = p.len() as int;
    lemma_skip_space(s, i);
    lemma_space_moved(p, s, i);
    let j = skip_space(s, i);
    if j < s.len() {
        assert(t[d + j] == s[j]);
        lemma_value_stop(s, j);
        lemma_value_moved(p, s, j);
        assert(t.subrange(d + j, d + value_stop(s, j)) =~= s.subrange(j, value_stop(s, j)));
        lemma_quote_stop(s, j + 1);
        lemma_quote_moved(p, s, j + 1);
        lemma_operators_moved(p, s, j);
        assert(d + j + 1 == d + (j + 1));
        if let Some(k) = quote_stop(s, j + 1) {
            assert(t.subrange(d + j + 1, d + k) =~= s.subrange(j + 1, k));
        }
    }
}

#[verifier::spinoff_prover]
proof fn lemma_clause_moved(p: Seq<char>, s: Seq<char>, i: int)
    requires
        0 <= i <= s.len(),
    ensures
        clause(p + s, p.len() + i) == moved(clause(s, i), p.len() as int),
{
    let t = p + s;
    let d = p.len() as int;
    lemma_word_stop(s, i);
    lemma_word_moved(p, s, i);
    let e = word_stop(s, i);
    assert(t.subrange(d + i, d + e) =~= s.subrange(i, e));
    lemma_skip_space(s, e);
    lemma_space_moved(p, s, e);
    let c = skip_space(s, e);
    if c < s.len() {
        assert(t[d + c] == s[c]);
        lemma_value_at_moved(p, s, c + 1);
        assert(d + c + 1 == d + (c + 1));
    }
}

/// What stands in front of a text has no part in how a clause or a group reads.
proof fn lemma_primary_moved(p: Seq<char>, s: Seq<char>, i: int)
    requires
        0 <= i <= s.len(),
    ensures
        primary(p + s, p.len() + i) == moved(primary(s, i), p.len() as int),
    decreases s.len() - i, 2int,
{
    let t = p + s;
    let d = p.len() as int;
    lemma_skip_space(s, i);
    lemma_space_moved(p, s, i);
    let j = skip_space(s, i);
    if j < s.len() && s[j] == '(' {
        assert(t[d + j] == s[j]);
        lemma_or_expr_moved(p, s, j + 1);
        lemma_progress(s, j + 1, 2);
        assert(d + j + 1 == d + (j + 1));
        if let Ok((q, k)) = or_expr(s, j + 1) {
            lemma_skip_space(s, k);
            lemma_space_moved(p, s, k);
            let c = skip_space(s, k);
            if c < s.len() {
                assert(t[d + c] == s[c]);
            }
        }
    } else {
        if j < s.len() {
            assert(t[d + j] == s[j]);
        }
        lemma_clause_moved(p, s, j);
    }
}

proof fn lemma_and_expr_moved(p: Seq<char>, s: Seq<char>, i: int)
    requires
        0 <= i <= s.len(),
    ensures
        and_expr(p + s, p.len() + i) == moved(and_expr(s, i), p.len() as int),
    decreases s.len() - i, 3int,
{
    lemma_primary_moved(p, s, i);
    lemma_progress(s, i, 0);
    if let Ok((left, k)) = primary(s, i) {
        lemma_and_rest_moved(p, s, k, left);
    }
}

proof fn lemma_or_expr_moved(p: Seq<char>, s: Seq<char>, i: int)
    requires
        0 <= i <= s.len(),
    ensures
        or_expr(p + s, p.len() + i) == moved(or_expr(s, i), p.len() as int),
    decreases s.len() - i, 4int,
{
    lemma_and_expr_moved(p, s, i);
    lemma_progress(s, i, 1);
    if let Ok((left, k)) = and_expr(s, i) {
        lemma_or_rest_moved(p, s, k, left);
    }
}

#[verifier::spinoff_prover]
#[verifier::rlimit(50)]
proof fn lemma_and_rest_moved(p: Seq<char>, s: Seq<char>, i: int, left: QueryView)
    requires
        0 <= i <= s.len(),
    ensures
        and_rest(p + s, p.len() + i, left) == moved(and_rest(s, i, left), p.len() as int),
    decreases s.len() - i, 5int,
{
    let t = p + s;
    let d = p.len() as int;
    lemma_skip_space(s, i);
    lemma_space_moved(p, s, i);
    let j = skip_space(s, i);
    lemma_operators_moved(p, s, j);
    if j < s.len() {
        assert(t[d + j] == s[j]);
    }
    if j >= s.len() || s[j] == ')' {
    } else if and_at(s, j) && ends_word(s, j + 3) {
        lemma_primary_moved(p, s, j + 3);
        lemma_progress(s, j + 3, 0);
        assert(d + j + 3 == d + (j + 3));
        if let Ok((right, k)) = primary(s, j + 3) {
            lemma_and_rest_moved(p, s, k, both(left, right));
        }
    } else if (or_at(s, j) && ends_word(s, j + 2)) || (not_at(s, j) && ends_word(s, j + 3)) {
    } else {
        lemma_primary_moved(p, s, j);
        lemma_progress(s, j, 0);
        if let Ok((right, k)) = primary(s, j) {
            lemma_and_rest_moved(p, s, k, both(left, right));
        }
    }
}

#[verifier::spinoff_prover]
#[verifier::rlimit(50)]
proof fn lemma_or_rest_moved(p: Seq<char>, s: Seq<char>, i: int, left: QueryView)
    requires
        0 <= i <= s.len(),
    ensures
        or_rest(p + s, p.len() + i, left) == moved(or_rest(s, i, left), p.len() as int),
    decreases s.len() - i, 5int,
{
    let d = p.len() as int;
    lemma_skip_space(s, i);
    lemma_space_moved(p, s, i);
    let j = skip_space(s, i);
    lemma_operators_moved(p, s, j);
    if not_at(s, j) && ends_word(s, j + 3) {
        lemma_and_expr_moved(p, s, j + 3);
        lemma_progress(s, j + 3, 1);
        assert(d + j + 3 == d + (j + 3));
        if let Ok((right, k)) = and_expr(s, j + 3) {
            lemma_or_rest_moved(p, s, k, without(left, right));
        }
    } else if or_at(s, j) && ends_word(s, j + 2) {
        lemma_and_expr_moved(p, s, j + 2);
        lemma_progress(s, j + 2, 1);
        assert(d + j + 2 == d + (j + 2));
        if let Ok((right, k)) = and_expr(s, j + 2) {
            lemma_or_rest_moved(p, s, k, either(left, right));
        }
    }
}

/// Whether a text ends a clause in front of it: it begins with a closing parenthesis, or with one
/// blank and no colon behind it.
spec fn ends_clause(r: Seq<char>) -> bool {
    r.len() > 0 && (r[0] == ')' || (r[0] == ' ' && r.len() > 1 && !is_space(r[1]) && r[1] != ':'))
}

proof fn lemma_space_kept(s: Seq<char>, r: Seq<char>, i: int)
    requires
        0 <= i <= s.len(),
        ends_clause(r),
    ensures
        skip_space(s + r, i) == if skip_space(s, i) < s.len() {
            skip_space(s, i)
        } else if r[0] == ')' {
            s.len() as int
        } else {
            s.len() as int + 1
        },
    decreases s.len() - i,
{
    let t = s + r;
    lemma_skip_space(s, i);
    if i < s.len() {
        assert(t[i] == s[i]);
        if is_space(s[i]) {
            lemma_space_kept(s, r, i + 1);
        }
    } else {
        assert(t[i] == r[0]);
        if r[0] == ' ' {
            assert(t[i + 1] == r[1]);
            assert(skip_space(t, i + 1) == i + 1);
        }
    }
}

proof fn lemma_word_kept(s: Seq<char>, r: Seq<char>, i: int)
    requires
        0 <= i <= s.len(),
        ends_clause(r),
    ensures
        word_stop(s + r, i) == word_stop(s, i),
    decreases s.len() - i,
{
    let t = s + r;
    if i < s.len() {
        assert(t[i] == s[i]);
        if is_word_char(s[i]) {
            lemma_word_kept(s, r, i + 1);
        }
    } else {
        assert(t[i] == r[0]);
    }
}

proof fn lemma_value_kept(s: Seq<char>, r: Seq<char>, i: int)
    requires
        0 <= i <= s.len(),
        ends_clause(r),
    ensures
        value_stop(s + r, i) == value_stop(s, i),
    decreases s.len() - i,
{
    let t = s + r;
    if i < s.len() {
        assert(t[i] == s[i]);
        if !is_space(s[i]) && !operator_starts(s, i) {
            lemma_value_kept(s, r, i + 1);
        }
    } else {
        assert(t[i] == r[0]);
    }
}

proof fn lemma_quote_kept(s: Seq<char>, r: Seq<char>, i: int)
    requires
        0 <= i <= s.len(),
    ensures
        quote_stop(s, i) is Some ==> quote_stop(s + r, i) == quote_stop(s, i),
    decreases s.len() - i,
{
    let t = s + r;
    if i < s.len() {
        assert(t[i] == s[i]);
        if s[i] == '\\' && i + 1 < s.len() {
            lemma_quote_kept(s, r, i + 2);
        } else if s[i] != '"' {
            lemma_quote_kept(s, r, i + 1);
            if s[i] == '\\' {
                assert(quote_stop(s, i + 1) is None);
            }
        }
    }
}

proof fn lemma_operators_kept(s: Seq<char>, r: Seq<char>, i: int)
    requires
        0 <= i < s.len(),
        ends_clause(r),
    ensures
        and_at(s + r, i) == and_at(s, i),
        or_at(s + r, i) == or_at(s, i),
        not_at(s + r, i) == not_at(s, i),
        or_at(s, i) ==> ends_word(s + r, i + 2) == ends_word(s, i + 2),
        and_at(s, i) || not_at(s, i) ==> ends_word(s + r, i + 3) == ends_word(s, i + 3),
{
    let t = s + r;
    assert(t[i] == s[i]);
    assert(t[s.len() as int] == r[0]);
    if i + 1 < s.len() {
        assert(t[i + 1] == s[i + 1]);
    }
    if i + 2 < s.len() {
        assert(t[i + 2] == s[i + 2]);
    }
    if i + 3 < s.len() {
        assert(t[i + 3] == s[i + 3]);
    }
}

proof fn lemma_clause_kept(s: Seq<char>, r: Seq<char>, i: int)
    requires
        0 <= i <= s.len(),
        ends_clause(r),
    ensures
        clause(s, i) is Ok ==> clause(s + r, i) == clause(s, i),
{
    let t = s + r;
    lemma_word_stop(s, i);
    lemma_word_kept(s, r, i);
    let e = word_stop(s, i);
    assert(t.subrange(i, e) =~= s.subrange(i, e));
    lemma_skip_space(s, e);
    lemma_space_kept(s, r, e);
    let c = skip_space(s, e);
    assert(t[s.len() as int] == r[0]);
    if r[0] == ' ' {
        assert(t[s.len() as int + 1] == r[1]);
    }
    if c < s.len() {
        assert(t[c] == s[c]);
        lemma_skip_space(s, c + 1);
        lemma_space_kept(s, r, c + 1);
        let j = skip_space(s, c + 1);
        if j < s.len() {
            assert(t[j] == s[j]);
            lemma_value_stop(s, j);
            lemma_value_kept(s, r, j);
            assert(t.subrange(j, value_stop(s, j)) =~= s.subrange(j, value_stop(s, j)));
            lemma_operators_kept(s, r, j);
            lemma_quote_stop(s, j + 1);
            lemma_quote_kept(s, r, j + 1);
            if let Some(k) = quote_stop(s, j + 1) {
                assert(t.subrange(j + 1, k) =~= s.subrange(j + 1, k));
            }
        }
    }
}

/// Whether something was read, and what stands behind it is not the end that more can follow.
spec fn settled(s: Seq<char>, r: Seq<char>, p: Parsed) -> bool {
    p matches Ok((q, k)) && (r[0] == ')' || skip_space(s, k) < s.len())
}

proof fn lemma_space_to_end(s: Seq<char>, i: int, j: int)
    requires
        0 <= i <= j <= s.len(),
        skip_space(s, i) >= s.len(),
    ensures
        skip_space(s, j) == s.len(),
    decreases j - i,
{
    if i < j {
        lemma_space_to_end(s, i + 1, j);
    } else {
        lemma_skip_space(s, i);
    }
}

/// What stands behind a clause or a group has no part in how it reads.
proof fn lemma_primary_kept(s: Seq<char>, r: Seq<char>, i: int)
    requires
        0 <= i <= s.len(),
        ends_clause(r),
    ensures
        primary(s, i) is Ok ==> primary(s + r, i) == primary(s, i),
    decreases s.len() - i, 2int,
{
    let t = s + r;
    lemma_skip_space(s, i);
    lemma_space_kept(s, r, i);
    let j = skip_space(s, i);
    if j < s.len() && s[j] == '(' {
        assert(t[j] == s[j]);
        lemma_progress(s, j + 1, 2);
        lemma_or_expr_kept(s, r, j + 1);
        if let Ok((q, k)) = or_expr(s, j + 1) {
            lemma_skip_space(s, k);
            lemma_space_kept(s, r, k);
            let c = skip_space(s, k);
            if c < s.len() {
                assert(t[c] == s[c]);
            }
        }
    } else if j < s.len() {
        assert(t[j] == s[j]);
        lemma_clause_kept(s, r, j);
    } else {
        assert(clause(s, j) is Err);
    }
}

proof fn lemma_and_expr_kept(s: Seq<char>, r: Seq<char>, i: int)
    requires
        0 <= i <= s.len(),
        ends_clause(r),
    ensures
        settled(s, r, and_expr(s, i)) ==> and_expr(s + r, i) == and_expr(s, i),
    decreases s.len() - i, 3int,
{
    lemma_primary_kept(s, r, i);
    lemma_progress(s, i, 0);
    if let Ok((left, k)) = primary(s, i) {
        lemma_and_rest_kept(s, r, k, left);
    }
}

proof fn lemma_or_expr_kept(s: Seq<char>, r: Seq<char>, i: int)
    requires
        0 <= i <= s.len(),
        ends_clause(r),
    ensures
        settled(s, r, or_expr(s, i)) ==> or_expr(s + r, i) == or_expr(s, i),
    decreases s.len() - i, 4int,
{
    lemma_and_expr_kept(s, r, i);
    lemma_progress(s, i, 1);
    if let Ok((left, k)) = and_expr(s, i) {
        lemma_or_rest_kept(s, r, k, left);
        lemma_or_rest(s, k, left);
        if let Ok((q, end)) = or_rest(s, k, left) {
            if skip_space(s, k) >= s.len() {
                lemma_space_to_end(s, k, end);
            }
        }
    }
}

#[verifier::spinoff_prover]
#[verifier::rlimit(50)]
proof fn lemma_and_rest_kept(s: Seq<char>, r: Seq<char>, i: int, left: QueryView)
    requires
        0 <= i <= s.len(),
        ends_clause(r),
    ensures
        settled(s, r, and_rest(s, i, left)) ==> and_rest(s + r, i, left) == and_rest(s, i, left),
    decreases s.len() - i, 5int,
{
    let t = s + r;
    lemma_skip_space(s, i);
    lemma_space_kept(s, r, i);
    let j = skip_space(s, i);
    if j >= s.len() {
        assert(t[s.len() as int] == r[0]);
        assert(skip_space(s, j) == j);
    } else {
        assert(t[j] == s[j]);
        lemma_operators_kept(s, r, j);
        if s[j] == ')' {
        } else if and_at(s, j) && ends_word(s, j + 3) {
            lemma_primary_kept(s, r, j + 3);
            lemma_progress(s, j + 3, 0);
            if let Ok((right, k)) = primary(s, j + 3) {
                lemma_and_rest_kept(s, r, k, both(left, right));
            }
        } else if (or_at(s, j) && ends_word(s, j + 2)) || (not_at(s, j) && ends_word(s, j + 3)) {
        } else {
            lemma_primary_kept(s, r, j);
            lemma_progress(s, j, 0);
            if let Ok((right, k)) = primary(s, j) {
                lemma_and_rest_kept(s, r, k, both(left, right));
            }
        }
    }
}

#[verifier::spinoff_prover]
#[verifier::rlimit(50)]
proof fn lemma_or_rest_kept(s: Seq<char>, r: Seq<char>, i: int, left: QueryView)
    requires
        0 <= i <= s.len(),
        ends_clause(r),
    ensures
        settled(s, r, or_rest(s, i, left)) ==> or_rest(s + r, i, left) == or_rest(s, i, left),
    decreases s.len() - i, 5int,
{
    let t = s + r;
    lemma_skip_space(s, i);
    lemma_space_kept(s, r, i);
    let j = skip_space(s, i);
    if j >= s.len() {
        assert(t[s.len() as int] == r[0]);
        assert(skip_space(s, j) == j);
    } else {
        lemma_operators_kept(s, r, j);
        if not_at(s, j) && ends_word(s, j + 3) {
            lemma_and_expr_kept(s, r, j + 3);
            lemma_progress(s, j + 3, 1);
            if let Ok((right, k)) = and_expr(s, j + 3) {
                let next = without(left, right);
                lemma_or_rest_kept(s, r, k, next);
                lemma_or_rest(s, k, next);
                if let Ok((q, end)) = or_rest(s, k, next) {
                    if skip_space(s, k) >= s.len() {
                        lemma_space_to_end(s, k, end);
                    }
                }
            }
        } else if or_at(s, j) && ends_word(s, j + 2) {
            lemma_and_expr_kept(s, r, j + 2);
            lemma_progress(s, j + 2, 1);
            if let Ok((right, k)) = and_expr(s, j + 2) {
                let next = either(left, right);
                lemma_or_rest_kept(s, r, k, next);
                lemma_or_rest(s, k, next);
                if let Ok((q, end)) = or_rest(s, k, next) {
                    if skip_space(s, k) >= s.len() {
                        lemma_space_to_end(s, k, end);
                    }
                }
            }
        }
    }
}

/// A query in parentheses reads as the query itself.
pub proof fn parentheses_change_nothing(s: Seq<char>)
    requires
        query_of(s) is Ok,
    ensures
        query_of(seq!['('] + s + seq![')']) == query_of(s),
{
    let open = seq!['('];
    let close = seq![')'];
    let whole = open + s + close;
    let inner = s + close;
    assert(whole =~= open + inner);
    lemma_progress(s, 0, 2);
    let (q, k) = or_expr(s, 0)->Ok_0;
    lemma_or_expr_kept(s, close, 0);
    assert(or_expr(inner, 0) == or_expr(s, 0));
    lemma_or_expr_moved(open, inner, 0);
    assert(or_expr(whole, 1) == Parsed::Ok((q, k + 1)));
    lemma_skip_space(s, k);
    lemma_space_kept(s, close, k);
    lemma_space_moved(open, inner, k);
    let n = s.len() as int;
    assert(whole[n + 1] == ')');
    assert(whole[0] == '(');
    assert(skip_space(whole, 0) == 0);
    assert(primary(whole, 0) == Parsed::Ok((q, n + 2)));
    assert(whole.len() == n + 2);
    assert(skip_space(whole, n + 2) == n + 2);
    assert(and_rest(whole, n + 2, q) == Parsed::Ok((q, n + 2)));
    assert(and_expr(whole, 0) == Parsed::Ok((q, n + 2)));
    assert(or_rest(whole, n + 2, q) == Parsed::Ok((q, n + 2)));
}

/// A query behind a parenthesis that nothing closes is refused.
pub proof fn parenthesis_wants_closing(s: Seq<char>)
    requires
        query_of(s) is Ok,
    ensures
        query_of(seq!['('] + s) == Err::<QueryView, Seq<char>>("expected closing parenthesis"@),
{
    let open = seq!['('];
    let whole = open + s;
    let n = s.len() as int;
    lemma_progress(s, 0, 2);
    let (q, k) = or_expr(s, 0)->Ok_0;
    lemma_or_expr_moved(open, s, 0);
    assert(or_expr(whole, 1) == Parsed::Ok((q, k + 1)));
    lemma_skip_space(s, k);
    lemma_space_moved(open, s, k);
    assert(whole[0] == '(');
    assert(skip_space(whole, 0) == 0);
    assert(whole.len() == n + 1);
    assert(primary(whole, 0) == Parsed::Err("expected closing parenthesis"@));
    assert(and_expr(whole, 0) == Parsed::Err("expected closing parenthesis"@));
}

/// Whether a text begins with a clause or a group, and not with an operator.
pub open spec fn begins_clause(x: Seq<char>) -> bool {
    &&& x.len() > 0
    &&& !is_space(x[0])
    &&& x[0] != ')'
    &&& x[0] != ':'
    &&& !(and_at(x, 0) && ends_word(x, 3))
    &&& !(or_at(x, 0) && ends_word(x, 2))
    &&& !(not_at(x, 0) && ends_word(x, 3))
}

/// The blank that joins two clauses.
pub open spec fn blank() -> Seq<char> {
    seq![' ']
}

/// The operator that joins two clauses, with its blanks.
pub open spec fn and_word() -> Seq<char> {
    seq![' ', 'A', 'N', 'D', ' ']
}

/// What comes of a query and the clauses and groups that a text joins to it.
spec fn joined(x: Seq<char>, left: QueryView) -> Parsed {
    match primary(x, 0) {
        Ok((right, k)) if 0 < k <= x.len() => and_rest(x, k, both(left, right)),
        other => other,
    }
}

#[verifier::spinoff_prover]
proof fn lemma_blank_joins(x: Seq<char>, left: QueryView)
    requires
        begins_clause(x),
    ensures
        and_rest(blank() + x, 0, left) == moved(joined(x, left), 1),
{
    let t = blank() + x;
    assert(t[0] == ' ');
    assert(t[1] == x[0]);
    assert(skip_space(t, 1) == 1);
    assert(skip_space(t, 0) == 1);
    lemma_operators_moved(blank(), x, 0);
    lemma_primary_moved(blank(), x, 0);
    lemma_progress(x, 0, 0);
    if let Ok((right, k)) = primary(x, 0) {
        lemma_and_rest_moved(blank(), x, k, both(left, right));
    }
}

#[verifier::spinoff_prover]
proof fn lemma_and_joins(x: Seq<char>, left: QueryView)
    requires
        begins_clause(x),
    ensures
        and_rest(and_word() + x, 0, left) == moved(joined(x, left), 5),
{
    let t = and_word() + x;
    assert(t[0] == ' ' && t[1] == 'A' && t[2] == 'N' && t[3] == 'D' && t[4] == ' ');
    assert(t[5] == x[0]);
    assert(skip_space(t, 1) == 1);
    assert(skip_space(t, 0) == 1);
    assert(skip_space(t, 5) == 5);
    assert(skip_space(t, 4) == 5);
    assert(and_at(t, 1));
    assert(ends_word(t, 4));
    assert(primary(t, 4) == primary(t, 5));
    lemma_primary_moved(and_word(), x, 0);
    lemma_progress(x, 0, 0);
    if let Ok((right, k)) = primary(x, 0) {
        lemma_and_rest_moved(and_word(), x, k, both(left, right));
    }
}

/// Whether a text joins what follows it to what stands in front.
spec fn joins(sep: Seq<char>) -> bool {
    sep == blank() || sep == and_word()
}

proof fn lemma_joins(sep: Seq<char>, x: Seq<char>, left: QueryView)
    requires
        joins(sep),
        begins_clause(x),
    ensures
        ends_clause(sep + x),
        and_rest(sep + x, 0, left) == moved(joined(x, left), sep.len() as int),
{
    lemma_blank_joins(x, left);
    lemma_and_joins(x, left);
    assert((sep + x)[0] == ' ');
    assert((sep + x)[1] == if sep == blank() {
        x[0]
    } else {
        'A'
    });
}

#[verifier::spinoff_prover]
#[verifier::rlimit(50)]
proof fn lemma_and_rest_joined(
    a: Seq<char>,
    sep: Seq<char>,
    x: Seq<char>,
    i: int,
    left: QueryView,
    q: QueryView,
)
    requires
        0 <= i <= a.len(),
        joins(sep),
        begins_clause(x),
        and_rest(a, i, left) == Parsed::Ok((q, a.len() as int)),
    ensures
        and_rest(a + (sep + x), i, left) == moved(joined(x, q), (a.len() + sep.len()) as int),
    decreases a.len() - i,
{
    let r = sep + x;
    let t = a + r;
    lemma_joins(sep, x, left);
    lemma_skip_space(a, i);
    lemma_space_kept(a, r, i);
    let j = skip_space(a, i);
    if j >= a.len() {
        lemma_space_kept(a, r, a.len() as int);
        lemma_and_rest_moved(a, r, 0, left);
        assert(and_rest(t, i, left) == and_rest(t, a.len() as int, left));
    } else {
        assert(t[j] == a[j]);
        lemma_operators_kept(a, r, j);
        if and_at(a, j) && ends_word(a, j + 3) {
            lemma_primary_kept(a, r, j + 3);
            lemma_progress(a, j + 3, 0);
            let (right, k) = primary(a, j + 3)->Ok_0;
            lemma_and_rest_joined(a, sep, x, k, both(left, right), q);
        } else {
            lemma_primary_kept(a, r, j);
            lemma_progress(a, j, 0);
            let (right, k) = primary(a, j)->Ok_0;
            lemma_and_rest_joined(a, sep, x, k, both(left, right), q);
        }
    }
}

proof fn lemma_and_expr_joined(
    a: Seq<char>,
    sep: Seq<char>,
    x: Seq<char>,
    i: int,
    q: QueryView,
)
    requires
        0 <= i <= a.len(),
        joins(sep),
        begins_clause(x),
        and_expr(a, i) == Parsed::Ok((q, a.len() as int)),
    ensures
        and_expr(a + (sep + x), i) == moved(joined(x, q), (a.len() + sep.len()) as int),
{
    lemma_joins(sep, x, q);
    lemma_primary_kept(a, sep + x, i);
    lemma_progress(a, i, 0);
    let (left, k) = primary(a, i)->Ok_0;
    lemma_and_rest_joined(a, sep, x, k, left, q);
}

/// What follows in a text behind a conjunction that was read up to there.
proof fn lemma_or_rest_behind(
    a: Seq<char>,
    sep: Seq<char>,
    x: Seq<char>,
    k: int,
    left: QueryView,
)
    requires
        0 <= k <= x.len(),
    ensures
        or_rest(a + (sep + x), a.len() + sep.len() + k, left) == moved(
            or_rest(x, k, left),
            (a.len() + sep.len()) as int,
        ),
{
    assert(a + (sep + x) =~= (a + sep) + x);
    lemma_or_rest_moved(a + sep, x, k, left);
}

proof fn lemma_joined(x: Seq<char>, left: QueryView)
    ensures
        joined(x, left) matches Ok((q, k)) ==> 0 < k <= x.len(),
{
    lemma_progress(x, 0, 0);
    if let Ok((right, k)) = primary(x, 0) {
        lemma_and_rest(x, k, both(left, right));
    }
}

/// Whether two texts read the same from there on: up to where the outcome stands, which lies in
/// the part that both end with.
spec fn read_alike(a: Seq<char>, x: Seq<char>, first: Parsed, second: Parsed) -> bool {
    exists|p: Parsed|
        first == #[trigger] moved(p, a.len() as int + 1) && second == moved(p, a.len() as int + 5) && (
        p matches Ok((q, k)) ==> 0 <= k <= x.len())
}

/// A query and another joined to it by `NOT` or by `OR`.
spec fn combined(negated: bool, left: QueryView, right: QueryView) -> QueryView {
    if negated {
        without(left, right)
    } else {
        either(left, right)
    }
}

/// What comes of a query, another joined to it by `NOT` or by `OR`, and all that a text joins to
/// that one.
spec fn combined_on(x: Seq<char>, negated: bool, left: QueryView, right: QueryView) -> Parsed {
    match joined(x, right) {
        Ok((more, end)) => or_rest(x, end, combined(negated, left, more)),
        Err(m) => Err(m),
    }
}

proof fn lemma_combined_on(x: Seq<char>, negated: bool, left: QueryView, right: QueryView)
    ensures
        combined_on(x, negated, left, right) matches Ok((q, k)) ==> 0 <= k <= x.len(),
{
    lemma_joined(x, right);
    if let Ok((more, end)) = joined(x, right) {
        lemma_or_rest(x, end, combined(negated, left, more));
    }
}

/// Whether `NOT`, or else `OR`, stands at `j`.
spec fn joint_at(s: Seq<char>, j: int, negated: bool) -> bool {
    if negated {
        not_at(s, j) && ends_word(s, j + 3)
    } else {
        or_at(s, j) && ends_word(s, j + 2)
    }
}

/// Where what is joined begins.
spec fn behind_joint(j: int, negated: bool) -> int {
    if negated {
        j + 3
    } else {
        j + 2
    }
}

/// The operator at a place reads the same with more behind the text.
proof fn lemma_joint_kept(
    a: Seq<char>,
    sep: Seq<char>,
    x: Seq<char>,
    i: int,
    negated: bool,
    left: QueryView,
)
    requires
        0 <= i <= a.len(),
        joins(sep),
        begins_clause(x),
        skip_space(a, i) < a.len(),
        joint_at(a, skip_space(a, i), negated),
    ensures
        skip_space(a + (sep + x), i) == skip_space(a, i),
        joint_at(a + (sep + x), skip_space(a, i), negated),
{
    let r = sep + x;
    lemma_joins(sep, x, left);
    lemma_skip_space(a, i);
    lemma_space_kept(a, r, i);
    lemma_operators_kept(a, r, skip_space(a, i));
}

/// An operator whose right side goes up to the end of a text reads on in what is joined to it.
#[verifier::spinoff_prover]
#[verifier::rlimit(50)]
proof fn lemma_or_rest_reads_on(
    a: Seq<char>,
    sep: Seq<char>,
    x: Seq<char>,
    i: int,
    negated: bool,
    left: QueryView,
    right: QueryView,
)
    requires
        0 <= i <= a.len(),
        joins(sep),
        begins_clause(x),
        skip_space(a, i) < a.len(),
        joint_at(a, skip_space(a, i), negated),
        and_expr(a, behind_joint(skip_space(a, i), negated)) == Parsed::Ok(
            (right, a.len() as int),
        ),
    ensures
        or_rest(a + (sep + x), i, left) == moved(
            combined_on(x, negated, left, right),
            (a.len() + sep.len()) as int,
        ),
{
    let j = skip_space(a, i);
    let from = behind_joint(j, negated);
    lemma_skip_space(a, i);
    lemma_joint_kept(a, sep, x, i, negated, left);
    lemma_progress(a, from, 1);
    lemma_and_expr_joined(a, sep, x, from, right);
    lemma_joined(x, right);
    if let Ok((more, end)) = joined(x, right) {
        lemma_or_rest_behind(a, sep, x, end, combined(negated, left, more));
    }
}

/// An operator whose right side does not go up to the end of a text is read as it was.
#[verifier::spinoff_prover]
#[verifier::rlimit(50)]
proof fn lemma_or_rest_goes_on(
    a: Seq<char>,
    sep: Seq<char>,
    x: Seq<char>,
    i: int,
    negated: bool,
    left: QueryView,
    right: QueryView,
    k: int,
)
    requires
        0 <= i <= a.len(),
        joins(sep),
        begins_clause(x),
        skip_space(a, i) < a.len(),
        joint_at(a, skip_space(a, i), negated),
        and_expr(a, behind_joint(skip_space(a, i), negated)) == Parsed::Ok((right, k)),
        k <= a.len(),
        skip_space(a, k) < a.len(),
    ensures
        or_rest(a + (sep + x), i, left) == or_rest(
            a + (sep + x),
            k,
            combined(negated, left, right),
        ),
{
    let from = behind_joint(skip_space(a, i), negated);
    lemma_skip_space(a, i);
    lemma_joint_kept(a, sep, x, i, negated, left);
    lemma_joins(sep, x, left);
    lemma_progress(a, from, 1);
    lemma_and_expr_kept(a, sep + x, from);
}

/// What stands behind a query is joined to it by an operator, unless it ends there.
#[verifier::spinoff_prover]
proof fn lemma_or_rest_parts(a: Seq<char>, i: int, left: QueryView, negated: bool)
    requires
        0 <= i <= a.len(),
        skip_space(a, i) < a.len(),
        or_rest(a, i, left) matches Ok((q, k)) && skip_space(a, k) >= a.len(),
        negated == joint_at(a, skip_space(a, i), true),
    ensures
        joint_at(a, skip_space(a, i), negated),
        ({
            let from = behind_joint(skip_space(a, i), negated);
            &&& from <= a.len()
            &&& and_expr(a, from) is Ok
            &&& from < (and_expr(a, from)->Ok_0).1 <= a.len()
            &&& or_rest(a, i, left) == or_rest(
                a,
                (and_expr(a, from)->Ok_0).1,
                combined(negated, left, (and_expr(a, from)->Ok_0).0),
            )
        }),
{
    lemma_skip_space(a, i);
    lemma_idle_at(a, i);
    let j = skip_space(a, i);
    if joint_at(a, j, negated) {
        lemma_progress(a, behind_joint(j, negated), 1);
    }
}

#[verifier::spinoff_prover]
#[verifier::rlimit(50)]
proof fn lemma_or_rest_joined(a: Seq<char>, x: Seq<char>, i: int, left: QueryView)
    requires
        0 <= i <= a.len(),
        begins_clause(x),
        skip_space(a, i) < a.len(),
        or_rest(a, i, left) matches Ok((q, k)) && skip_space(a, k) >= a.len(),
    ensures
        read_alike(
            a,
            x,
            or_rest(a + (blank() + x), i, left),
            or_rest(a + (and_word() + x), i, left),
        ),
    decreases a.len() - i,
{
    let negated = joint_at(a, skip_space(a, i), true);
    lemma_skip_space(a, i);
    lemma_or_rest_parts(a, i, left, negated);
    let from = behind_joint(skip_space(a, i), negated);
    let (right, k) = and_expr(a, from)->Ok_0;
    lemma_skip_space(a, k);
    if skip_space(a, k) < a.len() {
        lemma_or_rest_goes_on(a, blank(), x, i, negated, left, right, k);
        lemma_or_rest_goes_on(a, and_word(), x, i, negated, left, right, k);
        lemma_or_rest_joined(a, x, k, combined(negated, left, right));
    } else {
        lemma_and_expr_ends(a, from);
        lemma_or_rest_reads_on(a, blank(), x, i, negated, left, right);
        lemma_or_rest_reads_on(a, and_word(), x, i, negated, left, right);
        lemma_combined_on(x, negated, left, right);
        let p = combined_on(x, negated, left, right);
        assert(or_rest(a + (blank() + x), i, left) == moved(p, a.len() as int + 1));
        assert(or_rest(a + (and_word() + x), i, left) == moved(p, a.len() as int + 5));
    }
}

/// White space is skipped once.
proof fn lemma_idle_at(s: Seq<char>, i: int)
    requires
        0 <= i <= s.len(),
    ensures
        skip_space(s, skip_space(s, i)) == skip_space(s, i),
    decreases s.len() - i,
{
    if i < s.len() && is_space(s[i]) {
        lemma_idle_at(s, i + 1);
    }
}

/// A conjunction is read up to what is no white space.
proof fn lemma_and_rest_ends(s: Seq<char>, i: int, left: QueryView)
    requires
        0 <= i <= s.len(),
    ensures
        and_rest(s, i, left) matches Ok((q, k)) ==> skip_space(s, k) == k,
    decreases s.len() - i,
{
    lemma_skip_space(s, i);
    lemma_idle_at(s, i);
    let j = skip_space(s, i);
    if j >= s.len() || s[j] == ')' {
    } else if and_at(s, j) && ends_word(s, j + 3) {
        lemma_progress(s, j + 3, 0);
        if let Ok((right, k)) = primary(s, j + 3) {
            lemma_and_rest_ends(s, k, both(left, right));
        }
    } else if (or_at(s, j) && ends_word(s, j + 2)) || (not_at(s, j) && ends_word(s, j + 3)) {
    } else {
        lemma_progress(s, j, 0);
        if let Ok((right, k)) = primary(s, j) {
            lemma_and_rest_ends(s, k, both(left, right));
        }
    }
}

proof fn lemma_and_expr_ends(s: Seq<char>, i: int)
    requires
        0 <= i <= s.len(),
    ensures
        and_expr(s, i) matches Ok((q, k)) ==> skip_space(s, k) == k,
{
    lemma_progress(s, i, 0);
    if let Ok((left, k)) = primary(s, i) {
        lemma_and_rest_ends(s, k, left);
    }
}

/// A conjunction that goes up to the end of a text reads on in what is joined to it.
#[verifier::spinoff_prover]
proof fn lemma_or_expr_reads_on(
    a: Seq<char>,
    sep: Seq<char>,
    x: Seq<char>,
    left: QueryView,
)
    requires
        joins(sep),
        begins_clause(x),
        and_expr(a, 0) == Parsed::Ok((left, a.len() as int)),
    ensures
        or_expr(a + (sep + x), 0) == moved(read_on(x, left), (a.len() + sep.len()) as int),
{
    lemma_and_expr_joined(a, sep, x, 0, left);
    lemma_joined(x, left);
    if let Ok((more, end)) = joined(x, left) {
        lemma_or_rest_behind(a, sep, x, end, more);
    }
}

/// What comes of a query and all that a text joins to it.
spec fn read_on(x: Seq<char>, left: QueryView) -> Parsed {
    match joined(x, left) {
        Ok((more, end)) => or_rest(x, end, more),
        Err(m) => Err(m),
    }
}

proof fn lemma_read_on(x: Seq<char>, left: QueryView)
    ensures
        read_on(x, left) matches Ok((q, k)) ==> 0 <= k <= x.len(),
{
    lemma_joined(x, left);
    if let Ok((more, end)) = joined(x, left) {
        lemma_or_rest(x, end, more);
    }
}

/// A conjunction that does not go up to the end of a text is read as it was.
#[verifier::spinoff_prover]
proof fn lemma_or_expr_goes_on(
    a: Seq<char>,
    sep: Seq<char>,
    x: Seq<char>,
    left: QueryView,
    k: int,
)
    requires
        joins(sep),
        begins_clause(x),
        and_expr(a, 0) == Parsed::Ok((left, k)),
        0 < k <= a.len(),
        skip_space(a, k) < a.len(),
    ensures
        or_expr(a + (sep + x), 0) == or_rest(a + (sep + x), k, left),
{
    lemma_joins(sep, x, left);
    lemma_and_expr_kept(a, sep + x, 0);
}

/// A text that is read begins with a conjunction, and what follows goes up to its end.
proof fn lemma_query_parts(a: Seq<char>)
    requires
        query_of(a) is Ok,
    ensures
        and_expr(a, 0) is Ok,
        ({
            let (left, k) = and_expr(a, 0)->Ok_0;
            &&& 0 < k <= a.len()
            &&& or_rest(a, k, left) matches Ok((q, end)) && skip_space(a, end) >= a.len()
        }),
{
    lemma_progress(a, 0, 1);
}

#[verifier::spinoff_prover]
#[verifier::rlimit(50)]
proof fn lemma_or_expr_joined(a: Seq<char>, x: Seq<char>, left: QueryView, k: int)
    requires
        begins_clause(x),
        and_expr(a, 0) == Parsed::Ok((left, k)),
        0 < k <= a.len(),
        or_rest(a, k, left) matches Ok((q, end)) && skip_space(a, end) >= a.len(),
    ensures
        read_alike(a, x, or_expr(a + (blank() + x), 0), or_expr(a + (and_word() + x), 0)),
{
    lemma_skip_space(a, k);
    if skip_space(a, k) < a.len() {
        lemma_or_expr_goes_on(a, blank(), x, left, k);
        lemma_or_expr_goes_on(a, and_word(), x, left, k);
        lemma_or_rest_joined(a, x, k, left);
    } else {
        lemma_and_expr_ends(a, 0);
        lemma_or_expr_reads_on(a, blank(), x, left);
        lemma_or_expr_reads_on(a, and_word(), x, left);
        lemma_read_on(x, left);
        let p = read_on(x, left);
        assert(or_expr(a + (blank() + x), 0) == moved(p, a.len() as int + 1));
        assert(or_expr(a + (and_word() + x), 0) == moved(p, a.len() as int + 5));
    }
}

/// What is read from two texts up to the same place of a part that both end with makes the same
/// query of them.
#[verifier::spinoff_prover]
#[verifier::rlimit(50)]
proof fn lemma_same_query(front: Seq<char>, x: Seq<char>, p: Parsed)
    requires
        or_expr(front + x, 0) == moved(p, front.len() as int),
        p matches Ok((q, k)) ==> 0 <= k <= x.len(),
    ensures
        query_of(front + x) == (match p {
            Ok((q, k)) => if skip_space(x, k) < x.len() {
                Err::<QueryView, Seq<char>>(
                    "unexpected characters at end of query: '"@ + x.skip(skip_space(x, k)) + "'"@,
                )
            } else {
                Ok(q)
            },
            Err(m) => Err(m),
        }),
{
    if let Ok((q, k)) = p {
        lemma_skip_space(x, k);
        lemma_space_moved(front, x, k);
        let j = skip_space(x, k);
        assert((front + x).skip(front.len() + j) =~= x.skip(j));
    }
}

/// A blank in front of a clause or a group reads as `AND`.
#[verifier::spinoff_prover]
#[verifier::rlimit(50)]
pub proof fn blank_reads_as_and(a: Seq<char>, x: Seq<char>)
    requires
        query_of(a) is Ok,
        begins_clause(x),
    ensures
        query_of(a + blank() + x) == query_of(a + and_word() + x),
{
    let b = a + (blank() + x);
    let w = a + (and_word() + x);
    assert(a + blank() + x =~= b);
    assert(a + and_word() + x =~= w);
    lemma_query_parts(a);
    let (left, start) = and_expr(a, 0)->Ok_0;
    lemma_or_expr_joined(a, x, left, start);
    let first = or_expr(b, 0);
    let second = or_expr(w, 0);
    let p = choose|p: Parsed|
        first == #[trigger] moved(p, a.len() as int + 1) && second == moved(p, a.len() as int + 5) && (
        p matches Ok((q, k)) ==> 0 <= k <= x.len());
    assert(blank().len() == 1 && and_word().len() == 5);
    lemma_same_query(a + blank(), x, p);
    lemma_same_query(a + and_word(), x, p);
}

} // verus!
