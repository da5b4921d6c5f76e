//! Edit distance between texts.
use vstd::prelude::*;

use crate::text::chars_of;
use crate::types::Fuzziness;

verus! {

/// The smaller of two numbers.
pub open spec fn smaller(a: nat, b: nat) -> nat {
    if a <= b {
        a
    } else {
        b
    }
}

/// The least number of characters that have to be put in, taken out or replaced to make `b`
/// of `a`.
pub open spec fn distance(a: Seq<char>, b: Seq<char>) -> nat
    decreases a.len() + b.len(),
{
    if a.len() == 0 {
        b.len()
    } else if b.len() == 0 {
        a.len()
    } else if a.last() == b.last() {
        distance(a.drop_last(), b.drop_last())
    } else {
        1 + smaller(
            distance(a.drop_last(), b.drop_last()),
            smaller(distance(a.drop_last(), b), distance(a, b.drop_last())),
        )
    }
}

/// The distance is not greater than the length of the longer text.
pub proof fn distance_is_bounded(a: Seq<char>, b: Seq<char>)
    ensures
        distance(a, b) <= a.len() || distance(a, b) <= b.len(),
    decreases a.len() + b.len(),
{
    if a.len() > 0 && b.len() > 0 {
        distance_is_bounded(a.drop_last(), b.drop_last());
    }
}

/// The distance is the same in both directions.
pub proof fn distance_is_symmetric(a: Seq<char>, b: Seq<char>)
    ensures
        distance(a, b) == distance(b, a),
    decreases a.len() + b.len(),
{
    if a.len() > 0 && b.len() > 0 {
        distance_is_symmetric(a.drop_last(), b.drop_last());
        distance_is_symmetric(a.drop_last(), b);
        distance_is_symmetric(a, b.drop_last());
    }
}

/// Two texts are at distance zero if and only if they are the same.
pub proof fn distance_zero_is_equality(a: Seq<char>, b: Seq<char>)
    ensures
        distance(a, b) == 0 <==> a == b,
    decreases a.len() + b.len(),
{
    if a.len() == 0 || b.len() == 0 {
        if a.len() == 0 && b.len() == 0 {
            assert(a =~= b);
        }
    } else {
        distance_zero_is_equality(a.drop_last(), b.drop_last());
        if a.last() == b.last() && a.drop_last() == b.drop_last() {
            assert(a =~= a.drop_last().push(a.last()));
            assert(b =~= b.drop_last().push(b.last()));
        }
    }
}

/// The distance between the first `i` characters of `a` and the first `j` of `b`.
spec fn prefix_distance(a: Seq<char>, b: Seq<char>, i: int, j: int) -> nat {
    distance(a.take(i), b.take(j))
}

proof fn lemma_prefix_distance(a: Seq<char>, b: Seq<char>, i: int, j: int)
    requires
        0 <= i < a.len(),
        0 <= j < b.len(),
    ensures
        prefix_distance(a, b, i + 1, j + 1) == if a[i] == b[j] {
            prefix_distance(a, b, i, j)
        } else {
            1 + smaller(
                prefix_distance(a, b, i, j),
                smaller(prefix_distance(a, b, i, j + 1), prefix_distance(a, b, i + 1, j)),
            )
        },
        prefix_distance(a, b, i + 1, j + 1) <= i + 1 || prefix_distance(a, b, i + 1, j + 1) <= j + 1,
{
    assert(a.take(i + 1).drop_last() =~= a.take(i));
    assert(b.take(j + 1).drop_last() =~= b.take(j));
    distance_is_bounded(a.take(i + 1), b.take(j + 1));
}

/// Computes the edit distance row by row.
pub fn edit_distance(a: &str, b: &str) -> (r: usize)
    ensures
        r == distance(a@, b@),
{
    let left_chars = chars_of(a);
    let right_chars = chars_of(b);
    let ghost s = a@;
    let ghost t = b@;
    let m: usize = left_chars.len();
    let n: usize = right_chars.len();
    let mut row: Vec<usize> = Vec::new();
    let mut k: usize = 0;
    while k < n
        invariant
            k <= n,
            n == t.len(),
            row@.len() == k,
            forall|j: int| 0 <= j < k ==> #[trigger] row@[j] == j + 1,
        decreases n - k,
    {
        row.push(k + 1);
        k += 1;
    }
    let mut i: usize = 0;
    proof {
        assert forall|j: int| 0 <= j < n implies #[trigger] row@[j] == prefix_distance(
            s,
            t,
            0,
            j + 1,
        ) by {}
    }
    while i < m
        invariant
            left_chars@ == s,
            right_chars@ == t,
            m == s.len(),
            n == t.len(),
            i <= m,
            row@.len() == n,
            forall|j: int| 0 <= j < n ==> #[trigger] row@[j] == prefix_distance(s, t, i as int, j + 1),
        decreases m - i,
    {
        let mut diagonal: usize = i;
        let mut before: usize = i + 1;
        let mut j: usize = 0;
        while j < n
            invariant
                left_chars@ == s,
                right_chars@ == t,
                m == s.len(),
                n == t.len(),
                i < m,
                j <= n,
                row@.len() == n,
                diagonal == prefix_distance(s, t, i as int, j as int),
                before == prefix_distance(s, t, i + 1, j as int),
                forall|l: int|
                    0 <= l < j ==> #[trigger] row@[l] == prefix_distance(s, t, i + 1, l + 1),
                forall|l: int|
                    j <= l < n ==> #[trigger] row@[l] == prefix_distance(s, t, i as int, l + 1),
            decreases n - j,
        {
            let above: usize = row[j];
            proof {
                lemma_prefix_distance(s, t, i as int, j as int);
            }
            let cell: usize = if left_chars[i] == right_chars[j] {
                diagonal
            } else {
                let least: usize = if above <= before {
                    above
                } else {
                    before
                };
                if diagonal <= least {
                    diagonal + 1
                } else {
                    least + 1
                }
            };
            row.set(j, cell);
            diagonal = above;
            before = cell;
            j += 1;
        }
        i += 1;
    }
    proof {
        assert(s.take(m as int) =~= s);
        assert(t.take(n as int) =~= t);
    }
    if n == 0 {
        m
    } else {
        row[n - 1]
    }
}

/// How far a term may be from a text of that many characters.
pub open spec fn allowed_distance(fuzziness: Fuzziness, length: nat) -> nat {
    match fuzziness {
        Fuzziness::Exact(n) => n as nat,
        Fuzziness::Auto => if length < 3 {
            0
        } else if length < 6 {
            1
        } else {
            2
        },
    }
}

/// Whether `text` is near enough to `wanted`.
pub open spec fn within_fuzziness(text: Seq<char>, wanted: Seq<char>, fuzziness: Fuzziness) -> bool {
    distance(text, wanted) <= allowed_distance(fuzziness, wanted.len())
}

/// Whether `text` is near enough to `wanted`.
pub fn is_within_fuzziness(text: &str, wanted: &str, fuzziness: Fuzziness) -> (r: bool)
    ensures
        r == within_fuzziness(text@, wanted@, fuzziness),
{
    let allowed: usize = match fuzziness {
        Fuzziness::Exact(n) => n,
        Fuzziness::Auto => {
            let length: usize = wanted.unicode_len();
            if length < 3 {
                0
            } else if length < 6 {
                1
            } else {
                2
            }
        },
    };
    edit_distance(text, wanted) <= allowed
}

/// A fuzzy term with no allowance finds the same texts as the plain term.
pub proof fn no_fuzziness_is_equality(text: Seq<char>, wanted: Seq<char>)
    ensures
        within_fuzziness(text, wanted, Fuzziness::Exact(0)) <==> text == wanted,
{
    distance_zero_is_equality(text, wanted);
}

} // verus!
