//! Strings as sequences of characters: order, equality and conversion.
use vstd::prelude::*;
use vstd::std_specs::iter::IteratorSpec;

verus! {

/// `String::push` appends one character.
pub assume_specification[ String::push ](s: &mut String, c: char)
    ensures
        final(s)@ == old(s)@.push(c),
;

/// Whether `a` stands before `b` in the order of strings: code point by code point,
/// a proper prefix first.
pub open spec fn text_lt(a: Seq<char>, b: Seq<char>) -> bool
    decreases a.len(),
{
    if b.len() == 0 {
        false
    } else if a.len() == 0 {
        true
    } else if a[0] != b[0] {
        (a[0] as int) < (b[0] as int)
    } else {
        text_lt(a.drop_first(), b.drop_first())
    }
}

/// No string stands before itself.
pub proof fn text_lt_irreflexive(a: Seq<char>)
    ensures
        !text_lt(a, a),
    decreases a.len(),
{
    if a.len() > 0 {
        text_lt_irreflexive(a.drop_first());
    }
}

/// Of two different strings one stands before the other.
pub proof fn text_lt_total(a: Seq<char>, b: Seq<char>)
    ensures
        text_lt(a, b) || text_lt(b, a) || a == b,
    decreases a.len(),
{
    if a.len() == 0 || b.len() == 0 {
        if a.len() == 0 && b.len() == 0 {
            assert(a =~= b);
        }
    } else if a[0] == b[0] {
        text_lt_total(a.drop_first(), b.drop_first());
        if a.drop_first() == b.drop_first() {
            assert(a =~= seq![a[0]] + a.drop_first());
            assert(b =~= seq![b[0]] + b.drop_first());
        }
    }
}

/// The order of strings is transitive.
pub proof fn text_lt_transitive(a: Seq<char>, b: Seq<char>, c: Seq<char>)
    requires
        text_lt(a, b),
        text_lt(b, c),
    ensures
        text_lt(a, c),
    decreases a.len(),
{
    if a.len() > 0 && a[0] == b[0] && b[0] == c[0] {
        text_lt_transitive(a.drop_first(), b.drop_first(), c.drop_first());
    }
}

/// The order of strings has no cycles of two.
pub proof fn text_lt_asymmetric(a: Seq<char>, b: Seq<char>)
    requires
        text_lt(a, b),
    ensures
        !text_lt(b, a),
        a != b,
{
    text_lt_irreflexive(a);
    if text_lt(b, a) {
        text_lt_transitive(a, b, a);
    }
}

proof fn text_lt_after_prefix(a: Seq<char>, b: Seq<char>, n: int)
    requires
        0 <= n <= a.len(),
        n <= b.len(),
        a.take(n) == b.take(n),
    ensures
        text_lt(a, b) == text_lt(a.skip(n), b.skip(n)),
    decreases n,
{
    if n == 0 {
        assert(a.skip(0) =~= a);
        assert(b.skip(0) =~= b);
    } else {
        assert(a[0] == a.take(n)[0]);
        assert(b[0] == b.take(n)[0]);
        assert(a.drop_first().take(n - 1) =~= a.take(n).drop_first());
        assert(b.drop_first().take(n - 1) =~= b.take(n).drop_first());
        text_lt_after_prefix(a.drop_first(), b.drop_first(), n - 1);
        assert(a.drop_first().skip(n - 1) =~= a.skip(n));
        assert(b.drop_first().skip(n - 1) =~= b.skip(n));
    }
}

/// The characters of a string.
pub fn chars_of(s: &str) -> (r: Vec<char>)
    ensures
        r@ == s@,
{
    let mut r: Vec<char> = Vec::new();
    for c in it: s.chars()
        invariant
            r@ == s@.take(it.index() as int),
            it.seq() == s@,
    {
        proof {
            assert(s@.take(it.index() + 1) =~= s@.take(it.index() as int).push(c));
        }
        r.push(c);
    }
    proof {
        assert(s@.take(s@.len() as int) =~= s@);
    }
    r
}

/// The string made of `chars`.
pub fn string_of(chars: &[char]) -> (r: String)
    ensures
        r@ == chars@,
{
    let mut r = String::new();
    let mut i: usize = 0;
    while i < chars.len()
        invariant
            i <= chars@.len(),
            r@ == chars@.take(i as int),
        decreases chars@.len() - i,
    {
        proof {
            assert(chars@.take(i + 1) =~= chars@.take(i as int).push(chars@[i as int]));
        }
        r.push(chars[i]);
        i += 1;
    }
    proof {
        assert(chars@.take(chars@.len() as int) =~= chars@);
    }
    r
}

/// Where two strings first differ: nowhere, or at a position where `a` has the smaller
/// character or has ended, or where `b` has.
pub enum TextOrder {
    Before,
    Same,
    After,
}

/// How `a` stands to `b` in the order of strings.
pub fn text_order(a: &str, b: &str) -> (r: TextOrder)
    ensures
        r is Before <==> text_lt(a@, b@),
        r is Same <==> a@ == b@,
        r is After <==> text_lt(b@, a@),
{
    let mut left = a.chars();
    let mut right = b.chars();
    let ghost mut n: int = 0;
    loop
        invariant
            0 <= n <= a@.len(),
            n <= b@.len(),
            a@.take(n) == b@.take(n),
            left.remaining() == a@.skip(n),
            right.remaining() == b@.skip(n),
        decreases a@.len() - n,
    {
        proof {
            text_lt_after_prefix(a@, b@, n);
            text_lt_after_prefix(b@, a@, n);
            text_lt_irreflexive(a@);
        }
        match (left.next(), right.next()) {
            (None, None) => {
                proof {
                    assert(a@.take(n) =~= a@);
                    assert(b@.take(n) =~= b@);
                }
                return TextOrder::Same;
            },
            (None, Some(_)) => {
                return TextOrder::Before;
            },
            (Some(_), None) => {
                return TextOrder::After;
            },
            (Some(c), Some(d)) => {
                if c != d {
                    if c < d {
                        return TextOrder::Before;
                    }
                    return TextOrder::After;
                }
            },
        }
        proof {
            assert(a@.take(n + 1) =~= a@.take(n).push(a@[n]));
            assert(b@.take(n + 1) =~= b@.take(n).push(b@[n]));
            assert(a@.skip(n).drop_first() =~= a@.skip(n + 1));
            assert(b@.skip(n).drop_first() =~= b@.skip(n + 1));
            n = n + 1;
        }
    }
}

/// Whether two strings hold the same characters.
pub fn text_eq(a: &str, b: &str) -> (r: bool)
    ensures
        r == (a@ == b@),
{
    match text_order(a, b) {
        TextOrder::Same => true,
        _ => false,
    }
}

/// Whether `s` begins with `prefix`.
pub open spec fn has_prefix(s: Seq<char>, prefix: Seq<char>) -> bool {
    prefix.len() <= s.len() && s.take(prefix.len() as int) == prefix
}

/// Whether `s` begins with `prefix`.
pub fn text_starts_with(s: &str, prefix: &str) -> (r: bool)
    ensures
        r == has_prefix(s@, prefix@),
{
    let mut left = s.chars();
    let mut right = prefix.chars();
    let ghost mut n: int = 0;
    loop
        invariant
            0 <= n <= s@.len(),
            n <= prefix@.len(),
            s@.take(n) == prefix@.take(n),
            left.remaining() == s@.skip(n),
            right.remaining() == prefix@.skip(n),
        decreases prefix@.len() - n,
    {
        match (right.next(), left.next()) {
            (None, _) => {
                proof {
                    assert(prefix@.take(n) =~= prefix@);
                }
                return true;
            },
            (Some(_), None) => {
                return false;
            },
            (Some(c), Some(d)) => {
                if c != d {
                    proof {
                        if has_prefix(s@, prefix@) {
                            assert(s@.take(prefix@.len() as int)[n] == prefix@[n]);
                        }
                    }
                    return false;
                }
            },
        }
        proof {
            assert(s@.take(n + 1) =~= s@.take(n).push(s@[n]));
            assert(prefix@.take(n + 1) =~= prefix@.take(n).push(prefix@[n]));
            assert(s@.skip(n).drop_first() =~= s@.skip(n + 1));
            assert(prefix@.skip(n).drop_first() =~= prefix@.skip(n + 1));
            n = n + 1;
        }
    }
}

/// The characters with the Unicode property `White_Space`.
pub open spec fn is_space(c: char) -> bool {
    let n = c as u32;
    ||| 0x9 <= n <= 0xd
    ||| n == 0x20
    ||| n == 0x85
    ||| n == 0xa0
    ||| n == 0x1680
    ||| 0x2000 <= n <= 0x200a
    ||| n == 0x2028
    ||| n == 0x2029
    ||| n == 0x202f
    ||| n == 0x205f
    ||| n == 0x3000
}

/// `char::is_whitespace` tells the characters with the Unicode property `White_Space`.
pub assume_specification[ char::is_whitespace ](c: char) -> (r: bool)
    ensures
        r == is_space(c),
;

/// Whether a character beyond ASCII counts as a letter or a number.
pub uninterp spec fn alphanumeric_beyond_ascii(c: char) -> bool;

/// Whether a character counts as a letter or a number.
pub open spec fn letter_or_number(c: char) -> bool {
    if (c as u32) < 0x80 {
        '0' <= c <= '9' || 'A' <= c <= 'Z' || 'a' <= c <= 'z'
    } else {
        alphanumeric_beyond_ascii(c)
    }
}

/// `char::is_alphanumeric` tells letters and numbers: in ASCII the letters and the ten digits,
/// beyond it what the Unicode tables say, which depends on the character alone.
pub assume_specification[ char::is_alphanumeric ](c: char) -> (r: bool)
    ensures
        r == letter_or_number(c),
        c as u32 >= 0x80 ==> r == alphanumeric_beyond_ascii(c),
;

/// The lower case of an ASCII letter; any other character itself.
pub open spec fn lower(c: char) -> char {
    if 'A' <= c <= 'Z' {
        ((c as u8) + 32) as char
    } else {
        c
    }
}

/// Each character in lower case.
pub open spec fn lower_all(s: Seq<char>) -> Seq<char> {
    Seq::new(s.len(), |i: int| lower(s[i]))
}

fn lower_char(c: char) -> (r: char)
    ensures
        r == lower(c),
{
    if 'A' <= c && c <= 'Z' {
        ((c as u8) + 32) as char
    } else {
        c
    }
}

/// The text with each ASCII letter in lower case.
pub fn lower_text(s: &str) -> (r: String)
    ensures
        r@ == lower_all(s@),
{
    let mut r = String::new();
    for c in it: s.chars()
        invariant
            r@ == lower_all(s@.take(it.index() as int)),
            it.seq() == s@,
    {
        proof {
            assert(lower_all(s@.take(it.index() + 1)) =~= lower_all(
                s@.take(it.index() as int),
            ).push(lower(c)));
        }
        r.push(lower_char(c));
    }
    proof {
        assert(s@.take(s@.len() as int) =~= s@);
    }
    r
}

/// The first position from `i` on that is white space or the end.
pub open spec fn word_end(s: Seq<char>, i: int) -> int
    decreases s.len() - i,
{
    if i >= s.len() {
        s.len() as int
    } else if is_space(s[i]) {
        i
    } else {
        word_end(s, i + 1)
    }
}

/// A word ends where the first white space stands, and no earlier.
pub proof fn lemma_word_end(s: Seq<char>, i: int)
    requires
        0 <= i <= s.len(),
    ensures
        i <= word_end(s, i) <= s.len(),
        forall|k: int| i <= k < word_end(s, i) ==> !is_space(#[trigger] s[k]),
        word_end(s, i) < s.len() ==> is_space(s[word_end(s, i)]),
        i < s.len() && !is_space(s[i]) ==> i < word_end(s, i),
    decreases s.len() - i,
{
    if i < s.len() && !is_space(s[i]) {
        lemma_word_end(s, i + 1);
    }
}

/// The words of `s` from position `i` on, in lower case: the longest runs without white space.
pub open spec fn tokens_from(s: Seq<char>, i: int) -> Seq<Seq<char>>
    decreases s.len() - i,
{
    if i < 0 || i >= s.len() {
        Seq::empty()
    } else if is_space(s[i]) {
        tokens_from(s, i + 1)
    } else {
        proof {
            lemma_word_end(s, i);
        }
        seq![lower_all(s.subrange(i, word_end(s, i)))] + tokens_from(s, word_end(s, i))
    }
}

/// The words of `s`, in lower case.
pub open spec fn tokens(s: Seq<char>) -> Seq<Seq<char>> {
    tokens_from(s, 0)
}

/// Whether a word can be a token: it is not empty and holds neither white space nor an
/// upper case ASCII letter.
pub open spec fn is_token(word: Seq<char>) -> bool {
    &&& word.len() > 0
    &&& forall|k: int|
        0 <= k < word.len() ==> !is_space(#[trigger] word[k]) && !('A' <= word[k] <= 'Z')
}

proof fn lemma_tokens_from(s: Seq<char>, i: int)
    requires
        0 <= i,
    ensures
        forall|k: int| 0 <= k < tokens_from(s, i).len() ==> is_token(#[trigger] tokens_from(s, i)[k]),
    decreases s.len() - i,
{
    if i < s.len() {
        if is_space(s[i]) {
            lemma_tokens_from(s, i + 1);
            assert(tokens_from(s, i) == tokens_from(s, i + 1));
        } else {
            lemma_word_end(s, i);
            let e = word_end(s, i);
            lemma_tokens_from(s, e);
            assert(tokens_from(s, i) == seq![lower_all(s.subrange(i, e))] + tokens_from(s, e));
            let word = lower_all(s.subrange(i, e));
            assert forall|k: int| 0 <= k < word.len() implies !is_space(#[trigger] word[k]) && !(
            'A' <= word[k] <= 'Z') by {
                assert(!is_space(s[i + k]));
            }
            assert(is_token(word));
            assert forall|k: int| 0 <= k < tokens_from(s, i).len() implies is_token(
                #[trigger] tokens_from(s, i)[k],
            ) by {
                if k > 0 {
                    assert(tokens_from(s, i)[k] == tokens_from(s, e)[k - 1]);
                }
            }
        }
    }
}

/// Every token is a word without white space and without upper case ASCII letters.
pub proof fn tokens_are_lower_case_words(s: Seq<char>)
    ensures
        forall|k: int| 0 <= k < tokens(s).len() ==> is_token(#[trigger] tokens(s)[k]),
{
    lemma_tokens_from(s, 0);
}

/// A token is its own only token: splitting it again changes nothing.
pub proof fn token_stays_whole(word: Seq<char>)
    requires
        is_token(word),
    ensures
        tokens(word) == seq![word],
{
    lemma_word_end(word, 0);
    assert(!is_space(word[0]));
    let e = word_end(word, 0);
    if e < word.len() {
        assert(!is_space(word[e]));
    }
    assert(word.subrange(0, e) =~= word);
    assert(lower_all(word) =~= word);
    assert(tokens_from(word, e) =~= Seq::empty());
    assert(tokens(word) =~= seq![word]);
}

/// The views of a list of strings.
pub open spec fn views(list: Seq<String>) -> Seq<Seq<char>> {
    Seq::new(list.len(), |i: int| list[i]@)
}

/// Splits a text at white space and puts its words in lower case.
pub fn tokenize(text: &str) -> (r: Vec<String>)
    ensures
        views(r@) == tokens(text@),
{
    let chars = chars_of(text);
    let ghost s = text@;
    let mut r: Vec<String> = Vec::new();
    let mut i: usize = 0;
    proof {
        assert(views(r@) + tokens_from(s, 0) =~= tokens(s));
    }
    while i < chars.len()
        invariant
            chars@ == s,
            i <= s.len(),
            tokens(s) == views(r@) + tokens_from(s, i as int),
        decreases s.len() - i,
    {
        if chars[i].is_whitespace() {
            i += 1;
        } else {
            let mut word = String::new();
            let ghost start = i as int;
            proof {
                lemma_word_end(s, start);
                assert(lower_all(s.subrange(start, start)) =~= Seq::empty());
            }
            while i < chars.len() && !chars[i].is_whitespace()
                invariant
                    chars@ == s,
                    0 <= start <= i <= s.len(),
                    word_end(s, start) == word_end(s, i as int),
                    word@ == lower_all(s.subrange(start, i as int)),
                decreases s.len() - i,
            {
                proof {
                    assert(lower_all(s.subrange(start, i + 1)) =~= lower_all(
                        s.subrange(start, i as int),
                    ).push(lower(s[i as int])));
                }
                word.push(lower_char(chars[i]));
                i += 1;
            }
            let ghost before = r@;
            r.push(word);
            proof {
                assert(i == word_end(s, start));
                assert(views(r@) =~= views(before).push(word@));
                assert(views(before) + (seq![word@] + tokens_from(s, i as int)) =~= views(r@)
                    + tokens_from(s, i as int));
            }
        }
    }
    proof {
        assert(views(r@) + tokens_from(s, i as int) =~= views(r@));
    }
    r
}

/// The decimal digits of a number.
pub open spec fn decimal(n: nat) -> Seq<char>
    decreases n,
{
    if n < 10 {
        seq![(48 + n) as char]
    } else {
        decimal(n / 10).push((48 + n % 10) as char)
    }
}

/// The decimal text of a number.
pub fn decimal_text(n: u64) -> (r: String)
    ensures
        r@ == decimal(n as nat),
    decreases n,
{
    let digit: char = (48u8 + (n % 10) as u8) as char;
    if n < 10 {
        let mut r = String::new();
        r.push(digit);
        proof {
            assert(r@ =~= decimal(n as nat));
        }
        r
    } else {
        let mut r = decimal_text(n / 10);
        r.push(digit);
        r
    }
}

/// Three texts, one after the other.
pub fn cat3(a: &str, b: &str, c: &str) -> (r: String)
    ensures
        r@ == a@ + b@ + c@,
{
    let mut r = a.to_owned();
    r.append(b);
    r.append(c);
    r
}

/// Five texts, one after the other.
pub fn cat5(a: &str, b: &str, c: &str, d: &str, e: &str) -> (r: String)
    ensures
        r@ == a@ + b@ + c@ + d@ + e@,
{
    let mut r = cat3(a, b, c);
    r.append(d);
    r.append(e);
    r
}

} // verus!
