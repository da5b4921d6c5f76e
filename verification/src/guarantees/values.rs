//! When JSON values are equal, and how they are written.
use vstd::prelude::*;

use crate::json::escaped;
use crate::json::escaped_char;
use crate::json::hex_digit;
use crate::json::json_eq;
use crate::json::quoted;
use crate::json::scalar_text;
use crate::json::JsonView;
use crate::json::NumberView;
use crate::numbers::all_digits;
use crate::numbers::digits_value;
use crate::numbers::integer_of;
use crate::numbers::is_digit;
use crate::text::decimal;

verus! {

/// Integers are equal where they are the same, fractions where their doubles are, which only the
/// two zeros are without having the same bits. An integer is equal to no fraction.
pub proof fn numbers_are_equal_by_value(a: u64, b: u64, m: i64, n: i64, s: Seq<char>, t: Seq<char>)
    ensures
        json_eq(
            JsonView::Number(NumberView::PosInt(a)),
            JsonView::Number(NumberView::PosInt(b)),
        ) <==> a == b,
        json_eq(
            JsonView::Number(NumberView::NegInt(m)),
            JsonView::Number(NumberView::NegInt(n)),
        ) <==> m == n,
        json_eq(
            JsonView::Number(NumberView::Float(a, s)),
            JsonView::Number(NumberView::Float(b, t)),
        ) <==> a == b || ((a == 0 || a == 0x8000_0000_0000_0000) && (b == 0 || b
            == 0x8000_0000_0000_0000)),
        !json_eq(
            JsonView::Number(NumberView::PosInt(a)),
            JsonView::Number(NumberView::Float(b, t)),
        ),
        !json_eq(
            JsonView::Number(NumberView::NegInt(m)),
            JsonView::Number(NumberView::Float(b, t)),
        ),
{
}

/// Arrays are equal where they have equal items in the same order, objects where they have members
/// of the same names with equal values. Values of different kinds are not equal.
pub proof fn containers_are_equal_by_their_parts(
    a: Seq<JsonView>,
    b: Seq<JsonView>,
    x: Seq<(Seq<char>, JsonView)>,
    y: Seq<(Seq<char>, JsonView)>,
)
    ensures
        json_eq(JsonView::Array(a), JsonView::Array(b)) <==> a.len() == b.len() && forall|i: int|
            0 <= i < a.len() ==> json_eq(#[trigger] a[i], b[i]),
        json_eq(JsonView::Object(x), JsonView::Object(y)) <==> x.len() == y.len() && forall|i: int|
            0 <= i < x.len() ==> (#[trigger] x[i]).0 == y[i].0 && json_eq(x[i].1, y[i].1),
        !json_eq(JsonView::Array(a), JsonView::Object(y)),
        !json_eq(JsonView::Object(x), JsonView::Array(b)),
        !json_eq(JsonView::Null, JsonView::Array(b)),
{
}

/// The number of a hexadecimal digit.
pub open spec fn digit_value(c: char) -> Option<int> {
    if '0' <= c <= '9' {
        Some(c as int - 48)
    } else if 'a' <= c <= 'f' {
        Some(c as int - 97 + 10)
    } else if 'A' <= c <= 'F' {
        Some(c as int - 65 + 10)
    } else {
        None
    }
}

/// The character that an escape stands for, and how many characters it takes.
pub open spec fn escape_at(s: Seq<char>) -> Option<(char, int)> {
    if s.len() < 2 || s[0] != '\\' {
        None
    } else if s[1] == '"' || s[1] == '\\' || s[1] == '/' {
        Some((s[1], 2))
    } else if s[1] == 'n' {
        Some(('\n', 2))
    } else if s[1] == 'r' {
        Some(('\r', 2))
    } else if s[1] == 't' {
        Some(('\t', 2))
    } else if s[1] == 'b' {
        Some(('\u{8}', 2))
    } else if s[1] == 'f' {
        Some(('\u{c}', 2))
    } else if s[1] == 'u' && s.len() >= 6 {
        match (digit_value(s[2]), digit_value(s[3]), digit_value(s[4]), digit_value(s[5])) {
            (Some(a), Some(b), Some(c), Some(d)) => {
                let code = a * 4096 + b * 256 + c * 16 + d;
                if code < 0xd800 || 0xe000 <= code {
                    Some((code as char, 6))
                } else {
                    None
                }
            },
            _ => None,
        }
    } else {
        None
    }
}

/// The text that stands between the quotes of a JSON string, if what stands there can.
pub open spec fn text_between_quotes(s: Seq<char>) -> Option<Seq<char>>
    decreases s.len(),
{
    if s.len() == 0 {
        Some(Seq::empty())
    } else if s[0] == '\\' {
        match escape_at(s) {
            Some((c, n)) => if 0 < n <= s.len() {
                match text_between_quotes(s.skip(n)) {
                    Some(rest) => Some(seq![c] + rest),
                    None => None,
                }
            } else {
                None
            },
            None => None,
        }
    } else if s[0] == '"' || (s[0] as int) < 0x20 {
        None
    } else {
        match text_between_quotes(s.skip(1)) {
            Some(rest) => Some(seq![s[0]] + rest),
            None => None,
        }
    }
}

proof fn lemma_control_code(c: char)
    requires
        (c as int) < 0x20,
    ensures
        digit_value(hex_digit((c as u32 / 16) as u32)) == Some((c as int) / 16),
        digit_value(hex_digit((c as u32 % 16) as u32)) == Some((c as int) % 16),
{
}

proof fn lemma_char_comes_back(c: char, rest: Seq<char>)
    requires
        text_between_quotes(rest) is Some,
    ensures
        text_between_quotes(escaped_char(c) + rest) == Some(
            seq![c] + text_between_quotes(rest)->0,
        ),
{
    let part = escaped_char(c);
    let whole = part + rest;
    if (c as int) < 0x20 {
        lemma_control_code(c);
    }
    assert(whole.skip(part.len() as int) =~= rest);
    assert(whole[0] == part[0]);
    if part.len() > 1 {
        assert(whole[1] == part[1]);
    }
    if part.len() == 6 {
        assert(whole[2] == '0' && whole[3] == '0');
        assert(whole[4] == part[4] && whole[5] == part[5]);
        let code = 0 * 4096 + 0 * 256 + (c as int) / 16 * 16 + (c as int) % 16;
        assert(code == c as int);
        assert(escape_at(whole) == Some((c, 6int)));
    } else if part.len() == 2 {
        assert(escape_at(whole) == Some((c, 2int)));
    }
}

/// A text that is written as a JSON string, between quotes and with escapes, is read as that text.
pub proof fn written_texts_come_back(text: Seq<char>)
    ensures
        quoted(text) == seq!['"'] + escaped(text) + seq!['"'],
        text_between_quotes(escaped(text)) == Some(text),
    decreases text.len(),
{
    if text.len() == 0 {
        assert(text =~= Seq::empty());
    } else {
        let rest = text.drop_first();
        written_texts_come_back(rest);
        lemma_char_comes_back(text[0], escaped(rest));
        assert(seq![text[0]] + rest =~= text);
    }
}

/// A text is written in quotes, a truth value by its word, an integer by its digits behind a sign
/// where it is negative, and null and containers are not written as one value.
pub proof fn values_are_written_by_kind(value: JsonView)
    ensures
        value matches JsonView::Text(s) ==> scalar_text(value) == Some(
            seq!['"'] + escaped(s) + seq!['"'],
        ),
        value == JsonView::Bool(true) ==> scalar_text(value) == Some("true"@),
        value == JsonView::Bool(false) ==> scalar_text(value) == Some("false"@),
        value matches JsonView::Number(NumberView::PosInt(n)) ==> scalar_text(value) == Some(
            crate::text::decimal(n as nat),
        ),
        value matches JsonView::Number(NumberView::NegInt(n)) ==> (n < 0 ==> scalar_text(value)
            == Some(seq!['-'] + crate::text::decimal((-n) as nat))),
        value is Null || value is Array || value is Object ==> scalar_text(value) is None,
{
}

/// The text of a natural number is read as that number.
pub proof fn written_numbers_come_back(n: nat)
    ensures
        integer_of(decimal(n)) == Some(n as int),
    decreases n,
{
    if n >= 10 {
        let rest = n / 10;
        written_numbers_come_back(rest);
        let text = decimal(n);
        assert(text.drop_last() =~= decimal(rest));
        assert(rest > 0);
        lemma_starts_with_digit(rest);
        assert(text[0] == decimal(rest)[0]);
        assert(is_digit(text.last()));
        assert forall|i: int| 0 <= i < text.len() implies is_digit(#[trigger] text[i]) by {
            if i < text.len() - 1 {
                assert(text[i] == decimal(rest)[i]);
            }
        }
        assert(digits_value(text) == digits_value(decimal(rest)) * 10 + n % 10);
    } else {
        let text = decimal(n);
        assert(text.drop_last() =~= Seq::<char>::empty());
        assert(digits_value(text.drop_last()) == 0);
        assert(all_digits(text));
    }
}

proof fn lemma_starts_with_digit(n: nat)
    ensures
        decimal(n).len() > 0,
        is_digit(decimal(n)[0]),
    decreases n,
{
    if n >= 10 {
        lemma_starts_with_digit(n / 10);
    }
}

} // verus!
