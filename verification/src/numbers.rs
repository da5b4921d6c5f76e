//! Numbers written in queries.
use vstd::prelude::*;

use crate::json::Json;
use crate::json::JsonFloat;
use crate::json::JsonNumber;
use crate::json::JsonView;
use crate::json::NumberView;
use crate::text::chars_of;

verus! {

/// Whether `c` is one of the ten decimal digits.
pub open spec fn is_digit(c: char) -> bool {
    '0' <= c <= '9'
}

/// Whether `s` consists of digits.
pub open spec fn all_digits(s: Seq<char>) -> bool {
    forall|i: int| 0 <= i < s.len() ==> is_digit(#[trigger] s[i])
}

/// The number that a run of digits stands for.
pub open spec fn digits_value(s: Seq<char>) -> int
    decreases s.len(),
{
    if s.len() == 0 {
        0
    } else {
        digits_value(s.drop_last()) * 10 + (s.last() as int - '0' as int)
    }
}

/// The integer that `s` is: digits, of which there is at least one, after an optional sign.
pub open spec fn integer_of(s: Seq<char>) -> Option<int> {
    let signed = s.len() > 0 && (s[0] == '+' || s[0] == '-');
    let digits = if signed {
        s.drop_first()
    } else {
        s
    };
    if digits.len() > 0 && all_digits(digits) {
        if signed && s[0] == '-' {
            Some(-digits_value(digits))
        } else {
            Some(digits_value(digits))
        }
    } else {
        None
    }
}

/// The integer that `s` is, if it is one and fits.
pub open spec fn i64_of(s: Seq<char>) -> Option<i64> {
    match integer_of(s) {
        Some(n) => if i64::MIN <= n <= i64::MAX {
            Some(n as i64)
        } else {
            None
        },
        None => None,
    }
}

proof fn lemma_digits_value_nonnegative(s: Seq<char>)
    requires
        all_digits(s),
    ensures
        digits_value(s) >= 0,
    decreases s.len(),
{
    if s.len() > 0 {
        assert(is_digit(s[s.len() - 1]));
        assert(all_digits(s.drop_last()));
        lemma_digits_value_nonnegative(s.drop_last());
    }
}

proof fn lemma_next_digit(digits: Seq<char>, k: int)
    requires
        0 <= k < digits.len(),
        all_digits(digits.take(k)),
        is_digit(digits[k]),
    ensures
        all_digits(digits.take(k + 1)),
        digits_value(digits.take(k + 1)) == digits_value(digits.take(k)) * 10 + (digits[k] as int
            - '0' as int),
        digits_value(digits.take(k)) >= 0,
{
    let longer = digits.take(k + 1);
    assert(longer.drop_last() =~= digits.take(k));
    assert forall|j: int| 0 <= j < longer.len() implies is_digit(#[trigger] longer[j]) by {
        if j < k {
            assert(digits.take(k)[j] == longer[j]);
        }
    }
    lemma_digits_value_nonnegative(digits.take(k));
}

/// One more than the largest magnitude of a negative `i64`.
const TOO_LARGE: u128 = 0x8000_0000_0000_0001;

/// The number that the digits from `start` on stand for, or [`TOO_LARGE`] where it is not
/// below; nothing where another character stands among them.
fn read_digits(chars: &Vec<char>, start: usize) -> (r: Option<u128>)
    requires
        start <= chars@.len(),
    ensures
        r is Some <==> all_digits(chars@.skip(start as int)),
        r matches Some(n) ==> n == if digits_value(chars@.skip(start as int)) < TOO_LARGE {
            digits_value(chars@.skip(start as int))
        } else {
            TOO_LARGE as int
        },
{
    let ghost digits = chars@.skip(start as int);
    let mut total: u128 = 0;
    let mut i: usize = start;
    while i < chars.len()
        invariant
            digits == chars@.skip(start as int),
            start <= i <= chars@.len(),
            all_digits(digits.take(i - start)),
            total == if digits_value(digits.take(i - start)) < TOO_LARGE {
                digits_value(digits.take(i - start))
            } else {
                TOO_LARGE as int
            },
        decreases chars@.len() - i,
    {
        let c = chars[i];
        proof {
            assert(digits[i - start] == c);
        }
        if c < '0' || c > '9' {
            proof {
                assert(!is_digit(digits[i - start]));
            }
            return None;
        }
        proof {
            lemma_next_digit(digits, i - start);
        }
        let digit: u128 = (c as u8 - 48u8) as u128;
        total = total * 10 + digit;
        if total > TOO_LARGE {
            total = TOO_LARGE;
        }
        i += 1;
    }
    proof {
        assert(digits.take(i - start) =~= digits);
    }
    Some(total)
}

/// Reads an integer: an optional sign and at least one digit.
pub fn parse_i64(s: &str) -> (r: Option<i64>)
    ensures
        r == i64_of(s@),
{
    let chars = chars_of(s);
    let signed: bool = chars.len() > 0 && (chars[0] == '+' || chars[0] == '-');
    let negative: bool = signed && chars[0] == '-';
    let start: usize = if signed {
        1
    } else {
        0
    };
    proof {
        assert(s@.skip(1) =~= s@.drop_first() || s@.len() == 0);
        assert(s@.skip(0) =~= s@);
    }
    if start == chars.len() {
        return None;
    }
    let Some(total) = read_digits(&chars, start) else {
        return None;
    };
    proof {
        lemma_digits_value_nonnegative(s@.skip(start as int));
    }
    if negative {
        if total < 0x8000_0000_0000_0000 {
            Some(-(total as i64))
        } else if total == 0x8000_0000_0000_0000 {
            Some(i64::MIN)
        } else {
            None
        }
    } else if total < 0x8000_0000_0000_0000 {
        Some(total as i64)
    } else {
        None
    }
}

/// The double that a text stands for: nothing where it is no number, and otherwise its bit
/// pattern and JSON text where it is finite.
pub uninterp spec fn parsed_double(text: Seq<char>) -> Option<Option<(u64, Seq<char>)>>;

/// What [`parse_double`] gives, as a value of the specification.
pub open spec fn double_view(r: Option<Option<JsonFloat>>) -> Option<Option<(u64, Seq<char>)>> {
    match r {
        Some(Some(f)) => Some(Some((f.bits, f.text@))),
        Some(None) => Some(None),
        None => None,
    }
}

/// `str::parse` reads a double, and `serde_json::Number::from_f64` makes a JSON number of it
/// where it is finite. The claim is that the outcome depends on the text alone.
#[verifier::external_body]
fn parse_double(text: &str) -> (r: Option<Option<JsonFloat>>)
    ensures
        double_view(r) == parsed_double(text@),
{
    match text.parse().map(serde_json::Number::from_f64) {
        Ok(Some(n)) => Some(Some(JsonFloat {
            bits: n.as_f64().unwrap_or_default().to_bits(),
            text: n.to_string(),
        })),
        Ok(None) => Some(None),
        Err(_) => None,
    }
}

/// The JSON number of an integer.
pub open spec fn integer_number(n: i64) -> NumberView {
    if n < 0 {
        NumberView::NegInt(n)
    } else {
        NumberView::PosInt(n as u64)
    }
}

/// The JSON value of a number in a query: an integer where it is one, else a double, for which
/// null stands where it is not finite.
pub open spec fn numeric_of(s: Seq<char>) -> Option<JsonView> {
    match i64_of(s) {
        Some(n) => Some(JsonView::Number(integer_number(n))),
        None => match parsed_double(s) {
            Some(Some((bits, text))) => Some(JsonView::Number(NumberView::Float(bits, text))),
            Some(None) => Some(JsonView::Null),
            None => None,
        },
    }
}

/// Reads a number in a query.
pub fn parse_numeric(s: &str) -> (r: Option<Json>)
    ensures
        match r {
            Some(v) => numeric_of(s@) == Some(v@),
            None => numeric_of(s@) is None,
        },
{
    if let Some(n) = parse_i64(s) {
        if n < 0 {
            return Some(Json::Number(JsonNumber::NegInt(n)));
        }
        return Some(Json::Number(JsonNumber::PosInt(n as u64)));
    }
    match parse_double(s) {
        Some(Some(f)) => Some(Json::Number(JsonNumber::Float(f))),
        Some(None) => Some(Json::Null),
        None => None,
    }
}

} // verus!
