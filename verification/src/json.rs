//! JSON values as the library reads them.
use vstd::prelude::*;

use serde_json::Value;

use crate::doubles::double_from_signed;
use crate::doubles::double_from_unsigned;
use crate::doubles::double_of_integer;
use crate::doubles::double_rank;
use crate::doubles::rank_of_double;
use crate::text::decimal;
use crate::text::decimal_text;
use crate::text::text_eq;

verus! {

/// A JSON number: a non-negative integer, a negative integer, or a double.
#[derive(Debug)]
pub enum JsonNumber {
    PosInt(u64),
    NegInt(i64),
    Float(JsonFloat),
}

/// A finite double: its IEEE 754 bit pattern and its JSON text.
#[derive(Debug)]
pub struct JsonFloat {
    pub bits: u64,
    pub text: String,
}

/// A JSON value. An object lists its members in the order of their keys.
#[derive(Debug)]
pub enum Json {
    Null,
    Bool(bool),
    Number(JsonNumber),
    Text(String),
    Array(Vec<Json>),
    Object(Vec<(String, Json)>),
}

/// What a [`JsonNumber`] stands for.
pub ghost enum NumberView {
    PosInt(u64),
    NegInt(i64),
    Float(u64, Seq<char>),
}

/// What a [`Json`] value stands for.
pub ghost enum JsonView {
    Null,
    Bool(bool),
    Number(NumberView),
    Text(Seq<char>),
    Array(Seq<JsonView>),
    Object(Seq<(Seq<char>, JsonView)>),
}

impl View for JsonNumber {
    type V = NumberView;

    open spec fn view(&self) -> NumberView {
        match *self {
            JsonNumber::PosInt(n) => NumberView::PosInt(n),
            JsonNumber::NegInt(n) => NumberView::NegInt(n),
            JsonNumber::Float(f) => NumberView::Float(f.bits, f.text@),
        }
    }
}

pub open spec fn json_view(value: Json) -> JsonView
    decreases value,
{
    match value {
        Json::Null => JsonView::Null,
        Json::Bool(b) => JsonView::Bool(b),
        Json::Number(n) => JsonView::Number(n@),
        Json::Text(s) => JsonView::Text(s@),
        Json::Array(items) => JsonView::Array(
            Seq::new(
                items@.len(),
                |i: int|
                    if 0 <= i < items@.len() {
                        json_view(items@[i])
                    } else {
                        JsonView::Null
                    },
            ),
        ),
        Json::Object(members) => JsonView::Object(
            Seq::new(
                members@.len(),
                |i: int|
                    if 0 <= i < members@.len() {
                        (members@[i].0@, json_view(members@[i].1))
                    } else {
                        (Seq::empty(), JsonView::Null)
                    },
            ),
        ),
    }
}

impl View for Json {
    type V = JsonView;

    open spec fn view(&self) -> JsonView {
        json_view(*self)
    }
}

impl Json {
    /// A copy of the value.
    pub fn copy(&self) -> (r: Json)
        ensures
            r@ == self@,
        decreases self,
    {
        match self {
            Json::Null => Json::Null,
            Json::Bool(b) => Json::Bool(*b),
            Json::Number(n) => Json::Number(n.copy()),
            Json::Text(s) => Json::Text(s.clone()),
            Json::Array(items) => {
                let mut copies: Vec<Json> = Vec::new();
                let mut i: usize = 0;
                while i < items.len()
                    invariant
                        i <= items@.len(),
                        copies@.len() == i,
                        *self == Json::Array(*items),
                        forall|j: int| 0 <= j < i ==> (#[trigger] copies@[j])@ == items@[j]@,
                    decreases items@.len() - i,
                {
                    proof {
                        assert(decreases_to!(self => self->Array_0));
                        assert(decreases_to!(items => items@));
                        assert(decreases_to!(items@ => items@[i as int]));
                        assert(decreases_to!(self => items@[i as int]));
                    }
                    let c = items[i].copy();
                    copies.push(c);
                    i += 1;
                }
                let r = Json::Array(copies);
                proof {
                    assert(r@->Array_0 =~= self@->Array_0);
                }
                r
            },
            Json::Object(members) => {
                let mut copies: Vec<(String, Json)> = Vec::new();
                let mut i: usize = 0;
                while i < members.len()
                    invariant
                        i <= members@.len(),
                        copies@.len() == i,
                        *self == Json::Object(*members),
                        forall|j: int|
                            0 <= j < i ==> (#[trigger] copies@[j]).0@ == members@[j].0@
                                && copies@[j].1@ == members@[j].1@,
                    decreases members@.len() - i,
                {
                    proof {
                        assert(decreases_to!(self => self->Object_0));
                        assert(decreases_to!(members => members@));
                        assert(decreases_to!(members@ => members@[i as int]));
                        assert(decreases_to!(self => members@[i as int].1));
                        assert(decreases_to!(members@[i as int] => members@[i as int].1));
                    }
                    let c = members[i].1.copy();
                    copies.push((members[i].0.clone(), c));
                    i += 1;
                }
                let r = Json::Object(copies);
                proof {
                    assert(r@->Object_0 =~= self@->Object_0);
                }
                r
            },
        }
    }
}

impl JsonNumber {
    /// A copy of the number.
    pub fn copy(&self) -> (r: JsonNumber)
        ensures
            r@ == self@,
    {
        match self {
            JsonNumber::PosInt(n) => JsonNumber::PosInt(*n),
            JsonNumber::NegInt(n) => JsonNumber::NegInt(*n),
            JsonNumber::Float(f) => JsonNumber::Float(
                JsonFloat { bits: f.bits, text: f.text.clone() },
            ),
        }
    }
}

/// The bit pattern of the double nearest to a number.
pub open spec fn number_double(n: NumberView) -> u64 {
    match n {
        NumberView::PosInt(n) => double_of_integer(n as int) as u64,
        NumberView::NegInt(n) => double_of_integer(n as int) as u64,
        NumberView::Float(bits, _) => bits,
    }
}

/// Whether two numbers are equal. Integers and doubles never are.
pub open spec fn number_eq(a: NumberView, b: NumberView) -> bool {
    match (a, b) {
        (NumberView::PosInt(m), NumberView::PosInt(n)) => m == n,
        (NumberView::NegInt(m), NumberView::NegInt(n)) => m == n,
        (NumberView::Float(m, _), NumberView::Float(n, _)) => double_rank(m) == double_rank(n),
        _ => false,
    }
}

/// The value of the first member of that name.
pub open spec fn find_member(members: Seq<(Seq<char>, JsonView)>, key: Seq<char>) -> Option<
    JsonView,
>
    decreases members.len(),
{
    if members.len() == 0 {
        None
    } else if members[0].0 == key {
        Some(members[0].1)
    } else {
        find_member(members.drop_first(), key)
    }
}

impl NumberView {
    pub open spec fn as_i64(self) -> Option<i64> {
        match self {
            NumberView::PosInt(n) => if n <= i64::MAX {
                Some(n as i64)
            } else {
                None
            },
            NumberView::NegInt(n) => Some(n),
            NumberView::Float(_, _) => None,
        }
    }
}

impl JsonView {
    /// The member of that name, if this is an object that has one.
    pub open spec fn member(self, key: Seq<char>) -> Option<JsonView> {
        match self {
            JsonView::Object(members) => find_member(members, key),
            _ => None,
        }
    }

    pub open spec fn as_str(self) -> Option<Seq<char>> {
        match self {
            JsonView::Text(s) => Some(s),
            _ => None,
        }
    }

    pub open spec fn as_bool(self) -> Option<bool> {
        match self {
            JsonView::Bool(b) => Some(b),
            _ => None,
        }
    }

    pub open spec fn as_i64(self) -> Option<i64> {
        match self {
            JsonView::Number(n) => n.as_i64(),
            _ => None,
        }
    }

    pub open spec fn as_u64(self) -> Option<u64> {
        match self {
            JsonView::Number(NumberView::PosInt(n)) => Some(n),
            _ => None,
        }
    }

    /// The bit pattern of the number's double.
    pub open spec fn as_double(self) -> Option<u64> {
        match self {
            JsonView::Number(n) => Some(number_double(n)),
            _ => None,
        }
    }
}

/// The text of the member of that name, if there is one and it is a string.
pub open spec fn text_member(value: JsonView, key: Seq<char>) -> Option<Seq<char>> {
    match value.member(key) {
        Some(v) => v.as_str(),
        None => None,
    }
}

/// The view of the members of an object.
pub open spec fn member_views(members: Seq<(String, Json)>) -> Seq<(Seq<char>, JsonView)> {
    Seq::new(members.len(), |i: int| (members[i].0@, members[i].1@))
}

/// The views of a list of values.
pub open spec fn json_views(values: Seq<Json>) -> Seq<JsonView> {
    Seq::new(values.len(), |i: int| values[i]@)
}

/// The view of an array lists the views of its items.
pub broadcast proof fn lemma_array_view(items: Vec<Json>)
    ensures
        #[trigger] json_view(Json::Array(items)) == JsonView::Array(json_views(items@)),
{
    assert(json_view(Json::Array(items))->Array_0 =~= json_views(items@));
}

/// The view of an object lists the views of its members.
pub broadcast proof fn lemma_object_view(members: Vec<(String, Json)>)
    ensures
        #[trigger] json_view(Json::Object(members)) == JsonView::Object(member_views(members@)),
{
    assert(json_view(Json::Object(members))->Object_0 =~= member_views(members@));
}

impl Json {
    /// The member of that name, if this is an object that has one.
    pub fn get(&self, key: &str) -> (r: Option<&Json>)
        ensures
            match r {
                Some(v) => self@.member(key@) == Some(v@),
                None => self@.member(key@) is None,
            },
    {
        broadcast use lemma_object_view;

        match self {
            Json::Object(members) => {
                let ghost all = member_views(members@);
                let mut i: usize = 0;
                proof {
                    assert(all.skip(0) =~= all);
                }
                while i < members.len()
                    invariant
                        i <= members@.len(),
                        all == member_views(members@),
                        self@ == JsonView::Object(all),
                        find_member(all, key@) == find_member(all.skip(i as int), key@),
                    decreases members@.len() - i,
                {
                    proof {
                        assert(all.skip(i as int)[0] == all[i as int]);
                        assert(all.skip(i as int).drop_first() =~= all.skip(i + 1));
                    }
                    if text_eq(members[i].0.as_str(), key) {
                        return Some(&members[i].1);
                    }
                    i += 1;
                }
                None
            },
            _ => None,
        }
    }

    /// The text of a string.
    pub fn as_str(&self) -> (r: Option<&str>)
        ensures
            match r {
                Some(s) => self@.as_str() == Some(s@),
                None => self@.as_str() is None,
            },
    {
        match self {
            Json::Text(s) => Some(s.as_str()),
            _ => None,
        }
    }

    /// The value of a boolean.
    pub fn as_bool(&self) -> (r: Option<bool>)
        ensures
            r == self@.as_bool(),
    {
        match self {
            Json::Bool(b) => Some(*b),
            _ => None,
        }
    }

    /// The value of an integer that fits.
    pub fn as_i64(&self) -> (r: Option<i64>)
        ensures
            r == self@.as_i64(),
    {
        match self {
            Json::Number(JsonNumber::PosInt(n)) => if *n <= 0x7fff_ffff_ffff_ffff {
                Some(*n as i64)
            } else {
                None
            },
            Json::Number(JsonNumber::NegInt(n)) => Some(*n),
            _ => None,
        }
    }

    /// The value of a non-negative integer.
    pub fn as_u64(&self) -> (r: Option<u64>)
        ensures
            r == self@.as_u64(),
    {
        match self {
            Json::Number(JsonNumber::PosInt(n)) => Some(*n),
            _ => None,
        }
    }

    /// The bit pattern of the double nearest to a number.
    pub fn as_double(&self) -> (r: Option<u64>)
        ensures
            r == self@.as_double(),
    {
        match self {
            Json::Number(JsonNumber::PosInt(n)) => Some(double_from_unsigned(*n)),
            Json::Number(JsonNumber::NegInt(n)) => Some(double_from_signed(*n)),
            Json::Number(JsonNumber::Float(f)) => Some(f.bits),
            _ => None,
        }
    }

    /// The text of the member of that name, if there is one and it is a string.
    pub fn text_of(&self, key: &str) -> (r: Option<&str>)
        ensures
            match r {
                Some(s) => text_member(self@, key@) == Some(s@),
                None => text_member(self@, key@) is None,
            },
    {
        match self.get(key) {
            Some(v) => v.as_str(),
            None => None,
        }
    }

    /// Whether this is the null value.
    pub fn is_null(&self) -> (r: bool)
        ensures
            r == (self@ is Null),
    {
        matches!(self, Json::Null)
    }
}

/// Whether two values are equal: like structure, equal numbers, the same texts.
pub open spec fn json_eq(a: JsonView, b: JsonView) -> bool
    decreases a,
{
    match (a, b) {
        (JsonView::Null, JsonView::Null) => true,
        (JsonView::Bool(x), JsonView::Bool(y)) => x == y,
        (JsonView::Number(x), JsonView::Number(y)) => number_eq(x, y),
        (JsonView::Text(x), JsonView::Text(y)) => x == y,
        (JsonView::Array(x), JsonView::Array(y)) => x.len() == y.len() && forall|i: int|
            0 <= i < x.len() ==> json_eq(#[trigger] x[i], y[i]),
        (JsonView::Object(x), JsonView::Object(y)) => x.len() == y.len() && forall|i: int|
            0 <= i < x.len() ==> (#[trigger] x[i]).0 == y[i].0 && json_eq(x[i].1, y[i].1),
        _ => false,
    }
}

/// Whether two values are equal.
pub fn same_json(a: &Json, b: &Json) -> (r: bool)
    ensures
        r == json_eq(a@, b@),
    decreases a,
{
    broadcast use {lemma_array_view, lemma_object_view};

    match (a, b) {
        (Json::Null, Json::Null) => true,
        (Json::Bool(x), Json::Bool(y)) => *x == *y,
        (Json::Number(x), Json::Number(y)) => match (x, y) {
            (JsonNumber::PosInt(m), JsonNumber::PosInt(n)) => *m == *n,
            (JsonNumber::NegInt(m), JsonNumber::NegInt(n)) => *m == *n,
            (JsonNumber::Float(m), JsonNumber::Float(n)) => rank_of_double(m.bits)
                == rank_of_double(n.bits),
            _ => false,
        },
        (Json::Text(x), Json::Text(y)) => text_eq(x.as_str(), y.as_str()),
        (Json::Array(x), Json::Array(y)) => {
            if x.len() != y.len() {
                return false;
            }
            let ghost va = json_views(x@);
            let ghost vb = json_views(y@);
            let mut i: usize = 0;
            while i < x.len()
                invariant
                    x@.len() == y@.len(),
                    i <= x@.len(),
                    *a == Json::Array(*x),
                    a@ == JsonView::Array(va),
                    b@ == JsonView::Array(vb),
                    va == json_views(x@),
                    vb == json_views(y@),
                    forall|j: int| 0 <= j < i ==> json_eq(#[trigger] va[j], vb[j]),
                decreases x@.len() - i,
            {
                proof {
                    assert(decreases_to!(a => a->Array_0));
                    assert(decreases_to!(x => x@));
                    assert(decreases_to!(x@ => x@[i as int]));
                    assert(decreases_to!(a => x@[i as int]));
                    assert(va[i as int] == x@[i as int]@ && vb[i as int] == y@[i as int]@);
                }
                if !same_json(&x[i], &y[i]) {
                    return false;
                }
                i += 1;
            }
            true
        },
        (Json::Object(x), Json::Object(y)) => {
            if x.len() != y.len() {
                return false;
            }
            let ghost va = member_views(x@);
            let ghost vb = member_views(y@);
            let mut i: usize = 0;
            while i < x.len()
                invariant
                    x@.len() == y@.len(),
                    i <= x@.len(),
                    *a == Json::Object(*x),
                    a@ == JsonView::Object(va),
                    b@ == JsonView::Object(vb),
                    va == member_views(x@),
                    vb == member_views(y@),
                    forall|j: int|
                        0 <= j < i ==> (#[trigger] va[j]).0 == vb[j].0 && json_eq(va[j].1, vb[j].1),
                decreases x@.len() - i,
            {
                proof {
                    assert(decreases_to!(a => a->Object_0));
                    assert(decreases_to!(x => x@));
                    assert(decreases_to!(x@ => x@[i as int]));
                    assert(decreases_to!(x@[i as int] => x@[i as int].1));
                    assert(decreases_to!(a => x@[i as int].1));
                    assert(va[i as int] == (x@[i as int].0@, x@[i as int].1@));
                    assert(vb[i as int] == (y@[i as int].0@, y@[i as int].1@));
                }
                if !text_eq(x[i].0.as_str(), y[i].0.as_str()) || !same_json(&x[i].1, &y[i].1) {
                    return false;
                }
                i += 1;
            }
            true
        },
        _ => false,
    }
}

/// A hexadecimal digit.
pub open spec fn hex_digit(n: u32) -> char {
    if n < 10 {
        (0x30 + n) as char
    } else {
        (0x57 + n) as char
    }
}

/// How a character is written in a JSON string: a quote, a backslash or a control character with a
/// backslash.
pub open spec fn escaped_char(c: char) -> Seq<char> {
    if c == '"' || c == '\\' {
        seq!['\\', c]
    } else if c == '\n' {
        seq!['\\', 'n']
    } else if c == '\r' {
        seq!['\\', 'r']
    } else if c == '\t' {
        seq!['\\', 't']
    } else if c == '\u{8}' {
        seq!['\\', 'b']
    } else if c == '\u{c}' {
        seq!['\\', 'f']
    } else if (c as u32) < 0x20 {
        seq!['\\', 'u', '0', '0', hex_digit(c as u32 / 16), hex_digit(c as u32 % 16)]
    } else {
        seq![c]
    }
}

/// How a text is written in a JSON string.
pub open spec fn escaped(text: Seq<char>) -> Seq<char>
    decreases text.len(),
{
    if text.len() == 0 {
        Seq::empty()
    } else {
        escaped_char(text[0]) + escaped(text.drop_first())
    }
}

/// The JSON text of a string: in quotes, with escapes.
pub open spec fn quoted(text: Seq<char>) -> Seq<char> {
    seq!['"'] + escaped(text) + seq!['"']
}

proof fn lemma_hex_digit(n: u32)
    requires
        n < 16,
    ensures
        hex_digit(n) as u32 == if n < 10 {
            0x30 + n
        } else {
            0x57 + n
        },
{
}

proof fn lemma_same_code(c: char, d: char)
    requires
        c as u32 == d as u32,
    ensures
        c == d,
{
}

/// Escaping a text leaves no character out.
proof fn lemma_escaped_length(a: Seq<char>)
    ensures
        escaped(a).len() >= a.len(),
    decreases a.len(),
{
    if a.len() > 0 {
        lemma_escaped_length(a.drop_first());
        assert(escaped_char(a[0]).len() >= 1);
        assert(escaped(a).len() == escaped_char(a[0]).len() + escaped(a.drop_first()).len());
    }
}

proof fn lemma_escaped_apart(a: Seq<char>, b: Seq<char>)
    requires
        escaped(a) == escaped(b),
    ensures
        a == b,
    decreases a.len(),
{
    if a.len() == 0 || b.len() == 0 {
        lemma_escaped_length(a);
        lemma_escaped_length(b);
        assert(a =~= b);
    } else {
        let (c, d) = (a[0], b[0]);
        let (x, y) = (escaped(a.drop_first()), escaped(b.drop_first()));
        let (p, q) = (escaped_char(c), escaped_char(d));
        assert(p[0] == (p + x)[0] && q[0] == (q + y)[0]);
        if p.len() > 1 {
            assert(p[1] == (p + x)[1] && q[1] == (q + y)[1]);
        }
        if p.len() > 2 {
            assert(p[4] == (p + x)[4] && q[4] == (q + y)[4]);
            assert(p[5] == (p + x)[5] && q[5] == (q + y)[5]);
        }
        if p.len() > 2 {
            lemma_hex_digit(c as u32 / 16);
            lemma_hex_digit(c as u32 % 16);
            lemma_hex_digit(d as u32 / 16);
            lemma_hex_digit(d as u32 % 16);
            lemma_same_code(c, d);
        }
        assert(c == d);
        assert(x =~= (p + x).skip(p.len() as int));
        assert(y =~= (q + y).skip(q.len() as int));
        lemma_escaped_apart(a.drop_first(), b.drop_first());
        assert(a =~= seq![c] + a.drop_first());
        assert(b =~= seq![d] + b.drop_first());
    }
}

/// Two strings have the same JSON text only if they are the same.
pub proof fn quoted_texts_stay_apart(a: Seq<char>, b: Seq<char>)
    requires
        quoted(a) == quoted(b),
    ensures
        a == b,
{
    assert(escaped(a) =~= quoted(a).subrange(1, quoted(a).len() - 1));
    assert(escaped(b) =~= quoted(b).subrange(1, quoted(b).len() - 1));
    lemma_escaped_apart(a, b);
}

/// `serde_json::Value::to_string` writes a string as JSON, with the short escapes where there are
/// any.
#[verifier::external_body]
fn quote(text: &str) -> (r: String)
    ensures
        r@ == quoted(text@),
{
    Value::from(text).to_string()
}

/// The JSON text of a value that is neither null nor a container.
pub open spec fn scalar_text(value: JsonView) -> Option<Seq<char>> {
    match value {
        JsonView::Text(s) => Some(quoted(s)),
        JsonView::Bool(b) => Some(
            if b {
                "true"@
            } else {
                "false"@
            },
        ),
        JsonView::Number(NumberView::PosInt(n)) => Some(decimal(n as nat)),
        JsonView::Number(NumberView::NegInt(n)) => Some(
            if n < 0 {
                seq!['-'] + decimal((-n) as nat)
            } else {
                decimal(n as nat)
            },
        ),
        JsonView::Number(NumberView::Float(_, text)) => Some(text),
        _ => None,
    }
}

impl Json {
    /// The JSON text of a value that is neither null nor a container.
    pub fn scalar_text(&self) -> (r: Option<String>)
        ensures
            match r {
                Some(s) => scalar_text(self@) == Some(s@),
                None => scalar_text(self@) is None,
            },
    {
        match self {
            Json::Text(s) => Some(quote(s.as_str())),
            Json::Bool(b) => if *b {
                Some("true".to_owned())
            } else {
                Some("false".to_owned())
            },
            Json::Number(JsonNumber::PosInt(n)) => Some(decimal_text(*n)),
            Json::Number(JsonNumber::NegInt(n)) => {
                if *n >= 0 {
                    return Some(decimal_text(*n as u64));
                }
                let magnitude: u64 = if *n == i64::MIN {
                    0x8000_0000_0000_0000
                } else {
                    (-*n) as u64
                };
                let mut text = String::new();
                text.push('-');
                text.append(decimal_text(magnitude).as_str());
                proof {
                    assert(text@ =~= seq!['-'] + decimal(magnitude as nat));
                }
                Some(text)
            },
            Json::Number(JsonNumber::Float(f)) => Some(f.text.clone()),
            _ => None,
        }
    }
}

/// A parsed JSON value of `serde_json`.
#[verifier::external_type_specification]
#[verifier::external_body]
#[derive(Debug)]
pub struct ExValue(serde_json::Value);

/// Why a text was not parsed.
#[verifier::external_type_specification]
#[verifier::external_body]
#[derive(Debug)]
pub struct ExJsonError(serde_json::Error);

/// What a parsed value holds.
pub uninterp spec fn value_contents(value: Value) -> JsonView;

/// What the JSON text `text` stands for, if it is one.
pub uninterp spec fn parsed_json(text: Seq<char>) -> Option<JsonView>;

/// `serde_json::from_str` parses a text. The claim is that whether it is JSON, and what it
/// stands for, depends on the text alone.
#[verifier::external_body]
fn parse_value(text: &str) -> (r: Result<Value, serde_json::Error>)
    ensures
        match r {
            Ok(value) => parsed_json(text@) == Some(value_contents(value)),
            Err(_) => parsed_json(text@) is None,
        },
{
    serde_json::from_str(text)
}

/// Moves a `serde_json::Value` into a [`Json`], part by part.
#[verifier::external_body]
fn json_of(value: Value) -> (r: Json)
    ensures
        r@ == value_contents(value),
{
    match value {
        Value::Bool(b) => Json::Bool(b),
        Value::Number(n) => Json::Number(match (n.as_u64(), n.as_i64()) {
            (Some(u), _) => JsonNumber::PosInt(u),
            (_, Some(i)) => JsonNumber::NegInt(i),
            _ => JsonNumber::Float(JsonFloat {
                bits: n.as_f64().unwrap_or_default().to_bits(),
                text: n.to_string()
            })
        }),
        Value::String(s) => Json::Text(s),
        Value::Array(a) => Json::Array(a.into_iter().map(json_of).collect()),
        Value::Object(m) => Json::Object(m.into_iter().map(|(k, v)| (k, json_of(v))).collect()),
        _ => Json::Null
    }
}

/// The value that a JSON text stands for, if it is one.
pub fn parse_json(text: &str) -> (r: Option<Json>)
    ensures
        match r {
            Some(v) => parsed_json(text@) == Some(v@),
            None => parsed_json(text@) is None,
        },
{
    match parse_value(text) {
        Ok(value) => Some(json_of(value)),
        Err(_) => None,
    }
}

} // verus!
