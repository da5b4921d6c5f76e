//! Reading the values of a column back.
use vstd::bytes::lemma_auto_spec_u32_to_from_le_bytes;
use vstd::bytes::lemma_auto_spec_u64_to_from_le_bytes;
use vstd::bytes::spec_u32_from_le_bytes;
use vstd::bytes::spec_u32_to_le_bytes;
use vstd::bytes::spec_u64_from_le_bytes;
use vstd::bytes::spec_u64_to_le_bytes;
use vstd::bytes::u32_from_le_bytes;
use vstd::bytes::u64_from_le_bytes;
use vstd::prelude::*;
use vstd::slice::slice_subrange;
use vstd::utf8::decode_utf8;
use vstd::utf8::encode_utf8;
use vstd::utf8::encode_utf8_decode_utf8;
use vstd::utf8::encode_utf8_valid_utf8;
use vstd::utf8::valid_utf8;

use crate::doc_values::are_packed_bits;
use crate::doc_values::booleans_in;
use crate::doc_values::doubles_in;
use crate::doc_values::has_bit;
use crate::doc_values::integer_words;
use crate::doc_values::integers_in;
use crate::doc_values::is_column;
use crate::doc_values::keyword_data;
use crate::doc_values::keyword_offset;
use crate::doc_values::keyword_pool;
use crate::doc_values::keywords_fit;
use crate::doc_values::offset_table;
use crate::doc_values::packed_words;
use crate::doc_values::DocValueType;
use crate::doc_values::DocValuesField;
use crate::json::text_member;
use crate::json::JsonView;
use crate::map::StringMap;

verus! {

/// The words of eight bytes in `data`.
pub open spec fn words_in(data: Seq<u8>) -> Seq<u64> {
    Seq::new(
        data.len() / 8,
        |i: int| spec_u64_from_le_bytes(data.subrange(i * 8, i * 8 + 8)),
    )
}

/// The words of a column, if it holds one for each document.
pub open spec fn column_words(column: DocValuesField) -> Option<Seq<u64>> {
    if column.data@.len() == column.doc_count * 8 {
        Some(words_in(column.data@))
    } else {
        None
    }
}

/// The integers of a column: nothing where it is of another type or of another length.
pub open spec fn column_integers(column: DocValuesField) -> Option<Seq<i64>> {
    match column.value_type {
        DocValueType::Integer | DocValueType::Long | DocValueType::Timestamp => match column_words(
            column,
        ) {
            Some(words) => Some(Seq::new(words.len(), |i: int| words[i] as i64)),
            None => None,
        },
        _ => None,
    }
}

/// The bit patterns of the doubles of a column: nothing where it is of another type or of
/// another length.
pub open spec fn column_doubles(column: DocValuesField) -> Option<Seq<u64>> {
    match column.value_type {
        DocValueType::Double => column_words(column),
        _ => None,
    }
}

/// The booleans of a column: nothing where it is of another type or too short.
pub open spec fn column_booleans(column: DocValuesField) -> Option<Seq<bool>> {
    if column.value_type == DocValueType::Boolean && (column.doc_count + 7) / 8
        <= column.data@.len() {
        Some(
            Seq::new(
                column.doc_count as nat,
                |i: int| has_bit(column.data@[i / 8], i % 8),
            ),
        )
    } else {
        None
    }
}

/// The offset of document `i`.
pub open spec fn offset_at(data: Seq<u8>, i: int) -> u32 {
    spec_u32_from_le_bytes(data.subrange(i * 4, i * 4 + 4))
}

/// The first offset from document `i` on that is not zero, or the end of the pool.
pub open spec fn next_offset(data: Seq<u8>, count: int, i: int) -> int
    decreases count - i,
{
    if i >= count {
        data.len() - count * 4
    } else if offset_at(data, i) != 0 {
        offset_at(data, i) as int
    } else {
        next_offset(data, count, i + 1)
    }
}

/// The text of document `i`: it goes from its offset to that of the next document with a text.
/// An offset of zero stands for the empty text, as do bytes that are no text. Nothing where the
/// offsets do not lie within the pool or do not ascend.
pub open spec fn keyword_at(data: Seq<u8>, count: int, i: int) -> Option<Seq<char>> {
    let pool = data.skip(count * 4);
    let start = offset_at(data, i) as int;
    let end = next_offset(data, count, i + 1);
    if start == 0 {
        Some(Seq::empty())
    } else if start <= end <= pool.len() {
        let bytes = pool.subrange(start, end);
        Some(
            if valid_utf8(bytes) {
                decode_utf8(bytes)
            } else {
                Seq::empty()
            },
        )
    } else {
        None
    }
}

/// The texts of a column: nothing where it is of another type, too short, or where one of the
/// texts cannot be read.
pub open spec fn column_keywords(column: DocValuesField) -> Option<Seq<Seq<char>>> {
    let count = column.doc_count as int;
    if column.value_type == DocValueType::Keyword && count * 4 <= column.data@.len() && (forall|
        i: int,
    |
        0 <= i < count ==> #[trigger] keyword_at(column.data@, count, i) is Some) {
        Some(Seq::new(count as nat, |i: int| keyword_at(column.data@, count, i)->0))
    } else {
        None
    }
}

/// The columns of a segment.
#[derive(Debug)]
pub struct DocValuesReader {
    fields: StringMap<DocValuesField>,
}

impl View for DocValuesReader {
    type V = Map<Seq<char>, DocValuesField>;

    closed spec fn view(&self) -> Map<Seq<char>, DocValuesField> {
        self.fields@
    }
}

/// The views of a list of string slices.
pub open spec fn str_views(list: Seq<&str>) -> Seq<Seq<char>> {
    Seq::new(list.len(), |i: int| list[i]@)
}

/// `std::str::from_utf8` gives the text whose UTF-8 encoding the bytes are, if they are one.
#[verifier::external_body]
fn text_of_bytes(bytes: &[u8]) -> (r: Option<&str>)
    ensures
        r is Some <==> valid_utf8(bytes@),
        r matches Some(s) ==> encode_utf8(s@) == bytes@,
{
    std::str::from_utf8(bytes).ok()
}

/// The words of eight bytes in `data`.
fn read_words(data: &Vec<u8>) -> (r: Vec<u64>)
    requires
        data@.len() % 8 == 0,
    ensures
        r@ == words_in(data@),
{
    let mut r: Vec<u64> = Vec::new();
    let mut at: usize = 0;
    while at < data.len()
        invariant
            at <= data@.len(),
            data@.len() % 8 == 0,
            at == r@.len() * 8,
            forall|i: int|
                0 <= i < r@.len() ==> #[trigger] r@[i] == spec_u64_from_le_bytes(
                    data@.subrange(i * 8, i * 8 + 8),
                ),
        decreases data@.len() - at,
    {
        r.push(u64_from_le_bytes(slice_subrange(data.as_slice(), at, at + 8)));
        at += 8;
    }
    proof {
        assert(r@ =~= words_in(data@));
    }
    r
}

impl DocValuesReader {
    /// The keys and columns, in the order of the keys.
    pub closed spec fn pairs(&self) -> Seq<(Seq<char>, DocValuesField)> {
        self.fields.pairs()
    }

    /// A reader of the columns.
    pub fn new(fields: StringMap<DocValuesField>) -> (r: DocValuesReader)
        ensures
            r@ == fields@,
            r.pairs() == fields.pairs(),
    {
        DocValuesReader { fields }
    }

    /// The names of the fields that have a column, in their order.
    pub fn fields(&self) -> (r: Vec<&str>)
        ensures
            str_views(r@) == Seq::new(self.pairs().len(), |i: int| self.pairs()[i].0),
            crate::map::keys_ascend(self.pairs()),
            self@ == crate::map::map_of_pairs(self.pairs()),
    {
        let count: usize = self.fields.len();
        let mut r: Vec<&str> = Vec::new();
        let mut i: usize = 0;
        while i < count
            invariant
                i <= count,
                count == self.pairs().len(),
                r@.len() == i,
                forall|j: int| 0 <= j < i ==> (#[trigger] r@[j])@ == self.pairs()[j].0,
            decreases count - i,
        {
            r.push(self.fields.key_at(i).as_str());
            i += 1;
        }
        proof {
            assert(str_views(r@) =~= Seq::new(self.pairs().len(), |i: int| self.pairs()[i].0));
        }
        r
    }

    /// How many documents the first column has, or zero where there is none.
    pub fn doc_count(&self) -> (r: u64)
        ensures
            r == if self.pairs().len() > 0 {
                self.pairs()[0].1.doc_count
            } else {
                0
            },
    {
        if self.fields.len() > 0 {
            self.fields.value_at(0).doc_count
        } else {
            0
        }
    }

    /// The integers in a field with integers or timestamps.
    pub fn i64_values(&self, field: &str) -> (r: Option<Vec<i64>>)
        ensures
            match r {
                Some(values) => self@.contains_key(field@) && column_integers(self@[field@]) == Some(
                    values@,
                ),
                None => !self@.contains_key(field@) || column_integers(self@[field@]) is None,
            },
    {
        let Some(column) = self.fields.get(field) else {
            return None;
        };
        match column.value_type {
            DocValueType::Integer | DocValueType::Long | DocValueType::Timestamp => {},
            _ => {
                return None;
            },
        }
        if column.data.len() % 8 != 0 || (column.data.len() / 8) as u64 != column.doc_count {
            return None;
        }
        let words = read_words(&column.data);
        let mut values: Vec<i64> = Vec::new();
        let mut i: usize = 0;
        while i < words.len()
            invariant
                i <= words@.len(),
                values@.len() == i,
                forall|j: int| 0 <= j < i ==> #[trigger] values@[j] == words@[j] as i64,
            decreases words@.len() - i,
        {
            values.push(words[i] as i64);
            i += 1;
        }
        proof {
            assert(values@ =~= column_integers(*column)->0);
        }
        Some(values)
    }

    /// The bit patterns of the doubles in a field with doubles.
    pub fn f64_values(&self, field: &str) -> (r: Option<Vec<u64>>)
        ensures
            match r {
                Some(values) => self@.contains_key(field@) && column_doubles(self@[field@]) == Some(
                    values@,
                ),
                None => !self@.contains_key(field@) || column_doubles(self@[field@]) is None,
            },
    {
        let Some(column) = self.fields.get(field) else {
            return None;
        };
        if column.value_type != DocValueType::Double {
            return None;
        }
        if column.data.len() % 8 != 0 || (column.data.len() / 8) as u64 != column.doc_count {
            return None;
        }
        Some(read_words(&column.data))
    }

    /// The booleans in a field with booleans.
    pub fn bool_values(&self, field: &str) -> (r: Option<Vec<bool>>)
        ensures
            match r {
                Some(values) => self@.contains_key(field@) && column_booleans(self@[field@])
                    == Some(values@),
                None => !self@.contains_key(field@) || column_booleans(self@[field@]) is None,
            },
    {
        let Some(column) = self.fields.get(field) else {
            return None;
        };
        if column.value_type != DocValueType::Boolean {
            return None;
        }
        let whole: u64 = column.doc_count / 8;
        let required: u64 = if column.doc_count % 8 == 0 {
            whole
        } else {
            whole + 1
        };
        let length: usize = column.data.len();
        if required > length as u64 {
            return None;
        }
        let mut values: Vec<bool> = Vec::new();
        let mut i: u64 = 0;
        while i < column.doc_count
            invariant
                i <= column.doc_count,
                length == column.data@.len(),
                (column.doc_count + 7) / 8 <= length,
                values@.len() == i,
                forall|j: int|
                    0 <= j < i ==> #[trigger] values@[j] == has_bit(column.data@[j / 8], j % 8),
            decreases column.doc_count - i,
        {
            let byte: u8 = column.data[(i / 8) as usize];
            let bit: u8 = (i % 8) as u8;
            let shifted: u8 = byte >> bit;
            proof {
                assert(shifted & 1 == 0 || shifted & 1 == 1) by (bit_vector);
            }
            values.push(shifted & 1 != 0);
            i += 1;
        }
        proof {
            assert(values@ =~= column_booleans(*column)->0);
        }
        Some(values)
    }

    /// The texts in a field with texts.
    pub fn keywords(&self, field: &str) -> (r: Option<Vec<&str>>)
        ensures
            match r {
                Some(values) => self@.contains_key(field@) && column_keywords(self@[field@])
                    == Some(str_views(values@)),
                None => !self@.contains_key(field@) || column_keywords(self@[field@]) is None,
            },
    {
        let Some(column) = self.fields.get(field) else {
            return None;
        };
        if column.value_type != DocValueType::Keyword {
            return None;
        }
        if column.doc_count > (column.data.len() / 4) as u64 {
            return None;
        }
        read_keywords(&column.data, column.doc_count as usize, Ghost(*column))
    }
}

/// The offset of document `i`.
fn read_offset(data: &Vec<u8>, i: usize) -> (r: u32)
    requires
        i * 4 + 4 <= data@.len(),
    ensures
        r == offset_at(data@, i as int),
{
    let length: usize = data.len();
    u32_from_le_bytes(slice_subrange(data.as_slice(), i * 4, i * 4 + 4))
}

/// For each document, from the last to the first, where a text before it ends.
fn read_ends(data: &Vec<u8>, count: usize) -> (r: Vec<usize>)
    requires
        count * 4 <= data@.len(),
    ensures
        r@.len() == count,
        forall|i: int|
            0 <= i < count ==> #[trigger] r@[count - 1 - i] == next_offset(
                data@,
                count as int,
                i + 1,
            ),
{
    let mut end: usize = data.len() - count * 4;
    let mut r: Vec<usize> = Vec::new();
    let mut i: usize = count;
    while i > 0
        invariant
            i <= count,
            count * 4 <= data@.len(),
            r@.len() == count - i,
            end == next_offset(data@, count as int, i as int),
            forall|j: int|
                i <= j < count ==> #[trigger] r@[count - 1 - j] == next_offset(
                    data@,
                    count as int,
                    j + 1,
                ),
        decreases i,
    {
        i -= 1;
        let ghost before = r@;
        r.push(end);
        let offset: u32 = read_offset(data, i);
        if offset != 0 {
            end = offset as usize;
        }
        proof {
            assert forall|j: int| i <= j < count implies #[trigger] r@[count - 1 - j]
                == next_offset(data@, count as int, j + 1) by {
                if j > i {
                    assert(before[count - 1 - j] == next_offset(data@, count as int, j + 1));
                }
            }
        }
    }
    r
}

/// The texts of a column.
fn read_keywords<'a>(
    data: &'a Vec<u8>,
    count: usize,
    Ghost(column): Ghost<DocValuesField>,
) -> (r: Option<Vec<&'a str>>)
    requires
        column.data == *data,
        column.doc_count == count,
        column.value_type == DocValueType::Keyword,
        count * 4 <= data@.len(),
    ensures
        match r {
            Some(values) => column_keywords(column) == Some(str_views(values@)),
            None => column_keywords(column) is None,
        },
{
    let length: usize = data.len();
    let ends = read_ends(data, count);
    let pool = slice_subrange(data.as_slice(), count * 4, length);
    proof {
        assert(pool@ =~= data@.skip(count * 4));
    }
    let mut values: Vec<&'a str> = Vec::new();
    let mut i: usize = 0;
    while i < count
        invariant
            i <= count,
            column.data == *data,
            column.doc_count == count,
            column.value_type == DocValueType::Keyword,
            count * 4 <= data@.len(),
            pool@ == data@.skip(count * 4),
            ends@.len() == count,
            forall|j: int|
                0 <= j < count ==> #[trigger] ends@[count - 1 - j] == next_offset(
                    data@,
                    count as int,
                    j + 1,
                ),
            values@.len() == i,
            forall|j: int|
                0 <= j < i ==> #[trigger] keyword_at(data@, count as int, j) == Some(values@[j]@),
        decreases count - i,
    {
        let start: usize = read_offset(data, i) as usize;
        let end: usize = ends[count - 1 - i];
        proof {
            assert(ends@[count - 1 - i] == next_offset(data@, count as int, i + 1));
            reveal_strlit("");
            assert(""@ =~= Seq::<char>::empty());
        }
        let ghost before = values@;
        if start == 0 {
            values.push("");
        } else if start > end || end > pool.len() {
            proof {
                assert(keyword_at(data@, count as int, i as int) is None);
            }
            return None;
        } else {
            let bytes = slice_subrange(pool, start, end);
            match text_of_bytes(bytes) {
                Some(text) => {
                    proof {
                        encode_utf8_decode_utf8(text@);
                    }
                    values.push(text);
                },
                None => {
                    values.push("");
                },
            }
        }
        proof {
            assert forall|j: int| 0 <= j < i + 1 implies #[trigger] keyword_at(
                data@,
                count as int,
                j,
            ) == Some(values@[j]@) by {
                if j < i {
                    assert(values@[j] == before[j]);
                }
            }
        }
        i += 1;
    }
    proof {
        assert(column_keywords(column)->0 =~= str_views(values@));
    }
    Some(values)
}

proof fn lemma_packed_words(words: Seq<u64>)
    ensures
        packed_words(words).len() == words.len() * 8,
        forall|i: int|
            0 <= i < words.len() ==> #[trigger] packed_words(words).subrange(i * 8, i * 8 + 8)
                == spec_u64_to_le_bytes(words[i]),
    decreases words.len(),
{
    lemma_auto_spec_u64_to_from_le_bytes();
    if words.len() > 0 {
        let shorter = words.drop_last();
        lemma_packed_words(shorter);
        let all = packed_words(words);
        let n = shorter.len() as int;
        assert(spec_u64_to_le_bytes(words.last()).len() == 8);
        assert forall|i: int| 0 <= i < words.len() implies #[trigger] all.subrange(
            i * 8,
            i * 8 + 8,
        ) == spec_u64_to_le_bytes(words[i]) by {
            if i < n {
                assert(all.subrange(i * 8, i * 8 + 8) =~= packed_words(shorter).subrange(
                    i * 8,
                    i * 8 + 8,
                ));
                assert(shorter[i] == words[i]);
            } else {
                assert(all.subrange(i * 8, i * 8 + 8) =~= spec_u64_to_le_bytes(words.last()));
            }
        }
    }
}

proof fn lemma_words_come_back(words: Seq<u64>)
    ensures
        packed_words(words).len() == words.len() * 8,
        words_in(packed_words(words)) == words,
{
    lemma_packed_words(words);
    lemma_auto_spec_u64_to_from_le_bytes();
    assert(words_in(packed_words(words)) =~= words) by {
        assert forall|i: int| 0 <= i < words.len() implies words_in(packed_words(words))[i]
            == words[i] by {
            assert(packed_words(words).subrange(i * 8, i * 8 + 8) == spec_u64_to_le_bytes(
                words[i],
            ));
        }
    }
}

/// What is read from a column of integers or timestamps is what the documents have in the
/// field, and zero for a document that has no integer there.
pub proof fn integers_come_back(
    column: DocValuesField,
    value_type: DocValueType,
    documents: Seq<JsonView>,
    field: Seq<char>,
)
    requires
        value_type == DocValueType::Integer || value_type == DocValueType::Long || value_type
            == DocValueType::Timestamp,
        is_column(column, value_type, documents, field),
    ensures
        column_integers(column) == Some(integers_in(documents, field)),
{
    let values = integers_in(documents, field);
    let words = integer_words(values);
    lemma_words_come_back(words);
    assert(column_integers(column)->0 =~= values) by {
        assert forall|i: int| 0 <= i < values.len() implies words[i] as i64 == values[i] by {
            let n = values[i];
            assert((n as u64) as i64 == n) by (bit_vector);
        }
    }
}

/// What is read from a column of doubles is what the documents have in the field, bit for bit,
/// and zero for a document that has no number there.
pub proof fn doubles_come_back(column: DocValuesField, documents: Seq<JsonView>, field: Seq<char>)
    requires
        is_column(column, DocValueType::Double, documents, field),
    ensures
        column_doubles(column) == Some(doubles_in(documents, field)),
{
    lemma_words_come_back(doubles_in(documents, field));
}

/// What is read from a column of booleans is what the documents have in the field, and false
/// for a document that has no boolean there.
pub proof fn booleans_come_back(column: DocValuesField, documents: Seq<JsonView>, field: Seq<char>)
    requires
        is_column(column, DocValueType::Boolean, documents, field),
    ensures
        column_booleans(column) == Some(booleans_in(documents, field)),
{
    let bits = booleans_in(documents, field);
    assert(are_packed_bits(column.data@, bits));
    assert(column_booleans(column)->0 =~= bits) by {
        assert forall|i: int| 0 <= i < bits.len() implies has_bit(column.data@[i / 8], i % 8)
            == bits[i] by {
            assert((i / 8) * 8 + i % 8 == i);
            assert(has_bit(column.data@[i / 8], i % 8) == ((i / 8) * 8 + i % 8 < bits.len()
                && bits[(i / 8) * 8 + i % 8]));
        }
    }
}

/// The text in the field, or the empty text where there is none.
pub open spec fn keyword_in(source: JsonView, field: Seq<char>) -> Seq<char> {
    match text_member(source, field) {
        Some(text) => text,
        None => Seq::empty(),
    }
}

/// The texts in the field, one for each document.
pub open spec fn keywords_in(documents: Seq<JsonView>, field: Seq<char>) -> Seq<Seq<char>> {
    Seq::new(documents.len(), |i: int| keyword_in(documents[i], field))
}

proof fn lemma_offset_table(documents: Seq<JsonView>, field: Seq<char>, k: int)
    requires
        0 <= k <= documents.len(),
    ensures
        offset_table(documents, field, k).len() == k * 4,
        forall|i: int|
            0 <= i < k ==> #[trigger] offset_table(documents, field, k).subrange(i * 4, i * 4 + 4)
                == spec_u32_to_le_bytes(keyword_offset(documents, field, i)),
    decreases k,
{
    lemma_auto_spec_u32_to_from_le_bytes();
    if k > 0 {
        lemma_offset_table(documents, field, k - 1);
        let all = offset_table(documents, field, k);
        let shorter = offset_table(documents, field, k - 1);
        let last = spec_u32_to_le_bytes(keyword_offset(documents, field, k - 1));
        assert(last.len() == 4);
        assert forall|i: int| 0 <= i < k implies #[trigger] all.subrange(i * 4, i * 4 + 4)
            == spec_u32_to_le_bytes(keyword_offset(documents, field, i)) by {
            if i < k - 1 {
                assert(all.subrange(i * 4, i * 4 + 4) =~= shorter.subrange(i * 4, i * 4 + 4));
            } else {
                assert(all.subrange(i * 4, i * 4 + 4) =~= last);
            }
        }
    }
}

proof fn lemma_pool_grows(documents: Seq<JsonView>, field: Seq<char>, a: int, b: int)
    requires
        0 <= a <= b <= documents.len(),
    ensures
        1 <= keyword_pool(documents, field, a).len() <= keyword_pool(documents, field, b).len(),
        keyword_pool(documents, field, b).take(keyword_pool(documents, field, a).len() as int)
            == keyword_pool(documents, field, a),
    decreases b,
{
    let x = keyword_pool(documents, field, a);
    let y = keyword_pool(documents, field, b);
    if a == b {
        assert(y.take(x.len() as int) =~= x);
        if b > 0 {
            lemma_pool_grows(documents, field, b - 1, b - 1);
        }
    } else {
        lemma_pool_grows(documents, field, a, b - 1);
        let z = keyword_pool(documents, field, b - 1);
        assert(y.take(x.len() as int) =~= z.take(x.len() as int));
    }
}

/// From document `i` on, the next text begins where the pool of the first `i` ends.
proof fn lemma_next_offset(documents: Seq<JsonView>, field: Seq<char>, i: int)
    requires
        keywords_fit(documents, field),
        0 <= i <= documents.len(),
    ensures
        next_offset(keyword_data(documents, field), documents.len() as int, i) == keyword_pool(
            documents,
            field,
            i,
        ).len(),
    decreases documents.len() - i,
{
    let n = documents.len() as int;
    let data = keyword_data(documents, field);
    lemma_offset_table(documents, field, n);
    lemma_pool_grows(documents, field, i, n);
    if i < n {
        lemma_offset_at(documents, field, i);
        lemma_next_offset(documents, field, i + 1);
    }
}

proof fn lemma_offset_at(documents: Seq<JsonView>, field: Seq<char>, i: int)
    requires
        0 <= i < documents.len(),
    ensures
        offset_at(keyword_data(documents, field), i) == keyword_offset(documents, field, i),
        keywords_fit(documents, field) ==> (offset_at(keyword_data(documents, field), i) == 0
            <==> text_member(documents[i], field) is None),
{
    let n = documents.len() as int;
    let data = keyword_data(documents, field);
    let table = offset_table(documents, field, n);
    lemma_offset_table(documents, field, n);
    lemma_auto_spec_u32_to_from_le_bytes();
    assert(data.subrange(i * 4, i * 4 + 4) =~= table.subrange(i * 4, i * 4 + 4));
    lemma_pool_grows(documents, field, i, i);
    if keywords_fit(documents, field) {
        assert(keyword_pool(documents, field, i).len() <= u32::MAX);
    }
}

/// What is read from a column of texts is what the documents have in the field, and the empty
/// text for a document that has no text there.
pub proof fn keywords_come_back(column: DocValuesField, documents: Seq<JsonView>, field: Seq<char>)
    requires
        keywords_fit(documents, field),
        is_column(column, DocValueType::Keyword, documents, field),
    ensures
        column_keywords(column) == Some(keywords_in(documents, field)),
{
    let n = documents.len() as int;
    let data = keyword_data(documents, field);
    let pool = keyword_pool(documents, field, n);
    lemma_offset_table(documents, field, n);
    assert(data.skip(n * 4) =~= pool);
    assert forall|i: int| 0 <= i < n implies #[trigger] keyword_at(data, n, i) == Some(
        keyword_in(documents[i], field),
    ) by {
        lemma_offset_at(documents, field, i);
        lemma_next_offset(documents, field, i + 1);
        lemma_pool_grows(documents, field, i, n);
        lemma_pool_grows(documents, field, i + 1, n);
        match text_member(documents[i], field) {
            Some(text) => {
                let start = keyword_pool(documents, field, i).len() as int;
                let end = keyword_pool(documents, field, i + 1).len() as int;
                assert(keyword_pool(documents, field, i).len() <= u32::MAX);
                assert(pool.subrange(start, end) =~= encode_utf8(text)) by {
                    assert(pool.take(end) == keyword_pool(documents, field, i + 1));
                    assert forall|k: int| 0 <= k < end - start implies pool.subrange(start, end)[k]
                        == encode_utf8(text)[k] by {
                        assert(pool.take(end)[start + k] == pool[start + k]);
                    }
                }
                encode_utf8_valid_utf8(text);
                encode_utf8_decode_utf8(text);
            },
            None => {},
        }
    }
    assert(column_keywords(column)->0 =~= keywords_in(documents, field));
}

} // verus!
