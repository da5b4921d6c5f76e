//! What the columns of documents hold, and how.
use vstd::bytes::spec_u32_to_le_bytes;
use vstd::bytes::spec_u64_to_le_bytes;
use vstd::prelude::*;
use vstd::utf8::encode_utf8;

use crate::doc_values::are_columns;
use crate::doc_values::has_bit;
use crate::doc_values::keyword_data;
use crate::doc_values::keyword_pool;
use crate::doc_values::keywords_fit;
use crate::doc_values::offset_table;
use crate::doc_values::packed_words;
use crate::doc_values::DocValueType;
use crate::doc_values::DocValuesField;
use crate::doc_values_reader::booleans_come_back;
use crate::doc_values_reader::column_booleans;
use crate::doc_values_reader::column_doubles;
use crate::doc_values_reader::column_integers;
use crate::doc_values_reader::column_keywords;
use crate::doc_values_reader::doubles_come_back;
use crate::doc_values_reader::integers_come_back;
use crate::doc_values_reader::keywords_come_back;
use crate::json::JsonView;
use crate::json::NumberView;
use crate::types::FieldMapping;
use crate::types::FieldType;

verus! {

/// Whether `value` is the integer that a document has in the field, or zero where it has none.
pub open spec fn is_integer_of(value: i64, document: JsonView, field: Seq<char>) -> bool {
    match document.member(field) {
        Some(JsonView::Number(NumberView::PosInt(n))) => if n < 0x8000_0000_0000_0000 {
            value == n
        } else {
            value == 0
        },
        Some(JsonView::Number(NumberView::NegInt(n))) => value == n,
        _ => value == 0,
    }
}

/// A column of integers or timestamps gives back, for each document, the integer that it has in
/// the field, and zero where it has none.
pub proof fn columns_give_integers_back(
    columns: Map<Seq<char>, DocValuesField>,
    documents: Seq<JsonView>,
    mappings: Map<Seq<char>, FieldMapping>,
    field: Seq<char>,
)
    requires
        are_columns(columns, documents, mappings),
        mappings.contains_key(field),
        mappings[field].field_type == FieldType::Integer || mappings[field].field_type
            == FieldType::Long || mappings[field].field_type == FieldType::Timestamp,
    ensures
        columns.contains_key(field),
        column_integers(columns[field]) matches Some(values) && values.len() == documents.len()
            && forall|i: int|
            0 <= i < documents.len() ==> is_integer_of(values[i], #[trigger] documents[i], field),
{
    let column = columns[field];
    assert(columns.contains_key(field));
    integers_come_back(column, column.value_type, documents, field);
}

/// A column of doubles gives back, for each document, the double of the number that it has in the
/// field, and zero where it has none.
pub proof fn columns_give_doubles_back(
    columns: Map<Seq<char>, DocValuesField>,
    documents: Seq<JsonView>,
    mappings: Map<Seq<char>, FieldMapping>,
    field: Seq<char>,
)
    requires
        are_columns(columns, documents, mappings),
        mappings.contains_key(field),
        mappings[field].field_type == FieldType::Double,
    ensures
        columns.contains_key(field),
        column_doubles(columns[field]) matches Some(values) && values.len() == documents.len()
            && forall|i: int|
            0 <= i < documents.len() ==> values[i] == (match (#[trigger] documents[i]).member(
                field,
            ) {
                Some(JsonView::Number(NumberView::Float(bits, _))) => bits,
                Some(JsonView::Number(number)) => JsonView::Number(number).as_double()->0,
                _ => 0u64,
            }),
{
    let column = columns[field];
    assert(columns.contains_key(field));
    doubles_come_back(column, documents, field);
}

/// A column of booleans gives back, for each document, the boolean that it has in the field, and
/// `false` where it has none.
pub proof fn columns_give_booleans_back(
    columns: Map<Seq<char>, DocValuesField>,
    documents: Seq<JsonView>,
    mappings: Map<Seq<char>, FieldMapping>,
    field: Seq<char>,
)
    requires
        are_columns(columns, documents, mappings),
        mappings.contains_key(field),
        mappings[field].field_type == FieldType::Boolean,
    ensures
        columns.contains_key(field),
        column_booleans(columns[field]) matches Some(values) && values.len() == documents.len()
            && forall|i: int|
            0 <= i < documents.len() ==> (values[i] <==> (#[trigger] documents[i]).member(field)
                == Some(JsonView::Bool(true))),
{
    let column = columns[field];
    assert(columns.contains_key(field));
    booleans_come_back(column, documents, field);
}

/// A column of texts gives back, for each document, the text that it has in the field, and the
/// empty text where it has none.
pub proof fn columns_give_texts_back(
    columns: Map<Seq<char>, DocValuesField>,
    documents: Seq<JsonView>,
    mappings: Map<Seq<char>, FieldMapping>,
    field: Seq<char>,
)
    requires
        are_columns(columns, documents, mappings),
        mappings.contains_key(field),
        mappings[field].field_type == FieldType::Keyword,
        keywords_fit(documents, field),
    ensures
        columns.contains_key(field),
        column_keywords(columns[field]) matches Some(values) && values.len() == documents.len()
            && forall|i: int|
            0 <= i < documents.len() ==> values[i] == (match (#[trigger] documents[i]).member(
                field,
            ) {
                Some(JsonView::Text(text)) => text,
                _ => Seq::empty(),
            }),
{
    let column = columns[field];
    assert(columns.contains_key(field));
    keywords_come_back(column, documents, field);
}

/// Objects and fields without a mapping have no column, all others have one, and each column says
/// which type its field has and how many documents there are.
pub proof fn only_mapped_values_have_columns(
    columns: Map<Seq<char>, DocValuesField>,
    documents: Seq<JsonView>,
    mappings: Map<Seq<char>, FieldMapping>,
    field: Seq<char>,
)
    requires
        are_columns(columns, documents, mappings),
    ensures
        columns.contains_key(field) ==> mappings.contains_key(field) && mappings[field].field_type
            != FieldType::Object && columns[field].doc_count == documents.len()
            && columns[field].field@ == field && (match mappings[field].field_type {
            FieldType::Keyword => columns[field].value_type == DocValueType::Keyword,
            FieldType::Boolean => columns[field].value_type == DocValueType::Boolean,
            FieldType::Integer => columns[field].value_type == DocValueType::Integer,
            FieldType::Long => columns[field].value_type == DocValueType::Long,
            FieldType::Double => columns[field].value_type == DocValueType::Double,
            FieldType::Timestamp => columns[field].value_type == DocValueType::Timestamp,
            FieldType::Object => false,
        }),
        mappings.contains_key(field) && mappings[field].field_type != FieldType::Object
            ==> columns.contains_key(field),
{
}

proof fn lemma_words(words: Seq<u64>, i: int)
    requires
        0 <= i < words.len(),
    ensures
        packed_words(words).len() == words.len() * 8,
        packed_words(words).subrange(i * 8, i * 8 + 8) == spec_u64_to_le_bytes(words[i]),
    decreases words.len(),
{
    vstd::bytes::lemma_auto_spec_u64_to_from_le_bytes();
    let less = words.drop_last();
    let front = packed_words(less);
    let last = spec_u64_to_le_bytes(words.last());
    if i < less.len() {
        lemma_words(less, i);
        assert((front + last).subrange(i * 8, i * 8 + 8) =~= front.subrange(i * 8, i * 8 + 8));
    } else {
        if less.len() > 0 {
            lemma_words(less, 0);
        }
        assert((front + last).subrange(i * 8, i * 8 + 8) =~= last);
    }
}

/// In the column of a field with integers or doubles, each document has eight bytes, the lowest
/// first: the integer in two's complement, or the bits of the double.
pub proof fn numbers_have_eight_bytes(
    columns: Map<Seq<char>, DocValuesField>,
    documents: Seq<JsonView>,
    mappings: Map<Seq<char>, FieldMapping>,
    field: Seq<char>,
    i: int,
)
    requires
        are_columns(columns, documents, mappings),
        columns.contains_key(field),
        0 <= i < documents.len(),
    ensures
        ({
            let data = columns[field].data@;
            let kind = mappings[field].field_type;
            &&& kind == FieldType::Integer || kind == FieldType::Long || kind
                == FieldType::Timestamp ==> data.len() == documents.len() * 8 && exists|value: i64|
                is_integer_of(value, documents[i], field) && data.subrange(i * 8, i * 8 + 8)
                    == #[trigger] spec_u64_to_le_bytes(value as u64)
            &&& kind == FieldType::Double ==> data.len() == documents.len() * 8 && data.subrange(
                i * 8,
                i * 8 + 8,
            ) == spec_u64_to_le_bytes(
                match documents[i].member(field) {
                    Some(value) => match value.as_double() {
                        Some(bits) => bits,
                        None => 0,
                    },
                    None => 0,
                },
            )
        }),
{
    let kind = mappings[field].field_type;
    if kind == FieldType::Integer || kind == FieldType::Long || kind == FieldType::Timestamp {
        let values = crate::doc_values::integers_in(documents, field);
        let words = crate::doc_values::integer_words(values);
        lemma_words(words, i);
        assert(is_integer_of(values[i], documents[i], field));
        assert(words[i] == values[i] as u64);
    } else if kind == FieldType::Double {
        lemma_words(crate::doc_values::doubles_in(documents, field), i);
    }
}

/// In the column of a field with booleans, each document has one bit, the lowest of a byte first.
pub proof fn booleans_have_one_bit(
    columns: Map<Seq<char>, DocValuesField>,
    documents: Seq<JsonView>,
    mappings: Map<Seq<char>, FieldMapping>,
    field: Seq<char>,
    i: int,
)
    requires
        are_columns(columns, documents, mappings),
        columns.contains_key(field),
        mappings[field].field_type == FieldType::Boolean,
        0 <= i < documents.len(),
    ensures
        ({
            let data = columns[field].data@;
            &&& data.len() == (documents.len() + 7) / 8
            &&& (data[i / 8] >> ((i % 8) as u8)) & 1 == 1 <==> documents[i].member(field) == Some(
                JsonView::Bool(true),
            )
        }),
{
    let data = columns[field].data@;
    assert(has_bit(data[i / 8], i % 8) == crate::doc_values::booleans_in(documents, field)[i]);
}

proof fn lemma_offsets(documents: Seq<JsonView>, field: Seq<char>, k: int, i: int)
    requires
        0 <= i < k <= documents.len(),
    ensures
        offset_table(documents, field, k).len() == k * 4,
        offset_table(documents, field, k).subrange(i * 4, i * 4 + 4) == spec_u32_to_le_bytes(
            crate::doc_values::keyword_offset(documents, field, i),
        ),
    decreases k,
{
    vstd::bytes::lemma_auto_spec_u32_to_from_le_bytes();
    let front = offset_table(documents, field, k - 1);
    let last = spec_u32_to_le_bytes(crate::doc_values::keyword_offset(documents, field, k - 1));
    if i < k - 1 {
        lemma_offsets(documents, field, k - 1, i);
        assert((front + last).subrange(i * 4, i * 4 + 4) =~= front.subrange(i * 4, i * 4 + 4));
    } else {
        if k - 1 > 0 {
            lemma_offsets(documents, field, k - 1, 0);
        }
        assert((front + last).subrange(i * 4, i * 4 + 4) =~= last);
    }
}

proof fn lemma_pool(documents: Seq<JsonView>, field: Seq<char>, k: int, i: int)
    requires
        0 <= i < k <= documents.len(),
    ensures
        ({
            let start = keyword_pool(documents, field, i).len() as int;
            let pool = keyword_pool(documents, field, k);
            &&& start >= 1
            &&& pool[0] == 0
            &&& documents[i].member(field) matches Some(JsonView::Text(text)) ==> start
                + encode_utf8(text).len() <= pool.len() && pool.subrange(
                start,
                start + encode_utf8(text).len(),
            ) == encode_utf8(text)
        }),
    decreases k,
{
    let start = keyword_pool(documents, field, i).len() as int;
    let front = keyword_pool(documents, field, k - 1);
    let pool = keyword_pool(documents, field, k);
    lemma_pool_begins(documents, field, i);
    lemma_pool_begins(documents, field, k);
    if i < k - 1 {
        lemma_pool(documents, field, k - 1, i);
        if let Some(JsonView::Text(text)) = documents[i].member(field) {
            assert(pool.subrange(start, start + encode_utf8(text).len()) =~= front.subrange(
                start,
                start + encode_utf8(text).len(),
            ));
        }
    } else if let Some(JsonView::Text(text)) = documents[i].member(field) {
        assert(pool.subrange(start, start + encode_utf8(text).len()) =~= encode_utf8(text));
    }
}

proof fn lemma_pool_begins(documents: Seq<JsonView>, field: Seq<char>, k: int)
    ensures
        keyword_pool(documents, field, k).len() >= 1,
        keyword_pool(documents, field, k)[0] == 0,
    decreases k,
{
    if 0 < k <= documents.len() {
        lemma_pool_begins(documents, field, k - 1);
    }
}

/// The column of a field with texts begins with four bytes for each document, the lowest first:
/// where its text begins in what follows, or zero where it has none. What follows begins with a
/// zero byte and holds the bytes of the texts.
pub proof fn texts_have_an_offset_of_four_bytes(
    columns: Map<Seq<char>, DocValuesField>,
    documents: Seq<JsonView>,
    mappings: Map<Seq<char>, FieldMapping>,
    field: Seq<char>,
    i: int,
)
    requires
        are_columns(columns, documents, mappings),
        columns.contains_key(field),
        mappings[field].field_type == FieldType::Keyword,
        keywords_fit(documents, field),
        0 <= i < documents.len(),
    ensures
        ({
            let data = columns[field].data@;
            let n = documents.len() as int;
            let texts = data.skip(n * 4);
            &&& data.len() > n * 4
            &&& texts[0] == 0
            &&& exists|offset: u32|
                data.subrange(i * 4, i * 4 + 4) == #[trigger] spec_u32_to_le_bytes(offset) && (
                match documents[i].member(field) {
                    Some(JsonView::Text(text)) => offset >= 1 && offset + encode_utf8(text).len()
                        <= texts.len() && texts.subrange(
                        offset as int,
                        offset + encode_utf8(text).len(),
                    ) == encode_utf8(text),
                    _ => offset == 0,
                })
        }),
{
    let n = documents.len() as int;
    let data = columns[field].data@;
    let table = offset_table(documents, field, n);
    let pool = keyword_pool(documents, field, n);
    assert(data == keyword_data(documents, field));
    lemma_offsets(documents, field, n, i);
    lemma_pool(documents, field, n, i);
    lemma_pool_begins(documents, field, n);
    assert(data.subrange(i * 4, i * 4 + 4) =~= table.subrange(i * 4, i * 4 + 4));
    assert(data.skip(n * 4) =~= pool);
    let offset = crate::doc_values::keyword_offset(documents, field, i);
    assert(keyword_pool(documents, field, i).len() <= u32::MAX);
    assert(data.subrange(i * 4, i * 4 + 4) == spec_u32_to_le_bytes(offset));
}

} // verus!
