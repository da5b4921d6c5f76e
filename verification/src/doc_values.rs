//! Columns of the values of a field, one value for each document.
use vstd::bytes::spec_u32_to_le_bytes;
use vstd::bytes::spec_u64_to_le_bytes;
use vstd::bytes::u32_to_le_bytes;
use vstd::bytes::u64_to_le_bytes;
use vstd::prelude::*;
use vstd::utf8::encode_utf8;

use crate::json::text_member;
use crate::json::JsonView;
use crate::map::StringMap;
use crate::types::FieldMapping;
use crate::types::FieldType;
use crate::types::IndexDocument;

verus! {

/// The type of the values of a column.
#[derive(Clone, Copy, Debug, PartialEq, Eq, Structural)]
pub enum DocValueType {
    Keyword,
    Boolean,
    Integer,
    Long,
    Double,
    Timestamp,
}

/// A column: the encoded values of a field.
#[derive(Debug)]
pub struct DocValuesField {
    pub field: String,
    pub value_type: DocValueType,
    pub doc_count: u64,
    pub data: Vec<u8>,
}

/// The sources of a list of documents.
pub open spec fn sources(documents: Seq<IndexDocument>) -> Seq<JsonView> {
    Seq::new(documents.len(), |i: int| documents[i].source@)
}

/// The integer in the field, or zero where there is none.
pub open spec fn integer_in(source: JsonView, field: Seq<char>) -> i64 {
    match source.member(field) {
        Some(v) => match v.as_i64() {
            Some(n) => n,
            None => 0,
        },
        None => 0,
    }
}

/// The bit pattern of the number in the field, or that of zero where there is none.
pub open spec fn double_in(source: JsonView, field: Seq<char>) -> u64 {
    match source.member(field) {
        Some(v) => match v.as_double() {
            Some(bits) => bits,
            None => 0,
        },
        None => 0,
    }
}

/// The boolean in the field, or false where there is none.
pub open spec fn boolean_in(source: JsonView, field: Seq<char>) -> bool {
    match source.member(field) {
        Some(v) => match v.as_bool() {
            Some(b) => b,
            None => false,
        },
        None => false,
    }
}

/// The integers in the field, one for each document.
pub open spec fn integers_in(documents: Seq<JsonView>, field: Seq<char>) -> Seq<i64> {
    Seq::new(documents.len(), |i: int| integer_in(documents[i], field))
}

/// The bit patterns of the numbers in the field, one for each document.
pub open spec fn doubles_in(documents: Seq<JsonView>, field: Seq<char>) -> Seq<u64> {
    Seq::new(documents.len(), |i: int| double_in(documents[i], field))
}

/// The booleans in the field, one for each document.
pub open spec fn booleans_in(documents: Seq<JsonView>, field: Seq<char>) -> Seq<bool> {
    Seq::new(documents.len(), |i: int| boolean_in(documents[i], field))
}

/// Words of eight bytes, one after the other, the lowest byte of each first.
pub open spec fn packed_words(words: Seq<u64>) -> Seq<u8>
    decreases words.len(),
{
    if words.len() == 0 {
        Seq::empty()
    } else {
        packed_words(words.drop_last()) + spec_u64_to_le_bytes(words.last())
    }
}

/// The words that stand for the integers, in two's complement.
pub open spec fn integer_words(values: Seq<i64>) -> Seq<u64> {
    Seq::new(values.len(), |i: int| values[i] as u64)
}

/// Whether bit `k` of a byte is set.
pub open spec fn has_bit(byte: u8, k: int) -> bool {
    (byte >> (k as u8)) & 1 == 1
}

/// Whether `data` holds the bits, eight to a byte, the lowest bit of each first, and nothing
/// else.
pub open spec fn are_packed_bits(data: Seq<u8>, bits: Seq<bool>) -> bool {
    &&& data.len() == (bits.len() + 7) / 8
    &&& forall|j: int, k: int|
        0 <= j < data.len() && 0 <= k < 8 ==> #[trigger] has_bit(data[j], k) == (j * 8 + k
            < bits.len() && bits[j * 8 + k])
}

/// The texts of the field in the first `k` documents, one after the other behind a zero byte.
pub open spec fn keyword_pool(documents: Seq<JsonView>, field: Seq<char>, k: int) -> Seq<u8>
    decreases k,
{
    if k <= 0 || k > documents.len() {
        seq![0u8]
    } else {
        match text_member(documents[k - 1], field) {
            Some(text) => keyword_pool(documents, field, k - 1) + encode_utf8(text),
            None => keyword_pool(documents, field, k - 1),
        }
    }
}

/// Where in the pool the text of a document begins, or zero where it has none.
pub open spec fn keyword_offset(documents: Seq<JsonView>, field: Seq<char>, k: int) -> u32 {
    if text_member(documents[k], field) is Some {
        keyword_pool(documents, field, k).len() as u32
    } else {
        0
    }
}

/// The offsets of the first `k` documents, four bytes each.
pub open spec fn offset_table(documents: Seq<JsonView>, field: Seq<char>, k: int) -> Seq<u8>
    decreases k,
{
    if k <= 0 || k > documents.len() {
        Seq::empty()
    } else {
        offset_table(documents, field, k - 1) + spec_u32_to_le_bytes(
            keyword_offset(documents, field, k - 1),
        )
    }
}

/// The column of a field with texts: the offsets of the texts, then the pool.
pub open spec fn keyword_data(documents: Seq<JsonView>, field: Seq<char>) -> Seq<u8> {
    offset_table(documents, field, documents.len() as int) + keyword_pool(
        documents,
        field,
        documents.len() as int,
    )
}

/// Whether the texts of the field begin at offsets of four bytes.
pub open spec fn keywords_fit(documents: Seq<JsonView>, field: Seq<char>) -> bool {
    forall|k: int|
        0 <= k < documents.len() ==> #[trigger] keyword_pool(documents, field, k).len() <= u32::MAX
}

/// The type of the column of a field, if it has one.
pub open spec fn column_type(field_type: FieldType) -> Option<DocValueType> {
    match field_type {
        FieldType::Keyword => Some(DocValueType::Keyword),
        FieldType::Boolean => Some(DocValueType::Boolean),
        FieldType::Integer => Some(DocValueType::Integer),
        FieldType::Long => Some(DocValueType::Long),
        FieldType::Double => Some(DocValueType::Double),
        FieldType::Timestamp => Some(DocValueType::Timestamp),
        FieldType::Object => None,
    }
}

/// Whether `data` is the column of the field.
pub open spec fn is_column_data(
    data: Seq<u8>,
    value_type: DocValueType,
    documents: Seq<JsonView>,
    field: Seq<char>,
) -> bool {
    match value_type {
        DocValueType::Keyword => data == keyword_data(documents, field),
        DocValueType::Boolean => are_packed_bits(data, booleans_in(documents, field)),
        DocValueType::Double => data == packed_words(doubles_in(documents, field)),
        _ => data == packed_words(integer_words(integers_in(documents, field))),
    }
}

/// Whether `column` is the column of that type of the field.
pub open spec fn is_column(
    column: DocValuesField,
    value_type: DocValueType,
    documents: Seq<JsonView>,
    field: Seq<char>,
) -> bool {
    &&& column.field@ == field
    &&& column.value_type == value_type
    &&& column.doc_count == documents.len()
    &&& is_column_data(column.data@, value_type, documents, field)
}

fn push_bytes(data: &mut Vec<u8>, bytes: &[u8])
    ensures
        final(data)@ == old(data)@ + bytes@,
{
    let mut i: usize = 0;
    while i < bytes.len()
        invariant
            i <= bytes@.len(),
            data@ == old(data)@ + bytes@.take(i as int),
        decreases bytes@.len() - i,
    {
        proof {
            assert(bytes@.take(i + 1) =~= bytes@.take(i as int).push(bytes@[i as int]));
        }
        data.push(bytes[i]);
        i += 1;
    }
    proof {
        assert(bytes@.take(i as int) =~= bytes@);
    }
}

/// The column of a field with texts.
fn encode_keywords(documents: &Vec<IndexDocument>, field: &str) -> (r: Vec<u8>)
    requires
        keywords_fit(sources(documents@), field@),
    ensures
        r@ == keyword_data(sources(documents@), field@),
{
    let ghost all = sources(documents@);
    let mut pool: Vec<u8> = Vec::new();
    pool.push(0);
    let mut table: Vec<u8> = Vec::new();
    let mut i: usize = 0;
    proof {
        assert(pool@ =~= keyword_pool(all, field@, 0));
    }
    while i < documents.len()
        invariant
            i <= documents@.len(),
            all == sources(documents@),
            keywords_fit(all, field@),
            pool@ == keyword_pool(all, field@, i as int),
            table@ == offset_table(all, field@, i as int),
        decreases documents@.len() - i,
    {
        proof {
            assert(all[i as int] == documents@[i as int].source@);
            assert(keyword_pool(all, field@, i as int).len() <= u32::MAX);
        }
        let mut offset: u32 = 0;
        if let Some(text) = documents[i].source.text_of(field) {
            offset = pool.len() as u32;
            push_bytes(&mut pool, text.as_bytes());
        }
        let bytes = u32_to_le_bytes(offset);
        push_bytes(&mut table, bytes.as_slice());
        i += 1;
    }
    table.append(&mut pool);
    table
}

/// The column of a field with integers.
fn encode_i64(documents: &Vec<IndexDocument>, field: &str) -> (r: Vec<u8>)
    ensures
        r@ == packed_words(integer_words(integers_in(sources(documents@), field@))),
{
    let ghost words = integer_words(integers_in(sources(documents@), field@));
    let mut r: Vec<u8> = Vec::new();
    let mut i: usize = 0;
    proof {
        assert(words.take(0) =~= Seq::empty());
    }
    while i < documents.len()
        invariant
            i <= documents@.len(),
            words == integer_words(integers_in(sources(documents@), field@)),
            r@ == packed_words(words.take(i as int)),
        decreases documents@.len() - i,
    {
        let n: i64 = match documents[i].source.get(field) {
            Some(v) => match v.as_i64() {
                Some(n) => n,
                None => 0,
            },
            None => 0,
        };
        proof {
            assert(words.take(i + 1).drop_last() =~= words.take(i as int));
            assert(words[i as int] == n as u64);
        }
        let bytes = u64_to_le_bytes(n as u64);
        push_bytes(&mut r, bytes.as_slice());
        i += 1;
    }
    proof {
        assert(words.take(i as int) =~= words);
    }
    r
}

/// The column of a field with doubles.
fn encode_f64(documents: &Vec<IndexDocument>, field: &str) -> (r: Vec<u8>)
    ensures
        r@ == packed_words(doubles_in(sources(documents@), field@)),
{
    let ghost words = doubles_in(sources(documents@), field@);
    let mut r: Vec<u8> = Vec::new();
    let mut i: usize = 0;
    proof {
        assert(words.take(0) =~= Seq::empty());
    }
    while i < documents.len()
        invariant
            i <= documents@.len(),
            words == doubles_in(sources(documents@), field@),
            r@ == packed_words(words.take(i as int)),
        decreases documents@.len() - i,
    {
        let bits: u64 = match documents[i].source.get(field) {
            Some(v) => match v.as_double() {
                Some(bits) => bits,
                None => 0,
            },
            None => 0,
        };
        proof {
            assert(words.take(i + 1).drop_last() =~= words.take(i as int));
            assert(words[i as int] == bits);
        }
        let bytes = u64_to_le_bytes(bits);
        push_bytes(&mut r, bytes.as_slice());
        i += 1;
    }
    proof {
        assert(words.take(i as int) =~= words);
    }
    r
}

proof fn lemma_set_bit(byte: u8, b: u8, k: u8)
    requires
        b < 8,
        k < 8,
    ensures
        has_bit(byte | (1u8 << b), k as int) == (k == b || has_bit(byte, k as int)),
{
    assert(((byte | (1u8 << b)) >> k) & 1 == 1 <==> (k == b || (byte >> k) & 1 == 1))
        by (bit_vector)
        requires
            b < 8,
            k < 8,
    ;
}

proof fn lemma_no_bits(k: u8)
    requires
        k < 8,
    ensures
        !has_bit(0, k as int),
{
    assert((0u8 >> k) & 1 == 0) by (bit_vector)
        requires
            k < 8,
    ;
}

/// The column of a field with booleans.
fn encode_boolean(documents: &Vec<IndexDocument>, field: &str) -> (r: Vec<u8>)
    ensures
        are_packed_bits(r@, booleans_in(sources(documents@), field@)),
{
    let ghost bits = booleans_in(sources(documents@), field@);
    let count: usize = documents.len();
    let mut r: Vec<u8> = Vec::new();
    let mut start: usize = 0;
    while start < count
        invariant
            count == documents@.len(),
            bits == booleans_in(sources(documents@), field@),
            bits.len() == count,
            start <= count,
            start == count || start == r@.len() * 8,
            start == count ==> r@.len() == (count + 7) / 8,
            forall|j: int, k: int|
                0 <= j < r@.len() && 0 <= k < 8 ==> #[trigger] has_bit(r@[j], k) == (j * 8 + k
                    < count && bits[j * 8 + k]),
        decreases count - start,
    {
        let mut byte: u8 = 0;
        let mut b: u8 = 0;
        let mut at: usize = start;
        proof {
            assert forall|k: int| 0 <= k < 8 implies !#[trigger] has_bit(byte, k) by {
                lemma_no_bits(k as u8);
            }
        }
        while b < 8 && at < count
            invariant
                count == documents@.len(),
                bits == booleans_in(sources(documents@), field@),
                bits.len() == count,
                b <= 8,
                start < count,
                at == start + b,
                at <= count,
                forall|k: int|
                    0 <= k < 8 ==> #[trigger] has_bit(byte, k) == (k < b && bits[start + k]),
            decreases 8 - b,
        {
            let set: bool = match documents[at].source.get(field) {
                Some(v) => match v.as_bool() {
                    Some(set) => set,
                    None => false,
                },
                None => false,
            };
            proof {
                assert(bits[at as int] == set);
            }
            if set {
                proof {
                    assert forall|k: int| 0 <= k < 8 implies #[trigger] has_bit(
                        byte | (1u8 << b),
                        k,
                    ) == (k < b + 1 && bits[start + k]) by {
                        lemma_set_bit(byte, b, k as u8);
                        assert(has_bit(byte, k) == (k < b && bits[start + k]));
                    }
                }
                byte = byte | (1u8 << b);
            }
            b += 1;
            at += 1;
        }
        let ghost before = r@;
        r.push(byte);
        proof {
            assert forall|j: int, k: int| 0 <= j < r@.len() && 0 <= k < 8 implies #[trigger] has_bit(
                r@[j],
                k,
            ) == (j * 8 + k < count && bits[j * 8 + k]) by {
                if j < before.len() {
                    assert(r@[j] == before[j]);
                    assert(has_bit(before[j], k) == (j * 8 + k < count && bits[j * 8 + k]));
                } else {
                    assert(has_bit(byte, k) == (k < b && bits[start + k]));
                }
            }
        }
        start = at;
    }
    r
}

/// The column of a field.
fn encode_column(documents: &Vec<IndexDocument>, field: &str, value_type: DocValueType) -> (r: Vec<
    u8,
>)
    requires
        value_type == DocValueType::Keyword ==> keywords_fit(sources(documents@), field@),
    ensures
        is_column_data(r@, value_type, sources(documents@), field@),
{
    match value_type {
        DocValueType::Keyword => encode_keywords(documents, field),
        DocValueType::Boolean => encode_boolean(documents, field),
        DocValueType::Double => encode_f64(documents, field),
        DocValueType::Integer => encode_i64(documents, field),
        DocValueType::Long => encode_i64(documents, field),
        DocValueType::Timestamp => encode_i64(documents, field),
    }
}

/// Whether all texts begin at offsets of four bytes.
pub open spec fn all_keywords_fit(
    documents: Seq<JsonView>,
    mappings: Map<Seq<char>, FieldMapping>,
) -> bool {
    forall|field: Seq<char>| #[trigger]
        mappings.contains_key(field) && mappings[field].field_type == FieldType::Keyword
            ==> keywords_fit(documents, field)
}

/// Whether `columns` are the columns of the mapped fields: one for each field that is not an
/// object.
pub open spec fn are_columns(
    columns: Map<Seq<char>, DocValuesField>,
    documents: Seq<JsonView>,
    mappings: Map<Seq<char>, FieldMapping>,
) -> bool {
    &&& forall|field: Seq<char>|
        #![trigger columns.contains_key(field)]
        #![trigger mappings.contains_key(field)]
        columns.contains_key(field) <==> mappings.contains_key(field)
            && mappings[field].field_type != FieldType::Object
    &&& forall|field: Seq<char>| #[trigger]
        columns.contains_key(field) ==> is_column(
            columns[field],
            column_type(mappings[field].field_type)->0,
            documents,
            field,
        )
}

/// Tells whether the texts of the field begin at offsets of four bytes.
fn fits(documents: &Vec<IndexDocument>, field: &str) -> (r: bool)
    ensures
        r == keywords_fit(sources(documents@), field@),
{
    let ghost all = sources(documents@);
    let mut size: u64 = 1;
    let mut i: usize = 0;
    while i < documents.len()
        invariant
            i <= documents@.len(),
            all == sources(documents@),
            size == keyword_pool(all, field@, i as int).len(),
            size <= u32::MAX || i == documents@.len(),
            forall|k: int|
                0 <= k < i ==> #[trigger] keyword_pool(all, field@, k).len() <= u32::MAX,
        decreases documents@.len() - i,
    {
        proof {
            assert(all[i as int] == documents@[i as int].source@);
        }
        if let Some(text) = documents[i].source.text_of(field) {
            let added: usize = text.as_bytes().len();
            if added as u64 > u32::MAX as u64 {
                if i + 1 < documents.len() {
                    proof {
                        assert(keyword_pool(all, field@, i + 1).len() > u32::MAX);
                    }
                    return false;
                }
                return true;
            }
            size = size + added as u64;
        }
        i += 1;
        if size > u32::MAX as u64 && i < documents.len() {
            proof {
                assert(keyword_pool(all, field@, i as int).len() > u32::MAX);
            }
            return false;
        }
    }
    true
}

/// Tells whether all texts begin at offsets of four bytes.
pub fn fits_columns(documents: &Vec<IndexDocument>, mappings: &StringMap<FieldMapping>) -> (r: bool)
    ensures
        r == all_keywords_fit(sources(documents@), mappings@),
{
    let ghost pairs = mappings.pairs();
    let count: usize = mappings.len();
    let mut i: usize = 0;
    while i < count
        invariant
            i <= count,
            count == pairs.len(),
            pairs == mappings.pairs(),
            crate::map::keys_ascend(pairs),
            forall|j: int|
                0 <= j < i && (#[trigger] pairs[j]).1.field_type == FieldType::Keyword
                    ==> keywords_fit(sources(documents@), pairs[j].0),
        decreases count - i,
    {
        let field = mappings.key_at(i);
        if mappings.value_at(i).field_type == FieldType::Keyword && !fits(
            documents,
            field.as_str(),
        ) {
            proof {
                crate::map::lemma_pair_in_map(pairs, i as int);
                assert(mappings@.contains_key(field@));
            }
            return false;
        }
        i += 1;
    }
    proof {
        assert forall|field: Seq<char>| #[trigger]
            mappings@.contains_key(field) && mappings@[field].field_type
                == FieldType::Keyword implies keywords_fit(sources(documents@), field) by {
            let j = crate::map::key_index(pairs, field);
            crate::map::lemma_pair_in_map(pairs, j);
            assert(pairs[j].0 == field);
            assert(pairs[j].1.field_type == FieldType::Keyword);
        }
    }
    true
}

/// Builds the columns of documents.
pub struct DocValuesWriter;

impl DocValuesWriter {
    /// Builds the columns of all mapped fields that are no objects.
    pub fn build_from_documents(
        documents: &Vec<IndexDocument>,
        mappings: &StringMap<FieldMapping>,
    ) -> (r: StringMap<DocValuesField>)
        requires
            all_keywords_fit(sources(documents@), mappings@),
        ensures
            are_columns(r@, sources(documents@), mappings@),
    {
        let ghost all = sources(documents@);
        let ghost pairs = mappings.pairs();
        let mut r: StringMap<DocValuesField> = StringMap::new();
        let count: usize = mappings.len();
        let mut i: usize = 0;
        while i < count
            invariant
                count == pairs.len(),
                i <= count,
                pairs == mappings.pairs(),
                crate::map::keys_ascend(pairs),
                all == sources(documents@),
                all_keywords_fit(all, mappings@),
                forall|field: Seq<char>| #[trigger]
                    r@.contains_key(field) <==> exists|j: int|
                        0 <= j < i && #[trigger] pairs[j].0 == field && pairs[j].1.field_type
                            != FieldType::Object,
                forall|j: int|
                    0 <= j < i && (#[trigger] pairs[j]).1.field_type != FieldType::Object
                        ==> is_column(
                        r@[pairs[j].0],
                        column_type(pairs[j].1.field_type)->0,
                        all,
                        pairs[j].0,
                    ),
            decreases count - i,
        {
            let field = mappings.key_at(i);
            let mapping = mappings.value_at(i);
            proof {
                crate::map::lemma_pair_in_map(pairs, i as int);
                assert(mappings@.contains_key(field@));
            }
            let value_type: Option<DocValueType> = match mapping.field_type {
                FieldType::Keyword => Some(DocValueType::Keyword),
                FieldType::Boolean => Some(DocValueType::Boolean),
                FieldType::Integer => Some(DocValueType::Integer),
                FieldType::Long => Some(DocValueType::Long),
                FieldType::Double => Some(DocValueType::Double),
                FieldType::Timestamp => Some(DocValueType::Timestamp),
                FieldType::Object => None,
            };
            if let Some(value_type) = value_type {
                let data = encode_column(documents, field.as_str(), value_type);
                let column = DocValuesField {
                    field: field.clone(),
                    value_type,
                    doc_count: documents.len() as u64,
                    data,
                };
                let ghost before = r@;
                r.insert(field.clone(), column);
                proof {
                    assert forall|j: int|
                        0 <= j < i + 1 && (#[trigger] pairs[j]).1.field_type
                            != FieldType::Object implies is_column(
                        r@[pairs[j].0],
                        column_type(pairs[j].1.field_type)->0,
                        all,
                        pairs[j].0,
                    ) by {
                        if j < i {
                            crate::text::text_lt_asymmetric(pairs[j].0, pairs[i as int].0);
                        }
                    }
                    assert forall|name: Seq<char>| #[trigger]
                        r@.contains_key(name) <==> exists|j: int|
                            0 <= j < i + 1 && #[trigger] pairs[j].0 == name
                                && pairs[j].1.field_type != FieldType::Object by {
                        if r@.contains_key(name) && name != field@ {
                            assert(before.contains_key(name));
                            let j = choose|j: int|
                                0 <= j < i && #[trigger] pairs[j].0 == name
                                    && pairs[j].1.field_type != FieldType::Object;
                            assert(pairs[j].0 == name);
                        }
                        if name == field@ {
                            assert(pairs[i as int].0 == name);
                        }
                    }
                }
            } else {
                proof {
                    assert forall|name: Seq<char>| #[trigger]
                        r@.contains_key(name) <==> exists|j: int|
                            0 <= j < i + 1 && #[trigger] pairs[j].0 == name
                                && pairs[j].1.field_type != FieldType::Object by {
                        if r@.contains_key(name) {
                            let j = choose|j: int|
                                0 <= j < i && #[trigger] pairs[j].0 == name
                                    && pairs[j].1.field_type != FieldType::Object;
                            assert(pairs[j].0 == name);
                        }
                    }
                }
            }
            i += 1;
        }
        proof {
            assert forall|field: Seq<char>|
                #![trigger r@.contains_key(field)]
                #![trigger mappings@.contains_key(field)]
                r@.contains_key(field) <==> mappings@.contains_key(field)
                    && mappings@[field].field_type != FieldType::Object by {
                if r@.contains_key(field) {
                    let j = choose|j: int|
                        0 <= j < count && #[trigger] pairs[j].0 == field && pairs[j].1.field_type
                            != FieldType::Object;
                    crate::map::lemma_pair_in_map(pairs, j);
                }
                if mappings@.contains_key(field) {
                    let j = crate::map::key_index(pairs, field);
                    crate::map::lemma_pair_in_map(pairs, j);
                    assert(pairs[j].0 == field);
                }
            }
            assert forall|field: Seq<char>| #[trigger] r@.contains_key(field) implies is_column(
                r@[field],
                column_type(mappings@[field].field_type)->0,
                all,
                field,
            ) by {
                let j = choose|j: int|
                    0 <= j < count && #[trigger] pairs[j].0 == field && pairs[j].1.field_type
                        != FieldType::Object;
                crate::map::lemma_pair_in_map(pairs, j);
                assert(pairs[j].1.field_type != FieldType::Object);
            }
        }
        r
    }
}

} // verus!
