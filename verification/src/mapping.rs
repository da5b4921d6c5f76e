//! Field mappings: what type a field has, and which requests it allows.
use vstd::prelude::*;

use crate::json::lemma_object_view;
use crate::json::member_views;
use crate::json::Json;
use crate::json::JsonNumber;
use crate::json::JsonView;
use crate::json::NumberView;
use crate::map::StringMap;
use crate::text::cat3;
use crate::text::cat5;
use crate::text::decimal;
use crate::text::decimal_text;
use crate::time::instant_of;
use crate::time::parse_rfc3339;
use crate::time::Timestamp;
use crate::types::lemma_bool_view;
use crate::types::query_views;
use crate::types::AggregationRequest;
use crate::types::CloudSearchError;
use crate::types::ErrorView;
use crate::types::FieldMapping;
use crate::types::FieldType;
use crate::types::IndexMetadata;
use crate::types::MappingMode;
use crate::types::QueryView;
use crate::types::SearchQuery;
use crate::types::SearchRequest;

verus! {

/// How many fields an index can have.
pub const MAX_FIELDS_PER_INDEX: usize = 1000;

/// How many hits a search can ask for.
pub const MAX_SEARCH_SIZE: usize = 10_000;

/// How many hits a search can leave out.
pub const MAX_SEARCH_OFFSET: usize = 1_000_000;

/// The mappings of an index.
pub type Mappings = Map<Seq<char>, FieldMapping>;

/// The type of a value: nothing for null, and nothing that an array could have.
pub open spec fn inferred_type(field: Seq<char>, value: JsonView) -> Result<
    Option<FieldType>,
    ErrorView,
> {
    match value {
        JsonView::Null => Ok(None),
        JsonView::Bool(_) => Ok(Some(FieldType::Boolean)),
        JsonView::Number(NumberView::PosInt(n)) => Ok(
            Some(
                if n <= i32::MAX {
                    FieldType::Integer
                } else if n <= i64::MAX {
                    FieldType::Long
                } else {
                    FieldType::Double
                },
            ),
        ),
        JsonView::Number(NumberView::NegInt(n)) => Ok(
            Some(
                if i32::MIN <= n <= i32::MAX {
                    FieldType::Integer
                } else {
                    FieldType::Long
                },
            ),
        ),
        JsonView::Number(NumberView::Float(_, _)) => Ok(Some(FieldType::Double)),
        JsonView::Text(text) => Ok(
            Some(
                if instant_of(text) is Some {
                    FieldType::Timestamp
                } else {
                    FieldType::Keyword
                },
            ),
        ),
        JsonView::Array(_) => Err(ErrorView::UnsupportedArrayField(field)),
        JsonView::Object(_) => Ok(Some(FieldType::Object)),
    }
}

/// The type of a value.
pub fn infer_field_type(field: &str, value: &Json) -> (r: Result<
    Option<FieldType>,
    CloudSearchError,
>)
    ensures
        match r {
            Ok(t) => inferred_type(field@, value@) == Ok::<_, ErrorView>(t),
            Err(e) => inferred_type(field@, value@) == Err::<Option<FieldType>, _>(e@),
        },
{
    match value {
        Json::Null => Ok(None),
        Json::Bool(_) => Ok(Some(FieldType::Boolean)),
        Json::Number(number) => match number {
            JsonNumber::PosInt(n) => if *n <= 0x7fff_ffff {
                Ok(Some(FieldType::Integer))
            } else if *n <= 0x7fff_ffff_ffff_ffff {
                Ok(Some(FieldType::Long))
            } else {
                Ok(Some(FieldType::Double))
            },
            JsonNumber::NegInt(n) => if -0x8000_0000 <= *n && *n <= 0x7fff_ffff {
                Ok(Some(FieldType::Integer))
            } else {
                Ok(Some(FieldType::Long))
            },
            JsonNumber::Float(_) => Ok(Some(FieldType::Double)),
        },
        Json::Text(text) => if parse_rfc3339(text.as_str()).is_some() {
            Ok(Some(FieldType::Timestamp))
        } else {
            Ok(Some(FieldType::Keyword))
        },
        Json::Array(_) => Err(CloudSearchError::UnsupportedArrayField(field.to_owned())),
        Json::Object(_) => Ok(Some(FieldType::Object)),
    }
}

/// The name of a type.
pub open spec fn field_type_name(field_type: FieldType) -> Seq<char> {
    match field_type {
        FieldType::Keyword => "Keyword"@,
        FieldType::Boolean => "Boolean"@,
        FieldType::Integer => "Integer"@,
        FieldType::Long => "Long"@,
        FieldType::Double => "Double"@,
        FieldType::Timestamp => "Timestamp"@,
        FieldType::Object => "Object"@,
    }
}

fn name_of_type(field_type: FieldType) -> (r: &'static str)
    ensures
        r@ == field_type_name(field_type),
{
    match field_type {
        FieldType::Keyword => "Keyword",
        FieldType::Boolean => "Boolean",
        FieldType::Integer => "Integer",
        FieldType::Long => "Long",
        FieldType::Double => "Double",
        FieldType::Timestamp => "Timestamp",
        FieldType::Object => "Object",
    }
}

/// The mappings that the first `k` members of a document add, or why they cannot be admitted:
/// a field keeps its type, and where mappings are strict there is no new field.
pub open spec fn new_mappings(
    members: Seq<(Seq<char>, JsonView)>,
    mappings: Mappings,
    mode: MappingMode,
    k: int,
) -> Result<Seq<(Seq<char>, FieldMapping)>, ErrorView>
    decreases k,
{
    if k <= 0 || k > members.len() {
        Ok(Seq::empty())
    } else {
        let (field, value) = members[k - 1];
        match new_mappings(members, mappings, mode, k - 1) {
            Err(e) => Err(e),
            Ok(before) => match inferred_type(field, value) {
                Err(e) => Err(e),
                Ok(None) => Ok(before),
                Ok(Some(field_type)) => if mappings.contains_key(field) {
                    if mappings[field].field_type == field_type {
                        Ok(before)
                    } else {
                        Err(
                            ErrorView::MappingConflict(
                                "field '"@ + field + "' expected "@ + field_type_name(
                                    mappings[field].field_type,
                                ) + " but received "@ + field_type_name(field_type),
                            ),
                        )
                    }
                } else if mode == MappingMode::Strict {
                    Err(ErrorView::UnknownFieldRejected(field))
                } else {
                    Ok(before.push((field, FieldMapping { field_type })))
                },
            },
        }
    }
}

/// The mappings with the new ones put in.
pub open spec fn with_mappings(mappings: Mappings, new: Seq<(Seq<char>, FieldMapping)>) -> Mappings
    decreases new.len(),
{
    if new.len() == 0 {
        mappings
    } else {
        with_mappings(mappings, new.drop_last()).insert(new.last().0, new.last().1)
    }
}

/// The mappings that a document adds to an index with that many, or why it is not admitted.
pub open spec fn admitted(
    source: JsonView,
    name: Seq<char>,
    mappings: Mappings,
    count: nat,
    mode: MappingMode,
) -> Result<Seq<(Seq<char>, FieldMapping)>, ErrorView> {
    match source {
        JsonView::Object(members) => match new_mappings(
            members,
            mappings,
            mode,
            members.len() as int,
        ) {
            Err(e) => Err(e),
            Ok(new) => if count + new.len() > MAX_FIELDS_PER_INDEX {
                Err(
                    ErrorView::MappingLimitExceeded(
                        "index '"@ + name + "' exceeded maximum field count of 1000"@,
                    ),
                )
            } else {
                Ok(new)
            },
        },
        _ => Err(ErrorView::MappingConflict("document source must be a JSON object"@)),
    }
}

/// The mappings that a document adds to an index.
pub open spec fn admitted_by(metadata: IndexMetadata, source: JsonView) -> Result<
    Seq<(Seq<char>, FieldMapping)>,
    ErrorView,
> {
    admitted(
        source,
        metadata.name@,
        metadata.mappings@,
        metadata.mappings.pairs().len(),
        metadata.settings.mapping_mode,
    )
}

/// The views of a list of new mappings.
spec fn mapping_views(list: Seq<(String, FieldMapping)>) -> Seq<(Seq<char>, FieldMapping)> {
    Seq::new(list.len(), |i: int| (list[i].0@, list[i].1))
}

/// Plans the mappings that the members of a document add.
fn plan_mappings(
    members: &Vec<(String, Json)>,
    mappings: &StringMap<FieldMapping>,
    mode: MappingMode,
) -> (r: Result<Vec<(String, FieldMapping)>, CloudSearchError>)
    ensures
        ({
            let plan = new_mappings(
                member_views(members@),
                mappings@,
                mode,
                members@.len() as int,
            );
            match r {
                Ok(new) => plan == Ok::<_, ErrorView>(mapping_views(new@)),
                Err(e) => plan == Err::<Seq<(Seq<char>, FieldMapping)>, _>(e@),
            }
        }),
{
    let ghost all = member_views(members@);
    let mut new: Vec<(String, FieldMapping)> = Vec::new();
    let mut i: usize = 0;
    proof {
        assert(mapping_views(new@) =~= Seq::empty());
    }
    while i < members.len()
        invariant
            i <= members@.len(),
            all == member_views(members@),
            new_mappings(all, mappings@, mode, i as int) == Ok::<_, ErrorView>(
                mapping_views(new@),
            ),
        decreases members@.len() - i,
    {
        let field = &members[i].0;
        proof {
            assert(all[i as int] == (members@[i as int].0@, members@[i as int].1@));
        }
        match infer_field_type(field.as_str(), &members[i].1) {
            Err(e) => {
                proof {
                    lemma_plan_error(all, mappings@, mode, i + 1);
                }
                return Err(e);
            },
            Ok(None) => {},
            Ok(Some(field_type)) => match mappings.get(field.as_str()) {
                Some(existing) => if existing.field_type != field_type {
                    let mut message = cat5(
                        "field '",
                        field.as_str(),
                        "' expected ",
                        name_of_type(existing.field_type),
                        " but received ",
                    );
                    message.append(name_of_type(field_type));
                    proof {
                        lemma_plan_error(all, mappings@, mode, i + 1);
                    }
                    return Err(CloudSearchError::MappingConflict(message));
                },
                None => match mode {
                    MappingMode::Strict => {
                        proof {
                            lemma_plan_error(all, mappings@, mode, i + 1);
                        }
                        return Err(CloudSearchError::UnknownFieldRejected(field.clone()));
                    },
                    MappingMode::ControlledDynamic => {
                        let ghost before = new@;
                        new.push((field.clone(), FieldMapping { field_type }));
                        proof {
                            assert(mapping_views(new@) =~= mapping_views(before).push(
                                (field@, FieldMapping { field_type }),
                            ));
                        }
                    },
                },
            },
        }
        i += 1;
    }
    Ok(new)
}

proof fn lemma_plan_error(
    members: Seq<(Seq<char>, JsonView)>,
    mappings: Mappings,
    mode: MappingMode,
    k: int,
)
    requires
        0 <= k <= members.len(),
        new_mappings(members, mappings, mode, k) is Err,
    ensures
        new_mappings(members, mappings, mode, members.len() as int) == new_mappings(
            members,
            mappings,
            mode,
            k,
        ),
    decreases members.len() - k,
{
    if k < members.len() {
        lemma_plan_error(members, mappings, mode, k + 1);
    }
}

/// Admits a document to an index: adds the mappings of its new fields, at the time `now`, or
/// says why not. Tells whether there were new fields.
pub fn validate_and_update_mappings(
    metadata: &mut IndexMetadata,
    source: &Json,
    now: Timestamp,
) -> (r: Result<bool, CloudSearchError>)
    ensures
        final(metadata).id == old(metadata).id,
        final(metadata).name == old(metadata).name,
        final(metadata).created_at == old(metadata).created_at,
        final(metadata).settings == old(metadata).settings,
        match r {
            Ok(changed) => {
                &&& admitted_by(*old(metadata), source@) matches Ok(new)
                &&& changed == (new.len() > 0)
                &&& final(metadata).mappings@ == with_mappings(old(metadata).mappings@, new)
                &&& final(metadata).updated_at == if changed {
                    now
                } else {
                    old(metadata).updated_at
                }
            },
            Err(e) => {
                &&& admitted_by(*old(metadata), source@) == Err::<
                    Seq<(Seq<char>, FieldMapping)>,
                    _,
                >(e@)
                &&& *final(metadata) == *old(metadata)
            },
        },
{
    broadcast use lemma_object_view;

    let Json::Object(members) = source else {
        return Err(
            CloudSearchError::MappingConflict("document source must be a JSON object".to_owned()),
        );
    };
    let new = match plan_mappings(members, &metadata.mappings, metadata.settings.mapping_mode) {
        Ok(new) => new,
        Err(e) => {
            return Err(e);
        },
    };
    let count: usize = metadata.mappings.len();
    if new.len() > MAX_FIELDS_PER_INDEX || count > MAX_FIELDS_PER_INDEX - new.len() {
        return Err(
            CloudSearchError::MappingLimitExceeded(
                cat3(
                    "index '",
                    metadata.name.as_str(),
                    "' exceeded maximum field count of 1000",
                ),
            ),
        );
    }
    let ghost plan = mapping_views(new@);
    let mut i: usize = 0;
    proof {
        assert(plan.take(0) =~= Seq::empty());
    }
    while i < new.len()
        invariant
            i <= new@.len(),
            plan == mapping_views(new@),
            metadata.id == old(metadata).id,
            metadata.name == old(metadata).name,
            metadata.created_at == old(metadata).created_at,
            metadata.updated_at == old(metadata).updated_at,
            metadata.settings == old(metadata).settings,
            metadata.mappings@ == with_mappings(old(metadata).mappings@, plan.take(i as int)),
            i == 0 ==> metadata.mappings == old(metadata).mappings,
        decreases new@.len() - i,
    {
        proof {
            assert(plan.take(i + 1).drop_last() =~= plan.take(i as int));
            assert(plan.take(i + 1).last() == (new@[i as int].0@, new@[i as int].1));
        }
        metadata.mappings.insert(new[i].0.clone(), new[i].1);
        i += 1;
    }
    proof {
        assert(plan.take(i as int) =~= plan);
    }
    if new.len() > 0 {
        metadata.updated_at = now;
        Ok(true)
    } else {
        Ok(false)
    }
}

proof fn lemma_new_fields(
    members: Seq<(Seq<char>, JsonView)>,
    mappings: Mappings,
    mode: MappingMode,
    k: int,
)
    requires
        new_mappings(members, mappings, mode, k) is Ok,
    ensures
        forall|i: int|
            0 <= i < new_mappings(members, mappings, mode, k)->Ok_0.len()
                ==> !mappings.contains_key(
                (#[trigger] new_mappings(members, mappings, mode, k)->Ok_0[i]).0,
            ),
    decreases k,
{
    if 0 < k <= members.len() {
        lemma_new_fields(members, mappings, mode, k - 1);
        let before = new_mappings(members, mappings, mode, k - 1)->Ok_0;
        let all = new_mappings(members, mappings, mode, k)->Ok_0;
        assert forall|i: int| 0 <= i < all.len() implies !mappings.contains_key(
            (#[trigger] all[i]).0,
        ) by {
            if i < before.len() {
                assert(all[i] == before[i]);
            }
        }
    }
}

proof fn lemma_with_mappings(mappings: Mappings, new: Seq<(Seq<char>, FieldMapping)>)
    requires
        forall|i: int| 0 <= i < new.len() ==> !mappings.contains_key((#[trigger] new[i]).0),
        mappings.dom().finite(),
    ensures
        forall|field: Seq<char>| #[trigger]
            mappings.contains_key(field) ==> with_mappings(mappings, new).contains_key(field)
                && with_mappings(mappings, new)[field] == mappings[field],
        with_mappings(mappings, new).dom().finite(),
        with_mappings(mappings, new).dom().len() <= mappings.dom().len() + new.len(),
    decreases new.len(),
{
    if new.len() > 0 {
        let shorter = new.drop_last();
        assert forall|i: int| 0 <= i < shorter.len() implies !mappings.contains_key(
            (#[trigger] shorter[i]).0,
        ) by {
            assert(shorter[i] == new[i]);
        }
        lemma_with_mappings(mappings, shorter);
        let before = with_mappings(mappings, shorter);
        let after = with_mappings(mappings, new);
        assert(!mappings.contains_key(new[new.len() - 1].0));
        assert(after.dom() =~= before.dom().insert(new.last().0));
    }
}

/// A field that has a type keeps it, whatever documents are admitted.
pub proof fn field_types_never_change(metadata: IndexMetadata, source: JsonView, field: Seq<char>)
    requires
        crate::map::keys_ascend(metadata.mappings.pairs()),
        admitted_by(metadata, source) is Ok,
        metadata.mappings@.contains_key(field),
    ensures
        with_mappings(metadata.mappings@, admitted_by(metadata, source)->Ok_0).contains_key(field),
        with_mappings(metadata.mappings@, admitted_by(metadata, source)->Ok_0)[field]
            == metadata.mappings@[field],
{
    crate::map::lemma_map_len(metadata.mappings.pairs());
    let members = source->Object_0;
    lemma_new_fields(
        members,
        metadata.mappings@,
        metadata.settings.mapping_mode,
        members.len() as int,
    );
    lemma_with_mappings(metadata.mappings@, admitted_by(metadata, source)->Ok_0);
}

/// However many documents are admitted, an index has no more than a thousand fields.
pub proof fn field_count_stays_within_limit(metadata: IndexMetadata, source: JsonView)
    requires
        crate::map::keys_ascend(metadata.mappings.pairs()),
        admitted_by(metadata, source) is Ok,
    ensures
        with_mappings(metadata.mappings@, admitted_by(metadata, source)->Ok_0).dom().len()
            <= MAX_FIELDS_PER_INDEX,
{
    crate::map::lemma_map_len(metadata.mappings.pairs());
    let members = source->Object_0;
    lemma_new_fields(
        members,
        metadata.mappings@,
        metadata.settings.mapping_mode,
        members.len() as int,
    );
    lemma_with_mappings(metadata.mappings@, admitted_by(metadata, source)->Ok_0);
}

/// Where mappings are strict, admitting a document changes none.
pub proof fn strict_mappings_stay(metadata: IndexMetadata, source: JsonView)
    requires
        metadata.settings.mapping_mode == MappingMode::Strict,
        admitted_by(metadata, source) is Ok,
    ensures
        admitted_by(metadata, source)->Ok_0.len() == 0,
        with_mappings(metadata.mappings@, admitted_by(metadata, source)->Ok_0)
            == metadata.mappings@,
{
    let members = source->Object_0;
    lemma_strict_adds_nothing(members, metadata.mappings@, members.len() as int);
}

proof fn lemma_strict_adds_nothing(
    members: Seq<(Seq<char>, JsonView)>,
    mappings: Mappings,
    k: int,
)
    requires
        new_mappings(members, mappings, MappingMode::Strict, k) is Ok,
    ensures
        new_mappings(members, mappings, MappingMode::Strict, k)->Ok_0.len() == 0,
    decreases k,
{
    if 0 < k <= members.len() {
        lemma_strict_adds_nothing(members, mappings, k - 1);
    }
}

/// Why a field cannot be used as a scalar, if it cannot.
pub open spec fn scalar_fault(mappings: Mappings, field: Seq<char>, context: Seq<char>) -> Option<
    Seq<char>,
> {
    if mappings.contains_key(field) && mappings[field].field_type == FieldType::Object {
        Some("field '"@ + field + "' cannot be used as a scalar in '"@ + context + "'"@)
    } else {
        None
    }
}

/// Why the words of a field cannot be looked for, if they cannot.
pub open spec fn text_fault(mappings: Mappings, field: Seq<char>, context: Seq<char>) -> Option<
    Seq<char>,
> {
    if mappings.contains_key(field) && mappings[field].field_type != FieldType::Keyword {
        Some("field '"@ + field + "' does not support match queries in '"@ + context + "'"@)
    } else {
        None
    }
}

/// Why there are no numbers in a field, if there are none.
pub open spec fn numeric_fault(mappings: Mappings, field: Seq<char>, context: Seq<char>) -> Option<
    Seq<char>,
> {
    if mappings.contains_key(field) && !(mappings[field].field_type == FieldType::Integer
        || mappings[field].field_type == FieldType::Long || mappings[field].field_type
        == FieldType::Double) {
        Some("field '"@ + field + "' is not numeric for '"@ + context + "'"@)
    } else {
        None
    }
}

/// Why there are no timestamps in a field, if there are none.
pub open spec fn timestamp_fault(
    mappings: Mappings,
    field: Seq<char>,
    context: Seq<char>,
) -> Option<Seq<char>> {
    if mappings.contains_key(field) && mappings[field].field_type != FieldType::Timestamp {
        Some("field '"@ + field + "' is not a timestamp for '"@ + context + "'"@)
    } else {
        None
    }
}

/// Why a field has no ranges, if it has none.
pub open spec fn range_fault(mappings: Mappings, field: Seq<char>) -> Option<Seq<char>> {
    if mappings.contains_key(field) && !(mappings[field].field_type == FieldType::Integer
        || mappings[field].field_type == FieldType::Long || mappings[field].field_type
        == FieldType::Double || mappings[field].field_type == FieldType::Timestamp) {
        Some("field '"@ + field + "' does not support range queries"@)
    } else {
        None
    }
}

/// Whether a check came out as the fault says.
pub open spec fn reports(r: Result<(), CloudSearchError>, fault: Option<Seq<char>>) -> bool {
    match r {
        Ok(_) => fault is None,
        Err(e) => fault is Some && e@ == ErrorView::InvalidSearchRequest(fault->0),
    }
}

fn ensure_scalar_field(
    mappings: &StringMap<FieldMapping>,
    field: &str,
    context: &str,
) -> (r: Result<(), CloudSearchError>)
    ensures
        reports(r, scalar_fault(mappings@, field@, context@)),
{
    if let Some(mapping) = mappings.get(field) {
        if mapping.field_type == FieldType::Object {
            return Err(
                CloudSearchError::InvalidSearchRequest(
                    cat5("field '", field, "' cannot be used as a scalar in '", context, "'"),
                ),
            );
        }
    }
    Ok(())
}

fn ensure_text_field(
    mappings: &StringMap<FieldMapping>,
    field: &str,
    context: &str,
) -> (r: Result<(), CloudSearchError>)
    ensures
        reports(r, text_fault(mappings@, field@, context@)),
{
    if let Some(mapping) = mappings.get(field) {
        if mapping.field_type != FieldType::Keyword {
            return Err(
                CloudSearchError::InvalidSearchRequest(
                    cat5("field '", field, "' does not support match queries in '", context, "'"),
                ),
            );
        }
    }
    Ok(())
}

fn ensure_numeric_field(
    mappings: &StringMap<FieldMapping>,
    field: &str,
    context: &str,
) -> (r: Result<(), CloudSearchError>)
    ensures
        reports(r, numeric_fault(mappings@, field@, context@)),
{
    if let Some(mapping) = mappings.get(field) {
        match mapping.field_type {
            FieldType::Integer | FieldType::Long | FieldType::Double => {},
            _ => {
                return Err(
                    CloudSearchError::InvalidSearchRequest(
                        cat5("field '", field, "' is not numeric for '", context, "'"),
                    ),
                );
            },
        }
    }
    Ok(())
}

fn ensure_timestamp_field(
    mappings: &StringMap<FieldMapping>,
    field: &str,
    context: &str,
) -> (r: Result<(), CloudSearchError>)
    ensures
        reports(r, timestamp_fault(mappings@, field@, context@)),
{
    if let Some(mapping) = mappings.get(field) {
        if mapping.field_type != FieldType::Timestamp {
            return Err(
                CloudSearchError::InvalidSearchRequest(
                    cat5("field '", field, "' is not a timestamp for '", context, "'"),
                ),
            );
        }
    }
    Ok(())
}

fn ensure_range_field(mappings: &StringMap<FieldMapping>, field: &str) -> (r: Result<
    (),
    CloudSearchError,
>)
    ensures
        reports(r, range_fault(mappings@, field@)),
{
    if let Some(mapping) = mappings.get(field) {
        match mapping.field_type {
            FieldType::Integer | FieldType::Long | FieldType::Double | FieldType::Timestamp => {},
            _ => {
                return Err(
                    CloudSearchError::InvalidSearchRequest(
                        cat3("field '", field, "' does not support range queries"),
                    ),
                );
            },
        }
    }
    Ok(())
}

/// The first of two faults.
pub open spec fn first_fault(a: Option<Seq<char>>, b: Option<Seq<char>>) -> Option<Seq<char>> {
    if a is Some {
        a
    } else {
        b
    }
}

/// Why a query does not go with the mappings, if it does not.
pub open spec fn query_fault(mappings: Mappings, query: QueryView) -> Option<Seq<char>>
    decreases query, 0int,
{
    match query {
        QueryView::MatchAll => None,
        QueryView::Term { field, value, fuzziness } => scalar_fault(mappings, field, field),
        QueryView::Terms { field, values } => scalar_fault(mappings, field, field),
        QueryView::Range(range) => range_fault(mappings, range.field),
        QueryView::Bool { must, should, filter, must_not, minimum_should_match } => first_fault(
            first_fault(
                clause_fault(mappings, must, must.len() as int),
                clause_fault(mappings, should, should.len() as int),
            ),
            first_fault(
                clause_fault(mappings, filter, filter.len() as int),
                clause_fault(mappings, must_not, must_not.len() as int),
            ),
        ),
        QueryView::Prefix { field, text } => scalar_fault(mappings, field, field),
        QueryView::Wildcard { field, text } => scalar_fault(mappings, field, field),
        QueryView::Match { field, text } => text_fault(mappings, field, field),
        QueryView::Phrase { field, text } => text_fault(mappings, field, field),
    }
}

/// Why one of the first `k` queries does not go with the mappings.
pub open spec fn clause_fault(mappings: Mappings, queries: Seq<QueryView>, k: int) -> Option<
    Seq<char>,
>
    decreases queries, k,
{
    if k <= 0 || k > queries.len() {
        None
    } else {
        first_fault(
            clause_fault(mappings, queries, k - 1),
            query_fault(mappings, queries[k - 1]),
        )
    }
}

proof fn lemma_clause_fault_stays(mappings: Mappings, queries: Seq<QueryView>, k: int)
    requires
        0 <= k <= queries.len(),
        clause_fault(mappings, queries, k) is Some,
    ensures
        clause_fault(mappings, queries, queries.len() as int) == clause_fault(
            mappings,
            queries,
            k,
        ),
    decreases queries.len() - k,
{
    if k < queries.len() {
        lemma_clause_fault_stays(mappings, queries, k + 1);
    }
}

fn validate_clauses(mappings: &StringMap<FieldMapping>, queries: &Vec<SearchQuery>) -> (r: Result<
    (),
    CloudSearchError,
>)
    ensures
        reports(r, clause_fault(mappings@, query_views(queries@), queries@.len() as int)),
    decreases queries, 0int,
{
    let ghost all = query_views(queries@);
    let mut i: usize = 0;
    while i < queries.len()
        invariant
            i <= queries@.len(),
            all == query_views(queries@),
            clause_fault(mappings@, all, i as int) is None,
        decreases queries@.len() - i,
    {
        proof {
            assert(decreases_to!(queries => queries@));
            assert(decreases_to!(queries@ => queries@[i as int]));
            assert(all[i as int] == queries@[i as int]@);
        }
        match validate_query(mappings, &queries[i]) {
            Ok(_) => {},
            Err(e) => {
                proof {
                    lemma_clause_fault_stays(mappings@, all, i + 1);
                }
                return Err(e);
            },
        }
        i += 1;
    }
    Ok(())
}

/// Checks that a query goes with the mappings.
pub fn validate_query(mappings: &StringMap<FieldMapping>, query: &SearchQuery) -> (r: Result<
    (),
    CloudSearchError,
>)
    ensures
        reports(r, query_fault(mappings@, query@)),
    decreases query, 1int,
{
    match query {
        SearchQuery::MatchAll => Ok(()),
        SearchQuery::Term(q) => ensure_scalar_field(mappings, q.field.as_str(), q.field.as_str()),
        SearchQuery::Terms(q) => ensure_scalar_field(mappings, q.field.as_str(), q.field.as_str()),
        SearchQuery::Range(q) => ensure_range_field(mappings, q.field.as_str()),
        SearchQuery::Bool(combination) => {
            proof {
                lemma_bool_view(*combination);
            }
            if let Err(e) = validate_clauses(mappings, &combination.must) {
                return Err(e);
            }
            if let Err(e) = validate_clauses(mappings, &combination.should) {
                return Err(e);
            }
            if let Err(e) = validate_clauses(mappings, &combination.filter) {
                return Err(e);
            }
            validate_clauses(mappings, &combination.must_not)
        },
        SearchQuery::Prefix(q) => ensure_scalar_field(mappings, q.field.as_str(), q.field.as_str()),
        SearchQuery::Wildcard(q) => ensure_scalar_field(
            mappings,
            q.field.as_str(),
            q.field.as_str(),
        ),
        SearchQuery::Match(q) => ensure_text_field(mappings, q.field.as_str(), q.field.as_str()),
        SearchQuery::Phrase(q) => ensure_text_field(mappings, q.field.as_str(), q.field.as_str()),
    }
}

/// Whether a query looks for terms near to a value.
pub open spec fn is_fuzzy(query: QueryView) -> bool
    decreases query, 0int,
{
    match query {
        QueryView::Term { field, value, fuzziness } => fuzziness is Some,
        QueryView::Bool { must, should, filter, must_not, minimum_should_match } => {
            ||| some_fuzzy(must, must.len() as int)
            ||| some_fuzzy(should, should.len() as int)
            ||| some_fuzzy(filter, filter.len() as int)
            ||| some_fuzzy(must_not, must_not.len() as int)
        },
        _ => false,
    }
}

/// Whether one of the first `k` queries looks for terms near to a value.
pub open spec fn some_fuzzy(queries: Seq<QueryView>, k: int) -> bool
    decreases queries, k,
{
    0 < k <= queries.len() && (some_fuzzy(queries, k - 1) || is_fuzzy(queries[k - 1]))
}

proof fn lemma_some_fuzzy_stays(queries: Seq<QueryView>, k: int)
    requires
        0 <= k <= queries.len(),
        some_fuzzy(queries, k),
    ensures
        some_fuzzy(queries, queries.len() as int),
    decreases queries.len() - k,
{
    if k < queries.len() {
        lemma_some_fuzzy_stays(queries, k + 1);
    }
}

fn has_fuzzy_clause(queries: &Vec<SearchQuery>) -> (r: bool)
    ensures
        r == some_fuzzy(query_views(queries@), queries@.len() as int),
    decreases queries, 0int,
{
    let ghost all = query_views(queries@);
    let mut i: usize = 0;
    while i < queries.len()
        invariant
            i <= queries@.len(),
            all == query_views(queries@),
            !some_fuzzy(all, i as int),
        decreases queries@.len() - i,
    {
        proof {
            assert(decreases_to!(queries => queries@));
            assert(decreases_to!(queries@ => queries@[i as int]));
            assert(all[i as int] == queries@[i as int]@);
        }
        if has_fuzziness(&queries[i]) {
            proof {
                assert(some_fuzzy(all, i + 1));
                lemma_some_fuzzy_stays(all, i + 1);
            }
            return true;
        }
        i += 1;
    }
    false
}

/// Whether a query looks for terms near to a value.
pub fn has_fuzziness(query: &SearchQuery) -> (r: bool)
    ensures
        r == is_fuzzy(query@),
    decreases query, 1int,
{
    match query {
        SearchQuery::Term(term) => term.fuzziness.is_some(),
        SearchQuery::Bool(combination) => {
            proof {
                lemma_bool_view(*combination);
            }
            has_fuzzy_clause(&combination.must) || has_fuzzy_clause(&combination.should)
                || has_fuzzy_clause(&combination.filter) || has_fuzzy_clause(
                &combination.must_not,
            )
        },
        _ => false,
    }
}

/// Why an aggregation does not go with the mappings, if it does not.
pub open spec fn aggregation_fault(
    mappings: Mappings,
    name: Seq<char>,
    request: AggregationRequest,
) -> Option<Seq<char>> {
    match request {
        AggregationRequest::Terms(q) => scalar_fault(mappings, q.field@, name),
        AggregationRequest::Stats(q) => numeric_fault(mappings, q.field@, name),
        AggregationRequest::DateHistogram(q) => timestamp_fault(mappings, q.field@, name),
    }
}

/// Why one of the first `k` aggregations does not go with the mappings, if one does not.
pub open spec fn aggregations_fault(
    mappings: Mappings,
    requests: Seq<(Seq<char>, AggregationRequest)>,
    k: int,
) -> Option<Seq<char>>
    decreases k,
{
    if k <= 0 || k > requests.len() {
        None
    } else {
        first_fault(
            aggregations_fault(mappings, requests, k - 1),
            aggregation_fault(mappings, requests[k - 1].0, requests[k - 1].1),
        )
    }
}

proof fn lemma_aggregations_fault_stays(
    mappings: Mappings,
    requests: Seq<(Seq<char>, AggregationRequest)>,
    k: int,
)
    requires
        0 <= k <= requests.len(),
        aggregations_fault(mappings, requests, k) is Some,
    ensures
        aggregations_fault(mappings, requests, requests.len() as int) == aggregations_fault(
            mappings,
            requests,
            k,
        ),
    decreases requests.len() - k,
{
    if k < requests.len() {
        lemma_aggregations_fault_stays(mappings, requests, k + 1);
    }
}

fn validate_aggregations(
    mappings: &StringMap<FieldMapping>,
    requests: &StringMap<AggregationRequest>,
) -> (r: Result<(), CloudSearchError>)
    ensures
        reports(
            r,
            aggregations_fault(mappings@, requests.pairs(), requests.pairs().len() as int),
        ),
{
    let ghost pairs = requests.pairs();
    let count: usize = requests.len();
    let mut i: usize = 0;
    while i < count
        invariant
            i <= count,
            count == pairs.len(),
            pairs == requests.pairs(),
            aggregations_fault(mappings@, pairs, i as int) is None,
        decreases count - i,
    {
        let name = requests.key_at(i);
        let checked = match requests.value_at(i) {
            AggregationRequest::Terms(q) => ensure_scalar_field(
                mappings,
                q.field.as_str(),
                name.as_str(),
            ),
            AggregationRequest::Stats(q) => ensure_numeric_field(
                mappings,
                q.field.as_str(),
                name.as_str(),
            ),
            AggregationRequest::DateHistogram(q) => ensure_timestamp_field(
                mappings,
                q.field.as_str(),
                name.as_str(),
            ),
        };
        if let Err(e) = checked {
            proof {
                lemma_aggregations_fault_stays(mappings@, pairs, i + 1);
            }
            return Err(e);
        }
        i += 1;
    }
    Ok(())
}

/// Why the sort and the cursor of a request cannot be used, if they cannot.
pub open spec fn sort_fault(mappings: Mappings, request: SearchRequest) -> Option<Seq<char>> {
    match request.sort {
        Some(sort) => if mappings.contains_key(sort.field@) && mappings[sort.field@].field_type
            == FieldType::Object {
            Some("field '"@ + sort.field@ + "' cannot be used for sorting"@)
        } else if request.search_after is Some && request.query is Some && is_fuzzy(
            request.query->0@,
        ) {
            Some("search_after cannot be used with fuzzy queries"@)
        } else {
            None
        },
        None => if request.search_after is Some {
            Some("search_after requires a sort"@)
        } else {
            None
        },
    }
}

/// Why the page of a request cannot be used, if it cannot.
pub open spec fn page_fault(request: SearchRequest) -> Option<Seq<char>> {
    first_fault(
        match request.size {
            Some(size) => if size > MAX_SEARCH_SIZE {
                Some(
                    "size ("@ + decimal(size as nat) + ") exceeds maximum allowed value (10000)"@,
                )
            } else {
                None
            },
            None => None,
        },
        match request.from {
            Some(from) => if from > MAX_SEARCH_OFFSET {
                Some(
                    "from ("@ + decimal(from as nat) + ") exceeds maximum allowed value (1000000)"@,
                )
            } else {
                None
            },
            None => None,
        },
    )
}

/// Why a search cannot be done, if it cannot: the first of what is wrong with its query, its
/// sort, its page and its aggregations.
pub open spec fn request_fault(mappings: Mappings, request: SearchRequest) -> Option<Seq<char>> {
    first_fault(
        first_fault(
            match request.query {
                Some(query) => query_fault(mappings, query@),
                None => None,
            },
            sort_fault(mappings, request),
        ),
        first_fault(
            page_fault(request),
            match request.aggs {
                Some(aggs) => aggregations_fault(mappings, aggs.pairs(), aggs.pairs().len() as int),
                None => None,
            },
        ),
    )
}

fn validate_sort(mappings: &StringMap<FieldMapping>, request: &SearchRequest) -> (r: Result<
    (),
    CloudSearchError,
>)
    ensures
        reports(r, sort_fault(mappings@, *request)),
{
    match &request.sort {
        Some(sort) => {
            if let Some(mapping) = mappings.get(sort.field.as_str()) {
                if mapping.field_type == FieldType::Object {
                    return Err(
                        CloudSearchError::InvalidSearchRequest(
                            cat3("field '", sort.field.as_str(), "' cannot be used for sorting"),
                        ),
                    );
                }
            }
            if request.search_after.is_some() {
                if let Some(query) = &request.query {
                    if has_fuzziness(query) {
                        return Err(
                            CloudSearchError::InvalidSearchRequest(
                                "search_after cannot be used with fuzzy queries".to_owned(),
                            ),
                        );
                    }
                }
            }
            Ok(())
        },
        None => if request.search_after.is_some() {
            Err(CloudSearchError::InvalidSearchRequest("search_after requires a sort".to_owned()))
        } else {
            Ok(())
        },
    }
}

fn validate_page(request: &SearchRequest) -> (r: Result<(), CloudSearchError>)
    ensures
        reports(r, page_fault(*request)),
{
    if let Some(size) = request.size {
        if size > MAX_SEARCH_SIZE {
            return Err(
                CloudSearchError::InvalidSearchRequest(
                    cat3(
                        "size (",
                        decimal_text(size as u64).as_str(),
                        ") exceeds maximum allowed value (10000)",
                    ),
                ),
            );
        }
    }
    if let Some(from) = request.from {
        if from > MAX_SEARCH_OFFSET {
            return Err(
                CloudSearchError::InvalidSearchRequest(
                    cat3(
                        "from (",
                        decimal_text(from as u64).as_str(),
                        ") exceeds maximum allowed value (1000000)",
                    ),
                ),
            );
        }
    }
    Ok(())
}

/// Checks that a search can be done.
pub fn validate_search_request(
    mappings: &StringMap<FieldMapping>,
    request: &SearchRequest,
) -> (r: Result<(), CloudSearchError>)
    ensures
        reports(r, request_fault(mappings@, *request)),
{
    if let Some(query) = &request.query {
        if let Err(e) = validate_query(mappings, query) {
            return Err(e);
        }
    }
    if let Err(e) = validate_sort(mappings, request) {
        return Err(e);
    }
    if let Err(e) = validate_page(request) {
        return Err(e);
    }
    match &request.aggs {
        Some(aggs) => validate_aggregations(mappings, aggs),
        None => Ok(()),
    }
}

} // verus!
