//! The outcomes of bulk requests.
use vstd::prelude::*;

use crate::errors::message_of;
use crate::types::BulkItem;
use crate::types::BulkItemResult;
use crate::types::BulkOperation;
use crate::types::BulkRequest;
use crate::types::BulkResponse;
use crate::types::CloudSearchError;
use crate::types::ErrorView;

verus! {

/// What a [`BulkItemResult`] stands for.
pub ghost struct ItemResultView {
    pub id: Seq<char>,
    pub result: Seq<char>,
    pub sequence_number: u64,
}

impl View for BulkItemResult {
    type V = ItemResultView;

    open spec fn view(&self) -> ItemResultView {
        ItemResultView {
            id: self.id@,
            result: self.result@,
            sequence_number: self.sequence_number,
        }
    }
}

/// What a [`BulkItem`] stands for.
pub ghost enum ItemView {
    Index(ItemResultView),
    Delete(ItemResultView),
}

impl View for BulkItem {
    type V = ItemView;

    open spec fn view(&self) -> ItemView {
        match *self {
            BulkItem::Index(result) => ItemView::Index(result@),
            BulkItem::Delete(result) => ItemView::Delete(result@),
        }
    }
}

/// What an operation came to: its sequence number, or why it failed.
pub open spec fn result_of(
    id: Seq<char>,
    done: Seq<char>,
    outcome: Result<u64, ErrorView>,
) -> ItemResultView {
    match outcome {
        Ok(sequence_number) => ItemResultView { id, result: done, sequence_number },
        Err(error) => ItemResultView {
            id,
            result: "error: "@ + message_of(error),
            sequence_number: 0,
        },
    }
}

/// The item that an operation with that outcome is answered.
pub open spec fn item_of(operation: BulkOperation, outcome: Result<u64, ErrorView>) -> ItemView {
    match operation {
        BulkOperation::Index(index) => ItemView::Index(
            result_of(index.id@, "created"@, outcome),
        ),
        BulkOperation::Delete(delete) => ItemView::Delete(
            result_of(delete.id@, "deleted"@, outcome),
        ),
    }
}

/// The view of an outcome.
pub open spec fn outcome_view(outcome: Result<u64, CloudSearchError>) -> Result<u64, ErrorView> {
    match outcome {
        Ok(sequence_number) => Ok(sequence_number),
        Err(e) => Err(e@),
    }
}

/// Whether `response` answers a bulk request whose operations had those outcomes: one item for
/// each operation, in their order, and errors if and only if one of them failed.
pub open spec fn answers_bulk(
    response: BulkResponse,
    operations: Seq<BulkOperation>,
    outcomes: Seq<Result<u64, CloudSearchError>>,
) -> bool {
    &&& response.items@.len() == operations.len()
    &&& forall|i: int|
        0 <= i < operations.len() ==> (#[trigger] response.items@[i])@ == item_of(
            operations[i],
            outcome_view(outcomes[i]),
        )
    &&& response.errors <==> exists|i: int|
        0 <= i < outcomes.len() && #[trigger] outcomes[i] is Err
}

fn item_result(id: &str, done: &str, outcome: &Result<u64, CloudSearchError>) -> (r: BulkItemResult)
    ensures
        r@ == result_of(id@, done@, outcome_view(*outcome)),
{
    match outcome {
        Ok(sequence_number) => BulkItemResult {
            id: id.to_owned(),
            result: done.to_owned(),
            sequence_number: *sequence_number,
        },
        Err(e) => {
            let mut result = "error: ".to_owned();
            result.append(e.message().as_str());
            BulkItemResult { id: id.to_owned(), result, sequence_number: 0 }
        },
    }
}

/// Answers a bulk request whose operations had those outcomes. An operation that failed does not
/// keep the others from being answered.
pub fn bulk_response(
    request: &BulkRequest,
    outcomes: &Vec<Result<u64, CloudSearchError>>,
) -> (r: BulkResponse)
    requires
        outcomes@.len() == request.operations@.len(),
    ensures
        answers_bulk(r, request.operations@, outcomes@),
{
    let mut items: Vec<BulkItem> = Vec::new();
    let mut errors: bool = false;
    let mut i: usize = 0;
    while i < request.operations.len()
        invariant
            i <= request.operations@.len(),
            outcomes@.len() == request.operations@.len(),
            items@.len() == i,
            forall|j: int|
                0 <= j < i ==> (#[trigger] items@[j])@ == item_of(
                    request.operations@[j],
                    outcome_view(outcomes@[j]),
                ),
            errors <==> exists|j: int| 0 <= j < i && #[trigger] outcomes@[j] is Err,
        decreases request.operations@.len() - i,
    {
        let outcome = &outcomes[i];
        let item = match &request.operations[i] {
            BulkOperation::Index(index) => BulkItem::Index(
                item_result(index.id.as_str(), "created", outcome),
            ),
            BulkOperation::Delete(delete) => BulkItem::Delete(
                item_result(delete.id.as_str(), "deleted", outcome),
            ),
        };
        items.push(item);
        proof {
            if errors {
                let j = choose|j: int| 0 <= j < i && #[trigger] outcomes@[j] is Err;
                assert(outcomes@[j] is Err);
            }
            if outcome is Err {
                assert(outcomes@[i as int] is Err);
            }
        }
        if outcome.is_err() {
            errors = true;
        }
        i += 1;
    }
    BulkResponse { errors, items }
}

/// The outcomes of a bulk request as clients see them.
#[derive(Debug)]
pub struct CompatBulkResponse {
    pub errors: bool,
    pub items: Vec<CompatBulkItem>,
}

/// The outcome of one operation as clients see it.
#[derive(Debug)]
pub enum CompatBulkItem {
    Index(CompatBulkItemResult),
    Delete(CompatBulkItemResult),
}

/// What an operation came to, as clients see it.
#[derive(Debug)]
pub struct CompatBulkItemResult {
    pub id: String,
    pub result: String,
}

/// Whether a client sees the item so: it keeps its kind, its id and its result.
pub open spec fn shows_item(shown: CompatBulkItem, item: ItemView) -> bool {
    match (shown, item) {
        (CompatBulkItem::Index(s), ItemView::Index(i)) => s.id@ == i.id && s.result@ == i.result,
        (CompatBulkItem::Delete(s), ItemView::Delete(i)) => s.id@ == i.id && s.result@ == i.result,
        _ => false,
    }
}

/// What an operation came to, as clients see it.
pub fn to_compat_bulk_item_result(result: BulkItemResult) -> (r: CompatBulkItemResult)
    ensures
        r.id@ == result@.id,
        r.result@ == result@.result,
{
    CompatBulkItemResult { id: result.id, result: result.result }
}

fn to_compat_bulk_item(item: BulkItem) -> (r: CompatBulkItem)
    ensures
        shows_item(r, item@),
{
    match item {
        BulkItem::Index(result) => CompatBulkItem::Index(to_compat_bulk_item_result(result)),
        BulkItem::Delete(result) => CompatBulkItem::Delete(to_compat_bulk_item_result(result)),
    }
}

/// The outcomes of a bulk request as clients see them, in the same order.
pub fn to_compat_bulk_response(response: BulkResponse) -> (r: CompatBulkResponse)
    ensures
        r.errors == response.errors,
        r.items@.len() == response.items@.len(),
        forall|i: int|
            0 <= i < r.items@.len() ==> shows_item(#[trigger] r.items@[i], response.items@[i]@),
{
    let ghost all = response.items@;
    let mut rest = response.items;
    let mut reversed: Vec<CompatBulkItem> = Vec::new();
    while rest.len() > 0
        invariant
            rest@.len() + reversed@.len() == all.len(),
            rest@ == all.take(rest@.len() as int),
            forall|i: int|
                0 <= i < reversed@.len() ==> shows_item(
                    #[trigger] reversed@[i],
                    all[all.len() - 1 - i]@,
                ),
        decreases rest@.len(),
    {
        let ghost before = rest@;
        if let Some(item) = rest.pop() {
            proof {
                assert(item == all[before.len() - 1]);
                assert(rest@ =~= all.take(rest@.len() as int));
            }
            reversed.push(to_compat_bulk_item(item));
        }
    }
    let mut items: Vec<CompatBulkItem> = Vec::new();
    while reversed.len() > 0
        invariant
            items@.len() + reversed@.len() == all.len(),
            forall|i: int|
                0 <= i < reversed@.len() ==> shows_item(
                    #[trigger] reversed@[i],
                    all[all.len() - 1 - i]@,
                ),
            forall|i: int| 0 <= i < items@.len() ==> shows_item(#[trigger] items@[i], all[i]@),
        decreases reversed@.len(),
    {
        if let Some(item) = reversed.pop() {
            items.push(item);
        }
    }
    CompatBulkResponse { errors: response.errors, items }
}

} // verus!
