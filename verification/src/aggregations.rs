//! Aggregations over the documents that a query finds.
use vstd::prelude::*;

use crate::doc_values::sources;
use crate::doc_values::DocValuesField;
use crate::doc_values_reader::DocValuesReader;
use crate::doubles::double_rank;
use crate::doubles::rank_of_double;
use crate::json::quoted;
use crate::json::quoted_texts_stay_apart;
use crate::json::scalar_text;
use crate::json::text_member;
use crate::json::Json;
use crate::json::JsonView;
use crate::json::NumberView;
use crate::map::keys_ascend;
use crate::map::lemma_pair_in_map;
use crate::map::StringMap;
use crate::sort::arranged;
use crate::sort::is_arrangement;
use crate::sort::lemma_arrangement_covers;
use crate::sort::lemma_one_listing;
use crate::sort::sort;
use crate::sort::strictly_ordered;
use crate::sort::Sortable;
use crate::text::decimal;
use crate::text::text_lt;
use crate::text::text_lt_asymmetric;
use crate::text::text_lt_transitive;
use crate::text::text_order;
use crate::text::TextOrder;
use crate::time::instant_of;
use crate::time::interval_start;
use crate::time::parse_rfc3339;
use crate::time::rfc3339_text;
use crate::time::rfc3339_text_of;
use crate::time::truncate_timestamp;
use crate::types::AggregationRequest;
use crate::types::DateHistogramInterval;
use crate::types::IndexDocument;

verus! {

/// The outcome of an aggregation.
#[derive(Debug)]
pub enum AggregationResult {
    Terms(TermsAggregationResult),
    Stats(StatsAggregationResult),
    DateHistogram(DateHistogramAggregationResult),
}

/// How often each value occurs, the most frequent first.
#[derive(Debug)]
pub struct TermsAggregationResult {
    pub buckets: Vec<TermsBucket>,
}

/// A value and how often it occurs.
#[derive(Debug)]
pub struct TermsBucket {
    pub key: Json,
    pub doc_count: usize,
}

/// The numbers over which statistics are taken, the least and the greatest of them, all as bit
/// patterns of doubles.
#[derive(Debug)]
pub struct StatsAggregationResult {
    pub count: usize,
    pub values: Vec<u64>,
    pub min: Option<u64>,
    pub max: Option<u64>,
}

/// How many points in time fall into each interval, in the order of the intervals' texts.
#[derive(Debug)]
pub struct DateHistogramAggregationResult {
    pub buckets: Vec<DateHistogramBucket>,
}

/// An interval and how many points in time fall into it.
#[derive(Debug)]
pub struct DateHistogramBucket {
    pub key: String,
    pub doc_count: usize,
}

/// The columns that are at hand, if any.
pub type Columns = Option<Map<Seq<char>, DocValuesField>>;

/// How often `text` is the first part of an entry.
pub open spec fn count_of<V>(entries: Seq<(Seq<char>, V)>, text: Seq<char>) -> nat
    decreases entries.len(),
{
    if entries.len() == 0 {
        0
    } else {
        count_of(entries.drop_last(), text) + if entries.last().0 == text {
            1nat
        } else {
            0nat
        }
    }
}

/// The second part of the first entry whose first part is `text`.
pub open spec fn first_of<V>(entries: Seq<(Seq<char>, V)>, text: Seq<char>) -> V
    decreases entries.len(),
{
    if entries.len() == 0 || count_of(entries.drop_last(), text) == 0 {
        entries.last().1
    } else {
        first_of(entries.drop_last(), text)
    }
}

/// Whether `texts` lists each text that occurs in `entries` once, the most frequent first and
/// those of the same frequency in their order.
pub open spec fn by_frequency<V>(texts: Seq<Seq<char>>, entries: Seq<(Seq<char>, V)>) -> bool {
    &&& forall|i: int| 0 <= i < texts.len() ==> count_of(entries, #[trigger] texts[i]) > 0
    &&& forall|t: Seq<char>| #[trigger] count_of(entries, t) > 0 ==> texts.contains(t)
    &&& forall|i: int, j: int|
        0 <= i < j < texts.len() ==> {
            let a = #[trigger] texts[i];
            let b = #[trigger] texts[j];
            count_of(entries, a) > count_of(entries, b) || (count_of(entries, a) == count_of(
                entries,
                b,
            ) && text_lt(a, b))
        }
}

/// Whether `buckets` counts the values of `entries`, which are told apart by their texts.
pub open spec fn are_term_buckets(
    buckets: Seq<TermsBucket>,
    entries: Seq<(Seq<char>, JsonView)>,
) -> bool {
    exists|texts: Seq<Seq<char>>| #[trigger]
        by_frequency(texts, entries) && texts.len() == buckets.len() && forall|i: int|
            0 <= i < texts.len() ==> (#[trigger] buckets[i]).key@ == first_of(entries, texts[i])
                && buckets[i].doc_count == count_of(entries, texts[i])
}

/// The values of the field, each with its JSON text. Null and containers do not count.
pub open spec fn scalar_entries(documents: Seq<JsonView>, field: Seq<char>) -> Seq<
    (Seq<char>, JsonView),
>
    decreases documents.len(),
{
    if documents.len() == 0 {
        Seq::empty()
    } else {
        let before = scalar_entries(documents.drop_last(), field);
        match documents.last().member(field) {
            Some(v) => match scalar_text(v) {
                Some(text) => before.push((text, v)),
                None => before,
            },
            None => before,
        }
    }
}

/// A value that occurred, its text, and how often it did.
struct Group {
    text: String,
    value: Json,
    count: usize,
}

impl Sortable for Group {
    closed spec fn before(self, other: Group) -> bool {
        self.count > other.count || (self.count == other.count && text_lt(
            self.text@,
            other.text@,
        ))
    }

    fn goes_before(&self, other: &Group) -> (r: bool) {
        if self.count != other.count {
            return self.count > other.count;
        }
        match text_order(self.text.as_str(), other.text.as_str()) {
            TextOrder::Before => true,
            _ => false,
        }
    }
}

/// The views of a list of entries.
spec fn entry_views(entries: Seq<(String, Json)>) -> Seq<(Seq<char>, JsonView)> {
    Seq::new(entries.len(), |i: int| (entries[i].0@, entries[i].1@))
}

/// Whether the groups are those of the entries.
spec fn are_groups(groups: Map<Seq<char>, Group>, entries: Seq<(Seq<char>, JsonView)>) -> bool {
    &&& forall|t: Seq<char>| #[trigger]
        groups.contains_key(t) <==> count_of(entries, t) > 0
    &&& forall|t: Seq<char>| #[trigger]
        groups.contains_key(t) ==> groups[t].text@ == t && groups[t].count == count_of(entries, t)
            && groups[t].value@ == first_of(entries, t)
}

proof fn lemma_count_bound<V>(entries: Seq<(Seq<char>, V)>, text: Seq<char>)
    ensures
        count_of(entries, text) <= entries.len(),
    decreases entries.len(),
{
    if entries.len() > 0 {
        lemma_count_bound(entries.drop_last(), text);
    }
}

/// Groups the entries by their texts.
fn group_entries(entries: Vec<(String, Json)>) -> (r: StringMap<Group>)
    ensures
        are_groups(r@, entry_views(entries@)),
{
    let ghost all = entry_views(entries@);
    let total: usize = entries.len();
    let mut groups: StringMap<Group> = StringMap::new();
    let mut i: usize = 0;
    proof {
        assert(all.take(0) =~= Seq::empty());
    }
    while i < total
        invariant
            i <= total,
            total == entries@.len(),
            all == entry_views(entries@),
            are_groups(groups@, all.take(i as int)),
        decreases total - i,
    {
        let ghost done = all.take(i as int);
        let ghost next = all.take(i + 1);
        let text = &entries[i].0;
        let ghost before = groups@;
        proof {
            assert(next.drop_last() =~= done);
            assert(next.last() == all[i as int]);
            lemma_count_bound(done, text@);
        }
        let group = match groups.remove(text.as_str()) {
            Some(group) => Group { count: group.count + 1, ..group },
            None => Group { text: text.clone(), value: entries[i].1.copy(), count: 1 },
        };
        groups.insert(text.clone(), group);
        proof {
            assert forall|t: Seq<char>| #[trigger] groups@.contains_key(t) <==> count_of(next, t)
                > 0 by {
                assert(before.contains_key(t) <==> count_of(done, t) > 0);
            }
            assert forall|t: Seq<char>| #[trigger] groups@.contains_key(t) implies groups@[t].text@
                == t && groups@[t].count == count_of(next, t) && groups@[t].value@ == first_of(
                next,
                t,
            ) by {
                assert(before.contains_key(t) <==> count_of(done, t) > 0);
                if t != text@ {
                    assert(before.contains_key(t));
                }
            }
        }
        i += 1;
    }
    proof {
        assert(all.take(i as int) =~= all);
    }
    groups
}

/// Counts the entries by their texts.
fn count_terms(entries: Vec<(String, Json)>) -> (r: Vec<TermsBucket>)
    ensures
        are_term_buckets(r@, entry_views(entries@)),
{
    let ghost all = entry_views(entries@);
    let groups = group_entries(entries);
    let ghost pairs = groups.pairs();
    let count: usize = groups.len();
    let mut list: Vec<Group> = Vec::new();
    let mut i: usize = 0;
    while i < count
        invariant
            i <= count,
            count == pairs.len(),
            pairs == groups.pairs(),
            keys_ascend(pairs),
            are_groups(groups@, all),
            list@.len() == i,
            forall|j: int|
                0 <= j < i ==> (#[trigger] list@[j]).text@ == pairs[j].0 && list@[j].count
                    == count_of(all, pairs[j].0) && list@[j].value@ == first_of(all, pairs[j].0),
        decreases count - i,
    {
        let group = groups.value_at(i);
        proof {
            lemma_pair_in_map(pairs, i as int);
            assert(groups@.contains_key(pairs[i as int].0));
        }
        list.push(
            Group { text: group.text.clone(), value: group.value.copy(), count: group.count },
        );
        i += 1;
    }
    let ghost found = list@;
    proof {
        assert(strictly_ordered(found)) by {
            assert forall|i: int, j: int|
                0 <= i < found.len() && 0 <= j < found.len() && i != j implies ((
            #[trigger] found[i]).before(#[trigger] found[j]) <==> !found[j].before(found[i])) by {
                if i < j {
                    text_lt_asymmetric(pairs[i].0, pairs[j].0);
                } else {
                    text_lt_asymmetric(pairs[j].0, pairs[i].0);
                }
            }
            assert forall|i: int, j: int, k: int|
                0 <= i < found.len() && 0 <= j < found.len() && 0 <= k < found.len() && (
                #[trigger] found[i]).before(#[trigger] found[j]) && found[j].before(
                    #[trigger] found[k],
                ) implies found[i].before(found[k]) by {
                if found[i].count == found[j].count && found[j].count == found[k].count {
                    text_lt_transitive(found[i].text@, found[j].text@, found[k].text@);
                }
            }
        }
    }
    let sorted = sort(list);
    let ghost order = choose|order: Seq<int>|
        #[trigger] is_arrangement(order, found.len() as int) && sorted@ == arranged(found, order);
    let mut r: Vec<TermsBucket> = Vec::new();
    let ghost texts = Seq::new(sorted@.len(), |i: int| sorted@[i].text@);
    let mut k: usize = 0;
    while k < sorted.len()
        invariant
            k <= sorted@.len(),
            r@.len() == k,
            forall|j: int|
                0 <= j < k ==> (#[trigger] r@[j]).key@ == sorted@[j].value@ && r@[j].doc_count
                    == sorted@[j].count,
        decreases sorted@.len() - k,
    {
        r.push(TermsBucket { key: sorted[k].value.copy(), doc_count: sorted[k].count });
        k += 1;
    }
    proof {
        assert forall|i: int| 0 <= i < texts.len() implies #[trigger] texts[i] == pairs[order[i]].0
            by {
            assert(sorted@[i] == found[order[i]]);
        }
        assert(by_frequency(texts, all)) by {
            assert forall|i: int| 0 <= i < texts.len() implies count_of(all, #[trigger] texts[i])
                > 0 by {
                lemma_pair_in_map(pairs, order[i]);
                assert(groups@.contains_key(texts[i]));
            }
            assert forall|t: Seq<char>| #[trigger] count_of(all, t) > 0 implies texts.contains(
                t,
            ) by {
                assert(groups@.contains_key(t));
                let p = crate::map::key_index(pairs, t);
                lemma_arrangement_covers(order, found.len() as int, p);
                let q = choose|q: int| 0 <= q < order.len() && #[trigger] order[q] == p;
                assert(texts[q] == t);
            }
            assert forall|i: int, j: int| 0 <= i < j < texts.len() implies ({
                let a = #[trigger] texts[i];
                let b = #[trigger] texts[j];
                count_of(all, a) > count_of(all, b) || (count_of(all, a) == count_of(all, b)
                    && text_lt(a, b))
            }) by {
                assert(sorted@[i].before(sorted@[j]));
                assert(sorted@[i] == found[order[i]]);
                assert(sorted@[j] == found[order[j]]);
            }
        }
        assert forall|i: int| 0 <= i < texts.len() implies (#[trigger] r@[i]).key@ == first_of(
            all,
            texts[i],
        ) && r@[i].doc_count == count_of(all, texts[i]) by {
            assert(sorted@[i] == found[order[i]]);
            assert(texts[i] == pairs[order[i]].0);
        }
    }
    r
}

/// Counts the values of a field in the documents that were found. The columns hold those of all
/// documents, and take no part.
pub fn compute_terms_aggregation(
    documents: &Vec<IndexDocument>,
    field: &str,
    _doc_values: Option<&DocValuesReader>,
) -> (r: TermsAggregationResult)
    ensures
        are_term_buckets(
            r.buckets@,
            scalar_entries(sources(documents@), field@),
        ),
{
    let mut entries: Vec<(String, Json)> = Vec::new();
    let ghost all = sources(documents@);
    let mut i: usize = 0;
    proof {
        assert(all.take(0) =~= Seq::empty());
        assert(entry_views(entries@) =~= Seq::empty());
    }
    while i < documents.len()
        invariant
            i <= documents@.len(),
            all == sources(documents@),
            entry_views(entries@) == scalar_entries(all.take(i as int), field@),
        decreases documents@.len() - i,
    {
        proof {
            assert(all.take(i + 1).drop_last() =~= all.take(i as int));
            assert(all.take(i + 1).last() == documents@[i as int].source@);
        }
        if let Some(value) = documents[i].source.get(field) {
            if let Some(text) = value.scalar_text() {
                let ghost before = entries@;
                entries.push((text, value.copy()));
                proof {
                    assert(entry_views(entries@) =~= entry_views(before).push((text@, value@)));
                }
            }
        }
        i += 1;
    }
    proof {
        assert(all.take(i as int) =~= all);
    }
    TermsAggregationResult { buckets: count_terms(entries) }
}

/// The numbers of the field.
pub open spec fn numbers_of(documents: Seq<JsonView>, field: Seq<char>) -> Seq<u64>
    decreases documents.len(),
{
    if documents.len() == 0 {
        Seq::empty()
    } else {
        let before = numbers_of(documents.drop_last(), field);
        match documents.last().member(field) {
            Some(v) => match v.as_double() {
                Some(bits) => before.push(bits),
                None => before,
            },
            None => before,
        }
    }
}

/// Whether a bit pattern is that of a double that is not a number.
pub open spec fn is_nan(bits: u64) -> bool {
    let magnitude = if bits < 0x8000_0000_0000_0000 {
        bits as int
    } else {
        bits - 0x8000_0000_0000_0000
    };
    magnitude > 0x7ff0_0000_0000_0000
}

fn holds_nan(bits: u64) -> (r: bool)
    ensures
        r == is_nan(bits),
{
    if bits < 0x8000_0000_0000_0000 {
        bits > 0x7ff0_0000_0000_0000
    } else {
        bits - 0x8000_0000_0000_0000 > 0x7ff0_0000_0000_0000
    }
}

/// Whether `a` is no worse a least number than `b`: anything that is a number is better than
/// what is none.
pub open spec fn no_greater(a: u64, b: u64) -> bool {
    is_nan(b) || (!is_nan(a) && double_rank(a) <= double_rank(b))
}

/// Whether `a` is no worse a greatest number than `b`.
pub open spec fn no_less(a: u64, b: u64) -> bool {
    is_nan(b) || (!is_nan(a) && double_rank(a) >= double_rank(b))
}

/// Whether the first of the least numbers is the one at `at`.
pub open spec fn least_at(numbers: Seq<u64>, at: int) -> bool {
    &&& 0 <= at < numbers.len()
    &&& forall|i: int|
        0 <= i < numbers.len() ==> no_greater(numbers[at], #[trigger] numbers[i])
    &&& forall|i: int| 0 <= i < at ==> !no_greater(#[trigger] numbers[i], numbers[at])
}

/// Whether the first of the greatest numbers is the one at `at`.
pub open spec fn greatest_at(numbers: Seq<u64>, at: int) -> bool {
    &&& 0 <= at < numbers.len()
    &&& forall|i: int| 0 <= i < numbers.len() ==> no_less(numbers[at], #[trigger] numbers[i])
    &&& forall|i: int| 0 <= i < at ==> !no_less(#[trigger] numbers[i], numbers[at])
}

/// Whether `least` is the least of the numbers, the first where several are equal, as the two
/// zeros are. There is none of no numbers.
pub open spec fn is_least(least: Option<u64>, numbers: Seq<u64>) -> bool {
    match least {
        None => numbers.len() == 0,
        Some(bits) => exists|at: int| #[trigger] least_at(numbers, at) && numbers[at] == bits,
    }
}

/// Whether `greatest` is the greatest of the numbers, the first where several are equal.
pub open spec fn is_greatest(greatest: Option<u64>, numbers: Seq<u64>) -> bool {
    match greatest {
        None => numbers.len() == 0,
        Some(bits) => exists|at: int| #[trigger] greatest_at(numbers, at) && numbers[at] == bits,
    }
}

/// One number more: it is the least where it is less than the least so far.
proof fn lemma_least_of_more(before: Seq<u64>, at: int, bits: u64)
    requires
        least_at(before, at),
    ensures
        !no_greater(before[at], bits) ==> least_at(before.push(bits), before.len() as int),
        no_greater(before[at], bits) ==> least_at(before.push(bits), at),
{
    let after = before.push(bits);
    let n = before.len() as int;
    assert(after[n] == bits);
    assert forall|i: int| 0 <= i < n implies #[trigger] after[i] == before[i] by {}
    if !no_greater(before[at], bits) {
        assert forall|i: int| 0 <= i < after.len() implies no_greater(after[n], #[trigger] after[i]) by {
            if i < n {
                assert(no_greater(before[at], before[i]));
            }
        }
        assert forall|i: int| 0 <= i < n implies !no_greater(#[trigger] after[i], after[n]) by {
            assert(no_greater(before[at], before[i]));
        }
    } else {
        assert forall|i: int| 0 <= i < at implies !no_greater(#[trigger] after[i], after[at]) by {
            assert(!no_greater(before[i], before[at]));
        }
        assert forall|i: int| 0 <= i < after.len() implies no_greater(
            after[at],
            #[trigger] after[i],
        ) by {
            if i < n {
                assert(no_greater(before[at], before[i]));
            }
        }
    }
}

/// One number more: it is the greatest where it is greater than the greatest so far.
proof fn lemma_greatest_of_more(before: Seq<u64>, at: int, bits: u64)
    requires
        greatest_at(before, at),
    ensures
        !no_less(before[at], bits) ==> greatest_at(before.push(bits), before.len() as int),
        no_less(before[at], bits) ==> greatest_at(before.push(bits), at),
{
    let after = before.push(bits);
    let n = before.len() as int;
    assert(after[n] == bits);
    assert forall|i: int| 0 <= i < n implies #[trigger] after[i] == before[i] by {}
    if !no_less(before[at], bits) {
        assert forall|i: int| 0 <= i < after.len() implies no_less(after[n], #[trigger] after[i]) by {
            if i < n {
                assert(no_less(before[at], before[i]));
            }
        }
        assert forall|i: int| 0 <= i < n implies !no_less(#[trigger] after[i], after[n]) by {
            assert(no_less(before[at], before[i]));
        }
    } else {
        assert forall|i: int| 0 <= i < at implies !no_less(#[trigger] after[i], after[at]) by {
            assert(!no_less(before[i], before[at]));
        }
        assert forall|i: int| 0 <= i < after.len() implies no_less(after[at], #[trigger] after[i]) by {
            if i < n {
                assert(no_less(before[at], before[i]));
            }
        }
    }
}

/// Whether `result` has those numbers, their count, the least and the greatest of them.
pub open spec fn are_stats(result: StatsAggregationResult, numbers: Seq<u64>) -> bool {
    &&& result.values@ == numbers
    &&& result.count == numbers.len()
    &&& is_least(result.min, numbers)
    &&& is_greatest(result.max, numbers)
}

/// Takes statistics over numbers.
fn stats_over(values: Vec<u64>) -> (r: StatsAggregationResult)
    ensures
        are_stats(r, values@),
{
    let mut min: Option<u64> = None;
    let mut max: Option<u64> = None;
    let mut i: usize = 0;
    while i < values.len()
        invariant
            i <= values@.len(),
            is_least(min, values@.take(i as int)),
            is_greatest(max, values@.take(i as int)),
        decreases values@.len() - i,
    {
        let bits: u64 = values[i];
        let ghost before = values@.take(i as int);
        let ghost after = values@.take(i + 1);
        proof {
            assert(after =~= before.push(bits));
            if i == 0 {
                assert(least_at(after, 0));
                assert(greatest_at(after, 0));
            } else {
                let at = choose|at: int| #[trigger]
                    least_at(before, at) && before[at] == min->0;
                lemma_least_of_more(before, at, bits);
                let at = choose|at: int| #[trigger]
                    greatest_at(before, at) && before[at] == max->0;
                lemma_greatest_of_more(before, at, bits);
            }
            assert(after[i as int] == bits);
        }
        let fresh: bool = !holds_nan(bits);
        min =
        match min {
            None => Some(bits),
            Some(m) => if fresh && (holds_nan(m) || rank_of_double(bits) < rank_of_double(m)) {
                Some(bits)
            } else {
                Some(m)
            },
        };
        max =
        match max {
            None => Some(bits),
            Some(m) => if fresh && (holds_nan(m) || rank_of_double(bits) > rank_of_double(m)) {
                Some(bits)
            } else {
                Some(m)
            },
        };
        i += 1;
    }
    proof {
        assert(values@.take(i as int) =~= values@);
    }
    StatsAggregationResult { count: values.len(), values, min, max }
}

/// Takes statistics over the numbers of a field in the documents that were found. The columns hold
/// those of all documents, and take no part.
pub fn compute_stats_aggregation(
    documents: &Vec<IndexDocument>,
    field: &str,
    _doc_values: Option<&DocValuesReader>,
) -> (r: StatsAggregationResult)
    ensures
        are_stats(r, numbers_of(sources(documents@), field@)),
{
    let ghost all = sources(documents@);
    let mut values: Vec<u64> = Vec::new();
    let mut i: usize = 0;
    proof {
        assert(all.take(0) =~= Seq::empty());
    }
    while i < documents.len()
        invariant
            i <= documents@.len(),
            all == sources(documents@),
            values@ == numbers_of(all.take(i as int), field@),
        decreases documents@.len() - i,
    {
        proof {
            assert(all.take(i + 1).drop_last() =~= all.take(i as int));
            assert(all.take(i + 1).last() == documents@[i as int].source@);
        }
        if let Some(value) = documents[i].source.get(field) {
            if let Some(bits) = value.as_double() {
                values.push(bits);
            }
        }
        i += 1;
    }
    proof {
        assert(all.take(i as int) =~= all);
    }
    stats_over(values)
}

/// The text of the interval that a second falls into.
pub open spec fn interval_text(secs: int, interval: DateHistogramInterval) -> Seq<char> {
    rfc3339_text_of(interval_start(secs, interval) as i64)
}

/// The intervals of the points in time that the texts of the field name.
pub open spec fn text_intervals(
    documents: Seq<JsonView>,
    field: Seq<char>,
    interval: DateHistogramInterval,
) -> Seq<(Seq<char>, ())>
    decreases documents.len(),
{
    if documents.len() == 0 {
        Seq::empty()
    } else {
        let before = text_intervals(documents.drop_last(), field, interval);
        match text_member(documents.last(), field) {
            Some(text) => match instant_of(text) {
                Some(t) => before.push((interval_text(t.secs as int, interval), ())),
                None => before,
            },
            None => before,
        }
    }
}

/// Whether `buckets` counts the intervals of `entries`, in the order of their texts.
pub open spec fn are_histogram_buckets(
    buckets: Seq<DateHistogramBucket>,
    entries: Seq<(Seq<char>, ())>,
) -> bool {
    &&& forall|i: int|
        0 <= i < buckets.len() ==> (#[trigger] buckets[i]).doc_count == count_of(
            entries,
            buckets[i].key@,
        ) && buckets[i].doc_count > 0
    &&& forall|t: Seq<char>| #[trigger]
        count_of(entries, t) > 0 ==> exists|i: int|
            0 <= i < buckets.len() && (#[trigger] buckets[i]).key@ == t
    &&& forall|i: int, j: int|
        0 <= i < j < buckets.len() ==> text_lt(
            (#[trigger] buckets[i]).key@,
            (#[trigger] buckets[j]).key@,
        )
}

/// Whether `counts` counts the entries.
spec fn are_counts(counts: Map<Seq<char>, usize>, entries: Seq<(Seq<char>, ())>) -> bool {
    &&& forall|t: Seq<char>| #[trigger]
        counts.contains_key(t) <==> count_of(entries, t) > 0
    &&& forall|t: Seq<char>| #[trigger]
        counts.contains_key(t) ==> counts[t] == count_of(entries, t)
}

/// Counts one more entry.
fn count_one(counts: &mut StringMap<usize>, text: String, Ghost(entries): Ghost<Seq<(Seq<char>, ())>>)
    requires
        are_counts(old(counts)@, entries),
        entries.len() < usize::MAX,
    ensures
        are_counts(final(counts)@, entries.push((text@, ()))),
{
    let ghost before = counts@;
    let ghost next = entries.push((text@, ()));
    proof {
        assert(next.drop_last() =~= entries);
        lemma_count_bound(entries, text@);
    }
    let count: usize = match counts.get(text.as_str()) {
        Some(count) => *count + 1,
        None => 1,
    };
    counts.insert(text, count);
    proof {
        assert forall|t: Seq<char>| #[trigger] counts@.contains_key(t) <==> count_of(next, t)
            > 0 by {
            assert(before.contains_key(t) <==> count_of(entries, t) > 0);
        }
        assert forall|t: Seq<char>| #[trigger] counts@.contains_key(t) implies counts@[t]
            == count_of(next, t) by {
            assert(before.contains_key(t) <==> count_of(entries, t) > 0);
        }
    }
}

fn histogram_buckets(
    counts: StringMap<usize>,
    Ghost(entries): Ghost<Seq<(Seq<char>, ())>>,
) -> (r: Vec<DateHistogramBucket>)
    requires
        are_counts(counts@, entries),
    ensures
        are_histogram_buckets(r@, entries),
{
    let ghost pairs = counts.pairs();
    let count: usize = counts.len();
    let mut r: Vec<DateHistogramBucket> = Vec::new();
    let mut i: usize = 0;
    while i < count
        invariant
            i <= count,
            count == pairs.len(),
            pairs == counts.pairs(),
            r@.len() == i,
            forall|j: int|
                0 <= j < i ==> (#[trigger] r@[j]).key@ == pairs[j].0 && r@[j].doc_count
                    == pairs[j].1,
        decreases count - i,
    {
        r.push(
            DateHistogramBucket {
                key: counts.key_at(i).clone(),
                doc_count: *counts.value_at(i),
            },
        );
        i += 1;
    }
    proof {
        assert forall|i: int| 0 <= i < r@.len() implies (#[trigger] r@[i]).doc_count == count_of(
            entries,
            r@[i].key@,
        ) && r@[i].doc_count > 0 by {
            lemma_pair_in_map(pairs, i);
            assert(counts@.contains_key(pairs[i].0));
        }
        assert forall|t: Seq<char>| #[trigger] count_of(entries, t) > 0 implies exists|i: int|
            0 <= i < r@.len() && (#[trigger] r@[i]).key@ == t by {
            assert(counts@.contains_key(t));
            let p = crate::map::key_index(pairs, t);
            assert(r@[p].key@ == t);
        }
    }
    r
}

/// Counts the points in time of a field by minute, hour or day, in the documents that were found.
/// The columns hold those of all documents, and take no part.
pub fn compute_date_histogram_aggregation(
    documents: &Vec<IndexDocument>,
    field: &str,
    interval: DateHistogramInterval,
    _doc_values: Option<&DocValuesReader>,
) -> (r: DateHistogramAggregationResult)
    ensures
        are_histogram_buckets(
            r.buckets@,
            text_intervals(sources(documents@), field@, interval),
        ),
{
    let mut counts: StringMap<usize> = StringMap::new();
    let ghost all = sources(documents@);
    let mut i: usize = 0;
    proof {
        assert(all.take(0) =~= Seq::empty());
    }
    while i < documents.len()
        invariant
            i <= documents@.len(),
            all == sources(documents@),
            are_counts(counts@, text_intervals(all.take(i as int), field@, interval)),
            text_intervals(all.take(i as int), field@, interval).len() <= i,
        decreases documents@.len() - i,
    {
        let ghost done = text_intervals(all.take(i as int), field@, interval);
        proof {
            assert(all.take(i + 1).drop_last() =~= all.take(i as int));
            assert(all.take(i + 1).last() == documents@[i as int].source@);
        }
        if let Some(text) = documents[i].source.text_of(field) {
            if let Some(t) = parse_rfc3339(text) {
                let start: i64 = truncate_timestamp(t, interval);
                count_one(&mut counts, rfc3339_text(start), Ghost(done));
            }
        }
        i += 1;
    }
    let ghost entries = text_intervals(all, field@, interval);
    proof {
        assert(all.take(i as int) =~= all);
    }
    DateHistogramAggregationResult { buckets: histogram_buckets(counts, Ghost(entries)) }
}

/// Whether `result` answers `request`.
pub open spec fn answers(
    result: AggregationResult,
    request: AggregationRequest,
    documents: Seq<JsonView>,
) -> bool {
    match (result, request) {
        (AggregationResult::Terms(r), AggregationRequest::Terms(q)) => are_term_buckets(
            r.buckets@,
            scalar_entries(documents, q.field@),
        ),
        (AggregationResult::Stats(r), AggregationRequest::Stats(q)) => are_stats(
            r,
            numbers_of(documents, q.field@),
        ),
        (AggregationResult::DateHistogram(r), AggregationRequest::DateHistogram(q)) => {
            are_histogram_buckets(
                r.buckets@,
                text_intervals(documents, q.field@, q.interval),
            )
        },
        _ => false,
    }
}

/// Whether `results` answers each of the requests, under its name, and nothing else.
pub open spec fn answers_all(
    results: Map<Seq<char>, AggregationResult>,
    requests: Map<Seq<char>, AggregationRequest>,
    documents: Seq<JsonView>,
) -> bool {
    &&& results.dom() == requests.dom()
    &&& forall|name: Seq<char>| #[trigger]
        requests.contains_key(name) ==> answers(results[name], requests[name], documents)
}

/// The requests for aggregations, if there are any.
pub open spec fn requests_of(requests: Option<StringMap<AggregationRequest>>) -> Map<
    Seq<char>,
    AggregationRequest,
> {
    match requests {
        Some(requests) => requests@,
        None => Map::empty(),
    }
}

/// Computes the aggregations that are asked for over the documents that were found.
pub fn compute_aggregations(
    documents: &Vec<IndexDocument>,
    requests: &Option<StringMap<AggregationRequest>>,
    doc_values: Option<&DocValuesReader>,
) -> (r: StringMap<AggregationResult>)
    ensures
        answers_all(r@, requests_of(*requests), sources(documents@)),
{
    let mut r: StringMap<AggregationResult> = StringMap::new();
    let Some(requests) = requests else {
        proof {
            assert(r@.dom() =~= Map::<Seq<char>, AggregationRequest>::empty().dom());
        }
        return r;
    };
    let ghost pairs = requests.pairs();
    let ghost all = sources(documents@);
    let count: usize = requests.len();
    let mut i: usize = 0;
    while i < count
        invariant
            i <= count,
            count == pairs.len(),
            pairs == requests.pairs(),
            keys_ascend(pairs),
            all == sources(documents@),
            forall|name: Seq<char>| #[trigger]
                r@.contains_key(name) <==> exists|j: int| 0 <= j < i && #[trigger] pairs[j].0 == name,
            forall|j: int|
                0 <= j < i ==> answers(
                    r@[(#[trigger] pairs[j]).0],
                    pairs[j].1,
                    all,
                ),
        decreases count - i,
    {
        let result = match requests.value_at(i) {
            AggregationRequest::Terms(terms) => AggregationResult::Terms(
                compute_terms_aggregation(documents, terms.field.as_str(), doc_values),
            ),
            AggregationRequest::Stats(stats) => AggregationResult::Stats(
                compute_stats_aggregation(documents, stats.field.as_str(), doc_values),
            ),
            AggregationRequest::DateHistogram(histogram) => AggregationResult::DateHistogram(
                compute_date_histogram_aggregation(
                    documents,
                    histogram.field.as_str(),
                    histogram.interval,
                    doc_values,
                ),
            ),
        };
        let ghost before = r@;
        r.insert(requests.key_at(i).clone(), result);
        proof {
            assert forall|j: int| 0 <= j < i + 1 implies answers(
                r@[(#[trigger] pairs[j]).0],
                pairs[j].1,
                all,
            ) by {
                if j < i {
                    text_lt_asymmetric(pairs[j].0, pairs[i as int].0);
                }
            }
            assert forall|name: Seq<char>| #[trigger] r@.contains_key(name) <==> exists|j: int|
                0 <= j < i + 1 && #[trigger] pairs[j].0 == name by {
                if before.contains_key(name) {
                    let j = choose|j: int| 0 <= j < i && #[trigger] pairs[j].0 == name;
                    assert(pairs[j].0 == name);
                }
                if name == pairs[i as int].0 {
                    assert(pairs[i as int].0 == name);
                }
            }
        }
        i += 1;
    }
    proof {
        assert forall|name: Seq<char>| requests@.contains_key(name) <==> r@.contains_key(name) by {
            if requests@.contains_key(name) {
                let j = crate::map::key_index(pairs, name);
                assert(pairs[j].0 == name);
            }
            if r@.contains_key(name) {
                let j = choose|j: int| 0 <= j < count && #[trigger] pairs[j].0 == name;
                lemma_pair_in_map(pairs, j);
            }
        }
        assert(r@.dom() =~= requests@.dom());
        assert forall|name: Seq<char>| #[trigger] requests@.contains_key(name) implies answers(
            r@[name],
            requests@[name],
            all,
        ) by {
            let j = crate::map::key_index(pairs, name);
            lemma_pair_in_map(pairs, j);
            assert(answers(r@[pairs[j].0], pairs[j].1, all));
        }
    }
    r
}

/// How many entries have one of the first `k` texts.
spec fn total_of<V>(texts: Seq<Seq<char>>, entries: Seq<(Seq<char>, V)>, k: int) -> nat
    decreases k,
{
    if k <= 0 || k > texts.len() {
        0
    } else {
        total_of(texts, entries, k - 1) + count_of(entries, texts[k - 1])
    }
}

/// Whether no text is listed twice.
spec fn distinct(texts: Seq<Seq<char>>) -> bool {
    forall|i: int, j: int| 0 <= i < j < texts.len() ==> #[trigger] texts[i] != #[trigger] texts[j]
}

proof fn lemma_total_of_one_more<V>(
    texts: Seq<Seq<char>>,
    entries: Seq<(Seq<char>, V)>,
    k: int,
)
    requires
        0 <= k <= texts.len(),
        distinct(texts),
        entries.len() > 0,
    ensures
        total_of(texts, entries, k) == total_of(texts, entries.drop_last(), k) + if texts.take(
            k,
        ).contains(entries.last().0) {
            1nat
        } else {
            0nat
        },
    decreases k,
{
    let text = entries.last().0;
    if k > 0 {
        lemma_total_of_one_more(texts, entries, k - 1);
        let shorter = texts.take(k - 1);
        let longer = texts.take(k);
        if shorter.contains(text) {
            let i = choose|i: int| 0 <= i < shorter.len() && shorter[i] == text;
            assert(longer[i] == text);
            assert(texts[i] != texts[k - 1]);
        } else if texts[k - 1] == text {
            assert(longer[k - 1] == text);
        } else if longer.contains(text) {
            let i = choose|i: int| 0 <= i < longer.len() && longer[i] == text;
            assert(shorter[i] == text);
        }
    } else {
        assert(texts.take(0) =~= Seq::empty());
    }
}

proof fn lemma_no_entries<V>(texts: Seq<Seq<char>>, entries: Seq<(Seq<char>, V)>, k: int)
    requires
        entries.len() == 0,
    ensures
        total_of(texts, entries, k) == 0,
    decreases k,
{
    if 0 < k <= texts.len() {
        lemma_no_entries(texts, entries, k - 1);
    }
}

proof fn lemma_total_of_all<V>(texts: Seq<Seq<char>>, entries: Seq<(Seq<char>, V)>)
    requires
        distinct(texts),
        forall|i: int| 0 <= i < entries.len() ==> texts.contains((#[trigger] entries[i]).0),
    ensures
        total_of(texts, entries, texts.len() as int) == entries.len(),
    decreases entries.len(),
{
    if entries.len() == 0 {
        lemma_no_entries(texts, entries, texts.len() as int);
    } else {
        let before = entries.drop_last();
        assert forall|i: int| 0 <= i < before.len() implies texts.contains(
            (#[trigger] before[i]).0,
        ) by {
            assert(before[i] == entries[i]);
        }
        lemma_total_of_all(texts, before);
        lemma_total_of_one_more(texts, entries, texts.len() as int);
        assert(texts.take(texts.len() as int) =~= texts);
        assert(entries.last() == entries[entries.len() - 1]);
    }
}

proof fn lemma_listed_text_counts<V>(entries: Seq<(Seq<char>, V)>, i: int)
    requires
        0 <= i < entries.len(),
    ensures
        count_of(entries, entries[i].0) > 0,
    decreases entries.len(),
{
    if i < entries.len() - 1 {
        lemma_listed_text_counts(entries.drop_last(), i);
        assert(entries.drop_last()[i] == entries[i]);
    }
}

/// How many documents the first `k` buckets count together.
pub open spec fn terms_total(buckets: Seq<TermsBucket>, k: int) -> nat
    decreases k,
{
    if k <= 0 || k > buckets.len() {
        0
    } else {
        terms_total(buckets, k - 1) + buckets[k - 1].doc_count as nat
    }
}

/// How many documents the first `k` buckets count together.
pub open spec fn histogram_total(buckets: Seq<DateHistogramBucket>, k: int) -> nat
    decreases k,
{
    if k <= 0 || k > buckets.len() {
        0
    } else {
        histogram_total(buckets, k - 1) + buckets[k - 1].doc_count as nat
    }
}

proof fn lemma_terms_total(
    buckets: Seq<TermsBucket>,
    texts: Seq<Seq<char>>,
    entries: Seq<(Seq<char>, JsonView)>,
    k: int,
)
    requires
        0 <= k <= texts.len(),
        texts.len() == buckets.len(),
        forall|i: int|
            0 <= i < texts.len() ==> (#[trigger] buckets[i]).doc_count == count_of(
                entries,
                texts[i],
            ),
    ensures
        terms_total(buckets, k) == total_of(texts, entries, k),
    decreases k,
{
    if k > 0 {
        lemma_terms_total(buckets, texts, entries, k - 1);
        assert(buckets[k - 1].doc_count == count_of(entries, texts[k - 1]));
    }
}

proof fn lemma_histogram_total(
    buckets: Seq<DateHistogramBucket>,
    texts: Seq<Seq<char>>,
    entries: Seq<(Seq<char>, ())>,
    k: int,
)
    requires
        0 <= k <= texts.len(),
        texts.len() == buckets.len(),
        forall|i: int|
            0 <= i < texts.len() ==> (#[trigger] buckets[i]).doc_count == count_of(
                entries,
                texts[i],
            ),
    ensures
        histogram_total(buckets, k) == total_of(texts, entries, k),
    decreases k,
{
    if k > 0 {
        lemma_histogram_total(buckets, texts, entries, k - 1);
        assert(buckets[k - 1].doc_count == count_of(entries, texts[k - 1]));
    }
}

/// The buckets of values count each value once: together they count as many as there are.
pub proof fn terms_buckets_count_each_value_once(
    buckets: Seq<TermsBucket>,
    entries: Seq<(Seq<char>, JsonView)>,
)
    requires
        are_term_buckets(buckets, entries),
    ensures
        terms_total(buckets, buckets.len() as int) == entries.len(),
{
    let texts = choose|texts: Seq<Seq<char>>| #[trigger]
        by_frequency(texts, entries) && texts.len() == buckets.len() && forall|i: int|
            0 <= i < texts.len() ==> (#[trigger] buckets[i]).key@ == first_of(entries, texts[i])
                && buckets[i].doc_count == count_of(entries, texts[i]);
    assert forall|i: int, j: int| 0 <= i < j < texts.len() implies #[trigger] texts[i]
        != #[trigger] texts[j] by {
        crate::text::text_lt_irreflexive(texts[i]);
    }
    assert forall|i: int| 0 <= i < entries.len() implies texts.contains(
        (#[trigger] entries[i]).0,
    ) by {
        lemma_listed_text_counts(entries, i);
    }
    lemma_total_of_all(texts, entries);
    lemma_terms_total(buckets, texts, entries, texts.len() as int);
}

/// The buckets of timestamps count each timestamp once: together they count as many as there are.
pub proof fn histogram_buckets_count_each_timestamp_once(
    buckets: Seq<DateHistogramBucket>,
    entries: Seq<(Seq<char>, ())>,
)
    requires
        are_histogram_buckets(buckets, entries),
    ensures
        histogram_total(buckets, buckets.len() as int) == entries.len(),
{
    let texts = Seq::new(buckets.len(), |i: int| buckets[i].key@);
    assert forall|i: int, j: int| 0 <= i < j < texts.len() implies #[trigger] texts[i]
        != #[trigger] texts[j] by {
        assert(text_lt(buckets[i].key@, buckets[j].key@));
        crate::text::text_lt_irreflexive(texts[i]);
    }
    assert forall|i: int| 0 <= i < entries.len() implies texts.contains(
        (#[trigger] entries[i]).0,
    ) by {
        lemma_listed_text_counts(entries, i);
        let j = choose|j: int| 0 <= j < buckets.len() && (#[trigger] buckets[j]).key@
            == entries[i].0;
        assert(texts[j] == entries[i].0);
    }
    assert forall|i: int| 0 <= i < texts.len() implies (#[trigger] buckets[i]).doc_count
        == count_of(entries, texts[i]) by {}
    lemma_total_of_all(texts, entries);
    lemma_histogram_total(buckets, texts, entries, texts.len() as int);
}

/// How many of the documents have that text in the field.
pub open spec fn documents_with_text(
    documents: Seq<JsonView>,
    field: Seq<char>,
    text: Seq<char>,
) -> nat
    decreases documents.len(),
{
    if documents.len() == 0 {
        0
    } else {
        documents_with_text(documents.drop_last(), field, text) + if text_member(
            documents.last(),
            field,
        ) == Some(text) {
            1nat
        } else {
            0nat
        }
    }
}

/// Whether the texts of the doubles in the field are no strings.
pub open spec fn doubles_are_unquoted(documents: Seq<JsonView>, field: Seq<char>) -> bool {
    forall|i: int|
        0 <= i < documents.len() ==> ((#[trigger] documents[i]).member(field) matches Some(
            JsonView::Number(NumberView::Float(_, text)),
        ) ==> text.len() == 0 || text[0] != '"')
}

proof fn lemma_decimal_is_unquoted(n: nat)
    ensures
        decimal(n).len() > 0,
        decimal(n)[0] != '"',
    decreases n,
{
    if n >= 10 {
        lemma_decimal_is_unquoted(n / 10);
    }
}

/// The JSON text of a value is that of a string only if the value is that string.
proof fn lemma_quoted_value(value: JsonView, text: Seq<char>)
    requires
        scalar_text(value) == Some(quoted(text)),
        value matches JsonView::Number(NumberView::Float(_, t)) ==> t.len() == 0 || t[0] != '"',
    ensures
        value == JsonView::Text(text),
{
    assert(quoted(text)[0] == '"');
    match value {
        JsonView::Text(s) => {
            quoted_texts_stay_apart(s, text);
        },
        JsonView::Bool(_) => {
            reveal_strlit("true");
            reveal_strlit("false");
        },
        JsonView::Number(NumberView::PosInt(n)) => {
            lemma_decimal_is_unquoted(n as nat);
        },
        JsonView::Number(NumberView::NegInt(n)) => {
            if n >= 0 {
                lemma_decimal_is_unquoted(n as nat);
            }
        },
        _ => {},
    }
}

proof fn lemma_count_of_text(documents: Seq<JsonView>, field: Seq<char>, text: Seq<char>)
    requires
        doubles_are_unquoted(documents, field),
    ensures
        count_of(scalar_entries(documents, field), quoted(text)) == documents_with_text(
            documents,
            field,
            text,
        ),
    decreases documents.len(),
{
    if documents.len() > 0 {
        let before = documents.drop_last();
        assert forall|i: int| 0 <= i < before.len() implies ((#[trigger] before[i]).member(
            field,
        ) matches Some(JsonView::Number(NumberView::Float(_, t))) ==> t.len() == 0 || t[0]
            != '"') by {
            assert(before[i] == documents[i]);
        }
        lemma_count_of_text(before, field, text);
        if let Some(value) = documents.last().member(field) {
            assert(documents[documents.len() - 1].member(field) == Some(value));
            if let Some(t) = scalar_text(value) {
                let entries = scalar_entries(before, field);
                assert(entries.push((t, value)).drop_last() =~= entries);
                if t == quoted(text) {
                    lemma_quoted_value(value, text);
                }
            }
        }
    }
}

/// The first value with a text that occurs has that text.
proof fn lemma_first_of_has_text(documents: Seq<JsonView>, field: Seq<char>, text: Seq<char>)
    requires
        count_of(scalar_entries(documents, field), text) > 0,
    ensures
        scalar_text(first_of(scalar_entries(documents, field), text)) == Some(text),
        exists|i: int|
            0 <= i < documents.len() && (#[trigger] documents[i]).member(field) == Some(
                first_of(scalar_entries(documents, field), text),
            ),
    decreases documents.len(),
{
    let before = documents.drop_last();
    let entries = scalar_entries(before, field);
    let all = scalar_entries(documents, field);
    if all != entries {
        assert(all.drop_last() =~= entries);
    }
    if count_of(entries, text) > 0 {
        lemma_first_of_has_text(before, field, text);
        let i = choose|i: int|
            0 <= i < before.len() && (#[trigger] before[i]).member(field) == Some(
                first_of(entries, text),
            );
        assert(documents[i] == before[i]);
        assert(first_of(all, text) == first_of(entries, text));
    } else {
        assert(documents[documents.len() - 1].member(field) == Some(first_of(all, text)));
    }
}

/// The bucket of a text counts the documents that have that text in the field, and each text that
/// a document has gets a bucket.
pub proof fn texts_are_counted_as_they_are(
    buckets: Seq<TermsBucket>,
    documents: Seq<JsonView>,
    field: Seq<char>,
    text: Seq<char>,
)
    requires
        are_term_buckets(buckets, scalar_entries(documents, field)),
        doubles_are_unquoted(documents, field),
    ensures
        forall|i: int|
            0 <= i < buckets.len() && (#[trigger] buckets[i]).key@ == JsonView::Text(text)
                ==> buckets[i].doc_count == documents_with_text(documents, field, text),
        documents_with_text(documents, field, text) > 0 ==> exists|i: int|
            0 <= i < buckets.len() && (#[trigger] buckets[i]).key@ == JsonView::Text(text),
{
    let entries = scalar_entries(documents, field);
    let texts = choose|texts: Seq<Seq<char>>| #[trigger]
        by_frequency(texts, entries) && texts.len() == buckets.len() && forall|i: int|
            0 <= i < texts.len() ==> (#[trigger] buckets[i]).key@ == first_of(entries, texts[i])
                && buckets[i].doc_count == count_of(entries, texts[i]);
    lemma_count_of_text(documents, field, text);
    assert forall|i: int|
        0 <= i < buckets.len() && (#[trigger] buckets[i]).key@ == JsonView::Text(
            text,
        ) implies buckets[i].doc_count == documents_with_text(documents, field, text) by {
        assert(count_of(entries, texts[i]) > 0);
        lemma_first_of_has_text(documents, field, texts[i]);
    }
    if documents_with_text(documents, field, text) > 0 {
        assert(count_of(entries, quoted(text)) > 0);
        assert(texts.contains(quoted(text)));
        let i = choose|i: int| 0 <= i < texts.len() && texts[i] == quoted(text);
        lemma_first_of_has_text(documents, field, quoted(text));
        let value = first_of(entries, quoted(text));
        let d = choose|d: int|
            0 <= d < documents.len() && (#[trigger] documents[d]).member(field) == Some(value);
        assert(documents[d].member(field) == Some(value));
        lemma_quoted_value(value, text);
        assert(buckets[i].key@ == JsonView::Text(text));
    }
}

/// Whether two outcomes of an aggregation show the same.
pub open spec fn same_result(a: AggregationResult, b: AggregationResult) -> bool {
    match (a, b) {
        (AggregationResult::Terms(x), AggregationResult::Terms(y)) => {
            &&& x.buckets@.len() == y.buckets@.len()
            &&& forall|i: int|
                0 <= i < x.buckets@.len() ==> (#[trigger] x.buckets@[i]).key@
                    == y.buckets@[i].key@ && x.buckets@[i].doc_count == y.buckets@[i].doc_count
        },
        (AggregationResult::Stats(x), AggregationResult::Stats(y)) => {
            &&& x.count == y.count
            &&& x.values@ == y.values@
            &&& x.min == y.min
            &&& x.max == y.max
        },
        (AggregationResult::DateHistogram(x), AggregationResult::DateHistogram(y)) => {
            &&& x.buckets@.len() == y.buckets@.len()
            &&& forall|i: int|
                0 <= i < x.buckets@.len() ==> (#[trigger] x.buckets@[i]).key@
                    == y.buckets@[i].key@ && x.buckets@[i].doc_count == y.buckets@[i].doc_count
        },
        _ => false,
    }
}

/// Whether two answers to requests for aggregations show the same.
pub open spec fn same_results(
    a: Map<Seq<char>, AggregationResult>,
    b: Map<Seq<char>, AggregationResult>,
) -> bool {
    &&& a.dom() == b.dom()
    &&& forall|name: Seq<char>| #[trigger]
        a.contains_key(name) ==> same_result(a[name], b[name])
}

/// Requests for aggregations over the same documents have one answer.
pub proof fn aggregations_are_determined(
    a: Map<Seq<char>, AggregationResult>,
    b: Map<Seq<char>, AggregationResult>,
    requests: Map<Seq<char>, AggregationRequest>,
    documents: Seq<JsonView>,
)
    requires
        answers_all(a, requests, documents),
        answers_all(b, requests, documents),
    ensures
        same_results(a, b),
{
    assert forall|name: Seq<char>| #[trigger] a.contains_key(name) implies same_result(
        a[name],
        b[name],
    ) by {
        assert(requests.contains_key(name));
        lemma_one_answer(a[name], b[name], requests[name], documents);
    }
}

proof fn lemma_one_answer(
    a: AggregationResult,
    b: AggregationResult,
    request: AggregationRequest,
    documents: Seq<JsonView>,
)
    requires
        answers(a, request, documents),
        answers(b, request, documents),
    ensures
        same_result(a, b),
{
    match (a, b, request) {
        (
            AggregationResult::Terms(x),
            AggregationResult::Terms(y),
            AggregationRequest::Terms(q),
        ) => {
            lemma_one_list_of_terms(
                x.buckets@,
                y.buckets@,
                scalar_entries(documents, q.field@),
            );
        },
        (
            AggregationResult::Stats(x),
            AggregationResult::Stats(y),
            AggregationRequest::Stats(q),
        ) => {
            lemma_one_least(x.min, y.min, numbers_of(documents, q.field@));
            lemma_one_greatest(x.max, y.max, numbers_of(documents, q.field@));
        },
        (
            AggregationResult::DateHistogram(x),
            AggregationResult::DateHistogram(y),
            AggregationRequest::DateHistogram(q),
        ) => {
            lemma_one_histogram(
                x.buckets@,
                y.buckets@,
                text_intervals(documents, q.field@, q.interval),
            );
        },
        _ => {},
    }
}

proof fn lemma_one_least(a: Option<u64>, b: Option<u64>, numbers: Seq<u64>)
    requires
        is_least(a, numbers),
        is_least(b, numbers),
    ensures
        a == b,
{
    if let (Some(x), Some(y)) = (a, b) {
        let i = choose|i: int| #[trigger] least_at(numbers, i) && numbers[i] == x;
        let j = choose|j: int| #[trigger] least_at(numbers, j) && numbers[j] == y;
        assert(no_greater(numbers[i], numbers[j]));
        assert(no_greater(numbers[j], numbers[i]));
        assert(i == j);
    }
}

proof fn lemma_one_greatest(a: Option<u64>, b: Option<u64>, numbers: Seq<u64>)
    requires
        is_greatest(a, numbers),
        is_greatest(b, numbers),
    ensures
        a == b,
{
    if let (Some(x), Some(y)) = (a, b) {
        let i = choose|i: int| #[trigger] greatest_at(numbers, i) && numbers[i] == x;
        let j = choose|j: int| #[trigger] greatest_at(numbers, j) && numbers[j] == y;
        assert(no_less(numbers[i], numbers[j]));
        assert(no_less(numbers[j], numbers[i]));
        assert(i == j);
    }
}

proof fn lemma_one_list_of_terms(
    a: Seq<TermsBucket>,
    b: Seq<TermsBucket>,
    entries: Seq<(Seq<char>, JsonView)>,
)
    requires
        are_term_buckets(a, entries),
        are_term_buckets(b, entries),
    ensures
        a.len() == b.len(),
        forall|i: int|
            0 <= i < a.len() ==> (#[trigger] a[i]).key@ == b[i].key@ && a[i].doc_count
                == b[i].doc_count,
{
    let first = choose|texts: Seq<Seq<char>>| #[trigger]
        by_frequency(texts, entries) && texts.len() == a.len() && forall|i: int|
            0 <= i < texts.len() ==> (#[trigger] a[i]).key@ == first_of(entries, texts[i])
                && a[i].doc_count == count_of(entries, texts[i]);
    let second = choose|texts: Seq<Seq<char>>| #[trigger]
        by_frequency(texts, entries) && texts.len() == b.len() && forall|i: int|
            0 <= i < texts.len() ==> (#[trigger] b[i]).key@ == first_of(entries, texts[i])
                && b[i].doc_count == count_of(entries, texts[i]);
    let before = |x: Seq<char>, y: Seq<char>|
        count_of(entries, x) > count_of(entries, y) || (count_of(entries, x) == count_of(
            entries,
            y,
        ) && text_lt(x, y));
    assert forall|x: Seq<char>, y: Seq<char>| #[trigger] before(x, y) implies !before(y, x) by {
        if text_lt(x, y) {
            text_lt_asymmetric(x, y);
        }
    }
    assert forall|x: Seq<char>| #[trigger] first.contains(x) <==> second.contains(x) by {
        if first.contains(x) {
            let i = choose|i: int| 0 <= i < first.len() && first[i] == x;
            assert(count_of(entries, first[i]) > 0);
        }
        if second.contains(x) {
            let i = choose|i: int| 0 <= i < second.len() && second[i] == x;
            assert(count_of(entries, second[i]) > 0);
        }
    }
    lemma_one_listing(first, second, before);
    assert forall|i: int| 0 <= i < a.len() implies (#[trigger] a[i]).key@ == b[i].key@
        && a[i].doc_count == b[i].doc_count by {
        assert(b[i].key@ == first_of(entries, second[i]));
    }
}

proof fn lemma_one_histogram(
    a: Seq<DateHistogramBucket>,
    b: Seq<DateHistogramBucket>,
    entries: Seq<(Seq<char>, ())>,
)
    requires
        are_histogram_buckets(a, entries),
        are_histogram_buckets(b, entries),
    ensures
        a.len() == b.len(),
        forall|i: int|
            0 <= i < a.len() ==> (#[trigger] a[i]).key@ == b[i].key@ && a[i].doc_count
                == b[i].doc_count,
{
    let first = Seq::new(a.len(), |i: int| a[i].key@);
    let second = Seq::new(b.len(), |i: int| b[i].key@);
    let before = |x: Seq<char>, y: Seq<char>| text_lt(x, y);
    assert forall|x: Seq<char>, y: Seq<char>| #[trigger] before(x, y) implies !before(y, x) by {
        text_lt_asymmetric(x, y);
    }
    assert forall|i: int, j: int| 0 <= i < j < first.len() implies before(
        #[trigger] first[i],
        #[trigger] first[j],
    ) by {
        assert(text_lt(a[i].key@, a[j].key@));
    }
    assert forall|i: int, j: int| 0 <= i < j < second.len() implies before(
        #[trigger] second[i],
        #[trigger] second[j],
    ) by {
        assert(text_lt(b[i].key@, b[j].key@));
    }
    assert forall|x: Seq<char>| #[trigger] first.contains(x) <==> second.contains(x) by {
        if first.contains(x) {
            let i = choose|i: int| 0 <= i < first.len() && first[i] == x;
            assert(a[i].doc_count == count_of(entries, a[i].key@));
            assert(count_of(entries, x) > 0);
            let j = choose|j: int| 0 <= j < b.len() && (#[trigger] b[j]).key@ == x;
            assert(second[j] == x);
        }
        if second.contains(x) {
            let i = choose|i: int| 0 <= i < second.len() && second[i] == x;
            assert(b[i].doc_count == count_of(entries, b[i].key@));
            assert(count_of(entries, x) > 0);
            let j = choose|j: int| 0 <= j < a.len() && (#[trigger] a[j]).key@ == x;
            assert(first[j] == x);
        }
    }
    lemma_one_listing(first, second, before);
    assert forall|i: int| 0 <= i < a.len() implies (#[trigger] a[i]).key@ == b[i].key@
        && a[i].doc_count == b[i].doc_count by {
        assert(first[i] == second[i]);
        assert(b[i].doc_count == count_of(entries, b[i].key@));
    }
}

} // verus!
