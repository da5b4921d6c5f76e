//! What the service counts, and the report of it.
use vstd::prelude::*;

use crate::index::IndexMetrics;
use crate::text::decimal;
use crate::text::decimal_text;
use crate::text::text_eq;
use crate::text::text_lt;
use crate::text::text_lt_total;
use crate::text::text_lt_irreflexive;
use crate::text::text_lt_asymmetric;
use crate::text::text_lt_transitive;
use crate::text::text_order;
use crate::text::views;
use crate::text::TextOrder;

verus! {

/// How often a route was answered with a status.
#[derive(Debug)]
pub struct RequestCount {
    pub route: String,
    pub method: String,
    pub status: u16,
    pub count: u64,
}

/// How often a route was answered.
#[derive(Debug)]
pub struct AnswerCount {
    pub route: String,
    pub method: String,
    pub count: u64,
}

/// How long the answers of a route took together, in seconds, as a text.
#[derive(Debug)]
pub struct AnswerTime {
    pub route: String,
    pub method: String,
    pub seconds: String,
}

/// What the service has counted since it started.
#[derive(Debug)]
pub struct MetricsState {
    pub request_counts: Vec<RequestCount>,
    pub request_duration_count: Vec<AnswerCount>,
    pub index_writes_total: u64,
    pub bulk_requests_total: u64,
    pub bulk_operations_total: u64,
    pub search_requests_total: u64,
    pub refresh_total: u64,
    pub flush_total: u64,
    pub merge_total: u64,
    pub delete_index_total: u64,
}

/// What a [`RequestCount`] stands for.
pub ghost struct CountView {
    pub route: Seq<char>,
    pub method: Seq<char>,
    pub status: u16,
    pub count: u64,
}

/// What an [`AnswerCount`] stands for.
pub ghost struct AnswerView {
    pub route: Seq<char>,
    pub method: Seq<char>,
    pub count: u64,
}

impl View for RequestCount {
    type V = CountView;

    open spec fn view(&self) -> CountView {
        CountView {
            route: self.route@,
            method: self.method@,
            status: self.status,
            count: self.count,
        }
    }
}

impl View for AnswerCount {
    type V = AnswerView;

    open spec fn view(&self) -> AnswerView {
        AnswerView { route: self.route@, method: self.method@, count: self.count }
    }
}

/// The views of a list of counts.
pub open spec fn count_views(counts: Seq<RequestCount>) -> Seq<CountView> {
    Seq::new(counts.len(), |i: int| counts[i]@)
}

/// The views of a list of counts.
pub open spec fn answer_views(counts: Seq<AnswerCount>) -> Seq<AnswerView> {
    Seq::new(counts.len(), |i: int| counts[i]@)
}

/// The counts with one more for that route, method and status: the first that is listed for them
/// grows by one, or one is added.
pub open spec fn counted(
    counts: Seq<CountView>,
    route: Seq<char>,
    method: Seq<char>,
    status: u16,
) -> Seq<CountView>
    decreases counts.len(),
{
    if counts.len() == 0 {
        seq![CountView { route, method, status, count: 1 }]
    } else if counts[0].route == route && counts[0].method == method && counts[0].status
        == status {
        seq![CountView { count: (counts[0].count + 1) as u64, ..counts[0] }]
            + counts.drop_first()
    } else {
        seq![counts[0]] + counted(counts.drop_first(), route, method, status)
    }
}

/// The counts with one more for that route and method.
pub open spec fn answered(
    counts: Seq<AnswerView>,
    route: Seq<char>,
    method: Seq<char>,
) -> Seq<AnswerView>
    decreases counts.len(),
{
    if counts.len() == 0 {
        seq![AnswerView { route, method, count: 1 }]
    } else if counts[0].route == route && counts[0].method == method {
        seq![AnswerView { count: (counts[0].count + 1) as u64, ..counts[0] }]
            + counts.drop_first()
    } else {
        seq![counts[0]] + answered(counts.drop_first(), route, method)
    }
}

proof fn lemma_counted_at(
    counts: Seq<CountView>,
    route: Seq<char>,
    method: Seq<char>,
    status: u16,
    i: int,
)
    requires
        0 <= i <= counts.len(),
        forall|j: int|
            0 <= j < i ==> !((#[trigger] counts[j]).route == route && counts[j].method == method
                && counts[j].status == status),
        i < counts.len() ==> counts[i].route == route && counts[i].method == method
            && counts[i].status == status,
    ensures
        counted(counts, route, method, status) == if i < counts.len() {
            counts.update(i, CountView { count: (counts[i].count + 1) as u64, ..counts[i] })
        } else {
            counts.push(CountView { route, method, status, count: 1 })
        },
    decreases counts.len(),
{
    if counts.len() == 0 {
        assert(counted(counts, route, method, status) =~= counts.push(
            CountView { route, method, status, count: 1 },
        ));
    } else if i == 0 {
        assert(counted(counts, route, method, status) =~= counts.update(
            0,
            CountView { count: (counts[0].count + 1) as u64, ..counts[0] },
        ));
    } else {
        let rest = counts.drop_first();
        assert forall|j: int| 0 <= j < i - 1 implies !((#[trigger] rest[j]).route == route
            && rest[j].method == method && rest[j].status == status) by {
            assert(rest[j] == counts[j + 1]);
        }
        lemma_counted_at(rest, route, method, status, i - 1);
        assert(counts[0].route != route || counts[0].method != method || counts[0].status
            != status);
        if i < counts.len() {
            assert(counted(counts, route, method, status) =~= counts.update(
                i,
                CountView { count: (counts[i].count + 1) as u64, ..counts[i] },
            ));
        } else {
            assert(counted(counts, route, method, status) =~= counts.push(
                CountView { route, method, status, count: 1 },
            ));
        }
    }
}

proof fn lemma_answered_at(
    counts: Seq<AnswerView>,
    route: Seq<char>,
    method: Seq<char>,
    i: int,
)
    requires
        0 <= i <= counts.len(),
        forall|j: int|
            0 <= j < i ==> !((#[trigger] counts[j]).route == route && counts[j].method == method),
        i < counts.len() ==> counts[i].route == route && counts[i].method == method,
    ensures
        answered(counts, route, method) == if i < counts.len() {
            counts.update(i, AnswerView { count: (counts[i].count + 1) as u64, ..counts[i] })
        } else {
            counts.push(AnswerView { route, method, count: 1 })
        },
    decreases counts.len(),
{
    if counts.len() == 0 {
        assert(answered(counts, route, method) =~= counts.push(
            AnswerView { route, method, count: 1 },
        ));
    } else if i == 0 {
        assert(answered(counts, route, method) =~= counts.update(
            0,
            AnswerView { count: (counts[0].count + 1) as u64, ..counts[0] },
        ));
    } else {
        let rest = counts.drop_first();
        assert forall|j: int| 0 <= j < i - 1 implies !((#[trigger] rest[j]).route == route
            && rest[j].method == method) by {
            assert(rest[j] == counts[j + 1]);
        }
        lemma_answered_at(rest, route, method, i - 1);
        assert(counts[0].route != route || counts[0].method != method);
        if i < counts.len() {
            assert(answered(counts, route, method) =~= counts.update(
                i,
                AnswerView { count: (counts[i].count + 1) as u64, ..counts[i] },
            ));
        } else {
            assert(answered(counts, route, method) =~= counts.push(
                AnswerView { route, method, count: 1 },
            ));
        }
    }
}

/// How many requests are counted for that route, method and status.
pub open spec fn count_for(
    counts: Seq<CountView>,
    route: Seq<char>,
    method: Seq<char>,
    status: u16,
) -> int
    decreases counts.len(),
{
    if counts.len() == 0 {
        0
    } else {
        let rest = count_for(counts.drop_first(), route, method, status);
        if counts[0].route == route && counts[0].method == method && counts[0].status == status {
            rest + counts[0].count
        } else {
            rest
        }
    }
}

/// Counting a request raises the count for its route, method and status by one, and no other.
pub proof fn one_request_counts_once(
    counts: Seq<CountView>,
    route: Seq<char>,
    method: Seq<char>,
    status: u16,
    other_route: Seq<char>,
    other_method: Seq<char>,
    other_status: u16,
)
    requires
        forall|i: int| 0 <= i < counts.len() ==> (#[trigger] counts[i]).count < u64::MAX,
    ensures
        count_for(
            counted(counts, route, method, status),
            other_route,
            other_method,
            other_status,
        ) == count_for(counts, other_route, other_method, other_status) + if other_route == route
            && other_method == method && other_status == status {
            1int
        } else {
            0int
        },
    decreases counts.len(),
{
    let after = counted(counts, route, method, status);
    if counts.len() == 0 {
        assert(after.drop_first() =~= Seq::empty());
        reveal_with_fuel(count_for, 2);
    } else {
        let rest = counts.drop_first();
        if counts[0].route == route && counts[0].method == method && counts[0].status == status {
            assert(after.drop_first() =~= rest);
        } else {
            assert forall|i: int| 0 <= i < rest.len() implies (#[trigger] rest[i]).count
                < u64::MAX by {
                assert(rest[i] == counts[i + 1]);
            }
            one_request_counts_once(
                rest,
                route,
                method,
                status,
                other_route,
                other_method,
                other_status,
            );
            assert(after.drop_first() =~= counted(rest, route, method, status));
        }
    }
}

impl MetricsState {
    /// Whether every count can still grow.
    pub open spec fn has_room(&self) -> bool {
        &&& forall|i: int|
            0 <= i < self.request_counts@.len() ==> (#[trigger] self.request_counts@[i]).count
                < u64::MAX
        &&& forall|i: int|
            0 <= i < self.request_duration_count@.len() ==> (
            #[trigger] self.request_duration_count@[i]).count < u64::MAX
    }

    /// Nothing counted yet.
    pub fn new() -> (r: MetricsState)
        ensures
            r.request_counts@.len() == 0,
            r.request_duration_count@.len() == 0,
            r.index_writes_total == 0,
            r.bulk_requests_total == 0,
            r.bulk_operations_total == 0,
            r.search_requests_total == 0,
            r.refresh_total == 0,
            r.flush_total == 0,
            r.merge_total == 0,
            r.delete_index_total == 0,
    {
        MetricsState {
            request_counts: Vec::new(),
            request_duration_count: Vec::new(),
            index_writes_total: 0,
            bulk_requests_total: 0,
            bulk_operations_total: 0,
            search_requests_total: 0,
            refresh_total: 0,
            flush_total: 0,
            merge_total: 0,
            delete_index_total: 0,
        }
    }

    fn count_request(&mut self, route: &str, method: &str, status: u16)
        requires
            old(self).has_room(),
        ensures
            count_views(final(self).request_counts@) == counted(
                count_views(old(self).request_counts@),
                route@,
                method@,
                status,
            ),
            *final(self) == (MetricsState {
                request_counts: final(self).request_counts,
                ..*old(self)
            }),
    {
        let ghost all = count_views(self.request_counts@);
        let mut i: usize = 0;
        while i < self.request_counts.len()
            invariant
                *self == *old(self),
                self.has_room(),
                i <= self.request_counts@.len(),
                all == count_views(self.request_counts@),
                forall|j: int|
                    0 <= j < i ==> !((#[trigger] all[j]).route == route@ && all[j].method
                        == method@ && all[j].status == status),
            ensures
                i <= all.len(),
                i < all.len() ==> all[i as int].route == route@ && all[i as int].method == method@
                    && all[i as int].status == status,
            decreases self.request_counts@.len() - i,
        {
            let entry = &self.request_counts[i];
            if text_eq(entry.route.as_str(), route) && text_eq(entry.method.as_str(), method)
                && entry.status == status {
                break;
            }
            i += 1;
        }
        proof {
            lemma_counted_at(all, route@, method@, status, i as int);
        }
        if i < self.request_counts.len() {
            let grown = RequestCount {
                route: self.request_counts[i].route.clone(),
                method: self.request_counts[i].method.clone(),
                status,
                count: self.request_counts[i].count + 1,
            };
            self.request_counts.set(i, grown);
            proof {
                assert(count_views(self.request_counts@) =~= all.update(
                    i as int,
                    CountView { count: (all[i as int].count + 1) as u64, ..all[i as int] },
                ));
            }
        } else {
            self.request_counts.push(
                RequestCount {
                    route: route.to_owned(),
                    method: method.to_owned(),
                    status,
                    count: 1,
                },
            );
            proof {
                assert(count_views(self.request_counts@) =~= all.push(
                    CountView { route: route@, method: method@, status, count: 1 },
                ));
            }
        }
    }

    fn count_answer(&mut self, route: &str, method: &str)
        requires
            forall|i: int|
                0 <= i < old(self).request_duration_count@.len() ==> (
                #[trigger] old(self).request_duration_count@[i]).count < u64::MAX,
        ensures
            answer_views(final(self).request_duration_count@) == answered(
                answer_views(old(self).request_duration_count@),
                route@,
                method@,
            ),
            *final(self) == (MetricsState {
                request_duration_count: final(self).request_duration_count,
                ..*old(self)
            }),
    {
        let ghost all = answer_views(self.request_duration_count@);
        let mut i: usize = 0;
        while i < self.request_duration_count.len()
            invariant
                *self == *old(self),
                i <= self.request_duration_count@.len(),
                all == answer_views(self.request_duration_count@),
                forall|j: int|
                    0 <= j < i ==> !((#[trigger] all[j]).route == route@ && all[j].method
                        == method@),
            ensures
                i <= all.len(),
                i < all.len() ==> all[i as int].route == route@ && all[i as int].method == method@,
            decreases self.request_duration_count@.len() - i,
        {
            let entry = &self.request_duration_count[i];
            if text_eq(entry.route.as_str(), route) && text_eq(entry.method.as_str(), method) {
                break;
            }
            i += 1;
        }
        proof {
            lemma_answered_at(all, route@, method@, i as int);
        }
        if i < self.request_duration_count.len() {
            let grown = AnswerCount {
                route: self.request_duration_count[i].route.clone(),
                method: self.request_duration_count[i].method.clone(),
                count: self.request_duration_count[i].count + 1,
            };
            self.request_duration_count.set(i, grown);
            proof {
                assert(answer_views(self.request_duration_count@) =~= all.update(
                    i as int,
                    AnswerView { count: (all[i as int].count + 1) as u64, ..all[i as int] },
                ));
            }
        } else {
            self.request_duration_count.push(
                AnswerCount { route: route.to_owned(), method: method.to_owned(), count: 1 },
            );
            proof {
                assert(answer_views(self.request_duration_count@) =~= all.push(
                    AnswerView { route: route@, method: method@, count: 1 },
                ));
            }
        }
    }

    /// Counts a request that was answered with that status.
    pub fn record_request(&mut self, route: &str, method: &str, status: u16)
        requires
            old(self).has_room(),
        ensures
            count_views(final(self).request_counts@) == counted(
                count_views(old(self).request_counts@),
                route@,
                method@,
                status,
            ),
            answer_views(final(self).request_duration_count@) == answered(
                answer_views(old(self).request_duration_count@),
                route@,
                method@,
            ),
            *final(self) == (MetricsState {
                request_counts: final(self).request_counts,
                request_duration_count: final(self).request_duration_count,
                ..*old(self)
            }),
    {
        self.count_request(route, method, status);
        self.count_answer(route, method);
    }
}

/// The line on the requests of a route that were answered with a status.
pub open spec fn count_line(c: CountView) -> Seq<char> {
    "cloudsearch_requests_total{route=\""@ + c.route + "\",method=\""@ + c.method
        + "\",status=\""@ + decimal(c.status as nat) + "\"} "@ + decimal(c.count as nat)
}

/// The line on the time that the answers of a route took.
pub open spec fn time_line(t: AnswerTime) -> Seq<char> {
    "cloudsearch_request_duration_seconds_sum{route=\""@ + t.route@ + "\",method=\""@ + t.method@
        + "\"} "@ + t.seconds@
}

/// The line on the answers of a route.
pub open spec fn answer_line(c: AnswerView) -> Seq<char> {
    "cloudsearch_request_duration_seconds_count{route=\""@ + c.route + "\",method=\""@ + c.method
        + "\"} "@ + decimal(c.count as nat)
}

/// The line on a counter.
pub open spec fn counter_line(name: Seq<char>, count: nat) -> Seq<char> {
    name + " "@ + decimal(count)
}

/// The line on a number of an index.
pub open spec fn index_line(name: Seq<char>, index: Seq<char>, count: nat) -> Seq<char> {
    name + "{index=\""@ + index + "\"} "@ + decimal(count)
}

/// The lines on the counters.
pub open spec fn counter_lines(state: MetricsState, open_indexes: usize) -> Seq<Seq<char>> {
    seq![
        counter_line("cloudsearch_index_writes_total"@, state.index_writes_total as nat),
        counter_line("cloudsearch_bulk_requests_total"@, state.bulk_requests_total as nat),
        counter_line("cloudsearch_bulk_operations_total"@, state.bulk_operations_total as nat),
        counter_line("cloudsearch_search_requests_total"@, state.search_requests_total as nat),
        counter_line("cloudsearch_refresh_total"@, state.refresh_total as nat),
        counter_line("cloudsearch_flush_total"@, state.flush_total as nat),
        counter_line("cloudsearch_merge_total"@, state.merge_total as nat),
        counter_line("cloudsearch_delete_index_total"@, state.delete_index_total as nat),
        counter_line("cloudsearch_open_indexes"@, open_indexes as nat),
    ]
}

/// The lines on an index.
pub open spec fn index_lines(index: (String, IndexMetrics)) -> Seq<Seq<char>> {
    seq![
        index_line(
            "cloudsearch_index_documents_total"@,
            index.0@,
            index.1.document_count as nat,
        ),
        index_line(
            "cloudsearch_index_pending_ops"@,
            index.0@,
            index.1.pending_operations as nat,
        ),
        index_line(
            "cloudsearch_index_last_sequence_number"@,
            index.0@,
            index.1.last_sequence_number as nat,
        ),
    ]
}

/// The lines on the first `k` indexes.
pub open spec fn all_index_lines(indexes: Seq<(String, IndexMetrics)>, k: int) -> Seq<Seq<char>>
    decreases k,
{
    if k <= 0 || k > indexes.len() {
        Seq::empty()
    } else {
        all_index_lines(indexes, k - 1) + index_lines(indexes[k - 1])
    }
}

/// All lines of the report.
pub open spec fn report_lines(
    state: MetricsState,
    times: Seq<AnswerTime>,
    open_indexes: usize,
    indexes: Seq<(String, IndexMetrics)>,
) -> Seq<Seq<char>> {
    Seq::new(
        state.request_counts@.len(),
        |i: int| count_line(state.request_counts@[i]@),
    ) + Seq::new(times.len(), |i: int| time_line(times[i])) + Seq::new(
        state.request_duration_count@.len(),
        |i: int| answer_line(state.request_duration_count@[i]@),
    ) + counter_lines(state, open_indexes) + all_index_lines(indexes, indexes.len() as int)
}

/// Whether no line stands before one that is less.
pub open spec fn in_order(lines: Seq<Seq<char>>) -> bool {
    forall|i: int, j: int|
        0 <= i < j < lines.len() ==> !text_lt(#[trigger] lines[j], #[trigger] lines[i])
}

/// The lines, each with a line end.
pub open spec fn joined(lines: Seq<Seq<char>>) -> Seq<char>
    decreases lines.len(),
{
    if lines.len() == 0 {
        Seq::empty()
    } else {
        joined(lines.drop_last()) + lines.last() + "\n"@
    }
}

/// Whether `report` holds those lines, in their order.
pub open spec fn is_report(report: Seq<char>, lines: Seq<Seq<char>>) -> bool {
    exists|sorted: Seq<Seq<char>>|
        #[trigger] in_order(sorted) && sorted.to_multiset() == lines.to_multiset() && report
            == joined(sorted)
}

/// Puts a text behind those that are not greater.
fn insert_text(texts: &mut Vec<String>, text: String)
    requires
        in_order(views(old(texts)@)),
    ensures
        in_order(views(final(texts)@)),
        views(final(texts)@).to_multiset() == views(old(texts)@).to_multiset().insert(text@),
{
    let ghost before = views(texts@);
    let mut i: usize = texts.len();
    while i > 0
        invariant
            i <= texts@.len(),
            before == views(texts@),
            forall|j: int| i <= j < before.len() ==> text_lt(text@, #[trigger] before[j]),
        ensures
            i <= before.len(),
            i > 0 ==> !text_lt(text@, before[i - 1]),
        decreases i,
    {
        match text_order(text.as_str(), texts[i - 1].as_str()) {
            TextOrder::Before => {},
            _ => {
                proof {
                    crate::text::text_lt_irreflexive(text@);
                    if text_lt(text@, before[i - 1]) {
                        crate::text::text_lt_asymmetric(text@, before[i - 1]);
                    }
                }
                break;
            },
        }
        i -= 1;
    }
    let ghost view = text@;
    texts.insert(i, text);
    proof {
        let after = views(texts@);
        assert(after =~= before.insert(i as int, view));
        assert(after.remove(i as int) =~= before);
        after.to_multiset_ensures();
        assert(after[i as int] == view);
        assert(after.contains(view));
        assert(after.to_multiset() =~= before.to_multiset().insert(view));
        assert forall|a: int, b: int| 0 <= a < b < after.len() implies !text_lt(
            #[trigger] after[b],
            #[trigger] after[a],
        ) by {
            let p = if a < i { a } else { a - 1 };
            let q = if b < i { b } else { b - 1 };
            if a != i && b != i {
                assert(after[a] == before[p] && after[b] == before[q]);
            } else if b == i {
                assert(after[a] == before[a]);
                assert(!text_lt(view, before[i - 1]));
                if text_lt(view, before[a]) {
                    if a < i - 1 {
                        assert(!text_lt(before[i - 1], before[a]));
                        crate::text::text_lt_total(before[i - 1], before[a]);
                        if before[a] != before[i - 1] {
                            text_lt_transitive(view, before[a], before[i - 1]);
                        }
                    }
                }
            } else {
                assert(after[b] == before[b - 1]);
                assert(text_lt(view, before[b - 1]));
                crate::text::text_lt_asymmetric(view, before[b - 1]);
            }
        }
    }
}

fn line_of_counter(name: &str, count: u64) -> (r: String)
    ensures
        r@ == counter_line(name@, count as nat),
{
    let mut r = name.to_owned();
    r.append(" ");
    r.append(decimal_text(count).as_str());
    r
}

fn line_of_index(name: &str, index: &str, count: u64) -> (r: String)
    ensures
        r@ == index_line(name@, index@, count as nat),
{
    let mut r = name.to_owned();
    r.append("{index=\"");
    r.append(index);
    r.append("\"} ");
    r.append(decimal_text(count).as_str());
    r
}

fn line_of_count(c: &RequestCount) -> (r: String)
    ensures
        r@ == count_line(c@),
{
    let mut r = "cloudsearch_requests_total{route=\"".to_owned();
    r.append(c.route.as_str());
    r.append("\",method=\"");
    r.append(c.method.as_str());
    r.append("\",status=\"");
    r.append(decimal_text(c.status as u64).as_str());
    r.append("\"} ");
    r.append(decimal_text(c.count).as_str());
    r
}

fn line_of_time(t: &AnswerTime) -> (r: String)
    ensures
        r@ == time_line(*t),
{
    let mut r = "cloudsearch_request_duration_seconds_sum{route=\"".to_owned();
    r.append(t.route.as_str());
    r.append("\",method=\"");
    r.append(t.method.as_str());
    r.append("\"} ");
    r.append(t.seconds.as_str());
    r
}

fn line_of_answer(c: &AnswerCount) -> (r: String)
    ensures
        r@ == answer_line(c@),
{
    let mut r = "cloudsearch_request_duration_seconds_count{route=\"".to_owned();
    r.append(c.route.as_str());
    r.append("\",method=\"");
    r.append(c.method.as_str());
    r.append("\"} ");
    r.append(decimal_text(c.count).as_str());
    r
}

proof fn lemma_one_more(lines: Seq<Seq<char>>, line: Seq<char>)
    ensures
        lines.push(line).to_multiset() == lines.to_multiset().insert(line),
{
    lines.to_multiset_ensures();
}

impl MetricsState {
    /// The report on all counts: one line each, in the order of the lines.
    pub fn render(
        &self,
        times: &Vec<AnswerTime>,
        open_indexes: usize,
        indexes: &Vec<(String, IndexMetrics)>,
    ) -> (r: String)
        ensures
            is_report(r@, report_lines(*self, times@, open_indexes, indexes@)),
    {
        let mut lines: Vec<String> = Vec::new();
        let ghost mut so_far: Seq<Seq<char>> = Seq::empty();
        proof {
            assert(views(lines@) =~= so_far);
        }
        let mut i: usize = 0;
        while i < self.request_counts.len()
            invariant
                i <= self.request_counts@.len(),
                in_order(views(lines@)),
                views(lines@).to_multiset() == so_far.to_multiset(),
                so_far == Seq::new(i as nat, |j: int| count_line(self.request_counts@[j]@)),
            decreases self.request_counts@.len() - i,
        {
            let line = line_of_count(&self.request_counts[i]);
            proof {
                lemma_one_more(so_far, line@);
                so_far = so_far.push(line@);
            }
            insert_text(&mut lines, line);
            i += 1;
            proof {
                assert(so_far =~= Seq::new(
                    i as nat,
                    |j: int| count_line(self.request_counts@[j]@),
                ));
            }
        }
        let ghost counts = so_far;
        i = 0;
        proof {
            assert(so_far =~= counts + Seq::new(0, |j: int| time_line(times@[j])));
        }
        while i < times.len()
            invariant
                i <= times@.len(),
                in_order(views(lines@)),
                views(lines@).to_multiset() == so_far.to_multiset(),
                so_far == counts + Seq::new(i as nat, |j: int| time_line(times@[j])),
            decreases times@.len() - i,
        {
            let line = line_of_time(&times[i]);
            proof {
                lemma_one_more(so_far, line@);
                so_far = so_far.push(line@);
            }
            insert_text(&mut lines, line);
            i += 1;
            proof {
                assert(so_far =~= counts + Seq::new(i as nat, |j: int| time_line(times@[j])));
            }
        }
        let ghost timed = so_far;
        i = 0;
        proof {
            assert(so_far =~= timed + Seq::new(
                0,
                |j: int| answer_line(self.request_duration_count@[j]@),
            ));
        }
        while i < self.request_duration_count.len()
            invariant
                i <= self.request_duration_count@.len(),
                in_order(views(lines@)),
                views(lines@).to_multiset() == so_far.to_multiset(),
                so_far == timed + Seq::new(
                    i as nat,
                    |j: int| answer_line(self.request_duration_count@[j]@),
                ),
            decreases self.request_duration_count@.len() - i,
        {
            let line = line_of_answer(&self.request_duration_count[i]);
            proof {
                lemma_one_more(so_far, line@);
                so_far = so_far.push(line@);
            }
            insert_text(&mut lines, line);
            i += 1;
            proof {
                assert(so_far =~= timed + Seq::new(
                    i as nat,
                    |j: int| answer_line(self.request_duration_count@[j]@),
                ));
            }
        }
        let ghost answers = so_far;
        let mut counters: Vec<String> = Vec::new();
        counters.push(line_of_counter("cloudsearch_index_writes_total", self.index_writes_total));
        counters.push(line_of_counter("cloudsearch_bulk_requests_total", self.bulk_requests_total));
        counters.push(
            line_of_counter("cloudsearch_bulk_operations_total", self.bulk_operations_total),
        );
        counters.push(
            line_of_counter("cloudsearch_search_requests_total", self.search_requests_total),
        );
        counters.push(line_of_counter("cloudsearch_refresh_total", self.refresh_total));
        counters.push(line_of_counter("cloudsearch_flush_total", self.flush_total));
        counters.push(line_of_counter("cloudsearch_merge_total", self.merge_total));
        counters.push(line_of_counter("cloudsearch_delete_index_total", self.delete_index_total));
        counters.push(line_of_counter("cloudsearch_open_indexes", open_indexes as u64));
        let ghost counted_lines = counter_lines(*self, open_indexes);
        proof {
            assert(views(counters@) =~= counted_lines);
            assert(so_far =~= answers + counted_lines.take(0));
        }
        i = 0;
        while i < counters.len()
            invariant
                i <= counters@.len(),
                views(counters@) == counted_lines,
                in_order(views(lines@)),
                views(lines@).to_multiset() == so_far.to_multiset(),
                so_far == answers + counted_lines.take(i as int),
            decreases counters@.len() - i,
        {
            proof {
                assert(counted_lines[i as int] == counters@[i as int]@);
                lemma_one_more(so_far, counters@[i as int]@);
                so_far = so_far.push(counters@[i as int]@);
            }
            insert_text(&mut lines, counters[i].clone());
            i += 1;
            proof {
                assert(so_far =~= answers + counted_lines.take(i as int));
            }
        }
        let ghost own = so_far;
        proof {
            assert(counted_lines.take(i as int) =~= counted_lines);
            assert(so_far =~= own + all_index_lines(indexes@, 0));
        }
        i = 0;
        while i < indexes.len()
            invariant
                i <= indexes@.len(),
                in_order(views(lines@)),
                views(lines@).to_multiset() == so_far.to_multiset(),
                so_far == own + all_index_lines(indexes@, i as int),
            decreases indexes@.len() - i,
        {
            let name = indexes[i].0.as_str();
            let metrics = &indexes[i].1;
            let documents = line_of_index(
                "cloudsearch_index_documents_total",
                name,
                metrics.document_count as u64,
            );
            let pending = line_of_index(
                "cloudsearch_index_pending_ops",
                name,
                metrics.pending_operations as u64,
            );
            let sequence = line_of_index(
                "cloudsearch_index_last_sequence_number",
                name,
                metrics.last_sequence_number,
            );
            let ghost before = so_far;
            proof {
                lemma_one_more(so_far, documents@);
                lemma_one_more(so_far.push(documents@), pending@);
                lemma_one_more(so_far.push(documents@).push(pending@), sequence@);
                so_far = so_far.push(documents@).push(pending@).push(sequence@);
                assert(index_lines(indexes@[i as int]) =~= seq![
                    documents@,
                    pending@,
                    sequence@,
                ]);
            }
            insert_text(&mut lines, documents);
            insert_text(&mut lines, pending);
            insert_text(&mut lines, sequence);
            i += 1;
            proof {
                assert(so_far =~= own + all_index_lines(indexes@, i as int));
            }
        }
        let mut r = String::new();
        let ghost sorted = views(lines@);
        proof {
            reveal_strlit("");
            assert(so_far =~= report_lines(*self, times@, open_indexes, indexes@));
            assert(sorted.take(0) =~= Seq::empty());
            assert(r@ =~= joined(sorted.take(0)));
        }
        i = 0;
        while i < lines.len()
            invariant
                i <= lines@.len(),
                sorted == views(lines@),
                r@ == joined(sorted.take(i as int)),
            decreases lines@.len() - i,
        {
            proof {
                assert(sorted.take(i + 1).drop_last() =~= sorted.take(i as int));
                assert(sorted.take(i + 1).last() == lines@[i as int]@);
            }
            r.append(lines[i].as_str());
            r.append("\n");
            i += 1;
        }
        proof {
            assert(sorted.take(i as int) =~= sorted);
        }
        r
    }
}

/// The indexes of a report by their names.
pub open spec fn named_metrics(indexes: Seq<(String, IndexMetrics)>) -> Seq<
    (Seq<char>, IndexMetrics),
> {
    Seq::new(indexes.len(), |i: int| (indexes[i].0@, indexes[i].1))
}

/// The lines on one of the indexes.
spec fn named_lines(index: (Seq<char>, IndexMetrics)) -> Seq<Seq<char>> {
    seq![
        index_line("cloudsearch_index_documents_total"@, index.0, index.1.document_count as nat),
        index_line("cloudsearch_index_pending_ops"@, index.0, index.1.pending_operations as nat),
        index_line(
            "cloudsearch_index_last_sequence_number"@,
            index.0,
            index.1.last_sequence_number as nat,
        ),
    ]
}

/// The lines on the indexes, in no order.
spec fn lines_of(indexes: Seq<(Seq<char>, IndexMetrics)>) -> vstd::multiset::Multiset<Seq<char>>
    decreases indexes.len(),
{
    if indexes.len() == 0 {
        vstd::multiset::Multiset::empty()
    } else {
        lines_of(indexes.drop_last()).add(named_lines(indexes.last()).to_multiset())
    }
}

proof fn lemma_lines_of(indexes: Seq<(String, IndexMetrics)>, k: int)
    requires
        0 <= k <= indexes.len(),
    ensures
        all_index_lines(indexes, k).to_multiset() == lines_of(named_metrics(indexes).take(k)),
    decreases k,
{
    broadcast use vstd::seq_lib::group_to_multiset_ensures;

    let named = named_metrics(indexes);
    if k > 0 {
        lemma_lines_of(indexes, k - 1);
        assert(named.take(k).drop_last() =~= named.take(k - 1));
        assert(named.take(k).last() == named[k - 1]);
        assert(index_lines(indexes[k - 1]) =~= named_lines(named[k - 1]));
        vstd::seq_lib::lemma_multiset_commutative(
            all_index_lines(indexes, k - 1),
            index_lines(indexes[k - 1]),
        );
    } else {
        assert(named.take(0) =~= Seq::empty());
        assert(all_index_lines(indexes, 0).to_multiset().len() == 0);
        assert(all_index_lines(indexes, 0).to_multiset() =~= vstd::multiset::Multiset::empty());
    }
}

proof fn lemma_lines_without(indexes: Seq<(Seq<char>, IndexMetrics)>, p: int)
    requires
        0 <= p < indexes.len(),
    ensures
        lines_of(indexes) == lines_of(indexes.remove(p)).add(
            named_lines(indexes[p]).to_multiset(),
        ),
    decreases indexes.len(),
{
    let last = indexes.len() - 1;
    if p == last {
        assert(indexes.remove(p) =~= indexes.drop_last());
    } else {
        let shorter = indexes.drop_last();
        lemma_lines_without(shorter, p);
        assert(shorter[p] == indexes[p]);
        assert(indexes.remove(p).drop_last() =~= shorter.remove(p));
        assert(indexes.remove(p).last() == indexes.last());
        assert(lines_of(indexes) =~= lines_of(indexes.remove(p)).add(
            named_lines(indexes[p]).to_multiset(),
        ));
    }
}

proof fn lemma_lines_in_any_order(
    a: Seq<(Seq<char>, IndexMetrics)>,
    b: Seq<(Seq<char>, IndexMetrics)>,
)
    requires
        a.to_multiset() == b.to_multiset(),
    ensures
        lines_of(a) == lines_of(b),
    decreases a.len(),
{
    broadcast use vstd::seq_lib::group_to_multiset_ensures;

    assert(a.to_multiset().len() == a.len());
    assert(b.to_multiset().len() == b.len());
    if a.len() > 0 {
        let last = a.last();
        let n = a.len() - 1;
        assert(a[n] == last);
        assert(a.contains(last));
        assert(a.to_multiset().count(last) > 0);
        assert(b.to_multiset().count(last) > 0);
        assert(b.contains(last));
        let p = choose|p: int| 0 <= p < b.len() && b[p] == last;
        assert(a.remove(n) =~= a.drop_last());
        assert(a.remove(n).to_multiset() =~= a.to_multiset().remove(last));
        assert(b.remove(p).to_multiset() =~= b.to_multiset().remove(last));
        lemma_lines_in_any_order(a.drop_last(), b.remove(p));
        lemma_lines_without(b, p);
    }
}

proof fn lemma_one_order(a: Seq<Seq<char>>, b: Seq<Seq<char>>)
    requires
        in_order(a),
        in_order(b),
        a.to_multiset() == b.to_multiset(),
    ensures
        a == b,
{
    let leq = |x: Seq<char>, y: Seq<char>| !text_lt(y, x);
    assert forall|x: Seq<char>| #[trigger] leq(x, x) by {
        text_lt_irreflexive(x);
    }
    assert forall|x: Seq<char>, y: Seq<char>| #[trigger]
        leq(x, y) && #[trigger] leq(y, x) implies x == y by {
        text_lt_total(x, y);
    }
    assert forall|x: Seq<char>, y: Seq<char>, z: Seq<char>| #[trigger]
        leq(x, y) && #[trigger] leq(y, z) implies leq(x, z) by {
        if text_lt(z, x) {
            text_lt_total(x, y);
            if text_lt(x, y) {
                text_lt_transitive(z, x, y);
            }
        }
    }
    assert forall|x: Seq<char>, y: Seq<char>| #[trigger] leq(x, y) || #[trigger] leq(y, x) by {
        if text_lt(x, y) {
            text_lt_asymmetric(x, y);
        }
    }
    assert(vstd::relations::sorted_by(a, leq)) by {
        assert forall|i: int, j: int| 0 <= i < j < a.len() implies #[trigger] leq(a[i], a[j]) by {
            assert(!text_lt(a[j], a[i]));
        }
    }
    assert(vstd::relations::sorted_by(b, leq)) by {
        assert forall|i: int, j: int| 0 <= i < j < b.len() implies #[trigger] leq(b[i], b[j]) by {
            assert(!text_lt(b[j], b[i]));
        }
    }
    vstd::seq_lib::lemma_sorted_unique(a, b, leq);
}

/// The report does not depend on the order in which the indexes are handed in.
pub proof fn report_ignores_order_of_indexes(
    state: MetricsState,
    times: Seq<AnswerTime>,
    open_indexes: usize,
    indexes: Seq<(String, IndexMetrics)>,
    others: Seq<(String, IndexMetrics)>,
    report: Seq<char>,
    other_report: Seq<char>,
)
    requires
        named_metrics(indexes).to_multiset() == named_metrics(others).to_multiset(),
        is_report(report, report_lines(state, times, open_indexes, indexes)),
        is_report(other_report, report_lines(state, times, open_indexes, others)),
    ensures
        report == other_report,
{
    let lines = report_lines(state, times, open_indexes, indexes);
    let other_lines = report_lines(state, times, open_indexes, others);
    let tail = all_index_lines(indexes, indexes.len() as int);
    let other_tail = all_index_lines(others, others.len() as int);
    let head = lines.take(lines.len() - tail.len());
    assert(lines =~= head + tail);
    assert(other_lines =~= head + other_tail);
    lemma_lines_of(indexes, indexes.len() as int);
    lemma_lines_of(others, others.len() as int);
    let named = named_metrics(indexes);
    let other_named = named_metrics(others);
    assert(named.take(indexes.len() as int) =~= named);
    assert(other_named.take(others.len() as int) =~= other_named);
    lemma_lines_in_any_order(named, other_named);
    vstd::seq_lib::lemma_multiset_commutative(head, tail);
    vstd::seq_lib::lemma_multiset_commutative(head, other_tail);
    let sorted = choose|sorted: Seq<Seq<char>>|
        #[trigger] in_order(sorted) && sorted.to_multiset() == lines.to_multiset() && report
            == joined(sorted);
    let other_sorted = choose|sorted: Seq<Seq<char>>|
        #[trigger] in_order(sorted) && sorted.to_multiset() == other_lines.to_multiset()
            && other_report == joined(sorted);
    lemma_one_order(sorted, other_sorted);
}

} // verus!
