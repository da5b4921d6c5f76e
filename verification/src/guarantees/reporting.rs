//! What the report of the service holds.
use vstd::prelude::*;

use crate::guarantees::counting::lemma_in_both;
use crate::guarantees::texts::stands_before;
use crate::guarantees::texts::texts_are_ordered_as_in_a_dictionary;
use crate::metrics::all_index_lines;
use crate::metrics::answer_line;
use crate::metrics::count_line;
use crate::metrics::counter_lines;
use crate::metrics::in_order;
use crate::metrics::index_lines;
use crate::metrics::is_report;
use crate::metrics::joined;
use crate::metrics::report_lines;
use crate::metrics::time_line;
use crate::metrics::AnswerTime;
use crate::metrics::MetricsState;
use crate::index::IndexMetrics;
use crate::text::decimal;
use crate::text::text_lt_total;

verus! {

/// Whether a text has that line: it stands at the beginning or behind a line end, and a line end
/// follows it.
pub open spec fn has_line(report: Seq<char>, line: Seq<char>) -> bool {
    exists|front: Seq<char>, back: Seq<char>|
        report == #[trigger] (front + line + seq!['\n'] + back) && (front.len() == 0 || front.last()
            == '\n')
}

proof fn lemma_joined_ends(lines: Seq<Seq<char>>)
    ensures
        joined(lines).len() == 0 || joined(lines).last() == '\n',
{
    reveal_strlit("\n");
    if lines.len() > 0 {
        assert("\n"@ =~= seq!['\n']);
    }
}

proof fn lemma_joined_has(lines: Seq<Seq<char>>, i: int)
    requires
        0 <= i < lines.len(),
    ensures
        has_line(joined(lines), lines[i]),
    decreases lines.len(),
{
    reveal_strlit("\n");
    assert("\n"@ =~= seq!['\n']);
    let less = lines.drop_last();
    let front = joined(less);
    lemma_joined_ends(less);
    if i == less.len() {
        let none = Seq::<char>::empty();
        assert(joined(lines) =~= front + lines[i] + seq!['\n'] + none);
    } else {
        lemma_joined_has(less, i);
        assert(less[i] == lines[i]);
        let (a, b) = choose|a: Seq<char>, b: Seq<char>|
            front == #[trigger] (a + lines[i] + seq!['\n'] + b) && (a.len() == 0 || a.last()
                == '\n');
        let rest = b + lines.last() + seq!['\n'];
        assert(joined(lines) =~= a + lines[i] + seq!['\n'] + rest);
    }
}

proof fn lemma_report_has(report: Seq<char>, lines: Seq<Seq<char>>, line: Seq<char>)
    requires
        is_report(report, lines),
        lines.contains(line),
    ensures
        has_line(report, line),
{
    let sorted = choose|sorted: Seq<Seq<char>>|
        #[trigger] in_order(sorted) && sorted.to_multiset() == lines.to_multiset() && report
            == joined(sorted);
    sorted.to_multiset_ensures();
    lines.to_multiset_ensures();
    assert(lines.to_multiset().count(line) > 0);
    assert(sorted.contains(line));
    let i = choose|i: int| 0 <= i < sorted.len() && sorted[i] == line;
    lemma_joined_has(sorted, i);
}

proof fn lemma_index_lines(indexes: Seq<(String, IndexMetrics)>, k: int, i: int, line: Seq<char>)
    requires
        0 <= i < k <= indexes.len(),
        index_lines(indexes[i]).contains(line),
    ensures
        all_index_lines(indexes, k).contains(line),
    decreases k,
{
    lemma_in_both(all_index_lines(indexes, k - 1), index_lines(indexes[k - 1]), line);
    if i < k - 1 {
        lemma_index_lines(indexes, k - 1, i, line);
    }
}

/// A line of one of the parts of a report is a line of the report.
proof fn lemma_parts(
    state: MetricsState,
    times: Seq<AnswerTime>,
    open_indexes: usize,
    indexes: Seq<(String, IndexMetrics)>,
    line: Seq<char>,
)
    ensures
        report_lines(state, times, open_indexes, indexes).contains(line) <==> {
            ||| Seq::new(
                state.request_counts@.len(),
                |i: int| count_line(state.request_counts@[i]@),
            ).contains(line)
            ||| Seq::new(times.len(), |i: int| time_line(times[i])).contains(line)
            ||| Seq::new(
                state.request_duration_count@.len(),
                |i: int| answer_line(state.request_duration_count@[i]@),
            ).contains(line)
            ||| counter_lines(state, open_indexes).contains(line)
            ||| all_index_lines(indexes, indexes.len() as int).contains(line)
        },
{
    let a = Seq::new(
        state.request_counts@.len(),
        |i: int| count_line(state.request_counts@[i]@),
    );
    let b = Seq::new(times.len(), |i: int| time_line(times[i]));
    let c = Seq::new(
        state.request_duration_count@.len(),
        |i: int| answer_line(state.request_duration_count@[i]@),
    );
    let d = counter_lines(state, open_indexes);
    let e = all_index_lines(indexes, indexes.len() as int);
    lemma_in_both(a, b, line);
    lemma_in_both(a + b, c, line);
    lemma_in_both(a + b + c, d, line);
    lemma_in_both(a + b + c + d, e, line);
}

/// A report has a line for each route, method and status with the number of requests, and for each
/// route and method one with the number of answers and one with the time that they took.
pub proof fn reports_tell_of_each_route(
    report: Seq<char>,
    state: MetricsState,
    times: Seq<AnswerTime>,
    open_indexes: usize,
    indexes: Seq<(String, IndexMetrics)>,
    i: int,
)
    requires
        is_report(report, report_lines(state, times, open_indexes, indexes)),
    ensures
        0 <= i < state.request_counts@.len() ==> has_line(
            report,
            "cloudsearch_requests_total{route=\""@ + state.request_counts@[i].route@
                + "\",method=\""@ + state.request_counts@[i].method@ + "\",status=\""@ + decimal(
                state.request_counts@[i].status as nat,
            ) + "\"} "@ + decimal(state.request_counts@[i].count as nat),
        ),
        0 <= i < times.len() ==> has_line(
            report,
            "cloudsearch_request_duration_seconds_sum{route=\""@ + times[i].route@
                + "\",method=\""@ + times[i].method@ + "\"} "@ + times[i].seconds@,
        ),
        0 <= i < state.request_duration_count@.len() ==> has_line(
            report,
            "cloudsearch_request_duration_seconds_count{route=\""@
                + state.request_duration_count@[i].route@ + "\",method=\""@
                + state.request_duration_count@[i].method@ + "\"} "@ + decimal(
                state.request_duration_count@[i].count as nat,
            ),
        ),
{
    let lines = report_lines(state, times, open_indexes, indexes);
    if 0 <= i < state.request_counts@.len() {
        let part = Seq::new(
            state.request_counts@.len(),
            |i: int| count_line(state.request_counts@[i]@),
        );
        assert(part[i] == count_line(state.request_counts@[i]@));
        lemma_parts(state, times, open_indexes, indexes, part[i]);
        lemma_report_has(report, lines, part[i]);
    }
    if 0 <= i < times.len() {
        let part = Seq::new(times.len(), |i: int| time_line(times[i]));
        assert(part[i] == time_line(times[i]));
        lemma_parts(state, times, open_indexes, indexes, part[i]);
        lemma_report_has(report, lines, part[i]);
    }
    if 0 <= i < state.request_duration_count@.len() {
        let part = Seq::new(
            state.request_duration_count@.len(),
            |i: int| answer_line(state.request_duration_count@[i]@),
        );
        assert(part[i] == answer_line(state.request_duration_count@[i]@));
        lemma_parts(state, times, open_indexes, indexes, part[i]);
        lemma_report_has(report, lines, part[i]);
    }
}

/// A report has a line for each of the counters, with what it has counted.
pub proof fn reports_tell_of_each_counter(
    report: Seq<char>,
    state: MetricsState,
    times: Seq<AnswerTime>,
    open_indexes: usize,
    indexes: Seq<(String, IndexMetrics)>,
)
    requires
        is_report(report, report_lines(state, times, open_indexes, indexes)),
    ensures
        has_line(
            report,
            "cloudsearch_index_writes_total"@ + " "@ + decimal(state.index_writes_total as nat),
        ),
        has_line(
            report,
            "cloudsearch_bulk_requests_total"@ + " "@ + decimal(state.bulk_requests_total as nat),
        ),
        has_line(
            report,
            "cloudsearch_bulk_operations_total"@ + " "@ + decimal(
                state.bulk_operations_total as nat,
            ),
        ),
        has_line(
            report,
            "cloudsearch_search_requests_total"@ + " "@ + decimal(
                state.search_requests_total as nat,
            ),
        ),
        has_line(report, "cloudsearch_refresh_total"@ + " "@ + decimal(state.refresh_total as nat)),
        has_line(report, "cloudsearch_flush_total"@ + " "@ + decimal(state.flush_total as nat)),
        has_line(report, "cloudsearch_merge_total"@ + " "@ + decimal(state.merge_total as nat)),
        has_line(
            report,
            "cloudsearch_delete_index_total"@ + " "@ + decimal(state.delete_index_total as nat),
        ),
        has_line(report, "cloudsearch_open_indexes"@ + " "@ + decimal(open_indexes as nat)),
{
    let lines = report_lines(state, times, open_indexes, indexes);
    let part = counter_lines(state, open_indexes);
    assert forall|i: int| 0 <= i < 9 implies has_line(report, #[trigger] part[i]) by {
        lemma_parts(state, times, open_indexes, indexes, part[i]);
        lemma_report_has(report, lines, part[i]);
    }
    assert(has_line(report, part[0]));
    assert(has_line(report, part[1]));
    assert(has_line(report, part[2]));
    assert(has_line(report, part[3]));
    assert(has_line(report, part[4]));
    assert(has_line(report, part[5]));
    assert(has_line(report, part[6]));
    assert(has_line(report, part[7]));
    assert(has_line(report, part[8]));
}

/// A report has three lines for each index: how many documents a search sees, how many operations
/// wait, and the number of the last write.
pub proof fn reports_tell_of_each_index(
    report: Seq<char>,
    state: MetricsState,
    times: Seq<AnswerTime>,
    open_indexes: usize,
    indexes: Seq<(String, IndexMetrics)>,
    i: int,
)
    requires
        is_report(report, report_lines(state, times, open_indexes, indexes)),
        0 <= i < indexes.len(),
    ensures
        has_line(
            report,
            "cloudsearch_index_documents_total"@ + "{index=\""@ + indexes[i].0@ + "\"} "@ + decimal(
                indexes[i].1.document_count as nat,
            ),
        ),
        has_line(
            report,
            "cloudsearch_index_pending_ops"@ + "{index=\""@ + indexes[i].0@ + "\"} "@ + decimal(
                indexes[i].1.pending_operations as nat,
            ),
        ),
        has_line(
            report,
            "cloudsearch_index_last_sequence_number"@ + "{index=\""@ + indexes[i].0@ + "\"} "@
                + decimal(indexes[i].1.last_sequence_number as nat),
        ),
{
    let lines = report_lines(state, times, open_indexes, indexes);
    let part = index_lines(indexes[i]);
    assert forall|j: int| 0 <= j < 3 implies has_line(report, #[trigger] part[j]) by {
        lemma_index_lines(indexes, indexes.len() as int, i, part[j]);
        lemma_parts(state, times, open_indexes, indexes, part[j]);
        lemma_report_has(report, lines, part[j]);
    }
    assert(has_line(report, part[0]));
    assert(has_line(report, part[1]));
    assert(has_line(report, part[2]));
}

/// Whether each line stands before the next or is the same.
pub open spec fn are_alphabetical(lines: Seq<Seq<char>>) -> bool {
    forall|i: int, j: int|
        0 <= i < j < lines.len() ==> #[trigger] lines[i] == #[trigger] lines[j] || stands_before(
            lines[i],
            lines[j],
        )
}

/// The lines of a report stand as in a dictionary, each as often as it was made.
pub proof fn reports_are_in_alphabetical_order(report: Seq<char>, lines: Seq<Seq<char>>)
    requires
        is_report(report, lines),
    ensures
        exists|sorted: Seq<Seq<char>>| #[trigger]
            are_alphabetical(sorted) && sorted.to_multiset() == lines.to_multiset() && report
                == joined(sorted),
{
    let sorted = choose|sorted: Seq<Seq<char>>|
        #[trigger] in_order(sorted) && sorted.to_multiset() == lines.to_multiset() && report
            == joined(sorted);
    assert forall|i: int, j: int| 0 <= i < j < sorted.len() implies #[trigger] sorted[i]
        == #[trigger] sorted[j] || stands_before(sorted[i], sorted[j]) by {
        text_lt_total(sorted[i], sorted[j]);
        texts_are_ordered_as_in_a_dictionary(sorted[i], sorted[j]);
    }
    assert(are_alphabetical(sorted));
}

} // verus!
