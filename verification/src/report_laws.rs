//! Properties of the rendered reports: which figures stand on which line,
//! which records a section lists, and how the JSON lists are punctuated.
use vstd::prelude::*;
use crate::analyzer::{analysis_fits, analyze_spec, keep_first, AnalysisView};
use crate::laws::{is_slow, law_samples_are_slow_or_error_records};
use crate::model::{accepts, FilterView, LogLevel, RecordView};
use crate::report::{
    escape_json_spec, json_error_rows, json_head, json_latency, json_lines, json_tail, json_top_rows, level_rows,
    markdown_head, markdown_lines, record_text, record_text_lines, text_head, text_health, text_latency, text_lines,
    text_parse_errors, text_samples, FiguresView,
};
use crate::text::dec;

verus! {

/// The Markdown report gives, on the line that starts "- WARN 数量：", the
/// number of `Warn` records, and on the line after it, which starts
/// "- ERROR/FATAL 数量：", the number of `Error` records plus the number of
/// `Fatal` records.
pub proof fn law_markdown_counts_warnings_and_errors(a: AnalysisView, top_n: usize, fg: FiguresView)
    ensures
        markdown_lines(a, top_n, fg).len() > 9,
        markdown_lines(a, top_n, fg)[8] == "- WARN 数量："@ + dec(a.levels.count(LogLevel::Warn) as nat),
        markdown_lines(a, top_n, fg)[9] == "- ERROR/FATAL 数量："@ + dec(
            (a.levels.count(LogLevel::Error) + a.levels.count(LogLevel::Fatal)) as nat,
        ),
{
    let ls = markdown_lines(a, top_n, fg);
    let h = markdown_head(a);
    assert(h.len() == 15);
    assert(ls[8] == h[8]);
    assert(ls[9] == h[9]);
}

/// The number of samples a report lists from `s` when it lists at most `n`.
pub open spec fn listed(s: Seq<RecordView>, n: usize) -> nat {
    if (n as nat) < s.len() { n as nat } else { s.len() }
}

/// In the text report, the line "Slow records" is followed by the first
/// `top_n` slow records of the analysis, one line each as `record_text`
/// writes it, in their order; then the report ends or an empty line opens
/// the next section.
pub proof fn law_text_report_lists_slow_records(a: AnalysisView, top_n: usize, fg: FiguresView)
    ensures
        exists|j: int|
            0 <= j && j + 1 + listed(a.slow_records, top_n) <= text_lines(a, top_n, fg).len()
                && #[trigger] text_lines(a, top_n, fg)[j] == "Slow records"@
                && (forall|k: int|
                0 <= k < listed(a.slow_records, top_n) ==> text_lines(a, top_n, fg)[j + 1 + k] == record_text(
                    #[trigger] a.slow_records[k],
                ))
                && (j + 1 + listed(a.slow_records, top_n) == text_lines(a, top_n, fg).len()
                || text_lines(a, top_n, fg)[j + 1 + listed(a.slow_records, top_n)] == Seq::<char>::empty()),
{
    let ls = text_lines(a, top_n, fg);
    let m = listed(a.slow_records, top_n) as int;
    let p = text_head(a) + level_rows(a.levels, "  "@, " "@, Seq::empty()) + text_latency(a, fg) + text_health(fg);
    let smp = text_samples(a, top_n);
    let tail: Seq<Seq<char>> = if a.parse_errors.len() > 0 {
        text_parse_errors(a, top_n)
    } else {
        Seq::empty()
    };
    assert(ls == p + smp + tail);
    let slow = record_text_lines(keep_first(a.slow_records, top_n as nat));
    assert(slow.len() == m);
    let j: int = p.len() as int + smp.len() as int - m - 1;
    assert(smp[smp.len() - m - 1] == "Slow records"@);
    assert(ls[j] == "Slow records"@);
    assert forall|k: int| 0 <= k < m implies ls[j + 1 + k] == record_text(a.slow_records[k]) by {
        assert(ls[j + 1 + k] == smp[smp.len() - m + k]);
        assert(smp[smp.len() - m + k] == slow[k]);
        assert(keep_first(a.slow_records, top_n as nat)[k] == a.slow_records[k]);
    }
    if a.parse_errors.len() > 0 {
        assert(ls[j + 1 + m] == tail[0]);
    }
}

/// In the text report of an analysis, each record listed under "Slow
/// records" is one the filter keeps with a latency at or above the slow
/// threshold.
pub proof fn law_text_report_slow_records_are_slow(
    lines: Seq<Seq<char>>,
    f: FilterView,
    slow_threshold_ms: u64,
    n: usize,
    top_n: usize,
)
    requires
        lines.len() <= usize::MAX,
        analysis_fits(lines, f, n),
    ensures
        ({
            let a = analyze_spec(lines, f, slow_threshold_ms, n);
            forall|k: int| 0 <= k < listed(a.slow_records, top_n) ==> accepts(f, #[trigger] a.slow_records[k])
                && is_slow(a.slow_records[k], slow_threshold_ms)
        }),
{
    law_samples_are_slow_or_error_records(lines, f, slow_threshold_ms, n);
}

/// The number of services the JSON report lists when it lists at most `n`.
pub open spec fn listed_services(a: AnalysisView, n: usize) -> int {
    if (n as nat) < a.top_services.len() { n as int } else { a.top_services.len() as int }
}

/// A service and its count as a JSON object on a line of its own.
pub open spec fn service_row(e: (Seq<char>, usize)) -> Seq<char> {
    "    {\"service\": \""@ + escape_json_spec(e.0) + "\", \"count\": "@ + dec(e.1 as nat) + "}"@
}

/// The service rows of the JSON report form a JSON list: after the line
/// `"top_services": [` come the first `top_n` services, one row each, every
/// row but the last followed by a comma, and then the line `],`.
pub proof fn law_json_service_rows_are_a_list(a: AnalysisView, top_n: usize, fg: FiguresView)
    ensures
        exists|j: int|
            0 <= j && j + 1 + listed_services(a, top_n) < json_lines(a, top_n, fg).len()
                && #[trigger] json_lines(a, top_n, fg)[j] == "  \"top_services\": ["@
                && json_lines(a, top_n, fg)[j + 1 + listed_services(a, top_n)] == "  ],"@
                && (forall|k: int|
                0 <= k < listed_services(a, top_n) ==> json_lines(a, top_n, fg)[j + 1 + k] == service_row(
                    #[trigger] a.top_services[k],
                ) + (if k + 1 < listed_services(a, top_n) {
                    ","@
                } else {
                    Seq::<char>::empty()
                })),
{
    let ls = json_lines(a, top_n, fg);
    let m: int = if (top_n as nat) < a.top_services.len() { top_n as int } else { a.top_services.len() as int };
    let p = json_head(a) + json_latency(a, fg);
    let t = json_tail(a, top_n, fg);
    assert(ls == p + t);
    let rows = json_top_rows(a.top_services, top_n);
    assert(rows.len() == m);
    let j: int = p.len() as int + 6;
    assert(ls[j] == t[6]);
    assert(ls[j + 1 + m] == t[7 + m]);
    assert forall|k: int| 0 <= k < m implies ls[j + 1 + k] == service_row(a.top_services[k]) + (if k + 1 < m {
        ","@
    } else {
        Seq::<char>::empty()
    }) by {
        assert(ls[j + 1 + k] == t[7 + k]);
        assert(t[7 + k] == rows[k]);
        assert(keep_first(a.top_services, top_n as nat)[k] == a.top_services[k]);
        assert(service_row(a.top_services[k]) + Seq::<char>::empty() =~= service_row(a.top_services[k]));
    }
}

/// The number of parse errors the JSON report lists when it lists at most `n`.
pub open spec fn listed_errors(a: AnalysisView, n: usize) -> int {
    if (n as nat) < a.parse_errors.len() { n as int } else { a.parse_errors.len() as int }
}

/// The parse errors of the JSON report form a JSON list that closes the
/// report: after the line `"parse_errors": [` come the first `top_n` parse
/// errors as JSON strings, every one but the last followed by a comma, then
/// the line `]` and the final `}`.
pub proof fn law_json_parse_errors_close_the_report(a: AnalysisView, top_n: usize, fg: FiguresView)
    ensures
        ({
            let ls = json_lines(a, top_n, fg);
            let m = listed_errors(a, top_n);
            &&& ls.len() >= m + 3
            &&& ls[ls.len() - m - 3] == "  \"parse_errors\": ["@
            &&& ls[ls.len() - 2] == "  ]"@
            &&& ls[ls.len() - 1] == "}"@
            &&& forall|k: int| 0 <= k < m ==> #[trigger] ls[ls.len() - m - 2 + k] == "    \""@ + escape_json_spec(
                a.parse_errors[k],
            ) + "\""@ + (if k + 1 < m {
                ","@
            } else {
                Seq::<char>::empty()
            })
        }),
{
    let ls = json_lines(a, top_n, fg);
    let m = listed_errors(a, top_n);
    let p = json_head(a) + json_latency(a, fg);
    let t = json_tail(a, top_n, fg);
    assert(ls == p + t);
    let rows = json_error_rows(a.parse_errors, top_n);
    assert(rows.len() == m);
    let tops = json_top_rows(a.top_services, top_n);
    let base: int = p.len() as int + 9 + tops.len() as int;
    assert(ls.len() == base + m + 2);
    assert(ls[base - 1] == t[8 + tops.len() as int]);
    assert(ls[ls.len() - 2] == t[t.len() as int - 2]);
    assert(ls[ls.len() - 1] == t[t.len() as int - 1]);
    assert forall|k: int| 0 <= k < m implies #[trigger] ls[ls.len() - m - 2 + k] == "    \""@ + escape_json_spec(
        a.parse_errors[k],
    ) + "\""@ + (if k + 1 < m {
        ","@
    } else {
        Seq::<char>::empty()
    }) by {
        assert(ls[base + k] == t[9 + tops.len() as int + k]);
        assert(t[9 + tops.len() as int + k] == rows[k]);
        assert(keep_first(a.parse_errors, top_n as nat)[k] == a.parse_errors[k]);
        let item = "    \""@ + escape_json_spec(a.parse_errors[k]) + "\""@;
        assert(item + Seq::<char>::empty() =~= item);
    }
}

} // verus!
