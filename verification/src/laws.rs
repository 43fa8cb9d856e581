//! Properties of the library that span its functions: what an analysis counts,
//! how services are ranked, how latency figures combine, how names read back.
use vstd::prelude::*;
use vstd::std_specs::cmp::PartialOrdSpec;
use core::cmp::Ordering;
use crate::analyzer::{
    analysis_fits, chunk_plan_spec, latency_empty, merge_all_spec, analyze_spec, count_of, empty_view, finish_spec, fold_from, fold_lines, keep_first,
    latency_added, latency_merged, latency_total_from, lemma_fold_bounds, lemma_fold_from_bounds,
    lemma_latency_total_from_monotone, lemma_merge_counts, lemma_sort_by_contains, lemma_sort_by_len,
    lemma_sort_by_sorted, lemma_sort_counts_ranked, merge_fits, merge_spec, opt_max, opt_min, ranked,
    sample_limit, sort_by, sort_counts, sort_records, top_spec, AnalysisView, LatencyStats, LevelCounts,
};
use crate::model::{
    accepts, is_error_level, level_name, parse_format_spec, parse_level_spec, severity_of, FilterView, LogLevel,
    OutputFormat, RecordView,
};
use crate::text::{lemma_trim_case, lower_seq, upper_seq};
use crate::export::{
    extension_spec, file_name_spec, format_for_extension, infer_format_spec, last_index_of, lemma_last_index_concat,
    lemma_last_index_of,
};
use crate::cli::{args_spec, analyze_from, apply_flag, default_args, resolve_format, takes_value, CommandView, ConfigView};
use crate::parser::{
    escaped_value, fields_from, fields_spec, lemma_field_step, lemma_quoted_field_step, parse_line_spec, plain_key,
    plain_value,
};
use crate::report::{escape_json_spec, health_for, json_char, score_for, HealthLevel};
use crate::strmap::{insert_entry, keys_sorted, lemma_insert_entry, lookup, seq_lt};

verus! {

/// The top services are ranked (a higher count first, equal counts in
/// ascending name order), there are `limit` of them or all where there are
/// fewer, each is an entry of the counts, and no entry left out has a higher
/// count than any entry kept.
pub proof fn law_top_services_are_the_most_frequent(es: Seq<(Seq<char>, usize)>, limit: usize)
    requires
        keys_sorted(es),
    ensures
        ranked(top_spec(es, limit)),
        top_spec(es, limit).len() == (if limit < es.len() { limit as nat } else { es.len() }),
        forall|i: int| 0 <= i < top_spec(es, limit).len() ==> es.contains(#[trigger] top_spec(es, limit)[i]),
        forall|e: (Seq<char>, usize), i: int|
            #![trigger es.contains(e), top_spec(es, limit)[i]]
            es.contains(e) && !top_spec(es, limit).contains(e) && 0 <= i < top_spec(es, limit).len()
                ==> e.1 <= top_spec(es, limit)[i].1,
{
    let key = |e: (Seq<char>, usize)| -(e.1 as int);
    let s = sort_counts(es);
    let t = top_spec(es, limit);
    lemma_sort_counts_ranked(es);
    lemma_sort_by_len(es, key);
    assert(s == crate::analyzer::sort_by(es, key));
    assert(ranked(t)) by {
        assert forall|i: int, j: int| #![trigger t[i], t[j]] 0 <= i < j < t.len() implies crate::model::ranks_above(
            t[i].0,
            t[i].1,
            t[j].0,
            t[j].1,
        ) by {
            assert(t[i] == s[i] && t[j] == s[j]);
        }
    }
    assert forall|i: int| 0 <= i < t.len() implies es.contains(#[trigger] t[i]) by {
        assert(t[i] == s[i]);
        assert(s.contains(s[i]));
        lemma_sort_by_contains(es, key, s[i]);
    }
    assert forall|e: (Seq<char>, usize), i: int|
        #![trigger es.contains(e), t[i]]
        es.contains(e) && !t.contains(e) && 0 <= i < t.len() implies e.1 <= t[i].1 by {
        lemma_sort_by_contains(es, key, e);
        let j = choose|j: int| 0 <= j < s.len() && s[j] == e;
        if j < t.len() {
            assert(t[j] == s[j]);
        }
        assert(t[i] == s[i]);
        assert(crate::model::ranks_above(s[i].0, s[i].1, s[j].0, s[j].1));
    }
}

/// Latency statistics of a single sample `v`.
pub open spec fn latency_of(v: u64, slow_threshold_ms: u64) -> LatencyStats {
    LatencyStats {
        count: 1,
        sum: v,
        min: Some(v),
        max: Some(v),
        slow_count: if v >= slow_threshold_ms { 1 } else { 0 },
    }
}

/// Adding a sample is merging in the statistics of that sample alone.
pub proof fn law_latency_add_is_merge_of_one(s: LatencyStats, v: u64, slow_threshold_ms: u64)
    ensures
        latency_added(s, v, slow_threshold_ms) == latency_merged(s, latency_of(v, slow_threshold_ms)),
{
}

/// Merging latency statistics does not depend on the order of the two sides.
pub proof fn law_latency_merge_commutes(a: LatencyStats, b: LatencyStats)
    ensures
        latency_merged(a, b) == latency_merged(b, a),
{
}

/// Merging latency statistics does not depend on how they are grouped.
pub proof fn law_latency_merge_associates(a: LatencyStats, b: LatencyStats, c: LatencyStats)
    requires
        a.count + b.count + c.count <= usize::MAX,
        a.sum + b.sum + c.sum <= u64::MAX,
        a.slow_count + b.slow_count + c.slow_count <= usize::MAX,
    ensures
        latency_merged(latency_merged(a, b), c) == latency_merged(a, latency_merged(b, c)),
{
}

/// Merging in statistics without a sample changes nothing, on either side.
pub proof fn law_latency_merge_with_empty(s: LatencyStats)
    ensures
        latency_merged(latency_empty(), s) == s,
        latency_merged(s, latency_empty()) == s,
{
}

/// The sum of the samples `zs`.
pub open spec fn sample_sum(zs: Seq<u64>) -> int
    decreases zs.len(),
{
    if zs.len() == 0 {
        0
    } else {
        sample_sum(zs.drop_last()) + zs.last()
    }
}

/// The statistics got by adding the samples `zs` one by one, from none.
pub open spec fn latency_of_samples(zs: Seq<u64>, slow_threshold_ms: u64) -> LatencyStats
    decreases zs.len(),
{
    if zs.len() == 0 {
        latency_empty()
    } else {
        latency_added(latency_of_samples(zs.drop_last(), slow_threshold_ms), zs.last(), slow_threshold_ms)
    }
}

proof fn lemma_samples_counted(zs: Seq<u64>, thr: u64)
    requires
        zs.len() <= usize::MAX,
        sample_sum(zs) <= u64::MAX,
    ensures
        latency_of_samples(zs, thr).count == zs.len(),
        latency_of_samples(zs, thr).sum == sample_sum(zs),
        latency_of_samples(zs, thr).slow_count <= zs.len(),
        sample_sum(zs) >= 0,
    decreases zs.len(),
{
    if zs.len() > 0 {
        lemma_samples_counted(zs.drop_last(), thr);
    }
}

proof fn lemma_sample_sum_concat(xs: Seq<u64>, ys: Seq<u64>)
    ensures
        sample_sum(xs + ys) == sample_sum(xs) + sample_sum(ys),
        sample_sum(ys) >= 0,
    decreases ys.len(),
{
    if ys.len() == 0 {
        assert(xs + ys =~= xs);
    } else {
        lemma_sample_sum_concat(xs, ys.drop_last());
        assert((xs + ys).drop_last() =~= xs + ys.drop_last());
        assert((xs + ys).last() == ys.last());
    }
}

/// Merging the statistics of the samples `xs` with those of the samples `ys`
/// gives the statistics of all the samples added one by one, `xs` first; so
/// it does not matter where a run of samples is split.
pub proof fn law_latency_merge_of_samples(xs: Seq<u64>, ys: Seq<u64>, slow_threshold_ms: u64)
    requires
        xs.len() + ys.len() <= usize::MAX,
        sample_sum(xs) + sample_sum(ys) <= u64::MAX,
    ensures
        latency_merged(latency_of_samples(xs, slow_threshold_ms), latency_of_samples(ys, slow_threshold_ms))
            == latency_of_samples(xs + ys, slow_threshold_ms),
    decreases ys.len(),
{
    let thr = slow_threshold_ms;
    lemma_sample_sum_concat(xs, ys);
    lemma_sample_sum_concat(Seq::<u64>::empty(), xs);
    assert(Seq::<u64>::empty() + xs =~= xs);
    if ys.len() == 0 {
        assert(xs + ys =~= xs);
    } else {
        let rest = ys.drop_last();
        let y = ys.last();
        lemma_sample_sum_concat(rest, seq![y]);
        assert(rest + seq![y] =~= ys);
        law_latency_merge_of_samples(xs, rest, thr);
        lemma_samples_counted(xs, thr);
        lemma_samples_counted(rest, thr);
        assert((xs + ys).drop_last() =~= xs + rest);
        assert((xs + ys).last() == y);
        let a = latency_of_samples(xs, thr);
        let b = latency_of_samples(rest, thr);
        law_latency_add_is_merge_of_one(b, y, thr);
        law_latency_add_is_merge_of_one(latency_merged(a, b), y, thr);
        law_latency_merge_associates(a, b, latency_of(y, thr));
    }
}

/// Levels are ordered by severity, in the order in which they are declared,
/// from `Trace` at 0 up to `Unknown` at 6: a level comes before another
/// exactly when its severity is lower, and two levels have the same severity
/// exactly when they are the same level.
pub proof fn law_levels_ordered_by_severity(a: LogLevel, b: LogLevel)
    ensures
        (a.partial_cmp_spec(&b) == Some(Ordering::Less)) <==> severity_of(a) < severity_of(b),
        (a.partial_cmp_spec(&b) == Some(Ordering::Greater)) <==> severity_of(a) > severity_of(b),
        (a.partial_cmp_spec(&b) == Some(Ordering::Equal)) <==> a == b,
        (severity_of(a) == severity_of(b)) <==> a == b,
        severity_of(LogLevel::Trace) == 0,
        severity_of(LogLevel::Unknown) == 6,
{
}

/// A filter with no condition accepts every record.
pub proof fn law_open_filter_accepts_all(r: RecordView)
    ensures
        accepts(FilterView { min_level: None, service: None, keyword: None }, r),
{
}

/// A record that passes a filter also passes it with a lower minimum level.
pub proof fn law_lower_min_level_accepts_more(f: FilterView, low: LogLevel, high: LogLevel, r: RecordView)
    requires
        severity_of(low) <= severity_of(high),
        accepts(FilterView { min_level: Some(high), ..f }, r),
    ensures
        accepts(FilterView { min_level: Some(low), ..f }, r),
{
}

/// After storing a value under a key in a string map, reading that key gives
/// the value, every other key reads as before, and the keys stay in
/// ascending order.
pub proof fn law_map_reads_back_what_was_stored(es: Seq<(Seq<char>, usize)>, k: Seq<char>, v: usize, other: Seq<char>)
    requires
        keys_sorted(es),
    ensures
        keys_sorted(insert_entry(es, k, v)),
        lookup(insert_entry(es, k, v), k) == Some(v),
        other != k ==> lookup(insert_entry(es, k, v), other) == lookup(es, other),
{
    lemma_insert_entry(es, k, v);
}

/// The rank of a health level: 0 for healthy up to 3 for critical.
pub open spec fn health_rank(h: HealthLevel) -> int {
    match h {
        HealthLevel::Healthy => 0,
        HealthLevel::Notice => 1,
        HealthLevel::Risky => 2,
        HealthLevel::Critical => 3,
    }
}

/// A larger penalty never gives a higher score nor a better health level.
pub proof fn law_more_penalty_never_improves_health(p1: u8, p2: u8)
    requires
        p1 <= p2,
    ensures
        score_for(p2) <= score_for(p1),
        health_rank(health_for(score_for(p1))) <= health_rank(health_for(score_for(p2))),
{
}

/// The record that the line at position `n` (counting from 1), numbered
/// `base + n`, reads as, if it reads as one.
pub open spec fn line_record(lines: Seq<Seq<char>>, base: nat, n: nat) -> Option<RecordView> {
    match parse_line_spec((base + n) as usize, lines[n - 1]) {
        Ok(Some(r)) => Some(r),
        _ => None,
    }
}

/// How many of the first `n` lines read as a record.
pub open spec fn record_lines(lines: Seq<Seq<char>>, base: nat, n: nat) -> nat
    decreases n,
{
    if n == 0 || n > lines.len() {
        0
    } else {
        record_lines(lines, base, (n - 1) as nat) + if line_record(lines, base, n) is Some { 1nat } else { 0nat }
    }
}

/// How many of the first `n` lines read as a record that `f` accepts.
pub open spec fn accepted_lines(lines: Seq<Seq<char>>, base: nat, n: nat, f: FilterView) -> nat
    decreases n,
{
    if n == 0 || n > lines.len() {
        0
    } else {
        accepted_lines(lines, base, (n - 1) as nat, f) + if line_record(lines, base, n) matches Some(r) && accepts(f, r) {
            1nat
        } else {
            0nat
        }
    }
}

/// The records counted at all levels together.
pub open spec fn level_sum(c: LevelCounts) -> nat {
    (c.count(LogLevel::Trace) + c.count(LogLevel::Debug) + c.count(LogLevel::Info) + c.count(LogLevel::Warn)
        + c.count(LogLevel::Error) + c.count(LogLevel::Fatal) + c.count(LogLevel::Unknown)) as nat
}

/// A record with a latency at or above the threshold.
pub open spec fn is_slow(r: RecordView, slow_threshold_ms: u64) -> bool {
    r.latency_ms matches Some(v) && v >= slow_threshold_ms
}

/// What the first `n` lines count: each line once, as skipped, as an error
/// or as a record, and each accepted record once at its level.
pub open spec fn accounted(a: AnalysisView, lines: Seq<Seq<char>>, base: nat, n: nat, f: FilterView) -> bool {
    &&& a.total_lines == n
    &&& a.skipped_lines + a.parse_errors.len() + record_lines(lines, base, n) == n
    &&& a.parsed_records == accepted_lines(lines, base, n, f)
    &&& a.level_total == a.parsed_records
    &&& level_sum(a.levels) == a.parsed_records
}

/// Every kept slow record is an accepted slow record, and every kept error
/// record an accepted record at an error level.
pub open spec fn samples_valid(a: AnalysisView, f: FilterView, slow_threshold_ms: u64) -> bool {
    &&& forall|i: int| 0 <= i < a.slow_records.len()
        ==> accepts(f, #[trigger] a.slow_records[i]) && is_slow(a.slow_records[i], slow_threshold_ms)
    &&& forall|i: int| 0 <= i < a.error_records.len()
        ==> accepts(f, #[trigger] a.error_records[i]) && is_error_level(a.error_records[i].level)
}

#[verifier::spinoff_prover]
#[verifier::rlimit(60)]
proof fn lemma_fold_accounted(lines: Seq<Seq<char>>, base: nat, n: nat, f: FilterView, thr: u64)
    requires
        n <= lines.len(),
        lines.len() <= usize::MAX,
        latency_total_from(lines, base, n, f) <= u64::MAX,
    ensures
        accounted(fold_from(lines, base, n, f, thr), lines, base, n, f),
        samples_valid(fold_from(lines, base, n, f, thr), f, thr),
    decreases n,
{
    lemma_fold_from_bounds(lines, base, n, f, thr);
    if n > 0 {
        let m = (n - 1) as nat;
        lemma_latency_total_from_monotone(lines, base, m, n, f);
        lemma_fold_accounted(lines, base, m, f, thr);
        lemma_fold_from_bounds(lines, base, m, f, thr);
        let a = fold_from(lines, base, m, f, thr);
        let b = fold_from(lines, base, n, f, thr);
        match parse_line_spec((base + n) as usize, lines[n - 1]) {
            Ok(Some(r)) => {
                if accepts(f, r) {
                    a.levels.lemma_added(r.level, 1);
                    assert(level_sum(b.levels) == level_sum(a.levels) + 1);
                }
                assert(samples_valid(b, f, thr)) by {
                    assert forall|i: int| 0 <= i < b.slow_records.len() implies accepts(f, #[trigger] b.slow_records[i])
                        && is_slow(b.slow_records[i], thr) by {
                        if i < a.slow_records.len() {
                            assert(b.slow_records[i] == a.slow_records[i]);
                        }
                    }
                    assert forall|i: int| 0 <= i < b.error_records.len() implies accepts(f, #[trigger] b.error_records[i])
                        && is_error_level(b.error_records[i].level) by {
                        if i < a.error_records.len() {
                            assert(b.error_records[i] == a.error_records[i]);
                        }
                    }
                }
            },
            _ => {},
        }
    }
}

proof fn lemma_sample_of(s: Seq<RecordView>, limit: nat, f: FilterView, thr: u64, slow: bool)
    requires
        forall|i: int| 0 <= i < s.len() ==> accepts(f, #[trigger] s[i]) && (if slow {
            is_slow(s[i], thr)
        } else {
            is_error_level(s[i].level)
        }),
    ensures
        ({
            let t = keep_first(sort_records(s), limit);
            &&& t.len() <= limit
            &&& forall|i: int, j: int| 0 <= i < j < t.len() ==> (#[trigger] t[i]).line_number <= (#[trigger] t[j]).line_number
            &&& forall|i: int| 0 <= i < t.len() ==> accepts(f, #[trigger] t[i]) && (if slow {
                is_slow(t[i], thr)
            } else {
                is_error_level(t[i].level)
            })
        }),
{
    let key = |r: RecordView| r.line_number as int;
    let u = sort_records(s);
    assert(u == sort_by(s, key));
    lemma_sort_by_sorted(s, key);
    lemma_sort_by_len(s, key);
    let t = keep_first(u, limit);
    assert forall|i: int| 0 <= i < t.len() implies accepts(f, #[trigger] t[i]) && (if slow {
        is_slow(t[i], thr)
    } else {
        is_error_level(t[i].level)
    }) by {
        assert(t[i] == u[i]);
        assert(u.contains(u[i]));
        lemma_sort_by_contains(s, key, u[i]);
        let j = choose|j: int| 0 <= j < s.len() && s[j] == u[i];
        assert(accepts(f, s[j]));
    }
    assert forall|i: int, j: int| 0 <= i < j < t.len() implies (#[trigger] t[i]).line_number <= (#[trigger] t[j]).line_number by {
        assert(t[i] == u[i] && t[j] == u[j]);
        assert(key(u[i]) <= key(u[j]));
    }
}

/// Every line of an analysis is counted once: as a blank or comment line, as
/// a parse error, or as a record; each record the filter accepts is counted
/// once as parsed and once at its level.
pub proof fn law_every_line_is_counted_once(lines: Seq<Seq<char>>, f: FilterView, slow_threshold_ms: u64, top_n: usize)
    requires
        lines.len() <= usize::MAX,
        analysis_fits(lines, f, top_n),
    ensures
        accounted(analyze_spec(lines, f, slow_threshold_ms, top_n), lines, 0, lines.len(), f),
{
    let n = lines.len();
    lemma_fold_accounted(lines, 0, n, f, slow_threshold_ms);
    lemma_fold_bounds(lines, n, f, slow_threshold_ms);
    let a = fold_lines(lines, n, f, slow_threshold_ms);
    let z = analyze_spec(lines, f, slow_threshold_ms, top_n);
    empty_view().levels.lemma_sum(a.levels);
    assert(z.parse_errors =~= a.parse_errors);
    assert(level_sum(z.levels) == level_sum(a.levels));
}

/// The slow and error-like samples of an analysis are records the filter
/// accepts, slow ones at or above the threshold and error-like ones at level
/// `Error` or `Fatal`; each list is in line order and holds at most ten times
/// `top_n` (at least ten) records.
pub proof fn law_samples_are_slow_or_error_records(lines: Seq<Seq<char>>, f: FilterView, slow_threshold_ms: u64, top_n: usize)
    requires
        lines.len() <= usize::MAX,
        analysis_fits(lines, f, top_n),
    ensures
        samples_valid(analyze_spec(lines, f, slow_threshold_ms, top_n), f, slow_threshold_ms),
        analyze_spec(lines, f, slow_threshold_ms, top_n).slow_records.len() <= sample_limit(top_n),
        analyze_spec(lines, f, slow_threshold_ms, top_n).error_records.len() <= sample_limit(top_n),
        forall|i: int, j: int|
            #![trigger analyze_spec(lines, f, slow_threshold_ms, top_n).slow_records[i], analyze_spec(lines, f, slow_threshold_ms, top_n).slow_records[j]]
            0 <= i < j < analyze_spec(lines, f, slow_threshold_ms, top_n).slow_records.len()
                ==> analyze_spec(lines, f, slow_threshold_ms, top_n).slow_records[i].line_number
                    <= analyze_spec(lines, f, slow_threshold_ms, top_n).slow_records[j].line_number,
        forall|i: int, j: int|
            #![trigger analyze_spec(lines, f, slow_threshold_ms, top_n).error_records[i], analyze_spec(lines, f, slow_threshold_ms, top_n).error_records[j]]
            0 <= i < j < analyze_spec(lines, f, slow_threshold_ms, top_n).error_records.len()
                ==> analyze_spec(lines, f, slow_threshold_ms, top_n).error_records[i].line_number
                    <= analyze_spec(lines, f, slow_threshold_ms, top_n).error_records[j].line_number,
{
    let n = lines.len();
    lemma_fold_accounted(lines, 0, n, f, slow_threshold_ms);
    let a = fold_lines(lines, n, f, slow_threshold_ms);
    let z = analyze_spec(lines, f, slow_threshold_ms, top_n);
    assert(empty_view().slow_records + a.slow_records =~= a.slow_records);
    assert(empty_view().error_records + a.error_records =~= a.error_records);
    lemma_sample_of(a.slow_records, sample_limit(top_n), f, slow_threshold_ms, true);
    lemma_sample_of(a.error_records, sample_limit(top_n), f, slow_threshold_ms, false);
}

proof fn lemma_open_filter_counts(lines: Seq<Seq<char>>, base: nat, n: nat)
    ensures
        accepted_lines(lines, base, n, FilterView { min_level: None, service: None, keyword: None }) == record_lines(
            lines,
            base,
            n,
        ),
    decreases n,
{
    if n > 0 && n <= lines.len() {
        lemma_open_filter_counts(lines, base, (n - 1) as nat);
    }
}

/// With a filter that has no condition, the parsed records, skipped lines and
/// parse errors of an analysis add up to its lines.
pub proof fn law_open_filter_counts_every_line(lines: Seq<Seq<char>>, slow_threshold_ms: u64, top_n: usize)
    requires
        lines.len() <= usize::MAX,
        analysis_fits(lines, FilterView { min_level: None, service: None, keyword: None }, top_n),
    ensures
        ({
            let a = analyze_spec(lines, FilterView { min_level: None, service: None, keyword: None }, slow_threshold_ms, top_n);
            a.parsed_records + a.skipped_lines + a.parse_errors.len() == a.total_lines
        }),
{
    let f = FilterView { min_level: None, service: None, keyword: None };
    law_every_line_is_counted_once(lines, f, slow_threshold_ms, top_n);
    lemma_open_filter_counts(lines, 0, lines.len());
}

/// Reading a level name ignores ASCII case: a name reads as the same level,
/// or fails with the same error, in lower or upper case.
pub proof fn law_level_names_ignore_case(s: Seq<char>)
    ensures
        parse_level_spec(lower_seq(s)) == parse_level_spec(s),
        parse_level_spec(upper_seq(s)) == parse_level_spec(s),
{
    lemma_trim_case(s);
    lemma_trim_case(crate::text::trim(s));
}

/// Reading a format name ignores ASCII case.
pub proof fn law_format_names_ignore_case(s: Seq<char>)
    ensures
        parse_format_spec(lower_seq(s)) == parse_format_spec(s),
        parse_format_spec(upper_seq(s)) == parse_format_spec(s),
{
    lemma_trim_case(s);
    lemma_trim_case(crate::text::trim(s));
}

/// The name a level is written with reads back as that level.
pub proof fn law_level_name_reads_back(l: LogLevel)
    ensures
        parse_level_spec(level_name(l)) == Ok::<LogLevel, crate::error::ErrorView>(l),
{
    reveal_strlit("TRACE");
    reveal_strlit("DEBUG");
    reveal_strlit("INFO");
    reveal_strlit("WARN");
    reveal_strlit("WARNING");
    reveal_strlit("ERROR");
    reveal_strlit("ERR");
    reveal_strlit("FATAL");
    reveal_strlit("UNKNOWN");
    let s = level_name(l);
    assert(crate::text::trim_start(s) == s);
    assert(crate::text::trim_end(s) == s);
    assert(upper_seq(s) =~= s);
}

/// The name of each report format, as the command line takes it.
pub open spec fn format_name(f: OutputFormat) -> Seq<char> {
    match f {
        OutputFormat::Text => "text"@,
        OutputFormat::Markdown => "markdown"@,
        OutputFormat::Json => "json"@,
        OutputFormat::Csv => "csv"@,
    }
}

/// The name of a format reads back as that format.
pub proof fn law_format_name_reads_back(f: OutputFormat)
    ensures
        parse_format_spec(format_name(f)) == Ok::<OutputFormat, crate::error::ErrorView>(f),
{
    reveal_strlit("text");
    reveal_strlit("txt");
    reveal_strlit("markdown");
    reveal_strlit("md");
    reveal_strlit("json");
    reveal_strlit("csv");
    let s = format_name(f);
    assert(crate::text::trim_start(s) == s);
    assert(crate::text::trim_end(s) == s);
    assert(lower_seq(s) =~= s);
}

/// An output file whose name ends in a dot and an extension asks for the
/// format that extension names, in any ASCII case: `.md` and `.markdown`
/// Markdown, `.json` JSON, `.csv` CSV, `.txt` and `.text` text.
pub proof fn law_output_extension_names_format(stem: Seq<char>, ext: Seq<char>)
    requires
        stem.len() > 0,
        stem.last() != '/',
        ext.len() > 0,
        forall|i: int| 0 <= i < ext.len() ==> ext[i] != '/' && ext[i] != '.',
    ensures
        infer_format_spec(stem + seq!['.'] + ext) == format_for_extension(lower_seq(ext)),
{
    let p = stem + seq!['.'] + ext;
    let tail = seq!['.'] + ext;
    assert(p =~= stem + tail);
    assert forall|i: int| 0 <= i < tail.len() implies tail[i] != '/' by {
        if i > 0 {
            assert(tail[i] == ext[i - 1]);
        }
    }
    lemma_last_index_concat(stem, tail, '/');
    lemma_last_index_of(stem, '/');
    let k = last_index_of(stem, '/');
    let name = stem.subrange(k + 1, stem.len() as int);
    let part = p.subrange(k + 1, p.len() as int);
    assert(part =~= name + tail);
    assert(name.len() > 0);
    assert(part.len() >= 3);
    assert(part != seq!['.']);
    assert(part != seq!['.', '.']);
    assert(file_name_spec(p) == Some(part));
    assert(part =~= name.push('.') + ext);
    lemma_last_index_concat(name.push('.'), ext, '.');
    assert(name.push('.').drop_last() =~= name);
    assert(last_index_of(part, '.') == name.len());
    assert(part.subrange(name.len() as int + 1, part.len() as int) =~= ext);
    assert(extension_spec(part) == Some(ext));
}

/// `analyze FILE --out PATH` writes the report in the format that the
/// extension of `PATH` names, else as text; every other option keeps its
/// default.
pub proof fn law_out_file_picks_format(input: Seq<char>, path: Seq<char>)
    requires
        input.len() == 0 || input[0] != '-',
    ensures
        args_spec(seq!["analyze"@, input, "--out"@, path]) == Ok::<CommandView, crate::error::ErrorView>(
            CommandView::Analyze(
                ConfigView {
                    input,
                    output: Some(path),
                    format: resolve_format(None, Some(path)),
                    threads: 4,
                    top_n: 5,
                    slow_threshold_ms: 500,
                    filter: FilterView { min_level: None, service: None, keyword: None },
                },
            ),
        ),
{
    reveal_strlit("analyze");
    reveal_strlit("help");
    reveal_strlit("--help");
    reveal_strlit("-h");
    reveal_strlit("demo");
    reveal_strlit("--out");
    reveal_flags();
    let args = seq!["analyze"@, input, "--out"@, path];
    let rest = args.drop_first();
    assert(rest =~= seq![input, "--out"@, path]);
    assert(!takes_value(input));
    let st1 = crate::cli::ArgsView { input: Some(input), ..default_args() };
    assert(analyze_from(default_args(), rest, 0) == analyze_from(st1, rest, 1));
    assert(takes_value("--out"@));
    assert(apply_flag(st1, "--out"@, path) == Ok::<crate::cli::ArgsView, crate::error::ErrorView>(
        crate::cli::ArgsView { output: Some(path), ..st1 },
    ));
    let st2 = crate::cli::ArgsView { output: Some(path), ..st1 };
    assert(analyze_from(st1, rest, 1) == analyze_from(st2, rest, 3));
    assert(analyze_from(st2, rest, 3) == crate::cli::finish_args(st2));
    assert(args[0] == "analyze"@);
    assert("analyze"@.len() == 7 && "help"@.len() == 4 && "--help"@.len() == 6 && "-h"@.len() == 2
        && "demo"@.len() == 4);
    assert(args[0] != "help"@ && args[0] != "--help"@ && args[0] != "-h"@ && args[0] != "demo"@);
}

/// A filter that names only a service keeps exactly the records of that
/// service, its name compared up to ASCII case: a record of a service whose
/// name merely contains the wanted one, such as `payment` for `pay`, is left
/// out. With other conditions as well, a kept record still has that service.
pub proof fn law_service_filter_matches_whole_name(f: FilterView, s: Seq<char>, r: RecordView)
    ensures
        accepts(FilterView { min_level: None, service: Some(s), keyword: None }, r) <==> lower_seq(r.service)
            == lower_seq(s),
        f.service == Some(s) && accepts(f, r) ==> lower_seq(r.service) == lower_seq(s),
        f.service == Some(s) && r.service.len() != s.len() ==> !accepts(f, r),
{
    if f.service == Some(s) && r.service.len() != s.len() {
        assert(lower_seq(r.service).len() == r.service.len());
        assert(lower_seq(s).len() == s.len());
    }
}

/// `--service V` and `-s V` do the same on any options read so far: each
/// sets the service of the filter to `V` and leaves every other option,
/// the keyword among them, as it was.
pub proof fn law_service_flag_sets_service(st: crate::cli::ArgsView, v: Seq<char>)
    ensures
        apply_flag(st, "--service"@, v) == apply_flag(st, "-s"@, v),
        apply_flag(st, "--service"@, v) matches Ok(n) && n.service == Some(v) && n.keyword == st.keyword
            && n.min_level == st.min_level && n.input == st.input && n.output == st.output && n.format == st.format
            && n.threads == st.threads && n.top_n == st.top_n && n.slow_threshold_ms == st.slow_threshold_ms,
{
    reveal_flags();
    reveal_strlit("--service");
    reveal_strlit("-s");
    reveal_strlit("--out");
    reveal_strlit("-o");
    reveal_strlit("--format");
    reveal_strlit("-f");
    reveal_strlit("--threads");
    reveal_strlit("-t");
    reveal_strlit("--top");
    reveal_strlit("--slow");
    reveal_strlit("--level");
    reveal_strlit("-l");
    assert("--service"@.len() != "--out"@.len() || "--service"@[2] != "--out"@[2]);
    assert("--service"@.len() != "-o"@.len() || "--service"@[2] != "-o"@[2]);
    assert("--service"@.len() != "--format"@.len() || "--service"@[2] != "--format"@[2]);
    assert("--service"@.len() != "-f"@.len() || "--service"@[2] != "-f"@[2]);
    assert("--service"@.len() != "--threads"@.len() || "--service"@[2] != "--threads"@[2]);
    assert("--service"@.len() != "-t"@.len() || "--service"@[2] != "-t"@[2]);
    assert("--service"@.len() != "--top"@.len() || "--service"@[2] != "--top"@[2]);
    assert("--service"@.len() != "--slow"@.len() || "--service"@[2] != "--slow"@[2]);
    assert("--service"@.len() != "--level"@.len() || "--service"@[2] != "--level"@[2]);
    assert("--service"@.len() != "-l"@.len() || "--service"@[2] != "-l"@[2]);
    assert("-s"@.len() != "--out"@.len());
    assert("-s"@[1] != "-o"@[1]);
    assert("-s"@.len() != "--format"@.len());
    assert("-s"@[1] != "-f"@[1]);
    assert("-s"@.len() != "--threads"@.len());
    assert("-s"@[1] != "-t"@[1]);
    assert("-s"@.len() != "--top"@.len());
    assert("-s"@.len() != "--slow"@.len());
    assert("-s"@.len() != "--level"@.len());
    assert("-s"@[1] != "-l"@[1]);
}

/// `analyze FILE --service V`, and the same with `-s V`, analyses `FILE`
/// with a filter on the service `V` alone: no level and no keyword; every
/// other option keeps its default.
pub proof fn law_service_flag_on_the_command_line(input: Seq<char>, v: Seq<char>, short: bool)
    requires
        input.len() == 0 || input[0] != '-',
    ensures
        args_spec(seq!["analyze"@, input, if short { "-s"@ } else { "--service"@ }, v]) == Ok::<
            CommandView,
            crate::error::ErrorView,
        >(
            CommandView::Analyze(
                ConfigView {
                    input,
                    output: None,
                    format: OutputFormat::Text,
                    threads: 4,
                    top_n: 5,
                    slow_threshold_ms: 500,
                    filter: FilterView { min_level: None, service: Some(v), keyword: None },
                },
            ),
        ),
{
    reveal_strlit("analyze");
    reveal_strlit("help");
    reveal_strlit("--help");
    reveal_strlit("-h");
    reveal_strlit("demo");
    reveal_flags();
    let flag = if short { "-s"@ } else { "--service"@ };
    let args = seq!["analyze"@, input, flag, v];
    let rest = args.drop_first();
    assert(rest =~= seq![input, flag, v]);
    assert(!takes_value(input));
    let st1 = crate::cli::ArgsView { input: Some(input), ..default_args() };
    assert(analyze_from(default_args(), rest, 0) == analyze_from(st1, rest, 1));
    assert(takes_value(flag));
    law_service_flag_sets_service(st1, v);
    let st2 = crate::cli::ArgsView { service: Some(v), ..st1 };
    assert(apply_flag(st1, flag, v) == Ok::<crate::cli::ArgsView, crate::error::ErrorView>(st2));
    assert(analyze_from(st1, rest, 1) == analyze_from(st2, rest, 3));
    assert(analyze_from(st2, rest, 3) == crate::cli::finish_args(st2));
    assert(args[0] == "analyze"@);
    assert("analyze"@.len() == 7 && "help"@.len() == 4 && "--help"@.len() == 6 && "-h"@.len() == 2
        && "demo"@.len() == 4);
    assert(args[0] != "help"@ && args[0] != "--help"@ && args[0] != "-h"@ && args[0] != "demo"@);
}

/// Every flag that takes a value starts with `-`.
proof fn reveal_flags()
    ensures
        forall|a: Seq<char>| #[trigger] takes_value(a) ==> a.len() > 0 && a[0] == '-',
{
    reveal_strlit("--out");
    reveal_strlit("-o");
    reveal_strlit("--format");
    reveal_strlit("-f");
    reveal_strlit("--threads");
    reveal_strlit("-t");
    reveal_strlit("--top");
    reveal_strlit("--slow");
    reveal_strlit("--level");
    reveal_strlit("-l");
    reveal_strlit("--service");
    reveal_strlit("-s");
    reveal_strlit("--keyword");
    reveal_strlit("-k");
}

/// The order in which two partial outcomes are merged changes no count: the
/// lines, records, levels, latency figures, parse errors and the count of
/// every service come out the same, each the sum of the two sides.
pub proof fn law_merge_order_keeps_counts(a: AnalysisView, b: AnalysisView, top_n: usize)
    requires
        keys_sorted(a.services),
        keys_sorted(b.services),
        merge_fits(a, b, top_n),
    ensures
        ({
            let m1 = merge_spec(a, b, top_n);
            let m2 = merge_spec(b, a, top_n);
            &&& m1.total_lines == m2.total_lines == a.total_lines + b.total_lines
            &&& m1.parsed_records == m2.parsed_records == a.parsed_records + b.parsed_records
            &&& m1.skipped_lines == m2.skipped_lines == a.skipped_lines + b.skipped_lines
            &&& m1.parse_errors.len() == m2.parse_errors.len() == a.parse_errors.len() + b.parse_errors.len()
            &&& m1.level_total == m2.level_total
            &&& m1.levels == m2.levels
            &&& m1.latency == m2.latency
            &&& forall|k: Seq<char>| #[trigger] count_of(m1.services, k) == count_of(b.services, k) + count_of(a.services, k)
                && count_of(m2.services, k) == count_of(b.services, k) + count_of(a.services, k)
        }),
{
    lemma_merge_counts(a.services, b.services);
    assert forall|k: Seq<char>| #[trigger] count_of(b.services, k) + count_of(a.services, k) <= usize::MAX by {
        assert(count_of(a.services, k) + count_of(b.services, k) <= usize::MAX);
    }
    lemma_merge_counts(b.services, a.services);
    assert(a.levels.sum(b.levels) == b.levels.sum(a.levels));
}

/// Merging into an empty outcome, as an analysis does with its first part,
/// keeps every count of that part, its parse errors and its latency figures.
pub proof fn law_merge_into_empty_keeps_counts(b: AnalysisView, top_n: usize)
    requires
        keys_sorted(b.services),
        sample_limit(top_n) <= usize::MAX,
    ensures
        ({
            let m = merge_spec(empty_view(), b, top_n);
            &&& m.total_lines == b.total_lines
            &&& m.parsed_records == b.parsed_records
            &&& m.skipped_lines == b.skipped_lines
            &&& m.parse_errors == b.parse_errors
            &&& m.level_total == b.level_total
            &&& m.levels == b.levels
            &&& m.latency == b.latency
            &&& forall|k: Seq<char>| #[trigger] count_of(m.services, k) == count_of(b.services, k)
        }),
{
    let e = empty_view();
    assert forall|k: Seq<char>| #[trigger] count_of(e.services, k) + count_of(b.services, k) <= usize::MAX by {
        assert(lookup(e.services, k) is None);
    }
    lemma_merge_counts(e.services, b.services);
    assert(e.parse_errors + b.parse_errors =~= b.parse_errors);
    assert forall|k: Seq<char>| #[trigger] count_of(merge_spec(e, b, top_n).services, k) == count_of(b.services, k) by {
        assert(lookup(e.services, k) is None);
    }
}

/// A count as the reports write it reads back as the same number, with any
/// bound at or above it.
pub proof fn law_decimal_reads_back(n: nat, max: nat)
    requires
        n <= max,
    ensures
        crate::text::parse_unsigned(crate::text::dec(n), max) == Ok::<nat, crate::text::IntError>(n),
{
    crate::text::lemma_dec_reads_back(n, max);
}

/// A JSON-escaped text holds no line break, and each quote in it follows a
/// backslash, so it stays inside the quotes the report puts round it.
pub proof fn law_json_escape_keeps_strings_closed(s: Seq<char>)
    ensures
        forall|i: int| 0 <= i < escape_json_spec(s).len() ==> #[trigger] escape_json_spec(s)[i] != '\n'
            && escape_json_spec(s)[i] != '\r',
        forall|i: int| 0 <= i < escape_json_spec(s).len() && #[trigger] escape_json_spec(s)[i] == '"'
            ==> i > 0 && escape_json_spec(s)[i - 1] == '\\',
    decreases s.len(),
{
    if s.len() > 0 {
        let p = escape_json_spec(s.drop_last());
        let q = json_char(s.last());
        law_json_escape_keeps_strings_closed(s.drop_last());
        let r = escape_json_spec(s);
        assert(r == p + q);
        assert forall|i: int| 0 <= i < r.len() implies #[trigger] r[i] != '\n' && r[i] != '\r' by {
            if i < p.len() {
                assert(r[i] == p[i]);
            } else {
                assert(r[i] == q[i - p.len()]);
            }
        }
        assert forall|i: int| 0 <= i < r.len() && #[trigger] r[i] == '"' implies i > 0 && r[i - 1] == '\\' by {
            if i < p.len() {
                assert(r[i] == p[i]);
                assert(r[i - 1] == p[i - 1]);
            } else {
                assert(r[i] == q[i - p.len()]);
                if i - p.len() == 1 {
                    assert(r[i - 1] == q[0]);
                }
            }
        }
    }
}

/// A field written as `key=value`, the value in quotes, with a backslash
/// before each quote and backslash, where `quote_all` asks for it or where
/// the value holds whitespace or starts with a quote.
pub open spec fn field_text(f: (Seq<char>, Seq<char>), quote_all: bool) -> Seq<char> {
    if !quote_all && plain_value(f.1) {
        f.0 + seq!['='] + f.1
    } else {
        f.0 + seq!['=', '"'] + escaped_value(f.1) + seq!['"']
    }
}

/// Fields written one after another, separated by single spaces.
pub open spec fn fields_text(fs: Seq<(Seq<char>, Seq<char>)>, quote_all: bool) -> Seq<char>
    decreases fs.len(),
{
    if fs.len() == 0 {
        Seq::empty()
    } else if fs.len() == 1 {
        field_text(fs[0], quote_all)
    } else {
        fields_text(fs.drop_last(), quote_all) + seq![' '] + field_text(fs.last(), quote_all)
    }
}

/// The entries after storing each field in turn under its lower-case key.
pub open spec fn stored_fields(fs: Seq<(Seq<char>, Seq<char>)>) -> Seq<(Seq<char>, Seq<char>)>
    decreases fs.len(),
{
    if fs.len() == 0 {
        Seq::empty()
    } else {
        insert_entry(stored_fields(fs.drop_last()), lower_seq(fs.last().0), fs.last().1)
    }
}

proof fn lemma_stored_fields(fs: Seq<(Seq<char>, Seq<char>)>)
    ensures
        keys_sorted(stored_fields(fs)),
        fs.len() > 0 ==> stored_fields(fs).len() > 0,
    decreases fs.len(),
{
    if fs.len() > 0 {
        lemma_stored_fields(fs.drop_last());
        lemma_insert_entry(stored_fields(fs.drop_last()), lower_seq(fs.last().0), fs.last().1);
    }
}

proof fn lemma_fields_text_prefix(fs: Seq<(Seq<char>, Seq<char>)>, j: int, q: bool)
    requires
        1 <= j <= fs.len(),
    ensures
        fields_text(fs.take(j), q).len() <= fields_text(fs, q).len(),
        fields_text(fs, q).subrange(0, fields_text(fs.take(j), q).len() as int) == fields_text(fs.take(j), q),
    decreases fs.len(),
{
    let t = fields_text(fs, q);
    if j == fs.len() {
        assert(fs.take(j) =~= fs);
        assert(t.subrange(0, t.len() as int) =~= t);
    } else {
        let u = fs.drop_last();
        lemma_fields_text_prefix(u, j, q);
        assert(u.take(j) =~= fs.take(j));
        let p = fields_text(u, q);
        assert(t == p + seq![' '] + field_text(fs.last(), q));
        assert(t.subrange(0, fields_text(fs.take(j), q).len() as int) =~= p.subrange(0, fields_text(fs.take(j), q).len() as int));
    }
}

#[verifier::spinoff_prover]
#[verifier::rlimit(80)]
proof fn lemma_fields_read(fs: Seq<(Seq<char>, Seq<char>)>, i: int, q: bool)
    requires
        1 <= i <= fs.len(),
        forall|j: int| 0 <= j < fs.len() ==> plain_key(#[trigger] fs[j].0),
    ensures
        fields_spec(fields_text(fs, q)) == fields_from(
            fields_text(fs, q),
            fields_text(fs.take(i), q).len() as int,
            stored_fields(fs.take(i)),
        ),
    decreases i,
{
    let s = fields_text(fs, q);
    lemma_fields_text_prefix(fs, i, q);
    let w = fields_text(fs.take(i), q);
    let f = fs[i - 1];
    let start: int = if i == 1 { 0 } else { fields_text(fs.take(i - 1), q).len() as int + 1 };
    if i == 1 {
        assert(w == field_text(fs.take(1)[0], q));
    } else {
        lemma_fields_read(fs, i - 1, q);
        assert(fs.take(i).drop_last() =~= fs.take(i - 1));
        assert(fs.take(i).last() == f);
        assert(w == fields_text(fs.take(i - 1), q) + seq![' '] + field_text(f, q));
    }
    assert(fs.take(i)[i - 1] == f);
    let t = field_text(f, q);
    assert(w.subrange(start, w.len() as int) =~= t);
    assert(s.subrange(start, start + t.len()) =~= t) by {
        assert forall|m: int| 0 <= m < t.len() implies s.subrange(start, start + t.len())[m] == t[m] by {
            assert(s[start + m] == s.subrange(0, w.len() as int)[start + m]);
            assert(w[start + m] == w.subrange(start, w.len() as int)[m]);
        }
    }
    let end: int = start + t.len();
    assert(end == w.len());
    if end < s.len() {
        let next = i + 1;
        lemma_fields_text_prefix(fs, next, q);
        let w2 = fields_text(fs.take(next), q);
        assert(fs.take(next).drop_last() =~= fs.take(i));
        assert(w2 == w + seq![' '] + field_text(fs.take(next).last(), q));
        assert(s[end] == s.subrange(0, w2.len() as int)[end]);
        assert(w2[end] == ' ');
    } else {
        assert(fs.take(fs.len() as int) =~= fs);
    }
    let acc = if i == 1 { Seq::empty() } else { stored_fields(fs.take(i - 1)) };
    let pos = if i == 1 { 0 } else { fields_text(fs.take(i - 1), q).len() as int };
    if i > 1 {
        assert(s[pos] == s.subrange(0, w.len() as int)[pos]);
        assert(w[pos] == ' ');
    }
    if !q && plain_value(f.1) {
        lemma_field_step(s, pos, start, f.0, f.1, acc);
    } else {
        lemma_quoted_field_step(s, pos, start, f.0, f.1, acc);
    }
    assert(stored_fields(fs.take(i)) == insert_entry(acc, lower_seq(f.0), f.1)) by {
        assert(fs.take(i).last() == f);
        if i == 1 {
            assert(fs.take(1).drop_last() =~= Seq::<(Seq<char>, Seq<char>)>::empty());
            assert(stored_fields(fs.take(1).drop_last()) == acc);
        } else {
            assert(fs.take(i).drop_last() =~= fs.take(i - 1));
            assert(stored_fields(fs.take(i).drop_last()) == acc);
        }
    }
    if i == 1 {
        assert(fields_spec(s) == fields_from(s, 0, Seq::empty()));
    }
}

/// A line written as `key=value` fields separated by spaces, with keys free
/// of `=` and whitespace and any values, each value quoted where it must be
/// or, with `quote_all`, every value quoted, reads back as those fields:
/// each stored under its lower-case key, a later field replacing an earlier
/// one with the same key.
pub proof fn law_written_fields_read_back(fs: Seq<(Seq<char>, Seq<char>)>, quote_all: bool)
    requires
        fs.len() > 0,
        forall|j: int| 0 <= j < fs.len() ==> plain_key(#[trigger] fs[j].0),
    ensures
        fields_spec(fields_text(fs, quote_all)) == Ok::<Seq<(Seq<char>, Seq<char>)>, Seq<char>>(stored_fields(fs)),
{
    let s = fields_text(fs, quote_all);
    let n = fs.len() as int;
    lemma_fields_read(fs, n, quote_all);
    assert(fs.take(n) =~= fs);
    lemma_stored_fields(fs);
    let a = stored_fields(fs);
    assert(crate::parser::skip_ws(s, s.len() as int) == s.len());
    assert(fields_from(s, s.len() as int, a) == Ok::<Seq<(Seq<char>, Seq<char>)>, Seq<char>>(a));
}

/// `w` holds the lines, records, errors, levels, latency figures, service
/// counts and samples of `a` followed by `b`.
pub open spec fn sums_of(w: AnalysisView, a: AnalysisView, b: AnalysisView) -> bool {
    &&& w.total_lines == a.total_lines + b.total_lines
    &&& w.parsed_records == a.parsed_records + b.parsed_records
    &&& w.skipped_lines == a.skipped_lines + b.skipped_lines
    &&& w.parse_errors == a.parse_errors + b.parse_errors
    &&& w.level_total == a.level_total + b.level_total
    &&& forall|l: LogLevel| #[trigger] w.levels.count(l) == a.levels.count(l) + b.levels.count(l)
    &&& w.latency.count == a.latency.count + b.latency.count
    &&& w.latency.sum == a.latency.sum + b.latency.sum
    &&& w.latency.slow_count == a.latency.slow_count + b.latency.slow_count
    &&& w.latency.min == opt_min(a.latency.min, b.latency.min)
    &&& w.latency.max == opt_max(a.latency.max, b.latency.max)
    &&& forall|k: Seq<char>| #[trigger] count_of(w.services, k) == count_of(a.services, k) + count_of(b.services, k)
    &&& w.slow_records == a.slow_records + b.slow_records
    &&& w.error_records == a.error_records + b.error_records
}

proof fn lemma_fold_prefix(lines: Seq<Seq<char>>, base: nat, n: nat, j: int, f: FilterView, thr: u64)
    requires
        n <= j <= lines.len(),
    ensures
        fold_from(lines.take(j), base, n, f, thr) == fold_from(lines, base, n, f, thr),
        latency_total_from(lines.take(j), base, n, f) == latency_total_from(lines, base, n, f),
    decreases n,
{
    if n > 0 {
        lemma_fold_prefix(lines, base, (n - 1) as nat, j, f, thr);
        assert(lines.take(j)[n - 1] == lines[n - 1]);
    }
}

proof fn lemma_latency_split(lines: Seq<Seq<char>>, k: nat, m: nat, f: FilterView)
    requires
        k + m <= lines.len(),
    ensures
        latency_total_from(lines, 0, k + m, f) == latency_total_from(lines, 0, k, f) + latency_total_from(
            lines.skip(k as int),
            k,
            m,
            f,
        ),
    decreases m,
{
    if m > 0 {
        lemma_latency_split(lines, k, (m - 1) as nat, f);
        assert(lines.skip(k as int)[m - 1] == lines[k + m - 1]);
        assert((0 + (k + m)) as usize == (k + m) as usize);
    }
}

proof fn lemma_opt_assoc(x: Option<u64>, y: Option<u64>, z: Option<u64>)
    ensures
        opt_min(opt_min(x, y), z) == opt_min(x, opt_min(y, z)),
        opt_max(opt_max(x, y), z) == opt_max(x, opt_max(y, z)),
{
}

proof fn lemma_sums_step(
    w0: AnalysisView,
    a: AnalysisView,
    b0: AnalysisView,
    n: usize,
    line: Seq<char>,
    f: FilterView,
    thr: u64,
)
    requires
        sums_of(w0, a, b0),
        w0.total_lines < usize::MAX,
        w0.skipped_lines < usize::MAX,
        keys_sorted(w0.services),
        keys_sorted(b0.services),
        parse_line_spec(n, line) matches Ok(Some(r)) ==> crate::analyzer::collect_fits(w0, r, f),
    ensures
        sums_of(crate::analyzer::line_step(w0, n, line, f, thr), a, crate::analyzer::line_step(b0, n, line, f, thr)),
{
    let w = crate::analyzer::line_step(w0, n, line, f, thr);
    let b = crate::analyzer::line_step(b0, n, line, f, thr);
    match parse_line_spec(n, line) {
        Ok(Some(r)) => {
            if accepts(f, r) {
                assert(w0.levels.count(r.level) == a.levels.count(r.level) + b0.levels.count(r.level));
                assert(count_of(w0.services, r.service) == count_of(a.services, r.service) + count_of(b0.services, r.service));
                w0.levels.lemma_added(r.level, 1);
                b0.levels.lemma_added(r.level, 1);
                crate::analyzer::lemma_count_added(w0.services, r.service, 1);
                crate::analyzer::lemma_count_added(b0.services, r.service, 1);
                assert forall|l: LogLevel| #[trigger] w.levels.count(l) == a.levels.count(l) + b.levels.count(l) by {
                    if l != r.level {
                        assert(w.levels.count(l) == w0.levels.count(l));
                        assert(b.levels.count(l) == b0.levels.count(l));
                    }
                }
                assert forall|key: Seq<char>| #[trigger] count_of(w.services, key) == count_of(a.services, key)
                    + count_of(b.services, key) by {
                    if key != r.service {
                        assert(count_of(w.services, key) == count_of(w0.services, key));
                        assert(count_of(b.services, key) == count_of(b0.services, key));
                    }
                }
                match r.latency_ms {
                    Some(v) => {
                        lemma_opt_assoc(a.latency.min, b0.latency.min, Some(v));
                        lemma_opt_assoc(a.latency.max, b0.latency.max, Some(v));
                    },
                    None => {},
                }
                assert(a.slow_records + b0.slow_records.push(r) =~= (a.slow_records + b0.slow_records).push(r));
                assert(a.error_records + b0.error_records.push(r) =~= (a.error_records + b0.error_records).push(r));
            }
        },
        Ok(None) => {},
        Err(e) => {
            let msg = crate::analyzer::error_line(n, e);
            assert(a.parse_errors + b0.parse_errors.push(msg) =~= (a.parse_errors + b0.parse_errors).push(msg));
        },
    }
}

#[verifier::spinoff_prover]
#[verifier::rlimit(60)]
proof fn lemma_fold_split(lines: Seq<Seq<char>>, k: nat, m: nat, f: FilterView, thr: u64)
    requires
        k + m <= lines.len(),
        lines.len() <= usize::MAX,
        latency_total_from(lines, 0, lines.len(), f) <= u64::MAX,
    ensures
        sums_of(
            fold_from(lines, 0, k + m, f, thr),
            fold_from(lines.take(k as int), 0, k, f, thr),
            fold_from(lines.skip(k as int), k, m, f, thr),
        ),
    decreases m,
{
    let t = lines.skip(k as int);
    lemma_fold_prefix(lines, 0, k, k as int, f, thr);
    let a = fold_from(lines.take(k as int), 0, k, f, thr);
    if m == 0 {
        let w = fold_from(lines, 0, k, f, thr);
        assert(w.parse_errors + Seq::empty() =~= w.parse_errors);
        assert(w.slow_records + Seq::empty() =~= w.slow_records);
        assert(w.error_records + Seq::empty() =~= w.error_records);
        assert(k + 0 == k);
    } else {
        let m1 = (m - 1) as nat;
        lemma_latency_total_from_monotone(lines, 0, k + m1, lines.len(), f);
        lemma_fold_split(lines, k, m1, f, thr);
        lemma_latency_split(lines, k, m1, f);
        lemma_fold_from_bounds(lines, 0, k + m1, f, thr);
        lemma_fold_from_bounds(t, k, m1, f, thr);
        crate::analyzer::lemma_step_fits(lines, 0, k + m1, f, thr);
        let w0 = fold_from(lines, 0, k + m1, f, thr);
        let b0 = fold_from(t, k, m1, f, thr);
        assert(t[m - 1] == lines[k + m - 1]);
        assert((0 + (k + m)) as usize == (k + m) as usize);
        assert((0 + k + m1 + 1) as usize == (k + m) as usize);
        lemma_sums_step(w0, a, b0, (k + m) as usize, lines[k + m - 1], f, thr);
    }
}

/// The records of `s` have line numbers above `lo` and at most `hi`, in
/// increasing order.
pub open spec fn lines_within(s: Seq<RecordView>, lo: nat, hi: nat) -> bool {
    &&& forall|i: int| 0 <= i < s.len() ==> lo < (#[trigger] s[i]).line_number <= hi
    &&& forall|i: int, j: int| 0 <= i < j < s.len() ==> (#[trigger] s[i]).line_number < (#[trigger] s[j]).line_number
}

proof fn lemma_push_within(s: Seq<RecordView>, r: RecordView, lo: nat, hi: nat)
    requires
        lines_within(s, lo, (hi - 1) as nat),
        hi >= 1,
        r.line_number == hi,
        lo < hi,
    ensures
        lines_within(s.push(r), lo, hi),
{
    let t = s.push(r);
    assert forall|i: int| 0 <= i < t.len() implies lo < (#[trigger] t[i]).line_number <= hi by {
        if i < s.len() {
            assert(t[i] == s[i]);
        }
    }
    assert forall|i: int, j: int| 0 <= i < j < t.len() implies (#[trigger] t[i]).line_number < (
    #[trigger] t[j]).line_number by {
        assert(t[i] == s[i]);
        if j < s.len() {
            assert(t[j] == s[j]);
        }
    }
}

proof fn lemma_fold_sample_lines(lines: Seq<Seq<char>>, base: nat, n: nat, f: FilterView, thr: u64)
    requires
        n <= lines.len(),
        base + n <= usize::MAX,
    ensures
        lines_within(fold_from(lines, base, n, f, thr).slow_records, base, base + n),
        lines_within(fold_from(lines, base, n, f, thr).error_records, base, base + n),
    decreases n,
{
    if n > 0 {
        let m = (n - 1) as nat;
        lemma_fold_sample_lines(lines, base, m, f, thr);
        let a = fold_from(lines, base, m, f, thr);
        let b = fold_from(lines, base, n, f, thr);
        assert(lines_within(a.slow_records, base, base + n)) by {
            assert forall|i: int, j: int| 0 <= i < j < a.slow_records.len() implies (
            #[trigger] a.slow_records[i]).line_number < (#[trigger] a.slow_records[j]).line_number by {}
        }
        assert(lines_within(a.error_records, base, base + n)) by {
            assert forall|i: int, j: int| 0 <= i < j < a.error_records.len() implies (
            #[trigger] a.error_records[i]).line_number < (#[trigger] a.error_records[j]).line_number by {}
        }
        match parse_line_spec((base + n) as usize, lines[n - 1]) {
            Ok(Some(r)) => {
                assert(r.line_number == base + n);
                if accepts(f, r) {
                    lemma_push_within(a.slow_records, r, base, base + n);
                    lemma_push_within(a.error_records, r, base, base + n);
                }
            },
            _ => {},
        }
    }
}

/// A sequence already in order is left as it is by sorting.
proof fn lemma_sorted_stays<T>(s: Seq<T>, key: spec_fn(T) -> int)
    requires
        crate::analyzer::sorted_by(s, key),
    ensures
        sort_by(s, key) == s,
    decreases s.len(),
{
    if s.len() > 0 {
        let u = s.drop_last();
        assert(crate::analyzer::sorted_by(u, key)) by {
            assert forall|i: int, j: int| 0 <= i < j < u.len() implies key(#[trigger] u[i]) <= key(#[trigger] u[j]) by {
                assert(u[i] == s[i] && u[j] == s[j]);
            }
        }
        lemma_sorted_stays(u, key);
        if u.len() > 0 {
            assert(u.last() == s[s.len() - 2]);
            assert(key(s[s.len() - 2]) <= key(s[s.len() - 1]));
        }
        assert(u.push(s.last()) =~= s);
    }
}

proof fn lemma_keep_first_twice<T>(a: Seq<T>, b: Seq<T>, limit: nat)
    ensures
        keep_first(keep_first(a, limit) + b, limit) == keep_first(a + b, limit),
{
    if limit < a.len() {
        assert((a.take(limit as int) + b).take(limit as int) =~= a.take(limit as int));
        assert((a + b).take(limit as int) =~= a.take(limit as int));
    }
}

/// Line-ordered samples of consecutive parts, merged as the analysis merges
/// samples, are the samples of the whole.
proof fn lemma_sample_merge(x: Seq<RecordView>, y: Seq<RecordView>, k: nat, n: nat, limit: nat)
    requires
        lines_within(x, 0, k),
        lines_within(y, k, n),
    ensures
        keep_first(sort_records(keep_first(sort_records(Seq::<RecordView>::empty() + x), limit) + y), limit)
            == keep_first(sort_records(Seq::<RecordView>::empty() + (x + y)), limit),
{
    let key = |r: RecordView| r.line_number as int;
    assert(Seq::<RecordView>::empty() + x =~= x);
    assert(Seq::<RecordView>::empty() + (x + y) =~= x + y);
    assert(crate::analyzer::sorted_by(x, key)) by {
        assert forall|i: int, j: int| 0 <= i < j < x.len() implies key(#[trigger] x[i]) <= key(#[trigger] x[j]) by {}
    }
    lemma_sorted_stays(x, key);
    assert(sort_records(x) == sort_by(x, key));
    let xk = keep_first(x, limit);
    assert(crate::analyzer::sorted_by(xk + y, key)) by {
        assert forall|i: int, j: int| 0 <= i < j < (xk + y).len() implies key(#[trigger] (xk + y)[i]) <= key(
            #[trigger] (xk + y)[j],
        ) by {
            if j < xk.len() {
                assert((xk + y)[i] == x[i] && (xk + y)[j] == x[j]);
            } else if i < xk.len() {
                assert((xk + y)[i] == x[i]);
                assert((xk + y)[j] == y[j - xk.len()]);
            } else {
                assert((xk + y)[i] == y[i - xk.len()]);
                assert((xk + y)[j] == y[j - xk.len()]);
            }
        }
    }
    lemma_sorted_stays(xk + y, key);
    assert(sort_records(xk + y) == sort_by(xk + y, key));
    assert(crate::analyzer::sorted_by(x + y, key)) by {
        assert forall|i: int, j: int| 0 <= i < j < (x + y).len() implies key(#[trigger] (x + y)[i]) <= key(
            #[trigger] (x + y)[j],
        ) by {
            if j < x.len() {
                assert((x + y)[i] == x[i] && (x + y)[j] == x[j]);
            } else if i < x.len() {
                assert((x + y)[i] == x[i]);
                assert((x + y)[j] == y[j - x.len()]);
            } else {
                assert((x + y)[i] == y[i - x.len()]);
                assert((x + y)[j] == y[j - x.len()]);
            }
        }
    }
    lemma_sorted_stays(x + y, key);
    assert(sort_records(x + y) == sort_by(x + y, key));
    lemma_keep_first_twice(x, y, limit);
}

/// Every count stored is at least one.
pub open spec fn positive_counts(es: Seq<(Seq<char>, usize)>) -> bool {
    forall|k: Seq<char>| #[trigger] lookup(es, k) is Some ==> count_of(es, k) >= 1
}

proof fn lemma_count_added_positive(es: Seq<(Seq<char>, usize)>, k: Seq<char>, n: usize)
    requires
        keys_sorted(es),
        positive_counts(es),
        n >= 1,
        count_of(es, k) + n <= usize::MAX,
    ensures
        positive_counts(crate::analyzer::count_added(es, k, n)),
{
    lemma_insert_entry(es, k, (count_of(es, k) + n) as usize);
    let r = crate::analyzer::count_added(es, k, n);
    assert forall|k2: Seq<char>| #[trigger] lookup(r, k2) is Some implies count_of(r, k2) >= 1 by {
        if k2 != k {
            assert(lookup(r, k2) == lookup(es, k2));
        }
    }
}

proof fn lemma_fold_positive(lines: Seq<Seq<char>>, base: nat, n: nat, f: FilterView, thr: u64)
    requires
        n <= lines.len(),
        lines.len() <= usize::MAX,
        latency_total_from(lines, base, n, f) <= u64::MAX,
    ensures
        positive_counts(fold_from(lines, base, n, f, thr).services),
    decreases n,
{
    if n == 0 {
        assert forall|k: Seq<char>| #[trigger] lookup(empty_view().services, k) is Some implies count_of(empty_view().services, k) >= 1 by {}
    } else {
        let m = (n - 1) as nat;
        lemma_latency_total_from_monotone(lines, base, m, n, f);
        lemma_fold_positive(lines, base, m, f, thr);
        lemma_fold_from_bounds(lines, base, m, f, thr);
        let a = fold_from(lines, base, m, f, thr);
        match parse_line_spec((base + n) as usize, lines[n - 1]) {
            Ok(Some(r)) => {
                if accepts(f, r) {
                    lemma_count_added_positive(a.services, r.service, 1);
                }
            },
            _ => {},
        }
    }
}

proof fn lemma_merge_counts_positive(a: Seq<(Seq<char>, usize)>, t: Seq<(Seq<char>, usize)>)
    requires
        keys_sorted(a),
        keys_sorted(t),
        positive_counts(a),
        positive_counts(t),
        forall|k: Seq<char>| #[trigger] count_of(a, k) + count_of(t, k) <= usize::MAX,
    ensures
        positive_counts(crate::analyzer::merge_counts(a, t)),
    decreases t.len(),
{
    if t.len() > 0 {
        let u = t.drop_last();
        let x = t.last();
        assert(keys_sorted(u));
        crate::strmap::lemma_lookup_index(t, x.0);
        assert(t[t.len() - 1] == x);
        assert(x.1 >= 1) by {
            assert(lookup(t, x.0) == Some(x.1));
        }
        assert forall|k: Seq<char>| #[trigger] lookup(u, k) is Some implies count_of(u, k) >= 1 by {
            crate::strmap::lemma_lookup_index(u, k);
            crate::strmap::lemma_lookup_index(t, k);
            let i = choose|i: int| 0 <= i < u.len() && #[trigger] u[i].0 == k;
            assert(t[i] == u[i]);
            assert(lookup(t, k) == Some(t[i].1));
        }
        lemma_merge_counts(a, t);
        assert forall|k: Seq<char>| #[trigger] count_of(a, k) + count_of(u, k) <= usize::MAX by {
            crate::strmap::lemma_lookup_index(u, k);
            crate::strmap::lemma_lookup_index(t, k);
            if lookup(u, k) is Some {
                let i = choose|i: int| 0 <= i < u.len() && #[trigger] u[i].0 == k;
                assert(t[i] == u[i]);
                assert(lookup(t, k) == Some(t[i].1));
            }
        }
        lemma_merge_counts_positive(a, u);
        lemma_merge_counts(a, u);
        let mm = crate::analyzer::merge_counts(a, u);
        assert(count_of(mm, x.0) + x.1 <= usize::MAX) by {
            crate::strmap::lemma_lookup_index(u, x.0);
            if lookup(u, x.0) is Some {
                let i = choose|i: int| 0 <= i < u.len() && #[trigger] u[i].0 == x.0;
                assert(seq_lt(t[i].0, t[t.len() - 1].0));
                crate::strmap::lemma_seq_lt_irreflexive(x.0);
            }
            assert(count_of(t, x.0) == x.1);
        }
        lemma_count_added_positive(mm, x.0, x.1);
    }
}

/// Two sorted count maps with the same count for every key, and no zero
/// count, are the same map.
proof fn lemma_counts_equal(x: Seq<(Seq<char>, usize)>, y: Seq<(Seq<char>, usize)>)
    requires
        keys_sorted(x),
        keys_sorted(y),
        positive_counts(x),
        positive_counts(y),
        forall|k: Seq<char>| #[trigger] count_of(x, k) == count_of(y, k),
    ensures
        x == y,
    decreases x.len(),
{
    assert forall|k: Seq<char>| #[trigger] lookup(x, k) == lookup(y, k) by {
        assert(count_of(x, k) == count_of(y, k));
    }
    if x.len() == 0 {
        if y.len() > 0 {
            crate::strmap::lemma_lookup_index(y, y[0].0);
            assert(lookup(x, y[0].0) is None);
        }
        assert(x =~= y);
    } else {
        crate::strmap::lemma_lookup_index(y, x[0].0);
        crate::strmap::lemma_lookup_index(x, x[0].0);
        assert(lookup(x, x[0].0) is Some);
        assert(y.len() > 0);
        crate::strmap::lemma_lookup_index(x, y[0].0);
        crate::strmap::lemma_lookup_index(y, y[0].0);
        if x[0].0 != y[0].0 {
            let j = choose|j: int| 0 <= j < y.len() && #[trigger] y[j].0 == x[0].0;
            let i = choose|i: int| 0 <= i < x.len() && #[trigger] x[i].0 == y[0].0;
            assert(j > 0 && i > 0);
            assert(seq_lt(y[0].0, y[j].0));
            assert(seq_lt(x[0].0, x[i].0));
            crate::strmap::lemma_seq_lt_asymmetric(y[0].0, x[0].0);
        }
        assert(x[0] == y[0]);
        let x1 = x.drop_first();
        let y1 = y.drop_first();
        assert(keys_sorted(x1));
        assert(keys_sorted(y1));
        let k0 = x[0].0;
        assert(lookup(x1, k0) is None) by {
            crate::strmap::lemma_lookup_index(x1, k0);
            if lookup(x1, k0) is Some {
                let i = choose|i: int| 0 <= i < x1.len() && #[trigger] x1[i].0 == k0;
                assert(seq_lt(x[0].0, x[i + 1].0));
                crate::strmap::lemma_seq_lt_irreflexive(k0);
            }
        }
        assert(lookup(y1, k0) is None) by {
            crate::strmap::lemma_lookup_index(y1, k0);
            if lookup(y1, k0) is Some {
                let i = choose|i: int| 0 <= i < y1.len() && #[trigger] y1[i].0 == k0;
                assert(seq_lt(y[0].0, y[i + 1].0));
                crate::strmap::lemma_seq_lt_irreflexive(k0);
            }
        }
        assert forall|k: Seq<char>| #[trigger] lookup(x1, k) == lookup(y1, k) by {
            if k != k0 {
                assert(lookup(x, k) == lookup(x1, k));
                assert(lookup(y, k) == lookup(y1, k));
            }
        }
        assert(positive_counts(x1)) by {
            assert forall|k: Seq<char>| #[trigger] lookup(x1, k) is Some implies count_of(x1, k) >= 1 by {
                if k != x[0].0 {
                    assert(lookup(x, k) == lookup(x1, k));
                }
            }
        }
        assert(positive_counts(y1)) by {
            assert forall|k: Seq<char>| #[trigger] lookup(y1, k) is Some implies count_of(y1, k) >= 1 by {
                if k != y[0].0 {
                    assert(lookup(y, k) == lookup(y1, k));
                }
            }
        }
        lemma_counts_equal(x1, y1);
        assert(x =~= seq![x[0]] + x1);
        assert(y =~= seq![y[0]] + y1);
    }
}

/// Analysing the lines in two consecutive parts, each part's lines numbered
/// from where it starts, and merging the two outcomes in turn into an empty
/// one, as the outcomes of worker threads are merged, gives exactly the
/// outcome of analysing all the lines at once; and neither merge overflows.
#[verifier::spinoff_prover]
#[verifier::rlimit(100)]
pub proof fn law_split_analysis_matches_whole(lines: Seq<Seq<char>>, k: nat, f: FilterView, thr: u64, top_n: usize)
    requires
        k <= lines.len(),
        lines.len() <= usize::MAX,
        analysis_fits(lines, f, top_n),
    ensures
        ({
            let a = finish_spec(fold_from(lines.take(k as int), 0, k, f, thr), top_n);
            let b = finish_spec(fold_from(lines.skip(k as int), k, (lines.len() - k) as nat, f, thr), top_n);
            &&& merge_fits(empty_view(), a, top_n)
            &&& merge_fits(merge_spec(empty_view(), a, top_n), b, top_n)
            &&& merge_spec(merge_spec(empty_view(), a, top_n), b, top_n) == analyze_spec(lines, f, thr, top_n)
        }),
{
    let n = lines.len();
    let rest = (n - k) as nat;
    let t = lines.skip(k as int);
    let p = lines.take(k as int);
    lemma_fold_split(lines, k, rest, f, thr);
    lemma_fold_from_bounds(lines, 0, n, f, thr);
    lemma_fold_prefix(lines, 0, k, k as int, f, thr);
    lemma_latency_total_from_monotone(lines, 0, k, n, f);
    lemma_fold_from_bounds(p, 0, k, f, thr);
    lemma_latency_split(lines, k, rest, f);
    lemma_fold_from_bounds(t, k, rest, f, thr);
    let w = fold_from(lines, 0, n, f, thr);
    let a = finish_spec(fold_from(p, 0, k, f, thr), top_n);
    let b = finish_spec(fold_from(t, k, rest, f, thr), top_n);
    let e = empty_view();
    assert(k + rest == n);
    assert forall|key: Seq<char>| #[trigger] count_of(e.services, key) + count_of(a.services, key) <= usize::MAX by {
        assert(lookup(e.services, key) is None);
    }
    assert(merge_fits(e, a, top_n));
    law_merge_into_empty_keeps_counts(a, top_n);
    lemma_merge_counts(e.services, a.services);
    let m1 = merge_spec(e, a, top_n);
    assert(e.levels.sum(a.levels) == a.levels);
    assert(merge_fits(m1, b, top_n)) by {
        assert forall|l: LogLevel| #[trigger] m1.levels.count(l) + b.levels.count(l) <= usize::MAX by {
            assert(w.levels.count(l) <= n);
        }
        assert forall|key: Seq<char>| #[trigger] count_of(m1.services, key) + count_of(b.services, key) <= usize::MAX by {
            assert(count_of(w.services, key) <= n);
        }
    }
    lemma_merge_counts(m1.services, b.services);
    let m = merge_spec(m1, b, top_n);
    let whole = analyze_spec(lines, f, thr, top_n);
    assert forall|key: Seq<char>| #[trigger] count_of(e.services, key) + count_of(w.services, key) <= usize::MAX by {
        assert(lookup(e.services, key) is None);
    }
    lemma_merge_counts(e.services, w.services);
    assert forall|key: Seq<char>| #[trigger] count_of(m.services, key) == count_of(whole.services, key) by {
        assert(lookup(e.services, key) is None);
    }
    assert(m.parse_errors =~= whole.parse_errors);
    assert(m1.levels.sum(b.levels) == e.levels.sum(w.levels)) by {
        assert(w.levels.count(LogLevel::Trace) == a.levels.count(LogLevel::Trace) + b.levels.count(LogLevel::Trace));
        assert(w.levels.count(LogLevel::Debug) == a.levels.count(LogLevel::Debug) + b.levels.count(LogLevel::Debug));
        assert(w.levels.count(LogLevel::Info) == a.levels.count(LogLevel::Info) + b.levels.count(LogLevel::Info));
        assert(w.levels.count(LogLevel::Warn) == a.levels.count(LogLevel::Warn) + b.levels.count(LogLevel::Warn));
        assert(w.levels.count(LogLevel::Error) == a.levels.count(LogLevel::Error) + b.levels.count(LogLevel::Error));
        assert(w.levels.count(LogLevel::Fatal) == a.levels.count(LogLevel::Fatal) + b.levels.count(LogLevel::Fatal));
        assert(w.levels.count(LogLevel::Unknown) == a.levels.count(LogLevel::Unknown) + b.levels.count(
            LogLevel::Unknown,
        ));
    }
    assert(m.latency == whole.latency);
    assert(m.services == whole.services) by {
        assert forall|key: Seq<char>| #[trigger] lookup(e.services, key) is Some implies count_of(e.services, key) >= 1 by {}
        lemma_fold_positive(p, 0, k, f, thr);
        lemma_fold_positive(t, k, rest, f, thr);
        lemma_fold_positive(lines, 0, n, f, thr);
        lemma_merge_counts_positive(e.services, a.services);
        lemma_merge_counts_positive(m1.services, b.services);
        lemma_merge_counts_positive(e.services, w.services);
        lemma_counts_equal(m.services, whole.services);
    }
    assert(m.slow_records == whole.slow_records && m.error_records == whole.error_records) by {
        lemma_fold_sample_lines(p, 0, k, f, thr);
        lemma_fold_sample_lines(t, k, rest, f, thr);
        lemma_sample_merge(a.slow_records, b.slow_records, k, n, sample_limit(top_n));
        lemma_sample_merge(a.error_records, b.error_records, k, n, sample_limit(top_n));
    }
}

/// The lines of chunk `c` when `lines` is cut into runs of `size` lines, as
/// `slice::chunks` cuts it.
pub open spec fn chunk_of(lines: Seq<Seq<char>>, size: nat, c: nat) -> Seq<Seq<char>> {
    let end: int = if (c + 1) * size < lines.len() { ((c + 1) * size) as int } else { lines.len() as int };
    lines.subrange((c * size) as int, end)
}

/// How many chunks of `size` lines `len` lines make.
pub open spec fn chunk_count(len: nat, size: nat) -> nat {
    ((len + size - 1) as int / size as int) as nat
}

/// The outcome of each chunk, analysed with its lines numbered from where it
/// starts.
pub open spec fn chunk_outcomes(
    lines: Seq<Seq<char>>,
    size: nat,
    f: FilterView,
    thr: u64,
    top_n: usize,
) -> Seq<AnalysisView> {
    Seq::new(
        chunk_count(lines.len(), size),
        |c: int| finish_spec(fold_from(chunk_of(lines, size, c as nat), c as nat * size, chunk_of(lines, size, c as nat).len(), f, thr), top_n),
    )
}

proof fn lemma_chunk_bounds(len: nat, size: nat, c: nat)
    requires
        size >= 1,
    ensures
        c < chunk_count(len, size) ==> c * size < len,
        c < chunk_count(len, size) ==> (c + 1) * size == c * size + size,
        chunk_count(len, size) * size >= len,
        c <= chunk_count(len, size) ==> c * size <= chunk_count(len, size) * size,
{
    assert(c < chunk_count(len, size) ==> c * size < len) by (nonlinear_arith)
        requires
            size >= 1,
            chunk_count(len, size) == ((len + size - 1) as int / size as int) as nat,
    ;
    assert((c + 1) * size == c * size + size) by (nonlinear_arith);
    assert(chunk_count(len, size) * size >= len) by (nonlinear_arith)
        requires
            size >= 1,
            chunk_count(len, size) == ((len + size - 1) as int / size as int) as nat,
    ;
    assert(c <= chunk_count(len, size) ==> c * size <= chunk_count(len, size) * size) by (nonlinear_arith)
        requires
            size >= 1,
    ;
}

/// Nothing analysed gives the empty outcome.
proof fn lemma_analysis_of_nothing(f: FilterView, thr: u64, top_n: usize)
    requires
        sample_limit(top_n) <= usize::MAX,
    ensures
        analyze_spec(Seq::<Seq<char>>::empty(), f, thr, top_n) == empty_view(),
{
    let e = empty_view();
    let z = analyze_spec(Seq::<Seq<char>>::empty(), f, thr, top_n);
    assert(e.parse_errors + e.parse_errors =~= e.parse_errors);
    assert(e.levels.sum(e.levels) == e.levels);
    assert(sort_counts(e.services) == e.services);
    assert(top_spec(e.services, top_n) =~= e.services);
    assert(sort_records(e.slow_records + e.slow_records) =~= e.slow_records);
    assert(z.slow_records =~= e.slow_records);
    assert(z.error_records =~= e.error_records);
    assert(z.top_services =~= e.top_services);
}

/// One more run of lines, merged into the analysis of the lines before it,
/// gives the analysis of both.
proof fn lemma_merge_next_run(
    lines: Seq<Seq<char>>,
    k: nat,
    outs: Seq<AnalysisView>,
    f: FilterView,
    thr: u64,
    top_n: usize,
)
    requires
        k <= lines.len(),
        lines.len() <= usize::MAX,
        analysis_fits(lines, f, top_n),
        merge_all_spec(outs, top_n) == Some(analyze_spec(lines.take(k as int), f, thr, top_n)),
    ensures
        merge_all_spec(
            outs.push(finish_spec(fold_from(lines.skip(k as int), k, (lines.len() - k) as nat, f, thr), top_n)),
            top_n,
        ) == Some(analyze_spec(lines, f, thr, top_n)),
{
    let b = finish_spec(fold_from(lines.skip(k as int), k, (lines.len() - k) as nat, f, thr), top_n);
    law_split_analysis_matches_whole(lines, k, f, thr, top_n);
    lemma_fold_prefix(lines, 0, k, k as int, f, thr);
    assert(outs.push(b).drop_last() =~= outs);
    assert(outs.push(b).last() == b);
}

/// The lines up to `end` still fit the analysis' bounds.
proof fn lemma_prefix_fits(lines: Seq<Seq<char>>, end: int, f: FilterView, thr: u64, top_n: usize)
    requires
        0 <= end <= lines.len(),
        analysis_fits(lines, f, top_n),
    ensures
        analysis_fits(lines.take(end), f, top_n),
{
    lemma_fold_prefix(lines, 0, end as nat, end, f, thr);
    lemma_latency_total_from_monotone(lines, 0, end as nat, lines.len(), f);
}

/// Chunk `c` is what follows the first `c` chunks in the lines up to the end
/// of chunk `c`.
proof fn lemma_chunk_is_tail(lines: Seq<Seq<char>>, size: nat, c: nat)
    requires
        size >= 1,
        c < chunk_count(lines.len(), size),
    ensures
        ({
            let k = c * size;
            let end: int = if (c + 1) * size < lines.len() { ((c + 1) * size) as int } else { lines.len() as int };
            &&& k < end <= lines.len()
            &&& lines.take(end).take(k as int) == lines.take(k as int)
            &&& lines.take(end).skip(k as int) == chunk_of(lines, size, c)
            &&& chunk_of(lines, size, c).len() == lines.take(end).len() - k
        }),
{
    lemma_chunk_bounds(lines.len(), size, c);
    let k = c * size;
    let end: int = if (c + 1) * size < lines.len() { ((c + 1) * size) as int } else { lines.len() as int };
    assert(lines.take(end).take(k as int) =~= lines.take(k as int));
    assert(lines.take(end).skip(k as int) =~= chunk_of(lines, size, c));
}

/// The first `c` chunk outcomes, merged in turn into an empty one, are the
/// analysis of the lines those chunks hold.
proof fn lemma_chunks_merged(lines: Seq<Seq<char>>, size: nat, c: nat, f: FilterView, thr: u64, top_n: usize)
    requires
        size >= 1,
        c <= chunk_count(lines.len(), size),
        lines.len() <= usize::MAX,
        analysis_fits(lines, f, top_n),
    ensures
        merge_all_spec(chunk_outcomes(lines, size, f, thr, top_n).take(c as int), top_n) == Some(
            analyze_spec(lines.take(if c * size < lines.len() { (c * size) as int } else { lines.len() as int }), f, thr, top_n),
        ),
    decreases c,
{
    let n = lines.len();
    let outs = chunk_outcomes(lines, size, f, thr, top_n);
    if c == 0 {
        assert(c * size == 0) by (nonlinear_arith)
            requires
                c == 0,
        ;
        assert(outs.take(0) =~= Seq::<AnalysisView>::empty());
        assert(lines.take(0) =~= Seq::<Seq<char>>::empty());
        lemma_analysis_of_nothing(f, thr, top_n);
    } else {
        let c0 = (c - 1) as nat;
        lemma_chunks_merged(lines, size, c0, f, thr, top_n);
        lemma_chunk_bounds(n, size, c0);
        lemma_chunk_is_tail(lines, size, c0);
        let k = c0 * size;
        let end: int = if c * size < n { (c * size) as int } else { n as int };
        let lines2 = lines.take(end);
        lemma_prefix_fits(lines, end, f, thr, top_n);
        lemma_merge_next_run(lines2, k, outs.take(c0 as int), f, thr, top_n);
        assert(outs.take(c as int) =~= outs.take(c0 as int).push(outs[c0 as int]));
    }
}

/// Cutting the lines into runs of `size` lines, analysing each run with its
/// lines numbered from where it starts, and merging the outcomes in the order
/// of the runs, as the worker threads' outcomes are merged, gives exactly the
/// analysis of all the lines, whatever the size; no merge overflows.
pub proof fn law_chunked_analysis_matches_whole(lines: Seq<Seq<char>>, size: nat, f: FilterView, thr: u64, top_n: usize)
    requires
        size >= 1,
        lines.len() <= usize::MAX,
        analysis_fits(lines, f, top_n),
    ensures
        merge_all_spec(chunk_outcomes(lines, size, f, thr, top_n), top_n) == Some(analyze_spec(lines, f, thr, top_n)),
{
    let n = lines.len();
    let cc = chunk_count(n, size);
    lemma_chunk_bounds(n, size, cc);
    lemma_chunks_merged(lines, size, cc, f, thr, top_n);
    assert(chunk_outcomes(lines, size, f, thr, top_n).take(cc as int) =~= chunk_outcomes(lines, size, f, thr, top_n));
    assert(lines.take(n as int) =~= lines);
}

/// The number of worker threads asked for does not change the outcome: the
/// runs `chunk_plan` makes for any two thread counts merge to the same
/// analysis, that of all the lines.
pub proof fn law_thread_count_does_not_matter(
    lines: Seq<Seq<char>>,
    threads1: usize,
    threads2: usize,
    f: FilterView,
    thr: u64,
    top_n: usize,
)
    requires
        lines.len() > 0,
        lines.len() <= usize::MAX,
        analysis_fits(lines, f, top_n),
    ensures
        merge_all_spec(chunk_outcomes(lines, chunk_plan_spec(lines.len(), threads1 as nat).1, f, thr, top_n), top_n)
            == Some(analyze_spec(lines, f, thr, top_n)),
        merge_all_spec(chunk_outcomes(lines, chunk_plan_spec(lines.len(), threads2 as nat).1, f, thr, top_n), top_n)
            == Some(analyze_spec(lines, f, thr, top_n)),
{
    lemma_plan_size(lines.len(), threads1 as nat);
    lemma_plan_size(lines.len(), threads2 as nat);
    law_chunked_analysis_matches_whole(lines, chunk_plan_spec(lines.len(), threads1 as nat).1, f, thr, top_n);
    law_chunked_analysis_matches_whole(lines, chunk_plan_spec(lines.len(), threads2 as nat).1, f, thr, top_n);
}

proof fn lemma_plan_size(len: nat, threads: nat)
    requires
        len > 0,
    ensures
        chunk_plan_spec(len, threads).1 >= 1,
{
    let count: nat = if threads < 1 { 1 } else if threads > len { len } else { threads };
    assert(((len + count - 1) as int / count as int) >= 1) by (nonlinear_arith)
        requires
            count >= 1,
            count <= len,
    ;
}

} // verus!
