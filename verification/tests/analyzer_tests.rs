use rust_log_lab::analyzer::{
    analysis_fits_for, analyze_chunk, analyze_lines, chunk_plan, latency_fits, merge_all, top_items, AnalysisResult, AnalyzeOptions, Collector,
    LatencyStats, StatsCollector,
};
use rust_log_lab::model::{LogFilter, LogLevel};
use rust_log_lab::parser::{KeyValueParser, RecordParser};
use rust_log_lab::strmap::StrMap;
use rust_log_lab::AppError;

fn lines(items: &[&str]) -> Vec<String> {
    items.iter().map(|s| s.to_string()).collect()
}

#[test]
fn analyze_counts_levels() {
    let lines = vec![
        "service=auth level=ERROR latency=100 msg=bad".to_string(),
        "service=auth level=INFO latency=10 msg=ok".to_string(),
        "service=pay level=WARN latency=600 msg=slow".to_string(),
    ];
    let options = AnalyzeOptions {
        threads: 2,
        top_n: 2,
        slow_threshold_ms: 500,
        filter: LogFilter { min_level: None, service: None, keyword: None },
    };
    let result = analyze_lines(&lines, options).unwrap();
    assert_eq!(result.parsed_records, 3);
    assert_eq!(result.level_stats.by_level.get(&LogLevel::Error), Some(&1));
    assert_eq!(result.latency.slow_count, 1);
}

#[test]
fn analysis_result_helper_methods_work() {
    let lines = vec![
        "service=auth level=ERROR latency=100 msg=bad".to_string(),
        "service=auth level=WARN latency=700 msg=slow".to_string(),
        "service=auth level=INFO latency=20 msg=ok".to_string(),
    ];
    let result = analyze_lines(&lines, AnalyzeOptions::default()).unwrap();
    assert_eq!(result.error_like_count(), 1);
    assert_eq!(result.warning_count(), 1);
    assert!(result.has_warnings_or_errors());
    let error_ratio = if result.parsed_records == 0 {
        0.0
    } else {
        result.error_like_count() as f64 / result.parsed_records as f64
    };
    let slow_ratio = if result.latency.count == 0 {
        0.0
    } else {
        result.latency.slow_count as f64 / result.latency.count as f64
    };
    assert!(error_ratio > 0.0);
    assert!(slow_ratio > 0.0);
}

#[test]
fn empty_input_is_an_error() {
    let none: Vec<String> = Vec::new();
    assert!(matches!(analyze_lines(&none, AnalyzeOptions::default()), Err(AppError::EmptyInput)));
}

#[test]
fn every_line_is_counted_once() {
    let input = lines(&[
        "service=auth level=ERROR latency=100 msg=bad",
        "",
        "# a comment",
        "garbage",
        "service=pay level=INFO latency=900 msg=ok",
        "service=auth level=fatal msg=down",
        "level=nope",
    ]);
    let result = analyze_lines(&input, AnalyzeOptions::default()).unwrap();
    assert_eq!(result.total_lines, 7);
    assert_eq!(result.skipped_lines, 2);
    assert_eq!(result.parse_errors.len(), 2);
    assert_eq!(result.parsed_records, 3);
    assert_eq!(result.parsed_records + result.skipped_lines + result.parse_errors.len(), result.total_lines);
    assert_eq!(result.level_stats.total, 3);
    assert_eq!(result.parse_errors[0], "line 4: parse error: line contains token without `=` near `garbage`");
    assert_eq!(result.parse_errors[1], "line 7: parse error: unsupported log level `NOPE`");
    assert_eq!(result.error_like_count(), 2);
    assert_eq!(result.level_stats.by_level.get(&LogLevel::Info), Some(&1));
    assert_eq!(result.level_stats.by_level.get(&LogLevel::Warn), None);
}

#[test]
fn filtered_records_are_not_counted() {
    let input = lines(&[
        "service=auth level=ERROR latency=100 msg=bad",
        "service=pay level=INFO latency=900 msg=ok",
        "service=AUTH level=WARN latency=5 msg=\"retry later\"",
    ]);
    let options = AnalyzeOptions {
        threads: 1,
        top_n: 5,
        slow_threshold_ms: 50,
        filter: LogFilter { min_level: Some(LogLevel::Warn), service: Some("auth".to_string()), keyword: None },
    };
    let result = analyze_lines(&input, options).unwrap();
    assert_eq!(result.total_lines, 3);
    assert_eq!(result.parsed_records, 2);
    assert_eq!(result.latency.count, 2);
    assert_eq!(result.latency.sum, 105);
    assert_eq!(result.latency.min, Some(5));
    assert_eq!(result.latency.max, Some(100));
    assert_eq!(result.latency.slow_count, 1);
    assert_eq!(result.slow_records.len(), 1);
    assert_eq!(result.slow_records[0].line_number, 1);
    assert_eq!(result.error_records.len(), 1);
    assert_eq!(result.service_count.get("auth"), Some(&1));
    assert_eq!(result.service_count.get("AUTH"), Some(&1));
    assert_eq!(result.service_count.get("pay"), None);
}

#[test]
fn top_services_are_ranked() {
    let input = lines(&[
        "service=b level=INFO",
        "service=a level=INFO",
        "service=c level=INFO",
        "service=c level=INFO",
        "service=b level=INFO",
        "service=d level=INFO",
        "service=c level=INFO",
    ]);
    let options = AnalyzeOptions { top_n: 3, ..AnalyzeOptions::default() };
    let result = analyze_lines(&input, options).unwrap();
    let ranked: Vec<(String, usize)> = result.top_services.iter().map(|t| (t.key.clone(), t.count)).collect();
    assert_eq!(ranked, vec![("c".to_string(), 3), ("b".to_string(), 2), ("a".to_string(), 1)]);
}

#[test]
fn top_items_takes_the_most_frequent() {
    let mut map: StrMap<usize> = StrMap::new();
    map.insert("x".to_string(), 1);
    map.insert("y".to_string(), 4);
    map.insert("z".to_string(), 4);
    map.insert("w".to_string(), 2);
    let top = top_items(&map, 2);
    assert_eq!(top.len(), 2);
    assert_eq!((top[0].key.as_str(), top[0].count), ("y", 4));
    assert_eq!((top[1].key.as_str(), top[1].count), ("z", 4));
    assert_eq!(top_items(&map, 10).len(), 4);
    assert_eq!(top_items(&map, 0).len(), 0);
}

#[test]
fn samples_are_sorted_and_capped() {
    let mut input = Vec::new();
    for i in 0..15 {
        input.push(format!("service=s{} level=ERROR latency={} msg=m", i, 1000 + i));
    }
    let options = AnalyzeOptions { top_n: 1, ..AnalyzeOptions::default() };
    let result = analyze_lines(&input, options).unwrap();
    assert_eq!(result.error_records.len(), 10);
    assert_eq!(result.slow_records.len(), 10);
    for (i, r) in result.slow_records.iter().enumerate() {
        assert_eq!(r.line_number, i + 1);
        assert!(r.latency_ms.unwrap() >= 500);
    }
    assert!(result.error_records.iter().all(|r| r.is_error_like()));
}

#[test]
fn latency_stats_add_and_merge() {
    let mut a = LatencyStats::default();
    a.add(10, 50);
    a.add(70, 50);
    assert_eq!((a.count, a.sum, a.min, a.max, a.slow_count), (2, 80, Some(10), Some(70), 1));
    let mut b = LatencyStats::default();
    b.add(5, 50);
    let mut ab = a;
    ab.merge(&b);
    let mut ba = b;
    ba.merge(&a);
    assert_eq!(ab, ba);
    assert_eq!((ab.count, ab.sum, ab.min, ab.max, ab.slow_count), (3, 85, Some(5), Some(70), 1));
    let mut single = LatencyStats::default();
    single.add(5, 50);
    let mut added = a;
    added.add(5, 50);
    let mut merged = a;
    merged.merge(&single);
    assert_eq!(added, merged);
}

#[test]
fn merge_adds_outcomes() {
    let first = analyze_lines(&lines(&["service=a level=ERROR latency=900 msg=x", "bad"]), AnalyzeOptions::default())
        .unwrap();
    let second = analyze_lines(&lines(&["service=a level=INFO latency=10", "service=b level=WARN"]), AnalyzeOptions::default())
        .unwrap();
    let mut total = AnalysisResult::default();
    total.merge(first.clone(), 5);
    total.merge(second, 5);
    assert_eq!(total.total_lines, 4);
    assert_eq!(total.parsed_records, 3);
    assert_eq!(total.parse_errors.len(), 1);
    assert_eq!(total.level_stats.total, 3);
    assert_eq!(total.service_count.get("a"), Some(&2));
    assert_eq!(total.service_count.get("b"), Some(&1));
    assert_eq!(total.latency.count, 2);
    assert_eq!(total.top_services[0].key, "a");
    assert_eq!(first.total_lines, 2);
}

#[test]
fn collector_gathers_records() {
    let parser = KeyValueParser::new();
    let mut collector = StatsCollector::new(AnalyzeOptions::default());
    let record = parser.parse_line(1, "service=a level=ERROR latency=600").unwrap().unwrap();
    collector.collect(&record);
    collector.skip_line();
    collector.add_parse_error(3, AppError::Parse("oops".to_string()));
    collector.add_parse_error(4, AppError::EmptyInput);
    let result = collector.finish();
    assert_eq!(result.parsed_records, 1);
    assert_eq!(result.skipped_lines, 1);
    assert_eq!(result.parse_errors, vec!["line 3: parse error: oops".to_string(), "line 4: input file is empty".to_string()]);
    assert_eq!(result.slow_records.len(), 1);
    assert_eq!(result.error_records.len(), 1);
    assert_eq!(result.top_services.len(), 1);
}

#[test]
fn merge_order_keeps_counts() {
    let first = analyze_lines(&lines(&["service=a level=ERROR latency=900 msg=x", "bad"]), AnalyzeOptions::default())
        .unwrap();
    let second = analyze_lines(&lines(&["service=b level=INFO latency=10", "service=a level=WARN"]), AnalyzeOptions::default())
        .unwrap();
    let mut ab = AnalysisResult::default();
    ab.merge(first.clone(), 5);
    ab.merge(second.clone(), 5);
    let mut ba = AnalysisResult::default();
    ba.merge(second, 5);
    ba.merge(first, 5);
    assert_eq!(ab.total_lines, ba.total_lines);
    assert_eq!(ab.parsed_records, ba.parsed_records);
    assert_eq!(ab.skipped_lines, ba.skipped_lines);
    assert_eq!(ab.parse_errors.len(), ba.parse_errors.len());
    assert_eq!(ab.level_stats, ba.level_stats);
    assert_eq!(ab.latency, ba.latency);
    assert_eq!(ab.service_count.get("a"), ba.service_count.get("a"));
    assert_eq!(ab.service_count.get("b"), ba.service_count.get("b"));
    assert_eq!(ab.top_services, ba.top_services);
}

#[test]
fn chunks_merged_match_the_whole() {
    let input = lines(&[
        "service=a level=ERROR latency=900 msg=x",
        "junk",
        "service=b level=INFO latency=10",
        "",
        "service=a level=WARN latency=700",
        "service=c level=ERROR",
        "level=???",
    ]);
    let whole = analyze_lines(&input, AnalyzeOptions::default()).unwrap();
    let (count, size) = chunk_plan(input.len(), 3);
    assert_eq!((count, size), (3, 3));
    let mut parts = Vec::new();
    for (i, chunk) in input.chunks(size).enumerate() {
        parts.push(analyze_chunk(chunk, i * size, AnalyzeOptions::default()));
    }
    assert_eq!(parts.len(), 3);
    assert_eq!(parts[1].parse_errors, Vec::<String>::new());
    assert_eq!(parts[2].parse_errors.len(), 1);
    assert!(parts[2].parse_errors[0].starts_with("line 7: "));
    let merged = merge_all(parts, 5).unwrap();
    assert_eq!(merged.total_lines, whole.total_lines);
    assert_eq!(merged.parsed_records, whole.parsed_records);
    assert_eq!(merged.skipped_lines, whole.skipped_lines);
    assert_eq!(merged.parse_errors, whole.parse_errors);
    assert_eq!(merged.level_stats, whole.level_stats);
    assert_eq!(merged.latency, whole.latency);
    assert_eq!(merged.top_services, whole.top_services);
    assert_eq!(merged.slow_records.len(), whole.slow_records.len());
    assert_eq!(merged.error_records.len(), whole.error_records.len());
}

#[test]
fn chunk_plan_cases() {
    assert_eq!(chunk_plan(10, 4), (4, 3));
    assert_eq!(chunk_plan(3, 8), (3, 1));
    assert_eq!(chunk_plan(5, 0), (1, 5));
    assert_eq!(chunk_plan(1, 1), (1, 1));
}

#[test]
fn merge_all_of_nothing_is_empty() {
    let merged = merge_all(Vec::new(), 5).unwrap();
    assert_eq!(merged.total_lines, 0);
    assert!(merged.top_services.is_empty());
}

#[test]
fn thread_count_does_not_change_the_outcome() {
    let input = lines(&[
        "service=a level=ERROR latency=900 msg=x",
        "junk",
        "service=b level=INFO latency=10",
        "",
        "service=a level=WARN latency=700",
        "service=c level=ERROR",
        "level=???",
        "service=b level=FATAL latency=1200",
    ]);
    let whole = analyze_lines(&input, AnalyzeOptions::default()).unwrap();
    for threads in 0..10 {
        let (count, size) = chunk_plan(input.len(), threads);
        let mut parts = Vec::new();
        for (i, chunk) in input.chunks(size).enumerate() {
            parts.push(analyze_chunk(chunk, i * size, AnalyzeOptions::default()));
        }
        assert!(parts.len() <= count);
        let merged = merge_all(parts, 10).unwrap();
        assert_eq!(merged.total_lines, whole.total_lines);
        assert_eq!(merged.parsed_records, whole.parsed_records);
        assert_eq!(merged.skipped_lines, whole.skipped_lines);
        assert_eq!(merged.parse_errors, whole.parse_errors);
        assert_eq!(merged.level_stats, whole.level_stats);
        assert_eq!(merged.latency, whole.latency);
        for key in ["a", "b", "c", "d"] {
            assert_eq!(merged.service_count.get(key), whole.service_count.get(key));
        }
        assert_eq!(merged.top_services, whole.top_services);
        let slow: Vec<usize> = merged.slow_records.iter().map(|r| r.line_number).collect();
        let errors: Vec<usize> = merged.error_records.iter().map(|r| r.line_number).collect();
        assert_eq!(slow, vec![1, 5, 8]);
        assert_eq!(errors, vec![1, 6, 8]);
        assert_eq!(slow, whole.slow_records.iter().map(|r| r.line_number).collect::<Vec<usize>>());
        assert_eq!(errors, whole.error_records.iter().map(|r| r.line_number).collect::<Vec<usize>>());
    }
}

#[test]
fn latency_of_split_samples_merges_to_the_whole() {
    let samples = [40u64, 7, 300, 120, 5];
    let mut whole = LatencyStats::default();
    for v in samples {
        whole.add(v, 100);
    }
    for split in 0..=samples.len() {
        let mut left = LatencyStats::default();
        for v in &samples[..split] {
            left.add(*v, 100);
        }
        let mut right = LatencyStats::default();
        for v in &samples[split..] {
            right.add(*v, 100);
        }
        let mut merged = left;
        merged.merge(&right);
        assert_eq!(merged, whole);
    }
    assert_eq!((whole.count, whole.sum, whole.min, whole.max, whole.slow_count), (5, 472, Some(5), Some(300), 2));
    let mut with_empty = whole;
    with_empty.merge(&LatencyStats::default());
    assert_eq!(with_empty, whole);
    let mut empty_first = LatencyStats::default();
    empty_first.merge(&whole);
    assert_eq!(empty_first, whole);
}

#[test]
fn fit_checks() {
    let input = lines(&["service=a level=INFO latency=18446744073709551615", "service=b level=INFO latency=1"]);
    assert!(latency_fits(&input[..1], 0, &AnalyzeOptions::default()));
    assert!(latency_fits(&input[1..], 1, &AnalyzeOptions::default()));
    assert!(!latency_fits(&input, 0, &AnalyzeOptions::default()));
    assert!(!analysis_fits_for(&input, &AnalyzeOptions::default()));
    let mut only_b = AnalyzeOptions::default();
    only_b.filter.service = Some("b".to_string());
    assert!(analysis_fits_for(&input, &only_b));
    let mut huge = AnalyzeOptions::default();
    huge.top_n = usize::MAX;
    assert!(!analysis_fits_for(&input[1..], &huge));
    assert!(analysis_fits_for(&input[1..], &AnalyzeOptions::default()));
}
