use rust_log_lab::analyzer::{analyze_lines, AnalyzeOptions};
use rust_log_lab::model::OutputFormat;
use rust_log_lab::report::{
    escape_csv, escape_json, escape_markdown, format_record_markdown, format_record_text, health_for_score,
    option_u64, render_report, score_for_penalty, alerts_fit_for, figures_match_for, fixed_point_text, CsvRenderer, HealthLevel, InsightDraft, JsonRenderer,
    MarkdownRenderer, ReportFigures, ReportRenderer, TextRenderer,
};
use rust_log_lab::parser::{KeyValueParser, RecordParser};

fn figures(health: HealthLevel, score: u8) -> ReportFigures {
    ReportFigures {
        average: Some("10.00".to_string()),
        health,
        score,
        error_percent: "100.0".to_string(),
        slow_percent: "0.0".to_string(),
        error_ratio: "1.0000".to_string(),
        slow_ratio: "0.0000".to_string(),
        dominant_service: Some("auth".to_string()),
        suggestions: vec!["check errors".to_string()],
    }
}

#[test]
fn markdown_report_contains_sections() {
    let lines = vec!["service=auth level=ERROR latency=10 request_id=req-1 msg=bad".to_string()];
    let result = analyze_lines(&lines, AnalyzeOptions::default()).unwrap();
    let report = render_report(&result, OutputFormat::Markdown, 5, &figures(HealthLevel::Risky, 55));
    assert!(report.contains("# Rust Log Lab 日志分析报告"));
    assert!(report.contains("request `req-1`"));
}

#[test]
fn text_report_contains_title() {
    let lines = vec!["service=auth level=INFO latency=1 msg=ok".to_string()];
    let result = analyze_lines(&lines, AnalyzeOptions::default()).unwrap();
    let report = render_report(&result, OutputFormat::Text, 5, &figures(HealthLevel::Healthy, 100));
    assert!(report.contains("Rust Log Lab"));
}

#[test]
fn json_report_contains_insight_block() {
    let lines = vec!["service=auth level=ERROR latency=900 msg=bad".to_string()];
    let result = analyze_lines(&lines, AnalyzeOptions::default()).unwrap();
    let report = render_report(&result, OutputFormat::Json, 5, &figures(HealthLevel::Critical, 20));
    assert!(report.contains("\"insight\""));
    assert!(report.contains("\"score\""));
}

#[test]
fn text_report_in_full() {
    let lines = vec!["service=auth level=INFO latency=1 msg=ok".to_string()];
    let result = analyze_lines(&lines, AnalyzeOptions::default()).unwrap();
    let fg = ReportFigures {
        average: Some("1.00".to_string()),
        health: HealthLevel::Healthy,
        score: 100,
        error_percent: "0.0".to_string(),
        slow_percent: "0.0".to_string(),
        error_ratio: "0.0000".to_string(),
        slow_ratio: "0.0000".to_string(),
        dominant_service: Some("auth".to_string()),
        suggestions: vec!["all good".to_string()],
    };
    let report = TextRenderer { top_n: 5 }.render(&result, &fg);
    let expected = "Rust Log Lab - Analysis Report\n\
================================\n\
total lines      : 1\n\
parsed records   : 1\n\
skipped lines    : 0\n\
parse errors     : 0\n\
\n\
Level distribution\n\
\x20 INFO 1\n\
\n\
Latency\n\
\x20 samples : 1\n\
\x20 min/max : Some(1)/Some(1) ms\n\
\x20 average : 1.00 ms\n\
\x20 slow    : 0\n\
\n\
Health insight\n\
\x20 health  : HEALTHY\n\
\x20 score   : 100\n\
\x20 errors  : 0.0%\n\
\x20 slow    : 0.0%\n\
\x20 main svc: auth\n\
\x20 - all good\n\
\n\
Top 5 services\n\
\x20 auth             1\n\
\n\
Error-like records\n\
\n\
Slow records\n";
    assert_eq!(report, expected);
}

#[test]
fn text_report_lists_parse_errors() {
    let lines = vec!["oops".to_string(), "service=a level=ERROR msg=down".to_string()];
    let result = analyze_lines(&lines, AnalyzeOptions::default()).unwrap();
    let mut fg = figures(HealthLevel::Critical, 10);
    fg.average = None;
    fg.dominant_service = Some("a".to_string());
    let report = render_report(&result, OutputFormat::Text, 5, &fg);
    assert!(report.contains("  average : N/A ms\n"));
    assert!(report.contains("  main svc: a\n"));
    assert!(report.contains("Error-like records\n  line 2    a        ERROR down\n"));
    assert!(report.ends_with("\nParse errors\n  line 1: parse error: line contains token without `=` near `oops`\n"));
}

#[test]
fn csv_report_in_full() {
    let lines = vec![
        "service=auth level=ERROR latency=100 msg=bad".to_string(),
        "service=\"p,q\" level=INFO latency=700 msg=ok".to_string(),
    ];
    let result = analyze_lines(&lines, AnalyzeOptions::default()).unwrap();
    let mut fg = figures(HealthLevel::Risky, 60);
    fg.average = Some("400.00".to_string());
    let report = CsvRenderer.render(&result, &fg);
    assert_eq!(
        report,
        "metric,key,value\nsummary,total_lines,2\nsummary,parsed_records,2\nsummary,skipped_lines,0\n\
level,INFO,1\nlevel,ERROR,1\nservice,auth,1\nservice,\"p,q\",1\nlatency,count,2\nlatency,average,400.00\n\
latency,slow_count,1\n"
    );
}

#[test]
fn json_report_in_full() {
    let lines = vec![
        "service=auth level=ERROR latency=100 msg=bad".to_string(),
        "service=pay level=WARN msg=ok".to_string(),
        "nope".to_string(),
    ];
    let result = analyze_lines(&lines, AnalyzeOptions::default()).unwrap();
    let mut fg = figures(HealthLevel::Notice, 75);
    fg.average = Some("100.00".to_string());
    fg.error_ratio = "0.5000".to_string();
    fg.slow_ratio = "0.0000".to_string();
    let report = JsonRenderer { top_n: 1 }.render(&result, &fg);
    let expected = "{\n\
\x20 \"total_lines\": 3,\n\
\x20 \"parsed_records\": 2,\n\
\x20 \"skipped_lines\": 0,\n\
\x20 \"levels\": {\n\
\x20   \"WARN\": 1,\n\
\x20   \"ERROR\": 1\n\
\x20 },\n\
\x20 \"latency\": {\n\
\x20   \"count\": 1,\n\
\x20   \"min\": 100,\n\
\x20   \"max\": 100,\n\
\x20   \"average\": 100.00,\n\
\x20   \"slow_count\": 0\n\
\x20 },\n\
\x20 \"insight\": {\n\
\x20   \"health\": \"NOTICE\",\n\
\x20   \"score\": 75,\n\
\x20   \"error_ratio\": 0.5000,\n\
\x20   \"slow_ratio\": 0.0000\n\
\x20 },\n\
\x20 \"top_services\": [\n\
\x20   {\"service\": \"auth\", \"count\": 1}\n\
\x20 ],\n\
\x20 \"parse_errors\": [\n\
\x20   \"line 3: parse error: line contains token without `=` near `nope`\"\n\
\x20 ]\n\
}\n";
    assert_eq!(report, expected);
}

#[test]
fn json_report_without_levels_has_an_empty_line() {
    let lines = vec!["# nothing".to_string()];
    let result = analyze_lines(&lines, AnalyzeOptions::default()).unwrap();
    let mut fg = figures(HealthLevel::Healthy, 100);
    fg.average = None;
    fg.dominant_service = None;
    let report = render_report(&result, OutputFormat::Json, 5, &fg);
    assert!(report.contains("  \"levels\": {\n\n  },\n"));
    assert!(report.contains("    \"average\": null,\n"));
    assert!(report.contains("  \"top_services\": [\n  ],\n"));
}

#[test]
fn markdown_report_sections() {
    let lines = vec![
        "service=a_b level=INFO latency=700 msg=\"x|y\"".to_string(),
    ];
    let result = analyze_lines(&lines, AnalyzeOptions::default()).unwrap();
    let mut fg = figures(HealthLevel::Notice, 80);
    fg.dominant_service = Some("a_b".to_string());
    let report = MarkdownRenderer { top_n: 3 }.render(&result, &fg);
    assert!(report.starts_with("# Rust Log Lab 日志分析报告\n\n## 1. 基本信息\n\n- 总日志行数：1\n"));
    assert!(report.contains("- WARN 数量：0\n- ERROR/FATAL 数量：0\n"));
    assert!(report.contains("| 等级 | 数量 |\n|---|---:|\n| INFO | 1 |\n\n## 3. 健康评估\n"));
    assert!(report.contains("- 当前过滤结果中没有 WARN/ERROR/FATAL 日志。\n- 主要服务：a_b\n- 建议：check errors\n"));
    assert!(report.contains("## 4. Top 3 服务\n\n| 服务 | 数量 |\n|---|---:|\n| a\\_b | 1 |\n"));
    assert!(report.contains("## 5. 错误日志样例\n\n暂无错误日志样例。\n"));
    assert!(report.ends_with("## 6. 慢请求样例\n\n- 第 1 行，服务 `a\\_b`，等级 `INFO`, 耗时 `700ms`，消息：x\\|y\n"));
}

#[test]
fn record_lines() {
    let parser = KeyValueParser::new();
    let r = parser
        .parse_line(7, "service=pay level=WARN latency=23 trace_id=t-9 msg=retry")
        .unwrap()
        .unwrap();
    assert_eq!(format_record_text(&r), "  line 7    pay      WARN 23ms request=t-9 retry");
    assert_eq!(format_record_markdown(&r), "第 7 行，服务 `pay`，等级 `WARN`, 耗时 `23ms`, request `t-9`，消息：retry");
    let r = parser.parse_line(12345, "service=averylongname level=INFO msg=hi request_id=r trace_id=t").unwrap().unwrap();
    assert_eq!(format_record_text(&r), "  line 12345 averylongname INFO request=r hi");
}

#[test]
fn escapes() {
    assert_eq!(escape_json("a\"b\\c\nd\re"), "a\\\"b\\\\c\\nd\\re");
    assert_eq!(escape_csv("plain"), "plain");
    assert_eq!(escape_csv("a,b"), "\"a,b\"");
    assert_eq!(escape_csv("say \"hi\""), "\"say \"\"hi\"\"\"");
    assert_eq!(escape_csv("two\nlines"), "\"two\nlines\"");
    assert_eq!(escape_markdown("a|b`c*d_e\\f"), "a\\|b\\`c\\*d\\_e\\\\f");
    assert_eq!(option_u64(Some(42)), "42");
    assert_eq!(option_u64(None), "null");
}

#[test]
fn score_and_health() {
    assert_eq!(score_for_penalty(0), 100);
    assert_eq!(score_for_penalty(45), 55);
    assert_eq!(score_for_penalty(100), 0);
    assert_eq!(score_for_penalty(200), 0);
    assert_eq!(health_for_score(100), HealthLevel::Healthy);
    assert_eq!(health_for_score(85), HealthLevel::Healthy);
    assert_eq!(health_for_score(84), HealthLevel::Notice);
    assert_eq!(health_for_score(70), HealthLevel::Notice);
    assert_eq!(health_for_score(69), HealthLevel::Risky);
    assert_eq!(health_for_score(45), HealthLevel::Risky);
    assert_eq!(health_for_score(44), HealthLevel::Critical);
    assert_eq!(health_for_score(0), HealthLevel::Critical);
    assert_eq!(HealthLevel::Critical.as_str(), "CRITICAL");
}

#[test]
fn draft_concludes_with_a_suggestion() {
    let draft = InsightDraft::new();
    let verdict = draft.conclude();
    assert_eq!(verdict.score, 100);
    assert_eq!(verdict.health, HealthLevel::Healthy);
    assert_eq!(verdict.suggestions, vec!["整体日志状态较好，未发现明显错误或慢请求集中问题。".to_string()]);
    let mut draft = InsightDraft::new();
    draft.penalize(200);
    draft.penalize(100);
    assert_eq!(draft.penalty(), 255);
    draft.suggest("look".to_string());
    let verdict = draft.conclude();
    assert_eq!(verdict.score, 0);
    assert_eq!(verdict.health, HealthLevel::Critical);
    assert_eq!(verdict.suggestions, vec!["look".to_string()]);
}

#[test]
fn figures_checks() {
    use_fixed_point_cases();
    let lines = vec!["service=auth level=ERROR latency=10 msg=bad".to_string()];
    let result = analyze_lines(&lines, AnalyzeOptions::default()).unwrap();
    assert!(alerts_fit_for(&result));
    let good = figures(HealthLevel::Risky, 55);
    assert!(figures_match_for(&result, &good));
    let mut wrong_health = figures(HealthLevel::Healthy, 55);
    assert!(!figures_match_for(&result, &wrong_health));
    wrong_health.health = HealthLevel::Risky;
    wrong_health.dominant_service = Some("pay".to_string());
    assert!(!figures_match_for(&result, &wrong_health));
    let mut no_average = figures(HealthLevel::Risky, 55);
    no_average.average = None;
    assert!(!figures_match_for(&result, &no_average));
    let mut bad_ratio = figures(HealthLevel::Risky, 55);
    bad_ratio.error_ratio = "1.00".to_string();
    assert!(!figures_match_for(&result, &bad_ratio));
    let mut no_suggestion = figures(HealthLevel::Risky, 55);
    no_suggestion.suggestions.clear();
    assert!(!figures_match_for(&result, &no_suggestion));
}

fn use_fixed_point_cases() {
    assert!(fixed_point_text("0.50", 2));
    assert!(fixed_point_text("123.4", 1));
    assert!(fixed_point_text("7.0000", 4));
    assert!(!fixed_point_text(".50", 2));
    assert!(!fixed_point_text("0.5", 2));
    assert!(!fixed_point_text("1,50", 2));
    assert!(!fixed_point_text("-1.50", 2));
    assert!(!fixed_point_text("", 0));
    assert!(fixed_point_text("3.", 0));
}
