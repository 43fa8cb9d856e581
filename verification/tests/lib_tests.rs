use rust_log_lab::{analyze_lines, AnalyzeOptions};

#[test]
fn public_api_can_analyze_one_line() {
    let lines = vec!["service=auth level=INFO latency=1 msg=ok".to_string()];
    let result = analyze_lines(&lines, AnalyzeOptions::default()).unwrap();
    assert_eq!(result.parsed_records, 1);
}
