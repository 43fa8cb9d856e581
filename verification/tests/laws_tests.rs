use rust_log_lab::export::infer_format_from_path;
use rust_log_lab::model::{FieldMap, LogFilter, LogLevel, LogRecord, OutputFormat};
use rust_log_lab::report::{health_for_score, score_for_penalty, HealthLevel};
use rust_log_lab::strmap::StrMap;

fn rank(h: HealthLevel) -> u8 {
    match h {
        HealthLevel::Healthy => 0,
        HealthLevel::Notice => 1,
        HealthLevel::Risky => 2,
        HealthLevel::Critical => 3,
    }
}

#[test]
fn more_penalty_never_improves_health() {
    let mut last_score = 101u16;
    let mut last_rank = 0u8;
    for p in 0..=255u8 {
        let score = score_for_penalty(p);
        let r = rank(health_for_score(score));
        assert!((score as u16) < last_score || (score as u16) == last_score);
        assert!(r >= last_rank);
        last_score = score as u16;
        last_rank = r;
    }
}

#[test]
fn lower_min_level_accepts_more() {
    let record = LogRecord::new(1, "a".to_string(), LogLevel::Warn, None, "m".to_string(), FieldMap::new(), "r".to_string());
    let warn = LogFilter { min_level: Some(LogLevel::Warn), service: None, keyword: None };
    let info = LogFilter { min_level: Some(LogLevel::Info), service: None, keyword: None };
    let error = LogFilter { min_level: Some(LogLevel::Error), service: None, keyword: None };
    assert!(warn.accept(&record));
    assert!(info.accept(&record));
    assert!(!error.accept(&record));
}

#[test]
fn map_reads_back_what_was_stored() {
    let mut map: StrMap<usize> = StrMap::new();
    map.insert("b".to_string(), 2);
    map.insert("a".to_string(), 1);
    map.insert("c".to_string(), 3);
    map.insert("b".to_string(), 20);
    assert_eq!(map.get("b"), Some(&20));
    assert_eq!(map.get("a"), Some(&1));
    assert_eq!(map.get("c"), Some(&3));
    assert_eq!(map.get("d"), None);
    assert_eq!(map.len(), 3);
    assert_eq!(map.key_at(0), "a");
    assert_eq!(map.key_at(1), "b");
    assert_eq!(map.key_at(2), "c");
    assert_eq!(*map.value_at(1), 20);
}

#[test]
fn output_extension_names_format() {
    assert_eq!(infer_format_from_path("x/y/report.Markdown"), Some(OutputFormat::Markdown));
    assert_eq!(infer_format_from_path("..json"), Some(OutputFormat::Json));
    assert_eq!(infer_format_from_path("a/.b.csv"), Some(OutputFormat::Csv));
    assert_eq!(infer_format_from_path("a/b.TXT"), Some(OutputFormat::Text));
}

#[test]
fn decimal_reads_back() {
    use_decimal_round_trip(0);
    use_decimal_round_trip(7);
    use_decimal_round_trip(1234567890);
    use_decimal_round_trip(u64::MAX);
}

fn use_decimal_round_trip(n: u64) {
    let text = rust_log_lab::text::decimal(n);
    assert_eq!(text, n.to_string());
    let chars: Vec<char> = text.chars().collect();
    assert_eq!(rust_log_lab::text::parse_unsigned_chars(&chars, 0, chars.len(), u64::MAX), Ok(n));
}

#[test]
fn number_too_large_for_its_bound() {
    let chars: Vec<char> = "256".chars().collect();
    assert_eq!(
        rust_log_lab::text::parse_unsigned_chars(&chars, 0, chars.len(), 255),
        Err(rust_log_lab::text::IntError::PosOverflow)
    );
}
