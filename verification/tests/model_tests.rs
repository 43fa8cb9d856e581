use rust_log_lab::model::{FieldMap, LogFilter, LogLevel, LogRecord, OutputFormat, TopItem};
use rust_log_lab::AppError;

#[test]
fn parse_level_is_case_insensitive() {
    assert_eq!("warn".parse::<LogLevel>().unwrap(), LogLevel::Warn);
    assert_eq!("ERROR".parse::<LogLevel>().unwrap(), LogLevel::Error);
}

#[test]
fn filter_checks_min_level_and_service() {
    let record = LogRecord::new(
        1,
        "auth".to_string(),
        LogLevel::Error,
        Some(42),
        "bad".to_string(),
        FieldMap::new(),
        "raw".to_string(),
    );
    let filter = LogFilter {
        min_level: Some(LogLevel::Warn),
        service: Some("AUTH".to_string()),
        keyword: None,
    };
    assert!(filter.accept(&record));
}

fn record(level: LogLevel, service: &str, message: &str, raw: &str) -> LogRecord {
    LogRecord::new(3, service.to_string(), level, None, message.to_string(), FieldMap::new(), raw.to_string())
}

#[test]
fn filter_rejects_each_condition() {
    let r = record(LogLevel::Info, "auth", "Login OK", "service=auth msg=\"Login OK\"");
    let below = LogFilter { min_level: Some(LogLevel::Warn), service: None, keyword: None };
    assert!(!below.accept(&r));
    let other = LogFilter { min_level: None, service: Some("pay".to_string()), keyword: None };
    assert!(!other.accept(&r));
    let missing = LogFilter { min_level: None, service: None, keyword: Some("timeout".to_string()) };
    assert!(!missing.accept(&r));
    let in_message = LogFilter { min_level: None, service: None, keyword: Some("login ok".to_string()) };
    assert!(in_message.accept(&r));
    let in_raw = LogFilter { min_level: None, service: None, keyword: Some("SERVICE=AUTH".to_string()) };
    assert!(in_raw.accept(&r));
    let open = LogFilter { min_level: None, service: None, keyword: None };
    assert!(open.accept(&r));
}

#[test]
fn unknown_level_passes_every_minimum() {
    let r = record(LogLevel::Unknown, "x", "m", "raw");
    let strict = LogFilter { min_level: Some(LogLevel::Fatal), service: None, keyword: None };
    assert!(strict.accept(&r));
}

#[test]
fn level_names_and_severity() {
    let levels = [
        LogLevel::Trace,
        LogLevel::Debug,
        LogLevel::Info,
        LogLevel::Warn,
        LogLevel::Error,
        LogLevel::Fatal,
        LogLevel::Unknown,
    ];
    for (i, level) in levels.iter().enumerate() {
        assert_eq!(level.severity() as usize, i);
        assert_eq!(level.as_str().parse::<LogLevel>().unwrap(), *level);
        assert_eq!(level.as_str().to_lowercase().parse::<LogLevel>().unwrap(), *level);
    }
    assert_eq!("warning".parse::<LogLevel>().unwrap(), LogLevel::Warn);
    assert_eq!(" err ".parse::<LogLevel>().unwrap(), LogLevel::Error);
    assert_eq!("".parse::<LogLevel>().unwrap(), LogLevel::Unknown);
    match "loud".parse::<LogLevel>() {
        Err(AppError::Parse(msg)) => assert_eq!(msg, "unsupported log level `LOUD`"),
        other => panic!("unexpected {:?}", other),
    }
}

#[test]
fn format_names() {
    assert_eq!("text".parse::<OutputFormat>().unwrap(), OutputFormat::Text);
    assert_eq!("TXT".parse::<OutputFormat>().unwrap(), OutputFormat::Text);
    assert_eq!(" Markdown ".parse::<OutputFormat>().unwrap(), OutputFormat::Markdown);
    assert_eq!("md".parse::<OutputFormat>().unwrap(), OutputFormat::Markdown);
    assert_eq!("JSON".parse::<OutputFormat>().unwrap(), OutputFormat::Json);
    assert_eq!("csv".parse::<OutputFormat>().unwrap(), OutputFormat::Csv);
    match "Yaml".parse::<OutputFormat>() {
        Err(AppError::InvalidArgument(msg)) => assert_eq!(msg, "unknown format `yaml`, expected text/markdown/json/csv"),
        other => panic!("unexpected {:?}", other),
    }
}

#[test]
fn record_fields_and_error_levels() {
    let mut fields = FieldMap::new();
    fields.insert("request_id".to_string(), "r-1".to_string());
    let r = LogRecord::new(1, "auth".to_string(), LogLevel::Fatal, None, "m".to_string(), fields, "raw".to_string());
    assert!(r.is_error_like());
    assert_eq!(r.field("request_id"), Some("r-1"));
    assert_eq!(r.field("trace_id"), None);
    let copy = r.clone();
    assert_eq!(copy.field("request_id"), Some("r-1"));
    assert!(!record(LogLevel::Warn, "a", "m", "r").is_error_like());
}

#[test]
fn top_item_ranking() {
    let a = TopItem { key: "auth".to_string(), count: 3 };
    let b = TopItem { key: "pay".to_string(), count: 3 };
    let c = TopItem { key: "search".to_string(), count: 5 };
    assert!(c.ranks_before(&a));
    assert!(a.ranks_before(&b));
    assert!(!b.ranks_before(&a));
    assert!(!a.ranks_before(&a));
}

#[test]
fn levels_are_ordered_by_severity() {
    let levels = [
        LogLevel::Trace,
        LogLevel::Debug,
        LogLevel::Info,
        LogLevel::Warn,
        LogLevel::Error,
        LogLevel::Fatal,
        LogLevel::Unknown,
    ];
    for (i, a) in levels.iter().enumerate() {
        assert_eq!(usize::from(a.severity()), i);
        for (j, b) in levels.iter().enumerate() {
            assert_eq!(a < b, i < j);
            assert_eq!(a.partial_cmp(b), i.partial_cmp(&j));
            assert_eq!(a.cmp(b), i.cmp(&j));
        }
    }
    assert_eq!(LogLevel::Trace.severity(), 0);
    assert_eq!(LogLevel::Unknown.severity(), 6);
}
