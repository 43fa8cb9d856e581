use rust_log_lab::model::LogLevel;
use rust_log_lab::parser::{parse_key_value_fields, KeyValueParser, RecordParser};
use rust_log_lab::AppError;

#[test]
fn parse_quoted_message() {
    let map = parse_key_value_fields("service=auth level=ERROR msg=\"login failed\"").unwrap();
    assert_eq!(map.get("service").unwrap(), "auth");
    assert_eq!(map.get("msg").unwrap(), "login failed");
}

#[test]
fn parser_ignores_empty_line() {
    let parser = KeyValueParser::new();
    assert!(parser.parse_line(1, "   ").unwrap().is_none());
}

#[test]
fn parser_builds_record() {
    let parser = KeyValueParser::new();
    let record = parser
        .parse_line(7, "service=pay level=WARN latency=23ms msg=retry")
        .unwrap()
        .unwrap();
    assert_eq!(record.line_number, 7);
    assert_eq!(record.service, "pay");
    assert_eq!(record.latency_ms, Some(23));
}

fn parse_message(line: &str) -> String {
    match parse_key_value_fields(line) {
        Err(AppError::Parse(msg)) => msg,
        other => panic!("expected a parse error, got {:?}", other),
    }
}

#[test]
fn keys_are_lower_cased_and_later_keys_win() {
    let map = parse_key_value_fields("  a=1   B=\"x y\" A=2 ").unwrap();
    assert_eq!(map.len(), 2);
    assert_eq!(map.get("a").unwrap(), "2");
    assert_eq!(map.get("b").unwrap(), "x y");
    assert_eq!(map.key_at(0), "a");
    assert_eq!(map.key_at(1), "b");
}

#[test]
fn quoted_values_take_escapes() {
    let map = parse_key_value_fields("msg=\"say \\\"hi\\\" \\\\ ok\" k=v").unwrap();
    assert_eq!(map.get("msg").unwrap(), "say \"hi\" \\ ok");
    assert_eq!(map.get("k").unwrap(), "v");
    let map = parse_key_value_fields("k= x=1").unwrap();
    assert_eq!(map.get("k").unwrap(), "");
    assert_eq!(map.get("x").unwrap(), "1");
}

#[test]
fn field_errors() {
    assert_eq!(parse_message(""), "no key=value fields found");
    assert_eq!(parse_message("   "), "no key=value fields found");
    assert_eq!(parse_message("a=1 abc def"), "line contains token without `=` near `abc def`");
    assert_eq!(parse_message("=v"), "empty key");
    assert_eq!(parse_message("k=\"open"), "unclosed quote starting at column 3");
}

#[test]
fn comments_are_skipped() {
    let parser = KeyValueParser::new();
    assert!(parser.parse_line(2, "  # service=auth").unwrap().is_none());
    assert!(parser.parse_line(3, "").unwrap().is_none());
}

#[test]
fn record_defaults_and_fallbacks() {
    let parser = KeyValueParser::new();
    let r = parser.parse_line(4, "  message=hello latency_ms=\" 15 MS \" ").unwrap().unwrap();
    assert_eq!(r.service, "unknown");
    assert_eq!(r.level, LogLevel::Unknown);
    assert_eq!(r.message, "hello");
    assert_eq!(r.latency_ms, Some(15));
    assert_eq!(r.raw, "message=hello latency_ms=\" 15 MS \"");
    let r = parser.parse_line(5, "cost=7 latency=msms msg=x").unwrap().unwrap();
    assert_eq!(r.latency_ms, None);
    let r = parser.parse_line(6, "cost=7 msg=x").unwrap().unwrap();
    assert_eq!(r.latency_ms, Some(7));
    assert_eq!(r.field("cost"), Some("7"));
}

#[test]
fn record_errors() {
    let parser = KeyValueParser::new();
    match parser.parse_line(1, "service=a level=bogus") {
        Err(AppError::Parse(msg)) => assert_eq!(msg, "unsupported log level `BOGUS`"),
        other => panic!("unexpected {:?}", other),
    }
    match parser.parse_line(1, "service=a latency=12x") {
        Err(AppError::Parse(msg)) => assert_eq!(msg, "invalid digit found in string"),
        other => panic!("unexpected {:?}", other),
    }
    match parser.parse_line(1, "lonely") {
        Err(AppError::Parse(msg)) => assert_eq!(msg, "line contains token without `=` near `lonely`"),
        other => panic!("unexpected {:?}", other),
    }
}

#[test]
fn written_fields_read_back() {
    let line = "Service=auth msg=\"login failed\" q=\"say \\\"hi\\\" \\\\\" empty= k=v";
    let map = parse_key_value_fields(line).unwrap();
    assert_eq!(map.len(), 5);
    assert_eq!(map.get("service").unwrap(), "auth");
    assert_eq!(map.get("msg").unwrap(), "login failed");
    assert_eq!(map.get("q").unwrap(), "say \"hi\" \\");
    assert_eq!(map.get("empty").unwrap(), "");
    assert_eq!(map.get("k").unwrap(), "v");
}

#[test]
fn every_value_quoted_reads_back() {
    let line = "service=\"auth\" msg=\"login failed\" q=\"say \\\"hi\\\" \\\\\" empty=\"\" service=\"pay\"";
    let map = parse_key_value_fields(line).unwrap();
    assert_eq!(map.len(), 4);
    assert_eq!(map.get("service").unwrap(), "pay");
    assert_eq!(map.get("msg").unwrap(), "login failed");
    assert_eq!(map.get("q").unwrap(), "say \"hi\" \\");
    assert_eq!(map.get("empty").unwrap(), "");
}
