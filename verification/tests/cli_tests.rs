use rust_log_lab::cli::{choose_format, demo_lines, parse_args, usage, Command};
use rust_log_lab::model::{LogLevel, OutputFormat};
use rust_log_lab::AppError;

fn args(items: &[&str]) -> Vec<String> {
    items.iter().map(|s| s.to_string()).collect()
}

#[test]
fn parse_analyze_command() {
    let cmd = parse_args(vec![
        "analyze".to_string(),
        "a.log".to_string(),
        "--format".to_string(),
        "json".to_string(),
        "--threads".to_string(),
        "2".to_string(),
    ])
    .unwrap();
    match cmd {
        Command::Analyze(config) => {
            assert_eq!(config.format, OutputFormat::Json);
            assert_eq!(config.options.threads, 2);
        }
        _ => panic!("wrong command"),
    }
}

#[test]
fn demo_dataset_covers_multiple_levels() {
    let lines = demo_lines();
    assert!(lines.iter().any(|line| line.contains("level=ERROR")));
    assert!(lines.iter().any(|line| line.contains("level=WARN")));
    assert!(lines.iter().any(|line| line.contains("level=DEBUG")));
}

#[test]
fn no_arguments_asks_for_help() {
    assert!(matches!(parse_args(Vec::new()), Ok(Command::Help)));
    assert!(matches!(parse_args(args(&["help"])), Ok(Command::Help)));
    assert!(matches!(parse_args(args(&["--help"])), Ok(Command::Help)));
    assert!(matches!(parse_args(args(&["-h"])), Ok(Command::Help)));
    assert!(matches!(parse_args(args(&["demo"])), Ok(Command::Demo)));
}

#[test]
fn analyze_defaults() {
    match parse_args(args(&["run", "app.log"])).unwrap() {
        Command::Analyze(config) => {
            assert_eq!(config.input, "app.log");
            assert_eq!(config.output, None);
            assert_eq!(config.format, OutputFormat::Text);
            assert_eq!(config.options.threads, 4);
            assert_eq!(config.options.top_n, 5);
            assert_eq!(config.options.slow_threshold_ms, 500);
            assert_eq!(config.options.filter.min_level, None);
            assert_eq!(config.options.filter.service, None);
            assert_eq!(config.options.filter.keyword, None);
        }
        _ => panic!("wrong command"),
    }
}

#[test]
fn analyze_reads_every_option() {
    let cmd = parse_args(args(&[
        "analyze", "-o", "out.txt", "-t", "3", "--top", "7", "--slow", "250", "-l", "warn", "-s", "auth", "-k",
        "timeout", "in.log", "-f", "CSV",
    ]))
    .unwrap();
    match cmd {
        Command::Analyze(config) => {
            assert_eq!(config.input, "in.log");
            assert_eq!(config.output, Some("out.txt".to_string()));
            assert_eq!(config.format, OutputFormat::Csv);
            assert_eq!(config.options.threads, 3);
            assert_eq!(config.options.top_n, 7);
            assert_eq!(config.options.slow_threshold_ms, 250);
            assert_eq!(config.options.filter.min_level, Some(LogLevel::Warn));
            assert_eq!(config.options.filter.service, Some("auth".to_string()));
            assert_eq!(config.options.filter.keyword, Some("timeout".to_string()));
        }
        _ => panic!("wrong command"),
    }
}

#[test]
fn out_file_extension_picks_format() {
    match parse_args(args(&["analyze", "a.log", "--out", "report.md"])).unwrap() {
        Command::Analyze(config) => assert_eq!(config.format, OutputFormat::Markdown),
        _ => panic!("wrong command"),
    }
    match parse_args(args(&["analyze", "a.log", "--out", "report.JSON"])).unwrap() {
        Command::Analyze(config) => assert_eq!(config.format, OutputFormat::Json),
        _ => panic!("wrong command"),
    }
    match parse_args(args(&["analyze", "a.log", "--out", "report.log"])).unwrap() {
        Command::Analyze(config) => assert_eq!(config.format, OutputFormat::Text),
        _ => panic!("wrong command"),
    }
    match parse_args(args(&["analyze", "a.log", "--format", "text", "--out", "report.csv"])).unwrap() {
        Command::Analyze(config) => assert_eq!(config.format, OutputFormat::Text),
        _ => panic!("wrong command"),
    }
}

#[test]
fn choose_format_prefers_the_asked_format() {
    assert_eq!(choose_format(Some(OutputFormat::Json), &Some("r.csv".to_string())), OutputFormat::Json);
    assert_eq!(choose_format(None, &Some("r.csv".to_string())), OutputFormat::Csv);
    assert_eq!(choose_format(None, &None), OutputFormat::Text);
}

fn invalid(result: Result<Command, AppError>) -> String {
    match result {
        Err(AppError::InvalidArgument(msg)) => msg,
        other => panic!("expected an invalid argument, got {:?}", other),
    }
}

fn parse_failure(result: Result<Command, AppError>) -> String {
    match result {
        Err(AppError::Parse(msg)) => msg,
        other => panic!("expected a parse error, got {:?}", other),
    }
}

#[test]
fn command_errors() {
    assert_eq!(invalid(parse_args(args(&["frobnicate"]))), "unknown command `frobnicate`; use `help` to see usage");
    assert_eq!(invalid(parse_args(args(&["analyze"]))), "missing input file: rlog analyze <FILE>");
    assert_eq!(invalid(parse_args(args(&["analyze", "a.log", "--bogus"]))), "unknown flag `--bogus`");
    assert_eq!(
        invalid(parse_args(args(&["analyze", "a.log", "b.log"]))),
        "multiple input files are not supported; unexpected `b.log`"
    );
    assert_eq!(invalid(parse_args(args(&["analyze", "a.log", "--top"]))), "flag `--top` needs a value");
    assert_eq!(invalid(parse_args(args(&["analyze", "a.log", "--top", "0"]))), "top must be positive");
    assert_eq!(invalid(parse_args(args(&["analyze", "a.log", "-t", "0"]))), "threads must be positive");
    assert_eq!(invalid(parse_args(args(&["analyze", "a.log", "--slow", "0"]))), "slow must be positive");
    assert_eq!(
        invalid(parse_args(args(&["analyze", "a.log", "--format", "yaml"]))),
        "unknown format `yaml`, expected text/markdown/json/csv"
    );
}

#[test]
fn number_errors() {
    assert_eq!(parse_failure(parse_args(args(&["analyze", "a.log", "--top", "x"]))), "invalid digit found in string");
    assert_eq!(
        parse_failure(parse_args(args(&["analyze", "a.log", "--top", ""]))),
        "cannot parse integer from empty string"
    );
    assert_eq!(
        parse_failure(parse_args(args(&["analyze", "a.log", "--slow", "99999999999999999999"]))),
        "number too large to fit in target type"
    );
    assert_eq!(parse_failure(parse_args(args(&["analyze", "a.log", "--top", "-3"]))), "invalid digit found in string");
    assert_eq!(
        parse_failure(parse_args(args(&["analyze", "a.log", "--level", "loud"]))),
        "unsupported log level `LOUD`"
    );
}

#[test]
fn plus_sign_is_accepted_in_numbers() {
    match parse_args(args(&["analyze", "a.log", "--top", "+3"])).unwrap() {
        Command::Analyze(config) => assert_eq!(config.options.top_n, 3),
        _ => panic!("wrong command"),
    }
}

#[test]
fn demo_dataset_is_seven_lines() {
    let lines = demo_lines();
    assert_eq!(lines.len(), 7);
    assert_eq!(
        lines[0],
        "time=2026-06-01T10:00:01 service=auth level=INFO latency=32 msg=\"login page opened\""
    );
}

#[test]
fn usage_mentions_commands() {
    let text = usage();
    assert!(text.starts_with("Rust Log Lab\n\nUSAGE:\n"));
    assert!(text.contains("cargo run -- demo"));
    assert!(text.ends_with("msg=\"login failed\"\n"));
}
