use rust_log_lab::AppError;

#[test]
fn error_messages() {
    assert_eq!(AppError::InvalidArgument("x".to_string()).message(), "invalid argument: x");
    assert_eq!(AppError::Parse("bad".to_string()).message(), "parse error: bad");
    assert_eq!(AppError::Thread("gone".to_string()).message(), "thread error: gone");
    assert_eq!(AppError::EmptyInput.message(), "input file is empty");
}

#[test]
fn io_errors_convert_and_describe_themselves() {
    let io = std::io::Error::new(std::io::ErrorKind::NotFound, "no such file");
    let err: AppError = AppError::from(io);
    assert!(matches!(err, AppError::Io(_)));
    assert_eq!(err.message(), "I/O error: no such file");
}

#[derive(Debug)]
struct BrokenDisplay;

impl std::fmt::Display for BrokenDisplay {
    fn fmt(&self, _f: &mut std::fmt::Formatter<'_>) -> std::fmt::Result {
        Err(std::fmt::Error)
    }
}

impl std::error::Error for BrokenDisplay {}

#[test]
fn io_error_with_failing_display_does_not_panic() {
    let err = AppError::Io(std::io::Error::new(std::io::ErrorKind::Other, BrokenDisplay));
    let text = err.message();
    assert!(text.starts_with("I/O error: "));
    let plain = AppError::Io(std::io::Error::new(std::io::ErrorKind::Other, "disk gone"));
    assert_eq!(plain.message(), "I/O error: disk gone");
}
