use bundler::logger::{init_logger, test_logger, FileLogger, LogLevel};

fn b(s: &str) -> Vec<u8> {
    s.as_bytes().to_vec()
}

#[test]
fn test_log_line_format() {
    let mut log = init_logger(LogLevel::DebugLevel);
    log.log(&b("2001-01-01 00:00:00"), LogLevel::InfoLevel, &b("build"), &b("starting"));
    let lines = log.lines();
    assert_eq!(lines, vec![b("2001-01-01 00:00:00 [INFO] build - starting")]);
}

#[test]
fn test_level_filter_drops_verbose_messages() {
    let mut log = init_logger(LogLevel::WarnLevel);
    log.log(&b("t"), LogLevel::InfoLevel, &b("build"), &b("ignored"));
    log.log(&b("t"), LogLevel::ErrorLevel, &b("build"), &b("kept"));
    let lines = log.lines();
    assert_eq!(lines, vec![b("t [ERROR] build - kept")]);
    assert!(log.enabled(LogLevel::WarnLevel));
    assert!(!log.enabled(LogLevel::TraceLevel));
}

#[test]
fn test_logger_exercise_respects_filter() {
    let mut verbose = FileLogger::new(LogLevel::TraceLevel);
    test_logger(&mut verbose, &b("t"));
    assert_eq!(verbose.lines().len(), 3);
    let mut quiet = FileLogger::new(LogLevel::ErrorLevel);
    test_logger(&mut quiet, &b("t"));
    assert_eq!(quiet.lines().len(), 1);
}
