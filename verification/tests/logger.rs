use calculator::logger::{format_line, log_file_name, LogLevel, Logger};

#[test]
fn levels_have_their_names() {
    assert_eq!(LogLevel::DEBUG.as_str(), "DEBUG");
    assert_eq!(LogLevel::INFO.as_str(), "INFO");
    assert_eq!(LogLevel::WARN.as_str(), "WARN");
    assert_eq!(LogLevel::ERROR.as_str(), "ERROR");
}

#[test]
fn a_line_holds_time_level_and_message() {
    assert_eq!(
        format_line("2024-05-01 12:30:00", LogLevel::INFO, "App started"),
        "[2024-05-01 12:30:00][INFO] App started"
    );
    assert_eq!(format_line("", LogLevel::ERROR, ""), "[][ERROR] ");
}

#[test]
fn the_file_of_a_day_is_named_after_it() {
    assert_eq!(log_file_name("2024-05-01"), "2024-05-01.log");
}

#[test]
fn records_are_queued_in_order_and_taken_once() {
    let mut logger = Logger::new();
    assert!(logger.take().is_empty());
    logger.debug("a");
    logger.info("b");
    logger.warn("c");
    logger.error("d");
    logger.log(LogLevel::INFO, "e");
    let records = logger.take();
    let seen: Vec<(LogLevel, &str)> =
        records.iter().map(|r| (r.level, r.message.as_str())).collect();
    assert_eq!(
        seen,
        vec![
            (LogLevel::DEBUG, "a"),
            (LogLevel::INFO, "b"),
            (LogLevel::WARN, "c"),
            (LogLevel::ERROR, "d"),
            (LogLevel::INFO, "e"),
        ]
    );
    assert!(logger.take().is_empty());
}
