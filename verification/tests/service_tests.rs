use iot_metrics::service::{
    db_error_message, effective_limit, log_file_path, log_line, DEFAULT_LIMIT, LOCATION_HISTORY_LIMIT,
    MAX_LIMIT,
};

#[test]
fn query_limits() {
    assert_eq!(effective_limit(None), DEFAULT_LIMIT);
    assert_eq!(effective_limit(None), 1000);
    assert_eq!(effective_limit(Some(50)), 50);
    assert_eq!(effective_limit(Some(10000)), 10000);
    assert_eq!(effective_limit(Some(10001)), MAX_LIMIT);
    assert_eq!(effective_limit(Some(i64::MAX)), 10000);
    assert_eq!(effective_limit(Some(-3)), -3);
    assert_eq!(LOCATION_HISTORY_LIMIT, 500);
}

#[test]
fn error_message_format() {
    assert_eq!(db_error_message("upsert edge", "connection refused"), "upsert edge: connection refused");
    assert_eq!(db_error_message("", ""), ": ");
}

#[test]
fn log_paths_and_lines() {
    assert_eq!(log_file_path(Some("backend-server")), "/var/tmp/backend-server.log");
    assert_eq!(log_file_path(None), "/var/tmp/unknown_process.log");
    assert_eq!(log_line("2024-01-02 03:04:05", "hello"), "[2024-01-02 03:04:05] hello");
}
