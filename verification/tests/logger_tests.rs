use winsentry::logger::{
    default_log_directory, format_log_line, log_created_line, log_file_path, LogLevel,
};

#[test]
fn log_lines_carry_level_and_timestamp() {
    assert_eq!(
        format_log_line(LogLevel::Info, "2024-01-31 12:00:00", "Scan started"),
        "[INFO] [2024-01-31 12:00:00] Scan started"
    );
    assert_eq!(format_log_line(LogLevel::Error, "t", "boom"), "[ERROR] [t] boom");
    assert_eq!(format_log_line(LogLevel::Warn, "t", ""), "[WARN] [t] ");
}

#[test]
fn log_file_location() {
    assert_eq!(default_log_directory("C:\\app"), "C:\\app\\WinSentry\\log");
    assert_eq!(
        log_file_path("", "C:\\app", "2024-01-31_12-00-00"),
        "C:\\app\\WinSentry\\log\\log-2024-01-31_12-00-00.txt"
    );
    assert_eq!(log_file_path("D:\\logs", "C:\\app", "s"), "D:\\logs\\log-s.txt");
}

#[test]
fn first_log_line() {
    assert_eq!(
        log_created_line("2024-01-31 12:00:00", "D:\\logs\\log-s.txt"),
        "[INFO] [2024-01-31 12:00:00] Log file created at D:\\logs\\log-s.txt"
    );
}
