//! Log lines and the log file's location.
use vstd::prelude::*;

verus! {

/// The severity of a log line.
#[derive(Clone, Copy, PartialEq, Eq, Structural)]
pub enum LogLevel {
    Info,
    Warn,
    Error,
}

/// The tag that opens a log line of the given level.
pub open spec fn level_tag(level: LogLevel) -> Seq<char> {
    match level {
        LogLevel::Info => "[INFO]"@,
        LogLevel::Warn => "[WARN]"@,
        LogLevel::Error => "[ERROR]"@,
    }
}

/// A log line: the level's tag, the timestamp in brackets, the message.
pub open spec fn log_line_text(level: LogLevel, timestamp: Seq<char>, message: Seq<char>) -> Seq<
    char,
> {
    level_tag(level) + " ["@ + timestamp + "] "@ + message
}

/// Formats a log line, such as `[INFO] [2024-01-31 12:00:00] Scan started`.
pub fn format_log_line(level: LogLevel, timestamp: &str, message: &str) -> (res: String)
    ensures
        res@ == log_line_text(level, timestamp@, message@),
{
    let mut res = match level {
        LogLevel::Info => String::from_str("[INFO]"),
        LogLevel::Warn => String::from_str("[WARN]"),
        LogLevel::Error => String::from_str("[ERROR]"),
    };
    res.append(" [");
    res.append(timestamp);
    res.append("] ");
    res.append(message);
    res
}

/// The log directory used when no installation path is given: `WinSentry\log`
/// under the current directory.
pub fn default_log_directory(current_dir: &str) -> (res: String)
    ensures
        res@ == current_dir@ + "\\WinSentry\\log"@,
{
    let mut res = String::from_str(current_dir);
    res.append("\\WinSentry\\log");
    res
}

/// The directory that holds the log file.
pub open spec fn log_directory(installation_path: Seq<char>, current_dir: Seq<char>) -> Seq<char> {
    if installation_path.len() == 0 {
        current_dir + "\\WinSentry\\log"@
    } else {
        installation_path
    }
}

/// The log file for a run started at `stamp`: `log-<stamp>.txt` in the
/// installation path, or in the default log directory when that is empty.
pub fn log_file_path(installation_path: &str, current_dir: &str, stamp: &str) -> (res: String)
    ensures
        res@ == log_directory(installation_path@, current_dir@) + "\\log-"@ + stamp@ + ".txt"@,
{
    let mut res = if installation_path.is_empty() {
        default_log_directory(current_dir)
    } else {
        String::from_str(installation_path)
    };
    res.append("\\log-");
    res.append(stamp);
    res.append(".txt");
    res
}

/// The first line written to a new log file.
pub fn log_created_line(timestamp: &str, log_path: &str) -> (res: String)
    ensures
        res@ == log_line_text(LogLevel::Info, timestamp@, "Log file created at "@ + log_path@),
{
    let mut message = String::from_str("Log file created at ");
    message.append(log_path);
    format_log_line(LogLevel::Info, timestamp, message.as_str())
}

} // verus!
