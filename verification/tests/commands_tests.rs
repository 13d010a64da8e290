use winsentry::commands::{cli_scan_targets, parse_command, Command};
use winsentry::modules::shortcut_manager::{hotkey_scan_directories, hotkey_scan_targets};
use winsentry::configuration::WinSentryConfiguration;

fn args(a: &[&str]) -> Vec<String> {
    a.iter().map(|s| s.to_string()).collect()
}

#[test]
fn command_line_modes() {
    assert!(parse_command(&args(&["winsentry"])) == Command::Run);
    assert!(parse_command(&args(&["winsentry", "--scan"])) == Command::Scan);
    assert!(parse_command(&args(&["winsentry", "--purge", "x"])) == Command::Purge);
    assert!(parse_command(&args(&["winsentry", "--other"])) == Command::Run);
    assert!(parse_command(&args(&["winsentry", "x", "--scan"])) == Command::Run);
    assert!(parse_command(&args(&[])) == Command::Run);
}

#[test]
fn scan_target_sets() {
    let cli = cli_scan_targets();
    assert!(cli.contains("node_modules") && cli.contains("dist"));
    assert!(!cli.contains("target"));
    let hk = hotkey_scan_targets();
    for n in ["node_modules", "dist", "__pycache__", ".next", "target"].iter() {
        assert!(hk.contains(n));
    }
    assert!(!hk.contains("src"));
    assert!(hk.matches_nested("bin", "debug", "net8.0"));
    assert!(!cli.matches_nested("bin", "debug", "net8.0"));
}

#[test]
fn hotkey_scan_needs_directories() {
    let mut c = WinSentryConfiguration::default();
    assert!(hotkey_scan_directories(&c).is_none());
    c.user_scan_directories = vec!["C:\\Projects".to_string()];
    assert_eq!(hotkey_scan_directories(&c), Some(vec!["C:\\Projects".to_string()]));
}
