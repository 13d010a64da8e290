use winsentry::configuration::{
    configuration_from_answers, get_scan_hotkey, get_user_scan_directories,
    get_win_exp_reboot_hotkey, needs_installation, parse_hotkey_input, parse_scan_directories_input,
    parse_scan_hotkey_input, sanitize_configuration, sanitize_scan_directory,
    WinSentryConfiguration,
};

fn config(dirs: &[&str]) -> WinSentryConfiguration {
    WinSentryConfiguration {
        version: "1.0".to_string(),
        win_exp_reboot_hotkey: "K".to_string(),
        scan_hotkey: "J".to_string(),
        user_scan_directories: dirs.iter().map(|d| d.to_string()).collect(),
    }
}

#[test]
fn default_configuration() {
    let c = WinSentryConfiguration::default();
    assert_eq!(c.version, "1.0");
    assert_eq!(c.win_exp_reboot_hotkey, "W");
    assert_eq!(c.scan_hotkey, "C");
    assert!(c.user_scan_directories.is_empty());
}

#[test]
fn getters_copy_fields() {
    let c = config(&["C:\\Projects", "D:\\Code"]);
    assert_eq!(get_win_exp_reboot_hotkey(&c), Some("K".to_string()));
    assert_eq!(get_scan_hotkey(&c), Some("J".to_string()));
    assert_eq!(
        get_user_scan_directories(&c),
        Some(vec!["C:\\Projects".to_string(), "D:\\Code".to_string()])
    );
}

#[test]
fn sanitize_converts_slashes_and_trailing_separators() {
    assert_eq!(sanitize_scan_directory(&"C:/Projects/".to_string()), "C:\\Projects");
    assert_eq!(sanitize_scan_directory(&"C:\\\\Users\\\\me\\\\".to_string()), "C:\\Users\\me");
    assert_eq!(sanitize_scan_directory(&"C://a//b".to_string()), "C:\\a\\b");
    assert_eq!(sanitize_scan_directory(&"\\\\\\".to_string()), "");
    assert_eq!(sanitize_scan_directory(&"".to_string()), "");
}

#[test]
fn sanitize_matches_std_replace() {
    let samples = ["a/b\\\\c\\", "///x", "\\\\\\y\\\\\\", "plain", "C:\\ok", "z/\\/\\"];
    for s in samples.iter() {
        let mut p = s.replace("/", "\\").replace("\\\\", "\\");
        while p.ends_with('\\') {
            p.pop();
        }
        let got = sanitize_scan_directory(&s.to_string());
        assert_eq!(got, p, "input {:?}", s);
        assert!(!got.contains('/'));
        assert!(!got.ends_with('\\'));
    }
}

#[test]
fn sanitize_configuration_keeps_other_fields() {
    let c = config(&["C:/A/", "D:\\B\\\\"]);
    let s = sanitize_configuration(&c);
    assert_eq!(s.version, "1.0");
    assert_eq!(s.win_exp_reboot_hotkey, "K");
    assert_eq!(s.scan_hotkey, "J");
    assert_eq!(s.user_scan_directories, vec!["C:\\A".to_string(), "D:\\B".to_string()]);
}

#[test]
fn installation_needed_only_without_directories() {
    assert!(needs_installation(&config(&[])));
    assert!(!needs_installation(&config(&["C:\\x"])));
}

#[test]
fn hotkey_answer_defaults_to_w() {
    assert_eq!(parse_hotkey_input("\n"), "W");
    assert_eq!(parse_hotkey_input(""), "W");
    assert_eq!(parse_hotkey_input("  \t\r\n"), "W");
    assert_eq!(parse_hotkey_input("  K \r\n"), "K");
    assert_eq!(parse_hotkey_input("F5\n"), "F5");
}

#[test]
fn directories_answer_is_split_trimmed_and_filtered() {
    assert_eq!(
        parse_scan_directories_input("C:\\Projects, D:\\Code,, \n"),
        vec!["C:\\Projects".to_string(), "D:\\Code".to_string()]
    );
    assert!(parse_scan_directories_input("\n").is_empty());
    assert!(parse_scan_directories_input(" , ,\u{3000}").is_empty());
    assert_eq!(parse_scan_directories_input("a"), vec!["a".to_string()]);
}

#[test]
fn answers_build_configuration() {
    let c = configuration_from_answers("\n", " V \n", "C:\\Projects, D:\\Code\n");
    assert_eq!(c.version, "1.0");
    assert_eq!(c.win_exp_reboot_hotkey, "W");
    assert_eq!(c.scan_hotkey, "V");
    assert_eq!(c.user_scan_directories, vec!["C:\\Projects".to_string(), "D:\\Code".to_string()]);
}

#[test]
fn scan_hotkey_answer_defaults_to_c() {
    assert_eq!(parse_scan_hotkey_input("\r\n"), "C");
    assert_eq!(parse_scan_hotkey_input(" F9 \n"), "F9");
}

#[test]
fn clean_directories_load_back_unchanged() {
    let c = config(&["C:\\Projects", "D:\\Code\\app", "relative", ""]);
    let s = sanitize_configuration(&c);
    assert_eq!(s.user_scan_directories, c.user_scan_directories);
    let dirty = config(&["C:\\Projects\\", "D:/Code"]);
    assert_ne!(sanitize_configuration(&dirty).user_scan_directories, dirty.user_scan_directories);
}
