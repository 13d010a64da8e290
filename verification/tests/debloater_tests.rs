use winsentry::modules::debloater_watcher::{
    cleanup_action, is_expired, local_app_data_folders, windows_folder, CleanupAction,
    FailedDeletions, CLEANUP_INTERVAL_SECS, TTL_SECS,
};

const SEC: i128 = 1_000_000_000;

#[test]
fn expiry_uses_the_distance_between_instants() {
    assert!(!is_expired(7200 * SEC, 0));
    assert!(is_expired(7200 * SEC + 1, 0));
    assert!(is_expired(0, 7200 * SEC + 1));
    assert!(!is_expired(-5 * SEC, -5 * SEC));
    assert_eq!(is_expired(100, 8000 * SEC), is_expired(8000 * SEC, 100));
    assert_eq!(TTL_SECS, 7200);
    assert_eq!(CLEANUP_INTERVAL_SECS, 1800);
}

#[test]
fn cleanup_actions() {
    assert!(cleanup_action(true, true, true) == CleanupAction::RemoveDir);
    assert!(cleanup_action(false, true, true) == CleanupAction::RemoveFile);
    assert!(cleanup_action(false, false, true) == CleanupAction::Keep);
    assert!(cleanup_action(true, true, false) == CleanupAction::Keep);
}

#[test]
fn failed_deletions_behave_as_a_set() {
    let mut f = FailedDeletions::new();
    assert!(!f.contains("C:\\a"));
    assert!(f.insert("C:\\a".to_string()));
    assert!(!f.insert("C:\\a".to_string()));
    assert!(f.contains("C:\\a"));
    assert!(!f.contains("C:\\b"));
}

#[test]
fn cleanup_folders() {
    assert_eq!(
        local_app_data_folders(),
        vec![
            "Temp".to_string(),
            "Microsoft\\Windows\\INetCache".to_string(),
            "Microsoft\\Windows\\WebCache".to_string(),
            "Microsoft\\Windows\\Explorer".to_string()
        ]
    );
    assert_eq!(windows_folder(), "Logs");
}
