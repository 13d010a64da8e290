use winsentry::modules::safe_queue::{
    add_entry_size, bloat_alert, clean_scan_root, format_size, max_path_len, nothing_to_purge, parse_purge_selection,
    queue_line, queue_total_bytes, scan_entry_action, scan_entry_action_lowered, scan_follow_up,
    selection_from_answer, size_entry_action, sort_descending, total_line, DiscoveryScan,
    PurgeProgress, PurgeSelection, QueueItem, ScanAction, ScanFollowUp, ScanTargets, SizeAction,
    StagedQueue,
};

fn item(path: &str, size: u64) -> QueueItem {
    QueueItem { path: path.to_string(), size_bytes: size }
}

fn removal(sel: PurgeSelection) -> Option<Vec<usize>> {
    match sel {
        PurgeSelection::Remove(v) => Some(v),
        _ => None,
    }
}

#[test]
fn defaults_are_empty() {
    assert!(StagedQueue::default().items.is_empty());
    let i = QueueItem::default();
    assert_eq!(i.path, "");
    assert_eq!(i.size_bytes, 0);
    let c = item("a", 3).clone();
    assert_eq!(c.path, "a");
    assert_eq!(c.size_bytes, 3);
}

#[test]
fn scan_roots_are_cleaned() {
    assert_eq!(clean_scan_root("  C:/Projects\\\\ "), "C:\\Projects");
    assert_eq!(clean_scan_root("C:\\\\a\\\\b\\"), "C:\\a\\b");
    let samples = ["x//y", " \\\\\\ ", "a/\\", "\u{2003}d:\\q/\u{2003}"];
    for s in samples.iter() {
        let mut r = s.replace("\\\\", "\\").replace("/", "\\").trim().to_string();
        while r.ends_with('\\') {
            r.pop();
        }
        assert_eq!(clean_scan_root(s), r, "input {:?}", s);
    }
}

#[test]
fn scan_targets_are_a_set() {
    let mut t = ScanTargets::new();
    assert!(t.insert("dist".to_string()));
    assert!(!t.insert("dist".to_string()));
    assert!(t.contains("dist"));
    assert!(!t.contains("Dist"));
}

#[test]
fn scan_entry_actions() {
    let mut t = ScanTargets::new();
    t.insert("node_modules".to_string());
    let p = Some("proj");
    let g = Some("home");
    assert!(scan_entry_action(true, false, false, Some("Node_Modules"), p, g, &t) == ScanAction::Stage);
    assert!(scan_entry_action(true, false, false, Some("src"), p, g, &t) == ScanAction::Descend);
    assert!(scan_entry_action(true, false, false, None, p, g, &t) == ScanAction::Descend);
    assert!(scan_entry_action(false, true, true, Some("NODE_MODULES"), None, None, &t) == ScanAction::Stage);
    assert!(scan_entry_action(false, true, false, Some("node_modules"), p, g, &t) == ScanAction::Skip);
    assert!(scan_entry_action(false, false, false, Some("node_modules"), p, g, &t) == ScanAction::Skip);
    assert!(
        scan_entry_action_lowered(true, false, false, Some("Node_Modules"), p, g, &t)
            == ScanAction::Descend
    );
    assert!(size_entry_action(true, true) == SizeAction::Skip);
    assert!(size_entry_action(false, true) == SizeAction::Descend);
    assert!(size_entry_action(false, false) == SizeAction::Count);
    assert_eq!(add_entry_size(5, 7), Some(12));
    assert_eq!(add_entry_size(u64::MAX, 1), None);
    assert_eq!(add_entry_size(u64::MAX - 1, 1), Some(u64::MAX));
}

#[test]
fn dotnet_build_outputs_are_nested_targets() {
    let mut t = ScanTargets::new();
    t.insert_nested("bin".to_string(), "debug".to_string(), "net".to_string());
    assert!(t.matches_nested("bin", "debug", "net8.0"));
    assert!(!t.matches_nested("bin", "release", "net8.0"));
    assert!(!t.matches_nested("obj", "debug", "net8.0"));
    assert!(!t.matches_nested("bin", "debug", "ne"));
    assert!(
        scan_entry_action(true, false, false, Some("net8.0"), Some("Debug"), Some("bin"), &t)
            == ScanAction::Stage
    );
    assert!(
        scan_entry_action(true, false, false, Some("NET48"), Some("DEBUG"), Some("Bin"), &t)
            == ScanAction::Stage
    );
    assert!(
        scan_entry_action(true, false, false, Some("net8.0"), Some("Release"), Some("bin"), &t)
            == ScanAction::Descend
    );
    assert!(
        scan_entry_action(true, false, false, Some("net8.0"), Some("Debug"), None, &t)
            == ScanAction::Descend
    );
    assert!(
        scan_entry_action(false, false, false, Some("net8.0"), Some("Debug"), Some("bin"), &t)
            == ScanAction::Skip
    );
}

#[test]
fn discovery_scan_keeps_total() {
    let mut s = DiscoveryScan::new();
    assert!(s.can_stage(10));
    s.stage("C:\\p\\node_modules".to_string(), 1536);
    s.stage("C:\\q\\dist".to_string(), 512);
    assert_eq!(s.total_bloat_bytes, 2048);
    assert_eq!(s.queue.items.len(), 2);
    assert_eq!(s.queue.items[1].path, "C:\\q\\dist");
    assert!(!s.can_stage(u64::MAX));
    assert_eq!(bloat_alert(&s), "\n[WinSentry Bloat Alert]: Found 2.00 KB of bloat in 2 projects.");
    assert!(scan_follow_up(true, 0) == ScanFollowUp::NotifyNothingFound);
    assert!(scan_follow_up(true, 2) == ScanFollowUp::OpenPurgeConsole);
    assert!(scan_follow_up(false, 0) == ScanFollowUp::PrintReport);
}

#[test]
fn listing_lines_match_std_formatting() {
    let items = vec![item("C:\\a\\node_modules", 1536), item("C:\\é\\dist", 10), item("x", 1 << 31)];
    let max = max_path_len(&items);
    assert_eq!(max, items.iter().map(|i| i.path.len()).max().unwrap());
    for (index, it) in items.iter().enumerate() {
        let expected = format!(
            "[ ] {:2}. {:<width$} ({})",
            index + 1,
            it.path,
            format_size(it.size_bytes),
            width = max + 2
        );
        assert_eq!(queue_line(index, it, max + 2), expected);
    }
    assert_eq!(queue_line(11, &items[2], 0), "[ ] 12. x (2.00 GB)");
    let total = queue_total_bytes(&items).unwrap();
    assert_eq!(total, 1536 + 10 + (1 << 31));
    assert_eq!(
        total_line(total, max + 6),
        format!("{:<width$} Total: {}", "", format_size(total), width = max + 6)
    );
    assert_eq!(max_path_len(&Vec::new()), 30);
}

#[test]
fn queue_total_overflow_is_reported() {
    let items = vec![item("a", u64::MAX), item("b", 1)];
    assert_eq!(queue_total_bytes(&items), None);
    assert_eq!(queue_total_bytes(&Vec::new()), Some(0));
}

#[test]
fn purge_selection_answers() {
    assert!(matches!(parse_purge_selection("q\n", 3), PurgeSelection::Cancel));
    assert!(matches!(parse_purge_selection("  Q ", 3), PurgeSelection::Cancel));
    assert!(matches!(parse_purge_selection("\n", 3), PurgeSelection::Cancel));
    assert!(matches!(parse_purge_selection("abc\n", 3), PurgeSelection::Invalid));
    assert!(matches!(parse_purge_selection("0,4\n", 3), PurgeSelection::Invalid));
    assert_eq!(removal(parse_purge_selection("ALL\n", 3)), Some(vec![2, 1, 0]));
    assert_eq!(removal(parse_purge_selection("1,3\n", 3)), Some(vec![2, 0]));
    assert_eq!(removal(parse_purge_selection(" 3 , x, 1,+2,9\r\n", 3)), Some(vec![2, 1, 0]));
    assert_eq!(removal(parse_purge_selection("2,2", 3)), Some(vec![1, 1]));
    assert!(matches!(selection_from_answer("all", 0), PurgeSelection::Invalid));
    assert!(matches!(selection_from_answer("Q", 2), PurgeSelection::Invalid));
}

#[test]
fn sorting_is_descending() {
    assert_eq!(sort_descending(&vec![3, 1, 4, 1, 5, 9, 2, 6]), vec![9, 6, 5, 4, 3, 2, 1, 1]);
    assert!(sort_descending(&Vec::new()).is_empty());
}

#[test]
fn purge_keeps_items_whose_removal_failed() {
    let items = vec![item("a", 1), item("b", 2), item("c", 3), item("d", 4)];
    let mut p = PurgeProgress::start(&items);
    // Selection "1,3,4": indices 3, 2, 0; removing index 2 fails.
    p.record_removed(3);
    p.record_failed();
    p.record_removed(0);
    let left: Vec<String> = p.remaining.iter().map(|i| i.path.clone()).collect();
    assert_eq!(left, vec!["b".to_string(), "c".to_string()]);
    assert_eq!(p.removed_count, 2);
    assert_eq!(p.failed_count, 1);
}

#[test]
fn scan_total_equals_listing_total() {
    let mut s = DiscoveryScan::new();
    s.stage("a".to_string(), 1024);
    s.stage("b".to_string(), 4096);
    assert_eq!(queue_total_bytes(&s.queue.items), Some(s.total_bloat_bytes));
}

#[test]
fn purge_with_a_repeated_index() {
    // Selection "2,2" gives [1, 1]: the first try removes the directory, the
    // second finds it gone and fails.
    let items = vec![item("a", 1), item("b", 2), item("c", 3)];
    let mut p = PurgeProgress::start(&items);
    p.record_removed(1);
    p.record_failed();
    let left: Vec<String> = p.remaining.iter().map(|i| i.path.clone()).collect();
    assert_eq!(left, vec!["a".to_string(), "c".to_string()]);
    assert_eq!(p.removed_count, 1);
    assert_eq!(p.failed_count, 1);
}

#[test]
fn empty_queue_has_nothing_to_purge() {
    assert!(nothing_to_purge(&StagedQueue::default()));
    assert!(!nothing_to_purge(&StagedQueue { items: vec![item("a", 1)] }));
}
