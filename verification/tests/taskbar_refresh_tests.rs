use winsentry::modules::taskbar_refresh::{
    explorer_executable, parse_tasklist_pids, registry_backup_path, windows_directory,
};

fn reference_pids(stdout: &str) -> Vec<u32> {
    let mut out = Vec::new();
    for line in stdout.lines() {
        let parts: Vec<&str> = line.split(',').collect();
        if parts.len() > 1 {
            let pid_str = parts[1].trim_matches('"');
            if let Ok(pid) = pid_str.parse::<u32>() {
                out.push(pid);
            }
        }
    }
    out
}

#[test]
fn pids_from_tasklist_output() {
    let out = "\"explorer.exe\",\"1234\",\"Console\",\"1\",\"80,000 K\"\r\n\"explorer.exe\",\"56\",\"Console\",\"1\",\"1,000 K\"\r\n";
    assert_eq!(parse_tasklist_pids(out), vec![1234, 56]);
}

#[test]
fn pids_skip_lines_without_a_pid() {
    let out = "INFO: No tasks are running which match the specified criteria.\r\n";
    assert!(parse_tasklist_pids(out).is_empty());
    assert!(parse_tasklist_pids("").is_empty());
    assert_eq!(parse_tasklist_pids("a,\"+7\"\nb,\"4294967296\"\nc,x\nd,\"9\""), vec![7, 9]);
}

#[test]
fn pids_match_reference_parser() {
    let samples = [
        "\"explorer.exe\",\"1234\"",
        "\"explorer.exe\",\"1234\"\r",
        "a,\"1\"\n\nb,\"2\"\r\n",
        "a,\"\"\"3\"\"\"\nb,\"-4\"\nc,\" 5\"",
        ",,,\n,10,\n\"x\",\"4294967295\"",
    ];
    for s in samples.iter() {
        assert_eq!(parse_tasklist_pids(s), reference_pids(s), "input {:?}", s);
    }
}

#[test]
fn refresh_paths() {
    assert_eq!(windows_directory(None), "C:\\Windows");
    assert_eq!(windows_directory(Some("D:\\Win".to_string())), "D:\\Win");
    assert_eq!(explorer_executable("C:\\Windows"), "C:\\Windows\\explorer.exe");
    assert_eq!(registry_backup_path(None), "C:\\Windows\\Temp\\icon_cache_backup.reg");
    assert_eq!(
        registry_backup_path(Some("C:\\Users\\me\\AppData\\Local\\Temp".to_string())),
        "C:\\Users\\me\\AppData\\Local\\Temp\\icon_cache_backup.reg"
    );
}
