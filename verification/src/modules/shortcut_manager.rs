//! The hotkey worker's decisions: what the bloat-scan hotkey scans for, and
//! whether it has anything to scan.
use vstd::prelude::*;

use crate::configuration::WinSentryConfiguration;
use crate::modules::safe_queue::ScanTargets;

verus! {

/// The directories that a hotkey scan stages: those named `node_modules`,
/// `dist`, `__pycache__`, `.next` or `target`, and the .NET build outputs
/// `bin/Debug/net*` (a directory whose name starts with `net` inside `Debug`
/// inside `bin`, names compared lower-cased).
pub fn hotkey_scan_targets() -> (res: ScanTargets)
    ensures
        res@.0 == set!["node_modules"@, "dist"@, "__pycache__"@, ".next"@, "target"@],
        res@.1 == set![("bin"@, "debug"@, "net"@)],
{
    let mut t = ScanTargets::new();
    t.insert(String::from_str("node_modules"));
    t.insert(String::from_str("dist"));
    t.insert(String::from_str("__pycache__"));
    t.insert(String::from_str(".next"));
    t.insert(String::from_str("target"));
    t.insert_nested(String::from_str("bin"), String::from_str("debug"), String::from_str("net"));
    assert(t@.0 =~= set!["node_modules"@, "dist"@, "__pycache__"@, ".next"@, "target"@]);
    assert(t@.1 =~= set![("bin"@, "debug"@, "net"@)]);
    t
}

/// The directories that a hotkey scan searches: the configured ones, or none
/// (the scan is called off) when none is configured.
pub fn hotkey_scan_directories(config: &WinSentryConfiguration) -> (res: Option<Vec<String>>)
    ensures
        config.user_scan_directories@.len() == 0 ==> res is None,
        config.user_scan_directories@.len() > 0 ==> (res matches Some(d)
            && d@ == config.user_scan_directories@),
{
    if config.user_scan_directories.len() == 0 {
        None
    } else {
        Some(config.user_scan_directories.clone())
    }
}

} // verus!
