//! The daemon's workers: the staged bloat queue, the Explorer refresh, the
//! debloater and the hotkey worker.
pub mod safe_queue;
pub mod taskbar_refresh;
pub mod debloater_watcher;
pub mod shortcut_manager;
