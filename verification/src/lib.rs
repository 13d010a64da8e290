//! Verified core of the WinSentry system daemon: configuration handling, log
//! line and path composition, the staged bloat queue with its discovery scan
//! and interactive purge, the cleanup rules of the debloater, the parsing of
//! the Explorer process list, and the command-line and hotkey decisions.
pub mod text;
pub mod configuration;
pub mod logger;
pub mod commands;
pub mod modules;
