# winsentry

The verified core of WinSentry, a Windows daemon that restarts a frozen
Explorer shell on a hotkey, deletes stale temporary files every half hour,
and stages developer bloat (`node_modules`, `dist`, `target`,
`bin/Debug/net*`, ...) for a reviewed, user-confirmed purge. Its
configuration, with both hotkeys, lives in `%APPDATA%\WinSentry\Config.toml`.

Layout:

- `src/` — the library, with its specifications and proofs.
  - `text.rs`: trimming, splitting, line splitting, unsigned parsing and
    decimal printing over character sequences, each with its specification.
  - `configuration.rs`: the configuration, the cleaning of stored scan
    directories, and the installation answers.
  - `logger.rs`: log lines and the log file's location.
  - `commands.rs`: the command-line modes and the `--scan` targets.
  - `modules/safe_queue.rs`: the staged queue, size formatting, the
    discovery scan's per-entry decisions, the purge prompt and its removals,
    with the proof that a purge keeps exactly the items it did not remove.
  - `modules/taskbar_refresh.rs`: reading Explorer's process ids from
    `tasklist` output, and the refresh's paths.
  - `modules/debloater_watcher.rs`: the cleanup folders, the age limit and
    the set of paths whose deletion failed.
  - `modules/shortcut_manager.rs`: what the scan hotkey searches.
- `app/` — the program: file and console I/O, confy, serde, chrono, the
  Win32 calls and the hotkey loop, calling the library for every decision.
- `tests/` — tests of the library, including comparisons with std's own
  string handling and float formatting.
