//! What the program does for its command line.
use vstd::prelude::*;

use crate::modules::safe_queue::{NestedTarget, ScanTargets};

verus! {

/// The program's modes.
#[derive(Clone, Copy, PartialEq, Eq, Structural)]
pub enum Command {
    /// `--scan`: scan the configured directories for bloat, then report.
    Scan,
    /// `--purge`: list the staged bloat and remove what the user picks.
    Purge,
    /// Anything else: install if needed, then run the daemon.
    Run,
}

/// The mode that the arguments (program name first) select: the first
/// argument after the program name decides.
pub open spec fn command_for(args: Seq<Seq<char>>) -> Command {
    if args.len() > 1 && args[1] == "--scan"@ {
        Command::Scan
    } else if args.len() > 1 && args[1] == "--purge"@ {
        Command::Purge
    } else {
        Command::Run
    }
}

/// `--scan` as the first argument runs a scan and `--purge` opens the purge
/// prompt, whatever follows them; any other command line runs the daemon.
pub proof fn lemma_command_dispatch(args: Seq<Seq<char>>)
    ensures
        args.len() > 1 && args[1] == "--scan"@ ==> command_for(args) == Command::Scan,
        args.len() > 1 && args[1] == "--purge"@ ==> command_for(args) == Command::Purge,
        !(args.len() > 1 && (args[1] == "--scan"@ || args[1] == "--purge"@)) ==> command_for(args)
            == Command::Run,
        args.len() > 1 ==> command_for(args) == command_for(args.take(2)),
{
    reveal_strlit("--scan");
    reveal_strlit("--purge");
    assert("--scan"@[2] != "--purge"@[2]);
    if args.len() > 1 {
        assert(args.take(2)[1] == args[1]);
    }
}

/// Reads the command line.
pub fn parse_command(args: &Vec<String>) -> (res: Command)
    ensures
        res == command_for(args@.map_values(|a: String| a@)),
        args@.len() > 1 && args@[1]@ == "--scan"@ ==> res == Command::Scan,
        args@.len() > 1 && args@[1]@ == "--purge"@ ==> res == Command::Purge,
        !(args@.len() > 1 && (args@[1]@ == "--scan"@ || args@[1]@ == "--purge"@)) ==> res
            == Command::Run,
{
    let ghost views = args@.map_values(|a: String| a@);
    proof {
        lemma_command_dispatch(views);
    }
    if args.len() > 1 {
        assert(views[1] == args@[1]@);
        if args[1] == String::from_str("--scan") {
            return Command::Scan;
        }
        if args[1] == String::from_str("--purge") {
            return Command::Purge;
        }
    }
    Command::Run
}

/// The directories that a `--scan` run stages: those named `node_modules`
/// or `dist`.
pub fn cli_scan_targets() -> (res: ScanTargets)
    ensures
        res@.0 == set!["node_modules"@, "dist"@],
        res@.1 == Set::<NestedTarget>::empty(),
{
    let mut t = ScanTargets::new();
    t.insert(String::from_str("node_modules"));
    t.insert(String::from_str("dist"));
    assert(t@.0 =~= set!["node_modules"@, "dist"@]);
    t
}

} // verus!
