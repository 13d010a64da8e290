//! The debloater's rules: which folders it cleans, when an entry is old
//! enough to delete, and which paths it stops retrying.
use vstd::prelude::*;

verus! {

/// Seconds between two cleanup rounds.
pub const CLEANUP_INTERVAL_SECS: u64 = 1800;

/// Age, in seconds, beyond which a file or folder is deleted.
pub const TTL_SECS: u64 = 7200;

/// The age limit in nanoseconds.
pub open spec fn ttl_nanos() -> int {
    7_200_000_000_000int
}

/// `|x|`.
pub open spec fn abs(x: int) -> int {
    if x < 0 {
        -x
    } else {
        x
    }
}

/// Whether an entry last modified at `modified_nanos` is older than the age
/// limit at `now_nanos` (both counted from the same epoch). The age is the
/// distance between the two instants, whichever comes first.
pub fn is_expired(now_nanos: i128, modified_nanos: i128) -> (res: bool)
    requires
        -0x10_0000_0000_0000_0000_0000_0000 <= now_nanos <= 0x10_0000_0000_0000_0000_0000_0000,
        -0x10_0000_0000_0000_0000_0000_0000 <= modified_nanos
            <= 0x10_0000_0000_0000_0000_0000_0000,
    ensures
        res == (abs(now_nanos - modified_nanos) > ttl_nanos()),
        res == (abs(now_nanos - modified_nanos) > TTL_SECS * 1_000_000_000),
        res == (abs(now_nanos - modified_nanos) > 2 * 60 * 60 * 1_000_000_000),
{
    let age: i128 = if now_nanos >= modified_nanos {
        now_nanos - modified_nanos
    } else {
        modified_nanos - now_nanos
    };
    age > 7_200_000_000_000
}

/// Whether an entry is expired does not depend on which of the two instants
/// is the later one.
pub proof fn lemma_expiry_symmetric(a: int, b: int)
    ensures
        (abs(a - b) > ttl_nanos()) == (abs(b - a) > ttl_nanos()),
{
}

/// What the cleanup does with an entry once any directory under it has been
/// cleaned.
#[derive(Clone, Copy, PartialEq, Eq, Structural)]
pub enum CleanupAction {
    /// Leave it.
    Keep,
    /// Delete the (now possibly empty) directory.
    RemoveDir,
    /// Delete the file.
    RemoveFile,
}

/// An expired entry is deleted, as a directory or as a file; an entry whose
/// modification time is unknown, or that is not expired, is kept.
pub fn cleanup_action(is_dir: bool, modified_known: bool, expired: bool) -> (res: CleanupAction)
    ensures
        !(modified_known && expired) ==> res == CleanupAction::Keep,
        modified_known && expired && is_dir ==> res == CleanupAction::RemoveDir,
        modified_known && expired && !is_dir ==> res == CleanupAction::RemoveFile,
{
    if modified_known && expired {
        if is_dir {
            CleanupAction::RemoveDir
        } else {
            CleanupAction::RemoveFile
        }
    } else {
        CleanupAction::Keep
    }
}

/// The paths whose deletion failed; the cleanup does not visit them again.
pub struct FailedDeletions {
    paths: Vec<String>,
}

impl View for FailedDeletions {
    type V = Set<Seq<char>>;

    closed spec fn view(&self) -> Set<Seq<char>> {
        self.paths@.map_values(|s: String| s@).to_set()
    }
}

impl FailedDeletions {
    /// No failed path.
    pub fn new() -> (res: Self)
        ensures
            res@ == Set::<Seq<char>>::empty(),
    {
        let res = FailedDeletions { paths: Vec::new() };
        assert(res@ =~= Set::<Seq<char>>::empty());
        res
    }

    /// Whether the deletion of `path` failed before.
    pub fn contains(&self, path: &str) -> (res: bool)
        ensures
            res == self@.contains(path@),
    {
        let ghost views = self.paths@.map_values(|s: String| s@);
        let wanted = String::from_str(path);
        let mut i: usize = 0;
        while i < self.paths.len()
            invariant
                i <= self.paths@.len(),
                views == self.paths@.map_values(|s: String| s@),
                wanted@ == path@,
                forall|k: int| 0 <= k < i ==> views[k] != path@,
            decreases self.paths@.len() - i,
        {
            if self.paths[i] == wanted {
                assert(views[i as int] == path@);
                assert(views.contains(path@));
                return true;
            }
            i = i + 1;
        }
        assert(!views.contains(path@));
        false
    }

    /// Records that the deletion of `path` failed; says whether it is new,
    /// as `HashSet::insert` does.
    pub fn insert(&mut self, path: String) -> (res: bool)
        ensures
            res == !old(self)@.contains(path@),
            final(self)@ == old(self)@.insert(path@),
    {
        if self.contains(path.as_str()) {
            assert(old(self)@.insert(path@) =~= old(self)@);
            false
        } else {
            let ghost before = self.paths@.map_values(|s: String| s@);
            let ghost pv = path@;
            self.paths.push(path);
            assert(self.paths@.map_values(|s: String| s@) =~= before.push(pv));
            proof {
                Seq::lemma_to_set_insert_commutes(before, pv);
                assert(before.push(pv) =~= before + seq![pv]);
            }
            true
        }
    }
}

/// The folders under `LOCALAPPDATA` that the cleanup empties.
pub fn local_app_data_folders() -> (res: Vec<String>)
    ensures
        res@.map_values(|s: String| s@) == seq![
            "Temp"@,
            "Microsoft\\Windows\\INetCache"@,
            "Microsoft\\Windows\\WebCache"@,
            "Microsoft\\Windows\\Explorer"@,
        ],
{
    let mut res: Vec<String> = Vec::new();
    res.push(String::from_str("Temp"));
    res.push(String::from_str("Microsoft\\Windows\\INetCache"));
    res.push(String::from_str("Microsoft\\Windows\\WebCache"));
    res.push(String::from_str("Microsoft\\Windows\\Explorer"));
    assert(res@.map_values(|s: String| s@) =~= seq![
        "Temp"@,
        "Microsoft\\Windows\\INetCache"@,
        "Microsoft\\Windows\\WebCache"@,
        "Microsoft\\Windows\\Explorer"@,
    ]);
    res
}

/// The folder under `WINDIR` that the cleanup empties.
pub fn windows_folder() -> (res: String)
    ensures
        res@ == "Logs"@,
{
    String::from_str("Logs")
}

} // verus!
