//! The daemon's configuration: the hotkeys that reboot Windows Explorer and
//! start a bloat scan, and the directories that the bloat scan searches, with
//! the rules that clean what was stored and what the user typed at
//! installation.
use vstd::prelude::*;

use crate::text::{
    chars_of, collapse_char_pairs, collapse_pairs, lemma_strip_trailing_end, replace_char, replace_chars, split_chars, split_on, string_of,
    strip_chars, strip_trailing, strip_trailing_chars, trim, trimmed, char_views, TrimSet,
};

verus! {

/// The stored configuration.
#[derive(Debug)]
pub struct WinSentryConfiguration {
    pub version: String,
    pub win_exp_reboot_hotkey: String,
    /// The key paired with Ctrl+Alt+Shift to start a bloat scan.
    pub scan_hotkey: String,
    pub user_scan_directories: Vec<String>,
}

impl Clone for WinSentryConfiguration {
    fn clone(&self) -> (res: Self)
        ensures
            res.version@ == self.version@,
            res.win_exp_reboot_hotkey@ == self.win_exp_reboot_hotkey@,
            res.scan_hotkey@ == self.scan_hotkey@,
            res.user_scan_directories@ == self.user_scan_directories@,
    {
        WinSentryConfiguration {
            version: self.version.clone(),
            win_exp_reboot_hotkey: self.win_exp_reboot_hotkey.clone(),
            scan_hotkey: self.scan_hotkey.clone(),
            user_scan_directories: self.user_scan_directories.clone(),
        }
    }
}

impl Default for WinSentryConfiguration {
    /// Version `1.0`, Explorer hotkey `W`, scan hotkey `C`, no scan
    /// directories.
    fn default() -> (res: Self)
        ensures
            res.version@ == "1.0"@,
            res.win_exp_reboot_hotkey@ == "W"@,
            res.scan_hotkey@ == "C"@,
            res.user_scan_directories@ == Seq::<String>::empty(),
    {
        WinSentryConfiguration {
            version: String::from_str("1.0"),
            win_exp_reboot_hotkey: String::from_str("W"),
            scan_hotkey: String::from_str("C"),
            user_scan_directories: Vec::new(),
        }
    }
}

/// The key paired with Ctrl+Alt to reboot Windows Explorer.
pub fn get_win_exp_reboot_hotkey(config: &WinSentryConfiguration) -> (res: Option<String>)
    ensures
        res matches Some(k) && k@ == config.win_exp_reboot_hotkey@,
{
    Some(config.win_exp_reboot_hotkey.clone())
}

/// The key paired with Ctrl+Alt+Shift to start a bloat scan.
pub fn get_scan_hotkey(config: &WinSentryConfiguration) -> (res: Option<String>)
    ensures
        res matches Some(k) && k@ == config.scan_hotkey@,
{
    Some(config.scan_hotkey.clone())
}

/// The directories that the bloat scan searches.
pub fn get_user_scan_directories(config: &WinSentryConfiguration) -> (res: Option<Vec<String>>)
    ensures
        res matches Some(d) && d@ == config.user_scan_directories@,
{
    Some(config.user_scan_directories.clone())
}

// ---------------------------------------------------------------------------
// Cleaning stored directories
// ---------------------------------------------------------------------------

/// A stored scan directory as loading cleans it: every `/` becomes `\`, each
/// `\\` pair then becomes one `\`, and trailing `\` are dropped.
pub open spec fn sanitized_directory(p: Seq<char>) -> Seq<char> {
    strip_trailing(
        collapse_pairs(replace_char(p, '/', '\\'), '\\'),
        TrimSet::Only('\\'),
    )
}

/// Collapsing pairs of `c` introduces no character other than `c`.
proof fn lemma_collapse_keeps_absent(s: Seq<char>, c: char, x: char)
    requires
        x != c,
        !s.contains(x),
    ensures
        !collapse_pairs(s, c).contains(x),
    decreases s.len(),
{
    if s.len() == 0 {
    } else if s.len() >= 2 && s[0] == c && s[1] == c {
        let rest = s.subrange(2, s.len() as int);
        assert forall|i: int| 0 <= i < rest.len() implies rest[i] != x by {
            assert(rest[i] == s[i + 2]);
        }
        lemma_collapse_keeps_absent(rest, c, x);
        let r = collapse_pairs(rest, c);
        assert forall|i: int| 0 <= i < collapse_pairs(s, c).len() implies collapse_pairs(
            s,
            c,
        )[i] != x by {
            if i > 0 {
                assert(collapse_pairs(s, c)[i] == r[i - 1]);
            }
        }
    } else {
        let rest = s.drop_first();
        assert forall|i: int| 0 <= i < rest.len() implies rest[i] != x by {
            assert(rest[i] == s[i + 1]);
        }
        lemma_collapse_keeps_absent(rest, c, x);
        let r = collapse_pairs(rest, c);
        assert(s[0] != x);
        assert forall|i: int| 0 <= i < collapse_pairs(s, c).len() implies collapse_pairs(
            s,
            c,
        )[i] != x by {
            if i > 0 {
                assert(collapse_pairs(s, c)[i] == r[i - 1]);
            }
        }
    }
}

/// A cleaned directory has no `/` and does not end with `\`.
pub proof fn lemma_sanitized_directory_shape(p: Seq<char>)
    ensures
        !sanitized_directory(p).contains('/'),
        sanitized_directory(p).len() > 0 ==> sanitized_directory(p).last() != '\\',
{
    let a = replace_char(p, '/', '\\');
    assert forall|i: int| 0 <= i < a.len() implies a[i] != '/' by {}
    lemma_collapse_keeps_absent(a, '\\', '/');
    let b = collapse_pairs(a, '\\');
    lemma_strip_trailing_end(b, TrimSet::Only('\\'));
    let r = strip_trailing(b, TrimSet::Only('\\'));
    assert forall|i: int| 0 <= i < r.len() implies r[i] != '/' by {
        assert(r[i] == b[i]);
    }
}

/// A directory that loading leaves as it is: no `/`, no two `\` in a row,
/// and no trailing `\`.
pub open spec fn is_clean_directory(p: Seq<char>) -> bool {
    &&& !p.contains('/')
    &&& forall|i: int| 0 <= i < p.len() - 1 ==> !(#[trigger] p[i] == '\\' && p[i + 1] == '\\')
    &&& (p.len() > 0 ==> p.last() != '\\')
}

/// Collapsing pairs of `c` leaves a sequence without two `c` in a row as it is.
pub proof fn lemma_collapse_without_pairs(s: Seq<char>, c: char)
    requires
        forall|i: int| 0 <= i < s.len() - 1 ==> !(#[trigger] s[i] == c && s[i + 1] == c),
    ensures
        collapse_pairs(s, c) == s,
    decreases s.len(),
{
    if s.len() > 0 {
        let rest = s.drop_first();
        assert forall|i: int| 0 <= i < rest.len() - 1 implies !(#[trigger] rest[i] == c && rest[i
            + 1] == c) by {
            assert(rest[i] == s[i + 1] && rest[i + 1] == s[i + 2]);
        }
        if s.len() >= 2 {
            assert(!(s[0] == c && s[1] == c));
        }
        lemma_collapse_without_pairs(rest, c);
        assert(seq![s[0]] + rest =~= s);
    }
}

/// Loading leaves a clean directory unchanged, so that a configuration
/// whose directories are all clean loads back as it was stored.
pub proof fn lemma_clean_directory_unchanged(p: Seq<char>)
    requires
        is_clean_directory(p),
    ensures
        sanitized_directory(p) == p,
{
    assert(replace_char(p, '/', '\\') =~= p) by {
        assert forall|i: int| 0 <= i < p.len() implies p[i] != '/' by {
            assert(p.contains(p[i]));
        }
    }
    lemma_collapse_without_pairs(p, '\\');
    if p.len() > 0 {
        assert(!TrimSet::Only('\\').holds(p.last()));
    }
}

/// Cleans one stored scan directory; the result has no `/` and does not end
/// with `\`.
pub fn sanitize_scan_directory(p: &String) -> (res: String)
    ensures
        res@ == sanitized_directory(p@),
        !res@.contains('/'),
        res@.len() > 0 ==> res@.last() != '\\',
{
    let v = chars_of(p.as_str());
    let a = replace_chars(&v, '/', '\\');
    let b = collapse_char_pairs(&a, '\\');
    let c = strip_trailing_chars(&b, TrimSet::Only('\\'));
    proof {
        lemma_sanitized_directory_shape(p@);
    }
    string_of(&c)
}

/// The configuration as loading hands it out: the stored one with each scan
/// directory cleaned, the rest unchanged.
pub fn sanitize_configuration(config: &WinSentryConfiguration) -> (res: WinSentryConfiguration)
    ensures
        res.version@ == config.version@,
        res.win_exp_reboot_hotkey@ == config.win_exp_reboot_hotkey@,
        res.scan_hotkey@ == config.scan_hotkey@,
        res.user_scan_directories@.len() == config.user_scan_directories@.len(),
        forall|i: int|
            0 <= i < res.user_scan_directories@.len() ==> (#[trigger] res.user_scan_directories@[i])@
                == sanitized_directory(config.user_scan_directories@[i]@),
        forall|i: int|
            0 <= i < res.user_scan_directories@.len() && is_clean_directory(
                config.user_scan_directories@[i]@,
            ) ==> (#[trigger] res.user_scan_directories@[i])@ == config.user_scan_directories@[i]@,
{
    let mut dirs: Vec<String> = Vec::new();
    let n = config.user_scan_directories.len();
    let mut i: usize = 0;
    while i < n
        invariant
            i <= n == config.user_scan_directories@.len(),
            dirs@.len() == i,
            forall|k: int|
                0 <= k < i ==> (#[trigger] dirs@[k])@ == sanitized_directory(
                    config.user_scan_directories@[k]@,
                ),
        decreases n - i,
    {
        let d = sanitize_scan_directory(&config.user_scan_directories[i]);
        dirs.push(d);
        i = i + 1;
    }
    assert forall|k: int|
        0 <= k < dirs@.len() && is_clean_directory(
            config.user_scan_directories@[k]@,
        ) implies (#[trigger] dirs@[k])@ == config.user_scan_directories@[k]@ by {
        lemma_clean_directory_unchanged(config.user_scan_directories@[k]@);
    }
    WinSentryConfiguration {
        version: config.version.clone(),
        win_exp_reboot_hotkey: config.win_exp_reboot_hotkey.clone(),
        scan_hotkey: config.scan_hotkey.clone(),
        user_scan_directories: dirs,
    }
}

// ---------------------------------------------------------------------------
// Installation answers
// ---------------------------------------------------------------------------

/// Whether the configuration holds no scan directory yet, so that the
/// installation questions are asked.
pub fn needs_installation(config: &WinSentryConfiguration) -> (res: bool)
    ensures
        res == (config.user_scan_directories@.len() == 0),
{
    config.user_scan_directories.len() == 0
}

/// The hotkey the user chose: the answer without surrounding whitespace, or
/// `W` when that is empty.
pub open spec fn hotkey_answer(line: Seq<char>) -> Seq<char> {
    if trimmed(line).len() == 0 {
        "W"@
    } else {
        trimmed(line)
    }
}

/// The scan hotkey the user chose: the answer without surrounding
/// whitespace, or `C` when that is empty.
pub open spec fn scan_hotkey_answer(line: Seq<char>) -> Seq<char> {
    if trimmed(line).len() == 0 {
        "C"@
    } else {
        trimmed(line)
    }
}

/// Reads the scan hotkey answer; the result is never empty.
pub fn parse_scan_hotkey_input(line: &str) -> (res: String)
    ensures
        res@ == scan_hotkey_answer(line@),
        res@.len() > 0,
        trimmed(line@).len() > 0 ==> res@ == trimmed(line@),
        trimmed(line@).len() == 0 ==> res@ == "C"@,
{
    let t = trim(line);
    if t.as_str().is_empty() {
        proof {
            reveal_strlit("C");
        }
        String::from_str("C")
    } else {
        t
    }
}

/// Reads the hotkey answer; the result is never empty.
pub fn parse_hotkey_input(line: &str) -> (res: String)
    ensures
        res@ == hotkey_answer(line@),
        res@.len() > 0,
        trimmed(line@).len() > 0 ==> res@ == trimmed(line@),
        trimmed(line@).len() == 0 ==> res@ == "W"@,
{
    let t = trim(line);
    if t.as_str().is_empty() {
        proof {
            reveal_strlit("W");
        }
        String::from_str("W")
    } else {
        t
    }
}

/// The non-empty fields among `fields`, each without surrounding whitespace.
pub open spec fn nonempty_trimmed(fields: Seq<Seq<char>>) -> Seq<Seq<char>>
    decreases fields.len(),
{
    if fields.len() == 0 {
        Seq::empty()
    } else {
        let prev = nonempty_trimmed(fields.drop_last());
        if trimmed(fields.last()).len() > 0 {
            prev.push(trimmed(fields.last()))
        } else {
            prev
        }
    }
}

/// The directories the user listed: the comma-separated fields of the
/// answer, trimmed, empty ones left out.
pub open spec fn directory_answer(line: Seq<char>) -> Seq<Seq<char>> {
    nonempty_trimmed(split_on(line, ','))
}

/// Every listed directory is non-empty and trimmed.
pub proof fn lemma_nonempty_trimmed_shape(fields: Seq<Seq<char>>)
    ensures
        forall|i: int|
            0 <= i < nonempty_trimmed(fields).len() ==> (#[trigger] nonempty_trimmed(fields)[i]).len()
                > 0 && exists|j: int| 0 <= j < fields.len() && nonempty_trimmed(fields)[i]
                == trimmed(fields[j]),
    decreases fields.len(),
{
    if fields.len() > 0 {
        lemma_nonempty_trimmed_shape(fields.drop_last());
        let prev = nonempty_trimmed(fields.drop_last());
        assert forall|i: int| 0 <= i < nonempty_trimmed(fields).len() implies (#[trigger] nonempty_trimmed(fields)[i]).len()
            > 0 && exists|j: int| 0 <= j < fields.len() && nonempty_trimmed(fields)[i]
            == trimmed(fields[j]) by {
            if i < prev.len() {
                let j = choose|j: int|
                    0 <= j < fields.drop_last().len() && prev[i] == trimmed(
                        fields.drop_last()[j],
                    );
                assert(fields[j] == fields.drop_last()[j]);
            } else {
                assert(nonempty_trimmed(fields)[i] == trimmed(fields[fields.len() - 1]));
            }
        }
    }
}

/// Every field whose trimmed text is not empty is kept, trimmed, in the
/// order of the fields.
pub proof fn lemma_nonempty_trimmed_keeps_every_answer(fields: Seq<Seq<char>>, more: Seq<Seq<char>>)
    ensures
        forall|j: int|
            0 <= j < fields.len() && trimmed(#[trigger] fields[j]).len() > 0
                ==> nonempty_trimmed(fields).contains(trimmed(fields[j])),
        nonempty_trimmed(fields + more) == nonempty_trimmed(fields) + nonempty_trimmed(more),
    decreases fields.len() + more.len(),
{
    if more.len() > 0 {
        lemma_nonempty_trimmed_keeps_every_answer(fields, more.drop_last());
        assert((fields + more).drop_last() =~= fields + more.drop_last());
        assert((fields + more).last() == more.last());
        if trimmed(more.last()).len() > 0 {
            assert(nonempty_trimmed(fields) + nonempty_trimmed(more.drop_last()).push(
                trimmed(more.last()),
            ) =~= (nonempty_trimmed(fields) + nonempty_trimmed(more.drop_last())).push(
                trimmed(more.last()),
            ));
        }
    } else {
        assert(fields + more =~= fields);
        assert(nonempty_trimmed(more) == Seq::<Seq<char>>::empty());
        assert(nonempty_trimmed(fields) + nonempty_trimmed(more) =~= nonempty_trimmed(fields));
        if fields.len() > 0 {
            lemma_nonempty_trimmed_keeps_every_answer(fields.drop_last(), more);
            let prev = nonempty_trimmed(fields.drop_last());
            assert forall|j: int|
                0 <= j < fields.len() && trimmed(#[trigger] fields[j]).len()
                    > 0 implies nonempty_trimmed(fields).contains(trimmed(fields[j])) by {
                if j < fields.len() - 1 {
                    assert(fields.drop_last()[j] == fields[j]);
                    let k = choose|k: int| 0 <= k < prev.len() && prev[k] == trimmed(fields[j]);
                    assert(nonempty_trimmed(fields)[k] == prev[k]);
                } else {
                    assert(nonempty_trimmed(fields)[prev.len() as int] == trimmed(fields[j]));
                }
            }
        }
    }
}

/// Reads the directories answer.
pub fn parse_scan_directories_input(line: &str) -> (res: Vec<String>)
    ensures
        res@.map_values(|s: String| s@) == directory_answer(line@),
{
    let v = chars_of(line);
    let fields = split_chars(&v, ',');
    let ghost fv = char_views(fields@);
    let mut res: Vec<String> = Vec::new();
    let mut i: usize = 0;
    while i < fields.len()
        invariant
            i <= fields@.len() == fv.len(),
            fv == char_views(fields@),
            res@.map_values(|s: String| s@) == nonempty_trimmed(fv.take(i as int)),
        decreases fields@.len() - i,
    {
        let t = strip_chars(&fields[i], TrimSet::Whitespace);
        assert(fv.take(i + 1).drop_last() =~= fv.take(i as int));
        assert(fv.take(i + 1).last() == fields@[i as int]@);
        if t.len() > 0 {
            let ghost before = res@.map_values(|s: String| s@);
            let st = string_of(&t);
            res.push(st);
            assert(res@.map_values(|s: String| s@) =~= before.push(t@));
        }
        i = i + 1;
    }
    assert(fv.take(fields@.len() as int) =~= fv);
    res
}

/// The configuration that installation stores: version `1.0`, the chosen
/// hotkeys and the listed directories.
pub fn configuration_from_answers(
    hotkey_line: &str,
    scan_hotkey_line: &str,
    directories_line: &str,
) -> (res: WinSentryConfiguration)
    ensures
        res.version@ == "1.0"@,
        res.win_exp_reboot_hotkey@ == hotkey_answer(hotkey_line@),
        res.scan_hotkey@ == scan_hotkey_answer(scan_hotkey_line@),
        res.user_scan_directories@.map_values(|s: String| s@) == directory_answer(
            directories_line@,
        ),
{
    WinSentryConfiguration {
        version: String::from_str("1.0"),
        win_exp_reboot_hotkey: parse_hotkey_input(hotkey_line),
        scan_hotkey: parse_scan_hotkey_input(scan_hotkey_line),
        user_scan_directories: parse_scan_directories_input(directories_line),
    }
}

} // verus!
