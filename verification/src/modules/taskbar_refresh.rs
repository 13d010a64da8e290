//! The Explorer refresh: which processes to end, read from the process list
//! that `tasklist` prints, and the paths that the refresh works with.
use vstd::prelude::*;

use crate::text::{
    char_views, chars_of, decimal, lemma_decimal_digits, lemma_parse_decimal,
    lemma_parse_unsigned_bound, lines_of, parse_unsigned, parse_unsigned_chars, split_chars,
    split_lines, split_on, strip_both, strip_chars, strip_leading, strip_trailing, TrimSet,
};

verus! {

/// The process id on one line of `tasklist /FO CSV /NH` output, such as
/// `"explorer.exe","1234","Console","1","80,000 K"`: the second
/// comma-separated field, without the double quotes around it, read as a
/// `u32`. A line with fewer than two fields, or whose field does not read as
/// a `u32`, has none.
pub open spec fn line_pid(line: Seq<char>) -> Option<u32> {
    let parts = split_on(line, ',');
    if parts.len() > 1 {
        match parse_unsigned(strip_both(parts[1], TrimSet::Only('"')), 0xffff_ffff) {
            Some(n) => Some(n as u32),
            None => None,
        }
    } else {
        None
    }
}

/// The process ids of the given lines, in order.
pub open spec fn pids_of_lines(lines: Seq<Seq<char>>) -> Seq<u32>
    decreases lines.len(),
{
    if lines.len() == 0 {
        Seq::empty()
    } else {
        let prev = pids_of_lines(lines.drop_last());
        match line_pid(lines.last()) {
            Some(p) => prev.push(p),
            None => prev,
        }
    }
}

/// Each line contributes its own process id, if it has one, and the ids of
/// consecutive groups of lines follow one another in order.
pub proof fn lemma_pids_of_lines_compose(a: Seq<Seq<char>>, b: Seq<Seq<char>>, line: Seq<char>)
    ensures
        pids_of_lines(seq![line]) == (match line_pid(line) {
            Some(p) => seq![p],
            None => Seq::<u32>::empty(),
        }),
        pids_of_lines(a + b) == pids_of_lines(a) + pids_of_lines(b),
    decreases b.len(),
{
    assert(seq![line].drop_last() =~= Seq::<Seq<char>>::empty());
    assert(seq![line].last() == line);
    assert(pids_of_lines(Seq::<Seq<char>>::empty()) == Seq::<u32>::empty());
    match line_pid(line) {
        Some(p) => {
            assert(pids_of_lines(seq![line]) =~= Seq::<u32>::empty().push(p));
            assert(Seq::<u32>::empty().push(p) =~= seq![p]);
        },
        None => {},
    }
    if b.len() == 0 {
        assert(a + b =~= a);
        assert(pids_of_lines(a) + pids_of_lines(b) =~= pids_of_lines(a));
    } else {
        lemma_pids_of_lines_compose(a, b.drop_last(), line);
        assert((a + b).drop_last() =~= a + b.drop_last());
        assert((a + b).last() == b.last());
        match line_pid(b.last()) {
            Some(p) => {
                assert(pids_of_lines(a) + pids_of_lines(b.drop_last()).push(p) =~= (pids_of_lines(a)
                    + pids_of_lines(b.drop_last())).push(p));
            },
            None => {},
        }
    }
}

/// The process ids listed in the output of `tasklist`, line by line.
pub open spec fn tasklist_pids(output: Seq<char>) -> Seq<u32> {
    pids_of_lines(lines_of(output))
}

/// A line whose second field is a process id in double quotes, as `tasklist`
/// prints it (`"explorer.exe","1234",...`), has that process id, whatever
/// number of digits it has.
pub proof fn lemma_quoted_pid_field(line: Seq<char>, pid: u32)
    requires
        split_on(line, ',').len() > 1,
        split_on(line, ',')[1] == seq!['"'] + decimal(pid as nat) + seq!['"'],
    ensures
        line_pid(line) == Some(pid),
{
    let d = decimal(pid as nat);
    lemma_decimal_digits(pid as nat);
    lemma_parse_decimal(pid as nat, 0xffff_ffff);
    let f = seq!['"'] + d + seq!['"'];
    let quote = TrimSet::Only('"');
    assert('0' <= d[0] <= '9');
    assert('0' <= d[d.len() - 1] <= '9');
    assert(f.drop_first() =~= d + seq!['"']);
    assert(strip_leading(d + seq!['"'], quote) == d + seq!['"']) by {
        assert((d + seq!['"'])[0] == d[0]);
    }
    assert(strip_leading(f, quote) == d + seq!['"']);
    assert((d + seq!['"']).drop_last() =~= d);
    assert(strip_trailing(d, quote) == d) by {
        assert(d.last() == d[d.len() - 1]);
    }
    assert(strip_both(f, quote) == d);
}

/// The process id on one line, if it has one.
pub fn parse_line_pid(line: &Vec<char>) -> (res: Option<u32>)
    ensures
        res == line_pid(line@),
        split_on(line@, ',').len() <= 1 ==> res is None,
        split_on(line@, ',').len() > 1 ==> (res is Some <==> parse_unsigned(
            strip_both(split_on(line@, ',')[1], TrimSet::Only('"')),
            4294967295,
        ) is Some),
        res matches Some(p) ==> parse_unsigned(
            strip_both(split_on(line@, ',')[1], TrimSet::Only('"')),
            4294967295,
        ) == Some(p as nat),
{
    let parts = split_chars(line, ',');
    assert(char_views(parts@).len() == parts@.len());
    if parts.len() > 1 {
        let field = strip_chars(&parts[1], TrimSet::Only('"'));
        assert(field@ == strip_both(split_on(line@, ',')[1], TrimSet::Only('"')));
        let ghost spec_value = parse_unsigned(field@, 0xffff_ffff);
        match parse_unsigned_chars(&field, 0xffff_ffff) {
            Some(n) => {
                assert(spec_value is Some);
                let ghost x = spec_value->0;
                proof {
                    lemma_parse_unsigned_bound(field@, 0xffff_ffff);
                }
                assert(x <= 0xffff_ffff);
                assert(x as u64 == n);
                assert(spec_value == Some(n as nat));
                Some(n as u32)
            },
            None => None,
        }
    } else {
        None
    }
}

/// The process ids listed in the output of
/// `tasklist /FI "IMAGENAME eq explorer.exe" /FO CSV /NH`, in order.
pub fn parse_tasklist_pids(output: &str) -> (res: Vec<u32>)
    ensures
        res@ == tasklist_pids(output@),
{
    let v = chars_of(output);
    let lines = split_lines(&v);
    let ghost lv = char_views(lines@);
    let mut res: Vec<u32> = Vec::new();
    let mut i: usize = 0;
    while i < lines.len()
        invariant
            i <= lines@.len() == lv.len(),
            lv == char_views(lines@),
            res@ == pids_of_lines(lv.take(i as int)),
        decreases lines@.len() - i,
    {
        assert(lv.take(i + 1).drop_last() =~= lv.take(i as int));
        assert(lv.take(i + 1).last() == lines@[i as int]@);
        match parse_line_pid(&lines[i]) {
            Some(p) => {
                res.push(p);
            },
            None => {},
        }
        i = i + 1;
    }
    assert(lv.take(lines@.len() as int) =~= lv);
    res
}

/// The Windows directory: `WINDIR` when it is set, else `C:\Windows`.
pub fn windows_directory(windir: Option<String>) -> (res: String)
    ensures
        res@ == (match windir {
            Some(w) => w@,
            None => "C:\\Windows"@,
        }),
{
    match windir {
        Some(w) => w,
        None => String::from_str("C:\\Windows"),
    }
}

/// The Explorer executable inside the Windows directory `windir`.
pub fn explorer_executable(windir: &str) -> (res: String)
    ensures
        res@ == windir@ + "\\explorer.exe"@,
{
    let mut res = String::from_str(windir);
    res.append("\\explorer.exe");
    res
}

/// Where the registry key of `.png` is exported before it is recreated: a
/// file in `TEMP` when that is set, else in `C:\Windows\Temp`.
pub fn registry_backup_path(temp_dir: Option<String>) -> (res: String)
    ensures
        res@ == (match temp_dir {
            Some(t) => t@,
            None => "C:\\Windows\\Temp"@,
        }) + "\\icon_cache_backup.reg"@,
{
    let mut res = match temp_dir {
        Some(t) => t,
        None => String::from_str("C:\\Windows\\Temp"),
    };
    res.append("\\icon_cache_backup.reg");
    res
}

} // verus!
