//! Character-level text helpers shared by the rest of the library.
//!
//! Strings are modelled by their views, `Seq<char>`.  Each helper here mirrors
//! a piece of `str` behaviour that the daemon relies on (trimming, splitting on
//! a separator, line splitting, unsigned parsing, decimal printing) and states
//! that behaviour as a spec function.
use vstd::prelude::*;

verus! {

broadcast use vstd::string::group_string_axioms;

// ---------------------------------------------------------------------------
// Characters
// ---------------------------------------------------------------------------

/// Unicode `White_Space`, the set that `char::is_whitespace` (and so
/// `str::trim`) uses.
pub open spec fn is_whitespace(c: char) -> bool {
    let n = c as u32;
    ||| 0x09 <= n <= 0x0D
    ||| n == 0x20
    ||| n == 0x85
    ||| n == 0xA0
    ||| n == 0x1680
    ||| 0x2000 <= n <= 0x200A
    ||| n == 0x2028
    ||| n == 0x2029
    ||| n == 0x202F
    ||| n == 0x205F
    ||| n == 0x3000
}

/// The characters that a trim removes.
#[derive(Clone, Copy)]
pub enum TrimSet {
    /// Unicode whitespace, as `str::trim` removes.
    Whitespace,
    /// One given character, as `str::trim_matches(c)` removes.
    Only(char),
}

impl TrimSet {
    pub open spec fn holds(self, c: char) -> bool {
        match self {
            TrimSet::Whitespace => is_whitespace(c),
            TrimSet::Only(x) => c == x,
        }
    }

    /// Whether `c` belongs to this set.
    pub fn contains(&self, c: char) -> (res: bool)
        ensures
            res == self.holds(c),
    {
        match self {
            TrimSet::Whitespace => {
                let n = c as u32;
                (0x09 <= n && n <= 0x0D) || n == 0x20 || n == 0x85 || n == 0xA0 || n == 0x1680
                    || (0x2000 <= n && n <= 0x200A) || n == 0x2028 || n == 0x2029 || n == 0x202F
                    || n == 0x205F || n == 0x3000
            },
            TrimSet::Only(x) => c == *x,
        }
    }
}

// ---------------------------------------------------------------------------
// Trimming
// ---------------------------------------------------------------------------

/// `s` without its leading characters of `set`.
pub open spec fn strip_leading(s: Seq<char>, set: TrimSet) -> Seq<char>
    decreases s.len(),
{
    if s.len() > 0 && set.holds(s[0]) {
        strip_leading(s.drop_first(), set)
    } else {
        s
    }
}

/// `s` without its trailing characters of `set`.
pub open spec fn strip_trailing(s: Seq<char>, set: TrimSet) -> Seq<char>
    decreases s.len(),
{
    if s.len() > 0 && set.holds(s.last()) {
        strip_trailing(s.drop_last(), set)
    } else {
        s
    }
}

/// `s` without the characters of `set` at either end.
pub open spec fn strip_both(s: Seq<char>, set: TrimSet) -> Seq<char> {
    strip_trailing(strip_leading(s, set), set)
}

/// What `str::trim` gives back.
pub open spec fn trimmed(s: Seq<char>) -> Seq<char> {
    strip_both(s, TrimSet::Whitespace)
}

/// A stripped sequence does not end with a character of the set.
pub proof fn lemma_strip_trailing_end(s: Seq<char>, set: TrimSet)
    ensures
        strip_trailing(s, set).len() > 0 ==> !set.holds(strip_trailing(s, set).last()),
        strip_trailing(s, set).len() <= s.len(),
        strip_trailing(s, set) =~= s.subrange(0, strip_trailing(s, set).len() as int),
    decreases s.len(),
{
    if s.len() > 0 && set.holds(s.last()) {
        lemma_strip_trailing_end(s.drop_last(), set);
        let r = strip_trailing(s.drop_last(), set);
        assert(s.drop_last().subrange(0, r.len() as int) =~= s.subrange(0, r.len() as int));
    }
}

/// A stripped sequence does not start with a character of the set.
pub proof fn lemma_strip_leading_start(s: Seq<char>, set: TrimSet)
    ensures
        strip_leading(s, set).len() > 0 ==> !set.holds(strip_leading(s, set)[0]),
        strip_leading(s, set).len() <= s.len(),
        strip_leading(s, set) =~= s.subrange(
            s.len() - strip_leading(s, set).len(),
            s.len() as int,
        ),
    decreases s.len(),
{
    if s.len() > 0 && set.holds(s[0]) {
        lemma_strip_leading_start(s.drop_first(), set);
        let r = strip_leading(s.drop_first(), set);
        assert(s.drop_first().subrange(s.len() - 1 - r.len(), s.len() - 1) =~= s.subrange(
            s.len() - r.len(),
            s.len() as int,
        ));
    }
}

/// The characters of `v` without those of `set` at either end.
pub fn strip_chars(v: &Vec<char>, set: TrimSet) -> (res: Vec<char>)
    ensures
        res@ == strip_both(v@, set),
{
    let n = v.len();
    let mut i: usize = 0;
    assert(v@.subrange(0, n as int) =~= v@);
    while i < n && set.contains(v[i])
        invariant
            i <= n == v@.len(),
            strip_leading(v@, set) == strip_leading(v@.subrange(i as int, n as int), set),
        decreases n - i,
    {
        assert(v@.subrange(i as int, n as int).drop_first() =~= v@.subrange(
            i + 1,
            n as int,
        ));
        i = i + 1;
    }
    let mut j: usize = n;
    assert(v@.subrange(i as int, n as int) =~= v@.subrange(i as int, j as int));
    while j > i && set.contains(v[j - 1])
        invariant
            i <= j <= n == v@.len(),
            strip_leading(v@, set) == v@.subrange(i as int, n as int),
            strip_both(v@, set) == strip_trailing(v@.subrange(i as int, j as int), set),
        decreases j - i,
    {
        assert(v@.subrange(i as int, j as int).drop_last() =~= v@.subrange(
            i as int,
            j - 1,
        ));
        j = j - 1;
    }
    let mut res: Vec<char> = Vec::new();
    let mut k: usize = i;
    while k < j
        invariant
            i <= k <= j <= n == v@.len(),
            res@ =~= v@.subrange(i as int, k as int),
        decreases j - k,
    {
        res.push(v[k]);
        k = k + 1;
    }
    res
}

/// The characters of `v` without its trailing characters of `set`.
pub fn strip_trailing_chars(v: &Vec<char>, set: TrimSet) -> (res: Vec<char>)
    ensures
        res@ == strip_trailing(v@, set),
{
    let n = v.len();
    let mut j: usize = n;
    assert(v@.subrange(0, n as int) =~= v@);
    while j > 0 && set.contains(v[j - 1])
        invariant
            j <= n == v@.len(),
            strip_trailing(v@, set) == strip_trailing(v@.subrange(0, j as int), set),
        decreases j,
    {
        assert(v@.subrange(0, j as int).drop_last() =~= v@.subrange(0, j - 1));
        j = j - 1;
    }
    let mut res: Vec<char> = Vec::new();
    let mut k: usize = 0;
    while k < j
        invariant
            k <= j <= n == v@.len(),
            res@ =~= v@.subrange(0, k as int),
        decreases j - k,
    {
        res.push(v[k]);
        k = k + 1;
    }
    res
}

// ---------------------------------------------------------------------------
// Splitting
// ---------------------------------------------------------------------------

/// The character sequences held by a list of character vectors.
pub open spec fn char_views(vs: Seq<Vec<char>>) -> Seq<Seq<char>> {
    vs.map_values(|v: Vec<char>| v@)
}

/// The fields of `s` between occurrences of `sep`, as `str::split(sep)` yields
/// them: always at least one field, empty fields kept.
pub open spec fn split_on(s: Seq<char>, sep: char) -> Seq<Seq<char>>
    decreases s.len(),
{
    if s.len() == 0 {
        seq![Seq::<char>::empty()]
    } else {
        let prev = split_on(s.drop_last(), sep);
        if s.last() == sep {
            prev.push(Seq::<char>::empty())
        } else {
            prev.update(prev.len() - 1, prev.last().push(s.last()))
        }
    }
}

/// `split_on` never yields an empty list of fields.
pub proof fn lemma_split_on_nonempty(s: Seq<char>, sep: char)
    ensures
        split_on(s, sep).len() >= 1,
    decreases s.len(),
{
    if s.len() > 0 {
        lemma_split_on_nonempty(s.drop_last(), sep);
    }
}

/// The fields of `v` separated by `sep`.
pub fn split_chars(v: &Vec<char>, sep: char) -> (res: Vec<Vec<char>>)
    ensures
        char_views(res@) == split_on(v@, sep),
{
    let n = v.len();
    let mut fields: Vec<Vec<char>> = Vec::new();
    let mut cur: Vec<char> = Vec::new();
    let mut i: usize = 0;
    assert(v@.take(0) =~= Seq::<char>::empty());
    assert(char_views(fields@).push(cur@) =~= split_on(v@.take(0), sep));
    while i < n
        invariant
            i <= n == v@.len(),
            char_views(fields@).push(cur@) == split_on(v@.take(i as int), sep),
        decreases n - i,
    {
        let c = v[i];
        assert(v@.take(i + 1).drop_last() =~= v@.take(i as int));
        proof {
            lemma_split_on_nonempty(v@.take(i as int), sep);
        }
        let ghost prefix = v@.take(i + 1);
        assert(prefix.last() == c && prefix.len() > 0);
        let ghost before = char_views(fields@);
        if c == sep {
            let done = cur;
            fields.push(done);
            cur = Vec::new();
            assert(char_views(fields@) =~= before.push(done@));
            assert(char_views(fields@).push(cur@) =~= split_on(prefix, sep));
        } else {
            cur.push(c);
            assert(char_views(fields@) =~= before);
            assert(char_views(fields@).push(cur@) =~= split_on(prefix, sep));
        }
        i = i + 1;
    }
    assert(v@.take(n as int) =~= v@);
    let ghost before = char_views(fields@);
    let ghost last = cur@;
    fields.push(cur);
    assert(char_views(fields@) =~= before.push(last));
    fields
}

/// A line with the `'\r'` of a `"\r\n"` terminator removed.
pub open spec fn without_cr(line: Seq<char>) -> Seq<char> {
    if line.len() > 0 && line.last() == '\r' {
        line.drop_last()
    } else {
        line
    }
}

/// The lines of `s`, as `str::lines` yields them: split on `'\n'`, a `'\r'`
/// right before a `'\n'` dropped, and no empty last line after a final `'\n'`.
pub open spec fn lines_of(s: Seq<char>) -> Seq<Seq<char>> {
    let parts = split_on(s, '\n');
    let terminated = parts.drop_last().map_values(|p: Seq<char>| without_cr(p));
    if parts.last().len() == 0 {
        terminated
    } else {
        terminated.push(parts.last())
    }
}

/// The lines of `v`.
pub fn split_lines(v: &Vec<char>) -> (res: Vec<Vec<char>>)
    ensures
        char_views(res@) == lines_of(v@),
{
    let parts = split_chars(v, '\n');
    proof {
        lemma_split_on_nonempty(v@, '\n');
    }
    let ghost parts_view = char_views(parts@);
    let count = parts.len() - 1;
    let mut res: Vec<Vec<char>> = Vec::new();
    let mut i: usize = 0;
    while i < count
        invariant
            count + 1 == parts.len() == parts_view.len(),
            parts_view == char_views(parts@),
            i <= count,
            char_views(res@) =~= parts_view.take(i as int).map_values(
                |p: Seq<char>| without_cr(p),
            ),
        decreases count - i,
    {
        let part = &parts[i];
        let mut line: Vec<char> = part.clone();
        let len = line.len();
        if len > 0 && line[len - 1] == '\r' {
            line.pop();
        }
        assert(line@ == without_cr(parts_view[i as int]));
        let ghost before = char_views(res@);
        let ghost pushed = line@;
        res.push(line);
        assert(char_views(res@) =~= before.push(pushed));
        assert(parts_view.take(i + 1).map_values(|p: Seq<char>| without_cr(p))
            =~= parts_view.take(i as int).map_values(|p: Seq<char>| without_cr(p)).push(
            without_cr(parts_view[i as int]),
        ));
        i = i + 1;
    }
    assert(parts_view.take(count as int) =~= parts_view.drop_last());
    if parts[count].len() > 0 {
        let last = parts[count].clone();
        let ghost before = char_views(res@);
        res.push(last);
        assert(char_views(res@) =~= before.push(parts_view.last()));
    }
    res
}

// ---------------------------------------------------------------------------
// Replacing
// ---------------------------------------------------------------------------

/// `s` with every `from` replaced by `to` (`str::replace` with one-character
/// patterns).
pub open spec fn replace_char(s: Seq<char>, from: char, to: char) -> Seq<char> {
    s.map_values(|x: char| if x == from { to } else { x })
}

/// The characters of `v` with every `from` replaced by `to`.
pub fn replace_chars(v: &Vec<char>, from: char, to: char) -> (res: Vec<char>)
    ensures
        res@ == replace_char(v@, from, to),
{
    let mut res: Vec<char> = Vec::new();
    let mut i: usize = 0;
    while i < v.len()
        invariant
            i <= v@.len(),
            res@ =~= replace_char(v@.take(i as int), from, to),
        decreases v@.len() - i,
    {
        if v[i] == from {
            res.push(to);
        } else {
            res.push(v[i]);
        }
        assert(replace_char(v@.take(i + 1), from, to) =~= replace_char(v@.take(i as int), from, to).push(
            if v@[i as int] == from { to } else { v@[i as int] },
        ));
        i = i + 1;
    }
    assert(v@.take(v@.len() as int) =~= v@);
    res
}

/// `s` with each pair `c c` replaced by a single `c`, scanning from the left
/// without overlap (`str::replace` of the doubled character by the single one).
pub open spec fn collapse_pairs(s: Seq<char>, c: char) -> Seq<char>
    decreases s.len(),
{
    if s.len() == 0 {
        s
    } else if s.len() >= 2 && s[0] == c && s[1] == c {
        seq![c] + collapse_pairs(s.subrange(2, s.len() as int), c)
    } else {
        seq![s[0]] + collapse_pairs(s.drop_first(), c)
    }
}

/// The characters of `v` with each pair `c c` collapsed to `c`.
pub fn collapse_char_pairs(v: &Vec<char>, c: char) -> (res: Vec<char>)
    ensures
        res@ == collapse_pairs(v@, c),
{
    let n = v.len();
    let mut res: Vec<char> = Vec::new();
    let mut i: usize = 0;
    assert(v@.subrange(0, n as int) =~= v@);
    while i < n
        invariant
            i <= n == v@.len(),
            res@ + collapse_pairs(v@.subrange(i as int, n as int), c) == collapse_pairs(v@, c),
        decreases n - i,
    {
        let ghost rest = v@.subrange(i as int, n as int);
        let ghost before = res@;
        if i + 1 < n && v[i] == c && v[i + 1] == c {
            assert(rest.subrange(2, rest.len() as int) =~= v@.subrange(i + 2, n as int));
            res.push(c);
            assert(res@ + collapse_pairs(v@.subrange(i + 2, n as int), c) =~= before + (seq![c]
                + collapse_pairs(v@.subrange(i + 2, n as int), c)));
            i = i + 2;
        } else {
            assert(rest.drop_first() =~= v@.subrange(i + 1, n as int));
            res.push(v[i]);
            assert(res@ + collapse_pairs(v@.subrange(i + 1, n as int), c) =~= before + (seq![
                rest[0],
            ] + collapse_pairs(v@.subrange(i + 1, n as int), c)));
            i = i + 1;
        }
    }
    assert(v@.subrange(n as int, n as int) =~= Seq::<char>::empty());
    assert(res@ + Seq::<char>::empty() =~= res@);
    res
}

// ---------------------------------------------------------------------------
// Numbers
// ---------------------------------------------------------------------------

/// The decimal digit character of `d` (`d < 10`).
pub open spec fn digit_char(d: nat) -> char {
    (d + 48) as char
}

/// The decimal representation of `n`, without sign or leading zeros.
pub open spec fn decimal(n: nat) -> Seq<char>
    decreases n,
{
    if n < 10 {
        seq![digit_char(n)]
    } else {
        decimal(n / 10).push(digit_char(n % 10))
    }
}

fn digit_of(d: u64) -> (c: char)
    requires
        d < 10,
    ensures
        c == digit_char(d as nat),
{
    let b: u8 = d as u8 + 48u8;
    b as char
}

/// Appends the decimal representation of `n` to `out`.
pub fn push_decimal(out: &mut Vec<char>, n: u64)
    ensures
        final(out)@ == old(out)@ + decimal(n as nat),
    decreases n,
{
    if n >= 10 {
        push_decimal(out, n / 10);
    }
    let c = digit_of(n % 10);
    out.push(c);
    proof {
        if n >= 10 {
            assert(old(out)@ + decimal(n as nat) =~= old(out)@ + decimal((n / 10) as nat) + seq![
                c,
            ]);
        } else {
            assert(old(out)@ + decimal(n as nat) =~= old(out)@ + seq![c]);
        }
    }
}

/// Whether every character of `d` is an ASCII decimal digit.
pub open spec fn all_digits(d: Seq<char>) -> bool {
    forall|i: int| 0 <= i < d.len() ==> '0' <= #[trigger] d[i] <= '9'
}

/// The value of a string of decimal digits.
pub open spec fn digits_value(d: Seq<char>) -> int
    decreases d.len(),
{
    if d.len() == 0 {
        0
    } else {
        digits_value(d.drop_last()) * 10 + (d.last() as int - '0' as int)
    }
}

/// What `str::parse` gives back for an unsigned integer type whose largest
/// value is `max`: an optional `'+'`, then one or more ASCII digits whose
/// value does not exceed `max`; anything else is an error.
pub open spec fn parse_unsigned(s: Seq<char>, max: nat) -> Option<nat> {
    let d = if s.len() > 1 && s[0] == '+' {
        s.drop_first()
    } else {
        s
    };
    if d.len() > 0 && all_digits(d) && digits_value(d) <= max {
        Some(digits_value(d) as nat)
    } else {
        None
    }
}

/// A parsed value never exceeds the bound it was parsed against.
pub proof fn lemma_parse_unsigned_bound(s: Seq<char>, max: nat)
    ensures
        parse_unsigned(s, max) matches Some(x) ==> x <= max,
{
    let d = if s.len() > 1 && s[0] == '+' {
        s.drop_first()
    } else {
        s
    };
    if all_digits(d) {
        lemma_digits_value_prefix(d, 0);
    }
}

/// The value of a digit string is at least that of any prefix of it.
pub proof fn lemma_digits_value_prefix(d: Seq<char>, k: int)
    requires
        all_digits(d),
        0 <= k <= d.len(),
    ensures
        0 <= digits_value(d.take(k)) <= digits_value(d),
    decreases d.len(),
{
    if d.len() > 0 {
        assert(all_digits(d.drop_last()));
        if k == d.len() {
            assert(d.take(k) =~= d);
            lemma_digits_value_prefix(d.drop_last(), k - 1);
        } else {
            assert(d.drop_last().take(k) =~= d.take(k));
            lemma_digits_value_prefix(d.drop_last(), k);
            lemma_digits_value_prefix(d.drop_last(), d.len() - 1);
            assert(d.drop_last().take(d.len() - 1) =~= d.drop_last());
        }
    } else {
        assert(d.take(k) =~= d);
    }
}

/// The decimal representation of `n` is a non-empty string of digits whose
/// value is `n`.
pub proof fn lemma_decimal_digits(n: nat)
    ensures
        decimal(n).len() > 0,
        all_digits(decimal(n)),
        digits_value(decimal(n)) == n,
    decreases n,
{
    if n >= 10 {
        lemma_decimal_digits(n / 10);
        let p = decimal(n / 10);
        let s = decimal(n);
        assert(s == p.push(digit_char(n % 10)));
        assert(s.drop_last() =~= p);
        assert(s.last() == digit_char(n % 10));
        assert(digit_char(n % 10) as int == n % 10 + 48);
        assert('0' as int == 48);
        assert(digits_value(s) == digits_value(p) * 10 + (n % 10));
        assert forall|i: int| 0 <= i < s.len() implies '0' <= #[trigger] s[i] <= '9' by {
            if i < p.len() {
                assert(s[i] == p[i]);
            }
        }
    } else {
        assert(digit_char(n) as int == n + 48);
        assert('0' as int == 48);
        assert(decimal(n).drop_last() =~= Seq::<char>::empty());
        assert(decimal(n).last() == digit_char(n));
        assert(digits_value(decimal(n)) == digits_value(Seq::<char>::empty()) * 10 + n);
    }
}

/// Trimming leaves a string that starts and ends with non-whitespace unchanged.
pub proof fn lemma_trimmed_unchanged(s: Seq<char>)
    requires
        s.len() > 0,
        !is_whitespace(s[0]),
        !is_whitespace(s.last()),
    ensures
        trimmed(s) == s,
{
    assert(strip_leading(s, TrimSet::Whitespace) == s);
    assert(strip_trailing(s, TrimSet::Whitespace) == s);
}

/// A string without the separator is a single field.
pub proof fn lemma_split_on_without_sep(s: Seq<char>, sep: char)
    requires
        !s.contains(sep),
    ensures
        split_on(s, sep) == seq![s],
    decreases s.len(),
{
    if s.len() == 0 {
        assert(s =~= Seq::<char>::empty());
        assert(split_on(s, sep) =~= seq![s]);
    } else {
        assert(!s.drop_last().contains(sep)) by {
            if s.drop_last().contains(sep) {
                let i = choose|i: int| 0 <= i < s.drop_last().len() && s.drop_last()[i] == sep;
                assert(s[i] == sep);
            }
        }
        lemma_split_on_without_sep(s.drop_last(), sep);
        assert(s.last() != sep) by {
            assert(s[s.len() - 1] == s.last());
        }
        assert(s.drop_last().push(s.last()) =~= s);
        let prev = split_on(s.drop_last(), sep);
        assert(prev == seq![s.drop_last()]);
        assert(split_on(s, sep) == prev.update(prev.len() - 1, prev.last().push(s.last())));
        let r = split_on(s, sep);
        assert(prev.len() == 1 && prev.last() == s.drop_last());
        assert(r.len() == 1);
        assert(r[0] == s);
        assert(r =~= seq![s]);
    }
}

/// The decimal representation of a number up to `max` reads back as that
/// number.
pub proof fn lemma_parse_decimal(n: nat, max: nat)
    requires
        n <= max,
    ensures
        parse_unsigned(decimal(n), max) == Some(n),
        trimmed(decimal(n)) == decimal(n),
        forall|c: char| !('0' <= c <= '9') ==> !decimal(n).contains(c),
{
    lemma_decimal_digits(n);
    let s = decimal(n);
    assert('0' <= s[0] <= '9');
    assert('0' <= s[s.len() - 1] <= '9');
    lemma_trimmed_unchanged(s);
    assert forall|c: char| !('0' <= c <= '9') implies !s.contains(c) by {
        if s.contains(c) {
            let i = choose|i: int| 0 <= i < s.len() && s[i] == c;
            assert('0' <= s[i] <= '9');
        }
    }
}

/// Parses `v` as an unsigned integer no larger than `max`, as `str::parse`
/// does for an unsigned type whose largest value is `max`.
pub fn parse_unsigned_chars(v: &Vec<char>, max: u64) -> (res: Option<u64>)
    ensures
        res == (match parse_unsigned(v@, max as nat) {
            Some(x) => Some(x as u64),
            None => None,
        }),
        res matches Some(x) ==> x <= max,
{
    let n = v.len();
    let start: usize = if n > 1 && v[0] == '+' {
        1
    } else {
        0
    };
    let ghost d = if v@.len() > 1 && v@[0] == '+' {
        v@.drop_first()
    } else {
        v@
    };
    assert(d =~= v@.subrange(start as int, n as int));
    if start >= n {
        return None;
    }
    let mut acc: u64 = 0;
    let mut i: usize = start;
    assert(d.take(0) =~= Seq::<char>::empty());
    while i < n
        invariant
            start <= i <= n == v@.len(),
            d =~= v@.subrange(start as int, n as int),
            d == (if v@.len() > 1 && v@[0] == '+' {
                v@.drop_first()
            } else {
                v@
            }),
            forall|k: int| 0 <= k < i - start ==> '0' <= #[trigger] d[k] <= '9',
            acc as int == digits_value(d.take(i - start)),
            acc <= max,
        decreases n - i,
    {
        let c = v[i];
        if c < '0' || c > '9' {
            assert(d[i - start] == c);
            assert(!('0' <= d[i - start] <= '9'));
            assert(!all_digits(d));
            assert(parse_unsigned(v@, max as nat) is None);
            return None;
        }
        let dig: u64 = (c as u32 - '0' as u32) as u64;
        assert(d.take(i - start + 1).drop_last() =~= d.take(i - start));
        assert(digits_value(d.take(i - start + 1)) == acc * 10 + dig);
        if acc > max / 10 || (acc == max / 10 && dig > max % 10) {
            assert(acc * 10 + dig > max) by (nonlinear_arith)
                requires
                    acc > max / 10 || (acc == max / 10 && dig > max % 10),
            ;
            proof {
                if all_digits(d) {
                    lemma_digits_value_prefix(d, i - start + 1);
                }
            }
            return None;
        }
        acc = acc * 10 + dig;
        i = i + 1;
    }
    assert(d.take(n - start) =~= d);
    Some(acc)
}

// ---------------------------------------------------------------------------
// Padding and conversion
// ---------------------------------------------------------------------------

/// `n` spaces.
pub open spec fn spaces(n: nat) -> Seq<char> {
    Seq::new(n, |i: int| ' ')
}

/// `s` padded on the right with spaces to at least `width` characters, as
/// `{:<width$}` formats it.
pub open spec fn pad_right(s: Seq<char>, width: nat) -> Seq<char> {
    if s.len() >= width {
        s
    } else {
        s + spaces((width - s.len()) as nat)
    }
}

/// `s` padded on the left with spaces to at least `width` characters, as
/// `{:width$}` formats a number.
pub open spec fn pad_left(s: Seq<char>, width: nat) -> Seq<char> {
    if s.len() >= width {
        s
    } else {
        spaces((width - s.len()) as nat) + s
    }
}

/// Appends `n` spaces to `out`.
pub fn push_spaces(out: &mut Vec<char>, n: usize)
    ensures
        final(out)@ == old(out)@ + spaces(n as nat),
{
    let mut i: usize = 0;
    while i < n
        invariant
            i <= n,
            out@ =~= old(out)@ + spaces(i as nat),
        decreases n - i,
    {
        out.push(' ');
        i = i + 1;
    }
}

/// Appends `s`, padded on the right to `width` characters, to `out`.
pub fn push_padded_right(out: &mut Vec<char>, s: &Vec<char>, width: usize)
    ensures
        final(out)@ == old(out)@ + pad_right(s@, width as nat),
{
    let mut i: usize = 0;
    while i < s.len()
        invariant
            i <= s@.len(),
            out@ =~= old(out)@ + s@.take(i as int),
        decreases s@.len() - i,
    {
        out.push(s[i]);
        i = i + 1;
    }
    assert(s@.take(s@.len() as int) =~= s@);
    if s.len() < width {
        push_spaces(out, width - s.len());
    }
}

/// Appends the characters of `s` to `out`.
pub fn push_str(out: &mut Vec<char>, s: &str)
    ensures
        final(out)@ == old(out)@ + s@,
{
    for c in it: s.chars()
        invariant
            out@ == old(out)@ + it.seq().take(it.index() as int),
            it.seq() == s@,
    {
        out.push(c);
    }
    assert(s@.take(s@.len() as int) =~= s@);
}

/// Appends the characters of `s` to `out`.
pub fn push_chars(out: &mut Vec<char>, s: &Vec<char>)
    ensures
        final(out)@ == old(out)@ + s@,
{
    let mut i: usize = 0;
    while i < s.len()
        invariant
            i <= s@.len(),
            out@ =~= old(out)@ + s@.take(i as int),
        decreases s@.len() - i,
    {
        out.push(s[i]);
        i = i + 1;
    }
    assert(s@.take(s@.len() as int) =~= s@);
}

/// Whether `s` begins with `prefix` (`str::starts_with` with a string
/// pattern).
pub fn has_prefix(s: &str, prefix: &str) -> (res: bool)
    ensures
        res == prefix@.is_prefix_of(s@),
{
    let a = chars_of(s);
    let b = chars_of(prefix);
    if b.len() > a.len() {
        return false;
    }
    let mut i: usize = 0;
    while i < b.len()
        invariant
            a@ == s@,
            b@ == prefix@,
            b@.len() <= a@.len(),
            i <= b@.len(),
            forall|k: int| 0 <= k < i ==> b@[k] == a@[k],
        decreases b@.len() - i,
    {
        if a[i] != b[i] {
            assert(b@[i as int] != a@.subrange(0, b@.len() as int)[i as int]);
            assert(b@ != a@.subrange(0, b@.len() as int));
            assert(!prefix@.is_prefix_of(s@));
            return false;
        }
        i = i + 1;
    }
    assert(b@ =~= a@.subrange(0, b@.len() as int));
    true
}

/// Copies the characters of a string slice into a vector.
pub fn chars_of(s: &str) -> (res: Vec<char>)
    ensures
        res@ == s@,
{
    let mut res: Vec<char> = Vec::new();
    push_str(&mut res, s);
    res
}

/// Builds a `String` holding exactly the given characters.
///
/// Trusted: calls std's `String::from_iter` over the characters, which
/// concatenates them in order.
#[verifier::external_body]
pub(crate) fn string_of(chars: &Vec<char>) -> (res: String)
    ensures
        res@ == chars@,
{
    String::from_iter(chars.iter())
}

/// What std's `str::to_lowercase` gives back for a string with the given
/// characters (the Unicode lowercase mapping, which takes pages to state).
pub uninterp spec fn lowercase_of(s: Seq<char>) -> Seq<char>;

/// Lower-cases a string.
///
/// Trusted: calls std's `str::to_lowercase`; the contract claims only that its
/// result is a function of the characters of `s`, named `lowercase_of`.
#[verifier::external_body]
pub(crate) fn to_lowercase(s: &str) -> (res: String)
    ensures
        res@ == lowercase_of(s@),
{
    s.to_lowercase()
}

/// What `str::trim` gives back: `s` without leading or trailing whitespace.
pub fn trim(s: &str) -> (res: String)
    ensures
        res@ == trimmed(s@),
{
    let v = chars_of(s);
    let t = strip_chars(&v, TrimSet::Whitespace);
    string_of(&t)
}

} // verus!
