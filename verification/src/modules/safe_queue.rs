//! The safe queue: bloat directories found by a discovery scan are staged
//! here, with their sizes, until the user chooses which of them to purge.
use vstd::prelude::*;

use vstd::utf8::encode_utf8;

use crate::configuration::{is_clean_directory, lemma_collapse_without_pairs};
use crate::text::{
    char_views, lemma_parse_unsigned_bound, pad_left, pad_right, parse_unsigned,
    parse_unsigned_chars, push_chars, push_padded_right, push_spaces, split_chars, split_on, trim,
    chars_of, collapse_char_pairs, collapse_pairs, decimal, digit_char, lemma_decimal_digits,
    lemma_parse_decimal, lemma_split_on_without_sep, lemma_trimmed_unchanged, is_whitespace,
    lemma_strip_leading_start, lemma_strip_trailing_end, lowercase_of, push_decimal, push_str,
    replace_char, replace_chars, has_prefix, string_of, strip_chars, strip_leading, strip_trailing,
    strip_trailing_chars, to_lowercase, trimmed, TrimSet,
};

verus! {

// ---------------------------------------------------------------------------
// Queue data
// ---------------------------------------------------------------------------

/// One staged directory and the number of bytes of the files under it.
pub struct QueueItem {
    pub path: String,
    pub size_bytes: u64,
}

impl Clone for QueueItem {
    fn clone(&self) -> (res: Self)
        ensures
            res == *self,
    {
        QueueItem { path: self.path.clone(), size_bytes: self.size_bytes }
    }
}

impl Default for QueueItem {
    fn default() -> (res: Self)
        ensures
            res.path@ == Seq::<char>::empty(),
            res.size_bytes == 0,
    {
        QueueItem { path: String::new(), size_bytes: 0 }
    }
}

/// The staged directories, in the order in which they were found.
pub struct StagedQueue {
    pub items: Vec<QueueItem>,
}

impl Default for StagedQueue {
    fn default() -> (res: Self)
        ensures
            res.items@ == Seq::<QueueItem>::empty(),
    {
        StagedQueue { items: Vec::new() }
    }
}

// ---------------------------------------------------------------------------
// Human-readable sizes
// ---------------------------------------------------------------------------

/// `2^k`.
pub open spec fn two_pow(k: nat) -> nat
    decreases k,
{
    if k == 0 {
        1
    } else {
        2 * two_pow((k - 1) as nat)
    }
}

/// The number of low bits that do not fit in the 53-bit significand of an
/// `f64` when an integer of value `b` is converted to it.
pub open spec fn f64_dropped_bits(b: nat) -> nat
    decreases b,
{
    if b < 0x20_0000_0000_0000 {
        0
    } else {
        1 + f64_dropped_bits(b / 2)
    }
}

/// The value of `b as f64`: `b` rounded to the nearest integer whose
/// significand fits in 53 bits, ties to an even significand.
pub open spec fn nearest_f64(b: nat) -> nat {
    let p = two_pow(f64_dropped_bits(b));
    let q = b / p;
    let r = b % p;
    if 2 * r > p || (2 * r == p && q % 2 == 1) {
        (q + 1) * p
    } else {
        q * p
    }
}

/// `v * 100 / unit` rounded to the nearest integer, ties to even: the value
/// `v / unit` in hundredths as `{:.2}` prints it (the quotient of an `f64` by
/// a power of two is exact, and the formatter rounds the exact value).
pub open spec fn rounded_hundredths(v: nat, unit: nat) -> nat
    recommends
        unit > 0,
{
    let x = v * 100;
    let c = x / unit;
    let r = x % unit;
    if 2 * r > unit || (2 * r == unit && c % 2 == 1) {
        c + 1
    } else {
        c
    }
}

/// A number of hundredths printed with two decimals, such as `1.50`.
pub open spec fn two_decimals(c: nat) -> Seq<char> {
    decimal(c / 100) + seq!['.', digit_char((c % 100) / 10), digit_char(c % 10)]
}

pub open spec fn kib() -> nat {
    1024
}

pub open spec fn mib() -> nat {
    1024 * 1024
}

pub open spec fn gib() -> nat {
    1024 * 1024 * 1024
}

/// What `format_size` prints for `bytes`: whole bytes below one KiB, else the
/// size in the largest of GB, MB or KB (powers of 1024) that it reaches, with
/// two decimals.
pub open spec fn size_text(bytes: nat) -> Seq<char> {
    if bytes >= gib() {
        two_decimals(rounded_hundredths(nearest_f64(bytes), gib())) + " GB"@
    } else if bytes >= mib() {
        two_decimals(rounded_hundredths(nearest_f64(bytes), mib())) + " MB"@
    } else if bytes >= kib() {
        two_decimals(rounded_hundredths(nearest_f64(bytes), kib())) + " KB"@
    } else {
        decimal(bytes) + " B"@
    }
}

/// The hundredths that a size is printed with are the nearest to the exact
/// value: `c / 100` is within half a hundredth of `v / unit`.
pub proof fn lemma_rounded_hundredths_nearest(v: nat, unit: nat)
    requires
        unit > 0,
    ensures
        2 * (rounded_hundredths(v, unit) * unit) <= 2 * (v * 100) + unit,
        2 * (v * 100) <= 2 * (rounded_hundredths(v, unit) * unit) + unit,
{
    let x = v * 100;
    let c = x / unit;
    let r = x % unit;
    assert(x == c * unit + r && 0 <= r < unit) by (nonlinear_arith)
        requires
            unit > 0,
            c == x / unit,
            r == x % unit,
    ;
    assert((c + 1) * unit == c * unit + unit) by (nonlinear_arith);
}

proof fn lemma_small_is_exact(b: nat)
    requires
        b < 0x20_0000_0000_0000,
    ensures
        nearest_f64(b) == b,
{
    assert(f64_dropped_bits(b) == 0);
    assert(two_pow(0) == 1);
    assert(b / 1 == b && b % 1 == 0);
}

/// The value of `b as f64`, exactly.
fn nearest_f64_value(b: u64) -> (v: u128)
    ensures
        v == nearest_f64(b as nat),
        v <= 2 * (b as nat),
{
    let mut m: u64 = b;
    let mut p: u128 = 1;
    let ghost mut s: nat = 0;
    assert(b / 1 == b);
    while m >= 0x20_0000_0000_0000
        invariant
            p == two_pow(s),
            m == (b as nat) / (p as nat),
            f64_dropped_bits(b as nat) == s + f64_dropped_bits(m as nat),
            1 <= p <= b || s == 0,
            s == 0 ==> p == 1,
        decreases m,
    {
        proof {
            vstd::arithmetic::div_mod::lemma_div_denominator(b as int, p as int, 2);
            vstd::arithmetic::div_mod::lemma_fundamental_div_mod(b as int, (p * 2) as int);
            vstd::arithmetic::div_mod::lemma_mod_bound(b as int, (p * 2) as int);
            let bi = b as int;
            let p2 = (p * 2) as int;
            assert(bi / p2 == (m / 2) as int);
            assert(p2 * (bi / p2) <= bi);
            assert(p2 <= bi) by (nonlinear_arith)
                requires
                    p2 * (bi / p2) <= bi,
                    bi / p2 >= 1,
                    p2 >= 1,
            ;
        }
        m = m / 2;
        p = p * 2;
        proof {
            s = s + 1;
        }
    }
    let q: u128 = m as u128;
    proof {
        vstd::arithmetic::div_mod::lemma_fundamental_div_mod(b as int, p as int);
        vstd::arithmetic::div_mod::lemma_mod_bound(b as int, p as int);
        assert(q as int == (b as int) / (p as int));
        assert((q * p) as int == (p as int) * ((b as int) / (p as int))) by (nonlinear_arith)
            requires
                q as int == (b as int) / (p as int),
        ;
    }
    let r: u128 = b as u128 - q * p;
    assert(r == (b as nat) % (p as nat));
    assert(f64_dropped_bits(b as nat) == s);
    if 2 * r > p || (2 * r == p && q % 2 == 1) {
        assert((q + 1) * p == q * p + p) by (nonlinear_arith);
        (q + 1) * p
    } else {
        q * p
    }
}

/// The number of hundredths of `v / unit`, rounded as `{:.2}` rounds.
fn hundredths(v: u128, unit: u128) -> (c: u64)
    requires
        unit >= 1024,
        v <= 0x2_0000_0000_0000_0000,
    ensures
        c == rounded_hundredths(v as nat, unit as nat),
{
    let x: u128 = v * 100;
    let c: u128 = x / unit;
    let r: u128 = x % unit;
    proof {
        vstd::arithmetic::div_mod::lemma_fundamental_div_mod(x as int, unit as int);
        vstd::arithmetic::div_mod::lemma_mod_bound(x as int, unit as int);
        assert(c * 1024 <= x) by (nonlinear_arith)
            requires
                unit * c + r == x,
                r >= 0,
                unit >= 1024,
                c >= 0,
        ;
    }
    if 2 * r > unit || (2 * r == unit && c % 2 == 1) {
        (c + 1) as u64
    } else {
        c as u64
    }
}

/// Appends a number of hundredths with two decimals to `out`.
fn push_two_decimals(out: &mut Vec<char>, c: u64)
    ensures
        final(out)@ == old(out)@ + two_decimals(c as nat),
{
    push_decimal(out, c / 100);
    out.push('.');
    let tens: u8 = ((c % 100) / 10) as u8;
    let ones: u8 = (c % 10) as u8;
    out.push((tens + 48u8) as char);
    out.push((ones + 48u8) as char);
    assert(final(out)@ =~= old(out)@ + two_decimals(c as nat));
}

/// Renders a number of bytes for people: `"512 B"`, `"1.50 KB"`,
/// `"2.00 MB"`, `"1.25 GB"`.
pub fn format_size(bytes: u64) -> (res: String)
    ensures
        res@ == size_text(bytes as nat),
        bytes < 1024 ==> res@ == decimal(bytes as nat) + " B"@,
        1024 <= bytes < 1048576 ==> res@ == two_decimals(rounded_hundredths(bytes as nat, 1024))
            + " KB"@,
        1048576 <= bytes < 1073741824 ==> res@ == two_decimals(
            rounded_hundredths(bytes as nat, 1048576),
        ) + " MB"@,
        1073741824 <= bytes ==> res@ == two_decimals(
            rounded_hundredths(nearest_f64(bytes as nat), 1073741824),
        ) + " GB"@,
{
    let mut out: Vec<char> = Vec::new();
    if bytes >= 1024 * 1024 * 1024 {
        let v = nearest_f64_value(bytes);
        let c = hundredths(v, 1024 * 1024 * 1024);
        push_two_decimals(&mut out, c);
        push_str(&mut out, " GB");
    } else if bytes >= 1024 * 1024 {
        proof {
            lemma_small_is_exact(bytes as nat);
        }
        let c = hundredths(bytes as u128, 1024 * 1024);
        push_two_decimals(&mut out, c);
        push_str(&mut out, " MB");
    } else if bytes >= 1024 {
        proof {
            lemma_small_is_exact(bytes as nat);
        }
        let c = hundredths(bytes as u128, 1024);
        push_two_decimals(&mut out, c);
        push_str(&mut out, " KB");
    } else {
        push_decimal(&mut out, bytes);
        push_str(&mut out, " B");
    }
    assert(out@ =~= size_text(bytes as nat));
    string_of(&out)
}

} // verus!

verus! {

// ---------------------------------------------------------------------------
// Discovery scan
// ---------------------------------------------------------------------------

/// A scan root as the discovery scan cleans it: each `\\` pair becomes one
/// `\`, every `/` becomes `\`, surrounding whitespace is trimmed and trailing
/// `\` are dropped.
pub open spec fn cleaned_root(root: Seq<char>) -> Seq<char> {
    strip_trailing(
        trimmed(replace_char(collapse_pairs(root, '\\'), '/', '\\')),
        TrimSet::Only('\\'),
    )
}

/// Cleaning leaves a root that is already clean as it is: one without `/`,
/// without two `\` in a row, without a trailing `\` and without whitespace
/// at either end.
pub proof fn lemma_clean_root_unchanged(root: Seq<char>)
    requires
        is_clean_directory(root),
        root.len() > 0 ==> !is_whitespace(root[0]) && !is_whitespace(root.last()),
    ensures
        cleaned_root(root) == root,
{
    lemma_collapse_without_pairs(root, '\\');
    assert(replace_char(root, '/', '\\') =~= root) by {
        assert forall|i: int| 0 <= i < root.len() implies root[i] != '/' by {
            assert(root.contains(root[i]));
        }
    }
    if root.len() > 0 {
        lemma_trimmed_unchanged(root);
        assert(!TrimSet::Only('\\').holds(root.last()));
    } else {
        assert(trimmed(root) == root);
    }
}

/// Cleans a scan root; the result has no `/` and does not end with `\`.
pub fn clean_scan_root(root: &str) -> (res: String)
    ensures
        res@ == cleaned_root(root@),
        !res@.contains('/'),
        res@.len() > 0 ==> res@.last() != '\\',
{
    let v = chars_of(root);
    let a = collapse_char_pairs(&v, '\\');
    let b = replace_chars(&a, '/', '\\');
    let c = strip_chars(&b, TrimSet::Whitespace);
    let d = strip_trailing_chars(&c, TrimSet::Only('\\'));
    proof {
        assert forall|i: int| 0 <= i < b@.len() implies b@[i] != '/' by {}
        lemma_strip_leading_start(b@, TrimSet::Whitespace);
        let l = strip_leading(b@, TrimSet::Whitespace);
        lemma_strip_trailing_end(l, TrimSet::Whitespace);
        assert forall|i: int| 0 <= i < c@.len() implies c@[i] != '/' by {
            assert(c@[i] == l[i]);
            assert(l[i] == b@[b@.len() - l.len() + i]);
        }
        lemma_strip_trailing_end(c@, TrimSet::Only('\\'));
        assert forall|i: int| 0 <= i < d@.len() implies d@[i] != '/' by {
            assert(d@[i] == c@[i]);
        }
    }
    string_of(&d)
}

/// A nested target as its view holds it: the lower-cased names of an
/// entry's grandparent and parent, and a prefix of its own lower-cased name.
/// `("bin", "debug", "net")` stands for `bin/Debug/net*`.
pub type NestedTarget = (Seq<char>, Seq<char>, Seq<char>);

/// The directories a scan stages, compared after lower-casing: directories
/// with a target name, and directories placed as a nested target describes.
pub struct ScanTargets {
    names: Vec<String>,
    nested: Vec<(String, String, String)>,
}

/// The views of a list of nested targets.
pub open spec fn nested_views(v: Seq<(String, String, String)>) -> Seq<NestedTarget> {
    v.map_values(|t: (String, String, String)| (t.0@, t.1@, t.2@))
}

impl View for ScanTargets {
    /// The target names, and the nested targets.
    type V = (Set<Seq<char>>, Set<NestedTarget>);

    closed spec fn view(&self) -> (Set<Seq<char>>, Set<NestedTarget>) {
        (self.names@.map_values(|s: String| s@).to_set(), nested_views(self.nested@).to_set())
    }
}

/// Whether an entry named `name`, whose parent is named `parent` and whose
/// grandparent is named `grandparent` (all lower-cased), is placed as one of
/// the `nested` targets describes.
pub open spec fn matches_nested(
    nested: Set<NestedTarget>,
    grandparent: Seq<char>,
    parent: Seq<char>,
    name: Seq<char>,
) -> bool {
    exists|t: NestedTarget|
        #[trigger] nested.contains(t) && t.0 == grandparent && t.1 == parent && t.2.is_prefix_of(
            name,
        )
}

impl ScanTargets {
    /// No targets.
    pub fn new() -> (res: Self)
        ensures
            res@.0 == Set::<Seq<char>>::empty(),
            res@.1 == Set::<NestedTarget>::empty(),
    {
        let res = ScanTargets { names: Vec::new(), nested: Vec::new() };
        assert(res@.0 =~= Set::<Seq<char>>::empty());
        assert(res@.1 =~= Set::<NestedTarget>::empty());
        res
    }

    /// Whether `name` is one of the target names.
    pub fn contains(&self, name: &str) -> (res: bool)
        ensures
            res == self@.0.contains(name@),
    {
        let ghost views = self.names@.map_values(|s: String| s@);
        let wanted = String::from_str(name);
        let mut i: usize = 0;
        while i < self.names.len()
            invariant
                i <= self.names@.len(),
                views == self.names@.map_values(|s: String| s@),
                wanted@ == name@,
                forall|k: int| 0 <= k < i ==> views[k] != name@,
            decreases self.names@.len() - i,
        {
            if self.names[i] == wanted {
                assert(views[i as int] == name@);
                assert(views.contains(name@));
                return true;
            }
            i = i + 1;
        }
        assert(!views.contains(name@));
        false
    }

    /// Adds the target name `name`; says whether it was not a target name
    /// before, as `HashSet::insert` does.
    pub fn insert(&mut self, name: String) -> (res: bool)
        ensures
            res == !old(self)@.0.contains(name@),
            final(self)@.0 == old(self)@.0.insert(name@),
            final(self)@.1 == old(self)@.1,
    {
        if self.contains(name.as_str()) {
            assert(old(self)@.0.insert(name@) =~= old(self)@.0);
            false
        } else {
            let ghost before = self.names@.map_values(|s: String| s@);
            let ghost nv = name@;
            self.names.push(name);
            assert(self.names@.map_values(|s: String| s@) =~= before.push(nv));
            proof {
                Seq::lemma_to_set_insert_commutes(before, nv);
                assert(before.push(nv) =~= before + seq![nv]);
            }
            true
        }
    }

    /// Adds a nested target: directories whose name starts with `prefix`,
    /// inside a directory named `parent`, inside one named `grandparent`
    /// (all compared lower-cased).
    pub fn insert_nested(&mut self, grandparent: String, parent: String, prefix: String)
        ensures
            final(self)@.0 == old(self)@.0,
            final(self)@.1 == old(self)@.1.insert((grandparent@, parent@, prefix@)),
    {
        let ghost before = nested_views(self.nested@);
        let ghost tv = (grandparent@, parent@, prefix@);
        self.nested.push((grandparent, parent, prefix));
        assert(nested_views(self.nested@) =~= before.push(tv));
        proof {
            Seq::lemma_to_set_insert_commutes(before, tv);
            assert(before.push(tv) =~= before + seq![tv]);
        }
    }

    /// Whether an entry named `name` in a directory named `parent`, itself in
    /// one named `grandparent` (all lower-cased), is a nested target.
    pub fn matches_nested(&self, grandparent: &str, parent: &str, name: &str) -> (res: bool)
        ensures
            res == matches_nested(self@.1, grandparent@, parent@, name@),
    {
        let ghost views = nested_views(self.nested@);
        let g = String::from_str(grandparent);
        let p = String::from_str(parent);
        let mut i: usize = 0;
        while i < self.nested.len()
            invariant
                i <= self.nested@.len(),
                views == nested_views(self.nested@),
                g@ == grandparent@,
                p@ == parent@,
                forall|k: int|
                    0 <= k < i ==> !(#[trigger] views[k].0 == grandparent@ && views[k].1 == parent@
                        && views[k].2.is_prefix_of(name@)),
            decreases self.nested@.len() - i,
        {
            let t = &self.nested[i];
            if t.0 == g && t.1 == p && has_prefix(name, t.2.as_str()) {
                assert(views[i as int] == (t.0@, t.1@, t.2@));
                assert(views.contains(views[i as int]));
                assert(self@.1.contains(views[i as int]));
                return true;
            }
            i = i + 1;
        }
        assert forall|t: NestedTarget| #[trigger] self@.1.contains(t) implies !(t.0
            == grandparent@ && t.1 == parent@ && t.2.is_prefix_of(name@)) by {
            assert(views.contains(t));
            let k = choose|k: int| 0 <= k < views.len() && views[k] == t;
            assert(!(views[k].0 == grandparent@ && views[k].1 == parent@
                && views[k].2.is_prefix_of(name@)));
        }
        false
    }
}

/// What the discovery scan does with one directory entry.
#[derive(Clone, Copy, PartialEq, Eq, Structural)]
pub enum ScanAction {
    /// The entry is a bloat directory: stage it with its size.
    Stage,
    /// The entry is another directory: scan inside it.
    Descend,
    /// The entry is not a directory: pass over it.
    Skip,
}

/// What the discovery scan does with an entry, given its kind, its
/// lower-cased name and those of its parent and grandparent (each absent when
/// there is none or it is not valid Unicode): a directory, or a link to one,
/// is staged when its name is a target name or it is placed as a nested
/// target describes, and scanned otherwise; anything else is passed over.
pub open spec fn scan_action_for(
    is_dir: bool,
    is_symlink: bool,
    resolves_to_dir: bool,
    lowered: Option<Seq<char>>,
    lowered_parent: Option<Seq<char>>,
    lowered_grandparent: Option<Seq<char>>,
    targets: (Set<Seq<char>>, Set<NestedTarget>),
) -> ScanAction {
    if is_dir || (is_symlink && resolves_to_dir) {
        match lowered {
            Some(n) => if targets.0.contains(n) || (match (lowered_grandparent, lowered_parent) {
                (Some(g), Some(p)) => matches_nested(targets.1, g, p, n),
                _ => false,
            }) {
                ScanAction::Stage
            } else {
                ScanAction::Descend
            },
            None => ScanAction::Descend,
        }
    } else {
        ScanAction::Skip
    }
}

/// How the discovery scan treats an entry: it passes over exactly the
/// entries that are neither directories nor links that resolve to one; a
/// link that resolves to a directory is handled exactly as a directory; a
/// directory without a readable name is scanned; one with a name is staged
/// exactly when the name is a target name or a nested target matches it.
pub proof fn lemma_scan_action_cases(
    is_dir: bool,
    is_symlink: bool,
    resolves_to_dir: bool,
    lowered: Option<Seq<char>>,
    lowered_parent: Option<Seq<char>>,
    lowered_grandparent: Option<Seq<char>>,
    targets: (Set<Seq<char>>, Set<NestedTarget>),
)
    ensures
        (scan_action_for(
            is_dir,
            is_symlink,
            resolves_to_dir,
            lowered,
            lowered_parent,
            lowered_grandparent,
            targets,
        ) == ScanAction::Skip) <==> !(is_dir || (is_symlink && resolves_to_dir)),
        scan_action_for(false, true, true, lowered, lowered_parent, lowered_grandparent, targets)
            == scan_action_for(true, false, false, lowered, lowered_parent, lowered_grandparent, targets),
        is_dir || (is_symlink && resolves_to_dir) ==> scan_action_for(
            is_dir,
            is_symlink,
            resolves_to_dir,
            lowered,
            lowered_parent,
            lowered_grandparent,
            targets,
        ) == scan_action_for(true, false, false, lowered, lowered_parent, lowered_grandparent, targets),
        lowered is None ==> scan_action_for(
            true,
            false,
            false,
            lowered,
            lowered_parent,
            lowered_grandparent,
            targets,
        ) == ScanAction::Descend,
        lowered is Some ==> ((scan_action_for(
            true,
            false,
            false,
            lowered,
            lowered_parent,
            lowered_grandparent,
            targets,
        ) == ScanAction::Stage) <==> (targets.0.contains(lowered->0) || (lowered_parent is Some
            && lowered_grandparent is Some && matches_nested(
            targets.1,
            lowered_grandparent->0,
            lowered_parent->0,
            lowered->0,
        )))),
{
}

/// The view of an optional string slice.
pub open spec fn opt_view(s: Option<&str>) -> Option<Seq<char>> {
    match s {
        Some(n) => Some(n@),
        None => None,
    }
}

/// The lower-cased view of an optional string slice.
pub open spec fn opt_lowered(s: Option<&str>) -> Option<Seq<char>> {
    match s {
        Some(n) => Some(lowercase_of(n@)),
        None => None,
    }
}

/// What the discovery scan does with an entry whose name, and those of its
/// parent and grandparent, are already lower-cased.
pub fn scan_entry_action_lowered(
    is_dir: bool,
    is_symlink: bool,
    resolves_to_dir: bool,
    lowered: Option<&str>,
    lowered_parent: Option<&str>,
    lowered_grandparent: Option<&str>,
    targets: &ScanTargets,
) -> (res: ScanAction)
    ensures
        res == scan_action_for(
            is_dir,
            is_symlink,
            resolves_to_dir,
            opt_view(lowered),
            opt_view(lowered_parent),
            opt_view(lowered_grandparent),
            targets@,
        ),
        (res == ScanAction::Skip) <==> !(is_dir || (is_symlink && resolves_to_dir)),
        is_symlink && resolves_to_dir ==> res == scan_action_for(
            true,
            false,
            false,
            opt_view(lowered),
            opt_view(lowered_parent),
            opt_view(lowered_grandparent),
            targets@,
        ),
        (is_dir || (is_symlink && resolves_to_dir)) && lowered is None ==> res
            == ScanAction::Descend,
        (is_dir || (is_symlink && resolves_to_dir)) && lowered is Some ==> ((res
            == ScanAction::Stage) <==> (targets@.0.contains(lowered->0@) || (lowered_parent is Some
            && lowered_grandparent is Some && matches_nested(
            targets@.1,
            lowered_grandparent->0@,
            lowered_parent->0@,
            lowered->0@,
        )))),
{
    proof {
        lemma_scan_action_cases(
            is_dir,
            is_symlink,
            resolves_to_dir,
            opt_view(lowered),
            opt_view(lowered_parent),
            opt_view(lowered_grandparent),
            targets@,
        );
    }
    if is_dir || (is_symlink && resolves_to_dir) {
        match lowered {
            Some(n) => {
                let nested = match (lowered_grandparent, lowered_parent) {
                    (Some(g), Some(p)) => targets.matches_nested(g, p, n),
                    _ => false,
                };
                if targets.contains(n) || nested {
                    ScanAction::Stage
                } else {
                    ScanAction::Descend
                }
            },
            None => ScanAction::Descend,
        }
    } else {
        ScanAction::Skip
    }
}

/// Lower-cases an optional name.
fn lower_opt(name: Option<&str>) -> (res: Option<String>)
    ensures
        match res {
            Some(s) => opt_lowered(name) == Some(s@),
            None => name is None,
        },
{
    match name {
        Some(n) => Some(to_lowercase(n)),
        None => None,
    }
}

/// The view of an optional `String`, as an optional string slice.
fn as_opt_str(s: &Option<String>) -> (res: Option<&str>)
    ensures
        opt_view(res) == match s {
            Some(x) => Some(x@),
            None => None::<Seq<char>>,
        },
{
    match s {
        Some(x) => Some(x.as_str()),
        None => None,
    }
}

/// What the discovery scan does with a directory entry of the given kind,
/// name, parent name and grandparent name: the names are lower-cased before
/// they are compared with the targets.
pub fn scan_entry_action(
    is_dir: bool,
    is_symlink: bool,
    resolves_to_dir: bool,
    name: Option<&str>,
    parent: Option<&str>,
    grandparent: Option<&str>,
    targets: &ScanTargets,
) -> (res: ScanAction)
    ensures
        res == scan_action_for(
            is_dir,
            is_symlink,
            resolves_to_dir,
            opt_lowered(name),
            opt_lowered(parent),
            opt_lowered(grandparent),
            targets@,
        ),
        (res == ScanAction::Skip) <==> !(is_dir || (is_symlink && resolves_to_dir)),
        is_symlink && resolves_to_dir ==> res == scan_action_for(
            true,
            false,
            false,
            opt_lowered(name),
            opt_lowered(parent),
            opt_lowered(grandparent),
            targets@,
        ),
        (is_dir || (is_symlink && resolves_to_dir)) && name is None ==> res == ScanAction::Descend,
        (is_dir || (is_symlink && resolves_to_dir)) && name is Some ==> ((res == ScanAction::Stage)
            <==> (targets@.0.contains(lowercase_of(name->0@)) || (parent is Some && grandparent is Some
            && matches_nested(
            targets@.1,
            lowercase_of(grandparent->0@),
            lowercase_of(parent->0@),
            lowercase_of(name->0@),
        )))),
{
    proof {
        lemma_scan_action_cases(
            is_dir,
            is_symlink,
            resolves_to_dir,
            opt_lowered(name),
            opt_lowered(parent),
            opt_lowered(grandparent),
            targets@,
        );
    }
    let n = lower_opt(name);
    let p = lower_opt(parent);
    let g = lower_opt(grandparent);
    scan_entry_action_lowered(
        is_dir,
        is_symlink,
        resolves_to_dir,
        as_opt_str(&n),
        as_opt_str(&p),
        as_opt_str(&g),
        targets,
    )
}

/// What the size count does with one entry under a staged directory.
#[derive(Clone, Copy, PartialEq, Eq, Structural)]
pub enum SizeAction {
    /// A link: not followed and not counted.
    Skip,
    /// A directory: its size is counted too.
    Descend,
    /// A file: its length is counted.
    Count,
}

/// Links are passed over, directories counted through, files counted.
pub fn size_entry_action(is_symlink: bool, is_dir: bool) -> (res: SizeAction)
    ensures
        is_symlink ==> res == SizeAction::Skip,
        !is_symlink && is_dir ==> res == SizeAction::Descend,
        !is_symlink && !is_dir ==> res == SizeAction::Count,
{
    if is_symlink {
        SizeAction::Skip
    } else if is_dir {
        SizeAction::Descend
    } else {
        SizeAction::Count
    }
}

/// Adds the size of one entry to the running size of a staged directory;
/// `None` when the sum does not fit in a `u64`.
pub fn add_entry_size(total: u64, size: u64) -> (res: Option<u64>)
    ensures
        res matches Some(t) ==> t == total + size,
        res is None <==> total + size > u64::MAX,
{
    if size > u64::MAX - total {
        None
    } else {
        Some(total + size)
    }
}

/// The sum of the sizes of `items`.
pub open spec fn total_size(items: Seq<QueueItem>) -> nat
    decreases items.len(),
{
    if items.len() == 0 {
        0
    } else {
        total_size(items.drop_last()) + items.last().size_bytes as nat
    }
}

/// The total of one item is its size, and the total of two queues one after
/// the other is the sum of their totals.
pub proof fn lemma_total_size_additive(a: Seq<QueueItem>, b: Seq<QueueItem>, item: QueueItem)
    ensures
        total_size(seq![item]) == item.size_bytes,
        total_size(a + b) == total_size(a) + total_size(b),
    decreases b.len(),
{
    assert(seq![item].drop_last() =~= Seq::<QueueItem>::empty());
    assert(seq![item].last() == item);
    assert(total_size(Seq::<QueueItem>::empty()) == 0);
    if b.len() == 0 {
        assert(a + b =~= a);
    } else {
        lemma_total_size_additive(a, b.drop_last(), item);
        assert((a + b).drop_last() =~= a + b.drop_last());
        assert((a + b).last() == b.last());
    }
}

/// The state of a discovery scan: the queue built so far and the total
/// number of bytes staged.
pub struct DiscoveryScan {
    pub queue: StagedQueue,
    pub total_bloat_bytes: u64,
}

impl DiscoveryScan {
    /// The total is the sum of the staged sizes.
    pub open spec fn wf(&self) -> bool {
        self.total_bloat_bytes == total_size(self.queue.items@)
    }

    /// A scan that has staged nothing.
    pub fn new() -> (res: Self)
        ensures
            res.wf(),
            res.queue.items@ == Seq::<QueueItem>::empty(),
            res.total_bloat_bytes == 0,
    {
        DiscoveryScan { queue: StagedQueue::default(), total_bloat_bytes: 0 }
    }

    /// Stages a found directory with its size; the total grows by that size.
    pub fn stage(&mut self, path: String, size_bytes: u64)
        requires
            old(self).wf(),
            old(self).total_bloat_bytes + size_bytes <= u64::MAX,
        ensures
            final(self).wf(),
            final(self).queue.items@ == old(self).queue.items@.push(
                QueueItem { path, size_bytes },
            ),
            final(self).total_bloat_bytes == old(self).total_bloat_bytes + size_bytes,
    {
        let ghost before = self.queue.items@;
        self.queue.items.push(QueueItem { path, size_bytes });
        self.total_bloat_bytes = self.total_bloat_bytes + size_bytes;
        assert(self.queue.items@.drop_last() =~= before);
    }

    /// Whether staging `size_bytes` more keeps the total within `u64`.
    pub fn can_stage(&self, size_bytes: u64) -> (res: bool)
        ensures
            res == (self.total_bloat_bytes + size_bytes <= u64::MAX),
    {
        size_bytes <= u64::MAX - self.total_bloat_bytes
    }
}

/// What follows a finished discovery scan.
#[derive(Clone, Copy, PartialEq, Eq, Structural)]
pub enum ScanFollowUp {
    /// A background scan found nothing: tell the user so.
    NotifyNothingFound,
    /// A background scan staged bloat: open a console on the purge prompt.
    OpenPurgeConsole,
    /// A scan from the command line: print the report.
    PrintReport,
}

/// A background scan notifies the user when it found nothing and opens the
/// purge prompt otherwise; a command-line scan prints its report.
pub fn scan_follow_up(is_background: bool, staged_count: usize) -> (res: ScanFollowUp)
    ensures
        is_background && staged_count == 0 ==> res == ScanFollowUp::NotifyNothingFound,
        is_background && staged_count > 0 ==> res == ScanFollowUp::OpenPurgeConsole,
        !is_background ==> res == ScanFollowUp::PrintReport,
{
    if is_background {
        if staged_count == 0 {
            ScanFollowUp::NotifyNothingFound
        } else {
            ScanFollowUp::OpenPurgeConsole
        }
    } else {
        ScanFollowUp::PrintReport
    }
}

/// The report printed at the end of a scan run from the command line.
pub open spec fn bloat_alert_text(total: nat, count: nat) -> Seq<char> {
    "\n[WinSentry Bloat Alert]: Found "@ + size_text(total) + " of bloat in "@ + decimal(count)
        + " projects."@
}

/// The report of a finished command-line scan.
pub fn bloat_alert(scan: &DiscoveryScan) -> (res: String)
    ensures
        res@ == bloat_alert_text(
            scan.total_bloat_bytes as nat,
            scan.queue.items@.len(),
        ),
{
    let mut out: Vec<char> = Vec::new();
    push_str(&mut out, "\n[WinSentry Bloat Alert]: Found ");
    let size = format_size(scan.total_bloat_bytes);
    push_str(&mut out, size.as_str());
    push_str(&mut out, " of bloat in ");
    push_decimal(&mut out, scan.queue.items.len() as u64);
    push_str(&mut out, " projects.");
    assert(out@ =~= bloat_alert_text(scan.total_bloat_bytes as nat, scan.queue.items@.len()));
    string_of(&out)
}

} // verus!

verus! {

// ---------------------------------------------------------------------------
// Interactive purge: the listing
// ---------------------------------------------------------------------------

/// The number of bytes of a staged path in UTF-8, as `str::len` counts them.
pub open spec fn path_len(item: QueueItem) -> nat {
    (encode_utf8(item.path@).len() as usize) as nat
}

/// The longest staged path, in bytes (0 for no items).
pub open spec fn longest_path(items: Seq<QueueItem>) -> nat
    decreases items.len(),
{
    if items.len() == 0 {
        0
    } else {
        let prev = longest_path(items.drop_last());
        if path_len(items.last()) > prev {
            path_len(items.last())
        } else {
            prev
        }
    }
}

/// The longest path is at least as long as every path of the queue and, for
/// a queue that is not empty, as long as one of them.
pub proof fn lemma_longest_path_bounds(items: Seq<QueueItem>)
    ensures
        forall|i: int| 0 <= i < items.len() ==> longest_path(items) >= #[trigger] path_len(items[i]),
        items.len() > 0 ==> exists|i: int|
            0 <= i < items.len() && longest_path(items) == #[trigger] path_len(items[i]),
    decreases items.len(),
{
    if items.len() > 0 {
        let prev = items.drop_last();
        lemma_longest_path_bounds(prev);
        assert forall|i: int| 0 <= i < items.len() implies longest_path(items) >= #[trigger] path_len(
            items[i],
        ) by {
            if i < prev.len() {
                assert(items[i] == prev[i]);
            }
        }
        let last = items.len() - 1;
        if path_len(items.last()) > longest_path(prev) || prev.len() == 0 {
            assert(longest_path(items) == path_len(items[last]));
        } else {
            let j = choose|j: int| 0 <= j < prev.len() && longest_path(prev) == path_len(prev[j]);
            assert(items[j] == prev[j]);
            assert(longest_path(items) == path_len(items[j]));
        }
    }
}

/// The width of the path column: the longest path in bytes, or 30 when the
/// queue is empty.
pub fn max_path_len(items: &Vec<QueueItem>) -> (res: usize)
    ensures
        res == (if items@.len() == 0 {
            30
        } else {
            longest_path(items@)
        }),
        forall|i: int| 0 <= i < items@.len() ==> res >= #[trigger] path_len(items@[i]),
        items@.len() > 0 ==> exists|i: int|
            0 <= i < items@.len() && res == #[trigger] path_len(items@[i]),
{
    proof {
        lemma_longest_path_bounds(items@);
    }
    if items.len() == 0 {
        return 30;
    }
    let mut best: usize = 0;
    let mut i: usize = 0;
    while i < items.len()
        invariant
            i <= items@.len(),
            best == longest_path(items@.take(i as int)),
        decreases items@.len() - i,
    {
        assert(items@.take(i + 1).drop_last() =~= items@.take(i as int));
        let l = items[i].path.as_str().len();
        if l > best {
            best = l;
        }
        i = i + 1;
    }
    assert(items@.take(items@.len() as int) =~= items@);
    best
}

/// The total size of the queue, when it fits in a `u64`.
pub fn queue_total_bytes(items: &Vec<QueueItem>) -> (res: Option<u64>)
    ensures
        res matches Some(t) ==> t == total_size(items@),
        res is None <==> total_size(items@) > u64::MAX,
{
    let mut total: u64 = 0;
    let mut i: usize = 0;
    while i < items.len()
        invariant
            i <= items@.len(),
            total == total_size(items@.take(i as int)),
        decreases items@.len() - i,
    {
        assert(items@.take(i + 1).drop_last() =~= items@.take(i as int));
        let s = items[i].size_bytes;
        if s > u64::MAX - total {
            proof {
                lemma_total_size_prefix(items@, i + 1);
            }
            return None;
        }
        total = total + s;
        i = i + 1;
    }
    assert(items@.take(items@.len() as int) =~= items@);
    Some(total)
}

/// The total size of a prefix never exceeds that of the whole.
pub proof fn lemma_total_size_prefix(items: Seq<QueueItem>, k: int)
    requires
        0 <= k <= items.len(),
    ensures
        total_size(items.take(k)) <= total_size(items),
    decreases items.len(),
{
    if k == items.len() {
        assert(items.take(k) =~= items);
    } else {
        assert(items.drop_last().take(k) =~= items.take(k));
        lemma_total_size_prefix(items.drop_last(), k);
    }
}

/// One line of the listing: `[ ] ` then the 1-based number right-aligned in
/// two columns, `. `, the path left-aligned in `width` columns, and the size
/// in parentheses.
pub open spec fn queue_line_text(number: nat, item: QueueItem, width: nat) -> Seq<char> {
    "[ ] "@ + pad_left(decimal(number), 2) + ". "@ + pad_right(item.path@, width) + " ("@
        + size_text(item.size_bytes as nat) + ")"@
}

/// The listing line of the item at 0-based position `index`.
pub fn queue_line(index: usize, item: &QueueItem, width: usize) -> (res: String)
    requires
        index < usize::MAX,
    ensures
        res@ == queue_line_text(index as nat + 1, *item, width as nat),
{
    let mut out: Vec<char> = Vec::new();
    push_str(&mut out, "[ ] ");
    let mut num: Vec<char> = Vec::new();
    push_decimal(&mut num, (index + 1) as u64);
    if num.len() < 2 {
        push_spaces(&mut out, 2 - num.len());
    }
    push_chars(&mut out, &num);
    push_str(&mut out, ". ");
    let path = chars_of(item.path.as_str());
    push_padded_right(&mut out, &path, width);
    push_str(&mut out, " (");
    let size = format_size(item.size_bytes);
    push_str(&mut out, size.as_str());
    push_str(&mut out, ")");
    assert(out@ =~= queue_line_text(index as nat + 1, *item, width as nat));
    string_of(&out)
}

/// The total line under the listing: `width` spaces, ` Total: ` and the size.
pub open spec fn total_line_text(total: nat, width: nat) -> Seq<char> {
    pad_right(Seq::empty(), width) + " Total: "@ + size_text(total)
}

/// The total line under the listing.
pub fn total_line(total: u64, width: usize) -> (res: String)
    ensures
        res@ == total_line_text(total as nat, width as nat),
{
    let mut out: Vec<char> = Vec::new();
    push_spaces(&mut out, width);
    push_str(&mut out, " Total: ");
    let size = format_size(total);
    push_str(&mut out, size.as_str());
    assert(out@ =~= total_line_text(total as nat, width as nat));
    string_of(&out)
}

// ---------------------------------------------------------------------------
// Interactive purge: the selection
// ---------------------------------------------------------------------------

/// The 0-based indices named by the comma-separated `fields` of an answer,
/// in the order given: each field, trimmed, read as a `usize` number from 1
/// to `len`; other fields are ignored.
pub open spec fn requested_indices(fields: Seq<Seq<char>>, len: nat) -> Seq<usize>
    decreases fields.len(),
{
    if fields.len() == 0 {
        Seq::empty()
    } else {
        let prev = requested_indices(fields.drop_last(), len);
        match parse_unsigned(trimmed(fields.last()), usize::MAX as nat) {
            Some(n) => if 0 < n <= len {
                prev.push((n - 1) as usize)
            } else {
                prev
            },
            None => prev,
        }
    }
}

/// Every index of a queue of `len` items, in order.
pub open spec fn all_indices(len: nat) -> Seq<usize> {
    Seq::new(len, |i: int| i as usize)
}

/// The indices that a normalised answer selects: all of them for `all`,
/// else those the comma-separated numbers name.
pub open spec fn chosen_indices(answer: Seq<char>, len: nat) -> Seq<usize> {
    if answer == "all"@ {
        all_indices(len)
    } else {
        requested_indices(split_on(answer, ','), len)
    }
}

/// Whether a normalised answer cancels the purge: `q` or nothing.
pub open spec fn is_cancel(answer: Seq<char>) -> bool {
    answer == "q"@ || answer.len() == 0
}

/// Whether `s` is in non-increasing order.
pub open spec fn sorted_descending(s: Seq<usize>) -> bool {
    forall|i: int, j: int| 0 <= i < j < s.len() ==> s[i] >= s[j]
}

/// Whether a comma-separated field of an answer, trimmed, reads as the
/// number `n` under `str::parse::<usize>`.
pub open spec fn field_names_number(field: Seq<char>, n: nat) -> bool {
    parse_unsigned(trimmed(field), usize::MAX as nat) == Some(n)
}

/// What the user chose at the purge prompt.
pub enum PurgeSelection {
    /// `q` or an empty answer: nothing is removed.
    Cancel,
    /// No number in the answer names an item.
    Invalid,
    /// The indices to remove, largest first.
    Remove(Vec<usize>),
}

/// `sel` is what the normalised `answer` selects from a queue of `len`
/// items: the chosen indices, sorted from the largest down.
pub open spec fn selection_matches(sel: PurgeSelection, answer: Seq<char>, len: nat) -> bool {
    if is_cancel(answer) {
        sel is Cancel
    } else if chosen_indices(answer, len).len() == 0 {
        sel is Invalid
    } else {
        &&& sel matches PurgeSelection::Remove(v)
        &&& sorted_descending(v@)
        &&& v@.to_multiset() == chosen_indices(answer, len).to_multiset()
        &&& forall|i: int| 0 <= i < v@.len() ==> #[trigger] v@[i] < len
    }
}

/// Every index that an answer selects names an item of the queue.
pub proof fn lemma_chosen_indices_in_range(answer: Seq<char>, len: nat)
    ensures
        forall|i: int|
            0 <= i < chosen_indices(answer, len).len() ==> #[trigger] chosen_indices(answer, len)[i]
                < len,
{
    if answer != "all"@ {
        lemma_requested_in_range(split_on(answer, ','), len);
    }
}

proof fn lemma_requested_in_range(fields: Seq<Seq<char>>, len: nat)
    ensures
        forall|i: int|
            0 <= i < requested_indices(fields, len).len() ==> #[trigger] requested_indices(
                fields,
                len,
            )[i] < len,
    decreases fields.len(),
{
    if fields.len() > 0 {
        lemma_requested_in_range(fields.drop_last(), len);
        let prev = requested_indices(fields.drop_last(), len);
        assert forall|i: int|
            0 <= i < requested_indices(fields, len).len() implies #[trigger] requested_indices(
            fields,
            len,
        )[i] < len by {
            if i < prev.len() {
                assert(requested_indices(fields, len)[i] == prev[i]);
            }
        }
    }
}

/// Inserting into a sequence adds one occurrence to its multiset.
proof fn lemma_insert_multiset(s: Seq<usize>, pos: int, x: usize)
    requires
        0 <= pos <= s.len(),
    ensures
        s.insert(pos, x).to_multiset() =~= s.to_multiset().insert(x),
{
    broadcast use vstd::seq_lib::group_to_multiset_ensures;
    broadcast use vstd::multiset::group_multiset_axioms;

    let t = s.insert(pos, x);
    assert(t.remove(pos) =~= s);
    assert(t[pos] == x);
    assert(t.contains(x));
    assert(t.to_multiset().count(x) > 0);
    assert(s.to_multiset() =~= t.to_multiset().remove(x));
}

/// The values of `v`, sorted from the largest down.
pub fn sort_descending(v: &Vec<usize>) -> (res: Vec<usize>)
    ensures
        sorted_descending(res@),
        res@.to_multiset() == v@.to_multiset(),
{
    broadcast use vstd::seq_lib::group_to_multiset_ensures;

    let mut res: Vec<usize> = Vec::new();
    let mut i: usize = 0;
    assert(v@.take(0) =~= Seq::<usize>::empty());
    while i < v.len()
        invariant
            i <= v@.len(),
            sorted_descending(res@),
            res@.to_multiset() =~= v@.take(i as int).to_multiset(),
        decreases v@.len() - i,
    {
        let x = v[i];
        let mut pos: usize = 0;
        while pos < res.len() && res[pos] >= x
            invariant
                pos <= res@.len(),
                forall|k: int| 0 <= k < pos ==> res@[k] >= x,
            decreases res@.len() - pos,
        {
            pos = pos + 1;
        }
        let ghost before = res@;
        proof {
            lemma_insert_multiset(before, pos as int, x);
        }
        res.insert(pos, x);
        assert(sorted_descending(res@)) by {
            assert forall|a: int, b: int| 0 <= a < b < res@.len() implies res@[a] >= res@[b] by {
                if b < pos {
                } else if b == pos {
                } else if a < pos {
                    assert(res@[b] == before[b - 1]);
                    assert(before[pos as int] < x);
                    assert(before[b - 1] <= before[pos as int]);
                } else if a == pos {
                    assert(res@[b] == before[b - 1]);
                    assert(before[pos as int] < x);
                    assert(before[b - 1] <= before[pos as int]);
                } else {
                    assert(res@[a] == before[a - 1]);
                    assert(res@[b] == before[b - 1]);
                }
            }
        }
        assert(v@.take(i + 1) =~= v@.take(i as int).push(x));
        assert(res@ == before.insert(pos as int, x));
        proof {
            v@.take(i as int).to_multiset_ensures();
        }
        assert(v@.take(i as int).push(x).to_multiset() =~= v@.take(i as int).to_multiset().insert(
            x,
        ));
        i = i + 1;
    }
    assert(v@.take(v@.len() as int) =~= v@);
    res
}

/// The indices that the comma-separated numbers of `answer` name.
fn requested_indices_of(answer: &Vec<char>, len: usize) -> (res: Vec<usize>)
    ensures
        res@ == requested_indices(split_on(answer@, ','), len as nat),
{
    let fields = split_chars(answer, ',');
    let ghost fv = char_views(fields@);
    let mut res: Vec<usize> = Vec::new();
    let mut i: usize = 0;
    while i < fields.len()
        invariant
            i <= fields@.len() == fv.len(),
            fv == char_views(fields@),
            res@ == requested_indices(fv.take(i as int), len as nat),
        decreases fields@.len() - i,
    {
        assert(fv.take(i + 1).drop_last() =~= fv.take(i as int));
        assert(fv.take(i + 1).last() == fields@[i as int]@);
        let field = strip_chars(&fields[i], TrimSet::Whitespace);
        let ghost parsed = parse_unsigned(field@, usize::MAX as nat);
        match parse_unsigned_chars(&field, usize::MAX as u64) {
            Some(n) => {
                proof {
                    lemma_parse_unsigned_bound(field@, usize::MAX as nat);
                }
                assert(parsed == Some(n as nat));
                if n > 0 && n <= len as u64 {
                    res.push((n - 1) as usize);
                }
            },
            None => {},
        }
        i = i + 1;
    }
    assert(fv.take(fields@.len() as int) =~= fv);
    res
}

/// The selection that a normalised answer (trimmed and lower-cased) makes
/// from a queue of `len` items.
pub fn selection_from_answer(answer: &str, len: usize) -> (res: PurgeSelection)
    ensures
        selection_matches(res, answer@, len as nat),
        forall|k: int, n: nat|
            0 <= k < split_on(answer@, ',').len() && !is_cancel(answer@) && answer@ != "all"@
                && #[trigger] field_names_number(split_on(answer@, ',')[k], n) && 1 <= n <= len
                ==> (res matches PurgeSelection::Remove(v) && v@.contains((n - 1) as usize)),
        answer@ == "all"@ && len > 0 ==> (res matches PurgeSelection::Remove(v) && forall|i: usize|
            i < len ==> #[trigger] v@.contains(i)),
{
    let given = String::from_str(answer);
    if given == String::from_str("q") || answer.is_empty() {
        proof {
            reveal_strlit("all");
            reveal_strlit("q");
        }
        return PurgeSelection::Cancel;
    }
    let chosen: Vec<usize> = if given == String::from_str("all") {
        let mut all: Vec<usize> = Vec::new();
        let mut k: usize = 0;
        while k < len
            invariant
                k <= len,
                all@ =~= all_indices(k as nat),
            decreases len - k,
        {
            all.push(k);
            k = k + 1;
        }
        all
    } else {
        let v = chars_of(answer);
        requested_indices_of(&v, len)
    };
    assert(chosen@ == chosen_indices(answer@, len as nat));
    if chosen.len() == 0 {
        proof {
            if answer@ != "all"@ {
                assert forall|k: int, n: nat|
                    0 <= k < split_on(answer@, ',').len() && #[trigger] field_names_number(
                        split_on(answer@, ',')[k],
                        n,
                    ) && 1 <= n <= len implies false by {
                    lemma_requested_holds(split_on(answer@, ','), len as nat, k, n);
                }
            }
        }
        return PurgeSelection::Invalid;
    }
    let sorted = sort_descending(&chosen);
    proof {
        broadcast use vstd::seq_lib::group_to_multiset_ensures;

        lemma_chosen_indices_in_range(answer@, len as nat);
        assert forall|i: int| 0 <= i < sorted@.len() implies #[trigger] sorted@[i] < len by {
            let x = sorted@[i];
            assert(sorted@.contains(x));
            assert(sorted@.to_multiset().count(x) > 0);
            assert(chosen@.to_multiset().count(x) > 0);
            assert(chosen@.contains(x));
            let k = choose|k: int| 0 <= k < chosen@.len() && chosen@[k] == x;
            assert(chosen@[k] < len);
        }
    }
    let res = PurgeSelection::Remove(sorted);
    proof {
        assert forall|k: int, n: nat|
            0 <= k < split_on(answer@, ',').len() && !is_cancel(answer@) && answer@ != "all"@
                && #[trigger] field_names_number(split_on(answer@, ',')[k], n) && 1 <= n
                <= len implies (res matches PurgeSelection::Remove(v) && v@.contains(
            (n - 1) as usize,
        )) by {
            lemma_selection_holds_named_items(res, answer@, len as nat, k, n);
        }
        if answer@ == "all"@ {
            assert forall|i: usize| i < len implies #[trigger] sorted@.contains(i) by {
                lemma_all_selects_every_item(res, len as nat, i);
            }
        }
    }
    res
}

proof fn lemma_requested_holds(fields: Seq<Seq<char>>, len: nat, k: int, n: nat)
    requires
        0 <= k < fields.len(),
        parse_unsigned(trimmed(fields[k]), usize::MAX as nat) == Some(n),
        1 <= n <= len,
    ensures
        requested_indices(fields, len).contains((n - 1) as usize),
    decreases fields.len(),
{
    let prev = requested_indices(fields.drop_last(), len);
    if k == fields.len() - 1 {
        assert(requested_indices(fields, len) == prev.push((n - 1) as usize));
        assert(requested_indices(fields, len)[prev.len() as int] == (n - 1) as usize);
    } else {
        assert(fields.drop_last()[k] == fields[k]);
        lemma_requested_holds(fields.drop_last(), len, k, n);
        let i = choose|i: int| 0 <= i < prev.len() && prev[i] == (n - 1) as usize;
        assert(requested_indices(fields, len)[i] == prev[i]);
    }
}

/// Every comma-separated field of an answer that, trimmed, reads as a
/// `usize` number `n` from 1 to the queue's length selects item `n - 1`,
/// however many digits `n` has.
pub proof fn lemma_selection_holds_named_items(
    sel: PurgeSelection,
    answer: Seq<char>,
    len: nat,
    k: int,
    n: nat,
)
    requires
        selection_matches(sel, answer, len),
        !is_cancel(answer),
        answer != "all"@,
        0 <= k < split_on(answer, ',').len(),
        field_names_number(split_on(answer, ',')[k], n),
        1 <= n <= len,
    ensures
        sel matches PurgeSelection::Remove(v) && v@.contains((n - 1) as usize),
{
    broadcast use vstd::seq_lib::group_to_multiset_ensures;

    lemma_requested_holds(split_on(answer, ','), len, k, n);
    let c = chosen_indices(answer, len);
    assert(c.contains((n - 1) as usize));
    assert(c.len() > 0);
    match sel {
        PurgeSelection::Remove(v) => {
            assert(c.to_multiset().count((n - 1) as usize) > 0);
            assert(v@.to_multiset().count((n - 1) as usize) > 0);
        },
        _ => {},
    }
}

/// Answering with the number `n` alone, for `n` from 1 to the queue's
/// length, removes exactly item `n - 1`, however many digits `n` has.
pub proof fn lemma_number_answer_removes_that_item(sel: PurgeSelection, n: nat, len: nat)
    requires
        1 <= n <= len <= usize::MAX,
        selection_matches(sel, decimal(n), len),
    ensures
        sel matches PurgeSelection::Remove(v) && v@ == seq![(n - 1) as usize],
{
    broadcast use vstd::seq_lib::group_to_multiset_ensures;

    let a = decimal(n);
    lemma_decimal_digits(n);
    lemma_parse_decimal(n, usize::MAX as nat);
    assert(!a.contains(','));
    lemma_split_on_without_sep(a, ',');
    reveal_strlit("q");
    reveal_strlit("all");
    assert(a != "q"@) by {
        assert(!a.contains('q'));
        if a == "q"@ {
            assert(a[0] == 'q');
        }
    }
    assert(a != "all"@) by {
        assert(!a.contains('a'));
        if a == "all"@ {
            assert(a[0] == 'a');
        }
    }
    let fields = seq![a];
    assert(fields.drop_last() =~= Seq::<Seq<char>>::empty());
    assert(fields.last() == a);
    let chosen = chosen_indices(a, len);
    assert(split_on(a, ',') == fields);
    assert(requested_indices(fields.drop_last(), len) =~= Seq::<usize>::empty());
    assert(trimmed(fields.last()) == a);
    assert(parse_unsigned(trimmed(fields.last()), usize::MAX as nat) == Some(n));
    assert(chosen =~= seq![(n - 1) as usize]);
    match sel {
        PurgeSelection::Remove(v) => {
            assert(v@.to_multiset().len() == chosen.to_multiset().len());
            assert(v@.len() == 1);
            assert(v@.contains(v@[0]));
            assert(v@.to_multiset().count(v@[0]) > 0);
            assert(chosen.to_multiset().count(v@[0]) > 0);
            assert(chosen.contains(v@[0]));
            assert(v@ =~= seq![(n - 1) as usize]);
        },
        _ => {},
    }
}

/// The answer `all` selects every item of the queue.
pub proof fn lemma_all_selects_every_item(sel: PurgeSelection, len: nat, i: usize)
    requires
        selection_matches(sel, "all"@, len),
        i < len,
    ensures
        sel matches PurgeSelection::Remove(v) && v@.contains(i),
{
    broadcast use vstd::seq_lib::group_to_multiset_ensures;

    reveal_strlit("all");
    reveal_strlit("q");
    let c = chosen_indices("all"@, len);
    assert(c == all_indices(len));
    assert(c[i as int] == i);
    assert(c.contains(i));
    assert("all"@.len() == 3);
    assert("q"@.len() == 1);
    assert("all"@ != "q"@);
    assert(c.len() > 0);
    match sel {
        PurgeSelection::Remove(v) => {
            assert(c.to_multiset().count(i) > 0);
            assert(v@.to_multiset().count(i) > 0);
        },
        _ => {},
    }
}

/// Reads the answer at the purge prompt for a queue of `len` items: the
/// answer is trimmed and lower-cased, then read as `selection_from_answer`
/// reads it.
pub fn parse_purge_selection(input: &str, len: usize) -> (res: PurgeSelection)
    ensures
        selection_matches(res, lowercase_of(trimmed(input@)), len as nat),
        forall|k: int, n: nat|
            0 <= k < split_on(lowercase_of(trimmed(input@)), ',').len() && !is_cancel(
                lowercase_of(trimmed(input@)),
            ) && lowercase_of(trimmed(input@)) != "all"@ && #[trigger] field_names_number(
                split_on(lowercase_of(trimmed(input@)), ',')[k],
                n,
            ) && 1 <= n <= len ==> (res matches PurgeSelection::Remove(v) && v@.contains(
                (n - 1) as usize,
            )),
        lowercase_of(trimmed(input@)) == "all"@ && len > 0 ==> (res matches PurgeSelection::Remove(
            v,
        ) && forall|i: usize| i < len ==> #[trigger] v@.contains(i)),
{
    let t = trim(input);
    let lowered = to_lowercase(t.as_str());
    selection_from_answer(lowered.as_str(), len)
}

// ---------------------------------------------------------------------------
// Interactive purge: the removals
// ---------------------------------------------------------------------------

/// The progress of a purge: the items still queued and the numbers of
/// removals that succeeded and failed.
pub struct PurgeProgress {
    pub remaining: Vec<QueueItem>,
    pub removed_count: usize,
    pub failed_count: usize,
}

impl PurgeProgress {
    /// A purge of `items` that has removed nothing yet.
    pub fn start(items: &Vec<QueueItem>) -> (res: Self)
        ensures
            res.remaining@ == items@,
            res.removed_count == 0,
            res.failed_count == 0,
    {
        PurgeProgress { remaining: items.clone(), removed_count: 0, failed_count: 0 }
    }

    /// The directory of the item at `index` of the listed queue was
    /// removed: the item at that position of the remaining items leaves.
    pub fn record_removed(&mut self, index: usize)
        requires
            index < old(self).remaining@.len(),
            old(self).removed_count < usize::MAX,
        ensures
            final(self).remaining@ == old(self).remaining@.remove(index as int),
            final(self).removed_count == old(self).removed_count + 1,
            final(self).failed_count == old(self).failed_count,
    {
        self.remaining.remove(index);
        self.removed_count = self.removed_count + 1;
    }

    /// The removal of a directory failed: the queue is unchanged.
    pub fn record_failed(&mut self)
        requires
            old(self).failed_count < usize::MAX,
        ensures
            final(self).remaining@ == old(self).remaining@,
            final(self).removed_count == old(self).removed_count,
            final(self).failed_count == old(self).failed_count + 1,
    {
        self.failed_count = self.failed_count + 1;
    }
}

/// The items left after a purge that processed `steps` in order, each an
/// index and whether its directory was removed, as `PurgeProgress` records
/// them.
pub open spec fn removals_applied(items: Seq<QueueItem>, steps: Seq<(usize, bool)>) -> Seq<
    QueueItem,
>
    decreases steps.len(),
{
    if steps.len() == 0 {
        items
    } else {
        let prev = removals_applied(items, steps.drop_last());
        if steps.last().1 {
            prev.remove(steps.last().0 as int)
        } else {
            prev
        }
    }
}

/// The indices whose directories were removed.
pub open spec fn removed_indices(steps: Seq<(usize, bool)>) -> Set<int>
    decreases steps.len(),
{
    if steps.len() == 0 {
        Set::empty()
    } else {
        let prev = removed_indices(steps.drop_last());
        if steps.last().1 {
            prev.insert(steps.last().0 as int)
        } else {
            prev
        }
    }
}

/// The items of `items` whose positions are not in `removed`, in order.
pub open spec fn without_indices(items: Seq<QueueItem>, removed: Set<int>) -> Seq<QueueItem>
    decreases items.len(),
{
    if items.len() == 0 {
        items
    } else {
        let prev = without_indices(items.drop_last(), removed);
        if removed.contains(items.len() - 1) {
            prev
        } else {
            prev.push(items.last())
        }
    }
}

/// Whether the indices of `steps` never increase: the order in which a purge
/// takes the selection, largest first.
pub open spec fn non_increasing(steps: Seq<(usize, bool)>) -> bool {
    forall|i: int, j: int| 0 <= i < j < steps.len() ==> steps[i].0 >= steps[j].0
}

/// Whether no index is removed twice. An index that is selected twice is
/// tried twice, but once its directory is gone the second try fails.
pub open spec fn removes_each_index_once(steps: Seq<(usize, bool)>) -> bool {
    forall|i: int, j: int|
        0 <= i < j < steps.len() && steps[i].1 && steps[j].1 ==> steps[i].0 != steps[j].0
}

proof fn lemma_without_untouched(items: Seq<QueueItem>, removed: Set<int>)
    requires
        forall|x: int| removed.contains(x) ==> x >= items.len(),
    ensures
        without_indices(items, removed) == items,
    decreases items.len(),
{
    if items.len() > 0 {
        lemma_without_untouched(items.drop_last(), removed);
        assert(items.drop_last().push(items.last()) =~= items);
    }
}

proof fn lemma_without_prefix(items: Seq<QueueItem>, removed: Set<int>, m: int)
    requires
        0 <= m <= items.len(),
        forall|x: int| removed.contains(x) ==> x >= m,
    ensures
        without_indices(items, removed).len() >= m,
        without_indices(items, removed).take(m) == items.take(m),
    decreases items.len(),
{
    if items.len() == m {
        lemma_without_untouched(items, removed);
    } else {
        lemma_without_prefix(items.drop_last(), removed, m);
        let prev = without_indices(items.drop_last(), removed);
        assert(items.drop_last().take(m) =~= items.take(m));
        if !removed.contains(items.len() - 1) {
            assert(prev.push(items.last()).take(m) =~= prev.take(m));
        }
    }
}

proof fn lemma_remove_below(items: Seq<QueueItem>, removed: Set<int>, j: int)
    requires
        0 <= j < items.len(),
        forall|x: int| removed.contains(x) ==> x > j,
    ensures
        j < without_indices(items, removed).len(),
        without_indices(items, removed).remove(j) == without_indices(items, removed.insert(j)),
    decreases items.len(),
{
    let n = items.len();
    let dl = items.drop_last();
    lemma_without_prefix(items, removed, j + 1);
    if n - 1 == j {
        lemma_without_untouched(items, removed);
        lemma_without_untouched(dl, removed.insert(j));
        assert(items.remove(j) =~= dl);
    } else {
        lemma_remove_below(dl, removed, j);
        let w = without_indices(dl, removed);
        if removed.contains(n - 1) {
        } else {
            assert(w.push(items.last()).remove(j) =~= w.remove(j).push(items.last()));
        }
    }
}

proof fn lemma_removed_indices_come_from_steps(steps: Seq<(usize, bool)>, x: int)
    requires
        removed_indices(steps).contains(x),
    ensures
        exists|i: int| 0 <= i < steps.len() && steps[i].0 as int == x && steps[i].1,
    decreases steps.len(),
{
    let prev = removed_indices(steps.drop_last());
    if prev.contains(x) {
        lemma_removed_indices_come_from_steps(steps.drop_last(), x);
        let i = choose|i: int|
            0 <= i < steps.drop_last().len() && steps.drop_last()[i].0 as int == x
                && steps.drop_last()[i].1;
        assert(steps[i] == steps.drop_last()[i]);
    } else {
        assert(steps[steps.len() - 1].0 as int == x);
    }
}

/// When a purge takes indices of the queue from the largest down (an index
/// may come more than once, but is removed at most once), the items left are
/// exactly those whose directories were not removed, in their listed order.
pub proof fn lemma_purge_keeps_unremoved(items: Seq<QueueItem>, steps: Seq<(usize, bool)>)
    requires
        non_increasing(steps),
        removes_each_index_once(steps),
        forall|i: int| 0 <= i < steps.len() ==> (#[trigger] steps[i]).0 < items.len(),
    ensures
        removals_applied(items, steps) == without_indices(items, removed_indices(steps)),
    decreases steps.len(),
{
    if steps.len() == 0 {
        lemma_without_untouched(items, Set::empty());
    } else {
        let prefix = steps.drop_last();
        let j = steps.last().0 as int;
        assert forall|i: int| 0 <= i < prefix.len() implies (#[trigger] prefix[i]).0 < items.len() by {
            assert(prefix[i] == steps[i]);
        }
        lemma_purge_keeps_unremoved(items, prefix);
        let earlier = removed_indices(prefix);
        if steps.last().1 {
            assert forall|x: int| earlier.contains(x) implies x > j by {
                lemma_removed_indices_come_from_steps(prefix, x);
                let i = choose|i: int| 0 <= i < prefix.len() && prefix[i].0 as int == x && prefix[i].1;
                assert(prefix[i] == steps[i]);
                assert(steps[i].0 != steps[steps.len() - 1].0);
            }
            lemma_remove_below(items, earlier, j);
        }
    }
}

} // verus!

verus! {

/// Along a purge that takes indices of the queue from the largest down and
/// removes each index at most once, every removal finds its index among the
/// items still left: the index is below their number.
pub proof fn lemma_purge_index_in_range(items: Seq<QueueItem>, steps: Seq<(usize, bool)>, k: int)
    requires
        non_increasing(steps),
        removes_each_index_once(steps),
        forall|i: int| 0 <= i < steps.len() ==> (#[trigger] steps[i]).0 < items.len(),
        0 <= k < steps.len(),
        steps[k].1,
    ensures
        steps[k].0 < removals_applied(items, steps.take(k)).len(),
{
    let prefix = steps.take(k);
    let j = steps[k].0 as int;
    assert forall|i: int, l: int| 0 <= i < l < prefix.len() implies prefix[i].0 >= prefix[l].0 by {
        assert(prefix[i] == steps[i] && prefix[l] == steps[l]);
    }
    assert forall|i: int, l: int|
        0 <= i < l < prefix.len() && prefix[i].1 && prefix[l].1 implies prefix[i].0
        != prefix[l].0 by {
        assert(prefix[i] == steps[i] && prefix[l] == steps[l]);
    }
    assert forall|i: int| 0 <= i < prefix.len() implies (#[trigger] prefix[i]).0 < items.len() by {
        assert(prefix[i] == steps[i]);
    }
    lemma_purge_keeps_unremoved(items, prefix);
    let earlier = removed_indices(prefix);
    assert forall|x: int| earlier.contains(x) implies x > j by {
        lemma_removed_indices_come_from_steps(prefix, x);
        let i = choose|i: int| 0 <= i < prefix.len() && prefix[i].0 as int == x && prefix[i].1;
        assert(prefix[i] == steps[i]);
        assert(steps[i].0 != steps[k].0);
    }
    lemma_remove_below(items, earlier, j);
}

/// Whether the purge has nothing to offer: the queue is empty.
pub fn nothing_to_purge(queue: &StagedQueue) -> (res: bool)
    ensures
        res == (queue.items@.len() == 0),
{
    queue.items.len() == 0
}

} // verus!
