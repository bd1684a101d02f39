//! How install targets are born from a folder: which of its shell scripts are
//! update scripts, in which order, and what each target is called.
use vstd::prelude::*;
use vstd::string::*;
use vstd::utf8::*;

use crate::install::target::InstallTarget;
use crate::text::{
    chars_of, chars_range, joined, joined3, ends_with, occurs_at_exec, starts_with,
    string_of, string_of_range,
};

verus! {

/// The views of a sequence of strings.
pub open spec fn texts(v: Seq<String>) -> Seq<Seq<char>> {
    v.map_values(|s: String| s@)
}

/// The file name carries the extension `sh`: it ends with `.sh` and something
/// stands before that dot (`.sh` alone is a hidden file without extension).
pub open spec fn has_sh_ext(name: Seq<char>) -> bool {
    name.len() > 3 && ends_with(name, ".sh"@)
}

/// The file name begins with `update-`.
pub open spec fn has_update_prefix(name: Seq<char>) -> bool {
    starts_with(name, "update-"@)
}

/// An update script: a shell script whose name begins with `update-`.
pub open spec fn is_update_script(name: Seq<char>) -> bool {
    has_sh_ext(name) && has_update_prefix(name)
}

/// Byte-wise lexicographic order, the order of paths in one folder.
pub open spec fn bytes_lt(a: Seq<u8>, b: Seq<u8>) -> bool
    decreases a.len(),
{
    if a.len() == 0 {
        b.len() > 0
    } else if b.len() == 0 {
        false
    } else if a[0] != b[0] {
        a[0] < b[0]
    } else {
        bytes_lt(a.drop_first(), b.drop_first())
    }
}

/// `a` comes no later than `b` when file names are sorted by their UTF-8 bytes.
pub open spec fn name_le(a: Seq<char>, b: Seq<char>) -> bool {
    !bytes_lt(encode_utf8(b), encode_utf8(a))
}

/// The names are in byte order.
pub open spec fn sorted_names(s: Seq<Seq<char>>) -> bool {
    forall|i: int, j: int| 0 <= i < j < s.len() ==> name_le(s[i], s[j])
}

/// The scripts a folder's files give rise to: all the update scripts in byte
/// order; when there is none, the first shell script in byte order alone;
/// when there is no shell script, none.
pub open spec fn is_script_selection(files: Seq<Seq<char>>, sel: Seq<Seq<char>>) -> bool {
    let updates = files.filter(|n: Seq<char>| is_update_script(n));
    let shells = files.filter(|n: Seq<char>| has_sh_ext(n));
    if updates.len() > 0 {
        sorted_names(sel) && sel.to_multiset() == updates.to_multiset()
    } else if shells.len() > 0 {
        &&& sel.len() == 1
        &&& shells.contains(sel[0])
        &&& forall|k: int| 0 <= k < shells.len() ==> name_le(sel[0], #[trigger] shells[k])
    } else {
        sel.len() == 0
    }
}

/// The index of the last `c` in `s`, or -1.
pub open spec fn last_index_of(s: Seq<char>, c: char) -> int
    decreases s.len(),
{
    if s.len() == 0 {
        -1
    } else if s.last() == c {
        s.len() - 1
    } else {
        last_index_of(s.drop_last(), c)
    }
}

/// The stem of a file name: the name without its extension. A name without a
/// dot, a name whose only dot leads it, and `..` are their own stem.
pub open spec fn file_stem(name: Seq<char>) -> Seq<char> {
    let k = last_index_of(name, '.');
    if name == ".."@ || k <= 0 {
        name
    } else {
        name.take(k)
    }
}

/// `s` without what `Path` ignores at its end: trailing slashes and
/// trailing `/.` segments.
pub open spec fn trim_tail(s: Seq<char>) -> Seq<char>
    decreases s.len(),
{
    if s.len() > 0 && (s.last() == '/' || (s.len() >= 2 && s.last() == '.' && s[s.len() - 2]
        == '/')) {
        trim_tail(s.drop_last())
    } else {
        s
    }
}

/// The last component of a path when it is a name (`Path::file_name`): the
/// last `/`-separated segment, once trailing slashes and `.` segments are
/// set aside; none for the root, an empty path, `.` or a path ending in `..`.
pub open spec fn file_name(path: Seq<char>) -> Option<Seq<char>> {
    let t = trim_tail(path);
    let base = t.skip(last_index_of(t, '/') + 1);
    if base.len() == 0 || base == "."@ || base == ".."@ {
        None
    } else {
        Some(base)
    }
}

/// The name of a folder: its last component, or `?` when it has none.
pub open spec fn folder_name(folder: Seq<char>) -> Seq<char> {
    match file_name(folder) {
        Some(n) => n,
        None => "?"@,
    }
}

/// The stem of a script path (`Path::file_stem`): the stem of its last
/// component, empty when it has none.
pub open spec fn script_stem(script: Seq<char>) -> Seq<char> {
    match file_name(script) {
        Some(n) => file_stem(n),
        None => Seq::empty(),
    }
}

/// The display name of a target: a script `.../update-NAME.sh` gives `NAME`;
/// any other script (or an empty `NAME`) gives the name of the folder.
pub open spec fn target_name(script: Seq<char>, folder: Seq<char>) -> Seq<char> {
    let stem = script_stem(script);
    if has_update_prefix(stem) && stem.len() > 7 {
        stem.skip(7)
    } else {
        folder_name(folder)
    }
}

/// `rest` appended to the path `base` (`Path::join`): an absolute `rest`
/// replaces `base`; otherwise one `/` separates them unless `base` is empty or
/// already ends with one.
pub open spec fn join_path(base: Seq<char>, rest: Seq<char>) -> Seq<char> {
    if rest.len() > 0 && rest[0] == '/' {
        rest
    } else if base.len() == 0 || base.last() == '/' {
        base + rest
    } else {
        base + "/"@ + rest
    }
}

/// Why a folder gives no target.
#[derive(Debug, PartialEq, Eq)]
pub enum DiscoverError {
    /// The path does not name a directory.
    NotADirectory(String),
    /// The path could not be made absolute; the second field says why.
    Unresolvable(String, String),
    /// The folder holds no shell script.
    NoScript(String),
}

/// A discovery error as plain values.
pub enum DiscoverErrorView {
    NotADirectory(Seq<char>),
    Unresolvable(Seq<char>, Seq<char>),
    NoScript(Seq<char>),
}

impl View for DiscoverError {
    type V = DiscoverErrorView;

    open spec fn view(&self) -> DiscoverErrorView {
        match self {
            DiscoverError::NotADirectory(p) => DiscoverErrorView::NotADirectory(p@),
            DiscoverError::Unresolvable(p, e) => DiscoverErrorView::Unresolvable(p@, e@),
            DiscoverError::NoScript(p) => DiscoverErrorView::NoScript(p@),
        }
    }
}

/// The sentence that reports a discovery error.
pub open spec fn error_message(e: DiscoverErrorView) -> Seq<char> {
    match e {
        DiscoverErrorView::NotADirectory(p) => p + " is not a directory"@,
        DiscoverErrorView::Unresolvable(p, why) => "cannot resolve "@ + p + ": "@ + why,
        DiscoverErrorView::NoScript(p) => "no *.sh script found in "@ + p,
    }
}

impl DiscoverError {
    /// The sentence that reports this error.
    pub fn message(&self) -> (m: String)
        ensures
            m@ == error_message(self@),
    {
        match self {
            DiscoverError::NotADirectory(p) => joined(p.as_str(), " is not a directory"),
            DiscoverError::Unresolvable(p, why) => {
                let head = joined3("cannot resolve ", p.as_str(), ": ");
                joined(head.as_str(), why.as_str())
            },
            DiscoverError::NoScript(p) => joined("no *.sh script found in ", p.as_str()),
        }
    }
}

/// The byte order is a strict order: `a < b` and `b < c` give `a < c`.
pub proof fn lemma_bytes_lt_transitive(a: Seq<u8>, b: Seq<u8>, c: Seq<u8>)
    requires
        bytes_lt(a, b),
        bytes_lt(b, c),
    ensures
        bytes_lt(a, c),
    decreases a.len(),
{
    if a.len() > 0 && b.len() > 0 && c.len() > 0 && a[0] == b[0] && b[0] == c[0] {
        lemma_bytes_lt_transitive(a.drop_first(), b.drop_first(), c.drop_first());
    }
}

/// Any two byte strings are ordered one way or the other, or are equal.
pub proof fn lemma_bytes_lt_total(a: Seq<u8>, b: Seq<u8>)
    ensures
        bytes_lt(a, b) || bytes_lt(b, a) || a == b,
    decreases a.len(),
{
    if a.len() > 0 && b.len() > 0 && a[0] == b[0] {
        lemma_bytes_lt_total(a.drop_first(), b.drop_first());
        if a.drop_first() == b.drop_first() {
            assert(a =~= seq![a[0]] + a.drop_first());
            assert(b =~= seq![b[0]] + b.drop_first());
        }
    } else if a.len() == 0 && b.len() == 0 {
        assert(a =~= b);
    }
}

/// The byte order never holds both ways.
pub proof fn lemma_bytes_lt_asymmetric(a: Seq<u8>, b: Seq<u8>)
    ensures
        !(bytes_lt(a, b) && bytes_lt(b, a)),
    decreases a.len(),
{
    if a.len() > 0 && b.len() > 0 && a[0] == b[0] {
        lemma_bytes_lt_asymmetric(a.drop_first(), b.drop_first());
    }
}

/// "No later than" is transitive.
pub proof fn lemma_name_le_transitive(a: Seq<char>, b: Seq<char>, c: Seq<char>)
    requires
        name_le(a, b),
        name_le(b, c),
    ensures
        name_le(a, c),
{
    let (ea, eb, ec) = (encode_utf8(a), encode_utf8(b), encode_utf8(c));
    lemma_bytes_lt_total(ea, eb);
    lemma_bytes_lt_total(eb, ec);
    if bytes_lt(ec, ea) {
        if bytes_lt(ea, eb) {
            lemma_bytes_lt_transitive(ec, ea, eb);
        } else if bytes_lt(eb, ec) {
            lemma_bytes_lt_transitive(eb, ec, ea);
        }
    }
}

/// Names that sort no later than each other, both ways, are the same name.
pub proof fn lemma_name_le_antisymmetric(a: Seq<char>, b: Seq<char>)
    requires
        name_le(a, b),
        name_le(b, a),
    ensures
        a == b,
{
    lemma_bytes_lt_total(encode_utf8(a), encode_utf8(b));
    vstd::utf8::encode_utf8_decode_utf8(a);
    vstd::utf8::encode_utf8_decode_utf8(b);
}

/// Two sorted arrangements of the same names are the same sequence.
pub proof fn lemma_sorted_arrangement_is_unique(s1: Seq<Seq<char>>, s2: Seq<Seq<char>>)
    requires
        sorted_names(s1),
        sorted_names(s2),
        s1.to_multiset() == s2.to_multiset(),
    ensures
        s1 == s2,
    decreases s1.len(),
{
    vstd::seq_lib::to_multiset_len(s1);
    vstd::seq_lib::to_multiset_len(s2);
    if s1.len() > 0 {
        let (a, b) = (s1[0], s2[0]);
        vstd::seq_lib::to_multiset_contains(s1, a);
        vstd::seq_lib::to_multiset_contains(s2, a);
        vstd::seq_lib::to_multiset_contains(s1, b);
        vstd::seq_lib::to_multiset_contains(s2, b);
        assert(s1.contains(a));
        assert(s2.contains(b));
        let j = choose|j: int| 0 <= j < s2.len() && s2[j] == a;
        let k = choose|k: int| 0 <= k < s1.len() && s1[k] == b;
        if j > 0 {
            assert(name_le(b, a));
        } else {
            lemma_bytes_lt_asymmetric(encode_utf8(a), encode_utf8(a));
        }
        if k > 0 {
            assert(name_le(a, b));
        } else {
            lemma_bytes_lt_asymmetric(encode_utf8(b), encode_utf8(b));
        }
        lemma_name_le_antisymmetric(a, b);
        vstd::seq_lib::to_multiset_remove(s1, 0);
        vstd::seq_lib::to_multiset_remove(s2, 0);
        assert(s1.remove(0) =~= s1.drop_first());
        assert(s2.remove(0) =~= s2.drop_first());
        let (t1, t2) = (s1.drop_first(), s2.drop_first());
        assert(sorted_names(t1)) by {
            assert forall|x: int, y: int| 0 <= x < y < t1.len() implies name_le(t1[x], t1[y]) by {
                assert(t1[x] == s1[x + 1] && t1[y] == s1[y + 1]);
            }
        }
        assert(sorted_names(t2)) by {
            assert forall|x: int, y: int| 0 <= x < y < t2.len() implies name_le(t2[x], t2[y]) by {
                assert(t2[x] == s2[x + 1] && t2[y] == s2[y + 1]);
            }
        }
        lemma_sorted_arrangement_is_unique(t1, t2);
        assert(s1 =~= s2) by {
            assert forall|x: int| 0 <= x < s1.len() implies s1[x] == s2[x] by {
                if x > 0 {
                    assert(s1[x] == t1[x - 1] && s2[x] == t2[x - 1]);
                }
            }
        }
    } else {
        assert(s1 =~= s2);
    }
}

/// A script whose stem is `update-` followed by a non-empty `name` gives its
/// target exactly that name, whatever the name holds (dashes, dots), and
/// whatever the folder.
pub proof fn law_update_stem_names_the_target(script: Seq<char>, name: Seq<char>, folder: Seq<char>)
    requires
        script_stem(script) == "update-"@ + name,
        name.len() > 0,
    ensures
        target_name(script, folder) == name,
{
    reveal_strlit("update-");
    let stem = "update-"@ + name;
    assert(stem.subrange(0, 7) =~= "update-"@);
    assert(stem.skip(7) =~= name);
}

/// Text without `c` after `s` leaves the last `c` where it was in `s`.
proof fn lemma_last_index_past(s: Seq<char>, t: Seq<char>, c: char)
    requires
        !t.contains(c),
    ensures
        last_index_of(s + t, c) == last_index_of(s, c),
    decreases t.len(),
{
    if t.len() == 0 {
        assert(s + t =~= s);
    } else {
        assert((s + t).drop_last() =~= s + t.drop_last());
        assert((s + t).last() == t.last());
        assert(t.last() != c) by {
            if t.last() == c {
                assert(t[t.len() - 1] == c);
            }
        }
        assert(!t.drop_last().contains(c)) by {
            if t.drop_last().contains(c) {
                let i = choose|i: int| 0 <= i < t.drop_last().len() && t.drop_last()[i] == c;
                assert(t[i] == c);
            }
        }
        lemma_last_index_past(s, t.drop_last(), c);
    }
}

/// The file name `update-NAME.sh` after a folder part that is empty or ends
/// with `/`: the path's last component is that file name, and its stem is
/// `update-NAME`.
proof fn lemma_update_script_stem(s: Seq<char>, name: Seq<char>)
    requires
        s.len() == 0 || s.last() == '/',
        !name.contains('/'),
    ensures
        script_stem(s + ("update-"@ + name + ".sh"@)) == "update-"@ + name,
{
    reveal_strlit("update-");
    reveal_strlit(".sh");
    reveal_strlit(".s");
    reveal_strlit(".");
    reveal_strlit("..");
    let g = "update-"@ + name;
    let f = g + ".sh"@;
    let p = s + f;
    assert(p.last() == 'h');
    assert(p.len() > 0);
    assert(trim_tail(p) == p);
    assert(!f.contains('/')) by {
        if f.contains('/') {
            let i = choose|i: int| 0 <= i < f.len() && f[i] == '/';
            if 7 <= i < 7 + name.len() {
                assert(name[i - 7] == '/');
            }
        }
    }
    lemma_last_index_past(s, f, '/');
    if s.len() > 0 {
        assert(last_index_of(s, '/') == s.len() - 1);
    }
    assert(last_index_of(p, '/') + 1 == s.len());
    assert(p.skip(s.len() as int) =~= f);
    assert(f.len() > 2);
    assert(file_name(p) == Some(f));
    assert(f.drop_last() =~= g + ".s"@);
    assert((g + ".s"@).drop_last() =~= g + "."@);
    assert((g + "."@).drop_last() =~= g);
    assert(last_index_of(g + "."@, '.') == g.len());
    assert(last_index_of(g + ".s"@, '.') == g.len());
    assert(last_index_of(f, '.') == g.len());
    assert(f != ".."@) by {
        assert(f.len() != 2);
    }
    assert(f.take(g.len() as int) =~= g);
}

/// A script named `update-NAME.sh` (a NAME without `/`), wherever it lies,
/// gives its target exactly the name NAME.
pub proof fn law_update_script_names_the_target(dir: Seq<char>, name: Seq<char>, folder: Seq<char>)
    requires
        !name.contains('/'),
        name.len() > 0,
    ensures
        target_name(dir + "/"@ + ("update-"@ + name + ".sh"@), folder) == name,
{
    reveal_strlit("/");
    let s = dir + "/"@;
    assert(s.last() == '/');
    lemma_update_script_stem(s, name);
    law_update_stem_names_the_target(s + ("update-"@ + name + ".sh"@), name, folder);
}

/// The target a folder's file `update-NAME.sh` becomes is named NAME.
pub proof fn law_update_file_target_is_named(folder: Seq<char>, name: Seq<char>)
    requires
        !name.contains('/'),
        name.len() > 0,
    ensures
        target_for(folder, "update-"@ + name + ".sh"@).name == name,
{
    reveal_strlit("update-");
    reveal_strlit("/");
    let f = "update-"@ + name + ".sh"@;
    assert(f[0] == 'u');
    if folder.len() == 0 || folder.last() == '/' {
        lemma_update_script_stem(folder, name);
    } else {
        let s = folder + "/"@;
        assert(s.last() == '/');
        assert(join_path(folder, f) =~= s + f);
        lemma_update_script_stem(s, name);
    }
    law_update_stem_names_the_target(join_path(folder, f), name, folder);
}

/// The selection rule, item by item: every selected script is a shell
/// script of the folder; when the folder holds update scripts, the selection
/// is made of update scripts only, holds every one of them, in byte order;
/// otherwise it is the one shell script that sorts first, when there is
/// one; and it is empty when the folder holds no shell script.
pub proof fn law_selection_follows_the_rule(files: Seq<Seq<char>>, sel: Seq<Seq<char>>)
    requires
        is_script_selection(files, sel),
    ensures
        forall|k: int| 0 <= k < sel.len() ==> files.contains(#[trigger] sel[k]) && has_sh_ext(sel[k]),
        (exists|i: int| 0 <= i < files.len() && is_update_script(#[trigger] files[i])) ==> {
            &&& forall|k: int| 0 <= k < sel.len() ==> is_update_script(#[trigger] sel[k])
            &&& forall|i: int|
                0 <= i < files.len() && is_update_script(#[trigger] files[i]) ==> sel.contains(files[i])
            &&& forall|i: int, j: int| 0 <= i < j < sel.len() ==> name_le(sel[i], sel[j])
        },
        (forall|i: int| 0 <= i < files.len() ==> !is_update_script(#[trigger] files[i])) && (exists|
            i: int,
        | 0 <= i < files.len() && has_sh_ext(#[trigger] files[i])) ==> {
            &&& sel.len() == 1
            &&& forall|i: int| 0 <= i < files.len() && has_sh_ext(#[trigger] files[i]) ==> name_le(sel[0], files[i])
        },
        (forall|i: int| 0 <= i < files.len() ==> !has_sh_ext(#[trigger] files[i])) ==> sel.len() == 0,
{
    broadcast use vstd::seq_lib::group_filter_ensures, vstd::seq_lib::group_to_multiset_ensures;
    broadcast use Seq::lemma_filter_contains_rev;

    let up = |n: Seq<char>| is_update_script(n);
    let sh = |n: Seq<char>| has_sh_ext(n);
    let updates = files.filter(up);
    let shells = files.filter(sh);
    if exists|i: int| 0 <= i < files.len() && is_update_script(#[trigger] files[i]) {
        let i = choose|i: int| 0 <= i < files.len() && is_update_script(#[trigger] files[i]);
        assert(updates.contains(files[i]));
        assert(updates.len() > 0);
    }
    if updates.len() > 0 {
        assert(up(updates[0]));
        assert(updates.contains(updates[0]));
        assert(files.contains(updates[0]));
        let i0 = choose|i: int| 0 <= i < files.len() && files[i] == updates[0];
        assert(is_update_script(files[i0]) && has_sh_ext(files[i0]));
        assert(sel.to_multiset() == updates.to_multiset());
        assert forall|k: int| 0 <= k < sel.len() implies files.contains(#[trigger] sel[k]) && has_sh_ext(
            sel[k],
        ) && is_update_script(sel[k]) by {
            assert(sel.contains(sel[k]));
            assert(sel.to_multiset().count(sel[k]) > 0);
            assert(updates.contains(sel[k]));
            let j = choose|j: int| 0 <= j < updates.len() && updates[j] == sel[k];
            assert(up(updates[j]));
        }
        assert forall|i: int|
            0 <= i < files.len() && is_update_script(#[trigger] files[i]) implies sel.contains(files[i]) by {
            assert(updates.contains(files[i]));
            assert(updates.to_multiset().count(files[i]) > 0);
        }
    } else {
        assert forall|i: int| 0 <= i < files.len() implies !is_update_script(#[trigger] files[i]) by {
            if is_update_script(files[i]) {
                assert(updates.contains(files[i]));
            }
        }
        if shells.len() > 0 {
            assert forall|k: int| 0 <= k < sel.len() implies files.contains(#[trigger] sel[k]) && has_sh_ext(
                sel[k],
            ) by {
                let j = choose|j: int| 0 <= j < shells.len() && shells[j] == sel[0];
                assert(sh(shells[j]));
                assert(k == 0);
            }
            assert forall|i: int| 0 <= i < files.len() && has_sh_ext(#[trigger] files[i]) implies name_le(
                sel[0],
                files[i],
            ) by {
                assert(shells.contains(files[i]));
                let j = choose|j: int| 0 <= j < shells.len() && shells[j] == files[i];
                assert(name_le(sel[0], shells[j]));
            }
        } else {
            assert forall|i: int| 0 <= i < files.len() implies !has_sh_ext(#[trigger] files[i]) by {
                if has_sh_ext(files[i]) {
                    assert(shells.contains(files[i]));
                }
            }
        }
    }
}

/// The scripts a folder gives rise to are determined by its files: two
/// selections from the same files are the same.
pub proof fn law_script_selection_is_unique(
    files: Seq<Seq<char>>,
    s1: Seq<Seq<char>>,
    s2: Seq<Seq<char>>,
)
    requires
        is_script_selection(files, s1),
        is_script_selection(files, s2),
    ensures
        s1 == s2,
{
    let updates = files.filter(|n: Seq<char>| is_update_script(n));
    let shells = files.filter(|n: Seq<char>| has_sh_ext(n));
    if updates.len() > 0 {
        lemma_sorted_arrangement_is_unique(s1, s2);
    } else if shells.len() > 0 {
        let j = choose|j: int| 0 <= j < shells.len() && shells[j] == s1[0];
        let k = choose|k: int| 0 <= k < shells.len() && shells[k] == s2[0];
        assert(name_le(s1[0], shells[k]));
        assert(name_le(s2[0], shells[j]));
        lemma_name_le_antisymmetric(s1[0], s2[0]);
        assert(s1 =~= s2);
    } else {
        assert(s1 =~= s2);
    }
}

/// Whether `a` sorts strictly before `b` by bytes.
fn bytes_less(a: &[u8], b: &[u8]) -> (r: bool)
    ensures
        r == bytes_lt(a@, b@),
{
    let mut i: usize = 0;
    proof {
        assert(a@.skip(0) =~= a@);
        assert(b@.skip(0) =~= b@);
    }
    while i < a.len() && i < b.len() && a[i] == b[i]
        invariant
            i <= a@.len(),
            i <= b@.len(),
            bytes_lt(a@, b@) == bytes_lt(a@.skip(i as int), b@.skip(i as int)),
        decreases a@.len() - i,
    {
        proof {
            assert(a@.skip(i as int).drop_first() =~= a@.skip(i + 1));
            assert(b@.skip(i as int).drop_first() =~= b@.skip(i + 1));
        }
        i = i + 1;
    }
    if i == b.len() {
        false
    } else if i == a.len() {
        true
    } else {
        a[i] < b[i]
    }
}

/// Whether the name `a` sorts strictly before `b`.
fn name_less(a: &String, b: &String) -> (r: bool)
    ensures
        r == bytes_lt(encode_utf8(a@), encode_utf8(b@)),
{
    bytes_less(a.as_str().as_bytes(), b.as_str().as_bytes())
}

/// Sorts file names by their UTF-8 bytes.
pub fn sort_names(names: &Vec<String>) -> (out: Vec<String>)
    ensures
        sorted_names(texts(out@)),
        texts(out@).to_multiset() == texts(names@).to_multiset(),
{
    broadcast use vstd::seq_lib::group_to_multiset_ensures;

    let mut out: Vec<String> = Vec::new();
    let mut i: usize = 0;
    while i < names.len()
        invariant
            i <= names@.len(),
            sorted_names(texts(out@)),
            texts(out@).to_multiset() == texts(names@.take(i as int)).to_multiset(),
        decreases names@.len() - i,
    {
        let x = names[i].clone();
        let mut p: usize = 0;
        while p < out.len() && !name_less(&x, &out[p])
            invariant
                p <= out@.len(),
                forall|k: int| 0 <= k < p ==> name_le(out@[k]@, x@),
            decreases out@.len() - p,
        {
            p = p + 1;
        }
        let ghost before = out@;
        out.insert(p, x);
        proof {
            let tb = texts(before);
            assert(texts(out@) =~= tb.insert(p as int, x@));
            vstd::seq_lib::to_multiset_insert(tb, p as int, x@);
            assert(texts(names@.take(i + 1)) =~= texts(names@.take(i as int)).push(x@));
            vstd::seq_lib::to_multiset_build(texts(names@.take(i as int)), x@);
            assert forall|a: int, b: int| 0 <= a < b < texts(out@).len() implies name_le(
                texts(out@)[a],
                texts(out@)[b],
            ) by {
                let s = texts(out@);
                if b < p {
                    assert(s[a] == tb[a] && s[b] == tb[b]);
                } else if a > p {
                    assert(s[a] == tb[a - 1] && s[b] == tb[b - 1]);
                } else if a == p {
                    // x sorts before before[p], which is no later than s[b]
                    assert(s[b] == tb[b - 1]);
                    if p < tb.len() {
                        lemma_bytes_lt_asymmetric(encode_utf8(x@), encode_utf8(tb[p as int]));
                        if b - 1 > p {
                            lemma_name_le_transitive(x@, tb[p as int], tb[b - 1]);
                        }
                    }
                } else {
                    // a < p == b or a < p < b
                    assert(s[a] == tb[a]);
                    if b == p {
                        assert(name_le(tb[a], x@));
                    } else {
                        assert(s[b] == tb[b - 1]);
                        assert(name_le(tb[a], x@));
                        lemma_bytes_lt_asymmetric(encode_utf8(x@), encode_utf8(tb[p as int]));
                        if b - 1 > p {
                            lemma_name_le_transitive(x@, tb[p as int], tb[b - 1]);
                        }
                        lemma_name_le_transitive(tb[a], x@, tb[b - 1]);
                    }
                }
            }
        }
        i = i + 1;
    }
    proof {
        assert(names@.take(names@.len() as int) =~= names@);
    }
    out
}

/// Whether a file name has the extension `sh`.
pub fn has_sh_extension(name: &str) -> (b: bool)
    ensures
        b == has_sh_ext(name@),
{
    let v = chars_of(name);
    let suffix = chars_of(".sh");
    proof {
        reveal_strlit(".sh");
    }
    if v.len() <= 3 {
        return false;
    }
    occurs_at_exec(&v, &suffix, v.len() - 3)
}

/// Whether a file name begins with `update-`.
pub fn starts_with_update(name: &str) -> (b: bool)
    ensures
        b == has_update_prefix(name@),
{
    let v = chars_of(name);
    let prefix = chars_of("update-");
    occurs_at_exec(&v, &prefix, 0)
}

/// The index of the last `c` in `v`, if any.
fn last_index(v: &Vec<char>, c: char) -> (r: Option<usize>)
    ensures
        match r {
            Some(k) => k < v@.len() && last_index_of(v@, c) == k,
            None => last_index_of(v@, c) == -1,
        },
{
    let mut k = v.len();
    proof {
        assert(v@.take(k as int) =~= v@);
    }
    while k > 0 && v[k - 1] != c
        invariant
            k <= v@.len(),
            last_index_of(v@, c) == last_index_of(v@.take(k as int), c),
        decreases k,
    {
        proof {
            assert(v@.take(k as int).drop_last() =~= v@.take(k - 1));
        }
        k = k - 1;
    }
    if k == 0 {
        None
    } else {
        Some(k - 1)
    }
}

/// The stem of a file name (`Path::file_stem`).
pub fn stem_of(name: &str) -> (s: String)
    ensures
        s@ == file_stem(name@),
{
    let v = chars_of(name);
    proof {
        reveal_strlit("..");
    }
    if v.len() == 2 && v[0] == '.' && v[1] == '.' {
        proof {
            assert(v@ =~= ".."@);
        }
        return string_of(&v);
    }
    proof {
        if v@ == ".."@ {
            assert(v@[0] == '.' && v@[1] == '.');
        }
    }
    match last_index(&v, '.') {
        Some(k) => {
            if k == 0 {
                string_of(&v)
            } else {
                proof {
                    assert(v@.subrange(0, k as int) =~= v@.take(k as int));
                }
                string_of_range(&v, 0, k)
            }
        },
        None => string_of(&v),
    }
}

/// The last component of a path when it is a name, as `Path::file_name`
/// gives it.
pub fn file_name_of(path: &str) -> (r: Option<String>)
    ensures
        match r {
            Some(n) => file_name(path@) == Some(n@),
            None => file_name(path@) is None,
        },
{
    let v = chars_of(path);
    let mut n = v.len();
    proof {
        assert(v@.take(n as int) =~= v@);
    }
    while n > 0 && (v[n - 1] == '/' || (n >= 2 && v[n - 1] == '.' && v[n - 2] == '/'))
        invariant
            n <= v@.len(),
            trim_tail(v@) == trim_tail(v@.take(n as int)),
        decreases n,
    {
        proof {
            let t = v@.take(n as int);
            assert(t.drop_last() =~= v@.take(n - 1));
            assert(t.last() == v@[n - 1]);
            if n >= 2 {
                assert(t[t.len() - 2] == v@[n - 2]);
            }
        }
        n = n - 1;
    }
    let p = chars_range(&v, 0, n);
    proof {
        let t = v@.take(n as int);
        assert(v@.subrange(0, n as int) =~= t);
        if n >= 2 {
            assert(t[t.len() - 2] == v@[n - 2]);
        }
        if n > 0 {
            assert(t.last() == v@[n - 1]);
        }
        assert(trim_tail(t) == t);
    }
    let start = match last_index(&p, '/') {
        Some(k) => k + 1,
        None => 0,
    };
    let base = chars_range(&p, start, p.len());
    proof {
        assert(base@ =~= p@.skip(start as int));
        reveal_strlit(".");
        reveal_strlit("..");
    }
    let is_dot = base.len() == 1 && base[0] == '.';
    let is_dotdot = base.len() == 2 && base[0] == '.' && base[1] == '.';
    proof {
        if base@ == "."@ {
            assert(base@[0] == '.');
        }
        if base@ == ".."@ {
            assert(base@[0] == '.' && base@[1] == '.');
        }
        if is_dot {
            assert(base@ =~= "."@);
        }
        if is_dotdot {
            assert(base@ =~= ".."@);
        }
    }
    if base.len() == 0 || is_dot || is_dotdot {
        None
    } else {
        Some(string_of(&base))
    }
}

/// The name of a folder, as `folder_name` defines it.
pub fn folder_display_name(folder: &str) -> (s: String)
    ensures
        s@ == folder_name(folder@),
{
    match file_name_of(folder) {
        Some(n) => n,
        None => {
            proof {
                reveal_strlit("?");
            }
            String::from_str("?")
        },
    }
}

/// Derives a readable name from a script's path and its folder:
/// `.../update-lazygit.sh` gives `lazygit`; otherwise the name of the folder
/// (for instance `lazygitinstall`).
pub fn derive_name(script: &str, folder: &str) -> (name: String)
    ensures
        name@ == target_name(script@, folder@),
{
    let stem = match file_name_of(script) {
        Some(n) => stem_of(n.as_str()),
        None => String::new(),
    };
    let sv = chars_of(stem.as_str());
    if starts_with_update(stem.as_str()) && sv.len() > 7 {
        string_of_range(&sv, 7, sv.len())
    } else {
        folder_display_name(folder)
    }
}

/// Appends `rest` to the path `base`, as `Path::join` does.
pub fn join(base: &str, rest: &str) -> (p: String)
    ensures
        p@ == join_path(base@, rest@),
{
    let b = chars_of(base);
    let r = chars_of(rest);
    if r.len() > 0 && r[0] == '/' {
        string_of(&r)
    } else if b.len() == 0 || b[b.len() - 1] == '/' {
        joined(base, rest)
    } else {
        joined3(base, "/", rest)
    }
}

/// Keeps the names that satisfy `keep` (update scripts, or shell scripts).
fn filter_names(names: &Vec<String>, updates_only: bool) -> (out: Vec<String>)
    ensures
        updates_only ==> texts(out@) == texts(names@).filter(|n: Seq<char>| is_update_script(n)),
        !updates_only ==> texts(out@) == texts(names@).filter(|n: Seq<char>| has_sh_ext(n)),
{
    let mut out: Vec<String> = Vec::new();
    let mut i: usize = 0;
    while i < names.len()
        invariant
            i <= names@.len(),
            updates_only ==> texts(out@) == texts(names@.take(i as int)).filter(
                |n: Seq<char>| is_update_script(n),
            ),
            !updates_only ==> texts(out@) == texts(names@.take(i as int)).filter(
                |n: Seq<char>| has_sh_ext(n),
            ),
        decreases names@.len() - i,
    {
        let name = &names[i];
        let keep = if updates_only {
            has_sh_extension(name.as_str()) && starts_with_update(name.as_str())
        } else {
            has_sh_extension(name.as_str())
        };
        let ghost before = out@;
        if keep {
            out.push(name.clone());
        }
        proof {
            let t = texts(names@.take(i + 1));
            assert(t.drop_last() =~= texts(names@.take(i as int)));
            assert(t.last() == names@[i as int]@);
            reveal_with_fuel(Seq::<_>::filter, 1);
            assert(texts(out@) =~= if keep {
                texts(before).push(names@[i as int]@)
            } else {
                texts(before)
            });
        }
        i = i + 1;
    }
    proof {
        assert(names@.take(names@.len() as int) =~= names@);
    }
    out
}

/// Picks a folder's scripts among the names of its regular files: all the
/// `update-*.sh` scripts in byte order, or else the first `*.sh` alone.
pub fn select_scripts(files: &Vec<String>) -> (sel: Vec<String>)
    ensures
        is_script_selection(texts(files@), texts(sel@)),
{
    let updates = filter_names(files, true);
    if updates.len() > 0 {
        return sort_names(&updates);
    }
    let shells = filter_names(files, false);
    if shells.len() == 0 {
        return Vec::new();
    }
    let mut best: usize = 0;
    let mut k: usize = 1;
    proof {
        lemma_bytes_lt_asymmetric(encode_utf8(shells@[0]@), encode_utf8(shells@[0]@));
    }
    while k < shells.len()
        invariant
            best < k <= shells@.len(),
            forall|j: int| 0 <= j < k ==> name_le(shells@[best as int]@, shells@[j]@),
        decreases shells@.len() - k,
    {
        if name_less(&shells[k], &shells[best]) {
            proof {
                assert forall|j: int| 0 <= j < k implies name_le(shells@[k as int]@, shells@[j]@) by {
                    let (ek, eb, ej) = (
                        encode_utf8(shells@[k as int]@),
                        encode_utf8(shells@[best as int]@),
                        encode_utf8(shells@[j]@),
                    );
                    lemma_bytes_lt_asymmetric(ek, eb);
                    lemma_name_le_transitive(shells@[k as int]@, shells@[best as int]@, shells@[j]@);
                }
                lemma_bytes_lt_asymmetric(
                    encode_utf8(shells@[k as int]@),
                    encode_utf8(shells@[k as int]@),
                );
            }
            best = k;
        }
        k = k + 1;
    }
    let mut sel: Vec<String> = Vec::new();
    sel.push(shells[best].clone());
    proof {
        let t = texts(shells@);
        assert(t[best as int] == shells@[best as int]@);
        assert(texts(sel@)[0] == t[best as int]);
        assert(forall|j: int| 0 <= j < t.len() ==> t[j] == shells@[j]@);
    }
    sel
}

/// The target a script of a folder becomes.
pub open spec fn target_for(folder: Seq<char>, script: Seq<char>) -> crate::install::target::TargetView {
    crate::install::target::TargetView {
        name: target_name(join_path(folder, script), folder),
        folder: folder,
        script: join_path(folder, script),
    }
}

/// Makes the targets of a folder from the names of the regular files it
/// holds: one target per selected script, named after the script or else
/// after the folder. `folder` is the folder's absolute path.
pub fn targets_in_folder(folder: &str, files: &Vec<String>) -> (r: Result<
    Vec<InstallTarget>,
    DiscoverError,
>)
    ensures
        match r {
            Ok(ts) => exists|sel: Seq<Seq<char>>|
                {
                    &&& is_script_selection(texts(files@), sel)
                    &&& sel.len() > 0
                    &&& ts@.len() == sel.len()
                    &&& forall|i: int|
                        0 <= i < sel.len() ==> #[trigger] ts@[i]@ == target_for(folder@, sel[i])
                },
            Err(e) => {
                &&& e@ == DiscoverErrorView::NoScript(folder@)
                &&& is_script_selection(texts(files@), Seq::empty())
            },
        },
{
    let scripts = select_scripts(files);
    if scripts.len() == 0 {
        proof {
            assert(texts(scripts@) =~= Seq::<Seq<char>>::empty());
        }
        return Err(DiscoverError::NoScript(String::from_str(folder)));
    }
    let mut ts: Vec<InstallTarget> = Vec::new();
    let mut i: usize = 0;
    while i < scripts.len()
        invariant
            i <= scripts@.len(),
            ts@.len() == i,
            forall|j: int| 0 <= j < i ==> #[trigger] ts@[j]@ == target_for(folder@, scripts@[j]@),
        decreases scripts@.len() - i,
    {
        let script = &scripts[i];
        let path = join(folder, script.as_str());
        let name = derive_name(path.as_str(), folder);
        ts.push(InstallTarget::new(name, String::from_str(folder), path));
        i = i + 1;
    }
    proof {
        let sel = texts(scripts@);
        assert forall|j: int| 0 <= j < sel.len() implies #[trigger] ts@[j]@ == target_for(
            folder@,
            sel[j],
        ) by {
            assert(sel[j] == scripts@[j]@);
        }
    }
    Ok(ts)
}

} // verus!
