//! Where the .NET runtime that `scip-dotnet` needs is installed.
use vstd::prelude::*;
use vstd::slice::slice_subrange;
use vstd::string::*;
use crate::graph::text_in;
use crate::indexers::{no_texts, push_text};
use crate::paths::{
    forward, forward_slashes, has_drive, normalize_drive_letter, parts_of, path_parts, same_texts,
    starts_with_drive_letter, with_capital_drive,
};
use crate::text::{
    chars_of, copy_text, has_prefix, pieces, split, starts_with, string_of, texts,
};

verus! {

/// What the machine says of where its programs are.
#[derive(Debug)]
pub struct Machine {
    pub windows: bool,
    /// The variable `ProgramFiles`.
    pub program_files: Option<String>,
    /// The variable `ProgramFiles(x86)`.
    pub program_files_x86: Option<String>,
    /// The user's home directory.
    pub home: Option<String>,
}

/// The user's home directory: on Windows only the second variable is set.
pub fn user_home(home: Option<String>, user_profile: Option<String>) -> (r: Option<String>)
    ensures
        r == if home is Some {
            home
        } else {
            user_profile
        },
{
    match home {
        Some(h) => Some(h),
        None => user_profile,
    }
}

/// Whether `c` stands between the parts of a path.
pub open spec fn separates(c: char, windows: bool) -> bool {
    c == '/' || (windows && c == '\\')
}

fn is_separator(c: char, windows: bool) -> (r: bool)
    ensures
        r == separates(c, windows),
{
    c == '/' || (windows && c == '\\')
}

/// The path `name` inside the directory `dir`.
pub open spec fn inside(dir: Seq<char>, name: Seq<char>, windows: bool) -> Seq<char> {
    if dir.len() == 0 || separates(dir.last(), windows) || (windows && has_drive(dir) && dir.len()
        == 2) {
        dir + name
    } else if windows {
        dir + "\\"@ + name
    } else {
        dir + "/"@ + name
    }
}

/// The path `name` inside the directory `dir`.
pub fn path_inside(dir: &str, name: &str, windows: bool) -> (r: String)
    ensures
        r@ == inside(dir@, name@, windows),
{
    let n: usize = dir.unicode_len();
    let mut out = copy_text(dir);
    if !(n == 0 || is_separator(dir.get_char(n - 1), windows) || (windows
        && starts_with_drive_letter(dir) && n == 2)) {
        out.append(
            if windows {
                "\\"
            } else {
                "/"
            },
        );
    }
    out.append(name);
    out
}

/// Where the first separator of a Windows path stands, from `i` on.
pub open spec fn next_separator(s: Seq<char>, i: int) -> int
    decreases s.len() - i,
{
    if i < 0 || i >= s.len() || separates(s[i], true) {
        i
    } else {
        next_separator(s, i + 1)
    }
}

/// Where the name of a server starts in a path to a share of it.
pub open spec fn server_start(s: Seq<char>) -> int {
    if starts_with(s, "\\\\?\\UNC\\"@) {
        8
    } else {
        2
    }
}

/// How many characters of a path on Windows name a server and a share of it,
/// with the separator behind them; zero where it names none.
pub open spec fn share_len(s: Seq<char>) -> nat {
    let at = server_start(s);
    let mid = next_separator(s, at);
    let end = next_separator(s, mid + 1);
    if s.len() < 2 || !separates(s[0], true) || !separates(s[1], true) || mid <= at || mid + 1
        >= s.len() || end <= mid + 1 {
        0
    } else if end < s.len() {
        (end + 1) as nat
    } else {
        s.len()
    }
}

/// How many characters of a path are its root: on Windows a drive or a share,
/// with the separator behind it.
pub open spec fn root_len(s: Seq<char>, windows: bool) -> nat {
    if windows && has_drive(s) {
        if s.len() > 2 && separates(s[2], windows) {
            3
        } else {
            2
        }
    } else if windows && share_len(s) > 0 {
        share_len(s)
    } else if s.len() > 0 && separates(s[0], windows) {
        1
    } else {
        0
    }
}

/// A path without the separators and the dots at its end, down to its root.
pub open spec fn bare(s: Seq<char>, root: nat, windows: bool) -> Seq<char>
    decreases s.len(),
{
    if s.len() <= root {
        s
    } else if separates(s.last(), windows) {
        bare(s.drop_last(), root, windows)
    } else if s.last() == '.' && s.len() >= 2 && separates(s[s.len() - 2], windows) {
        bare(s.drop_last(), root, windows)
    } else {
        s
    }
}

/// How many characters of a path come before its last part.
pub open spec fn head_len(s: Seq<char>, root: nat, windows: bool) -> nat
    decreases s.len(),
{
    if s.len() <= root || separates(s.last(), windows) {
        s.len()
    } else {
        head_len(s.drop_last(), root, windows)
    }
}

/// The directory that a path lies in; none for a root or an empty path.
pub open spec fn parent_of(s: Seq<char>, windows: bool) -> Option<Seq<char>> {
    let root = root_len(s, windows);
    let t = bare(s, root, windows);
    if t.len() <= root {
        None
    } else {
        Some(bare(t.take(head_len(t, root, windows) as int), root, windows))
    }
}

fn separator_from(s: &str, from: usize) -> (r: usize)
    requires
        from <= s@.len(),
    ensures
        r == next_separator(s@, from as int),
        from <= r <= s@.len(),
{
    let n: usize = s.unicode_len();
    let mut i: usize = from;
    while i < n && !is_separator(s.get_char(i), true)
        invariant
            from <= i <= n,
            n == s@.len(),
            next_separator(s@, from as int) == next_separator(s@, i as int),
        decreases n - i,
    {
        i += 1;
    }
    i
}

fn share_chars(s: &str) -> (r: usize)
    ensures
        r == share_len(s@),
        r <= s@.len(),
{
    let n: usize = s.unicode_len();
    if n < 2 || !is_separator(s.get_char(0), true) || !is_separator(s.get_char(1), true) {
        return 0;
    }
    let chars = chars_of(s);
    let at: usize = if has_prefix(chars.as_slice(), "\\\\?\\UNC\\") {
        proof {
            reveal_strlit("\\\\?\\UNC\\");
        }
        8
    } else {
        2
    };
    let mid: usize = separator_from(s, at);
    if mid <= at || mid >= n || mid + 1 >= n {
        return 0;
    }
    let end: usize = separator_from(s, mid + 1);
    if end <= mid + 1 {
        0
    } else if end < n {
        end + 1
    } else {
        n
    }
}

fn root_chars(s: &str, windows: bool) -> (r: usize)
    ensures
        r == root_len(s@, windows),
        r <= s@.len(),
{
    let n: usize = s.unicode_len();
    if windows && starts_with_drive_letter(s) {
        if n > 2 && is_separator(s.get_char(2), windows) {
            3
        } else {
            2
        }
    } else if windows && share_chars(s) > 0 {
        share_chars(s)
    } else if n > 0 && is_separator(s.get_char(0), windows) {
        1
    } else {
        0
    }
}

fn bare_len(chars: &[char], len: usize, root: usize, windows: bool) -> (r: usize)
    requires
        len <= chars@.len(),
    ensures
        r <= len,
        chars@.take(r as int) == bare(chars@.take(len as int), root as nat, windows),
{
    let ghost all = bare(chars@.take(len as int), root as nat, windows);
    let mut n: usize = len;
    while n > root && (is_separator(chars[n - 1], windows) || (chars[n - 1] == '.' && n >= 2
        && is_separator(chars[n - 2], windows)))
        invariant
            n <= len <= chars@.len(),
            all == bare(chars@.take(n as int), root as nat, windows),
        decreases n,
    {
        assert(chars@.take(n as int).drop_last() =~= chars@.take(n - 1));
        n -= 1;
    }
    n
}

/// A path without the separators and the dots at its end, down to its root.
pub(crate) fn bare_text(s: &str, windows: bool) -> (r: Vec<char>)
    ensures
        r@ == bare(s@, root_len(s@, windows), windows),
{
    let mut chars = chars_of(s);
    let root: usize = root_chars(s, windows);
    let n: usize = bare_len(chars.as_slice(), chars.len(), root, windows);
    assert(chars@.take(chars@.len() as int) =~= chars@);
    chars.truncate(n);
    chars
}

/// The directory that a path lies in.
pub fn parent_path(s: &str, windows: bool) -> (r: Option<String>)
    ensures
        match r {
            Some(p) => parent_of(s@, windows) == Some(p@),
            None => parent_of(s@, windows) is None,
        },
{
    let chars = chars_of(s);
    let root: usize = root_chars(s, windows);
    let n: usize = bare_len(chars.as_slice(), chars.len(), root, windows);
    assert(chars@.take(chars@.len() as int) =~= chars@);
    let ghost t = chars@.take(n as int);
    if n <= root {
        return None;
    }
    let mut k: usize = n;
    assert(t.take(k as int) =~= t);
    while k > root && !is_separator(chars[k - 1], windows)
        invariant
            k <= n <= chars@.len(),
            t == chars@.take(n as int),
            head_len(t, root as nat, windows) == head_len(
                t.take(k as int),
                root as nat,
                windows,
            ),
        decreases k,
    {
        assert(t.take(k as int).drop_last() =~= t.take(k - 1));
        k -= 1;
    }
    assert(t.take(k as int) =~= chars@.take(k as int));
    let m: usize = bare_len(chars.as_slice(), k, root, windows);
    let head = slice_subrange(chars.as_slice(), 0, m);
    Some(string_of(head))
}

/// The parts of a path on Windows.
pub open spec fn windows_parts(s: Seq<char>) -> Seq<Seq<char>> {
    let p = split(forward(with_capital_drive(s)), '/');
    path_parts(p, p.len())
}

/// Whether two paths are the same on Windows: part by part, whichever
/// separators they have and however a drive is written.
pub open spec fn same_on_windows(a: Seq<char>, b: Seq<char>) -> bool {
    windows_parts(a) == windows_parts(b) && (a.len() > 0 && separates(a[0], true)) == (b.len() > 0
        && separates(b[0], true))
}

fn windows_parts_of(s: &str) -> (r: Vec<String>)
    ensures
        texts(r@) == windows_parts(s@),
{
    let text = forward_slashes(normalize_drive_letter(s).as_str());
    let chars = chars_of(text.as_str());
    parts_of(&pieces(chars.as_slice(), '/'))
}

fn leads(s: &str) -> (r: bool)
    ensures
        r == (s@.len() > 0 && separates(s@[0], true)),
{
    s.unicode_len() > 0 && is_separator(s.get_char(0), true)
}

fn is_same_on_windows(a: &str, b: &str) -> (r: bool)
    ensures
        r == same_on_windows(a@, b@),
{
    if leads(a) != leads(b) {
        return false;
    }
    let p = windows_parts_of(a);
    let q = windows_parts_of(b);
    same_texts(&p, &q)
}

/// `v` with `s` behind it, unless it holds the same path already.
pub open spec fn with_path(v: Seq<Seq<char>>, s: Seq<char>) -> Seq<Seq<char>> {
    if exists|i: int| 0 <= i < v.len() && same_on_windows(#[trigger] v[i], s) {
        v
    } else {
        v.push(s)
    }
}

fn push_path(v: &mut Vec<String>, s: &str)
    ensures
        texts(final(v)@) == with_path(texts(old(v)@), s@),
{
    let ghost all = texts(v@);
    let mut i: usize = 0;
    while i < v.len()
        invariant
            i <= v@.len(),
            *v == *old(v),
            all == texts(v@),
            forall|j: int| 0 <= j < i ==> !same_on_windows(#[trigger] all[j], s@),
        decreases v@.len() - i,
    {
        assert(all[i as int] == v@[i as int]@);
        if is_same_on_windows(v[i].as_str(), s) {
            return;
        }
        i += 1;
    }
    push_text(v, s);
}

/// The directory `dotnet` in `base`, where that is known.
pub open spec fn dotnet_in(base: Option<String>) -> Seq<Seq<char>> {
    match base {
        Some(b) => seq![inside(b@, "dotnet"@, true)],
        None => Seq::empty(),
    }
}

/// Where .NET is installed for the whole machine on Windows.
pub open spec fn windows_roots(m: Machine) -> Seq<Seq<char>> {
    if m.windows {
        with_path(
            with_path(
                dotnet_in(m.program_files) + dotnet_in(m.program_files_x86),
                "C:\\Program Files\\dotnet"@,
            ),
            "C:\\Program Files (x86)\\dotnet"@,
        )
    } else {
        Seq::empty()
    }
}

/// Where .NET is installed for the whole machine on Windows: first where its
/// variables say, then where they point by default.
pub fn windows_dotnet_roots(m: &Machine) -> (r: Vec<String>)
    ensures
        texts(r@) == windows_roots(*m),
{
    let mut out = no_texts();
    if !m.windows {
        return out;
    }
    match &m.program_files {
        Some(base) => {
            push_text(&mut out, path_inside(base.as_str(), "dotnet", true).as_str());
        },
        None => {},
    }
    match &m.program_files_x86 {
        Some(base) => {
            push_text(&mut out, path_inside(base.as_str(), "dotnet", true).as_str());
        },
        None => {},
    }
    assert(texts(out@) =~= dotnet_in(m.program_files) + dotnet_in(m.program_files_x86));
    push_path(&mut out, "C:\\Program Files\\dotnet");
    push_path(&mut out, "C:\\Program Files (x86)\\dotnet");
    out
}

/// The paths of `name` inside the directories of `v`.
pub open spec fn all_inside(v: Seq<Seq<char>>, name: Seq<char>, windows: bool) -> Seq<Seq<char>> {
    v.map_values(|d: Seq<char>| inside(d, name, windows))
}

/// The paths of `names` inside the directory `dir`.
pub open spec fn each_inside(dir: Seq<char>, names: Seq<Seq<char>>, windows: bool) -> Seq<
    Seq<char>,
> {
    names.map_values(|name: Seq<char>| inside(dir, name, windows))
}

/// The directory of the user's own installation, where there is a home.
pub open spec fn home_root(m: Machine) -> Seq<Seq<char>> {
    match m.home {
        Some(h) => seq![inside(h@, ".dotnet"@, m.windows)],
        None => Seq::empty(),
    }
}

/// The launchers that may exist though the path does not lead to them.
pub open spec fn known_launchers(m: Machine) -> Seq<Seq<char>> {
    seq![
        "/opt/homebrew/opt/dotnet/bin/dotnet"@,
        "/usr/local/opt/dotnet/bin/dotnet"@,
        "/usr/local/share/dotnet/dotnet"@,
        "/usr/share/dotnet/dotnet"@,
    ] + all_inside(windows_roots(m), "dotnet.exe"@, true) + all_inside(
        home_root(m),
        "dotnet"@,
        m.windows,
    )
}

/// The directories that may hold an installation though no launcher leads to
/// them.
pub open spec fn known_roots(m: Machine) -> Seq<Seq<char>> {
    seq![
        "/opt/homebrew/opt/dotnet/libexec"@,
        "/usr/local/opt/dotnet/libexec"@,
        "/usr/local/share/dotnet"@,
        "/usr/share/dotnet"@,
    ] + windows_roots(m) + home_root(m)
}

/// The launchers to try when the path leads to none.
pub fn well_known_dotnet_binaries(m: &Machine) -> (r: Vec<String>)
    ensures
        texts(r@) == known_launchers(*m),
{
    let mut out = no_texts();
    push_text(&mut out, "/opt/homebrew/opt/dotnet/bin/dotnet");
    push_text(&mut out, "/usr/local/opt/dotnet/bin/dotnet");
    push_text(&mut out, "/usr/local/share/dotnet/dotnet");
    push_text(&mut out, "/usr/share/dotnet/dotnet");
    let ghost fixed = texts(out@);
    let roots = windows_dotnet_roots(m);
    let ghost machine = all_inside(windows_roots(*m), "dotnet.exe"@, true);
    let mut i: usize = 0;
    while i < roots.len()
        invariant
            i <= roots@.len(),
            texts(roots@) == windows_roots(*m),
            machine == all_inside(windows_roots(*m), "dotnet.exe"@, true),
            texts(out@) == fixed + machine.take(i as int),
        decreases roots@.len() - i,
    {
        push_text(&mut out, path_inside(roots[i].as_str(), "dotnet.exe", true).as_str());
        i += 1;
    }
    match &m.home {
        Some(h) => {
            let root = path_inside(h.as_str(), ".dotnet", m.windows);
            push_text(&mut out, path_inside(root.as_str(), "dotnet", m.windows).as_str());
        },
        None => {},
    }
    out
}

/// The installations to try when there is no launcher.
pub fn well_known_dotnet_roots(m: &Machine) -> (r: Vec<String>)
    ensures
        texts(r@) == known_roots(*m),
{
    let mut out = no_texts();
    push_text(&mut out, "/opt/homebrew/opt/dotnet/libexec");
    push_text(&mut out, "/usr/local/opt/dotnet/libexec");
    push_text(&mut out, "/usr/local/share/dotnet");
    push_text(&mut out, "/usr/share/dotnet");
    let ghost fixed = texts(out@);
    let roots = windows_dotnet_roots(m);
    let ghost machine = windows_roots(*m);
    let mut i: usize = 0;
    while i < roots.len()
        invariant
            i <= roots@.len(),
            texts(roots@) == machine,
            texts(out@) == fixed + machine.take(i as int),
        decreases roots@.len() - i,
    {
        push_text(&mut out, roots[i].as_str());
        i += 1;
    }
    match &m.home {
        Some(h) => {
            push_text(&mut out, path_inside(h.as_str(), ".dotnet", m.windows).as_str());
        },
        None => {},
    }
    out
}

/// The installations that a launcher may belong to.
pub open spec fn launcher_roots(launcher: Seq<char>, m: Machine) -> Seq<Seq<char>> {
    match parent_of(launcher, m.windows) {
        None => Seq::empty(),
        Some(dir) => seq![dir] + match parent_of(dir, m.windows) {
            Some(up) => seq![inside(up, "libexec"@, m.windows)],
            None => Seq::empty(),
        } + home_root(m),
    }
}

/// The installations that a launcher may belong to, the likeliest first: its
/// own directory, the sibling that Homebrew installs to, and the user's own.
/// The one that holds an SDK is meant.
pub fn dotnet_roots_of_binary(launcher: &str, m: &Machine) -> (r: Vec<String>)
    ensures
        texts(r@) == launcher_roots(launcher@, *m),
{
    let mut out = no_texts();
    let dir = match parent_path(launcher, m.windows) {
        Some(d) => d,
        None => {
            return out;
        },
    };
    push_text(&mut out, dir.as_str());
    match parent_path(dir.as_str(), m.windows) {
        Some(up) => {
            push_text(&mut out, path_inside(up.as_str(), "libexec", m.windows).as_str());
        },
        None => {},
    }
    match &m.home {
        Some(h) => {
            push_text(&mut out, path_inside(h.as_str(), ".dotnet", m.windows).as_str());
        },
        None => {},
    }
    out
}

/// A directory, and whether it holds an SDK.
#[derive(Debug)]
pub struct Installation {
    pub root: String,
    pub has_sdk: bool,
}

/// The first installation with an SDK, from `i` on.
pub open spec fn first_sdk(v: Seq<Installation>, i: int) -> Option<Seq<char>>
    decreases v.len() - i,
{
    if i < 0 || i >= v.len() {
        None
    } else if v[i].has_sdk {
        Some(v[i].root@)
    } else {
        first_sdk(v, i + 1)
    }
}

/// The first installation with an SDK.
pub fn first_installation(tried: &Vec<Installation>) -> (r: Option<String>)
    ensures
        text_in(r) == first_sdk(tried@, 0),
{
    let mut i: usize = 0;
    while i < tried.len()
        invariant
            i <= tried@.len(),
            first_sdk(tried@, 0) == first_sdk(tried@, i as int),
        decreases tried@.len() - i,
    {
        if tried[i].has_sdk {
            return Some(copy_text(tried[i].root.as_str()));
        }
        i += 1;
    }
    None
}

/// The runtime to use: what the variable says, else the first installation
/// with an SDK. A runtime alone will not do, since projects are built.
pub fn dotnet_root(variable: Option<&str>, tried: &Vec<Installation>) -> (r: Option<String>)
    ensures
        text_in(r) == match variable {
            Some(v) => Some(v@),
            None => first_sdk(tried@, 0),
        },
{
    match variable {
        Some(v) => Some(copy_text(v)),
        None => first_installation(tried),
    }
}

proof fn lemma_first_sdk(v: Seq<Installation>, i: int)
    requires
        0 <= i,
    ensures
        match first_sdk(v, i) {
            Some(root) => exists|k: int|
                i <= k < v.len() && (#[trigger] v[k]).has_sdk && v[k].root@ == root,
            None => forall|k: int| i <= k < v.len() ==> !(#[trigger] v[k]).has_sdk,
        },
    decreases v.len() - i,
{
    if i < v.len() && !v[i].has_sdk {
        lemma_first_sdk(v, i + 1);
    }
}

/// Without the variable, only an installation with an SDK is ever used, and
/// one is used wherever there is one.
pub proof fn law_sdk_is_needed(v: Seq<Installation>)
    ensures
        match first_sdk(v, 0) {
            Some(root) => exists|k: int|
                0 <= k < v.len() && (#[trigger] v[k]).has_sdk && v[k].root@ == root,
            None => forall|k: int| 0 <= k < v.len() ==> !(#[trigger] v[k]).has_sdk,
        },
{
    lemma_first_sdk(v, 0);
}

proof fn lemma_head_of(dir: Seq<char>, sep: char, name: Seq<char>, root: nat, windows: bool)
    requires
        separates(sep, windows),
        root <= dir.len(),
        forall|i: int| 0 <= i < name.len() ==> !separates(#[trigger] name[i], windows),
    ensures
        head_len(dir + seq![sep] + name, root, windows) == dir.len() + 1,
    decreases name.len(),
{
    let s = dir + seq![sep] + name;
    if name.len() == 0 {
        assert(s.last() == sep);
    } else {
        assert(s.last() == name[name.len() - 1]);
        assert(s.drop_last() =~= dir + seq![sep] + name.drop_last());
        lemma_head_of(dir, sep, name.drop_last(), root, windows);
    }
}

/// What is put inside a directory has that directory for its parent: on Windows
/// for a directory on a drive, elsewhere for any.
pub proof fn law_parent_undoes_inside(dir: Seq<char>, name: Seq<char>, windows: bool)
    requires
        windows ==> dir.len() > 3 && has_drive(dir) && separates(dir[2], true),
        dir.len() > 0 && !separates(dir.last(), windows),
        dir.last() == '.' ==> dir.len() >= 2 && !separates(dir[dir.len() - 2], windows),
        name.len() > 0,
        name.last() == '.' ==> name.len() >= 2,
        forall|i: int| 0 <= i < name.len() ==> !separates(#[trigger] name[i], windows),
    ensures
        parent_of(inside(dir, name, windows), windows) == Some(dir),
        inside(dir, name, windows) == dir + (if windows {
            seq!['\\']
        } else {
            seq!['/']
        }) + name,
{
    reveal_strlit("\\");
    reveal_strlit("/");
    let sep = if windows {
        '\\'
    } else {
        '/'
    };
    assert("\\"@ =~= seq!['\\']);
    assert("/"@ =~= seq!['/']);
    let s = dir + seq![sep] + name;
    assert(inside(dir, name, windows) == s);
    let root = root_len(s, windows);
    assert(s[0] == dir[0]);
    if windows {
        assert(s[1] == dir[1] && s[2] == dir[2]);
        assert(root == 3);
    } else {
        assert(root <= 1);
    }
    assert(s.last() == name[name.len() - 1]);
    assert(bare(s, root, windows) == s) by {
        if s.last() == '.' {
            assert(s[s.len() - 2] == name[name.len() - 2]);
        }
    }
    lemma_head_of(dir, sep, name, root, windows);
    let head = s.take(dir.len() as int + 1);
    assert(head.last() == sep);
    assert(head.drop_last() =~= dir);
    assert(dir.len() > root || !windows);
    assert(bare(dir, root, windows) == dir);
    assert(head.len() > root);
}

/// A launcher in a directory `bin` may belong to that directory or to the
/// sibling `libexec`, in this order; then to the user's own installation.
pub proof fn law_launcher_belongs_to_its_neighbours(up: Seq<char>, m: Machine)
    requires
        !m.windows,
        up.len() > 0 && up.last() != '/',
        up.last() == '.' ==> up.len() >= 2 && up[up.len() - 2] != '/',
    ensures
        ({
            let roots = launcher_roots(up + "/bin/dotnet"@, m);
            &&& roots.len() >= 2
            &&& roots[0] == up + "/bin"@
            &&& roots[1] == up + "/libexec"@
            &&& m.home matches Some(h) ==> h@.len() > 0 && h@.last() != '/' ==> roots.contains(
                h@ + "/.dotnet"@,
            )
        }),
{
    reveal_strlit("/bin/dotnet");
    reveal_strlit("/bin");
    reveal_strlit("/libexec");
    reveal_strlit("libexec");
    reveal_strlit("/.dotnet");
    reveal_strlit(".dotnet");
    reveal_strlit("/");
    let bin = seq!['b', 'i', 'n'];
    let name = seq!['d', 'o', 't', 'n', 'e', 't'];
    let dir = up + seq!['/'] + bin;
    assert(up + "/bin"@ =~= dir);
    assert(up + "/bin/dotnet"@ =~= dir + seq!['/'] + name);
    law_parent_undoes_inside(up, bin, false);
    law_parent_undoes_inside(dir, name, false);
    assert(inside(up, "libexec"@, false) =~= up + "/libexec"@);
    let roots = launcher_roots(up + "/bin/dotnet"@, m);
    if m.home is Some {
        let h = m.home->0@;
        if h.len() > 0 && h.last() != '/' {
            assert(inside(h, ".dotnet"@, false) =~= h + "/.dotnet"@);
            assert(roots[2] == h + "/.dotnet"@);
        }
    }
}

/// The installation that is used is the first of those tried that holds an
/// SDK; there is none only where none of them does.
pub proof fn law_first_installation_with_an_sdk(v: Seq<Installation>, k: int)
    requires
        0 <= k < v.len(),
        v[k].has_sdk,
        forall|i: int| 0 <= i < k ==> !(#[trigger] v[i]).has_sdk,
    ensures
        first_sdk(v, 0) == Some(v[k].root@),
{
    lemma_first_with_sdk(v, 0, k);
}

proof fn lemma_first_with_sdk(v: Seq<Installation>, i: int, k: int)
    requires
        0 <= i <= k < v.len(),
        v[k].has_sdk,
        forall|j: int| i <= j < k ==> !(#[trigger] v[j]).has_sdk,
    ensures
        first_sdk(v, i) == Some(v[k].root@),
    decreases k - i,
{
    if i < k {
        lemma_first_with_sdk(v, i + 1, k);
    }
}

/// On Windows a path is the same whichever separators it is written with and
/// whether its drive is a capital.
pub proof fn law_spelling_makes_no_other_path(s: Seq<char>)
    ensures
        same_on_windows(s, s),
        same_on_windows(forward(s), s),
        same_on_windows(s, forward(s)),
        has_drive(s) ==> same_on_windows(with_capital_drive(s), s),
{
    let f = forward(s);
    assert(forward(with_capital_drive(f)) =~= forward(with_capital_drive(s)));
    if has_drive(s) {
        let c = with_capital_drive(s);
        assert(with_capital_drive(c) =~= c);
    }
    if s.len() > 0 {
        assert(separates(f[0], true) == separates(s[0], true));
    }
}

/// A path joins others unless it is among them, and always behind them.
pub proof fn law_path_is_listed_once(v: Seq<Seq<char>>, s: Seq<char>)
    ensures
        with_path(with_path(v, s), s) == with_path(v, s),
        with_path(v, s).len() <= v.len() + 1,
        with_path(v, s).take(v.len() as int) == v,
        exists|i: int| 0 <= i < with_path(v, s).len() && same_on_windows(#[trigger] with_path(v, s)[i], s),
{
    law_spelling_makes_no_other_path(s);
    let w = with_path(v, s);
    if exists|i: int| 0 <= i < v.len() && same_on_windows(#[trigger] v[i], s) {
        let i = choose|i: int| 0 <= i < v.len() && same_on_windows(#[trigger] v[i], s);
        assert(same_on_windows(w[i], s));
        assert(w.take(v.len() as int) =~= v);
    } else {
        assert(w[v.len() as int] == s);
        assert(same_on_windows(w[v.len() as int], s));
        assert(w.take(v.len() as int) =~= v);
    }
}

/// Where the usual installations are: below the directories of programs on
/// Windows, the first variable first; in four places elsewhere; and below the
/// home directory last. Each has its launcher.
pub proof fn law_usual_installations(m: Machine)
    ensures
        !m.windows ==> windows_roots(m).len() == 0,
        m.windows && m.program_files is Some ==> windows_roots(m).len() > 0 && windows_roots(m)[0]
            == inside(m.program_files->0@, "dotnet"@, true),
        m.windows && m.program_files is None && m.program_files_x86 is Some ==> windows_roots(
            m,
        ).len() > 0 && windows_roots(m)[0] == inside(m.program_files_x86->0@, "dotnet"@, true),
        m.windows ==> exists|i: int|
            0 <= i < windows_roots(m).len() && same_on_windows(
                #[trigger] windows_roots(m)[i],
                "C:\\Program Files (x86)\\dotnet"@,
            ),
        m.windows ==> exists|i: int|
            0 <= i < windows_roots(m).len() && same_on_windows(
                #[trigger] windows_roots(m)[i],
                "C:\\Program Files\\dotnet"@,
            ),
        known_launchers(m).len() == known_roots(m).len(),
        known_roots(m)[0] == "/opt/homebrew/opt/dotnet/libexec"@,
        known_roots(m)[1] == "/usr/local/opt/dotnet/libexec"@,
        known_roots(m)[2] == "/usr/local/share/dotnet"@,
        known_roots(m)[3] == "/usr/share/dotnet"@,
        known_launchers(m)[0] == "/opt/homebrew/opt/dotnet/bin/dotnet"@,
        known_launchers(m)[1] == "/usr/local/opt/dotnet/bin/dotnet"@,
        forall|i: int|
            2 <= i < 4 + windows_roots(m).len() && m.windows ==> #[trigger] known_launchers(m)[i]
                == (if i < 4 {
                known_roots(m)[i] + "/dotnet"@
            } else {
                inside(known_roots(m)[i], "dotnet.exe"@, true)
            }),
        m.home is Some ==> known_roots(m).last() == inside(m.home->0@, ".dotnet"@, m.windows)
            && known_launchers(m).last() == inside(known_roots(m).last(), "dotnet"@, m.windows),
{
    let both = dotnet_in(m.program_files) + dotnet_in(m.program_files_x86);
    let a = "C:\\Program Files\\dotnet"@;
    let b = "C:\\Program Files (x86)\\dotnet"@;
    law_path_is_listed_once(both, a);
    law_path_is_listed_once(with_path(both, a), b);
    let r = windows_roots(m);
    if m.windows {
        let one = with_path(both, a);
        let i = choose|i: int| 0 <= i < one.len() && same_on_windows(#[trigger] one[i], a);
        assert(r.take(one.len() as int)[i] == one[i]);
        assert(same_on_windows(r[i], a));
        if both.len() > 0 {
            assert(one.take(both.len() as int)[0] == both[0]);
            assert(r.take(one.len() as int)[0] == one[0]);
        }
    }
    reveal_strlit("/usr/local/share/dotnet/dotnet");
    reveal_strlit("/usr/share/dotnet/dotnet");
    reveal_strlit("/usr/local/share/dotnet");
    reveal_strlit("/usr/share/dotnet");
    reveal_strlit("/dotnet");
    assert("/usr/local/share/dotnet"@ + "/dotnet"@ =~= "/usr/local/share/dotnet/dotnet"@);
    assert("/usr/share/dotnet"@ + "/dotnet"@ =~= "/usr/share/dotnet/dotnet"@);
}

} // verus!
