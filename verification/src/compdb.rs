//! How the sources of an Objective-C project are compiled: by its compilation
//! database where it has one, else by a walk over its files.
use vstd::prelude::*;
use vstd::string::*;
use crate::emitter::{lemma_somes_push, somes};
use crate::json::{
    items_of, json_items, json_member, json_text, json_value, member, parse_json, text_at_key,
    text_member, text_of,
};
use crate::order::{
    lemma_path_total, lemma_path_transitive, path_before, path_comes_before,
};
use crate::paths::{file_extension, name_extension};
use crate::text::{
    chars_of, copy_text, ends_with, has_prefix, pieces, same_text, split, starts_with, texts, words,
    words_of,
};

verus! {

/// A source and the arguments that it is compiled with.
#[derive(Debug)]
pub struct CompilationEntry {
    pub file: String,
    pub args: Vec<String>,
}

/// What a `CompilationEntry` holds.
pub struct EntryView {
    pub file: Seq<char>,
    pub args: Seq<Seq<char>>,
}

impl View for CompilationEntry {
    type V = EntryView;

    open spec fn view(&self) -> EntryView {
        EntryView { file: self.file@, args: texts(self.args@) }
    }
}

pub open spec fn entry_views(v: Seq<CompilationEntry>) -> Seq<EntryView> {
    v.map_values(|e: CompilationEntry| e@)
}

/// The last piece of a path that is neither empty nor a dot.
pub open spec fn last_piece(pieces: Seq<Seq<char>>) -> Seq<char>
    decreases pieces.len(),
{
    if pieces.len() == 0 {
        Seq::empty()
    } else if pieces.last().len() > 0 && pieces.last() != "."@ {
        pieces.last()
    } else {
        last_piece(pieces.drop_last())
    }
}

/// The extension of the file that a path names.
pub open spec fn path_extension(path: Seq<char>) -> Option<Seq<char>> {
    name_extension(last_piece(split(path, '/')))
}

pub(crate) fn extension_of(path: &str) -> (r: Option<String>)
    ensures
        match r {
            Some(e) => path_extension(path@) == Some(e@),
            None => path_extension(path@) is None,
        },
{
    let chars = chars_of(path);
    let parts = pieces(chars.as_slice(), '/');
    let ghost all = texts(parts@);
    let mut n: usize = parts.len();
    assert(all.take(n as int) =~= all);
    while n > 0
        invariant
            n <= parts@.len(),
            all == texts(parts@),
            all == split(path@, '/'),
            last_piece(all) == last_piece(all.take(n as int)),
        decreases n,
    {
        assert(all.take(n as int).drop_last() =~= all.take(n - 1));
        let p = parts[n - 1].as_str();
        if p.unicode_len() > 0 && !same_text(p, ".") {
            return file_extension(p);
        }
        n -= 1;
    }
    let none = String::new();
    file_extension(none.as_str())
}

/// A source of Objective-C or Objective-C++, by its extension.
pub open spec fn is_source(ext: Option<Seq<char>>) -> bool {
    ext == Some("m"@) || ext == Some("mm"@)
}

/// A header of C or Objective-C, by its extension.
pub open spec fn is_header(ext: Option<Seq<char>>) -> bool {
    ext == Some("h"@) || ext == Some("hh"@) || ext == Some("hpp"@) || ext == Some("hxx"@) || ext
        == Some("pch"@)
}

spec fn text_view(o: Option<String>) -> Option<Seq<char>> {
    match o {
        Some(s) => Some(s@),
        None => None,
    }
}

fn is_one_of_sources(ext: &Option<String>) -> (r: bool)
    ensures
        r == is_source(text_view(*ext)),
{
    match ext {
        Some(e) => same_text(e.as_str(), "m") || same_text(e.as_str(), "mm"),
        None => false,
    }
}

fn is_one_of_headers(ext: &Option<String>) -> (r: bool)
    ensures
        r == is_header(text_view(*ext)),
{
    match ext {
        Some(e) => {
            let e = e.as_str();
            same_text(e, "h") || same_text(e, "hh") || same_text(e, "hpp") || same_text(e, "hxx")
                || same_text(e, "pch")
        },
        None => false,
    }
}

/// The path `file` inside the directory `dir`.
pub open spec fn joined(dir: Seq<char>, file: Seq<char>) -> Seq<char> {
    if starts_with(file, "/"@) || dir.len() == 0 {
        file
    } else if dir.last() == '/' {
        dir + file
    } else {
        dir + "/"@ + file
    }
}

/// The path `file` inside the directory `dir`; an absolute path stays what it
/// is.
pub fn join_path(dir: &str, file: &str) -> (r: String)
    ensures
        r@ == joined(dir@, file@),
{
    let f = chars_of(file);
    let n: usize = dir.unicode_len();
    if has_prefix(f.as_slice(), "/") || n == 0 {
        return copy_text(file);
    }
    let mut out = copy_text(dir);
    if dir.get_char(n - 1) != '/' {
        out.append("/");
    }
    out.append(file);
    out
}

/// Whether a word names the source of an entry: by its full path, or as the
/// database has it.
pub open spec fn names_source(word: Seq<char>, file: Seq<char>, listed: Option<Seq<char>>) -> bool {
    word == file || listed == Some(word)
}

/// Compiler arguments without the source, and then without the first, which is
/// the compiler.
pub open spec fn compiler_args(
    words: Seq<Seq<char>>,
    file: Seq<char>,
    listed: Option<Seq<char>>,
) -> Seq<Seq<char>> {
    let rest = words.filter(|w: Seq<char>| !names_source(w, file, listed));
    if rest.len() == 0 {
        rest
    } else {
        rest.skip(1)
    }
}

/// The texts among JSON values.
pub open spec fn json_texts(items: Seq<serde_json::Value>) -> Seq<Seq<char>> {
    somes(items.map_values(|v: serde_json::Value| json_text(v)))
}

/// The compiler arguments of an item of a compilation database: those of its
/// `arguments`, or of the words of its `command`. The source is left out, as
/// `file` and, of the `arguments`, also as the item names it.
pub open spec fn item_args(item: serde_json::Value, file: Seq<char>) -> Seq<Seq<char>> {
    let listed = json_text(json_member(item, "file"@));
    match json_items(json_member(item, "arguments"@)) {
        Some(items) => compiler_args(json_texts(items), file, listed),
        None => match json_text(json_member(item, "command"@)) {
            Some(cmd) => compiler_args(words(cmd), file, None),
            None => Seq::empty(),
        },
    }
}

spec fn str_view(o: Option<&str>) -> Option<Seq<char>> {
    match o {
        Some(s) => Some(s@),
        None => None,
    }
}

fn is_listed(word: &str, listed: Option<&str>) -> (r: bool)
    ensures
        r == (str_view(listed) == Some(word@)),
{
    match listed {
        Some(s) => same_text(word, s),
        None => false,
    }
}

fn without_compiler(all: &Vec<String>, file: &str, listed: Option<&str>) -> (r: Vec<String>)
    ensures
        texts(r@) == compiler_args(texts(all@), file@, str_view(listed)),
{
    broadcast use crate::text::lemma_texts_push;

    let ghost words = texts(all@);
    let ghost keep = |w: Seq<char>| !names_source(w, file@, str_view(listed));
    let mut out: Vec<String> = Vec::new();
    let mut skipped = false;
    let n: usize = all.len();
    let mut i: usize = 0;
    while i < n
        invariant
            i <= n,
            n == all@.len(),
            words == texts(all@),
            keep == (|w: Seq<char>| !names_source(w, file@, str_view(listed))),
            skipped == (words.take(i as int).filter(keep).len() > 0),
            !skipped ==> texts(out@) == Seq::<Seq<char>>::empty(),
            skipped ==> texts(out@) == words.take(i as int).filter(keep).skip(1),
        decreases n - i,
    {
        let ghost before = words.take(i as int);
        proof {
            let now = words.take(i + 1);
            assert(now =~= before.push(words[i as int]));
            before.lemma_filter_push(words[i as int], keep);
        }
        if !same_text(all[i].as_str(), file) && !is_listed(all[i].as_str(), listed) {
            if skipped {
                let ghost held = out@;
                out.push(copy_text(all[i].as_str()));
                assert(texts(out@) == texts(held).push(words[i as int]));
            } else {
                skipped = true;
            }
        }
        i += 1;
    }
    assert(words.take(n as int) =~= words);
    out
}

/// The compiler arguments of an item of a compilation database whose source is
/// `file`.
pub fn extract_args(item: &serde_json::Value, file: &str) -> (r: Vec<String>)
    ensures
        texts(r@) == item_args(*item, file@),
{
    broadcast use crate::text::lemma_texts_push;

    let listed = text_of(member(item, "file"));
    if let Some(items) = items_of(member(item, "arguments")) {
        let mut all: Vec<String> = Vec::new();
        let ghost slots = items@.map_values(|v: serde_json::Value| json_text(v));
        let n: usize = items.len();
        let mut i: usize = 0;
        while i < n
            invariant
                i <= n,
                n == items@.len(),
                slots == items@.map_values(|v: serde_json::Value| json_text(v)),
                texts(all@) == somes(slots.take(i as int)),
            decreases n - i,
        {
            proof {
                assert(slots.take(i + 1) =~= slots.take(i as int).push(slots[i as int]));
                lemma_somes_push(slots.take(i as int), slots[i as int]);
            }
            if let Some(t) = text_of(&items[i]) {
                all.push(copy_text(t));
            }
            i += 1;
        }
        assert(slots.take(n as int) =~= slots);
        return without_compiler(&all, file, listed);
    }
    if let Some(cmd) = text_of(member(item, "command")) {
        let chars = chars_of(cmd);
        let all = words_of(chars.as_slice());
        return without_compiler(&all, file, None);
    }
    let none: Vec<String> = Vec::new();
    none
}

/// The entry that an item of a compilation database gives; none for anything
/// that is no Objective-C source: headers come with the sources that import
/// them.
pub open spec fn item_entry(item: serde_json::Value, file: Seq<char>) -> Option<EntryView> {
    if is_source(path_extension(file)) {
        let full = joined(text_member(item, "directory"@, ""@), file);
        Some(EntryView { file: full, args: item_args(item, full) })
    } else {
        None
    }
}

/// The entries of the first `n` items of a compilation database; none where
/// one of them names no file.
pub open spec fn item_entries(items: Seq<serde_json::Value>, n: nat) -> Option<Seq<EntryView>>
    decreases n,
{
    if n == 0 {
        Some(Seq::empty())
    } else {
        match (item_entries(items, (n - 1) as nat), json_text(json_member(items[n - 1], "file"@))) {
            (Some(before), Some(file)) => match item_entry(items[n - 1], file) {
                Some(e) => Some(before.push(e)),
                None => Some(before),
            },
            _ => None,
        }
    }
}

/// The entries of a compilation database; none where it cannot be read, or
/// holds no Objective-C source.
pub open spec fn database_entries(text: Seq<u8>) -> Option<Seq<EntryView>> {
    match json_value(text) {
        Some(v) => match json_items(v) {
            Some(items) => match item_entries(items, items.len()) {
                Some(entries) if entries.len() > 0 => Some(entries),
                _ => None,
            },
            None => None,
        },
        None => None,
    }
}

proof fn lemma_no_file_stays(items: Seq<serde_json::Value>, i: nat, n: nat)
    requires
        i <= n,
        item_entries(items, i) is None,
    ensures
        item_entries(items, n) is None,
    decreases n - i,
{
    if i < n {
        lemma_no_file_stays(items, i, (n - 1) as nat);
    }
}

/// Reads a compilation database.
pub fn try_compile_commands(text: &[u8]) -> (r: Option<Vec<CompilationEntry>>)
    ensures
        match r {
            Some(v) => database_entries(text@) == Some(entry_views(v@)),
            None => database_entries(text@) is None,
        },
{
    let root = match parse_json(text) {
        Ok(v) => v,
        Err(_) => {
            return None;
        },
    };
    let items = match items_of(&root) {
        Some(items) => items,
        None => {
            return None;
        },
    };
    let mut out: Vec<CompilationEntry> = Vec::new();
    let n: usize = items.len();
    let mut i: usize = 0;
    while i < n
        invariant
            i <= n,
            n == items@.len(),
            json_value(text@) == Some(root),
            json_items(root) == Some(items@),
            item_entries(items@, i as nat) == Some(entry_views(out@)),
        decreases n - i,
    {
        let item = &items[i];
        let file = match text_of(member(item, "file")) {
            Some(f) => f,
            None => {
                proof {
                    lemma_no_file_stays(items@, (i + 1) as nat, n as nat);
                }
                return None;
            },
        };
        let ext = extension_of(file);
        if is_one_of_sources(&ext) {
            let dir = text_at_key(item, "directory", "");
            let full = join_path(dir.as_str(), file);
            let args = extract_args(item, full.as_str());
            let e = CompilationEntry { file: full, args };
            out.push(e);
        }
        i += 1;
    }
    if out.len() == 0 {
        None
    } else {
        Some(out)
    }
}

/// A directory that the walk over a project passes by.
pub open spec fn is_skipped_dir(name: Seq<char>) -> bool {
    starts_with(name, "."@) || name == "build"@ || name == "DerivedData"@ || name == "Pods"@ || name
        == "node_modules"@
}

/// Whether the walk over a project passes a directory by.
pub fn skips_dir(name: &str) -> (r: bool)
    ensures
        r == is_skipped_dir(name@),
{
    let chars = chars_of(name);
    has_prefix(chars.as_slice(), ".") || same_text(name, "build") || same_text(name, "DerivedData")
        || same_text(name, "Pods") || same_text(name, "node_modules")
}

/// A file that the walk over a project came to.
#[derive(Debug)]
pub struct WalkedFile {
    pub dir: String,
    pub name: String,
}

/// What is known of a project without a compilation database.
#[derive(Debug)]
pub struct SourceTree {
    pub root: String,
    /// The files, in the order of the walk.
    pub files: Vec<WalkedFile>,
    /// The SDK of the system.
    pub sdk: Option<String>,
    /// The frameworks of the platform.
    pub frameworks: Option<String>,
}

/// The sources among the first `n` files.
pub open spec fn walked_sources(files: Seq<WalkedFile>, n: nat) -> Seq<Seq<char>>
    decreases n,
{
    if n == 0 {
        Seq::empty()
    } else {
        let before = walked_sources(files, (n - 1) as nat);
        let f = files[n - 1];
        if is_source(name_extension(f.name@)) {
            before.push(joined(f.dir@, f.name@))
        } else {
            before
        }
    }
}

/// Whether `dir` is the root or, by the first `n` files, holds a header.
pub open spec fn holds_header(root: Seq<char>, files: Seq<WalkedFile>, n: nat, dir: Seq<char>) -> bool {
    dir == root || exists|i: int|
        0 <= i < n && (#[trigger] files[i]).dir@ == dir && is_header(
            name_extension(files[i].name@),
        )
}

/// Paths in strictly ascending order, part by part.
pub open spec fn in_strict_path_order(s: Seq<Seq<char>>) -> bool {
    forall|i: int, j: int| 0 <= i < j < s.len() ==> path_before(#[trigger] s[i], #[trigger] s[j])
}

/// The directories to search for headers: the root and every directory that
/// holds one, each once, in order.
pub open spec fn are_header_dirs(dirs: Seq<Seq<char>>, root: Seq<char>, files: Seq<WalkedFile>, n: nat) -> bool {
    &&& in_strict_path_order(dirs)
    &&& forall|d: Seq<char>| dirs.contains(d) <==> holds_header(root, files, n, d)
}

/// Where the directory `d` belongs among `dirs`, at or behind `i`.
pub open spec fn dir_place(dirs: Seq<Seq<char>>, d: Seq<char>, i: int) -> int
    decreases dirs.len() - i,
{
    if i < 0 || i >= dirs.len() || !path_before(dirs[i], d) {
        i
    } else {
        dir_place(dirs, d, i + 1)
    }
}

/// The directories `dirs` and `d`.
pub open spec fn with_dir(dirs: Seq<Seq<char>>, d: Seq<char>) -> Seq<Seq<char>> {
    let p = dir_place(dirs, d, 0);
    if p < dirs.len() && dirs[p] == d {
        dirs
    } else {
        dirs.insert(p, d)
    }
}

/// The root, and the directories of the headers among the first `n` files.
pub open spec fn header_dirs(root: Seq<char>, files: Seq<WalkedFile>, n: nat) -> Seq<Seq<char>>
    decreases n,
{
    if n == 0 {
        seq![root]
    } else {
        let before = header_dirs(root, files, (n - 1) as nat);
        if is_header(name_extension(files[n - 1].name@)) {
            with_dir(before, files[n - 1].dir@)
        } else {
            before
        }
    }
}

proof fn lemma_dir_place(dirs: Seq<Seq<char>>, d: Seq<char>, i: int)
    requires
        0 <= i <= dirs.len(),
    ensures
        i <= dir_place(dirs, d, i) <= dirs.len(),
        forall|k: int| i <= k < dir_place(dirs, d, i) ==> path_before(#[trigger] dirs[k], d),
        dir_place(dirs, d, i) < dirs.len() ==> !path_before(dirs[dir_place(dirs, d, i)], d),
    decreases dirs.len() - i,
{
    if i < dirs.len() && path_before(dirs[i], d) {
        lemma_dir_place(dirs, d, i + 1);
    }
}

proof fn lemma_with_dir(dirs: Seq<Seq<char>>, d: Seq<char>)
    requires
        in_strict_path_order(dirs),
    ensures
        in_strict_path_order(with_dir(dirs, d)),
        forall|x: Seq<char>| with_dir(dirs, d).contains(x) <==> (dirs.contains(x) || x == d),
{
    lemma_dir_place(dirs, d, 0);
    let p = dir_place(dirs, d, 0);
    let now = with_dir(dirs, d);
    if !(p < dirs.len() && dirs[p] == d) {
        assert forall|i: int, j: int| 0 <= i < j < now.len() implies path_before(
            #[trigger] now[i],
            #[trigger] now[j],
        ) by {
            if i == p {
                lemma_path_total(dirs[p], d);
                if j - 1 > p {
                    lemma_path_transitive(d, dirs[p], dirs[j - 1]);
                }
            }
        }
        assert forall|x: Seq<char>| now.contains(x) <==> (dirs.contains(x) || x == d) by {
            if dirs.contains(x) {
                let k = choose|k: int| 0 <= k < dirs.len() && dirs[k] == x;
                assert(now[if k < p {
                    k
                } else {
                    k + 1
                }] == x);
            }
            assert(now[p] == d);
        }
    }
}

/// The directories to search for headers are the root and every directory
/// that holds one, each once, in order.
pub proof fn law_header_dirs(root: Seq<char>, files: Seq<WalkedFile>, n: nat)
    requires
        n <= files.len(),
    ensures
        are_header_dirs(header_dirs(root, files, n), root, files, n),
    decreases n,
{
    let now = header_dirs(root, files, n);
    if n == 0 {
        assert forall|d: Seq<char>| now.contains(d) <==> holds_header(root, files, n, d) by {
            assert(now[0] == root);
        }
    } else {
        law_header_dirs(root, files, (n - 1) as nat);
        let before = header_dirs(root, files, (n - 1) as nat);
        let f = files[n - 1];
        if is_header(name_extension(f.name@)) {
            lemma_with_dir(before, f.dir@);
        }
        assert forall|d: Seq<char>| now.contains(d) <==> holds_header(root, files, n, d) by {
            assert(before.contains(d) <==> holds_header(root, files, (n - 1) as nat, d));
        }
    }
}

fn insert_dir(dirs: &mut Vec<String>, d: &str)
    ensures
        texts(final(dirs)@) == with_dir(texts(old(dirs)@), d@),
{
    let ghost all = texts(dirs@);
    let n: usize = dirs.len();
    let mut i: usize = 0;
    while i < n && path_comes_before(dirs[i].as_str(), d)
        invariant
            i <= n,
            n == dirs@.len(),
            dirs@ == old(dirs)@,
            all == texts(dirs@),
            dir_place(all, d@, 0) == dir_place(all, d@, i as int),
        decreases n - i,
    {
        i += 1;
    }
    if i < n && same_text(dirs[i].as_str(), d) {
        return;
    }
    let t = copy_text(d);
    dirs.insert(i, t);
}

/// The arguments that say where to search for headers and frameworks.
pub open spec fn search_args(dirs: Seq<Seq<char>>, tree: SourceTree) -> Seq<Seq<char>> {
    dirs.map_values(|d: Seq<char>| "-I"@ + d) + (match tree.sdk {
        Some(s) => seq!["-isysroot"@, s@],
        None => Seq::empty(),
    }) + (match tree.frameworks {
        Some(f) => seq!["-iframework"@, f@],
        None => Seq::empty(),
    })
}

/// The entry of a source without a compilation database.
pub open spec fn fallback_entry(file: Seq<char>, common: Seq<Seq<char>>) -> EntryView {
    EntryView {
        file,
        args: seq![
            "-x"@,
            if path_extension(file) == Some("mm"@) {
                "objective-c++"@
            } else {
                "objective-c"@
            },
            "-fobjc-arc"@,
        ] + common,
    }
}

/// The sources to compile: those of the walk or, where some are asked for,
/// the sources among those.
pub open spec fn fallback_sources(tree: SourceTree, files: Option<Seq<Seq<char>>>) -> Seq<Seq<char>> {
    match files {
        None => walked_sources(tree.files@, tree.files@.len()),
        Some(list) => list.map_values(|f: Seq<char>| joined(tree.root@, f)).filter(
            |p: Seq<char>| is_source(path_extension(p)),
        ),
    }
}

/// The entries of a project without a compilation database.
pub open spec fn fallback_entries(tree: SourceTree, files: Option<Seq<Seq<char>>>) -> Seq<EntryView> {
    let dirs = header_dirs(tree.root@, tree.files@, tree.files@.len());
    let common = search_args(dirs, tree);
    fallback_sources(tree, files).map_values(|f: Seq<char>| fallback_entry(f, common))
}

fn search_arguments(tree: &SourceTree) -> (r: Vec<String>)
    ensures
        texts(r@) == search_args(
            header_dirs(tree.root@, tree.files@, tree.files@.len()),
            *tree,
        ),
{
    broadcast use crate::text::lemma_texts_push;

    let mut dirs: Vec<String> = Vec::new();
    let root = copy_text(tree.root.as_str());
    dirs.push(root);
    let n: usize = tree.files.len();
    let mut i: usize = 0;
    while i < n
        invariant
            i <= n,
            n == tree.files@.len(),
            texts(dirs@) == header_dirs(tree.root@, tree.files@, i as nat),
        decreases n - i,
    {
        let f = &tree.files[i];
        let ext = file_extension(f.name.as_str());
        if is_one_of_headers(&ext) {
            insert_dir(&mut dirs, f.dir.as_str());
        }
        i += 1;
    }
    let ghost all = texts(dirs@);
    let ghost flag = |d: Seq<char>| "-I"@ + d;
    let mut out: Vec<String> = Vec::new();
    let m: usize = dirs.len();
    let mut j: usize = 0;
    while j < m
        invariant
            j <= m,
            m == dirs@.len(),
            all == texts(dirs@),
            flag == (|d: Seq<char>| "-I"@ + d),
            texts(out@) == all.take(j as int).map_values(flag),
        decreases m - j,
    {
        let mut a = String::new();
        a.append("-I");
        a.append(dirs[j].as_str());
        let ghost held = out@;
        out.push(a);
        j += 1;
        assert(texts(out@) == texts(held).push(a@));
    }
    if let Some(sdk) = &tree.sdk {
        let a = copy_text("-isysroot");
        let b = copy_text(sdk.as_str());
        out.push(a);
        out.push(b);
    }
    if let Some(fw) = &tree.frameworks {
        let a = copy_text("-iframework");
        let b = copy_text(fw.as_str());
        out.push(a);
        out.push(b);
    }
    out
}

spec fn list_view(files: Option<&Vec<String>>) -> Option<Seq<Seq<char>>> {
    match files {
        Some(list) => Some(texts(list@)),
        None => None,
    }
}

fn sources_of(tree: &SourceTree, files: Option<&Vec<String>>) -> (r: Vec<String>)
    ensures
        texts(r@) == fallback_sources(*tree, list_view(files)),
{
    broadcast use crate::text::lemma_texts_push;

    let mut out: Vec<String> = Vec::new();
    match files {
        Some(list) => {
            let ghost all = texts(list@).map_values(|f: Seq<char>| joined(tree.root@, f));
            let ghost keep = |p: Seq<char>| is_source(path_extension(p));
            let n: usize = list.len();
            let mut i: usize = 0;
            while i < n
                invariant
                    i <= n,
                    n == list@.len(),
                    all == texts(list@).map_values(|f: Seq<char>| joined(tree.root@, f)),
                    keep == (|p: Seq<char>| is_source(path_extension(p))),
                    texts(out@) == all.take(i as int).filter(keep),
                decreases n - i,
            {
                let p = join_path(tree.root.as_str(), list[i].as_str());
                proof {
                    assert(all.take(i + 1) =~= all.take(i as int).push(p@));
                    all.take(i as int).lemma_filter_push(p@, keep);
                }
                let ext = extension_of(p.as_str());
                if is_one_of_sources(&ext) {
                    out.push(p);
                }
                i += 1;
            }
            assert(all.take(n as int) =~= all);
        },
        None => {
            let n: usize = tree.files.len();
            let mut i: usize = 0;
            while i < n
                invariant
                    i <= n,
                    n == tree.files@.len(),
                    texts(out@) == walked_sources(tree.files@, i as nat),
                decreases n - i,
            {
                let f = &tree.files[i];
                let ext = file_extension(f.name.as_str());
                if is_one_of_sources(&ext) {
                    let p = join_path(f.dir.as_str(), f.name.as_str());
                    out.push(p);
                }
                i += 1;
            }
        },
    }
    out
}

/// The entries of a project without a compilation database: its sources, or
/// those that are asked for, with every directory of headers to search.
pub fn glob_fallback(tree: &SourceTree, files: Option<&Vec<String>>) -> (r: Vec<CompilationEntry>)
    ensures
        entry_views(r@) == fallback_entries(
            *tree,
            match files {
                Some(list) => Some(texts(list@)),
                None => None,
            },
        ),
{
    broadcast use crate::text::lemma_texts_push;

    let common = search_arguments(tree);
    let sources = sources_of(tree, files);
    let ghost cv = texts(common@);
    let ghost sv = texts(sources@);
    let ghost make = |f: Seq<char>| fallback_entry(f, cv);
    let mut out: Vec<CompilationEntry> = Vec::new();
    let n: usize = sources.len();
    let mut i: usize = 0;
    while i < n
        invariant
            i <= n,
            n == sources@.len(),
            cv == texts(common@),
            sv == texts(sources@),
            make == (|f: Seq<char>| fallback_entry(f, cv)),
            entry_views(out@) == sv.take(i as int).map_values(make),
        decreases n - i,
    {
        let file = copy_text(sources[i].as_str());
        let plus = match extension_of(file.as_str()) {
            Some(e) => same_text(e.as_str(), "mm"),
            None => false,
        };
        let mut args: Vec<String> = Vec::new();
        let a = copy_text("-x");
        let b = copy_text(if plus { "objective-c++" } else { "objective-c" });
        let c = copy_text("-fobjc-arc");
        args.push(a);
        args.push(b);
        args.push(c);
        let ghost front = texts(args@);
        let m: usize = common.len();
        let mut j: usize = 0;
        while j < m
            invariant
                j <= m,
                m == common@.len(),
                cv == texts(common@),
                texts(args@) == front + cv.take(j as int),
            decreases m - j,
        {
            let ghost held = args@;
            let x = copy_text(common[j].as_str());
            args.push(x);
            j += 1;
            assert(texts(args@) == texts(held).push(x@));
        }
        let e = CompilationEntry { file, args };
        assert(e@.args =~= fallback_entry(sv[i as int], cv).args);
        let ghost held = out@;
        out.push(e);
        i += 1;
        assert(entry_views(out@) =~= entry_views(held).push(e@));
    }
    out
}

/// The entries of a project: those of its compilation database where it has
/// one with Objective-C sources, else those of the walk over its files.
pub fn discover(
    compile_commands: Option<&[u8]>,
    tree: &SourceTree,
    files: Option<&Vec<String>>,
) -> (r: Vec<CompilationEntry>)
    ensures
        entry_views(r@) == match compile_commands {
            Some(text) if database_entries(text@) is Some => database_entries(text@)->0,
            _ => fallback_entries(
                *tree,
                match files {
                    Some(list) => Some(texts(list@)),
                    None => None,
                },
            ),
        },
{
    if let Some(text) = compile_commands {
        if let Some(entries) = try_compile_commands(text) {
            return entries;
        }
    }
    glob_fallback(tree, files)
}

/// Whether a file is a source of Objective-C by its name: something, a dot,
/// and `m` or `mm`.
pub open spec fn is_source_name(name: Seq<char>) -> bool {
    exists|stem: Seq<char>|
        stem.len() > 0 && (name == #[trigger] (stem + ".m"@) || name == stem + ".mm"@)
}

proof fn lemma_source_name(name: Seq<char>)
    ensures
        is_source_name(name) == is_source(name_extension(name)),
{
    reveal_strlit(".m");
    reveal_strlit(".mm");
    reveal_strlit("m");
    reveal_strlit("mm");
    reveal_strlit("..");
    assert(".m"@ =~= seq!['.'] + "m"@);
    assert(".mm"@ =~= seq!['.'] + "mm"@);
    if is_source_name(name) {
        let stem = choose|stem: Seq<char>|
            stem.len() > 0 && (name == #[trigger] (stem + ".m"@) || name == stem + ".mm"@);
        crate::paths::law_extension_follows_the_last_dot(stem, "m"@);
        crate::paths::law_extension_follows_the_last_dot(stem, "mm"@);
        assert(stem + ".m"@ =~= stem + seq!['.'] + "m"@);
        assert(stem + ".mm"@ =~= stem + seq!['.'] + "mm"@);
        assert(name.last() == 'm');
        assert(name != ".."@);
    }
    if is_source(name_extension(name)) {
        let i = crate::text::find_last(name, '.');
        lemma_find_last_is(name, '.');
        let stem = name.take(i);
        if name_extension(name) == Some("m"@) {
            assert(name =~= stem + ".m"@) by {
                assert(name.skip(i + 1)[0] == name[i + 1]);
            }
        } else {
            assert(name =~= stem + ".mm"@) by {
                assert(name.skip(i + 1)[0] == name[i + 1]);
                assert(name.skip(i + 1)[1] == name[i + 2]);
            }
        }
        assert(stem + ".m"@ == stem + ".m"@);
    }
}

proof fn lemma_find_last_is(s: Seq<char>, c: char)
    ensures
        -1 <= crate::text::find_last(s, c) < s.len(),
        crate::text::find_last(s, c) >= 0 ==> s[crate::text::find_last(s, c)] == c,
    decreases s.len(),
{
    if s.len() > 0 && s.last() != c {
        lemma_find_last_is(s.drop_last(), c);
    }
}

proof fn lemma_last_piece_of(a: Seq<Seq<char>>, name: Seq<char>)
    requires
        name.len() > 0,
        name != "."@,
    ensures
        last_piece(a + seq![name]) == name,
{
    assert((a + seq![name]).last() == name);
}

proof fn lemma_split_name(name: Seq<char>)
    requires
        forall|i: int| 0 <= i < name.len() ==> (#[trigger] name[i]) != '/',
    ensures
        split(name, '/') == seq![name],
{
    crate::text::lemma_find_unique(name, '/', name.len() as int);
}

proof fn lemma_path_extension(dir: Seq<char>, name: Seq<char>)
    requires
        forall|i: int| 0 <= i < name.len() ==> (#[trigger] name[i]) != '/',
        is_source_name(name),
    ensures
        path_extension(name) == name_extension(name),
        path_extension(dir + seq!['/'] + name) == name_extension(name),
        is_source(path_extension(name)),
{
    lemma_source_name(name);
    reveal_strlit(".");
    assert(name.len() >= 2) by {
        let stem = choose|stem: Seq<char>|
            stem.len() > 0 && (name == #[trigger] (stem + ".m"@) || name == stem + ".mm"@);
        reveal_strlit(".m");
        reveal_strlit(".mm");
    }
    lemma_split_name(name);
    crate::paths::lemma_split_concat(dir, '/', name);
    lemma_last_piece_of(split(dir, '/'), name);
    lemma_last_piece_of(Seq::empty(), name);
    assert(Seq::<Seq<char>>::empty() + seq![name] =~= seq![name]);
}

proof fn lemma_item_entry_in(items: Seq<serde_json::Value>, n: nat, k: int)
    requires
        0 <= k < n <= items.len(),
        forall|i: int|
            0 <= i < n ==> json_text(json_member(#[trigger] items[i], "file"@)) is Some,
        item_entry(items[k], json_text(json_member(items[k], "file"@))->0) is Some,
    ensures
        item_entries(items, n) matches Some(all) && all.contains(
            item_entry(items[k], json_text(json_member(items[k], "file"@))->0)->0,
        ),
    decreases n,
{
    let x = item_entry(items[k], json_text(json_member(items[k], "file"@))->0)->0;
    lemma_item_entries_some(items, (n - 1) as nat);
    let before = item_entries(items, (n - 1) as nat)->0;
    assert(json_text(json_member(items[n - 1], "file"@)) is Some);
    let now = item_entries(items, n)->0;
    if k == n - 1 {
        assert(now[now.len() - 1] == x);
    } else {
        lemma_item_entry_in(items, (n - 1) as nat, k);
        let p = choose|p: int| 0 <= p < before.len() && before[p] == x;
        assert(now[p] == x);
    }
}

proof fn lemma_item_entries_some(items: Seq<serde_json::Value>, n: nat)
    requires
        n <= items.len(),
        forall|i: int|
            0 <= i < n ==> json_text(json_member(#[trigger] items[i], "file"@)) is Some,
    ensures
        item_entries(items, n) is Some,
    decreases n,
{
    if n > 0 {
        lemma_item_entries_some(items, (n - 1) as nat);
        assert(json_text(json_member(items[n - 1], "file"@)) is Some);
    }
}

/// Whether `words` are the compiler, then `before`, the source under one of
/// its names, and `after`, in which neither the compiler nor an argument names
/// the source.
pub open spec fn is_command_line(
    words: Seq<Seq<char>>,
    compiler: Seq<char>,
    before: Seq<Seq<char>>,
    source: Seq<char>,
    after: Seq<Seq<char>>,
    file: Seq<char>,
    listed: Seq<char>,
) -> bool {
    &&& words == seq![compiler] + before + seq![source] + after
    &&& source == file || source == listed
    &&& compiler != file && compiler != listed
    &&& forall|i: int|
        0 <= i < before.len() ==> (#[trigger] before[i]) != file && before[i] != listed
    &&& forall|i: int| 0 <= i < after.len() ==> (#[trigger] after[i]) != file && after[i] != listed
}

proof fn lemma_keep_all(s: Seq<Seq<char>>, keep: spec_fn(Seq<char>) -> bool)
    requires
        forall|i: int| 0 <= i < s.len() ==> keep(#[trigger] s[i]),
    ensures
        s.filter(keep) == s,
    decreases s.len(),
{
    reveal(Seq::filter);
    if s.len() > 0 {
        lemma_keep_all(s.drop_last(), keep);
        assert(keep(s[s.len() - 1]));
        assert(s.drop_last().push(s.last()) =~= s);
    }
}

proof fn lemma_command_line(
    words: Seq<Seq<char>>,
    compiler: Seq<char>,
    before: Seq<Seq<char>>,
    source: Seq<char>,
    after: Seq<Seq<char>>,
    file: Seq<char>,
    listed: Option<Seq<char>>,
)
    requires
        words == seq![compiler] + before + seq![source] + after,
        names_source(source, file, listed),
        !names_source(compiler, file, listed),
        forall|i: int| 0 <= i < before.len() ==> !names_source(#[trigger] before[i], file, listed),
        forall|i: int| 0 <= i < after.len() ==> !names_source(#[trigger] after[i], file, listed),
    ensures
        compiler_args(words, file, listed) == before + after,
{
    let keep = |w: Seq<char>| !names_source(w, file, listed);
    let head = seq![compiler];
    let mid = seq![source];
    Seq::filter_distributes_over_add(head + before + mid, after, keep);
    Seq::filter_distributes_over_add(head + before, mid, keep);
    Seq::filter_distributes_over_add(head, before, keep);
    lemma_keep_all(before, keep);
    lemma_keep_all(after, keep);
    lemma_keep_all(head, keep);
    assert(mid.filter(keep) =~= Seq::<Seq<char>>::empty()) by {
        reveal_with_fuel(Seq::filter, 2);
        assert(mid.drop_last() =~= Seq::<Seq<char>>::empty());
    }
    let rest = words.filter(keep);
    assert(rest =~= head + before + after);
    assert(rest.skip(1) =~= before + after);
}

/// Every source of a compilation database is compiled with the arguments that
/// its item gives, without the compiler and without the source itself; it lies
/// in the directory that the item names.
pub proof fn law_database_source_is_compiled_as_it_says(
    text: Seq<u8>,
    v: serde_json::Value,
    items: Seq<serde_json::Value>,
    k: int,
    dir: Seq<char>,
    name: Seq<char>,
    compiler: Seq<char>,
    before: Seq<Seq<char>>,
    source: Seq<char>,
    after: Seq<Seq<char>>,
)
    requires
        json_value(text) == Some(v),
        json_items(v) == Some(items),
        forall|i: int|
            0 <= i < items.len() ==> json_text(json_member(#[trigger] items[i], "file"@)) is Some,
        0 <= k < items.len(),
        json_text(json_member(items[k], "directory"@)) == Some(dir),
        json_text(json_member(items[k], "file"@)) == Some(name),
        dir.len() > 0 && dir.last() != '/',
        forall|i: int| 0 <= i < name.len() ==> (#[trigger] name[i]) != '/',
        is_source_name(name),
        ({
            let file = dir + seq!['/'] + name;
            ||| (json_items(json_member(items[k], "arguments"@)) matches Some(a)
                && is_command_line(json_texts(a), compiler, before, source, after, file, name))
            ||| json_items(json_member(items[k], "arguments"@)) is None && (json_text(
                json_member(items[k], "command"@),
            ) matches Some(c) && is_command_line(
                words(c),
                compiler,
                before,
                source,
                after,
                file,
                file,
            ))
        }),
    ensures
        database_entries(text) matches Some(all) && all.contains(
            EntryView { file: dir + seq!['/'] + name, args: before + after },
        ),
{
    let file = dir + seq!['/'] + name;
    lemma_path_extension(dir, name);
    reveal_strlit("/");
    assert("/"@ =~= seq!['/']);
    assert(!starts_with(name, "/"@)) by {
        if starts_with(name, "/"@) {
            assert(name.take(1)[0] == name[0]);
        }
    }
    assert(joined(dir, name) =~= file);
    match json_items(json_member(items[k], "arguments"@)) {
        Some(a) => {
            lemma_command_line(
                json_texts(a),
                compiler,
                before,
                source,
                after,
                file,
                Some(name),
            );
        },
        None => {
            let c = json_text(json_member(items[k], "command"@))->0;
            lemma_command_line(words(c), compiler, before, source, after, file, None);
        },
    }
    lemma_item_entry_in(items, items.len(), k);
}

proof fn lemma_item_entries_stem(items: Seq<serde_json::Value>, n: nat, p: int)
    requires
        n <= items.len(),
        item_entries(items, n) is Some,
        0 <= p < item_entries(items, n)->0.len(),
    ensures
        exists|k: int|
            0 <= k < n && (json_text(json_member(#[trigger] items[k], "file"@)) matches Some(f)
                && item_entry(items[k], f) == Some(item_entries(items, n)->0[p])),
    decreases n,
{
    if n > 0 {
        let before = item_entries(items, (n - 1) as nat)->0;
        if p < before.len() {
            lemma_item_entries_stem(items, (n - 1) as nat, p);
        } else {
            assert(json_text(json_member(items[n - 1], "file"@)) is Some);
        }
    }
}

/// A compilation database gives nothing but sources: every entry is a file
/// that ends in `.m` or `.mm`, as one of the items names it.
pub proof fn law_database_gives_sources_alone(text: Seq<u8>, p: int)
    requires
        database_entries(text) is Some,
        0 <= p < database_entries(text)->0.len(),
    ensures
        json_value(text) is Some && json_items(json_value(text)->0) is Some && exists|k: int|
            #![trigger json_items(json_value(text)->0)->0[k]]
            {
                let items = json_items(json_value(text)->0)->0;
                0 <= k < items.len() && (json_text(
                    json_member(items[k], "file"@),
                ) matches Some(f) && is_source_name(last_piece(split(f, '/'))) && ends_with(
                    database_entries(text)->0[p].file,
                    f,
                ))
            },
{
    let items = json_items(json_value(text)->0)->0;
    lemma_item_entries_stem(items, items.len(), p);
    let k = choose|k: int|
        0 <= k < items.len() && (json_text(
            json_member(#[trigger] items[k], "file"@),
        ) matches Some(f) && item_entry(items[k], f) == Some(database_entries(text)->0[p]));
    let f = json_text(json_member(items[k], "file"@))->0;
    lemma_source_name(last_piece(split(f, '/')));
    let full = database_entries(text)->0[p].file;
    assert(full.skip(full.len() - f.len()) =~= f);
}

proof fn lemma_walked_has(files: Seq<WalkedFile>, n: nat, k: int)
    requires
        0 <= k < n <= files.len(),
        is_source(name_extension(files[k].name@)),
    ensures
        walked_sources(files, n).contains(joined(files[k].dir@, files[k].name@)),
    decreases n,
{
    let now = walked_sources(files, n);
    let x = joined(files[k].dir@, files[k].name@);
    if k == n - 1 {
        assert(now[now.len() - 1] == x);
    } else {
        lemma_walked_has(files, (n - 1) as nat, k);
        let before = walked_sources(files, (n - 1) as nat);
        let p = choose|p: int| 0 <= p < before.len() && before[p] == x;
        assert(now[p] == x);
    }
}

/// Whether these arguments compile a source by a walk over its project: as
/// Objective-C, or as Objective-C++ where it ends in `.mm`, with reference
/// counting, with the root and every directory that holds a header to search,
/// and with what is known of the SDK and its frameworks.
pub open spec fn compiles_walked(args: Seq<Seq<char>>, tree: SourceTree, plus: bool) -> bool {
    &&& args.len() >= 4
    &&& args[0] == "-x"@
    &&& args[1] == if plus {
        "objective-c++"@
    } else {
        "objective-c"@
    }
    &&& args[2] == "-fobjc-arc"@
    &&& args.contains("-I"@ + tree.root@)
    &&& forall|k: int|
        #![trigger tree.files@[k]]
        0 <= k < tree.files@.len() && is_header(name_extension(tree.files@[k].name@))
            ==> args.contains("-I"@ + tree.files@[k].dir@)
    &&& tree.sdk matches Some(s) ==> exists|i: int|
        0 <= i < args.len() - 1 && #[trigger] args[i] == "-isysroot"@ && args[i + 1] == s@
    &&& tree.frameworks matches Some(f) ==> exists|i: int|
        0 <= i < args.len() - 1 && #[trigger] args[i] == "-iframework"@ && args[i + 1] == f@
}

proof fn lemma_compiles_walked(file: Seq<char>, tree: SourceTree)
    ensures
        compiles_walked(
            fallback_entry(
                file,
                search_args(header_dirs(tree.root@, tree.files@, tree.files@.len()), tree),
            ).args,
            tree,
            path_extension(file) == Some("mm"@),
        ),
{
    let n = tree.files@.len();
    let dirs = header_dirs(tree.root@, tree.files@, n);
    let common = search_args(dirs, tree);
    let args = fallback_entry(file, common).args;
    law_header_dirs(tree.root@, tree.files@, n);
    assert forall|d: Seq<char>| dirs.contains(d) implies args.contains("-I"@ + d) by {
        let i = choose|i: int| 0 <= i < dirs.len() && dirs[i] == d;
        assert(common[i] == "-I"@ + d);
        assert(args[3 + i] == "-I"@ + d);
    }
    assert(holds_header(tree.root@, tree.files@, n, tree.root@));
    assert(dirs.contains(tree.root@));
    assert forall|k: int|
        #![trigger tree.files@[k]]
        0 <= k < tree.files@.len() && is_header(
            name_extension(tree.files@[k].name@),
        ) implies args.contains("-I"@ + tree.files@[k].dir@) by {
        assert(holds_header(tree.root@, tree.files@, n, tree.files@[k].dir@));
        assert(dirs.contains(tree.files@[k].dir@));
    }
    let at = 3 + dirs.len() as int;
    if tree.sdk is Some {
        assert(args[at] == "-isysroot"@);
        assert(args[at + 1] == tree.sdk->0@);
    }
    if tree.frameworks is Some {
        let b = at + if tree.sdk is Some {
            2int
        } else {
            0int
        };
        assert(args[b] == "-iframework"@);
        assert(args[b + 1] == tree.frameworks->0@);
    }
}

/// Without a compilation database every source that the walk came to is
/// compiled, and as a walk over the project tells.
pub proof fn law_walked_source_is_compiled(tree: SourceTree, k: int)
    requires
        0 <= k < tree.files@.len(),
        is_source_name(tree.files@[k].name@),
        tree.files@[k].dir@.len() > 0 && tree.files@[k].dir@.last() != '/',
        forall|i: int|
            0 <= i < tree.files@[k].name@.len() ==> (#[trigger] tree.files@[k].name@[i]) != '/',
    ensures
        ({
            let f = tree.files@[k];
            let all = fallback_entries(tree, None);
            exists|p: int|
                #![trigger all[p]]
                0 <= p < all.len() && all[p].file == f.dir@ + seq!['/'] + f.name@
                    && compiles_walked(
                    all[p].args,
                    tree,
                    exists|stem: Seq<char>| stem.len() > 0 && f.name@ == #[trigger] (stem + ".mm"@),
                )
        }),
{
    let f = tree.files@[k];
    let file = f.dir@ + seq!['/'] + f.name@;
    let all = fallback_entries(tree, None);
    lemma_source_name(f.name@);
    lemma_path_extension(f.dir@, f.name@);
    lemma_walked_has(tree.files@, tree.files@.len(), k);
    reveal_strlit("/");
    assert("/"@ =~= seq!['/']);
    assert(!starts_with(f.name@, "/"@)) by {
        if starts_with(f.name@, "/"@) {
            assert(f.name@.take(1)[0] == f.name@[0]);
        }
    }
    assert(joined(f.dir@, f.name@) =~= file);
    let sources = walked_sources(tree.files@, tree.files@.len());
    let p = choose|p: int| 0 <= p < sources.len() && sources[p] == file;
    lemma_compiles_walked(file, tree);
    lemma_plus_name(f.name@);
    assert(all[p].file == file);
}

proof fn lemma_plus_name(name: Seq<char>)
    requires
        is_source_name(name),
    ensures
        (name_extension(name) == Some("mm"@)) == exists|stem: Seq<char>|
            stem.len() > 0 && name == #[trigger] (stem + ".mm"@),
{
    reveal_strlit(".m");
    reveal_strlit(".mm");
    reveal_strlit("m");
    reveal_strlit("mm");
    reveal_strlit("..");
    assert(".m"@ =~= seq!['.'] + "m"@);
    assert(".mm"@ =~= seq!['.'] + "mm"@);
    let stem = choose|stem: Seq<char>|
        stem.len() > 0 && (name == #[trigger] (stem + ".m"@) || name == stem + ".mm"@);
    crate::paths::law_extension_follows_the_last_dot(stem, "m"@);
    crate::paths::law_extension_follows_the_last_dot(stem, "mm"@);
    assert(stem + ".m"@ =~= stem + seq!['.'] + "m"@);
    assert(stem + ".mm"@ =~= stem + seq!['.'] + "mm"@);
    assert(name.last() == 'm');
    assert(name != ".."@);
    if exists|t: Seq<char>| t.len() > 0 && name == #[trigger] (t + ".mm"@) {
        let t = choose|t: Seq<char>| t.len() > 0 && name == #[trigger] (t + ".mm"@);
        crate::paths::law_extension_follows_the_last_dot(t, "mm"@);
        assert(t + ".mm"@ =~= t + seq!['.'] + "mm"@);
    }
    if name_extension(name) == Some("mm"@) {
        if name == stem + ".m"@ {
            assert(name_extension(name) == Some("m"@));
            assert("m"@.len() == 1 && "mm"@.len() == 2);
        }
        assert(name == stem + ".mm"@);
    }
}

/// The walk over a project passes by what is hidden, built or fetched, and by
/// nothing else.
pub proof fn law_walk_passes_by(name: Seq<char>)
    ensures
        is_skipped_dir(name) <==> (name.len() > 0 && name[0] == '.') || name == "build"@ || name
            == "DerivedData"@ || name == "Pods"@ || name == "node_modules"@,
{
    reveal_strlit(".");
    assert("."@ =~= seq!['.']);
    if name.len() > 0 {
        assert(name.take(1) =~= seq![name[0]]);
        assert(seq![name[0]][0] == name[0]);
        assert(seq!['.'][0] == '.');
    }
}

/// A header is told by any of five extensions, a source by either of two.
pub proof fn law_files_are_told_by_extension(ext: Seq<char>)
    ensures
        is_header(Some(ext)) <==> seq!["h"@, "hh"@, "hpp"@, "hxx"@, "pch"@].contains(ext),
        is_source(Some(ext)) <==> seq!["m"@, "mm"@].contains(ext),
        !is_header(None) && !is_source(None),
{
    let h = seq!["h"@, "hh"@, "hpp"@, "hxx"@, "pch"@];
    assert(h[0] == "h"@ && h[1] == "hh"@ && h[2] == "hpp"@ && h[3] == "hxx"@ && h[4] == "pch"@);
    let m = seq!["m"@, "mm"@];
    assert(m[0] == "m"@ && m[1] == "mm"@);
}

} // verus!
