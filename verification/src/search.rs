//! The searches through a project's directories: breadth first, one listed
//! directory at a time.
use vstd::prelude::*;
use vstd::string::*;
use crate::graph::text_in;
use crate::order::{in_path_order, sort_paths};
use crate::paths::{below, file_extension, name_extension, parts_of, path_below, path_parts};
use crate::text::{
    ascii_lower, chars_of, copy_text, has_prefix, is_text, lemma_texts_push, lowered, pieces,
    same_text, split, starts_with, texts,
};

verus! {

/// An entry of a listed directory.
#[derive(Debug)]
pub struct DirEntry {
    pub path: String,
    pub name: String,
    pub is_file: bool,
    pub is_dir: bool,
}

/// What a `DirEntry` holds.
pub struct DirEntryView {
    pub path: Seq<char>,
    pub name: Seq<char>,
    pub is_file: bool,
    pub is_dir: bool,
}

impl View for DirEntry {
    type V = DirEntryView;

    open spec fn view(&self) -> DirEntryView {
        DirEntryView {
            path: self.path@,
            name: self.name@,
            is_file: self.is_file,
            is_dir: self.is_dir,
        }
    }
}

/// What the entries of a listing hold.
pub open spec fn listing(v: Seq<DirEntry>) -> Seq<DirEntryView> {
    v.map_values(|e: DirEntry| e@)
}

/// A directory that is still to be looked at, and how deep it lies.
pub struct Pending {
    pub path: Seq<char>,
    pub depth: nat,
}

/// The directories that are still to be looked at, in order.
#[derive(Debug)]
pub struct DirQueue {
    dirs: Vec<(String, usize)>,
    next: usize,
    max_depth: usize,
}

/// The paths of `children`, at `depth`.
pub open spec fn pending(children: Seq<Seq<char>>, depth: nat) -> Seq<Pending> {
    Seq::new(children.len(), |i: int| Pending { path: children[i], depth })
}

/// What a `DirQueue` holds: the directories that are still to be looked at, in
/// order, and how deep the search goes.
pub struct QueueView {
    pub dirs: Seq<Pending>,
    pub limit: nat,
}

/// A queue that holds only the directory `root`.
pub open spec fn queue_of(root: Seq<char>, limit: nat) -> QueueView {
    QueueView { dirs: seq![(Pending { path: root, depth: 0 })], limit }
}

/// The queue without its first directory and with what lies in that one,
/// unless it lies too deep.
pub open spec fn advanced(queue: QueueView, children: Seq<Seq<char>>) -> QueueView {
    let dirs = queue.dirs;
    QueueView {
        dirs: if dirs.len() == 0 {
            dirs
        } else if dirs[0].depth < queue.limit {
            dirs.skip(1) + pending(children, dirs[0].depth + 1)
        } else {
            dirs.skip(1)
        },
        ..queue
    }
}

impl View for DirQueue {
    type V = QueueView;

    closed spec fn view(&self) -> QueueView {
        QueueView {
            dirs: Seq::new(
                if self.next <= self.dirs@.len() {
                    (self.dirs@.len() - self.next) as nat
                } else {
                    0
                },
                |i: int|
                    Pending {
                        path: self.dirs@[self.next + i].0@,
                        depth: self.dirs@[self.next + i].1 as nat,
                    },
            ),
            limit: self.max_depth as nat,
        }
    }
}

impl DirQueue {
    /// A search that starts at `root` and goes `max_depth` levels down.
    pub fn new(root: &str, max_depth: usize) -> (r: DirQueue)
        ensures
            r@ == queue_of(root@, max_depth as nat),
    {
        let mut dirs: Vec<(String, usize)> = Vec::new();
        dirs.push((copy_text(root), 0));
        let r = DirQueue { dirs, next: 0, max_depth };
        assert(r@.dirs =~= seq![(Pending { path: root@, depth: 0 })]);
        r
    }

    /// The directory to look at next.
    pub fn front(&self) -> (r: Option<String>)
        ensures
            match r {
                Some(p) => self@.dirs.len() > 0 && p@ == self@.dirs[0].path,
                None => self@.dirs.len() == 0,
            },
    {
        if self.next < self.dirs.len() {
            Some(copy_text(self.dirs[self.next].0.as_str()))
        } else {
            None
        }
    }

    /// Goes on to the next directory, with those in this one to follow.
    pub fn advance(&mut self, children: &Vec<String>)
        ensures
            final(self)@ == advanced(old(self)@, texts(children@)),
    {
        if self.next >= self.dirs.len() {
            return;
        }
        let ghost before = self@.dirs;
        let ghost kids = texts(children@);
        let depth: usize = self.dirs[self.next].1;
        self.next = self.next + 1;
        if depth < self.max_depth {
            let mut i: usize = 0;
            while i < children.len()
                invariant
                    i <= children@.len(),
                    kids == texts(children@),
                    depth < usize::MAX,
                    self.max_depth == old(self).max_depth,
                    self.next <= self.dirs@.len(),
                    self@.dirs == before.skip(1) + pending(kids.take(i as int), depth as nat + 1),
                decreases children@.len() - i,
            {
                let ghost had = self@.dirs;
                self.dirs.push((copy_text(children[i].as_str()), depth + 1));
                assert(self@.dirs =~= had.push(Pending { path: kids[i as int], depth: depth as nat + 1 }));
                i += 1;
            }
        }
        assert(self@.dirs =~= advanced(old(self)@, kids).dirs);
    }
}

/// Directories in the order of a search that goes breadth first: none lies
/// less deep than one before it, or more than one level deeper than the first.
pub open spec fn breadth_first(queue: Seq<Pending>) -> bool {
    forall|i: int, j: int|
        0 <= i <= j < queue.len() ==> (#[trigger] queue[i]).depth <= (#[trigger] queue[j]).depth
            <= queue[0].depth + 1
}

/// Every step of a search keeps to the order: what lies less deep is looked at
/// first, and nothing below the limit is ever looked at.
pub proof fn law_search_goes_breadth_first(queue: QueueView, children: Seq<Seq<char>>)
    requires
        breadth_first(queue.dirs),
        forall|i: int|
            0 <= i < queue.dirs.len() ==> (#[trigger] queue.dirs[i]).depth <= queue.limit,
    ensures
        breadth_first(advanced(queue, children).dirs),
        forall|i: int|
            0 <= i < advanced(queue, children).dirs.len() ==> (#[trigger] advanced(
                queue,
                children,
            ).dirs[i]).depth <= queue.limit,
{
    let dirs = queue.dirs;
    let next = advanced(queue, children).dirs;
    if dirs.len() > 0 {
        let d = dirs[0].depth;
        assert forall|i: int| 0 <= i < next.len() implies {
            let e = (#[trigger] next[i]).depth;
            if i < dirs.len() - 1 {
                e == dirs[i + 1].depth && d <= e <= d + 1
            } else {
                e == d + 1 && d < queue.limit
            }
        } by {}
        assert forall|i: int, j: int| 0 <= i <= j < next.len() implies (#[trigger] next[i]).depth
            <= (#[trigger] next[j]).depth <= next[0].depth + 1 by {}
    }
}

/// The paths of the first `n` entries that are directories.
pub open spec fn subdirs(entries: Seq<DirEntryView>, n: nat) -> Seq<Seq<char>>
    decreases n,
{
    if n == 0 {
        Seq::empty()
    } else if !entries[n - 1].is_file && entries[n - 1].is_dir {
        subdirs(entries, (n - 1) as nat).push(entries[n - 1].path)
    } else {
        subdirs(entries, (n - 1) as nat)
    }
}

/// A file with the extension `ext`.
pub open spec fn is_file_with(e: DirEntryView, ext: Seq<char>) -> bool {
    e.is_file && name_extension(e.name) == Some(ext)
}

/// The path of the first entry, from `i` on, that is a file with the
/// extension `ext`.
pub open spec fn first_file(entries: Seq<DirEntryView>, ext: Seq<char>, i: int) -> Option<Seq<char>>
    decreases entries.len() - i,
{
    if i < 0 || i >= entries.len() {
        None
    } else if is_file_with(entries[i], ext) {
        Some(entries[i].path)
    } else {
        first_file(entries, ext, i + 1)
    }
}

fn first_file_of(entries: &Vec<DirEntry>, ext: &str) -> (r: Option<String>)
    ensures
        match r {
            Some(p) => first_file(listing(entries@), ext@, 0) == Some(p@),
            None => first_file(listing(entries@), ext@, 0) is None,
        },
{
    let ghost all = listing(entries@);
    let mut i: usize = 0;
    while i < entries.len()
        invariant
            i <= entries@.len(),
            all == listing(entries@),
            first_file(all, ext@, 0) == first_file(all, ext@, i as int),
        decreases entries@.len() - i,
    {
        if entries[i].is_file {
            match file_extension(entries[i].name.as_str()) {
                Some(e) => {
                    if same_text(e.as_str(), ext) {
                        return Some(copy_text(entries[i].path.as_str()));
                    }
                },
                None => {},
            }
        }
        i += 1;
    }
    None
}

fn subdirs_of(entries: &Vec<DirEntry>) -> (r: Vec<String>)
    ensures
        texts(r@) == subdirs(listing(entries@), entries@.len()),
{
    broadcast use lemma_texts_push;

    let ghost all = listing(entries@);
    let mut out: Vec<String> = Vec::new();
    let mut i: usize = 0;
    while i < entries.len()
        invariant
            i <= entries@.len(),
            all == listing(entries@),
            texts(out@) == subdirs(all, i as nat),
        decreases entries@.len() - i,
    {
        if !entries[i].is_file && entries[i].is_dir {
            out.push(copy_text(entries[i].path.as_str()));
        }
        i += 1;
    }
    out
}

/// How many levels down a .NET project is looked for.
pub const PROJECT_DEPTH: usize = 5;

/// A search for the file of a .NET project: a solution where there is one,
/// else a single project.
#[derive(Debug)]
pub struct ProjectSearch {
    queue: DirQueue,
    sln: Option<String>,
    csproj: Option<String>,
}

/// What a `ProjectSearch` holds.
pub struct ProjectSearchView {
    pub queue: QueueView,
    pub sln: Option<Seq<char>>,
    pub csproj: Option<Seq<char>>,
}

/// The first of two texts that is there.
pub open spec fn or_else(a: Option<Seq<char>>, b: Option<Seq<char>>) -> Option<Seq<char>> {
    match a {
        Some(_) => a,
        None => b,
    }
}

/// The search after the entries of its first directory were seen.
pub open spec fn project_step(
    s: ProjectSearchView,
    entries: Seq<DirEntryView>,
) -> ProjectSearchView {
    ProjectSearchView {
        queue: advanced(s.queue, subdirs(entries, entries.len())),
        sln: or_else(s.sln, first_file(entries, "sln"@, 0)),
        csproj: or_else(s.csproj, first_file(entries, "csproj"@, 0)),
    }
}

/// The file that the search has found.
pub open spec fn project_found(s: ProjectSearchView) -> Option<Seq<char>> {
    or_else(s.sln, s.csproj)
}

impl View for ProjectSearch {
    type V = ProjectSearchView;

    closed spec fn view(&self) -> ProjectSearchView {
        ProjectSearchView {
            queue: self.queue@,
            sln: text_in(self.sln),
            csproj: text_in(self.csproj),
        }
    }
}

impl ProjectSearch {
    /// A search below `root`.
    pub fn new(root: &str) -> (r: ProjectSearch)
        ensures
            r@ == (ProjectSearchView {
                queue: queue_of(root@, PROJECT_DEPTH as nat),
                sln: None,
                csproj: None,
            }),
    {
        ProjectSearch { queue: DirQueue::new(root, PROJECT_DEPTH), sln: None, csproj: None }
    }

    /// The directory to list next; none once a solution is found or nothing
    /// is left.
    pub fn next_dir(&self) -> (r: Option<String>)
        ensures
            match r {
                Some(p) => self@.sln is None && self@.queue.dirs.len() > 0 && p@
                    == self@.queue.dirs[0].path,
                None => self@.sln is Some || self@.queue.dirs.len() == 0,
            },
    {
        if self.sln.is_some() {
            None
        } else {
            self.queue.front()
        }
    }

    /// Goes on with the entries of the directory that was listed; none where
    /// it cannot be read.
    pub fn listed(&mut self, entries: &Vec<DirEntry>)
        ensures
            final(self)@ == project_step(old(self)@, listing(entries@)),
    {
        let dirs = subdirs_of(entries);
        self.queue.advance(&dirs);
        if self.sln.is_none() {
            self.sln = first_file_of(entries, "sln");
        }
        if self.csproj.is_none() {
            self.csproj = first_file_of(entries, "csproj");
        }
    }

    /// The file that was found.
    pub fn found(self) -> (r: Option<String>)
        ensures
            text_in(r) == project_found(self@),
    {
        match self.sln {
            Some(p) => Some(p),
            None => self.csproj,
        }
    }
}

/// A solution is preferred to a project wherever they lie, and once one is
/// found it stays.
pub proof fn law_solution_is_preferred(s: ProjectSearchView, entries: Seq<DirEntryView>)
    ensures
        s.sln is Some ==> project_found(project_step(s, entries)) == s.sln,
        s.sln is None && first_file(entries, "sln"@, 0) is Some ==> project_found(
            project_step(s, entries),
        ) == first_file(entries, "sln"@, 0),
        s.sln is None && first_file(entries, "sln"@, 0) is None && s.csproj is Some
            ==> project_found(project_step(s, entries)) == s.csproj,
{
}

/// How many levels down the root of an sbt build is looked for.
pub const SBT_DEPTH: usize = 4;

/// A directory that holds no part of a build's definition.
pub open spec fn skipped_for_sbt(name: Seq<char>) -> bool {
    name == "target"@ || name == ".git"@ || name == "node_modules"@ || name == ".travsr"@
}

fn skips_for_sbt(name: &str) -> (r: bool)
    ensures
        r == skipped_for_sbt(name@),
{
    same_text(name, "target") || same_text(name, ".git") || same_text(name, "node_modules")
        || same_text(name, ".travsr")
}

/// The paths of the first `n` entries that may lead to the root of a build.
pub open spec fn sbt_children(entries: Seq<DirEntryView>, n: nat) -> Seq<Seq<char>>
    decreases n,
{
    if n == 0 {
        Seq::empty()
    } else if entries[n - 1].is_dir && !skipped_for_sbt(entries[n - 1].name) {
        sbt_children(entries, (n - 1) as nat).push(entries[n - 1].path)
    } else {
        sbt_children(entries, (n - 1) as nat)
    }
}

fn sbt_children_of(entries: &Vec<DirEntry>) -> (r: Vec<String>)
    ensures
        texts(r@) == sbt_children(listing(entries@), entries@.len()),
{
    broadcast use lemma_texts_push;

    let ghost all = listing(entries@);
    let mut out: Vec<String> = Vec::new();
    let mut i: usize = 0;
    while i < entries.len()
        invariant
            i <= entries@.len(),
            all == listing(entries@),
            texts(out@) == sbt_children(all, i as nat),
        decreases entries@.len() - i,
    {
        if entries[i].is_dir && !skips_for_sbt(entries[i].name.as_str()) {
            out.push(copy_text(entries[i].path.as_str()));
        }
        i += 1;
    }
    out
}

/// Whether `a` is `b` in the order of paths.
pub open spec fn put_in_order(a: Seq<Seq<char>>, b: Seq<Seq<char>>) -> bool {
    in_path_order(a) && a.to_multiset() == b.to_multiset()
}

/// A search for the root of an sbt build: the first directory, breadth first
/// and in the order of paths, that holds a `build.sbt`.
#[derive(Debug)]
pub struct SbtSearch {
    queue: DirQueue,
    root: Option<String>,
}

/// What an `SbtSearch` holds.
pub struct SbtSearchView {
    pub queue: QueueView,
    pub root: Option<Seq<char>>,
}

impl View for SbtSearch {
    type V = SbtSearchView;

    closed spec fn view(&self) -> SbtSearchView {
        SbtSearchView { queue: self.queue@, root: text_in(self.root) }
    }
}

/// The search after its first directory was seen to hold a build's
/// definition or not, with `children` to follow.
pub open spec fn sbt_step(
    s: SbtSearchView,
    has_build: bool,
    children: Seq<Seq<char>>,
) -> SbtSearchView {
    if s.queue.dirs.len() == 0 || s.root is Some {
        s
    } else if has_build {
        SbtSearchView { root: Some(s.queue.dirs[0].path), ..s }
    } else {
        SbtSearchView { queue: advanced(s.queue, children), ..s }
    }
}

impl SbtSearch {
    /// A search below `root`, `max_depth` levels down.
    pub fn new(root: &str, max_depth: usize) -> (r: SbtSearch)
        ensures
            r@ == (SbtSearchView {
                queue: queue_of(root@, max_depth as nat),
                root: None,
            }),
    {
        SbtSearch { queue: DirQueue::new(root, max_depth), root: None }
    }

    /// The directory to look at next; none once the root is found or nothing
    /// is left.
    pub fn next_dir(&self) -> (r: Option<String>)
        ensures
            match r {
                Some(p) => self@.root is None && self@.queue.dirs.len() > 0 && p@
                    == self@.queue.dirs[0].path,
                None => self@.root is Some || self@.queue.dirs.len() == 0,
            },
    {
        if self.root.is_some() {
            None
        } else {
            self.queue.front()
        }
    }

    /// Goes on: whether the directory holds a `build.sbt`, and what else it
    /// holds.
    pub fn visited(&mut self, has_build: bool, entries: &Vec<DirEntry>)
        ensures
            exists|children: Seq<Seq<char>>| #[trigger]
                put_in_order(children, sbt_children(listing(entries@), entries@.len()))
                    && final(self)@ == sbt_step(
                    old(self)@,
                    has_build,
                    children,
                ),
    {
        let kept = sbt_children_of(entries);
        let ghost before = texts(kept@);
        let children = sort_paths(kept);
        assert(put_in_order(texts(children@), before));
        if self.root.is_some() {
            return;
        }
        let front = match self.queue.front() {
            Some(p) => p,
            None => {
                return;
            },
        };
        if has_build {
            self.root = Some(front);
        } else {
            self.queue.advance(&children);
        }
    }

    /// The root that was found.
    pub fn found(self) -> (r: Option<String>)
        ensures
            text_in(r) == self@.root,
    {
        self.root
    }
}

/// A directory that may hold what a compiler wrote: neither hidden nor a
/// store of dependencies.
pub open spec fn may_hold_output(name: Seq<char>) -> bool {
    !starts_with(name, "."@) && name != "node_modules"@
}

/// Whether a part of a path is `target`, in any case.
pub open spec fn has_target(parts: Seq<Seq<char>>) -> bool {
    exists|i: int| 0 <= i < parts.len() && ascii_lower(#[trigger] parts[i]) == "target"@
}

/// What is left of `file` below `sbt_root`; the whole path where it lies
/// elsewhere.
pub open spec fn relative_or_whole(sbt_root: Seq<char>, file: Seq<char>) -> Seq<char> {
    match below(file, sbt_root) {
        Some(rel) => rel,
        None => file,
    }
}

/// Whether a directory called `target` lies between `sbt_root` and `file`.
pub open spec fn below_target(sbt_root: Seq<char>, file: Seq<char>) -> bool {
    let rel = split(relative_or_whole(sbt_root, file), '/');
    has_target(path_parts(rel, rel.len()))
}

/// Whether a directory called `target` lies between `sbt_root` and `file`.
pub fn under_target_dir(sbt_root: &str, file: &str) -> (r: bool)
    ensures
        r == below_target(sbt_root@, file@),
{
    let rel = match path_below(file, sbt_root) {
        Some(rel) => rel,
        None => copy_text(file),
    };
    let chars = chars_of(rel.as_str());
    let parts = parts_of(&pieces(chars.as_slice(), '/'));
    let ghost all = texts(parts@);
    let mut i: usize = 0;
    while i < parts.len()
        invariant
            i <= parts@.len(),
            all == texts(parts@),
            below_target(sbt_root@, file@) == has_target(all),
            forall|j: int| 0 <= j < i ==> ascii_lower(#[trigger] all[j]) != "target"@,
        decreases parts@.len() - i,
    {
        assert(all[i as int] == parts@[i as int]@);
        let part = chars_of(parts[i].as_str());
        let low = lowered(part.as_slice());
        if is_text(low.as_slice(), "target") {
            return true;
        }
        i += 1;
    }
    false
}

/// Whether an entry is a file that a compiler wrote below `sbt_root`.
pub open spec fn is_semanticdb(sbt_root: Seq<char>, e: DirEntryView) -> bool {
    !e.is_dir && name_extension(e.name) == Some("semanticdb"@) && below_target(sbt_root, e.path)
}

fn is_semanticdb_file(sbt_root: &str, e: &DirEntry) -> (r: bool)
    ensures
        r == is_semanticdb(sbt_root@, e@),
{
    if e.is_dir {
        return false;
    }
    match file_extension(e.name.as_str()) {
        Some(ext) => same_text(ext.as_str(), "semanticdb") && under_target_dir(
            sbt_root,
            e.path.as_str(),
        ),
        None => false,
    }
}

/// The paths of the first `n` entries that are directories worth entering.
pub open spec fn output_dirs(entries: Seq<DirEntryView>, n: nat) -> Seq<Seq<char>>
    decreases n,
{
    if n == 0 {
        Seq::empty()
    } else if entries[n - 1].is_dir && may_hold_output(entries[n - 1].name) {
        output_dirs(entries, (n - 1) as nat).push(entries[n - 1].path)
    } else {
        output_dirs(entries, (n - 1) as nat)
    }
}

/// The paths of the first `n` entries that a compiler wrote.
pub open spec fn semanticdb_files(
    sbt_root: Seq<char>,
    entries: Seq<DirEntryView>,
    n: nat,
) -> Seq<Seq<char>>
    decreases n,
{
    if n == 0 {
        Seq::empty()
    } else if is_semanticdb(sbt_root, entries[n - 1]) {
        semanticdb_files(sbt_root, entries, (n - 1) as nat).push(entries[n - 1].path)
    } else {
        semanticdb_files(sbt_root, entries, (n - 1) as nat)
    }
}

/// A search for all that a compiler wrote below the root of an sbt build.
#[derive(Debug)]
pub struct SemanticdbSearch {
    root: String,
    queue: DirQueue,
    files: Vec<String>,
}

/// What a `SemanticdbSearch` holds.
pub struct SemanticdbSearchView {
    pub root: Seq<char>,
    pub queue: QueueView,
    pub files: Seq<Seq<char>>,
}

impl View for SemanticdbSearch {
    type V = SemanticdbSearchView;

    closed spec fn view(&self) -> SemanticdbSearchView {
        SemanticdbSearchView { root: self.root@, queue: self.queue@, files: texts(self.files@) }
    }
}

/// The search after the entries of its first directory were seen.
pub open spec fn semanticdb_step(
    s: SemanticdbSearchView,
    entries: Seq<DirEntryView>,
) -> SemanticdbSearchView {
    SemanticdbSearchView {
        root: s.root,
        queue: advanced(s.queue, output_dirs(entries, entries.len())),
        files: s.files + semanticdb_files(s.root, entries, entries.len()),
    }
}

impl SemanticdbSearch {
    /// A search of the whole build below `sbt_root`.
    pub fn new(sbt_root: &str) -> (r: SemanticdbSearch)
        ensures
            r@ == semanticdb_start(sbt_root@, usize::MAX as nat),
    {
        let files: Vec<String> = Vec::new();
        assert(texts(files@) =~= Seq::<Seq<char>>::empty());
        SemanticdbSearch {
            root: copy_text(sbt_root),
            queue: DirQueue::new(sbt_root, usize::MAX),
            files,
        }
    }

    /// The directory to list next.
    pub fn next_dir(&self) -> (r: Option<String>)
        ensures
            match r {
                Some(p) => self@.queue.dirs.len() > 0 && p@
                    == self@.queue.dirs[0].path,
                None => self@.queue.dirs.len() == 0,
            },
    {
        self.queue.front()
    }

    /// Goes on with the entries of the directory that was listed; none where
    /// it cannot be read.
    pub fn listed(&mut self, entries: &Vec<DirEntry>)
        ensures
            final(self)@ == semanticdb_step(old(self)@, listing(entries@)),
    {
        broadcast use lemma_texts_push;

        let ghost all = listing(entries@);
        let ghost had = texts(self.files@);
        let ghost root = self.root@;
        let mut dirs: Vec<String> = Vec::new();
        let mut i: usize = 0;
        while i < entries.len()
            invariant
                i <= entries@.len(),
                all == listing(entries@),
                root == self.root@,
                self.root == old(self).root,
                self.queue == old(self).queue,
                texts(dirs@) == output_dirs(all, i as nat),
                texts(self.files@) == had + semanticdb_files(root, all, i as nat),
            decreases entries@.len() - i,
        {
            let e = &entries[i];
            if e.is_dir {
                let name = chars_of(e.name.as_str());
                if !has_prefix(name.as_slice(), ".") && !is_text(name.as_slice(), "node_modules") {
                    dirs.push(copy_text(e.path.as_str()));
                }
            } else if is_semanticdb_file(self.root.as_str(), e) {
                let ghost before = semanticdb_files(root, all, i as nat);
                self.files.push(copy_text(e.path.as_str()));
                assert((had + before).push(e.path@) =~= had + before.push(e.path@));
            }
            i += 1;
        }
        self.queue.advance(&dirs);
    }

    /// The files that were found, in the order of paths.
    pub fn found(self) -> (r: Vec<String>)
        ensures
            put_in_order(texts(r@), self@.files),
    {
        sort_paths(self.files)
    }
}

/// The entries of every directory, by its path: none where it cannot be read.
pub type Tree = spec_fn(Seq<char>) -> Seq<DirEntryView>;

/// A search of the build below `root` as it starts, and `limit` levels down.
pub open spec fn semanticdb_start(root: Seq<char>, limit: nat) -> SemanticdbSearchView {
    SemanticdbSearchView { root, queue: queue_of(root, limit), files: Seq::empty() }
}

/// A search of the build below `root` after `k` directories of `tree` were
/// listed, or all that there are.
pub open spec fn semanticdb_run(tree: Tree, root: Seq<char>, limit: nat, k: nat) -> SemanticdbSearchView
    decreases k,
{
    if k == 0 {
        semanticdb_start(root, limit)
    } else {
        let s = semanticdb_run(tree, root, limit, (k - 1) as nat);
        if s.queue.dirs.len() == 0 {
            s
        } else {
            semanticdb_step(s, tree(s.queue.dirs[0].path))
        }
    }
}

/// Whether `parent` has the directory `dir`, and it is worth entering.
pub open spec fn leads_to(tree: Tree, parent: Seq<char>, dir: Seq<char>) -> bool {
    output_dirs(tree(parent), tree(parent).len()).contains(dir)
}

/// Whether directories worth entering lead from `root` down to `dir`, which
/// lies `depth` levels below it.
pub open spec fn reachable(tree: Tree, root: Seq<char>, dir: Seq<char>, depth: nat) -> bool
    decreases depth,
{
    if depth == 0 {
        dir == root
    } else {
        exists|parent: Seq<char>|
            reachable(tree, root, parent, (depth - 1) as nat) && #[trigger] leads_to(
                tree,
                parent,
                dir,
            )
    }
}

/// Whether `file` lies in `dir` and a compiler wrote it.
pub open spec fn holds_output(tree: Tree, root: Seq<char>, dir: Seq<char>, file: Seq<char>) -> bool {
    semanticdb_files(root, tree(dir), tree(dir).len()).contains(file)
}

/// The directories among the first `k` that a search has listed.
spec fn listed_dirs(tree: Tree, root: Seq<char>, limit: nat, k: nat) -> Seq<Pending>
    decreases k,
{
    if k == 0 {
        Seq::empty()
    } else {
        let s = semanticdb_run(tree, root, limit, (k - 1) as nat);
        let before = listed_dirs(tree, root, limit, (k - 1) as nat);
        if s.queue.dirs.len() == 0 {
            before
        } else {
            before.push(s.queue.dirs[0])
        }
    }
}

/// What holds of a search with the directories `seen` behind it.
spec fn search_holds(tree: Tree, s: SemanticdbSearchView, seen: Seq<Pending>) -> bool {
    let all = seen + s.queue.dirs;
    &&& all.contains(Pending { path: s.root, depth: 0 })
    &&& forall|i: int|
        0 <= i < all.len() ==> (#[trigger] all[i]).depth <= s.queue.limit && reachable(
            tree,
            s.root,
            all[i].path,
            all[i].depth,
        )
    &&& forall|i: int, dir: Seq<char>|
        0 <= i < seen.len() && seen[i].depth < s.queue.limit && #[trigger] leads_to(
            tree,
            seen[i].path,
            dir,
        ) ==> all.contains(Pending { path: dir, depth: seen[i].depth + 1 })
    &&& forall|file: Seq<char>| #[trigger]
        s.files.contains(file) <==> exists|i: int|
            0 <= i < seen.len() && #[trigger] holds_output(tree, s.root, seen[i].path, file)
}

proof fn lemma_search_step(tree: Tree, s: SemanticdbSearchView, seen: Seq<Pending>)
    requires
        search_holds(tree, s, seen),
        s.queue.dirs.len() > 0,
    ensures
        search_holds(
            tree,
            semanticdb_step(s, tree(s.queue.dirs[0].path)),
            seen.push(s.queue.dirs[0]),
        ),
{
    let front = s.queue.dirs[0];
    let entries = tree(front.path);
    let next = semanticdb_step(s, entries);
    let now = seen.push(front);
    let kids = output_dirs(entries, entries.len());
    let more = if front.depth < s.queue.limit {
        pending(kids, front.depth + 1)
    } else {
        Seq::empty()
    };
    let before = seen + s.queue.dirs;
    let all = now + next.queue.dirs;
    assert(all =~= before + more);
    assert(before[seen.len() as int] == front);
    assert forall|p: Pending| before.contains(p) implies all.contains(p) by {
        let i = choose|i: int| 0 <= i < before.len() && before[i] == p;
        assert(all[i] == p);
    }
    assert forall|i: int| 0 <= i < all.len() implies (#[trigger] all[i]).depth <= s.queue.limit
        && reachable(tree, s.root, all[i].path, all[i].depth) by {
        if i < before.len() {
            assert(all[i] == before[i]);
        } else {
            assert(kids[i - before.len()] == all[i].path);
            assert(leads_to(tree, front.path, all[i].path));
        }
    }
    assert forall|i: int, dir: Seq<char>|
        0 <= i < now.len() && now[i].depth < s.queue.limit && #[trigger] leads_to(
            tree,
            now[i].path,
            dir,
        ) implies all.contains(Pending { path: dir, depth: now[i].depth + 1 }) by {
        if i < seen.len() {
            assert(now[i] == seen[i]);
        } else {
            let j = choose|j: int| 0 <= j < kids.len() && kids[j] == dir;
            assert(all[before.len() + j] == Pending { path: dir, depth: front.depth + 1 });
        }
    }
    let found = semanticdb_files(s.root, entries, entries.len());
    assert forall|file: Seq<char>| #[trigger]
        next.files.contains(file) <==> exists|i: int|
            0 <= i < now.len() && #[trigger] holds_output(tree, s.root, now[i].path, file) by {
        if next.files.contains(file) {
            let k = choose|k: int| 0 <= k < next.files.len() && next.files[k] == file;
            if k < s.files.len() {
                assert(s.files[k] == file);
                assert(s.files.contains(file));
                let i = choose|i: int|
                    0 <= i < seen.len() && #[trigger] holds_output(tree, s.root, seen[i].path, file);
                assert(holds_output(tree, s.root, now[i].path, file));
            } else {
                assert(found[k - s.files.len()] == file);
                assert(holds_output(tree, s.root, now[seen.len() as int].path, file));
            }
        }
        if exists|i: int|
            0 <= i < now.len() && #[trigger] holds_output(tree, s.root, now[i].path, file) {
            let i = choose|i: int|
                0 <= i < now.len() && #[trigger] holds_output(tree, s.root, now[i].path, file);
            if i < seen.len() {
                assert(holds_output(tree, s.root, seen[i].path, file));
                assert(s.files.contains(file));
                let k = choose|k: int| 0 <= k < s.files.len() && s.files[k] == file;
                assert(next.files[k] == file);
            } else {
                let k = choose|k: int| 0 <= k < found.len() && found[k] == file;
                assert(next.files[s.files.len() + k] == file);
            }
        }
    }
}

proof fn lemma_search_run(tree: Tree, root: Seq<char>, limit: nat, k: nat)
    ensures
        search_holds(
            tree,
            semanticdb_run(tree, root, limit, k),
            listed_dirs(tree, root, limit, k),
        ),
        semanticdb_run(tree, root, limit, k).root == root,
        semanticdb_run(tree, root, limit, k).queue.limit == limit,
    decreases k,
{
    if k == 0 {
        let s = semanticdb_start(root, limit);
        let all = Seq::<Pending>::empty() + s.queue.dirs;
        assert(all[0] == Pending { path: root, depth: 0 });
        assert(!s.files.contains(root));
    } else {
        let s = semanticdb_run(tree, root, limit, (k - 1) as nat);
        lemma_search_run(tree, root, limit, (k - 1) as nat);
        if s.queue.dirs.len() > 0 {
            lemma_search_step(tree, s, listed_dirs(tree, root, limit, (k - 1) as nat));
        }
    }
}

proof fn lemma_all_listed(
    tree: Tree,
    s: SemanticdbSearchView,
    seen: Seq<Pending>,
    dir: Seq<char>,
    depth: nat,
)
    requires
        search_holds(tree, s, seen),
        s.queue.dirs.len() == 0,
        depth <= s.queue.limit,
        reachable(tree, s.root, dir, depth),
    ensures
        seen.contains(Pending { path: dir, depth }),
    decreases depth,
{
    assert(seen + s.queue.dirs =~= seen);
    if depth > 0 {
        let parent = choose|parent: Seq<char>|
            reachable(tree, s.root, parent, (depth - 1) as nat) && #[trigger] leads_to(
                tree,
                parent,
                dir,
            );
        lemma_all_listed(tree, s, seen, parent, (depth - 1) as nat);
        let i = choose|i: int|
            0 <= i < seen.len() && seen[i] == Pending { path: parent, depth: (depth - 1) as nat };
        assert(leads_to(tree, seen[i].path, dir));
    }
}

/// A finished search has found exactly the files that a compiler wrote into
/// the directories that it can get to.
pub proof fn law_search_finds_all_output(
    tree: Tree,
    root: Seq<char>,
    limit: nat,
    k: nat,
    file: Seq<char>,
)
    requires
        semanticdb_run(tree, root, limit, k).queue.dirs.len() == 0,
    ensures
        semanticdb_run(tree, root, limit, k).files.contains(file) <==> exists|
            dir: Seq<char>,
            depth: nat,
        |
            depth <= limit && #[trigger] reachable(tree, root, dir, depth) && holds_output(
                tree,
                root,
                dir,
                file,
            ),
{
    let s = semanticdb_run(tree, root, limit, k);
    let seen = listed_dirs(tree, root, limit, k);
    lemma_search_run(tree, root, limit, k);
    assert(seen + s.queue.dirs =~= seen);
    if s.files.contains(file) {
        let i = choose|i: int|
            0 <= i < seen.len() && #[trigger] holds_output(tree, root, seen[i].path, file);
        assert(reachable(tree, root, seen[i].path, seen[i].depth));
    }
    if exists|dir: Seq<char>, depth: nat|
        depth <= limit && #[trigger] reachable(tree, root, dir, depth) && holds_output(
            tree,
            root,
            dir,
            file,
        ) {
        let (dir, depth) = choose|dir: Seq<char>, depth: nat|
            depth <= limit && #[trigger] reachable(tree, root, dir, depth) && holds_output(
                tree,
                root,
                dir,
                file,
            );
        lemma_all_listed(tree, s, seen, dir, depth);
        let i = choose|i: int| 0 <= i < seen.len() && seen[i] == Pending { path: dir, depth };
        assert(holds_output(tree, root, seen[i].path, file));
    }
}

proof fn lemma_listed_by(entries: Seq<DirEntryView>, n: nat, path: Seq<char>)
    requires
        n <= entries.len(),
    ensures
        subdirs(entries, n).contains(path) <==> exists|i: int|
            0 <= i < n && (#[trigger] entries[i]).is_dir && !entries[i].is_file && entries[i].path
                == path,
        sbt_children(entries, n).contains(path) <==> exists|i: int|
            0 <= i < n && (#[trigger] entries[i]).is_dir && !skipped_for_sbt(entries[i].name)
                && entries[i].path == path,
        output_dirs(entries, n).contains(path) <==> exists|i: int|
            0 <= i < n && (#[trigger] entries[i]).is_dir && may_hold_output(entries[i].name)
                && entries[i].path == path,
    decreases n,
{
    if n > 0 {
        lemma_listed_by(entries, (n - 1) as nat, path);
        let e = entries[n - 1];
        lemma_push_contains(subdirs(entries, (n - 1) as nat), e.path, path);
        lemma_push_contains(sbt_children(entries, (n - 1) as nat), e.path, path);
        lemma_push_contains(output_dirs(entries, (n - 1) as nat), e.path, path);
    }
}

proof fn lemma_push_contains(s: Seq<Seq<char>>, x: Seq<char>, y: Seq<char>)
    ensures
        s.push(x).contains(y) <==> s.contains(y) || x == y,
{
    let now = s.push(x);
    if s.contains(y) {
        let p = choose|p: int| 0 <= p < s.len() && s[p] == y;
        assert(now[p] == y);
    }
    assert(now[s.len() as int] == x);
    if now.contains(y) && x != y {
        let p = choose|p: int| 0 <= p < now.len() && now[p] == y;
        assert(s[p] == y);
    }
}

/// Which directories each search goes on with: that for a project with every
/// one that a listing has, that for a build with all but those of `target`,
/// `.git`, `node_modules` and `.travsr`, and that for what a compiler wrote
/// with all but hidden ones and `node_modules`.
pub proof fn law_searches_enter_directories(entries: Seq<DirEntryView>, path: Seq<char>)
    ensures
        subdirs(entries, entries.len()).contains(path) <==> exists|i: int|
            0 <= i < entries.len() && (#[trigger] entries[i]).is_dir && !entries[i].is_file
                && entries[i].path == path,
        sbt_children(entries, entries.len()).contains(path) <==> exists|i: int|
            0 <= i < entries.len() && (#[trigger] entries[i]).is_dir && entries[i].path == path
                && entries[i].name != "target"@ && entries[i].name != ".git"@ && entries[i].name
                != "node_modules"@ && entries[i].name != ".travsr"@,
        output_dirs(entries, entries.len()).contains(path) <==> exists|i: int|
            0 <= i < entries.len() && (#[trigger] entries[i]).is_dir && entries[i].path == path
                && !(entries[i].name.len() > 0 && entries[i].name[0] == '.') && entries[i].name
                != "node_modules"@,
{
    lemma_listed_by(entries, entries.len(), path);
    reveal_strlit(".");
    assert forall|name: Seq<char>| #[trigger]
        may_hold_output(name) == (!(name.len() > 0 && name[0] == '.') && name
            != "node_modules"@) by {
        if name.len() > 0 {
            assert(name.take(1)[0] == name[0]);
            if name[0] == '.' {
                assert(name.take(1) =~= "."@);
            }
        }
    }
}

/// Whether one of the pieces of a path is `target`, in capitals or not.
pub open spec fn names_target(rel: Seq<char>) -> bool {
    exists|i: int|
        0 <= i < split(rel, '/').len() && ascii_lower(#[trigger] split(rel, '/')[i]) == "target"@
}

proof fn lemma_parts_have(pieces: Seq<Seq<char>>, n: nat, x: Seq<char>)
    requires
        n <= pieces.len(),
        x.len() > 1,
    ensures
        path_parts(pieces, n).contains(x) <==> exists|i: int|
            0 <= i < n && #[trigger] pieces[i] == x,
    decreases n,
{
    reveal_strlit(".");
    if n > 0 {
        lemma_parts_have(pieces, (n - 1) as nat, x);
        lemma_push_contains(path_parts(pieces, (n - 1) as nat), pieces[n - 1], x);
    }
}

/// What a compiler wrote lies below a directory `target` of the build: one that
/// lies between the root and the file. A `target` on the way to the root does
/// not count.
pub proof fn law_output_lies_below_target(root: Seq<char>, rel: Seq<char>)
    requires
        root.len() > 0,
        ({
            let q = split(rel, '/');
            &&& q[0].len() > 0 && q[0] != "."@
            &&& q.last().len() > 0 && q.last() != "."@
        }),
    ensures
        below_target(root, root + seq!['/'] + rel) == names_target(rel),
{
    crate::paths::law_directory_holds_its_files(root, rel);
    let p = split(rel, '/');
    let parts = path_parts(p, p.len());
    reveal_strlit("target");
    if has_target(parts) {
        let i = choose|i: int|
            0 <= i < parts.len() && ascii_lower(#[trigger] parts[i]) == "target"@;
        let x = parts[i];
        assert(ascii_lower(x).len() == x.len());
        assert(parts.contains(x));
        lemma_parts_have(p, p.len(), x);
    }
    if names_target(rel) {
        let i = choose|i: int| 0 <= i < p.len() && ascii_lower(#[trigger] p[i]) == "target"@;
        let x = p[i];
        assert(ascii_lower(x).len() == x.len());
        lemma_parts_have(p, p.len(), x);
        let j = choose|j: int| 0 <= j < parts.len() && parts[j] == x;
        assert(ascii_lower(parts[j]) == "target"@);
    }
}

proof fn lemma_semanticdb_by(
    root: Seq<char>,
    entries: Seq<DirEntryView>,
    n: nat,
    path: Seq<char>,
)
    requires
        n <= entries.len(),
    ensures
        semanticdb_files(root, entries, n).contains(path) <==> exists|i: int|
            0 <= i < n && is_semanticdb(root, #[trigger] entries[i]) && entries[i].path == path,
    decreases n,
{
    if n > 0 {
        lemma_semanticdb_by(root, entries, (n - 1) as nat, path);
        lemma_push_contains(
            semanticdb_files(root, entries, (n - 1) as nat),
            entries[n - 1].path,
            path,
        );
    }
}

/// A file of a listing is taken for what a compiler wrote exactly if its name
/// ends in `.semanticdb`, with something before that, and it lies below
/// `target`.
pub proof fn law_output_is_told_by_name_and_place(
    root: Seq<char>,
    entries: Seq<DirEntryView>,
    path: Seq<char>,
)
    ensures
        semanticdb_files(root, entries, entries.len()).contains(path) <==> exists|i: int|
            0 <= i < entries.len() && !(#[trigger] entries[i]).is_dir && entries[i].path == path
                && below_target(root, path) && exists|stem: Seq<char>|
                stem.len() > 0 && entries[i].name == #[trigger] (stem + ".semanticdb"@),
{
    lemma_semanticdb_by(root, entries, entries.len(), path);
    assert forall|name: Seq<char>|
        (#[trigger] name_extension(name) == Some("semanticdb"@)) == exists|stem: Seq<char>|
            stem.len() > 0 && name == #[trigger] (stem + ".semanticdb"@) by {
        lemma_semanticdb_name(name);
    }
    if semanticdb_files(root, entries, entries.len()).contains(path) {
        let i = choose|i: int|
            0 <= i < entries.len() && is_semanticdb(root, #[trigger] entries[i]) && entries[i].path
                == path;
        assert(name_extension(entries[i].name) == Some("semanticdb"@));
        assert(!entries[i].is_dir);
    }
    if exists|i: int|
        0 <= i < entries.len() && !(#[trigger] entries[i]).is_dir && entries[i].path == path
            && below_target(root, path) && exists|stem: Seq<char>|
            stem.len() > 0 && entries[i].name == #[trigger] (stem + ".semanticdb"@) {
        let i = choose|i: int|
            0 <= i < entries.len() && !(#[trigger] entries[i]).is_dir && entries[i].path == path
                && below_target(root, path) && exists|stem: Seq<char>|
                stem.len() > 0 && entries[i].name == #[trigger] (stem + ".semanticdb"@);
        assert(name_extension(entries[i].name) == Some("semanticdb"@));
        assert(is_semanticdb(root, entries[i]));
    }
}

proof fn lemma_semanticdb_name(name: Seq<char>)
    ensures
        (name_extension(name) == Some("semanticdb"@)) == exists|stem: Seq<char>|
            stem.len() > 0 && name == #[trigger] (stem + ".semanticdb"@),
{
    reveal_strlit(".semanticdb");
    reveal_strlit("semanticdb");
    reveal_strlit("..");
    let ext = "semanticdb"@;
    assert(".semanticdb"@ =~= seq!['.'] + ext);
    if exists|stem: Seq<char>| stem.len() > 0 && name == #[trigger] (stem + ".semanticdb"@) {
        let stem = choose|stem: Seq<char>|
            stem.len() > 0 && name == #[trigger] (stem + ".semanticdb"@);
        assert(name =~= stem + seq!['.'] + ext);
        crate::paths::law_extension_follows_the_last_dot(stem, ext);
        assert(name.last() == 'b');
        assert(name != ".."@);
    }
    if name_extension(name) == Some(ext) {
        let i = crate::text::find_last(name, '.');
        lemma_dot_is_there(name);
        let stem = name.take(i);
        assert(name.skip(i + 1) == ext);
        assert(name =~= stem + seq!['.'] + name.skip(i + 1));
        assert(name =~= stem + ".semanticdb"@);
    }
}

proof fn lemma_dot_is_there(s: Seq<char>)
    ensures
        -1 <= crate::text::find_last(s, '.') < s.len(),
        crate::text::find_last(s, '.') >= 0 ==> s[crate::text::find_last(s, '.')] == '.',
    decreases s.len(),
{
    if s.len() > 0 && s.last() != '.' {
        lemma_dot_is_there(s.drop_last());
    }
}

/// The file that a listing gives for an extension is the first of its files
/// that has it.
pub proof fn law_first_file_of_a_listing(entries: Seq<DirEntryView>, ext: Seq<char>, k: int)
    requires
        0 <= k < entries.len(),
        entries[k].is_file && name_extension(entries[k].name) == Some(ext),
        forall|i: int|
            0 <= i < k ==> !((#[trigger] entries[i]).is_file && name_extension(entries[i].name)
                == Some(ext)),
    ensures
        first_file(entries, ext, 0) == Some(entries[k].path),
{
    lemma_first_file(entries, ext, 0, k);
}

proof fn lemma_first_file(entries: Seq<DirEntryView>, ext: Seq<char>, i: int, k: int)
    requires
        0 <= i <= k < entries.len(),
        entries[k].is_file && name_extension(entries[k].name) == Some(ext),
        forall|j: int|
            i <= j < k ==> !((#[trigger] entries[j]).is_file && name_extension(entries[j].name)
                == Some(ext)),
    ensures
        first_file(entries, ext, i) == Some(entries[k].path),
    decreases k - i,
{
    if i < k {
        lemma_first_file(entries, ext, i + 1, k);
    }
}

/// The first directory that is seen to hold a build is its root, and stays so;
/// one that holds none is followed by the others and then by what lies in it,
/// unless that lies too deep.
pub proof fn law_first_build_is_the_root(
    s: SbtSearchView,
    children: Seq<Seq<char>>,
    again: bool,
    more: Seq<Seq<char>>,
)
    requires
        s.root is None,
        s.queue.dirs.len() > 0,
    ensures
        sbt_step(s, true, children).root == Some(s.queue.dirs[0].path),
        sbt_step(sbt_step(s, true, children), again, more).root == Some(s.queue.dirs[0].path),
        sbt_step(s, false, children).root is None,
        ({
            let left = s.queue.dirs.skip(1);
            let next = sbt_step(s, false, children).queue;
            &&& next.limit == s.queue.limit
            &&& s.queue.dirs[0].depth >= s.queue.limit ==> next.dirs == left
            &&& s.queue.dirs[0].depth < s.queue.limit ==> {
                &&& next.dirs.len() == left.len() + children.len()
                &&& forall|i: int| 0 <= i < left.len() ==> #[trigger] next.dirs[i] == left[i]
                &&& forall|i: int|
                    0 <= i < children.len() ==> {
                        let d = next.dirs[left.len() + i];
                        d.path == #[trigger] children[i] && d.depth == s.queue.dirs[0].depth + 1
                    }
            }
        }),
{
}

/// A .NET project is looked for five levels down, the root of an sbt build
/// four.
pub proof fn law_searches_end_where_they_should()
    ensures
        PROJECT_DEPTH == 5,
        SBT_DEPTH == 4,
{
}

} // verus!
