//! Kotlin: a session with the Kotlin language server, step by step, and the
//! graph that its replies make up.
use vstd::prelude::*;
use vstd::string::*;
use crate::graph::{
    empty_response, group_views_push, node, node_view, node_views, ref_views, vname_id,
    InvokeResponse, Node, NodeView, RefView, ResponseView, ScipRef,
};
use crate::json::{json_items, json_member, json_text, json_u64};
use crate::lsp::{
    kind_name, law_symbol_is_capped, location_ref, location_refs, reference_records, reply_refs,
    sym_signature, sym_views, DocSym, DocSymView, MAX_REFS_PER_SYMBOL,
};
use crate::paths::{file_extension, file_uri, name_extension, path_to_uri, uri_below};
use crate::scip_reader::has_node;
use crate::text::{
    chars_of, copy_text, has_prefix, natural, parse_u64, same_text, starts_with,
};

verus! {

/// How long the server may take to index a project, in seconds, where nothing
/// else is said.
pub const PROGRESS_WAIT_SECS: u64 = 180;

/// How long the server may take to index a project: a positive number where
/// one is given.
pub open spec fn wait_secs(value: Option<Seq<char>>) -> u64 {
    match value {
        Some(t) => match natural(t) {
            Some(n) if 0 < n <= u64::MAX => n as u64,
            _ => PROGRESS_WAIT_SECS,
        },
        None => PROGRESS_WAIT_SECS,
    }
}

/// How long the server may take to index a project, given what the user set.
pub fn progress_wait_secs(value: Option<&str>) -> (r: u64)
    ensures
        r == wait_secs(
            match value {
                Some(t) => Some(t@),
                None => None,
            },
        ),
{
    match value {
        Some(t) => {
            let chars = chars_of(t);
            match parse_u64(chars.as_slice()) {
                Some(n) => if n > 0 {
                    n
                } else {
                    PROGRESS_WAIT_SECS
                },
                None => PROGRESS_WAIT_SECS,
            }
        },
        None => PROGRESS_WAIT_SECS,
    }
}

/// A file or directory that the search for sources leaves out.
pub open spec fn is_left_out(name: Seq<char>) -> bool {
    name == "target"@ || name == "build"@ || starts_with(name, "."@)
}

/// Whether the search for sources leaves out a file or directory.
pub fn left_out(name: &str) -> (r: bool)
    ensures
        r == is_left_out(name@),
{
    let chars = chars_of(name);
    same_text(name, "target") || same_text(name, "build") || has_prefix(chars.as_slice(), ".")
}

/// A Kotlin source, by the name of the file.
pub open spec fn is_kotlin_name(name: Seq<char>) -> bool {
    name_extension(name) == Some("kt"@) || name_extension(name) == Some("kts"@)
}

/// Whether a file is a Kotlin source.
pub fn is_kotlin_file(name: &str) -> (r: bool)
    ensures
        r == is_kotlin_name(name@),
{
    match file_extension(name) {
        Some(e) => same_text(e.as_str(), "kt") || same_text(e.as_str(), "kts"),
        None => false,
    }
}

/// A Kotlin source of the project.
#[derive(Debug)]
pub struct KtFile {
    pub path: String,
    pub uri: String,
    /// Its path below the root of the project.
    pub rel: String,
}

/// What a `KtFile` holds.
pub struct KtFileView {
    pub path: Seq<char>,
    pub uri: Seq<char>,
    pub rel: Seq<char>,
}

impl View for KtFile {
    type V = KtFileView;

    open spec fn view(&self) -> KtFileView {
        KtFileView { path: self.path@, uri: self.uri@, rel: self.rel@ }
    }
}

impl KtFile {
    /// The source at `path`, which is `rel` below the root.
    pub fn new(path: &str, rel: &str) -> (r: KtFile)
        ensures
            r@ == (KtFileView { path: path@, uri: file_uri(path@), rel: rel@ }),
    {
        KtFile { path: copy_text(path), uri: path_to_uri(path), rel: copy_text(rel) }
    }
}

pub open spec fn file_views(v: Seq<KtFile>) -> Seq<KtFileView> {
    v.map_values(|f: KtFile| f@)
}

/// A symbol and the file that it stands in.
#[derive(Debug)]
pub struct PlacedSym {
    pub uri: String,
    pub rel: String,
    pub sym: DocSym,
}

/// What a `PlacedSym` holds.
pub struct PlacedSymView {
    pub uri: Seq<char>,
    pub rel: Seq<char>,
    pub sym: DocSymView,
}

impl View for PlacedSym {
    type V = PlacedSymView;

    open spec fn view(&self) -> PlacedSymView {
        PlacedSymView { uri: self.uri@, rel: self.rel@, sym: self.sym@ }
    }
}

pub open spec fn placed_views(v: Seq<PlacedSym>) -> Seq<PlacedSymView> {
    v.map_values(|p: PlacedSym| p@)
}

/// Where a session stands.
#[derive(Debug, Clone, Copy, PartialEq, Eq, Structural)]
pub enum KlsPhase {
    /// The server has to be initialized.
    Initialize,
    /// The server indexes the project.
    Index,
    /// This file has to be opened, and its symbols asked for.
    Open(usize),
    /// The references to this symbol have to be asked for.
    References(usize),
    /// The server has to be shut down.
    Shutdown,
    /// The response is complete.
    Done,
    /// The session has failed; there is no response.
    Failed,
}

/// What a session holds.
pub struct KlsView {
    pub root: Seq<char>,
    pub corpus: Seq<char>,
    pub phase: KlsPhase,
    pub files: Seq<KtFileView>,
    /// The symbols of the files opened so far.
    pub replies: Seq<Seq<DocSymView>>,
    /// The symbols of all files, once all are open.
    pub symbols: Seq<PlacedSymView>,
    pub nodes: Seq<NodeView>,
    pub refs: Seq<RefView>,
}

/// The symbols `syms` of the file `f`.
pub open spec fn place_all(f: KtFileView, syms: Seq<DocSymView>) -> Seq<PlacedSymView> {
    syms.map_values(|s: DocSymView| PlacedSymView { uri: f.uri, rel: f.rel, sym: s })
}

/// Whether a later file has the same address as the file `i`: its symbols
/// replace those of the file `i`.
pub open spec fn is_replaced(files: Seq<KtFileView>, i: int) -> bool {
    exists|j: int| i < j < files.len() && (#[trigger] files[j]).uri == files[i].uri
}

/// The symbols of the first `n` files.
pub open spec fn placed_syms(
    files: Seq<KtFileView>,
    replies: Seq<Seq<DocSymView>>,
    n: nat,
) -> Seq<PlacedSymView>
    decreases n,
{
    if n == 0 {
        Seq::empty()
    } else {
        let before = placed_syms(files, replies, (n - 1) as nat);
        if is_replaced(files, n - 1) {
            before
        } else {
            before + place_all(files[n - 1], replies[n - 1])
        }
    }
}

/// The identifier of a symbol's node.
pub open spec fn symbol_id(p: PlacedSymView, corpus: Seq<char>) -> u64 {
    vname_id(corpus, ""@, p.rel, "kotlin"@, sym_signature(p.sym))
}

/// A line counted from one, for a line counted from zero; of a number that is
/// too large, its lowest 32 bits.
pub open spec fn line_number(line: u64) -> u32 {
    if line == u64::MAX {
        line as u32
    } else {
        ((line + 1) as u64) as u32
    }
}

/// The node of a symbol: it starts where its name stands, and ends where its
/// declaration ends.
pub open spec fn symbol_node(p: PlacedSymView, corpus: Seq<char>) -> NodeView {
    node_view(
        corpus,
        p.rel,
        "kotlin"@,
        sym_signature(p.sym),
        kind_name(p.sym.kind),
        Some(line_number(p.sym.sel_range.start.line)),
        Some(line_number(p.sym.range.end.line)),
    )
}

/// The session after the server was initialized.
pub open spec fn after_initialized(v: KlsView) -> KlsView {
    if v.phase == KlsPhase::Initialize {
        KlsView { phase: KlsPhase::Index, ..v }
    } else {
        v
    }
}

/// The session after the server has indexed the project, or has taken too
/// long to.
pub open spec fn after_indexed(v: KlsView) -> KlsView {
    if v.phase == KlsPhase::Index {
        KlsView {
            phase: if v.files.len() == 0 {
                KlsPhase::Shutdown
            } else {
                KlsPhase::Open(0)
            },
            ..v
        }
    } else {
        v
    }
}

/// The session after a file was opened and its symbols came.
pub open spec fn after_opened(v: KlsView, syms: Seq<DocSymView>) -> KlsView {
    match v.phase {
        KlsPhase::Open(i) => {
            let replies = v.replies.push(syms);
            if i + 1 < v.files.len() {
                KlsView { phase: KlsPhase::Open((i + 1) as usize), replies, ..v }
            } else {
                let symbols = placed_syms(v.files, replies, v.files.len());
                KlsView {
                    phase: if symbols.len() == 0 {
                        KlsPhase::Shutdown
                    } else {
                        KlsPhase::References(0)
                    },
                    replies,
                    symbols,
                    ..v
                }
            }
        },
        _ => v,
    }
}

/// The session after the references to a symbol came; none where the server
/// failed to say.
pub open spec fn after_answered(v: KlsView, result: Option<serde_json::Value>) -> KlsView {
    match v.phase {
        KlsPhase::References(k) => {
            let p = v.symbols[k as int];
            KlsView {
                phase: if k + 1 < v.symbols.len() {
                    KlsPhase::References((k + 1) as usize)
                } else {
                    KlsPhase::Shutdown
                },
                nodes: v.nodes.push(symbol_node(p, v.corpus)),
                refs: match result {
                    Some(r) => v.refs + reply_refs(r, v.root, symbol_id(p, v.corpus)),
                    None => v.refs,
                },
                ..v
            }
        },
        _ => v,
    }
}

/// The session after a request failed that it cannot do without.
pub open spec fn after_failed(v: KlsView) -> KlsView {
    match v.phase {
        KlsPhase::Initialize | KlsPhase::Index | KlsPhase::Open(_) => KlsView {
            phase: KlsPhase::Failed,
            ..v
        },
        _ => v,
    }
}

/// The session after the server was shut down.
pub open spec fn after_shutdown(v: KlsView) -> KlsView {
    if v.phase == KlsPhase::Shutdown {
        KlsView { phase: KlsPhase::Done, ..v }
    } else {
        v
    }
}

/// How many of the references lead to the node `id`.
pub open spec fn refs_to(refs: Seq<RefView>, id: u64) -> nat
    decreases refs.len(),
{
    if refs.len() == 0 {
        0
    } else {
        refs_to(refs.drop_last(), id) + if refs.last().callee_id == id {
            1nat
        } else {
            0nat
        }
    }
}

/// How many of the nodes have the identifier `id`.
pub open spec fn nodes_with(nodes: Seq<NodeView>, id: u64) -> nat
    decreases nodes.len(),
{
    if nodes.len() == 0 {
        0
    } else {
        nodes_with(nodes.drop_last(), id) + if nodes.last().id == id {
            1nat
        } else {
            0nat
        }
    }
}

/// To an identifier lead at most `MAX_REFS_PER_SYMBOL` references for each node
/// that has it, and none where no node does.
pub open spec fn within_cap(nodes: Seq<NodeView>, refs: Seq<RefView>) -> bool {
    forall|id: u64| #[trigger]
        refs_to(refs, id) <= MAX_REFS_PER_SYMBOL * nodes_with(nodes, id)
}

/// What holds of a session throughout.
pub open spec fn consistent(v: KlsView) -> bool {
    match v.phase {
        KlsPhase::Initialize | KlsPhase::Index => {
            &&& v.replies.len() == 0
            &&& v.symbols.len() == 0
            &&& v.nodes.len() == 0
            &&& v.refs.len() == 0
        },
        KlsPhase::Open(i) => {
            &&& i < v.files.len()
            &&& v.replies.len() == i
            &&& v.symbols.len() == 0
            &&& v.nodes.len() == 0
            &&& v.refs.len() == 0
        },
        KlsPhase::References(k) => {
            &&& k < v.symbols.len()
            &&& v.nodes == symbol_nodes(v.symbols.take(k as int), v.corpus)
            &&& within_cap(v.nodes, v.refs)
            &&& v.replies.len() == v.files.len()
            &&& v.symbols == placed_syms(v.files, v.replies, v.files.len())
        },
        KlsPhase::Shutdown | KlsPhase::Done => {
            &&& v.nodes == symbol_nodes(v.symbols, v.corpus)
            &&& within_cap(v.nodes, v.refs)
            &&& v.replies.len() == v.files.len()
            &&& v.symbols == placed_syms(v.files, v.replies, v.files.len())
        },
        KlsPhase::Failed => true,
    }
}

/// The nodes of symbols.
pub open spec fn symbol_nodes(s: Seq<PlacedSymView>, corpus: Seq<char>) -> Seq<NodeView> {
    s.map_values(|p: PlacedSymView| symbol_node(p, corpus))
}

/// A session with the language server.
pub struct KlsRun {
    root: String,
    corpus: String,
    phase: KlsPhase,
    files: Vec<KtFile>,
    replies: Vec<Vec<DocSym>>,
    symbols: Vec<PlacedSym>,
    nodes: Vec<Node>,
    refs: Vec<ScipRef>,
}

pub open spec fn reply_views(v: Seq<Vec<DocSym>>) -> Seq<Seq<DocSymView>> {
    v.map_values(|s: Vec<DocSym>| sym_views(s@))
}

impl View for KlsRun {
    type V = KlsView;

    closed spec fn view(&self) -> KlsView {
        KlsView {
            root: self.root@,
            corpus: self.corpus@,
            phase: self.phase,
            files: file_views(self.files@),
            replies: reply_views(self.replies@),
            symbols: placed_views(self.symbols@),
            nodes: node_views(self.nodes@),
            refs: ref_views(self.refs@),
        }
    }
}

impl KlsRun {
    /// The session is consistent, and its symbols are gathered once all files
    /// are open.
    pub closed spec fn wf(&self) -> bool {
        consistent(self@)
    }

    /// A session for the sources `files` of the project at `root`.
    pub fn new(root: &str, corpus: &str, files: Vec<KtFile>) -> (r: KlsRun)
        ensures
            r@ == (KlsView {
                root: root@,
                corpus: corpus@,
                phase: KlsPhase::Initialize,
                files: file_views(files@),
                replies: Seq::empty(),
                symbols: Seq::empty(),
                nodes: Seq::empty(),
                refs: Seq::empty(),
            }),
            r.wf(),
    {
        let r = KlsRun {
            root: copy_text(root),
            corpus: copy_text(corpus),
            phase: KlsPhase::Initialize,
            files,
            replies: Vec::new(),
            symbols: Vec::new(),
            nodes: Vec::new(),
            refs: Vec::new(),
        };
        assert(r@.replies =~= Seq::<Seq<DocSymView>>::empty());
        assert(r@.symbols =~= Seq::<PlacedSymView>::empty());
        assert(r@.nodes =~= Seq::<NodeView>::empty());
        assert(r@.refs =~= Seq::<RefView>::empty());
        r
    }

    /// Where the session stands: what has to be done next.
    pub fn phase(&self) -> (r: KlsPhase)
        ensures
            r == self@.phase,
    {
        self.phase
    }

    /// The server was initialized.
    pub fn initialized(&mut self)
        requires
            old(self).wf(),
        ensures
            final(self)@ == after_initialized(old(self)@),
            final(self).wf(),
    {
        if self.phase == KlsPhase::Initialize {
            self.phase = KlsPhase::Index;
        }
    }

    /// The server has indexed the project, or has taken too long to.
    pub fn indexed(&mut self)
        requires
            old(self).wf(),
        ensures
            final(self)@ == after_indexed(old(self)@),
            final(self).wf(),
    {
        if self.phase == KlsPhase::Index {
            if self.files.len() == 0 {
                self.phase = KlsPhase::Shutdown;
                assert(self@.symbols =~= Seq::<PlacedSymView>::empty());
                assert(self@.nodes =~= symbol_nodes(self@.symbols, self@.corpus));
            } else {
                self.phase = KlsPhase::Open(0);
            }
        }
    }

    /// The server was shut down.
    pub fn shut_down(&mut self)
        requires
            old(self).wf(),
        ensures
            final(self)@ == after_shutdown(old(self)@),
            final(self).wf(),
    {
        if self.phase == KlsPhase::Shutdown {
            self.phase = KlsPhase::Done;
        }
    }

    /// A request failed that the session cannot do without.
    pub fn failed(&mut self)
        requires
            old(self).wf(),
        ensures
            final(self)@ == after_failed(old(self)@),
            final(self).wf(),
    {
        match self.phase {
            KlsPhase::Initialize | KlsPhase::Index | KlsPhase::Open(_) => {
                self.phase = KlsPhase::Failed;
            },
            _ => {},
        }
    }
}

fn is_replaced_later(files: &Vec<KtFile>, i: usize) -> (r: bool)
    requires
        i < files@.len(),
    ensures
        r == is_replaced(file_views(files@), i as int),
{
    let ghost all = file_views(files@);
    let n: usize = files.len();
    let mut j: usize = i + 1;
    while j < n
        invariant
            i < j <= n,
            n == files@.len(),
            all == file_views(files@),
            all[i as int] == files@[i as int]@,
            forall|x: int| i < x < j ==> (#[trigger] all[x]).uri != all[i as int].uri,
        decreases n - j,
    {
        assert(all[j as int] == files@[j as int]@);
        if same_text(files[j].uri.as_str(), files[i].uri.as_str()) {
            return true;
        }
        j += 1;
    }
    false
}

fn place_symbols(files: &Vec<KtFile>, replies: &Vec<Vec<DocSym>>) -> (r: Vec<PlacedSym>)
    requires
        replies@.len() == files@.len(),
    ensures
        placed_views(r@) == placed_syms(
            file_views(files@),
            reply_views(replies@),
            files@.len(),
        ),
{
    let ghost fv = file_views(files@);
    let ghost rv = reply_views(replies@);
    let mut out: Vec<PlacedSym> = Vec::new();
    let n: usize = files.len();
    let mut i: usize = 0;
    while i < n
        invariant
            i <= n,
            n == files@.len(),
            replies@.len() == n,
            fv == file_views(files@),
            rv == reply_views(replies@),
            placed_views(out@) == placed_syms(fv, rv, i as nat),
        decreases n - i,
    {
        let f = &files[i];
        if !is_replaced_later(files, i) {
            let syms = &replies[i];
            let ghost sv = sym_views(syms@);
            let ghost before = placed_views(out@);
            let m: usize = syms.len();
            let mut j: usize = 0;
            while j < m
                invariant
                    j <= m,
                    m == syms@.len(),
                    sv == sym_views(syms@),
                    placed_views(out@) == before + place_all(f@, sv.take(j as int)),
                decreases m - j,
            {
                let ghost held = out@;
                let p = PlacedSym {
                    uri: copy_text(f.uri.as_str()),
                    rel: copy_text(f.rel.as_str()),
                    sym: copy_sym(&syms[j]),
                };
                out.push(p);
                j += 1;
                proof {
                    assert(placed_views(out@) =~= placed_views(held).push(p@));
                }
            }
        }
        i += 1;
    }
    out
}

fn copy_sym(s: &DocSym) -> (r: DocSym)
    ensures
        r@ == s@,
{
    DocSym {
        name: copy_text(s.name.as_str()),
        kind: s.kind,
        range: s.range,
        sel_range: s.sel_range,
        container: copy_text(s.container.as_str()),
    }
}

fn from_one(line: u64) -> (r: u32)
    ensures
        r == line_number(line),
{
    let next: u64 = if line == u64::MAX {
        line
    } else {
        line + 1
    };
    #[verifier::truncate]
    let r: u32 = next as u32;
    r
}

impl KlsRun {
    /// The file with this number.
    pub fn file(&self, i: usize) -> (r: &KtFile)
        requires
            i < self@.files.len(),
        ensures
            r@ == self@.files[i as int],
    {
        &self.files[i]
    }

    /// The symbol with this number.
    pub fn symbol(&self, k: usize) -> (r: &PlacedSym)
        requires
            k < self@.symbols.len(),
        ensures
            r@ == self@.symbols[k as int],
    {
        &self.symbols[k]
    }

    /// A file was opened, and these are its symbols.
    pub fn opened(&mut self, syms: Vec<DocSym>)
        requires
            old(self).wf(),
        ensures
            final(self)@ == after_opened(old(self)@, sym_views(syms@)),
            final(self).wf(),
    {
        if let KlsPhase::Open(i) = self.phase {
            self.replies.push(syms);
            assert(self@.replies =~= old(self)@.replies.push(sym_views(syms@)));
            let n: usize = self.files.len();
            if i + 1 < n {
                self.phase = KlsPhase::Open(i + 1);
            } else {
                self.symbols = place_symbols(&self.files, &self.replies);
                if self.symbols.len() == 0 {
                    self.phase = KlsPhase::Shutdown;
                    assert(self@.nodes =~= symbol_nodes(self@.symbols, self@.corpus));
                } else {
                    self.phase = KlsPhase::References(0);
                    assert(self@.nodes =~= symbol_nodes(self@.symbols.take(0), self@.corpus));
                }
            }
        }
    }

    /// The references to a symbol came; none where the server failed to say.
    pub fn answered(&mut self, result: Option<&serde_json::Value>)
        requires
            old(self).wf(),
        ensures
            final(self)@ == after_answered(
                old(self)@,
                match result {
                    Some(r) => Some(*r),
                    None => None,
                },
            ),
            final(self).wf(),
    {
        broadcast use group_views_push;

        if let KlsPhase::References(k) = self.phase {
            let p = &self.symbols[k];
            let nd = node(
                self.corpus.as_str(),
                p.rel.as_str(),
                "kotlin",
                p.sym.signature().as_str(),
                p.sym.kind_str(),
                Some(from_one(p.sym.sel_range.start.line)),
                Some(from_one(p.sym.range.end.line)),
            );
            if let Some(r) = result {
                let mut more = reference_records(r, self.root.as_str(), nd.id);
                let ghost had = self.refs@;
                let ghost add = more@;
                self.refs.append(&mut more);
                assert(ref_views(self.refs@) =~= ref_views(had) + ref_views(add));
            }
            self.nodes.push(nd);
            proof {
                lemma_within_cap(
                    old(self)@.nodes,
                    old(self)@.refs,
                    nd@,
                    match result {
                        Some(r) => Some(*r),
                        None => None,
                    },
                    self@.root,
                );
                let all = self@.symbols;
                assert(symbol_nodes(all.take(k + 1), self@.corpus) =~= symbol_nodes(
                    all.take(k as int),
                    self@.corpus,
                ).push(nd@));
            }
            let n: usize = self.symbols.len();
            if k + 1 < n {
                self.phase = KlsPhase::References(k + 1);
            } else {
                self.phase = KlsPhase::Shutdown;
                assert(self@.symbols.take(k + 1) =~= self@.symbols);
            }
        }
    }

    /// The graph that the session made up; empty where it has failed.
    pub fn response(self) -> (r: InvokeResponse)
        ensures
            r@ == kls_graph(self@),
    {
        let mut r = InvokeResponse::empty();
        if self.phase != KlsPhase::Failed {
            r.nodes = self.nodes;
            r.refs = self.refs;
        }
        r
    }
}

/// The graph that a session made up; empty where it has failed.
pub open spec fn kls_graph(v: KlsView) -> ResponseView {
    if v.phase == KlsPhase::Failed {
        empty_response()
    } else {
        ResponseView { nodes: v.nodes, refs: v.refs, ..empty_response() }
    }
}

/// A session that is done has a node for every symbol of every file, in
/// order.
pub proof fn law_done_covers_every_symbol(v: KlsView)
    requires
        consistent(v),
        v.phase == KlsPhase::Done,
    ensures
        kls_graph(v).nodes == symbol_nodes(
            placed_syms(v.files, v.replies, v.files.len()),
            v.corpus,
        ),
{
}

proof fn lemma_refs_to_sum(a: Seq<RefView>, b: Seq<RefView>, id: u64)
    ensures
        refs_to(a + b, id) == refs_to(a, id) + refs_to(b, id),
    decreases b.len(),
{
    if b.len() == 0 {
        assert(a + b =~= a);
    } else {
        lemma_refs_to_sum(a, b.drop_last(), id);
        assert((a + b).drop_last() =~= a + b.drop_last());
    }
}

proof fn lemma_refs_to_one(refs: Seq<RefView>, callee: u64, id: u64)
    requires
        forall|i: int| 0 <= i < refs.len() ==> (#[trigger] refs[i]).callee_id == callee,
    ensures
        refs_to(refs, id) == if id == callee {
            refs.len()
        } else {
            0
        },
    decreases refs.len(),
{
    if refs.len() > 0 {
        lemma_refs_to_one(refs.drop_last(), callee, id);
    }
}

/// A node, and the references that one reply gives it, keep the others within
/// the cap.
proof fn lemma_within_cap(
    nodes: Seq<NodeView>,
    refs: Seq<RefView>,
    nd: NodeView,
    result: Option<serde_json::Value>,
    root: Seq<char>,
)
    requires
        within_cap(nodes, refs),
    ensures
        within_cap(
            nodes.push(nd),
            match result {
                Some(r) => refs + reply_refs(r, root, nd.id),
                None => refs,
            },
        ),
{
    let now = match result {
        Some(r) => refs + reply_refs(r, root, nd.id),
        None => refs,
    };
    assert forall|id: u64| #[trigger]
        refs_to(now, id) <= MAX_REFS_PER_SYMBOL * nodes_with(nodes.push(nd), id) by {
        assert(nodes.push(nd).drop_last() =~= nodes);
        assert(refs_to(refs, id) <= MAX_REFS_PER_SYMBOL * nodes_with(nodes, id));
        if let Some(r) = result {
            let more = reply_refs(r, root, nd.id);
            lemma_refs_to_sum(refs, more, id);
            law_symbol_is_capped(r, root, nd.id);
            lemma_refs_to_one(more, nd.id, id);
        }
    }
}

/// The references of a session lead to its nodes, and where its symbols have
/// nodes of their own, at most `MAX_REFS_PER_SYMBOL` to each.
pub proof fn law_references_lead_to_nodes(v: KlsView, i: int)
    requires
        consistent(v),
        0 <= i < kls_graph(v).refs.len(),
    ensures
        ({
            let g = kls_graph(v);
            let id = g.refs[i].callee_id;
            &&& has_node(g.nodes, id)
            &&& refs_to(g.refs, id) <= MAX_REFS_PER_SYMBOL * nodes_with(g.nodes, id)
            &&& nodes_with(g.nodes, id) == 1 ==> refs_to(g.refs, id) <= MAX_REFS_PER_SYMBOL
        }),
{
    let id = v.refs[i].callee_id;
    lemma_counted(v.refs, i);
    assert(refs_to(v.refs, id) <= MAX_REFS_PER_SYMBOL * nodes_with(v.nodes, id));
    lemma_node_is_there(v.nodes, id);
}

proof fn lemma_counted(refs: Seq<RefView>, i: int)
    requires
        0 <= i < refs.len(),
    ensures
        refs_to(refs, refs[i].callee_id) > 0,
    decreases refs.len(),
{
    if i < refs.len() - 1 {
        lemma_counted(refs.drop_last(), i);
    }
}

proof fn lemma_node_is_there(nodes: Seq<NodeView>, id: u64)
    requires
        nodes_with(nodes, id) > 0,
    ensures
        has_node(nodes, id),
    decreases nodes.len(),
{
    if nodes.last().id != id {
        lemma_node_is_there(nodes.drop_last(), id);
        let i = choose|i: int|
            0 <= i < nodes.drop_last().len() && (#[trigger] nodes.drop_last()[i]).id == id;
        assert(nodes[i].id == id);
    } else {
        assert(nodes[nodes.len() - 1].id == id);
    }
}

proof fn lemma_opened(v: KlsView, syms: Seq<DocSymView>)
    requires
        consistent(v),
        v.files.len() <= usize::MAX,
    ensures
        consistent(after_opened(v, syms)),
{
    if let KlsPhase::Open(i) = v.phase {
        let w = after_opened(v, syms);
        if i + 1 >= v.files.len() {
            assert(w.nodes =~= symbol_nodes(w.symbols.take(0), w.corpus));
            if w.symbols.len() == 0 {
                assert(w.nodes =~= symbol_nodes(w.symbols, w.corpus));
            }
        }
    }
}

proof fn lemma_answered(v: KlsView, result: Option<serde_json::Value>)
    requires
        consistent(v),
        v.symbols.len() <= usize::MAX,
    ensures
        consistent(after_answered(v, result)),
{
    if let KlsPhase::References(k) = v.phase {
        let all = v.symbols;
        let w = after_answered(v, result);
        lemma_within_cap(v.nodes, v.refs, symbol_node(all[k as int], v.corpus), result, v.root);
        assert(w.nodes =~= symbol_nodes(all.take(k + 1), v.corpus));
        if k + 1 >= all.len() {
            assert(all.take(k + 1) =~= all);
        }
    }
}

/// Every step keeps a session consistent.
pub proof fn law_steps_keep_consistent(
    v: KlsView,
    syms: Seq<DocSymView>,
    result: Option<serde_json::Value>,
)
    requires
        consistent(v),
        v.files.len() <= usize::MAX,
        v.symbols.len() <= usize::MAX,
    ensures
        consistent(after_initialized(v)),
        consistent(after_indexed(v)),
        consistent(after_opened(v, syms)),
        consistent(after_answered(v, result)),
        consistent(after_failed(v)),
        consistent(after_shutdown(v)),
{
    lemma_opened(v, syms);
    lemma_answered(v, result);
    if v.phase == KlsPhase::Index && v.files.len() == 0 {
        assert(v.symbols =~= placed_syms(v.files, v.replies, 0));
        assert(v.nodes =~= symbol_nodes(v.symbols, v.corpus));
    }
}

/// Whether the symbol `j` of the file `i` is one of a session: no later file
/// has the same address.
pub open spec fn is_answered(v: KlsView, i: int, j: int) -> bool {
    &&& 0 <= i < v.files.len() && i < v.replies.len()
    &&& 0 <= j < v.replies[i].len()
    &&& forall|m: int| i < m < v.files.len() ==> (#[trigger] v.files[m]).uri != v.files[i].uri
}

/// Whether a text is the signature of the symbol `s`: what its kind is called,
/// a colon, and its name behind those of the symbols around it.
pub open spec fn is_signature_of(t: Seq<char>, s: DocSymView) -> bool {
    let name = if s.container.len() > 0 {
        s.container + "."@ + s.name
    } else {
        s.name
    };
    &&& s.kind == 5 ==> t == "class"@ + ":"@ + name
    &&& s.kind == 6 || s.kind == 9 ==> t == "method"@ + ":"@ + name
    &&& s.kind == 10 ==> t == "enum"@ + ":"@ + name
    &&& s.kind == 11 ==> t == "interface"@ + ":"@ + name
    &&& s.kind == 12 ==> t == "fn"@ + ":"@ + name
    &&& s.kind == 13 ==> t == "var"@ + ":"@ + name
    &&& s.kind == 14 ==> t == "const"@ + ":"@ + name
    &&& s.kind < 5 || s.kind == 7 || s.kind == 8 || s.kind > 14 ==> t == "sym"@ + ":"@ + name
}

/// Whether a text is the kind of node for the number `kind`.
pub open spec fn is_kind_of(t: Seq<char>, kind: u64) -> bool {
    &&& kind == 5 ==> t == "class"@
    &&& kind == 6 ==> t == "method"@
    &&& kind == 9 ==> t == "constructor"@
    &&& kind == 10 ==> t == "enum"@
    &&& kind == 11 ==> t == "interface"@
    &&& kind == 12 ==> t == "function"@
    &&& kind == 13 ==> t == "variable"@
    &&& kind == 14 ==> t == "constant"@
    &&& kind < 5 || kind == 7 || kind == 8 || kind > 14 ==> t == "symbol"@
}

/// Whether `x` is the node of the symbol `s` in the file `rel`.
pub open spec fn is_node_of(x: NodeView, corpus: Seq<char>, rel: Seq<char>, s: DocSymView) -> bool {
    &&& x.corpus == corpus
    &&& x.path == rel
    &&& x.language == "kotlin"@
    &&& is_signature_of(x.signature, s)
    &&& x.id == vname_id(corpus, ""@, rel, "kotlin"@, x.signature)
    &&& is_kind_of(x.kind, s.kind)
    &&& x.line is Some && x.end_line is Some
    &&& s.sel_range.start.line < u32::MAX ==> x.line->0 == s.sel_range.start.line + 1
    &&& s.range.end.line < u32::MAX ==> x.end_line->0 == s.range.end.line + 1
}

proof fn lemma_symbol_node(p: PlacedSymView, corpus: Seq<char>)
    ensures
        is_node_of(symbol_node(p, corpus), corpus, p.rel, p.sym),
        symbol_node(p, corpus).id == symbol_id(p, corpus),
{
}

proof fn lemma_placed_has(
    files: Seq<KtFileView>,
    replies: Seq<Seq<DocSymView>>,
    n: nat,
    i: int,
    j: int,
)
    requires
        0 <= i < n <= files.len(),
        n <= replies.len(),
        0 <= j < replies[i].len(),
        !is_replaced(files, i),
    ensures
        placed_syms(files, replies, n).contains(
            (PlacedSymView { uri: files[i].uri, rel: files[i].rel, sym: replies[i][j] }),
        ),
    decreases n,
{
    let now = placed_syms(files, replies, n);
    let before = placed_syms(files, replies, (n - 1) as nat);
    let x = PlacedSymView { uri: files[i].uri, rel: files[i].rel, sym: replies[i][j] };
    if i == n - 1 {
        assert(place_all(files[i], replies[i])[j] == x);
        assert(now[before.len() + j] == x);
    } else {
        lemma_placed_has(files, replies, (n - 1) as nat, i, j);
        let p = choose|p: int| 0 <= p < before.len() && before[p] == x;
        assert(now[p] == x);
    }
}

proof fn lemma_placed_stems(
    files: Seq<KtFileView>,
    replies: Seq<Seq<DocSymView>>,
    n: nat,
    p: int,
)
    requires
        n <= files.len(),
        n <= replies.len(),
        0 <= p < placed_syms(files, replies, n).len(),
    ensures
        exists|i: int, j: int|
            0 <= i < n && 0 <= j < replies[i].len() && !is_replaced(files, i) && placed_syms(
                files,
                replies,
                n,
            )[p] == (PlacedSymView {
                uri: files[i].uri,
                rel: files[i].rel,
                sym: #[trigger] replies[i][j],
            }),
    decreases n,
{
    if n > 0 {
        let before = placed_syms(files, replies, (n - 1) as nat);
        if p < before.len() {
            lemma_placed_stems(files, replies, (n - 1) as nat, p);
        } else {
            let j = p - before.len();
            assert(place_all(files[n - 1], replies[n - 1])[j].sym == replies[n - 1][j]);
        }
    }
}

/// A session that is done has a node for each symbol of each file: it starts
/// on the line of the name, and ends on the last line of the declaration. So
/// a declaration that ends behind its name ends on a later line than the node
/// starts on, and every line of it from the name on lies within the node.
pub proof fn law_symbol_becomes_a_node(v: KlsView, i: int, j: int, line: int)
    requires
        consistent(v),
        v.phase == KlsPhase::Done,
        is_answered(v, i, j),
        v.replies[i][j].range.end.line < u32::MAX,
        v.replies[i][j].sel_range.start.line <= line <= v.replies[i][j].range.end.line,
    ensures
        ({
            let s = v.replies[i][j];
            let nodes = kls_graph(v).nodes;
            exists|n: int|
                #![trigger nodes[n]]
                0 <= n < nodes.len() && is_node_of(nodes[n], v.corpus, v.files[i].rel, s)
                    && nodes[n].end_line->0 == s.range.end.line + 1 && (s.range.end.line
                    > s.sel_range.start.line ==> nodes[n].end_line->0 > nodes[n].line->0)
                    && nodes[n].line->0 <= line + 1 <= nodes[n].end_line->0
        }),
{
    let s = v.replies[i][j];
    let nodes = kls_graph(v).nodes;
    let x = PlacedSymView { uri: v.files[i].uri, rel: v.files[i].rel, sym: s };
    lemma_placed_has(v.files, v.replies, v.files.len(), i, j);
    let n = choose|n: int| 0 <= n < v.symbols.len() && v.symbols[n] == x;
    lemma_symbol_node(x, v.corpus);
    assert(nodes[n] == symbol_node(x, v.corpus));
}

/// Every node of a session that is done stems from a symbol of one of its
/// files.
pub proof fn law_node_stems_from_a_symbol(v: KlsView, n: int)
    requires
        consistent(v),
        v.phase == KlsPhase::Done,
        0 <= n < kls_graph(v).nodes.len(),
    ensures
        exists|i: int, j: int|
            #![trigger v.replies[i][j]]
            is_answered(v, i, j) && is_node_of(
                kls_graph(v).nodes[n],
                v.corpus,
                v.files[i].rel,
                v.replies[i][j],
            ),
{
    lemma_placed_stems(v.files, v.replies, v.files.len(), n);
    let (i, j) = choose|i: int, j: int|
        0 <= i < v.files.len() && 0 <= j < v.replies[i].len() && !is_replaced(v.files, i)
            && v.symbols[n] == (PlacedSymView {
            uri: v.files[i].uri,
            rel: v.files[i].rel,
            sym: #[trigger] v.replies[i][j],
        });
    lemma_symbol_node(v.symbols[n], v.corpus);
    assert(kls_graph(v).nodes[n] == symbol_node(v.symbols[n], v.corpus));
    assert(is_answered(v, i, j));
}

/// The reply to the question for the uses of a symbol adds the node of that
/// symbol, and for each of its first locations below the root a reference to
/// that node, from the file and line of the location. What the session had
/// before stays.
pub proof fn law_reply_is_recorded(
    v: KlsView,
    k: usize,
    result: serde_json::Value,
    l: int,
    uri: Seq<char>,
    rel: Seq<char>,
)
    requires
        consistent(v),
        v.phase == KlsPhase::References(k),
        json_items(result) is Some,
        0 <= l < json_items(result)->0.len(),
        l < 500,
        json_text(json_member(json_items(result)->0[l], "uri"@)) == Some(uri),
        uri_below(v.root, uri) == Some(rel),
    ensures
        ({
            let w = after_answered(v, Some(result));
            let x = w.nodes[v.nodes.len() as int];
            let place = json_member(
                json_member(json_member(json_items(result)->0[l], "range"@), "start"@),
                "line"@,
            );
            &&& w.nodes.len() == v.nodes.len() + 1
            &&& w.nodes.take(v.nodes.len() as int) == v.nodes
            &&& is_node_of(x, v.corpus, v.symbols[k as int].rel, v.symbols[k as int].sym)
            &&& w.refs.take(v.refs.len() as int) == v.refs
            &&& exists|r: int|
                #![trigger w.refs[r]]
                v.refs.len() <= r < w.refs.len() && w.refs[r].caller_path == rel
                    && w.refs[r].callee_id == x.id && w.refs[r].is_call && w.refs[r].caller_col is None
                    && (json_u64(place) matches Some(n) ==> n < u32::MAX ==> w.refs[r].caller_line
                    == n + 1)
        }),
{
    let w = after_answered(v, Some(result));
    let p = v.symbols[k as int];
    let locs = json_items(result)->0;
    lemma_symbol_node(p, v.corpus);
    let id = symbol_id(p, v.corpus);
    let n = if locs.len() <= MAX_REFS_PER_SYMBOL {
        locs.len()
    } else {
        MAX_REFS_PER_SYMBOL as nat
    };
    let slots = location_refs(locs, v.root, id, n);
    let more = reply_refs(result, v.root, id);
    let x = location_ref(locs[l], v.root, id)->0;
    assert(slots[l] == Some(x));
    crate::emitter::lemma_somes_hold(slots, x);
    let q = choose|q: int| 0 <= q < more.len() && more[q] == x;
    assert(w.refs[v.refs.len() + q] == x);
    assert(w.refs.take(v.refs.len() as int) =~= v.refs);
    assert(w.nodes.take(v.nodes.len() as int) =~= v.nodes);
}

/// A reply adds no other references than those to the node of the symbol that
/// was asked for, each from a location below the root.
pub proof fn law_reference_stems_from_a_location(
    v: KlsView,
    k: usize,
    result: serde_json::Value,
    r: int,
)
    requires
        consistent(v),
        v.phase == KlsPhase::References(k),
        v.refs.len() <= r < after_answered(v, Some(result)).refs.len(),
    ensures
        ({
            let w = after_answered(v, Some(result));
            let x = w.refs[r];
            json_items(result) is Some && exists|l: int|
                #![trigger json_items(result)->0[l]]
                0 <= l < json_items(result)->0.len() && l < 500 && (json_text(
                    json_member(json_items(result)->0[l], "uri"@),
                ) matches Some(uri) && uri_below(v.root, uri) == Some(x.caller_path)) && x.callee_id
                    == w.nodes[v.nodes.len() as int].id
        }),
{
    let w = after_answered(v, Some(result));
    let p = v.symbols[k as int];
    lemma_symbol_node(p, v.corpus);
    let id = symbol_id(p, v.corpus);
    let more = reply_refs(result, v.root, id);
    let x = w.refs[r];
    assert(more[r - v.refs.len()] == x);
    let locs = json_items(result)->0;
    let n = if locs.len() <= MAX_REFS_PER_SYMBOL {
        locs.len()
    } else {
        MAX_REFS_PER_SYMBOL as nat
    };
    let slots = location_refs(locs, v.root, id, n);
    crate::emitter::lemma_somes_hold(slots, x);
    let l = choose|l: int| 0 <= l < slots.len() && slots[l] == Some(x);
    assert(location_ref(locs[l], v.root, id) == Some(x));
}

/// A server may take as many seconds as are asked for, and three minutes where
/// no positive number is.
pub proof fn law_asked_wait_is_granted(n: nat, s: Seq<char>)
    requires
        0 < n <= u64::MAX,
    ensures
        wait_secs(Some(crate::text::decimal(n))) == n,
        wait_secs(Some(crate::text::decimal(0))) == 180,
        wait_secs(None) == 180,
        natural(s) is None ==> wait_secs(Some(s)) == 180,
        wait_secs(Some(s)) > 0,
{
    crate::text::law_number_reads_back(n);
    crate::text::law_number_reads_back(0);
}

/// A source is told by its extension; what is built and what is hidden is left
/// out.
pub proof fn law_sources_are_told_by_name(stem: Seq<char>, name: Seq<char>)
    requires
        stem.len() > 0,
    ensures
        is_kotlin_name(stem + ".kt"@),
        is_kotlin_name(stem + ".kts"@),
        is_kotlin_name(name) ==> crate::text::ends_with(name, ".kt"@) || crate::text::ends_with(
            name,
            ".kts"@,
        ),
        is_left_out(name) <==> name == "target"@ || name == "build"@ || (name.len() > 0 && name[0]
            == '.'),
{
    reveal_strlit(".");
    reveal_strlit("..");
    reveal_strlit("kt");
    reveal_strlit("kts");
    reveal_strlit(".kt");
    reveal_strlit(".kts");
    crate::paths::law_extension_follows_the_last_dot(stem, "kt"@);
    crate::paths::law_extension_follows_the_last_dot(stem, "kts"@);
    assert(stem + seq!['.'] + "kt"@ =~= stem + ".kt"@);
    assert(stem + seq!['.'] + "kts"@ =~= stem + ".kts"@);
    assert((stem + ".kt"@).last() == 't');
    assert((stem + ".kts"@).last() == 's');
    assert("."@ =~= seq!['.']);
    if name.len() > 0 {
        assert(name.take(1)[0] == name[0]);
        assert(name.take(1) =~= seq![name[0]]);
        assert(seq![name[0]][0] == name[0]);
        assert(seq!['.'][0] == '.');
    }
    if name_extension(name) is Some {
        let i = crate::text::find_last(name, '.');
        crate::text::lemma_last_is_found(name, '.');
        let e = name.skip(i + 1);
        assert(name.skip(i) =~= seq!['.'] + e);
        assert(".kt"@ =~= seq!['.'] + "kt"@);
        assert(".kts"@ =~= seq!['.'] + "kts"@);
    }
}

} // verus!
