//! Scala: the graph of a build's SemanticDB output, and the decisions of a
//! run of sbt.
use vstd::hash_map::StringHashMap;
use vstd::prelude::*;
use vstd::string::*;
use crate::columns::{
    file_col, keeps_ascii_column, law_file_column_is_kept, ColUnit, SourceCache,
};
use crate::graph::{
    group_views_push, name_id, node, node_view, node_views, ref_views, vname_id, Edge, EdgeKind,
    InvokeResponse, Node, NodeView, PluginDiagnostic, RefView, ResponseView, ScipRef,
    UnresolvedCall,
};
use crate::semanticdb::{
    text_document_views, SdbOccurrenceView, SdbSymbolView, TextDocument, TextDocumentView,
};
use crate::text::{chars_of, copy_text, has_prefix, same_text, starts_with};

verus! {

/// The kinds of symbols that SemanticDB gives these numbers.
pub const KIND_FIELD: u32 = 2;

pub const KIND_METHOD: u32 = 3;

pub const KIND_OBJECT: u32 = 10;

pub const KIND_PACKAGE_OBJECT: u32 = 12;

pub const KIND_CLASS: u32 = 13;

pub const KIND_TRAIT: u32 = 14;

pub const KIND_MACRO: u32 = 22;

/// A kind whose definitions hold other code.
pub open spec fn container_kind(kind: u32) -> bool {
    kind == KIND_FIELD || kind == KIND_METHOD || kind == KIND_OBJECT || kind == KIND_PACKAGE_OBJECT
        || kind == KIND_CLASS || kind == KIND_TRAIT || kind == KIND_MACRO
}

/// Whether the definitions of a kind hold other code.
pub fn is_container_kind(kind: u32) -> (r: bool)
    ensures
        r == container_kind(kind),
{
    kind == KIND_FIELD || kind == KIND_METHOD || kind == KIND_OBJECT || kind == KIND_PACKAGE_OBJECT
        || kind == KIND_CLASS || kind == KIND_TRAIT || kind == KIND_MACRO
}

/// The kind of node for a kind of symbol.
pub open spec fn kind_text(kind: u32) -> Seq<char> {
    if kind == KIND_FIELD {
        "field"@
    } else if kind == KIND_METHOD || kind == KIND_MACRO {
        "method"@
    } else if kind == KIND_OBJECT || kind == KIND_PACKAGE_OBJECT {
        "object"@
    } else if kind == KIND_CLASS {
        "class"@
    } else if kind == KIND_TRAIT {
        "trait"@
    } else {
        "sym"@
    }
}

/// The kind of node for a kind of symbol.
pub fn kind_str(kind: u32) -> (r: &'static str)
    ensures
        r@ == kind_text(kind),
{
    if kind == KIND_FIELD {
        "field"
    } else if kind == KIND_METHOD || kind == KIND_MACRO {
        "method"
    } else if kind == KIND_OBJECT || kind == KIND_PACKAGE_OBJECT {
        "object"
    } else if kind == KIND_CLASS {
        "class"
    } else if kind == KIND_TRAIT {
        "trait"
    } else {
        "sym"
    }
}

/// A symbol in a namespace of the standard library.
pub open spec fn stdlib_symbol(symbol: Seq<char>) -> bool {
    starts_with(symbol, "scala/"@) || starts_with(symbol, "java/"@) || starts_with(
        symbol,
        "javax/"@,
    ) || starts_with(symbol, "_root_/"@) || starts_with(symbol, "android/"@)
}

/// Whether a symbol lies in a namespace of the standard library.
pub fn is_stdlib_symbol(symbol: &str) -> (r: bool)
    ensures
        r == stdlib_symbol(symbol@),
{
    let chars = chars_of(symbol);
    let s = chars.as_slice();
    has_prefix(s, "scala/") || has_prefix(s, "java/") || has_prefix(s, "javax/") || has_prefix(
        s,
        "_root_/",
    ) || has_prefix(s, "android/")
}

/// An anonymous local: `local` and a number.
pub open spec fn local_symbol(symbol: Seq<char>) -> bool {
    &&& starts_with(symbol, "local"@)
    &&& symbol.len() > 5
    &&& forall|i: int| 5 <= i < symbol.len() ==> '0' <= #[trigger] symbol[i] <= '9'
}

/// Whether a symbol is an anonymous local.
pub fn is_local_symbol(symbol: &str) -> (r: bool)
    ensures
        r == local_symbol(symbol@),
{
    let s = chars_of(symbol);
    if !has_prefix(s.as_slice(), "local") || s.len() <= 5 {
        return false;
    }
    let mut i: usize = 5;
    while i < s.len()
        invariant
            5 <= i <= s@.len(),
            s@ == symbol@,
            forall|k: int| 5 <= k < i ==> '0' <= #[trigger] s@[k] <= '9',
        decreases s@.len() - i,
    {
        if s[i] < '0' || s[i] > '9' {
            return false;
        }
        i += 1;
    }
    true
}

/// A symbol whose last descriptor is a parameter.
pub open spec fn parameter_symbol(symbol: Seq<char>) -> bool {
    crate::scip_reader::parameter_symbol(symbol)
}

/// A symbol that becomes neither a node nor the end of an edge: a local, a
/// parameter, or a symbol of the standard library that is not `defined` here.
pub open spec fn noise(symbol: Seq<char>, defined: Set<Seq<char>>) -> bool {
    local_symbol(symbol) || parameter_symbol(symbol) || (!defined.contains(symbol)
        && stdlib_symbol(symbol))
}

/// Whether a symbol becomes neither a node nor the end of an edge; `defined`
/// holds the symbols that the repository defines.
pub fn is_noise_symbol(symbol: &str, defined: &StringHashMap<bool>) -> (r: bool)
    ensures
        r == noise(symbol@, defined@.dom()),
{
    is_local_symbol(symbol) || crate::scip_reader::is_parameter_descriptor(symbol) || (
    !defined.contains_key(symbol) && is_stdlib_symbol(symbol))
}

/// Whether one of `symbols` is `s`.
pub open spec fn names(symbols: Seq<SdbSymbolView>, s: Seq<char>) -> bool {
    exists|i: int| 0 <= i < symbols.len() && (#[trigger] symbols[i]).symbol == s
}

/// The symbols that the documents define.
pub open spec fn defined_symbols(docs: Seq<TextDocumentView>) -> Set<Seq<char>> {
    Set::new(|s: Seq<char>| exists|i: int| 0 <= i < docs.len() && names((#[trigger] docs[i]).symbols, s))
}

/// The signature of a symbol's node.
pub open spec fn sdb_signature(symbol: Seq<char>) -> Seq<char> {
    "sdb:"@ + symbol
}

/// The identifier of the node for `symbol` in the file `path`.
pub open spec fn sdb_id(symbol: Seq<char>, path: Seq<char>, corpus: Seq<char>) -> u64 {
    vname_id(corpus, ""@, path, "scala"@, sdb_signature(symbol))
}

fn signature_of(symbol: &str) -> (r: String)
    ensures
        r@ == sdb_signature(symbol@),
{
    let mut s = String::new();
    s.append("sdb:");
    s.append(symbol);
    s
}

fn symbol_id(symbol: &str, path: &str, corpus: &str) -> (r: u64)
    ensures
        r == sdb_id(symbol@, path@, corpus@),
{
    name_id(corpus, "", path, "scala", signature_of(symbol).as_str())
}

/// The file of the first of the documents that defines `s`.
pub open spec fn defining_file(docs: Seq<TextDocumentView>, s: Seq<char>) -> Option<Seq<char>>
    decreases docs.len(),
{
    if docs.len() == 0 {
        None
    } else {
        match defining_file(docs.drop_last(), s) {
            Some(uri) => Some(uri),
            None => if names(docs.last().symbols, s) {
                Some(docs.last().uri)
            } else {
                None
            },
        }
    }
}

/// The node that references to `s` lead to, where the documents define it.
pub open spec fn sdb_definition(
    docs: Seq<TextDocumentView>,
    corpus: Seq<char>,
    s: Seq<char>,
) -> Option<u64> {
    match defining_file(docs, s) {
        Some(uri) if !noise(s, defined_symbols(docs)) => Some(sdb_id(s, uri, corpus)),
        _ => None,
    }
}

fn collect_defined(docs: &Vec<TextDocument>) -> (r: StringHashMap<bool>)
    ensures
        r@.dom() == defined_symbols(text_document_views(docs@)),
{
    let mut defined: StringHashMap<bool> = StringHashMap::new();
    let ghost all = text_document_views(docs@);
    let n: usize = docs.len();
    let mut i: usize = 0;
    while i < n
        invariant
            i <= n,
            n == docs@.len(),
            all == text_document_views(docs@),
            defined@.dom() == defined_symbols(all.take(i as int)),
        decreases n - i,
    {
        let doc = &docs[i];
        let ghost before = defined@.dom();
        let m: usize = doc.symbols.len();
        let mut j: usize = 0;
        while j < m
            invariant
                j <= m,
                m == doc.symbols@.len(),
                defined@.dom() == before.union(
                    Set::new(|s: Seq<char>| names(doc@.symbols.take(j as int), s)),
                ),
            decreases m - j,
        {
            let sym = &doc.symbols[j];
            defined.insert(copy_text(sym.symbol.as_str()), true);
            proof {
                let old_names = doc@.symbols.take(j as int);
                let new_names = doc@.symbols.take(j + 1);
                assert forall|s: Seq<char>| names(new_names, s) == (names(old_names, s) || s
                    == sym.symbol@) by {
                    lemma_names_push(old_names, sym@, s);
                    assert(new_names =~= old_names.push(sym@));
                }
            }
            j += 1;
        }
        proof {
            assert(doc@.symbols.take(m as int) =~= doc@.symbols);
            let seen = all.take(i as int);
            let now = all.take(i + 1);
            assert(now =~= seen.push(doc@));
            assert forall|s: Seq<char>|
                defined_symbols(now).contains(s) == (defined_symbols(seen).contains(s) || names(
                    doc@.symbols,
                    s,
                )) by {
                lemma_defined_push(seen, doc@, s);
            }
        }
        i += 1;
    }
    assert(all.take(n as int) =~= all);
    defined
}

proof fn lemma_names_push(symbols: Seq<SdbSymbolView>, x: SdbSymbolView, s: Seq<char>)
    ensures
        names(symbols.push(x), s) == (names(symbols, s) || x.symbol == s),
{
    let now = symbols.push(x);
    if names(symbols, s) {
        let i = choose|i: int| 0 <= i < symbols.len() && (#[trigger] symbols[i]).symbol == s;
        assert(now[i].symbol == s);
    }
    if x.symbol == s {
        assert(now[symbols.len() as int].symbol == s);
    }
}

proof fn lemma_defined_push(docs: Seq<TextDocumentView>, x: TextDocumentView, s: Seq<char>)
    ensures
        defined_symbols(docs.push(x)).contains(s) == (defined_symbols(docs).contains(s) || names(
            x.symbols,
            s,
        )),
{
    let now = docs.push(x);
    if defined_symbols(docs).contains(s) {
        let i = choose|i: int| 0 <= i < docs.len() && names((#[trigger] docs[i]).symbols, s);
        assert(names(now[i].symbols, s));
    }
    if names(x.symbols, s) {
        assert(names(now[docs.len() as int].symbols, s));
    }
}

/// What a table of definitions holds for a symbol, after all of `docs` and
/// `part` of the symbols of the document `uri`.
spec fn def_entry(
    m: Map<Seq<char>, u64>,
    docs: Seq<TextDocumentView>,
    part: Seq<SdbSymbolView>,
    uri: Seq<char>,
    corpus: Seq<char>,
    defined: Set<Seq<char>>,
    s: Seq<char>,
) -> bool {
    let file = match defining_file(docs, s) {
        Some(u) => Some(u),
        None => if names(part, s) {
            Some(uri)
        } else {
            None
        },
    };
    match file {
        Some(u) if !noise(s, defined) => m.contains_key(s) && m[s] == sdb_id(s, u, corpus),
        _ => !m.contains_key(s),
    }
}

fn definition_ids(docs: &Vec<TextDocument>, corpus: &str, defined: &StringHashMap<bool>) -> (r:
    StringHashMap<u64>)
    requires
        defined@.dom() == defined_symbols(text_document_views(docs@)),
    ensures
        forall|s: Seq<char>|
            #![trigger r@.contains_key(s)]
            match sdb_definition(text_document_views(docs@), corpus@, s) {
                Some(id) => r@.contains_key(s) && r@[s] == id,
                None => !r@.contains_key(s),
            },
{
    let mut ids: StringHashMap<u64> = StringHashMap::new();
    let ghost all = text_document_views(docs@);
    let ghost known = defined_symbols(all);
    let n: usize = docs.len();
    let mut i: usize = 0;
    assert forall|s: Seq<char>|
        def_entry(ids@, all.take(0), Seq::empty(), Seq::empty(), corpus@, known, s) by {}
    while i < n
        invariant
            i <= n,
            n == docs@.len(),
            all == text_document_views(docs@),
            known == defined_symbols(all),
            defined@.dom() == known,
            forall|s: Seq<char>|
                def_entry(
                    ids@,
                    all.take(i as int),
                    Seq::empty(),
                    Seq::empty(),
                    corpus@,
                    known,
                    s,
                ),
        decreases n - i,
    {
        let doc = &docs[i];
        let ghost seen = all.take(i as int);
        let m: usize = doc.symbols.len();
        let mut j: usize = 0;
        assert forall|s: Seq<char>|
            def_entry(ids@, seen, doc@.symbols.take(0), doc@.uri, corpus@, known, s) by {
            assert(def_entry(ids@, seen, Seq::empty(), Seq::empty(), corpus@, known, s));
        }
        while j < m
            invariant
                j <= m,
                m == doc.symbols@.len(),
                defined@.dom() == known,
                forall|s: Seq<char>|
                    def_entry(
                        ids@,
                        seen,
                        doc@.symbols.take(j as int),
                        doc@.uri,
                        corpus@,
                        known,
                        s,
                    ),
            decreases m - j,
        {
            let sym = &doc.symbols[j];
            let ghost part = doc@.symbols.take(j as int);
            let ghost before = ids@;
            if !is_noise_symbol(sym.symbol.as_str(), defined) && !ids.contains_key(
                sym.symbol.as_str(),
            ) {
                ids.insert(
                    copy_text(sym.symbol.as_str()),
                    symbol_id(sym.symbol.as_str(), doc.uri.as_str(), corpus),
                );
            }
            proof {
                let now = doc@.symbols.take(j + 1);
                assert(now =~= part.push(sym@));
                assert forall|s: Seq<char>|
                    def_entry(ids@, seen, now, doc@.uri, corpus@, known, s) by {
                    lemma_names_push(part, sym@, s);
                    assert(def_entry(before, seen, part, doc@.uri, corpus@, known, s));
                }
            }
            j += 1;
        }
        proof {
            let now = all.take(i + 1);
            assert(doc@.symbols.take(m as int) =~= doc@.symbols);
            assert(now.drop_last() =~= seen);
            assert forall|s: Seq<char>|
                def_entry(ids@, now, Seq::empty(), Seq::empty(), corpus@, known, s) by {
                assert(def_entry(ids@, seen, doc@.symbols, doc@.uri, corpus@, known, s));
            }
        }
        i += 1;
    }
    proof {
        assert(all.take(n as int) =~= all);
        assert forall|s: Seq<char>|
            #![trigger ids@.contains_key(s)]
            match sdb_definition(all, corpus@, s) {
                Some(id) => ids@.contains_key(s) && ids@[s] == id,
                None => !ids@.contains_key(s),
            } by {
            assert(def_entry(ids@, all, Seq::empty(), Seq::empty(), corpus@, known, s));
        }
    }
    ids
}

/// The kind that the document's symbols give `s`: the last one counts; zero
/// where none does.
pub open spec fn symbol_kind(symbols: Seq<SdbSymbolView>, s: Seq<char>) -> u32
    decreases symbols.len(),
{
    if symbols.len() == 0 {
        0
    } else if symbols.last().symbol == s {
        symbols.last().kind
    } else {
        symbol_kind(symbols.drop_last(), s)
    }
}

fn kind_in(doc: &TextDocument, s: &str) -> (r: u32)
    ensures
        r == symbol_kind(doc@.symbols, s@),
{
    let mut n: usize = doc.symbols.len();
    assert(doc@.symbols.take(n as int) =~= doc@.symbols);
    while n > 0
        invariant
            n <= doc.symbols@.len(),
            symbol_kind(doc@.symbols, s@) == symbol_kind(doc@.symbols.take(n as int), s@),
        decreases n,
    {
        assert(doc@.symbols.take(n as int).drop_last() =~= doc@.symbols.take(n - 1));
        if same_text(doc.symbols[n - 1].symbol.as_str(), s) {
            return doc.symbols[n - 1].kind;
        }
        n -= 1;
    }
    0
}

/// A definition of something that holds code, whose place is known and which
/// may be the end of an edge; `defined` holds the symbols that are defined.
pub open spec fn container(
    d: TextDocumentView,
    o: SdbOccurrenceView,
    defined: Set<Seq<char>>,
) -> bool {
    &&& o.role == 2
    &&& o.has_range
    &&& container_kind(symbol_kind(d.symbols, o.symbol))
    &&& !noise(o.symbol, defined)
}

/// Among the first `n` occurrences of a document, the definition of a
/// container that starts last at or before `line`; among equals the last one.
pub open spec fn enclosing(
    d: TextDocumentView,
    defined: Set<Seq<char>>,
    line: u32,
    n: nat,
) -> Option<SdbOccurrenceView>
    decreases n,
{
    if n == 0 {
        None
    } else {
        let o = d.occurrences[n - 1];
        match enclosing(d, defined, line, (n - 1) as nat) {
            Some(best) => if container(d, o, defined) && best.start_line <= o.start_line <= line {
                Some(o)
            } else {
                Some(best)
            },
            None => if container(d, o, defined) && o.start_line <= line {
                Some(o)
            } else {
                None
            },
        }
    }
}

fn enclosing_container(doc: &TextDocument, defined: &StringHashMap<bool>, line: u32) -> (r: Option<
    usize,
>)
    ensures
        match r {
            Some(i) => i < doc@.occurrences.len() && enclosing(
                doc@,
                defined@.dom(),
                line,
                doc@.occurrences.len(),
            ) == Some(doc@.occurrences[i as int]),
            None => enclosing(doc@, defined@.dom(), line, doc@.occurrences.len()) is None,
        },
{
    let n: usize = doc.occurrences.len();
    let mut best: Option<usize> = None;
    let mut i: usize = 0;
    while i < n
        invariant
            i <= n,
            n == doc.occurrences@.len(),
            match best {
                Some(b) => b < i && enclosing(doc@, defined@.dom(), line, i as nat) == Some(
                    doc@.occurrences[b as int],
                ),
                None => enclosing(doc@, defined@.dom(), line, i as nat) is None,
            },
        decreases n - i,
    {
        let o = &doc.occurrences[i];
        if o.role == 2 && o.has_range && o.start_line <= line && is_container_kind(
            kind_in(doc, o.symbol.as_str()),
        ) && !is_noise_symbol(o.symbol.as_str(), defined) {
            match best {
                Some(b) => {
                    if doc.occurrences[b].start_line <= o.start_line {
                        best = Some(i);
                    }
                },
                None => {
                    best = Some(i);
                },
            }
        }
        i += 1;
    }
    best
}

/// A line counted from one, for a line counted from zero; behind the largest
/// number the count starts over.
pub open spec fn next_line(line: u32) -> u32 {
    if line == u32::MAX {
        0
    } else {
        (line + 1) as u32
    }
}

fn line_after(line: u32) -> (r: u32)
    ensures
        r == next_line(line),
{
    if line == u32::MAX {
        0
    } else {
        line + 1
    }
}

/// Among the first `n` occurrences, the first definition of `s` that has a
/// range.
pub open spec fn placed_definition(
    occs: Seq<SdbOccurrenceView>,
    s: Seq<char>,
    n: nat,
) -> Option<SdbOccurrenceView>
    decreases n,
{
    if n == 0 {
        None
    } else {
        match placed_definition(occs, s, (n - 1) as nat) {
            Some(o) => Some(o),
            None => {
                let o = occs[n - 1];
                if o.role == 2 && o.symbol == s && o.has_range {
                    Some(o)
                } else {
                    None
                }
            },
        }
    }
}

fn definition_span(doc: &TextDocument, s: &str) -> (r: (Option<u32>, Option<u32>))
    ensures
        r == definition_lines(doc@, s@),
{
    let n: usize = doc.occurrences.len();
    let mut i: usize = 0;
    while i < n
        invariant
            i <= n,
            n == doc.occurrences@.len(),
            placed_definition(doc@.occurrences, s@, i as nat) is None,
        decreases n - i,
    {
        let o = &doc.occurrences[i];
        i += 1;
        if o.role == 2 && o.has_range && same_text(o.symbol.as_str(), s) {
            proof {
                lemma_placed_stays(doc@.occurrences, s@, i as nat, n as nat);
            }
            return (Some(line_after(o.start_line)), Some(line_after(o.end_line)));
        }
    }
    (None, None)
}

proof fn lemma_placed_stays(occs: Seq<SdbOccurrenceView>, s: Seq<char>, i: nat, n: nat)
    requires
        i <= n,
        placed_definition(occs, s, i) is Some,
    ensures
        placed_definition(occs, s, n) == placed_definition(occs, s, i),
    decreases n - i,
{
    if i < n {
        lemma_placed_stays(occs, s, i, (n - 1) as nat);
    }
}

/// The lines of the definition of `s`; none where no definition has a range.
pub open spec fn definition_lines(d: TextDocumentView, s: Seq<char>) -> (Option<u32>, Option<u32>) {
    match placed_definition(d.occurrences, s, d.occurrences.len()) {
        Some(o) => (Some(next_line(o.start_line)), Some(next_line(o.end_line))),
        None => (None, None),
    }
}

/// The node of a symbol that the document `d` defines.
pub open spec fn symbol_node(d: TextDocumentView, s: SdbSymbolView, corpus: Seq<char>) -> NodeView {
    let (line, end_line) = definition_lines(d, s.symbol);
    node_view(
        corpus,
        d.uri,
        "scala"@,
        sdb_signature(s.symbol),
        kind_text(s.kind),
        line,
        end_line,
    )
}

/// The nodes of the first `n` symbols of a document.
pub open spec fn document_nodes(
    d: TextDocumentView,
    corpus: Seq<char>,
    defined: Set<Seq<char>>,
    n: nat,
) -> Seq<NodeView>
    decreases n,
{
    if n == 0 {
        Seq::empty()
    } else {
        let before = document_nodes(d, corpus, defined, (n - 1) as nat);
        if noise(d.symbols[n - 1].symbol, defined) {
            before
        } else {
            before.push(symbol_node(d, d.symbols[n - 1], corpus))
        }
    }
}

/// The nodes of the first `n` documents.
pub open spec fn all_nodes(
    docs: Seq<TextDocumentView>,
    corpus: Seq<char>,
    defined: Set<Seq<char>>,
    n: nat,
) -> Seq<NodeView>
    decreases n,
{
    if n == 0 {
        Seq::empty()
    } else {
        all_nodes(docs, corpus, defined, (n - 1) as nat) + document_nodes(
            docs[n - 1],
            corpus,
            defined,
            docs[n - 1].symbols.len(),
        )
    }
}

fn collect_nodes(
    doc: &TextDocument,
    corpus: &str,
    defined: &StringHashMap<bool>,
    nodes: &mut Vec<Node>,
)
    ensures
        node_views(final(nodes)@) == node_views(old(nodes)@) + document_nodes(
            doc@,
            corpus@,
            defined@.dom(),
            doc@.symbols.len(),
        ),
{
    broadcast use group_views_push;

    let n: usize = doc.symbols.len();
    let mut i: usize = 0;
    while i < n
        invariant
            i <= n,
            n == doc.symbols@.len(),
            node_views(nodes@) == node_views(old(nodes)@) + document_nodes(
                doc@,
                corpus@,
                defined@.dom(),
                i as nat,
            ),
        decreases n - i,
    {
        let sym = &doc.symbols[i];
        i += 1;
        if !is_noise_symbol(sym.symbol.as_str(), defined) {
            let (line, end_line) = definition_span(doc, sym.symbol.as_str());
            let nd = node(
                corpus,
                doc.uri.as_str(),
                "scala",
                signature_of(sym.symbol.as_str()).as_str(),
                kind_str(sym.kind),
                line,
                end_line,
            );
            let ghost held = nodes@;
            nodes.push(nd);
            assert(node_views(nodes@) == node_views(held).push(nd@));
        }
    }
}

/// What a reference in a Scala file comes to.
pub enum Use {
    /// A reference to a definition of the repository.
    Ref(RefView),
    /// An edge from the definition that encloses it.
    Fallback(Edge),
    Nothing,
}

/// What the occurrence `o` of the document `d` comes to. A reference to a
/// definition is recorded as such and as nothing else; only one without a
/// definition gives an edge from what encloses it.
pub open spec fn use_of(
    docs: Seq<TextDocumentView>,
    d: TextDocumentView,
    o: SdbOccurrenceView,
    corpus: Seq<char>,
    sources: Map<Seq<char>, Option<Seq<Seq<char>>>>,
) -> Use {
    if o.role != 1 || noise(o.symbol, defined_symbols(docs)) || !o.has_range {
        Use::Nothing
    } else {
        match sdb_definition(docs, corpus, o.symbol) {
            Some(id) => Use::Ref(
                RefView {
                    caller_path: d.uri,
                    caller_line: next_line(o.start_line),
                    callee_id: id,
                    is_call: true,
                    caller_col: if sources.contains_key(d.uri) {
                        file_col(
                            sources[d.uri],
                            next_line(o.start_line),
                            (o.start_char as i32) as int,
                            ColUnit::Unknown,
                        )
                    } else {
                        None
                    },
                },
            ),
            None => match enclosing(
                d,
                defined_symbols(docs),
                o.start_line,
                d.occurrences.len(),
            ) {
                Some(outer) if outer.symbol != o.symbol => Use::Fallback(
                    Edge {
                        src: sdb_id(outer.symbol, d.uri, corpus),
                        dst: sdb_id(o.symbol, d.uri, corpus),
                        kind: EdgeKind::RefCall,
                    },
                ),
                _ => Use::Nothing,
            },
        }
    }
}

/// What the first `n` occurrences of the document `d` come to.
pub open spec fn document_uses(
    docs: Seq<TextDocumentView>,
    d: TextDocumentView,
    corpus: Seq<char>,
    sources: Map<Seq<char>, Option<Seq<Seq<char>>>>,
    n: nat,
) -> Seq<Use> {
    Seq::new(n, |i: int| use_of(docs, d, d.occurrences[i], corpus, sources))
}

/// What the occurrences of the first `n` documents come to.
pub open spec fn all_uses(
    docs: Seq<TextDocumentView>,
    corpus: Seq<char>,
    sources: Map<Seq<char>, Option<Seq<Seq<char>>>>,
    n: nat,
) -> Seq<Use>
    decreases n,
{
    if n == 0 {
        Seq::empty()
    } else {
        all_uses(docs, corpus, sources, (n - 1) as nat) + document_uses(
            docs,
            docs[n - 1],
            corpus,
            sources,
            docs[n - 1].occurrences.len(),
        )
    }
}

/// The references among uses.
pub open spec fn use_refs(u: Seq<Use>) -> Seq<RefView>
    decreases u.len(),
{
    if u.len() == 0 {
        Seq::empty()
    } else {
        match u.last() {
            Use::Ref(r) => use_refs(u.drop_last()).push(r),
            _ => use_refs(u.drop_last()),
        }
    }
}

/// The edges among uses.
pub open spec fn use_edges(u: Seq<Use>) -> Seq<Edge>
    decreases u.len(),
{
    if u.len() == 0 {
        Seq::empty()
    } else {
        match u.last() {
            Use::Fallback(e) => use_edges(u.drop_last()).push(e),
            _ => use_edges(u.drop_last()),
        }
    }
}

/// The graph of a build's documents.
pub open spec fn scala_response(
    docs: Seq<TextDocumentView>,
    corpus: Seq<char>,
    sources: Map<Seq<char>, Option<Seq<Seq<char>>>>,
) -> ResponseView {
    let uses = all_uses(docs, corpus, sources, docs.len());
    ResponseView {
        nodes: all_nodes(docs, corpus, defined_symbols(docs), docs.len()),
        edges: use_edges(uses),
        refs: use_refs(uses),
        unresolved_calls: Seq::empty(),
        diagnostics: Seq::empty(),
    }
}

fn collect_uses(
    docs: Ghost<Seq<TextDocumentView>>,
    doc: &TextDocument,
    corpus: &str,
    sources: &SourceCache,
    defined: &StringHashMap<bool>,
    ids: &StringHashMap<u64>,
    before: Ghost<Seq<Use>>,
    refs: &mut Vec<ScipRef>,
    edges: &mut Vec<Edge>,
)
    requires
        defined@.dom() == defined_symbols(docs@),
        forall|s: Seq<char>|
            #![trigger ids@.contains_key(s)]
            match sdb_definition(docs@, corpus@, s) {
                Some(id) => ids@.contains_key(s) && ids@[s] == id,
                None => !ids@.contains_key(s),
            },
        ref_views(old(refs)@) == use_refs(before@),
        old(edges)@ == use_edges(before@),
    ensures
        ({
            let now = before@ + document_uses(
                docs@,
                doc@,
                corpus@,
                sources@,
                doc@.occurrences.len(),
            );
            &&& ref_views(final(refs)@) == use_refs(now)
            &&& final(edges)@ == use_edges(now)
        }),
{
    broadcast use group_views_push;

    let uri = doc.uri.as_str();
    let n: usize = doc.occurrences.len();
    let mut i: usize = 0;
    while i < n
        invariant
            i <= n,
            n == doc.occurrences@.len(),
            uri@ == doc@.uri,
            defined@.dom() == defined_symbols(docs@),
            forall|s: Seq<char>|
                #![trigger ids@.contains_key(s)]
                match sdb_definition(docs@, corpus@, s) {
                    Some(id) => ids@.contains_key(s) && ids@[s] == id,
                    None => !ids@.contains_key(s),
                },
            ref_views(refs@) == use_refs(
                before@ + document_uses(docs@, doc@, corpus@, sources@, i as nat),
            ),
            edges@ == use_edges(
                before@ + document_uses(docs@, doc@, corpus@, sources@, i as nat),
            ),
        decreases n - i,
    {
        let occ = &doc.occurrences[i];
        let ghost so_far = before@ + document_uses(docs@, doc@, corpus@, sources@, i as nat);
        i += 1;
        proof {
            let now = before@ + document_uses(docs@, doc@, corpus@, sources@, i as nat);
            assert(now.drop_last() =~= so_far);
        }
        if occ.role == 1 && occ.has_range && !is_noise_symbol(occ.symbol.as_str(), defined) {
            match ids.get(occ.symbol.as_str()) {
                Some(id) => {
                    let line: u32 = line_after(occ.start_line);
                    #[verifier::truncate]
                    let character: i32 = occ.start_char as i32;
                    refs.push(
                        ScipRef {
                            caller_path: copy_text(uri),
                            caller_line: line,
                            callee_id: *id,
                            is_call: true,
                            caller_col: sources.col(uri, line, character),
                        },
                    );
                },
                None => {
                    if let Some(k) = enclosing_container(doc, defined, occ.start_line) {
                        let outer = &doc.occurrences[k];
                        if !same_text(outer.symbol.as_str(), occ.symbol.as_str()) {
                            let e = Edge {
                                src: symbol_id(outer.symbol.as_str(), uri, corpus),
                                dst: symbol_id(occ.symbol.as_str(), uri, corpus),
                                kind: EdgeKind::RefCall,
                            };
                            edges.push(e);
                        }
                    }
                },
            }
        }
    }
}

/// The graph of a build's documents: a node for every symbol that they
/// define, and for every other occurrence either a reference to its
/// definition or, without one, an edge from what encloses it. `sources` holds
/// the source files by their path in the documents.
pub fn build_edges(docs: &Vec<TextDocument>, corpus: &str, sources: &SourceCache) -> (r:
    InvokeResponse)
    ensures
        r@ == scala_response(text_document_views(docs@), corpus@, sources@),
{
    let ghost all = text_document_views(docs@);
    let defined = collect_defined(docs);
    let ids = definition_ids(docs, corpus, &defined);
    let mut nodes: Vec<Node> = Vec::new();
    let mut edges: Vec<Edge> = Vec::new();
    let mut refs: Vec<ScipRef> = Vec::new();
    let n: usize = docs.len();
    let mut i: usize = 0;
    while i < n
        invariant
            i <= n,
            n == docs@.len(),
            all == text_document_views(docs@),
            defined@.dom() == defined_symbols(all),
            forall|s: Seq<char>|
                #![trigger ids@.contains_key(s)]
                match sdb_definition(all, corpus@, s) {
                    Some(id) => ids@.contains_key(s) && ids@[s] == id,
                    None => !ids@.contains_key(s),
                },
            node_views(nodes@) == all_nodes(all, corpus@, defined_symbols(all), i as nat),
            ref_views(refs@) == use_refs(all_uses(all, corpus@, sources@, i as nat)),
            edges@ == use_edges(all_uses(all, corpus@, sources@, i as nat)),
        decreases n - i,
    {
        let doc = &docs[i];
        collect_nodes(doc, corpus, &defined, &mut nodes);
        collect_uses(
            Ghost(all),
            doc,
            corpus,
            sources,
            &defined,
            &ids,
            Ghost(all_uses(all, corpus@, sources@, i as nat)),
            &mut refs,
            &mut edges,
        );
        i += 1;
    }
    let unresolved_calls: Vec<UnresolvedCall> = Vec::new();
    let diagnostics: Vec<PluginDiagnostic> = Vec::new();
    let r = InvokeResponse { nodes, edges, refs, unresolved_calls, diagnostics };
    assert(r@.unresolved_calls =~= scala_response(all, corpus@, sources@).unresolved_calls);
    assert(r@.diagnostics =~= scala_response(all, corpus@, sources@).diagnostics);
    r
}

/// A symbol that the repository defines itself is no noise for lying in a
/// namespace of the standard library.
pub proof fn law_own_stdlib_namespace_is_kept(docs: Seq<TextDocumentView>, i: int, j: int)
    requires
        0 <= i < docs.len(),
        0 <= j < docs[i].symbols.len(),
    ensures
        ({
            let s = docs[i].symbols[j].symbol;
            noise(s, defined_symbols(docs)) == (local_symbol(s) || parameter_symbol(s))
        }),
{
}

proof fn lemma_defining_file(docs: Seq<TextDocumentView>, s: Seq<char>)
    ensures
        match defining_file(docs, s) {
            Some(uri) => exists|i: int|
                0 <= i < docs.len() && (#[trigger] docs[i]).uri == uri && names(docs[i].symbols, s),
            None => true,
        },
    decreases docs.len(),
{
    if docs.len() > 0 {
        let rest = docs.drop_last();
        lemma_defining_file(rest, s);
    }
}

proof fn lemma_document_has_node(
    d: TextDocumentView,
    corpus: Seq<char>,
    defined: Set<Seq<char>>,
    s: Seq<char>,
    n: nat,
)
    requires
        n <= d.symbols.len(),
        names(d.symbols.take(n as int), s),
        !noise(s, defined),
    ensures
        crate::scip_reader::has_node(document_nodes(d, corpus, defined, n), sdb_id(s, d.uri, corpus)),
    decreases n,
{
    let nodes = document_nodes(d, corpus, defined, n);
    if d.symbols[n - 1].symbol == s {
        assert(nodes[nodes.len() - 1].id == sdb_id(s, d.uri, corpus));
    } else {
        let before = d.symbols.take(n - 1);
        lemma_names_push(before, d.symbols[n - 1], s);
        lemma_document_has_node(d, corpus, defined, s, (n - 1) as nat);
        let had = document_nodes(d, corpus, defined, (n - 1) as nat);
        let k = choose|k: int|
            0 <= k < had.len() && (#[trigger] had[k]).id == sdb_id(s, d.uri, corpus);
        assert(nodes[k] == had[k]);
    }
}

proof fn lemma_has_node(
    docs: Seq<TextDocumentView>,
    corpus: Seq<char>,
    defined: Set<Seq<char>>,
    s: Seq<char>,
    i: int,
    n: nat,
)
    requires
        0 <= i < n <= docs.len(),
        names(docs[i].symbols, s),
        !noise(s, defined),
    ensures
        crate::scip_reader::has_node(
            all_nodes(docs, corpus, defined, n),
            sdb_id(s, docs[i].uri, corpus),
        ),
    decreases n,
{
    let id = sdb_id(s, docs[i].uri, corpus);
    let before = all_nodes(docs, corpus, defined, (n - 1) as nat);
    let d = docs[n - 1];
    let own = document_nodes(d, corpus, defined, d.symbols.len());
    let nodes = all_nodes(docs, corpus, defined, n);
    if i == n - 1 {
        assert(d.symbols.take(d.symbols.len() as int) =~= d.symbols);
        lemma_document_has_node(d, corpus, defined, s, d.symbols.len());
        let k = choose|k: int| 0 <= k < own.len() && (#[trigger] own[k]).id == id;
        assert(nodes[before.len() + k] == own[k]);
    } else {
        lemma_has_node(docs, corpus, defined, s, i, (n - 1) as nat);
        let k = choose|k: int| 0 <= k < before.len() && (#[trigger] before[k]).id == id;
        assert(nodes[k] == before[k]);
    }
}

/// The definition of a symbol, where there is one, is a node of the graph: a
/// reference never leads nowhere.
pub proof fn law_definition_is_a_node(
    docs: Seq<TextDocumentView>,
    corpus: Seq<char>,
    sources: Map<Seq<char>, Option<Seq<Seq<char>>>>,
    s: Seq<char>,
)
    ensures
        match sdb_definition(docs, corpus, s) {
            Some(id) => crate::scip_reader::has_node(
                scala_response(docs, corpus, sources).nodes,
                id,
            ),
            None => true,
        },
{
    lemma_defining_file(docs, s);
    if sdb_definition(docs, corpus, s) is Some {
        let uri = defining_file(docs, s)->0;
        let i = choose|i: int|
            0 <= i < docs.len() && (#[trigger] docs[i]).uri == uri && names(docs[i].symbols, s);
        lemma_has_node(docs, corpus, defined_symbols(docs), s, i, docs.len());
    }
}

/// A reference that resolves gives no edge besides: the references and the
/// edges together are no more than the occurrences.
pub proof fn law_one_outcome_per_occurrence(u: Seq<Use>)
    ensures
        use_refs(u).len() + use_edges(u).len() <= u.len(),
    decreases u.len(),
{
    if u.len() > 0 {
        law_one_outcome_per_occurrence(u.drop_last());
    }
}

proof fn lemma_enclosing_is_container(
    d: TextDocumentView,
    defined: Set<Seq<char>>,
    line: u32,
    n: nat,
)
    ensures
        enclosing(d, defined, line, n) matches Some(o) ==> container(d, o, defined)
            && o.start_line <= line,
    decreases n,
{
    if n > 0 {
        lemma_enclosing_is_container(d, defined, line, (n - 1) as nat);
    }
}

/// Neither end of an edge is noise, and it leaves from a definition whose
/// place is known.
pub proof fn law_noise_is_no_end_of_an_edge(
    docs: Seq<TextDocumentView>,
    d: TextDocumentView,
    o: SdbOccurrenceView,
    corpus: Seq<char>,
    sources: Map<Seq<char>, Option<Seq<Seq<char>>>>,
)
    ensures
        use_of(docs, d, o, corpus, sources) matches Use::Fallback(e) ==> {
            let defined = defined_symbols(docs);
            &&& e.dst == sdb_id(o.symbol, d.uri, corpus) && !noise(o.symbol, defined)
            &&& exists|outer: SdbOccurrenceView| #[trigger]
                container(d, outer, defined) && outer.start_line <= o.start_line && e.src == sdb_id(
                    outer.symbol,
                    d.uri,
                    corpus,
                )
        },
{
    lemma_enclosing_is_container(d, defined_symbols(docs), o.start_line, d.occurrences.len());
}

/// Whether one of the documents declares the symbol `s`.
pub open spec fn is_declared(docs: Seq<TextDocumentView>, s: Seq<char>) -> bool {
    exists|i: int, j: int|
        0 <= i < docs.len() && 0 <= j < docs[i].symbols.len() && (
        #[trigger] docs[i].symbols[j]).symbol == s
}

/// Whether a text starts with `head`.
pub open spec fn opens_with(s: Seq<char>, head: Seq<char>) -> bool {
    s.len() >= head.len() && s.take(head.len() as int) == head
}

/// A symbol that may be a node or the end of an edge: it ends like no
/// parameter, is no `local` with a number, and lies in a namespace of the
/// libraries only where a document declares it.
pub open spec fn is_visible(docs: Seq<TextDocumentView>, s: Seq<char>) -> bool {
    &&& s.len() == 0 || s[s.len() - 1] != ')'
    &&& !(opens_with(s, "local"@) && s.len() > 5 && forall|i: int|
        5 <= i < s.len() ==> '0' <= #[trigger] s[i] <= '9')
    &&& is_declared(docs, s) || !(opens_with(s, "scala/"@) || opens_with(s, "java/"@) || opens_with(
        s,
        "javax/"@,
    ) || opens_with(s, "_root_/"@) || opens_with(s, "android/"@))
}

/// Whether the occurrence `q` of a document defines `s` at a known place.
pub open spec fn is_placed(d: TextDocumentView, s: Seq<char>, q: int) -> bool {
    0 <= q < d.occurrences.len() && d.occurrences[q].role == 2 && d.occurrences[q].has_range
        && d.occurrences[q].symbol == s
}

/// Whether `x` is the node of the symbol `s` in the file `path`.
pub open spec fn is_symbol_node(
    x: NodeView,
    corpus: Seq<char>,
    path: Seq<char>,
    s: Seq<char>,
) -> bool {
    &&& x.corpus == corpus
    &&& x.path == path
    &&& x.language == "scala"@
    &&& x.signature == "sdb:"@ + s
    &&& x.id == vname_id(corpus, ""@, path, "scala"@, "sdb:"@ + s)
}

/// Whether `x` has the kind that SemanticDB gives the number `kind`.
pub open spec fn has_kind(x: NodeView, kind: u32) -> bool {
    &&& kind == 2 ==> x.kind == "field"@
    &&& kind == 3 || kind == 22 ==> x.kind == "method"@
    &&& kind == 10 || kind == 12 ==> x.kind == "object"@
    &&& kind == 13 ==> x.kind == "class"@
    &&& kind == 14 ==> x.kind == "trait"@
    &&& !(seq![2u32, 3, 10, 12, 13, 14, 22].contains(kind)) ==> x.kind == "sym"@
}

/// Whether `x` has the lines of the first definition of `s` in `d` whose place
/// is known, counted from one, and none where there is no such definition.
pub open spec fn has_definition_lines(x: NodeView, d: TextDocumentView, s: Seq<char>) -> bool {
    &&& forall|q: int| #[trigger]
        is_placed(d, s, q) && (forall|p: int| 0 <= p < q ==> !is_placed(d, s, p)) ==> {
            let o = d.occurrences[q];
            &&& x.line is Some && x.end_line is Some
            &&& o.start_line < u32::MAX ==> x.line == Some((o.start_line + 1) as u32)
            &&& o.end_line < u32::MAX ==> x.end_line == Some((o.end_line + 1) as u32)
        }
    &&& (forall|q: int| !is_placed(d, s, q)) ==> x.line is None && x.end_line is None
}

proof fn lemma_visible(docs: Seq<TextDocumentView>, s: Seq<char>)
    ensures
        is_visible(docs, s) == !noise(s, defined_symbols(docs)),
        is_declared(docs, s) == defined_symbols(docs).contains(s),
{
    reveal_strlit("local");
    if is_declared(docs, s) {
        let (i, j) = choose|i: int, j: int|
            0 <= i < docs.len() && 0 <= j < docs[i].symbols.len() && (
            #[trigger] docs[i].symbols[j]).symbol == s;
        assert(names(docs[i].symbols, s));
    }
    if defined_symbols(docs).contains(s) {
        let i = choose|i: int| 0 <= i < docs.len() && names((#[trigger] docs[i]).symbols, s);
        let j = choose|j: int|
            0 <= j < docs[i].symbols.len() && (#[trigger] docs[i].symbols[j]).symbol == s;
        assert(docs[i].symbols[j].symbol == s);
    }
}

proof fn lemma_placed_definition(d: TextDocumentView, s: Seq<char>, n: nat)
    requires
        n <= d.occurrences.len(),
    ensures
        match placed_definition(d.occurrences, s, n) {
            Some(o) => exists|q: int|
                0 <= q < n && #[trigger] is_placed(d, s, q) && d.occurrences[q] == o && forall|p: int|
                    0 <= p < q ==> !is_placed(d, s, p),
            None => forall|q: int| 0 <= q < n ==> !is_placed(d, s, q),
        },
    decreases n,
{
    if n > 0 {
        lemma_placed_definition(d, s, (n - 1) as nat);
        assert(is_placed(d, s, n - 1) == (d.occurrences[n - 1].role == 2
            && d.occurrences[n - 1].symbol == s && d.occurrences[n - 1].has_range));
    }
}

proof fn lemma_symbol_node(d: TextDocumentView, s: SdbSymbolView, corpus: Seq<char>)
    ensures
        ({
            let x = symbol_node(d, s, corpus);
            &&& is_symbol_node(x, corpus, d.uri, s.symbol)
            &&& has_kind(x, s.kind)
            &&& has_definition_lines(x, d, s.symbol)
        }),
{
    lemma_placed_definition(d, s.symbol, d.occurrences.len());
    let numbers = seq![2u32, 3, 10, 12, 13, 14, 22];
    assert(numbers[0] == 2 && numbers[1] == 3 && numbers[2] == 10 && numbers[3] == 12 && numbers[4]
        == 13 && numbers[5] == 14 && numbers[6] == 22);
    let x = symbol_node(d, s, corpus);
    assert forall|q: int| #[trigger]
        is_placed(d, s.symbol, q) && (forall|p: int|
            0 <= p < q ==> !is_placed(d, s.symbol, p)) implies {
        let o = d.occurrences[q];
        &&& x.line is Some && x.end_line is Some
        &&& o.start_line < u32::MAX ==> x.line == Some((o.start_line + 1) as u32)
        &&& o.end_line < u32::MAX ==> x.end_line == Some((o.end_line + 1) as u32)
    } by {
        let found = placed_definition(d.occurrences, s.symbol, d.occurrences.len());
        assert(found is Some);
        let r = choose|r: int|
            0 <= r < d.occurrences.len() && #[trigger] is_placed(d, s.symbol, r)
                && d.occurrences[r] == found->0 && forall|p: int|
                0 <= p < r ==> !is_placed(d, s.symbol, p);
        assert(r == q);
    }
}

proof fn lemma_document_node(
    d: TextDocumentView,
    corpus: Seq<char>,
    defined: Set<Seq<char>>,
    n: nat,
    j: int,
)
    requires
        0 <= j < n <= d.symbols.len(),
        !noise(d.symbols[j].symbol, defined),
    ensures
        document_nodes(d, corpus, defined, n).contains(symbol_node(d, d.symbols[j], corpus)),
    decreases n,
{
    let now = document_nodes(d, corpus, defined, n);
    let x = symbol_node(d, d.symbols[j], corpus);
    if j == n - 1 {
        assert(now[now.len() - 1] == x);
    } else {
        lemma_document_node(d, corpus, defined, (n - 1) as nat, j);
        let before = document_nodes(d, corpus, defined, (n - 1) as nat);
        let p = choose|p: int| 0 <= p < before.len() && before[p] == x;
        assert(now[p] == x);
    }
}

proof fn lemma_all_nodes(
    docs: Seq<TextDocumentView>,
    corpus: Seq<char>,
    defined: Set<Seq<char>>,
    n: nat,
    i: int,
    j: int,
)
    requires
        0 <= i < n <= docs.len(),
        0 <= j < docs[i].symbols.len(),
        !noise(docs[i].symbols[j].symbol, defined),
    ensures
        all_nodes(docs, corpus, defined, n).contains(
            symbol_node(docs[i], docs[i].symbols[j], corpus),
        ),
    decreases n,
{
    let now = all_nodes(docs, corpus, defined, n);
    let before = all_nodes(docs, corpus, defined, (n - 1) as nat);
    let x = symbol_node(docs[i], docs[i].symbols[j], corpus);
    if i == n - 1 {
        lemma_document_node(docs[i], corpus, defined, docs[i].symbols.len(), j);
        let own = document_nodes(docs[i], corpus, defined, docs[i].symbols.len());
        let p = choose|p: int| 0 <= p < own.len() && own[p] == x;
        assert(now[before.len() + p] == x);
    } else {
        lemma_all_nodes(docs, corpus, defined, (n - 1) as nat, i, j);
        let p = choose|p: int| 0 <= p < before.len() && before[p] == x;
        assert(now[p] == x);
    }
}

/// Every symbol that a document declares and that is visible is a node: in the
/// file of the document, of the kind that it has there, and on the lines of
/// its first definition whose place is known.
pub proof fn law_symbol_becomes_a_node(
    docs: Seq<TextDocumentView>,
    corpus: Seq<char>,
    sources: Map<Seq<char>, Option<Seq<Seq<char>>>>,
    i: int,
    j: int,
)
    requires
        0 <= i < docs.len(),
        0 <= j < docs[i].symbols.len(),
        is_visible(docs, docs[i].symbols[j].symbol),
    ensures
        ({
            let s = docs[i].symbols[j];
            let nodes = scala_response(docs, corpus, sources).nodes;
            exists|n: int|
                #![trigger nodes[n]]
                0 <= n < nodes.len() && is_symbol_node(nodes[n], corpus, docs[i].uri, s.symbol)
                    && has_kind(nodes[n], s.kind) && has_definition_lines(
                    nodes[n],
                    docs[i],
                    s.symbol,
                )
        }),
{
    let s = docs[i].symbols[j];
    let nodes = scala_response(docs, corpus, sources).nodes;
    lemma_visible(docs, s.symbol);
    lemma_symbol_node(docs[i], s, corpus);
    lemma_all_nodes(docs, corpus, defined_symbols(docs), docs.len(), i, j);
    let n = choose|n: int| 0 <= n < nodes.len() && nodes[n] == symbol_node(docs[i], s, corpus);
    assert(is_symbol_node(nodes[n], corpus, docs[i].uri, s.symbol));
}

proof fn lemma_document_node_stems(
    d: TextDocumentView,
    corpus: Seq<char>,
    defined: Set<Seq<char>>,
    n: nat,
    p: int,
)
    requires
        n <= d.symbols.len(),
        0 <= p < document_nodes(d, corpus, defined, n).len(),
    ensures
        exists|j: int|
            0 <= j < n && !noise((#[trigger] d.symbols[j]).symbol, defined) && document_nodes(
                d,
                corpus,
                defined,
                n,
            )[p] == symbol_node(d, d.symbols[j], corpus),
    decreases n,
{
    if n > 0 {
        let before = document_nodes(d, corpus, defined, (n - 1) as nat);
        if p < before.len() {
            lemma_document_node_stems(d, corpus, defined, (n - 1) as nat, p);
        } else {
            assert(!noise(d.symbols[n - 1].symbol, defined));
        }
    }
}

proof fn lemma_node_stems(
    docs: Seq<TextDocumentView>,
    corpus: Seq<char>,
    defined: Set<Seq<char>>,
    n: nat,
    p: int,
)
    requires
        n <= docs.len(),
        0 <= p < all_nodes(docs, corpus, defined, n).len(),
    ensures
        exists|i: int, j: int|
            0 <= i < n && 0 <= j < docs[i].symbols.len() && !noise(
                (#[trigger] docs[i].symbols[j]).symbol,
                defined,
            ) && all_nodes(docs, corpus, defined, n)[p] == symbol_node(
                docs[i],
                docs[i].symbols[j],
                corpus,
            ),
    decreases n,
{
    if n > 0 {
        let before = all_nodes(docs, corpus, defined, (n - 1) as nat);
        if p < before.len() {
            lemma_node_stems(docs, corpus, defined, (n - 1) as nat, p);
        } else {
            let d = docs[n - 1];
            let q = p - before.len();
            lemma_document_node_stems(d, corpus, defined, d.symbols.len(), q);
            let j = choose|j: int|
                0 <= j < d.symbols.len() && !noise((#[trigger] d.symbols[j]).symbol, defined)
                    && document_nodes(d, corpus, defined, d.symbols.len())[q] == symbol_node(
                    d,
                    d.symbols[j],
                    corpus,
                );
            assert(!noise(docs[n - 1].symbols[j].symbol, defined));
        }
    }
}

/// Every node stems from a visible symbol that a document declares, and has
/// its kind and its lines.
pub proof fn law_node_stems_from_a_symbol(
    docs: Seq<TextDocumentView>,
    corpus: Seq<char>,
    sources: Map<Seq<char>, Option<Seq<Seq<char>>>>,
    n: int,
)
    requires
        0 <= n < scala_response(docs, corpus, sources).nodes.len(),
    ensures
        ({
            let x = scala_response(docs, corpus, sources).nodes[n];
            exists|i: int, j: int|
                #![trigger docs[i].symbols[j]]
                0 <= i < docs.len() && 0 <= j < docs[i].symbols.len() && is_visible(
                    docs,
                    docs[i].symbols[j].symbol,
                ) && is_symbol_node(x, corpus, docs[i].uri, docs[i].symbols[j].symbol) && has_kind(
                    x,
                    docs[i].symbols[j].kind,
                ) && has_definition_lines(x, docs[i], docs[i].symbols[j].symbol)
        }),
{
    let defined = defined_symbols(docs);
    lemma_node_stems(docs, corpus, defined, docs.len(), n);
    let (i, j) = choose|i: int, j: int|
        0 <= i < docs.len() && 0 <= j < docs[i].symbols.len() && !noise(
            (#[trigger] docs[i].symbols[j]).symbol,
            defined,
        ) && all_nodes(docs, corpus, defined, docs.len())[n] == symbol_node(
            docs[i],
            docs[i].symbols[j],
            corpus,
        );
    lemma_visible(docs, docs[i].symbols[j].symbol);
    lemma_symbol_node(docs[i], docs[i].symbols[j], corpus);
}

/// Whether `f` is the first of the documents that declares `s`.
pub open spec fn is_home(docs: Seq<TextDocumentView>, s: Seq<char>, f: int) -> bool {
    &&& 0 <= f < docs.len()
    &&& exists|j: int| 0 <= j < docs[f].symbols.len() && (#[trigger] docs[f].symbols[j]).symbol == s
    &&& forall|i: int, j: int|
        0 <= i < f && 0 <= j < docs[i].symbols.len() ==> (#[trigger] docs[i].symbols[j]).symbol != s
}

proof fn lemma_home(docs: Seq<TextDocumentView>, s: Seq<char>, f: int)
    requires
        is_home(docs, s, f),
    ensures
        defining_file(docs, s) == Some(docs[f].uri),
    decreases docs.len(),
{
    let rest = docs.drop_last();
    if f == docs.len() - 1 {
        lemma_defining_file(rest, s);
        if defining_file(rest, s) is Some {
            let uri = defining_file(rest, s)->0;
            let i = choose|i: int|
                0 <= i < rest.len() && (#[trigger] rest[i]).uri == uri && names(rest[i].symbols, s);
            let j = choose|j: int|
                0 <= j < rest[i].symbols.len() && (#[trigger] rest[i].symbols[j]).symbol == s;
            assert(docs[i].symbols[j].symbol == s);
        }
        assert(names(docs[f].symbols, s));
    } else {
        assert(rest[f] == docs[f]);
        assert forall|i: int, j: int| 0 <= i < f && 0 <= j < rest[i].symbols.len() implies (
        #[trigger] rest[i].symbols[j]).symbol != s by {
            assert(rest[i] == docs[i]);
            assert(docs[i].symbols[j].symbol != s);
        }
        lemma_home(rest, s, f);
    }
}

proof fn lemma_use_is_in(
    docs: Seq<TextDocumentView>,
    corpus: Seq<char>,
    sources: Map<Seq<char>, Option<Seq<Seq<char>>>>,
    n: nat,
    i: int,
    k: int,
)
    requires
        0 <= i < n <= docs.len(),
        0 <= k < docs[i].occurrences.len(),
    ensures
        all_uses(docs, corpus, sources, n).contains(
            use_of(docs, docs[i], docs[i].occurrences[k], corpus, sources),
        ),
    decreases n,
{
    let now = all_uses(docs, corpus, sources, n);
    let before = all_uses(docs, corpus, sources, (n - 1) as nat);
    let x = use_of(docs, docs[i], docs[i].occurrences[k], corpus, sources);
    if i == n - 1 {
        assert(now[before.len() + k] == x);
    } else {
        lemma_use_is_in(docs, corpus, sources, (n - 1) as nat, i, k);
        let p = choose|p: int| 0 <= p < before.len() && before[p] == x;
        assert(now[p] == x);
    }
}

proof fn lemma_use_stems(
    docs: Seq<TextDocumentView>,
    corpus: Seq<char>,
    sources: Map<Seq<char>, Option<Seq<Seq<char>>>>,
    n: nat,
    p: int,
)
    requires
        n <= docs.len(),
        0 <= p < all_uses(docs, corpus, sources, n).len(),
    ensures
        exists|i: int, k: int|
            0 <= i < n && 0 <= k < docs[i].occurrences.len() && all_uses(
                docs,
                corpus,
                sources,
                n,
            )[p] == use_of(docs, docs[i], #[trigger] docs[i].occurrences[k], corpus, sources),
    decreases n,
{
    if n > 0 {
        let before = all_uses(docs, corpus, sources, (n - 1) as nat);
        if p < before.len() {
            lemma_use_stems(docs, corpus, sources, (n - 1) as nat, p);
        } else {
            let k = p - before.len();
            assert(all_uses(docs, corpus, sources, n)[p] == use_of(
                docs,
                docs[n - 1],
                docs[n - 1].occurrences[k],
                corpus,
                sources,
            ));
        }
    }
}

proof fn lemma_use_refs(u: Seq<Use>, r: RefView)
    ensures
        use_refs(u).contains(r) <==> u.contains(Use::Ref(r)),
    decreases u.len(),
{
    if u.len() > 0 {
        let rest = u.drop_last();
        lemma_use_refs(rest, r);
        let now = use_refs(u);
        let before = use_refs(rest);
        if before.contains(r) {
            let p = choose|p: int| 0 <= p < before.len() && before[p] == r;
            assert(now[p] == r);
        }
        if rest.contains(Use::Ref(r)) {
            let p = choose|p: int| 0 <= p < rest.len() && rest[p] == Use::Ref(r);
            assert(u[p] == Use::Ref(r));
        }
        if u.last() == Use::Ref(r) {
            assert(now[now.len() - 1] == r);
            assert(u[u.len() - 1] == Use::Ref(r));
        } else {
            if now.contains(r) {
                let p = choose|p: int| 0 <= p < now.len() && now[p] == r;
                assert(before[p] == r);
            }
            if u.contains(Use::Ref(r)) {
                let p = choose|p: int| 0 <= p < u.len() && u[p] == Use::Ref(r);
                assert(rest[p] == Use::Ref(r));
            }
        }
    }
}

proof fn lemma_use_edges(u: Seq<Use>, e: Edge)
    ensures
        use_edges(u).contains(e) <==> u.contains(Use::Fallback(e)),
    decreases u.len(),
{
    if u.len() > 0 {
        let rest = u.drop_last();
        lemma_use_edges(rest, e);
        let now = use_edges(u);
        let before = use_edges(rest);
        if before.contains(e) {
            let p = choose|p: int| 0 <= p < before.len() && before[p] == e;
            assert(now[p] == e);
        }
        if rest.contains(Use::Fallback(e)) {
            let p = choose|p: int| 0 <= p < rest.len() && rest[p] == Use::Fallback(e);
            assert(u[p] == Use::Fallback(e));
        }
        if u.last() == Use::Fallback(e) {
            assert(now[now.len() - 1] == e);
            assert(u[u.len() - 1] == Use::Fallback(e));
        } else {
            if now.contains(e) {
                let p = choose|p: int| 0 <= p < now.len() && now[p] == e;
                assert(before[p] == e);
            }
            if u.contains(Use::Fallback(e)) {
                let p = choose|p: int| 0 <= p < u.len() && u[p] == Use::Fallback(e);
                assert(rest[p] == Use::Fallback(e));
            }
        }
    }
}

/// Whether the occurrence `o` uses a visible symbol at a known place.
pub open spec fn is_use(docs: Seq<TextDocumentView>, o: SdbOccurrenceView) -> bool {
    o.role == 1 && o.has_range && is_visible(docs, o.symbol)
}

/// Whether `r` is the record of the use `o` in the file `path` of the symbol
/// that the file `home` declares.
pub open spec fn is_record(
    r: RefView,
    corpus: Seq<char>,
    path: Seq<char>,
    o: SdbOccurrenceView,
    home: Seq<char>,
    sources: Map<Seq<char>, Option<Seq<Seq<char>>>>,
) -> bool {
    &&& r.caller_path == path
    &&& o.start_line < u32::MAX ==> r.caller_line == o.start_line + 1
    &&& r.is_call
    &&& r.callee_id == vname_id(corpus, ""@, home, "scala"@, "sdb:"@ + o.symbol)
    &&& o.start_line < u32::MAX && o.start_char <= i32::MAX ==> keeps_ascii_column(
        r.caller_col,
        sources,
        path,
        o.start_line + 1,
        o.start_char as int,
    )
}

/// Every use of a declared symbol is recorded, in its file and on its line,
/// and leads to the node in the first file that declares the symbol.
pub proof fn law_every_use_is_recorded(
    docs: Seq<TextDocumentView>,
    corpus: Seq<char>,
    sources: Map<Seq<char>, Option<Seq<Seq<char>>>>,
    i: int,
    k: int,
    f: int,
)
    requires
        0 <= i < docs.len(),
        0 <= k < docs[i].occurrences.len(),
        is_use(docs, docs[i].occurrences[k]),
        is_home(docs, docs[i].occurrences[k].symbol, f),
    ensures
        ({
            let refs = scala_response(docs, corpus, sources).refs;
            exists|r: int|
                #![trigger refs[r]]
                0 <= r < refs.len() && is_record(
                    refs[r],
                    corpus,
                    docs[i].uri,
                    docs[i].occurrences[k],
                    docs[f].uri,
                    sources,
                )
        }),
{
    let o = docs[i].occurrences[k];
    let refs = scala_response(docs, corpus, sources).refs;
    let uses = all_uses(docs, corpus, sources, docs.len());
    lemma_visible(docs, o.symbol);
    lemma_home(docs, o.symbol, f);
    lemma_use_is_in(docs, corpus, sources, docs.len(), i, k);
    let u = use_of(docs, docs[i], o, corpus, sources);
    lemma_use_refs(uses, u->Ref_0);
    let r = choose|r: int| 0 <= r < refs.len() && refs[r] == u->Ref_0;
    law_file_column_is_kept(
        sources,
        docs[i].uri,
        next_line(o.start_line),
        (o.start_char as i32) as int,
        ColUnit::Unknown,
    );
    assert(is_record(refs[r], corpus, docs[i].uri, o, docs[f].uri, sources));
}

/// Every reference is the record of a use of a symbol that a document
/// declares.
pub proof fn law_reference_stems_from_a_use(
    docs: Seq<TextDocumentView>,
    corpus: Seq<char>,
    sources: Map<Seq<char>, Option<Seq<Seq<char>>>>,
    r: int,
)
    requires
        0 <= r < scala_response(docs, corpus, sources).refs.len(),
    ensures
        exists|i: int, k: int, f: int|
            #![trigger docs[i].occurrences[k], docs[f]]
            0 <= i < docs.len() && 0 <= k < docs[i].occurrences.len() && is_use(
                docs,
                docs[i].occurrences[k],
            ) && is_home(docs, docs[i].occurrences[k].symbol, f) && is_record(
                scala_response(docs, corpus, sources).refs[r],
                corpus,
                docs[i].uri,
                docs[i].occurrences[k],
                docs[f].uri,
                sources,
            ),
{
    let uses = all_uses(docs, corpus, sources, docs.len());
    let x = scala_response(docs, corpus, sources).refs[r];
    assert(use_refs(uses).contains(x));
    lemma_use_refs(uses, x);
    let p = choose|p: int| 0 <= p < uses.len() && uses[p] == Use::Ref(x);
    lemma_use_stems(docs, corpus, sources, docs.len(), p);
    let (i, k) = choose|i: int, k: int|
        0 <= i < docs.len() && 0 <= k < docs[i].occurrences.len() && uses[p] == use_of(
            docs,
            docs[i],
            #[trigger] docs[i].occurrences[k],
            corpus,
            sources,
        );
    let o = docs[i].occurrences[k];
    lemma_visible(docs, o.symbol);
    lemma_home_exists(docs, o.symbol);
    let f = choose|f: int| is_home(docs, o.symbol, f);
    lemma_home(docs, o.symbol, f);
    law_file_column_is_kept(
        sources,
        docs[i].uri,
        next_line(o.start_line),
        (o.start_char as i32) as int,
        ColUnit::Unknown,
    );
    assert(is_record(x, corpus, docs[i].uri, docs[i].occurrences[k], docs[f].uri, sources));
}

proof fn lemma_home_exists(docs: Seq<TextDocumentView>, s: Seq<char>)
    requires
        defining_file(docs, s) is Some,
    ensures
        exists|f: int| is_home(docs, s, f),
    decreases docs.len(),
{
    let rest = docs.drop_last();
    if defining_file(rest, s) is Some {
        lemma_home_exists(rest, s);
        let f = choose|f: int| is_home(rest, s, f);
        assert(docs[f] == rest[f]);
        assert forall|i: int, j: int| 0 <= i < f && 0 <= j < docs[i].symbols.len() implies (
        #[trigger] docs[i].symbols[j]).symbol != s by {
            assert(rest[i].symbols[j].symbol != s);
        }
        assert(is_home(docs, s, f));
    } else {
        let f = docs.len() - 1;
        assert forall|i: int, j: int| 0 <= i < f && 0 <= j < docs[i].symbols.len() implies (
        #[trigger] docs[i].symbols[j]).symbol != s by {
            if docs[i].symbols[j].symbol == s {
                assert(rest[i].symbols[j].symbol == s);
                assert(names(rest[i].symbols, s));
                lemma_named_has_file(rest, s, i);
            }
        }
        assert(is_home(docs, s, f));
    }
}

proof fn lemma_named_has_file(docs: Seq<TextDocumentView>, s: Seq<char>, i: int)
    requires
        0 <= i < docs.len(),
        names(docs[i].symbols, s),
    ensures
        defining_file(docs, s) is Some,
    decreases docs.len(),
{
    if i < docs.len() - 1 {
        lemma_named_has_file(docs.drop_last(), s, i);
    }
}

/// Whether the occurrence `q` of `d` defines something that holds code, at a
/// known place: a visible field, method, object, class, trait or macro, as the
/// last entry for its symbol says.
pub open spec fn holds_code(docs: Seq<TextDocumentView>, d: TextDocumentView, q: int) -> bool {
    &&& 0 <= q < d.occurrences.len()
    &&& d.occurrences[q].role == 2 && d.occurrences[q].has_range
    &&& is_visible(docs, d.occurrences[q].symbol)
    &&& exists|j: int|
        0 <= j < d.symbols.len() && (#[trigger] d.symbols[j]).symbol == d.occurrences[q].symbol && (
        forall|m: int|
            j < m < d.symbols.len() ==> (#[trigger] d.symbols[m]).symbol != d.occurrences[q].symbol)
            && seq![2u32, 3, 10, 12, 13, 14, 22].contains(d.symbols[j].kind)
}

/// Whether the occurrence `q` of `d` is the last definition of something that
/// holds code to start at or before `line`.
pub open spec fn encloses_line(
    docs: Seq<TextDocumentView>,
    d: TextDocumentView,
    line: u32,
    q: int,
) -> bool {
    &&& holds_code(docs, d, q)
    &&& d.occurrences[q].start_line <= line
    &&& forall|p: int| #[trigger]
        holds_code(docs, d, p) && d.occurrences[p].start_line <= line
            ==> d.occurrences[p].start_line < d.occurrences[q].start_line || (
        d.occurrences[p].start_line == d.occurrences[q].start_line && p <= q)
}

proof fn lemma_symbol_kind(symbols: Seq<SdbSymbolView>, s: Seq<char>)
    ensures
        (exists|j: int|
            0 <= j < symbols.len() && (#[trigger] symbols[j]).symbol == s && (forall|m: int|
                j < m < symbols.len() ==> (#[trigger] symbols[m]).symbol != s) && symbol_kind(
                symbols,
                s,
            ) == symbols[j].kind) || (symbol_kind(symbols, s) == 0 && forall|j: int|
            0 <= j < symbols.len() ==> (#[trigger] symbols[j]).symbol != s),
    decreases symbols.len(),
{
    if symbols.len() > 0 {
        let rest = symbols.drop_last();
        lemma_symbol_kind(rest, s);
        if symbols.last().symbol == s {
            assert(symbols[symbols.len() - 1].symbol == s);
        } else if exists|j: int|
            0 <= j < rest.len() && (#[trigger] rest[j]).symbol == s && (forall|m: int|
                j < m < rest.len() ==> (#[trigger] rest[m]).symbol != s) && symbol_kind(rest, s)
                == rest[j].kind {
            let j = choose|j: int|
                0 <= j < rest.len() && (#[trigger] rest[j]).symbol == s && (forall|m: int|
                    j < m < rest.len() ==> (#[trigger] rest[m]).symbol != s) && symbol_kind(rest, s)
                    == rest[j].kind;
            assert(symbols[j].symbol == s);
            assert forall|m: int| j < m < symbols.len() implies (#[trigger] symbols[m]).symbol
                != s by {
                if m < rest.len() {
                    assert(rest[m] == symbols[m]);
                }
            }
        } else {
            assert forall|j: int| 0 <= j < symbols.len() implies (#[trigger] symbols[j]).symbol
                != s by {
                if j < rest.len() {
                    assert(rest[j] == symbols[j]);
                }
            }
        }
    }
}

proof fn lemma_holds_code(docs: Seq<TextDocumentView>, d: TextDocumentView, q: int)
    requires
        0 <= q < d.occurrences.len(),
    ensures
        holds_code(docs, d, q) == container(d, d.occurrences[q], defined_symbols(docs)),
{
    let o = d.occurrences[q];
    lemma_visible(docs, o.symbol);
    lemma_symbol_kind(d.symbols, o.symbol);
    let numbers = seq![2u32, 3, 10, 12, 13, 14, 22];
    assert(numbers[0] == 2 && numbers[1] == 3 && numbers[2] == 10 && numbers[3] == 12 && numbers[4]
        == 13 && numbers[5] == 14 && numbers[6] == 22);
}

proof fn lemma_enclosing(
    docs: Seq<TextDocumentView>,
    d: TextDocumentView,
    line: u32,
    n: nat,
)
    requires
        n <= d.occurrences.len(),
    ensures
        match enclosing(d, defined_symbols(docs), line, n) {
            Some(o) => exists|q: int|
                0 <= q < n && #[trigger] holds_code(docs, d, q) && d.occurrences[q] == o
                    && o.start_line <= line && forall|p: int|
                    0 <= p < n && #[trigger] holds_code(docs, d, p) && d.occurrences[p].start_line
                        <= line ==> d.occurrences[p].start_line < o.start_line || (
                    d.occurrences[p].start_line == o.start_line && p <= q),
            None => forall|p: int|
                0 <= p < n && #[trigger] holds_code(docs, d, p) ==> d.occurrences[p].start_line
                    > line,
        },
    decreases n,
{
    if n > 0 {
        lemma_enclosing(docs, d, line, (n - 1) as nat);
        lemma_holds_code(docs, d, n - 1);
    }
}

/// Every use of a symbol that no document declares gives an edge from what
/// encloses its line, unless that is the symbol itself.
pub proof fn law_undeclared_use_is_an_edge(
    docs: Seq<TextDocumentView>,
    corpus: Seq<char>,
    sources: Map<Seq<char>, Option<Seq<Seq<char>>>>,
    i: int,
    k: int,
    q: int,
)
    requires
        0 <= i < docs.len(),
        0 <= k < docs[i].occurrences.len(),
        is_use(docs, docs[i].occurrences[k]),
        !is_declared(docs, docs[i].occurrences[k].symbol),
        encloses_line(docs, docs[i], docs[i].occurrences[k].start_line, q),
        docs[i].occurrences[q].symbol != docs[i].occurrences[k].symbol,
    ensures
        ({
            let d = docs[i];
            scala_response(docs, corpus, sources).edges.contains(
                Edge {
                    src: vname_id(
                        corpus,
                        ""@,
                        d.uri,
                        "scala"@,
                        "sdb:"@ + d.occurrences[q].symbol,
                    ),
                    dst: vname_id(
                        corpus,
                        ""@,
                        d.uri,
                        "scala"@,
                        "sdb:"@ + d.occurrences[k].symbol,
                    ),
                    kind: EdgeKind::RefCall,
                },
            )
        }),
{
    let d = docs[i];
    let o = d.occurrences[k];
    let uses = all_uses(docs, corpus, sources, docs.len());
    lemma_visible(docs, o.symbol);
    lemma_defining_file(docs, o.symbol);
    lemma_enclosing(docs, d, o.start_line, d.occurrences.len());
    lemma_use_is_in(docs, corpus, sources, docs.len(), i, k);
    let u = use_of(docs, d, o, corpus, sources);
    lemma_use_edges(uses, u->Fallback_0);
}

/// Every edge stems from a use of a symbol that no document declares, and
/// leaves from what encloses its line.
pub proof fn law_edge_stems_from_an_undeclared_use(
    docs: Seq<TextDocumentView>,
    corpus: Seq<char>,
    sources: Map<Seq<char>, Option<Seq<Seq<char>>>>,
    e: int,
)
    requires
        0 <= e < scala_response(docs, corpus, sources).edges.len(),
    ensures
        exists|i: int, k: int, q: int|
            #![trigger docs[i].occurrences[k], docs[i].occurrences[q]]
            0 <= i < docs.len() && 0 <= k < docs[i].occurrences.len() && is_use(
                docs,
                docs[i].occurrences[k],
            ) && !is_declared(docs, docs[i].occurrences[k].symbol) && encloses_line(
                docs,
                docs[i],
                docs[i].occurrences[k].start_line,
                q,
            ) && docs[i].occurrences[q].symbol != docs[i].occurrences[k].symbol
                && scala_response(docs, corpus, sources).edges[e] == (Edge {
                src: vname_id(
                    corpus,
                    ""@,
                    docs[i].uri,
                    "scala"@,
                    "sdb:"@ + docs[i].occurrences[q].symbol,
                ),
                dst: vname_id(
                    corpus,
                    ""@,
                    docs[i].uri,
                    "scala"@,
                    "sdb:"@ + docs[i].occurrences[k].symbol,
                ),
                kind: EdgeKind::RefCall,
            }),
{
    let uses = all_uses(docs, corpus, sources, docs.len());
    let x = scala_response(docs, corpus, sources).edges[e];
    assert(use_edges(uses).contains(x));
    lemma_use_edges(uses, x);
    let p = choose|p: int| 0 <= p < uses.len() && uses[p] == Use::Fallback(x);
    lemma_use_stems(docs, corpus, sources, docs.len(), p);
    let (i, k) = choose|i: int, k: int|
        0 <= i < docs.len() && 0 <= k < docs[i].occurrences.len() && uses[p] == use_of(
            docs,
            docs[i],
            #[trigger] docs[i].occurrences[k],
            corpus,
            sources,
        );
    let d = docs[i];
    let o = d.occurrences[k];
    lemma_visible(docs, o.symbol);
    if is_declared(docs, o.symbol) {
        let (a, b) = choose|a: int, b: int|
            0 <= a < docs.len() && 0 <= b < docs[a].symbols.len() && (
            #[trigger] docs[a].symbols[b]).symbol == o.symbol;
        assert(names(docs[a].symbols, o.symbol));
        lemma_named_has_file(docs, o.symbol, a);
    }
    lemma_enclosing(docs, d, o.start_line, d.occurrences.len());
    let outer = enclosing(d, defined_symbols(docs), o.start_line, d.occurrences.len())->0;
    let q = choose|q: int|
        0 <= q < d.occurrences.len() && #[trigger] holds_code(docs, d, q) && d.occurrences[q]
            == outer && outer.start_line <= o.start_line && forall|p: int|
            0 <= p < d.occurrences.len() && #[trigger] holds_code(docs, d, p)
                && d.occurrences[p].start_line <= o.start_line ==> d.occurrences[p].start_line
                < outer.start_line || (d.occurrences[p].start_line == outer.start_line && p <= q);
    assert(encloses_line(docs, docs[i], docs[i].occurrences[k].start_line, q));
    assert(docs[i].occurrences[q].symbol != docs[i].occurrences[k].symbol);
}

} // verus!
