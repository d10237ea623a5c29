//! Turns a SCIP index into nodes, edges and references.
//!
//! Nodes come from definition occurrences; edges from the relationships that
//! symbols declare; references from the other occurrences, resolved against
//! the definitions of the whole index.
use vstd::hash_map::StringHashMap;
use vstd::prelude::*;
use vstd::string::*;
use crate::columns::{agnostic_col, encoding_agnostic_col};
use crate::graph::{
    call_views, empty_response, extension_language, extension_name, node, node_view, node_views,
    ref_views, vname_id, group_views_push, CallView, Edge, EdgeKind, InvokeResponse, Language, Node,
    NodeView, PluginDiagnostic, RefView, ResponseView, ScipRef, UnresolvedCall,
};
use crate::scip_index::{
    enclosing_range_of, range_of, scip_enclosing_range, scip_range, DocumentView, IndexView,
    OccurrenceView, RelationshipView, ScipDocument, ScipIndex, ScipOccurrence, ScipSymbol,
    SymbolView,
};
use crate::text::{
    after_last, ascii_lower, before_first, chars_of, copy_text, ends_with, final_word, has_prefix,
    has_suffix, head_before, last_word, lines, lines_of, lowered, starts_with, string_of, tail_after,
    texts,
};

verus! {

/// The most references that one document contributes.
pub const MAX_REF_EDGES_PER_DOC: usize = 5_000;

/// Whether the languages share one indexer and one set of headers.
pub open spec fn is_c_family(language: Language) -> bool {
    language == Language::C || language == Language::Cpp
}

/// A C or C++ header, by the name of the file.
pub open spec fn header_path(path: Seq<char>) -> bool {
    let p = ascii_lower(path);
    ends_with(p, ".h"@) || ends_with(p, ".hpp"@) || ends_with(p, ".hh"@) || ends_with(p, ".hxx"@)
}

/// Whether a path is a C or C++ header.
pub fn is_header_path(path: &str) -> (r: bool)
    ensures
        r == header_path(path@),
{
    let chars = chars_of(path);
    let p = lowered(chars.as_slice());
    let p = p.as_slice();
    has_suffix(p, ".h") || has_suffix(p, ".hpp") || has_suffix(p, ".hh") || has_suffix(p, ".hxx")
}

/// A symbol whose last descriptor is a parameter.
pub open spec fn parameter_symbol(symbol: Seq<char>) -> bool {
    symbol.len() > 0 && symbol.last() == ')'
}

/// Whether the last descriptor of a symbol is a parameter.
pub fn is_parameter_descriptor(symbol: &str) -> (r: bool)
    ensures
        r == parameter_symbol(symbol@),
{
    let n: usize = symbol.unicode_len();
    n > 0 && symbol.get_char(n - 1) == ')'
}

/// A symbol that the graph keeps: neither empty, nor local to a function, nor
/// a parameter.
pub open spec fn kept(symbol: Seq<char>) -> bool {
    &&& symbol.len() > 0
    &&& !starts_with(symbol, "local "@)
    &&& !parameter_symbol(symbol)
}

fn is_kept(symbol: &str) -> (r: bool)
    ensures
        r == kept(symbol@),
{
    let chars = chars_of(symbol);
    chars.len() > 0 && !has_prefix(chars.as_slice(), "local ") && !is_parameter_descriptor(symbol)
}

/// The kind of node for the number of a symbol's kind in the SCIP schema.
pub open spec fn kind_name(kind: i32) -> Seq<char> {
    if kind == 7 || kind == 21 || kind == 11 || kind == 49 || kind == 53 || kind == 75 || kind == 56
        || kind == 85 || kind == 84 {
        "class"@
    } else if kind == 17 || kind == 26 || kind == 80 || kind == 66 || kind == 69 || kind == 70 || kind
        == 67 || kind == 74 || kind == 72 || kind == 18 || kind == 45 || kind == 47 || kind == 34
        || kind == 76 || kind == 71 {
        "function"@
    } else if kind == 9 {
        "constructor"@
    } else if kind == 15 || kind == 79 || kind == 77 || kind == 81 || kind == 4 {
        "field"@
    } else if kind == 61 || kind == 82 || kind == 8 || kind == 12 || kind == 37 {
        "variable"@
    } else if kind == 29 || kind == 30 || kind == 35 || kind == 36 || kind == 16 {
        "module"@
    } else if kind == 54 || kind == 55 || kind == 59 || kind == 58 || kind == 3 || kind == 57 {
        "type"@
    } else if kind == 25 {
        "macro"@
    } else {
        "definition"@
    }
}

/// The kind of node for the number of a symbol's kind in the SCIP schema; a
/// number without a kind of its own is a `definition`.
pub fn kind_from_scip_kind(kind: i32) -> (r: &'static str)
    ensures
        r@ == kind_name(kind),
{
    match kind {
        7 | 21 | 11 | 49 | 53 | 75 | 56 | 85 | 84 => "class",
        17 | 26 | 80 | 66 | 69 | 70 | 67 | 74 | 72 | 18 | 45 | 47 | 34 | 76 | 71 => "function",
        9 => "constructor",
        15 | 79 | 77 | 81 | 4 => "field",
        61 | 82 | 8 | 12 | 37 => "variable",
        29 | 30 | 35 | 36 | 16 => "module",
        54 | 55 | 59 | 58 | 3 | 57 => "type",
        25 => "macro",
        _ => "definition",
    }
}

/// The kind that the last descriptor of a symbol tells.
pub open spec fn suffix_kind(symbol: Seq<char>) -> Seq<char> {
    if symbol.len() > 0 && symbol.last() == '#' {
        "class"@
    } else if symbol.len() > 0 && symbol.last() == '/' {
        "module"@
    } else if symbol.len() > 0 && symbol.last() == '.' {
        "function"@
    } else {
        "definition"@
    }
}

/// The kind that the last descriptor of a symbol tells.
pub fn kind_from_symbol_string(symbol: &str) -> (r: &'static str)
    ensures
        r@ == suffix_kind(symbol@),
{
    let n: usize = symbol.unicode_len();
    if n == 0 {
        return "definition";
    }
    match symbol.get_char(n - 1) {
        '#' => "class",
        '/' => "module",
        '.' => "function",
        _ => "definition",
    }
}

/// The kind that the document's symbols give `symbol`: the last one counts.
pub open spec fn declared_kind(symbols: Seq<SymbolView>, symbol: Seq<char>) -> Option<i32>
    decreases symbols.len(),
{
    if symbols.len() == 0 {
        None
    } else if symbols.last().symbol == symbol {
        Some(symbols.last().kind)
    } else {
        declared_kind(symbols.drop_last(), symbol)
    }
}

/// The kind of the node for a definition of `symbol`: the one that the
/// document's symbols give it or, where they give none or leave it
/// unspecified, the one that its last descriptor tells.
pub open spec fn definition_kind(symbols: Seq<SymbolView>, symbol: Seq<char>) -> Seq<char> {
    match declared_kind(symbols, symbol) {
        Some(kind) if kind != 0 => kind_name(kind),
        _ => suffix_kind(symbol),
    }
}

/// The language of the nodes of a document. C and C++ files are told apart by
/// their extension, so that either pass over a project names them alike.
pub open spec fn document_language(path: Seq<char>, language: Language) -> Seq<char> {
    if is_c_family(language) {
        match extension_name(after_last(path, '.')) {
            Some(name) => name,
            None => language.name(),
        }
    } else {
        language.name()
    }
}

fn doc_language(path: &str, language: Language) -> (r: &'static str)
    ensures
        r@ == document_language(path@, language),
{
    if language == Language::C || language == Language::Cpp {
        let chars = chars_of(path);
        let ext = string_of(tail_after(chars.as_slice(), '.'));
        match extension_language(ext.as_str()) {
            Some(name) => name,
            None => language.as_str(),
        }
    } else {
        language.as_str()
    }
}

/// A line counted from one, for a line counted from zero; behind the largest
/// number the count starts over.
pub open spec fn one_based(line: i32) -> u32 {
    if line as u32 == u32::MAX {
        0
    } else {
        (line as u32 + 1) as u32
    }
}

fn from_one(line: i32) -> (r: u32)
    ensures
        r == one_based(line),
{
    #[verifier::truncate]
    let n: u32 = line as u32;
    if n == u32::MAX {
        0
    } else {
        n + 1
    }
}

/// The lines that a definition spans: those of its whole declaration where
/// the index gives them, else those of its name.
pub open spec fn definition_lines(o: OccurrenceView) -> (u32, u32) {
    let span = if enclosing_range_of(o).len() >= 3 {
        enclosing_range_of(o)
    } else {
        range_of(o)
    };
    let line = one_based(
        if span.len() > 0 {
            span[0]
        } else {
            0
        },
    );
    (line, if span.len() >= 4 {
        one_based(span[2])
    } else {
        line
    })
}

fn span_lines(occ: &ScipOccurrence) -> (r: (u32, u32))
    ensures
        r == definition_lines(occ@),
{
    let enclosing = scip_enclosing_range(occ);
    let range = scip_range(occ);
    let span = if enclosing.len() >= 3 {
        enclosing
    } else {
        range
    };
    let line: u32 = from_one(if span.len() > 0 { span[0] } else { 0 });
    let end_line: u32 = if span.len() >= 4 {
        from_one(span[2])
    } else {
        line
    };
    (line, end_line)
}

/// A definition of the index.
#[derive(Debug)]
pub struct Definition {
    pub symbol: String,
    pub path: String,
    pub language: String,
    pub kind: String,
    pub line: u32,
    pub end_line: u32,
    pub id: u64,
    pub header: bool,
}

/// What a `Definition` holds.
pub struct DefinitionView {
    pub symbol: Seq<char>,
    pub path: Seq<char>,
    pub language: Seq<char>,
    pub kind: Seq<char>,
    pub line: u32,
    pub end_line: u32,
    pub id: u64,
    pub header: bool,
}

impl View for Definition {
    type V = DefinitionView;

    open spec fn view(&self) -> DefinitionView {
        DefinitionView {
            symbol: self.symbol@,
            path: self.path@,
            language: self.language@,
            kind: self.kind@,
            line: self.line,
            end_line: self.end_line,
            id: self.id,
            header: self.header,
        }
    }
}

pub open spec fn definition_views(v: Seq<Definition>) -> Seq<DefinitionView> {
    v.map_values(|d: Definition| d@)
}

pub broadcast proof fn lemma_definition_views_push(v: Seq<Definition>, d: Definition)
    ensures
        #[trigger] definition_views(v.push(d)) == definition_views(v).push(d@),
{
}

/// An occurrence that defines a symbol which the graph keeps.
pub open spec fn defines(o: OccurrenceView) -> bool {
    kept(o.symbol) && (o.symbol_roles & 1) != 0
}

/// The signature of the node for `symbol` in the file `path`.
pub open spec fn scip_signature(path: Seq<char>, symbol: Seq<char>) -> Seq<char> {
    "scip:"@ + path + ":"@ + symbol
}

/// The definition that the occurrence `o` of the document `d` is.
pub open spec fn definition(
    d: DocumentView,
    o: OccurrenceView,
    corpus: Seq<char>,
    language: Language,
) -> DefinitionView {
    let name = document_language(d.relative_path, language);
    DefinitionView {
        symbol: o.symbol,
        path: d.relative_path,
        language: name,
        kind: definition_kind(d.symbols, o.symbol),
        line: definition_lines(o).0,
        end_line: definition_lines(o).1,
        id: vname_id(corpus, ""@, d.relative_path, name, scip_signature(d.relative_path, o.symbol)),
        header: header_path(d.relative_path),
    }
}

/// The definitions among the first `n` occurrences of a document.
pub open spec fn document_definitions(
    d: DocumentView,
    corpus: Seq<char>,
    language: Language,
    n: nat,
) -> Seq<DefinitionView>
    decreases n,
{
    if n == 0 {
        Seq::empty()
    } else {
        let before = document_definitions(d, corpus, language, (n - 1) as nat);
        let o = d.occurrences[n - 1];
        if defines(o) {
            before.push(definition(d, o, corpus, language))
        } else {
            before
        }
    }
}

/// The definitions of the first `n` documents, in order.
pub open spec fn definitions(
    docs: Seq<DocumentView>,
    corpus: Seq<char>,
    language: Language,
    n: nat,
) -> Seq<DefinitionView>
    decreases n,
{
    if n == 0 {
        Seq::empty()
    } else {
        definitions(docs, corpus, language, (n - 1) as nat) + document_definitions(
            docs[n - 1],
            corpus,
            language,
            docs[n - 1].occurrences.len(),
        )
    }
}

/// All definitions of an index.
pub open spec fn index_definitions(
    index: IndexView,
    corpus: Seq<char>,
    language: Language,
) -> Seq<DefinitionView> {
    definitions(index.documents, corpus, language, index.documents.len())
}

/// The node of a definition.
pub open spec fn definition_node(d: DefinitionView, corpus: Seq<char>) -> NodeView {
    node_view(
        corpus,
        d.path,
        d.language,
        scip_signature(d.path, d.symbol),
        d.kind,
        Some(d.line),
        Some(d.end_line),
    )
}

/// The nodes of definitions.
pub open spec fn definition_nodes(defs: Seq<DefinitionView>, corpus: Seq<char>) -> Seq<NodeView> {
    defs.map_values(|d: DefinitionView| definition_node(d, corpus))
}

/// The identifier of the first definition of `symbol`, among those outside
/// headers where `source` says so.
pub open spec fn first_definition(
    defs: Seq<DefinitionView>,
    symbol: Seq<char>,
    source: bool,
) -> Option<u64>
    decreases defs.len(),
{
    if defs.len() == 0 {
        None
    } else {
        match first_definition(defs.drop_last(), symbol, source) {
            Some(id) => Some(id),
            None => if defs.last().symbol == symbol && !(source && defs.last().header) {
                Some(defs.last().id)
            } else {
                None
            },
        }
    }
}

/// The node that references to `symbol` lead to: its first definition outside
/// a header, else its first one in a header.
pub open spec fn canonical(defs: Seq<DefinitionView>, symbol: Seq<char>) -> Option<u64> {
    match first_definition(defs, symbol, true) {
        Some(id) => Some(id),
        None => first_definition(defs, symbol, false),
    }
}

spec fn kind_entry(m: Map<Seq<char>, i32>, symbols: Seq<SymbolView>, s: Seq<char>) -> bool {
    match declared_kind(symbols, s) {
        Some(k) => m.contains_key(s) && m[s] == k,
        None => !m.contains_key(s),
    }
}

fn symbol_kinds(doc: &ScipDocument) -> (r: StringHashMap<i32>)
    ensures
        forall|s: Seq<char>| kind_entry(r@, doc@.symbols, s),
{
    let mut kinds: StringHashMap<i32> = StringHashMap::new();
    let n: usize = doc.symbols.len();
    let mut i: usize = 0;
    while i < n
        invariant
            i <= n,
            n == doc.symbols@.len(),
            forall|s: Seq<char>| kind_entry(kinds@, doc@.symbols.take(i as int), s),
        decreases n - i,
    {
        let info = &doc.symbols[i];
        let ghost m = kinds@;
        let ghost before = doc@.symbols.take(i as int);
        kinds.insert(copy_text(info.symbol.as_str()), info.kind);
        i += 1;
        proof {
            let after = doc@.symbols.take(i as int);
            assert(after.drop_last() =~= before);
            assert forall|s: Seq<char>| kind_entry(kinds@, after, s) by {
                assert(kind_entry(m, before, s));
            }
        }
    }
    assert(doc@.symbols.take(n as int) =~= doc@.symbols);
    kinds
}

fn collect_document(doc: &ScipDocument, corpus: &str, language: Language, defs: &mut Vec<Definition>)
    ensures
        definition_views(final(defs)@) == definition_views(old(defs)@) + document_definitions(
            doc@,
            corpus@,
            language,
            doc@.occurrences.len(),
        ),
{
    broadcast use lemma_definition_views_push;

    let kinds = symbol_kinds(doc);
    let path = doc.relative_path.as_str();
    let name = doc_language(path, language);
    let header = is_header_path(path);
    let n: usize = doc.occurrences.len();
    let mut i: usize = 0;
    while i < n
        invariant
            i <= n,
            n == doc.occurrences@.len(),
            path@ == doc@.relative_path,
            name@ == document_language(path@, language),
            header == header_path(path@),
            forall|s: Seq<char>| kind_entry(kinds@, doc@.symbols, s),
            definition_views(defs@) == definition_views(old(defs)@) + document_definitions(
                doc@,
                corpus@,
                language,
                i as nat,
            ),
        decreases n - i,
    {
        let occ = &doc.occurrences[i];
        let ghost before = definition_views(defs@);
        if is_kept(occ.symbol.as_str()) && (occ.symbol_roles & 1) != 0 {
            let (line, end_line) = span_lines(occ);
            let kind = match kinds.get(occ.symbol.as_str()) {
                Some(k) if *k != 0 => kind_from_scip_kind(*k),
                _ => kind_from_symbol_string(occ.symbol.as_str()),
            };
            let mut signature = String::new();
            signature.append("scip:");
            signature.append(path);
            signature.append(":");
            signature.append(occ.symbol.as_str());
            let id: u64 = crate::graph::name_id(corpus, "", path, name, signature.as_str());
            let d = Definition {
                symbol: copy_text(occ.symbol.as_str()),
                path: copy_text(path),
                language: copy_text(name),
                kind: copy_text(kind),
                line,
                end_line,
                id,
                header,
            };
            assert(kind_entry(kinds@, doc@.symbols, occ.symbol@));
            defs.push(d);
            assert(definition_views(defs@) == before.push(d@));
        }
        i += 1;
    }
}

/// The definitions of an index, in the order of its documents.
pub fn collect_definitions(index: &ScipIndex, corpus: &str, language: Language) -> (r: Vec<Definition>)
    ensures
        definition_views(r@) == index_definitions(index@, corpus@, language),
{
    let mut defs: Vec<Definition> = Vec::new();
    let n: usize = index.documents.len();
    let mut i: usize = 0;
    while i < n
        invariant
            i <= n,
            n == index.documents@.len(),
            definition_views(defs@) == definitions(index@.documents, corpus@, language, i as nat),
        decreases n - i,
    {
        collect_document(&index.documents[i], corpus, language, &mut defs);
        i += 1;
    }
    defs
}

/// What a table of canonical definitions holds for a symbol: the node that
/// references to it lead to, and whether that is a declaration in a header.
pub open spec fn entry_of(
    m: Map<Seq<char>, (u64, bool)>,
    defs: Seq<DefinitionView>,
    s: Seq<char>,
) -> bool {
    match canonical(defs, s) {
        Some(id) => m.contains_key(s) && m[s] == (id, first_definition(defs, s, true) is None),
        None => !m.contains_key(s),
    }
}

/// A table of canonical definitions.
pub open spec fn table_of(m: Map<Seq<char>, (u64, bool)>, defs: Seq<DefinitionView>) -> bool {
    forall|s: Seq<char>| entry_of(m, defs, s)
}

proof fn lemma_source_is_some(defs: Seq<DefinitionView>, s: Seq<char>)
    ensures
        first_definition(defs, s, true) is Some ==> first_definition(defs, s, false) is Some,
    decreases defs.len(),
{
    if defs.len() > 0 {
        lemma_source_is_some(defs.drop_last(), s);
    }
}

fn definition_table(defs: &Vec<Definition>) -> (r: StringHashMap<(u64, bool)>)
    ensures
        table_of(r@, definition_views(defs@)),
{
    let mut table: StringHashMap<(u64, bool)> = StringHashMap::new();
    let n: usize = defs.len();
    let mut i: usize = 0;
    let ghost all = definition_views(defs@);
    while i < n
        invariant
            i <= n,
            n == defs@.len(),
            all == definition_views(defs@),
            table_of(table@, all.take(i as int)),
        decreases n - i,
    {
        let d = &defs[i];
        let ghost before = all.take(i as int);
        let ghost after = all.take(i + 1);
        let ghost m = table@;
        proof {
            assert(after.drop_last() =~= before);
            lemma_source_is_some(before, d.symbol@);
        }
        let known = match table.get(d.symbol.as_str()) {
            Some(e) => !e.1 || d.header,
            None => false,
        };
        if !known {
            table.insert(copy_text(d.symbol.as_str()), (d.id, d.header));
        }
        proof {
            assert forall|s: Seq<char>| entry_of(table@, after, s) by {
                lemma_source_is_some(before, s);
                assert(entry_of(m, before, s));
            }
        }
        i += 1;
    }
    assert(all.take(n as int) =~= all);
    table
}

fn lookup(table: &StringHashMap<(u64, bool)>, symbol: &str, defs: Ghost<Seq<DefinitionView>>) -> (r:
    Option<u64>)
    requires
        table_of(table@, defs@),
    ensures
        r == canonical(defs@, symbol@),
{
    assert(entry_of(table@, defs@, symbol@));
    match table.get(symbol) {
        Some(e) => Some(e.0),
        None => None,
    }
}

/// The edge that a relationship of the definition `src` gives.
pub open spec fn relationship_edge(
    defs: Seq<DefinitionView>,
    src: u64,
    r: RelationshipView,
) -> Option<Edge> {
    match canonical(defs, r.symbol) {
        Some(dst) if r.symbol.len() > 0 && r.is_reference => Some(
            Edge { src, dst, kind: EdgeKind::RefCall },
        ),
        Some(dst) if r.symbol.len() > 0 && r.is_implementation => Some(
            Edge { src, dst, kind: EdgeKind::IsImplementation },
        ),
        _ => None,
    }
}

/// The edges of the first `n` relationships of a symbol.
pub open spec fn symbol_edges(defs: Seq<DefinitionView>, s: SymbolView, n: nat) -> Seq<Edge>
    decreases n,
{
    if n == 0 {
        Seq::empty()
    } else {
        let before = symbol_edges(defs, s, (n - 1) as nat);
        match canonical(defs, s.symbol) {
            Some(src) => match relationship_edge(defs, src, s.relationships[n - 1]) {
                Some(e) => before.push(e),
                None => before,
            },
            None => before,
        }
    }
}

/// The edges of the first `n` symbols of a document.
pub open spec fn document_edges(defs: Seq<DefinitionView>, d: DocumentView, n: nat) -> Seq<Edge>
    decreases n,
{
    if n == 0 {
        Seq::empty()
    } else {
        document_edges(defs, d, (n - 1) as nat) + symbol_edges(
            defs,
            d.symbols[n - 1],
            d.symbols[n - 1].relationships.len(),
        )
    }
}

/// The edges of the first `n` documents.
pub open spec fn edges(defs: Seq<DefinitionView>, docs: Seq<DocumentView>, n: nat) -> Seq<Edge>
    decreases n,
{
    if n == 0 {
        Seq::empty()
    } else {
        edges(defs, docs, (n - 1) as nat) + document_edges(
            defs,
            docs[n - 1],
            docs[n - 1].symbols.len(),
        )
    }
}

proof fn lemma_no_symbol_edges(defs: Seq<DefinitionView>, s: SymbolView, n: nat)
    requires
        canonical(defs, s.symbol) is None,
    ensures
        symbol_edges(defs, s, n) == Seq::<Edge>::empty(),
    decreases n,
{
    if n > 0 {
        lemma_no_symbol_edges(defs, s, (n - 1) as nat);
    }
}

fn collect_symbol_edges(
    info: &ScipSymbol,
    table: &StringHashMap<(u64, bool)>,
    defs: Ghost<Seq<DefinitionView>>,
    out: &mut Vec<Edge>,
)
    requires
        table_of(table@, defs@),
    ensures
        final(out)@ == old(out)@ + symbol_edges(defs@, info@, info@.relationships.len()),
{
    let src: u64 = match lookup(table, info.symbol.as_str(), defs) {
        Some(id) => id,
        None => {
            proof {
                lemma_no_symbol_edges(defs@, info@, info@.relationships.len());
            }
            return;
        },
    };
    let n: usize = info.relationships.len();
    let mut i: usize = 0;
    while i < n
        invariant
            i <= n,
            n == info.relationships@.len(),
            table_of(table@, defs@),
            canonical(defs@, info@.symbol) == Some(src),
            out@ == old(out)@ + symbol_edges(defs@, info@, i as nat),
        decreases n - i,
    {
        let rel = &info.relationships[i];
        if rel.symbol.as_str().unicode_len() > 0 {
            if let Some(dst) = lookup(table, rel.symbol.as_str(), defs) {
                if rel.is_reference {
                    out.push(Edge { src, dst, kind: EdgeKind::RefCall });
                } else if rel.is_implementation {
                    out.push(Edge { src, dst, kind: EdgeKind::IsImplementation });
                }
            }
        }
        i += 1;
    }
}

fn collect_edges(
    index: &ScipIndex,
    table: &StringHashMap<(u64, bool)>,
    defs: Ghost<Seq<DefinitionView>>,
) -> (r: Vec<Edge>)
    requires
        table_of(table@, defs@),
    ensures
        r@ == edges(defs@, index@.documents, index@.documents.len()),
{
    let mut out: Vec<Edge> = Vec::new();
    let n: usize = index.documents.len();
    let mut i: usize = 0;
    while i < n
        invariant
            i <= n,
            n == index.documents@.len(),
            table_of(table@, defs@),
            out@ == edges(defs@, index@.documents, i as nat),
        decreases n - i,
    {
        let doc = &index.documents[i];
        let ghost before = out@;
        let m: usize = doc.symbols.len();
        let mut j: usize = 0;
        while j < m
            invariant
                j <= m,
                m == doc.symbols@.len(),
                table_of(table@, defs@),
                out@ == before + document_edges(defs@, doc@, j as nat),
            decreases m - j,
        {
            let info = &doc.symbols[j];
            collect_symbol_edges(info, table, defs, &mut out);
            j += 1;
        }
        i += 1;
    }
    out
}

/// The name under which a call of a method is looked up outside the index:
/// the first keyword of its selector.
pub open spec fn keyword_signature(symbol: Seq<char>) -> Option<Seq<char>> {
    match last_word(symbol) {
        None => None,
        Some(leaf) => if ends_with(leaf, "()."@) {
            let body = leaf.take(leaf.len() - 3);
            let name = before_first(after_last(body, '#'), ':');
            let plain = crate::text::strip_end(crate::text::strip_start(name, '`'), '`');
            if plain.len() > 0 {
                Some("fn:"@ + plain)
            } else {
                None
            }
        } else {
            None
        },
    }
}

/// The name under which a call of a method is looked up outside the index.
/// `None` for anything that is no method.
pub fn leading_keyword_sig(symbol: &str) -> (r: Option<String>)
    ensures
        match r {
            Some(s) => keyword_signature(symbol@) == Some(s@),
            None => keyword_signature(symbol@) is None,
        },
{
    let chars = chars_of(symbol);
    let leaf = match final_word(chars.as_slice()) {
        Some(w) => w,
        None => {
            return None;
        },
    };
    if !has_suffix(leaf, "().") {
        return None;
    }
    proof {
        reveal_strlit("().");
    }
    let body = vstd::slice::slice_subrange(leaf, 0, leaf.len() - 3);
    let name = head_before(tail_after(body, '#'), ':');
    let plain = crate::text::stripped_end(crate::text::stripped_start(name, '`'), '`');
    if plain.len() == 0 {
        return None;
    }
    let mut out = String::new();
    out.append("fn:");
    out.append(string_of(plain).as_str());
    Some(out)
}

/// Whether the definition `d` spans `line` of the file `path`.
pub open spec fn spans(d: DefinitionView, path: Seq<char>, line: u32) -> bool {
    d.path == path && d.line <= line <= d.end_line
}

/// The definition in the file `path` with the fewest lines that spans `line`;
/// among equals the first one.
pub open spec fn innermost(
    defs: Seq<DefinitionView>,
    path: Seq<char>,
    line: u32,
) -> Option<DefinitionView>
    decreases defs.len(),
{
    if defs.len() == 0 {
        None
    } else {
        let d = defs.last();
        match innermost(defs.drop_last(), path, line) {
            Some(best) => if spans(d, path, line) && d.end_line - d.line < best.end_line
                - best.line {
                Some(d)
            } else {
                Some(best)
            },
            None => if spans(d, path, line) {
                Some(d)
            } else {
                None
            },
        }
    }
}

/// The identifier of the innermost definition that spans `line` of the file
/// `path`.
pub fn innermost_enclosing_def(defs: &Vec<Definition>, path: &str, line: u32) -> (r: Option<u64>)
    ensures
        r == match innermost(definition_views(defs@), path@, line) {
            Some(d) => Some(d.id),
            None => None,
        },
{
    let ghost all = definition_views(defs@);
    let n: usize = defs.len();
    let mut best: Option<usize> = None;
    let mut i: usize = 0;
    while i < n
        invariant
            i <= n,
            n == defs@.len(),
            all == definition_views(defs@),
            match best {
                Some(b) => b < i && innermost(all.take(i as int), path@, line) == Some(
                    all[b as int],
                ) && all[b as int].line <= all[b as int].end_line,
                None => innermost(all.take(i as int), path@, line) is None,
            },
        decreases n - i,
    {
        let d = &defs[i];
        assert(all.take(i + 1).drop_last() =~= all.take(i as int));
        if d.line <= line && line <= d.end_line && crate::text::same_text(d.path.as_str(), path) {
            match best {
                Some(b) => {
                    if d.end_line - d.line < defs[b].end_line - defs[b].line {
                        best = Some(i);
                    }
                },
                None => {
                    best = Some(i);
                },
            }
        }
        i += 1;
    }
    assert(all.take(n as int) =~= all);
    match best {
        Some(b) => {
            Some(defs[b].id)
        },
        None => None,
    }
}

/// What a reference occurrence comes to.
pub enum Found {
    /// A reference to a definition of the index.
    Ref(RefView),
    /// A call whose target is defined elsewhere.
    Call(CallView),
    Nothing,
}

/// The column of an occurrence, where it means the same under every encoding.
pub open spec fn reference_col(o: OccurrenceView, text: Seq<char>) -> Option<u32> {
    let r = range_of(o);
    if r.len() >= 2 && 0 <= r[0] < lines(text).len() {
        agnostic_col(lines(text)[r[0] as int], r[1] as int)
    } else {
        None
    }
}

/// What the occurrence `o` of the document `d` comes to. A reference without
/// a position, or without a target, comes to nothing.
pub open spec fn resolve(
    defs: Seq<DefinitionView>,
    d: DocumentView,
    o: OccurrenceView,
    language: Language,
) -> Found {
    let r = range_of(o);
    if !kept(o.symbol) || (o.symbol_roles & 1) != 0 || r.len() == 0 {
        Found::Nothing
    } else {
        let line = one_based(r[0]);
        let col = reference_col(o, d.text);
        match canonical(defs, o.symbol) {
            Some(id) => Found::Ref(
                RefView {
                    caller_path: d.relative_path,
                    caller_line: line,
                    callee_id: id,
                    is_call: true,
                    caller_col: col,
                },
            ),
            None => match (keyword_signature(o.symbol), innermost(defs, d.relative_path, line)) {
                (Some(sig), Some(enclosing)) if language == Language::ObjectiveC => Found::Call(
                    CallView {
                        src: enclosing.id,
                        callee_sig: sig,
                        alt_callee_sig: None,
                        hint_crate: None,
                        caller_line: line,
                        is_method_call: false,
                        recv_type: None,
                        caller_col: col,
                    },
                ),
                _ => Found::Nothing,
            },
        }
    }
}

/// What the first `n` occurrences of a document come to: at most
/// `MAX_REF_EDGES_PER_DOC` of them count.
pub open spec fn document_found(
    defs: Seq<DefinitionView>,
    d: DocumentView,
    language: Language,
    n: nat,
) -> Seq<Found>
    decreases n,
{
    if n == 0 {
        Seq::empty()
    } else {
        let before = document_found(defs, d, language, (n - 1) as nat);
        let f = resolve(defs, d, d.occurrences[n - 1], language);
        if f is Nothing || before.len() >= MAX_REF_EDGES_PER_DOC {
            before
        } else {
            before.push(f)
        }
    }
}

/// What the first `n` documents come to. The occurrences in a C or C++ header
/// are declarations, not uses.
pub open spec fn found(
    defs: Seq<DefinitionView>,
    docs: Seq<DocumentView>,
    language: Language,
    n: nat,
) -> Seq<Found>
    decreases n,
{
    if n == 0 {
        Seq::empty()
    } else {
        let before = found(defs, docs, language, (n - 1) as nat);
        let d = docs[n - 1];
        if is_c_family(language) && header_path(d.relative_path) {
            before
        } else {
            before + document_found(defs, d, language, d.occurrences.len())
        }
    }
}

/// The references among what was found.
pub open spec fn refs_in(f: Seq<Found>) -> Seq<RefView>
    decreases f.len(),
{
    if f.len() == 0 {
        Seq::empty()
    } else {
        match f.last() {
            Found::Ref(r) => refs_in(f.drop_last()).push(r),
            _ => refs_in(f.drop_last()),
        }
    }
}

/// The calls among what was found.
pub open spec fn calls_in(f: Seq<Found>) -> Seq<CallView>
    decreases f.len(),
{
    if f.len() == 0 {
        Seq::empty()
    } else {
        match f.last() {
            Found::Call(c) => calls_in(f.drop_last()).push(c),
            _ => calls_in(f.drop_last()),
        }
    }
}

/// The graph of an index.
pub open spec fn index_response(
    index: IndexView,
    corpus: Seq<char>,
    language: Language,
) -> ResponseView {
    let defs = index_definitions(index, corpus, language);
    let uses = found(defs, index.documents, language, index.documents.len());
    ResponseView {
        nodes: definition_nodes(defs, corpus),
        edges: edges(defs, index.documents, index.documents.len()),
        refs: refs_in(uses),
        unresolved_calls: calls_in(uses),
        diagnostics: Seq::empty(),
    }
}

fn occurrence_col(range: &Vec<i32>, lines_: &Vec<String>) -> (r: Option<u32>)
    ensures
        r == if range@.len() >= 2 && 0 <= range@[0] < texts(lines_@).len() {
            agnostic_col(texts(lines_@)[range@[0] as int], range@[1] as int)
        } else {
            None
        },
{
    if range.len() < 2 || range[0] < 0 || range[0] as u64 >= lines_.len() as u64 {
        return None;
    }
    let i: usize = range[0] as usize;
    encoding_agnostic_col(lines_[i].as_str(), range[1])
}

fn collect_references(
    doc: &ScipDocument,
    language: Language,
    defs: &Vec<Definition>,
    table: &StringHashMap<(u64, bool)>,
    refs: &mut Vec<ScipRef>,
    calls: &mut Vec<UnresolvedCall>,
    before: Ghost<Seq<Found>>,
)
    requires
        table_of(table@, definition_views(defs@)),
        ref_views(old(refs)@) == refs_in(before@),
        call_views(old(calls)@) == calls_in(before@),
    ensures
        ref_views(final(refs)@) == refs_in(
            before@ + document_found(
                definition_views(defs@),
                doc@,
                language,
                doc@.occurrences.len(),
            ),
        ),
        call_views(final(calls)@) == calls_in(
            before@ + document_found(
                definition_views(defs@),
                doc@,
                language,
                doc@.occurrences.len(),
            ),
        ),
{
    broadcast use group_views_push;

    let ghost all = definition_views(defs@);
    let text = chars_of(doc.text.as_str());
    let source = lines_of(text.as_slice());
    let path = doc.relative_path.as_str();
    let n: usize = doc.occurrences.len();
    let mut count: usize = 0;
    let mut i: usize = 0;
    while i < n
        invariant
            i <= n,
            n == doc.occurrences@.len(),
            all == definition_views(defs@),
            table_of(table@, all),
            texts(source@) == lines(doc@.text),
            path@ == doc@.relative_path,
            count == document_found(all, doc@, language, i as nat).len(),
            count <= MAX_REF_EDGES_PER_DOC,
            ref_views(refs@) == refs_in(before@ + document_found(all, doc@, language, i as nat)),
            call_views(calls@) == calls_in(before@ + document_found(all, doc@, language, i as nat)),
        decreases n - i,
    {
        let occ = &doc.occurrences[i];
        let ghost f = resolve(all, doc@, occ@, language);
        let ghost so_far = document_found(all, doc@, language, i as nat);
        proof {
            assert((before@ + so_far).push(f).drop_last() =~= before@ + so_far);
        }
        i += 1;
        if count < MAX_REF_EDGES_PER_DOC && is_kept(occ.symbol.as_str()) && (occ.symbol_roles & 1)
            == 0 {
            let range = scip_range(occ);
            if range.len() > 0 {
                let caller_line: u32 = from_one(range[0]);
                let caller_col = occurrence_col(&range, &source);
                match lookup(table, occ.symbol.as_str(), Ghost(all)) {
                    Some(callee_id) => {
                        refs.push(
                            ScipRef {
                                caller_path: copy_text(path),
                                caller_line,
                                callee_id,
                                is_call: true,
                                caller_col,
                            },
                        );
                        count += 1;
                    },
                    None => if language == Language::ObjectiveC {
                        if let Some(callee_sig) = leading_keyword_sig(occ.symbol.as_str()) {
                            if let Some(src) = innermost_enclosing_def(defs, path, caller_line) {
                                calls.push(
                                    UnresolvedCall {
                                        src,
                                        callee_sig,
                                        alt_callee_sig: None,
                                        hint_crate: None,
                                        caller_line,
                                        is_method_call: false,
                                        recv_type: None,
                                        caller_col,
                                    },
                                );
                                count += 1;
                            }
                        }
                    },
                }
            }
        }
    }
}

/// The graph of an index: its definitions as nodes, the relationships of its
/// symbols as edges, and its other occurrences as references.
pub fn ingest_index(index: &ScipIndex, corpus: &str, language: Language) -> (r: InvokeResponse)
    ensures
        r@ == index_response(index@, corpus@, language),
{
    broadcast use group_views_push;

    let defs = collect_definitions(index, corpus, language);
    let table = definition_table(&defs);
    let ghost all = definition_views(defs@);
    let mut nodes: Vec<Node> = Vec::new();
    let m: usize = defs.len();
    let mut k: usize = 0;
    while k < m
        invariant
            k <= m,
            m == defs@.len(),
            all == definition_views(defs@),
            node_views(nodes@) == definition_nodes(all.take(k as int), corpus@),
        decreases m - k,
    {
        let d = &defs[k];
        let mut signature = String::new();
        signature.append("scip:");
        signature.append(d.path.as_str());
        signature.append(":");
        signature.append(d.symbol.as_str());
        nodes.push(
            node(
                corpus,
                d.path.as_str(),
                d.language.as_str(),
                signature.as_str(),
                d.kind.as_str(),
                Some(d.line),
                Some(d.end_line),
            ),
        );
        k += 1;
        proof {
            let seen = all.take(k as int);
            assert(definition_nodes(seen, corpus@) =~= definition_nodes(
                all.take(k - 1),
                corpus@,
            ).push(definition_node(d@, corpus@)));
        }
    }
    assert(all.take(m as int) =~= all);
    let edges = collect_edges(index, &table, Ghost(all));
    let mut refs: Vec<ScipRef> = Vec::new();
    let mut calls: Vec<UnresolvedCall> = Vec::new();
    let n: usize = index.documents.len();
    let mut i: usize = 0;
    while i < n
        invariant
            i <= n,
            n == index.documents@.len(),
            all == definition_views(defs@),
            table_of(table@, all),
            ref_views(refs@) == refs_in(found(all, index@.documents, language, i as nat)),
            call_views(calls@) == calls_in(found(all, index@.documents, language, i as nat)),
        decreases n - i,
    {
        let doc = &index.documents[i];
        if !((language == Language::C || language == Language::Cpp) && is_header_path(
            doc.relative_path.as_str(),
        )) {
            collect_references(
                doc,
                language,
                &defs,
                &table,
                &mut refs,
                &mut calls,
                Ghost(found(all, index@.documents, language, i as nat)),
            );
        }
        i += 1;
    }
    let diagnostics: Vec<PluginDiagnostic> = Vec::new();
    let r = InvokeResponse { nodes, edges, refs, unresolved_calls: calls, diagnostics };
    assert(r@.diagnostics =~= index_response(index@, corpus@, language).diagnostics);
    r
}

/// Where the source of a document is found.
#[derive(Debug)]
pub enum DocumentText {
    /// In the document itself.
    Inlined,
    /// On disk, at the document's path under this directory.
    Under(String),
    /// Nowhere.
    Unavailable,
}

/// The directory that a project root names.
pub open spec fn root_directory(project_root: Seq<char>) -> Seq<char> {
    if starts_with(project_root, "file://"@) {
        project_root.skip(7)
    } else {
        project_root
    }
}

/// Where the source of a document is found: an inlined text comes before a
/// file of the project.
pub fn document_text(doc: &ScipDocument, project_root: &str) -> (r: DocumentText)
    ensures
        match r {
            DocumentText::Inlined => doc@.text.len() > 0,
            DocumentText::Under(root) => {
                &&& doc@.text.len() == 0
                &&& root@ == root_directory(project_root@)
                &&& root@.len() > 0
            },
            DocumentText::Unavailable => {
                &&& doc@.text.len() == 0
                &&& root_directory(project_root@).len() == 0
            },
        },
{
    if doc.text.as_str().unicode_len() > 0 {
        return DocumentText::Inlined;
    }
    let chars = chars_of(project_root);
    let n: usize = chars.len();
    let from: usize = if has_prefix(chars.as_slice(), "file://") {
        proof {
            reveal_strlit("file://");
        }
        7
    } else {
        0
    };
    let root = vstd::slice::slice_subrange(chars.as_slice(), from, n);
    if root.len() == 0 {
        DocumentText::Unavailable
    } else {
        DocumentText::Under(string_of(root))
    }
}

/// A document with `text` for its source, where it has none of its own.
pub open spec fn with_text(d: DocumentView, text: Option<Seq<char>>) -> DocumentView {
    match text {
        Some(t) if d.text.len() == 0 => DocumentView { text: t, ..d },
        _ => d,
    }
}

/// An index with sources for its documents.
pub open spec fn with_texts(index: IndexView, sources: Seq<Option<String>>) -> IndexView {
    IndexView {
        project_root: index.project_root,
        documents: Seq::new(
            index.documents.len(),
            |i: int|
                with_text(
                    index.documents[i],
                    if i < sources.len() {
                        match sources[i] {
                            Some(t) => Some(t@),
                            None => None,
                        }
                    } else {
                        None
                    },
                ),
        ),
    }
}

/// The graph of a decoded index; `sources` holds, by document, what was read
/// of the files whose text the index does not hold. No index, no graph.
pub fn ingest(
    decoded: Option<ScipIndex>,
    sources: Vec<Option<String>>,
    corpus: &str,
    language: Language,
) -> (r: InvokeResponse)
    ensures
        r@ == match decoded {
            Some(index) => index_response(with_texts(index@, sources@), corpus@, language),
            None => empty_response(),
        },
{
    let mut index = match decoded {
        Some(index) => index,
        None => {
            return InvokeResponse::empty();
        },
    };
    let ghost given = index@;
    let n: usize = index.documents.len();
    let mut documents: Vec<ScipDocument> = Vec::new();
    let ScipIndex { project_root, documents: raw } = index;
    let ghost want = with_texts(given, sources@).documents;
    let mut i: usize = 0;
    for d in it: raw
        invariant
            given.documents == crate::scip_index::document_views(it.seq()),
            want == with_texts(given, sources@).documents,
            it.index() == i,
            i <= n,
            n == given.documents.len(),
            documents@.len() == i,
            forall|k: int| 0 <= k < i ==> (#[trigger] documents@[k])@ == want[k],
    {
        let mut d = d;
        if i < sources.len() && d.text.as_str().unicode_len() == 0 {
            if let Some(t) = &sources[i] {
                let ScipDocument { relative_path, language, text: _, occurrences, symbols } = d;
                d =
                ScipDocument {
                    relative_path,
                    language,
                    text: copy_text(t.as_str()),
                    occurrences,
                    symbols,
                };
            }
        }
        documents.push(d);
        i += 1;
    }
    let full = ScipIndex { project_root, documents };
    assert(full@.documents =~= want);
    ingest_index(&full, corpus, language)
}

/// A node with the identifier `id` is among `nodes`.
pub open spec fn has_node(nodes: Seq<NodeView>, id: u64) -> bool {
    exists|i: int| 0 <= i < nodes.len() && (#[trigger] nodes[i]).id == id
}

/// Every definition of the index was an occurrence of a symbol that the graph
/// keeps, and its identifier is that of its node.
pub open spec fn sound(defs: Seq<DefinitionView>, corpus: Seq<char>) -> bool {
    forall|i: int|
        #![trigger defs[i]]
        0 <= i < defs.len() ==> kept(defs[i].symbol) && defs[i].id == definition_node(
            defs[i],
            corpus,
        ).id
}

proof fn lemma_document_sound(d: DocumentView, corpus: Seq<char>, language: Language, n: nat)
    ensures
        sound(document_definitions(d, corpus, language, n), corpus),
    decreases n,
{
    if n > 0 {
        lemma_document_sound(d, corpus, language, (n - 1) as nat);
    }
}

proof fn lemma_sound(docs: Seq<DocumentView>, corpus: Seq<char>, language: Language, n: nat)
    ensures
        sound(definitions(docs, corpus, language, n), corpus),
    decreases n,
{
    if n > 0 {
        lemma_sound(docs, corpus, language, (n - 1) as nat);
        lemma_document_sound(
            docs[n - 1],
            corpus,
            language,
            docs[n - 1].occurrences.len(),
        );
    }
}

/// No local and no parameter becomes a node: the symbol of every node is one
/// that the graph keeps.
pub proof fn law_noise_never_surfaces(
    index: IndexView,
    corpus: Seq<char>,
    language: Language,
    i: int,
)
    requires
        0 <= i < index_definitions(index, corpus, language).len(),
    ensures
        ({
            let d = index_definitions(index, corpus, language)[i];
            &&& index_response(index, corpus, language).nodes[i] == definition_node(d, corpus)
            &&& kept(d.symbol)
        }),
{
    lemma_sound(index.documents, corpus, language, index.documents.len());
}

proof fn lemma_first_is_defined(defs: Seq<DefinitionView>, symbol: Seq<char>, source: bool)
    ensures
        match first_definition(defs, symbol, source) {
            Some(id) => exists|i: int|
                #![trigger defs[i]]
                0 <= i < defs.len() && defs[i].symbol == symbol && defs[i].id == id && !(source
                    && defs[i].header),
            None => forall|i: int|
                #![trigger defs[i]]
                0 <= i < defs.len() ==> defs[i].symbol != symbol || (source && defs[i].header),
        },
    decreases defs.len(),
{
    if defs.len() > 0 {
        let rest = defs.drop_last();
        lemma_first_is_defined(rest, symbol, source);
        match first_definition(rest, symbol, source) {
            Some(_) => {},
            None => {
                assert forall|i: int|
                    #![trigger defs[i]]
                    0 <= i < defs.len() - 1 implies defs[i].symbol != symbol || (source
                    && defs[i].header) by {
                    assert(defs[i] == rest[i]);
                }
            },
        }
    }
}

/// A symbol has a canonical definition exactly if the index defines it; and a
/// definition in a source file comes before a declaration in a header.
pub proof fn law_source_before_header(defs: Seq<DefinitionView>, symbol: Seq<char>, i: int)
    requires
        0 <= i < defs.len(),
        defs[i].symbol == symbol,
    ensures
        canonical(defs, symbol) is Some,
        !defs[i].header ==> exists|j: int|
            #![trigger defs[j]]
            0 <= j < defs.len() && defs[j].symbol == symbol && !defs[j].header && canonical(
                defs,
                symbol,
            ) == Some(defs[j].id),
{
    lemma_first_is_defined(defs, symbol, true);
    lemma_first_is_defined(defs, symbol, false);
}

proof fn lemma_canonical_is_node(
    index: IndexView,
    corpus: Seq<char>,
    language: Language,
    symbol: Seq<char>,
)
    ensures
        match canonical(index_definitions(index, corpus, language), symbol) {
            Some(id) => has_node(index_response(index, corpus, language).nodes, id),
            None => true,
        },
{
    let defs = index_definitions(index, corpus, language);
    let nodes = index_response(index, corpus, language).nodes;
    lemma_sound(index.documents, corpus, language, index.documents.len());
    lemma_first_is_defined(defs, symbol, true);
    lemma_first_is_defined(defs, symbol, false);
    if canonical(defs, symbol) is Some {
        let id = canonical(defs, symbol)->0;
        let i = choose|i: int| #![trigger defs[i]] 0 <= i < defs.len() && defs[i].id == id;
        assert(nodes[i] == definition_node(defs[i], corpus));
    }
}

/// What a finding may be: a reference leads to a node of the graph, a call
/// leaves from one.
pub open spec fn anchored(f: Found, nodes: Seq<NodeView>, language: Language) -> bool {
    match f {
        Found::Ref(r) => r.is_call && has_node(nodes, r.callee_id),
        Found::Call(c) => language == Language::ObjectiveC && has_node(nodes, c.src),
        Found::Nothing => false,
    }
}

proof fn lemma_innermost(defs: Seq<DefinitionView>, path: Seq<char>, line: u32)
    ensures
        match innermost(defs, path, line) {
            Some(best) => {
                &&& spans(best, path, line)
                &&& exists|i: int| 0 <= i < defs.len() && #[trigger] defs[i] == best
                &&& forall|i: int|
                    #![trigger defs[i]]
                    0 <= i < defs.len() && spans(defs[i], path, line) ==> best.end_line - best.line
                        <= defs[i].end_line - defs[i].line
            },
            None => forall|i: int|
                #![trigger defs[i]]
                0 <= i < defs.len() ==> !spans(defs[i], path, line),
        },
    decreases defs.len(),
{
    if defs.len() > 0 {
        let rest = defs.drop_last();
        lemma_innermost(rest, path, line);
        assert forall|i: int| 0 <= i < rest.len() implies #[trigger] defs[i] == rest[i] by {}
    }
}

/// The innermost definition spans the line, and no definition that spans it
/// has fewer lines; there is none only where nothing spans the line.
pub proof fn law_innermost_is_smallest(
    defs: Seq<DefinitionView>,
    path: Seq<char>,
    line: u32,
    i: int,
)
    requires
        0 <= i < defs.len(),
        spans(defs[i], path, line),
    ensures
        innermost(defs, path, line) matches Some(best) && spans(best, path, line) && best.end_line
            - best.line <= defs[i].end_line - defs[i].line,
{
    lemma_innermost(defs, path, line);
}

proof fn lemma_document_anchored(
    index: IndexView,
    corpus: Seq<char>,
    language: Language,
    d: DocumentView,
    n: nat,
)
    ensures
        ({
            let defs = index_definitions(index, corpus, language);
            let nodes = index_response(index, corpus, language).nodes;
            let f = document_found(defs, d, language, n);
            &&& f.len() <= 5000
            &&& forall|i: int| 0 <= i < f.len() ==> anchored(#[trigger] f[i], nodes, language)
        }),
    decreases n,
{
    if n > 0 {
        lemma_document_anchored(index, corpus, language, d, (n - 1) as nat);
        let defs = index_definitions(index, corpus, language);
        let nodes = index_response(index, corpus, language).nodes;
        let o = d.occurrences[n - 1];
        lemma_canonical_is_node(index, corpus, language, o.symbol);
        if range_of(o).len() > 0 {
            let line = one_based(range_of(o)[0]);
            lemma_innermost(defs, d.relative_path, line);
            lemma_sound(index.documents, corpus, language, index.documents.len());
            if innermost(defs, d.relative_path, line) is Some {
                let best = innermost(defs, d.relative_path, line)->0;
                let i = choose|i: int| 0 <= i < defs.len() && #[trigger] defs[i] == best;
                assert(nodes[i] == definition_node(defs[i], corpus));
            }
        }
    }
}

proof fn lemma_anchored(index: IndexView, corpus: Seq<char>, language: Language, n: nat)
    requires
        n <= index.documents.len(),
    ensures
        ({
            let defs = index_definitions(index, corpus, language);
            let nodes = index_response(index, corpus, language).nodes;
            let f = found(defs, index.documents, language, n);
            forall|i: int| 0 <= i < f.len() ==> anchored(#[trigger] f[i], nodes, language)
        }),
    decreases n,
{
    if n > 0 {
        lemma_anchored(index, corpus, language, (n - 1) as nat);
        let d = index.documents[n - 1];
        lemma_document_anchored(index, corpus, language, d, d.occurrences.len());
        let defs = index_definitions(index, corpus, language);
        let nodes = index_response(index, corpus, language).nodes;
        let before = found(defs, index.documents, language, (n - 1) as nat);
        let f = found(defs, index.documents, language, n);
        assert forall|i: int| 0 <= i < f.len() implies anchored(
            #[trigger] f[i],
            nodes,
            language,
        ) by {
            if i < before.len() {
                assert(f[i] == before[i]);
            }
        }
    }
}

proof fn lemma_refs_in(f: Seq<Found>, k: int)
    requires
        0 <= k < refs_in(f).len(),
    ensures
        exists|i: int| 0 <= i < f.len() && #[trigger] f[i] == Found::Ref(refs_in(f)[k]),
    decreases f.len(),
{
    let rest = f.drop_last();
    if !(f.last() is Ref && k == refs_in(f).len() - 1) {
        lemma_refs_in(rest, k);
    }
}

proof fn lemma_calls_in(f: Seq<Found>, k: int)
    requires
        0 <= k < calls_in(f).len(),
    ensures
        exists|i: int| 0 <= i < f.len() && #[trigger] f[i] == Found::Call(calls_in(f)[k]),
    decreases f.len(),
{
    let rest = f.drop_last();
    if !(f.last() is Call && k == calls_in(f).len() - 1) {
        lemma_calls_in(rest, k);
    }
}

/// Every reference leads to a node of the same graph.
pub proof fn law_references_lead_to_nodes(
    index: IndexView,
    corpus: Seq<char>,
    language: Language,
    k: int,
)
    requires
        0 <= k < index_response(index, corpus, language).refs.len(),
    ensures
        ({
            let g = index_response(index, corpus, language);
            has_node(g.nodes, g.refs[k].callee_id)
        }),
{
    let defs = index_definitions(index, corpus, language);
    let f = found(defs, index.documents, language, index.documents.len());
    lemma_anchored(index, corpus, language, index.documents.len());
    lemma_refs_in(f, k);
}

/// Only Objective-C has calls that leave the index, and each of them leaves
/// from a node of the same graph.
pub proof fn law_calls_leave_from_nodes(
    index: IndexView,
    corpus: Seq<char>,
    language: Language,
    k: int,
)
    requires
        0 <= k < index_response(index, corpus, language).unresolved_calls.len(),
    ensures
        ({
            let g = index_response(index, corpus, language);
            language == Language::ObjectiveC && has_node(g.nodes, g.unresolved_calls[k].src)
        }),
{
    let defs = index_definitions(index, corpus, language);
    let f = found(defs, index.documents, language, index.documents.len());
    lemma_anchored(index, corpus, language, index.documents.len());
    lemma_calls_in(f, k);
}

/// A document contributes at most five thousand references and calls.
pub proof fn law_document_is_capped(
    index: IndexView,
    corpus: Seq<char>,
    language: Language,
    d: DocumentView,
)
    ensures
        document_found(
            index_definitions(index, corpus, language),
            d,
            language,
            d.occurrences.len(),
        ).len() <= 5000,
{
    lemma_document_anchored(index, corpus, language, d, d.occurrences.len());
}

proof fn lemma_symbol_edges_anchored(
    index: IndexView,
    corpus: Seq<char>,
    language: Language,
    s: SymbolView,
    n: nat,
)
    ensures
        ({
            let nodes = index_response(index, corpus, language).nodes;
            let e = symbol_edges(index_definitions(index, corpus, language), s, n);
            forall|i: int|
                0 <= i < e.len() ==> has_node(nodes, (#[trigger] e[i]).src) && has_node(
                    nodes,
                    e[i].dst,
                )
        }),
    decreases n,
{
    if n > 0 {
        lemma_symbol_edges_anchored(index, corpus, language, s, (n - 1) as nat);
        lemma_canonical_is_node(index, corpus, language, s.symbol);
        lemma_canonical_is_node(index, corpus, language, s.relationships[n - 1].symbol);
    }
}

proof fn lemma_document_edges_anchored(
    index: IndexView,
    corpus: Seq<char>,
    language: Language,
    d: DocumentView,
    n: nat,
)
    ensures
        ({
            let nodes = index_response(index, corpus, language).nodes;
            let e = document_edges(index_definitions(index, corpus, language), d, n);
            forall|i: int|
                0 <= i < e.len() ==> has_node(nodes, (#[trigger] e[i]).src) && has_node(
                    nodes,
                    e[i].dst,
                )
        }),
    decreases n,
{
    if n > 0 {
        lemma_document_edges_anchored(index, corpus, language, d, (n - 1) as nat);
        let s = d.symbols[n - 1];
        lemma_symbol_edges_anchored(index, corpus, language, s, s.relationships.len());
    }
}

proof fn lemma_edges_anchored(index: IndexView, corpus: Seq<char>, language: Language, n: nat)
    ensures
        ({
            let nodes = index_response(index, corpus, language).nodes;
            let e = edges(index_definitions(index, corpus, language), index.documents, n);
            forall|i: int|
                0 <= i < e.len() ==> has_node(nodes, (#[trigger] e[i]).src) && has_node(
                    nodes,
                    e[i].dst,
                )
        }),
    decreases n,
{
    if n > 0 {
        lemma_edges_anchored(index, corpus, language, (n - 1) as nat);
        let d = index.documents[n - 1];
        lemma_document_edges_anchored(index, corpus, language, d, d.symbols.len());
    }
}

/// Every edge joins two nodes of the same graph.
pub proof fn law_edges_join_nodes(index: IndexView, corpus: Seq<char>, language: Language, k: int)
    requires
        0 <= k < index_response(index, corpus, language).edges.len(),
    ensures
        ({
            let g = index_response(index, corpus, language);
            has_node(g.nodes, g.edges[k].src) && has_node(g.nodes, g.edges[k].dst)
        }),
{
    lemma_edges_anchored(index, corpus, language, index.documents.len());
}

proof fn lemma_c_passes_define_alike(d: DocumentView, corpus: Seq<char>, n: nat)
    requires
        extension_name(after_last(d.relative_path, '.')) is Some,
    ensures
        document_definitions(d, corpus, Language::C, n) == document_definitions(
            d,
            corpus,
            Language::Cpp,
            n,
        ),
    decreases n,
{
    if n > 0 {
        lemma_c_passes_define_alike(d, corpus, (n - 1) as nat);
    }
}

proof fn lemma_c_definitions(docs: Seq<DocumentView>, corpus: Seq<char>, n: nat)
    requires
        n <= docs.len(),
        forall|i: int|
            0 <= i < docs.len() ==> extension_name(
                after_last((#[trigger] docs[i]).relative_path, '.'),
            ) is Some,
    ensures
        definitions(docs, corpus, Language::C, n) == definitions(docs, corpus, Language::Cpp, n),
    decreases n,
{
    if n > 0 {
        lemma_c_definitions(docs, corpus, (n - 1) as nat);
        lemma_c_passes_define_alike(docs[n - 1], corpus, docs[n - 1].occurrences.len());
    }
}

proof fn lemma_c_document_found(defs: Seq<DefinitionView>, d: DocumentView, n: nat)
    ensures
        document_found(defs, d, Language::C, n) == document_found(defs, d, Language::Cpp, n),
    decreases n,
{
    if n > 0 {
        lemma_c_document_found(defs, d, (n - 1) as nat);
    }
}

proof fn lemma_c_found(defs: Seq<DefinitionView>, docs: Seq<DocumentView>, n: nat)
    requires
        n <= docs.len(),
    ensures
        found(defs, docs, Language::C, n) == found(defs, docs, Language::Cpp, n),
    decreases n,
{
    if n > 0 {
        lemma_c_found(defs, docs, (n - 1) as nat);
        lemma_c_document_found(defs, docs[n - 1], docs[n - 1].occurrences.len());
    }
}

/// A pass for C and a pass for C++ over an index give the same graph, where
/// the extension of each document tells its language.
pub proof fn law_c_passes_agree(index: IndexView, corpus: Seq<char>)
    requires
        forall|i: int|
            0 <= i < index.documents.len() ==> extension_name(
                after_last((#[trigger] index.documents[i]).relative_path, '.'),
            ) is Some,
    ensures
        index_response(index, corpus, Language::C) == index_response(index, corpus, Language::Cpp),
{
    let n = index.documents.len();
    lemma_c_definitions(index.documents, corpus, n);
    lemma_c_found(index_definitions(index, corpus, Language::C), index.documents, n);
}

/// A header of a C or C++ project holds no uses.
pub proof fn law_headers_hold_no_uses(
    defs: Seq<DefinitionView>,
    docs: Seq<DocumentView>,
    language: Language,
    n: nat,
    i: int,
)
    requires
        is_c_family(language),
        n <= docs.len(),
        0 <= i < found(defs, docs, language, n).len(),
    ensures
        found(defs, docs, language, n)[i] matches Found::Ref(r) ==> !header_path(r.caller_path),
    decreases n,
{
    let d = docs[n - 1];
    let before = found(defs, docs, language, (n - 1) as nat);
    if i < before.len() {
        law_headers_hold_no_uses(defs, docs, language, (n - 1) as nat, i);
    } else {
        lemma_document_paths(defs, d, language, d.occurrences.len());
    }
}

proof fn lemma_document_paths(
    defs: Seq<DefinitionView>,
    d: DocumentView,
    language: Language,
    n: nat,
)
    ensures
        ({
            let f = document_found(defs, d, language, n);
            forall|i: int|
                0 <= i < f.len() ==> (#[trigger] f[i] matches Found::Ref(r) ==> r.caller_path
                    == d.relative_path)
        }),
    decreases n,
{
    if n > 0 {
        lemma_document_paths(defs, d, language, (n - 1) as nat);
    }
}

/// A symbol that can be navigated to: it is not empty, does not say that it is
/// local, and does not end like a parameter.
pub open spec fn navigable(symbol: Seq<char>) -> bool {
    symbol.len() > 0 && symbol[symbol.len() - 1] != ')' && !(symbol.len() >= 6 && symbol.take(6)
        == "local "@)
}

/// Whether the occurrence `k` of the document `i` defines `symbol`.
pub open spec fn defined_at(index: IndexView, i: int, k: int, symbol: Seq<char>) -> bool {
    &&& 0 <= i < index.documents.len()
    &&& 0 <= k < index.documents[i].occurrences.len()
    &&& index.documents[i].occurrences[k].symbol == symbol
    &&& (index.documents[i].occurrences[k].symbol_roles & 1) != 0
    &&& navigable(symbol)
}

/// Whether `x` is the node of a definition of `symbol` in the file `path`.
pub open spec fn is_node_of(
    x: NodeView,
    corpus: Seq<char>,
    language: Language,
    path: Seq<char>,
    symbol: Seq<char>,
) -> bool {
    &&& x.corpus == corpus
    &&& x.path == path
    &&& x.signature == "scip:"@ + path + ":"@ + symbol
    &&& x.id == vname_id(corpus, ""@, path, x.language, x.signature)
    &&& language != Language::C && language != Language::Cpp ==> x.language == language.name()
}

/// Whether the line of `x`, and the one that it ends on, are those of `span`:
/// of four numbers the first and the third, of fewer the first alone, counted
/// from zero.
pub open spec fn has_lines(x: NodeView, span: Seq<i32>) -> bool {
    &&& span.len() == 0 ==> x.line == Some(1u32) && x.end_line == Some(1u32)
    &&& span.len() > 0 && span[0] >= 0 ==> x.line == Some((span[0] + 1) as u32)
    &&& span.len() < 4 ==> x.end_line == x.line
    &&& span.len() >= 4 && span[2] >= 0 ==> x.end_line == Some((span[2] + 1) as u32)
}

/// Whether `x` has the kind that the end of `symbol` tells.
pub open spec fn has_suffix_kind(x: NodeView, symbol: Seq<char>) -> bool {
    let end = symbol[symbol.len() - 1];
    &&& end == '#' ==> x.kind == "class"@
    &&& end == '/' ==> x.kind == "module"@
    &&& end == '.' ==> x.kind == "function"@
    &&& end != '#' && end != '/' && end != '.' ==> x.kind == "definition"@
}

/// Whether `x` has the kind that the symbols of its document give `symbol`:
/// the last entry for it counts, and one of no kind does not.
pub open spec fn has_declared_kind(x: NodeView, symbols: Seq<SymbolView>, symbol: Seq<char>) -> bool {
    &&& (forall|j: int| 0 <= j < symbols.len() ==> (#[trigger] symbols[j]).symbol != symbol)
        ==> has_suffix_kind(x, symbol)
    &&& forall|j: int|
        0 <= j < symbols.len() && (#[trigger] symbols[j]).symbol == symbol && (forall|m: int|
            j < m < symbols.len() ==> (#[trigger] symbols[m]).symbol != symbol) ==> if symbols[j].kind
            == 0 {
            has_suffix_kind(x, symbol)
        } else {
            x.kind == kind_name(symbols[j].kind)
        }
}

proof fn lemma_navigable(symbol: Seq<char>)
    ensures
        navigable(symbol) == kept(symbol),
{
    reveal_strlit("local ");
}

proof fn lemma_declared_kind(symbols: Seq<SymbolView>, symbol: Seq<char>)
    ensures
        match declared_kind(symbols, symbol) {
            None => forall|j: int|
                0 <= j < symbols.len() ==> (#[trigger] symbols[j]).symbol != symbol,
            Some(kind) => exists|j: int|
                0 <= j < symbols.len() && (#[trigger] symbols[j]).symbol == symbol
                    && symbols[j].kind == kind && forall|m: int|
                    j < m < symbols.len() ==> (#[trigger] symbols[m]).symbol != symbol,
        },
    decreases symbols.len(),
{
    if symbols.len() > 0 {
        let rest = symbols.drop_last();
        lemma_declared_kind(rest, symbol);
        if symbols.last().symbol == symbol {
            assert(symbols[symbols.len() - 1].symbol == symbol);
        } else {
            match declared_kind(rest, symbol) {
                None => {
                    assert forall|j: int| 0 <= j < symbols.len() implies (
                    #[trigger] symbols[j]).symbol != symbol by {
                        if j < rest.len() {
                            assert(rest[j] == symbols[j]);
                        }
                    }
                },
                Some(kind) => {
                    let j = choose|j: int|
                        0 <= j < rest.len() && (#[trigger] rest[j]).symbol == symbol
                            && rest[j].kind == kind && forall|m: int|
                            j < m < rest.len() ==> (#[trigger] rest[m]).symbol != symbol;
                    assert(symbols[j].symbol == symbol);
                    assert forall|m: int| j < m < symbols.len() implies (
                    #[trigger] symbols[m]).symbol != symbol by {
                        if m < rest.len() {
                            assert(rest[m] == symbols[m]);
                        }
                    }
                },
            }
        }
    }
}

proof fn lemma_document_holds(
    d: DocumentView,
    corpus: Seq<char>,
    language: Language,
    n: nat,
    k: int,
)
    requires
        0 <= k < n <= d.occurrences.len(),
        defines(d.occurrences[k]),
    ensures
        document_definitions(d, corpus, language, n).contains(
            definition(d, d.occurrences[k], corpus, language),
        ),
    decreases n,
{
    let now = document_definitions(d, corpus, language, n);
    let x = definition(d, d.occurrences[k], corpus, language);
    if k == n - 1 {
        assert(now.last() == x);
    } else {
        lemma_document_holds(d, corpus, language, (n - 1) as nat, k);
        let before = document_definitions(d, corpus, language, (n - 1) as nat);
        let p = choose|p: int| 0 <= p < before.len() && before[p] == x;
        assert(now[p] == x);
    }
}

proof fn lemma_definitions_hold(
    docs: Seq<DocumentView>,
    corpus: Seq<char>,
    language: Language,
    n: nat,
    i: int,
    k: int,
)
    requires
        0 <= i < n <= docs.len(),
        0 <= k < docs[i].occurrences.len(),
        defines(docs[i].occurrences[k]),
    ensures
        definitions(docs, corpus, language, n).contains(
            definition(docs[i], docs[i].occurrences[k], corpus, language),
        ),
    decreases n,
{
    let now = definitions(docs, corpus, language, n);
    let before = definitions(docs, corpus, language, (n - 1) as nat);
    let x = definition(docs[i], docs[i].occurrences[k], corpus, language);
    if i == n - 1 {
        let own = document_definitions(docs[i], corpus, language, docs[i].occurrences.len());
        lemma_document_holds(docs[i], corpus, language, docs[i].occurrences.len(), k);
        let p = choose|p: int| 0 <= p < own.len() && own[p] == x;
        assert(now[before.len() + p] == x);
    } else {
        lemma_definitions_hold(docs, corpus, language, (n - 1) as nat, i, k);
        let p = choose|p: int| 0 <= p < before.len() && before[p] == x;
        assert(now[p] == x);
    }
}

proof fn lemma_document_stems(
    d: DocumentView,
    corpus: Seq<char>,
    language: Language,
    n: nat,
    p: int,
)
    requires
        n <= d.occurrences.len(),
        0 <= p < document_definitions(d, corpus, language, n).len(),
    ensures
        exists|k: int|
            0 <= k < n && defines(#[trigger] d.occurrences[k]) && document_definitions(
                d,
                corpus,
                language,
                n,
            )[p] == definition(d, d.occurrences[k], corpus, language),
    decreases n,
{
    if n > 0 {
        let before = document_definitions(d, corpus, language, (n - 1) as nat);
        if p < before.len() {
            lemma_document_stems(d, corpus, language, (n - 1) as nat, p);
        } else {
            assert(defines(d.occurrences[n - 1]));
        }
    }
}

proof fn lemma_definitions_stem(
    docs: Seq<DocumentView>,
    corpus: Seq<char>,
    language: Language,
    n: nat,
    p: int,
)
    requires
        n <= docs.len(),
        0 <= p < definitions(docs, corpus, language, n).len(),
    ensures
        exists|i: int, k: int|
            0 <= i < n && 0 <= k < docs[i].occurrences.len() && defines(
                #[trigger] docs[i].occurrences[k],
            ) && definitions(docs, corpus, language, n)[p] == definition(
                docs[i],
                docs[i].occurrences[k],
                corpus,
                language,
            ),
    decreases n,
{
    if n > 0 {
        let before = definitions(docs, corpus, language, (n - 1) as nat);
        if p < before.len() {
            lemma_definitions_stem(docs, corpus, language, (n - 1) as nat, p);
        } else {
            let d = docs[n - 1];
            lemma_document_stems(d, corpus, language, d.occurrences.len(), p - before.len());
            let k = choose|k: int|
                0 <= k < d.occurrences.len() && defines(#[trigger] d.occurrences[k])
                    && document_definitions(d, corpus, language, d.occurrences.len())[p
                    - before.len()] == definition(d, d.occurrences[k], corpus, language);
            assert(defines(docs[n - 1].occurrences[k]));
        }
    }
}

proof fn lemma_definition_node(
    d: DocumentView,
    o: OccurrenceView,
    corpus: Seq<char>,
    language: Language,
)
    requires
        defines(o),
    ensures
        ({
            let x = definition_node(definition(d, o, corpus, language), corpus);
            &&& is_node_of(x, corpus, language, d.relative_path, o.symbol)
            &&& has_declared_kind(x, d.symbols, o.symbol)
            &&& o.enclosing_range.len() >= 3 ==> has_lines(x, o.enclosing_range)
            &&& o.enclosing_range.len() < 3 && o.unknown.len() == 0 ==> has_lines(x, o.range)
        }),
{
    lemma_declared_kind(d.symbols, o.symbol);
    assert forall|x: i32| x >= 0 implies #[trigger] one_based(x) == x + 1 by {
    }
}

/// Every occurrence that defines a symbol which can be navigated to has a
/// node: in its file, under its symbol, with the kind that its document gives
/// it, and on the lines of its declaration, or else of its name.
pub proof fn law_definition_becomes_a_node(
    index: IndexView,
    corpus: Seq<char>,
    language: Language,
    i: int,
    k: int,
)
    requires
        0 <= i < index.documents.len(),
        0 <= k < index.documents[i].occurrences.len(),
        defined_at(index, i, k, index.documents[i].occurrences[k].symbol),
    ensures
        ({
            let d = index.documents[i];
            let o = d.occurrences[k];
            let nodes = index_response(index, corpus, language).nodes;
            exists|n: int|
                #![trigger nodes[n]]
                0 <= n < nodes.len() && is_node_of(
                    nodes[n],
                    corpus,
                    language,
                    d.relative_path,
                    o.symbol,
                ) && has_declared_kind(nodes[n], d.symbols, o.symbol) && (o.enclosing_range.len() >= 3
                    ==> has_lines(nodes[n], o.enclosing_range)) && (o.enclosing_range.len() < 3
                    && o.unknown.len() == 0 ==> has_lines(nodes[n], o.range))
        }),
{
    let d = index.documents[i];
    let o = d.occurrences[k];
    let defs = index_definitions(index, corpus, language);
    let nodes = index_response(index, corpus, language).nodes;
    lemma_navigable(o.symbol);
    lemma_definitions_hold(index.documents, corpus, language, index.documents.len(), i, k);
    let n = choose|n: int|
        0 <= n < defs.len() && defs[n] == definition(d, o, corpus, language);
    lemma_definition_node(d, o, corpus, language);
    assert(nodes[n] == definition_node(defs[n], corpus));
}

/// Every node stems from an occurrence that defines its symbol in its file.
pub proof fn law_node_stems_from_a_definition(
    index: IndexView,
    corpus: Seq<char>,
    language: Language,
    n: int,
)
    requires
        0 <= n < index_response(index, corpus, language).nodes.len(),
    ensures
        exists|i: int, k: int|
            #![trigger index.documents[i].occurrences[k]]
            defined_at(index, i, k, index.documents[i].occurrences[k].symbol) && is_node_of(
                index_response(index, corpus, language).nodes[n],
                corpus,
                language,
                index.documents[i].relative_path,
                index.documents[i].occurrences[k].symbol,
            ),
{
    let defs = index_definitions(index, corpus, language);
    lemma_definitions_stem(index.documents, corpus, language, index.documents.len(), n);
    let (i, k) = choose|i: int, k: int|
        0 <= i < index.documents.len() && 0 <= k < index.documents[i].occurrences.len() && defines(
            #[trigger] index.documents[i].occurrences[k],
        ) && defs[n] == definition(
            index.documents[i],
            index.documents[i].occurrences[k],
            corpus,
            language,
        );
    let o = index.documents[i].occurrences[k];
    lemma_navigable(o.symbol);
    lemma_definition_node(index.documents[i], o, corpus, language);
    assert(defined_at(index, i, k, o.symbol));
}

proof fn lemma_found_len(defs: Seq<DefinitionView>, d: DocumentView, language: Language, n: nat)
    ensures
        document_found(defs, d, language, n).len() <= n,
    decreases n,
{
    if n > 0 {
        lemma_found_len(defs, d, language, (n - 1) as nat);
    }
}

proof fn lemma_document_finds(
    defs: Seq<DefinitionView>,
    d: DocumentView,
    language: Language,
    n: nat,
    k: int,
)
    requires
        0 <= k < n <= d.occurrences.len(),
        k < 5000,
        !(resolve(defs, d, d.occurrences[k], language) is Nothing),
    ensures
        document_found(defs, d, language, n).contains(
            resolve(defs, d, d.occurrences[k], language),
        ),
    decreases n,
{
    let now = document_found(defs, d, language, n);
    let before = document_found(defs, d, language, (n - 1) as nat);
    let x = resolve(defs, d, d.occurrences[k], language);
    if k == n - 1 {
        lemma_found_len(defs, d, language, (n - 1) as nat);
        assert(now.last() == x);
    } else {
        lemma_document_finds(defs, d, language, (n - 1) as nat, k);
        let p = choose|p: int| 0 <= p < before.len() && before[p] == x;
        assert(now[p] == x);
    }
}

proof fn lemma_finds(
    defs: Seq<DefinitionView>,
    docs: Seq<DocumentView>,
    language: Language,
    n: nat,
    i: int,
    x: Found,
)
    requires
        0 <= i < n <= docs.len(),
        !(is_c_family(language) && header_path(docs[i].relative_path)),
        document_found(defs, docs[i], language, docs[i].occurrences.len()).contains(x),
    ensures
        found(defs, docs, language, n).contains(x),
    decreases n,
{
    let now = found(defs, docs, language, n);
    let before = found(defs, docs, language, (n - 1) as nat);
    if i == n - 1 {
        let own = document_found(defs, docs[i], language, docs[i].occurrences.len());
        let p = choose|p: int| 0 <= p < own.len() && own[p] == x;
        assert(now[before.len() + p] == x);
    } else {
        lemma_finds(defs, docs, language, (n - 1) as nat, i, x);
        let p = choose|p: int| 0 <= p < before.len() && before[p] == x;
        assert(now[p] == x);
    }
}

proof fn lemma_ref_is_in(f: Seq<Found>, r: RefView)
    requires
        f.contains(Found::Ref(r)),
    ensures
        refs_in(f).contains(r),
    decreases f.len(),
{
    let p = choose|p: int| 0 <= p < f.len() && f[p] == Found::Ref(r);
    let rest = f.drop_last();
    if p == f.len() - 1 {
        assert(refs_in(f).last() == r);
    } else {
        assert(rest[p] == Found::Ref(r));
        lemma_ref_is_in(rest, r);
        let q = choose|q: int| 0 <= q < refs_in(rest).len() && refs_in(rest)[q] == r;
        assert(refs_in(f)[q] == r);
    }
}

proof fn lemma_call_is_in(f: Seq<Found>, c: CallView)
    requires
        f.contains(Found::Call(c)),
    ensures
        calls_in(f).contains(c),
    decreases f.len(),
{
    let p = choose|p: int| 0 <= p < f.len() && f[p] == Found::Call(c);
    let rest = f.drop_last();
    if p == f.len() - 1 {
        assert(calls_in(f).last() == c);
    } else {
        assert(rest[p] == Found::Call(c));
        lemma_call_is_in(rest, c);
        let q = choose|q: int| 0 <= q < calls_in(rest).len() && calls_in(rest)[q] == c;
        assert(calls_in(f)[q] == c);
    }
}

proof fn lemma_canonical_of(
    index: IndexView,
    corpus: Seq<char>,
    language: Language,
    a: int,
    b: int,
    symbol: Seq<char>,
)
    requires
        defined_at(index, a, b, symbol),
    ensures
        ({
            let nodes = index_response(index, corpus, language).nodes;
            canonical(index_definitions(index, corpus, language), symbol) matches Some(id) && exists|
                n: int,
            |
                #![trigger nodes[n]]
                0 <= n < nodes.len() && nodes[n].id == id && is_node_of(
                    nodes[n],
                    corpus,
                    language,
                    nodes[n].path,
                    symbol,
                )
        }),
{
    let defs = index_definitions(index, corpus, language);
    let nodes = index_response(index, corpus, language).nodes;
    lemma_navigable(symbol);
    lemma_definitions_hold(index.documents, corpus, language, index.documents.len(), a, b);
    let d = definition(index.documents[a], index.documents[a].occurrences[b], corpus, language);
    let p = choose|p: int| 0 <= p < defs.len() && defs[p] == d;
    assert(defs[p].symbol == symbol);
    lemma_first_is_defined(defs, symbol, true);
    lemma_first_is_defined(defs, symbol, false);
    let id = canonical(defs, symbol)->0;
    let q = choose|q: int|
        #![trigger defs[q]]
        0 <= q < defs.len() && defs[q].symbol == symbol && defs[q].id == id;
    lemma_definitions_stem(index.documents, corpus, language, index.documents.len(), q);
    let (i, k) = choose|i: int, k: int|
        0 <= i < index.documents.len() && 0 <= k < index.documents[i].occurrences.len() && defines(
            #[trigger] index.documents[i].occurrences[k],
        ) && defs[q] == definition(
            index.documents[i],
            index.documents[i].occurrences[k],
            corpus,
            language,
        );
    lemma_definition_node(
        index.documents[i],
        index.documents[i].occurrences[k],
        corpus,
        language,
    );
    assert(nodes[q] == definition_node(defs[q], corpus));
}

/// Every use of a symbol that the index defines is recorded: an occurrence of
/// it that is no definition, whatever else its roles say, gives a reference
/// from its file and its line to a node of that symbol. C and C++ headers hold
/// no uses, and of a document only so many count.
pub proof fn law_every_use_is_recorded(
    index: IndexView,
    corpus: Seq<char>,
    language: Language,
    i: int,
    k: int,
    a: int,
    b: int,
)
    requires
        0 <= i < index.documents.len(),
        0 <= k < index.documents[i].occurrences.len(),
        k < 5000,
        (index.documents[i].occurrences[k].symbol_roles & 1) == 0,
        index.documents[i].occurrences[k].range.len() > 0,
        index.documents[i].occurrences[k].range[0] >= 0,
        defined_at(index, a, b, index.documents[i].occurrences[k].symbol),
        language != Language::C && language != Language::Cpp || !header_path(
            index.documents[i].relative_path,
        ),
    ensures
        ({
            let d = index.documents[i];
            let o = d.occurrences[k];
            let g = index_response(index, corpus, language);
            exists|r: int, n: int|
                #![trigger g.refs[r], g.nodes[n]]
                0 <= r < g.refs.len() && 0 <= n < g.nodes.len() && g.refs[r].caller_path
                    == d.relative_path && g.refs[r].caller_line == o.range[0] + 1
                    && g.refs[r].is_call && g.refs[r].callee_id == g.nodes[n].id && is_node_of(
                    g.nodes[n],
                    corpus,
                    language,
                    g.nodes[n].path,
                    o.symbol,
                )
        }),
{
    let d = index.documents[i];
    let o = d.occurrences[k];
    let g = index_response(index, corpus, language);
    let defs = index_definitions(index, corpus, language);
    let docs = index.documents;
    lemma_navigable(o.symbol);
    lemma_canonical_of(index, corpus, language, a, b, o.symbol);
    let f = resolve(defs, d, o, language);
    assert(f is Ref);
    let r = f->Ref_0;
    lemma_document_finds(defs, d, language, d.occurrences.len(), k);
    lemma_finds(defs, docs, language, docs.len(), i, f);
    lemma_ref_is_in(found(defs, docs, language, docs.len()), r);
    let p = choose|p: int| 0 <= p < g.refs.len() && g.refs[p] == r;
    let n = choose|n: int|
        #![trigger g.nodes[n]]
        0 <= n < g.nodes.len() && g.nodes[n].id == r.callee_id && is_node_of(
            g.nodes[n],
            corpus,
            language,
            g.nodes[n].path,
            o.symbol,
        );
    assert(g.refs[p].caller_line == o.range[0] + 1) by {
    }
    assert(g.nodes[n].id == g.refs[p].callee_id);
}

proof fn lemma_document_found_stems(
    defs: Seq<DefinitionView>,
    d: DocumentView,
    language: Language,
    n: nat,
    p: int,
)
    requires
        n <= d.occurrences.len(),
        0 <= p < document_found(defs, d, language, n).len(),
    ensures
        exists|k: int|
            0 <= k < n && document_found(defs, d, language, n)[p] == resolve(
                defs,
                d,
                #[trigger] d.occurrences[k],
                language,
            ),
    decreases n,
{
    if n > 0 {
        let before = document_found(defs, d, language, (n - 1) as nat);
        if p < before.len() {
            lemma_document_found_stems(defs, d, language, (n - 1) as nat, p);
        } else {
            assert(document_found(defs, d, language, n)[p] == resolve(
                defs,
                d,
                d.occurrences[n - 1],
                language,
            ));
        }
    }
}

proof fn lemma_found_stems(
    defs: Seq<DefinitionView>,
    docs: Seq<DocumentView>,
    language: Language,
    n: nat,
    p: int,
)
    requires
        n <= docs.len(),
        0 <= p < found(defs, docs, language, n).len(),
    ensures
        exists|i: int, k: int|
            0 <= i < n && 0 <= k < docs[i].occurrences.len() && found(defs, docs, language, n)[p]
                == resolve(defs, docs[i], #[trigger] docs[i].occurrences[k], language),
    decreases n,
{
    if n > 0 {
        let before = found(defs, docs, language, (n - 1) as nat);
        if p < before.len() {
            lemma_found_stems(defs, docs, language, (n - 1) as nat, p);
        } else {
            let d = docs[n - 1];
            let q = p - before.len();
            lemma_document_found_stems(defs, d, language, d.occurrences.len(), q);
            let k = choose|k: int|
                0 <= k < d.occurrences.len() && document_found(
                    defs,
                    d,
                    language,
                    d.occurrences.len(),
                )[q] == resolve(defs, d, #[trigger] d.occurrences[k], language);
            assert(found(defs, docs, language, n)[p] == resolve(
                defs,
                docs[n - 1],
                docs[n - 1].occurrences[k],
                language,
            ));
        }
    }
}

/// Every reference stems from a use: an occurrence in its file, on its line,
/// that has a place and is no definition, of a symbol that the index defines
/// in the node that the reference leads to.
pub proof fn law_reference_stems_from_a_use(
    index: IndexView,
    corpus: Seq<char>,
    language: Language,
    r: int,
)
    requires
        0 <= r < index_response(index, corpus, language).refs.len(),
    ensures
        ({
            let g = index_response(index, corpus, language);
            exists|i: int, k: int, n: int|
                #![trigger index.documents[i].occurrences[k], g.nodes[n]]
                {
                    let d = index.documents[i];
                    let o = d.occurrences[k];
                    &&& 0 <= i < index.documents.len() && 0 <= k < d.occurrences.len()
                    &&& 0 <= n < g.nodes.len()
                    &&& g.refs[r].caller_path == d.relative_path
                    &&& (o.symbol_roles & 1) == 0
                    &&& navigable(o.symbol)
                    &&& o.range.len() > 0 || o.unknown.len() > 0
                    &&& o.range.len() > 0 && o.range[0] >= 0 ==> g.refs[r].caller_line == o.range[0]
                        + 1
                    &&& g.refs[r].callee_id == g.nodes[n].id
                    &&& is_node_of(g.nodes[n], corpus, language, g.nodes[n].path, o.symbol)
                }
        }),
{
    let g = index_response(index, corpus, language);
    let defs = index_definitions(index, corpus, language);
    let docs = index.documents;
    let f = found(defs, docs, language, docs.len());
    lemma_refs_in(f, r);
    let p = choose|p: int| 0 <= p < f.len() && #[trigger] f[p] == Found::Ref(g.refs[r]);
    lemma_found_stems(defs, docs, language, docs.len(), p);
    let (i, k) = choose|i: int, k: int|
        0 <= i < docs.len() && 0 <= k < docs[i].occurrences.len() && f[p] == resolve(
            defs,
            docs[i],
            #[trigger] docs[i].occurrences[k],
            language,
        );
    let o = docs[i].occurrences[k];
    lemma_navigable(o.symbol);
    lemma_first_is_defined(defs, o.symbol, true);
    lemma_first_is_defined(defs, o.symbol, false);
    let id = canonical(defs, o.symbol)->0;
    let q = choose|q: int|
        #![trigger defs[q]]
        0 <= q < defs.len() && defs[q].symbol == o.symbol && defs[q].id == id;
    lemma_definitions_stem(docs, corpus, language, docs.len(), q);
    let (a, b) = choose|a: int, b: int|
        0 <= a < docs.len() && 0 <= b < docs[a].occurrences.len() && defines(
            #[trigger] docs[a].occurrences[b],
        ) && defs[q] == definition(docs[a], docs[a].occurrences[b], corpus, language);
    assert(defined_at(index, a, b, o.symbol));
    lemma_canonical_of(index, corpus, language, a, b, o.symbol);
    let n = choose|n: int|
        #![trigger g.nodes[n]]
        0 <= n < g.nodes.len() && g.nodes[n].id == id && is_node_of(
            g.nodes[n],
            corpus,
            language,
            g.nodes[n].path,
            o.symbol,
        );
    assert(o.range.len() > 0 && o.range[0] >= 0 ==> one_based(o.range[0]) == o.range[0] + 1) by {
    }
    assert(g.nodes[n].id == g.refs[r].callee_id);
}

/// Whether `a` is the home of `symbol`: the first document that defines it
/// outside a header, or where there is none the first that defines it at all.
pub open spec fn is_home(index: IndexView, symbol: Seq<char>, a: int) -> bool {
    &&& defined_in(index, symbol, a)
    &&& if header_path(index.documents[a].relative_path) {
        forall|i: int| #[trigger]
            defined_in(index, symbol, i) ==> i >= a && header_path(
                index.documents[i].relative_path,
            )
    } else {
        forall|i: int| #[trigger]
            defined_in(index, symbol, i) && !header_path(index.documents[i].relative_path) ==> i >= a
    }
}

/// Whether an occurrence of the document `i` defines `symbol`.
pub open spec fn defined_in(index: IndexView, symbol: Seq<char>, i: int) -> bool {
    exists|k: int| defined_at(index, i, k, symbol)
}

proof fn lemma_document_first(
    d: DocumentView,
    corpus: Seq<char>,
    language: Language,
    symbol: Seq<char>,
    source: bool,
    n: nat,
)
    requires
        n <= d.occurrences.len(),
    ensures
        first_definition(document_definitions(d, corpus, language, n), symbol, source) == if !(source
            && header_path(d.relative_path)) && exists|k: int|
            0 <= k < n && defines(#[trigger] d.occurrences[k]) && d.occurrences[k].symbol == symbol {
            Some(
                vname_id(
                    corpus,
                    ""@,
                    d.relative_path,
                    document_language(d.relative_path, language),
                    scip_signature(d.relative_path, symbol),
                ),
            )
        } else {
            None
        },
    decreases n,
{
    if n > 0 {
        lemma_document_first(d, corpus, language, symbol, source, (n - 1) as nat);
        let o = d.occurrences[n - 1];
        let before = document_definitions(d, corpus, language, (n - 1) as nat);
        if defines(o) {
            let x = definition(d, o, corpus, language);
            assert(before.push(x).drop_last() =~= before);
        }
    }
}

proof fn lemma_first_join(
    a: Seq<DefinitionView>,
    b: Seq<DefinitionView>,
    symbol: Seq<char>,
    source: bool,
)
    ensures
        first_definition(a + b, symbol, source) == match first_definition(a, symbol, source) {
            Some(id) => Some(id),
            None => first_definition(b, symbol, source),
        },
    decreases b.len(),
{
    if b.len() == 0 {
        assert(a + b =~= a);
    } else {
        assert((a + b).drop_last() =~= a + b.drop_last());
        lemma_first_join(a, b.drop_last(), symbol, source);
    }
}

proof fn lemma_first_home(
    index: IndexView,
    corpus: Seq<char>,
    language: Language,
    symbol: Seq<char>,
    source: bool,
    n: nat,
    a: int,
)
    requires
        n <= index.documents.len(),
        0 <= a,
        a < n ==> defined_in(index, symbol, a) && !(source && header_path(
            index.documents[a].relative_path,
        )),
        forall|i: int|
            0 <= i < a && i < n && #[trigger] defined_in(index, symbol, i) ==> source && header_path(
                index.documents[i].relative_path,
            ),
    ensures
        first_definition(definitions(index.documents, corpus, language, n), symbol, source)
            == if a < n {
            let d = index.documents[a];
            Some(
                vname_id(
                    corpus,
                    ""@,
                    d.relative_path,
                    document_language(d.relative_path, language),
                    scip_signature(d.relative_path, symbol),
                ),
            )
        } else {
            None
        },
    decreases n,
{
    if n > 0 {
        let d = index.documents[n - 1];
        lemma_first_home(index, corpus, language, symbol, source, (n - 1) as nat, a);
        lemma_document_first(d, corpus, language, symbol, source, d.occurrences.len());
        lemma_first_join(
            definitions(index.documents, corpus, language, (n - 1) as nat),
            document_definitions(d, corpus, language, d.occurrences.len()),
            symbol,
            source,
        );
        lemma_navigable(symbol);
        assert(defined_in(index, symbol, n - 1) == exists|k: int|
            0 <= k < d.occurrences.len() && defines(#[trigger] d.occurrences[k])
                && d.occurrences[k].symbol == symbol) by {
            let at = n - 1;
            if defined_in(index, symbol, at) {
                let k = choose|k: int| defined_at(index, at, k, symbol);
                assert(defines(d.occurrences[k]));
            }
            if exists|k: int|
                0 <= k < d.occurrences.len() && defines(#[trigger] d.occurrences[k])
                    && d.occurrences[k].symbol == symbol {
                let k = choose|k: int|
                    0 <= k < d.occurrences.len() && defines(#[trigger] d.occurrences[k])
                        && d.occurrences[k].symbol == symbol;
                assert(defined_at(index, at, k, symbol));
            }
        }
    }
}

/// Whether the node `n` of a graph is that of `symbol` in its home.
pub open spec fn is_home_node(
    index: IndexView,
    corpus: Seq<char>,
    language: Language,
    symbol: Seq<char>,
    n: int,
) -> bool {
    let nodes = index_response(index, corpus, language).nodes;
    0 <= n < nodes.len() && exists|a: int| #[trigger]
        is_home(index, symbol, a) && is_node_of(
            nodes[n],
            corpus,
            language,
            index.documents[a].relative_path,
            symbol,
        )
}

proof fn lemma_canonical_home(
    index: IndexView,
    corpus: Seq<char>,
    language: Language,
    symbol: Seq<char>,
    a: int,
)
    requires
        is_home(index, symbol, a),
    ensures
        ({
            let d = index.documents[a];
            canonical(index_definitions(index, corpus, language), symbol) == Some(
                vname_id(
                    corpus,
                    ""@,
                    d.relative_path,
                    document_language(d.relative_path, language),
                    scip_signature(d.relative_path, symbol),
                ),
            )
        }),
{
    let n = index.documents.len();
    if header_path(index.documents[a].relative_path) {
        lemma_first_home(index, corpus, language, symbol, true, n, n as int);
        lemma_first_home(index, corpus, language, symbol, false, n, a);
    } else {
        lemma_first_home(index, corpus, language, symbol, true, n, a);
    }
}

proof fn lemma_home_node(
    index: IndexView,
    corpus: Seq<char>,
    language: Language,
    symbol: Seq<char>,
    a: int,
)
    requires
        is_home(index, symbol, a),
    ensures
        ({
            let nodes = index_response(index, corpus, language).nodes;
            canonical(index_definitions(index, corpus, language), symbol) matches Some(id) && exists|
                n: int,
            |
                #![trigger nodes[n]]
                is_home_node(index, corpus, language, symbol, n) && nodes[n].id == id
        }),
{
    let nodes = index_response(index, corpus, language).nodes;
    let defs = index_definitions(index, corpus, language);
    let k = choose|k: int| defined_at(index, a, k, symbol);
    let d = index.documents[a];
    let o = d.occurrences[k];
    lemma_canonical_home(index, corpus, language, symbol, a);
    lemma_navigable(symbol);
    lemma_definitions_hold(index.documents, corpus, language, index.documents.len(), a, k);
    let n = choose|n: int| 0 <= n < defs.len() && defs[n] == definition(d, o, corpus, language);
    lemma_definition_node(d, o, corpus, language);
    assert(nodes[n] == definition_node(defs[n], corpus));
    assert(is_home_node(index, corpus, language, symbol, n));
}

proof fn lemma_home_exists(index: IndexView, symbol: Seq<char>, i: int)
    requires
        defined_in(index, symbol, i),
    ensures
        exists|a: int| is_home(index, symbol, a),
{
    if exists|j: int|
        defined_in(index, symbol, j) && !header_path(
            #[trigger] index.documents[j].relative_path,
        ) {
        let j = choose|j: int|
            defined_in(index, symbol, j) && !header_path(
                #[trigger] index.documents[j].relative_path,
            );
        let p = |x: int|
            defined_in(index, symbol, x) && !header_path(index.documents[x].relative_path);
        let a = lemma_least(p, j);
        assert forall|x: int| #[trigger]
            defined_in(index, symbol, x) && !header_path(
                index.documents[x].relative_path,
            ) implies x >= a by {
            assert(p(x));
        }
        assert(is_home(index, symbol, a));
    } else {
        let p = |x: int| defined_in(index, symbol, x);
        let a = lemma_least(p, i);
        assert forall|x: int| #[trigger] defined_in(index, symbol, x) implies x >= a
            && header_path(index.documents[x].relative_path) by {
            assert(p(x));
            let path = index.documents[x].relative_path;
            assert(header_path(path));
        }
        assert(is_home(index, symbol, a));
    }
}

/// The least number that has a property, where one from zero on has it and
/// none below zero does.
proof fn lemma_least(p: spec_fn(int) -> bool, i: int) -> (a: int)
    requires
        p(i),
        i >= 0,
        forall|x: int| #[trigger] p(x) ==> x >= 0,
    ensures
        p(a),
        a >= 0,
        forall|x: int| #[trigger] p(x) ==> x >= a,
    decreases i,
{
    if exists|x: int| #[trigger] p(x) && x < i {
        let x = choose|x: int| #[trigger] p(x) && x < i;
        lemma_least(p, x)
    } else {
        i
    }
}

/// A use leads to the node of its symbol in the first source that defines it;
/// a header counts only where no source does. Behind nothing but ASCII on its
/// line, its column is kept.
pub proof fn law_use_leads_home(
    index: IndexView,
    corpus: Seq<char>,
    language: Language,
    i: int,
    k: int,
    a: int,
)
    requires
        0 <= i < index.documents.len(),
        0 <= k < index.documents[i].occurrences.len(),
        k < 5000,
        (index.documents[i].occurrences[k].symbol_roles & 1) == 0,
        index.documents[i].occurrences[k].range.len() > 0,
        index.documents[i].occurrences[k].range[0] >= 0,
        is_home(index, index.documents[i].occurrences[k].symbol, a),
        language != Language::C && language != Language::Cpp || !header_path(
            index.documents[i].relative_path,
        ),
    ensures
        ({
            let d = index.documents[i];
            let o = d.occurrences[k];
            let g = index_response(index, corpus, language);
            exists|r: int, n: int|
                #![trigger g.refs[r], g.nodes[n]]
                0 <= r < g.refs.len() && is_home_node(index, corpus, language, o.symbol, n)
                    && g.refs[r].callee_id == g.nodes[n].id && g.refs[r].caller_path
                    == d.relative_path && g.refs[r].caller_line == o.range[0] + 1 && (
                o.range.len() >= 2 && o.range[0] < lines(d.text).len() && 0 <= o.range[1]
                    <= lines(d.text)[o.range[0] as int].len() && (forall|q: int|
                    0 <= q < o.range[1] ==> (
                    #[trigger] lines(d.text)[o.range[0] as int][q] as u32) < 128)
                    ==> g.refs[r].caller_col == Some(o.range[1] as u32))
        }),
{
    let d = index.documents[i];
    let o = d.occurrences[k];
    let g = index_response(index, corpus, language);
    let defs = index_definitions(index, corpus, language);
    let docs = index.documents;
    lemma_navigable(o.symbol);
    lemma_home_node(index, corpus, language, o.symbol, a);
    let f = resolve(defs, d, o, language);
    assert(f is Ref);
    let r = f->Ref_0;
    lemma_document_finds(defs, d, language, d.occurrences.len(), k);
    lemma_finds(defs, docs, language, docs.len(), i, f);
    lemma_ref_is_in(found(defs, docs, language, docs.len()), r);
    let p = choose|p: int| 0 <= p < g.refs.len() && g.refs[p] == r;
    let n = choose|n: int|
        #![trigger g.nodes[n]]
        is_home_node(index, corpus, language, o.symbol, n) && g.nodes[n].id == r.callee_id;
    assert(g.refs[p].caller_line == o.range[0] + 1) by {
    }
    if o.range.len() >= 2 && o.range[0] < lines(d.text).len() && 0 <= o.range[1]
        <= lines(d.text)[o.range[0] as int].len() && (forall|q: int|
        0 <= q < o.range[1] ==> (#[trigger] lines(d.text)[o.range[0] as int][q] as u32) < 128) {
        crate::columns::law_ascii_column_is_kept(
            lines(d.text)[o.range[0] as int],
            o.range[1] as int,
            crate::columns::ColUnit::Unknown,
        );
    }
    assert(g.nodes[n].id == g.refs[p].callee_id);
}

proof fn lemma_symbol_edges_hold(defs: Seq<DefinitionView>, s: SymbolView, n: nat, e: Edge)
    requires
        n <= s.relationships.len(),
    ensures
        symbol_edges(defs, s, n).contains(e) <==> canonical(defs, s.symbol) is Some && exists|q: int|
            0 <= q < n && relationship_edge(
                defs,
                canonical(defs, s.symbol)->0,
                #[trigger] s.relationships[q],
            ) == Some(e),
    decreases n,
{
    if n > 0 {
        lemma_symbol_edges_hold(defs, s, (n - 1) as nat, e);
        let before = symbol_edges(defs, s, (n - 1) as nat);
        let now = symbol_edges(defs, s, n);
        if before.contains(e) {
            let p = choose|p: int| 0 <= p < before.len() && before[p] == e;
            assert(now[p] == e);
        }
        if canonical(defs, s.symbol) is Some {
            let x = relationship_edge(defs, canonical(defs, s.symbol)->0, s.relationships[n - 1]);
            if x == Some(e) {
                assert(now[now.len() - 1] == e);
            } else if now.contains(e) {
                let p = choose|p: int| 0 <= p < now.len() && now[p] == e;
                assert(before[p] == e);
            }
        }
    }
}

proof fn lemma_document_edges_hold(defs: Seq<DefinitionView>, d: DocumentView, n: nat, e: Edge)
    requires
        n <= d.symbols.len(),
    ensures
        document_edges(defs, d, n).contains(e) <==> exists|j: int|
            0 <= j < n && symbol_edges(
                defs,
                #[trigger] d.symbols[j],
                d.symbols[j].relationships.len(),
            ).contains(e),
    decreases n,
{
    if n > 0 {
        lemma_document_edges_hold(defs, d, (n - 1) as nat, e);
        let before = document_edges(defs, d, (n - 1) as nat);
        let now = document_edges(defs, d, n);
        let s = d.symbols[n - 1];
        let own = symbol_edges(defs, s, s.relationships.len());
        if before.contains(e) {
            let p = choose|p: int| 0 <= p < before.len() && before[p] == e;
            assert(now[p] == e);
        }
        if own.contains(e) {
            let p = choose|p: int| 0 <= p < own.len() && own[p] == e;
            assert(now[before.len() + p] == e);
        }
        if now.contains(e) {
            let p = choose|p: int| 0 <= p < now.len() && now[p] == e;
            if p < before.len() {
                assert(before[p] == e);
            } else {
                assert(own[p - before.len()] == e);
                assert(symbol_edges(
                    defs,
                    d.symbols[n - 1],
                    d.symbols[n - 1].relationships.len(),
                ).contains(e));
            }
        }
    }
}

proof fn lemma_edges_hold(defs: Seq<DefinitionView>, docs: Seq<DocumentView>, n: nat, e: Edge)
    requires
        n <= docs.len(),
    ensures
        edges(defs, docs, n).contains(e) <==> exists|i: int|
            0 <= i < n && document_edges(defs, #[trigger] docs[i], docs[i].symbols.len()).contains(
                e,
            ),
    decreases n,
{
    if n > 0 {
        lemma_edges_hold(defs, docs, (n - 1) as nat, e);
        let before = edges(defs, docs, (n - 1) as nat);
        let now = edges(defs, docs, n);
        let own = document_edges(defs, docs[n - 1], docs[n - 1].symbols.len());
        if before.contains(e) {
            let p = choose|p: int| 0 <= p < before.len() && before[p] == e;
            assert(now[p] == e);
        }
        if own.contains(e) {
            let p = choose|p: int| 0 <= p < own.len() && own[p] == e;
            assert(now[before.len() + p] == e);
        }
        if now.contains(e) {
            let p = choose|p: int| 0 <= p < now.len() && now[p] == e;
            if p < before.len() {
                assert(before[p] == e);
            } else {
                assert(own[p - before.len()] == e);
                assert(document_edges(defs, docs[n - 1], docs[n - 1].symbols.len()).contains(e));
            }
        }
    }
}

/// The relationships between defined symbols are the edges of a graph, and
/// there are no others: one that is a reference gives a call from the node of
/// the symbol that has it to that of the other, one that is only an
/// implementation gives an implementation.
pub proof fn law_edges_are_the_relationships(
    index: IndexView,
    corpus: Seq<char>,
    language: Language,
    e: Edge,
)
    ensures
        index_response(index, corpus, language).edges.contains(e) <==> exists|i: int, j: int, q: int|
            #![trigger index.documents[i].symbols[j].relationships[q]]
            gives_edge(index, corpus, language, i, j, q, e),
{
    let defs = index_definitions(index, corpus, language);
    let docs = index.documents;
    let g = index_response(index, corpus, language);
    lemma_edges_hold(defs, docs, docs.len(), e);
    if g.edges.contains(e) {
        let i = choose|i: int|
            0 <= i < docs.len() && document_edges(
                defs,
                #[trigger] docs[i],
                docs[i].symbols.len(),
            ).contains(e);
        lemma_document_edges_hold(defs, docs[i], docs[i].symbols.len(), e);
        let j = choose|j: int|
            0 <= j < docs[i].symbols.len() && symbol_edges(
                defs,
                #[trigger] docs[i].symbols[j],
                docs[i].symbols[j].relationships.len(),
            ).contains(e);
        let s = docs[i].symbols[j];
        lemma_symbol_edges_hold(defs, s, s.relationships.len(), e);
        let q = choose|q: int|
            0 <= q < s.relationships.len() && relationship_edge(
                defs,
                canonical(defs, s.symbol)->0,
                #[trigger] s.relationships[q],
            ) == Some(e);
        let r = s.relationships[q];
        lemma_canonical_node(index, corpus, language, s.symbol);
        lemma_canonical_node(index, corpus, language, r.symbol);
        assert(canonical(defs, s.symbol) == Some(e.src));
        assert(canonical(defs, r.symbol) == Some(e.dst));
        assert(gives_edge(index, corpus, language, i, j, q, e));
        assert(index.documents[i].symbols[j].relationships[q] == r);
    }
    if exists|i: int, j: int, q: int|
        #![trigger index.documents[i].symbols[j].relationships[q]]
        gives_edge(index, corpus, language, i, j, q, e) {
        let (i, j, q) = choose|i: int, j: int, q: int|
            #![trigger index.documents[i].symbols[j].relationships[q]]
            gives_edge(index, corpus, language, i, j, q, e);
        let s = docs[i].symbols[j];
        let r = s.relationships[q];
        let a = choose|a: int| is_home_id(index, corpus, language, s.symbol, e.src, a);
        let b = choose|b: int| is_home_id(index, corpus, language, r.symbol, e.dst, b);
        lemma_home_id(index, corpus, language, s.symbol, e.src, a);
        lemma_home_id(index, corpus, language, r.symbol, e.dst, b);
        assert(r.symbol.len() > 0);
        assert(relationship_edge(defs, canonical(defs, s.symbol)->0, s.relationships[q]) == Some(e));
        lemma_symbol_edges_hold(defs, s, s.relationships.len(), e);
        lemma_document_edges_hold(defs, docs[i], docs[i].symbols.len(), e);
    }
}

/// Whether `id` is the identifier of `symbol` in its home, the document `a`.
pub open spec fn is_home_id(
    index: IndexView,
    corpus: Seq<char>,
    language: Language,
    symbol: Seq<char>,
    id: u64,
    a: int,
) -> bool {
    is_home(index, symbol, a) && exists|x: NodeView| #[trigger]
        is_node_of(x, corpus, language, index.documents[a].relative_path, symbol) && x.language
            == document_language(index.documents[a].relative_path, language) && x.id == id
}

proof fn lemma_home_id(
    index: IndexView,
    corpus: Seq<char>,
    language: Language,
    symbol: Seq<char>,
    id: u64,
    a: int,
)
    requires
        is_home_id(index, corpus, language, symbol, id, a),
    ensures
        canonical(index_definitions(index, corpus, language), symbol) == Some(id),
{
    lemma_canonical_home(index, corpus, language, symbol, a);
}

proof fn lemma_canonical_node(
    index: IndexView,
    corpus: Seq<char>,
    language: Language,
    symbol: Seq<char>,
)
    ensures
        canonical(index_definitions(index, corpus, language), symbol) matches Some(id) ==> exists|
            a: int,
        |
            is_home_id(index, corpus, language, symbol, id, a),
{
    let defs = index_definitions(index, corpus, language);
    let docs = index.documents;
    if canonical(defs, symbol) is Some {
        let id = canonical(defs, symbol)->0;
        lemma_first_is_defined(defs, symbol, true);
        lemma_first_is_defined(defs, symbol, false);
        let p = choose|p: int|
            #![trigger defs[p]]
            0 <= p < defs.len() && defs[p].symbol == symbol;
        lemma_definitions_stem(docs, corpus, language, docs.len(), p);
        let (i, k) = choose|i: int, k: int|
            0 <= i < docs.len() && 0 <= k < docs[i].occurrences.len() && defines(
                #[trigger] docs[i].occurrences[k],
            ) && defs[p] == definition(docs[i], docs[i].occurrences[k], corpus, language);
        lemma_navigable(symbol);
        assert(defined_at(index, i, k, symbol));
        assert(defined_in(index, symbol, i));
        lemma_home_exists(index, symbol, i);
        let a = choose|a: int| is_home(index, symbol, a);
        lemma_canonical_home(index, corpus, language, symbol, a);
        let c = choose|c: int| defined_at(index, a, c, symbol);
        let x = definition_node(
            definition(docs[a], docs[a].occurrences[c], corpus, language),
            corpus,
        );
        lemma_definition_node(docs[a], docs[a].occurrences[c], corpus, language);
        assert(is_node_of(x, corpus, language, docs[a].relative_path, symbol));
        assert(is_home_id(index, corpus, language, symbol, id, a));
    }
}

/// Whether the relationship `q` of the symbol `j` of the document `i` is the
/// edge `e`: from the one symbol's home to the other's.
pub open spec fn gives_edge(
    index: IndexView,
    corpus: Seq<char>,
    language: Language,
    i: int,
    j: int,
    q: int,
    e: Edge,
) -> bool {
    &&& 0 <= i < index.documents.len()
    &&& 0 <= j < index.documents[i].symbols.len()
    &&& 0 <= q < index.documents[i].symbols[j].relationships.len()
    &&& ({
        let s = index.documents[i].symbols[j];
        let r = s.relationships[q];
        &&& exists|a: int| is_home_id(index, corpus, language, s.symbol, e.src, a)
        &&& exists|b: int| is_home_id(index, corpus, language, r.symbol, e.dst, b)
        &&& r.is_reference ==> e.kind == EdgeKind::RefCall
        &&& !r.is_reference ==> r.is_implementation && e.kind == EdgeKind::IsImplementation
    })
}

/// The kinds of the SCIP schema, by the name of the nodes that they give; any
/// other number gives a `definition`.
pub proof fn law_kinds_of_nodes(kind: i32)
    ensures
        ({
            let class = seq![7i32, 11, 21, 49, 53, 56, 75, 84, 85];
            let function = seq![17i32, 18, 26, 34, 45, 47, 66, 67, 69, 70, 71, 72, 74, 76, 80];
            let field = seq![4i32, 15, 77, 79, 81];
            let variable = seq![8i32, 12, 37, 61, 82];
            let module = seq![16i32, 29, 30, 35, 36];
            let ty = seq![3i32, 54, 55, 57, 58, 59];
            let name = kind_name(kind);
            &&& class.contains(kind) ==> name == "class"@
            &&& function.contains(kind) ==> name == "function"@
            &&& kind == 9 ==> name == "constructor"@
            &&& field.contains(kind) ==> name == "field"@
            &&& variable.contains(kind) ==> name == "variable"@
            &&& module.contains(kind) ==> name == "module"@
            &&& ty.contains(kind) ==> name == "type"@
            &&& kind == 25 ==> name == "macro"@
            &&& !class.contains(kind) && !function.contains(kind) && kind != 9 && !field.contains(kind)
                && !variable.contains(kind) && !module.contains(kind) && !ty.contains(kind) && kind
                != 25 ==> name == "definition"@
        }),
{
    let c = seq![7i32, 11, 21, 49, 53, 56, 75, 84, 85];
    let f = seq![17i32, 18, 26, 34, 45, 47, 66, 67, 69, 70, 71, 72, 74, 76, 80];
    let d = seq![4i32, 15, 77, 79, 81];
    let v = seq![8i32, 12, 37, 61, 82];
    let m = seq![16i32, 29, 30, 35, 36];
    let t = seq![3i32, 54, 55, 57, 58, 59];
    assert(c[0] == 7 && c[1] == 11 && c[2] == 21 && c[3] == 49 && c[4] == 53 && c[5] == 56 && c[6]
        == 75 && c[7] == 84 && c[8] == 85);
    assert(f[0] == 17 && f[1] == 18 && f[2] == 26 && f[3] == 34 && f[4] == 45 && f[5] == 47 && f[6]
        == 66 && f[7] == 67 && f[8] == 69 && f[9] == 70 && f[10] == 71 && f[11] == 72 && f[12] == 74
        && f[13] == 76 && f[14] == 80);
    assert(d[0] == 4 && d[1] == 15 && d[2] == 77 && d[3] == 79 && d[4] == 81);
    assert(v[0] == 8 && v[1] == 12 && v[2] == 37 && v[3] == 61 && v[4] == 82);
    assert(m[0] == 16 && m[1] == 29 && m[2] == 30 && m[3] == 35 && m[4] == 36);
    assert(t[0] == 3 && t[1] == 54 && t[2] == 55 && t[3] == 57 && t[4] == 58 && t[5] == 59);
}

/// A header is told by what its name ends with, in capitals or not; the other
/// sources of C and C++ are none.
pub proof fn law_headers_by_extension(stem: Seq<char>)
    ensures
        header_path(stem + ".h"@),
        header_path(stem + ".H"@),
        header_path(stem + ".hh"@),
        header_path(stem + ".hpp"@),
        header_path(stem + ".HPP"@),
        header_path(stem + ".hxx"@),
        !header_path(stem + ".c"@),
        !header_path(stem + ".cc"@),
        !header_path(stem + ".cpp"@),
        !header_path(stem + ".cxx"@),
        !header_path(stem + ".m"@),
{
    reveal_strlit(".h");
    reveal_strlit(".H");
    reveal_strlit(".hh");
    reveal_strlit(".hpp");
    reveal_strlit(".HPP");
    reveal_strlit(".hxx");
    reveal_strlit(".c");
    reveal_strlit(".cc");
    reveal_strlit(".cpp");
    reveal_strlit(".cxx");
    reveal_strlit(".m");
    let n = stem.len() as int;
    assert(ascii_lower(stem + ".h"@).skip(n) =~= ".h"@);
    assert(ascii_lower(stem + ".H"@).skip(n) =~= ".h"@);
    assert(ascii_lower(stem + ".hh"@).skip(n) =~= ".hh"@);
    assert(ascii_lower(stem + ".hpp"@).skip(n) =~= ".hpp"@);
    assert(ascii_lower(stem + ".HPP"@).skip(n) =~= ".hpp"@);
    assert(ascii_lower(stem + ".hxx"@).skip(n) =~= ".hxx"@);
    lemma_ends_apart(stem + ".c"@, 'c');
    lemma_ends_apart(stem + ".cc"@, 'c');
    lemma_ends_apart(stem + ".m"@, 'm');
    let p = ascii_lower(stem + ".cpp"@);
    assert(p.len() == n + 4 && p[n + 1] == 'c' && p[n + 3] == 'p');
    assert(!ends_with(p, ".hpp"@)) by {
        if ends_with(p, ".hpp"@) {
            assert(p.skip(p.len() - 4)[1] == p[n + 1]);
        }
    }
    assert(!ends_with(p, ".h"@) && !ends_with(p, ".hh"@) && !ends_with(p, ".hxx"@)) by {
        if ends_with(p, ".h"@) {
            assert(p.skip(p.len() - 2)[1] == p[n + 3]);
        }
        if ends_with(p, ".hh"@) {
            assert(p.skip(p.len() - 3)[2] == p[n + 3]);
        }
        if ends_with(p, ".hxx"@) {
            assert(p.skip(p.len() - 4)[3] == p[n + 3]);
        }
    }
    let q = ascii_lower(stem + ".cxx"@);
    assert(q.len() == n + 4 && q[n + 1] == 'c' && q[n + 3] == 'x');
    assert(!ends_with(q, ".hxx"@)) by {
        if ends_with(q, ".hxx"@) {
            assert(q.skip(q.len() - 4)[1] == q[n + 1]);
        }
    }
    assert(!ends_with(q, ".h"@) && !ends_with(q, ".hh"@) && !ends_with(q, ".hpp"@)) by {
        if ends_with(q, ".h"@) {
            assert(q.skip(q.len() - 2)[1] == q[n + 3]);
        }
        if ends_with(q, ".hh"@) {
            assert(q.skip(q.len() - 3)[2] == q[n + 3]);
        }
        if ends_with(q, ".hpp"@) {
            assert(q.skip(q.len() - 4)[3] == q[n + 3]);
        }
    }
}

proof fn lemma_ends_apart(path: Seq<char>, c: char)
    requires
        path.len() > 0,
        path.last() == c,
        c == 'c' || c == 'm',
    ensures
        !header_path(path),
{
    reveal_strlit(".h");
    reveal_strlit(".hh");
    reveal_strlit(".hpp");
    reveal_strlit(".hxx");
    let p = ascii_lower(path);
    assert(p[p.len() - 1] == c);
    if ends_with(p, ".h"@) {
        assert(p.skip(p.len() - 2)[1] == p[p.len() - 1]);
    }
    if ends_with(p, ".hh"@) {
        assert(p.skip(p.len() - 3)[2] == p[p.len() - 1]);
    }
    if ends_with(p, ".hpp"@) {
        assert(p.skip(p.len() - 4)[3] == p[p.len() - 1]);
    }
    if ends_with(p, ".hxx"@) {
        assert(p.skip(p.len() - 4)[3] == p[p.len() - 1]);
    }
}

/// The language of a C or C++ document is that of its extension, whichever of
/// the two the pass is for; where the extension tells none it is that of the
/// pass.
pub proof fn law_c_documents_are_told_by_extension(
    stem: Seq<char>,
    ext: Seq<char>,
    language: Language,
)
    requires
        forall|i: int| 0 <= i < ext.len() ==> (#[trigger] ext[i]) != '.',
    ensures
        ({
            let path = stem + "."@ + ext;
            &&& language != Language::C && language != Language::Cpp ==> document_language(
                path,
                language,
            ) == language.name()
            &&& (language == Language::C || language == Language::Cpp) && extension_name(
                ext,
            ) is None ==> document_language(path, language) == language.name()
            &&& (language == Language::C || language == Language::Cpp) && extension_name(
                ext,
            ) is Some ==> document_language(path, language) == extension_name(ext)->0
        }),
{
    reveal_strlit(".");
    let path = stem + "."@ + ext;
    lemma_find_last_dot(stem, ext);
    assert(path.skip(stem.len() as int + 1) =~= ext);
}

proof fn lemma_find_last_dot(stem: Seq<char>, ext: Seq<char>)
    requires
        forall|i: int| 0 <= i < ext.len() ==> (#[trigger] ext[i]) != '.',
    ensures
        crate::text::find_last(stem + seq!['.'] + ext, '.') == stem.len(),
        "."@ == seq!['.'],
    decreases ext.len(),
{
    reveal_strlit(".");
    assert("."@ =~= seq!['.']);
    let path = stem + seq!['.'] + ext;
    if ext.len() == 0 {
        assert(path.last() == '.');
    } else {
        assert(path.last() == ext[ext.len() - 1]);
        assert(path.drop_last() =~= stem + seq!['.'] + ext.drop_last());
        lemma_find_last_dot(stem, ext.drop_last());
    }
}

/// A text that the index holds of a document comes before what was read of its
/// file, and nothing else of the document changes.
pub proof fn law_inlined_text_comes_first(index: IndexView, sources: Seq<Option<String>>, i: int)
    requires
        0 <= i < index.documents.len(),
    ensures
        ({
            let all = with_texts(index, sources);
            let d = all.documents[i];
            let was = index.documents[i];
            &&& all.documents.len() == index.documents.len()
            &&& was.text.len() > 0 ==> d.text == was.text
            &&& was.text.len() == 0 && i < sources.len() && sources[i] is Some ==> d.text
                == sources[i]->0@
            &&& i >= sources.len() || sources[i] is None ==> d.text == was.text
            &&& d.relative_path == was.relative_path && d.occurrences == was.occurrences && d.symbols
                == was.symbols
        }),
{
}

/// The root of a project is a path, or the address of one as a file.
pub proof fn law_root_is_a_path_or_its_address(path: Seq<char>)
    ensures
        root_directory("file://"@ + path) == path,
        !(path.len() > 0 && path[0] == 'f') ==> root_directory(path) == path,
{
    reveal_strlit("file://");
    let address = "file://"@ + path;
    assert(address.take(7) =~= "file://"@);
    assert(address.skip(7) =~= path);
    if path.len() >= 7 && path[0] != 'f' {
        assert(path.take(7)[0] == path[0]);
    }
}

/// Whether `symbol` is the method of a class whose selector starts with the
/// keyword `name`: the last word of it is the class, a hash sign, the selector
/// and the mark of a method.
pub open spec fn is_method_named(symbol: Seq<char>, name: Seq<char>) -> bool {
    exists|head: Seq<char>, class: Seq<char>, tick: Seq<char>, rest: Seq<char>|
        is_method_of(symbol, head, class, tick, name, rest)
}

/// Whether `symbol` is made up of these parts: the words before the last one,
/// a class, a backtick or none, the first keyword of a selector, and what else
/// there is of the selector.
pub open spec fn is_method_of(
    symbol: Seq<char>,
    head: Seq<char>,
    class: Seq<char>,
    tick: Seq<char>,
    name: Seq<char>,
    rest: Seq<char>,
) -> bool {
    let word = class + seq!['#'] + (tick + name + rest) + seq!['(', ')', '.'];
    &&& symbol == head + seq![' '] + word
    &&& tick.len() == 0 || tick == seq!['`']
    &&& name.len() > 0
    &&& forall|i: int| 0 <= i < word.len() ==> !crate::text::is_white(#[trigger] word[i])
    &&& forall|i: int|
        0 <= i < name.len() ==> (#[trigger] name[i]) != '#' && name[i] != ':' && name[i] != '`'
    &&& forall|i: int| 0 <= i < rest.len() ==> (#[trigger] rest[i]) != '#'
    &&& rest.len() > 0 ==> rest[0] == ':'
}

proof fn lemma_last_word_of(head: Seq<char>, word: Seq<char>)
    requires
        word.len() > 0,
        forall|i: int| 0 <= i < word.len() ==> !crate::text::is_white(#[trigger] word[i]),
    ensures
        last_word(head + seq![' '] + word) == Some(word),
{
    let s = head + seq![' '] + word;
    assert(s.last() == word[word.len() - 1]);
    assert(crate::text::trim_end(s) == s);
    lemma_after_white_of(head + seq![' '], word);
    assert((head + seq![' ']).last() == ' ');
}

proof fn lemma_after_white_of(head: Seq<char>, word: Seq<char>)
    requires
        head.len() > 0,
        crate::text::is_white(head.last()),
        forall|i: int| 0 <= i < word.len() ==> !crate::text::is_white(#[trigger] word[i]),
    ensures
        crate::text::after_white(head + word) == word,
    decreases word.len(),
{
    let s = head + word;
    if word.len() == 0 {
        assert(s =~= head);
    } else {
        assert(s.last() == word[word.len() - 1]);
        assert(s.drop_last() =~= head + word.drop_last());
        lemma_after_white_of(head, word.drop_last());
        assert(word.drop_last().push(word.last()) =~= word);
    }
}

proof fn lemma_find_last_of(a: Seq<char>, c: char, b: Seq<char>)
    requires
        forall|i: int| 0 <= i < b.len() ==> (#[trigger] b[i]) != c,
    ensures
        crate::text::find_last(a + seq![c] + b, c) == a.len(),
    decreases b.len(),
{
    let s = a + seq![c] + b;
    if b.len() == 0 {
        assert(s.last() == c);
    } else {
        assert(s.last() == b[b.len() - 1]);
        assert(s.drop_last() =~= a + seq![c] + b.drop_last());
        lemma_find_last_of(a, c, b.drop_last());
    }
}

/// The name under which a method is looked up outside the index is the first
/// keyword of its selector.
pub proof fn law_method_is_looked_up_by_keyword(symbol: Seq<char>, name: Seq<char>)
    requires
        is_method_named(symbol, name),
    ensures
        keyword_signature(symbol) == Some("fn:"@ + name),
{
    let (head, class, tick, rest) = choose|
        head: Seq<char>,
        class: Seq<char>,
        tick: Seq<char>,
        rest: Seq<char>,
    |
        is_method_of(symbol, head, class, tick, name, rest);
    let selector = tick + name + rest;
    let word = class + seq!['#'] + selector + seq!['(', ')', '.'];
    lemma_last_word_of(head, word);
    reveal_strlit("().");
    assert("()."@ =~= seq!['(', ')', '.']);
    assert(word.skip(word.len() - 3) =~= "()."@);
    let body = word.take(word.len() - 3);
    assert(body =~= class + seq!['#'] + selector);
    assert forall|i: int| 0 <= i < selector.len() implies (#[trigger] selector[i]) != '#' by {
        if i < tick.len() {
        } else if i < tick.len() + name.len() {
            assert(selector[i] == name[i - tick.len()]);
        } else {
            assert(selector[i] == rest[i - tick.len() - name.len()]);
        }
    }
    lemma_find_last_of(class, '#', selector);
    assert(body.skip(class.len() as int + 1) =~= selector);
    let key = tick + name;
    assert(crate::text::is_first(selector, ':', key.len() as int)) by {
        assert forall|j: int| 0 <= j < key.len() implies selector[j] != ':' by {
            if j >= tick.len() {
                assert(selector[j] == name[j - tick.len()]);
            }
        }
        if rest.len() > 0 {
            assert(selector[key.len() as int] == rest[0]);
        } else {
            assert(selector =~= key);
        }
    }
    crate::text::lemma_find_unique(selector, ':', key.len() as int);
    assert(selector.take(key.len() as int) =~= key);
    assert(crate::text::strip_start(key, '`') == name) by {
        if tick.len() > 0 {
            assert(key[0] == '`');
            assert(key.skip(1) =~= name);
            assert(name[0] != '`');
            assert(crate::text::strip_start(name, '`') == name);
        } else {
            assert(key =~= name);
            assert(name[0] != '`');
        }
    }
    assert(name[name.len() - 1] != '`');
    assert(crate::text::strip_end(name, '`') == name);
}

/// Whether the node `x` stands in the file `path` and spans `line`.
pub open spec fn node_spans(x: NodeView, path: Seq<char>, line: int) -> bool {
    x.path == path && (x.line matches Some(a) && x.end_line matches Some(b) && a <= line <= b)
}

/// Every message of an Objective-C source to a method that the index does not
/// define is kept as a call to be looked up elsewhere, under the first keyword
/// of its selector; it leaves from the node of its file that spans its line
/// with the fewest lines.
pub proof fn law_foreign_call_is_kept(
    index: IndexView,
    corpus: Seq<char>,
    i: int,
    k: int,
    name: Seq<char>,
    m: int,
)
    requires
        0 <= i < index.documents.len(),
        0 <= k < index.documents[i].occurrences.len(),
        k < 5000,
        (index.documents[i].occurrences[k].symbol_roles & 1) == 0,
        index.documents[i].occurrences[k].range.len() > 0,
        index.documents[i].occurrences[k].range[0] >= 0,
        navigable(index.documents[i].occurrences[k].symbol),
        is_method_named(index.documents[i].occurrences[k].symbol, name),
        forall|a: int| !defined_in(index, index.documents[i].occurrences[k].symbol, a),
        0 <= m < index_response(index, corpus, Language::ObjectiveC).nodes.len(),
        node_spans(
            index_response(index, corpus, Language::ObjectiveC).nodes[m],
            index.documents[i].relative_path,
            index.documents[i].occurrences[k].range[0] + 1,
        ),
    ensures
        ({
            let d = index.documents[i];
            let line = d.occurrences[k].range[0] + 1;
            let g = index_response(index, corpus, Language::ObjectiveC);
            exists|c: int, n: int|
                #![trigger g.unresolved_calls[c], g.nodes[n]]
                0 <= c < g.unresolved_calls.len() && 0 <= n < g.nodes.len()
                    && g.unresolved_calls[c].callee_sig == "fn:"@ + name
                    && g.unresolved_calls[c].caller_line == line && g.unresolved_calls[c].src
                    == g.nodes[n].id && node_spans(g.nodes[n], d.relative_path, line)
                    && g.nodes[n].end_line->0 - g.nodes[n].line->0 <= g.nodes[m].end_line->0
                    - g.nodes[m].line->0
        }),
{
    let language = Language::ObjectiveC;
    let d = index.documents[i];
    let o = d.occurrences[k];
    let g = index_response(index, corpus, language);
    let defs = index_definitions(index, corpus, language);
    let docs = index.documents;
    lemma_navigable(o.symbol);
    law_method_is_looked_up_by_keyword(o.symbol, name);
    let line = one_based(o.range[0]);
    assert(line == o.range[0] + 1) by {
    }
    if canonical(defs, o.symbol) is Some {
        let id = canonical(defs, o.symbol)->0;
        lemma_canonical_node(index, corpus, language, o.symbol);
        let a = choose|a: int| is_home_id(index, corpus, language, o.symbol, id, a);
        assert(defined_in(index, o.symbol, a));
    }
    assert(g.nodes[m] == definition_node(defs[m], corpus));
    lemma_innermost(defs, d.relative_path, line);
    assert(spans(defs[m], d.relative_path, line));
    let best = innermost(defs, d.relative_path, line)->0;
    let n = choose|n: int| 0 <= n < defs.len() && #[trigger] defs[n] == best;
    lemma_sound(docs, corpus, language, docs.len());
    assert(g.nodes[n] == definition_node(defs[n], corpus));
    let f = resolve(defs, d, o, language);
    assert(f is Call);
    lemma_document_finds(defs, d, language, d.occurrences.len(), k);
    lemma_finds(defs, docs, language, docs.len(), i, f);
    lemma_call_is_in(found(defs, docs, language, docs.len()), f->Call_0);
    let c = choose|c: int| 0 <= c < g.unresolved_calls.len() && g.unresolved_calls[c] == f->Call_0;
    assert(g.unresolved_calls[c].src == g.nodes[n].id);
}

} // verus!
