//! The output of the Swift and Dart emitters: documents with definitions,
//! references and inheritances, and the graphs made of them.
use vstd::hash_map::StringHashMap;
use vstd::prelude::*;
use vstd::string::*;
use crate::columns::{
    file_col, keeps_ascii_column, law_file_column_is_kept, ColUnit, SourceCache,
};
use crate::graph::{
    group_views_push, name_id, node, node_view, node_views, ref_views, vname_id, Edge, EdgeKind,
    InvokeResponse, Node, NodeView, PluginDiagnostic, RefView, ResponseView, ScipRef,
    UnresolvedCall,
};
use crate::json::{
    integer_of, items_member, items_of, json_bool, json_i64, json_items, json_member, json_text,
    json_u64, json_value, member, natural_of, parse_json, text_at_key, text_member, text_of, truth_of,
};
use crate::text::copy_text;

verus! {

/// A definition that an emitter found.
#[derive(Debug)]
pub struct EmitterDef {
    pub symbol: String,
    pub kind: String,
    /// Counted from one.
    pub line: u32,
    pub end_line: Option<u32>,
}

/// What an `EmitterDef` holds.
pub struct EmitterDefView {
    pub symbol: Seq<char>,
    pub kind: Seq<char>,
    pub line: u32,
    pub end_line: Option<u32>,
}

impl View for EmitterDef {
    type V = EmitterDefView;

    open spec fn view(&self) -> EmitterDefView {
        EmitterDefView {
            symbol: self.symbol@,
            kind: self.kind@,
            line: self.line,
            end_line: self.end_line,
        }
    }
}

/// A use of a symbol that an emitter found.
#[derive(Debug)]
pub struct EmitterRef {
    pub symbol: String,
    /// Counted from one.
    pub line: Option<u32>,
    pub is_call: bool,
    pub col: Option<i32>,
}

/// What an `EmitterRef` holds.
pub struct EmitterRefView {
    pub symbol: Seq<char>,
    pub line: Option<u32>,
    pub is_call: bool,
    pub col: Option<i32>,
}

impl View for EmitterRef {
    type V = EmitterRefView;

    open spec fn view(&self) -> EmitterRefView {
        EmitterRefView {
            symbol: self.symbol@,
            line: self.line,
            is_call: self.is_call,
            col: self.col,
        }
    }
}

/// A type and the type that it extends or conforms to.
#[derive(Debug)]
pub struct Inheritance {
    pub child: String,
    pub parent: String,
}

/// What an `Inheritance` holds.
pub struct InheritanceView {
    pub child: Seq<char>,
    pub parent: Seq<char>,
}

impl View for Inheritance {
    type V = InheritanceView;

    open spec fn view(&self) -> InheritanceView {
        InheritanceView { child: self.child@, parent: self.parent@ }
    }
}

/// A source file and what an emitter found in it.
#[derive(Debug)]
pub struct EmitterDoc {
    pub path: String,
    pub definitions: Vec<EmitterDef>,
    pub references: Vec<EmitterRef>,
    pub inheritances: Vec<Inheritance>,
}

/// What an `EmitterDoc` holds.
pub struct EmitterDocView {
    pub path: Seq<char>,
    pub definitions: Seq<EmitterDefView>,
    pub references: Seq<EmitterRefView>,
    pub inheritances: Seq<InheritanceView>,
}

impl View for EmitterDoc {
    type V = EmitterDocView;

    open spec fn view(&self) -> EmitterDocView {
        EmitterDocView {
            path: self.path@,
            definitions: self.definitions@.map_values(|d: EmitterDef| d@),
            references: self.references@.map_values(|r: EmitterRef| r@),
            inheritances: self.inheritances@.map_values(|i: Inheritance| i@),
        }
    }
}

/// The output of an emitter.
#[derive(Debug)]
pub struct EmitterIndex {
    pub col_unit: ColUnit,
    pub documents: Vec<EmitterDoc>,
}

/// What an `EmitterIndex` holds.
pub struct EmitterIndexView {
    pub col_unit: ColUnit,
    pub documents: Seq<EmitterDocView>,
}

impl View for EmitterIndex {
    type V = EmitterIndexView;

    open spec fn view(&self) -> EmitterIndexView {
        EmitterIndexView {
            col_unit: self.col_unit,
            documents: self.documents@.map_values(|d: EmitterDoc| d@),
        }
    }
}

/// Why the output of an emitter cannot be read.
#[derive(Debug, Clone, Copy, PartialEq, Eq, Structural)]
pub enum EmitterError {
    /// It is no JSON.
    NotJson,
    /// It has no array of documents.
    NoDocuments,
}

/// A definition, as JSON has it. A missing symbol is empty, a missing kind is
/// `definition`, a missing line is zero.
pub open spec fn json_def(v: serde_json::Value) -> EmitterDefView {
    EmitterDefView {
        symbol: text_member(v, "symbol"@, ""@),
        kind: text_member(v, "kind"@, "definition"@),
        line: match json_u64(json_member(v, "line"@)) {
            Some(n) => n as u32,
            None => 0,
        },
        end_line: match json_u64(json_member(v, "end_line"@)) {
            Some(n) => Some(n as u32),
            None => None,
        },
    }
}

/// A use, as JSON has it. A use is a call where nothing else is said; a
/// column that no line can have is none.
pub open spec fn json_ref(v: serde_json::Value) -> EmitterRefView {
    EmitterRefView {
        symbol: text_member(v, "symbol"@, ""@),
        line: match json_u64(json_member(v, "line"@)) {
            Some(n) => Some(n as u32),
            None => None,
        },
        is_call: match json_bool(json_member(v, "is_call"@)) {
            Some(b) => b,
            None => true,
        },
        col: match json_i64(json_member(v, "col"@)) {
            Some(c) if i32::MIN <= c <= i32::MAX => Some(c as i32),
            _ => None,
        },
    }
}

/// An inheritance, as JSON has it.
pub open spec fn json_inheritance(v: serde_json::Value) -> InheritanceView {
    InheritanceView { child: text_member(v, "child"@, ""@), parent: text_member(v, "parent"@, ""@) }
}

/// A document, as JSON has it.
pub open spec fn json_doc(v: serde_json::Value) -> EmitterDocView {
    EmitterDocView {
        path: text_member(v, "path"@, ""@),
        definitions: items_member(v, "definitions"@).map_values(|d: serde_json::Value| json_def(d)),
        references: items_member(v, "references"@).map_values(|r: serde_json::Value| json_ref(r)),
        inheritances: items_member(v, "inheritances"@).map_values(
            |i: serde_json::Value| json_inheritance(i),
        ),
    }
}

/// The output of an emitter, as JSON has it.
pub open spec fn json_index(v: serde_json::Value) -> EmitterIndexView {
    EmitterIndexView {
        col_unit: ColUnit::declared(json_text(json_member(v, "col_unit"@))),
        documents: items_member(v, "documents"@).map_values(|d: serde_json::Value| json_doc(d)),
    }
}

fn read_def(v: &serde_json::Value) -> (r: EmitterDef)
    ensures
        r@ == json_def(*v),
{
    #[verifier::truncate]
    let line: u32 = match natural_of(member(v, "line")) {
        Some(n) => n as u32,
        None => 0,
    };
    #[verifier::truncate]
    let end_line: Option<u32> = match natural_of(member(v, "end_line")) {
        Some(n) => Some(n as u32),
        None => None,
    };
    EmitterDef {
        symbol: text_at_key(v, "symbol", ""),
        kind: text_at_key(v, "kind", "definition"),
        line,
        end_line,
    }
}

fn read_ref(v: &serde_json::Value) -> (r: EmitterRef)
    ensures
        r@ == json_ref(*v),
{
    #[verifier::truncate]
    let line: Option<u32> = match natural_of(member(v, "line")) {
        Some(n) => Some(n as u32),
        None => None,
    };
    let is_call = match truth_of(member(v, "is_call")) {
        Some(b) => b,
        None => true,
    };
    let col: Option<i32> = match integer_of(member(v, "col")) {
        Some(c) => if i32::MIN as i64 <= c && c <= i32::MAX as i64 {
            Some(c as i32)
        } else {
            None
        },
        None => None,
    };
    EmitterRef { symbol: text_at_key(v, "symbol", ""), line, is_call, col }
}

fn read_doc(v: &serde_json::Value) -> (r: EmitterDoc)
    ensures
        r@ == json_doc(*v),
{
    let mut definitions: Vec<EmitterDef> = Vec::new();
    if let Some(items) = items_of(member(v, "definitions")) {
        let mut i: usize = 0;
        while i < items.len()
            invariant
                i <= items@.len(),
                definitions@.len() == i,
                forall|k: int| 0 <= k < i ==> (#[trigger] definitions@[k])@ == json_def(items@[k]),
            decreases items@.len() - i,
        {
            definitions.push(read_def(&items[i]));
            i += 1;
        }
    }
    let mut references: Vec<EmitterRef> = Vec::new();
    if let Some(items) = items_of(member(v, "references")) {
        let mut i: usize = 0;
        while i < items.len()
            invariant
                i <= items@.len(),
                references@.len() == i,
                forall|k: int| 0 <= k < i ==> (#[trigger] references@[k])@ == json_ref(items@[k]),
            decreases items@.len() - i,
        {
            references.push(read_ref(&items[i]));
            i += 1;
        }
    }
    let mut inheritances: Vec<Inheritance> = Vec::new();
    if let Some(items) = items_of(member(v, "inheritances")) {
        let mut i: usize = 0;
        while i < items.len()
            invariant
                i <= items@.len(),
                inheritances@.len() == i,
                forall|k: int|
                    0 <= k < i ==> (#[trigger] inheritances@[k])@ == json_inheritance(items@[k]),
            decreases items@.len() - i,
        {
            inheritances.push(
                Inheritance {
                    child: text_at_key(&items[i], "child", ""),
                    parent: text_at_key(&items[i], "parent", ""),
                },
            );
            i += 1;
        }
    }
    let r = EmitterDoc { path: text_at_key(v, "path", ""), definitions, references, inheritances };
    assert(r@.definitions =~= json_doc(*v).definitions);
    assert(r@.references =~= json_doc(*v).references);
    assert(r@.inheritances =~= json_doc(*v).inheritances);
    r
}

/// Reads the output of an emitter. An empty file holds nothing.
pub fn parse_emitter_output(bytes: &[u8]) -> (r: Result<Option<EmitterIndex>, EmitterError>)
    ensures
        bytes@.len() == 0 ==> r == Ok::<Option<EmitterIndex>, EmitterError>(None),
        bytes@.len() > 0 ==> match json_value(bytes@) {
            None => r == Err::<Option<EmitterIndex>, EmitterError>(EmitterError::NotJson),
            Some(v) => if json_items(json_member(v, "documents"@)) is None {
                r == Err::<Option<EmitterIndex>, EmitterError>(EmitterError::NoDocuments)
            } else {
                r matches Ok(Some(index)) && index@ == json_index(v)
            },
        },
{
    if bytes.len() == 0 {
        return Ok(None);
    }
    let root = match parse_json(bytes) {
        Ok(v) => v,
        Err(_) => {
            return Err(EmitterError::NotJson);
        },
    };
    let col_unit = ColUnit::parse(text_of(member(&root, "col_unit")));
    let items = match items_of(member(&root, "documents")) {
        Some(items) => items,
        None => {
            return Err(EmitterError::NoDocuments);
        },
    };
    let mut documents: Vec<EmitterDoc> = Vec::new();
    let mut i: usize = 0;
    while i < items.len()
        invariant
            i <= items@.len(),
            documents@.len() == i,
            forall|k: int| 0 <= k < i ==> (#[trigger] documents@[k])@ == json_doc(items@[k]),
        decreases items@.len() - i,
    {
        documents.push(read_doc(&items[i]));
        i += 1;
    }
    let r = EmitterIndex { col_unit, documents };
    assert(r@.documents =~= json_index(root).documents);
    Ok(Some(r))
}

/// The values that are there, in order.
pub open spec fn somes<T>(s: Seq<Option<T>>) -> Seq<T>
    decreases s.len(),
{
    if s.len() == 0 {
        Seq::empty()
    } else {
        match s.last() {
            Some(x) => somes(s.drop_last()).push(x),
            None => somes(s.drop_last()),
        }
    }
}

pub proof fn lemma_somes_push<T>(s: Seq<Option<T>>, x: Option<T>)
    ensures
        somes(s.push(x)) == match x {
            Some(v) => somes(s).push(v),
            None => somes(s),
        },
{
    assert(s.push(x).drop_last() =~= s);
}

/// What is present in a list of slots, and nothing else, is among what they
/// hold.
pub proof fn lemma_somes_hold<T>(s: Seq<Option<T>>, x: T)
    ensures
        somes(s).contains(x) <==> s.contains(Some(x)),
    decreases s.len(),
{
    if s.len() > 0 {
        let rest = s.drop_last();
        lemma_somes_hold(rest, x);
        let now = somes(s);
        let before = somes(rest);
        if before.contains(x) {
            let p = choose|p: int| 0 <= p < before.len() && before[p] == x;
            assert(now[p] == x);
        }
        if rest.contains(Some(x)) {
            let p = choose|p: int| 0 <= p < rest.len() && rest[p] == Some(x);
            assert(s[p] == Some(x));
        }
        if s.last() == Some(x) {
            assert(now.last() == x);
            assert(s[s.len() - 1] == Some(x));
        }
        if now.contains(x) && s.last() != Some(x) {
            let p = choose|p: int| 0 <= p < now.len() && now[p] == x;
            assert(before[p] == x);
        }
        if s.contains(Some(x)) && s.last() != Some(x) {
            let p = choose|p: int| 0 <= p < s.len() && s[p] == Some(x);
            assert(rest[p] == Some(x));
        }
    }
}

/// A definition and the file that it stands in.
pub struct PlacedDef {
    pub path: Seq<char>,
    pub def: EmitterDefView,
}

/// The definitions of a document that have a symbol.
pub open spec fn doc_defs(d: EmitterDocView) -> Seq<PlacedDef> {
    somes(doc_def_slots(d, d.definitions.len()))
}

/// The first `n` definitions of a document, those without a symbol left out.
pub open spec fn doc_def_slots(d: EmitterDocView, n: nat) -> Seq<Option<PlacedDef>> {
    Seq::new(
        n,
        |i: int|
            if d.definitions[i].symbol.len() > 0 {
                Some(PlacedDef { path: d.path, def: d.definitions[i] })
            } else {
                None
            },
    )
}

/// The definitions of the first `n` documents.
pub open spec fn placed_defs(docs: Seq<EmitterDocView>, n: nat) -> Seq<PlacedDef>
    decreases n,
{
    if n == 0 {
        Seq::empty()
    } else {
        placed_defs(docs, (n - 1) as nat) + doc_defs(docs[n - 1])
    }
}

/// The identifier of a definition's node.
pub open spec fn placed_id(p: PlacedDef, corpus: Seq<char>, language: Seq<char>) -> u64 {
    vname_id(corpus, ""@, p.path, language, p.def.symbol)
}

/// The node of a definition.
pub open spec fn placed_node(p: PlacedDef, corpus: Seq<char>, language: Seq<char>) -> NodeView {
    node_view(
        corpus,
        p.path,
        language,
        p.def.symbol,
        p.def.kind,
        Some(p.def.line),
        p.def.end_line,
    )
}

/// The nodes of definitions.
pub open spec fn placed_nodes(s: Seq<PlacedDef>, corpus: Seq<char>, language: Seq<char>) -> Seq<
    NodeView,
> {
    s.map_values(|p: PlacedDef| placed_node(p, corpus, language))
}

/// The node that uses of `symbol` lead to: its last definition.
pub open spec fn target(
    defs: Seq<PlacedDef>,
    corpus: Seq<char>,
    language: Seq<char>,
    symbol: Seq<char>,
) -> Option<u64>
    decreases defs.len(),
{
    if defs.len() == 0 {
        None
    } else if defs.last().def.symbol == symbol {
        Some(placed_id(defs.last(), corpus, language))
    } else {
        target(defs.drop_last(), corpus, language, symbol)
    }
}

/// What a table of targets holds for a symbol.
pub open spec fn target_entry(
    m: Map<Seq<char>, u64>,
    defs: Seq<PlacedDef>,
    corpus: Seq<char>,
    language: Seq<char>,
    s: Seq<char>,
) -> bool {
    match target(defs, corpus, language, s) {
        Some(id) => m.contains_key(s) && m[s] == id,
        None => !m.contains_key(s),
    }
}

/// A table of targets.
pub open spec fn target_table(
    m: Map<Seq<char>, u64>,
    defs: Seq<PlacedDef>,
    corpus: Seq<char>,
    language: Seq<char>,
) -> bool {
    forall|s: Seq<char>| target_entry(m, defs, corpus, language, s)
}

fn collect_defs(doc: &EmitterDoc, corpus: &str, language: &str, nodes: &mut Vec<Node>, ids: &mut
    StringHashMap<u64>, before: Ghost<Seq<PlacedDef>>)
    requires
        node_views(old(nodes)@) == placed_nodes(before@, corpus@, language@),
        target_table(old(ids)@, before@, corpus@, language@),
    ensures
        node_views(final(nodes)@) == placed_nodes(before@ + doc_defs(doc@), corpus@, language@),
        target_table(final(ids)@, before@ + doc_defs(doc@), corpus@, language@),
{
    broadcast use group_views_push;

    let n: usize = doc.definitions.len();
    let mut i: usize = 0;
    while i < n
        invariant
            i <= n,
            n == doc.definitions@.len(),
            node_views(nodes@) == placed_nodes(
                before@ + somes(doc_def_slots(doc@, i as nat)),
                corpus@,
                language@,
            ),
            target_table(
                ids@,
                before@ + somes(doc_def_slots(doc@, i as nat)),
                corpus@,
                language@,
            ),
        decreases n - i,
    {
        let d = &doc.definitions[i];
        let ghost slots = doc_def_slots(doc@, i as nat);
        let ghost seen = before@ + somes(slots);
        let ghost p = PlacedDef { path: doc@.path, def: d@ };
        let ghost m = ids@;
        i += 1;
        proof {
            let x = if d@.symbol.len() > 0 {
                Some(p)
            } else {
                None
            };
            assert(doc_def_slots(doc@, i as nat) =~= slots.push(x));
            lemma_somes_push(slots, x);
        }
        if d.symbol.as_str().unicode_len() > 0 {
            let nd = node(
                corpus,
                doc.path.as_str(),
                language,
                d.symbol.as_str(),
                d.kind.as_str(),
                Some(d.line),
                d.end_line,
            );
            ids.insert(copy_text(d.symbol.as_str()), nd.id);
            let ghost held = nodes@;
            nodes.push(nd);
            proof {
                let now = before@ + somes(doc_def_slots(doc@, i as nat));
                assert(node_views(nodes@) == node_views(held).push(nd@));
                assert(now.drop_last() =~= seen);
                assert forall|s: Seq<char>|
                    target_entry(ids@, now, corpus@, language@, s) by {
                    assert(target_entry(m, seen, corpus@, language@, s));
                }
            }
        }
    }
}

fn all_defs(index: &EmitterIndex, corpus: &str, language: &str) -> (r: (
    Vec<Node>,
    StringHashMap<u64>,
))
    ensures
        node_views(r.0@) == placed_nodes(
            placed_defs(index@.documents, index@.documents.len()),
            corpus@,
            language@,
        ),
        target_table(
            r.1@,
            placed_defs(index@.documents, index@.documents.len()),
            corpus@,
            language@,
        ),
{
    let mut nodes: Vec<Node> = Vec::new();
    let mut ids: StringHashMap<u64> = StringHashMap::new();
    let n: usize = index.documents.len();
    let mut i: usize = 0;
    assert forall|s: Seq<char>|
        target_entry(ids@, placed_defs(index@.documents, 0), corpus@, language@, s) by {}
    while i < n
        invariant
            i <= n,
            n == index.documents@.len(),
            node_views(nodes@) == placed_nodes(
                placed_defs(index@.documents, i as nat),
                corpus@,
                language@,
            ),
            target_table(ids@, placed_defs(index@.documents, i as nat), corpus@, language@),
        decreases n - i,
    {
        collect_defs(
            &index.documents[i],
            corpus,
            language,
            &mut nodes,
            &mut ids,
            Ghost(placed_defs(index@.documents, i as nat)),
        );
        i += 1;
    }
    (nodes, ids)
}

fn lookup(
    ids: &StringHashMap<u64>,
    symbol: &str,
    defs: Ghost<Seq<PlacedDef>>,
    corpus: Ghost<Seq<char>>,
    language: Ghost<Seq<char>>,
) -> (r: Option<u64>)
    requires
        target_table(ids@, defs@, corpus@, language@),
    ensures
        r == target(defs@, corpus@, language@, symbol@),
{
    assert(target_entry(ids@, defs@, corpus@, language@, symbol@));
    match ids.get(symbol) {
        Some(id) => Some(*id),
        None => None,
    }
}

/// The node that a use leads to; a use without a symbol leads nowhere.
pub open spec fn use_target(
    defs: Seq<PlacedDef>,
    corpus: Seq<char>,
    language: Seq<char>,
    r: EmitterRefView,
) -> Option<u64> {
    if r.symbol.len() > 0 {
        target(defs, corpus, language, r.symbol)
    } else {
        None
    }
}

/// The identifier of a file's node.
pub open spec fn file_id(path: Seq<char>, corpus: Seq<char>, language: Seq<char>) -> u64 {
    vname_id(corpus, ""@, path, language, "file"@)
}

/// The record of a use that has a line.
pub open spec fn use_record(
    defs: Seq<PlacedDef>,
    corpus: Seq<char>,
    language: Seq<char>,
    d: EmitterDocView,
    r: EmitterRefView,
    unit: ColUnit,
    sources: Map<Seq<char>, Option<Seq<Seq<char>>>>,
) -> Option<RefView> {
    match (use_target(defs, corpus, language, r), r.line) {
        (Some(id), Some(line)) => Some(
            RefView {
                caller_path: d.path,
                caller_line: line,
                callee_id: id,
                is_call: r.is_call,
                caller_col: match r.col {
                    Some(c) if sources.contains_key(d.path) => file_col(
                        sources[d.path],
                        line,
                        c as int,
                        unit,
                    ),
                    _ => None,
                },
            },
        ),
        _ => None,
    }
}

/// The edge of a use that has no line: from the file.
pub open spec fn lineless_edge(
    defs: Seq<PlacedDef>,
    corpus: Seq<char>,
    language: Seq<char>,
    d: EmitterDocView,
    r: EmitterRefView,
) -> Option<Edge> {
    match (use_target(defs, corpus, language, r), r.line) {
        (Some(id), None) => Some(
            Edge { src: file_id(d.path, corpus, language), dst: id, kind: EdgeKind::RefCall },
        ),
        _ => None,
    }
}

/// The edge of an inheritance between two definitions.
pub open spec fn inheritance_edge(
    defs: Seq<PlacedDef>,
    corpus: Seq<char>,
    language: Seq<char>,
    i: InheritanceView,
) -> Option<Edge> {
    match (target(defs, corpus, language, i.child), target(defs, corpus, language, i.parent)) {
        (Some(src), Some(dst)) if i.child.len() > 0 && i.parent.len() > 0 => Some(
            Edge { src, dst, kind: EdgeKind::IsImplementation },
        ),
        _ => None,
    }
}

/// The records of the first `n` uses of a document.
pub open spec fn doc_records(
    defs: Seq<PlacedDef>,
    corpus: Seq<char>,
    language: Seq<char>,
    d: EmitterDocView,
    unit: ColUnit,
    sources: Map<Seq<char>, Option<Seq<Seq<char>>>>,
    n: nat,
) -> Seq<Option<RefView>> {
    Seq::new(n, |i: int| use_record(defs, corpus, language, d, d.references[i], unit, sources))
}

/// The edges of the first `n` uses of a document.
pub open spec fn doc_lineless(
    defs: Seq<PlacedDef>,
    corpus: Seq<char>,
    language: Seq<char>,
    d: EmitterDocView,
    n: nat,
) -> Seq<Option<Edge>> {
    Seq::new(n, |i: int| lineless_edge(defs, corpus, language, d, d.references[i]))
}

/// The edges of the first `n` inheritances of a document.
pub open spec fn doc_inheritances(
    defs: Seq<PlacedDef>,
    corpus: Seq<char>,
    language: Seq<char>,
    d: EmitterDocView,
    n: nat,
) -> Seq<Option<Edge>> {
    Seq::new(n, |i: int| inheritance_edge(defs, corpus, language, d.inheritances[i]))
}

/// The records of the first `n` documents.
pub open spec fn use_records(
    defs: Seq<PlacedDef>,
    corpus: Seq<char>,
    language: Seq<char>,
    index: EmitterIndexView,
    sources: Map<Seq<char>, Option<Seq<Seq<char>>>>,
    n: nat,
) -> Seq<RefView>
    decreases n,
{
    if n == 0 {
        Seq::empty()
    } else {
        let d = index.documents[n - 1];
        use_records(defs, corpus, language, index, sources, (n - 1) as nat) + somes(
            doc_records(defs, corpus, language, d, index.col_unit, sources, d.references.len()),
        )
    }
}

fn collect_uses(
    doc: &EmitterDoc,
    corpus: &str,
    language: &str,
    unit: ColUnit,
    sources: &SourceCache,
    ids: &StringHashMap<u64>,
    defs: Ghost<Seq<PlacedDef>>,
    refs: &mut Vec<ScipRef>,
    edges: &mut Vec<Edge>,
)
    requires
        target_table(ids@, defs@, corpus@, language@),
    ensures
        ref_views(final(refs)@) == ref_views(old(refs)@) + somes(
            doc_records(
                defs@,
                corpus@,
                language@,
                doc@,
                unit,
                sources@,
                doc@.references.len(),
            ),
        ),
        final(edges)@ == old(edges)@ + somes(
            doc_lineless(defs@, corpus@, language@, doc@, doc@.references.len()),
        ),
{
    broadcast use group_views_push;

    let path = doc.path.as_str();
    let file: u64 = name_id(corpus, "", path, language, "file");
    let n: usize = doc.references.len();
    let mut i: usize = 0;
    while i < n
        invariant
            i <= n,
            n == doc.references@.len(),
            path@ == doc@.path,
            file == file_id(path@, corpus@, language@),
            target_table(ids@, defs@, corpus@, language@),
            ref_views(refs@) == ref_views(old(refs)@) + somes(
                doc_records(defs@, corpus@, language@, doc@, unit, sources@, i as nat),
            ),
            edges@ == old(edges)@ + somes(
                doc_lineless(defs@, corpus@, language@, doc@, i as nat),
            ),
        decreases n - i,
    {
        let r = &doc.references[i];
        let ghost records = doc_records(
            defs@,
            corpus@,
            language@,
            doc@,
            unit,
            sources@,
            i as nat,
        );
        let ghost lineless = doc_lineless(defs@, corpus@, language@, doc@, i as nat);
        let ghost record = use_record(defs@, corpus@, language@, doc@, r@, unit, sources@);
        let ghost edge = lineless_edge(defs@, corpus@, language@, doc@, r@);
        i += 1;
        proof {
            assert(doc_records(defs@, corpus@, language@, doc@, unit, sources@, i as nat)
                =~= records.push(record));
            lemma_somes_push(records, record);
            assert(doc_lineless(defs@, corpus@, language@, doc@, i as nat) =~= lineless.push(edge));
            lemma_somes_push(lineless, edge);
        }
        let ghost had_refs = refs@;
        if r.symbol.as_str().unicode_len() > 0 {
            if let Some(dst) = lookup(
                ids,
                r.symbol.as_str(),
                defs,
                Ghost(corpus@),
                Ghost(language@),
            ) {
                match r.line {
                    Some(line) => {
                        let caller_col = match r.col {
                            Some(c) => sources.col_in(path, line, c, unit),
                            None => None,
                        };
                        let x = ScipRef {
                            caller_path: copy_text(path),
                            caller_line: line,
                            callee_id: dst,
                            is_call: r.is_call,
                            caller_col,
                        };
                        refs.push(x);
                        assert(ref_views(refs@) == ref_views(had_refs).push(x@));
                    },
                    None => {
                        let e = Edge { src: file, dst, kind: EdgeKind::RefCall };
                        edges.push(e);
                    },
                }
            }
        }
    }
}

fn collect_inheritances(
    doc: &EmitterDoc,
    corpus: &str,
    language: &str,
    ids: &StringHashMap<u64>,
    defs: Ghost<Seq<PlacedDef>>,
    edges: &mut Vec<Edge>,
)
    requires
        target_table(ids@, defs@, corpus@, language@),
    ensures
        final(edges)@ == old(edges)@ + somes(
            doc_inheritances(defs@, corpus@, language@, doc@, doc@.inheritances.len()),
        ),
{
    let n: usize = doc.inheritances.len();
    let mut i: usize = 0;
    while i < n
        invariant
            i <= n,
            n == doc.inheritances@.len(),
            target_table(ids@, defs@, corpus@, language@),
            edges@ == old(edges)@ + somes(
                doc_inheritances(defs@, corpus@, language@, doc@, i as nat),
            ),
        decreases n - i,
    {
        let inh = &doc.inheritances[i];
        let ghost had = doc_inheritances(defs@, corpus@, language@, doc@, i as nat);
        let ghost edge = inheritance_edge(defs@, corpus@, language@, inh@);
        i += 1;
        proof {
            assert(doc_inheritances(defs@, corpus@, language@, doc@, i as nat) =~= had.push(edge));
            lemma_somes_push(had, edge);
        }
        if inh.child.as_str().unicode_len() > 0 && inh.parent.as_str().unicode_len() > 0 {
            let child = lookup(ids, inh.child.as_str(), defs, Ghost(corpus@), Ghost(language@));
            let parent = lookup(ids, inh.parent.as_str(), defs, Ghost(corpus@), Ghost(language@));
            if let (Some(src), Some(dst)) = (child, parent) {
                edges.push(Edge { src, dst, kind: EdgeKind::IsImplementation });
            }
        }
    }
}

/// The edges of the first `n` documents of Swift: by document, those of its
/// uses, then those of its inheritances.
pub open spec fn swift_edges(
    defs: Seq<PlacedDef>,
    corpus: Seq<char>,
    docs: Seq<EmitterDocView>,
    n: nat,
) -> Seq<Edge>
    decreases n,
{
    if n == 0 {
        Seq::empty()
    } else {
        let d = docs[n - 1];
        swift_edges(defs, corpus, docs, (n - 1) as nat) + somes(
            doc_lineless(defs, corpus, "swift"@, d, d.references.len()),
        ) + somes(doc_inheritances(defs, corpus, "swift"@, d, d.inheritances.len()))
    }
}

/// The graph of the Swift emitter's output.
pub open spec fn swift_graph(
    index: EmitterIndexView,
    corpus: Seq<char>,
    sources: Map<Seq<char>, Option<Seq<Seq<char>>>>,
) -> ResponseView {
    let defs = placed_defs(index.documents, index.documents.len());
    ResponseView {
        nodes: placed_nodes(defs, corpus, "swift"@),
        edges: swift_edges(defs, corpus, index.documents, index.documents.len()),
        refs: use_records(defs, corpus, "swift"@, index, sources, index.documents.len()),
        unresolved_calls: Seq::empty(),
        diagnostics: Seq::empty(),
    }
}

/// The graph of the Swift emitter's output. A use with a line is recorded
/// with its column, in the unit that the output declares; one without a line
/// gives an edge from its file. `sources` holds the source files by their
/// path in the output.
pub fn swift_response(index: &EmitterIndex, corpus: &str, sources: &SourceCache) -> (r:
    InvokeResponse)
    ensures
        r@ == swift_graph(index@, corpus@, sources@),
{
    let (nodes, ids) = all_defs(index, corpus, "swift");
    let ghost defs = placed_defs(index@.documents, index@.documents.len());
    let mut refs: Vec<ScipRef> = Vec::new();
    let mut edges: Vec<Edge> = Vec::new();
    let n: usize = index.documents.len();
    let mut i: usize = 0;
    while i < n
        invariant
            i <= n,
            n == index.documents@.len(),
            target_table(ids@, defs, corpus@, "swift"@),
            ref_views(refs@) == use_records(
                defs,
                corpus@,
                "swift"@,
                index@,
                sources@,
                i as nat,
            ),
            edges@ == swift_edges(defs, corpus@, index@.documents, i as nat),
        decreases n - i,
    {
        let doc = &index.documents[i];
        collect_uses(
            doc,
            corpus,
            "swift",
            index.col_unit,
            sources,
            &ids,
            Ghost(defs),
            &mut refs,
            &mut edges,
        );
        collect_inheritances(doc, corpus, "swift", &ids, Ghost(defs), &mut edges);
        i += 1;
    }
    let unresolved_calls: Vec<UnresolvedCall> = Vec::new();
    let diagnostics: Vec<PluginDiagnostic> = Vec::new();
    let r = InvokeResponse { nodes, edges, refs, unresolved_calls, diagnostics };
    assert(r@.unresolved_calls =~= swift_graph(index@, corpus@, sources@).unresolved_calls);
    assert(r@.diagnostics =~= swift_graph(index@, corpus@, sources@).diagnostics);
    r
}

/// The edges of the first `n` documents of Dart.
pub open spec fn dart_edges(
    defs: Seq<PlacedDef>,
    corpus: Seq<char>,
    docs: Seq<EmitterDocView>,
    n: nat,
) -> Seq<Edge>
    decreases n,
{
    if n == 0 {
        Seq::empty()
    } else {
        dart_edges(defs, corpus, docs, (n - 1) as nat) + somes(
            doc_lineless(defs, corpus, "dart"@, docs[n - 1], docs[n - 1].references.len()),
        )
    }
}

/// The graph of the Dart emitter's output.
pub open spec fn dart_graph(
    index: EmitterIndexView,
    corpus: Seq<char>,
    sources: Map<Seq<char>, Option<Seq<Seq<char>>>>,
) -> ResponseView {
    let defs = placed_defs(index.documents, index.documents.len());
    ResponseView {
        nodes: placed_nodes(defs, corpus, "dart"@),
        edges: dart_edges(defs, corpus, index.documents, index.documents.len()),
        refs: use_records(defs, corpus, "dart"@, index, sources, index.documents.len()),
        unresolved_calls: Seq::empty(),
        diagnostics: Seq::empty(),
    }
}

/// The graph of the Dart emitter's output. A use with a line is recorded, one
/// without a line gives an edge from its file. `sources` holds the source
/// files by their path in the output.
pub fn dart_response(index: &EmitterIndex, corpus: &str, sources: &SourceCache) -> (r:
    InvokeResponse)
    ensures
        r@ == dart_graph(index@, corpus@, sources@),
{
    let (nodes, ids) = all_defs(index, corpus, "dart");
    let ghost defs = placed_defs(index@.documents, index@.documents.len());
    let mut refs: Vec<ScipRef> = Vec::new();
    let mut edges: Vec<Edge> = Vec::new();
    let n: usize = index.documents.len();
    let mut i: usize = 0;
    while i < n
        invariant
            i <= n,
            n == index.documents@.len(),
            target_table(ids@, defs, corpus@, "dart"@),
            ref_views(refs@) == use_records(defs, corpus@, "dart"@, index@, sources@, i as nat),
            edges@ == dart_edges(defs, corpus@, index@.documents, i as nat),
        decreases n - i,
    {
        collect_uses(
            &index.documents[i],
            corpus,
            "dart",
            index.col_unit,
            sources,
            &ids,
            Ghost(defs),
            &mut refs,
            &mut edges,
        );
        i += 1;
    }
    let unresolved_calls: Vec<UnresolvedCall> = Vec::new();
    let diagnostics: Vec<PluginDiagnostic> = Vec::new();
    let r = InvokeResponse { nodes, edges, refs, unresolved_calls, diagnostics };
    assert(r@.unresolved_calls =~= dart_graph(index@, corpus@, sources@).unresolved_calls);
    assert(r@.diagnostics =~= dart_graph(index@, corpus@, sources@).diagnostics);
    r
}

/// The target of a use is a node of the graph: where there is a target, a
/// definition of that symbol has its identifier.
pub proof fn law_target_is_a_node(
    defs: Seq<PlacedDef>,
    corpus: Seq<char>,
    language: Seq<char>,
    symbol: Seq<char>,
)
    ensures
        match target(defs, corpus, language, symbol) {
            Some(id) => crate::scip_reader::has_node(placed_nodes(defs, corpus, language), id),
            None => forall|i: int|
                0 <= i < defs.len() ==> (#[trigger] defs[i]).def.symbol != symbol,
        },
    decreases defs.len(),
{
    if defs.len() > 0 {
        let rest = defs.drop_last();
        let nodes = placed_nodes(defs, corpus, language);
        if defs.last().def.symbol == symbol {
            assert(nodes[defs.len() - 1].id == placed_id(defs.last(), corpus, language));
        } else {
            law_target_is_a_node(rest, corpus, language, symbol);
            let had = placed_nodes(rest, corpus, language);
            match target(rest, corpus, language, symbol) {
                Some(id) => {
                    let k = choose|k: int| 0 <= k < had.len() && (#[trigger] had[k]).id == id;
                    assert(nodes[k] == had[k]);
                },
                None => {
                    assert forall|i: int| 0 <= i < defs.len() implies (#[trigger] defs[i]).def.symbol
                        != symbol by {
                        if i < rest.len() {
                            assert(rest[i] == defs[i]);
                        }
                    }
                },
            }
        }
    }
}

/// In either language a use of a definition gives a record or an edge, never
/// both: a record where it has a line, an edge where it has none.
pub proof fn law_record_or_edge(
    defs: Seq<PlacedDef>,
    corpus: Seq<char>,
    language: Seq<char>,
    d: EmitterDocView,
    r: EmitterRefView,
    unit: ColUnit,
    sources: Map<Seq<char>, Option<Seq<Seq<char>>>>,
)
    ensures
        ({
            let led = use_target(defs, corpus, language, r) is Some;
            &&& use_record(defs, corpus, language, d, r, unit, sources) is Some <==> led
                && r.line is Some
            &&& lineless_edge(defs, corpus, language, d, r) is Some <==> led && r.line is None
        }),
{
}

/// Whether `x` is the item `k` of the array that the object `v` has under
/// `key`.
pub open spec fn is_item(v: serde_json::Value, key: Seq<char>, k: int, x: serde_json::Value) -> bool {
    json_items(json_member(v, key)) matches Some(a) && 0 <= k < a.len() && a[k] == x
}

/// Whether the object `v` has the text `t` under `key`.
pub open spec fn says(v: serde_json::Value, key: Seq<char>, t: Seq<char>) -> bool {
    json_text(json_member(v, key)) == Some(t)
}

/// Whether `x` is what the object `v` says under `key`, and `other` where it
/// has no text there.
pub open spec fn tells(
    v: serde_json::Value,
    key: Seq<char>,
    other: Seq<char>,
    x: Seq<char>,
) -> bool {
    says(v, key, x) || (json_text(json_member(v, key)) is None && x == other)
}

/// Whether the definition `b` of the document `a` in an emitter's output `v`
/// defines `symbol`, in the file `path`.
pub open spec fn defines_at(
    v: serde_json::Value,
    a: int,
    b: int,
    symbol: Seq<char>,
    path: Seq<char>,
) -> bool {
    exists|d: serde_json::Value, x: serde_json::Value| #[trigger]
        is_item(v, "documents"@, a, d) && #[trigger] is_item(d, "definitions"@, b, x) && says(
            x,
            "symbol"@,
            symbol,
        ) && symbol.len() > 0 && tells(d, "path"@, ""@, path)
}

/// Whether no definition of `symbol` in an emitter's output `v` comes behind
/// the definition `b` of the document `a`.
pub open spec fn none_behind(v: serde_json::Value, a: int, b: int, symbol: Seq<char>) -> bool {
    forall|i: int, k: int, path: Seq<char>| #[trigger]
        defines_at(v, i, k, symbol, path) ==> i < a || (i == a && k <= b)
}

/// Whether the last definition of `symbol` in an emitter's output stands in
/// the file `path`.
pub open spec fn is_last_defined_in(v: serde_json::Value, symbol: Seq<char>, path: Seq<char>) -> bool {
    exists|a: int, b: int| #[trigger]
        defines_at(v, a, b, symbol, path) && none_behind(v, a, b, symbol)
}

/// Whether `x` is the node of the definition `v` in the file `path`: its kind
/// and its lines are what the members of the definition say.
pub open spec fn is_definition_node(
    x: NodeView,
    corpus: Seq<char>,
    language: Seq<char>,
    path: Seq<char>,
    v: serde_json::Value,
) -> bool {
    &&& x.corpus == corpus
    &&& x.path == path
    &&& x.language == language
    &&& says(v, "symbol"@, x.signature)
    &&& x.id == vname_id(corpus, ""@, path, language, x.signature)
    &&& tells(v, "kind"@, "definition"@, x.kind)
    &&& x.line is Some
    &&& match json_u64(json_member(v, "line"@)) {
        Some(n) => n <= u32::MAX ==> x.line->0 == n,
        None => x.line->0 == 0,
    }
    &&& match json_u64(json_member(v, "end_line"@)) {
        Some(n) => x.end_line is Some && (n <= u32::MAX ==> x.end_line->0 == n),
        None => x.end_line is None,
    }
}

/// The graph of an emitter's output in one of the two languages.
pub open spec fn emitter_graph(
    v: serde_json::Value,
    corpus: Seq<char>,
    sources: Map<Seq<char>, Option<Seq<Seq<char>>>>,
    swift: bool,
) -> ResponseView {
    if swift {
        swift_graph(json_index(v), corpus, sources)
    } else {
        dart_graph(json_index(v), corpus, sources)
    }
}

/// What the language is called.
pub open spec fn emitter_language(swift: bool) -> Seq<char> {
    if swift {
        "swift"@
    } else {
        "dart"@
    }
}

proof fn lemma_doc_of(v: serde_json::Value, i: int, d: serde_json::Value)
    requires
        is_item(v, "documents"@, i, d),
    ensures
        0 <= i < json_index(v).documents.len(),
        json_index(v).documents[i] == json_doc(d),
{
}

proof fn lemma_placed_has(docs: Seq<EmitterDocView>, n: nat, i: int, k: int)
    requires
        0 <= i < n <= docs.len(),
        0 <= k < docs[i].definitions.len(),
        docs[i].definitions[k].symbol.len() > 0,
    ensures
        placed_defs(docs, n).contains(
            (PlacedDef { path: docs[i].path, def: docs[i].definitions[k] }),
        ),
    decreases n,
{
    let now = placed_defs(docs, n);
    let before = placed_defs(docs, (n - 1) as nat);
    let x = PlacedDef { path: docs[i].path, def: docs[i].definitions[k] };
    if i == n - 1 {
        let slots = doc_def_slots(docs[i], docs[i].definitions.len());
        assert(slots[k] == Some(x));
        lemma_somes_hold(slots, x);
        let own = doc_defs(docs[i]);
        let p = choose|p: int| 0 <= p < own.len() && own[p] == x;
        assert(now[before.len() + p] == x);
    } else {
        lemma_placed_has(docs, (n - 1) as nat, i, k);
        let p = choose|p: int| 0 <= p < before.len() && before[p] == x;
        assert(now[p] == x);
    }
}

proof fn lemma_placed_stems(docs: Seq<EmitterDocView>, n: nat, p: int)
    requires
        n <= docs.len(),
        0 <= p < placed_defs(docs, n).len(),
    ensures
        exists|i: int, k: int|
            0 <= i < n && 0 <= k < docs[i].definitions.len()
                && docs[i].definitions[k].symbol.len() > 0 && placed_defs(docs, n)[p] == (PlacedDef {
                path: docs[i].path,
                def: #[trigger] docs[i].definitions[k],
            }),
    decreases n,
{
    if n > 0 {
        let before = placed_defs(docs, (n - 1) as nat);
        if p < before.len() {
            lemma_placed_stems(docs, (n - 1) as nat, p);
        } else {
            let d = docs[n - 1];
            let own = doc_defs(d);
            let slots = doc_def_slots(d, d.definitions.len());
            let x = own[p - before.len()];
            assert(own.contains(x));
            lemma_somes_hold(slots, x);
            let k = choose|k: int| 0 <= k < slots.len() && slots[k] == Some(x);
            assert(docs[n - 1].definitions[k].symbol.len() > 0);
        }
    }
}

proof fn lemma_definition_node(
    d: serde_json::Value,
    x: serde_json::Value,
    corpus: Seq<char>,
    language: Seq<char>,
    path: Seq<char>,
)
    requires
        tells(d, "path"@, ""@, path),
        json_text(json_member(x, "symbol"@)) is Some,
    ensures
        json_doc(d).path == path,
        is_definition_node(
            placed_node(PlacedDef { path: json_doc(d).path, def: json_def(x) }, corpus, language),
            corpus,
            language,
            path,
            x,
        ),
{
}

/// Every definition that names a symbol is a node of the file of its document:
/// its kind is the text under `kind`, and only where there is none there
/// `definition`.
pub proof fn law_definition_becomes_a_node(
    v: serde_json::Value,
    corpus: Seq<char>,
    sources: Map<Seq<char>, Option<Seq<Seq<char>>>>,
    swift: bool,
    i: int,
    d: serde_json::Value,
    k: int,
    x: serde_json::Value,
    symbol: Seq<char>,
    path: Seq<char>,
)
    requires
        is_item(v, "documents"@, i, d),
        is_item(d, "definitions"@, k, x),
        says(x, "symbol"@, symbol),
        symbol.len() > 0,
        tells(d, "path"@, ""@, path),
    ensures
        ({
            let nodes = emitter_graph(v, corpus, sources, swift).nodes;
            exists|n: int|
                #![trigger nodes[n]]
                0 <= n < nodes.len() && is_definition_node(
                    nodes[n],
                    corpus,
                    emitter_language(swift),
                    path,
                    x,
                )
        }),
{
    let nodes = emitter_graph(v, corpus, sources, swift).nodes;
    let docs = json_index(v).documents;
    let defs = placed_defs(docs, docs.len());
    lemma_doc_of(v, i, d);
    assert(docs[i].definitions[k] == json_def(x));
    lemma_placed_has(docs, docs.len(), i, k);
    let p = PlacedDef { path: docs[i].path, def: docs[i].definitions[k] };
    let n = choose|n: int| 0 <= n < defs.len() && defs[n] == p;
    lemma_definition_node(d, x, corpus, emitter_language(swift), path);
    assert(nodes[n] == placed_node(p, corpus, emitter_language(swift)));
}

/// Every node stems from a definition of the output that names a symbol.
pub proof fn law_node_stems_from_a_definition(
    v: serde_json::Value,
    corpus: Seq<char>,
    sources: Map<Seq<char>, Option<Seq<Seq<char>>>>,
    swift: bool,
    n: int,
)
    requires
        0 <= n < emitter_graph(v, corpus, sources, swift).nodes.len(),
    ensures
        ({
            let node = emitter_graph(v, corpus, sources, swift).nodes[n];
            exists|i: int, d: serde_json::Value, k: int, x: serde_json::Value| #[trigger]
                is_item(v, "documents"@, i, d) && #[trigger] is_item(d, "definitions"@, k, x)
                    && tells(d, "path"@, ""@, node.path) && is_definition_node(
                    node,
                    corpus,
                    emitter_language(swift),
                    node.path,
                    x,
                )
        }),
{
    let docs = json_index(v).documents;
    lemma_placed_stems(docs, docs.len(), n);
    let (i, k) = choose|i: int, k: int|
        0 <= i < docs.len() && 0 <= k < docs[i].definitions.len()
            && docs[i].definitions[k].symbol.len() > 0 && placed_defs(docs, docs.len())[n]
            == (PlacedDef { path: docs[i].path, def: #[trigger] docs[i].definitions[k] });
    let d = json_items(json_member(v, "documents"@))->0[i];
    let x = json_items(json_member(d, "definitions"@))->0[k];
    assert(is_item(v, "documents"@, i, d));
    assert(is_item(d, "definitions"@, k, x));
    assert(docs[i] == json_doc(d));
    assert(docs[i].definitions[k] == json_def(x));
    reveal_strlit("");
    lemma_definition_node(d, x, corpus, emitter_language(swift), docs[i].path);
}

proof fn lemma_target_join(
    a: Seq<PlacedDef>,
    b: Seq<PlacedDef>,
    corpus: Seq<char>,
    language: Seq<char>,
    symbol: Seq<char>,
)
    ensures
        target(a + b, corpus, language, symbol) == match target(b, corpus, language, symbol) {
            Some(id) => Some(id),
            None => target(a, corpus, language, symbol),
        },
    decreases b.len(),
{
    if b.len() == 0 {
        assert(a + b =~= a);
    } else {
        assert((a + b).drop_last() =~= a + b.drop_last());
        lemma_target_join(a, b.drop_last(), corpus, language, symbol);
    }
}

proof fn lemma_doc_target(
    d: EmitterDocView,
    corpus: Seq<char>,
    language: Seq<char>,
    symbol: Seq<char>,
    n: nat,
)
    requires
        n <= d.definitions.len(),
        symbol.len() > 0,
    ensures
        match target(somes(doc_def_slots(d, n)), corpus, language, symbol) {
            Some(id) => id == vname_id(corpus, ""@, d.path, language, symbol) && exists|k: int|
                0 <= k < n && (#[trigger] d.definitions[k]).symbol == symbol,
            None => forall|k: int|
                0 <= k < n ==> (#[trigger] d.definitions[k]).symbol != symbol,
        },
    decreases n,
{
    let slots = doc_def_slots(d, n);
    if n > 0 {
        lemma_doc_target(d, corpus, language, symbol, (n - 1) as nat);
        let before = doc_def_slots(d, (n - 1) as nat);
        assert(slots =~= before.push(slots[n - 1]));
        lemma_somes_push(before, slots[n - 1]);
        if d.definitions[n - 1].symbol.len() > 0 {
            assert(somes(slots).drop_last() =~= somes(before));
        }
    } else {
        assert(slots =~= Seq::<Option<PlacedDef>>::empty());
    }
}

proof fn lemma_docs_target(
    docs: Seq<EmitterDocView>,
    corpus: Seq<char>,
    language: Seq<char>,
    symbol: Seq<char>,
    n: nat,
)
    requires
        n <= docs.len(),
        symbol.len() > 0,
    ensures
        match target(placed_defs(docs, n), corpus, language, symbol) {
            Some(id) => exists|i: int, k: int|
                0 <= i < n && 0 <= k < docs[i].definitions.len() && (
                #[trigger] docs[i].definitions[k]).symbol == symbol && id == vname_id(
                    corpus,
                    ""@,
                    docs[i].path,
                    language,
                    symbol,
                ) && forall|a: int, b: int|
                    i < a < n && 0 <= b < docs[a].definitions.len() ==> (
                    #[trigger] docs[a].definitions[b]).symbol != symbol,
            None => forall|a: int, b: int|
                0 <= a < n && 0 <= b < docs[a].definitions.len() ==> (
                #[trigger] docs[a].definitions[b]).symbol != symbol,
        },
    decreases n,
{
    if n > 0 {
        let d = docs[n - 1];
        let before = placed_defs(docs, (n - 1) as nat);
        lemma_docs_target(docs, corpus, language, symbol, (n - 1) as nat);
        lemma_doc_target(d, corpus, language, symbol, d.definitions.len());
        lemma_target_join(before, doc_defs(d), corpus, language, symbol);
        if target(doc_defs(d), corpus, language, symbol) is Some {
            let k = choose|k: int|
                0 <= k < d.definitions.len() && (#[trigger] d.definitions[k]).symbol == symbol;
            assert(docs[n - 1].definitions[k].symbol == symbol);
        }
    }
}

proof fn lemma_defines_at(
    v: serde_json::Value,
    a: int,
    b: int,
    symbol: Seq<char>,
    path: Seq<char>,
)
    requires
        symbol.len() > 0,
    ensures
        ({
            let docs = json_index(v).documents;
            defines_at(v, a, b, symbol, path) <==> 0 <= a < docs.len() && 0 <= b
                < docs[a].definitions.len() && docs[a].definitions[b].symbol == symbol && docs[a].path
                == path
        }),
{
    reveal_strlit("");
    let docs = json_index(v).documents;
    if defines_at(v, a, b, symbol, path) {
        let (d, x) = choose|d: serde_json::Value, x: serde_json::Value| #[trigger]
            is_item(v, "documents"@, a, d) && #[trigger] is_item(d, "definitions"@, b, x) && says(
                x,
                "symbol"@,
                symbol,
            ) && symbol.len() > 0 && tells(d, "path"@, ""@, path);
        lemma_doc_of(v, a, d);
        assert(docs[a].definitions[b] == json_def(x));
    }
    if 0 <= a < docs.len() && 0 <= b < docs[a].definitions.len() && docs[a].definitions[b].symbol
        == symbol && docs[a].path == path {
        let d = json_items(json_member(v, "documents"@))->0[a];
        let x = json_items(json_member(d, "definitions"@))->0[b];
        assert(is_item(v, "documents"@, a, d));
        lemma_doc_of(v, a, d);
        assert(is_item(d, "definitions"@, b, x));
        assert(docs[a].definitions[b] == json_def(x));
    }
}

/// Where uses lead: to the node in the file of the last definition.
proof fn lemma_last_defined(
    v: serde_json::Value,
    corpus: Seq<char>,
    language: Seq<char>,
    symbol: Seq<char>,
)
    requires
        symbol.len() > 0,
    ensures
        ({
            let docs = json_index(v).documents;
            let t = target(placed_defs(docs, docs.len()), corpus, language, symbol);
            &&& forall|path: Seq<char>| #[trigger]
                is_last_defined_in(v, symbol, path) ==> t == Some(
                    vname_id(corpus, ""@, path, language, symbol),
                )
            &&& t is Some ==> exists|path: Seq<char>| #[trigger] is_last_defined_in(v, symbol, path)
        }),
{
    let docs = json_index(v).documents;
    let t = target(placed_defs(docs, docs.len()), corpus, language, symbol);
    lemma_docs_target(docs, corpus, language, symbol, docs.len());
    assert forall|path: Seq<char>| #[trigger] is_last_defined_in(v, symbol, path) implies t == Some(
        vname_id(corpus, ""@, path, language, symbol),
    ) by {
        let (a, b) = choose|a: int, b: int| #[trigger]
            defines_at(v, a, b, symbol, path) && none_behind(v, a, b, symbol);
        lemma_defines_at(v, a, b, symbol, path);
        assert(docs[a].definitions[b].symbol == symbol);
        assert(t is Some);
        let (i, k) = choose|i: int, k: int|
            0 <= i < docs.len() && 0 <= k < docs[i].definitions.len() && (
            #[trigger] docs[i].definitions[k]).symbol == symbol && t->0 == vname_id(
                corpus,
                ""@,
                docs[i].path,
                language,
                symbol,
            ) && forall|x: int, y: int|
                i < x < docs.len() && 0 <= y < docs[x].definitions.len() ==> (
                #[trigger] docs[x].definitions[y]).symbol != symbol;
        lemma_defines_at(v, i, k, symbol, docs[i].path);
        assert(i == a);
    }
    if t is Some {
        let (i, k) = choose|i: int, k: int|
            0 <= i < docs.len() && 0 <= k < docs[i].definitions.len() && (
            #[trigger] docs[i].definitions[k]).symbol == symbol && t->0 == vname_id(
                corpus,
                ""@,
                docs[i].path,
                language,
                symbol,
            ) && forall|x: int, y: int|
                i < x < docs.len() && 0 <= y < docs[x].definitions.len() ==> (
                #[trigger] docs[x].definitions[y]).symbol != symbol;
        let b = lemma_last_in(docs[i].definitions, symbol, k);
        lemma_defines_at(v, i, b, symbol, docs[i].path);
        assert forall|a: int, c: int, path: Seq<char>| #[trigger]
            defines_at(v, a, c, symbol, path) implies a < i || (a == i && c <= b) by {
            lemma_defines_at(v, a, c, symbol, path);
            assert(docs[a].definitions[c].symbol == symbol);
        }
        assert(none_behind(v, i, b, symbol));
        assert(is_last_defined_in(v, symbol, docs[i].path));
    }
}

proof fn lemma_last_in(defs: Seq<EmitterDefView>, symbol: Seq<char>, k: int) -> (b: int)
    requires
        0 <= k < defs.len(),
        defs[k].symbol == symbol,
    ensures
        k <= b < defs.len(),
        defs[b].symbol == symbol,
        forall|m: int| b < m < defs.len() ==> (#[trigger] defs[m]).symbol != symbol,
    decreases defs.len() - k,
{
    if exists|m: int| k < m < defs.len() && (#[trigger] defs[m]).symbol == symbol {
        let m = choose|m: int| k < m < defs.len() && (#[trigger] defs[m]).symbol == symbol;
        lemma_last_in(defs, symbol, m)
    } else {
        k
    }
}

proof fn lemma_records_hold(
    defs: Seq<PlacedDef>,
    corpus: Seq<char>,
    language: Seq<char>,
    index: EmitterIndexView,
    sources: Map<Seq<char>, Option<Seq<Seq<char>>>>,
    n: nat,
    r: RefView,
)
    requires
        n <= index.documents.len(),
    ensures
        use_records(defs, corpus, language, index, sources, n).contains(r) <==> exists|i: int, k: int|
            0 <= i < n && 0 <= k < index.documents[i].references.len() && use_record(
                defs,
                corpus,
                language,
                index.documents[i],
                #[trigger] index.documents[i].references[k],
                index.col_unit,
                sources,
            ) == Some(r),
    decreases n,
{
    if n > 0 {
        lemma_records_hold(defs, corpus, language, index, sources, (n - 1) as nat, r);
        let before = use_records(defs, corpus, language, index, sources, (n - 1) as nat);
        let now = use_records(defs, corpus, language, index, sources, n);
        let d = index.documents[n - 1];
        let slots = doc_records(
            defs,
            corpus,
            language,
            d,
            index.col_unit,
            sources,
            d.references.len(),
        );
        let own = somes(slots);
        lemma_somes_hold(slots, r);
        if before.contains(r) {
            let p = choose|p: int| 0 <= p < before.len() && before[p] == r;
            assert(now[p] == r);
        }
        if own.contains(r) {
            let p = choose|p: int| 0 <= p < own.len() && own[p] == r;
            assert(now[before.len() + p] == r);
            let k = choose|k: int| 0 <= k < slots.len() && slots[k] == Some(r);
            assert(index.documents[n - 1].references[k] == d.references[k]);
        }
        if now.contains(r) {
            let p = choose|p: int| 0 <= p < now.len() && now[p] == r;
            if p < before.len() {
                assert(before[p] == r);
            } else {
                assert(own[p - before.len()] == r);
            }
        }
        if exists|i: int, k: int|
            0 <= i < n && 0 <= k < index.documents[i].references.len() && use_record(
                defs,
                corpus,
                language,
                index.documents[i],
                #[trigger] index.documents[i].references[k],
                index.col_unit,
                sources,
            ) == Some(r) {
            let (i, k) = choose|i: int, k: int|
                0 <= i < n && 0 <= k < index.documents[i].references.len() && use_record(
                    defs,
                    corpus,
                    language,
                    index.documents[i],
                    #[trigger] index.documents[i].references[k],
                    index.col_unit,
                    sources,
                ) == Some(r);
            if i == n - 1 {
                assert(slots[k] == Some(r));
            }
        }
    }
}

/// Whether `r` is the record of the use `v` in the file `path`, with the line
/// `line`, of a symbol that is defined in the file `home`. A use is a call
/// unless it says that it is none.
pub open spec fn is_record_of(
    r: RefView,
    v: serde_json::Value,
    corpus: Seq<char>,
    language: Seq<char>,
    path: Seq<char>,
    line: u64,
    symbol: Seq<char>,
    home: Seq<char>,
    sources: Map<Seq<char>, Option<Seq<Seq<char>>>>,
) -> bool {
    &&& r.caller_path == path
    &&& line <= u32::MAX ==> r.caller_line == line
    &&& r.callee_id == vname_id(corpus, ""@, home, language, symbol)
    &&& r.is_call == (json_bool(json_member(v, "is_call"@)) != Some(false))
    &&& match json_i64(json_member(v, "col"@)) {
        Some(c) => line <= u32::MAX && i32::MIN <= c <= i32::MAX ==> keeps_ascii_column(
            r.caller_col,
            sources,
            path,
            line as int,
            c as int,
        ),
        None => r.caller_col is None,
    }
}

proof fn lemma_record_column(
    v: serde_json::Value,
    x: serde_json::Value,
    sources: Map<Seq<char>, Option<Seq<Seq<char>>>>,
    path: Seq<char>,
    line: u64,
)
    ensures
        json_i64(json_member(x, "col"@)) matches Some(c) ==> line <= u32::MAX && i32::MIN <= c
            <= i32::MAX ==> keeps_ascii_column(
            if sources.contains_key(path) {
                file_col(sources[path], line as u32, c as int, json_index(v).col_unit)
            } else {
                None
            },
            sources,
            path,
            line as int,
            c as int,
        ),
{
    if let Some(c) = json_i64(json_member(x, "col"@)) {
        law_file_column_is_kept(sources, path, line as u32, c as int, json_index(v).col_unit);
    }
}

/// Every use that has a line, of a symbol that the output defines, is
/// recorded: from the file of its document and from its line, to the node of
/// the symbol's last definition.
pub proof fn law_every_use_is_recorded(
    v: serde_json::Value,
    corpus: Seq<char>,
    sources: Map<Seq<char>, Option<Seq<Seq<char>>>>,
    swift: bool,
    i: int,
    d: serde_json::Value,
    k: int,
    x: serde_json::Value,
    symbol: Seq<char>,
    path: Seq<char>,
    line: u64,
    home: Seq<char>,
)
    requires
        is_item(v, "documents"@, i, d),
        is_item(d, "references"@, k, x),
        says(x, "symbol"@, symbol),
        symbol.len() > 0,
        tells(d, "path"@, ""@, path),
        json_u64(json_member(x, "line"@)) == Some(line),
        is_last_defined_in(v, symbol, home),
    ensures
        ({
            let refs = emitter_graph(v, corpus, sources, swift).refs;
            exists|r: int|
                #![trigger refs[r]]
                0 <= r < refs.len() && is_record_of(
                    refs[r],
                    x,
                    corpus,
                    emitter_language(swift),
                    path,
                    line,
                    symbol,
                    home,
                    sources,
                )
        }),
{
    let language = emitter_language(swift);
    let index = json_index(v);
    let docs = index.documents;
    let defs = placed_defs(docs, docs.len());
    let refs = emitter_graph(v, corpus, sources, swift).refs;
    lemma_doc_of(v, i, d);
    assert(docs[i].references[k] == json_ref(x));
    lemma_last_defined(v, corpus, language, symbol);
    let r = use_record(
        defs,
        corpus,
        language,
        docs[i],
        docs[i].references[k],
        index.col_unit,
        sources,
    )->0;
    lemma_records_hold(defs, corpus, language, index, sources, docs.len(), r);
    let n = choose|n: int| 0 <= n < refs.len() && refs[n] == r;
    lemma_record_column(v, x, sources, path, line);
    assert(is_record_of(refs[n], x, corpus, language, path, line, symbol, home, sources));
}

/// Every reference is the record of a use that has a line, of a symbol that
/// the output defines.
pub proof fn law_reference_stems_from_a_use(
    v: serde_json::Value,
    corpus: Seq<char>,
    sources: Map<Seq<char>, Option<Seq<Seq<char>>>>,
    swift: bool,
    r: int,
)
    requires
        0 <= r < emitter_graph(v, corpus, sources, swift).refs.len(),
    ensures
        ({
            let y = emitter_graph(v, corpus, sources, swift).refs[r];
            exists|
                i: int,
                d: serde_json::Value,
                k: int,
                x: serde_json::Value,
                symbol: Seq<char>,
                home: Seq<char>,
            | #[trigger]
                is_item(v, "documents"@, i, d) && #[trigger] is_item(d, "references"@, k, x)
                    && #[trigger] is_last_defined_in(v, symbol, home) && says(x, "symbol"@, symbol)
                    && tells(d, "path"@, ""@, y.caller_path) && (json_u64(
                    json_member(x, "line"@),
                ) matches Some(line) && is_record_of(
                    y,
                    x,
                    corpus,
                    emitter_language(swift),
                    y.caller_path,
                    line,
                    symbol,
                    home,
                    sources,
                ))
        }),
{
    let language = emitter_language(swift);
    let index = json_index(v);
    let docs = index.documents;
    let defs = placed_defs(docs, docs.len());
    let refs = emitter_graph(v, corpus, sources, swift).refs;
    let y = refs[r];
    assert(refs.contains(y));
    lemma_records_hold(defs, corpus, language, index, sources, docs.len(), y);
    let (i, k) = choose|i: int, k: int|
        0 <= i < docs.len() && 0 <= k < docs[i].references.len() && use_record(
            defs,
            corpus,
            language,
            docs[i],
            #[trigger] docs[i].references[k],
            index.col_unit,
            sources,
        ) == Some(y);
    let d = json_items(json_member(v, "documents"@))->0[i];
    let x = json_items(json_member(d, "references"@))->0[k];
    assert(is_item(v, "documents"@, i, d));
    assert(is_item(d, "references"@, k, x));
    assert(docs[i] == json_doc(d));
    assert(docs[i].references[k] == json_ref(x));
    reveal_strlit("");
    let symbol = json_ref(x).symbol;
    assert(says(x, "symbol"@, symbol));
    lemma_last_defined(v, corpus, language, symbol);
    let home = choose|home: Seq<char>| #[trigger] is_last_defined_in(v, symbol, home);
    assert(is_last_defined_in(v, symbol, home));
    let line = json_u64(json_member(x, "line"@))->0;
    lemma_record_column(v, x, sources, y.caller_path, line);
    assert(is_record_of(y, x, corpus, language, y.caller_path, line, symbol, home, sources));
}

proof fn lemma_swift_edges_hold(
    defs: Seq<PlacedDef>,
    corpus: Seq<char>,
    docs: Seq<EmitterDocView>,
    n: nat,
    e: Edge,
)
    requires
        n <= docs.len(),
    ensures
        swift_edges(defs, corpus, docs, n).contains(e) <==> (exists|i: int, k: int|
            0 <= i < n && 0 <= k < docs[i].references.len() && lineless_edge(
                defs,
                corpus,
                "swift"@,
                docs[i],
                #[trigger] docs[i].references[k],
            ) == Some(e)) || (exists|i: int, k: int|
            0 <= i < n && 0 <= k < docs[i].inheritances.len() && inheritance_edge(
                defs,
                corpus,
                "swift"@,
                #[trigger] docs[i].inheritances[k],
            ) == Some(e)),
    decreases n,
{
    if n > 0 {
        lemma_swift_edges_hold(defs, corpus, docs, (n - 1) as nat, e);
        let before = swift_edges(defs, corpus, docs, (n - 1) as nat);
        let now = swift_edges(defs, corpus, docs, n);
        let d = docs[n - 1];
        let slots = doc_lineless(defs, corpus, "swift"@, d, d.references.len());
        let more = doc_inheritances(defs, corpus, "swift"@, d, d.inheritances.len());
        let a = somes(slots);
        let b = somes(more);
        lemma_somes_hold(slots, e);
        lemma_somes_hold(more, e);
        if before.contains(e) {
            let p = choose|p: int| 0 <= p < before.len() && before[p] == e;
            assert(now[p] == e);
        }
        if a.contains(e) {
            let p = choose|p: int| 0 <= p < a.len() && a[p] == e;
            assert(now[before.len() + p] == e);
            let k = choose|k: int| 0 <= k < slots.len() && slots[k] == Some(e);
            assert(docs[n - 1].references[k] == d.references[k]);
        }
        if b.contains(e) {
            let p = choose|p: int| 0 <= p < b.len() && b[p] == e;
            assert(now[before.len() + a.len() + p] == e);
            let k = choose|k: int| 0 <= k < more.len() && more[k] == Some(e);
            assert(docs[n - 1].inheritances[k] == d.inheritances[k]);
        }
        if now.contains(e) {
            let p = choose|p: int| 0 <= p < now.len() && now[p] == e;
            if p < before.len() {
                assert(before[p] == e);
            } else if p < before.len() + a.len() {
                assert(a[p - before.len()] == e);
            } else {
                assert(b[p - before.len() - a.len()] == e);
            }
        }
        if exists|i: int, k: int|
            0 <= i < n && 0 <= k < docs[i].references.len() && lineless_edge(
                defs,
                corpus,
                "swift"@,
                docs[i],
                #[trigger] docs[i].references[k],
            ) == Some(e) {
            let (i, k) = choose|i: int, k: int|
                0 <= i < n && 0 <= k < docs[i].references.len() && lineless_edge(
                    defs,
                    corpus,
                    "swift"@,
                    docs[i],
                    #[trigger] docs[i].references[k],
                ) == Some(e);
            if i == n - 1 {
                assert(slots[k] == Some(e));
            }
        }
        if exists|i: int, k: int|
            0 <= i < n && 0 <= k < docs[i].inheritances.len() && inheritance_edge(
                defs,
                corpus,
                "swift"@,
                #[trigger] docs[i].inheritances[k],
            ) == Some(e) {
            let (i, k) = choose|i: int, k: int|
                0 <= i < n && 0 <= k < docs[i].inheritances.len() && inheritance_edge(
                    defs,
                    corpus,
                    "swift"@,
                    #[trigger] docs[i].inheritances[k],
                ) == Some(e);
            if i == n - 1 {
                assert(more[k] == Some(e));
            }
        }
    }
}

proof fn lemma_dart_edges_hold(
    defs: Seq<PlacedDef>,
    corpus: Seq<char>,
    docs: Seq<EmitterDocView>,
    n: nat,
    e: Edge,
)
    requires
        n <= docs.len(),
    ensures
        dart_edges(defs, corpus, docs, n).contains(e) <==> exists|i: int, k: int|
            0 <= i < n && 0 <= k < docs[i].references.len() && lineless_edge(
                defs,
                corpus,
                "dart"@,
                docs[i],
                #[trigger] docs[i].references[k],
            ) == Some(e),
    decreases n,
{
    if n > 0 {
        lemma_dart_edges_hold(defs, corpus, docs, (n - 1) as nat, e);
        let before = dart_edges(defs, corpus, docs, (n - 1) as nat);
        let now = dart_edges(defs, corpus, docs, n);
        let d = docs[n - 1];
        let slots = doc_lineless(defs, corpus, "dart"@, d, d.references.len());
        let a = somes(slots);
        lemma_somes_hold(slots, e);
        if before.contains(e) {
            let p = choose|p: int| 0 <= p < before.len() && before[p] == e;
            assert(now[p] == e);
        }
        if a.contains(e) {
            let p = choose|p: int| 0 <= p < a.len() && a[p] == e;
            assert(now[before.len() + p] == e);
            let k = choose|k: int| 0 <= k < slots.len() && slots[k] == Some(e);
            assert(docs[n - 1].references[k] == d.references[k]);
        }
        if now.contains(e) {
            let p = choose|p: int| 0 <= p < now.len() && now[p] == e;
            if p < before.len() {
                assert(before[p] == e);
            } else {
                assert(a[p - before.len()] == e);
            }
        }
        if exists|i: int, k: int|
            0 <= i < n && 0 <= k < docs[i].references.len() && lineless_edge(
                defs,
                corpus,
                "dart"@,
                docs[i],
                #[trigger] docs[i].references[k],
            ) == Some(e) {
            let (i, k) = choose|i: int, k: int|
                0 <= i < n && 0 <= k < docs[i].references.len() && lineless_edge(
                    defs,
                    corpus,
                    "dart"@,
                    docs[i],
                    #[trigger] docs[i].references[k],
                ) == Some(e);
            if i == n - 1 {
                assert(slots[k] == Some(e));
            }
        }
    }
}

/// Every use without a line, of a symbol that the output defines, is an edge
/// from the file of its document to the node of the symbol's last definition.
pub proof fn law_lineless_use_is_an_edge(
    v: serde_json::Value,
    corpus: Seq<char>,
    sources: Map<Seq<char>, Option<Seq<Seq<char>>>>,
    swift: bool,
    i: int,
    d: serde_json::Value,
    k: int,
    x: serde_json::Value,
    symbol: Seq<char>,
    path: Seq<char>,
    home: Seq<char>,
)
    requires
        is_item(v, "documents"@, i, d),
        is_item(d, "references"@, k, x),
        says(x, "symbol"@, symbol),
        symbol.len() > 0,
        tells(d, "path"@, ""@, path),
        json_u64(json_member(x, "line"@)) is None,
        is_last_defined_in(v, symbol, home),
    ensures
        ({
            let language = emitter_language(swift);
            emitter_graph(v, corpus, sources, swift).edges.contains(
                Edge {
                    src: vname_id(corpus, ""@, path, language, "file"@),
                    dst: vname_id(corpus, ""@, home, language, symbol),
                    kind: EdgeKind::RefCall,
                },
            )
        }),
{
    let language = emitter_language(swift);
    let docs = json_index(v).documents;
    let defs = placed_defs(docs, docs.len());
    lemma_doc_of(v, i, d);
    assert(docs[i].references[k] == json_ref(x));
    lemma_last_defined(v, corpus, language, symbol);
    let e = Edge {
        src: vname_id(corpus, ""@, path, language, "file"@),
        dst: vname_id(corpus, ""@, home, language, symbol),
        kind: EdgeKind::RefCall,
    };
    assert(lineless_edge(defs, corpus, language, docs[i], docs[i].references[k]) == Some(e));
    if swift {
        lemma_swift_edges_hold(defs, corpus, docs, docs.len(), e);
    } else {
        lemma_dart_edges_hold(defs, corpus, docs, docs.len(), e);
    }
}

/// Every inheritance of the Swift output between two types that it defines is
/// an edge from the node of the child to that of the parent.
pub proof fn law_inheritance_is_an_edge(
    v: serde_json::Value,
    corpus: Seq<char>,
    sources: Map<Seq<char>, Option<Seq<Seq<char>>>>,
    i: int,
    d: serde_json::Value,
    k: int,
    x: serde_json::Value,
    child: Seq<char>,
    parent: Seq<char>,
    child_home: Seq<char>,
    parent_home: Seq<char>,
)
    requires
        is_item(v, "documents"@, i, d),
        is_item(d, "inheritances"@, k, x),
        says(x, "child"@, child),
        says(x, "parent"@, parent),
        child.len() > 0,
        parent.len() > 0,
        is_last_defined_in(v, child, child_home),
        is_last_defined_in(v, parent, parent_home),
    ensures
        swift_graph(json_index(v), corpus, sources).edges.contains(
            Edge {
                src: vname_id(corpus, ""@, child_home, "swift"@, child),
                dst: vname_id(corpus, ""@, parent_home, "swift"@, parent),
                kind: EdgeKind::IsImplementation,
            },
        ),
{
    let docs = json_index(v).documents;
    let defs = placed_defs(docs, docs.len());
    lemma_doc_of(v, i, d);
    assert(docs[i].inheritances[k] == json_inheritance(x));
    lemma_last_defined(v, corpus, "swift"@, child);
    lemma_last_defined(v, corpus, "swift"@, parent);
    let e = Edge {
        src: vname_id(corpus, ""@, child_home, "swift"@, child),
        dst: vname_id(corpus, ""@, parent_home, "swift"@, parent),
        kind: EdgeKind::IsImplementation,
    };
    assert(inheritance_edge(defs, corpus, "swift"@, docs[i].inheritances[k]) == Some(e));
    lemma_swift_edges_hold(defs, corpus, docs, docs.len(), e);
}

/// Every edge stems from a use without a line, or in Swift from an
/// inheritance, as its kind says.
pub proof fn law_edge_stems_from_the_output(
    v: serde_json::Value,
    corpus: Seq<char>,
    sources: Map<Seq<char>, Option<Seq<Seq<char>>>>,
    swift: bool,
    n: int,
)
    requires
        0 <= n < emitter_graph(v, corpus, sources, swift).edges.len(),
    ensures
        ({
            let language = emitter_language(swift);
            let e = emitter_graph(v, corpus, sources, swift).edges[n];
            ||| e.kind == EdgeKind::RefCall && exists|
                i: int,
                d: serde_json::Value,
                k: int,
                x: serde_json::Value,
                symbol: Seq<char>,
                home: Seq<char>,
            | #[trigger]
                is_item(v, "documents"@, i, d) && #[trigger] is_item(d, "references"@, k, x)
                    && #[trigger] is_last_defined_in(v, symbol, home) && says(x, "symbol"@, symbol)
                    && json_u64(json_member(x, "line"@)) is None && e.src == vname_id(
                    corpus,
                    ""@,
                    text_member(d, "path"@, ""@),
                    language,
                    "file"@,
                ) && e.dst == vname_id(corpus, ""@, home, language, symbol)
            ||| swift && e.kind == EdgeKind::IsImplementation && exists|
                i: int,
                d: serde_json::Value,
                k: int,
                x: serde_json::Value,
                child: Seq<char>,
                parent: Seq<char>,
                child_home: Seq<char>,
                parent_home: Seq<char>,
            | #[trigger]
                is_item(v, "documents"@, i, d) && #[trigger] is_item(d, "inheritances"@, k, x)
                    && #[trigger] is_last_defined_in(v, child, child_home)
                    && #[trigger] is_last_defined_in(v, parent, parent_home) && says(
                    x,
                    "child"@,
                    child,
                ) && says(x, "parent"@, parent) && e.src == vname_id(
                    corpus,
                    ""@,
                    child_home,
                    language,
                    child,
                ) && e.dst == vname_id(corpus, ""@, parent_home, language, parent)
        }),
{
    let language = emitter_language(swift);
    let docs = json_index(v).documents;
    let defs = placed_defs(docs, docs.len());
    let edges = emitter_graph(v, corpus, sources, swift).edges;
    let e = edges[n];
    assert(edges.contains(e));
    if swift {
        lemma_swift_edges_hold(defs, corpus, docs, docs.len(), e);
    } else {
        lemma_dart_edges_hold(defs, corpus, docs, docs.len(), e);
    }
    reveal_strlit("");
    if exists|i: int, k: int|
        0 <= i < docs.len() && 0 <= k < docs[i].references.len() && lineless_edge(
            defs,
            corpus,
            language,
            docs[i],
            #[trigger] docs[i].references[k],
        ) == Some(e) {
        let (i, k) = choose|i: int, k: int|
            0 <= i < docs.len() && 0 <= k < docs[i].references.len() && lineless_edge(
                defs,
                corpus,
                language,
                docs[i],
                #[trigger] docs[i].references[k],
            ) == Some(e);
        let d = json_items(json_member(v, "documents"@))->0[i];
        let x = json_items(json_member(d, "references"@))->0[k];
        assert(is_item(v, "documents"@, i, d));
        assert(is_item(d, "references"@, k, x));
        assert(docs[i] == json_doc(d));
        assert(docs[i].references[k] == json_ref(x));
        let symbol = json_ref(x).symbol;
        lemma_last_defined(v, corpus, language, symbol);
        let home = choose|home: Seq<char>| #[trigger] is_last_defined_in(v, symbol, home);
        assert(is_last_defined_in(v, symbol, home));
    } else {
        let (i, k) = choose|i: int, k: int|
            0 <= i < docs.len() && 0 <= k < docs[i].inheritances.len() && inheritance_edge(
                defs,
                corpus,
                language,
                #[trigger] docs[i].inheritances[k],
            ) == Some(e);
        let d = json_items(json_member(v, "documents"@))->0[i];
        let x = json_items(json_member(d, "inheritances"@))->0[k];
        assert(is_item(v, "documents"@, i, d));
        assert(is_item(d, "inheritances"@, k, x));
        assert(docs[i] == json_doc(d));
        assert(docs[i].inheritances[k] == json_inheritance(x));
        let child = json_inheritance(x).child;
        let parent = json_inheritance(x).parent;
        lemma_last_defined(v, corpus, language, child);
        lemma_last_defined(v, corpus, language, parent);
        let a = choose|a: Seq<char>| #[trigger] is_last_defined_in(v, child, a);
        let b = choose|b: Seq<char>| #[trigger] is_last_defined_in(v, parent, b);
        assert(is_last_defined_in(v, child, a));
        assert(is_last_defined_in(v, parent, b));
    }
}

} // verus!
