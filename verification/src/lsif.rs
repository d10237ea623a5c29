//! LSIF: one JSON record to a line. The records are folded into tables of
//! documents, ranges and results, from which the definitions are read.
use vstd::hash_map::StringHashMap;
use vstd::prelude::*;
use vstd::string::*;
use crate::graph::{
    group_views_push, node, node_view, node_views, InvokeResponse, Language, Node, NodeView,
    ResponseView,
};
use crate::json::{display_of, json_display, json_text, text_of};
use crate::scala::next_line;
use crate::text::{
    chars_of, copy_text, decimal, has_prefix, lines, lines_of, push_decimal, same_text, starts_with,
    string_of, texts, trim, trimmed,
};

verus! {

/// A position in a document, counted from zero.
#[derive(Debug, Clone, Copy)]
pub struct Position {
    pub line: u32,
    pub character: u32,
}

/// A record, with its identifiers as text.
#[derive(Debug)]
pub struct LsifRecord {
    pub id: String,
    pub record_type: String,
    pub label: Option<String>,
    pub uri: Option<String>,
    pub out_v: Option<String>,
    pub in_v: Option<String>,
    pub in_vs: Vec<String>,
    pub start: Option<Position>,
    pub document: Option<String>,
    pub property: Option<String>,
}

/// An identifier as text: a string is itself, anything else its JSON.
pub open spec fn id_text(v: serde_json::Value) -> Seq<char> {
    match json_text(v) {
        Some(t) => t,
        None => json_display(v),
    }
}

/// An identifier as text.
pub fn id_to_string(v: &serde_json::Value) -> (r: String)
    ensures
        r@ == id_text(*v),
{
    match text_of(v) {
        Some(t) => copy_text(t),
        None => display_of(v),
    }
}

/// A line that holds a record: its number, counted from zero, and its text.
#[derive(Debug)]
pub struct RecordLine {
    pub number: usize,
    pub text: String,
}

/// Those of the first `n` lines that are not blank, with their numbers and
/// without the white space around them.
pub open spec fn record_texts(all: Seq<Seq<char>>, n: nat) -> Seq<(int, Seq<char>)>
    decreases n,
{
    if n == 0 {
        Seq::empty()
    } else {
        let before = record_texts(all, (n - 1) as nat);
        let t = trim(all[n - 1]);
        if t.len() == 0 {
            before
        } else {
            before.push((n - 1, t))
        }
    }
}

/// What record lines hold.
pub open spec fn line_views(v: Seq<RecordLine>) -> Seq<(int, Seq<char>)> {
    v.map_values(|l: RecordLine| (l.number as int, l.text@))
}

/// The lines that hold records: blank lines are skipped, white space around a
/// record is dropped.
pub fn record_lines(lsif: &str) -> (r: Vec<RecordLine>)
    ensures
        line_views(r@) == record_texts(lines(lsif@), lines(lsif@).len()),
{
    let chars = chars_of(lsif);
    let all = lines_of(chars.as_slice());
    let mut out: Vec<RecordLine> = Vec::new();
    let n: usize = all.len();
    let mut i: usize = 0;
    while i < n
        invariant
            i <= n,
            n == all@.len(),
            texts(all@) == lines(lsif@),
            line_views(out@) == record_texts(lines(lsif@), i as nat),
        decreases n - i,
    {
        let line = chars_of(all[i].as_str());
        let t = trimmed(line.as_slice());
        if t.len() > 0 {
            let l = RecordLine { number: i, text: string_of(t) };
            out.push(l);
        }
        i += 1;
    }
    out
}

/// What to say of a line that is no record.
pub open spec fn parse_error_text(number: nat, line: Seq<char>) -> Seq<char> {
    "LSIF parse error at line "@ + decimal(number) + ": "@ + line
}

/// What to say of a line that is no record.
pub fn parse_error(line: &RecordLine) -> (r: String)
    ensures
        r@ == parse_error_text(line.number as nat, line.text@),
{
    let mut s = String::new();
    s.append("LSIF parse error at line ");
    push_decimal(&mut s, line.number as u64);
    s.append(": ");
    s.append(line.text.as_str());
    s
}

/// A range: the document that it lies in, empty where that is unknown, and
/// where it starts.
pub struct RangeEntry {
    pub document: String,
    pub start: Position,
}

/// What a `RangeEntry` holds.
pub struct RangeView {
    pub document: Seq<char>,
    pub start: Position,
}

/// What the records so far say.
pub struct LsifView {
    /// The addresses of documents.
    pub documents: Map<Seq<char>, Seq<char>>,
    /// The ranges, in the order in which they came up first.
    pub order: Seq<Seq<char>>,
    pub ranges: Map<Seq<char>, RangeView>,
    /// The ranges that are items of a definition result.
    pub def_ranges: Set<Seq<char>>,
    /// The definition result of a result set.
    pub result_set_to_def: Map<Seq<char>, Seq<char>>,
    /// The result set of a range.
    pub range_to_result_set: Map<Seq<char>, Seq<char>>,
}

/// What no record says.
pub open spec fn no_records() -> LsifView {
    LsifView {
        documents: Map::empty(),
        order: Seq::empty(),
        ranges: Map::empty(),
        def_ranges: Set::empty(),
        result_set_to_def: Map::empty(),
        range_to_result_set: Map::empty(),
    }
}

/// Whether `o` holds the text `s`.
pub open spec fn holds(o: Option<String>, s: Seq<char>) -> bool {
    match o {
        Some(t) => t@ == s,
        None => false,
    }
}

fn is(o: &Option<String>, s: &str) -> (r: bool)
    ensures
        r == holds(*o, s@),
{
    match o {
        Some(t) => same_text(t.as_str(), s),
        None => false,
    }
}

/// The text that `o` holds, empty where there is none.
pub open spec fn or_empty(o: Option<String>) -> Seq<char> {
    match o {
        Some(t) => t@,
        None => Seq::empty(),
    }
}

fn text_or_empty(o: &Option<String>) -> (r: String)
    ensures
        r@ == or_empty(*o),
{
    match o {
        Some(t) => copy_text(t.as_str()),
        None => String::new(),
    }
}

/// The ranges after `document` was said to contain the first `n` of `ids`: a
/// range that came up before, and whose document is unknown, lies there.
pub open spec fn contained(
    ranges: Map<Seq<char>, RangeView>,
    document: Seq<char>,
    ids: Seq<Seq<char>>,
    n: nat,
) -> Map<Seq<char>, RangeView>
    decreases n,
{
    if n == 0 {
        ranges
    } else {
        let before = contained(ranges, document, ids, (n - 1) as nat);
        let id = ids[n - 1];
        if before.contains_key(id) && before[id].document.len() == 0 {
            before.insert(id, RangeView { document, start: before[id].start })
        } else {
            before
        }
    }
}

/// The set of the items of `s`.
pub open spec fn item_set(s: Seq<Seq<char>>) -> Set<Seq<char>> {
    Set::new(|x: Seq<char>| s.contains(x))
}

/// What the records say once `r` has come.
pub open spec fn with_record(v: LsifView, r: LsifRecord) -> LsifView {
    if r.record_type@ == "vertex"@ {
        if holds(r.label, "document"@) {
            match r.uri {
                Some(uri) => LsifView { documents: v.documents.insert(r.id@, uri@), ..v },
                None => v,
            }
        } else if holds(r.label, "range"@) {
            match r.start {
                Some(start) => LsifView {
                    order: if v.ranges.contains_key(r.id@) {
                        v.order
                    } else {
                        v.order.push(r.id@)
                    },
                    ranges: v.ranges.insert(
                        r.id@,
                        RangeView { document: or_empty(r.document), start },
                    ),
                    ..v
                },
                None => v,
            }
        } else {
            v
        }
    } else if r.record_type@ == "edge"@ {
        if holds(r.label, "contains"@) {
            LsifView {
                ranges: contained(v.ranges, or_empty(r.out_v), texts(r.in_vs@), r.in_vs@.len()),
                ..v
            }
        } else if holds(r.label, "next"@) {
            match (r.out_v, r.in_v) {
                (Some(a), Some(b)) => LsifView {
                    range_to_result_set: v.range_to_result_set.insert(a@, b@),
                    ..v
                },
                _ => v,
            }
        } else if holds(r.label, "textDocument/definition"@) {
            match (r.out_v, r.in_v) {
                (Some(a), Some(b)) => LsifView {
                    result_set_to_def: v.result_set_to_def.insert(a@, b@),
                    ..v
                },
                _ => v,
            }
        } else if holds(r.label, "item"@) && holds(r.property, "definitions"@) {
            LsifView {
                def_ranges: v.def_ranges.union(item_set(texts(r.in_vs@))),
                ..v
            }
        } else {
            v
        }
    } else {
        v
    }
}

/// What the first `n` records say.
pub open spec fn tables(records: Seq<LsifRecord>, n: nat) -> LsifView
    decreases n,
{
    if n == 0 {
        no_records()
    } else {
        with_record(tables(records, (n - 1) as nat), records[n - 1])
    }
}

/// The tables that records are folded into.
pub struct LsifTables {
    documents: StringHashMap<String>,
    order: Vec<String>,
    ranges: StringHashMap<RangeEntry>,
    def_ranges: StringHashMap<bool>,
    result_set_to_def: StringHashMap<String>,
    range_to_result_set: StringHashMap<String>,
}

/// The texts of a map.
pub open spec fn map_texts(m: Map<Seq<char>, String>) -> Map<Seq<char>, Seq<char>> {
    m.map_values(|s: String| s@)
}

/// The ranges of a map.
pub open spec fn map_ranges(m: Map<Seq<char>, RangeEntry>) -> Map<Seq<char>, RangeView> {
    m.map_values(|e: RangeEntry| RangeView { document: e.document@, start: e.start })
}

pub broadcast proof fn lemma_map_texts_insert(m: Map<Seq<char>, String>, k: Seq<char>, s: String)
    ensures
        #[trigger] map_texts(m.insert(k, s)) == map_texts(m).insert(k, s@),
{
}

pub broadcast proof fn lemma_map_ranges_insert(
    m: Map<Seq<char>, RangeEntry>,
    k: Seq<char>,
    e: RangeEntry,
)
    ensures
        #[trigger] map_ranges(m.insert(k, e)) == map_ranges(m).insert(
            k,
            RangeView { document: e.document@, start: e.start },
        ),
{
}

impl View for LsifTables {
    type V = LsifView;

    closed spec fn view(&self) -> LsifView {
        LsifView {
            documents: map_texts(self.documents@),
            order: texts(self.order@),
            ranges: map_ranges(self.ranges@),
            def_ranges: self.def_ranges@.dom(),
            result_set_to_def: map_texts(self.result_set_to_def@),
            range_to_result_set: map_texts(self.range_to_result_set@),
        }
    }
}

impl LsifTables {
    /// Tables without a record.
    pub fn new() -> (r: LsifTables)
        ensures
            r@ == no_records(),
    {
        let r = LsifTables {
            documents: StringHashMap::new(),
            order: Vec::new(),
            ranges: StringHashMap::new(),
            def_ranges: StringHashMap::new(),
            result_set_to_def: StringHashMap::new(),
            range_to_result_set: StringHashMap::new(),
        };
        assert(r@.documents =~= no_records().documents);
        assert(r@.order =~= no_records().order);
        assert(r@.ranges =~= no_records().ranges);
        r
    }

    fn place(&mut self, document: &str, ids: &Vec<String>)
        ensures
            final(self)@ == (LsifView {
                ranges: contained(old(self)@.ranges, document@, texts(ids@), ids@.len()),
                ..old(self)@
            }),
    {
        broadcast use lemma_map_ranges_insert;

        let n: usize = ids.len();
        let mut i: usize = 0;
        while i < n
            invariant
                i <= n,
                n == ids@.len(),
                self@ == (LsifView {
                    ranges: contained(old(self)@.ranges, document@, texts(ids@), i as nat),
                    ..old(self)@
                }),
            decreases n - i,
        {
            let ghost before = self@.ranges;
            let ghost id = ids@[i as int]@;
            let unplaced = match self.ranges.get(ids[i].as_str()) {
                Some(e) => if e.document.as_str().unicode_len() == 0 {
                    Some(e.start)
                } else {
                    None
                },
                None => None,
            };
            if let Some(start) = unplaced {
                self.ranges.insert(
                    copy_text(ids[i].as_str()),
                    RangeEntry { document: copy_text(document), start },
                );
                assert(self@.ranges =~= before.insert(
                    id,
                    RangeView { document: document@, start },
                ));
            }
            i += 1;
        }
    }

    fn mark_definitions(&mut self, ids: &Vec<String>)
        ensures
            final(self)@ == (LsifView {
                def_ranges: old(self)@.def_ranges.union(item_set(texts(ids@))),
                ..old(self)@
            }),
    {
        let n: usize = ids.len();
        let mut i: usize = 0;
        assert(self@.def_ranges =~= self@.def_ranges.union(item_set(texts(ids@).take(0))));
        while i < n
            invariant
                i <= n,
                n == ids@.len(),
                self@ == (LsifView {
                    def_ranges: old(self)@.def_ranges.union(item_set(texts(ids@).take(i as int))),
                    ..old(self)@
                }),
            decreases n - i,
        {
            self.def_ranges.insert(copy_text(ids[i].as_str()), true);
            proof {
                let before = texts(ids@).take(i as int);
                let now = texts(ids@).take(i + 1);
                assert forall|x: Seq<char>|
                    item_set(now).contains(x) == (item_set(before).contains(x) || x
                        == ids@[i as int]@) by {
                    assert(now[i as int] == ids@[i as int]@);
                }
                assert(self@.def_ranges =~= old(self)@.def_ranges.union(item_set(now)));
            }
            i += 1;
        }
        assert(texts(ids@).take(n as int) =~= texts(ids@));
    }

    /// Takes note of a record.
    pub fn record(&mut self, r: &LsifRecord)
        ensures
            final(self)@ == with_record(old(self)@, *r),
    {
        broadcast use {
            lemma_map_texts_insert,
            lemma_map_ranges_insert,
            crate::text::lemma_texts_push,
        };

        if same_text(r.record_type.as_str(), "vertex") {
            if is(&r.label, "document") {
                if let Some(uri) = &r.uri {
                    self.documents.insert(copy_text(r.id.as_str()), copy_text(uri.as_str()));
                }
            } else if is(&r.label, "range") {
                if let Some(start) = r.start {
                    if !self.ranges.contains_key(r.id.as_str()) {
                        self.order.push(copy_text(r.id.as_str()));
                    }
                    self.ranges.insert(
                        copy_text(r.id.as_str()),
                        RangeEntry { document: text_or_empty(&r.document), start },
                    );
                }
            }
        } else if same_text(r.record_type.as_str(), "edge") {
            if is(&r.label, "contains") {
                let document = text_or_empty(&r.out_v);
                self.place(document.as_str(), &r.in_vs);
            } else if is(&r.label, "next") {
                if let (Some(a), Some(b)) = (&r.out_v, &r.in_v) {
                    self.range_to_result_set.insert(copy_text(a.as_str()), copy_text(b.as_str()));
                }
            } else if is(&r.label, "textDocument/definition") {
                if let (Some(a), Some(b)) = (&r.out_v, &r.in_v) {
                    self.result_set_to_def.insert(copy_text(a.as_str()), copy_text(b.as_str()));
                }
            } else if is(&r.label, "item") && is(&r.property, "definitions") {
                self.mark_definitions(&r.in_vs);
            }
        }
    }
}

/// The path that an address names: without its scheme, with forward slashes.
pub open spec fn address_path(uri: Seq<char>) -> Seq<char> {
    let path = if starts_with(uri, "file://"@) {
        uri.skip(7)
    } else {
        uri
    };
    path.map_values(
        |c: char|
            if c == '\\' {
                '/'
            } else {
                c
            },
    )
}

/// The path that an address names.
pub fn uri_to_vname_path(uri: &str) -> (r: String)
    ensures
        r@ == address_path(uri@),
{
    let chars = chars_of(uri);
    let from: usize = if has_prefix(chars.as_slice(), "file://") {
        proof {
            reveal_strlit("file://");
        }
        7
    } else {
        0
    };
    let ghost path = uri@.skip(from as int);
    let mut out: String = String::new();
    let mut i: usize = from;
    while i < chars.len()
        invariant
            from <= i <= chars@.len(),
            chars@ == uri@,
            path == uri@.skip(from as int),
            out@.len() == i - from,
            forall|k: int|
                0 <= k < i - from ==> out@[k] == if path[k] == '\\' {
                    '/'
                } else {
                    path[k]
                },
        decreases chars@.len() - i,
    {
        let c = chars[i];
        out.push(if c == '\\' { '/' } else { c });
        i += 1;
    }
    assert(uri@.skip(0) =~= uri@);
    out
}

/// Whether a range is where something is defined: it leads to a definition
/// result, and it is itself an item of one.
pub open spec fn is_definition(v: LsifView, id: Seq<char>) -> bool {
    &&& v.range_to_result_set.contains_key(id)
    &&& v.result_set_to_def.contains_key(v.range_to_result_set[id])
    &&& v.def_ranges.contains(id)
}

/// The path of the document that a range lies in; empty where it is unknown.
pub open spec fn range_path(v: LsifView, id: Seq<char>) -> Seq<char> {
    let document = v.ranges[id].document;
    address_path(
        if v.documents.contains_key(document) {
            v.documents[document]
        } else {
            Seq::empty()
        },
    )
}

/// The node of a range, where something is defined there and its path is
/// known.
pub open spec fn range_node(v: LsifView, id: Seq<char>, corpus: Seq<char>, language: Language) -> Option<
    NodeView,
> {
    let path = range_path(v, id);
    let start = v.ranges[id].start;
    if is_definition(v, id) && path.len() > 0 {
        Some(
            node_view(
                corpus,
                path,
                language.name(),
                definition_signature(path, start),
                "definition"@,
                Some(next_line(start.line)),
                None,
            ),
        )
    } else {
        None
    }
}

/// The signature of a definition at `start` of the file `path`.
pub open spec fn definition_signature(path: Seq<char>, start: Position) -> Seq<char> {
    "lsif:def:"@ + path + ":"@ + decimal(start.line as nat) + ":"@ + decimal(start.character as nat)
}

/// The nodes of the first `n` ranges.
pub open spec fn range_nodes(v: LsifView, corpus: Seq<char>, language: Language, n: nat) -> Seq<
    Option<NodeView>,
> {
    Seq::new(n, |i: int| range_node(v, v.order[i], corpus, language))
}

/// The graph of LSIF records: a node for every range where something is
/// defined, in the order in which the ranges came up.
pub open spec fn lsif_graph(v: LsifView, corpus: Seq<char>, language: Language) -> ResponseView {
    ResponseView {
        nodes: crate::emitter::somes(range_nodes(v, corpus, language, v.order.len())),
        ..crate::graph::empty_response()
    }
}

impl LsifTables {
    /// Every range of the order is known.
    pub open spec fn wf(&self) -> bool {
        ordered(self@)
    }

    fn definition_node(&self, id: &str, corpus: &str, language: Language) -> (r: Option<Node>)
        requires
            self@.ranges.contains_key(id@),
        ensures
            match r {
                Some(n) => range_node(self@, id@, corpus@, language) == Some(n@),
                None => range_node(self@, id@, corpus@, language) is None,
            },
    {
        let set = match self.range_to_result_set.get(id) {
            Some(s) => s,
            None => {
                return None;
            },
        };
        if !self.result_set_to_def.contains_key(set.as_str()) || !self.def_ranges.contains_key(id) {
            return None;
        }
        let entry = match self.ranges.get(id) {
            Some(e) => e,
            None => {
                return None;
            },
        };
        let path = match self.documents.get(entry.document.as_str()) {
            Some(uri) => {
                assert(self@.documents[entry.document@] == uri@);
                uri_to_vname_path(uri.as_str())
            },
            None => {
                let none = String::new();
                uri_to_vname_path(none.as_str())
            },
        };
        if path.as_str().unicode_len() == 0 {
            return None;
        }
        let mut sig = String::new();
        sig.append("lsif:def:");
        sig.append(path.as_str());
        sig.append(":");
        push_decimal(&mut sig, entry.start.line as u64);
        sig.append(":");
        push_decimal(&mut sig, entry.start.character as u64);
        let line: u32 = if entry.start.line == u32::MAX {
            0
        } else {
            entry.start.line + 1
        };
        Some(
            node(
                corpus,
                path.as_str(),
                language.as_str(),
                sig.as_str(),
                "definition",
                Some(line),
                None,
            ),
        )
    }

    /// The graph of the records.
    pub fn response(&self, corpus: &str, language: Language) -> (r: InvokeResponse)
        requires
            self.wf(),
        ensures
            r@ == lsif_graph(self@, corpus@, language),
    {
        broadcast use group_views_push;

        let mut nodes: Vec<Node> = Vec::new();
        let n: usize = self.order.len();
        let mut i: usize = 0;
        while i < n
            invariant
                i <= n,
                n == self.order@.len(),
                self.wf(),
                node_views(nodes@) == crate::emitter::somes(
                    range_nodes(self@, corpus@, language, i as nat),
                ),
            decreases n - i,
        {
            let id = self.order[i].as_str();
            assert(self@.order[i as int] == id@);
            let ghost before = range_nodes(self@, corpus@, language, i as nat);
            let found = self.definition_node(id, corpus, language);
            let ghost x = range_node(self@, id@, corpus@, language);
            i += 1;
            proof {
                assert(range_nodes(self@, corpus@, language, i as nat) =~= before.push(x));
                crate::emitter::lemma_somes_push(before, x);
            }
            if let Some(nd) = found {
                nodes.push(nd);
            }
        }
        let mut r = InvokeResponse::empty();
        r.nodes = nodes;
        r
    }
}

/// Every range of the order is known.
pub open spec fn ordered(v: LsifView) -> bool {
    forall|i: int| 0 <= i < v.order.len() ==> v.ranges.contains_key(#[trigger] v.order[i])
}

proof fn lemma_contained_keeps(
    ranges: Map<Seq<char>, RangeView>,
    document: Seq<char>,
    ids: Seq<Seq<char>>,
    n: nat,
)
    ensures
        contained(ranges, document, ids, n).dom() == ranges.dom(),
    decreases n,
{
    if n > 0 {
        lemma_contained_keeps(ranges, document, ids, (n - 1) as nat);
    }
}

proof fn lemma_ordered(v: LsifView, r: LsifRecord)
    requires
        ordered(v),
    ensures
        ordered(with_record(v, r)),
{
    lemma_contained_keeps(v.ranges, or_empty(r.out_v), texts(r.in_vs@), r.in_vs@.len());
}

/// How many of the first `n` lines give a record, up to the first that gives
/// none; `parsed` holds the records, line by line.
pub open spec fn records_read(parsed: Seq<Option<LsifRecord>>, n: nat) -> nat
    decreases n,
{
    if n == 0 {
        0
    } else {
        let before = records_read(parsed, (n - 1) as nat);
        if before == n - 1 && n <= parsed.len() && parsed[n - 1] is Some {
            n
        } else {
            before
        }
    }
}

proof fn lemma_read_stops(parsed: Seq<Option<LsifRecord>>, i: nat, n: nat)
    requires
        i < n,
        records_read(parsed, i) == i,
        i >= parsed.len() || parsed[i as int] is None,
    ensures
        records_read(parsed, n) == i,
    decreases n,
{
    if i + 1 < n {
        lemma_read_stops(parsed, i, (n - 1) as nat);
    }
}

/// What LSIF text comes to: the graph of its records or, where a line is no
/// record, the complaint about the first such line.
pub open spec fn lsif_outcome(
    lsif: Seq<char>,
    parsed: Seq<Option<LsifRecord>>,
    corpus: Seq<char>,
    language: Language,
) -> Result<ResponseView, Seq<char>> {
    let found = record_texts(lines(lsif), lines(lsif).len());
    let k = records_read(parsed, found.len());
    if k < found.len() {
        Err(parse_error_text(found[k as int].0 as nat, found[k as int].1))
    } else {
        let records = parsed.map_values(|r: Option<LsifRecord>| r->0);
        Ok(lsif_graph(tables(records, k), corpus, language))
    }
}

/// The graph of LSIF text. For each of its record lines in turn `parsed` holds
/// the record, and none where the line is no record; a line behind the last of
/// them counts as none.
pub fn ingest(
    lsif: &str,
    parsed: &Vec<Option<LsifRecord>>,
    corpus: &str,
    language: Language,
) -> (r: Result<InvokeResponse, String>)
    ensures
        match r {
            Ok(v) => lsif_outcome(lsif@, parsed@, corpus@, language) == Ok::<_, Seq<char>>(v@),
            Err(e) => lsif_outcome(lsif@, parsed@, corpus@, language) == Err::<ResponseView, _>(e@),
        },
{
    let found = record_lines(lsif);
    let ghost records = parsed@.map_values(|r: Option<LsifRecord>| r->0);
    let mut t = LsifTables::new();
    let n: usize = found.len();
    let mut i: usize = 0;
    while i < n
        invariant
            i <= n,
            n == found@.len(),
            i <= parsed@.len(),
            line_views(found@) == record_texts(lines(lsif@), lines(lsif@).len()),
            records == parsed@.map_values(|r: Option<LsifRecord>| r->0),
            records_read(parsed@, i as nat) == i,
            t@ == tables(records, i as nat),
            t.wf(),
        decreases n - i,
    {
        if i < parsed.len() {
            if let Some(record) = &parsed[i] {
                proof {
                    lemma_ordered(t@, *record);
                }
                t.record(record);
                i += 1;
                continue;
            }
        }
        proof {
            lemma_read_stops(parsed@, i as nat, n as nat);
        }
        return Err(parse_error(&found[i]));
    }
    Ok(t.response(corpus, language))
}

/// A line that is no record refuses the whole text, whatever follows it, and
/// only such a line does.
pub proof fn law_unreadable_line_refuses(
    lsif: Seq<char>,
    parsed: Seq<Option<LsifRecord>>,
    corpus: Seq<char>,
    language: Language,
)
    ensures
        ({
            let n = record_texts(lines(lsif), lines(lsif).len()).len();
            lsif_outcome(lsif, parsed, corpus, language) is Err <==> exists|i: int|
                0 <= i < n && (i >= parsed.len() || #[trigger] parsed[i] is None)
        }),
{
    let n = record_texts(lines(lsif), lines(lsif).len()).len();
    lemma_records_read(parsed, n);
}

proof fn lemma_records_read(parsed: Seq<Option<LsifRecord>>, n: nat)
    ensures
        records_read(parsed, n) <= n,
        records_read(parsed, n) < n <==> exists|i: int|
            0 <= i < n && (i >= parsed.len() || #[trigger] parsed[i] is None),
    decreases n,
{
    if n > 0 {
        lemma_records_read(parsed, (n - 1) as nat);
    }
}

/// A range that names no document at first lies in the one that is said to
/// contain it; one that names a document stays there.
pub proof fn law_contains_fills_only_gaps(
    ranges: Map<Seq<char>, RangeView>,
    document: Seq<char>,
    ids: Seq<Seq<char>>,
    n: nat,
    id: Seq<char>,
)
    requires
        n <= ids.len(),
        ranges.contains_key(id),
    ensures
        ({
            let now = contained(ranges, document, ids, n);
            &&& now.contains_key(id)
            &&& now[id].start == ranges[id].start
            &&& ranges[id].document.len() > 0 ==> now[id] == ranges[id]
            &&& ranges[id].document.len() == 0 && ids.take(n as int).contains(id)
                ==> now[id].document == document
            &&& !ids.take(n as int).contains(id) ==> now[id] == ranges[id]
        }),
    decreases n,
{
    if n > 0 {
        law_contains_fills_only_gaps(ranges, document, ids, (n - 1) as nat, id);
        let now = ids.take(n as int);
        assert(now[n - 1] == ids[n - 1]);
    }
}

/// Whether a record is of this type and has this label.
pub open spec fn is_labelled(r: LsifRecord, record_type: Seq<char>, label: Seq<char>) -> bool {
    r.record_type@ == record_type && (r.label matches Some(l) && l@ == label)
}

/// Whether a record names the document `id` by its address.
pub open spec fn names_document(r: LsifRecord, id: Seq<char>, uri: Seq<char>) -> bool {
    is_labelled(r, "vertex"@, "document"@) && r.id@ == id && (r.uri matches Some(u) && u@ == uri)
}

/// Whether a record is the range `id`.
pub open spec fn is_range_record(r: LsifRecord, id: Seq<char>) -> bool {
    is_labelled(r, "vertex"@, "range"@) && r.id@ == id && r.start is Some
}

/// Whether a record says that `document` contains `id`.
pub open spec fn says_contained(r: LsifRecord, document: Seq<char>, id: Seq<char>) -> bool {
    is_labelled(r, "edge"@, "contains"@) && (r.out_v matches Some(d) && d@ == document) && texts(
        r.in_vs@,
    ).contains(id)
}

/// Whether a record is an edge of this label from `a` to `b`.
pub open spec fn says_edge(r: LsifRecord, label: Seq<char>, a: Seq<char>, b: Seq<char>) -> bool {
    is_labelled(r, "edge"@, label) && (r.out_v matches Some(x) && x@ == a) && (
    r.in_v matches Some(y) && y@ == b)
}

/// Whether a record lists `id` among the definitions of a result.
pub open spec fn lists_definition(r: LsifRecord, id: Seq<char>) -> bool {
    is_labelled(r, "edge"@, "item"@) && (r.property matches Some(p) && p@ == "definitions"@)
        && texts(r.in_vs@).contains(id)
}

proof fn lemma_labels_differ()
    ensures
        "vertex"@ != "edge"@,
        "document"@ != "range"@,
        "contains"@ != "next"@,
        "contains"@ != "textDocument/definition"@,
        "contains"@ != "item"@,
        "next"@ != "textDocument/definition"@,
        "next"@ != "item"@,
        "item"@ != "textDocument/definition"@,
{
    reveal_strlit("vertex");
    reveal_strlit("edge");
    reveal_strlit("document");
    reveal_strlit("range");
    reveal_strlit("contains");
    reveal_strlit("next");
    reveal_strlit("textDocument/definition");
    reveal_strlit("item");
    assert("vertex"@.len() == 6 && "edge"@.len() == 4);
    assert("document"@.len() == 8 && "range"@.len() == 5);
    assert("contains"@.len() == 8 && "textDocument/definition"@.len() == 23);
    assert("next"@[0] == 'n' && "item"@[0] == 'i');
    assert("next"@.len() == 4 && "item"@.len() == 4);
}

proof fn lemma_document_known(
    records: Seq<LsifRecord>,
    n: nat,
    b: int,
    id: Seq<char>,
    uri: Seq<char>,
)
    requires
        0 <= b < n <= records.len(),
        names_document(records[b], id, uri),
        forall|m: int, u: Seq<char>|
            b < m < n ==> !#[trigger] names_document(records[m], id, u),
    ensures
        tables(records, n).documents.contains_key(id),
        tables(records, n).documents[id] == uri,
    decreases n,
{
    lemma_labels_differ();
    if b < n - 1 {
        lemma_document_known(records, (n - 1) as nat, b, id, uri);
        let r = records[n - 1];
        if r.uri is Some {
            assert(!names_document(r, id, r.uri->0@));
        }
    }
}

proof fn lemma_edge_known(
    records: Seq<LsifRecord>,
    n: nat,
    e: int,
    a: Seq<char>,
    b: Seq<char>,
)
    requires
        0 <= e < n <= records.len(),
    ensures
        says_edge(records[e], "next"@, a, b) && (forall|m: int, x: Seq<char>|
            e < m < n ==> !#[trigger] says_edge(records[m], "next"@, a, x)) ==> tables(
            records,
            n,
        ).range_to_result_set.contains_key(a) && tables(records, n).range_to_result_set[a] == b,
        says_edge(records[e], "textDocument/definition"@, a, b) ==> tables(
            records,
            n,
        ).result_set_to_def.contains_key(a),
    decreases n,
{
    lemma_labels_differ();
    if e < n - 1 {
        lemma_edge_known(records, (n - 1) as nat, e, a, b);
        let r = records[n - 1];
        if r.in_v is Some && r.out_v is Some {
            assert(says_edge(r, "next"@, a, r.in_v->0@) || !(is_labelled(r, "edge"@, "next"@)
                && r.out_v->0@ == a));
        }
    }
}

proof fn lemma_item_known(records: Seq<LsifRecord>, n: nat, f: int, id: Seq<char>)
    requires
        0 <= f < n <= records.len(),
        lists_definition(records[f], id),
    ensures
        tables(records, n).def_ranges.contains(id),
    decreases n,
{
    lemma_labels_differ();
    if f < n - 1 {
        lemma_item_known(records, (n - 1) as nat, f, id);
    }
}

proof fn lemma_range_ordered(records: Seq<LsifRecord>, n: nat, a: int, id: Seq<char>)
    requires
        0 <= a < n <= records.len(),
        is_range_record(records[a], id),
    ensures
        tables(records, n).order.contains(id),
        tables(records, n).ranges.contains_key(id),
    decreases n,
{
    lemma_labels_differ();
    let now = tables(records, n);
    let before = tables(records, (n - 1) as nat);
    let r = records[n - 1];
    lemma_all_ordered(records, (n - 1) as nat);
    lemma_contained_keeps(before.ranges, or_empty(r.out_v), texts(r.in_vs@), r.in_vs@.len());
    if a < n - 1 {
        lemma_range_ordered(records, (n - 1) as nat, a, id);
        let p = choose|p: int| 0 <= p < before.order.len() && before.order[p] == id;
        assert(now.order[p] == id);
    } else if !before.ranges.contains_key(id) {
        assert(now.order[now.order.len() - 1] == id);
    }
}

/// Whether the ranges that are known are those of the order.
spec fn order_is_full(v: LsifView) -> bool {
    forall|id: Seq<char>| #[trigger] v.ranges.contains_key(id) <==> v.order.contains(id)
}

proof fn lemma_all_ordered(records: Seq<LsifRecord>, n: nat)
    requires
        n <= records.len(),
    ensures
        order_is_full(tables(records, n)),
    decreases n,
{
    lemma_labels_differ();
    if n > 0 {
        lemma_all_ordered(records, (n - 1) as nat);
        let before = tables(records, (n - 1) as nat);
        let now = tables(records, n);
        let r = records[n - 1];
        lemma_contained_keeps(before.ranges, or_empty(r.out_v), texts(r.in_vs@), r.in_vs@.len());
        assert forall|id: Seq<char>| #[trigger]
            now.ranges.contains_key(id) <==> now.order.contains(id) by {
            assert(before.ranges.contains_key(id) <==> before.order.contains(id));
            if now.order != before.order {
                if before.order.contains(id) {
                    let p = choose|p: int| 0 <= p < before.order.len() && before.order[p] == id;
                    assert(now.order[p] == id);
                }
                assert(now.order[now.order.len() - 1] == r.id@);
                if now.order.contains(id) && id != r.id@ {
                    let p = choose|p: int| 0 <= p < now.order.len() && now.order[p] == id;
                    assert(before.order[p] == id);
                }
            }
        }
    }
}

/// Whether the range that the record `a` is lies in `document`: it names that
/// document itself, or names none and the first record behind it that says
/// where it is contained, `c`, names that document.
pub open spec fn range_lies_in(
    records: Seq<LsifRecord>,
    a: int,
    c: int,
    document: Seq<char>,
) -> bool {
    let id = records[a].id@;
    match records[a].document {
        Some(d) if d@.len() > 0 => d@ == document,
        _ => a < c < records.len() && document.len() > 0 && says_contained(records[c], document, id)
            && forall|m: int, d: Seq<char>|
            a < m < c ==> !#[trigger] says_contained(records[m], d, id),
    }
}

proof fn lemma_range_known(
    records: Seq<LsifRecord>,
    n: nat,
    a: int,
    c: int,
    document: Seq<char>,
)
    requires
        0 <= a < n <= records.len(),
        is_range_record(records[a], records[a].id@),
        forall|m: int| a < m < n ==> !#[trigger] is_range_record(records[m], records[a].id@),
        forall|m: int|
            a < m < n && is_labelled(#[trigger] records[m], "edge"@, "contains"@)
                ==> records[m].out_v is Some,
        range_lies_in(records, a, c, document),
    ensures
        ({
            let id = records[a].id@;
            let ranges = tables(records, n).ranges;
            &&& ranges.contains_key(id)
            &&& ranges[id].start == records[a].start->0
            &&& (records[a].document matches Some(d) && d@.len() > 0) || n > c
                ==> ranges[id].document == document
            &&& !(records[a].document matches Some(d) && d@.len() > 0) && n <= c
                ==> ranges[id].document.len() == 0
        }),
    decreases n,
{
    lemma_labels_differ();
    let id = records[a].id@;
    if a < n - 1 {
        lemma_range_known(records, (n - 1) as nat, a, c, document);
        let before = tables(records, (n - 1) as nat);
        let r = records[n - 1];
        if is_labelled(r, "edge"@, "contains"@) {
            let ids = texts(r.in_vs@);
            law_contains_fills_only_gaps(before.ranges, r.out_v->0@, ids, ids.len(), id);
            assert(ids.take(ids.len() as int) =~= ids);
            if !(records[a].document matches Some(d) && d@.len() > 0) && n - 1 < c {
                assert(!says_contained(r, r.out_v->0@, id));
            }
        } else {
            assert(!is_range_record(r, id));
        }
    }
}

/// A range that leads to a definition result, and is itself among the
/// definitions of one, is a node: in the file that the address of its document
/// names, and on the line behind the number that it starts with.
pub proof fn law_definition_range_is_a_node(
    lsif: Seq<char>,
    parsed: Seq<Option<LsifRecord>>,
    corpus: Seq<char>,
    language: Language,
    records: Seq<LsifRecord>,
    a: int,
    b: int,
    c: int,
    d: int,
    e: int,
    f: int,
    document: Seq<char>,
    set: Seq<char>,
    result: Seq<char>,
    path: Seq<char>,
)
    requires
        records.len() == record_texts(lines(lsif), lines(lsif).len()).len(),
        parsed.len() == records.len(),
        forall|m: int| 0 <= m < records.len() ==> #[trigger] parsed[m] == Some(records[m]),
        0 <= a < records.len(),
        0 <= b < records.len(),
        0 <= d < records.len(),
        0 <= e < records.len(),
        0 <= f < records.len(),
        // the range, and where it lies
        is_range_record(records[a], records[a].id@),
        forall|m: int|
            a < m < records.len() ==> !#[trigger] is_range_record(records[m], records[a].id@),
        forall|m: int|
            a < m < records.len() && is_labelled(#[trigger] records[m], "edge"@, "contains"@)
                ==> records[m].out_v is Some,
        range_lies_in(records, a, c, document),
        // its document
        names_document(records[b], document, "file://"@ + path),
        path.len() > 0,
        forall|q: int| 0 <= q < path.len() ==> (#[trigger] path[q]) != '\\',
        forall|m: int, u: Seq<char>|
            b < m < records.len() ==> !#[trigger] names_document(records[m], document, u),
        // its result set, and the definition result of that
        says_edge(records[d], "next"@, records[a].id@, set),
        forall|m: int, x: Seq<char>|
            d < m < records.len() ==> !#[trigger] says_edge(
                records[m],
                "next"@,
                records[a].id@,
                x,
            ),
        says_edge(records[e], "textDocument/definition"@, set, result),
        // the items of a definition result
        lists_definition(records[f], records[a].id@),
    ensures
        ({
            let start = records[a].start->0;
            lsif_outcome(lsif, parsed, corpus, language) matches Ok(g) && exists|n: int|
                #![trigger g.nodes[n]]
                0 <= n < g.nodes.len() && g.nodes[n].corpus == corpus && g.nodes[n].path == path
                    && g.nodes[n].language == language.name() && g.nodes[n].signature
                    == "lsif:def:"@ + path + ":"@ + decimal(start.line as nat) + ":"@ + decimal(
                    start.character as nat,
                ) && g.nodes[n].kind == "definition"@ && (start.line < u32::MAX ==> g.nodes[n].line
                    == Some((start.line + 1) as u32)) && g.nodes[n].end_line is None
        }),
{
    let n = records.len();
    let id = records[a].id@;
    lemma_records_read(parsed, n);
    assert(parsed.map_values(|r: Option<LsifRecord>| r->0) =~= records);
    let v = tables(records, n);
    lemma_document_known(records, n, b, document, "file://"@ + path);
    lemma_edge_known(records, n, d, id, set);
    lemma_edge_known(records, n, e, set, result);
    lemma_item_known(records, n, f, id);
    lemma_range_ordered(records, n, a, id);
    lemma_range_known(records, n, a, c, document);
    reveal_strlit("file://");
    let uri = "file://"@ + path;
    assert(uri.take(7) =~= "file://"@);
    assert(uri.skip(7) =~= path);
    assert(address_path(uri) =~= path);
    let g = lsif_graph(v, corpus, language);
    let p = choose|p: int| 0 <= p < v.order.len() && v.order[p] == id;
    let slots = range_nodes(v, corpus, language, v.order.len());
    let x = range_node(v, id, corpus, language)->0;
    assert(slots[p] == Some(x));
    crate::emitter::lemma_somes_hold(slots, x);
    let k = choose|k: int| 0 <= k < g.nodes.len() && g.nodes[k] == x;
    assert(records_read(parsed, n) == n);
    assert(lsif_outcome(lsif, parsed, corpus, language) == Ok::<ResponseView, Seq<char>>(g));
    assert(v.ranges[id].document == document);
    assert(range_path(v, id) == path);
    let start = records[a].start->0;
    assert(v.ranges[id].start == start);
    assert(x.path == path && x.corpus == corpus && x.language == language.name());
    assert(x.signature == "lsif:def:"@ + path + ":"@ + decimal(start.line as nat) + ":"@ + decimal(
        start.character as nat,
    ));
    assert(x.kind == "definition"@ && x.end_line is None);
    assert(start.line < u32::MAX ==> x.line == Some((start.line + 1) as u32));
    let o = lsif_outcome(lsif, parsed, corpus, language);
    assert(o->Ok_0.nodes[k] == x);
}

proof fn lemma_tables_stem(records: Seq<LsifRecord>, n: nat, id: Seq<char>)
    requires
        n <= records.len(),
    ensures
        ({
            let v = tables(records, n);
            &&& v.ranges.contains_key(id) ==> exists|m: int|
                0 <= m < n && #[trigger] is_range_record(records[m], id) && records[m].start->0
                    == v.ranges[id].start
            &&& v.def_ranges.contains(id) ==> exists|m: int|
                0 <= m < n && #[trigger] lists_definition(records[m], id)
            &&& v.range_to_result_set.contains_key(id) ==> exists|m: int|
                0 <= m < n && #[trigger] says_edge(
                    records[m],
                    "next"@,
                    id,
                    v.range_to_result_set[id],
                )
            &&& v.result_set_to_def.contains_key(id) ==> exists|m: int|
                0 <= m < n && #[trigger] says_edge(
                    records[m],
                    "textDocument/definition"@,
                    id,
                    v.result_set_to_def[id],
                )
            &&& v.documents.contains_key(id) ==> exists|m: int|
                0 <= m < n && #[trigger] names_document(records[m], id, v.documents[id])
        }),
    decreases n,
{
    lemma_labels_differ();
    if n > 0 {
        lemma_tables_stem(records, (n - 1) as nat, id);
        let before = tables(records, (n - 1) as nat);
        let v = tables(records, n);
        let r = records[n - 1];
        if v.ranges.contains_key(id) {
            if is_range_record(r, id) {
                assert(is_range_record(records[n - 1], id));
            } else {
                let ids = texts(r.in_vs@);
                lemma_contained_keeps(before.ranges, or_empty(r.out_v), ids, ids.len());
                assert(before.ranges.contains_key(id));
                law_contains_fills_only_gaps(before.ranges, or_empty(r.out_v), ids, ids.len(), id);
            }
        }
        if v.def_ranges.contains(id) && !before.def_ranges.contains(id) {
            assert(lists_definition(records[n - 1], id));
        }
        if v.range_to_result_set.contains_key(id) && !(before.range_to_result_set.contains_key(id)
            && before.range_to_result_set[id] == v.range_to_result_set[id]) {
            assert(says_edge(records[n - 1], "next"@, id, v.range_to_result_set[id]));
        }
        if v.result_set_to_def.contains_key(id) && !(before.result_set_to_def.contains_key(id)
            && before.result_set_to_def[id] == v.result_set_to_def[id]) {
            assert(says_edge(
                records[n - 1],
                "textDocument/definition"@,
                id,
                v.result_set_to_def[id],
            ));
        }
        if v.documents.contains_key(id) && !(before.documents.contains_key(id)
            && before.documents[id] == v.documents[id]) {
            assert(names_document(records[n - 1], id, v.documents[id]));
        }
    }
}

/// Every node stems from a range that a record lists among the definitions of
/// a result, and that leads to a definition result by way of a result set.
pub proof fn law_node_stems_from_a_definition_range(
    lsif: Seq<char>,
    parsed: Seq<Option<LsifRecord>>,
    corpus: Seq<char>,
    language: Language,
    records: Seq<LsifRecord>,
    n: int,
)
    requires
        records.len() == record_texts(lines(lsif), lines(lsif).len()).len(),
        parsed.len() == records.len(),
        forall|m: int| 0 <= m < records.len() ==> #[trigger] parsed[m] == Some(records[m]),
        lsif_outcome(lsif, parsed, corpus, language) is Ok,
        0 <= n < lsif_outcome(lsif, parsed, corpus, language)->Ok_0.nodes.len(),
    ensures
        ({
            let x = lsif_outcome(lsif, parsed, corpus, language)->Ok_0.nodes[n];
            exists|a: int, f: int, d: int, e: int, id: Seq<char>, set: Seq<char>, result: Seq<char>|
                #![trigger is_range_record(records[a], id), lists_definition(records[f], id), says_edge(records[d], "next"@, id, set), says_edge(records[e], "textDocument/definition"@, set, result)]
                0 <= a < records.len() && 0 <= f < records.len() && 0 <= d < records.len() && 0 <= e
                    < records.len() && is_range_record(records[a], id) && lists_definition(
                    records[f],
                    id,
                ) && says_edge(records[d], "next"@, id, set) && says_edge(
                    records[e],
                    "textDocument/definition"@,
                    set,
                    result,
                ) && x.path.len() > 0 && x.signature == "lsif:def:"@ + x.path + ":"@ + decimal(
                    records[a].start->0.line as nat,
                ) + ":"@ + decimal(records[a].start->0.character as nat)
        }),
{
    let count = records.len();
    lemma_records_read(parsed, count);
    assert(parsed.map_values(|r: Option<LsifRecord>| r->0) =~= records);
    let v = tables(records, count);
    let g = lsif_graph(v, corpus, language);
    let x = g.nodes[n];
    let slots = range_nodes(v, corpus, language, v.order.len());
    assert(g.nodes.contains(x));
    crate::emitter::lemma_somes_hold(slots, x);
    let p = choose|p: int| 0 <= p < slots.len() && slots[p] == Some(x);
    let id = v.order[p];
    lemma_all_ordered(records, count);
    assert(v.order.contains(id));
    assert(v.ranges.contains_key(id));
    assert(range_node(v, id, corpus, language) == Some(x));
    let set = v.range_to_result_set[id];
    lemma_tables_stem(records, count, id);
    lemma_tables_stem(records, count, set);
    let a = choose|a: int|
        0 <= a < count && #[trigger] is_range_record(records[a], id) && records[a].start->0
            == v.ranges[id].start;
    let f = choose|f: int| 0 <= f < count && #[trigger] lists_definition(records[f], id);
    let d = choose|d: int| 0 <= d < count && #[trigger] says_edge(records[d], "next"@, id, set);
    let result = v.result_set_to_def[set];
    let e = choose|e: int|
        0 <= e < count && #[trigger] says_edge(
            records[e],
            "textDocument/definition"@,
            set,
            result,
        );
    assert(is_range_record(records[a], id));
    assert(lists_definition(records[f], id));
    assert(says_edge(records[d], "next"@, id, set));
    assert(says_edge(records[e], "textDocument/definition"@, set, result));
}

} // verus!
