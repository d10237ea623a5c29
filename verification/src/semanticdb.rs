//! SemanticDB files: a serialized list of documents, of which the symbols and
//! their occurrences are read.
use vstd::prelude::*;
use vstd::slice::slice_subrange;
use vstd::utf8::{decode_utf8, encode_utf8, valid_utf8};
use crate::wire::{
    bytes_field, field_view, integer_field, law_written_fields_read_back, next_field, utf8_text,
    wire_fields, Field, WireField,
};

verus! {

/// An occurrence of a symbol in a document.
#[derive(Debug)]
pub struct SdbOccurrence {
    /// Lines and characters are counted from zero.
    pub start_line: u32,
    pub start_char: u32,
    pub end_line: u32,
    pub symbol: String,
    /// 1 for a reference, 2 for a definition.
    pub role: u32,
    /// Whether the occurrence carried a range: without one, its lines mean
    /// nothing.
    pub has_range: bool,
}

/// What an `SdbOccurrence` holds.
pub struct SdbOccurrenceView {
    pub start_line: u32,
    pub start_char: u32,
    pub end_line: u32,
    pub symbol: Seq<char>,
    pub role: u32,
    pub has_range: bool,
}

impl View for SdbOccurrence {
    type V = SdbOccurrenceView;

    open spec fn view(&self) -> SdbOccurrenceView {
        SdbOccurrenceView {
            start_line: self.start_line,
            start_char: self.start_char,
            end_line: self.end_line,
            symbol: self.symbol@,
            role: self.role,
            has_range: self.has_range,
        }
    }
}

/// A symbol that a document defines.
#[derive(Debug)]
pub struct SdbSymbol {
    pub symbol: String,
    pub kind: u32,
}

/// What an `SdbSymbol` holds.
pub struct SdbSymbolView {
    pub symbol: Seq<char>,
    pub kind: u32,
}

impl View for SdbSymbol {
    type V = SdbSymbolView;

    open spec fn view(&self) -> SdbSymbolView {
        SdbSymbolView { symbol: self.symbol@, kind: self.kind }
    }
}

/// A source file and what the compiler found in it.
#[derive(Debug)]
pub struct TextDocument {
    pub uri: String,
    pub symbols: Vec<SdbSymbol>,
    pub occurrences: Vec<SdbOccurrence>,
}

/// What a `TextDocument` holds.
pub struct TextDocumentView {
    pub uri: Seq<char>,
    pub symbols: Seq<SdbSymbolView>,
    pub occurrences: Seq<SdbOccurrenceView>,
}

pub open spec fn sdb_symbol_views(v: Seq<SdbSymbol>) -> Seq<SdbSymbolView> {
    v.map_values(|s: SdbSymbol| s@)
}

pub open spec fn sdb_occurrence_views(v: Seq<SdbOccurrence>) -> Seq<SdbOccurrenceView> {
    v.map_values(|o: SdbOccurrence| o@)
}

pub open spec fn text_document_views(v: Seq<TextDocument>) -> Seq<TextDocumentView> {
    v.map_values(|d: TextDocument| d@)
}

impl View for TextDocument {
    type V = TextDocumentView;

    open spec fn view(&self) -> TextDocumentView {
        TextDocumentView {
            uri: self.uri@,
            symbols: sdb_symbol_views(self.symbols@),
            occurrences: sdb_occurrence_views(self.occurrences@),
        }
    }
}

/// The text that the bytes `b` hold, or `old` where they are no UTF-8.
pub open spec fn text_or(b: Seq<u8>, old: Seq<char>) -> Seq<char> {
    if valid_utf8(b) {
        decode_utf8(b)
    } else {
        old
    }
}

/// The start line, start character and end line of a range, after the field
/// `f` of its message.
pub open spec fn range_after(r: (u32, u32, u32), f: WireField) -> (u32, u32, u32) {
    match f {
        WireField::Varint(1, v) => (v as u32, r.1, r.2),
        WireField::Varint(2, v) => (r.0, v as u32, r.2),
        WireField::Varint(3, v) => (r.0, r.1, v as u32),
        _ => r,
    }
}

/// The start line, start character and end line that the fields of a range
/// give; what is missing is zero.
pub open spec fn range_from(fields: Seq<WireField>) -> (u32, u32, u32)
    decreases fields.len(),
{
    if fields.len() == 0 {
        (0, 0, 0)
    } else {
        range_after(range_from(fields.drop_last()), fields.last())
    }
}

/// The start line, start character and end line of a serialized range.
pub fn parse_range_lines(data: &[u8]) -> (r: (u32, u32, u32))
    ensures
        r == range_from(wire_fields(data@)),
{
    let mut start_line: u32 = 0;
    let mut start_char: u32 = 0;
    let mut end_line: u32 = 0;
    let mut pos: usize = 0;
    let ghost mut done: Seq<WireField> = Seq::empty();
    proof {
        lemma_start(data@);
    }
    while pos < data.len()
        invariant
            pos <= data@.len(),
            done + wire_fields(data@.skip(pos as int)) == wire_fields(data@),
            (start_line, start_char, end_line) == range_from(done),
        decreases data@.len() - pos,
    {
        match next_field(data, pos) {
            None => {
                return (start_line, start_char, end_line);
            },
            Some((f, end)) => {
                if let Field::Varint(number, v) = f {
                    #[verifier::truncate]
                    let val: u32 = v as u32;
                    if number == 1 {
                        start_line = val;
                    } else if number == 2 {
                        start_char = val;
                    } else if number == 3 {
                        end_line = val;
                    }
                }
                proof {
                    let w = field_view(f, data@);
                    lemma_step(data@, done, w, pos as int, end as int);
                    done = done.push(w);
                }
                pos = end;
            },
        }
    }
    proof {
        lemma_end(data@, done, pos as int);
    }
    (start_line, start_char, end_line)
}

proof fn lemma_empty_fields()
    ensures
        wire_fields(Seq::<u8>::empty()) == Seq::<WireField>::empty(),
{
}

proof fn lemma_step(d: Seq<u8>, done: Seq<WireField>, w: WireField, pos: int, end: int)
    requires
        done + wire_fields(d.skip(pos)) == wire_fields(d),
        wire_fields(d.skip(pos)) == seq![w] + wire_fields(d.skip(end)),
    ensures
        done.push(w) + wire_fields(d.skip(end)) == wire_fields(d),
        done.push(w).drop_last() == done,
        done.push(w).last() == w,
{
    assert(done.push(w).drop_last() =~= done);
}

proof fn lemma_start(d: Seq<u8>)
    ensures
        Seq::<WireField>::empty() + wire_fields(d.skip(0)) == wire_fields(d),
{
    assert(d.skip(0) =~= d);
}

proof fn lemma_end(d: Seq<u8>, done: Seq<WireField>, pos: int)
    requires
        done + wire_fields(d.skip(pos)) == wire_fields(d),
        pos == d.len() || wire_fields(d.skip(pos)) == Seq::<WireField>::empty(),
    ensures
        done == wire_fields(d),
{
    if pos == d.len() {
        lemma_empty_fields();
    }
}

/// An occurrence after the field `f` of its message.
pub open spec fn occurrence_after(o: SdbOccurrenceView, f: WireField) -> SdbOccurrenceView {
    match f {
        WireField::Bytes(1, b) => {
            let (start_line, start_char, end_line) = range_from(wire_fields(b));
            SdbOccurrenceView {
                start_line,
                start_char,
                end_line: if end_line > 0 {
                    end_line
                } else {
                    start_line
                },
                has_range: true,
                ..o
            }
        },
        WireField::Bytes(2, b) => SdbOccurrenceView { symbol: text_or(b, o.symbol), ..o },
        WireField::Varint(3, v) => SdbOccurrenceView { role: v as u32, ..o },
        _ => o,
    }
}

/// The occurrence that the fields of its message give.
pub open spec fn occurrence_from(fields: Seq<WireField>) -> SdbOccurrenceView
    decreases fields.len(),
{
    if fields.len() == 0 {
        SdbOccurrenceView {
            start_line: 0,
            start_char: 0,
            end_line: 0,
            symbol: Seq::empty(),
            role: 0,
            has_range: false,
        }
    } else {
        occurrence_after(occurrence_from(fields.drop_last()), fields.last())
    }
}

/// Decodes an occurrence.
pub fn parse_occurrence(data: &[u8]) -> (r: SdbOccurrence)
    ensures
        r@ == occurrence_from(wire_fields(data@)),
{
    let mut occ = SdbOccurrence {
        start_line: 0,
        start_char: 0,
        end_line: 0,
        symbol: String::new(),
        role: 0,
        has_range: false,
    };
    let mut pos: usize = 0;
    let ghost mut done: Seq<WireField> = Seq::empty();
    proof {
        lemma_start(data@);
    }
    while pos < data.len()
        invariant
            pos <= data@.len(),
            done + wire_fields(data@.skip(pos as int)) == wire_fields(data@),
            occ@ == occurrence_from(done),
        decreases data@.len() - pos,
    {
        match next_field(data, pos) {
            None => {
                return occ;
            },
            Some((f, end)) => {
                proof {
                    let w = field_view(f, data@);
                    lemma_step(data@, done, w, pos as int, end as int);
                    done = done.push(w);
                }
                match f {
                    Field::Bytes(1, i, j) => {
                        let (sl, sc, el) = parse_range_lines(slice_subrange(data, i, j));
                        occ.start_line = sl;
                        occ.start_char = sc;
                        occ.end_line = if el > 0 { el } else { sl };
                        occ.has_range = true;
                    },
                    Field::Bytes(2, i, j) => {
                        if let Some(s) = utf8_text(slice_subrange(data, i, j)) {
                            occ.symbol = s;
                        }
                    },
                    Field::Varint(3, v) => {
                        #[verifier::truncate]
                        let role: u32 = v as u32;
                        occ.role = role;
                    },
                    _ => {},
                }
                pos = end;
            },
        }
    }
    proof {
        lemma_end(data@, done, pos as int);
    }
    occ
}

/// A symbol after the field `f` of its message.
pub open spec fn symbol_after(s: SdbSymbolView, f: WireField) -> SdbSymbolView {
    match f {
        WireField::Bytes(1, b) => SdbSymbolView { symbol: text_or(b, s.symbol), ..s },
        WireField::Varint(3, v) => SdbSymbolView { kind: v as u32, ..s },
        _ => s,
    }
}

/// The symbol that the fields of its message give.
pub open spec fn symbol_from(fields: Seq<WireField>) -> SdbSymbolView
    decreases fields.len(),
{
    if fields.len() == 0 {
        SdbSymbolView { symbol: Seq::empty(), kind: 0 }
    } else {
        symbol_after(symbol_from(fields.drop_last()), fields.last())
    }
}

/// Decodes a symbol.
pub fn parse_sym_info(data: &[u8]) -> (r: SdbSymbol)
    ensures
        r@ == symbol_from(wire_fields(data@)),
{
    let mut info = SdbSymbol { symbol: String::new(), kind: 0 };
    let mut pos: usize = 0;
    let ghost mut done: Seq<WireField> = Seq::empty();
    proof {
        lemma_start(data@);
    }
    while pos < data.len()
        invariant
            pos <= data@.len(),
            done + wire_fields(data@.skip(pos as int)) == wire_fields(data@),
            info@ == symbol_from(done),
        decreases data@.len() - pos,
    {
        match next_field(data, pos) {
            None => {
                return info;
            },
            Some((f, end)) => {
                proof {
                    let w = field_view(f, data@);
                    lemma_step(data@, done, w, pos as int, end as int);
                    done = done.push(w);
                }
                match f {
                    Field::Bytes(1, i, j) => {
                        if let Some(s) = utf8_text(slice_subrange(data, i, j)) {
                            info.symbol = s;
                        }
                    },
                    Field::Varint(3, v) => {
                        #[verifier::truncate]
                        let kind: u32 = v as u32;
                        info.kind = kind;
                    },
                    _ => {},
                }
                pos = end;
            },
        }
    }
    proof {
        lemma_end(data@, done, pos as int);
    }
    info
}

/// A document after the field `f` of its message.
pub open spec fn document_after(d: TextDocumentView, f: WireField) -> TextDocumentView {
    match f {
        WireField::Bytes(2, b) => TextDocumentView { uri: text_or(b, d.uri), ..d },
        WireField::Bytes(5, b) => TextDocumentView {
            symbols: d.symbols.push(symbol_from(wire_fields(b))),
            ..d
        },
        WireField::Bytes(6, b) => TextDocumentView {
            occurrences: d.occurrences.push(occurrence_from(wire_fields(b))),
            ..d
        },
        _ => d,
    }
}

/// The document that the fields of its message give.
pub open spec fn document_from(fields: Seq<WireField>) -> TextDocumentView
    decreases fields.len(),
{
    if fields.len() == 0 {
        TextDocumentView { uri: Seq::empty(), symbols: Seq::empty(), occurrences: Seq::empty() }
    } else {
        document_after(document_from(fields.drop_last()), fields.last())
    }
}

/// Decodes a document.
pub fn parse_text_document(data: &[u8]) -> (r: TextDocument)
    ensures
        r@ == document_from(wire_fields(data@)),
{
    let mut uri = String::new();
    let mut symbols: Vec<SdbSymbol> = Vec::new();
    let mut occurrences: Vec<SdbOccurrence> = Vec::new();
    let mut pos: usize = 0;
    let ghost mut done: Seq<WireField> = Seq::empty();
    proof {
        lemma_start(data@);
    }
    while pos < data.len()
        invariant
            pos <= data@.len(),
            done + wire_fields(data@.skip(pos as int)) == wire_fields(data@),
            uri@ == document_from(done).uri,
            sdb_symbol_views(symbols@) == document_from(done).symbols,
            sdb_occurrence_views(occurrences@) == document_from(done).occurrences,
        decreases data@.len() - pos,
    {
        match next_field(data, pos) {
            None => {
                return TextDocument { uri, symbols, occurrences };
            },
            Some((f, end)) => {
                proof {
                    let w = field_view(f, data@);
                    lemma_step(data@, done, w, pos as int, end as int);
                    done = done.push(w);
                }
                match f {
                    Field::Bytes(2, i, j) => {
                        if let Some(s) = utf8_text(slice_subrange(data, i, j)) {
                            uri = s;
                        }
                    },
                    Field::Bytes(5, i, j) => {
                        let s = parse_sym_info(slice_subrange(data, i, j));
                        symbols.push(s);
                    },
                    Field::Bytes(6, i, j) => {
                        let o = parse_occurrence(slice_subrange(data, i, j));
                        occurrences.push(o);
                    },
                    _ => {},
                }
                pos = end;
            },
        }
    }
    proof {
        lemma_end(data@, done, pos as int);
    }
    TextDocument { uri, symbols, occurrences }
}

/// The documents that the fields of a file give.
pub open spec fn documents_from(fields: Seq<WireField>) -> Seq<TextDocumentView>
    decreases fields.len(),
{
    if fields.len() == 0 {
        Seq::empty()
    } else {
        let before = documents_from(fields.drop_last());
        match fields.last() {
            WireField::Bytes(1, b) => before.push(document_from(wire_fields(b))),
            _ => before,
        }
    }
}

/// Decodes a file: every document in it, as far as it can be read.
pub fn parse_text_documents(data: &[u8]) -> (r: Vec<TextDocument>)
    ensures
        text_document_views(r@) == documents_from(wire_fields(data@)),
{
    let mut docs: Vec<TextDocument> = Vec::new();
    let mut pos: usize = 0;
    let ghost mut done: Seq<WireField> = Seq::empty();
    proof {
        lemma_start(data@);
    }
    while pos < data.len()
        invariant
            pos <= data@.len(),
            done + wire_fields(data@.skip(pos as int)) == wire_fields(data@),
            text_document_views(docs@) == documents_from(done),
        decreases data@.len() - pos,
    {
        match next_field(data, pos) {
            None => {
                return docs;
            },
            Some((f, end)) => {
                proof {
                    let w = field_view(f, data@);
                    lemma_step(data@, done, w, pos as int, end as int);
                    done = done.push(w);
                }
                if let Field::Bytes(1, i, j) = f {
                    let d = parse_text_document(slice_subrange(data, i, j));
                    docs.push(d);
                }
                pos = end;
            },
        }
    }
    proof {
        lemma_end(data@, done, pos as int);
    }
    docs
}

/// A range of SemanticDB, as it is written.
pub open spec fn written_range(o: SdbOccurrenceView, end_char: u32) -> Seq<u8> {
    integer_field(1, o.start_line as u64) + integer_field(2, o.start_char as u64) + integer_field(
        3,
        o.end_line as u64,
    ) + integer_field(4, end_char as u64)
}

/// An occurrence of SemanticDB, as it is written: its range where it has one,
/// its symbol and its role.
pub open spec fn written_occurrence(o: SdbOccurrenceView, end_char: u32) -> Seq<u8> {
    (if o.has_range {
        bytes_field(1, written_range(o, end_char))
    } else {
        Seq::empty()
    }) + bytes_field(2, encode_utf8(o.symbol)) + integer_field(3, o.role as u64)
}

/// A symbol of SemanticDB, as it is written.
pub open spec fn written_symbol(s: SdbSymbolView) -> Seq<u8> {
    bytes_field(1, encode_utf8(s.symbol)) + integer_field(3, s.kind as u64)
}

/// The first `n` symbols of a document, as they are written.
pub open spec fn written_symbols(symbols: Seq<SdbSymbolView>, n: nat) -> Seq<u8>
    decreases n,
{
    if n == 0 {
        Seq::empty()
    } else {
        written_symbols(symbols, (n - 1) as nat) + bytes_field(5, written_symbol(symbols[n - 1]))
    }
}

/// The first `n` occurrences of a document, as they are written.
pub open spec fn written_occurrences(
    occurrences: Seq<SdbOccurrenceView>,
    ends: Seq<u32>,
    n: nat,
) -> Seq<u8>
    decreases n,
{
    if n == 0 {
        Seq::empty()
    } else {
        written_occurrences(occurrences, ends, (n - 1) as nat) + bytes_field(
            6,
            written_occurrence(occurrences[n - 1], ends[n - 1]),
        )
    }
}

/// A document of SemanticDB, as it is written: the version of its schema, its
/// path, its symbols and its occurrences, which end at the characters `ends`.
pub open spec fn written_document(d: TextDocumentView, ends: Seq<u32>) -> Seq<u8> {
    integer_field(1, 4) + bytes_field(2, encode_utf8(d.uri)) + written_symbols(
        d.symbols,
        d.symbols.len(),
    ) + written_occurrences(d.occurrences, ends, d.occurrences.len())
}

/// An occurrence that ends no earlier than it starts, and that says nothing of
/// its place where it has none.
pub open spec fn is_placed_or_bare(o: SdbOccurrenceView) -> bool {
    if o.has_range {
        o.start_line <= o.end_line
    } else {
        o.start_line == 0 && o.start_char == 0 && o.end_line == 0
    }
}

proof fn lemma_range_reads_back(o: SdbOccurrenceView, end_char: u32)
    ensures
        range_from(wire_fields(written_range(o, end_char))) == (
            o.start_line,
            o.start_char,
            o.end_line,
        ),
{
    let none = Seq::<u8>::empty();
    let d = integer_field(4, end_char as u64) + none;
    let c = integer_field(3, o.end_line as u64) + d;
    let b = integer_field(2, o.start_char as u64) + c;
    let a = integer_field(1, o.start_line as u64) + b;
    law_written_fields_read_back(4, end_char as u64, none, none);
    law_written_fields_read_back(3, o.end_line as u64, none, d);
    law_written_fields_read_back(2, o.start_char as u64, none, c);
    law_written_fields_read_back(1, o.start_line as u64, none, b);
    lemma_empty_fields();
    assert(written_range(o, end_char) =~= a);
    let f = seq![
        WireField::Varint(1, o.start_line as u64),
        WireField::Varint(2, o.start_char as u64),
        WireField::Varint(3, o.end_line as u64),
        WireField::Varint(4, end_char as u64),
    ];
    assert(wire_fields(a) =~= f);
    reveal_with_fuel(range_from, 5);
    let f3 = f.drop_last();
    let f2 = f3.drop_last();
    let f1 = f2.drop_last();
    assert(f1.drop_last() =~= Seq::<WireField>::empty());
    assert(range_from(f1) == (o.start_line, 0u32, 0u32));
    assert(range_from(f2) == (o.start_line, o.start_char, 0u32));
    assert(range_from(f3) == (o.start_line, o.start_char, o.end_line));
}

proof fn lemma_text_reads_back(s: Seq<char>, old: Seq<char>)
    ensures
        text_or(encode_utf8(s), old) == s,
{
    vstd::utf8::encode_utf8_valid_utf8(s);
    vstd::utf8::encode_utf8_decode_utf8(s);
}

proof fn lemma_occurrence_reads_back(o: SdbOccurrenceView, end_char: u32)
    requires
        is_placed_or_bare(o),
        written_occurrence(o, end_char).len() <= u64::MAX,
    ensures
        occurrence_from(wire_fields(written_occurrence(o, end_char))) == o,
{
    let none = Seq::<u8>::empty();
    let text = encode_utf8(o.symbol);
    let place = written_range(o, end_char);
    let c = integer_field(3, o.role as u64) + none;
    let b = bytes_field(2, text) + c;
    let a = bytes_field(1, place) + b;
    law_written_fields_read_back(3, o.role as u64, none, none);
    law_written_fields_read_back(2, 0, text, c);
    lemma_empty_fields();
    lemma_range_reads_back(o, end_char);
    reveal_with_fuel(occurrence_from, 4);
    let last = WireField::Varint(3, o.role as u64);
    if o.has_range {
        law_written_fields_read_back(1, 0, place, b);
        assert(written_occurrence(o, end_char) =~= a);
        let f = seq![WireField::Bytes(1, place), WireField::Bytes(2, text), last];
        assert(wire_fields(a) =~= f);
        let f2 = f.drop_last();
        let f1 = f2.drop_last();
        assert(f1.drop_last() =~= Seq::<WireField>::empty());
        lemma_text_reads_back(o.symbol, occurrence_from(f1).symbol);
    } else {
        assert(written_occurrence(o, end_char) =~= b);
        let f = seq![WireField::Bytes(2, text), last];
        assert(wire_fields(b) =~= f);
        let f1 = f.drop_last();
        assert(f1.drop_last() =~= Seq::<WireField>::empty());
        lemma_text_reads_back(o.symbol, Seq::empty());
    }
}

proof fn lemma_symbol_reads_back(s: SdbSymbolView)
    requires
        written_symbol(s).len() <= u64::MAX,
    ensures
        symbol_from(wire_fields(written_symbol(s))) == s,
{
    let none = Seq::<u8>::empty();
    let text = encode_utf8(s.symbol);
    let b = integer_field(3, s.kind as u64) + none;
    let a = bytes_field(1, text) + b;
    law_written_fields_read_back(3, s.kind as u64, none, none);
    law_written_fields_read_back(1, 0, text, b);
    lemma_empty_fields();
    assert(written_symbol(s) =~= a);
    let f = seq![WireField::Bytes(1, text), WireField::Varint(3, s.kind as u64)];
    assert(wire_fields(a) =~= f);
    reveal_with_fuel(symbol_from, 3);
    let f1 = f.drop_last();
    assert(f1.drop_last() =~= Seq::<WireField>::empty());
    lemma_text_reads_back(s.symbol, Seq::empty());
}

proof fn lemma_symbols_read_back(symbols: Seq<SdbSymbolView>, n: nat, rest: Seq<u8>)
    requires
        n <= symbols.len(),
        written_symbols(symbols, n).len() <= u64::MAX,
    ensures
        wire_fields(written_symbols(symbols, n) + rest) == Seq::new(
            n,
            |i: int| WireField::Bytes(5, written_symbol(symbols[i])),
        ) + wire_fields(rest),
    decreases n,
{
    let fields = Seq::new(n, |i: int| WireField::Bytes(5, written_symbol(symbols[i])));
    if n > 0 {
        let before = written_symbols(symbols, (n - 1) as nat);
        let one = written_symbol(symbols[n - 1]);
        let last = bytes_field(5, one) + rest;
        lemma_symbols_read_back(symbols, (n - 1) as nat, last);
        law_written_fields_read_back(5, 0, one, rest);
        assert(written_symbols(symbols, n) + rest =~= before + last);
        assert(fields =~= Seq::new(
            (n - 1) as nat,
            |i: int| WireField::Bytes(5, written_symbol(symbols[i])),
        ) + seq![WireField::Bytes(5, one)]);
        assert(wire_fields(before + last) =~= fields + wire_fields(rest));
    } else {
        assert(written_symbols(symbols, n) + rest =~= rest);
        assert(fields + wire_fields(rest) =~= wire_fields(rest));
    }
}

proof fn lemma_occurrences_read_back(
    occurrences: Seq<SdbOccurrenceView>,
    ends: Seq<u32>,
    n: nat,
    rest: Seq<u8>,
)
    requires
        n <= occurrences.len(),
        written_occurrences(occurrences, ends, n).len() <= u64::MAX,
    ensures
        wire_fields(written_occurrences(occurrences, ends, n) + rest) == Seq::new(
            n,
            |i: int| WireField::Bytes(6, written_occurrence(occurrences[i], ends[i])),
        ) + wire_fields(rest),
    decreases n,
{
    let fields = Seq::new(
        n,
        |i: int| WireField::Bytes(6, written_occurrence(occurrences[i], ends[i])),
    );
    if n > 0 {
        let before = written_occurrences(occurrences, ends, (n - 1) as nat);
        let one = written_occurrence(occurrences[n - 1], ends[n - 1]);
        let last = bytes_field(6, one) + rest;
        lemma_occurrences_read_back(occurrences, ends, (n - 1) as nat, last);
        law_written_fields_read_back(6, 0, one, rest);
        assert(written_occurrences(occurrences, ends, n) + rest =~= before + last);
        assert(fields =~= Seq::new(
            (n - 1) as nat,
            |i: int| WireField::Bytes(6, written_occurrence(occurrences[i], ends[i])),
        ) + seq![WireField::Bytes(6, one)]);
        assert(wire_fields(before + last) =~= fields + wire_fields(rest));
    } else {
        assert(written_occurrences(occurrences, ends, n) + rest =~= rest);
        assert(fields + wire_fields(rest) =~= wire_fields(rest));
    }
}

proof fn lemma_symbol_fields(head: Seq<WireField>, symbols: Seq<SdbSymbolView>, n: nat)
    requires
        n <= symbols.len(),
        written_symbols(symbols, n).len() <= u64::MAX,
        document_from(head).symbols.len() == 0,
    ensures
        ({
            let fields = Seq::new(n, |i: int| WireField::Bytes(5, written_symbol(symbols[i])));
            document_from(head + fields) == (TextDocumentView {
                symbols: symbols.take(n as int),
                ..document_from(head)
            })
        }),
    decreases n,
{
    let fields = Seq::new(n, |i: int| WireField::Bytes(5, written_symbol(symbols[i])));
    if n > 0 {
        lemma_symbol_fields(head, symbols, (n - 1) as nat);
        let before = Seq::new(
            (n - 1) as nat,
            |i: int| WireField::Bytes(5, written_symbol(symbols[i])),
        );
        assert((head + fields).drop_last() =~= head + before);
        lemma_symbol_reads_back(symbols[n - 1]);
        assert(symbols.take(n as int) =~= symbols.take(n - 1).push(symbols[n - 1]));
    } else {
        assert(head + fields =~= head);
        assert(symbols.take(0) =~= document_from(head).symbols);
    }
}

proof fn lemma_occurrence_fields(
    head: Seq<WireField>,
    occurrences: Seq<SdbOccurrenceView>,
    ends: Seq<u32>,
    n: nat,
)
    requires
        n <= occurrences.len(),
        written_occurrences(occurrences, ends, n).len() <= u64::MAX,
        document_from(head).occurrences.len() == 0,
        forall|i: int| 0 <= i < occurrences.len() ==> is_placed_or_bare(#[trigger] occurrences[i]),
    ensures
        ({
            let fields = Seq::new(
                n,
                |i: int| WireField::Bytes(6, written_occurrence(occurrences[i], ends[i])),
            );
            document_from(head + fields) == (TextDocumentView {
                occurrences: occurrences.take(n as int),
                ..document_from(head)
            })
        }),
    decreases n,
{
    let fields = Seq::new(
        n,
        |i: int| WireField::Bytes(6, written_occurrence(occurrences[i], ends[i])),
    );
    if n > 0 {
        lemma_occurrence_fields(head, occurrences, ends, (n - 1) as nat);
        let before = Seq::new(
            (n - 1) as nat,
            |i: int| WireField::Bytes(6, written_occurrence(occurrences[i], ends[i])),
        );
        assert((head + fields).drop_last() =~= head + before);
        lemma_occurrence_reads_back(occurrences[n - 1], ends[n - 1]);
        assert(occurrences.take(n as int) =~= occurrences.take(n - 1).push(occurrences[n - 1]));
    } else {
        assert(head + fields =~= head);
        assert(occurrences.take(0) =~= document_from(head).occurrences);
    }
}

/// Decoding a file gives back the document that was written into it: its path,
/// its symbols with their kinds, and its occurrences with their symbols, roles
/// and places.
pub proof fn law_written_document_reads_back(d: TextDocumentView, ends: Seq<u32>)
    requires
        written_document(d, ends).len() <= u64::MAX,
        forall|i: int|
            0 <= i < d.occurrences.len() ==> is_placed_or_bare(#[trigger] d.occurrences[i]),
    ensures
        documents_from(wire_fields(bytes_field(1, written_document(d, ends)))) == seq![d],
{
    let none = Seq::<u8>::empty();
    let uri = encode_utf8(d.uri);
    let ns = d.symbols.len();
    let no = d.occurrences.len();
    let c = written_occurrences(d.occurrences, ends, no) + none;
    let b = written_symbols(d.symbols, ns) + c;
    let a = bytes_field(2, uri) + b;
    let all = integer_field(1, 4) + a;
    let body = written_document(d, ends);
    assert(body =~= all);
    law_written_fields_read_back(1, 4, none, a);
    law_written_fields_read_back(2, 0, uri, b);
    lemma_symbols_read_back(d.symbols, ns, c);
    lemma_occurrences_read_back(d.occurrences, ends, no, none);
    lemma_empty_fields();
    let fs = Seq::new(ns, |i: int| WireField::Bytes(5, written_symbol(d.symbols[i])));
    let fo = Seq::new(
        no,
        |i: int| WireField::Bytes(6, written_occurrence(d.occurrences[i], ends[i])),
    );
    let head = seq![WireField::Varint(1, 4), WireField::Bytes(2, uri)];
    assert(wire_fields(body) =~= head + fs + fo);
    reveal_with_fuel(document_from, 3);
    let h1 = head.drop_last();
    assert(h1.drop_last() =~= Seq::<WireField>::empty());
    lemma_text_reads_back(d.uri, Seq::empty());
    assert(document_from(head).uri == d.uri);
    lemma_symbol_fields(head, d.symbols, ns);
    lemma_occurrence_fields(head + fs, d.occurrences, ends, no);
    assert(d.symbols.take(ns as int) =~= d.symbols);
    assert(d.occurrences.take(no as int) =~= d.occurrences);
    assert(document_from(wire_fields(body)) == d);
    law_written_fields_read_back(1, 0, body, none);
    let file = bytes_field(1, body);
    assert(file + none =~= file);
    let f = seq![WireField::Bytes(1, body)];
    assert(wire_fields(file) =~= f);
    reveal_with_fuel(documents_from, 2);
    assert(f.drop_last() =~= Seq::<WireField>::empty());
    assert(documents_from(f) =~= seq![d]);
}

/// The documents of a file come in the order in which they stand in it, each
/// as it would alone.
pub proof fn law_documents_keep_their_order(b: Seq<u8>, rest: Seq<u8>)
    requires
        b.len() <= u64::MAX,
    ensures
        documents_from(wire_fields(bytes_field(1, b) + rest)) == seq![
            document_from(wire_fields(b)),
        ] + documents_from(wire_fields(rest)),
{
    law_written_fields_read_back(1, 0, b, rest);
    lemma_documents_join(b, wire_fields(rest));
}

proof fn lemma_documents_join(b: Seq<u8>, rest: Seq<WireField>)
    ensures
        documents_from(seq![WireField::Bytes(1, b)] + rest) == seq![document_from(wire_fields(b))]
            + documents_from(rest),
    decreases rest.len(),
{
    let f = WireField::Bytes(1, b);
    let all = seq![f] + rest;
    let head = seq![document_from(wire_fields(b))];
    if rest.len() == 0 {
        assert(all.drop_last() =~= Seq::<WireField>::empty());
        assert(all.last() == f);
        assert(documents_from(all.drop_last()) =~= Seq::<TextDocumentView>::empty());
    } else {
        assert(all.drop_last() =~= seq![f] + rest.drop_last());
        assert(all.last() == rest.last());
        lemma_documents_join(b, rest.drop_last());
    }
    assert(documents_from(all) =~= head + documents_from(rest));
}

} // verus!
