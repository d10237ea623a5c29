//! A SCIP index as the reader sees it: its documents, their occurrences and
//! symbols, and how it is decoded from its binary form.
use protobuf::Message;
use vstd::prelude::*;

use crate::wire::{
    law_written_integer_reads_back, read_varint, varint, varint_bytes, varint_taken,
};

verus! {

/// A field that the decoder does not know.
#[derive(Debug)]
pub enum UnknownValue {
    Fixed32(u32),
    Fixed64(u64),
    Varint(u64),
    LengthDelimited(Vec<u8>),
}

/// What an `UnknownValue` holds.
pub enum UnknownView {
    Fixed32(u32),
    Fixed64(u64),
    Varint(u64),
    LengthDelimited(Seq<u8>),
}

impl View for UnknownValue {
    type V = UnknownView;

    open spec fn view(&self) -> UnknownView {
        match self {
            UnknownValue::Fixed32(v) => UnknownView::Fixed32(*v),
            UnknownValue::Fixed64(v) => UnknownView::Fixed64(*v),
            UnknownValue::Varint(v) => UnknownView::Varint(*v),
            UnknownValue::LengthDelimited(b) => UnknownView::LengthDelimited(b@),
        }
    }
}

/// A place in a document where a symbol stands.
#[derive(Debug)]
pub struct ScipOccurrence {
    pub symbol: String,
    pub symbol_roles: i32,
    pub range: Vec<i32>,
    pub enclosing_range: Vec<i32>,
    /// Fields by number, as the decoder found them.
    pub unknown: Vec<(u32, UnknownValue)>,
}

/// What an `ScipOccurrence` holds.
pub struct OccurrenceView {
    pub symbol: Seq<char>,
    pub symbol_roles: i32,
    pub range: Seq<i32>,
    pub enclosing_range: Seq<i32>,
    pub unknown: Seq<(u32, UnknownView)>,
}

pub open spec fn unknown_views(v: Seq<(u32, UnknownValue)>) -> Seq<(u32, UnknownView)> {
    v.map_values(|f: (u32, UnknownValue)| (f.0, f.1@))
}

impl View for ScipOccurrence {
    type V = OccurrenceView;

    open spec fn view(&self) -> OccurrenceView {
        OccurrenceView {
            symbol: self.symbol@,
            symbol_roles: self.symbol_roles,
            range: self.range@,
            enclosing_range: self.enclosing_range@,
            unknown: unknown_views(self.unknown@),
        }
    }
}

/// How a symbol relates to another one.
#[derive(Debug)]
pub struct ScipRelationship {
    pub symbol: String,
    pub is_reference: bool,
    pub is_implementation: bool,
}

/// What a `ScipRelationship` holds.
pub struct RelationshipView {
    pub symbol: Seq<char>,
    pub is_reference: bool,
    pub is_implementation: bool,
}

impl View for ScipRelationship {
    type V = RelationshipView;

    open spec fn view(&self) -> RelationshipView {
        RelationshipView {
            symbol: self.symbol@,
            is_reference: self.is_reference,
            is_implementation: self.is_implementation,
        }
    }
}

/// What an index says of a symbol.
#[derive(Debug)]
pub struct ScipSymbol {
    pub symbol: String,
    /// The number of the symbol's kind in the SCIP schema.
    pub kind: i32,
    pub relationships: Vec<ScipRelationship>,
}

/// What a `ScipSymbol` holds.
pub struct SymbolView {
    pub symbol: Seq<char>,
    pub kind: i32,
    pub relationships: Seq<RelationshipView>,
}

impl View for ScipSymbol {
    type V = SymbolView;

    open spec fn view(&self) -> SymbolView {
        SymbolView {
            symbol: self.symbol@,
            kind: self.kind,
            relationships: self.relationships@.map_values(|r: ScipRelationship| r@),
        }
    }
}

/// A file of the project.
#[derive(Debug)]
pub struct ScipDocument {
    pub relative_path: String,
    pub language: String,
    /// The source, where it is known.
    pub text: String,
    pub occurrences: Vec<ScipOccurrence>,
    pub symbols: Vec<ScipSymbol>,
}

/// What a `ScipDocument` holds.
pub struct DocumentView {
    pub relative_path: Seq<char>,
    pub language: Seq<char>,
    pub text: Seq<char>,
    pub occurrences: Seq<OccurrenceView>,
    pub symbols: Seq<SymbolView>,
}

impl View for ScipDocument {
    type V = DocumentView;

    open spec fn view(&self) -> DocumentView {
        DocumentView {
            relative_path: self.relative_path@,
            language: self.language@,
            text: self.text@,
            occurrences: self.occurrences@.map_values(|o: ScipOccurrence| o@),
            symbols: self.symbols@.map_values(|s: ScipSymbol| s@),
        }
    }
}

/// An index: the root of the project, and its documents.
#[derive(Debug)]
pub struct ScipIndex {
    pub project_root: String,
    pub documents: Vec<ScipDocument>,
}

/// What an `ScipIndex` holds.
pub struct IndexView {
    pub project_root: Seq<char>,
    pub documents: Seq<DocumentView>,
}

pub open spec fn document_views(v: Seq<ScipDocument>) -> Seq<DocumentView> {
    v.map_values(|d: ScipDocument| d@)
}

impl View for ScipIndex {
    type V = IndexView;

    open spec fn view(&self) -> IndexView {
        IndexView {
            project_root: self.project_root@,
            documents: document_views(self.documents@),
        }
    }
}

/// An index as the `scip` crate decodes it.
#[verifier::external_type_specification]
#[verifier::external_body]
pub struct ExScipIndex(scip::types::Index);

/// A document as the `scip` crate decodes it.
#[verifier::external_type_specification]
#[verifier::external_body]
pub struct ExScipDocument(scip::types::Document);

/// An occurrence as the `scip` crate decodes it.
#[verifier::external_type_specification]
#[verifier::external_body]
pub struct ExScipOccurrence(scip::types::Occurrence);

/// A symbol's information as the `scip` crate decodes it.
#[verifier::external_type_specification]
#[verifier::external_body]
pub struct ExScipSymbolInformation(scip::types::SymbolInformation);

/// What the decoder says of bytes that are no message.
#[verifier::external_type_specification]
#[verifier::external_body]
pub struct ExProtobufError(protobuf::Error);

/// What `parse_from_bytes` of `scip::types::Index` gives.
pub uninterp spec fn scip_index(bytes: Seq<u8>) -> Option<scip::types::Index>;

/// The root of the project that the metadata of a decoded index holds.
pub uninterp spec fn scip_root(index: scip::types::Index) -> Seq<char>;

/// The documents of a decoded index.
pub uninterp spec fn scip_documents(index: scip::types::Index) -> Seq<scip::types::Document>;

/// The path, the language and the text of a decoded document.
pub uninterp spec fn scip_file(document: scip::types::Document) -> (Seq<char>, Seq<char>, Seq<char>);

/// The occurrences of a decoded document.
pub uninterp spec fn scip_occurrences(document: scip::types::Document) -> Seq<
    scip::types::Occurrence,
>;

/// The symbols of a decoded document.
pub uninterp spec fn scip_symbols(document: scip::types::Document) -> Seq<
    scip::types::SymbolInformation,
>;

/// The symbol, the roles, the range and the enclosing range of a decoded
/// occurrence.
pub uninterp spec fn scip_occurrence(occurrence: scip::types::Occurrence) -> (
    Seq<char>,
    i32,
    Seq<i32>,
    Seq<i32>,
);

/// The values of the field with this number, which the `scip` crate does not
/// know, of a decoded occurrence.
pub uninterp spec fn scip_unknown(occurrence: scip::types::Occurrence, number: u32) -> Seq<
    UnknownView,
>;

/// The fields of a decoded symbol's information.
pub uninterp spec fn scip_symbol(symbol: scip::types::SymbolInformation) -> SymbolView;

/// `protobuf::Message::parse_from_bytes` for `scip::types::Index`: what it
/// accepts, and what it decodes, depends on the bytes alone.
#[verifier::external_body]
fn parse_index(bytes: &[u8]) -> (r: Result<scip::types::Index, protobuf::Error>)
    ensures
        match r {
            Ok(index) => scip_index(bytes@) == Some(index),
            Err(_) => scip_index(bytes@) is None,
        },
{
    scip::types::Index::parse_from_bytes(bytes)
}

/// Takes a `scip::types::Index` apart: the root in its metadata, empty where
/// there is none, and its documents.
#[verifier::external_body]
fn index_parts(index: scip::types::Index) -> (r: (String, Vec<scip::types::Document>))
    ensures
        r.0@ == scip_root(index),
        r.1@ == scip_documents(index),
{
    (index.metadata.into_option().unwrap_or_default().project_root, index.documents)
}

/// Takes a `scip::types::Document` apart: its path, its language, its text, its
/// occurrences and its symbols.
#[verifier::external_body]
fn document_parts(document: scip::types::Document) -> (r: (
    (String, String, String),
    Vec<scip::types::Occurrence>,
    Vec<scip::types::SymbolInformation>,
))
    ensures
        (r.0.0@, r.0.1@, r.0.2@) == scip_file(document),
        r.1@ == scip_occurrences(document),
        r.2@ == scip_symbols(document),
{
    (
        (document.relative_path, document.language, document.text),
        document.occurrences,
        document.symbols,
    )
}

/// The values of the fields with this number, in order.
pub open spec fn with_number(fields: Seq<(u32, UnknownView)>, number: u32) -> Seq<UnknownView>
    decreases fields.len(),
{
    if fields.len() == 0 {
        Seq::empty()
    } else if fields[0].0 == number {
        seq![fields[0].1] + with_number(fields.skip(1), number)
    } else {
        with_number(fields.skip(1), number)
    }
}

/// The fields of a `scip::types::Occurrence`. Of those that the `scip` crate
/// does not know, `protobuf::UnknownFields` keeps the values of one number in
/// an order of their own; in which order it hands out the numbers is left
/// open.
#[verifier::external_body]
fn occurrence_parts(o: scip::types::Occurrence) -> (r: ScipOccurrence)
    ensures
        (r@.symbol, r@.symbol_roles, r@.range, r@.enclosing_range) == scip_occurrence(o),
        forall|number: u32| #[trigger]
            with_number(r@.unknown, number) == scip_unknown(o, number),
{
    let unknown = o.special_fields.unknown_fields().iter().map(|(number, value)| (number, match value {
        protobuf::UnknownValueRef::Fixed32(v) => UnknownValue::Fixed32(v),
        protobuf::UnknownValueRef::Fixed64(v) => UnknownValue::Fixed64(v),
        protobuf::UnknownValueRef::Varint(v) => UnknownValue::Varint(v),
        protobuf::UnknownValueRef::LengthDelimited(v) => UnknownValue::LengthDelimited(v.to_vec()),
    })).collect();
    ScipOccurrence {
        symbol: o.symbol,
        symbol_roles: o.symbol_roles,
        range: o.range,
        enclosing_range: o.enclosing_range,
        unknown,
    }
}

/// The fields of a `scip::types::SymbolInformation`, its kind as the number
/// that `protobuf::EnumOrUnknown::value` gives.
#[verifier::external_body]
fn symbol_parts(s: scip::types::SymbolInformation) -> (r: ScipSymbol)
    ensures
        r@ == scip_symbol(s),
{
    let relationships = s.relationships.into_iter().map(|r| ScipRelationship {
        symbol: r.symbol,
        is_reference: r.is_reference,
        is_implementation: r.is_implementation,
    }).collect();
    ScipSymbol { symbol: s.symbol, kind: s.kind.value(), relationships }
}

/// Whether `v` is what a decoded occurrence holds.
pub open spec fn holds_occurrence(o: scip::types::Occurrence, v: OccurrenceView) -> bool {
    &&& (v.symbol, v.symbol_roles, v.range, v.enclosing_range) == scip_occurrence(o)
    &&& forall|number: u32| #[trigger] with_number(v.unknown, number) == scip_unknown(o, number)
}

/// Whether `v` is what a decoded document holds.
pub open spec fn holds_document(d: scip::types::Document, v: DocumentView) -> bool {
    &&& (v.relative_path, v.language, v.text) == scip_file(d)
    &&& v.symbols == scip_symbols(d).map_values(
        |s: scip::types::SymbolInformation| scip_symbol(s),
    )
    &&& v.occurrences.len() == scip_occurrences(d).len()
    &&& forall|k: int|
        0 <= k < v.occurrences.len() ==> holds_occurrence(
            scip_occurrences(d)[k],
            #[trigger] v.occurrences[k],
        )
}

/// Whether `v` is what a decoded index holds.
pub open spec fn holds_index(i: scip::types::Index, v: IndexView) -> bool {
    &&& v.project_root == scip_root(i)
    &&& v.documents.len() == scip_documents(i).len()
    &&& forall|k: int|
        0 <= k < v.documents.len() ==> holds_document(
            scip_documents(i)[k],
            #[trigger] v.documents[k],
        )
}

/// Why an index cannot be read.
#[derive(Debug, Clone, Copy, PartialEq, Eq, Structural)]
pub enum ScipError {
    /// The bytes are no SCIP message.
    Malformed,
}

fn read_document(d: scip::types::Document) -> (r: ScipDocument)
    ensures
        holds_document(d, r@),
{
    let ((relative_path, language, text), raw_occurrences, raw_symbols) = document_parts(d);
    let mut occurrences: Vec<ScipOccurrence> = Vec::new();
    for o in it: raw_occurrences
        invariant
            it.seq() == scip_occurrences(d),
            occurrences@.len() == it.index(),
            forall|k: int|
                0 <= k < occurrences@.len() ==> holds_occurrence(
                    scip_occurrences(d)[k],
                    (#[trigger] occurrences@[k])@,
                ),
    {
        occurrences.push(occurrence_parts(o));
    }
    let mut symbols: Vec<ScipSymbol> = Vec::new();
    for s in it: raw_symbols
        invariant
            it.seq() == scip_symbols(d),
            symbols@.len() == it.index(),
            forall|k: int| 0 <= k < symbols@.len() ==> (#[trigger] symbols@[k])@ == scip_symbol(
                scip_symbols(d)[k],
            ),
    {
        symbols.push(symbol_parts(s));
    }
    let r = ScipDocument { relative_path, language, text, occurrences, symbols };
    assert(r@.symbols =~= scip_symbols(d).map_values(
        |s: scip::types::SymbolInformation| scip_symbol(s),
    ));
    r
}

/// Decodes an index from its binary form. An empty file holds no index.
pub fn decode_index(bytes: &[u8]) -> (r: Result<Option<ScipIndex>, ScipError>)
    ensures
        bytes@.len() == 0 ==> r == Ok::<Option<ScipIndex>, ScipError>(None),
        bytes@.len() > 0 ==> match scip_index(bytes@) {
            Some(i) => r matches Ok(Some(index)) && holds_index(i, index@),
            None => r == Err::<Option<ScipIndex>, ScipError>(ScipError::Malformed),
        },
{
    if bytes.len() == 0 {
        return Ok(None);
    }
    let raw = match parse_index(bytes) {
        Ok(i) => i,
        Err(_) => {
            return Err(ScipError::Malformed);
        },
    };
    let ghost i = raw;
    let (project_root, raw_documents) = index_parts(raw);
    let mut documents: Vec<ScipDocument> = Vec::new();
    for d in it: raw_documents
        invariant
            it.seq() == scip_documents(i),
            documents@.len() == it.index(),
            forall|k: int|
                0 <= k < documents@.len() ==> holds_document(
                    scip_documents(i)[k],
                    (#[trigger] documents@[k])@,
                ),
    {
        documents.push(read_document(d));
    }
    let r = ScipIndex { project_root, documents };
    Ok(Some(r))
}

/// The slots of a range after the fields of the message `b` have been put
/// into them: field `i` goes to slot `i - 1`. A field that is missing leaves
/// its slot as it is; reading ends at anything that is no integer field.
pub open spec fn range_slots(b: Seq<u8>, out: Seq<i32>) -> Seq<i32>
    decreases b.len(),
{
    match varint(b) {
        None => out,
        Some(tag) => {
            let n = varint_taken(b);
            let rest = b.skip(n);
            if tag % 8 != 0 {
                out
            } else {
                match varint(rest) {
                    None => out,
                    Some(v) => {
                        let m = varint_taken(rest);
                        let next = if 1 <= tag / 8 <= out.len() {
                            out.update(tag / 8 - 1, v as i32)
                        } else {
                            out
                        };
                        if 0 < n <= b.len() && 0 < m <= rest.len() {
                            range_slots(rest.skip(m), next)
                        } else {
                            next
                        }
                    },
                }
            }
        },
    }
}

/// A range of `arity` slots, all zero but for the fields that are there: a
/// zero is not written to the wire.
pub open spec fn submessage_range(b: Seq<u8>, arity: nat) -> Seq<i32> {
    range_slots(b, Seq::new(arity, |i: int| 0i32))
}

/// Decodes a range of `arity` slots from its message.
pub fn parse_range_submessage(bytes: &[u8], arity: usize) -> (r: Vec<i32>)
    ensures
        r@ == submessage_range(bytes@, arity as nat),
        r@.len() == arity,
{
    let mut out: Vec<i32> = Vec::new();
    let mut k: usize = 0;
    while k < arity
        invariant
            k <= arity,
            out@ == Seq::new(k as nat, |i: int| 0i32),
        decreases arity - k,
    {
        out.push(0);
        k += 1;
    }
    let n: usize = bytes.len();
    let mut pos: usize = 0;
    assert(bytes@.skip(0) =~= bytes@);
    while pos < n
        invariant
            pos <= n,
            n == bytes@.len(),
            out@.len() == arity,
            range_slots(bytes@.skip(pos as int), out@) == submessage_range(bytes@, arity as nat),
        decreases n - pos,
    {
        let ghost b = bytes@.skip(pos as int);
        let (tag, after) = read_varint(bytes, pos);
        let tag: u64 = match tag {
            Some(t) => t,
            None => {
                return out;
            },
        };
        assert(b.skip(after - pos) =~= bytes@.skip(after as int));
        if tag % 8 != 0 {
            return out;
        }
        let (val, end) = read_varint(bytes, after);
        let val: u64 = match val {
            Some(v) => v,
            None => {
                return out;
            },
        };
        let ghost rest = bytes@.skip(after as int);
        proof {
            crate::wire::lemma_varint_taken(b);
            crate::wire::lemma_varint_taken(rest);
            assert(rest.skip(end - after) =~= bytes@.skip(end as int));
        }
        let field: u64 = tag / 8;
        if 1 <= field && field <= arity as u64 {
            #[verifier::truncate]
            let slot: i32 = val as i32;
            out.set((field - 1) as usize, slot);
        }
        pos = end;
    }
    out
}

/// The range that the unknown fields of an occurrence hold: the first field
/// with the number `single`, a range of three slots, or `multi`, one of four.
pub open spec fn typed_range(unknown: Seq<(u32, UnknownView)>, single: u32, multi: u32) -> Seq<i32>
    decreases unknown.len(),
{
    if unknown.len() == 0 {
        Seq::empty()
    } else {
        match unknown[0].1 {
            UnknownView::LengthDelimited(b) if unknown[0].0 == single => submessage_range(b, 3),
            UnknownView::LengthDelimited(b) if unknown[0].0 == multi => submessage_range(b, 4),
            _ => typed_range(unknown.skip(1), single, multi),
        }
    }
}

/// The range that the unknown fields of an occurrence hold; empty where there
/// is none.
pub fn decode_typed_range(occ: &ScipOccurrence, single: u32, multi: u32) -> (r: Vec<i32>)
    ensures
        r@ == typed_range(occ@.unknown, single, multi),
{
    let n: usize = occ.unknown.len();
    let mut i: usize = 0;
    assert(occ@.unknown.skip(0) =~= occ@.unknown);
    while i < n
        invariant
            i <= n,
            n == occ.unknown@.len(),
            typed_range(occ@.unknown.skip(i as int), single, multi) == typed_range(
                occ@.unknown,
                single,
                multi,
            ),
        decreases n - i,
    {
        let ghost rest = occ@.unknown.skip(i as int);
        let f = &occ.unknown[i];
        assert(rest.skip(1) =~= occ@.unknown.skip(i + 1));
        if let UnknownValue::LengthDelimited(b) = &f.1 {
            if f.0 == single {
                return parse_range_submessage(b.as_slice(), 3);
            }
            if f.0 == multi {
                return parse_range_submessage(b.as_slice(), 4);
            }
        }
        i += 1;
    }
    Vec::new()
}

/// The range of an occurrence, in either of its encodings.
pub open spec fn range_of(o: OccurrenceView) -> Seq<i32> {
    if o.range.len() > 0 {
        o.range
    } else {
        typed_range(o.unknown, 8, 9)
    }
}

/// The enclosing range of an occurrence, in either of its encodings.
pub open spec fn enclosing_range_of(o: OccurrenceView) -> Seq<i32> {
    if o.enclosing_range.len() > 0 {
        o.enclosing_range
    } else {
        typed_range(o.unknown, 10, 11)
    }
}

fn copy_numbers(v: &Vec<i32>) -> (r: Vec<i32>)
    ensures
        r@ == v@,
{
    let mut out: Vec<i32> = Vec::new();
    let mut i: usize = 0;
    while i < v.len()
        invariant
            i <= v@.len(),
            out@ == v@.take(i as int),
        decreases v@.len() - i,
    {
        out.push(v[i]);
        i += 1;
    }
    out
}

/// The range of an occurrence: `[line, start, end]` or `[line, start, end
/// line, end]`.
pub fn scip_range(occ: &ScipOccurrence) -> (r: Vec<i32>)
    ensures
        r@ == range_of(occ@),
{
    if occ.range.len() > 0 {
        copy_numbers(&occ.range)
    } else {
        decode_typed_range(occ, 8, 9)
    }
}

/// The enclosing range of an occurrence.
pub fn scip_enclosing_range(occ: &ScipOccurrence) -> (r: Vec<i32>)
    ensures
        r@ == enclosing_range_of(occ@),
{
    if occ.enclosing_range.len() > 0 {
        copy_numbers(&occ.enclosing_range)
    } else {
        decode_typed_range(occ, 10, 11)
    }
}

proof fn lemma_slots_len(b: Seq<u8>, out: Seq<i32>)
    ensures
        range_slots(b, out).len() == out.len(),
    decreases b.len(),
{
    match varint(b) {
        None => {},
        Some(tag) => {
            let n = varint_taken(b);
            let rest = b.skip(n);
            if tag % 8 == 0 && varint(rest) is Some {
                let v = varint(rest)->0;
                let m = varint_taken(rest);
                let next = if 1 <= tag / 8 <= out.len() {
                    out.update(tag / 8 - 1, v as i32)
                } else {
                    out
                };
                if 0 < n <= b.len() && 0 < m <= rest.len() {
                    lemma_slots_len(rest.skip(m), next);
                }
            }
        },
    }
}

/// A number as the wire has it: a negative one counts down from 2 to the 64th.
pub open spec fn wire_number(x: i32) -> u64 {
    if x >= 0 {
        x as u64
    } else {
        (x + 0x1_0000_0000_0000_0000) as u64
    }
}

/// The field for the slot `i` of the range `v`: nothing for a zero.
pub open spec fn slot_bytes(v: Seq<i32>, i: int) -> Seq<u8> {
    if v[i] == 0 {
        Seq::empty()
    } else {
        varint_bytes((8 * (i + 1)) as nat) + varint_bytes(wire_number(v[i]) as nat)
    }
}

/// The message for the slots of the range `v` from `i` on.
pub open spec fn range_message(v: Seq<i32>, i: int) -> Seq<u8>
    decreases v.len() - i,
{
    if i < 0 || i >= v.len() {
        Seq::empty()
    } else {
        slot_bytes(v, i) + range_message(v, i + 1)
    }
}

proof fn lemma_wire_number(x: i32)
    ensures
        wire_number(x) as i32 == x,
{
    if x >= 0 {
        let n = x as u64;
        assert(n as i32 == x) by (bit_vector)
            requires
                0 <= x,
                n == x as u64,
        ;
    } else {
        let n = x as u64;
        assert(n == x + 0x1_0000_0000_0000_0000 && n as i32 == x) by (bit_vector)
            requires
                x < 0,
                n == x as u64,
        ;
    }
}

proof fn lemma_message_fills(v: Seq<i32>, i: int, out: Seq<i32>)
    requires
        v.len() <= 0x1fff_ffff,
        0 <= i <= v.len(),
        out.len() == v.len(),
        forall|j: int| 0 <= j < i ==> out[j] == v[j],
        forall|j: int| i <= j < v.len() ==> out[j] == 0,
    ensures
        range_slots(range_message(v, i), out) == v,
    decreases v.len() - i,
{
    let b = range_message(v, i);
    if i == v.len() {
        assert(out =~= v);
    } else if v[i] == 0 {
        assert(b =~= range_message(v, i + 1));
        lemma_message_fills(v, i + 1, out);
    } else {
        let tag = (8 * (i + 1)) as u64;
        let value = wire_number(v[i]);
        let later = range_message(v, i + 1);
        let rest = varint_bytes(value as nat) + later;
        assert(b =~= varint_bytes(tag as nat) + rest);
        law_written_integer_reads_back(tag, rest);
        law_written_integer_reads_back(value, later);
        assert(b.skip(varint_taken(b)) =~= rest);
        assert(rest.skip(varint_taken(rest)) =~= later);
        lemma_wire_number(v[i]);
        lemma_message_fills(v, i + 1, out.update(i, v[i]));
    }
}

/// Decoding gives back the range that was written, zeros and all; a field's
/// number has 29 bits.
pub proof fn law_written_range_reads_back(v: Seq<i32>)
    requires
        v.len() <= 0x1fff_ffff,
    ensures
        submessage_range(range_message(v, 0), v.len()) == v,
{
    lemma_message_fills(v, 0, Seq::new(v.len(), |i: int| 0i32));
}

/// A range has as many slots as the field that carried it says, whatever is
/// on the wire: what was left out is zero.
pub proof fn law_range_arity(unknown: Seq<(u32, UnknownView)>, single: u32, multi: u32)
    ensures
        ({
            let n = typed_range(unknown, single, multi).len();
            n == 0 || n == 3 || n == 4
        }),
        submessage_range(Seq::empty(), 3) == seq![0i32, 0, 0],
        submessage_range(Seq::empty(), 4) == seq![0i32, 0, 0, 0],
    decreases unknown.len(),
{
    if unknown.len() > 0 {
        law_range_arity(unknown.skip(1), single, multi);
        match unknown[0].1 {
            UnknownView::LengthDelimited(b) => {
                lemma_slots_len(b, Seq::new(3, |i: int| 0i32));
                lemma_slots_len(b, Seq::new(4, |i: int| 0i32));
            },
            _ => {},
        }
    }
}

/// The first message among the values of a field.
pub open spec fn first_message(values: Seq<UnknownView>) -> Option<Seq<u8>>
    decreases values.len(),
{
    if values.len() == 0 {
        None
    } else {
        match values[0] {
            UnknownView::LengthDelimited(b) => Some(b),
            _ => first_message(values.skip(1)),
        }
    }
}

/// The range of an occurrence is told by which of its two fields it has, in
/// whatever order the fields come: only an occurrence with both would leave it
/// open which one counts.
pub proof fn law_range_is_told_by_its_field(
    fields: Seq<(u32, UnknownView)>,
    single: u32,
    multi: u32,
)
    requires
        single != multi,
        first_message(with_number(fields, single)) is None || first_message(
            with_number(fields, multi),
        ) is None,
    ensures
        typed_range(fields, single, multi) == match first_message(with_number(fields, single)) {
            Some(b) => submessage_range(b, 3),
            None => match first_message(with_number(fields, multi)) {
                Some(b) => submessage_range(b, 4),
                None => Seq::empty(),
            },
        },
    decreases fields.len(),
{
    if fields.len() > 0 {
        let rest = fields.skip(1);
        let one = with_number(rest, single);
        let two = with_number(rest, multi);
        if fields[0].0 == single {
            assert((seq![fields[0].1] + one).skip(1) =~= one);
        } else if fields[0].0 == multi {
            assert((seq![fields[0].1] + two).skip(1) =~= two);
        }
        law_range_is_told_by_its_field(rest, single, multi);
    }
}

/// The range of an occurrence is the list of numbers that it carries, or where
/// it carries none the typed range: of one line in field 8, of several in
/// field 9. For what encloses it these are fields 10 and 11.
pub proof fn law_typed_ranges_stand_in(o: OccurrenceView, v: Seq<i32>)
    requires
        v.len() == 3 || v.len() == 4,
    ensures
        o.range.len() > 0 ==> range_of(o) == o.range,
        o.enclosing_range.len() > 0 ==> enclosing_range_of(o) == o.enclosing_range,
        o.range.len() == 0 && o.unknown == seq![
            (
                (5 + v.len()) as u32,
                UnknownView::LengthDelimited(range_message(v, 0)),
            ),
        ] ==> range_of(o) == v,
        o.enclosing_range.len() == 0 && o.unknown == seq![
            (
                (7 + v.len()) as u32,
                UnknownView::LengthDelimited(range_message(v, 0)),
            ),
        ] ==> enclosing_range_of(o) == v,
        o.range.len() == 0 && o.enclosing_range.len() == 0 && o.unknown.len() == 0 ==> range_of(
            o,
        ).len() == 0 && enclosing_range_of(o).len() == 0,
{
    law_written_range_reads_back(v);
    reveal_with_fuel(typed_range, 3);
}

} // verus!
