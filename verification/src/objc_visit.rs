//! Walks the syntax trees of Objective-C sources and builds an index of their
//! definitions and message sends.
use vstd::prelude::*;
use vstd::string::*;
use crate::columns::utf8_len;
use crate::objc_index::{
    entries_index, has_occurrence, has_symbol, law_recovered_send_is_noted, lemma_candidates_join,
    lemma_occurrence_joins, lemma_symbol_joins, on_line, with_candidates, with_occurrence, with_symbol, BuilderView, DocEntryView,
    IndexBuilder,
};
use crate::objc_sends::{
    candidate_views, candidates, expression_send, law_message_in_a_body_is_found,
    scan_body_for_sends, send_at, syntactic_class_send, tok_views, CandidateView, ClassSend,
    SendCandidate, Tok,
};
use crate::objc_symbol::{
    class_symbol, class_text, function_symbol, function_text, method_symbol, method_text,
    property_symbol, property_text, protocol_symbol, protocol_text,
};
use crate::paths::{below, path_below};
use crate::scip_index::{
    IndexView, OccurrenceView, RelationshipView, ScipIndex, ScipOccurrence, ScipRelationship,
    ScipSymbol, SymbolView, UnknownView,
};
use crate::text::{copy_text, decimal, push_decimal};

verus! {

/// What a cursor of a syntax tree stands for.
#[derive(Debug, Clone, Copy, PartialEq, Eq, Structural)]
pub enum CursorKind {
    Interface,
    Implementation,
    Category,
    CategoryImplementation,
    Protocol,
    Function,
    InstanceMethod,
    ClassMethod,
    Property,
    Message,
    SuperClassRef,
    ProtocolRef,
    ClassRef,
    Other,
}

/// A place in a source, counted from one.
#[derive(Debug)]
pub struct Place {
    pub path: String,
    pub line: u32,
    pub col: u32,
}

/// The lines and columns that a cursor spans, counted from one; all zero
/// where they are unknown.
#[derive(Debug, Clone, Copy, PartialEq, Eq, Structural)]
pub struct Extent {
    pub start_line: u32,
    pub start_col: u32,
    pub end_line: u32,
    pub end_col: u32,
}

/// The declaration that a message was resolved to.
#[derive(Debug)]
pub struct Callee {
    pub kind: CursorKind,
    /// It lies in a header of the system.
    pub system: bool,
    pub selector: String,
    /// The type that it belongs to.
    pub parent_kind: CursorKind,
    pub parent_name: String,
    /// The class that the type, if it is a category, extends.
    pub parent_class: String,
}

/// A cursor of a syntax tree.
#[derive(Debug)]
pub struct Cursor {
    pub kind: CursorKind,
    pub spelling: String,
    /// It lies in a header of the system.
    pub system: bool,
    /// Where its name stands.
    pub place: Option<Place>,
    pub extent: Extent,
    pub callee: Option<Callee>,
    /// Its tokens, where they are needed to read it.
    pub tokens: Vec<Tok>,
    pub children: Vec<Cursor>,
}

/// A translation unit: the cursors at its top, and whether it has errors.
#[derive(Debug)]
pub struct TranslationUnit {
    pub cursors: Vec<Cursor>,
    pub has_error: bool,
}

/// Something found in a source.
#[derive(Debug)]
pub enum Finding {
    Occurrence(String, ScipOccurrence),
    Symbol(String, ScipSymbol),
}

/// What a `Finding` holds.
pub enum FindingView {
    Occurrence(Seq<char>, OccurrenceView),
    Symbol(Seq<char>, SymbolView),
}

impl View for Finding {
    type V = FindingView;

    open spec fn view(&self) -> FindingView {
        match self {
            Finding::Occurrence(p, o) => FindingView::Occurrence(p@, o@),
            Finding::Symbol(p, s) => FindingView::Symbol(p@, s@),
        }
    }
}

pub open spec fn finding_views(v: Seq<Finding>) -> Seq<FindingView> {
    v.map_values(|f: Finding| f@)
}

pub broadcast proof fn lemma_finding_views_push(v: Seq<Finding>, f: Finding)
    ensures
        #[trigger] finding_views(v.push(f)) == finding_views(v).push(f@),
{
}

/// Whether diagnostics hold an error: a severity of three or more.
pub open spec fn any_error(severities: Seq<u32>) -> bool {
    exists|i: int| 0 <= i < severities.len() && #[trigger] severities[i] >= 3
}

/// Whether the diagnostics of a translation unit hold an error.
pub fn tu_has_error(severities: &Vec<u32>) -> (r: bool)
    ensures
        r == any_error(severities@),
{
    let mut i: usize = 0;
    while i < severities.len()
        invariant
            i <= severities@.len(),
            forall|k: int| 0 <= k < i ==> #[trigger] severities@[k] < 3,
        decreases severities@.len() - i,
    {
        if severities[i] >= 3 {
            return true;
        }
        i += 1;
    }
    false
}

/// Where the name of a cursor stands: its file, line and column.
pub open spec fn name_place(c: Cursor) -> Option<(Seq<char>, u32, u32)> {
    match c.place {
        Some(p) if p.line > 0 && p.path@.len() > 0 => Some((p.path@, p.line, p.col)),
        _ => None,
    }
}

/// The range of the name of a cursor.
pub open spec fn name_range(c: Cursor, line: u32, col: u32) -> Seq<i32> {
    seq![
        (line - 1) as i32,
        (col - 1) as i32,
        (col - 1 + utf8_len(c.spelling@)) as i32,
    ]
}

/// A line or column counted from zero, for one counted from one.
pub open spec fn zero_based(n: u32) -> i32 {
    if n == 0 {
        0
    } else {
        ((n - 1) as u32) as i32
    }
}

/// The range of a whole cursor; that of the line of its name where it is
/// unknown.
pub open spec fn whole_range(e: Extent, name_line: u32) -> Seq<i32> {
    let known = e.start_line != 0;
    seq![
        zero_based(
            if known {
                e.start_line
            } else {
                name_line
            },
        ),
        zero_based(e.start_col),
        zero_based(
            if known {
                e.end_line
            } else {
                name_line
            },
        ),
        zero_based(e.end_col),
    ]
}

/// The definition occurrence of a cursor, and the source that it lies in;
/// none in a header of the system, or outside the project.
pub open spec fn definition_at(c: Cursor, symbol: Seq<char>, root: Seq<char>) -> Option<
    (Seq<char>, OccurrenceView),
> {
    match name_place(c) {
        Some((path, line, col)) if !c.system => match below(path, root) {
            Some(rel) => Some(
                (
                    rel,
                    OccurrenceView {
                        symbol,
                        symbol_roles: 1,
                        range: name_range(c, line, col),
                        enclosing_range: whole_range(c.extent, line),
                        unknown: Seq::empty(),
                    },
                ),
            ),
            None => None,
        },
        _ => None,
    }
}

/// The reference occurrence of a cursor, and the source that it lies in; none
/// outside the project.
pub open spec fn reference_at(c: Cursor, symbol: Seq<char>, root: Seq<char>) -> Option<
    (Seq<char>, OccurrenceView),
> {
    match name_place(c) {
        Some((path, line, col)) => match below(path, root) {
            Some(rel) => Some(
                (
                    rel,
                    OccurrenceView {
                        symbol,
                        symbol_roles: 0,
                        range: name_range(c, line, col),
                        enclosing_range: Seq::empty(),
                        unknown: Seq::empty(),
                    },
                ),
            ),
            None => None,
        },
        None => None,
    }
}

fn less_one(n: u32) -> (r: i32)
    ensures
        r == zero_based(n),
{
    if n == 0 {
        0
    } else {
        #[verifier::truncate]
        let r: i32 = (n - 1) as i32;
        r
    }
}

fn range_of_name(c: &Cursor, line: u32, col: u32) -> (r: Vec<i32>)
    ensures
        r@ == name_range(*c, line, col),
{
    let len: usize = c.spelling.as_str().as_bytes().len();
    #[verifier::truncate]
    let a: i32 = (line as i128 - 1) as i32;
    #[verifier::truncate]
    let b: i32 = (col as i128 - 1) as i32;
    #[verifier::truncate]
    let e: i32 = (col as i128 - 1 + len as i128) as i32;
    let mut v: Vec<i32> = Vec::new();
    v.push(a);
    v.push(b);
    v.push(e);
    v
}

fn range_of_whole(e: Extent, name_line: u32) -> (r: Vec<i32>)
    ensures
        r@ == whole_range(e, name_line),
{
    let known = e.start_line != 0;
    let mut v: Vec<i32> = Vec::new();
    v.push(less_one(if known { e.start_line } else { name_line }));
    v.push(less_one(e.start_col));
    v.push(less_one(if known { e.end_line } else { name_line }));
    v.push(less_one(e.end_col));
    v
}

fn occurrence_at(c: &Cursor, symbol: &str, root: &str, definition: bool) -> (r: Option<
    (String, ScipOccurrence),
>)
    ensures
        ({
            let want = if definition {
                definition_at(*c, symbol@, root@)
            } else {
                reference_at(*c, symbol@, root@)
            };
            match r {
                Some((p, o)) => want == Some((p@, o@)),
                None => want is None,
            }
        }),
{
    if definition && c.system {
        return None;
    }
    let (path, line, col) = match &c.place {
        Some(p) => if p.line > 0 && p.path.as_str().unicode_len() > 0 {
            (p.path.as_str(), p.line, p.col)
        } else {
            return None;
        },
        None => {
            return None;
        },
    };
    let rel = match path_below(path, root) {
        Some(r) => r,
        None => {
            return None;
        },
    };
    let enclosing_range: Vec<i32> = if definition {
        range_of_whole(c.extent, line)
    } else {
        Vec::new()
    };
    let o = ScipOccurrence {
        symbol: copy_text(symbol),
        symbol_roles: if definition {
            1
        } else {
            0
        },
        range: range_of_name(c, line, col),
        enclosing_range,
        unknown: Vec::new(),
    };
    assert(o@.unknown =~= Seq::<(u32, UnknownView)>::empty());
    Some((rel, o))
}

/// Builds the definition occurrence of a cursor.
pub fn make_def_occurrence(c: &Cursor, symbol: &str, root: &str) -> (r: Option<
    (String, ScipOccurrence),
>)
    ensures
        match r {
            Some((p, o)) => definition_at(*c, symbol@, root@) == Some((p@, o@)),
            None => definition_at(*c, symbol@, root@) is None,
        },
{
    occurrence_at(c, symbol, root, true)
}

/// Builds the reference occurrence of a cursor.
pub fn make_ref_occurrence(c: &Cursor, symbol: &str, root: &str) -> (r: Option<
    (String, ScipOccurrence),
>)
    ensures
        match r {
            Some((p, o)) => reference_at(*c, symbol@, root@) == Some((p@, o@)),
            None => reference_at(*c, symbol@, root@) is None,
        },
{
    occurrence_at(c, symbol, root, false)
}

/// The name of the first class that the children `v[i..]` refer to; empty
/// where there is none.
pub open spec fn class_ref_from(v: Seq<Cursor>, i: int) -> Seq<char>
    decreases v.len() - i,
{
    if i < 0 || i >= v.len() {
        Seq::empty()
    } else if v[i].kind == CursorKind::ClassRef {
        v[i].spelling@
    } else {
        class_ref_from(v, i + 1)
    }
}

/// The name of the first class that a cursor refers to: the class that a
/// category extends, or the receiver of a message to a class.
pub open spec fn class_ref(c: Cursor) -> Seq<char> {
    class_ref_from(c.children@, 0)
}

/// The name of the first class that a cursor refers to.
pub fn first_objc_class_ref(c: &Cursor) -> (r: String)
    ensures
        r@ == class_ref(*c),
{
    let mut i: usize = 0;
    while i < c.children.len()
        invariant
            i <= c.children@.len(),
            class_ref(*c) == class_ref_from(c.children@, i as int),
        decreases c.children@.len() - i,
    {
        if c.children[i].kind == CursorKind::ClassRef {
            return copy_text(c.children[i].spelling.as_str());
        }
        i += 1;
    }
    String::new()
}

/// The name of the type that a method belongs to: a category stands for the
/// class that it extends.
pub open spec fn owner_name(callee: Callee) -> Seq<char> {
    match callee.parent_kind {
        CursorKind::Interface | CursorKind::Implementation | CursorKind::Protocol => {
            callee.parent_name@
        },
        CursorKind::Category | CursorKind::CategoryImplementation => callee.parent_class@,
        _ => Seq::empty(),
    }
}

fn resolve_type_name(callee: &Callee) -> (r: String)
    ensures
        r@ == owner_name(*callee),
{
    match callee.parent_kind {
        CursorKind::Interface | CursorKind::Implementation | CursorKind::Protocol => copy_text(
            callee.parent_name.as_str(),
        ),
        CursorKind::Category | CursorKind::CategoryImplementation => copy_text(
            callee.parent_class.as_str(),
        ),
        _ => String::new(),
    }
}

/// Whether a message was resolved to a method.
pub open spec fn is_resolved(c: Cursor) -> bool {
    match c.callee {
        Some(callee) => callee.kind == CursorKind::InstanceMethod || callee.kind
            == CursorKind::ClassMethod,
        None => false,
    }
}

/// The class and selector that a message goes to. One that was resolved goes
/// to the method found, unless that lies in a header of the system; of any
/// other one, only a message to a class is read from its source.
pub open spec fn message_target(c: Cursor) -> Option<(Seq<char>, Seq<char>)> {
    let (class, selector) = if is_resolved(c) {
        let callee = c.callee->0;
        if callee.system {
            (Seq::empty(), Seq::empty())
        } else {
            (owner_name(callee), callee.selector@)
        }
    } else if c.spelling@.len() == 0 || class_ref(c).len() == 0 {
        match expression_send(tok_views(c.tokens@), 0) {
            Some(s) => (s.receiver, s.selector),
            None => (class_ref(c), c.spelling@),
        }
    } else {
        (class_ref(c), c.spelling@)
    };
    if class.len() > 0 && selector.len() > 0 {
        Some((class, selector))
    } else {
        None
    }
}

/// The class and selector that a message goes to.
pub fn send_target(c: &Cursor) -> (r: Option<(String, String)>)
    ensures
        match r {
            Some((a, b)) => message_target(*c) == Some((a@, b@)),
            None => message_target(*c) is None,
        },
{
    let mut class = String::new();
    let mut selector = String::new();
    let mut resolved = false;
    if let Some(callee) = &c.callee {
        if callee.kind == CursorKind::InstanceMethod || callee.kind == CursorKind::ClassMethod {
            resolved = true;
            if !callee.system {
                class = resolve_type_name(callee);
                selector = copy_text(callee.selector.as_str());
            }
        }
    }
    if !resolved {
        class = first_objc_class_ref(c);
        selector = copy_text(c.spelling.as_str());
        if class.as_str().unicode_len() == 0 || selector.as_str().unicode_len() == 0 {
            if let Some(s) = syntactic_class_send(&c.tokens) {
                class = s.receiver;
                selector = s.selector;
            }
        }
    }
    if class.as_str().unicode_len() > 0 && selector.as_str().unicode_len() > 0 {
        Some((class, selector))
    } else {
        None
    }
}

/// The reference that a cursor of a body is.
pub open spec fn own_reference(c: Cursor, corpus: Seq<char>, root: Seq<char>) -> Seq<FindingView> {
    if c.kind != CursorKind::Message {
        Seq::empty()
    } else {
        match message_target(c) {
            Some((class, selector)) => match reference_at(
                c,
                method_text(corpus, class, selector),
                root,
            ) {
                Some((path, o)) => seq![FindingView::Occurrence(path, o)],
                None => Seq::empty(),
            },
            None => Seq::empty(),
        }
    }
}

/// The references in a body: those of the cursor, then those inside it.
/// Headers of the system are left out.
pub open spec fn body_references(c: Cursor, corpus: Seq<char>, root: Seq<char>) -> Seq<FindingView>
    decreases c, 0nat,
{
    if c.system {
        Seq::empty()
    } else {
        own_reference(c, corpus, root) + list_references(
            c.children,
            corpus,
            root,
            c.children@.len(),
        )
    }
}

/// The references in the first `n` cursors of a list.
pub open spec fn list_references(
    v: Vec<Cursor>,
    corpus: Seq<char>,
    root: Seq<char>,
    n: nat,
) -> Seq<FindingView>
    decreases v, n,
{
    if n == 0 || n > v@.len() {
        Seq::empty()
    } else {
        list_references(v, corpus, root, (n - 1) as nat) + body_references(
            v@[n - 1],
            corpus,
            root,
        )
    }
}

fn visit_refs(c: &Cursor, corpus: &str, root: &str, out: &mut Vec<Finding>)
    ensures
        finding_views(final(out)@) == finding_views(old(out)@) + body_references(
            *c,
            corpus@,
            root@,
        ),
    decreases *c,
{
    broadcast use lemma_finding_views_push;

    if c.system {
        return;
    }
    if c.kind == CursorKind::Message {
        if let Some((class, selector)) = send_target(c) {
            let target = method_symbol(corpus, class.as_str(), selector.as_str());
            if let Some((path, occ)) = make_ref_occurrence(c, target.as_str(), root) {
                out.push(Finding::Occurrence(path, occ));
            }
        }
    }
    visit_list(&c.children, corpus, root, out);
}

fn visit_list(v: &Vec<Cursor>, corpus: &str, root: &str, out: &mut Vec<Finding>)
    ensures
        finding_views(final(out)@) == finding_views(old(out)@) + list_references(
            *v,
            corpus@,
            root@,
            v@.len(),
        ),
    decreases *v,
{
    let n: usize = v.len();
    let mut i: usize = 0;
    while i < n
        invariant
            i <= n,
            n == v@.len(),
            finding_views(out@) == finding_views(old(out)@) + list_references(
                *v,
                corpus@,
                root@,
                i as nat,
            ),
        decreases n - i,
    {
        visit_refs(&v[i], corpus, root, out);
        i += 1;
    }
}

/// The numbers of kinds in the SCIP schema.
pub const KIND_CLASS: i32 = 7;

pub const KIND_FUNCTION: i32 = 17;

pub const KIND_INTERFACE: i32 = 21;

pub const KIND_METHOD: i32 = 26;

pub const KIND_PROPERTY: i32 = 41;

/// A symbol without relationships.
pub open spec fn plain_symbol(symbol: Seq<char>, kind: i32) -> SymbolView {
    SymbolView { symbol, kind, relationships: Seq::empty() }
}

fn make_symbol_info(symbol: &str, kind: i32, relationships: Vec<ScipRelationship>) -> (r:
    ScipSymbol)
    ensures
        r@ == (SymbolView {
            symbol: symbol@,
            kind,
            relationships: relationships@.map_values(|x: ScipRelationship| x@),
        }),
{
    ScipSymbol { symbol: copy_text(symbol), kind, relationships }
}

/// A definition, and the symbol that goes with it.
pub open spec fn definition_and_symbol(
    c: Cursor,
    root: Seq<char>,
    info: SymbolView,
) -> Seq<FindingView> {
    match definition_at(c, info.symbol, root) {
        Some((path, o)) => seq![FindingView::Occurrence(path, o), FindingView::Symbol(path, info)],
        None => Seq::empty(),
    }
}

fn push_definition(c: &Cursor, root: &str, info: ScipSymbol, out: &mut Vec<Finding>) -> (r: bool)
    ensures
        finding_views(final(out)@) == finding_views(old(out)@) + definition_and_symbol(
            *c,
            root@,
            info@,
        ),
        r == (definition_at(*c, info@.symbol, root@) is Some),
{
    broadcast use lemma_finding_views_push;

    match make_def_occurrence(c, info.symbol.as_str(), root) {
        Some((path, occ)) => {
            let again = copy_text(path.as_str());
            out.push(Finding::Occurrence(path, occ));
            out.push(Finding::Symbol(again, info));
            true
        },
        None => {
            false
        },
    }
}

/// A definition without a symbol of its own.
pub open spec fn definition_only(c: Cursor, root: Seq<char>, symbol: Seq<char>) -> Seq<FindingView> {
    match definition_at(c, symbol, root) {
        Some((path, o)) => seq![FindingView::Occurrence(path, o)],
        None => Seq::empty(),
    }
}

fn push_occurrence(c: &Cursor, root: &str, symbol: &str, out: &mut Vec<Finding>)
    ensures
        finding_views(final(out)@) == finding_views(old(out)@) + definition_only(
            *c,
            root@,
            symbol@,
        ),
{
    broadcast use lemma_finding_views_push;

    if let Some((path, occ)) = make_def_occurrence(c, symbol, root) {
        out.push(Finding::Occurrence(path, occ));
    }
}

/// Whether a property of the type `container` is declared at this place.
pub open spec fn is_property_place(container: Seq<Cursor>, line: u32, col: u32) -> bool {
    exists|i: int|
        0 <= i < container.len() && declares_property(#[trigger] container[i], line, col)
}

/// Whether a cursor declares a property at this place.
pub open spec fn declares_property(c: Cursor, line: u32, col: u32) -> bool {
    c.kind == CursorKind::Property && (name_place(c) matches Some((_, l, k)) && l == line && k
        == col)
}

/// Whether a method is one that the compiler makes for a property: it stands
/// where the property does.
pub open spec fn is_synthesized(container: Seq<Cursor>, c: Cursor) -> bool {
    match name_place(c) {
        Some((_, line, col)) => is_property_place(container, line, col),
        None => false,
    }
}

fn synthesized(container: &Vec<Cursor>, c: &Cursor) -> (r: bool)
    ensures
        r == is_synthesized(container@, *c),
{
    let (line, col) = match &c.place {
        Some(p) => if p.line > 0 && p.path.as_str().unicode_len() > 0 {
            (p.line, p.col)
        } else {
            return false;
        },
        None => {
            return false;
        },
    };
    let mut i: usize = 0;
    while i < container.len()
        invariant
            i <= container@.len(),
            name_place(*c) matches Some((_, l, k)) && l == line && k == col,
            forall|k: int|
                0 <= k < i ==> !declares_property(#[trigger] container@[k], line, col),
        decreases container@.len() - i,
    {
        let d = &container[i];
        if d.kind == CursorKind::Property {
            if let Some(p) = &d.place {
                if p.line == line && p.col == col && p.line > 0 && p.path.as_str().unicode_len()
                    > 0 {
                    return true;
                }
            }
        }
        i += 1;
    }
    false
}

/// What a member of the type `class` gives: a method with the references in
/// its body, or a property. Methods that the compiler makes for properties
/// are left out.
pub open spec fn member_findings(
    container: Seq<Cursor>,
    c: Cursor,
    class: Seq<char>,
    corpus: Seq<char>,
    root: Seq<char>,
) -> Seq<FindingView> {
    if c.system || c.spelling@.len() == 0 {
        Seq::empty()
    } else if c.kind == CursorKind::InstanceMethod || c.kind == CursorKind::ClassMethod {
        let info = plain_symbol(method_text(corpus, class, c.spelling@), KIND_METHOD);
        if is_synthesized(container, c) || definition_at(c, info.symbol, root) is None {
            Seq::empty()
        } else {
            definition_and_symbol(c, root, info) + list_references(
                c.children,
                corpus,
                root,
                c.children@.len(),
            )
        }
    } else if c.kind == CursorKind::Property {
        definition_and_symbol(
            c,
            root,
            plain_symbol(property_text(corpus, class, c.spelling@), KIND_PROPERTY),
        )
    } else {
        Seq::empty()
    }
}

/// What the first `n` members of the type `class` give.
pub open spec fn members_findings(
    container: Seq<Cursor>,
    class: Seq<char>,
    corpus: Seq<char>,
    root: Seq<char>,
    n: nat,
) -> Seq<FindingView>
    decreases n,
{
    if n == 0 {
        Seq::empty()
    } else {
        members_findings(container, class, corpus, root, (n - 1) as nat) + member_findings(
            container,
            container[n - 1],
            class,
            corpus,
            root,
        )
    }
}

fn visit_member(
    container: &Vec<Cursor>,
    c: &Cursor,
    class: &str,
    corpus: &str,
    root: &str,
    out: &mut Vec<Finding>,
)
    ensures
        finding_views(final(out)@) == finding_views(old(out)@) + member_findings(
            container@,
            *c,
            class@,
            corpus@,
            root@,
        ),
{
    if c.system || c.spelling.as_str().unicode_len() == 0 {
        return;
    }
    if c.kind == CursorKind::InstanceMethod || c.kind == CursorKind::ClassMethod {
        if synthesized(container, c) {
            return;
        }
        let sym = method_symbol(corpus, class, c.spelling.as_str());
        let none: Vec<ScipRelationship> = Vec::new();
        let info = make_symbol_info(sym.as_str(), KIND_METHOD, none);
        assert(info@.relationships =~= Seq::<RelationshipView>::empty());
        if push_definition(c, root, info, out) {
            visit_list(&c.children, corpus, root, out);
        }
    } else if c.kind == CursorKind::Property {
        let sym = property_symbol(corpus, class, c.spelling.as_str());
        let none: Vec<ScipRelationship> = Vec::new();
        let info = make_symbol_info(sym.as_str(), KIND_PROPERTY, none);
        assert(info@.relationships =~= Seq::<RelationshipView>::empty());
        push_definition(c, root, info, out);
    }
}

fn walk_members(
    container: &Vec<Cursor>,
    class: &str,
    corpus: &str,
    root: &str,
    out: &mut Vec<Finding>,
)
    ensures
        finding_views(final(out)@) == finding_views(old(out)@) + members_findings(
            container@,
            class@,
            corpus@,
            root@,
            container@.len(),
        ),
{
    let n: usize = container.len();
    let mut i: usize = 0;
    while i < n
        invariant
            i <= n,
            n == container@.len(),
            finding_views(out@) == finding_views(old(out)@) + members_findings(
                container@,
                class@,
                corpus@,
                root@,
                i as nat,
            ),
        decreases n - i,
    {
        visit_member(container, &container[i], class, corpus, root, out);
        i += 1;
    }
}

/// The relationship that a child of an interface gives: to its superclass, or
/// to a protocol that it conforms to.
pub open spec fn relationship_of(c: Cursor, corpus: Seq<char>) -> Option<RelationshipView> {
    if c.spelling@.len() == 0 {
        None
    } else if c.kind == CursorKind::SuperClassRef {
        Some(
            RelationshipView {
                symbol: class_text(corpus, c.spelling@),
                is_reference: false,
                is_implementation: true,
            },
        )
    } else if c.kind == CursorKind::ProtocolRef {
        Some(
            RelationshipView {
                symbol: protocol_text(corpus, c.spelling@),
                is_reference: false,
                is_implementation: true,
            },
        )
    } else {
        None
    }
}

/// The relationships that the first `n` children of an interface give.
pub open spec fn relationship_slots(v: Seq<Cursor>, corpus: Seq<char>, n: nat) -> Seq<
    Option<RelationshipView>,
> {
    Seq::new(n, |i: int| relationship_of(v[i], corpus))
}

fn collect_relationships(v: &Vec<Cursor>, corpus: &str) -> (r: Vec<ScipRelationship>)
    ensures
        r@.map_values(|x: ScipRelationship| x@) == crate::emitter::somes(
            relationship_slots(v@, corpus@, v@.len()),
        ),
{
    let mut out: Vec<ScipRelationship> = Vec::new();
    let n: usize = v.len();
    let mut i: usize = 0;
    while i < n
        invariant
            i <= n,
            n == v@.len(),
            out@.map_values(|x: ScipRelationship| x@) == crate::emitter::somes(
                relationship_slots(v@, corpus@, i as nat),
            ),
        decreases n - i,
    {
        let c = &v[i];
        let ghost before = relationship_slots(v@, corpus@, i as nat);
        let ghost x = relationship_of(*c, corpus@);
        i += 1;
        proof {
            assert(relationship_slots(v@, corpus@, i as nat) =~= before.push(x));
            crate::emitter::lemma_somes_push(before, x);
        }
        if c.spelling.as_str().unicode_len() > 0 {
            if c.kind == CursorKind::SuperClassRef {
                let rel = ScipRelationship {
                    symbol: class_symbol(corpus, c.spelling.as_str()),
                    is_reference: false,
                    is_implementation: true,
                };
                out.push(rel);
            } else if c.kind == CursorKind::ProtocolRef {
                let rel = ScipRelationship {
                    symbol: protocol_symbol(corpus, c.spelling.as_str()),
                    is_reference: false,
                    is_implementation: true,
                };
                out.push(rel);
            }
        }
    }
    out
}

/// The symbol of an interface.
pub open spec fn interface_symbol(c: Cursor, corpus: Seq<char>) -> SymbolView {
    SymbolView {
        symbol: class_text(corpus, c.spelling@),
        kind: KIND_CLASS,
        relationships: crate::emitter::somes(
            relationship_slots(c.children@, corpus, c.children@.len()),
        ),
    }
}

/// What a cursor at the top of a translation unit gives: a type with its
/// members, a category with the members that it adds to its class, or a
/// function with the references in its body.
pub open spec fn top_findings(c: Cursor, corpus: Seq<char>, root: Seq<char>) -> Seq<FindingView> {
    let n = c.children@.len();
    if c.system {
        Seq::empty()
    } else {
        match c.kind {
            CursorKind::Interface => if c.spelling@.len() == 0 {
                Seq::empty()
            } else {
                definition_and_symbol(c, root, interface_symbol(c, corpus)) + members_findings(
                    c.children@,
                    c.spelling@,
                    corpus,
                    root,
                    n,
                )
            },
            CursorKind::Implementation => if c.spelling@.len() == 0 {
                Seq::empty()
            } else {
                definition_only(c, root, class_text(corpus, c.spelling@)) + members_findings(
                    c.children@,
                    c.spelling@,
                    corpus,
                    root,
                    n,
                )
            },
            CursorKind::Category | CursorKind::CategoryImplementation => if class_ref(c).len()
                == 0 {
                Seq::empty()
            } else {
                (if c.kind == CursorKind::Category {
                    definition_only(c, root, class_text(corpus, class_ref(c)))
                } else {
                    Seq::empty()
                }) + members_findings(c.children@, class_ref(c), corpus, root, n)
            },
            CursorKind::Protocol => if c.spelling@.len() == 0 {
                Seq::empty()
            } else {
                definition_and_symbol(
                    c,
                    root,
                    plain_symbol(protocol_text(corpus, c.spelling@), KIND_INTERFACE),
                ) + members_findings(c.children@, c.spelling@, corpus, root, n)
            },
            CursorKind::Function => {
                let info = plain_symbol(function_text(corpus, c.spelling@), KIND_FUNCTION);
                if c.spelling@.len() == 0 || definition_at(c, info.symbol, root) is None {
                    Seq::empty()
                } else {
                    definition_and_symbol(c, root, info) + list_references(
                        c.children,
                        corpus,
                        root,
                        n,
                    )
                }
            },
            _ => Seq::empty(),
        }
    }
}

fn visit_top_level(c: &Cursor, corpus: &str, root: &str, out: &mut Vec<Finding>)
    ensures
        finding_views(final(out)@) == finding_views(old(out)@) + top_findings(
            *c,
            corpus@,
            root@,
        ),
{
    if c.system {
        return;
    }
    let name = c.spelling.as_str();
    match c.kind {
        CursorKind::Interface => {
            if name.unicode_len() == 0 {
                return;
            }
            let sym = class_symbol(corpus, name);
            let rels = collect_relationships(&c.children, corpus);
            let info = make_symbol_info(sym.as_str(), KIND_CLASS, rels);
            push_definition(c, root, info, out);
            walk_members(&c.children, name, corpus, root, out);
        },
        CursorKind::Implementation => {
            if name.unicode_len() == 0 {
                return;
            }
            let sym = class_symbol(corpus, name);
            push_occurrence(c, root, sym.as_str(), out);
            walk_members(&c.children, name, corpus, root, out);
        },
        CursorKind::Category | CursorKind::CategoryImplementation => {
            let base = first_objc_class_ref(c);
            if base.as_str().unicode_len() == 0 {
                return;
            }
            if c.kind == CursorKind::Category {
                let sym = class_symbol(corpus, base.as_str());
                push_occurrence(c, root, sym.as_str(), out);
            }
            walk_members(&c.children, base.as_str(), corpus, root, out);
        },
        CursorKind::Protocol => {
            if name.unicode_len() == 0 {
                return;
            }
            let sym = protocol_symbol(corpus, name);
            let none: Vec<ScipRelationship> = Vec::new();
            let info = make_symbol_info(sym.as_str(), KIND_INTERFACE, none);
            assert(info@.relationships =~= Seq::<RelationshipView>::empty());
            push_definition(c, root, info, out);
            walk_members(&c.children, name, corpus, root, out);
        },
        CursorKind::Function => {
            if name.unicode_len() == 0 {
                return;
            }
            let sym = function_symbol(corpus, name);
            let none: Vec<ScipRelationship> = Vec::new();
            let info = make_symbol_info(sym.as_str(), KIND_FUNCTION, none);
            assert(info@.relationships =~= Seq::<RelationshipView>::empty());
            if push_definition(c, root, info, out) {
                visit_list(&c.children, corpus, root, out);
            }
        },
        _ => {},
    }
}

/// What the first `n` cursors at the top of a translation unit give.
pub open spec fn unit_findings(
    v: Seq<Cursor>,
    corpus: Seq<char>,
    root: Seq<char>,
    n: nat,
) -> Seq<FindingView>
    decreases n,
{
    if n == 0 {
        Seq::empty()
    } else {
        unit_findings(v, corpus, root, (n - 1) as nat) + top_findings(v[n - 1], corpus, root)
    }
}

/// The sends in the body of a method or function, as its tokens tell.
pub open spec fn body_candidates(c: Cursor, root: Seq<char>) -> Seq<CandidateView> {
    match name_place(c) {
        Some((path, _, _)) => match below(path, root) {
            Some(rel) => crate::emitter::somes(
                candidates(tok_views(c.tokens@), rel, c.tokens@.len()),
            ),
            None => Seq::empty(),
        },
        None => Seq::empty(),
    }
}

/// A method or a function.
pub open spec fn has_body(kind: CursorKind) -> bool {
    kind == CursorKind::InstanceMethod || kind == CursorKind::ClassMethod || kind
        == CursorKind::Function
}

/// The sends in the bodies at or below a cursor, as their tokens tell. Bodies
/// do not nest.
pub open spec fn cursor_candidates(c: Cursor, root: Seq<char>) -> Seq<CandidateView>
    decreases c, 0nat,
{
    if c.system {
        Seq::empty()
    } else if has_body(c.kind) {
        body_candidates(c, root)
    } else {
        list_candidates(c.children, root, c.children@.len())
    }
}

/// The sends in the bodies at or below the first `n` cursors of a list.
pub open spec fn list_candidates(v: Vec<Cursor>, root: Seq<char>, n: nat) -> Seq<CandidateView>
    decreases v, n,
{
    if n == 0 || n > v@.len() {
        Seq::empty()
    } else {
        list_candidates(v, root, (n - 1) as nat) + cursor_candidates(v@[n - 1], root)
    }
}

fn visit_recovery(c: &Cursor, root: &str, out: &mut Vec<SendCandidate>)
    ensures
        candidate_views(final(out)@) == candidate_views(old(out)@) + cursor_candidates(*c, root@),
    decreases *c,
{
    if c.system {
        return;
    }
    if c.kind == CursorKind::InstanceMethod || c.kind == CursorKind::ClassMethod || c.kind
        == CursorKind::Function {
        if let Some(p) = &c.place {
            if p.line > 0 && p.path.as_str().unicode_len() > 0 {
                if let Some(rel) = path_below(p.path.as_str(), root) {
                    let mut more = scan_body_for_sends(&c.tokens, rel.as_str());
                    out.append(&mut more);
                }
            }
        }
        return;
    }
    visit_recovery_list(&c.children, root, out);
}

fn visit_recovery_list(v: &Vec<Cursor>, root: &str, out: &mut Vec<SendCandidate>)
    ensures
        candidate_views(final(out)@) == candidate_views(old(out)@) + list_candidates(
            *v,
            root@,
            v@.len(),
        ),
    decreases *v,
{
    let n: usize = v.len();
    let mut i: usize = 0;
    while i < n
        invariant
            i <= n,
            n == v@.len(),
            candidate_views(out@) == candidate_views(old(out)@) + list_candidates(
                *v,
                root@,
                i as nat,
            ),
        decreases n - i,
    {
        visit_recovery(&v[i], root, out);
        i += 1;
    }
}

/// The findings of the units that were parsed, among the first `n`.
pub open spec fn parsed_findings(
    units: Seq<Option<TranslationUnit>>,
    corpus: Seq<char>,
    root: Seq<char>,
    n: nat,
) -> Seq<FindingView>
    decreases n,
{
    if n == 0 {
        Seq::empty()
    } else {
        let before = parsed_findings(units, corpus, root, (n - 1) as nat);
        match units[n - 1] {
            Some(u) => before + unit_findings(u.cursors@, corpus, root, u.cursors@.len()),
            None => before,
        }
    }
}

/// The sends recovered from the units with errors, among the first `n`.
pub open spec fn recovered_sends(
    units: Seq<Option<TranslationUnit>>,
    root: Seq<char>,
    n: nat,
) -> Seq<CandidateView>
    decreases n,
{
    if n == 0 {
        Seq::empty()
    } else {
        let before = recovered_sends(units, root, (n - 1) as nat);
        match units[n - 1] {
            Some(u) if u.has_error => before + list_candidates(u.cursors, root, u.cursors@.len()),
            _ => before,
        }
    }
}

/// How many of the first `n` units were parsed.
pub open spec fn parsed_count(units: Seq<Option<TranslationUnit>>, n: nat) -> nat
    decreases n,
{
    if n == 0 {
        0
    } else {
        parsed_count(units, (n - 1) as nat) + if units[n - 1] is Some {
            1nat
        } else {
            0nat
        }
    }
}

/// The entries that the first `n` findings make up.
pub open spec fn entries_of(findings: Seq<FindingView>, n: nat) -> Seq<DocEntryView>
    decreases n,
{
    if n == 0 {
        Seq::empty()
    } else {
        let before = entries_of(findings, (n - 1) as nat);
        match findings[n - 1] {
            FindingView::Occurrence(path, o) => with_occurrence(before, path, o),
            FindingView::Symbol(path, s) => with_symbol(before, path, s),
        }
    }
}

/// The index of a number of translation units: what was found in them, then
/// the sends recovered from those with errors.
pub open spec fn units_index(
    units: Seq<Option<TranslationUnit>>,
    corpus: Seq<char>,
    root: Seq<char>,
) -> IndexView {
    let findings = parsed_findings(units, corpus, root, units.len());
    let sends = recovered_sends(units, root, units.len());
    entries_index(
        with_candidates(entries_of(findings, findings.len()), corpus, sends, sends.len()),
    )
}

/// What to say when no unit could be parsed.
pub open spec fn all_failed_text(n: nat) -> Seq<char> {
    "all "@ + decimal(n)
        + " Objective-C translation unit(s) failed to parse. libclang could not process any source file; check the active toolchain/SDK and the sandbox read grants"@
}

fn add_findings(builder: &mut IndexBuilder, findings: Vec<Finding>)
    requires
        old(builder).wf(),
        old(builder)@.docs == Seq::<DocEntryView>::empty(),
    ensures
        final(builder).wf(),
        final(builder)@ == (BuilderView {
            docs: entries_of(finding_views(findings@), findings@.len()),
            ..old(builder)@
        }),
{
    let ghost all = finding_views(findings@);
    let ghost corpus = builder@.corpus;
    for f in it: findings
        invariant
            all == finding_views(it.seq()),
            builder.wf(),
            builder@.corpus == corpus,
            builder@.docs == entries_of(all, it.index() as nat),
    {
        match f {
            Finding::Occurrence(path, occ) => {
                builder.add_occurrence(path.as_str(), occ);
            },
            Finding::Symbol(path, info) => {
                builder.add_symbol_info(path.as_str(), info);
            },
        }
    }
}

/// Builds the index of a number of translation units; `None` stands for one
/// that could not be parsed. It is an error if there are units and none of
/// them could be.
pub fn build_index(units: &Vec<Option<TranslationUnit>>, corpus: &str, root: &str) -> (r: Result<
    ScipIndex,
    String,
>)
    ensures
        match r {
            Ok(index) => {
                &&& units@.len() == 0 || parsed_count(units@, units@.len()) > 0
                &&& index@ == units_index(units@, corpus@, root@)
            },
            Err(e) => {
                &&& units@.len() > 0 && parsed_count(units@, units@.len()) == 0
                &&& e@ == all_failed_text(units@.len())
            },
        },
{
    let n: usize = units.len();
    let mut findings: Vec<Finding> = Vec::new();
    let mut sends: Vec<SendCandidate> = Vec::new();
    let mut parsed: usize = 0;
    let mut i: usize = 0;
    while i < n
        invariant
            i <= n,
            n == units@.len(),
            parsed <= i,
            parsed == parsed_count(units@, i as nat),
            finding_views(findings@) == parsed_findings(units@, corpus@, root@, i as nat),
            candidate_views(sends@) == recovered_sends(units@, root@, i as nat),
        decreases n - i,
    {
        if let Some(unit) = &units[i] {
            parsed += 1;
            let ghost before = finding_views(findings@);
            let m: usize = unit.cursors.len();
            let mut j: usize = 0;
            while j < m
                invariant
                    j <= m,
                    m == unit.cursors@.len(),
                    finding_views(findings@) == before + unit_findings(
                        unit.cursors@,
                        corpus@,
                        root@,
                        j as nat,
                    ),
                decreases m - j,
            {
                visit_top_level(&unit.cursors[j], corpus, root, &mut findings);
                j += 1;
            }
            if unit.has_error {
                visit_recovery_list(&unit.cursors, root, &mut sends);
            }
        }
        i += 1;
    }
    if n > 0 && parsed == 0 {
        let mut e = String::new();
        e.append("all ");
        push_decimal(&mut e, n as u64);
        e.append(
            " Objective-C translation unit(s) failed to parse. libclang could not process any source file; check the active toolchain/SDK and the sandbox read grants",
        );
        return Err(e);
    }
    let mut builder = IndexBuilder::new(corpus);
    add_findings(&mut builder, findings);
    builder.apply_error_tu_recovery(&sends);
    Ok(builder.finish())
}

/// A method that the compiler makes for a property gives nothing.
pub proof fn law_synthesized_methods_are_left_out(
    container: Seq<Cursor>,
    c: Cursor,
    class: Seq<char>,
    corpus: Seq<char>,
    root: Seq<char>,
)
    requires
        c.kind == CursorKind::InstanceMethod || c.kind == CursorKind::ClassMethod,
        is_synthesized(container, c),
    ensures
        member_findings(container, c, class, corpus, root) == Seq::<FindingView>::empty(),
{
}

/// A message that was resolved into a header of the system is no reference,
/// whatever its tokens say.
pub proof fn law_system_callees_are_left_out(c: Cursor)
    requires
        is_resolved(c),
        c.callee->0.system,
    ensures
        message_target(c) is None,
{
}

/// Whether the cursor `c` of the project `root` has its name in the source
/// `rel`, outside the headers of the system.
pub open spec fn stands_in(c: Cursor, root: Seq<char>, rel: Seq<char>) -> bool {
    !c.system && (c.place matches Some(p) && p.line > 0 && p.path@.len() > 0 && below(
        p.path@,
        root,
    ) == Some(rel))
}

/// Whether `o` marks the name of the cursor `c`: on its line, at its column,
/// as long as its spelling.
pub open spec fn marks_name(o: OccurrenceView, c: Cursor) -> bool {
    c.place matches Some(p) && {
        &&& o.unknown.len() == 0
        &&& o.range.len() == 3
        &&& p.line <= i32::MAX ==> o.range[0] == p.line - 1
        &&& 0 < p.col <= i32::MAX ==> o.range[1] == p.col - 1
        &&& 0 < p.col && p.col - 1 + vstd::utf8::encode_utf8(c.spelling@).len() <= i32::MAX
            ==> o.range[2] == p.col - 1 + vstd::utf8::encode_utf8(c.spelling@).len()
    }
}

/// Whether `o` spans the whole of the cursor `c`.
pub open spec fn spans_cursor(o: OccurrenceView, c: Cursor) -> bool {
    let e = c.extent;
    &&& o.enclosing_range.len() == 4
    &&& 0 < e.start_line <= i32::MAX && 0 < e.end_line <= i32::MAX ==> o.enclosing_range[0]
        == e.start_line - 1 && o.enclosing_range[2] == e.end_line - 1
    &&& 0 < e.start_col <= i32::MAX && 0 < e.end_col <= i32::MAX ==> o.enclosing_range[1]
        == e.start_col - 1 && o.enclosing_range[3] == e.end_col - 1
    &&& e.start_line == 0 && (c.place matches Some(p) && 0 < p.line <= i32::MAX)
        ==> o.enclosing_range[0] == c.place->0.line - 1 && o.enclosing_range[2]
        == c.place->0.line - 1
}

/// Whether the source `rel` of an index has the occurrence `o`.
pub open spec fn source_has(index: IndexView, rel: Seq<char>, o: OccurrenceView) -> bool {
    exists|i: int|
        #![trigger index.documents[i]]
        0 <= i < index.documents.len() && index.documents[i].relative_path == rel
            && index.documents[i].occurrences.contains(o)
}

/// Whether the source `rel` of an index has the symbol `s`.
pub open spec fn source_declares(index: IndexView, rel: Seq<char>, s: SymbolView) -> bool {
    exists|i: int|
        #![trigger index.documents[i]]
        0 <= i < index.documents.len() && index.documents[i].relative_path == rel
            && index.documents[i].symbols.contains(s)
}

/// Whether the source `rel` of an index defines `symbol` where the cursor `c`
/// stands.
pub open spec fn source_defines(
    index: IndexView,
    rel: Seq<char>,
    c: Cursor,
    symbol: Seq<char>,
) -> bool {
    exists|o: OccurrenceView| #[trigger]
        source_has(index, rel, o) && o.symbol == symbol && o.symbol_roles == 1 && marks_name(o, c)
            && spans_cursor(o, c)
}

/// Whether the source `rel` of an index has a symbol of this text and kind
/// without relationships.
pub open spec fn source_names(index: IndexView, rel: Seq<char>, symbol: Seq<char>, kind: i32) -> bool {
    exists|s: SymbolView| #[trigger]
        source_declares(index, rel, s) && s.symbol == symbol && s.kind == kind
            && s.relationships.len() == 0
}

proof fn lemma_entries(findings: Seq<FindingView>, n: nat)
    requires
        n <= findings.len(),
    ensures
        forall|p: Seq<char>, o: OccurrenceView| #[trigger]
            has_occurrence(entries_of(findings, n), p, o) <==> findings.take(n as int).contains(
                FindingView::Occurrence(p, o),
            ),
        forall|p: Seq<char>, s: SymbolView| #[trigger]
            has_symbol(entries_of(findings, n), p, s) <==> findings.take(n as int).contains(
                FindingView::Symbol(p, s),
            ),
    decreases n,
{
    let now = findings.take(n as int);
    if n > 0 {
        lemma_entries(findings, (n - 1) as nat);
        let before = findings.take(n - 1);
        let docs = entries_of(findings, (n - 1) as nat);
        let f = findings[n - 1];
        match f {
            FindingView::Occurrence(p, o) => lemma_occurrence_joins(docs, p, o),
            FindingView::Symbol(p, s) => lemma_symbol_joins(docs, p, s),
        }
        assert forall|x: FindingView| #[trigger]
            now.contains(x) <==> before.contains(x) || x == f by {
            if before.contains(x) {
                let k = choose|k: int| 0 <= k < before.len() && before[k] == x;
                assert(now[k] == x);
            }
            assert(now[n - 1] == f);
            if now.contains(x) && x != f {
                let k = choose|k: int| 0 <= k < now.len() && now[k] == x;
                assert(before[k] == x);
            }
        }
        match f {
            FindingView::Occurrence(p, o) => {
                assert forall|q: Seq<char>, s: SymbolView| #[trigger]
                    has_symbol(entries_of(findings, n), q, s) <==> now.contains(
                        FindingView::Symbol(q, s),
                    ) by {
                    assert(has_symbol(docs, q, s) <==> before.contains(FindingView::Symbol(q, s)));
                }
            },
            FindingView::Symbol(p, s) => {
                assert forall|q: Seq<char>, o: OccurrenceView| #[trigger]
                    has_occurrence(entries_of(findings, n), q, o) <==> now.contains(
                        FindingView::Occurrence(q, o),
                    ) by {
                    assert(has_occurrence(docs, q, o) <==> before.contains(
                        FindingView::Occurrence(q, o),
                    ));
                }
            },
        }
    }
}

/// What was found in the units is in their index; of occurrences, only sends
/// that were recovered join.
proof fn lemma_index_holds_findings(
    units: Seq<Option<TranslationUnit>>,
    corpus: Seq<char>,
    root: Seq<char>,
)
    ensures
        ({
            let index = units_index(units, corpus, root);
            let findings = parsed_findings(units, corpus, root, units.len());
            &&& forall|p: Seq<char>, o: OccurrenceView|
                findings.contains(FindingView::Occurrence(p, o)) ==> #[trigger] source_has(
                    index,
                    p,
                    o,
                )
            &&& forall|p: Seq<char>, o: OccurrenceView| #[trigger]
                source_has(index, p, o) ==> o.symbol_roles == 0 || findings.contains(
                    FindingView::Occurrence(p, o),
                )
            &&& forall|p: Seq<char>, s: SymbolView| #[trigger]
                source_declares(index, p, s) <==> findings.contains(FindingView::Symbol(p, s))
        }),
{
    let index = units_index(units, corpus, root);
    let findings = parsed_findings(units, corpus, root, units.len());
    let sends = recovered_sends(units, root, units.len());
    let docs = entries_of(findings, findings.len());
    let all = with_candidates(docs, corpus, sends, sends.len());
    lemma_entries(findings, findings.len());
    assert(findings.take(findings.len() as int) =~= findings);
    lemma_candidates_join(docs, corpus, sends, sends.len());
    assert(index.documents.len() == all.len());
    assert forall|p: Seq<char>, o: OccurrenceView| #[trigger]
        source_has(index, p, o) <==> has_occurrence(all, p, o) by {
        if has_occurrence(all, p, o) {
            let i = choose|i: int|
                #![trigger all[i]]
                0 <= i < all.len() && all[i].path == p && all[i].occs.contains(o);
            assert(index.documents[i].occurrences == all[i].occs);
        }
        if source_has(index, p, o) {
            let i = choose|i: int|
                #![trigger index.documents[i]]
                0 <= i < index.documents.len() && index.documents[i].relative_path == p
                    && index.documents[i].occurrences.contains(o);
            assert(all[i].occs.contains(o));
        }
    }
    assert forall|p: Seq<char>, s: SymbolView| #[trigger]
        source_declares(index, p, s) <==> has_symbol(all, p, s) by {
        if has_symbol(all, p, s) {
            let i = choose|i: int|
                #![trigger all[i]]
                0 <= i < all.len() && all[i].path == p && all[i].syms.contains(s);
            assert(index.documents[i].symbols == all[i].syms);
        }
        if source_declares(index, p, s) {
            let i = choose|i: int|
                #![trigger index.documents[i]]
                0 <= i < index.documents.len() && index.documents[i].relative_path == p
                    && index.documents[i].symbols.contains(s);
            assert(all[i].syms.contains(s));
        }
    }
}

proof fn lemma_unit_finds(
    v: Seq<Cursor>,
    corpus: Seq<char>,
    root: Seq<char>,
    n: nat,
    k: int,
    f: FindingView,
)
    requires
        0 <= k < n <= v.len(),
        top_findings(v[k], corpus, root).contains(f),
    ensures
        unit_findings(v, corpus, root, n).contains(f),
    decreases n,
{
    let now = unit_findings(v, corpus, root, n);
    let before = unit_findings(v, corpus, root, (n - 1) as nat);
    if k == n - 1 {
        let own = top_findings(v[k], corpus, root);
        let p = choose|p: int| 0 <= p < own.len() && own[p] == f;
        assert(now[before.len() + p] == f);
    } else {
        lemma_unit_finds(v, corpus, root, (n - 1) as nat, k, f);
        let p = choose|p: int| 0 <= p < before.len() && before[p] == f;
        assert(now[p] == f);
    }
}

proof fn lemma_units_find(
    units: Seq<Option<TranslationUnit>>,
    corpus: Seq<char>,
    root: Seq<char>,
    n: nat,
    i: int,
    k: int,
    f: FindingView,
)
    requires
        0 <= i < n <= units.len(),
        units[i] is Some,
        0 <= k < units[i]->0.cursors@.len(),
        top_findings(units[i]->0.cursors@[k], corpus, root).contains(f),
    ensures
        parsed_findings(units, corpus, root, n).contains(f),
    decreases n,
{
    let now = parsed_findings(units, corpus, root, n);
    let before = parsed_findings(units, corpus, root, (n - 1) as nat);
    if i == n - 1 {
        let v = units[i]->0.cursors@;
        lemma_unit_finds(v, corpus, root, v.len(), k, f);
        let own = unit_findings(v, corpus, root, v.len());
        let p = choose|p: int| 0 <= p < own.len() && own[p] == f;
        assert(now[before.len() + p] == f);
    } else {
        lemma_units_find(units, corpus, root, (n - 1) as nat, i, k, f);
        let p = choose|p: int| 0 <= p < before.len() && before[p] == f;
        assert(now[p] == f);
    }
}

proof fn lemma_unit_stems(
    v: Seq<Cursor>,
    corpus: Seq<char>,
    root: Seq<char>,
    n: nat,
    f: FindingView,
)
    requires
        n <= v.len(),
        unit_findings(v, corpus, root, n).contains(f),
    ensures
        exists|k: int| 0 <= k < n && top_findings(#[trigger] v[k], corpus, root).contains(f),
    decreases n,
{
    let now = unit_findings(v, corpus, root, n);
    let p = choose|p: int| 0 <= p < now.len() && now[p] == f;
    if n > 0 {
        let before = unit_findings(v, corpus, root, (n - 1) as nat);
        if p < before.len() {
            assert(before[p] == f);
            lemma_unit_stems(v, corpus, root, (n - 1) as nat, f);
        } else {
            assert(top_findings(v[n - 1], corpus, root)[p - before.len()] == f);
        }
    }
}

/// A cursor at the top of one of the units.
pub open spec fn is_top(units: Seq<Option<TranslationUnit>>, i: int, k: int) -> bool {
    &&& 0 <= i < units.len()
    &&& units[i] is Some
    &&& 0 <= k < units[i]->0.cursors@.len()
}

/// The cursor `k` at the top of the unit `i`.
pub open spec fn top(units: Seq<Option<TranslationUnit>>, i: int, k: int) -> Cursor {
    units[i]->0.cursors@[k]
}

proof fn lemma_units_stem(
    units: Seq<Option<TranslationUnit>>,
    corpus: Seq<char>,
    root: Seq<char>,
    n: nat,
    f: FindingView,
)
    requires
        n <= units.len(),
        parsed_findings(units, corpus, root, n).contains(f),
    ensures
        exists|i: int, k: int|
            is_top(units, i, k) && #[trigger] top_findings(top(units, i, k), corpus, root).contains(
                f,
            ),
    decreases n,
{
    let now = parsed_findings(units, corpus, root, n);
    let p = choose|p: int| 0 <= p < now.len() && now[p] == f;
    if n > 0 {
        let before = parsed_findings(units, corpus, root, (n - 1) as nat);
        if p < before.len() {
            assert(before[p] == f);
            lemma_units_stem(units, corpus, root, (n - 1) as nat, f);
        } else {
            let v = units[n - 1]->0.cursors@;
            let own = unit_findings(v, corpus, root, v.len());
            assert(own[p - before.len()] == f);
            lemma_unit_stems(v, corpus, root, v.len(), f);
            let k = choose|k: int|
                0 <= k < v.len() && top_findings(#[trigger] v[k], corpus, root).contains(f);
            assert(top_findings(top(units, n - 1, k), corpus, root).contains(f));
        }
    }
}

proof fn lemma_definition_marks(c: Cursor, symbol: Seq<char>, root: Seq<char>, rel: Seq<char>)
    requires
        stands_in(c, root, rel),
    ensures
        definition_at(c, symbol, root) matches Some((p, o)) && p == rel && o.symbol == symbol
            && o.symbol_roles == 1 && marks_name(o, c) && spans_cursor(o, c),
        reference_at(c, symbol, root) matches Some((p, o)) && p == rel && o.symbol == symbol
            && o.symbol_roles == 0 && marks_name(o, c) && o.enclosing_range.len() == 0,
{
}

/// Whether the child `x` of an interface names its superclass, or a protocol
/// that it conforms to, as `r` says.
pub open spec fn names_parent(x: Cursor, corpus: Seq<char>, r: RelationshipView) -> bool {
    &&& x.spelling@.len() > 0
    &&& r.is_implementation && !r.is_reference
    &&& (x.kind == CursorKind::SuperClassRef && r.symbol == class_text(corpus, x.spelling@)) || (
    x.kind == CursorKind::ProtocolRef && r.symbol == protocol_text(corpus, x.spelling@))
}

proof fn lemma_relationships(v: Seq<Cursor>, corpus: Seq<char>, r: RelationshipView)
    ensures
        crate::emitter::somes(relationship_slots(v, corpus, v.len())).contains(r) <==> exists|j: int|
            0 <= j < v.len() && names_parent(#[trigger] v[j], corpus, r),
{
    let slots = relationship_slots(v, corpus, v.len());
    crate::emitter::lemma_somes_hold(slots, r);
    if slots.contains(Some(r)) {
        let j = choose|j: int| 0 <= j < slots.len() && slots[j] == Some(r);
        assert(names_parent(v[j], corpus, r));
    }
    if exists|j: int| 0 <= j < v.len() && names_parent(#[trigger] v[j], corpus, r) {
        let j = choose|j: int| 0 <= j < v.len() && names_parent(#[trigger] v[j], corpus, r);
        assert(slots[j] == Some(r));
    }
}

/// An interface of the project defines its class in its source and declares
/// it there. The class is related to the superclass and to each protocol that
/// the interface names, and to nothing else.
pub proof fn law_interface_is_indexed(
    units: Seq<Option<TranslationUnit>>,
    corpus: Seq<char>,
    root: Seq<char>,
    i: int,
    k: int,
    rel: Seq<char>,
)
    requires
        is_top(units, i, k),
        top(units, i, k).kind == CursorKind::Interface,
        top(units, i, k).spelling@.len() > 0,
        stands_in(top(units, i, k), root, rel),
    ensures
        ({
            let c = top(units, i, k);
            let index = units_index(units, corpus, root);
            let symbol = class_text(corpus, c.spelling@);
            &&& source_defines(index, rel, c, symbol)
            &&& exists|s: SymbolView|
                #![trigger source_declares(index, rel, s)]
                source_declares(index, rel, s) && s.symbol == symbol && s.kind == 7 && forall|
                    r: RelationshipView,
                | #[trigger]
                    s.relationships.contains(r) <==> exists|j: int|
                        0 <= j < c.children@.len() && names_parent(
                            #[trigger] c.children@[j],
                            corpus,
                            r,
                        )
        }),
{
    let c = top(units, i, k);
    let index = units_index(units, corpus, root);
    let s = interface_symbol(c, corpus);
    lemma_index_holds_findings(units, corpus, root);
    lemma_definition_marks(c, s.symbol, root, rel);
    let (_, o) = definition_at(c, s.symbol, root)->0;
    let own = top_findings(c, corpus, root);
    assert(own[0] == FindingView::Occurrence(rel, o));
    assert(own[1] == FindingView::Symbol(rel, s));
    lemma_units_find(units, corpus, root, units.len(), i, k, own[0]);
    lemma_units_find(units, corpus, root, units.len(), i, k, own[1]);
    assert(source_has(index, rel, o));
    assert(source_declares(index, rel, s));
    assert forall|r: RelationshipView| #[trigger]
        s.relationships.contains(r) <==> exists|j: int|
            0 <= j < c.children@.len() && names_parent(#[trigger] c.children@[j], corpus, r) by {
        lemma_relationships(c.children@, corpus, r);
    }
}

proof fn lemma_members_are_plain(
    container: Seq<Cursor>,
    class: Seq<char>,
    corpus: Seq<char>,
    root: Seq<char>,
    n: nat,
    p: Seq<char>,
    s: SymbolView,
)
    requires
        n <= container.len(),
        members_findings(container, class, corpus, root, n).contains(FindingView::Symbol(p, s)),
    ensures
        s.relationships.len() == 0,
    decreases n,
{
    let now = members_findings(container, class, corpus, root, n);
    let f = FindingView::Symbol(p, s);
    let q = choose|q: int| 0 <= q < now.len() && now[q] == f;
    if n > 0 {
        let before = members_findings(container, class, corpus, root, (n - 1) as nat);
        if q < before.len() {
            assert(before[q] == f);
            lemma_members_are_plain(container, class, corpus, root, (n - 1) as nat, p, s);
        } else {
            let c = container[n - 1];
            let own = member_findings(container, c, class, corpus, root);
            assert(own[q - before.len()] == f);
            lemma_references_are_occurrences(c.children, corpus, root, c.children@.len());
            if q - before.len() >= 2 {
                let refs = list_references(c.children, corpus, root, c.children@.len());
                assert(refs[q - before.len() - 2] == f);
            }
        }
    }
}

proof fn lemma_body_references_are_occurrences(c: Cursor, corpus: Seq<char>, root: Seq<char>)
    ensures
        forall|q: int|
            0 <= q < body_references(c, corpus, root).len() ==> (#[trigger] body_references(
                c,
                corpus,
                root,
            )[q]) is Occurrence,
    decreases c, 0nat,
{
    if !c.system {
        lemma_references_are_occurrences(c.children, corpus, root, c.children@.len());
    }
}

proof fn lemma_references_are_occurrences(
    v: Vec<Cursor>,
    corpus: Seq<char>,
    root: Seq<char>,
    n: nat,
)
    ensures
        forall|q: int|
            0 <= q < list_references(v, corpus, root, n).len() ==> (#[trigger] list_references(
                v,
                corpus,
                root,
                n,
            )[q]) is Occurrence,
    decreases v, n,
{
    if n > 0 && n <= v@.len() {
        lemma_references_are_occurrences(v, corpus, root, (n - 1) as nat);
        lemma_body_references_are_occurrences(v@[n - 1], corpus, root);
    }
}

/// Every relationship of an index stems from an interface: the symbol that has
/// it is the class of the interface, and a child of the interface names what
/// it leads to.
pub proof fn law_relationship_stems_from_an_interface(
    units: Seq<Option<TranslationUnit>>,
    corpus: Seq<char>,
    root: Seq<char>,
    rel: Seq<char>,
    s: SymbolView,
    r: RelationshipView,
)
    requires
        source_declares(units_index(units, corpus, root), rel, s),
        s.relationships.contains(r),
    ensures
        exists|i: int, k: int, j: int|
            #![trigger top(units, i, k).children@[j]]
            is_top(units, i, k) && top(units, i, k).kind == CursorKind::Interface && s.symbol
                == class_text(corpus, top(units, i, k).spelling@) && 0 <= j < top(
                units,
                i,
                k,
            ).children@.len() && names_parent(top(units, i, k).children@[j], corpus, r),
{
    let f = FindingView::Symbol(rel, s);
    lemma_index_holds_findings(units, corpus, root);
    lemma_units_stem(units, corpus, root, units.len(), f);
    let (i, k) = choose|i: int, k: int|
        is_top(units, i, k) && #[trigger] top_findings(top(units, i, k), corpus, root).contains(f);
    let c = top(units, i, k);
    let own = top_findings(c, corpus, root);
    let q = choose|q: int| 0 <= q < own.len() && own[q] == f;
    let n = c.children@.len();
    lemma_references_are_occurrences(c.children, corpus, root, n);
    let class = match c.kind {
        CursorKind::Category | CursorKind::CategoryImplementation => class_ref(c),
        _ => c.spelling@,
    };
    let members = members_findings(c.children@, class, corpus, root, n);
    if c.kind != CursorKind::Function && members.contains(f) {
        lemma_members_are_plain(c.children@, class, corpus, root, n, rel, s);
    }
    if c.kind == CursorKind::Function {
        let refs = list_references(c.children, corpus, root, n);
        if q >= 2 {
            assert(refs[q - 2] == f);
        }
    } else {
        let head = own.len() - members.len();
        if q >= head {
            assert(members[q - head] == f);
        }
    }
    assert(s == interface_symbol(c, corpus));
    lemma_relationships(c.children@, corpus, r);
}

/// Whether the cursor `c` holds members of the type `class`: a class or
/// protocol those of its own name, a category those of the class that it
/// refers to first.
pub open spec fn holds_members_of(c: Cursor, class: Seq<char>) -> bool {
    &&& !c.system
    &&& class.len() > 0
    &&& match c.kind {
        CursorKind::Interface | CursorKind::Implementation | CursorKind::Protocol => {
            class == c.spelling@
        },
        CursorKind::Category | CursorKind::CategoryImplementation => extends_class(c, class),
        _ => false,
    }
}

/// Whether the first class that a child of `c` refers to is `class`.
pub open spec fn extends_class(c: Cursor, class: Seq<char>) -> bool {
    exists|j: int|
        0 <= j < c.children@.len() && (#[trigger] c.children@[j]).kind == CursorKind::ClassRef
            && c.children@[j].spelling@ == class && forall|m: int|
            0 <= m < j ==> (#[trigger] c.children@[m]).kind != CursorKind::ClassRef
}

proof fn lemma_class_ref_from(v: Seq<Cursor>, i: int, j: int)
    requires
        0 <= i <= j < v.len(),
        v[j].kind == CursorKind::ClassRef,
        forall|m: int| i <= m < j ==> (#[trigger] v[m]).kind != CursorKind::ClassRef,
    ensures
        class_ref_from(v, i) == v[j].spelling@,
    decreases j - i,
{
    if i < j {
        lemma_class_ref_from(v, i + 1, j);
    }
}

proof fn lemma_extends_class(c: Cursor, class: Seq<char>)
    requires
        extends_class(c, class),
    ensures
        class_ref(c) == class,
{
    let j = choose|j: int|
        0 <= j < c.children@.len() && (#[trigger] c.children@[j]).kind == CursorKind::ClassRef
            && c.children@[j].spelling@ == class && forall|m: int|
            0 <= m < j ==> (#[trigger] c.children@[m]).kind != CursorKind::ClassRef;
    lemma_class_ref_from(c.children@, 0, j);
}

proof fn lemma_members_find(
    container: Seq<Cursor>,
    class: Seq<char>,
    corpus: Seq<char>,
    root: Seq<char>,
    n: nat,
    m: int,
    f: FindingView,
)
    requires
        0 <= m < n <= container.len(),
        member_findings(container, container[m], class, corpus, root).contains(f),
    ensures
        members_findings(container, class, corpus, root, n).contains(f),
    decreases n,
{
    let now = members_findings(container, class, corpus, root, n);
    let before = members_findings(container, class, corpus, root, (n - 1) as nat);
    if m == n - 1 {
        let own = member_findings(container, container[m], class, corpus, root);
        let p = choose|p: int| 0 <= p < own.len() && own[p] == f;
        assert(now[before.len() + p] == f);
    } else {
        lemma_members_find(container, class, corpus, root, (n - 1) as nat, m, f);
        let p = choose|p: int| 0 <= p < before.len() && before[p] == f;
        assert(now[p] == f);
    }
}

proof fn lemma_top_finds_member(
    c: Cursor,
    class: Seq<char>,
    corpus: Seq<char>,
    root: Seq<char>,
    m: int,
    f: FindingView,
)
    requires
        holds_members_of(c, class),
        0 <= m < c.children@.len(),
        member_findings(c.children@, c.children@[m], class, corpus, root).contains(f),
    ensures
        top_findings(c, corpus, root).contains(f),
{
    let n = c.children@.len();
    if c.kind == CursorKind::Category || c.kind == CursorKind::CategoryImplementation {
        lemma_extends_class(c, class);
    }
    lemma_members_find(c.children@, class, corpus, root, n, m, f);
    let members = members_findings(c.children@, class, corpus, root, n);
    let own = top_findings(c, corpus, root);
    let p = choose|p: int| 0 <= p < members.len() && members[p] == f;
    assert(own[own.len() - members.len() + p] == f);
}

/// Whether the cursor `x` is a method of a type with the members `v`: it has a
/// name, and no property of the type stands where it does.
pub open spec fn is_written_method(v: Seq<Cursor>, x: Cursor) -> bool {
    &&& x.kind == CursorKind::InstanceMethod || x.kind == CursorKind::ClassMethod
    &&& x.spelling@.len() > 0
    &&& forall|j: int|
        0 <= j < v.len() && (#[trigger] v[j]).kind == CursorKind::Property && v[j].place is Some
            && x.place is Some ==> v[j].place->0.line != x.place->0.line || v[j].place->0.col
            != x.place->0.col
}

proof fn lemma_written_method(v: Seq<Cursor>, x: Cursor)
    requires
        is_written_method(v, x),
    ensures
        !is_synthesized(v, x),
{
}

/// Every method that is written in a type of the project is defined and
/// declared under the type and its selector.
pub proof fn law_method_is_indexed(
    units: Seq<Option<TranslationUnit>>,
    corpus: Seq<char>,
    root: Seq<char>,
    i: int,
    k: int,
    m: int,
    class: Seq<char>,
    rel: Seq<char>,
)
    requires
        is_top(units, i, k),
        holds_members_of(top(units, i, k), class),
        0 <= m < top(units, i, k).children@.len(),
        is_written_method(top(units, i, k).children@, top(units, i, k).children@[m]),
        stands_in(top(units, i, k).children@[m], root, rel),
    ensures
        ({
            let x = top(units, i, k).children@[m];
            let index = units_index(units, corpus, root);
            let symbol = method_text(corpus, class, x.spelling@);
            source_defines(index, rel, x, symbol) && source_names(index, rel, symbol, 26)
        }),
{
    let c = top(units, i, k);
    let x = c.children@[m];
    let index = units_index(units, corpus, root);
    let symbol = method_text(corpus, class, x.spelling@);
    lemma_index_holds_findings(units, corpus, root);
    lemma_definition_marks(x, symbol, root, rel);
    lemma_written_method(c.children@, x);
    let (_, o) = definition_at(x, symbol, root)->0;
    let s = plain_symbol(symbol, KIND_METHOD);
    let own = member_findings(c.children@, x, class, corpus, root);
    assert(own[0] == FindingView::Occurrence(rel, o));
    assert(own[1] == FindingView::Symbol(rel, s));
    lemma_top_finds_member(c, class, corpus, root, m, own[0]);
    lemma_top_finds_member(c, class, corpus, root, m, own[1]);
    lemma_units_find(units, corpus, root, units.len(), i, k, own[0]);
    lemma_units_find(units, corpus, root, units.len(), i, k, own[1]);
    assert(source_has(index, rel, o));
    assert(source_declares(index, rel, s));
}

/// Every property of a type of the project is defined and declared under the
/// type and its name.
pub proof fn law_property_is_indexed(
    units: Seq<Option<TranslationUnit>>,
    corpus: Seq<char>,
    root: Seq<char>,
    i: int,
    k: int,
    m: int,
    class: Seq<char>,
    rel: Seq<char>,
)
    requires
        is_top(units, i, k),
        holds_members_of(top(units, i, k), class),
        0 <= m < top(units, i, k).children@.len(),
        top(units, i, k).children@[m].kind == CursorKind::Property,
        top(units, i, k).children@[m].spelling@.len() > 0,
        stands_in(top(units, i, k).children@[m], root, rel),
    ensures
        ({
            let x = top(units, i, k).children@[m];
            let index = units_index(units, corpus, root);
            let symbol = property_text(corpus, class, x.spelling@);
            source_defines(index, rel, x, symbol) && source_names(index, rel, symbol, 41)
        }),
{
    let c = top(units, i, k);
    let x = c.children@[m];
    let index = units_index(units, corpus, root);
    let symbol = property_text(corpus, class, x.spelling@);
    lemma_index_holds_findings(units, corpus, root);
    lemma_definition_marks(x, symbol, root, rel);
    let (_, o) = definition_at(x, symbol, root)->0;
    let s = plain_symbol(symbol, KIND_PROPERTY);
    let own = member_findings(c.children@, x, class, corpus, root);
    assert(own[0] == FindingView::Occurrence(rel, o));
    assert(own[1] == FindingView::Symbol(rel, s));
    lemma_top_finds_member(c, class, corpus, root, m, own[0]);
    lemma_top_finds_member(c, class, corpus, root, m, own[1]);
    lemma_units_find(units, corpus, root, units.len(), i, k, own[0]);
    lemma_units_find(units, corpus, root, units.len(), i, k, own[1]);
    assert(source_has(index, rel, o));
    assert(source_declares(index, rel, s));
}

/// Every protocol and function of the project is defined and declared under
/// its name; an implementation defines its class, and a category the class
/// that it extends.
pub proof fn law_top_level_is_indexed(
    units: Seq<Option<TranslationUnit>>,
    corpus: Seq<char>,
    root: Seq<char>,
    i: int,
    k: int,
    rel: Seq<char>,
)
    requires
        is_top(units, i, k),
        stands_in(top(units, i, k), root, rel),
    ensures
        ({
            let c = top(units, i, k);
            let index = units_index(units, corpus, root);
            let named = c.spelling@.len() > 0;
            let protocol = protocol_text(corpus, c.spelling@);
            let function = function_text(corpus, c.spelling@);
            &&& c.kind == CursorKind::Protocol && named ==> source_defines(index, rel, c, protocol)
                && source_names(index, rel, protocol, 21)
            &&& c.kind == CursorKind::Function && named ==> source_defines(index, rel, c, function)
                && source_names(index, rel, function, 17)
            &&& c.kind == CursorKind::Implementation && named ==> source_defines(
                index,
                rel,
                c,
                class_text(corpus, c.spelling@),
            )
            &&& forall|class: Seq<char>|
                c.kind == CursorKind::Category && class.len() > 0 && #[trigger] extends_class(
                    c,
                    class,
                ) ==> source_defines(index, rel, c, class_text(corpus, class))
        }),
{
    let c = top(units, i, k);
    let index = units_index(units, corpus, root);
    let own = top_findings(c, corpus, root);
    lemma_index_holds_findings(units, corpus, root);
    if c.spelling@.len() > 0 && (c.kind == CursorKind::Protocol || c.kind == CursorKind::Function) {
        let (symbol, kind) = if c.kind == CursorKind::Protocol {
            (protocol_text(corpus, c.spelling@), KIND_INTERFACE)
        } else {
            (function_text(corpus, c.spelling@), KIND_FUNCTION)
        };
        lemma_definition_marks(c, symbol, root, rel);
        let (_, o) = definition_at(c, symbol, root)->0;
        let s = plain_symbol(symbol, kind);
        assert(own[0] == FindingView::Occurrence(rel, o));
        assert(own[1] == FindingView::Symbol(rel, s));
        lemma_units_find(units, corpus, root, units.len(), i, k, own[0]);
        lemma_units_find(units, corpus, root, units.len(), i, k, own[1]);
        assert(source_has(index, rel, o));
        assert(source_declares(index, rel, s));
    }
    if c.spelling@.len() > 0 && c.kind == CursorKind::Implementation {
        let symbol = class_text(corpus, c.spelling@);
        lemma_definition_marks(c, symbol, root, rel);
        let (_, o) = definition_at(c, symbol, root)->0;
        assert(own[0] == FindingView::Occurrence(rel, o));
        lemma_units_find(units, corpus, root, units.len(), i, k, own[0]);
        assert(source_has(index, rel, o));
    }
    assert forall|class: Seq<char>|
        c.kind == CursorKind::Category && class.len() > 0 && #[trigger] extends_class(
            c,
            class,
        ) implies source_defines(index, rel, c, class_text(corpus, class)) by {
        let symbol = class_text(corpus, class);
        lemma_extends_class(c, class);
        lemma_definition_marks(c, symbol, root, rel);
        let (_, o) = definition_at(c, symbol, root)->0;
        assert(own[0] == FindingView::Occurrence(rel, o));
        lemma_units_find(units, corpus, root, units.len(), i, k, own[0]);
        assert(source_has(index, rel, o));
    }
}

/// Whether the cursor `x` is what `path` leads to from the cursors `v`: each
/// number of the path picks a child, and none of those picked lies in a header
/// of the system.
pub open spec fn leads_to(v: Seq<Cursor>, path: Seq<int>, x: Cursor) -> bool
    decreases path.len(),
{
    &&& path.len() > 0
    &&& 0 <= path[0] < v.len()
    &&& !v[path[0]].system
    &&& if path.len() == 1 {
        v[path[0]] == x
    } else {
        leads_to(v[path[0]].children@, path.skip(1), x)
    }
}

proof fn lemma_list_finds(
    v: Vec<Cursor>,
    path: Seq<int>,
    x: Cursor,
    corpus: Seq<char>,
    root: Seq<char>,
    n: nat,
    f: FindingView,
)
    requires
        leads_to(v@, path, x),
        path[0] < n <= v@.len(),
        own_reference(x, corpus, root).contains(f),
    ensures
        list_references(v, corpus, root, n).contains(f),
    decreases path.len(), n,
{
    let now = list_references(v, corpus, root, n);
    let before = list_references(v, corpus, root, (n - 1) as nat);
    if path[0] == n - 1 {
        let c = v@[n - 1];
        let all = body_references(c, corpus, root);
        let own = own_reference(c, corpus, root);
        if path.len() == 1 {
            let p = choose|p: int| 0 <= p < own.len() && own[p] == f;
            assert(all[p] == f);
            assert(now[before.len() + p] == f);
        } else {
            assert(leads_to(c.children@, path.skip(1), x));
            lemma_list_finds(c.children, path.skip(1), x, corpus, root, c.children@.len(), f);
            let inner = list_references(c.children, corpus, root, c.children@.len());
            let p = choose|p: int| 0 <= p < inner.len() && inner[p] == f;
            assert(all[own.len() + p] == f);
            assert(now[before.len() + own.len() + p] == f);
        }
    } else {
        lemma_list_finds(v, path, x, corpus, root, (n - 1) as nat, f);
        let p = choose|p: int| 0 <= p < before.len() && before[p] == f;
        assert(now[p] == f);
    }
}

/// Whether the message `x` goes to the method `selector` of `class`: the one
/// that it was resolved to, in a type of that name or a category of it and in
/// no header of the system; or, unresolved, that of its own spelling in the
/// class that it refers to.
pub open spec fn goes_to(x: Cursor, class: Seq<char>, selector: Seq<char>) -> bool {
    &&& x.kind == CursorKind::Message
    &&& class.len() > 0 && selector.len() > 0
    &&& match x.callee {
        Some(m) if m.kind == CursorKind::InstanceMethod || m.kind == CursorKind::ClassMethod => {
            &&& !m.system
            &&& m.selector@ == selector
            &&& match m.parent_kind {
                CursorKind::Interface | CursorKind::Implementation | CursorKind::Protocol => {
                    class == m.parent_name@
                },
                CursorKind::Category | CursorKind::CategoryImplementation => {
                    class == m.parent_class@
                },
                _ => false,
            }
        },
        _ => x.spelling@ == selector && extends_class(x, class),
    }
}

/// Whether the source `rel` of an index refers to `symbol` where the cursor
/// `x` stands.
pub open spec fn source_refers(
    index: IndexView,
    rel: Seq<char>,
    x: Cursor,
    symbol: Seq<char>,
) -> bool {
    exists|o: OccurrenceView| #[trigger]
        source_has(index, rel, o) && o.symbol == symbol && o.symbol_roles == 0 && marks_name(o, x)
}

proof fn lemma_goes_to(x: Cursor, class: Seq<char>, selector: Seq<char>)
    requires
        goes_to(x, class, selector),
    ensures
        message_target(x) == Some((class, selector)),
{
    if !is_resolved(x) {
        lemma_extends_class(x, class);
    }
}

/// Every message in the body of a function or of a written method of the
/// project is a reference to the method that it goes to.
pub proof fn law_message_is_a_reference(
    units: Seq<Option<TranslationUnit>>,
    corpus: Seq<char>,
    root: Seq<char>,
    i: int,
    k: int,
    m: int,
    owner: Seq<char>,
    home: Seq<char>,
    path: Seq<int>,
    x: Cursor,
    class: Seq<char>,
    selector: Seq<char>,
    rel: Seq<char>,
)
    requires
        is_top(units, i, k),
        stands_in(x, root, rel),
        goes_to(x, class, selector),
        ({
            let c = top(units, i, k);
            ||| c.kind == CursorKind::Function && c.spelling@.len() > 0 && stands_in(c, root, home)
                && leads_to(c.children@, path, x)
            ||| {
                &&& holds_members_of(c, owner)
                &&& 0 <= m < c.children@.len()
                &&& is_written_method(c.children@, c.children@[m])
                &&& stands_in(c.children@[m], root, home)
                &&& leads_to(c.children@[m].children@, path, x)
            }
        }),
    ensures
        source_refers(
            units_index(units, corpus, root),
            rel,
            x,
            method_text(corpus, class, selector),
        ),
{
    let c = top(units, i, k);
    let index = units_index(units, corpus, root);
    let symbol = method_text(corpus, class, selector);
    lemma_index_holds_findings(units, corpus, root);
    lemma_goes_to(x, class, selector);
    lemma_definition_marks(x, symbol, root, rel);
    let (_, o) = reference_at(x, symbol, root)->0;
    let f = FindingView::Occurrence(rel, o);
    assert(own_reference(x, corpus, root)[0] == f);
    let own = top_findings(c, corpus, root);
    if c.kind == CursorKind::Function && c.spelling@.len() > 0 && stands_in(c, root, home)
        && leads_to(c.children@, path, x) {
        let n = c.children@.len();
        lemma_definition_marks(c, function_text(corpus, c.spelling@), root, home);
        lemma_list_finds(c.children, path, x, corpus, root, n, f);
        let refs = list_references(c.children, corpus, root, n);
        let p = choose|p: int| 0 <= p < refs.len() && refs[p] == f;
        assert(own[2 + p] == f);
    } else {
        let y = c.children@[m];
        let n = y.children@.len();
        lemma_definition_marks(y, method_text(corpus, owner, y.spelling@), root, home);
        lemma_written_method(c.children@, y);
        lemma_list_finds(y.children, path, x, corpus, root, n, f);
        let refs = list_references(y.children, corpus, root, n);
        let p = choose|p: int| 0 <= p < refs.len() && refs[p] == f;
        let found = member_findings(c.children@, y, owner, corpus, root);
        assert(found[2 + p] == f);
        lemma_top_finds_member(c, owner, corpus, root, m, f);
    }
    lemma_units_find(units, corpus, root, units.len(), i, k, f);
    assert(source_has(index, rel, o));
}

/// Whether the cursor `x` is the method or function that `path` leads to from
/// the cursors `v`: none of those that the path picks lies in a header of the
/// system, and only the last is a method or function.
pub open spec fn leads_to_body(v: Seq<Cursor>, path: Seq<int>, x: Cursor) -> bool
    decreases path.len(),
{
    &&& path.len() > 0
    &&& 0 <= path[0] < v.len()
    &&& !v[path[0]].system
    &&& ({
        let c = v[path[0]];
        let body = c.kind == CursorKind::InstanceMethod || c.kind == CursorKind::ClassMethod
            || c.kind == CursorKind::Function;
        if path.len() == 1 {
            c == x && body
        } else {
            !body && leads_to_body(c.children@, path.skip(1), x)
        }
    })
}

proof fn lemma_list_recovers(
    v: Vec<Cursor>,
    path: Seq<int>,
    x: Cursor,
    root: Seq<char>,
    n: nat,
    c: CandidateView,
)
    requires
        leads_to_body(v@, path, x),
        path[0] < n <= v@.len(),
        body_candidates(x, root).contains(c),
    ensures
        list_candidates(v, root, n).contains(c),
    decreases path.len(), n,
{
    let now = list_candidates(v, root, n);
    let before = list_candidates(v, root, (n - 1) as nat);
    if path[0] == n - 1 {
        let y = v@[n - 1];
        let own = cursor_candidates(y, root);
        if path.len() > 1 {
            assert(leads_to_body(y.children@, path.skip(1), x));
            lemma_list_recovers(y.children, path.skip(1), x, root, y.children@.len(), c);
        }
        assert(own.contains(c));
        let p = choose|p: int| 0 <= p < own.len() && own[p] == c;
        assert(now[before.len() + p] == c);
    } else {
        lemma_list_recovers(v, path, x, root, (n - 1) as nat, c);
        let p = choose|p: int| 0 <= p < before.len() && before[p] == c;
        assert(now[p] == c);
    }
}

proof fn lemma_units_recover(
    units: Seq<Option<TranslationUnit>>,
    root: Seq<char>,
    n: nat,
    i: int,
    c: CandidateView,
)
    requires
        0 <= i < n <= units.len(),
        units[i] is Some,
        units[i]->0.has_error,
        list_candidates(
            units[i]->0.cursors,
            root,
            units[i]->0.cursors@.len(),
        ).contains(c),
    ensures
        recovered_sends(units, root, n).contains(c),
    decreases n,
{
    let now = recovered_sends(units, root, n);
    let before = recovered_sends(units, root, (n - 1) as nat);
    if i == n - 1 {
        let own = list_candidates(units[i]->0.cursors, root, units[i]->0.cursors@.len());
        let p = choose|p: int| 0 <= p < own.len() && own[p] == c;
        assert(now[before.len() + p] == c);
    } else {
        lemma_units_recover(units, root, (n - 1) as nat, i, c);
        let p = choose|p: int| 0 <= p < before.len() && before[p] == c;
        assert(now[p] == c);
    }
}

/// In a unit with errors, a message to a class that the tokens of a body show
/// is in the index, on the line of its selector, where the index declares the
/// method that it goes to; whether the parser saw the message does not matter.
pub proof fn law_hidden_message_is_recovered(
    units: Seq<Option<TranslationUnit>>,
    corpus: Seq<char>,
    root: Seq<char>,
    i: int,
    path: Seq<int>,
    x: Cursor,
    rel: Seq<char>,
    o: int,
    s: ClassSend,
    home: Seq<char>,
    declared: SymbolView,
)
    requires
        0 <= i < units.len(),
        units[i] is Some,
        units[i]->0.has_error,
        leads_to_body(units[i]->0.cursors@, path, x),
        stands_in(x, root, rel),
        0 <= o < x.tokens@.len(),
        x.tokens@[o]@.spelling == "["@,
        send_at(tok_views(x.tokens@), o) == Some(s),
        0 <= s.selector_tok < x.tokens@.len(),
        x.tokens@[s.selector_tok].line > 0,
        x.tokens@[s.selector_tok].line <= i32::MAX,
        x.tokens@[s.selector_tok].col > 0,
        forall|k: int| 0 <= k < o ==> (#[trigger] x.tokens@[k])@.spelling != "#"@,
        source_declares(units_index(units, corpus, root), home, declared),
        declared.symbol == method_text(corpus, s.receiver, s.selector),
    ensures
        exists|y: OccurrenceView|
            #![trigger source_has(units_index(units, corpus, root), rel, y)]
            source_has(units_index(units, corpus, root), rel, y) && y.symbol == declared.symbol
                && y.range.len() > 0 && y.range[0] == x.tokens@[s.selector_tok].line - 1,
{
    let toks = tok_views(x.tokens@);
    let at = x.tokens@[s.selector_tok];
    let c = CandidateView {
        rel_path: rel,
        line: at.line,
        col: at.col,
        receiver: s.receiver,
        selector: s.selector,
    };
    assert forall|k: int| 0 <= k < o implies (#[trigger] toks[k]).spelling != "#"@ by {
        assert(x.tokens@[k]@.spelling != "#"@);
    }
    law_message_in_a_body_is_found(toks, rel, o, s);
    assert(body_candidates(x, root).contains(c));
    let u = units[i]->0;
    lemma_list_recovers(u.cursors, path, x, root, u.cursors@.len(), c);
    lemma_units_recover(units, root, units.len(), i, c);
    let sends = recovered_sends(units, root, units.len());
    let k = choose|k: int| 0 <= k < sends.len() && sends[k] == c;
    let findings = parsed_findings(units, corpus, root, units.len());
    let docs = entries_of(findings, findings.len());
    let all = with_candidates(docs, corpus, sends, sends.len());
    let index = units_index(units, corpus, root);
    lemma_index_holds_findings(units, corpus, root);
    lemma_entries(findings, findings.len());
    assert(findings.take(findings.len() as int) =~= findings);
    assert(findings.contains(FindingView::Symbol(home, declared)));
    assert(has_symbol(docs, home, declared));
    let a = choose|a: int|
        #![trigger docs[a]]
        0 <= a < docs.len() && docs[a].path == home && docs[a].syms.contains(declared);
    let b = choose|b: int| 0 <= b < docs[a].syms.len() && docs[a].syms[b] == declared;
    assert(docs[a].syms[b].symbol == declared.symbol);
    law_recovered_send_is_noted(docs, corpus, sends, sends.len(), k);
    let line = (at.line - 1) as i32;
    let (p, q) = choose|p: int, q: int|
        0 <= p < all.len() && all[p].path == rel && 0 <= q < all[p].occs.len() && on_line(
            #[trigger] all[p].occs[q],
            declared.symbol,
            line,
        );
    let y = all[p].occs[q];
    assert(all[p].occs.contains(y));
    assert(index.documents[p].occurrences == all[p].occs);
    assert(source_has(index, rel, y));
}

proof fn lemma_body_references_have_no_role(c: Cursor, corpus: Seq<char>, root: Seq<char>)
    ensures
        forall|q: int|
            0 <= q < body_references(c, corpus, root).len() ==> (#[trigger] body_references(
                c,
                corpus,
                root,
            )[q] matches FindingView::Occurrence(_, o) && o.symbol_roles == 0),
    decreases c, 0nat,
{
    if !c.system {
        lemma_references_have_no_role(c.children, corpus, root, c.children@.len());
    }
}

proof fn lemma_references_have_no_role(v: Vec<Cursor>, corpus: Seq<char>, root: Seq<char>, n: nat)
    ensures
        forall|q: int|
            0 <= q < list_references(v, corpus, root, n).len() ==> (#[trigger] list_references(
                v,
                corpus,
                root,
                n,
            )[q] matches FindingView::Occurrence(_, o) && o.symbol_roles == 0),
    decreases v, n,
{
    if n > 0 && n <= v@.len() {
        lemma_references_have_no_role(v, corpus, root, (n - 1) as nat);
        lemma_body_references_have_no_role(v@[n - 1], corpus, root);
    }
}

/// Whether the cursor `x`, a member of a type with the members `v`, defines
/// `symbol` for the type `class`: a property, or a method that stands where no
/// property does.
pub open spec fn member_defines(
    v: Seq<Cursor>,
    x: Cursor,
    class: Seq<char>,
    corpus: Seq<char>,
    symbol: Seq<char>,
) -> bool {
    &&& x.spelling@.len() > 0
    &&& {
        ||| x.kind == CursorKind::Property && symbol == property_text(corpus, class, x.spelling@)
        ||| {
            &&& x.kind == CursorKind::InstanceMethod || x.kind == CursorKind::ClassMethod
            &&& symbol == method_text(corpus, class, x.spelling@)
            &&& forall|j: int|
                0 <= j < v.len() && (#[trigger] v[j]).kind == CursorKind::Property && v[j].place is Some
                    && v[j].place->0.path@.len() > 0 && x.place is Some ==> v[j].place->0.line
                    != x.place->0.line || v[j].place->0.col != x.place->0.col
        }
    }
}

/// Whether the cursor `c` at the top of a unit defines `symbol` by itself.
pub open spec fn top_defines(c: Cursor, corpus: Seq<char>, symbol: Seq<char>) -> bool {
    ||| (c.kind == CursorKind::Interface || c.kind == CursorKind::Implementation)
        && c.spelling@.len() > 0 && symbol == class_text(corpus, c.spelling@)
    ||| c.kind == CursorKind::Protocol && c.spelling@.len() > 0 && symbol == protocol_text(
        corpus,
        c.spelling@,
    )
    ||| c.kind == CursorKind::Function && c.spelling@.len() > 0 && symbol == function_text(
        corpus,
        c.spelling@,
    )
    ||| c.kind == CursorKind::Category && exists|class: Seq<char>| #[trigger]
        extends_class(c, class) && class.len() > 0 && symbol == class_text(corpus, class)
}

proof fn lemma_definition_stands(c: Cursor, symbol: Seq<char>, root: Seq<char>)
    ensures
        definition_at(c, symbol, root) matches Some((p, o)) ==> stands_in(c, root, p) && o.symbol
            == symbol && marks_name(o, c) && spans_cursor(o, c),
{
    if definition_at(c, symbol, root) is Some {
        let (p, o) = definition_at(c, symbol, root)->0;
        lemma_definition_marks(c, symbol, root, p);
    }
}

proof fn lemma_class_ref_extends(c: Cursor, i: int)
    requires
        0 <= i <= c.children@.len(),
        class_ref_from(c.children@, i).len() > 0,
        forall|m: int| 0 <= m < i ==> (#[trigger] c.children@[m]).kind != CursorKind::ClassRef,
    ensures
        extends_class(c, class_ref_from(c.children@, i)),
    decreases c.children@.len() - i,
{
    if i < c.children@.len() {
        if c.children@[i].kind == CursorKind::ClassRef {
            assert(c.children@[i].spelling@ == class_ref_from(c.children@, i));
        } else {
            lemma_class_ref_extends(c, i + 1);
        }
    }
}

proof fn lemma_members_stem(
    v: Seq<Cursor>,
    class: Seq<char>,
    corpus: Seq<char>,
    root: Seq<char>,
    n: nat,
    p: Seq<char>,
    o: OccurrenceView,
)
    requires
        n <= v.len(),
        members_findings(v, class, corpus, root, n).contains(FindingView::Occurrence(p, o)),
        o.symbol_roles == 1,
    ensures
        exists|m: int|
            0 <= m < n && stands_in(#[trigger] v[m], root, p) && marks_name(o, v[m])
                && spans_cursor(o, v[m]) && member_defines(v, v[m], class, corpus, o.symbol),
    decreases n,
{
    let now = members_findings(v, class, corpus, root, n);
    let f = FindingView::Occurrence(p, o);
    let q = choose|q: int| 0 <= q < now.len() && now[q] == f;
    if n > 0 {
        let before = members_findings(v, class, corpus, root, (n - 1) as nat);
        if q < before.len() {
            assert(before[q] == f);
            lemma_members_stem(v, class, corpus, root, (n - 1) as nat, p, o);
        } else {
            let c = v[n - 1];
            let own = member_findings(v, c, class, corpus, root);
            assert(own[q - before.len()] == f);
            lemma_references_have_no_role(c.children, corpus, root, c.children@.len());
            lemma_definition_stands(c, method_text(corpus, class, c.spelling@), root);
            lemma_definition_stands(c, property_text(corpus, class, c.spelling@), root);
            if q - before.len() >= 2 {
                let refs = list_references(c.children, corpus, root, c.children@.len());
                assert(refs[q - before.len() - 2] == f);
            }
            assert(stands_in(v[n - 1], root, p));
            if c.kind != CursorKind::Property {
                assert forall|j: int|
                    0 <= j < v.len() && (#[trigger] v[j]).kind == CursorKind::Property
                        && v[j].place is Some && v[j].place->0.path@.len() > 0
                        && c.place is Some implies v[j].place->0.line != c.place->0.line
                    || v[j].place->0.col != c.place->0.col by {
                    let line = c.place->0.line;
                    let col = c.place->0.col;
                    if v[j].place->0.line == line && v[j].place->0.col == col {
                        assert(declares_property(v[j], line, col));
                        assert(is_synthesized(v, c));
                    }
                }
            }
        }
    }
}

/// Every definition of an index stems from a cursor that stands in its source,
/// outside the headers of the system: a type, category or function at the top
/// of a unit, or a method or property of such a type.
pub proof fn law_definition_stems_from_a_cursor(
    units: Seq<Option<TranslationUnit>>,
    corpus: Seq<char>,
    root: Seq<char>,
    rel: Seq<char>,
    o: OccurrenceView,
)
    requires
        source_has(units_index(units, corpus, root), rel, o),
        o.symbol_roles == 1,
    ensures
        exists|i: int, k: int|
            #![trigger top(units, i, k)]
            is_top(units, i, k) && {
                let c = top(units, i, k);
                ||| stands_in(c, root, rel) && marks_name(o, c) && spans_cursor(o, c)
                    && top_defines(c, corpus, o.symbol)
                ||| exists|m: int, class: Seq<char>|
                    #![trigger holds_members_of(c, class), c.children@[m]]
                    holds_members_of(c, class) && 0 <= m < c.children@.len() && stands_in(
                        c.children@[m],
                        root,
                        rel,
                    ) && marks_name(o, c.children@[m]) && spans_cursor(o, c.children@[m])
                        && member_defines(
                        c.children@,
                        c.children@[m],
                        class,
                        corpus,
                        o.symbol,
                    )
            },
{
    let f = FindingView::Occurrence(rel, o);
    lemma_index_holds_findings(units, corpus, root);
    lemma_units_stem(units, corpus, root, units.len(), f);
    let (i, k) = choose|i: int, k: int|
        is_top(units, i, k) && #[trigger] top_findings(top(units, i, k), corpus, root).contains(f);
    let c = top(units, i, k);
    let own = top_findings(c, corpus, root);
    let q = choose|q: int| 0 <= q < own.len() && own[q] == f;
    let n = c.children@.len();
    lemma_references_have_no_role(c.children, corpus, root, n);
    let category = c.kind == CursorKind::Category || c.kind == CursorKind::CategoryImplementation;
    let class = if category {
        class_ref(c)
    } else {
        c.spelling@
    };
    if category {
        lemma_class_ref_extends(c, 0);
    }
    lemma_definition_stands(c, class_text(corpus, class), root);
    lemma_definition_stands(c, protocol_text(corpus, class), root);
    lemma_definition_stands(c, function_text(corpus, class), root);
    if c.kind == CursorKind::Function {
        let refs = list_references(c.children, corpus, root, n);
        if q >= 2 {
            assert(refs[q - 2] == f);
        }
    } else {
        let members = members_findings(c.children@, class, corpus, root, n);
        let head = own.len() - members.len();
        if q >= head {
            assert(members[q - head] == f);
            lemma_members_stem(c.children@, class, corpus, root, n, rel, o);
            let m = choose|m: int|
                0 <= m < n && stands_in(#[trigger] c.children@[m], root, rel) && marks_name(
                    o,
                    c.children@[m],
                ) && spans_cursor(o, c.children@[m]) && member_defines(
                    c.children@,
                    c.children@[m],
                    class,
                    corpus,
                    o.symbol,
                );
            assert(holds_members_of(c, class));
            assert(stands_in(c.children@[m], root, rel));
        }
    }
}

/// A run has failed on every unit exactly where none was parsed.
pub proof fn law_one_parsed_unit_is_enough(units: Seq<Option<TranslationUnit>>, n: nat)
    requires
        n <= units.len(),
    ensures
        parsed_count(units, n) <= n,
        parsed_count(units, n) > 0 <==> exists|i: int| 0 <= i < n && #[trigger] units[i] is Some,
    decreases n,
{
    if n > 0 {
        law_one_parsed_unit_is_enough(units, (n - 1) as nat);
    }
}

/// Diagnostics hold an error exactly where one of them is graver than a
/// warning: adding a graver one makes an error of them, adding another does
/// not.
pub proof fn law_graver_than_a_warning_is_an_error(severities: Seq<u32>, s: u32)
    ensures
        !any_error(Seq::<u32>::empty()),
        s > 2 ==> any_error(severities.push(s)),
        s <= 2 ==> any_error(severities.push(s)) == any_error(severities),
{
    let more = severities.push(s);
    assert(more[severities.len() as int] == s);
    if any_error(severities) {
        let i = choose|i: int| 0 <= i < severities.len() && #[trigger] severities[i] >= 3;
        assert(more[i] == severities[i]);
    }
    if any_error(more) {
        let i = choose|i: int| 0 <= i < more.len() && #[trigger] more[i] >= 3;
        if i < severities.len() {
            assert(severities[i] == more[i]);
        }
    }
}

/// Where every unit failed, it is told how many there were.
pub proof fn law_failure_tells_how_many(n: nat)
    ensures
        crate::text::starts_with(all_failed_text(n), "all "@ + decimal(n) + " "@),
        crate::text::holds(all_failed_text(n), "failed to parse"@),
{
    reveal_strlit(" ");
    reveal_strlit("failed to parse");
    reveal_strlit(
        " Objective-C translation unit(s) failed to parse. libclang could not process any source file; check the active toolchain/SDK and the sandbox read grants",
    );
    let s = all_failed_text(n);
    let head = "all "@ + decimal(n) + " "@;
    assert(s.take(head.len() as int) =~= head);
    let at = head.len() as int + 32;
    assert(s.subrange(at, at + 15) =~= "failed to parse"@);
    assert(crate::text::occurs_at(s, "failed to parse"@, at));
}

} // verus!
