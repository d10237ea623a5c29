//! The language server protocol, as far as the Kotlin indexer speaks it:
//! framing, replies, progress, symbols and references.
use vstd::prelude::*;
use vstd::slice::slice_subrange;
use vstd::string::*;
use vstd::utf8::encode_utf8;
use crate::graph::{group_views_push, ref_views, RefView, ScipRef};
use crate::json::{
    display_of, has_member, items_member, items_of, json_display, json_has, json_items, json_member,
    json_text, json_u64, json_value, member, natural_of, parse_json, text_at_key, text_member,
    text_of,
};
use crate::paths::{uri_below, uri_to_rel};
use crate::text::{
    chars_of, copy_text, decimal, has_prefix, natural, parse_u64, push_decimal, same_text,
    starts_with, texts, trim, trimmed,
};

verus! {

/// The most references that one symbol contributes.
pub const MAX_REFS_PER_SYMBOL: usize = 500;

/// The depth to which symbols are followed: each level takes up memory, so
/// none lies deeper.
pub const MAX_DEPTH: usize = usize::MAX;

/// Why a message cannot be read.
#[derive(Debug, Clone, Copy, PartialEq, Eq, Structural)]
pub enum FrameError {
    /// The length of its body is no number.
    BadLength,
    /// It has no body.
    NoBody,
}

/// A line that ends the header of a message.
pub open spec fn is_blank(line: Seq<char>) -> bool {
    trim(line).len() == 0
}

/// Whether a line ends the header of a message.
pub fn blank(line: &str) -> (r: bool)
    ensures
        r == is_blank(line@),
{
    let chars = chars_of(line);
    trimmed(chars.as_slice()).len() == 0
}

/// A line of a header that gives the length of the body.
pub open spec fn length_line(line: Seq<char>) -> Option<Seq<char>> {
    let t = trim(line);
    if starts_with(t, "Content-Length:"@) {
        Some(trim(t.skip(15)))
    } else {
        None
    }
}

/// The length that the first `n` lines of a header give, the last one
/// counting; none where one of them is no number.
pub open spec fn header_length(lines: Seq<Seq<char>>, n: nat) -> Option<nat>
    decreases n,
{
    if n == 0 {
        Some(0)
    } else {
        match header_length(lines, (n - 1) as nat) {
            None => None,
            Some(len) => match length_line(lines[n - 1]) {
                None => Some(len),
                Some(t) => match natural(t) {
                    Some(v) if v <= u64::MAX => Some(v),
                    _ => None,
                },
            },
        }
    }
}

fn line_length(line: &str) -> (r: Option<Option<u64>>)
    ensures
        match r {
            None => length_line(line@) is None,
            Some(None) => length_line(line@) matches Some(t) && match natural(t) {
                Some(v) => v > u64::MAX,
                None => true,
            },
            Some(Some(v)) => length_line(line@) matches Some(t) && natural(t) == Some(v as nat),
        },
{
    let chars = chars_of(line);
    let t = trimmed(chars.as_slice());
    if !has_prefix(t, "Content-Length:") {
        return None;
    }
    proof {
        reveal_strlit("Content-Length:");
    }
    let rest = slice_subrange(t, 15, t.len());
    Some(parse_u64(trimmed(rest)))
}

/// The length of the body behind a header.
pub fn content_length(header: &Vec<String>) -> (r: Result<u64, FrameError>)
    ensures
        match header_length(texts(header@), header@.len()) {
            None => r == Err::<u64, FrameError>(FrameError::BadLength),
            Some(v) => if v == 0 {
                r == Err::<u64, FrameError>(FrameError::NoBody)
            } else {
                r matches Ok(n) && n == v
            },
        },
{
    let n: usize = header.len();
    let mut len: u64 = 0;
    let mut i: usize = 0;
    while i < n
        invariant
            i <= n,
            n == header@.len(),
            header_length(texts(header@), i as nat) == Some(len as nat),
        decreases n - i,
    {
        match line_length(header[i].as_str()) {
            None => {},
            Some(None) => {
                proof {
                    lemma_bad_length_stays(texts(header@), (i + 1) as nat, n as nat);
                }
                return Err(FrameError::BadLength);
            },
            Some(Some(v)) => {
                len = v;
            },
        }
        i += 1;
    }
    if len == 0 {
        Err(FrameError::NoBody)
    } else {
        Ok(len)
    }
}

proof fn lemma_bad_length_stays(lines: Seq<Seq<char>>, i: nat, n: nat)
    requires
        i <= n,
        header_length(lines, i) is None,
    ensures
        header_length(lines, n) is None,
    decreases n - i,
{
    if i < n {
        lemma_bad_length_stays(lines, i, (n - 1) as nat);
    }
}

/// A message: its header and its body.
pub open spec fn framed(body: Seq<char>) -> Seq<char> {
    "Content-Length: "@ + decimal(encode_utf8(body).len()) + "\r\n\r\n"@ + body
}

/// A message with `body` for its body.
pub fn frame(body: &str) -> (r: String)
    ensures
        r@ == framed(body@),
{
    let mut out = String::new();
    out.append("Content-Length: ");
    push_decimal(&mut out, body.as_bytes().len() as u64);
    out.append("\r\n\r\n");
    out.append(body);
    out
}

/// A message as it is sent: its JSON, behind a header.
pub fn message_frame(msg: &serde_json::Value) -> (r: String)
    ensures
        r@ == framed(json_display(*msg)),
{
    frame(display_of(msg).as_str())
}

/// Reads the body of a message.
pub fn read_message(body: &[u8]) -> (r: Result<serde_json::Value, String>)
    ensures
        match r {
            Ok(v) => json_value(body@) == Some(v),
            Err(e) => json_value(body@) is None && e@ == "parse LSP JSON body"@,
        },
{
    match parse_json(body) {
        Ok(v) => Ok(v),
        Err(_) => Err(copy_text("parse LSP JSON body")),
    }
}

/// The header of a message gives the number of bytes of its body.
pub proof fn law_header_gives_length(len: nat)
    requires
        len <= u64::MAX,
    ensures
        header_length(seq!["Content-Length: "@ + decimal(len) + "\r\n"@], 1) == Some(len),
{
    reveal_strlit("Content-Length: ");
    reveal_strlit("Content-Length:");
    reveal_strlit("\r\n");
    crate::text::law_number_reads_back(len);
    let d = decimal(len);
    let head = "Content-Length: "@;
    let line = head + d + "\r\n"@;
    let t = head + d;
    assert(crate::text::trim_end(line) == t) by {
        reveal_with_fuel(crate::text::trim_end, 4);
    }
    assert(t.take(15) =~= "Content-Length:"@);
    let rest = t.skip(15);
    assert(crate::text::trim_start(rest) == d) by {
        reveal_with_fuel(crate::text::trim_start, 3);
    }
    reveal_with_fuel(header_length, 2);
}

/// What a message says of the server's progress.
#[derive(Debug, Clone, Copy, PartialEq, Eq, Structural)]
pub enum ProgressEvent {
    Begin,
    End,
    /// It is about something else.
    Other,
}

/// The kind of progress that a message reports.
pub open spec fn progress_kind(msg: serde_json::Value) -> Option<Seq<char>> {
    if json_text(json_member(msg, "method"@)) == Some("$/progress"@) {
        json_text(json_member(json_member(json_member(msg, "params"@), "value"@), "kind"@))
    } else {
        None
    }
}

/// What a message says of the server's progress.
pub open spec fn progress_of(msg: serde_json::Value) -> ProgressEvent {
    if progress_kind(msg) == Some("begin"@) {
        ProgressEvent::Begin
    } else if progress_kind(msg) == Some("end"@) {
        ProgressEvent::End
    } else {
        ProgressEvent::Other
    }
}

/// What a message says of the server's progress.
pub fn progress_event(msg: &serde_json::Value) -> (r: ProgressEvent)
    ensures
        r == progress_of(*msg),
{
    match text_of(member(msg, "method")) {
        Some(m) => if !same_text(m, "$/progress") {
            return ProgressEvent::Other;
        },
        None => {
            return ProgressEvent::Other;
        },
    }
    match text_of(member(member(member(msg, "params"), "value"), "kind")) {
        Some(k) => if same_text(k, "begin") {
            ProgressEvent::Begin
        } else if same_text(k, "end") {
            ProgressEvent::End
        } else {
            ProgressEvent::Other
        },
        None => ProgressEvent::Other,
    }
}

/// The tasks that a server reports while it indexes a project.
#[derive(Debug, Clone, Copy, PartialEq, Eq, Structural)]
pub struct Progress {
    pub active: u64,
    pub any_begin: bool,
}

/// The tasks after an event.
pub open spec fn progress_after(p: Progress, e: ProgressEvent) -> Progress {
    match e {
        ProgressEvent::Begin => Progress {
            active: if p.active == u64::MAX {
                p.active
            } else {
                (p.active + 1) as u64
            },
            any_begin: true,
        },
        ProgressEvent::End => Progress {
            active: if p.active == 0 {
                0
            } else {
                (p.active - 1) as u64
            },
            any_begin: p.any_begin,
        },
        ProgressEvent::Other => p,
    }
}

/// Whether an event ends the indexing: the end of a task, after which none is
/// active, though one has begun.
pub open spec fn progress_ends(p: Progress, e: ProgressEvent) -> bool {
    e == ProgressEvent::End && p.any_begin && progress_after(p, e).active == 0
}

impl Progress {
    /// No task has begun.
    pub fn new() -> (r: Progress)
        ensures
            r == (Progress { active: 0, any_begin: false }),
    {
        Progress { active: 0, any_begin: false }
    }

    /// Takes note of an event; whether the indexing has ended.
    pub fn on(&mut self, e: ProgressEvent) -> (r: bool)
        ensures
            *final(self) == progress_after(*old(self), e),
            r == progress_ends(*old(self), e),
    {
        match e {
            ProgressEvent::Begin => {
                if self.active < u64::MAX {
                    self.active = self.active + 1;
                }
                self.any_begin = true;
                false
            },
            ProgressEvent::End => {
                if self.active > 0 {
                    self.active = self.active - 1;
                }
                self.any_begin && self.active == 0
            },
            ProgressEvent::Other => false,
        }
    }
}

/// The tasks after a number of events.
pub open spec fn progress_fold(events: Seq<ProgressEvent>) -> Progress
    decreases events.len(),
{
    if events.len() == 0 {
        Progress { active: 0, any_begin: false }
    } else {
        progress_after(progress_fold(events.drop_last()), events.last())
    }
}

/// The indexing does not end before a task has begun.
pub proof fn law_no_end_without_begin(events: Seq<ProgressEvent>, e: ProgressEvent)
    requires
        progress_ends(progress_fold(events), e),
    ensures
        events.contains(ProgressEvent::Begin),
    decreases events.len(),
{
    if events.len() > 0 {
        let rest = events.drop_last();
        if events.last() != ProgressEvent::Begin {
            lemma_begun(rest);
        }
    }
}

proof fn lemma_begun(events: Seq<ProgressEvent>)
    requires
        progress_fold(events).any_begin,
    ensures
        events.contains(ProgressEvent::Begin),
    decreases events.len(),
{
    let rest = events.drop_last();
    if events.last() != ProgressEvent::Begin {
        lemma_begun(rest);
    }
}

/// Whether a message replies to the request `id`.
pub open spec fn replies_to(msg: serde_json::Value, id: u64) -> bool {
    json_u64(json_member(msg, "id"@)) == Some(id)
}

/// Whether a message replies to the request `id`.
pub fn is_reply(msg: &serde_json::Value, id: u64) -> (r: bool)
    ensures
        r == replies_to(*msg, id),
{
    match natural_of(member(msg, "id")) {
        Some(n) => n == id,
        None => false,
    }
}

/// Takes the first reply to the request `id` out of the messages that came
/// before they were waited for.
pub fn take_reply(inbox: &mut Vec<serde_json::Value>, id: u64) -> (r: Option<serde_json::Value>)
    ensures
        match r {
            Some(msg) => exists|i: int|
                #![trigger old(inbox)@[i]]
                {
                    &&& 0 <= i < old(inbox)@.len()
                    &&& old(inbox)@[i] == msg
                    &&& replies_to(msg, id)
                    &&& forall|j: int|
                        #![trigger old(inbox)@[j]]
                        0 <= j < i ==> !replies_to(old(inbox)@[j], id)
                    &&& final(inbox)@ == old(inbox)@.remove(i)
                },
            None => {
                &&& final(inbox)@ == old(inbox)@
                &&& forall|j: int|
                    #![trigger old(inbox)@[j]]
                    0 <= j < old(inbox)@.len() ==> !replies_to(old(inbox)@[j], id)
            },
        },
{
    let n: usize = inbox.len();
    let mut i: usize = 0;
    while i < n
        invariant
            i <= n,
            n == inbox@.len(),
            inbox@ == old(inbox)@,
            forall|j: int|
                #![trigger old(inbox)@[j]]
                0 <= j < i ==> !replies_to(old(inbox)@[j], id),
        decreases n - i,
    {
        if is_reply(&inbox[i], id) {
            let msg = inbox.remove(i);
            return Some(msg);
        }
        i += 1;
    }
    None
}

/// What to say of an error that the server replied with.
pub open spec fn error_text(method: Seq<char>, error: serde_json::Value) -> Seq<char> {
    "LSP error from '"@ + method + "': "@ + json_display(error)
}

/// The result of a reply, or what to say of its error.
pub fn extract_result<'a>(method: &str, msg: &'a serde_json::Value) -> (r: Result<
    &'a serde_json::Value,
    String,
>)
    ensures
        match r {
            Ok(v) => !json_has(*msg, "error"@) && *v == json_member(*msg, "result"@),
            Err(e) => json_has(*msg, "error"@) && e@ == error_text(
                method@,
                json_member(*msg, "error"@),
            ),
        },
{
    if has_member(msg, "error") {
        let mut e = String::new();
        e.append("LSP error from '");
        e.append(method);
        e.append("': ");
        e.append(display_of(member(msg, "error")).as_str());
        return Err(e);
    }
    Ok(member(msg, "result"))
}

/// What to say of a request that was not replied to in time.
pub fn timeout_message(method: &str, id: u64) -> (r: String)
    ensures
        r@ == "timeout waiting for LSP '"@ + method@ + "' id="@ + decimal(id as nat),
{
    let mut s = String::new();
    s.append("timeout waiting for LSP '");
    s.append(method);
    s.append("' id=");
    push_decimal(&mut s, id);
    s
}

/// A position in a document, counted from zero.
#[derive(Debug, Clone, Copy, PartialEq, Eq, Structural)]
pub struct LspPos {
    pub line: u64,
    pub character: u64,
}

/// A range in a document.
#[derive(Debug, Clone, Copy, PartialEq, Eq, Structural)]
pub struct LspRange {
    pub start: LspPos,
    pub end: LspPos,
}

/// The number under `key`, zero where there is none.
pub open spec fn number_member(v: serde_json::Value, key: Seq<char>) -> u64 {
    match json_u64(json_member(v, key)) {
        Some(n) => n,
        None => 0,
    }
}

fn number_at(v: &serde_json::Value, key: &str) -> (r: u64)
    ensures
        r == number_member(*v, key@),
{
    match natural_of(member(v, key)) {
        Some(n) => n,
        None => 0,
    }
}

/// A position, as JSON has it.
pub open spec fn json_pos(v: serde_json::Value) -> LspPos {
    LspPos { line: number_member(v, "line"@), character: number_member(v, "character"@) }
}

/// A range, as JSON has it.
pub open spec fn json_range(v: serde_json::Value) -> LspRange {
    LspRange { start: json_pos(json_member(v, "start"@)), end: json_pos(json_member(v, "end"@)) }
}

/// Reads a position.
pub fn parse_pos(v: &serde_json::Value) -> (r: LspPos)
    ensures
        r == json_pos(*v),
{
    LspPos { line: number_at(v, "line"), character: number_at(v, "character") }
}

/// Reads a range.
pub fn parse_range(v: &serde_json::Value) -> (r: LspRange)
    ensures
        r == json_range(*v),
{
    LspRange { start: parse_pos(member(v, "start")), end: parse_pos(member(v, "end")) }
}

/// A symbol of a document.
#[derive(Debug)]
pub struct DocSym {
    pub name: String,
    pub kind: u64,
    pub range: LspRange,
    pub sel_range: LspRange,
    /// The names of the symbols around it, with dots between them.
    pub container: String,
}

/// What a `DocSym` holds.
pub struct DocSymView {
    pub name: Seq<char>,
    pub kind: u64,
    pub range: LspRange,
    pub sel_range: LspRange,
    pub container: Seq<char>,
}

impl View for DocSym {
    type V = DocSymView;

    open spec fn view(&self) -> DocSymView {
        DocSymView {
            name: self.name@,
            kind: self.kind,
            range: self.range,
            sel_range: self.sel_range,
            container: self.container@,
        }
    }
}

pub open spec fn sym_views(v: Seq<DocSym>) -> Seq<DocSymView> {
    v.map_values(|s: DocSym| s@)
}

pub broadcast proof fn lemma_sym_views_push(v: Seq<DocSym>, s: DocSym)
    ensures
        #[trigger] sym_views(v.push(s)) == sym_views(v).push(s@),
{
}

/// The prefix of a signature for the number of a symbol's kind.
pub open spec fn signature_prefix(k: u64) -> Seq<char> {
    if k == 5 {
        "class"@
    } else if k == 6 || k == 9 {
        "method"@
    } else if k == 10 {
        "enum"@
    } else if k == 11 {
        "interface"@
    } else if k == 12 {
        "fn"@
    } else if k == 13 {
        "var"@
    } else if k == 14 {
        "const"@
    } else {
        "sym"@
    }
}

/// The prefix of a signature for the number of a symbol's kind.
pub fn kind_sig_prefix(k: u64) -> (r: &'static str)
    ensures
        r@ == signature_prefix(k),
{
    match k {
        5 => "class",
        6 | 9 => "method",
        10 => "enum",
        11 => "interface",
        12 => "fn",
        13 => "var",
        14 => "const",
        _ => "sym",
    }
}

/// The kind of node for the number of a symbol's kind.
pub open spec fn kind_name(k: u64) -> Seq<char> {
    if k == 5 {
        "class"@
    } else if k == 6 {
        "method"@
    } else if k == 9 {
        "constructor"@
    } else if k == 10 {
        "enum"@
    } else if k == 11 {
        "interface"@
    } else if k == 12 {
        "function"@
    } else if k == 13 {
        "variable"@
    } else if k == 14 {
        "constant"@
    } else {
        "symbol"@
    }
}

/// The kind of node for the number of a symbol's kind.
pub fn kind_to_str(k: u64) -> (r: &'static str)
    ensures
        r@ == kind_name(k),
{
    match k {
        5 => "class",
        6 => "method",
        9 => "constructor",
        10 => "enum",
        11 => "interface",
        12 => "function",
        13 => "variable",
        14 => "constant",
        _ => "symbol",
    }
}

/// `name` inside `container`.
pub open spec fn qualified(container: Seq<char>, name: Seq<char>) -> Seq<char> {
    if container.len() == 0 {
        name
    } else {
        container + "."@ + name
    }
}

fn qualify(container: &str, name: &str) -> (r: String)
    ensures
        r@ == qualified(container@, name@),
{
    let mut s = String::new();
    if container.unicode_len() > 0 {
        s.append(container);
        s.append(".");
    }
    s.append(name);
    s
}

/// The signature of a symbol.
pub open spec fn sym_signature(s: DocSymView) -> Seq<char> {
    signature_prefix(s.kind) + ":"@ + qualified(s.container, s.name)
}

impl DocSym {
    /// The signature of a symbol.
    pub fn signature(&self) -> (r: String)
        ensures
            r@ == sym_signature(self@),
    {
        let mut s = String::new();
        s.append(kind_sig_prefix(self.kind));
        s.append(":");
        s.append(qualify(self.container.as_str(), self.name.as_str()).as_str());
        s
    }

    /// The kind of a symbol's node.
    pub fn kind_str(&self) -> (r: &'static str)
        ensures
            r@ == kind_name(self@.kind),
    {
        kind_to_str(self.kind)
    }
}

/// A symbol, as JSON has it. One without a range of its own has that of its
/// location.
pub open spec fn json_sym(v: serde_json::Value, container: Seq<char>) -> DocSymView {
    let own = json_has(v, "selectionRange"@);
    let place = json_range(json_member(json_member(v, "location"@), "range"@));
    DocSymView {
        name: text_member(v, "name"@, "?"@),
        kind: number_member(v, "kind"@),
        range: if own {
            json_range(json_member(v, "range"@))
        } else {
            place
        },
        sel_range: if own {
            json_range(json_member(v, "selectionRange"@))
        } else {
            place
        },
        container,
    }
}

/// The symbols of an array, each followed by its children.
pub open spec fn flat_syms(items: Seq<serde_json::Value>, container: Seq<char>, depth: nat) -> Seq<
    DocSymView,
>
    decreases depth, items.len(),
{
    if items.len() == 0 {
        Seq::empty()
    } else {
        let v = items.last();
        let s = json_sym(v, container);
        let before = flat_syms(items.drop_last(), container, depth);
        let children = if depth == 0 {
            Seq::empty()
        } else {
            flat_syms(
                items_member(v, "children"@),
                qualified(container, s.name),
                (depth - 1) as nat,
            )
        };
        before.push(s) + children
    }
}

fn flatten(items: &Vec<serde_json::Value>, container: &str, depth: usize, out: &mut Vec<DocSym>)
    ensures
        sym_views(final(out)@) == sym_views(old(out)@) + flat_syms(
            items@,
            container@,
            depth as nat,
        ),
    decreases depth,
{
    broadcast use lemma_sym_views_push;

    let n: usize = items.len();
    let mut i: usize = 0;
    while i < n
        invariant
            i <= n,
            n == items@.len(),
            sym_views(out@) == sym_views(old(out)@) + flat_syms(
                items@.take(i as int),
                container@,
                depth as nat,
            ),
        decreases n - i,
    {
        let v = &items[i];
        let name = text_at_key(v, "name", "?");
        let kind: u64 = number_at(v, "kind");
        let (range, sel_range) = if has_member(v, "selectionRange") {
            (parse_range(member(v, "range")), parse_range(member(v, "selectionRange")))
        } else {
            let r = parse_range(member(member(v, "location"), "range"));
            (r, r)
        };
        let child_container = qualify(container, name.as_str());
        let sym = DocSym { name, kind, range, sel_range, container: copy_text(container) };
        let ghost held = out@;
        out.push(sym);
        assert(sym_views(out@) == sym_views(held).push(sym@));
        if depth > 0 {
            let ghost held = sym_views(out@);
            if let Some(children) = items_of(member(v, "children")) {
                flatten(children, child_container.as_str(), depth - 1, out);
            } else {
                assert(held + flat_syms(
                    Seq::empty(),
                    child_container@,
                    (depth - 1) as nat,
                ) =~= held);
            }
        }
        i += 1;
        proof {
            assert(items@.take(i as int).drop_last() =~= items@.take(i - 1));
        }
    }
    assert(items@.take(i as int) =~= items@);
}

/// The symbols that a reply holds.
pub open spec fn reply_syms(result: serde_json::Value) -> Seq<DocSymView> {
    match json_items(result) {
        Some(items) => flat_syms(items, ""@, MAX_DEPTH as nat),
        None => Seq::empty(),
    }
}

/// The symbols that a reply holds, each followed by the symbols inside it.
pub fn flatten_doc_syms(result: &serde_json::Value) -> (r: Vec<DocSym>)
    ensures
        sym_views(r@) == reply_syms(*result),
{
    let mut out: Vec<DocSym> = Vec::new();
    if let Some(items) = items_of(result) {
        flatten(items, "", MAX_DEPTH, &mut out);
    }
    out
}

/// The line, counted from one, of a location.
pub open spec fn location_line(loc: serde_json::Value) -> u32 {
    let line = number_member(
        json_member(json_member(loc, "range"@), "start"@),
        "line"@,
    ) as u32;
    if line == u32::MAX {
        line
    } else {
        (line + 1) as u32
    }
}

/// The reference at a location, where it lies below `root`.
pub open spec fn location_ref(loc: serde_json::Value, root: Seq<char>, callee: u64) -> Option<
    RefView,
> {
    match json_text(json_member(loc, "uri"@)) {
        Some(uri) => match uri_below(root, uri) {
            Some(rel) => Some(
                RefView {
                    caller_path: rel,
                    caller_line: location_line(loc),
                    callee_id: callee,
                    is_call: true,
                    caller_col: None,
                },
            ),
            None => None,
        },
        None => None,
    }
}

/// The references at the first `n` locations.
pub open spec fn location_refs(
    locs: Seq<serde_json::Value>,
    root: Seq<char>,
    callee: u64,
    n: nat,
) -> Seq<Option<RefView>> {
    Seq::new(n, |i: int| location_ref(locs[i], root, callee))
}

/// The references that a reply holds: at most `MAX_REFS_PER_SYMBOL` locations
/// are looked at.
pub open spec fn reply_refs(result: serde_json::Value, root: Seq<char>, callee: u64) -> Seq<RefView> {
    match json_items(result) {
        Some(locs) => crate::emitter::somes(
            location_refs(
                locs,
                root,
                callee,
                if locs.len() <= MAX_REFS_PER_SYMBOL {
                    locs.len()
                } else {
                    MAX_REFS_PER_SYMBOL as nat
                },
            ),
        ),
        None => Seq::empty(),
    }
}

fn reference_at(loc: &serde_json::Value, root: &str, callee: u64) -> (r: Option<ScipRef>)
    ensures
        match r {
            Some(x) => location_ref(*loc, root@, callee) == Some(x@),
            None => location_ref(*loc, root@, callee) is None,
        },
{
    let uri = match text_of(member(loc, "uri")) {
        Some(u) => u,
        None => {
            return None;
        },
    };
    let rel = match uri_to_rel(root, uri) {
        Some(r) => r,
        None => {
            return None;
        },
    };
    #[verifier::truncate]
    let line: u32 = number_at(member(member(loc, "range"), "start"), "line") as u32;
    Some(
        ScipRef {
            caller_path: rel,
            caller_line: if line == u32::MAX {
                line
            } else {
                line + 1
            },
            callee_id: callee,
            is_call: true,
            caller_col: None,
        },
    )
}

/// The references that a reply holds.
pub fn reference_records(result: &serde_json::Value, root: &str, callee: u64) -> (r: Vec<ScipRef>)
    ensures
        ref_views(r@) == reply_refs(*result, root@, callee),
{
    broadcast use group_views_push;

    let mut out: Vec<ScipRef> = Vec::new();
    if let Some(locs) = items_of(result) {
        let n: usize = if locs.len() <= MAX_REFS_PER_SYMBOL {
            locs.len()
        } else {
            MAX_REFS_PER_SYMBOL
        };
        let mut i: usize = 0;
        while i < n
            invariant
                i <= n,
                n <= locs@.len(),
                ref_views(out@) == crate::emitter::somes(
                    location_refs(locs@, root@, callee, i as nat),
                ),
            decreases n - i,
        {
            let ghost before = location_refs(locs@, root@, callee, i as nat);
            let ghost x = location_ref(locs@[i as int], root@, callee);
            let found = reference_at(&locs[i], root, callee);
            i += 1;
            proof {
                assert(location_refs(locs@, root@, callee, i as nat) =~= before.push(x));
                crate::emitter::lemma_somes_push(before, x);
            }
            if let Some(r) = found {
                out.push(r);
            }
        }
    }
    out
}

proof fn lemma_somes_len<T>(s: Seq<Option<T>>)
    ensures
        crate::emitter::somes(s).len() <= s.len(),
    decreases s.len(),
{
    if s.len() > 0 {
        lemma_somes_len(s.drop_last());
    }
}

proof fn lemma_somes_lead(s: Seq<Option<RefView>>, callee: u64)
    requires
        forall|i: int| 0 <= i < s.len() ==> (#[trigger] s[i] matches Some(r) ==> r.callee_id == callee),
    ensures
        forall|i: int|
            0 <= i < crate::emitter::somes(s).len() ==> (#[trigger] crate::emitter::somes(
                s,
            )[i]).callee_id == callee,
    decreases s.len(),
{
    if s.len() > 0 {
        lemma_somes_lead(s.drop_last(), callee);
        crate::emitter::lemma_somes_push(s.drop_last(), s.last());
        assert(s.drop_last().push(s.last()) =~= s);
    }
}

/// A symbol contributes at most `MAX_REFS_PER_SYMBOL` references, and all of
/// them lead to it.
pub proof fn law_symbol_is_capped(result: serde_json::Value, root: Seq<char>, callee: u64)
    ensures
        reply_refs(result, root, callee).len() <= 500,
        forall|i: int|
            0 <= i < reply_refs(result, root, callee).len() ==> (#[trigger] reply_refs(
                result,
                root,
                callee,
            )[i]).callee_id == callee,
{
    match json_items(result) {
        Some(locs) => {
            let n = if locs.len() <= MAX_REFS_PER_SYMBOL {
                locs.len()
            } else {
                MAX_REFS_PER_SYMBOL as nat
            };
            lemma_somes_len(location_refs(locs, root, callee, n));
            lemma_somes_lead(location_refs(locs, root, callee, n), callee);
        },
        None => {},
    }
}

/// Whether `v` is the symbol that `path` leads to in an array of symbols: each
/// number of the path picks an item, of the array itself or of the `children`
/// of the one before. `container` is what the names on the way make up, with
/// dots between them.
pub open spec fn is_symbol_at(
    items: Seq<serde_json::Value>,
    outer: Seq<char>,
    path: Seq<int>,
    v: serde_json::Value,
    container: Seq<char>,
) -> bool
    decreases path.len(),
{
    &&& path.len() > 0
    &&& 0 <= path[0] < items.len()
    &&& if path.len() == 1 {
        items[path[0]] == v && container == outer
    } else {
        let name = match json_text(json_member(items[path[0]], "name"@)) {
            Some(t) => t,
            None => "?"@,
        };
        json_items(json_member(items[path[0]], "children"@)) matches Some(inner) && is_symbol_at(
            inner,
            if outer.len() == 0 {
                name
            } else {
                outer + "."@ + name
            },
            path.skip(1),
            v,
            container,
        )
    }
}

/// Whether a position is what the members of `v` say; zero where they say
/// nothing.
pub open spec fn is_position(p: LspPos, v: serde_json::Value) -> bool {
    &&& json_u64(json_member(v, "line"@)) == Some(p.line) || (json_u64(
        json_member(v, "line"@),
    ) is None && p.line == 0)
    &&& json_u64(json_member(v, "character"@)) == Some(p.character) || (json_u64(
        json_member(v, "character"@),
    ) is None && p.character == 0)
}

/// Whether a range is what the members of `v` say.
pub open spec fn is_range(r: LspRange, v: serde_json::Value) -> bool {
    is_position(r.start, json_member(v, "start"@)) && is_position(r.end, json_member(v, "end"@))
}

/// Whether `s` is what the members of `v` say of a symbol: its name, its kind,
/// the range of its declaration and that of its name, which for the flat form
/// are both the range of its location.
pub open spec fn is_symbol(s: DocSymView, v: serde_json::Value) -> bool {
    &&& json_text(json_member(v, "name"@)) == Some(s.name) || (json_text(
        json_member(v, "name"@),
    ) is None && s.name == "?"@)
    &&& json_u64(json_member(v, "kind"@)) == Some(s.kind) || (json_u64(
        json_member(v, "kind"@),
    ) is None && s.kind == 0)
    &&& json_has(v, "selectionRange"@) ==> is_range(s.range, json_member(v, "range"@)) && is_range(
        s.sel_range,
        json_member(v, "selectionRange"@),
    )
    &&& !json_has(v, "selectionRange"@) ==> is_range(
        s.range,
        json_member(json_member(v, "location"@), "range"@),
    ) && s.sel_range == s.range
}

proof fn lemma_flat_join(
    items: Seq<serde_json::Value>,
    container: Seq<char>,
    depth: nat,
    j: int,
    s: DocSymView,
)
    requires
        0 <= j < items.len(),
        s == json_sym(items[j], container) || (depth > 0 && flat_syms(
            items_member(items[j], "children"@),
            qualified(container, json_sym(items[j], container).name),
            (depth - 1) as nat,
        ).contains(s)),
    ensures
        flat_syms(items, container, depth).contains(s),
    decreases items.len(),
{
    let now = flat_syms(items, container, depth);
    let before = flat_syms(items.drop_last(), container, depth);
    if j == items.len() - 1 {
        let v = items.last();
        assert(now[before.len() as int] == json_sym(v, container));
        if s != json_sym(v, container) {
            let children = flat_syms(
                items_member(v, "children"@),
                qualified(container, json_sym(v, container).name),
                (depth - 1) as nat,
            );
            let p = choose|p: int| 0 <= p < children.len() && children[p] == s;
            assert(now[before.len() + 1 + p] == s);
        }
    } else {
        lemma_flat_join(items.drop_last(), container, depth, j, s);
        let p = choose|p: int| 0 <= p < before.len() && before[p] == s;
        assert(now[p] == s);
    }
}

proof fn lemma_flat_has(
    items: Seq<serde_json::Value>,
    outer: Seq<char>,
    depth: nat,
    path: Seq<int>,
    v: serde_json::Value,
    container: Seq<char>,
)
    requires
        is_symbol_at(items, outer, path, v, container),
        path.len() <= depth + 1,
    ensures
        flat_syms(items, outer, depth).contains(json_sym(v, container)),
    decreases path.len(),
{
    let x = items[path[0]];
    if path.len() > 1 {
        let inner = items_member(x, "children"@);
        let name = json_sym(x, outer).name;
        assert(is_symbol_at(inner, qualified(outer, name), path.skip(1), v, container));
        lemma_flat_has(
            inner,
            qualified(outer, name),
            (depth - 1) as nat,
            path.skip(1),
            v,
            container,
        );
    }
    lemma_flat_join(items, outer, depth, path[0], json_sym(v, container));
}

/// Every symbol of a reply, at whatever depth, is among what is made of it:
/// under the names of those around it, and with what its members say.
pub proof fn law_every_symbol_is_listed(
    result: serde_json::Value,
    path: Seq<int>,
    v: serde_json::Value,
    container: Seq<char>,
)
    requires
        json_items(result) is Some,
        is_symbol_at(json_items(result)->0, Seq::empty(), path, v, container),
        path.len() <= usize::MAX,
    ensures
        exists|n: int|
            #![trigger reply_syms(result)[n]]
            0 <= n < reply_syms(result).len() && reply_syms(result)[n].container == container
                && is_symbol(reply_syms(result)[n], v),
{
    let all = reply_syms(result);
    let items = json_items(result)->0;
    reveal_strlit("");
    assert(""@ =~= Seq::<char>::empty());
    lemma_flat_has(items, ""@, MAX_DEPTH as nat, path, v, container);
    let n = choose|n: int| 0 <= n < all.len() && all[n] == json_sym(v, container);
    assert(is_symbol(reply_syms(result)[n], v));
}

proof fn lemma_flat_stems(
    items: Seq<serde_json::Value>,
    outer: Seq<char>,
    depth: nat,
    n: int,
)
    requires
        0 <= n < flat_syms(items, outer, depth).len(),
    ensures
        exists|path: Seq<int>, v: serde_json::Value, container: Seq<char>|
            #![trigger is_symbol_at(items, outer, path, v, container)]
            is_symbol_at(items, outer, path, v, container) && flat_syms(items, outer, depth)[n]
                == json_sym(v, container),
    decreases depth, items.len(),
{
    let v = items.last();
    let rest = items.drop_last();
    let before = flat_syms(rest, outer, depth);
    let at = items.len() - 1;
    if n < before.len() {
        lemma_flat_stems(rest, outer, depth, n);
        let (path, x, container) = choose|
            path: Seq<int>,
            x: serde_json::Value,
            container: Seq<char>,
        |
            #![trigger is_symbol_at(rest, outer, path, x, container)]
            is_symbol_at(rest, outer, path, x, container) && before[n] == json_sym(x, container);
        assert(items[path[0]] == rest[path[0]]);
        assert(is_symbol_at(items, outer, path, x, container));
    } else if n == before.len() {
        assert(is_symbol_at(items, outer, seq![at], v, outer));
    } else {
        let name = json_sym(v, outer).name;
        let inner = items_member(v, "children"@);
        let k = n - before.len() - 1;
        lemma_flat_stems(inner, qualified(outer, name), (depth - 1) as nat, k);
        let (path, x, container) = choose|
            path: Seq<int>,
            x: serde_json::Value,
            container: Seq<char>,
        |
            #![trigger is_symbol_at(inner, qualified(outer, name), path, x, container)]
            is_symbol_at(inner, qualified(outer, name), path, x, container) && flat_syms(
                inner,
                qualified(outer, name),
                (depth - 1) as nat,
            )[k] == json_sym(x, container);
        let whole = seq![at] + path;
        assert(whole.skip(1) =~= path);
        assert(is_symbol_at(items, outer, whole, x, container));
    }
}

/// What is made of a reply stems from its symbols.
pub proof fn law_listed_symbol_is_in_the_reply(result: serde_json::Value, n: int)
    requires
        0 <= n < reply_syms(result).len(),
    ensures
        json_items(result) is Some && exists|path: Seq<int>, v: serde_json::Value|
            #![trigger is_symbol_at(
                json_items(result)->0,
                Seq::empty(),
                path,
                v,
                reply_syms(result)[n].container,
            )]
            is_symbol_at(
                json_items(result)->0,
                Seq::empty(),
                path,
                v,
                reply_syms(result)[n].container,
            ) && is_symbol(reply_syms(result)[n], v),
{
    let items = json_items(result)->0;
    reveal_strlit("");
    assert(""@ =~= Seq::<char>::empty());
    lemma_flat_stems(items, ""@, MAX_DEPTH as nat, n);
    let (path, v, container) = choose|path: Seq<int>, v: serde_json::Value, container: Seq<char>|
        #![trigger is_symbol_at(items, ""@, path, v, container)]
        is_symbol_at(items, ""@, path, v, container) && reply_syms(result)[n] == json_sym(
            v,
            container,
        );
    assert(is_symbol_at(items, Seq::empty(), path, v, reply_syms(result)[n].container));
    assert(is_symbol(reply_syms(result)[n], v));
}

/// How many of the events are of one kind.
pub open spec fn count_events(events: Seq<ProgressEvent>, e: ProgressEvent) -> nat {
    events.filter(|x: ProgressEvent| x == e).len()
}

/// Where no task ends that has not begun, the tasks that are active are those
/// that have begun and not ended; and the indexing ends exactly with the end
/// of the last of them.
pub proof fn law_progress_counts_tasks(events: Seq<ProgressEvent>, e: ProgressEvent)
    requires
        events.len() < u64::MAX,
        forall|n: int|
            0 <= n <= events.len() ==> count_events(
                #[trigger] events.take(n),
                ProgressEvent::End,
            ) <= count_events(events.take(n), ProgressEvent::Begin),
    ensures
        progress_fold(events).active == count_events(events, ProgressEvent::Begin) - count_events(
            events,
            ProgressEvent::End,
        ),
        progress_ends(progress_fold(events), e) <==> e == ProgressEvent::End && count_events(
            events,
            ProgressEvent::Begin,
        ) > 0 && count_events(events, ProgressEvent::Begin) <= count_events(
            events,
            ProgressEvent::End,
        ) + 1,
{
    lemma_progress(events);
    let b = count_events(events, ProgressEvent::Begin);
    if b == 0 {
        assert(events.take(events.len() as int) =~= events);
    }
}

proof fn lemma_progress(events: Seq<ProgressEvent>)
    requires
        events.len() < u64::MAX,
        forall|n: int|
            0 <= n <= events.len() ==> count_events(
                #[trigger] events.take(n),
                ProgressEvent::End,
            ) <= count_events(events.take(n), ProgressEvent::Begin),
    ensures
        progress_fold(events).active == count_events(events, ProgressEvent::Begin) - count_events(
            events,
            ProgressEvent::End,
        ),
        progress_fold(events).any_begin == (count_events(events, ProgressEvent::Begin) > 0),
        count_events(events, ProgressEvent::Begin) <= events.len(),
    decreases events.len(),
{
    reveal(Seq::filter);
    if events.len() > 0 {
        let rest = events.drop_last();
        assert forall|n: int| 0 <= n <= rest.len() implies count_events(
            #[trigger] rest.take(n),
            ProgressEvent::End,
        ) <= count_events(rest.take(n), ProgressEvent::Begin) by {
            assert(rest.take(n) =~= events.take(n));
        }
        lemma_progress(rest);
        assert(events.take(events.len() as int) =~= events);
    }
}

/// A message starts with the length of its body in bytes; behind that and a
/// blank line comes the body.
pub proof fn law_frame_tells_its_length(body: Seq<char>)
    requires
        encode_utf8(body).len() <= u64::MAX,
    ensures
        exists|line: Seq<char>|
            #![trigger header_length(seq![line], 1)]
            framed(body) == line + seq!['\r', '\n'] + body && header_length(seq![line], 1) == Some(
                encode_utf8(body).len(),
            ) && line.len() > 1 && line.last() == '\n' && line[line.len() - 2] == '\r',
        is_blank(seq!['\r', '\n']),
{
    let len = encode_utf8(body).len();
    let line = "Content-Length: "@ + decimal(len) + "\r\n"@;
    law_header_gives_length(len);
    reveal_strlit("\r\n");
    reveal_strlit("\r\n\r\n");
    assert(framed(body) =~= line + seq!['\r', '\n'] + body);
    assert(header_length(seq![line], 1) == Some(len));
    crate::text::law_trim_leaves_nothing_of_blanks(seq!['\r', '\n']);
}

/// Of several lines that give a length the last one counts, and a line that
/// starts otherwise gives none.
pub proof fn law_last_length_counts(lines: Seq<Seq<char>>, len: nat, other: Seq<char>)
    requires
        header_length(lines, lines.len()) is Some,
        len <= u64::MAX,
        !starts_with(trim(other), "Content-Length:"@),
    ensures
        header_length(
            lines.push("Content-Length: "@ + decimal(len) + "\r\n"@),
            lines.len() + 1,
        ) == Some(len),
        header_length(lines.push(other), lines.len() + 1) == header_length(lines, lines.len()),
        header_length(lines, 0) == Some(0nat),
{
    let line = "Content-Length: "@ + decimal(len) + "\r\n"@;
    law_header_gives_length(len);
    reveal_with_fuel(header_length, 2);
    assert(seq![line][0] == line);
    assert(length_line(line) is Some) by {
        reveal_strlit("Content-Length: ");
        reveal_strlit("Content-Length:");
        reveal_strlit("\r\n");
        crate::text::law_number_reads_back(len);
        let t = "Content-Length: "@ + decimal(len);
        assert(crate::text::trim_end(line) == t) by {
            reveal_with_fuel(crate::text::trim_end, 4);
        }
        assert(t.take(15) =~= "Content-Length:"@);
    }
    lemma_more_lines(lines, line, lines.len());
    lemma_more_lines(lines, other, lines.len());
}

proof fn lemma_more_lines(lines: Seq<Seq<char>>, line: Seq<char>, n: nat)
    requires
        n <= lines.len(),
    ensures
        header_length(lines.push(line), n) == header_length(lines, n),
    decreases n,
{
    if n > 0 {
        lemma_more_lines(lines, line, (n - 1) as nat);
        assert(lines.push(line)[n - 1] == lines[n - 1]);
    }
}

/// Progress is told by a message of its own, which says whether something
/// began or ended; no other message tells of any.
pub proof fn law_progress_is_told_by_its_message(msg: serde_json::Value)
    ensures
        ({
            let told = json_text(json_member(msg, "method"@)) == Some("$/progress"@);
            let kind = json_text(
                json_member(json_member(json_member(msg, "params"@), "value"@), "kind"@),
            );
            &&& progress_of(msg) == ProgressEvent::Begin <==> told && kind == Some("begin"@)
            &&& progress_of(msg) == ProgressEvent::End <==> told && kind == Some("end"@)
            &&& progress_of(msg) == ProgressEvent::Other <==> !told || (kind != Some("begin"@)
                && kind != Some("end"@))
        }),
{
    reveal_strlit("begin");
    reveal_strlit("end");
    assert("begin"@.len() == 5);
    assert("end"@.len() == 3);
}

/// A message replies to one request at most, the one whose number it bears.
pub proof fn law_reply_bears_the_number(msg: serde_json::Value, id: u64, other: u64)
    ensures
        replies_to(msg, id) <==> json_u64(json_member(msg, "id"@)) == Some(id),
        replies_to(msg, id) && replies_to(msg, other) ==> id == other,
{
}

/// An error of the server is told with the request that it answers.
pub proof fn law_error_tells_the_request(method: Seq<char>, error: serde_json::Value)
    ensures
        crate::text::holds(error_text(method, error), method),
        crate::text::ends_with(error_text(method, error), json_display(error)),
{
    crate::version::lemma_middle_is_held(
        "LSP error from '"@,
        method,
        "': "@ + json_display(error),
    );
    let s = error_text(method, error);
    assert(s =~= "LSP error from '"@ + method + ("': "@ + json_display(error)));
    assert(s.skip(s.len() - json_display(error).len()) =~= json_display(error));
}

} // verus!
