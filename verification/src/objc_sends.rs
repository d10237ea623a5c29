//! Objective-C message sends, read from the tokens of a source.
use vstd::prelude::*;
use vstd::string::*;
use crate::emitter::{lemma_somes_push, somes};
use crate::text::{copy_text, same_text};

verus! {

/// A token of a source.
#[derive(Debug)]
pub struct Tok {
    pub identifier: bool,
    pub spelling: String,
    /// Counted from one; zero where it is unknown.
    pub line: u32,
    pub col: u32,
}

/// What a `Tok` holds.
pub struct TokView {
    pub identifier: bool,
    pub spelling: Seq<char>,
    pub line: u32,
    pub col: u32,
}

impl View for Tok {
    type V = TokView;

    open spec fn view(&self) -> TokView {
        TokView {
            identifier: self.identifier,
            spelling: self.spelling@,
            line: self.line,
            col: self.col,
        }
    }
}

pub open spec fn tok_views(v: Seq<Tok>) -> Seq<TokView> {
    v.map_values(|t: Tok| t@)
}

/// A token that opens a group.
pub open spec fn opens(s: Seq<char>) -> bool {
    s == "["@ || s == "("@ || s == "{"@
}

/// A token that closes a group.
pub open spec fn closes(s: Seq<char>) -> bool {
    s == "]"@ || s == ")"@ || s == "}"@
}

/// The tokens from `i` on that belong to the outermost group and to no group
/// inside it, up to where that group closes; `depth` groups are open at `i`.
/// Of a group inside it, the token that opens it counts.
pub open spec fn group_tokens(toks: Seq<TokView>, i: int, depth: nat) -> Seq<int>
    decreases toks.len() - i,
{
    if i < 0 || i >= toks.len() {
        Seq::empty()
    } else if opens(toks[i].spelling) {
        if depth == 1 {
            seq![i] + group_tokens(toks, i + 1, depth + 1)
        } else {
            group_tokens(toks, i + 1, depth + 1)
        }
    } else if closes(toks[i].spelling) {
        if depth <= 1 {
            Seq::empty()
        } else {
            group_tokens(toks, i + 1, (depth - 1) as nat)
        }
    } else if depth == 1 {
        seq![i] + group_tokens(toks, i + 1, depth)
    } else {
        group_tokens(toks, i + 1, depth)
    }
}

/// A send as far as its tokens were read.
pub struct SendView {
    pub receiver: Option<Seq<char>>,
    /// The first identifier behind the receiver, and where it stands.
    pub first: Option<(Seq<char>, int)>,
    /// The identifier that a colon would make a keyword, and where it stands.
    pub pending: Option<(Seq<char>, int)>,
    /// The keywords so far, each with its colon.
    pub selector: Seq<char>,
    /// Where the first keyword stands.
    pub selector_tok: Option<int>,
}

/// A send of which nothing was read.
pub open spec fn no_send() -> SendView {
    SendView {
        receiver: None,
        first: None,
        pending: None,
        selector: Seq::empty(),
        selector_tok: None,
    }
}

/// A send after its token `t`, which stands at `i`: the first identifier is
/// the receiver; an identifier right before a colon is a keyword.
pub open spec fn send_after(s: SendView, t: TokView, i: int) -> SendView {
    if opens(t.spelling) {
        SendView { pending: None, ..s }
    } else if t.spelling == ":"@ {
        match s.pending {
            Some((k, at)) => SendView {
                pending: None,
                selector: s.selector + k + ":"@,
                selector_tok: match s.selector_tok {
                    Some(x) => Some(x),
                    None => Some(at),
                },
                ..s
            },
            None => s,
        }
    } else if t.identifier {
        match s.receiver {
            None => SendView { receiver: Some(t.spelling), ..s },
            Some(_) => SendView {
                first: match s.first {
                    Some(f) => Some(f),
                    None => Some((t.spelling, i)),
                },
                pending: Some((t.spelling, i)),
                ..s
            },
        }
    } else {
        SendView { pending: None, ..s }
    }
}

/// The send that the tokens at `at` make up.
pub open spec fn send_of(toks: Seq<TokView>, at: Seq<int>) -> SendView
    decreases at.len(),
{
    if at.len() == 0 {
        no_send()
    } else {
        send_after(send_of(toks, at.drop_last()), toks[at.last()], at.last())
    }
}

/// Whether `char::is_uppercase` holds of a character.
pub uninterp spec fn char_is_uppercase(c: char) -> bool;

/// `char::is_uppercase` tells the Unicode property `Uppercase`.
#[verifier::external_body]
fn is_uppercase(c: char) -> (r: bool)
    ensures
        r == char_is_uppercase(c),
{
    c.is_uppercase()
}

/// A name that a class has by convention: it starts with a capital.
pub open spec fn is_class_name(s: Seq<char>) -> bool {
    s.len() > 0 && char_is_uppercase(s[0])
}

fn class_name(s: &str) -> (r: bool)
    ensures
        r == is_class_name(s@),
{
    s.unicode_len() > 0 && is_uppercase(s.get_char(0))
}

/// A message to a class: the class, the selector, and where the selector
/// starts.
pub struct ClassSend {
    pub receiver: Seq<char>,
    pub selector: Seq<char>,
    pub selector_tok: int,
}

/// The message to a class that a send is. Without keywords the selector is
/// the first identifier behind the receiver.
pub open spec fn class_send(s: SendView) -> Option<ClassSend> {
    match s.receiver {
        Some(receiver) if is_class_name(receiver) => match s.selector_tok {
            Some(at) => Some(ClassSend { receiver, selector: s.selector, selector_tok: at }),
            None => match s.first {
                Some((name, at)) if name.len() > 0 => Some(
                    ClassSend { receiver, selector: name, selector_tok: at },
                ),
                _ => None,
            },
        },
        _ => None,
    }
}

/// The message to a class whose bracket opens at `open`.
pub open spec fn send_at(toks: Seq<TokView>, open: int) -> Option<ClassSend> {
    class_send(send_of(toks, group_tokens(toks, open, 0)))
}

/// A message to a class, read from tokens.
#[derive(Debug)]
pub struct ParsedSend {
    pub receiver: String,
    pub selector: String,
    /// Where the selector starts, among the tokens.
    pub selector_tok: usize,
}

impl View for ParsedSend {
    type V = ClassSend;

    open spec fn view(&self) -> ClassSend {
        ClassSend {
            receiver: self.receiver@,
            selector: self.selector@,
            selector_tok: self.selector_tok as int,
        }
    }
}

/// The text and the position that `o` holds.
spec fn at_view(o: Option<(String, usize)>) -> Option<(Seq<char>, int)> {
    match o {
        Some((s, i)) => Some((s@, i as int)),
        None => None,
    }
}

spec fn text_view(o: Option<String>) -> Option<Seq<char>> {
    match o {
        Some(s) => Some(s@),
        None => None,
    }
}

spec fn index_view(o: Option<usize>) -> Option<int> {
    match o {
        Some(i) => Some(i as int),
        None => None,
    }
}

/// Reads the message to a class whose bracket opens at `open`. The receiver is
/// the first identifier of the bracket; an identifier right before a colon is
/// a keyword of the selector; groups inside the bracket are passed over. A
/// receiver that is no class by its name is no message to a class.
pub fn parse_send_at(toks: &Vec<Tok>, open: usize) -> (r: Option<ParsedSend>)
    ensures
        match r {
            Some(s) => send_at(tok_views(toks@), open as int) == Some(s@) && s.selector_tok
                < toks@.len(),
            None => send_at(tok_views(toks@), open as int) is None,
        },
{
    let ghost all = tok_views(toks@);
    let ghost whole = group_tokens(all, open as int, 0);
    let ghost mut done: Seq<int> = Seq::empty();
    let n: usize = toks.len();
    let mut depth: usize = 0;
    let mut receiver: Option<String> = None;
    let mut first: Option<(String, usize)> = None;
    let mut pending: Option<(String, usize)> = None;
    let mut selector = String::new();
    let mut selector_tok: Option<usize> = None;
    let mut i: usize = open;
    let mut closed = false;
    while i < n && !closed
        invariant
            n == toks@.len(),
            all == tok_views(toks@),
            open <= i,
            i <= n || i == open,
            depth <= i - open,
            !closed ==> done + group_tokens(all, i as int, depth as nat) == whole,
            closed ==> done == whole,
            send_of(all, done) == (SendView {
                receiver: text_view(receiver),
                first: at_view(first),
                pending: at_view(pending),
                selector: selector@,
                selector_tok: index_view(selector_tok),
            }),
            match first {
                Some(f) => f.1 < n,
                None => true,
            },
            match pending {
                Some(p) => p.1 < n,
                None => true,
            },
            match selector_tok {
                Some(x) => x < n,
                None => true,
            },
        decreases
                n - i + if closed {
                    0int
                } else {
                    1int
                },
    {
        let tok = &toks[i];
        let s = tok.spelling.as_str();
        if same_text(s, "[") || same_text(s, "(") || same_text(s, "{") {
            if depth == 1 {
                proof {
                    let now = done.push(i as int);
                    assert(now.drop_last() =~= done);
                    done = now;
                }
                pending = None;
            }
            depth += 1;
            i += 1;
        } else if same_text(s, "]") || same_text(s, ")") || same_text(s, "}") {
            if depth <= 1 {
                closed = true;
            } else {
                depth -= 1;
                i += 1;
            }
        } else if depth != 1 {
            i += 1;
        } else {
            proof {
                let now = done.push(i as int);
                assert(now.drop_last() =~= done);
                done = now;
            }
            if same_text(s, ":") {
                if let Some((k, at)) = pending {
                    selector.append(k.as_str());
                    selector.append(":");
                    if selector_tok.is_none() {
                        selector_tok = Some(at);
                    }
                    pending = None;
                } else {
                    pending = None;
                }
            } else if tok.identifier {
                if receiver.is_none() {
                    receiver = Some(copy_text(s));
                } else {
                    if first.is_none() {
                        first = Some((copy_text(s), i));
                    }
                    pending = Some((copy_text(s), i));
                }
            } else {
                pending = None;
            }
            i += 1;
        }
    }
    let receiver = match receiver {
        Some(r) => r,
        None => {
            return None;
        },
    };
    if !class_name(receiver.as_str()) {
        return None;
    }
    match selector_tok {
        Some(at) => Some(ParsedSend { receiver, selector, selector_tok: at }),
        None => match first {
            Some((name, at)) => if name.as_str().unicode_len() > 0 {
                Some(ParsedSend { receiver, selector: name, selector_tok: at })
            } else {
                None
            },
            None => None,
        },
    }
}

/// A message to a class that was read from the tokens of a body.
#[derive(Debug)]
pub struct SendCandidate {
    pub rel_path: String,
    /// Where the selector starts, counted from one.
    pub line: u32,
    pub col: u32,
    pub receiver: String,
    pub selector: String,
}

/// What a `SendCandidate` holds.
pub struct CandidateView {
    pub rel_path: Seq<char>,
    pub line: u32,
    pub col: u32,
    pub receiver: Seq<char>,
    pub selector: Seq<char>,
}

impl View for SendCandidate {
    type V = CandidateView;

    open spec fn view(&self) -> CandidateView {
        CandidateView {
            rel_path: self.rel_path@,
            line: self.line,
            col: self.col,
            receiver: self.receiver@,
            selector: self.selector@,
        }
    }
}

pub open spec fn candidate_views(v: Seq<SendCandidate>) -> Seq<CandidateView> {
    v.map_values(|c: SendCandidate| c@)
}

pub broadcast proof fn lemma_candidate_views_push(v: Seq<SendCandidate>, c: SendCandidate)
    ensures
        #[trigger] candidate_views(v.push(c)) == candidate_views(v).push(c@),
{
}

/// Whether the token at `i` is a `#` with this word behind it.
pub open spec fn directive(toks: Seq<TokView>, i: int, word: Seq<char>) -> bool {
    toks[i].spelling == "#"@ && i + 1 < toks.len() && toks[i + 1].spelling == word
}

/// How many conditional regions of the preprocessor are open behind the first
/// `n` tokens.
pub open spec fn conditional_depth(toks: Seq<TokView>, n: nat) -> nat
    decreases n,
{
    if n == 0 {
        0
    } else {
        let before = conditional_depth(toks, (n - 1) as nat);
        if directive(toks, n - 1, "if"@) || directive(toks, n - 1, "ifdef"@) || directive(
            toks,
            n - 1,
            "ifndef"@,
        ) {
            before + 1
        } else if directive(toks, n - 1, "endif"@) && before > 0 {
            (before - 1) as nat
        } else {
            before
        }
    }
}

/// The message to a class that starts at the token `i`, if it lies in no
/// conditional region and its place is known.
pub open spec fn candidate_at(toks: Seq<TokView>, i: int, rel_path: Seq<char>) -> Option<
    CandidateView,
> {
    if conditional_depth(toks, i as nat) > 0 || toks[i].spelling != "["@ {
        None
    } else {
        match send_at(toks, i) {
            Some(s) => {
                let at = toks[s.selector_tok];
                if at.line == 0 || at.col == 0 {
                    None
                } else {
                    Some(
                        CandidateView {
                            rel_path,
                            line: at.line,
                            col: at.col,
                            receiver: s.receiver,
                            selector: s.selector,
                        },
                    )
                }
            },
            None => None,
        }
    }
}

/// The messages to classes that start among the first `n` tokens.
pub open spec fn candidates(toks: Seq<TokView>, rel_path: Seq<char>, n: nat) -> Seq<
    Option<CandidateView>,
> {
    Seq::new(n, |i: int| candidate_at(toks, i, rel_path))
}

/// The messages to classes in a body. Conditional regions of the preprocessor
/// are passed over: the tokens do not tell which of them are compiled.
pub fn scan_body_for_sends(toks: &Vec<Tok>, rel_path: &str) -> (r: Vec<SendCandidate>)
    ensures
        candidate_views(r@) == somes(candidates(tok_views(toks@), rel_path@, toks@.len())),
{
    broadcast use lemma_candidate_views_push;

    let ghost all = tok_views(toks@);
    let mut out: Vec<SendCandidate> = Vec::new();
    let n: usize = toks.len();
    let mut depth: usize = 0;
    let mut i: usize = 0;
    while i < n
        invariant
            i <= n,
            n == toks@.len(),
            all == tok_views(toks@),
            depth <= i,
            depth == conditional_depth(all, i as nat),
            candidate_views(out@) == somes(candidates(all, rel_path@, i as nat)),
        decreases n - i,
    {
        let tok = &toks[i];
        let ghost before = candidates(all, rel_path@, i as nat);
        let ghost x = candidate_at(all, i as int, rel_path@);
        proof {
            assert(candidates(all, rel_path@, (i + 1) as nat) =~= before.push(x));
            lemma_somes_push(before, x);
        }
        if same_text(tok.spelling.as_str(), "#") {
            proof {
                reveal_strlit("#");
                reveal_strlit("[");
                assert("#"@[0] != "["@[0]);
            }
            if i + 1 < n {
                let word = toks[i + 1].spelling.as_str();
                if same_text(word, "if") || same_text(word, "ifdef") || same_text(word, "ifndef") {
                    depth += 1;
                } else if same_text(word, "endif") && depth > 0 {
                    depth -= 1;
                }
            }
        } else if depth == 0 && same_text(tok.spelling.as_str(), "[") {
            if let Some(send) = parse_send_at(toks, i) {
                let at = &toks[send.selector_tok];
                if at.line != 0 && at.col != 0 {
                    let c = SendCandidate {
                        rel_path: copy_text(rel_path),
                        line: at.line,
                        col: at.col,
                        receiver: send.receiver,
                        selector: send.selector,
                    };
                    out.push(c);
                }
            }
        }
        i += 1;
    }
    out
}

/// The message to a class in the tokens of one expression: that of the first
/// bracket.
pub open spec fn expression_send(toks: Seq<TokView>, i: int) -> Option<ClassSend>
    decreases toks.len() - i,
{
    if i < 0 || i >= toks.len() {
        None
    } else if toks[i].spelling == "["@ {
        send_at(toks, i)
    } else {
        expression_send(toks, i + 1)
    }
}

/// Reads the message to a class that an expression is.
pub fn syntactic_class_send(toks: &Vec<Tok>) -> (r: Option<ParsedSend>)
    ensures
        match r {
            Some(s) => expression_send(tok_views(toks@), 0) == Some(s@),
            None => expression_send(tok_views(toks@), 0) is None,
        },
{
    let ghost all = tok_views(toks@);
    let mut i: usize = 0;
    while i < toks.len()
        invariant
            i <= toks@.len(),
            all == tok_views(toks@),
            expression_send(all, 0) == expression_send(all, i as int),
        decreases toks@.len() - i,
    {
        if same_text(toks[i].spelling.as_str(), "[") {
            return parse_send_at(toks, i);
        }
        i += 1;
    }
    None
}

/// A receiver that does not start with a capital, such as `self`, `super` or
/// a variable, is never taken for a class.
pub proof fn law_receiver_is_a_class(toks: Seq<TokView>, open: int)
    ensures
        send_at(toks, open) matches Some(s) ==> is_class_name(s.receiver),
{
}

/// No message is read from a conditional region.
pub proof fn law_conditional_regions_are_declined(
    toks: Seq<TokView>,
    i: int,
    rel_path: Seq<char>,
)
    requires
        0 <= i < toks.len(),
        conditional_depth(toks, i as nat) > 0,
    ensures
        candidate_at(toks, i, rel_path) is None,
{
}

/// A token that is neither a bracket nor a colon.
pub open spec fn is_plain(t: TokView) -> bool {
    let s = t.spelling;
    s != "["@ && s != "]"@ && s != "("@ && s != ")"@ && s != "{"@ && s != "}"@ && s != ":"@
}

/// Whether the tokens from `o` on are a message with `n` keywords: a bracket,
/// the receiver, for each keyword its name, a colon and a plain argument, and
/// the closing bracket.
pub open spec fn is_keyword_message(toks: Seq<TokView>, o: int, n: nat) -> bool {
    &&& 0 <= o && o + 2 + 3 * n < toks.len()
    &&& toks[o].spelling == "["@
    &&& is_plain(toks[o + 1]) && toks[o + 1].identifier
    &&& forall|j: int|
        0 <= j < n ==> {
            &&& is_plain(#[trigger] toks[o + 2 + 3 * j])
            &&& toks[o + 2 + 3 * j].identifier
            &&& toks[o + 3 + 3 * j].spelling == ":"@
            &&& is_plain(toks[o + 4 + 3 * j])
        }
    &&& toks[o + 2 + 3 * n].spelling == "]"@
}

/// The selector of a message with `n` keywords: their names, each with a
/// colon.
pub open spec fn keyword_selector(toks: Seq<TokView>, o: int, n: nat) -> Seq<char>
    decreases n,
{
    if n == 0 {
        Seq::empty()
    } else {
        keyword_selector(toks, o, (n - 1) as nat) + toks[o + 2 + 3 * (n - 1)].spelling + ":"@
    }
}

proof fn lemma_brackets()
    ensures
        !opens(":"@) && !closes(":"@),
        !opens("]"@) && closes("]"@),
        opens("["@),
        forall|t: TokView| #[trigger] is_plain(t) ==> !opens(t.spelling) && !closes(t.spelling),
{
    reveal_strlit(":");
    reveal_strlit("[");
    reveal_strlit("]");
    reveal_strlit("(");
    reveal_strlit(")");
    reveal_strlit("{");
    reveal_strlit("}");
    assert(":"@[0] == ':' && "["@[0] == '[' && "]"@[0] == ']' && "("@[0] == '(' && ")"@[0] == ')'
        && "{"@[0] == '{' && "}"@[0] == '}');
}

proof fn lemma_plain_run(toks: Seq<TokView>, i: int, e: int)
    requires
        0 <= i <= e < toks.len(),
        forall|k: int|
            i <= k < e ==> !opens((#[trigger] toks[k]).spelling) && !closes(toks[k].spelling),
        closes(toks[e].spelling) && !opens(toks[e].spelling),
    ensures
        group_tokens(toks, i, 1) == Seq::new((e - i) as nat, |k: int| i + k),
    decreases e - i,
{
    if i < e {
        lemma_plain_run(toks, i + 1, e);
        assert(group_tokens(toks, i, 1) =~= Seq::new((e - i) as nat, |k: int| i + k));
    } else {
        assert(group_tokens(toks, i, 1) =~= Seq::new((e - i) as nat, |k: int| i + k));
    }
}

proof fn lemma_message_read(toks: Seq<TokView>, o: int, n: nat, m: nat)
    requires
        is_keyword_message(toks, o, n),
        m <= n,
    ensures
        ({
            let s = send_of(toks, Seq::new(1 + 3 * m, |k: int| o + 1 + k));
            &&& s.receiver == Some(toks[o + 1].spelling)
            &&& s.selector == keyword_selector(toks, o, m)
            &&& s.selector_tok == if m == 0 {
                None
            } else {
                Some(o + 2)
            }
        }),
    decreases m,
{
    lemma_brackets();
    let all = Seq::new(1 + 3 * m, |k: int| o + 1 + k);
    if m == 0 {
        assert(all.drop_last() =~= Seq::<int>::empty());
        assert(send_of(toks, all.drop_last()) == no_send());
    } else {
        lemma_message_read(toks, o, n, (m - 1) as nat);
        let j = m - 1;
        let a = Seq::new((1 + 3 * (m - 1)) as nat, |k: int| o + 1 + k);
        let b = a.push(o + 2 + 3 * j);
        let c = b.push(o + 3 + 3 * j);
        let d = c.push(o + 4 + 3 * j);
        assert(all =~= d);
        assert(b.drop_last() =~= a);
        assert(c.drop_last() =~= b);
        assert(d.drop_last() =~= c);
        assert(is_plain(toks[o + 2 + 3 * j]));
        let sb = send_of(toks, b);
        assert(sb.pending == Some((toks[o + 2 + 3 * j].spelling, o + 2 + 3 * j)));
        let sc = send_of(toks, c);
        assert(sc.selector == keyword_selector(toks, o, m));
    }
}

/// A message to a class is read from its tokens: the receiver is what the
/// bracket opens with, and the selector its keywords, each with a colon.
pub proof fn law_keyword_message_is_read(toks: Seq<TokView>, o: int, n: nat)
    requires
        is_keyword_message(toks, o, n),
        n > 0,
        is_class_name(toks[o + 1].spelling),
    ensures
        send_at(toks, o) == Some(
            ClassSend {
                receiver: toks[o + 1].spelling,
                selector: keyword_selector(toks, o, n),
                selector_tok: o + 2,
            },
        ),
{
    lemma_brackets();
    let e = o + 2 + 3 * n;
    assert forall|k: int| o + 1 <= k < e implies !opens((#[trigger] toks[k]).spelling) && !closes(
        toks[k].spelling,
    ) by {
        if k > o + 1 {
            let j = (k - o - 2) / 3;
            assert(0 <= j < n);
            assert(is_plain(toks[o + 2 + 3 * j]));
            assert(k == o + 2 + 3 * j || k == o + 3 + 3 * j || k == o + 4 + 3 * j);
        }
    }
    lemma_plain_run(toks, o + 1, e);
    assert(group_tokens(toks, o, 0) == group_tokens(toks, o + 1, 1));
    lemma_message_read(toks, o, n, n);
    assert(Seq::new((e - o - 1) as nat, |k: int| o + 1 + k) =~= Seq::new(
        1 + 3 * n,
        |k: int| o + 1 + k,
    ));
}

/// A message without keywords is read from its tokens: a bracket, the receiver,
/// the selector and the closing bracket.
pub proof fn law_plain_message_is_read(toks: Seq<TokView>, o: int)
    requires
        0 <= o && o + 3 < toks.len(),
        toks[o].spelling == "["@,
        is_plain(toks[o + 1]) && toks[o + 1].identifier,
        is_class_name(toks[o + 1].spelling),
        is_plain(toks[o + 2]) && toks[o + 2].identifier,
        toks[o + 2].spelling.len() > 0,
        toks[o + 3].spelling == "]"@,
    ensures
        send_at(toks, o) == Some(
            ClassSend {
                receiver: toks[o + 1].spelling,
                selector: toks[o + 2].spelling,
                selector_tok: o + 2,
            },
        ),
{
    lemma_brackets();
    lemma_plain_run(toks, o + 1, o + 3);
    let all = Seq::new(2, |k: int| o + 1 + k);
    assert(group_tokens(toks, o, 0) == group_tokens(toks, o + 1, 1));
    let one = all.drop_last();
    assert(one.drop_last() =~= Seq::<int>::empty());
    assert(send_of(toks, one.drop_last()) == no_send());
    assert(one.last() == o + 1 && all.last() == o + 2);
    assert(send_of(toks, one).receiver == Some(toks[o + 1].spelling));
}

/// Where no conditional region has begun before it, a message to a class in a
/// body is found, at the place of its selector.
pub proof fn law_message_in_a_body_is_found(
    toks: Seq<TokView>,
    rel_path: Seq<char>,
    o: int,
    s: ClassSend,
)
    requires
        0 <= o < toks.len(),
        toks[o].spelling == "["@,
        send_at(toks, o) == Some(s),
        toks[s.selector_tok].line > 0,
        toks[s.selector_tok].col > 0,
        forall|k: int| 0 <= k < o ==> (#[trigger] toks[k]).spelling != "#"@,
    ensures
        somes(candidates(toks, rel_path, toks.len())).contains(
            CandidateView {
                rel_path,
                line: toks[s.selector_tok].line,
                col: toks[s.selector_tok].col,
                receiver: s.receiver,
                selector: s.selector,
            },
        ),
{
    lemma_no_region(toks, o as nat);
    let slots = candidates(toks, rel_path, toks.len());
    let c = CandidateView {
        rel_path,
        line: toks[s.selector_tok].line,
        col: toks[s.selector_tok].col,
        receiver: s.receiver,
        selector: s.selector,
    };
    assert(slots[o] == Some(c));
    crate::emitter::lemma_somes_hold(slots, c);
}

proof fn lemma_no_region(toks: Seq<TokView>, n: nat)
    requires
        n <= toks.len(),
        forall|k: int| 0 <= k < n ==> (#[trigger] toks[k]).spelling != "#"@,
    ensures
        conditional_depth(toks, n) == 0,
    decreases n,
{
    if n > 0 {
        lemma_no_region(toks, (n - 1) as nat);
        assert(toks[n - 1].spelling != "#"@);
    }
}

/// Of a group inside a message only the bracket that opens it counts: what
/// stands between its brackets is passed over.
pub proof fn law_inner_group_is_passed_over(toks: Seq<TokView>, i: int, j: int)
    requires
        0 <= i < j < toks.len(),
        opens(toks[i].spelling),
        forall|k: int|
            i < k < j ==> !opens((#[trigger] toks[k]).spelling) && !closes(toks[k].spelling),
        closes(toks[j].spelling) && !opens(toks[j].spelling),
    ensures
        group_tokens(toks, i, 1) == seq![i] + group_tokens(toks, j + 1, 1),
{
    lemma_inner_run(toks, i + 1, j);
}

proof fn lemma_inner_run(toks: Seq<TokView>, i: int, j: int)
    requires
        0 <= i <= j < toks.len(),
        forall|k: int|
            i <= k < j ==> !opens((#[trigger] toks[k]).spelling) && !closes(toks[k].spelling),
        closes(toks[j].spelling) && !opens(toks[j].spelling),
    ensures
        group_tokens(toks, i, 2) == group_tokens(toks, j + 1, 1),
    decreases j - i,
{
    if i < j {
        lemma_inner_run(toks, i + 1, j);
    }
}

/// Behind a directive that begins a conditional region, no message is read
/// before one that ends a region.
pub proof fn law_begun_region_is_declined(
    toks: Seq<TokView>,
    k: int,
    i: int,
    rel_path: Seq<char>,
)
    requires
        0 <= k < i < toks.len(),
        toks[k].spelling == "#"@,
        toks[k + 1].spelling == "if"@ || toks[k + 1].spelling == "ifdef"@ || toks[k + 1].spelling
            == "ifndef"@,
        forall|m: int|
            k < m < i ==> (#[trigger] toks[m]).spelling != "#"@ || toks[m + 1].spelling != "endif"@,
    ensures
        candidate_at(toks, i, rel_path) is None,
{
    lemma_region_open(toks, k, i as nat);
}

proof fn lemma_region_open(toks: Seq<TokView>, k: int, n: nat)
    requires
        0 <= k < n < toks.len(),
        toks[k].spelling == "#"@,
        toks[k + 1].spelling == "if"@ || toks[k + 1].spelling == "ifdef"@ || toks[k + 1].spelling
            == "ifndef"@,
        forall|m: int|
            k < m < n ==> (#[trigger] toks[m]).spelling != "#"@ || toks[m + 1].spelling != "endif"@,
    ensures
        conditional_depth(toks, n) > 0,
    decreases n,
{
    if k < n - 1 {
        lemma_region_open(toks, k, (n - 1) as nat);
        assert(!directive(toks, n - 1, "endif"@));
    }
}

} // verus!
