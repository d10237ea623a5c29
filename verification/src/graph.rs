//! The graph that the indexers hand to the daemon: nodes, edges, references
//! and the response that carries them.
use vstd::prelude::*;
use crate::text::copy_text;

verus! {

/// Source language of a graph node.
#[derive(Debug, Clone, Copy, PartialEq, Eq, Structural)]
pub enum Language {
    TypeScript,
    Rust,
    Python,
    Go,
    Java,
    Kotlin,
    Ruby,
    CSharp,
    Php,
    Scala,
    Cpp,
    C,
    Swift,
    Dart,
    ObjectiveC,
}

impl Language {
    /// The name under which the graph stores the language.
    pub open spec fn name(self) -> Seq<char> {
        match self {
            Language::TypeScript => "typescript"@,
            Language::Rust => "rust"@,
            Language::Python => "python"@,
            Language::Go => "go"@,
            Language::Java => "java"@,
            Language::Kotlin => "kotlin"@,
            Language::Ruby => "ruby"@,
            Language::CSharp => "csharp"@,
            Language::Php => "php"@,
            Language::Scala => "scala"@,
            Language::Cpp => "cpp"@,
            Language::C => "c"@,
            Language::Swift => "swift"@,
            Language::Dart => "dart"@,
            Language::ObjectiveC => "objectivec"@,
        }
    }

    /// The name under which the graph stores the language.
    pub fn as_str(self) -> (r: &'static str)
        ensures
            r@ == self.name(),
    {
        match self {
            Language::TypeScript => "typescript",
            Language::Rust => "rust",
            Language::Python => "python",
            Language::Go => "go",
            Language::Java => "java",
            Language::Kotlin => "kotlin",
            Language::Ruby => "ruby",
            Language::CSharp => "csharp",
            Language::Php => "php",
            Language::Scala => "scala",
            Language::Cpp => "cpp",
            Language::C => "c",
            Language::Swift => "swift",
            Language::Dart => "dart",
            Language::ObjectiveC => "objectivec",
        }
    }
}

/// The name of the language that files with the extension `ext` are written
/// in, where the graph knows one.
pub open spec fn extension_name(ext: Seq<char>) -> Option<Seq<char>> {
    if ext == "ts"@ || ext == "tsx"@ || ext == "mts"@ || ext == "cts"@ {
        Some("typescript"@)
    } else if ext == "rs"@ {
        Some("rust"@)
    } else if ext == "py"@ || ext == "pyi"@ {
        Some("python"@)
    } else if ext == "go"@ {
        Some("go"@)
    } else if ext == "java"@ {
        Some("java"@)
    } else if ext == "kt"@ || ext == "kts"@ {
        Some("kotlin"@)
    } else if ext == "rb"@ || ext == "rake"@ || ext == "gemspec"@ {
        Some("ruby"@)
    } else if ext == "cs"@ {
        Some("csharp"@)
    } else if ext == "php"@ || ext == "phtml"@ || ext == "php8"@ {
        Some("php"@)
    } else if ext == "scala"@ || ext == "sc"@ {
        Some("scala"@)
    } else if ext == "cpp"@ || ext == "cc"@ || ext == "cxx"@ || ext == "hpp"@ || ext == "hh"@
        || ext == "hxx"@ {
        Some("cpp"@)
    } else if ext == "c"@ || ext == "h"@ {
        Some("c"@)
    } else {
        None
    }
}

/// `travsr_core::Language::from_extension` looks an extension up in a fixed
/// table and `Language::as_str` names the language found; both tables
/// together are `extension_name`.
#[verifier::external_body]
pub(crate) fn extension_language(ext: &str) -> (r: Option<&'static str>)
    ensures
        match r {
            Some(name) => extension_name(ext@) == Some(name@),
            None => extension_name(ext@) is None,
        },
{
    travsr_core::Language::from_extension(ext).map(travsr_core::Language::as_str)
}

/// The identifier that `travsr_core::VName::id` derives from the five fields
/// of a name: the first eight bytes of a digest of them.
pub uninterp spec fn vname_id(
    corpus: Seq<char>,
    root: Seq<char>,
    path: Seq<char>,
    language: Seq<char>,
    signature: Seq<char>,
) -> u64;

/// `travsr_core::VName::new` puts the five fields together and `VName::id`
/// digests them; the result depends on nothing but the fields.
#[verifier::external_body]
pub(crate) fn name_id(
    corpus: &str,
    root: &str,
    path: &str,
    language: &str,
    signature: &str,
) -> (r: u64)
    ensures
        r == vname_id(corpus@, root@, path@, language@, signature@),
{
    travsr_core::VName::new(corpus, root, path, language, signature).id().0
}

/// A definition in the graph.
#[derive(Debug)]
pub struct Node {
    pub id: u64,
    pub corpus: String,
    pub path: String,
    pub language: String,
    pub signature: String,
    pub kind: String,
    pub line: Option<u32>,
    pub end_line: Option<u32>,
}

/// What a `Node` holds.
pub struct NodeView {
    pub id: u64,
    pub corpus: Seq<char>,
    pub path: Seq<char>,
    pub language: Seq<char>,
    pub signature: Seq<char>,
    pub kind: Seq<char>,
    pub line: Option<u32>,
    pub end_line: Option<u32>,
}

impl View for Node {
    type V = NodeView;

    open spec fn view(&self) -> NodeView {
        NodeView {
            id: self.id,
            corpus: self.corpus@,
            path: self.path@,
            language: self.language@,
            signature: self.signature@,
            kind: self.kind@,
            line: self.line,
            end_line: self.end_line,
        }
    }
}

/// The node of a definition: its identifier is that of its name.
pub open spec fn node_view(
    corpus: Seq<char>,
    path: Seq<char>,
    language: Seq<char>,
    signature: Seq<char>,
    kind: Seq<char>,
    line: Option<u32>,
    end_line: Option<u32>,
) -> NodeView {
    NodeView {
        id: vname_id(corpus, ""@, path, language, signature),
        corpus,
        path,
        language,
        signature,
        kind,
        line,
        end_line,
    }
}

/// The node of a definition.
pub fn node(
    corpus: &str,
    path: &str,
    language: &str,
    signature: &str,
    kind: &str,
    line: Option<u32>,
    end_line: Option<u32>,
) -> (r: Node)
    ensures
        r@ == node_view(corpus@, path@, language@, signature@, kind@, line, end_line),
{
    Node {
        id: name_id(corpus, "", path, language, signature),
        corpus: copy_text(corpus),
        path: copy_text(path),
        language: copy_text(language),
        signature: copy_text(signature),
        kind: copy_text(kind),
        line,
        end_line,
    }
}

/// The kinds of edges that the indexers emit.
#[derive(Debug, Clone, Copy, PartialEq, Eq, Structural)]
pub enum EdgeKind {
    /// Call-site reference.
    RefCall,
    /// A type and the type that it implements or extends.
    IsImplementation,
}

/// A directed edge between two nodes.
#[derive(Debug, Clone, Copy, PartialEq, Eq, Structural)]
pub struct Edge {
    pub src: u64,
    pub dst: u64,
    pub kind: EdgeKind,
}

/// A reference in a file to a definition.
#[derive(Debug)]
pub struct ScipRef {
    pub caller_path: String,
    /// Counted from one.
    pub caller_line: u32,
    pub callee_id: u64,
    pub is_call: bool,
    /// Byte column, counted from zero.
    pub caller_col: Option<u32>,
}

/// What a `ScipRef` holds.
pub struct RefView {
    pub caller_path: Seq<char>,
    pub caller_line: u32,
    pub callee_id: u64,
    pub is_call: bool,
    pub caller_col: Option<u32>,
}

impl View for ScipRef {
    type V = RefView;

    open spec fn view(&self) -> RefView {
        RefView {
            caller_path: self.caller_path@,
            caller_line: self.caller_line,
            callee_id: self.callee_id,
            is_call: self.is_call,
            caller_col: self.caller_col,
        }
    }
}

/// The text that `o` holds.
pub open spec fn text_in(o: Option<String>) -> Option<Seq<char>> {
    match o {
        Some(s) => Some(s@),
        None => None,
    }
}

/// A call whose target is defined outside the index.
#[derive(Debug)]
pub struct UnresolvedCall {
    pub src: u64,
    pub callee_sig: String,
    /// Another signature to look for.
    pub alt_callee_sig: Option<String>,
    /// The crate that the target is likely in.
    pub hint_crate: Option<String>,
    /// Counted from one.
    pub caller_line: u32,
    pub is_method_call: bool,
    /// The type of the receiver.
    pub recv_type: Option<String>,
    /// Byte column, counted from zero.
    pub caller_col: Option<u32>,
}

/// What an `UnresolvedCall` holds.
pub struct CallView {
    pub src: u64,
    pub callee_sig: Seq<char>,
    pub alt_callee_sig: Option<Seq<char>>,
    pub hint_crate: Option<Seq<char>>,
    pub caller_line: u32,
    pub is_method_call: bool,
    pub recv_type: Option<Seq<char>>,
    pub caller_col: Option<u32>,
}

impl View for UnresolvedCall {
    type V = CallView;

    open spec fn view(&self) -> CallView {
        CallView {
            src: self.src,
            callee_sig: self.callee_sig@,
            alt_callee_sig: text_in(self.alt_callee_sig),
            hint_crate: text_in(self.hint_crate),
            caller_line: self.caller_line,
            is_method_call: self.is_method_call,
            recv_type: text_in(self.recv_type),
            caller_col: self.caller_col,
        }
    }
}

/// A warning for the user about what an indexer could not do.
#[derive(Debug)]
pub struct PluginDiagnostic {
    pub code: String,
    pub message: String,
}

/// What a `PluginDiagnostic` holds.
pub struct DiagnosticView {
    pub code: Seq<char>,
    pub message: Seq<char>,
}

impl View for PluginDiagnostic {
    type V = DiagnosticView;

    open spec fn view(&self) -> DiagnosticView {
        DiagnosticView { code: self.code@, message: self.message@ }
    }
}

/// What an indexer hands to the daemon.
#[derive(Debug)]
pub struct InvokeResponse {
    pub nodes: Vec<Node>,
    pub edges: Vec<Edge>,
    pub refs: Vec<ScipRef>,
    pub unresolved_calls: Vec<UnresolvedCall>,
    pub diagnostics: Vec<PluginDiagnostic>,
}

/// What an `InvokeResponse` holds.
pub struct ResponseView {
    pub nodes: Seq<NodeView>,
    pub edges: Seq<Edge>,
    pub refs: Seq<RefView>,
    pub unresolved_calls: Seq<CallView>,
    pub diagnostics: Seq<DiagnosticView>,
}

pub open spec fn node_views(v: Seq<Node>) -> Seq<NodeView> {
    v.map_values(|x: Node| x@)
}

pub open spec fn ref_views(v: Seq<ScipRef>) -> Seq<RefView> {
    v.map_values(|x: ScipRef| x@)
}

pub open spec fn call_views(v: Seq<UnresolvedCall>) -> Seq<CallView> {
    v.map_values(|x: UnresolvedCall| x@)
}

pub open spec fn diagnostic_views(v: Seq<PluginDiagnostic>) -> Seq<DiagnosticView> {
    v.map_values(|x: PluginDiagnostic| x@)
}

pub broadcast proof fn lemma_node_views_push(v: Seq<Node>, x: Node)
    ensures
        #[trigger] node_views(v.push(x)) == node_views(v).push(x@),
{
}

pub broadcast proof fn lemma_ref_views_push(v: Seq<ScipRef>, x: ScipRef)
    ensures
        #[trigger] ref_views(v.push(x)) == ref_views(v).push(x@),
{
}

pub broadcast proof fn lemma_call_views_push(v: Seq<UnresolvedCall>, x: UnresolvedCall)
    ensures
        #[trigger] call_views(v.push(x)) == call_views(v).push(x@),
{
}

pub broadcast proof fn lemma_diagnostic_views_push(v: Seq<PluginDiagnostic>, x: PluginDiagnostic)
    ensures
        #[trigger] diagnostic_views(v.push(x)) == diagnostic_views(v).push(x@),
{
}

pub broadcast group group_views_push {
    lemma_node_views_push,
    lemma_ref_views_push,
    lemma_call_views_push,
    lemma_diagnostic_views_push,
}

impl View for InvokeResponse {
    type V = ResponseView;

    open spec fn view(&self) -> ResponseView {
        ResponseView {
            nodes: node_views(self.nodes@),
            edges: self.edges@,
            refs: ref_views(self.refs@),
            unresolved_calls: call_views(self.unresolved_calls@),
            diagnostics: diagnostic_views(self.diagnostics@),
        }
    }
}

/// The response of an indexer that found nothing.
pub open spec fn empty_response() -> ResponseView {
    ResponseView {
        nodes: Seq::empty(),
        edges: Seq::empty(),
        refs: Seq::empty(),
        unresolved_calls: Seq::empty(),
        diagnostics: Seq::empty(),
    }
}

impl InvokeResponse {
    /// The response of an indexer that found nothing.
    pub fn empty() -> (r: InvokeResponse)
        ensures
            r@ == empty_response(),
    {
        let r = InvokeResponse {
            nodes: Vec::new(),
            edges: Vec::new(),
            refs: Vec::new(),
            unresolved_calls: Vec::new(),
            diagnostics: Vec::new(),
        };
        assert(r@.nodes =~= Seq::<NodeView>::empty());
        assert(r@.refs =~= Seq::<RefView>::empty());
        assert(r@.unresolved_calls =~= Seq::<CallView>::empty());
        assert(r@.diagnostics =~= Seq::<DiagnosticView>::empty());
        r
    }
}

} // verus!
