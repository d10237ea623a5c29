use travsr_lang::columns::SourceCache;
use travsr_lang::dotnet::Installation;
use travsr_lang::emitter::{dart_response, parse_emitter_output, swift_response, EmitterError};
use travsr_lang::graph::{EdgeKind, InvokeResponse};
use travsr_lang::version::{
    attach, dart_sdk_of_binary, detect_dart_sdk, emitter_candidates, emitter_path, printed_line,
    version_field, version_verdict, Emitter, VerdictCache,
};

fn parse_with(json: &str, sources: &SourceCache) -> InvokeResponse {
    let index = parse_emitter_output(json.as_bytes())
        .expect("parse")
        .expect("not empty");
    swift_response(&index, "testcorpus", sources)
}

fn parse(json: &str) -> InvokeResponse {
    parse_with(json, &SourceCache::new())
}

fn node_id(path: &str, symbol: &str) -> u64 {
    travsr_core::VName::new("testcorpus", "", path, "swift", symbol).id().0
}

#[test]
fn declared_utf8_col_survives_a_non_ascii_prefix() {
    let line = "let s = \"caf\u{e9}\"; svc.charge()";
    assert_eq!(line.find("charge"), Some(21));
    let mut sources = SourceCache::new();
    sources.load("Caller.swift", Some(&format!("{line}\n")));

    let resp = parse_with(
        r#"{"version":1,"col_unit":"utf8","documents":[
            {"path":"Svc.swift","definitions":[
                {"symbol":"swift::Svc.charge","kind":"function","line":1,"end_line":3}
            ],"references":[],"inheritances":[]},
            {"path":"Caller.swift","definitions":[],
             "references":[{"symbol":"swift::Svc.charge","line":1,"col":21}],
             "inheritances":[]}
        ]}"#,
        &sources,
    );
    assert_eq!(resp.refs.len(), 1);
    assert_eq!(resp.refs[0].caller_line, 1);
    assert_eq!(resp.refs[0].caller_col, Some(21));
}

#[test]
fn output_without_col_leaves_caller_col_unset() {
    let resp = parse(
        r#"{"version":1,"documents":[
            {"path":"ClassA.swift","definitions":[
                {"symbol":"swift::ClassA","kind":"class","line":1,"end_line":10}
            ],"references":[],"inheritances":[]},
            {"path":"ClassB.swift","definitions":[],
             "references":[{"symbol":"swift::ClassA","line":7}],"inheritances":[]}
        ]}"#,
    );
    assert_eq!(resp.refs.len(), 1);
    assert_eq!(resp.refs[0].caller_col, None);
}

#[test]
fn constructor_call_resolves_to_class_node() {
    let resp = parse(
        r#"{"version":1,"documents":[
            {"path":"ClassA.swift","definitions":[
                {"symbol":"swift::ClassA","kind":"class","line":1,"end_line":10},
                {"symbol":"swift::ClassA.init","kind":"function","line":2,"end_line":4}
            ],"references":[],"inheritances":[]},
            {"path":"ClassB.swift","definitions":[],
             "references":[{"symbol":"swift::ClassA","line":7}],"inheritances":[]}
        ]}"#,
    );
    let class_id = node_id("ClassA.swift", "swift::ClassA");
    assert!(!resp.edges.iter().any(|e| e.kind == EdgeKind::RefCall));
    assert_eq!(resp.refs.len(), 1);
    assert_eq!(resp.refs[0].callee_id, class_id);
    assert_eq!(resp.refs[0].caller_path, "ClassB.swift");
    assert_eq!(resp.refs[0].caller_line, 7);
    assert!(resp.refs[0].is_call, "swift call-site ref must set is_call");
}

#[test]
fn type_position_ref_is_not_a_call() {
    let resp = parse(
        r#"{"version":1,"documents":[
            {"path":"ClassA.swift","definitions":[
                {"symbol":"swift::ClassA","kind":"class","line":1,"end_line":10}
            ],"references":[],"inheritances":[]},
            {"path":"ClassB.swift","definitions":[],
             "references":[
                {"symbol":"swift::ClassA","line":7,"is_call":false},
                {"symbol":"swift::ClassA","line":9}
             ],"inheritances":[]}
        ]}"#,
    );
    assert_eq!(resp.refs.len(), 2);
    assert_eq!(resp.refs[0].caller_line, 7);
    assert!(
        !resp.refs[0].is_call,
        "type-position ref must not be a call"
    );
    assert_eq!(resp.refs[1].caller_line, 9);
    assert!(
        resp.refs[1].is_call,
        "call-site ref must default to is_call"
    );
}

#[test]
fn lineless_ref_emits_fallback_file_edge() {
    let resp = parse(
        r#"{"version":1,"documents":[
            {"path":"ClassA.swift","definitions":[
                {"symbol":"swift::ClassA","kind":"class","line":1,"end_line":10}
            ],"references":[],"inheritances":[]},
            {"path":"ClassB.swift","definitions":[],
             "references":[{"symbol":"swift::ClassA"}],"inheritances":[]}
        ]}"#,
    );
    let class_id = node_id("ClassA.swift", "swift::ClassA");
    let file_id = node_id("ClassB.swift", "file");
    assert!(resp
        .edges
        .iter()
        .any(|e| e.src == file_id && e.dst == class_id && e.kind == EdgeKind::RefCall));
    assert!(resp.refs.is_empty());
}

#[test]
fn dotted_static_access_resolves_to_field_node() {
    let resp = parse(
        r#"{"version":1,"documents":[
            {"path":"ClassC.swift","definitions":[
                {"symbol":"swift::ClassC","kind":"class","line":1,"end_line":8},
                {"symbol":"swift::ClassC.shared","kind":"field","line":2,"end_line":2}
            ],"references":[],"inheritances":[]},
            {"path":"Caller.swift","definitions":[],
             "references":[{"symbol":"swift::ClassC.shared","line":4}],"inheritances":[]}
        ]}"#,
    );
    let shared_id = node_id("ClassC.swift", "swift::ClassC.shared");
    assert!(!resp.edges.iter().any(|e| e.kind == EdgeKind::RefCall));
    assert_eq!(resp.refs.len(), 1);
    assert_eq!(resp.refs[0].callee_id, shared_id);
}

#[test]
fn unknown_ref_symbol_is_skipped() {
    let resp = parse(
        r#"{"version":1,"documents":[
            {"path":"A.swift","definitions":[
                {"symbol":"swift::A","kind":"class","line":1,"end_line":2}
            ],"references":[{"symbol":"swift::Nowhere.method","line":2}],"inheritances":[]}
        ]}"#,
    );
    assert!(resp.edges.is_empty());
    assert!(resp.refs.is_empty());
}

#[test]
fn output_that_is_no_index_is_told_apart() {
    assert!(matches!(parse_emitter_output(b""), Ok(None)));
    assert!(matches!(
        parse_emitter_output(b"{"),
        Err(EmitterError::NotJson)
    ));
    assert!(matches!(
        parse_emitter_output(b"{\"documents\":3}"),
        Err(EmitterError::NoDocuments)
    ));
}

#[test]
fn inheritance_is_an_edge() {
    let json = r#"{"documents":[{"path":"A.dart","definitions":[
        {"symbol":"p::A","kind":"class","line":1,"end_line":2},
        {"symbol":"p::B","kind":"class","line":4,"end_line":5}
      ],"references":[],"inheritances":[{"child":"p::A","parent":"p::B"}]}]}"#;
    let index = parse_emitter_output(json.as_bytes()).expect("json").expect("index");
    let r = swift_response(&index, "c", &SourceCache::new());
    assert_eq!(r.nodes.len(), 2);
    assert_eq!(r.edges.len(), 1);
    assert_eq!(r.edges[0].kind, EdgeKind::IsImplementation);
    assert_eq!(r.edges[0].src, r.nodes[0].id);
    assert_eq!(r.edges[0].dst, r.nodes[1].id);
    assert!(dart_response(&index, "c", &SourceCache::new()).edges.is_empty());
}

#[test]
fn a_reference_in_dart_leads_to_its_definition() {
    let json = r#"{"documents":[
      {"path":"a.dart","definitions":[{"symbol":"A","kind":"class","line":1,"end_line":9}]},
      {"path":"b.dart","references":[
        {"symbol":"A","line":7},{"symbol":"None","line":4},{"symbol":"A"},
        {"symbol":"A","line":1,"col":2,"is_call":false}]}]}"#;
    let index = parse_emitter_output(json.as_bytes()).expect("json").expect("index");
    let mut sources = SourceCache::new();
    sources.load("b.dart", Some("x A y"));
    let r = dart_response(&index, "c", &sources);
    assert_eq!(r.nodes.len(), 1);
    assert_eq!(r.nodes[0].path, "a.dart");
    assert_eq!(r.nodes[0].line, Some(1));
    assert_eq!(r.refs.len(), 2);
    assert_eq!(r.refs[0].caller_path, "b.dart");
    assert_eq!(r.refs[0].caller_line, 7);
    assert_eq!(r.refs[0].callee_id, r.nodes[0].id);
    assert!(r.refs[0].is_call && !r.refs[1].is_call);
    assert_eq!((r.refs[0].caller_col, r.refs[1].caller_col), (None, Some(2)));
    let file = travsr_core::VName::new("c", "", "b.dart", "dart", "file").id().0;
    assert_eq!(r.edges.len(), 1);
    assert_eq!(r.edges[0].src, file);
    assert_eq!(r.edges[0].dst, r.nodes[0].id);
}

#[test]
fn version_field_reads_only_the_first_line() {
    assert_eq!(
        version_field(Emitter::Dart, "dart-index-emitter 0.4.2"),
        "0.4.2"
    );
    assert_eq!(
        version_field(
            Emitter::Dart,
            "dart-index-emitter 0.4.2\nwarning: something else"
        ),
        "0.4.2"
    );
}

#[test]
fn versions_are_taken_whole() {
    assert_eq!(version_field(Emitter::Swift, "swift-index-emitter 10.4.2"), "10.4.2");
    assert_eq!(version_field(Emitter::Swift, "a 1\nb 2"), "2");
    assert_eq!(version_field(Emitter::Swift, "  "), "  ");
    assert_eq!(version_field(Emitter::Dart, "  "), "");
    assert_eq!(version_field(Emitter::Dart, ""), "");
    assert_eq!(printed_line(true, " v 1 \n").as_deref(), Some("v 1"));
    assert_eq!(printed_line(true, " \n"), None);
    assert_eq!(printed_line(false, "v 1"), None);
}

#[test]
fn only_another_version_is_warned_of() {
    let line = |v| version_verdict(Emitter::Swift, "/bin/e", v, "0.4.2");
    assert!(line(Some("swift-index-emitter 0.4.2")).is_none());
    let d = line(Some("swift-index-emitter 10.4.2")).expect("another version");
    assert_eq!(d.code, "emitter.version-mismatch");
    assert_eq!(
        d.message,
        "the swift index emitter at /bin/e reports swift-index-emitter 10.4.2, but this sidecar is \
         v0.4.2. Its output may not reflect the current emitter source; `cargo build` does not \
         rebuild it."
    );
    let d = version_verdict(Emitter::Dart, "/bin/d", None, "0.4.2").expect("no version");
    assert_eq!(d.code, "emitter.version-unsupported");
    assert_eq!(
        d.message,
        "the dart index emitter at /bin/d does not support `--version`, so it predates this \
         sidecar (v0.4.2) and its output may not reflect the current emitter source. `cargo build` \
         does not rebuild it."
    );
    let r = attach(InvokeResponse::empty(), Some(d));
    assert_eq!(r.diagnostics.len(), 1);
    assert!(attach(InvokeResponse::empty(), None).diagnostics.is_empty());
}

#[test]
fn verdicts_are_remembered_by_build() {
    let mut cache = VerdictCache::new();
    assert!(cache.cached(Emitter::Dart, "/e", Some(1)).is_none());
    let d = cache.check_emitter_version(Emitter::Dart, "/e", Some(1), None, "1");
    assert!(d.is_some());
    assert!(matches!(cache.cached(Emitter::Dart, "/e", Some(1)), Some(Some(_))));
    assert!(cache.cached(Emitter::Dart, "/e", Some(2)).is_none());
    assert!(cache.cached(Emitter::Dart, "/f", Some(1)).is_none());
    assert!(cache
        .check_emitter_version(Emitter::Dart, "/e", Some(1), Some("e 1"), "1")
        .is_none());
    assert!(matches!(cache.cached(Emitter::Dart, "/e", Some(1)), Some(None)));

    let mut cache = VerdictCache::new();
    cache.check_emitter_version(Emitter::Swift, "/e", Some(1), None, "1");
    assert!(matches!(cache.cached(Emitter::Swift, "/e", Some(2)), Some(Some(_))));
}

#[test]
fn emitters_are_looked_for_in_order() {
    let exe = Some("/repo/target/release/travsr-lang-swift");
    let all = emitter_candidates(Emitter::Swift, Some("/mine"), exe, false);
    assert_eq!(
        all,
        [
            "/mine",
            "/repo/packages/swift-index-emitter/.build/release/swift-index-emitter",
            "/repo/target/release/travsr-swift-index-emitter",
        ]
    );
    let pick = |existing: &[&str]| {
        let existing: Vec<String> = existing.iter().map(|s| s.to_string()).collect();
        emitter_path(Emitter::Swift, Some("/mine"), exe, false, &existing)
    };
    assert_eq!(pick(&[]), None);
    assert_eq!(pick(&[all[2].as_str(), all[1].as_str()]), Some(all[1].clone()));
    assert_eq!(pick(&[all[2].as_str(), "/mine"]).as_deref(), Some("/mine"));
    assert_eq!(
        emitter_candidates(Emitter::Dart, None, Some("/b/travsr-lang-dart"), false),
        ["/b/travsr-dart-index-emitter"]
    );
    assert_eq!(
        emitter_candidates(Emitter::Dart, None, Some("/r/t/d/x"), false)[0],
        "/r/packages/dart-scip-emitter/bin/emit-native"
    );
    assert!(emitter_candidates(Emitter::Dart, None, None, false).is_empty());
}

#[test]
fn an_sdk_is_used_only_if_it_is_one() {
    let at = |root: &str, has_sdk: bool| Installation {
        root: root.to_string(),
        has_sdk,
    };
    assert_eq!(dart_sdk_of_binary("/sdk/bin/dart", false).as_deref(), Some("/sdk"));
    assert_eq!(
        detect_dart_sdk(Some(at("/v", true)), &vec![at("/w", true)], None).as_deref(),
        Some("/v")
    );
    assert_eq!(
        detect_dart_sdk(Some(at("", true)), &vec![at("/w", false), at("/x", true)], None).as_deref(),
        Some("/x")
    );
    assert_eq!(
        detect_dart_sdk(Some(at("/v", false)), &vec![], Some(at("/a", true))).as_deref(),
        Some("/a")
    );
    assert_eq!(detect_dart_sdk(None, &vec![], Some(at("/a", false))), None);
    assert_eq!(detect_dart_sdk(None, &vec![], None), None);
}
