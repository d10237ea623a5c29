use travsr_lang::graph::{InvokeResponse, Language};
use travsr_lang::lsif::{
    id_to_string, ingest, parse_error, record_lines, uri_to_vname_path, LsifRecord, Position,
};

#[test]
fn empty_lsif_returns_empty_response() {
    let resp = ingest("", &vec![], "test", Language::Rust).unwrap();
    assert!(resp.nodes.is_empty());
    assert!(resp.edges.is_empty());
    assert!(record_lines("").is_empty());
}

#[test]
fn invalid_json_returns_err() {
    let result = ingest("not json\n", &vec![None], "test", Language::Rust);
    assert!(result.is_err());
    assert_eq!(result.unwrap_err(), "LSIF parse error at line 0: not json");
}

#[test]
fn first_unreadable_line_is_the_one_complained_of() {
    let text = "{}\n\nbad\n{}\nworse\n";
    let first = || Some(record("v", "vertex", "metaData"));
    let complaint = "LSIF parse error at line 2: bad";
    let whole = ingest(text, &vec![first(), None, first(), None], "c", Language::Rust);
    assert_eq!(whole.unwrap_err(), complaint);
    let short = ingest(text, &vec![first()], "c", Language::Rust);
    assert_eq!(short.unwrap_err(), complaint);
    let all = ingest(text, &vec![first(), first(), first(), first()], "c", Language::Rust);
    assert!(all.unwrap().nodes.is_empty());
}

#[test]
fn lines_are_numbered_and_blank_ones_skipped() {
    let lines = record_lines("{}\n\n  {\"a\":1} \r\n");
    assert_eq!(lines.len(), 2);
    assert_eq!((lines[0].number, lines[0].text.as_str()), (0, "{}"));
    assert_eq!((lines[1].number, lines[1].text.as_str()), (2, "{\"a\":1}"));
    assert_eq!(parse_error(&lines[1]), "LSIF parse error at line 2: {\"a\":1}");
}

#[test]
fn identifiers_are_texts_or_numbers() {
    assert_eq!(id_to_string(&serde_json::Value::from("v1")), "v1");
    assert_eq!(id_to_string(&serde_json::Value::from(12)), "12");
}

fn record(id: &str, record_type: &str, label: &str) -> LsifRecord {
    LsifRecord {
        id: id.to_string(),
        record_type: record_type.to_string(),
        label: Some(label.to_string()),
        uri: None,
        out_v: None,
        in_v: None,
        in_vs: vec![],
        start: None,
        document: None,
        property: None,
    }
}

fn vertex_document(id: &str, uri: &str) -> LsifRecord {
    LsifRecord {
        uri: Some(uri.to_string()),
        ..record(id, "vertex", "document")
    }
}

fn vertex_range(id: &str, line: u32) -> LsifRecord {
    LsifRecord {
        start: Some(Position { line, character: 0 }),
        ..record(id, "vertex", "range")
    }
}

fn edge(label: &str, out_v: &str, in_vs: &[&str]) -> LsifRecord {
    LsifRecord {
        out_v: Some(out_v.to_string()),
        in_vs: in_vs.iter().map(|s| s.to_string()).collect(),
        ..record("e", "edge", label)
    }
}

fn to_one(label: &str, out_v: &str, in_v: &str) -> LsifRecord {
    LsifRecord {
        out_v: Some(out_v.to_string()),
        in_v: Some(in_v.to_string()),
        ..record("e", "edge", label)
    }
}

fn item(out_v: &str, in_vs: &[&str], property: Option<&str>) -> LsifRecord {
    LsifRecord {
        property: property.map(str::to_string),
        ..edge("item", out_v, in_vs)
    }
}

fn records(definition_item: LsifRecord) -> Vec<LsifRecord> {
    vec![
        vertex_document("d", "file:///src/a.ts"),
        vertex_range("r1", 0),
        vertex_range("r2", 4),
        vertex_range("r3", 6),
        edge("contains", "d", &["r1", "r2", "r3"]),
        record("s", "vertex", "resultSet"),
        to_one("next", "r1", "s"),
        to_one("next", "r2", "s"),
        record("def", "vertex", "definitionResult"),
        to_one("textDocument/definition", "s", "def"),
        definition_item,
    ]
}

fn graph(records: Vec<LsifRecord>) -> InvokeResponse {
    let text = "{}\n".repeat(records.len());
    let parsed = records.into_iter().map(Some).collect();
    ingest(&text, &parsed, "c", Language::TypeScript).unwrap()
}

#[test]
fn ranges_with_a_definition_are_nodes() {
    let r = graph(records(item("def", &["r1", "r2", "r3"], Some("definitions"))));
    assert_eq!(r.nodes.len(), 2);
    assert!(r.nodes.iter().all(|n| n.language == "typescript" && n.path == "/src/a.ts"));
    assert_eq!((r.nodes[0].line, r.nodes[1].line), (Some(1), Some(5)));
    assert_eq!(r.nodes[1].signature, "lsif:def:/src/a.ts:4:0");
    assert_eq!(
        r.nodes[1].id,
        travsr_core::VName::new("c", "", "/src/a.ts", "typescript", "lsif:def:/src/a.ts:4:0").id().0
    );
    assert!(r.edges.is_empty());

    let r = graph(records(item("other", &["r2"], Some("definitions"))));
    assert_eq!(r.nodes.len(), 1);
    assert_eq!(r.nodes[0].line, Some(5));

    let r = graph(records(item("def", &["r1"], None)));
    assert!(r.nodes.is_empty());
}

#[test]
fn references_that_share_a_result_set_are_no_definitions() {
    let r = graph(vec![
        vertex_document("1", "file:///r/a.rs"),
        LsifRecord {
            start: Some(Position { line: 0, character: 3 }),
            ..vertex_range("2", 0)
        },
        LsifRecord {
            start: Some(Position { line: 5, character: 4 }),
            ..vertex_range("3", 5)
        },
        edge("contains", "1", &["2", "3"]),
        to_one("next", "2", "4"),
        to_one("next", "3", "4"),
        to_one("textDocument/definition", "4", "5"),
        item("5", &["2"], Some("definitions")),
    ]);
    assert_eq!(r.nodes.len(), 1);
    assert_eq!(r.nodes[0].path, "/r/a.rs");
    assert_eq!(r.nodes[0].signature, "lsif:def:/r/a.rs:0:3");
    assert_eq!(r.nodes[0].kind, "definition");
    assert_eq!(r.nodes[0].line, Some(1));
    assert!(r.edges.is_empty());
}

#[test]
fn addresses_are_shortened_to_paths() {
    assert_eq!(uri_to_vname_path("file:///src/a.ts"), "/src/a.ts");
    assert_eq!(uri_to_vname_path("src/a.ts"), "src/a.ts");
}
