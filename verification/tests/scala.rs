use travsr_lang::columns::SourceCache;
use travsr_lang::graph::EdgeKind;
use travsr_lang::scala::{
    build_edges, is_container_kind, is_local_symbol, is_noise_symbol, is_stdlib_symbol, kind_str,
    KIND_CLASS, KIND_FIELD, KIND_METHOD, KIND_OBJECT,
};
use travsr_lang::scip_reader::is_parameter_descriptor;
use travsr_lang::semanticdb::{
    parse_occurrence, parse_range_lines, parse_sym_info, parse_text_document, parse_text_documents,
    SdbOccurrence, SdbSymbol, TextDocument,
};
use travsr_lang::wire::{next_field, read_varint};
use vstd::hash_map::StringHashMap;

fn sdb_id(symbol: &str, uri: &str, corpus: &str) -> u64 {
    travsr_core::VName::new(corpus, "", uri, "scala", format!("sdb:{symbol}")).id().0
}

fn sym(symbol: &str, kind: u32) -> SdbSymbol {
    SdbSymbol {
        symbol: symbol.to_string(),
        kind,
    }
}

fn occ(symbol: &str, line: u32, role: u32) -> SdbOccurrence {
    SdbOccurrence {
        start_char: 0,
        start_line: line,
        end_line: line,
        symbol: symbol.to_string(),
        role,
        has_range: true,
    }
}

#[test]
fn resolved_cross_file_ref_emits_scipref_only() {
    let docs = vec![
        TextDocument {
            uri: "A.scala".to_string(),
            symbols: vec![
                sym("a/Caller#", KIND_CLASS),
                sym("a/Caller#call().", KIND_METHOD),
            ],
            occurrences: vec![
                occ("a/Caller#", 0, 2),
                occ("a/Caller#call().", 1, 2),
                occ("b/Callee#target().", 3, 1),
            ],
        },
        TextDocument {
            uri: "B.scala".to_string(),
            symbols: vec![
                sym("b/Callee#", KIND_CLASS),
                sym("b/Callee#target().", KIND_METHOD),
            ],
            occurrences: vec![occ("b/Callee#", 0, 2), occ("b/Callee#target().", 1, 2)],
        },
    ];

    let resp = build_edges(&docs, "testcorpus", &SourceCache::new());

    let callee_id = sdb_id("b/Callee#target().", "B.scala", "testcorpus");
    assert_eq!(resp.refs.len(), 1);
    assert_eq!(resp.refs[0].caller_path, "A.scala");
    assert_eq!(resp.refs[0].caller_line, 4); // 3 + 1
    assert_eq!(resp.refs[0].callee_id, callee_id);
    assert!(!resp.edges.iter().any(|e| e.kind == EdgeKind::RefCall));
}

#[test]
fn fallback_edge_leaves_from_a_placed_definition_that_is_no_noise() {
    let uri = "A.scala";
    let docs = vec![TextDocument {
        uri: uri.to_string(),
        symbols: vec![
            sym("a/C#f().", KIND_METHOD),
            sym("local1", KIND_METHOD),
            sym("a/C#g().", KIND_METHOD),
        ],
        occurrences: vec![
            occ("a/C#f().", 1, 2),
            occ("local1", 2, 2),
            occ("lib/X#run().", 3, 1),
        ],
    }];
    let r = build_edges(&docs, "c", &SourceCache::new());
    assert_eq!(r.edges.len(), 1);
    assert_eq!(r.edges[0].src, sdb_id("a/C#f().", uri, "c"));
    assert_eq!(r.edges[0].dst, sdb_id("lib/X#run().", uri, "c"));

    let docs = vec![TextDocument {
        uri: uri.to_string(),
        symbols: vec![sym("a/C#g().", KIND_METHOD)],
        occurrences: vec![
            SdbOccurrence {
                has_range: false,
                ..occ("a/C#g().", 0, 2)
            },
            occ("lib/X#run().", 3, 1),
        ],
    }];
    assert!(build_edges(&docs, "c", &SourceCache::new()).edges.is_empty());
}

#[test]
fn unresolved_ref_emits_fallback_edge_only() {
    let docs = vec![TextDocument {
        uri: "A.scala".to_string(),
        symbols: vec![
            sym("a/Caller#", KIND_CLASS),
            sym("a/Caller#call().", KIND_METHOD),
        ],
        occurrences: vec![
            occ("a/Caller#", 0, 2),
            occ("a/Caller#call().", 1, 2),
            occ("z/Unknown#gone().", 5, 1),
        ],
    }];

    let resp = build_edges(&docs, "testcorpus", &SourceCache::new());

    assert!(resp.refs.is_empty());
    let src = sdb_id("a/Caller#call().", "A.scala", "testcorpus");
    let dst = sdb_id("z/Unknown#gone().", "A.scala", "testcorpus");
    assert!(resp
        .edges
        .iter()
        .any(|e| e.src == src && e.dst == dst && e.kind == EdgeKind::RefCall));
}

#[test]
fn repo_defined_stdlib_namespace_symbol_is_kept() {
    let own = "scala/util/parsing/combinator/Parsers#phrase().";
    let external = "scala/Predef#println().";
    let mut defined: StringHashMap<bool> = StringHashMap::new();
    defined.insert(own.to_string(), true);

    assert!(
        !is_noise_symbol(own, &defined),
        "a `scala/...` symbol this repo defines is the repo's own code"
    );
    assert!(
        is_noise_symbol(external, &defined),
        "a `scala/...` symbol the repo does not define is the real stdlib"
    );
    assert!(is_noise_symbol("local0", &defined));
    assert!(is_noise_symbol("com/demo/Greeter#greet().(name)", &defined));
}

#[test]
fn noise_symbol_classification() {
    assert!(is_local_symbol("local0"));
    assert!(is_local_symbol("local42"));
    assert!(!is_local_symbol("locally")); // not a `local<digits>` symbol
    assert!(!is_local_symbol("a/Caller#call()."));
    assert!(is_parameter_descriptor("com/demo/Greeter#greet().(name)"));
    assert!(!is_parameter_descriptor("com/demo/Greeter#greet()."));
    assert!(!is_parameter_descriptor("com/demo/Greeter#"));
}

#[test]
fn parameter_and_local_symbols_are_dropped() {
    let docs = vec![TextDocument {
        uri: "Greeter.scala".to_string(),
        symbols: vec![
            sym("com/demo/Greeter#", KIND_CLASS),
            sym("com/demo/Greeter#greet().", KIND_METHOD),
            sym("com/demo/Greeter#greet().(name)", KIND_FIELD),
            sym("local0", KIND_FIELD),
        ],
        occurrences: vec![
            occ("com/demo/Greeter#", 0, 2),
            occ("com/demo/Greeter#greet().", 1, 2),
            occ("com/demo/Greeter#greet().(name)", 1, 1),
            occ("local0", 1, 1),
        ],
    }];

    let resp = build_edges(&docs, "testcorpus", &SourceCache::new());

    assert_eq!(resp.nodes.len(), 2);
    assert!(resp
        .nodes
        .iter()
        .all(|n| !n.signature.contains("(name)") && !n.signature.contains("local0")));
    assert!(resp.refs.is_empty());
    assert!(resp.edges.iter().all(|e| e.kind != EdgeKind::RefCall));
}

#[test]
fn a_reference_carries_the_column_of_its_source() {
    let mut at = occ("a/B#f().", 1, 1);
    at.start_char = 4;
    let docs = vec![TextDocument {
        uri: "A.scala".to_string(),
        symbols: vec![sym("a/B#", KIND_CLASS), sym("a/B#f().", KIND_METHOD)],
        occurrences: vec![occ("a/B#", 0, 2), occ("a/B#f().", 0, 2), at],
    }];
    let mut sources = SourceCache::new();
    sources.load("A.scala", Some("class B {\n    f()\n"));
    let resp = build_edges(&docs, "c", &sources);
    assert_eq!(resp.refs.len(), 1);
    assert_eq!(resp.refs[0].caller_col, Some(4));
    let resp = build_edges(&docs, "c", &SourceCache::new());
    assert_eq!(resp.refs[0].caller_col, None);
}

#[test]
fn kinds_and_names_are_told_apart() {
    assert_eq!(kind_str(KIND_CLASS), "class");
    assert_eq!(kind_str(KIND_METHOD), "method");
    assert_eq!(kind_str(0), "sym");
    assert!(is_container_kind(KIND_CLASS) && is_container_kind(KIND_OBJECT));
    assert!(is_container_kind(KIND_METHOD));
    assert!(is_container_kind(KIND_FIELD));
    assert!(!is_container_kind(0));
    assert!(is_stdlib_symbol("scala/Predef#"));
    assert!(is_stdlib_symbol("java/lang/String#"));
    assert!(!is_stdlib_symbol("scalaz/Functor#"));
}

#[test]
fn integers_are_read_off_the_wire() {
    assert_eq!(read_varint(&[0x96, 0x01, 7], 0), (Some(150), 2));
    assert_eq!(read_varint(&[0x80], 0), (None, 1));
    assert_eq!(read_varint(&[], 0), (None, 0));
    assert_eq!(read_varint(&[1, 2], 5), (None, 5));
    assert_eq!(read_varint(&[0xff; 10], 0).0, None);
    let mut top = vec![0xffu8; 9];
    top.push(1);
    assert_eq!(read_varint(&top, 0), (Some(u64::MAX), 10));
    assert!(next_field(&[], 0).is_none());
}

fn field(number: u8, bytes: &[u8]) -> Vec<u8> {
    let mut out = vec![(number << 3) | 2, bytes.len() as u8];
    out.extend_from_slice(bytes);
    out
}

fn document_bytes() -> Vec<u8> {
    let range = [8u8, 3, 16, 4, 24, 3, 32, 9];
    let mut occurrence = field(1, &range);
    occurrence.extend(field(2, b"a/B#f()."));
    occurrence.extend([24, 2]);
    let mut symbol = field(1, b"a/B#f().");
    symbol.extend([24, 3]);
    let mut doc = field(2, b"A.scala");
    doc.extend(field(5, &symbol));
    doc.extend(field(6, &occurrence));
    doc
}

#[test]
fn semantic_data_is_decoded() {
    assert_eq!(parse_range_lines(&[8, 3, 16, 4, 24, 5, 32, 9]), (3, 4, 5));
    let d = parse_text_document(&document_bytes());
    assert_eq!(d.uri, "A.scala");
    assert_eq!(d.symbols.len(), 1);
    assert_eq!((d.symbols[0].symbol.as_str(), d.symbols[0].kind), ("a/B#f().", 3));
    let o = &d.occurrences[0];
    assert_eq!(o.symbol, "a/B#f().");
    assert_eq!((o.start_line, o.start_char, o.end_line), (3, 4, 3));
    assert_eq!((o.role, o.has_range), (2, true));

    let mut bytes = field(1, &document_bytes());
    bytes.extend([16, 1]);
    bytes.extend(field(1, &document_bytes()));
    assert_eq!(parse_text_documents(&bytes).len(), 2);
    assert!(parse_text_documents(&[]).is_empty());
}

#[test]
fn what_is_no_text_reads_as_none() {
    let o = parse_occurrence(&field(2, &[0xff, 0xfe]));
    assert_eq!(o.symbol, "");
    assert!(!o.has_range);
    let s = parse_sym_info(&field(1, &[0xc3, 0xa9]));
    assert_eq!(s.symbol, "é");
}
