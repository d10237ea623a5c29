use protobuf::{Enum, Message};
use scip::types::symbol_information::Kind;
use travsr_lang::graph::{EdgeKind, Language};
use travsr_lang::scip_index::{
    decode_index, decode_typed_range, parse_range_submessage, scip_enclosing_range, scip_range,
    ScipDocument, ScipError, ScipIndex, ScipOccurrence, UnknownValue,
};
use travsr_lang::scip_reader::{
    document_text, ingest, ingest_index, innermost_enclosing_def, is_header_path,
    is_parameter_descriptor, kind_from_scip_kind, kind_from_symbol_string, leading_keyword_sig,
    Definition, DocumentText, MAX_REF_EDGES_PER_DOC,
};

fn decoded(index: scip::types::Index) -> ScipIndex {
    let bytes = index.write_to_bytes().expect("serialize scip index");
    match decode_index(&bytes).expect("parse scip index") {
        Some(index) => index,
        None => ScipIndex {
            project_root: String::new(),
            documents: vec![],
        },
    }
}

fn occurrence(occ: scip::types::Occurrence) -> ScipOccurrence {
    let index = decoded(scip::types::Index {
        documents: vec![scip::types::Document {
            occurrences: vec![occ],
            ..Default::default()
        }],
        ..Default::default()
    });
    index
        .documents
        .into_iter()
        .next()
        .and_then(|d| d.occurrences.into_iter().next())
        .expect("one occurrence")
}

#[test]
fn parameter_descriptor_detection() {
    assert!(is_parameter_descriptor(
        "scip-dotnet nuget . . Demo/Greeter#Greet().(name)"
    ));
    assert!(!is_parameter_descriptor(
        "scip-dotnet nuget . . Demo/Greeter#Greet()."
    ));
    assert!(!is_parameter_descriptor(
        "scip-dotnet nuget . . Demo/Greeter#"
    ));
    assert!(!is_parameter_descriptor("scip-dotnet nuget . . Demo/"));
}

#[test]
fn empty_index_returns_empty_response() {
    let index = scip::types::Index::default();
    let resp = ingest_index(&decoded(index), "test", Language::Go);
    assert!(resp.nodes.is_empty());
    assert!(resp.edges.is_empty());
}

fn k(kind: Kind) -> &'static str {
    kind_from_scip_kind(kind.value())
}

#[test]
fn kind_maps_class_variants() {
    assert_eq!(k(Kind::Class), "class");
    assert_eq!(k(Kind::Interface), "class");
    assert_eq!(k(Kind::Trait), "class");
    assert_eq!(k(Kind::Enum), "class");
    assert_eq!(k(Kind::Struct), "class");
}

#[test]
fn kind_maps_function_variants() {
    assert_eq!(k(Kind::Function), "function");
    assert_eq!(k(Kind::Method), "function");
    assert_eq!(k(Kind::StaticMethod), "function");
}

#[test]
fn kind_maps_variable_and_field() {
    assert_eq!(k(Kind::Variable), "variable");
    assert_eq!(k(Kind::Constant), "variable");
    assert_eq!(k(Kind::Field), "field");
}

#[test]
fn kind_from_symbol_string_infers_suffix() {
    assert_eq!(
        kind_from_symbol_string("npm . foo 1.0.0 SomeClass#"),
        "class"
    );
    assert_eq!(kind_from_symbol_string("go mod SomePkg/"), "module");
    assert_eq!(
        kind_from_symbol_string("go mod SomePkg/method."),
        "function"
    );
    assert_eq!(
        kind_from_symbol_string("go mod SomePkg/unknown"),
        "definition"
    );
}

#[test]
fn unspecified_kind_falls_back_to_the_suffix() {
    let symbol = "go mod p Foo#";
    let index = scip::types::Index {
        documents: vec![scip::types::Document {
            relative_path: "a.go".into(),
            occurrences: vec![scip::types::Occurrence {
                symbol: symbol.into(),
                symbol_roles: 1,
                range: vec![0, 0, 3],
                ..Default::default()
            }],
            symbols: vec![scip::types::SymbolInformation {
                symbol: symbol.into(),
                kind: scip::types::symbol_information::Kind::UnspecifiedKind.into(),
                ..Default::default()
            }],
            ..Default::default()
        }],
        ..Default::default()
    };
    let r = ingest_index(&decoded(index), "c", Language::Go);
    assert_eq!(r.nodes.len(), 1);
    assert_eq!(r.nodes[0].kind, "class");
}

#[test]
fn definition_node_extracted_from_index() {
    let sym: String = "go mod example.com 1.0.0 SomeFunc.".into();
    let occ = scip::types::Occurrence {
        symbol: sym.clone(),
        symbol_roles: 1, // Definition
        range: vec![5, 0, 5, 10],
        ..Default::default()
    };
    let sym_info = scip::types::SymbolInformation {
        symbol: sym,
        kind: scip::types::symbol_information::Kind::Function.into(),
        ..Default::default()
    };
    let doc = scip::types::Document {
        relative_path: "main.go".into(),
        occurrences: vec![occ],
        symbols: vec![sym_info],
        ..Default::default()
    };
    let index = scip::types::Index {
        documents: vec![doc],
        ..Default::default()
    };

    let resp = ingest_index(&decoded(index), "github.com/example/repo", Language::Go);
    assert_eq!(resp.nodes.len(), 1);
    assert_eq!(resp.nodes[0].kind, "function");
    assert_eq!(resp.nodes[0].line, Some(6)); // 0-indexed line 5 → 1-indexed line 6
}

#[test]
fn reference_occurrence_produces_edge() {
    let def_sym = "go mod example.com 1.0.0 MyFunc.".to_string();

    let def_occ = scip::types::Occurrence {
        symbol: def_sym.clone(),
        symbol_roles: 1,
        range: vec![0, 0],
        ..Default::default()
    };
    let doc_a = scip::types::Document {
        relative_path: "pkg/foo.go".into(),
        occurrences: vec![def_occ],
        ..Default::default()
    };
    let ref_occ = scip::types::Occurrence {
        symbol: def_sym.clone(),
        symbol_roles: 0, // Reference
        range: vec![3, 4],
        ..Default::default()
    };
    let doc_b = scip::types::Document {
        relative_path: "cmd/main.go".into(),
        occurrences: vec![ref_occ],
        ..Default::default()
    };
    let index = scip::types::Index {
        documents: vec![doc_a, doc_b],
        ..Default::default()
    };

    let resp = ingest_index(&decoded(index), "github.com/example/repo", Language::Go);
    assert_eq!(resp.nodes.len(), 1, "one definition node");
    assert_eq!(resp.refs.len(), 1, "one ScipRef from doc_b to def");
    assert_eq!(resp.refs[0].caller_path, "cmd/main.go");
    assert_eq!(resp.refs[0].caller_line, 4); // 0-indexed line 3 → 1-indexed 4
    assert_eq!(resp.refs[0].callee_id, resp.nodes[0].id);
}

fn typed_range_submessage(elems: &[i32]) -> Vec<u8> {
    let mut out = Vec::new();
    for (idx, &v) in elems.iter().enumerate() {
        if v == 0 {
            continue; // proto3 does not serialize zero-valued scalars
        }
        out.push((((idx + 1) as u32) << 3) as u8); // tag: field number, wire type 0 (varint)
        let mut val = v as u64;
        loop {
            let mut byte = (val & 0x7f) as u8;
            val >>= 7;
            if val != 0 {
                byte |= 0x80;
            }
            out.push(byte);
            if val == 0 {
                break;
            }
        }
    }
    out
}

fn java_occ(sym: &str, roles: i32, field: u32, elems: &[i32]) -> scip::types::Occurrence {
    let mut occ = scip::types::Occurrence {
        symbol: sym.to_string(),
        symbol_roles: roles,
        ..Default::default()
    };
    occ.special_fields
        .mut_unknown_fields()
        .add_length_delimited(field, typed_range_submessage(elems));
    occ
}

#[test]
fn scip_java_typed_range_ref_produces_edge() {
    let sym = "scip-java maven m 1.0.0 com/example/Greeter#greet().";
    let def = java_occ(sym, 1, 8, &[3, 4, 9]);
    let r = java_occ(sym, 0, 8, &[5, 8, 13]);
    let index = scip::types::Index {
        documents: vec![
            scip::types::Document {
                relative_path: "Greeter.java".into(),
                occurrences: vec![def],
                ..Default::default()
            },
            scip::types::Document {
                relative_path: "App.java".into(),
                occurrences: vec![r],
                ..Default::default()
            },
        ],
        ..Default::default()
    };

    let resp = ingest_index(&decoded(index), "m", Language::Java);
    assert_eq!(resp.nodes.len(), 1, "one definition node from typed range");
    assert_eq!(
        resp.nodes[0].line,
        Some(4),
        "def line recovered from field 8"
    );
    assert_eq!(
        resp.refs.len(),
        1,
        "typed-range ref must not be dropped (#724)"
    );
    assert_eq!(resp.refs[0].caller_path, "App.java");
    assert_eq!(resp.refs[0].caller_line, 6); // 0-indexed 5 → 1-indexed 6
    assert_eq!(resp.refs[0].callee_id, resp.nodes[0].id);
}

#[test]
fn scip_java_ref_on_line_zero_survives_zero_elision() {
    let sym = "scip-java maven m 1.0.0 com/example/Greeter#greet().";
    let def = java_occ(sym, 1, 8, &[3, 4, 9]);
    let r = java_occ(sym, 0, 8, &[0, 8, 13]);
    let index = scip::types::Index {
        documents: vec![
            scip::types::Document {
                relative_path: "Greeter.java".into(),
                occurrences: vec![def],
                ..Default::default()
            },
            scip::types::Document {
                relative_path: "App.java".into(),
                occurrences: vec![r],
                ..Default::default()
            },
        ],
        ..Default::default()
    };

    let resp = ingest_index(&decoded(index), "m", Language::Java);
    assert_eq!(
        resp.refs.len(),
        1,
        "ref on line 0 must not be dropped (#724a)"
    );
    assert_eq!(resp.refs[0].caller_line, 1); // 0-indexed 0 → 1-indexed 1
}

#[test]
fn scip_java_multi_line_range_ref_produces_edge() {
    let sym = "scip-java maven m 1.0.0 com/example/Greeter#greet().";
    let def = java_occ(sym, 1, 8, &[3, 4, 9]);
    let r = java_occ(sym, 0, 9, &[5, 8, 6, 2]);
    let index = scip::types::Index {
        documents: vec![
            scip::types::Document {
                relative_path: "Greeter.java".into(),
                occurrences: vec![def],
                ..Default::default()
            },
            scip::types::Document {
                relative_path: "App.java".into(),
                occurrences: vec![r],
                ..Default::default()
            },
        ],
        ..Default::default()
    };

    let resp = ingest_index(&decoded(index), "m", Language::Java);
    assert_eq!(
        resp.refs.len(),
        1,
        "multi_line_range ref must not be dropped (#724b)"
    );
    assert_eq!(resp.refs[0].caller_line, 6); // start_line 5 → 1-indexed 6
}

#[test]
fn typed_range_helpers_decode_all_four_field_numbers() {
    let mk = |field: u32, elems: &[i32]| occurrence(java_occ("s", 0, field, elems));
    assert_eq!(scip_range(&mk(8, &[5, 8, 13])), vec![5, 8, 13]);
    assert_eq!(scip_range(&mk(9, &[5, 8, 6, 2])), vec![5, 8, 6, 2]);
    assert_eq!(scip_enclosing_range(&mk(10, &[5, 8, 20])), vec![5, 8, 20]);
    assert_eq!(
        scip_enclosing_range(&mk(11, &[5, 8, 9, 2])),
        vec![5, 8, 9, 2]
    );
    assert_eq!(scip_range(&mk(8, &[0, 0, 9])), vec![0, 0, 9]);
    assert_eq!(scip_range(&mk(9, &[0, 0, 0, 4])), vec![0, 0, 0, 4]);
    let packed = occurrence(scip::types::Occurrence {
        range: vec![1, 2, 3],
        ..Default::default()
    });
    assert_eq!(scip_range(&packed), vec![1, 2, 3]);
}

#[test]
fn objc_ref_without_def_becomes_unresolved_call() {
    let caller_sym = "objc . corp 0.0.0 Bridge#run().".to_string();
    let bridged_sym = "objc . corp 0.0.0 ClassC#registerEnvironments().".to_string();

    let def_occ = scip::types::Occurrence {
        symbol: caller_sym.clone(),
        symbol_roles: 1,
        range: vec![2, 0, 5],
        enclosing_range: vec![2, 0, 8, 1],
        ..Default::default()
    };
    let ref_occ = scip::types::Occurrence {
        symbol: bridged_sym,
        symbol_roles: 0,
        range: vec![4, 4],
        ..Default::default()
    };
    let doc = scip::types::Document {
        relative_path: "Bridge.m".into(),
        occurrences: vec![def_occ, ref_occ],
        ..Default::default()
    };
    let index = scip::types::Index {
        documents: vec![doc],
        ..Default::default()
    };

    let resp = ingest_index(&decoded(index), "corp", Language::ObjectiveC);
    assert!(resp.refs.is_empty(), "no in-index target, no ScipRef");
    assert_eq!(resp.unresolved_calls.len(), 1);
    let uc = &resp.unresolved_calls[0];
    assert_eq!(uc.callee_sig, "fn:registerEnvironments");
    assert_eq!(uc.caller_line, 5); // 0-indexed 4 → 1-indexed 5
    assert_eq!(uc.src, resp.nodes[0].id, "attributed to enclosing method");
    assert!(uc.hint_crate.is_none());
}

#[test]
fn objc_ref_without_enclosing_def_is_skipped() {
    let ref_occ = scip::types::Occurrence {
        symbol: "objc . corp 0.0.0 ClassC#registerEnvironments().".to_string(),
        symbol_roles: 0,
        range: vec![0, 0],
        ..Default::default()
    };
    let doc = scip::types::Document {
        relative_path: "Bridge.m".into(),
        occurrences: vec![ref_occ],
        ..Default::default()
    };
    let index = scip::types::Index {
        documents: vec![doc],
        ..Default::default()
    };
    let resp = ingest_index(&decoded(index), "corp", Language::ObjectiveC);
    assert!(resp.unresolved_calls.is_empty());
}

#[test]
fn non_method_ref_without_def_is_not_unresolved() {
    let def_occ = scip::types::Occurrence {
        symbol: "objc . corp 0.0.0 Bridge#run().".to_string(),
        symbol_roles: 1,
        range: vec![0, 0, 3],
        enclosing_range: vec![0, 0, 5, 1],
        ..Default::default()
    };
    let ref_occ = scip::types::Occurrence {
        symbol: "objc . corp 0.0.0 ClassC#".to_string(),
        symbol_roles: 0,
        range: vec![2, 4],
        ..Default::default()
    };
    let doc = scip::types::Document {
        relative_path: "Bridge.m".into(),
        occurrences: vec![def_occ, ref_occ],
        ..Default::default()
    };
    let index = scip::types::Index {
        documents: vec![doc],
        ..Default::default()
    };
    let resp = ingest_index(&decoded(index), "corp", Language::ObjectiveC);
    assert!(resp.unresolved_calls.is_empty());
}

#[test]
fn go_ref_without_def_stays_dropped() {
    let def_occ = scip::types::Occurrence {
        symbol: "go mod example.com 1.0.0 Caller().".to_string(),
        symbol_roles: 1,
        range: vec![0, 0, 6],
        enclosing_range: vec![0, 0, 9, 1],
        ..Default::default()
    };
    let ref_occ = scip::types::Occurrence {
        symbol: "go mod fmt 1.0.0 Println().".to_string(),
        symbol_roles: 0,
        range: vec![3, 1],
        ..Default::default()
    };
    let doc = scip::types::Document {
        relative_path: "main.go".into(),
        occurrences: vec![def_occ, ref_occ],
        ..Default::default()
    };
    let index = scip::types::Index {
        documents: vec![doc],
        ..Default::default()
    };
    let resp = ingest_index(&decoded(index), "example.com", Language::Go);
    assert!(resp.unresolved_calls.is_empty());
}

#[test]
fn leading_keyword_sig_forms() {
    assert_eq!(
        leading_keyword_sig("objc . c 0.0.0 ClassC#registerEnvironments()."),
        Some("fn:registerEnvironments".into())
    );
    assert_eq!(
        leading_keyword_sig("objc . c 0.0.0 Foo#setWidth:height:()."),
        Some("fn:setWidth".into())
    );
    assert_eq!(leading_keyword_sig("objc . c 0.0.0 ClassC#"), None);
    assert_eq!(leading_keyword_sig("objc . c 0.0.0 ClassC#prop."), None);
    assert_eq!(leading_keyword_sig("objc . c 0.0.0 Proto/"), None);
}

#[test]
fn innermost_enclosing_def_picks_smaller_nested_span() {
    let class_id: u64 = 1;
    let method_id: u64 = 2;
    let span = |line: u32, end_line: u32, id: u64| Definition {
        symbol: String::new(),
        path: "a.m".to_string(),
        language: "objectivec".to_string(),
        kind: "function".to_string(),
        line,
        end_line,
        id,
        header: false,
    };
    let spans = vec![span(1, 20, class_id), span(5, 10, method_id)];
    assert_eq!(innermost_enclosing_def(&spans, "a.m", 7), Some(method_id));
    assert_eq!(innermost_enclosing_def(&spans, "a.m", 15), Some(class_id));
    assert_eq!(innermost_enclosing_def(&spans, "a.m", 25), None);
    assert_eq!(innermost_enclosing_def(&spans, "b.m", 7), None);
    assert_eq!(innermost_enclosing_def(&vec![], "a.m", 7), None);
}

#[test]
fn ref_scip_ref_callee_matches_def_node() {
    let corpus = "local/java";
    let path = "src/main/java/com/example/Foo.java";
    let def_sym = "com.example Foo#doWork().".to_string();

    let def_occ = scip::types::Occurrence {
        symbol: def_sym.clone(),
        symbol_roles: 1,
        range: vec![0, 0],
        ..Default::default()
    };
    let doc_def = scip::types::Document {
        relative_path: "src/main/java/com/example/Bar.java".into(),
        occurrences: vec![def_occ],
        ..Default::default()
    };
    let ref_occ = scip::types::Occurrence {
        symbol: def_sym.clone(),
        symbol_roles: 0,
        range: vec![2, 4],
        ..Default::default()
    };
    let doc_ref = scip::types::Document {
        relative_path: path.into(),
        occurrences: vec![ref_occ],
        ..Default::default()
    };
    let index = scip::types::Index {
        documents: vec![doc_def, doc_ref],
        ..Default::default()
    };

    let resp = ingest_index(&decoded(index), corpus, Language::Java);
    assert_eq!(resp.refs.len(), 1, "one ScipRef");
    assert_eq!(resp.refs[0].caller_path, path);
    assert_eq!(resp.refs[0].caller_line, 3); // 0-indexed line 2 → 1-indexed 3
    assert_eq!(resp.refs[0].callee_id, resp.nodes[0].id);
}

#[test]
fn document_text_prefers_inlined_text_then_the_project_root() {
    let doc = |text: &str| ScipDocument {
        relative_path: "a.rb".to_string(),
        language: String::new(),
        text: text.to_string(),
        occurrences: vec![],
        symbols: vec![],
    };
    assert!(matches!(
        document_text(&doc("inlined"), "file:///nowhere"),
        DocumentText::Inlined
    ));
    assert!(matches!(
        document_text(&doc(""), "file:///some/where"),
        DocumentText::Under(root) if root == "/some/where"
    ));
    assert!(matches!(
        document_text(&doc(""), ""),
        DocumentText::Unavailable
    ));
}

fn scip_occ(symbol: &str, roles: i32, range: &[i32]) -> ScipOccurrence {
    ScipOccurrence {
        symbol: symbol.to_string(),
        symbol_roles: roles,
        range: range.to_vec(),
        enclosing_range: vec![],
        unknown: vec![],
    }
}

fn scip_doc(path: &str, text: &str, occurrences: Vec<ScipOccurrence>) -> ScipDocument {
    ScipDocument {
        relative_path: path.to_string(),
        language: String::new(),
        text: text.to_string(),
        occurrences,
        symbols: vec![],
    }
}

fn one_root(documents: Vec<ScipDocument>) -> ScipIndex {
    ScipIndex {
        project_root: String::new(),
        documents,
    }
}

#[test]
fn all_that_an_index_holds_is_decoded() {
    let mut index = scip::types::Index::default();
    index.metadata = protobuf::MessageField::some(scip::types::Metadata {
        project_root: "file:///p".to_string(),
        ..Default::default()
    });
    index.documents.push(scip::types::Document {
        relative_path: "a.go".to_string(),
        text: "package a".to_string(),
        occurrences: vec![java_occ("s1", 1, 8, &[1, 2, 3])],
        symbols: vec![scip::types::SymbolInformation {
            symbol: "s1".to_string(),
            kind: Kind::Class.into(),
            relationships: vec![scip::types::Relationship {
                symbol: "s2".to_string(),
                is_implementation: true,
                ..Default::default()
            }],
            ..Default::default()
        }],
        ..Default::default()
    });
    let got = decoded(index);
    assert_eq!(got.project_root, "file:///p");
    let d = &got.documents[0];
    assert_eq!((d.relative_path.as_str(), d.text.as_str()), ("a.go", "package a"));
    let o = &d.occurrences[0];
    assert_eq!((o.symbol.as_str(), o.symbol_roles), ("s1", 1));
    assert!(o.range.is_empty());
    assert!(matches!(&o.unknown[..], [(8, UnknownValue::LengthDelimited(b))] if *b == [8, 1, 16, 2, 24, 3]));
    assert_eq!(d.symbols[0].symbol, "s1");
    assert_eq!(d.symbols[0].kind, Kind::Class.value());
    assert_eq!(d.symbols[0].relationships[0].symbol, "s2");
    assert!(d.symbols[0].relationships[0].is_implementation);
}

#[test]
fn an_empty_file_is_no_index_and_bad_bytes_are_an_error() {
    assert!(matches!(decode_index(&[]), Ok(None)));
    assert!(matches!(decode_index(&[0xff, 0xff]), Err(ScipError::Malformed)));
    let r = ingest(None, vec![], "c", Language::Go);
    assert!(r.nodes.is_empty() && r.refs.is_empty());
}

#[test]
fn every_kind_of_the_schema_is_mapped() {
    let groups: Vec<(&str, Vec<Kind>)> = vec![
        (
            "class",
            vec![
                Kind::Class,
                Kind::Interface,
                Kind::Enum,
                Kind::Struct,
                Kind::Trait,
                Kind::SingletonClass,
                Kind::TypeClass,
                Kind::Mixin,
                Kind::Extension,
            ],
        ),
        (
            "function",
            vec![
                Kind::Function,
                Kind::Method,
                Kind::StaticMethod,
                Kind::AbstractMethod,
                Kind::PureVirtualMethod,
                Kind::TraitMethod,
                Kind::MethodSpecification,
                Kind::MethodAlias,
                Kind::Accessor,
                Kind::Getter,
                Kind::Setter,
                Kind::Subscript,
                Kind::Operator,
                Kind::SingletonMethod,
                Kind::TypeClassMethod,
            ],
        ),
        (
            "constructor",
            vec![
                Kind::Constructor,
            ],
        ),
        (
            "field",
            vec![
                Kind::Field,
                Kind::StaticField,
                Kind::StaticDataMember,
                Kind::StaticProperty,
                Kind::Attribute,
            ],
        ),
        (
            "variable",
            vec![
                Kind::Variable,
                Kind::StaticVariable,
                Kind::Constant,
                Kind::EnumMember,
                Kind::Parameter,
            ],
        ),
        (
            "module",
            vec![
                Kind::Module,
                Kind::Namespace,
                Kind::Package,
                Kind::PackageObject,
                Kind::File,
            ],
        ),
        (
            "type",
            vec![
                Kind::Type,
                Kind::TypeAlias,
                Kind::Union,
                Kind::TypeParameter,
                Kind::AssociatedType,
                Kind::TypeFamily,
            ],
        ),
        (
            "macro",
            vec![
                Kind::Macro,
            ],
        ),
    ];
    for kind in Kind::VALUES {
        let want = groups
            .iter()
            .find(|(_, kinds)| kinds.contains(kind))
            .map_or("definition", |(name, _)| *name);
        assert_eq!(k(*kind), want, "{kind:?}");
    }
    assert_eq!(kind_from_scip_kind(-1), "definition");
    assert_eq!(kind_from_scip_kind(1000), "definition");
}

#[test]
fn a_range_has_the_arity_of_its_field() {
    assert_eq!(parse_range_submessage(&[8, 3], 3), vec![3, 0, 0]);
    assert_eq!(parse_range_submessage(&[8, 0xac, 2, 32, 7], 4), vec![300, 0, 0, 7]);
    assert_eq!(parse_range_submessage(&[], 4), vec![0, 0, 0, 0]);
    assert_eq!(parse_range_submessage(&[32, 9], 3), vec![0, 0, 0]);
    let mut o = scip_occ("s", 0, &[]);
    assert!(decode_typed_range(&o, 8, 9).is_empty());
    o.unknown.push((9, UnknownValue::LengthDelimited(vec![24, 7])));
    assert_eq!(decode_typed_range(&o, 8, 9), vec![0, 0, 7, 0]);
}

#[test]
fn a_definition_in_a_source_comes_before_one_in_a_header() {
    let sym = "c . p 1 f().";
    let index = one_root(vec![
        scip_doc("f.h", "", vec![scip_occ(sym, 1, &[1, 0, 3])]),
        scip_doc("f.c", "", vec![scip_occ(sym, 1, &[7, 0, 3])]),
        scip_doc("g.c", "", vec![scip_occ(sym, 0, &[2, 0, 3])]),
    ]);
    let r = ingest_index(&index, "c", Language::C);
    assert_eq!(r.refs.len(), 1);
    let target = r.nodes.iter().find(|n| n.id == r.refs[0].callee_id).expect("a node");
    assert_eq!(target.path, "f.c");
    assert!(is_header_path("a/f.hpp") && is_header_path("f.h") && !is_header_path("f.c"));
}

#[test]
fn a_document_gives_a_bounded_number_of_references() {
    let sym = "go mod m 1 f().";
    let mut occs = vec![scip_occ(sym, 1, &[0, 0, 1])];
    for i in 0..(MAX_REF_EDGES_PER_DOC as i32 + 10) {
        occs.push(scip_occ(sym, 0, &[i + 1, 0, 1]));
    }
    let r = ingest_index(&one_root(vec![scip_doc("a.go", "", occs)]), "c", Language::Go);
    assert_eq!(r.refs.len(), MAX_REF_EDGES_PER_DOC);
}

#[test]
fn noise_never_becomes_a_node_or_a_reference() {
    let index = one_root(vec![scip_doc(
        "a.go",
        "",
        vec![
            scip_occ("local 4", 1, &[0, 0, 1]),
            scip_occ("local 4", 0, &[1, 0, 1]),
            scip_occ("go m f().(x)", 1, &[2, 0, 1]),
            scip_occ("go m f().(x)", 0, &[3, 0, 1]),
            scip_occ("", 1, &[4, 0, 1]),
        ],
    )]);
    let r = ingest_index(&index, "c", Language::Go);
    assert!(r.nodes.is_empty() && r.refs.is_empty() && r.edges.is_empty());
}

#[test]
fn a_source_from_disk_gives_columns() {
    let sym = "go mod m 1 f().";
    let index = |text: &str| {
        one_root(vec![
            scip_doc("a.go", "", vec![scip_occ(sym, 1, &[0, 0, 1])]),
            scip_doc("b.go", text, vec![scip_occ(sym, 0, &[1, 4, 5])]),
        ])
    };
    let source = Some("x\n    f()\n".to_string());
    let r = ingest(Some(index("")), vec![None, source], "c", Language::Go);
    assert_eq!(r.refs[0].caller_col, Some(4));
    let r = ingest(Some(index("x\n é  f()")), vec![None, None], "c", Language::Go);
    assert_eq!(r.refs[0].caller_col, None);
    let r = ingest(Some(index("")), vec![], "c", Language::Go);
    assert_eq!(r.refs[0].caller_col, None);
}

#[test]
fn an_implementation_is_an_edge() {
    let mut doc = scip_doc(
        "a.go",
        "",
        vec![
            scip_occ("go m A#", 1, &[0, 0, 1]),
            scip_occ("go m B#", 1, &[5, 0, 1]),
        ],
    );
    doc.symbols.push(travsr_lang::scip_index::ScipSymbol {
        symbol: "go m A#".to_string(),
        kind: 0,
        relationships: vec![travsr_lang::scip_index::ScipRelationship {
            symbol: "go m B#".to_string(),
            is_reference: false,
            is_implementation: true,
        }],
    });
    let r = ingest_index(&one_root(vec![doc]), "c", Language::Go);
    assert_eq!(r.edges.len(), 1);
    assert_eq!(r.edges[0].kind, EdgeKind::IsImplementation);
    assert_eq!(r.edges[0].src, r.nodes[0].id);
    assert_eq!(r.edges[0].dst, r.nodes[1].id);
}

#[test]
fn identifiers_are_those_of_the_graph() {
    let sym = "go mod m 1 f().";
    let index = one_root(vec![scip_doc("a.go", "", vec![scip_occ(sym, 1, &[0, 0, 1])])]);
    let r = ingest_index(&index, "corp", Language::Go);
    let signature = format!("scip:a.go:{sym}");
    let want = travsr_core::VName::new("corp", "", "a.go", "go", &signature).id();
    assert_eq!(r.nodes[0].id, want.0);
    assert_eq!(r.nodes[0].language, "go");
    assert_eq!(r.nodes[0].signature, signature);
}

#[test]
fn both_c_passes_name_a_file_alike() {
    let index = |path: &str| {
        one_root(vec![scip_doc(path, "", vec![scip_occ("cxx . p f().", 1, &[0, 0, 1])])])
    };
    for (path, want) in [("a.cpp", "cpp"), ("dir.x/b.c", "c"), ("h.hpp", "cpp")] {
        let c = ingest_index(&index(path), "p", Language::C);
        let cpp = ingest_index(&index(path), "p", Language::Cpp);
        assert_eq!(c.nodes[0].language, want, "{path}");
        assert_eq!(c.nodes[0].id, cpp.nodes[0].id, "{path}");
    }
    let other = ingest_index(&index("a.inc"), "p", Language::Cpp);
    assert_eq!(other.nodes[0].language, "cpp");
    let go = ingest_index(&index("a.cpp"), "p", Language::Go);
    assert_eq!(go.nodes[0].language, "go");
}

#[test]
fn uses_in_c_headers_are_declarations() {
    let sym = "cxx . p f().";
    let index = one_root(vec![
        scip_doc("f.c", "", vec![scip_occ(sym, 1, &[1, 0, 3])]),
        scip_doc("f.h", "", vec![scip_occ(sym, 0, &[2, 0, 3])]),
    ]);
    assert!(ingest_index(&index, "p", Language::C).refs.is_empty());
    assert_eq!(ingest_index(&index, "p", Language::Go).refs.len(), 1);
}
