use travsr_lang::compdb::{
    discover, extract_args, glob_fallback, join_path, skips_dir, try_compile_commands, SourceTree,
    WalkedFile,
};
use travsr_lang::diag::collect;
use travsr_lang::objc_index::IndexBuilder;
use travsr_lang::objc_sends::{
    parse_send_at, scan_body_for_sends, syntactic_class_send, SendCandidate, Tok,
};
use travsr_lang::objc_visit::{
    build_index, first_objc_class_ref, make_def_occurrence, send_target, tu_has_error, Callee,
    Cursor, CursorKind, Extent, Place, TranslationUnit,
};
use travsr_lang::scip_index::{ScipIndex, ScipOccurrence, ScipSymbol};

fn occurrence(symbol: &str, roles: i32, line: i32) -> ScipOccurrence {
    ScipOccurrence {
        symbol: symbol.to_string(),
        symbol_roles: roles,
        range: vec![line, 0, 1],
        enclosing_range: vec![],
        unknown: vec![],
    }
}

#[test]
fn finish_emits_documents_in_stable_sorted_order() {
    let build = || {
        let mut b = IndexBuilder::new("test/objc");
        for i in [7, 1, 11, 3, 9, 0, 5, 2, 10, 4, 8, 6] {
            b.add_occurrence(&format!("src/File{i:02}.m"), occurrence("", 0, 0));
        }
        b.finish()
            .documents
            .iter()
            .map(|d| d.relative_path.clone())
            .collect::<Vec<_>>()
    };

    let first = build();
    assert_eq!(first, build(), "document order must not vary between runs");

    let mut sorted = first.clone();
    sorted.sort();
    assert_eq!(first, sorted, "documents must be emitted in path order");
}

#[test]
fn documents_do_not_depend_on_the_order_of_additions() {
    let build = |paths: &[&str]| {
        let mut b = IndexBuilder::new("c");
        for p in paths {
            b.add_occurrence(p, occurrence(p, 0, 3));
            b.add_symbol_info(p, symbol(p));
        }
        b.finish().documents
    };
    let one = build(&["b.m", "a.m", "b.m"]);
    let other = build(&["a.m", "b.m"]);
    assert_eq!(one.len(), 2);
    for (x, y) in one.iter().zip(&other) {
        assert_eq!(x.relative_path, y.relative_path);
        assert_eq!(x.language, "objective-c");
    }
    assert_eq!((one[0].relative_path.as_str(), one[0].occurrences.len()), ("a.m", 1));
    assert_eq!((one[1].relative_path.as_str(), one[1].occurrences.len()), ("b.m", 2));
    assert_eq!(one[1].symbols.len(), 2);
}

/// The tokens of `source`, where each stands apart from the next.
fn tokens(source: &str) -> Vec<Tok> {
    let mut out = Vec::new();
    for (n, line) in source.lines().enumerate() {
        let mut col = 1;
        for word in line.split(' ') {
            if !word.is_empty() {
                out.push(Tok {
                    identifier: word.starts_with(|c: char| c.is_alphabetic() || c == '_'),
                    spelling: word.to_string(),
                    line: n as u32 + 1,
                    col,
                });
            }
            col += word.len() as u32 + 1;
        }
    }
    out
}

#[test]
fn a_send_to_a_class_is_read_from_tokens() {
    let t = tokens("[ Policy policyWithMode : 1 flag : [ x y ] ]");
    let s = parse_send_at(&t, 0).expect("a send");
    assert_eq!((s.receiver.as_str(), s.selector.as_str()), ("Policy", "policyWithMode:flag:"));
    assert_eq!(s.selector_tok, 2);
    let s = parse_send_at(&tokens("[ Local ping ]"), 0).expect("a send");
    assert_eq!(s.selector, "ping");
    assert!(parse_send_at(&tokens("[ self ping ]"), 0).is_none());
    assert!(parse_send_at(&tokens("[ Östen ping ]"), 0).is_some());
    assert!(syntactic_class_send(&tokens("x = [ A b ]")).is_some());
}

#[test]
fn a_keyword_stands_right_before_its_colon() {
    let t = tokens("[ Foo a : flag ? bar ( x ) : y ]");
    let s = parse_send_at(&t, 0).expect("a send");
    assert_eq!((s.receiver.as_str(), s.selector.as_str()), ("Foo", "a:"));
    assert_eq!(s.selector_tok, 2);
}

#[test]
fn instance_send_to_lowercase_receiver_is_not_synthesized() {
    assert!(parse_send_at(&tokens("[ thing build ]"), 0).is_none());
    assert!(scan_body_for_sends(&tokens("{ [ thing build ] ; }"), "a.m").is_empty());
}

#[test]
fn error_tu_recovery_skips_inactive_preprocessor_regions() {
    let t = tokens("{\n[ Modern start ] ;\n# if 0\n[ Legacy start ] ;\n# endif\n}");
    let sends = scan_body_for_sends(&t, "Use.m");
    let names: Vec<&str> = sends.iter().map(|s| s.receiver.as_str()).collect();
    assert_eq!(names, ["Modern"]);
    assert_eq!((sends[0].line, sends[0].col), (2, 10));
}

fn candidate(line: u32, receiver: &str, selector: &str) -> SendCandidate {
    SendCandidate {
        rel_path: "Use.m".to_string(),
        line,
        col: 3,
        receiver: receiver.to_string(),
        selector: selector.to_string(),
    }
}

#[test]
fn error_tu_recovery_drops_sends_to_undefined_classes() {
    let mut b = IndexBuilder::new("c");
    b.add_symbol_info("Local.m", symbol("objc . c 0.0.0 Local#ping()."));
    let added = b.apply_error_tu_recovery(&vec![
        candidate(6, "Local", "ping"),
        candidate(6, "NSFileManager", "defaultManager"),
    ]);
    assert_eq!(added, 1);
    let index = b.finish();
    let refs: Vec<&str> = references(&index);
    assert_eq!(refs, ["objc . c 0.0.0 Local#ping()."]);
}

#[test]
fn recovery_does_not_double_count_a_send_that_parsed() {
    let sym = "objc . c 0.0.0 Policy#policyWithMode:().";
    let mut b = IndexBuilder::new("c");
    b.add_symbol_info("Policy.m", symbol(sym));
    b.add_occurrence("Use.m", occurrence(sym, 0, 6));
    let added = b.apply_error_tu_recovery(&vec![candidate(7, "Policy", "policyWithMode:")]);
    assert_eq!(added, 0);
    let twice = vec![
        candidate(9, "Policy", "policyWithMode:"),
        candidate(9, "Policy", "policyWithMode:"),
    ];
    assert_eq!(b.apply_error_tu_recovery(&twice), 1);
    assert_eq!(references(&b.finish()).len(), 2);
}

fn symbol(name: &str) -> ScipSymbol {
    ScipSymbol {
        symbol: name.to_string(),
        kind: 0,
        relationships: vec![],
    }
}

fn references(index: &ScipIndex) -> Vec<&str> {
    index
        .documents
        .iter()
        .flat_map(|d| d.occurrences.iter())
        .filter(|o| o.symbol_roles == 0)
        .map(|o| o.symbol.as_str())
        .collect()
}

fn cursor(kind: CursorKind, spelling: &str, line: u32, children: Vec<Cursor>) -> Cursor {
    Cursor {
        kind,
        spelling: spelling.to_string(),
        system: false,
        place: Some(Place {
            path: "/r/A.m".to_string(),
            line,
            col: 3,
        }),
        extent: Extent {
            start_line: line,
            start_col: 1,
            end_line: line + 1,
            end_col: 2,
        },
        callee: None,
        tokens: vec![],
        children,
    }
}

fn unit(cursors: Vec<Cursor>) -> Vec<Option<TranslationUnit>> {
    vec![Some(TranslationUnit {
        cursors,
        has_error: false,
    })]
}

#[test]
fn definitions_and_sends_are_indexed() {
    let mut send = cursor(CursorKind::Message, "build", 6, vec![]);
    send.callee = Some(Callee {
        kind: CursorKind::ClassMethod,
        system: false,
        selector: "build".to_string(),
        parent_kind: CursorKind::Interface,
        parent_name: "Thing".to_string(),
        parent_class: String::new(),
    });
    let method = cursor(CursorKind::InstanceMethod, "run", 5, vec![send]);
    let class = cursor(CursorKind::Implementation, "App", 4, vec![method]);
    let index = build_index(&unit(vec![class]), "c", "/r").expect("parsed");
    assert_eq!(index.documents.len(), 1);
    assert_eq!(index.documents[0].relative_path, "A.m");
    let symbols: Vec<(&str, i32)> = index.documents[0]
        .occurrences
        .iter()
        .map(|o| (o.symbol.as_str(), o.symbol_roles))
        .collect();
    assert!(symbols.contains(&("objc . c 0.0.0 App#run().", 1)), "{symbols:?}");
    assert!(symbols.contains(&("objc . c 0.0.0 Thing#build().", 0)), "{symbols:?}");
}

#[test]
fn what_lies_in_the_system_is_left_out() {
    let mut send = cursor(CursorKind::Message, "alloc", 6, vec![]);
    send.callee = Some(Callee {
        kind: CursorKind::ClassMethod,
        system: true,
        selector: "alloc".to_string(),
        parent_kind: CursorKind::Interface,
        parent_name: "NSObject".to_string(),
        parent_class: String::new(),
    });
    assert!(send_target(&send).is_none());
    let mut class = cursor(CursorKind::Interface, "NSObject", 1, vec![]);
    class.system = true;
    let index = build_index(&unit(vec![class]), "c", "/r").expect("parsed");
    assert!(index.documents.is_empty());
}

#[test]
fn a_project_none_of_whose_units_parse_is_an_error() {
    assert!(build_index(&vec![], "c", "/r").expect("nothing to do").documents.is_empty());
    assert!(build_index(&vec![None, None], "c", "/r").is_err());
    assert!(tu_has_error(&vec![1, 3]));
    assert!(!tu_has_error(&vec![1, 2]));
    assert!(collect("/r").is_empty());
}

#[test]
fn places_are_counted_from_zero_in_an_index() {
    let c = cursor(CursorKind::Function, "f", 8, vec![]);
    let header = Cursor {
        system: true,
        ..cursor(CursorKind::Function, "g", 8, vec![])
    };
    assert!(make_def_occurrence(&header, "s", "/r").is_none());
    let (path, o) = make_def_occurrence(&c, "s", "/r").expect("placed");
    assert_eq!(path, "A.m");
    assert_eq!(o.range, [7, 2, 3]);
    assert_eq!(o.symbol_roles, 1);
    let class = cursor(
        CursorKind::Category,
        "Extra",
        1,
        vec![cursor(CursorKind::ClassRef, "Base", 1, vec![])],
    );
    assert_eq!(first_objc_class_ref(&class), "Base");
}

#[test]
fn glob_fallback_adds_subdirectory_header_dirs() {
    let file = |dir: &str, name: &str| WalkedFile {
        dir: dir.to_string(),
        name: name.to_string(),
    };
    let tree = SourceTree {
        root: "/r".to_string(),
        files: vec![file("/r/app", "Main.m"), file("/r/include/foo", "Foo.h")],
        sdk: Some("/sdk".to_string()),
        frameworks: None,
    };
    let entries = discover(None, &tree, None);
    let main = entries
        .iter()
        .find(|e| e.file.ends_with("app/Main.m"))
        .expect("Main.m discovered");
    assert!(main.args.contains(&"-I/r/include/foo".to_string()));
    assert!(main.args.contains(&"-I/r".to_string()));
    assert_eq!(
        main.args,
        ["-x", "objective-c", "-fobjc-arc", "-I/r", "-I/r/include/foo", "-isysroot", "/sdk"]
    );
    let asked = vec!["a/B.mm".to_string(), "c.txt".to_string()];
    let entries = glob_fallback(&tree, Some(&asked));
    assert_eq!(entries.len(), 1);
    assert_eq!(entries[0].file, "/r/a/B.mm");
    assert_eq!(entries[0].args[1], "objective-c++");
    assert!(skips_dir("Pods") && skips_dir(".git") && !skips_dir("src"));
}

#[test]
fn a_compilation_database_is_read() {
    let text = br#"[
      {"directory":"/r","file":"a.m","command":"clang -c -DX a.m"},
      {"directory":"/r","file":"/abs/b.mm","arguments":["clang++","-c","/abs/b.mm","-O2"]},
      {"directory":"/r","file":"c.c","command":"clang -c c.c"}
    ]"#;
    let entries = try_compile_commands(text).expect("some");
    assert_eq!(entries.len(), 2);
    assert_eq!(entries[0].file, "/r/a.m");
    assert_eq!(entries[1].file, "/abs/b.mm");
    assert_eq!(entries[0].args, ["-c", "-DX", "a.m"]);
    assert_eq!(entries[1].args, ["-c", "-O2"]);
    assert!(!entries[1].args.contains(&"/abs/b.mm".to_string()));
    assert!(try_compile_commands(b"{").is_none());
    assert!(try_compile_commands(b"[]").is_none());
    let item = serde_json::from_str("{}").expect("json");
    assert!(extract_args(&item, "x").is_empty());
    let item = serde_json::from_str(
        r#"{"directory":"/r","file":"a.m","arguments":["clang","-c","a.m","-DX","/r/a.m"]}"#,
    )
    .expect("json");
    assert_eq!(extract_args(&item, "/r/a.m"), ["-c", "-DX"]);
    assert_eq!(join_path("/r", "a"), "/r/a");
    assert_eq!(join_path("/r", "/a"), "/a");
}
