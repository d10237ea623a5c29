use serde_json::Value;
use travsr_lang::kotlin::{
    is_kotlin_file, left_out, progress_wait_secs, KlsPhase, KlsRun, KtFile, PROGRESS_WAIT_SECS,
};
use travsr_lang::lsp::{
    blank, content_length, extract_result, flatten_doc_syms, frame, is_reply, kind_sig_prefix,
    kind_to_str, message_frame, parse_range, progress_event, read_message, reference_records,
    take_reply, timeout_message, FrameError, Progress, ProgressEvent, MAX_REFS_PER_SYMBOL,
};

fn json(text: &str) -> Value {
    serde_json::from_str(text).expect("json")
}

fn header(lines: &[&str]) -> Vec<String> {
    lines.iter().map(|l| l.to_string()).collect()
}

#[test]
fn a_message_is_framed_and_its_length_read_back() {
    assert_eq!(frame("{\"é\":1}"), "Content-Length: 8\r\n\r\n{\"é\":1}");
    let message = read_message(b" { \"id\" : [ 1 , null ] } ").expect("a message");
    assert_eq!(message["id"][0].as_u64(), Some(1));
    assert_eq!(message_frame(&message), "Content-Length: 15\r\n\r\n{\"id\":[1,null]}");
    assert_eq!(read_message(b"{\"id\":").unwrap_err(), "parse LSP JSON body");
    assert_eq!(content_length(&header(&["Content-Length: 8\r\n"])), Ok(8));
    assert_eq!(
        content_length(&header(&["Content-Type: x\r\n", "Content-Length:12\r\n"])),
        Ok(12)
    );
    assert_eq!(
        content_length(&header(&["Content-Length: x\r\n"])),
        Err(FrameError::BadLength)
    );
    assert_eq!(content_length(&header(&[])), Err(FrameError::NoBody));
    assert_eq!(
        content_length(&header(&["Content-Length: 0\r\n"])),
        Err(FrameError::NoBody)
    );
    assert!(blank("\r\n") && blank("") && !blank("x\r\n"));
}

#[test]
fn progress_ends_when_no_task_is_active() {
    let event = |kind: &str| {
        progress_event(&json(&format!(
            r#"{{"method":"$/progress","params":{{"value":{{"kind":"{kind}"}}}}}}"#
        )))
    };
    assert_eq!(event("begin"), ProgressEvent::Begin);
    assert_eq!(event("end"), ProgressEvent::End);
    assert_eq!(event("report"), ProgressEvent::Other);
    assert_eq!(progress_event(&json(r#"{"method":"x"}"#)), ProgressEvent::Other);
    let mut p = Progress::new();
    assert!(!p.on(ProgressEvent::End));
    assert!(!p.on(ProgressEvent::Begin));
    assert!(!p.on(ProgressEvent::Begin));
    assert!(!p.on(ProgressEvent::End));
    assert!(p.on(ProgressEvent::End));
}

#[test]
fn replies_are_matched_by_their_number() {
    let mut inbox = vec![
        json(r#"{"id":1,"result":"a"}"#),
        json(r#"{"id":2,"result":"b"}"#),
        json(r#"{"id":2,"result":"c"}"#),
    ];
    assert!(is_reply(&inbox[0], 1) && !is_reply(&inbox[0], 2));
    assert!(!is_reply(&json(r#"{"id":"1"}"#), 1));
    let got = take_reply(&mut inbox, 2).expect("came");
    assert_eq!(got["result"], "b");
    assert_eq!(inbox.len(), 2);
    assert!(take_reply(&mut inbox, 9).is_none());
    assert_eq!(inbox.len(), 2);
    assert_eq!(extract_result("m", &got).expect("result"), "b");
    assert!(extract_result("m", &json("{}")).expect("null").is_null());
    assert_eq!(
        extract_result("m", &json(r#"{"error":{"code":-1}}"#)).unwrap_err(),
        r#"LSP error from 'm': {"code":-1}"#
    );
    assert_eq!(timeout_message("m", 7), "timeout waiting for LSP 'm' id=7");
}

fn symbol(name: &str, kind: u64, line: u64, children: &str) -> String {
    format!(
        r#"{{"name":"{name}","kind":{kind},
            "range":{{"start":{{"line":{line},"character":0}},"end":{{"line":{},"character":1}}}},
            "selectionRange":{{"start":{{"line":{line},"character":6}},"end":{{"line":{line},"character":9}}}},
            "children":[{children}]}}"#,
        line + 2
    )
}

#[test]
fn symbols_are_flattened_with_their_containers() {
    let inner = symbol("f", 6, 1, "");
    let syms = flatten_doc_syms(&json(&format!("[{}]", symbol("C", 5, 0, &inner))));
    assert_eq!(syms.len(), 2);
    assert_eq!(syms[0].signature(), "class:C");
    assert_eq!(syms[1].name, "f");
    assert_eq!(syms[1].container, "C");
    assert_eq!(syms[1].signature(), "method:C.f");
    assert_eq!(syms[1].sel_range.start.character, 6);
    assert!(flatten_doc_syms(&json("null")).is_empty());
    assert_eq!(kind_sig_prefix(12), "fn");
    assert_eq!(kind_sig_prefix(99), "sym");
    assert_eq!(kind_to_str(5), "class");
    let r = parse_range(&json(r#"{"start":{"line":3}}"#));
    assert_eq!((r.start.line, r.start.character, r.end.line), (3, 0, 0));
}

#[test]
fn all_that_json_can_nest_is_kept() {
    let mut v = symbol("x", 12, 0, "");
    for _ in 0..60 {
        v = symbol("x", 12, 0, &v);
    }
    assert_eq!(flatten_doc_syms(&json(&format!("[{v}]"))).len(), 61);
}

#[test]
fn symbols_are_followed_however_deep_they_nest() {
    let mut v = serde_json::Value::Array(vec![]);
    for _ in 0..500 {
        let mut sym = serde_json::Map::new();
        sym.insert("name".to_string(), "x".into());
        sym.insert("children".to_string(), v);
        v = serde_json::Value::Array(vec![sym.into()]);
    }
    assert_eq!(flatten_doc_syms(&v).len(), 500);
}

fn location(uri: &str, line: u64) -> String {
    format!(
        r#"{{"uri":"{uri}","range":{{"start":{{"line":{line},"character":4}},"end":{{"line":{line},"character":5}}}}}}"#
    )
}

#[test]
fn references_are_recorded_below_the_root() {
    let locations = format!(
        "[{},{}]",
        location("file:///r/src/A.kt", 4),
        location("file:///elsewhere/B.kt", 1)
    );
    let refs = reference_records(&json(&locations), "/r", 42);
    assert_eq!(refs.len(), 1);
    assert_eq!(refs[0].caller_path, "src/A.kt");
    assert_eq!(refs[0].caller_line, 5);
    assert_eq!(refs[0].callee_id, 42);
    let many: Vec<String> = (0..(MAX_REFS_PER_SYMBOL as u64 + 5))
        .map(|i| location("file:///r/A.kt", i))
        .collect();
    let refs = reference_records(&json(&format!("[{}]", many.join(","))), "/r", 1);
    assert_eq!(refs.len(), MAX_REFS_PER_SYMBOL);
    assert!(reference_records(&json("null"), "/r", 1).is_empty());
}

#[test]
fn a_session_asks_for_every_symbol_once() {
    let files = vec![KtFile::new("/r/A.kt", "A.kt"), KtFile::new("/r/B.kt", "B.kt")];
    let mut run = KlsRun::new("/r", "c", files);
    assert_eq!(run.phase(), KlsPhase::Initialize);
    run.initialized();
    assert_eq!(run.phase(), KlsPhase::Index);
    run.indexed();
    assert_eq!(run.phase(), KlsPhase::Open(0));
    assert_eq!(run.file(0).uri, "file:///r/A.kt");
    let c = format!("[{}]", symbol("C", 5, 0, &symbol("f", 6, 1, "")));
    run.opened(flatten_doc_syms(&json(&c)));
    assert_eq!(run.phase(), KlsPhase::Open(1));
    run.opened(vec![]);
    assert_eq!(run.phase(), KlsPhase::References(0));
    assert_eq!(run.symbol(1).sym.name, "f");
    let locations = json(&format!("[{}]", location("file:///r/B.kt", 2)));
    run.answered(Some(&locations));
    assert_eq!(run.phase(), KlsPhase::References(1));
    run.answered(None);
    assert_eq!(run.phase(), KlsPhase::Shutdown);
    run.shut_down();
    assert_eq!(run.phase(), KlsPhase::Done);
    let r = run.response();
    assert_eq!(r.nodes.len(), 2);
    assert_eq!(r.refs.len(), 1);
    assert_eq!(r.refs[0].callee_id, r.nodes[0].id);
    assert_eq!(r.nodes[0].line, Some(1));
    assert_eq!(r.nodes[0].path, "A.kt");
}

#[test]
fn a_failed_session_has_no_graph() {
    let mut run = KlsRun::new("/r", "c", vec![KtFile::new("/r/A.kt", "A.kt")]);
    run.initialized();
    run.indexed();
    run.failed();
    assert_eq!(run.phase(), KlsPhase::Failed);
    let r = run.response();
    assert!(r.nodes.is_empty() && r.refs.is_empty());
}

#[test]
fn sources_and_settings_are_read() {
    assert!(is_kotlin_file("A.kt") && is_kotlin_file("b.kts"));
    assert!(!is_kotlin_file("kt") && !is_kotlin_file("A.java"));
    assert!(left_out("build") && left_out("target") && left_out(".git"));
    assert!(!left_out("src"));
    assert_eq!(progress_wait_secs(None), PROGRESS_WAIT_SECS);
    assert_eq!(progress_wait_secs(Some("7")), 7);
    assert_eq!(progress_wait_secs(Some("0")), PROGRESS_WAIT_SECS);
    assert_eq!(progress_wait_secs(Some("x")), PROGRESS_WAIT_SECS);
}
