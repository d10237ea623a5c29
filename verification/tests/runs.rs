use travsr_lang::graph::{InvokeResponse, PluginDiagnostic};
use travsr_lang::indexers::{
    choose_binary, plan_emitter, plan_lsif_ts, plan_rust_analyzer, plan_scip_clang,
    plan_scip_dotnet, plan_scip_go, plan_scip_php, plan_scip_python, plan_scip_ruby, uses_scratch,
    Found, Indexer, Plan,
};
use travsr_lang::php::{
    first_cleanup, next_cleanup, preserve_existing_artifact, AtPath, Cleanup,
};
use travsr_lang::run::{
    into_response, next_poll, tail, tail_lines, timeout_message, Poll, Report, RunEnd, RunNames,
};
use travsr_lang::sbt::{
    after, attempt_budget_secs, build_root_not_granted, remaining_secs, start, Next,
    COMPILE_TIMEOUT_SECS, HOST_INVOKE_TIMEOUT_SECS, HOST_REPLY_MARGIN_SECS, MIN_ATTEMPT_SECS,
    POST_COMPILE_RESERVE_SECS,
};
use travsr_lang::toolchain::{
    frameworks_dir, libclang_dirs, libclang_message, managed_kls, sdk_path, travsr_home,
    LibclangPath,
};

#[test]
fn attempt_budget_clamps_to_the_smaller_of_ceiling_and_remaining() {
    assert_eq!(attempt_budget_secs(300, 225, 45), Some(225));
    assert_eq!(attempt_budget_secs(80, 225, 45), Some(80));
    assert_eq!(attempt_budget_secs(44, 225, 45), None);
    assert_eq!(attempt_budget_secs(45, 225, 45), Some(45));
    assert_eq!(attempt_budget_secs(0, 225, 45), None);
}

#[test]
fn a_retry_can_only_have_what_the_first_attempt_left() {
    let window = HOST_INVOKE_TIMEOUT_SECS - HOST_REPLY_MARGIN_SECS - POST_COMPILE_RESERVE_SECS;
    for spent in 0..=window {
        let retry = attempt_budget_secs(window - spent, COMPILE_TIMEOUT_SECS, MIN_ATTEMPT_SECS)
            .unwrap_or(0);
        assert!(spent + retry <= window, "spent {spent}, retry {retry}");
    }
}

#[test]
fn compile_ceiling_fills_the_window_without_overrunning_it() {
    assert_eq!(
        COMPILE_TIMEOUT_SECS,
        HOST_INVOKE_TIMEOUT_SECS - HOST_REPLY_MARGIN_SECS - POST_COMPILE_RESERVE_SECS
    );
}

#[test]
fn what_remains_counts_in_whole_seconds() {
    assert_eq!(remaining_secs(0), 225);
    assert_eq!(remaining_secs(1), 224);
    assert_eq!(remaining_secs(180_000), 45);
    assert_eq!(remaining_secs(225_000), 0);
    assert_eq!(remaining_secs(u64::MAX), 0);
}

#[test]
fn sbt_root_at_the_repo_root_raises_no_caveat() {
    let root = "/repo";
    assert!(build_root_not_granted(root, root).is_none());
}

#[test]
fn sbt_root_below_the_repo_root_warns_with_both_paths() {
    let d = build_root_not_granted("/repo", "/repo/backend/svc")
        .expect("a nested build.sbt is outside every repo-root-anchored grant");
    assert_eq!(d.code, "scala.build-root-not-granted");
    assert!(d.message.contains("/repo/backend/svc"), "{}", d.message);
    assert!(d.message.contains("/repo"), "{}", d.message);
}

#[test]
fn diagnostics_survive_the_error_path() {
    let diagnostics = vec![build_root_not_granted("/repo", "/repo/sub").expect("nested root")];
    let resp = into_response(Err("sbt compile exited with 1".to_string()), diagnostics);
    assert_eq!(
        resp.diagnostics
            .iter()
            .map(|d| d.code.as_str())
            .collect::<Vec<_>>(),
        ["scala.build-root-not-granted"]
    );
}

fn failed() -> RunEnd {
    RunEnd::Exited {
        success: false,
        status: "exit status: 1".to_string(),
        stdout: String::new(),
        stderr: "broken".to_string(),
    }
}

fn succeeded() -> RunEnd {
    RunEnd::Exited {
        success: true,
        status: "exit status: 0".to_string(),
        stdout: String::new(),
        stderr: String::new(),
    }
}

#[test]
fn a_failure_with_tests_is_tried_again_without_them() {
    let mut diagnostics = vec![];
    let first = start(Some("sbt"), "/r", Some("/r"), 0, &mut diagnostics).expect("time is left");
    assert!(diagnostics.is_empty());
    assert!(first.with_tests);
    assert_eq!(first.budget_secs, 225);
    assert_eq!(
        first.invocation.args,
        ["--server", "set every semanticdbEnabled := true", "compile", "Test/compile"]
    );
    assert!(matches!(after(&first, &succeeded(), 9), Next::Read));
    let second = match after(&first, &failed(), 100_000) {
        Next::Retry(a) => a,
        other => panic!("no retry: {other:?}"),
    };
    assert!(!second.with_tests);
    assert_eq!(second.budget_secs, 125);
    assert_eq!(second.invocation.current_dir, "/r");
    assert_eq!(second.invocation.args.len(), 3);
    assert!(matches!(
        after(&second, &failed(), 120_000),
        Next::Fail(e) if e == "sbt compile exited with exit status: 1:\nbroken"
    ));
    assert!(matches!(
        after(&first, &failed(), 200_000),
        Next::Fail(e) if e == "sbt compile exited with exit status: 1:\nbroken"
    ));
    assert!(matches!(
        after(&first, &RunEnd::TimedOut, 100_000),
        Next::Fail(e) if e == "sbt compile timed out after 225s"
    ));
}

#[test]
fn a_run_that_cannot_start_says_why() {
    let mut d: Vec<PluginDiagnostic> = vec![];
    assert!(start(None, "/r", None, 0, &mut d)
        .unwrap_err()
        .starts_with("sbt not found. Install via SDKMAN!"));
    assert_eq!(
        start(Some("sbt"), "/r", None, 0, &mut d).unwrap_err(),
        "no build.sbt found under /r"
    );
    assert!(d.is_empty());
    assert_eq!(
        start(Some("sbt"), "/r", Some("/r/a"), 181_000, &mut d).unwrap_err(),
        "under 45s of the host's 300s invoke window was left by the time sbt could be started"
    );
    assert_eq!(d.len(), 1);
}

#[test]
fn tail_truncates_on_a_char_boundary() {
    assert_eq!(tail("abc", 8), "abc");
    assert_eq!(tail("abcdefgh", 8), "abcdefgh");

    let out = tail("abcdefghij", 4);
    assert_eq!(out, "...(truncated)...\nghij");

    let s = "aa\u{00e9}bb"; // 6 bytes: 'a' 'a' 0xC3 0xA9 'b' 'b'
    let out = tail(s, 3);
    assert_eq!(out, "...(truncated)...\nbb");
}

#[test]
fn the_telling_output_is_shown() {
    assert_eq!(tail_lines(" \n", "out"), "out");
    assert_eq!(tail_lines("err", "out"), "err");
    let long = "é".repeat(3000);
    let shown = tail_lines(&long, "");
    assert!(shown.starts_with('…'));
    assert_eq!(shown.chars().count(), 2001);
}

#[test]
fn a_child_is_killed_exactly_when_its_time_is_up() {
    assert_eq!(next_poll(true, u64::MAX, 1, 200), Poll::Collect);
    assert_eq!(next_poll(false, 999, 1, 200), Poll::Sleep(200));
    assert_eq!(next_poll(false, 1000, 1, 200), Poll::Kill);
    assert_eq!(next_poll(false, u64::MAX, u64::MAX, 200), Poll::Sleep(200));
}

#[test]
fn a_failed_run_says_how_it_ended() {
    let names = |report| RunNames {
        timeout_name: "late".to_string(),
        exit_name: "tool".to_string(),
        budget_secs: 60,
        report,
    };
    assert!(names(Report::Whole).check(&succeeded()).is_ok());
    assert_eq!(
        names(Report::Whole).check(&RunEnd::TimedOut).unwrap_err(),
        "late timed out after 60s"
    );
    assert_eq!(timeout_message("objc visitor", 300), "objc visitor timed out after 300s");
    for (report, want) in [
        (Report::Whole, "tool exited with exit status: 1: broken"),
        (Report::Tail, "tool exited with exit status: 1: broken"),
        (Report::TailLines, "tool exited with exit status: 1:\nbroken"),
        (Report::Telling, "tool exited with exit status: 1:\nbroken"),
    ] {
        assert_eq!(names(report).check(&failed()).unwrap_err(), want);
    }
}

fn run(plan: Plan) -> (String, Vec<String>, String) {
    match plan {
        Plan::Run(i) => (i.program, i.args, i.current_dir),
        other => panic!("nothing to run: {other:?}"),
    }
}

#[test]
fn indexers_are_run_with_their_arguments() {
    let (p, a, d) = run(plan_scip_go(Some("scip-go"), "/r", "/s/index.scip"));
    assert_eq!((p.as_str(), d.as_str()), ("scip-go", "/r"));
    assert_eq!(a, ["index", "--output", "/s/index.scip", "./..."]);

    let (_, a, _) = run(plan_scip_ruby(Some("scip-ruby"), "/r", "github.com/x/gem", "/s/i", true));
    assert_eq!(a, ["--index-file", "/s/i", "--gem-metadata", "gem@0.0.0", "."]);

    let (_, a, _) = run(plan_scip_clang(true, true, "/r", "/r/compile_commands.json", "/s/i"));
    assert_eq!(
        a,
        ["--compdb-path", "/r/compile_commands.json", "--index-output-path", "/s/i"]
    );

    let (_, a, d) = run(plan_scip_python(Some("scip-python"), "/r", "/s"));
    assert_eq!(d, "/s");
    assert_eq!(
        a,
        ["index", "--project-name", "project", "--project-version", "0.0.1", "/r"]
    );

    let (_, a, _) = run(plan_rust_analyzer(true, "/r"));
    assert_eq!(a, ["lsif", "/r"]);
    let (_, a, d) = run(plan_lsif_ts(true, true, "/r/tsconfig.json"));
    assert_eq!(a, ["--project", "/r/tsconfig.json"]);
    assert_eq!(d, "");
    let (_, a, d) = run(plan_scip_php(Some("scip-php"), "/r"));
    assert!(a.is_empty());
    assert_eq!(d, "/r");

    let plan = plan_scip_dotnet(
        Some("scip-dotnet"),
        r"\\?\D:\r",
        Some(r"D:\r\a.sln"),
        "/s/i",
        Some("/opt/net"),
    );
    match plan {
        Plan::Run(i) => {
            assert_eq!(
                i.args,
                ["index", r"D:\r\a.sln", "--output", "/s/i", "--working-directory", r"D:\r"]
            );
            assert_eq!(i.current_dir, r"D:\r");
            assert_eq!(i.env, Some(("DOTNET_ROOT".to_string(), "/opt/net".to_string())));
        }
        other => panic!("{other:?}"),
    }
    let (p, a, _) = run(plan_emitter(Some("/e"), "none", "/r", "/o", Some(("DART_SDK", "/sdk"))));
    assert_eq!(p, "/e");
    assert_eq!(a, ["/r", "/o"]);
}

#[test]
fn projects_that_cannot_be_indexed_are_passed_over_or_refused() {
    assert!(matches!(plan_scip_clang(true, false, "/r", "", ""), Plan::Skip));
    assert!(matches!(plan_lsif_ts(false, false, ""), Plan::Skip));
    for plan in [
        plan_scip_go(None, "/r", ""),
        plan_scip_ruby(None, "/r", "c", "rel", false),
        plan_scip_clang(false, true, "/r", "", ""),
        plan_scip_python(None, "/r", ""),
        plan_rust_analyzer(false, "/r"),
        plan_lsif_ts(true, false, ""),
        plan_scip_php(None, "/r"),
        plan_scip_dotnet(None, "/r", None, "", None),
    ] {
        assert!(matches!(plan, Plan::Fail(e) if e.contains(" not found")));
    }
    assert!(matches!(
        plan_scip_dotnet(Some("scip-dotnet"), "/r", None, "", None),
        Plan::Fail(e) if e == "no .sln or .csproj found under /r"
    ));
    assert!(matches!(
        plan_scip_ruby(Some("scip-ruby"), "/r", "c", "rel", false),
        Plan::Fail(e) if e == "scip-ruby output path must be absolute under current_dir(root): rel"
    ));
    assert!(matches!(
        plan_emitter(None, "none", "/r", "/o", None),
        Plan::Fail(e) if e == "none"
    ));
}

#[test]
fn programs_on_the_path_come_first() {
    assert_eq!(choose_binary(true, &vec![true]), Found::OnPath);
    assert_eq!(choose_binary(false, &vec![false, true, true]), Found::Candidate(1));
    assert_eq!(choose_binary(false, &vec![false]), Found::Nowhere);
    assert_eq!(
        Indexer::Go.home_candidates(),
        [".travsr/bin/scip-go", "go/bin/scip-go"]
    );
    assert_eq!(Indexer::Sbt.home_candidates().len(), 3);
    assert!(Indexer::C.home_candidates().is_empty());
    assert_eq!(Indexer::Java.timeout_secs(), 600);
    assert_eq!(Indexer::TypeScript.poll_ms(), 100);
    assert_eq!(Indexer::Php.run_names().report, Report::Tail);
    assert!(uses_scratch(Indexer::Ruby, "/s", false));
    assert!(!uses_scratch(Indexer::Php, "/s", false));
    assert!(uses_scratch(Indexer::Php, "/s", true));
    assert!(!uses_scratch(Indexer::Php, "", true));
}

#[test]
fn a_clean_repo_produces_no_diagnostic() {
    let mut diagnostics = Vec::new();
    let restore = preserve_existing_artifact("/r/index.scip", AtPath::Nothing, &mut diagnostics)
        .expect("nothing there, nothing to do");

    assert!(!restore, "nothing was saved, so nothing is owed back");
    assert!(diagnostics.is_empty());
}

#[test]
fn a_zero_byte_stub_owes_nothing_and_is_not_saved() {
    let mut diagnostics = Vec::new();
    let restore = preserve_existing_artifact("/r/index.scip", AtPath::File(0), &mut diagnostics)
        .expect("the host's own stub must not refuse the run");
    assert!(!restore);
    assert!(diagnostics.is_empty());
}

#[test]
fn a_pre_existing_index_has_its_bytes_restored_after_the_run() {
    let mut diagnostics = Vec::new();
    let restore = preserve_existing_artifact("/r/index.scip", AtPath::File(30), &mut diagnostics)
        .expect("a plain file must not refuse the run");
    assert!(restore, "the run owes these bytes back");
    assert!(diagnostics.is_empty());
    assert_eq!(first_cleanup(restore), Cleanup::Overwrite);
    assert_eq!(next_cleanup(Cleanup::Overwrite, true), Cleanup::Done);
}

#[test]
fn a_denied_unlink_leaves_a_zero_byte_stub_behind() {
    assert_eq!(first_cleanup(false), Cleanup::Remove);
    assert_eq!(next_cleanup(Cleanup::Remove, true), Cleanup::Empty);
    assert_eq!(next_cleanup(Cleanup::Remove, false), Cleanup::Done);
    assert_eq!(next_cleanup(Cleanup::Empty, true), Cleanup::Done);
}

#[test]
fn a_refusal_reaches_the_response_instead_of_a_bare_default() {
    let mut diagnostics = Vec::new();
    let result = preserve_existing_artifact("/r/index.scip", AtPath::Other, &mut diagnostics)
        .map(|_| InvokeResponse::empty());
    assert_eq!(
        result.as_ref().unwrap_err(),
        "refusing to run scip-php: /r/index.scip is a link or a directory"
    );
    let resp = into_response(result, diagnostics);
    assert_eq!(resp.diagnostics.len(), 1);
    assert_eq!(resp.diagnostics[0].code, "php.index-path-blocked");
    assert!(resp.diagnostics[0].message.starts_with(
        "PHP was not indexed: /r/index.scip is a link or a folder, and the indexer has to write"
    ));
}

#[test]
fn homes_and_servers_are_found() {
    let s = |x: &str| Some(x.to_string());
    assert_eq!(travsr_home(false, s("h"), s("p")), s("h"));
    assert_eq!(travsr_home(true, s("h"), s("p")), s("p"));
    assert_eq!(travsr_home(true, s("h"), None), s("h"));
    assert_eq!(
        managed_kls("/home/u", false),
        ["/home/u/.travsr/bin/kotlin-language-server"]
    );
    assert_eq!(
        managed_kls(r"C:\u", true)[0],
        r"C:\u\.travsr\bin\kotlin-language-server.cmd"
    );
}

#[test]
fn libclang_is_looked_for_in_order() {
    let dirs = libclang_dirs(
        Some(LibclangPath { path: "/x/lib/libclang.dylib".to_string(), is_file: true }),
        Some("/tc/usr/bin/clang\n"),
    );
    assert_eq!(dirs[..2], ["/x/lib", "/tc/usr/lib"]);
    assert_eq!(dirs.len(), 6);
    assert_eq!(libclang_dirs(None, None).len(), 4);
    assert!(libclang_message("gone").starts_with("libclang could not be loaded: gone. Install"));
    assert_eq!(
        frameworks_dir(true, "/P\n").as_deref(),
        Some("/P/Developer/Library/Frameworks")
    );
    assert_eq!(frameworks_dir(true, "\n"), None);
    assert_eq!(sdk_path(true, "/S\n").as_deref(), Some("/S"));
    assert_eq!(sdk_path(false, "/S"), None);
}
