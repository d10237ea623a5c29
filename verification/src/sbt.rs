//! Indexing Scala: how an sbt build is run within the time that there is.
use vstd::prelude::*;
use vstd::string::*;
use crate::graph::{diagnostic_views, DiagnosticView, PluginDiagnostic};
use crate::indexers::{no_texts, opt_text, push_text, Indexer, Invocation, InvocationView};
use crate::paths::{is_same_path, same_path};
use crate::run::{failure_text, timeout_text, Report, RunEnd, RunNames};
use crate::text::{copy_text, decimal, push_decimal, texts};

verus! {

/// How long the host waits for a response, in seconds. A run that takes longer
/// is killed, and nothing that it found is kept.
pub const HOST_INVOKE_TIMEOUT_SECS: u64 = 300;

/// How much of that is kept back to write the response, in seconds.
pub const HOST_REPLY_MARGIN_SECS: u64 = 15;

/// How much of that is kept back to read what the compiler wrote, in seconds.
pub const POST_COMPILE_RESERVE_SECS: u64 = 60;

/// How long a single compilation may take, in seconds.
pub const COMPILE_TIMEOUT_SECS: u64 = 225;

/// Under how many seconds a compilation is not worth starting.
pub const MIN_ATTEMPT_SECS: u64 = 45;

/// What turns on semantic data for all projects of a build.
pub const SEMANTICDB_ENABLE_CMD: &'static str = "set every semanticdbEnabled := true";

/// The time for all compilations of a run, in seconds.
pub open spec fn window_secs() -> int {
    HOST_INVOKE_TIMEOUT_SECS - HOST_REPLY_MARGIN_SECS - POST_COMPILE_RESERVE_SECS
}

/// What is left of that after `elapsed_ms`, in whole seconds.
pub open spec fn left_after(elapsed_ms: u64) -> u64 {
    if elapsed_ms >= window_secs() * 1000 {
        0
    } else {
        ((window_secs() * 1000 - elapsed_ms) / 1000) as u64
    }
}

/// What is left of the time for compilations after `elapsed_ms` of a run, in
/// whole seconds.
pub fn remaining_secs(elapsed_ms: u64) -> (r: u64)
    ensures
        r == left_after(elapsed_ms),
{
    let window: u64 = HOST_INVOKE_TIMEOUT_SECS - HOST_REPLY_MARGIN_SECS
        - POST_COMPILE_RESERVE_SECS;
    if elapsed_ms >= window * 1000 {
        0
    } else {
        (window * 1000 - elapsed_ms) / 1000
    }
}

/// How long an attempt may take; none where too little is left for it.
pub open spec fn attempt_budget(remaining: u64, ceiling: u64, floor: u64) -> Option<u64> {
    if remaining < floor {
        None
    } else if remaining < ceiling {
        Some(remaining)
    } else {
        Some(ceiling)
    }
}

/// How long an attempt may take, in seconds: what remains, but no more than
/// `ceiling_secs`; none where less than `floor_secs` remains.
pub fn attempt_budget_secs(remaining_secs: u64, ceiling_secs: u64, floor_secs: u64) -> (r: Option<
    u64,
>)
    ensures
        r == attempt_budget(remaining_secs, ceiling_secs, floor_secs),
{
    if remaining_secs < floor_secs {
        None
    } else if remaining_secs < ceiling_secs {
        Some(remaining_secs)
    } else {
        Some(ceiling_secs)
    }
}

/// How long an attempt may take that starts after `elapsed_ms` of a run.
pub open spec fn compile_budget(elapsed_ms: u64) -> Option<u64> {
    attempt_budget(left_after(elapsed_ms), COMPILE_TIMEOUT_SECS, MIN_ATTEMPT_SECS)
}

/// Whatever was spent before it, an attempt that takes all its time ends
/// within the window, so that a first attempt and a second one together do.
pub proof fn law_attempts_fit_the_window(elapsed_ms: u64)
    ensures
        compile_budget(elapsed_ms) matches Some(secs) ==> elapsed_ms + secs * 1000
            <= window_secs() * 1000 && secs >= MIN_ATTEMPT_SECS,
{
}

/// A retry has only what the first attempt left.
pub proof fn law_retry_has_what_is_left(window: u64, spent: u64, ceiling: u64, floor: u64)
    requires
        spent <= window,
    ensures
        attempt_budget((window - spent) as u64, ceiling, floor) matches Some(retry) ==> spent
            + retry <= window,
{
}

/// A compilation may take the whole window, and no more.
pub proof fn law_ceiling_fills_the_window()
    ensures
        COMPILE_TIMEOUT_SECS == window_secs(),
{
}

/// The warning about a build whose root is not that of the repository.
pub open spec fn root_not_granted(repo_root: Seq<char>, sbt_root: Seq<char>) -> DiagnosticView {
    DiagnosticView {
        code: "scala.build-root-not-granted"@,
        message: "Scala indexing is expected to fail on Linux for this layout: build.sbt is at "@
            + sbt_root + ", not at the repo root "@ + repo_root
            + ", so sbt writes its build output under a directory the travsr sandbox does not grant (the grants cover target/ and project/target/ relative to the repo root only) and the writes are denied."@,
    }
}

/// What to warn of, given where the root of the build was found.
pub open spec fn root_warning(repo_root: Seq<char>, sbt_root: Seq<char>) -> Option<DiagnosticView> {
    if same_path(sbt_root, repo_root) {
        None
    } else {
        Some(root_not_granted(repo_root, sbt_root))
    }
}

/// What to warn of, given where the root of the build was found: below the
/// root of the repository, the build may not be able to write.
pub fn build_root_not_granted(repo_root: &str, sbt_root: &str) -> (r: Option<PluginDiagnostic>)
    ensures
        crate::version::diagnostic_view(r) == root_warning(repo_root@, sbt_root@),
{
    if is_same_path(sbt_root, repo_root) {
        return None;
    }
    let mut m = copy_text(
        "Scala indexing is expected to fail on Linux for this layout: build.sbt is at ",
    );
    m.append(sbt_root);
    m.append(", not at the repo root ");
    m.append(repo_root);
    m.append(
        ", so sbt writes its build output under a directory the travsr sandbox does not grant (the grants cover target/ and project/target/ relative to the repo root only) and the writes are denied.",
    );
    Some(PluginDiagnostic { code: copy_text("scala.build-root-not-granted"), message: m })
}

/// A compilation to run.
#[derive(Debug)]
pub struct Attempt {
    pub invocation: Invocation,
    pub with_tests: bool,
    pub budget_secs: u64,
}

/// What an `Attempt` holds.
pub struct AttemptView {
    pub invocation: InvocationView,
    pub with_tests: bool,
    pub budget_secs: u64,
}

impl View for Attempt {
    type V = AttemptView;

    open spec fn view(&self) -> AttemptView {
        AttemptView {
            invocation: self.invocation@,
            with_tests: self.with_tests,
            budget_secs: self.budget_secs,
        }
    }
}

/// How sbt is run: in one process, with semantic data turned on, and with the
/// tests compiled too where that is asked for.
pub open spec fn sbt_args(with_tests: bool) -> Seq<Seq<char>> {
    if with_tests {
        seq!["--server"@, SEMANTICDB_ENABLE_CMD@, "compile"@, "Test/compile"@]
    } else {
        seq!["--server"@, SEMANTICDB_ENABLE_CMD@, "compile"@]
    }
}

/// A compilation in `sbt_root`.
pub open spec fn attempt_at(
    sbt: Seq<char>,
    sbt_root: Seq<char>,
    with_tests: bool,
    budget_secs: u64,
) -> AttemptView {
    AttemptView {
        invocation: InvocationView {
            program: sbt,
            args: sbt_args(with_tests),
            current_dir: sbt_root,
            env: None,
        },
        with_tests,
        budget_secs,
    }
}

fn attempt(sbt: &str, sbt_root: &str, with_tests: bool, budget_secs: u64) -> (r: Attempt)
    ensures
        r@ == attempt_at(sbt@, sbt_root@, with_tests, budget_secs),
{
    let mut v = no_texts();
    push_text(&mut v, "--server");
    push_text(&mut v, SEMANTICDB_ENABLE_CMD);
    push_text(&mut v, "compile");
    if with_tests {
        push_text(&mut v, "Test/compile");
    }
    assert(texts(v@) =~= sbt_args(with_tests));
    Attempt {
        invocation: Invocation {
            program: copy_text(sbt),
            args: v,
            current_dir: copy_text(sbt_root),
            env: None,
        },
        with_tests,
        budget_secs,
    }
}

/// What to say of a project without a build.
pub open spec fn no_build_text(root: Seq<char>) -> Seq<char> {
    "no build.sbt found under "@ + root
}

/// What to say when there is no time left for a compilation.
pub open spec fn no_time_text() -> Seq<char> {
    "under "@ + decimal(MIN_ATTEMPT_SECS as nat) + "s of the host's "@ + decimal(
        HOST_INVOKE_TIMEOUT_SECS as nat,
    ) + "s invoke window was left by the time sbt could be started"@
}

/// The first step of a run: a compilation with the tests, or the reason why
/// there is none.
pub open spec fn first_attempt(
    sbt: Option<Seq<char>>,
    root: Seq<char>,
    sbt_root: Option<Seq<char>>,
    elapsed_ms: u64,
) -> Result<AttemptView, Seq<char>> {
    match (sbt, sbt_root) {
        (None, _) => Err(Indexer::Sbt.missing()),
        (Some(_), None) => Err(no_build_text(root)),
        (Some(p), Some(dir)) => match compile_budget(elapsed_ms) {
            Some(secs) => Ok(attempt_at(p, dir, true, secs)),
            None => Err(no_time_text()),
        },
    }
}

/// The first step of a run. A build that is found below the root of the
/// repository is warned of, whatever comes of it.
pub fn start(
    sbt: Option<&str>,
    root: &str,
    sbt_root: Option<&str>,
    elapsed_ms: u64,
    diagnostics: &mut Vec<PluginDiagnostic>,
) -> (r: Result<Attempt, String>)
    ensures
        match r {
            Ok(a) => first_attempt(opt_text(sbt), root@, opt_text(sbt_root), elapsed_ms) == Ok::<
                AttemptView,
                Seq<char>,
            >(a@),
            Err(e) => first_attempt(opt_text(sbt), root@, opt_text(sbt_root), elapsed_ms) == Err::<
                AttemptView,
                Seq<char>,
            >(e@),
        },
        diagnostic_views(final(diagnostics)@) == if sbt is Some && sbt_root is Some && root_warning(
            root@,
            sbt_root->0@,
        ) is Some {
            diagnostic_views(old(diagnostics)@).push(root_warning(root@, sbt_root->0@)->0)
        } else {
            diagnostic_views(old(diagnostics)@)
        },
{
    let program = match sbt {
        Some(p) => p,
        None => {
            return Err(copy_text(Indexer::Sbt.missing_message()));
        },
    };
    let dir = match sbt_root {
        Some(d) => d,
        None => {
            let mut e = copy_text("no build.sbt found under ");
            e.append(root);
            return Err(e);
        },
    };
    match build_root_not_granted(root, dir) {
        Some(d) => {
            diagnostics.push(d);
        },
        None => {},
    }
    match attempt_budget_secs(remaining_secs(elapsed_ms), COMPILE_TIMEOUT_SECS, MIN_ATTEMPT_SECS) {
        Some(secs) => Ok(attempt(program, dir, true, secs)),
        None => {
            let mut e = copy_text("under ");
            push_decimal(&mut e, MIN_ATTEMPT_SECS);
            e.append("s of the host's ");
            push_decimal(&mut e, HOST_INVOKE_TIMEOUT_SECS);
            e.append("s invoke window was left by the time sbt could be started");
            Err(e)
        },
    }
}

/// What follows a compilation.
#[derive(Debug)]
pub enum Next {
    /// Read what it wrote.
    Read,
    /// Compile again, without the tests.
    Retry(Attempt),
    /// Give up, and say why.
    Fail(String),
}

/// What a `Next` holds.
pub enum NextView {
    Read,
    Retry(AttemptView),
    Fail(Seq<char>),
}

impl View for Next {
    type V = NextView;

    open spec fn view(&self) -> NextView {
        match self {
            Next::Read => NextView::Read,
            Next::Retry(a) => NextView::Retry(a@),
            Next::Fail(e) => NextView::Fail(e@),
        }
    }
}

/// What follows a compilation that ended so, after `elapsed_ms` of the run: a
/// failure with the tests is tried again without them where there is time. One
/// that took too long is not tried again.
pub open spec fn next_step(attempt: AttemptView, end: RunEnd, elapsed_ms: u64) -> NextView {
    match end {
        RunEnd::TimedOut => NextView::Fail(timeout_text("sbt compile"@, attempt.budget_secs)),
        RunEnd::Exited { success, status, stdout, stderr } => if success {
            NextView::Read
        } else if attempt.with_tests && compile_budget(elapsed_ms) is Some {
            NextView::Retry(
                attempt_at(
                    attempt.invocation.program,
                    attempt.invocation.current_dir,
                    false,
                    compile_budget(elapsed_ms)->0,
                ),
            )
        } else {
            NextView::Fail(
                failure_text("sbt compile"@, status@, Report::TailLines, stdout@, stderr@),
            )
        },
    }
}

/// What follows a compilation.
pub fn after(done: &Attempt, end: &RunEnd, elapsed_ms: u64) -> (r: Next)
    ensures
        r@ == next_step(done@, *end, elapsed_ms),
{
    let names = RunNames {
        timeout_name: copy_text("sbt compile"),
        exit_name: copy_text("sbt compile"),
        budget_secs: done.budget_secs,
        report: Report::TailLines,
    };
    match names.check(end) {
        Ok(_) => Next::Read,
        Err(e) => {
            let timed_out = match end {
                RunEnd::TimedOut => true,
                _ => false,
            };
            if timed_out || !done.with_tests {
                return Next::Fail(e);
            }
            match attempt_budget_secs(
                remaining_secs(elapsed_ms),
                COMPILE_TIMEOUT_SECS,
                MIN_ATTEMPT_SECS,
            ) {
                Some(secs) => Next::Retry(
                    attempt(
                        done.invocation.program.as_str(),
                        done.invocation.current_dir.as_str(),
                        false,
                        secs,
                    ),
                ),
                None => Next::Fail(e),
            }
        },
    }
}

/// There are at most two compilations: the one that follows a failure is
/// without the tests, and nothing follows the failure of such a one.
pub proof fn law_at_most_one_retry(
    attempt: AttemptView,
    end: RunEnd,
    elapsed_ms: u64,
    end_again: RunEnd,
    elapsed_again_ms: u64,
)
    ensures
        next_step(attempt, end, elapsed_ms) matches NextView::Retry(second) ==> {
            &&& attempt.with_tests && !second.with_tests
            &&& !(next_step(second, end_again, elapsed_again_ms) is Retry)
        },
{
}

/// A compilation that took too long ends the run.
pub proof fn law_timeout_ends_the_run(attempt: AttemptView, elapsed_ms: u64)
    ensures
        next_step(attempt, RunEnd::TimedOut, elapsed_ms) is Fail,
{
}

/// A compilation is given what is left of two hundred and twenty-five seconds,
/// in whole seconds; with less than forty-five of them left there is none.
pub proof fn law_compilation_is_given_what_is_left(elapsed_ms: u64)
    ensures
        elapsed_ms <= 180_000 ==> compile_budget(elapsed_ms) == Some(
            ((225_000 - elapsed_ms) / 1000) as u64,
        ),
        elapsed_ms > 180_000 ==> compile_budget(elapsed_ms) is None,
{
}

/// A run starts with a compilation of the tests too, in the root of the build;
/// one that fails is tried once more without the tests, where there is time,
/// and one that succeeds is read.
pub proof fn law_failed_tests_are_left_out(
    sbt: Seq<char>,
    root: Seq<char>,
    dir: Seq<char>,
    elapsed_ms: u64,
    end: RunEnd,
    later_ms: u64,
)
    requires
        elapsed_ms <= 180_000,
        end is Exited,
    ensures
        first_attempt(Some(sbt), root, Some(dir), elapsed_ms) matches Ok(a) && {
            &&& a.invocation.program == sbt
            &&& a.invocation.current_dir == dir
            &&& a.invocation.args == seq![
                "--server"@,
                "set every semanticdbEnabled := true"@,
                "compile"@,
                "Test/compile"@,
            ]
            &&& end->success ==> next_step(a, end, later_ms) is Read
            &&& !end->success && later_ms <= 180_000 ==> (next_step(
                a,
                end,
                later_ms,
            ) matches NextView::Retry(b) && b.invocation.program == sbt && b.invocation.current_dir
                == dir && b.invocation.args == seq![
                "--server"@,
                "set every semanticdbEnabled := true"@,
                "compile"@,
            ])
            &&& !end->success && later_ms > 180_000 ==> next_step(a, end, later_ms) is Fail
        },
{
}

/// Without sbt there is no run, and none without a build.
pub proof fn law_nothing_runs_without_a_build(
    sbt: Seq<char>,
    root: Seq<char>,
    sbt_root: Option<Seq<char>>,
    elapsed_ms: u64,
)
    ensures
        first_attempt(None, root, sbt_root, elapsed_ms) is Err,
        first_attempt(Some(sbt), root, None, elapsed_ms) == Err::<AttemptView, Seq<char>>(
            "no build.sbt found under "@ + root,
        ),
{
}

/// A build in the root of the repository is nothing to warn of; of one
/// elsewhere the warning names both places.
pub proof fn law_build_elsewhere_is_warned_of(
    repo_root: Seq<char>,
    sub: Seq<char>,
)
    requires
        repo_root.len() > 0,
        sub.len() > 0,
        sub != "."@,
        forall|i: int| 0 <= i < sub.len() ==> (#[trigger] sub[i]) != '/',
    ensures
        root_warning(repo_root, repo_root) is None,
        root_warning(repo_root, repo_root + seq!['/']) is None,
        root_warning(repo_root, repo_root + seq!['/'] + sub) matches Some(d) && d.code
            == "scala.build-root-not-granted"@ && crate::text::holds(d.message, repo_root)
            && crate::text::holds(d.message, repo_root + seq!['/'] + sub),
{
    crate::paths::law_same_path_whatever_the_slashes(repo_root, sub);
    let b = repo_root + seq!['/'] + sub;
    let m = root_not_granted(repo_root, b).message;
    let x = "Scala indexing is expected to fail on Linux for this layout: build.sbt is at "@;
    let y = ", not at the repo root "@;
    let z =
        ", so sbt writes its build output under a directory the travsr sandbox does not grant (the grants cover target/ and project/target/ relative to the repo root only) and the writes are denied."@;
    crate::version::lemma_middle_is_held(x, b, y + repo_root + z);
    assert(m =~= x + b + (y + repo_root + z));
    crate::version::lemma_middle_is_held(x + b + y, repo_root, z);
}

} // verus!
