//! Running an indexer as a child process: when to wait for it, when to kill
//! it, and what to say of how it ended.
use vstd::prelude::*;
use vstd::slice::slice_subrange;
use vstd::string::*;
use crate::columns::{lemma_encode_concat, lemma_utf8_push, utf8_len, utf8_width};
use crate::graph::{
    diagnostic_views, empty_response, DiagnosticView, InvokeResponse, PluginDiagnostic, ResponseView,
};
use crate::text::{chars_of, copy_text, decimal, push_decimal, string_of, trim, trimmed};

verus! {

/// What to do with a child process after looking at it.
#[derive(Debug, Clone, Copy, PartialEq, Eq, Structural)]
pub enum Poll {
    /// It has ended: see how.
    Collect,
    /// Its time is up: kill it.
    Kill,
    /// Look again after so many milliseconds.
    Sleep(u64),
}

/// What to do with a child process that has run for `elapsed_ms`.
pub open spec fn poll_step(exited: bool, elapsed_ms: u64, budget_secs: u64, interval_ms: u64) -> Poll {
    if exited {
        Poll::Collect
    } else if elapsed_ms >= budget_secs * 1000 {
        Poll::Kill
    } else {
        Poll::Sleep(interval_ms)
    }
}

/// What to do with a child process that has run for `elapsed_ms` of the time
/// that it is given.
pub fn next_poll(exited: bool, elapsed_ms: u64, budget_secs: u64, interval_ms: u64) -> (r: Poll)
    ensures
        r == poll_step(exited, elapsed_ms, budget_secs, interval_ms),
{
    if exited {
        Poll::Collect
    } else if elapsed_ms as u128 >= budget_secs as u128 * 1000 {
        Poll::Kill
    } else {
        Poll::Sleep(interval_ms)
    }
}

/// A child process is killed only if it still runs when its time is up, and
/// it is never waited for beyond that.
pub proof fn law_kill_exactly_at_deadline(
    exited: bool,
    elapsed_ms: u64,
    budget_secs: u64,
    interval_ms: u64,
)
    ensures
        poll_step(exited, elapsed_ms, budget_secs, interval_ms) == Poll::Kill <==> (!exited
            && elapsed_ms >= budget_secs * 1000),
        poll_step(exited, elapsed_ms, budget_secs, interval_ms) is Sleep ==> elapsed_ms
            < budget_secs * 1000,
{
}

/// How much of an output an error shows, in bytes.
pub const TAIL_BYTES: usize = 4000;

/// The number of characters to leave out, from `k` on, so that at most `max`
/// bytes are left.
pub open spec fn tail_start(s: Seq<char>, max: nat, k: int) -> int
    decreases s.len() - k,
{
    if k < 0 || k >= s.len() || utf8_len(s.skip(k)) <= max {
        k
    } else {
        tail_start(s, max, k + 1)
    }
}

/// The end of `s`: as many of its last characters as fit in `max` bytes.
pub open spec fn last_bytes(s: Seq<char>, max: nat) -> Seq<char> {
    s.skip(tail_start(s, max, 0))
}

proof fn lemma_skip_len(s: Seq<char>, k: int)
    requires
        0 <= k < s.len(),
    ensures
        utf8_len(s.skip(k)) == utf8_width(s[k]) + utf8_len(s.skip(k + 1)),
{
    let one = seq![s[k]];
    assert(s.skip(k) =~= one + s.skip(k + 1));
    lemma_encode_concat(one, s.skip(k + 1));
    lemma_utf8_push(Seq::empty(), s[k]);
}

proof fn lemma_tail_start(s: Seq<char>, max: nat, k: int)
    requires
        0 <= k <= s.len(),
    ensures
        k <= tail_start(s, max, k) <= s.len(),
        utf8_len(s.skip(tail_start(s, max, k))) <= max,
    decreases s.len() - k,
{
    if k < s.len() && utf8_len(s.skip(k)) > max {
        lemma_tail_start(s, max, k + 1);
    }
}

fn tail_chars(chars: &[char], total: usize, max: usize) -> (r: usize)
    requires
        total == utf8_len(chars@),
    ensures
        r == tail_start(chars@, max as nat, 0),
        r <= chars@.len(),
{
    let n: usize = chars.len();
    let mut left: usize = total;
    let mut k: usize = 0;
    assert(chars@.skip(0) =~= chars@);
    while k < n && left > max
        invariant
            k <= n,
            n == chars@.len(),
            left == utf8_len(chars@.skip(k as int)),
            tail_start(chars@, max as nat, 0) == tail_start(chars@, max as nat, k as int),
        decreases n - k,
    {
        proof {
            lemma_skip_len(chars@, k as int);
        }
        let c: u32 = chars[k] as u32;
        left = left - if c < 0x80 { 1 } else if c < 0x800 { 2 } else if c < 0x10000 { 3 } else { 4 };
        k += 1;
    }
    k
}

/// The last `max` bytes of `s`, cut at a character, with a mark where
/// something was cut off.
pub open spec fn tail_text(s: Seq<char>, max: nat, mark: Seq<char>) -> Seq<char> {
    if utf8_len(s) <= max {
        s
    } else {
        mark + last_bytes(s, max)
    }
}

fn marked_tail(s: &str, max_bytes: usize, mark: &str) -> (r: String)
    ensures
        r@ == tail_text(s@, max_bytes as nat, mark@),
{
    let total: usize = s.as_bytes().len();
    if total <= max_bytes {
        return copy_text(s);
    }
    let chars = chars_of(s);
    let k: usize = tail_chars(chars.as_slice(), total, max_bytes);
    let rest = slice_subrange(chars.as_slice(), k, chars.len());
    let mut out = String::new();
    out.append(mark);
    out.append(string_of(rest).as_str());
    out
}

/// The last `max_bytes` bytes of `s`, cut at a character, behind a line that
/// says so where something was cut off.
pub fn tail(s: &str, max_bytes: usize) -> (r: String)
    ensures
        r@ == tail_text(s@, max_bytes as nat, "...(truncated)...\n"@),
{
    marked_tail(s, max_bytes, "...(truncated)...\n")
}

/// The output that tells why a build failed: what it wrote to its error
/// stream, or else to its output.
pub open spec fn telling(stderr: Seq<char>, stdout: Seq<char>) -> Seq<char> {
    if trim(stderr).len() == 0 {
        stdout
    } else {
        stderr
    }
}

/// The end of the output that tells why a build failed.
pub open spec fn tail_lines_text(stderr: Seq<char>, stdout: Seq<char>) -> Seq<char> {
    tail_text(telling(stderr, stdout), TAIL_BYTES as nat, "\u{2026}"@)
}

/// The end of the output that tells why a build failed.
pub fn tail_lines(stderr: &str, stdout: &str) -> (r: String)
    ensures
        r@ == tail_lines_text(stderr@, stdout@),
{
    let chars = chars_of(stderr);
    let src = if trimmed(chars.as_slice()).len() == 0 {
        stdout
    } else {
        stderr
    };
    marked_tail(src, TAIL_BYTES, "\u{2026}")
}

/// What is left of an output never takes more bytes than it may, and is its
/// very end.
pub proof fn law_tail_is_a_bounded_end(s: Seq<char>, max: nat)
    ensures
        utf8_len(last_bytes(s, max)) <= max,
        exists|k: int| 0 <= k <= s.len() && last_bytes(s, max) == #[trigger] s.skip(k),
{
    lemma_tail_start(s, max, 0);
}

/// How a child process ended.
#[derive(Debug)]
pub enum RunEnd {
    Exited { success: bool, status: String, stdout: String, stderr: String },
    TimedOut,
}

/// How an error shows what a child process wrote.
#[derive(Debug, Clone, Copy, PartialEq, Eq, Structural)]
pub enum Report {
    /// All that it wrote to its error stream.
    Whole,
    /// The end of that.
    Tail,
    /// The end of that, on lines of its own.
    TailLines,
    /// The end of what tells why it failed, on lines of its own.
    Telling,
}

/// What to say of a child process that took too long.
pub open spec fn timeout_text(name: Seq<char>, secs: u64) -> Seq<char> {
    name + " timed out after "@ + decimal(secs as nat) + "s"@
}

/// What a child process wrote, as an error shows it.
pub open spec fn reported(report: Report, stdout: Seq<char>, stderr: Seq<char>) -> Seq<char> {
    match report {
        Report::Whole => ": "@ + stderr,
        Report::Tail => ": "@ + tail_text(stderr, TAIL_BYTES as nat, "...(truncated)...\n"@),
        Report::TailLines => ":\n"@ + tail_text(
            stderr,
            TAIL_BYTES as nat,
            "...(truncated)...\n"@,
        ),
        Report::Telling => ":\n"@ + tail_lines_text(stderr, stdout),
    }
}

/// What to say of a child process that failed.
pub open spec fn failure_text(
    name: Seq<char>,
    status: Seq<char>,
    report: Report,
    stdout: Seq<char>,
    stderr: Seq<char>,
) -> Seq<char> {
    name + " exited with "@ + status + reported(report, stdout, stderr)
}

/// What to say of a child process that took too long.
pub fn timeout_message(name: &str, secs: u64) -> (r: String)
    ensures
        r@ == timeout_text(name@, secs),
{
    let mut s = copy_text(name);
    s.append(" timed out after ");
    push_decimal(&mut s, secs);
    s.append("s");
    s
}

/// How to speak of a child process: its name when it takes too long and when
/// it fails, how long it may take, and how much of what it wrote to show.
#[derive(Debug)]
pub struct RunNames {
    pub timeout_name: String,
    pub exit_name: String,
    pub budget_secs: u64,
    pub report: Report,
}

/// Whether a run succeeded, or what to say of it.
pub open spec fn run_failure(names: RunNames, end: RunEnd) -> Option<Seq<char>> {
    match end {
        RunEnd::TimedOut => Some(timeout_text(names.timeout_name@, names.budget_secs)),
        RunEnd::Exited { success, status, stdout, stderr } => if success {
            None
        } else {
            Some(failure_text(names.exit_name@, status@, names.report, stdout@, stderr@))
        },
    }
}

impl RunNames {
    /// Whether a run succeeded, or what to say of it.
    pub fn check(&self, end: &RunEnd) -> (r: Result<(), String>)
        ensures
            match r {
                Ok(_) => run_failure(*self, *end) is None,
                Err(e) => run_failure(*self, *end) == Some(e@),
            },
    {
        match end {
            RunEnd::TimedOut => Err(timeout_message(self.timeout_name.as_str(), self.budget_secs)),
            RunEnd::Exited { success, status, stdout, stderr } => {
                if *success {
                    return Ok(());
                }
                let mut s = copy_text(self.exit_name.as_str());
                s.append(" exited with ");
                s.append(status.as_str());
                match self.report {
                    Report::Whole => {
                        s.append(": ");
                        s.append(stderr.as_str());
                    },
                    Report::Tail => {
                        s.append(": ");
                        s.append(tail(stderr.as_str(), TAIL_BYTES).as_str());
                    },
                    Report::TailLines => {
                        s.append(":\n");
                        s.append(tail(stderr.as_str(), TAIL_BYTES).as_str());
                    },
                    Report::Telling => {
                        s.append(":\n");
                        s.append(tail_lines(stderr.as_str(), stdout.as_str()).as_str());
                    },
                }
                Err(s)
            },
        }
    }
}

/// What a run gave, or nothing where it failed.
pub open spec fn given(result: Result<InvokeResponse, String>) -> ResponseView {
    match result {
        Ok(r) => r@,
        Err(_) => empty_response(),
    }
}

/// The outcome of a run as one response, with the warnings that came up on
/// the way.
pub fn into_response(
    result: Result<InvokeResponse, String>,
    diagnostics: Vec<PluginDiagnostic>,
) -> (r: InvokeResponse)
    ensures
        r@ == (ResponseView {
            diagnostics: given(result).diagnostics + diagnostic_views(diagnostics@),
            ..given(result)
        }),
{
    let response = match result {
        Ok(r) => r,
        Err(_) => InvokeResponse::empty(),
    };
    let mut kept = response.diagnostics;
    let ghost held = diagnostic_views(kept@);
    let ghost all = diagnostic_views(diagnostics@);
    for d in it: diagnostics
        invariant
            all == diagnostic_views(it.seq()),
            diagnostic_views(kept@) == held + all.take(it.index() as int),
    {
        let ghost before = kept@;
        kept.push(d);
        assert(diagnostic_views(kept@) =~= diagnostic_views(before).push(d@));
    }
    assert(all.take(all.len() as int) =~= all);
    InvokeResponse {
        nodes: response.nodes,
        edges: response.edges,
        refs: response.refs,
        unresolved_calls: response.unresolved_calls,
        diagnostics: kept,
    }
}

/// A warning that came up on the way reaches the user whether or not the run
/// succeeds.
pub proof fn law_diagnostics_survive(
    result: Result<InvokeResponse, String>,
    diagnostics: Seq<DiagnosticView>,
    d: DiagnosticView,
)
    requires
        diagnostics.contains(d),
    ensures
        (given(result).diagnostics + diagnostics).contains(d),
{
    let i = choose|i: int| 0 <= i < diagnostics.len() && diagnostics[i] == d;
    assert((given(result).diagnostics + diagnostics)[given(result).diagnostics.len() + i] == d);
}

/// The end that is kept of an output is the longest that fits: every other end
/// that fits is an end of it.
pub proof fn law_tail_keeps_all_that_fits(s: Seq<char>, max: nat, k: int)
    requires
        0 <= k <= s.len(),
        utf8_len(s.skip(k)) <= max,
    ensures
        last_bytes(s, max).len() >= s.len() - k,
        last_bytes(s, max).skip(last_bytes(s, max).len() - (s.len() - k)) == s.skip(k),
{
    lemma_tail_start(s, max, 0);
    lemma_tail_is_first(s, max, 0, k);
    let t = last_bytes(s, max);
    assert(t.skip(t.len() - (s.len() - k)) =~= s.skip(k));
}

proof fn lemma_tail_is_first(s: Seq<char>, max: nat, i: int, k: int)
    requires
        0 <= i <= k <= s.len(),
        utf8_len(s.skip(k)) <= max,
    ensures
        tail_start(s, max, i) <= k,
    decreases k - i,
{
    if i < k && utf8_len(s.skip(i)) > max {
        lemma_tail_is_first(s, max, i + 1, k);
    }
}

/// An output of up to four thousand bytes is shown as it is, behind what
/// failed and how it ended: the error stream or, of a build whose error stream
/// is blank, its output.
pub proof fn law_short_output_is_shown_whole(
    name: Seq<char>,
    status: Seq<char>,
    stdout: Seq<char>,
    stderr: Seq<char>,
)
    requires
        vstd::utf8::encode_utf8(stdout).len() <= 4000,
        vstd::utf8::encode_utf8(stderr).len() <= 4000,
    ensures
        failure_text(name, status, Report::Whole, stdout, stderr) == name + " exited with "@ + status
            + (": "@ + stderr),
        failure_text(name, status, Report::Tail, stdout, stderr) == name + " exited with "@ + status
            + (": "@ + stderr),
        failure_text(name, status, Report::TailLines, stdout, stderr) == name + " exited with "@
            + status + (":\n"@ + stderr),
        (forall|i: int| 0 <= i < stderr.len() ==> crate::text::is_white(#[trigger] stderr[i]))
            ==> failure_text(name, status, Report::Telling, stdout, stderr) == name
            + " exited with "@ + status + (":\n"@ + stdout),
        (exists|i: int| 0 <= i < stderr.len() && !crate::text::is_white(#[trigger] stderr[i]))
            ==> failure_text(name, status, Report::Telling, stdout, stderr) == name
            + " exited with "@ + status + (":\n"@ + stderr),
{
    crate::text::law_trim_leaves_nothing_of_blanks(stderr);
}

/// A longer output is shown from where four thousand bytes are left, behind a
/// mark that something was cut off.
pub proof fn law_long_output_is_cut(
    name: Seq<char>,
    status: Seq<char>,
    stdout: Seq<char>,
    stderr: Seq<char>,
    k: int,
)
    requires
        0 < k <= stderr.len(),
        vstd::utf8::encode_utf8(stderr.skip(k)).len() <= 4000,
        vstd::utf8::encode_utf8(stderr.skip(k - 1)).len() > 4000,
    ensures
        failure_text(name, status, Report::Tail, stdout, stderr) == name + " exited with "@ + status
            + (": "@ + ("...(truncated)...\n"@ + stderr.skip(k))),
        failure_text(name, status, Report::TailLines, stdout, stderr) == name + " exited with "@
            + status + (":\n"@ + ("...(truncated)...\n"@ + stderr.skip(k))),
{
    lemma_tail_is_first(stderr, 4000, 0, k);
    lemma_tail_start(stderr, 4000, 0);
    let t = tail_start(stderr, 4000, 0);
    lemma_skips_shrink(stderr, 0, k - 1);
    if t < k {
        lemma_skips_shrink(stderr, t, k - 1);
    }
    assert(stderr.skip(0) =~= stderr);
}

proof fn lemma_skips_shrink(s: Seq<char>, i: int, j: int)
    requires
        0 <= i <= j <= s.len(),
    ensures
        utf8_len(s.skip(i)) >= utf8_len(s.skip(j)),
    decreases j - i,
{
    if i < j {
        lemma_skip_len(s, i);
        lemma_skips_shrink(s, i + 1, j);
    }
}

/// A run that succeeds is no failure. One that takes too long is told by its
/// name and how long it had, and one that fails by its name and status first.
pub proof fn law_failed_run_is_named(names: RunNames, end: RunEnd)
    ensures
        end matches RunEnd::TimedOut ==> run_failure(names, end) == Some(
            names.timeout_name@ + " timed out after "@ + decimal(names.budget_secs as nat) + "s"@,
        ),
        end matches RunEnd::Exited { success, status, stdout, stderr } ==> {
            &&& success ==> run_failure(names, end) is None
            &&& !success ==> (run_failure(names, end) matches Some(text)
                && crate::text::starts_with(text, names.exit_name@ + " exited with "@ + status@))
        },
{
    match end {
        RunEnd::TimedOut => {},
        RunEnd::Exited { success, status, stdout, stderr } => {
            let head = names.exit_name@ + " exited with "@ + status@;
            let text = failure_text(names.exit_name@, status@, names.report, stdout@, stderr@);
            assert(text.take(head.len() as int) =~= head);
        },
    }
}

} // verus!
