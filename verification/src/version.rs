//! The emitters of Swift and Dart: where they are, and whether the one that
//! was found is the build that is expected.
use vstd::prelude::*;
use vstd::string::*;
use crate::dotnet::{first_installation, first_sdk, inside, parent_of, parent_path, path_inside, Installation};
use crate::graph::{
    diagnostic_views, text_in, DiagnosticView, InvokeResponse, PluginDiagnostic, ResponseView,
};
use crate::indexers::{no_texts, opt_text, push_text};
use crate::run::{Report, RunNames};
use crate::text::{
    chars_of, copy_text, final_word, is_among, last_word, lines, lines_of, same_text, string_of, texts, trim,
    trimmed,
};

verus! {

/// The analyzers that are built apart from their indexers.
#[derive(Debug, Clone, Copy, PartialEq, Eq, Structural)]
pub enum Emitter {
    Swift,
    Dart,
}

/// How long an emitter may take to say its version, in seconds.
pub const VERSION_PROBE_SECS: u64 = 10;

/// How often to look whether it has, in milliseconds.
pub const VERSION_POLL_MS: u64 = 50;

/// How much of what it says is read, in bytes.
pub const VERSION_LINE_MAX_BYTES: u64 = 256;

/// What lies in the SDK of Dart and nowhere else.
pub const DART_SDK_MARKER: &'static str = "lib/_internal/allowed_experiments.json";

impl Emitter {
    /// The language that it analyses.
    pub open spec fn language_name(self) -> Seq<char> {
        match self {
            Emitter::Swift => "swift"@,
            Emitter::Dart => "dart"@,
        }
    }

    /// The language that it analyses.
    pub fn name(self) -> (r: &'static str)
        ensures
            r@ == self.language_name(),
    {
        match self {
            Emitter::Swift => "swift",
            Emitter::Dart => "dart",
        }
    }

    /// The variable that says where it is.
    pub fn variable(self) -> (r: &'static str)
        ensures
            r@ == match self {
                Emitter::Swift => "TRAVSR_SWIFT_EMITTER"@,
                Emitter::Dart => "TRAVSR_DART_EMITTER"@,
            },
    {
        match self {
            Emitter::Swift => "TRAVSR_SWIFT_EMITTER",
            Emitter::Dart => "TRAVSR_DART_EMITTER",
        }
    }

    /// What to say when it is not found.
    pub fn missing_message(self) -> (r: &'static str)
        ensures
            r@ == match self {
                Emitter::Swift => {
                    "swift-index-emitter not found. Run `cd packages/swift-index-emitter && swift build -c release` or set $TRAVSR_SWIFT_EMITTER"@
                },
                Emitter::Dart => {
                    "travsr-dart-index-emitter not found. set $TRAVSR_DART_EMITTER or run `travsr lang install dart`"@
                },
            },
    {
        match self {
            Emitter::Swift => {
                "swift-index-emitter not found. Run `cd packages/swift-index-emitter && swift build -c release` or set $TRAVSR_SWIFT_EMITTER"
            },
            Emitter::Dart => {
                "travsr-dart-index-emitter not found. set $TRAVSR_DART_EMITTER or run `travsr lang install dart`"
            },
        }
    }

    /// How to speak of a run of it.
    pub fn run_names(self) -> (r: RunNames)
        ensures
            r.timeout_name@ == match self {
                Emitter::Swift => "swift emitter"@,
                Emitter::Dart => "dart-index-emitter"@,
            },
            r.exit_name@ == match self {
                Emitter::Swift => "swift emitter"@,
                Emitter::Dart => "dart emitter"@,
            },
            r.budget_secs == 300,
            r.report == Report::Whole,
    {
        let (timeout_name, exit_name) = match self {
            Emitter::Swift => ("swift emitter", "swift emitter"),
            Emitter::Dart => ("dart-index-emitter", "dart emitter"),
        };
        RunNames {
            timeout_name: copy_text(timeout_name),
            exit_name: copy_text(exit_name),
            budget_secs: 300,
            report: Report::Whole,
        }
    }

    /// Where it is built inside its repository.
    pub open spec fn built_at(self) -> Seq<Seq<char>> {
        match self {
            Emitter::Swift => seq![
                "packages"@,
                "swift-index-emitter"@,
                ".build"@,
                "release"@,
                "swift-index-emitter"@,
            ],
            Emitter::Dart => seq!["packages"@, "dart-scip-emitter"@, "bin"@, "emit-native"@],
        }
    }

    /// The name that it is installed under.
    pub open spec fn installed_as(self) -> Seq<char> {
        match self {
            Emitter::Swift => "travsr-swift-index-emitter"@,
            Emitter::Dart => "travsr-dart-index-emitter"@,
        }
    }
}

/// The path of `parts`, one inside the other, in the directory `dir`.
pub open spec fn inside_all(dir: Seq<char>, parts: Seq<Seq<char>>, windows: bool) -> Seq<char>
    decreases parts.len(),
{
    if parts.len() == 0 {
        dir
    } else {
        inside(inside_all(dir, parts.drop_last(), windows), parts.last(), windows)
    }
}

fn path_inside_all(dir: &str, parts: &Vec<String>, windows: bool) -> (r: String)
    ensures
        r@ == inside_all(dir@, texts(parts@), windows),
{
    let ghost all = texts(parts@);
    let mut out = copy_text(dir);
    let mut i: usize = 0;
    while i < parts.len()
        invariant
            i <= parts@.len(),
            all == texts(parts@),
            out@ == inside_all(dir@, all.take(i as int), windows),
        decreases parts@.len() - i,
    {
        assert(all.take(i + 1).drop_last() =~= all.take(i as int));
        out = path_inside(out.as_str(), parts[i].as_str(), windows);
        i += 1;
    }
    assert(all.take(i as int) =~= all);
    out
}

/// The path `dir`, where it is known.
pub open spec fn one(o: Option<Seq<char>>) -> Seq<Seq<char>> {
    match o {
        Some(s) => seq![s],
        None => Seq::empty(),
    }
}

/// The directory that the directory of a path lies in.
pub open spec fn grandparent(s: Seq<char>, windows: bool) -> Option<Seq<char>> {
    match parent_of(s, windows) {
        Some(p) => parent_of(p, windows),
        None => None,
    }
}

/// The repository that an indexer was built in, if it was: three levels above
/// it.
pub open spec fn repository_of(exe: Seq<char>, windows: bool) -> Option<Seq<char>> {
    match grandparent(exe, windows) {
        Some(p) => parent_of(p, windows),
        None => None,
    }
}

/// Where an emitter may be: where its variable says, where it is built in the
/// repository that the indexer was built in, and beside the indexer.
pub open spec fn emitter_locations(
    emitter: Emitter,
    variable: Option<Seq<char>>,
    exe: Option<Seq<char>>,
    windows: bool,
) -> Seq<Seq<char>> {
    one(variable) + match exe {
        None => Seq::empty(),
        Some(e) => one(
            match repository_of(e, windows) {
                Some(root) => Some(inside_all(root, emitter.built_at(), windows)),
                None => None,
            },
        ) + one(
            match parent_of(e, windows) {
                Some(dir) => Some(inside(dir, emitter.installed_as(), windows)),
                None => None,
            },
        ),
    }
}

/// The directory that the directory of a path lies in.
pub fn grandparent_path(s: &str, windows: bool) -> (r: Option<String>)
    ensures
        text_in(r) == grandparent(s@, windows),
{
    match parent_path(s, windows) {
        Some(p) => parent_path(p.as_str(), windows),
        None => None,
    }
}

fn build_parts(emitter: Emitter) -> (r: Vec<String>)
    ensures
        texts(r@) == emitter.built_at(),
{
    let mut v = no_texts();
    push_text(&mut v, "packages");
    match emitter {
        Emitter::Swift => {
            push_text(&mut v, "swift-index-emitter");
            push_text(&mut v, ".build");
            push_text(&mut v, "release");
            push_text(&mut v, "swift-index-emitter");
        },
        Emitter::Dart => {
            push_text(&mut v, "dart-scip-emitter");
            push_text(&mut v, "bin");
            push_text(&mut v, "emit-native");
        },
    }
    v
}

/// Where an emitter may be, the first choice first.
pub fn emitter_candidates(
    emitter: Emitter,
    variable: Option<&str>,
    exe: Option<&str>,
    windows: bool,
) -> (r: Vec<String>)
    ensures
        texts(r@) == emitter_locations(emitter, opt_text(variable), opt_text(exe), windows),
{
    let mut out = no_texts();
    match variable {
        Some(v) => {
            push_text(&mut out, v);
        },
        None => {},
    }
    let exe = match exe {
        Some(e) => e,
        None => {
            return out;
        },
    };
    match grandparent_path(exe, windows) {
        Some(p) => {
            match parent_path(p.as_str(), windows) {
                Some(root) => {
                    let parts = build_parts(emitter);
                    push_text(&mut out, path_inside_all(root.as_str(), &parts, windows).as_str());
                },
                None => {},
            }
        },
        None => {},
    }
    match parent_path(exe, windows) {
        Some(dir) => {
            let name = match emitter {
                Emitter::Swift => "travsr-swift-index-emitter",
                Emitter::Dart => "travsr-dart-index-emitter",
            };
            push_text(&mut out, path_inside(dir.as_str(), name, windows).as_str());
        },
        None => {},
    }
    out
}

/// The first text of `v`, from `i` on, that is among `present`.
pub open spec fn first_present(
    v: Seq<Seq<char>>,
    present: Seq<Seq<char>>,
    i: int,
) -> Option<Seq<char>>
    decreases v.len() - i,
{
    if i < 0 || i >= v.len() {
        None
    } else if present.contains(v[i]) {
        Some(v[i])
    } else {
        first_present(v, present, i + 1)
    }
}

/// The emitter to use: the first of the places where it may be that is among
/// those that exist.
pub fn emitter_path(
    emitter: Emitter,
    variable: Option<&str>,
    exe: Option<&str>,
    windows: bool,
    existing: &Vec<String>,
) -> (r: Option<String>)
    ensures
        text_in(r) == first_present(
            emitter_locations(emitter, opt_text(variable), opt_text(exe), windows),
            texts(existing@),
            0,
        ),
{
    let places = emitter_candidates(emitter, variable, exe, windows);
    let ghost all = texts(places@);
    let mut i: usize = 0;
    while i < places.len()
        invariant
            i <= places@.len(),
            all == texts(places@),
            first_present(all, texts(existing@), 0) == first_present(
                all,
                texts(existing@),
                i as int,
            ),
            all == emitter_locations(emitter, opt_text(variable), opt_text(exe), windows),
        decreases places@.len() - i,
    {
        if is_among(places[i].as_str(), existing) {
            return Some(copy_text(places[i].as_str()));
        }
        i += 1;
    }
    None
}

proof fn lemma_first_present(v: Seq<Seq<char>>, present: Seq<Seq<char>>, i: int)
    requires
        0 <= i,
    ensures
        match first_present(v, present, i) {
            Some(p) => v.contains(p) && present.contains(p),
            None => forall|k: int| i <= k < v.len() ==> !present.contains(#[trigger] v[k]),
        },
    decreases v.len() - i,
{
    if i < v.len() && !present.contains(v[i]) {
        lemma_first_present(v, present, i + 1);
    }
}

/// The emitter that is used exists and is in one of the places where it may
/// be; none is used only where none exists there.
pub proof fn law_emitter_exists(
    emitter: Emitter,
    variable: Option<Seq<char>>,
    exe: Option<Seq<char>>,
    windows: bool,
    existing: Seq<Seq<char>>,
)
    ensures
        ({
            let places = emitter_locations(emitter, variable, exe, windows);
            match first_present(places, existing, 0) {
                Some(p) => places.contains(p) && existing.contains(p),
                None => forall|k: int|
                    0 <= k < places.len() ==> !existing.contains(#[trigger] places[k]),
            }
        }),
{
    lemma_first_present(emitter_locations(emitter, variable, exe, windows), existing, 0);
}

/// The first line of `s`, without the white space around it.
pub open spec fn first_line(s: Seq<char>) -> Seq<char> {
    if lines(s).len() > 0 {
        trim(lines(s)[0])
    } else {
        trim(s)
    }
}

/// The last word of `s`, or `s` where it has none.
pub open spec fn last_word_or_whole(s: Seq<char>) -> Seq<char> {
    match last_word(s) {
        Some(w) => w,
        None => s,
    }
}

/// The version in what an emitter says of itself.
pub open spec fn reported_version(emitter: Emitter, line: Seq<char>) -> Seq<char> {
    match emitter {
        Emitter::Swift => last_word_or_whole(line),
        Emitter::Dart => last_word_or_whole(first_line(line)),
    }
}

/// The version in what an emitter says of itself: the last word, for Dart of
/// the first line.
pub fn version_field(emitter: Emitter, line: &str) -> (r: String)
    ensures
        r@ == reported_version(emitter, line@),
{
    let chars = chars_of(line);
    match emitter {
        Emitter::Swift => match final_word(chars.as_slice()) {
            Some(w) => string_of(w),
            None => copy_text(line),
        },
        Emitter::Dart => {
            let all = lines_of(chars.as_slice());
            let head = if all.len() > 0 {
                chars_of(all[0].as_str())
            } else {
                chars
            };
            let first = trimmed(head.as_slice());
            match final_word(first) {
                Some(w) => string_of(w),
                None => string_of(first),
            }
        },
    }
}

/// What a program printed, without the white space around it, unless it
/// failed or printed nothing.
pub open spec fn printed(success: bool, out: Seq<char>) -> Option<Seq<char>> {
    if success && trim(out).len() > 0 {
        Some(trim(out))
    } else {
        None
    }
}

/// What a program printed, unless it failed or printed nothing.
pub fn printed_line(success: bool, out: &str) -> (r: Option<String>)
    ensures
        text_in(r) == printed(success, out@),
{
    let chars = chars_of(out);
    let t = trimmed(chars.as_slice());
    if success && t.len() > 0 {
        Some(string_of(t))
    } else {
        None
    }
}

/// The warning about an emitter that cannot say its version.
pub open spec fn unsupported(name: Seq<char>, at: Seq<char>, expected: Seq<char>) -> DiagnosticView {
    DiagnosticView {
        code: "emitter.version-unsupported"@,
        message: "the "@ + name + " index emitter at "@ + at
            + " does not support `--version`, so it predates this sidecar (v"@ + expected
            + ") and its output may not reflect the current emitter source. `cargo build` does not rebuild it."@,
    }
}

/// The warning about an emitter of another version.
pub open spec fn mismatch(
    name: Seq<char>,
    at: Seq<char>,
    line: Seq<char>,
    expected: Seq<char>,
) -> DiagnosticView {
    DiagnosticView {
        code: "emitter.version-mismatch"@,
        message: "the "@ + name + " index emitter at "@ + at + " reports "@ + line
            + ", but this sidecar is v"@ + expected
            + ". Its output may not reflect the current emitter source; `cargo build` does not rebuild it."@,
    }
}

/// What to warn of, given what the emitter at `at` said of itself.
pub open spec fn verdict(
    emitter: Emitter,
    at: Seq<char>,
    reported: Option<Seq<char>>,
    expected: Seq<char>,
) -> Option<DiagnosticView> {
    match reported {
        None => Some(unsupported(emitter.language_name(), at, expected)),
        Some(line) => if reported_version(emitter, line) != expected {
            Some(mismatch(emitter.language_name(), at, line, expected))
        } else {
            None
        },
    }
}

/// What `o` holds.
pub open spec fn diagnostic_view(o: Option<PluginDiagnostic>) -> Option<DiagnosticView> {
    match o {
        Some(d) => Some(d@),
        None => None,
    }
}

/// What to warn of, given what the emitter at `at` said of itself: that it
/// cannot say its version, or that this is another than expected. It is used
/// all the same.
pub fn version_verdict(
    emitter: Emitter,
    at: &str,
    reported: Option<&str>,
    expected: &str,
) -> (r: Option<PluginDiagnostic>)
    ensures
        diagnostic_view(r) == verdict(emitter, at@, opt_text(reported), expected@),
{
    let name = emitter.name();
    match reported {
        None => {
            let mut m = copy_text("the ");
            m.append(name);
            m.append(" index emitter at ");
            m.append(at);
            m.append(" does not support `--version`, so it predates this sidecar (v");
            m.append(expected);
            m.append(
                ") and its output may not reflect the current emitter source. `cargo build` does not rebuild it.",
            );
            Some(PluginDiagnostic { code: copy_text("emitter.version-unsupported"), message: m })
        },
        Some(line) => {
            if same_text(version_field(emitter, line).as_str(), expected) {
                return None;
            }
            let mut m = copy_text("the ");
            m.append(name);
            m.append(" index emitter at ");
            m.append(at);
            m.append(" reports ");
            m.append(line);
            m.append(", but this sidecar is v");
            m.append(expected);
            m.append(
                ". Its output may not reflect the current emitter source; `cargo build` does not rebuild it.",
            );
            Some(PluginDiagnostic { code: copy_text("emitter.version-mismatch"), message: m })
        },
    }
}

/// What tells one build of an emitter from another: where it is, and for Dart
/// when it was built.
pub struct BuildKey {
    pub path: Seq<char>,
    pub modified: Option<u64>,
}

/// The key of the build at `path`, which was last modified at `modified`.
pub open spec fn build_key(emitter: Emitter, path: Seq<char>, modified: Option<u64>) -> BuildKey {
    BuildKey {
        path,
        modified: match emitter {
            Emitter::Swift => None,
            Emitter::Dart => modified,
        },
    }
}

/// What was found of a build.
#[derive(Debug)]
pub struct Verdict {
    path: String,
    modified: Option<u64>,
    diagnostic: Option<PluginDiagnostic>,
}

/// What was found of the builds that were asked for their version.
#[derive(Debug)]
pub struct VerdictCache {
    verdicts: Vec<Verdict>,
}

/// The verdicts of `v` by build; a later one replaces an earlier one.
closed spec fn verdict_map(v: Seq<Verdict>) -> Map<BuildKey, Option<DiagnosticView>>
    decreases v.len(),
{
    if v.len() == 0 {
        Map::empty()
    } else {
        verdict_map(v.drop_last()).insert(
            BuildKey { path: v.last().path@, modified: v.last().modified },
            diagnostic_view(v.last().diagnostic),
        )
    }
}

impl View for VerdictCache {
    type V = Map<BuildKey, Option<DiagnosticView>>;

    closed spec fn view(&self) -> Map<BuildKey, Option<DiagnosticView>> {
        verdict_map(self.verdicts@)
    }
}

fn copy_diagnostic(d: &Option<PluginDiagnostic>) -> (r: Option<PluginDiagnostic>)
    ensures
        diagnostic_view(r) == diagnostic_view(*d),
{
    match d {
        Some(x) => Some(
            PluginDiagnostic {
                code: copy_text(x.code.as_str()),
                message: copy_text(x.message.as_str()),
            },
        ),
        None => None,
    }
}

fn same_time(a: Option<u64>, b: Option<u64>) -> (r: bool)
    ensures
        r == (a == b),
{
    match (a, b) {
        (Some(x), Some(y)) => x == y,
        (None, None) => true,
        _ => false,
    }
}

impl VerdictCache {
    /// Nothing was asked yet.
    pub fn new() -> (r: VerdictCache)
        ensures
            r@ == Map::<BuildKey, Option<DiagnosticView>>::empty(),
    {
        VerdictCache { verdicts: Vec::new() }
    }

    /// What was found of this build, if it was asked.
    pub fn cached(
        &self,
        emitter: Emitter,
        path: &str,
        modified: Option<u64>,
    ) -> (r: Option<Option<PluginDiagnostic>>)
        ensures
            match r {
                Some(d) => self@.contains_key(build_key(emitter, path@, modified)) && self@[build_key(
                    emitter,
                    path@,
                    modified,
                )] == diagnostic_view(d),
                None => !self@.contains_key(build_key(emitter, path@, modified)),
            },
    {
        let time = match emitter {
            Emitter::Swift => None,
            Emitter::Dart => modified,
        };
        let ghost key = build_key(emitter, path@, modified);
        let mut n: usize = self.verdicts.len();
        assert(self.verdicts@.take(n as int) =~= self.verdicts@);
        while n > 0
            invariant
                n <= self.verdicts@.len(),
                key == build_key(emitter, path@, modified),
                key == (BuildKey { path: path@, modified: time }),
                self@.contains_key(key) == verdict_map(self.verdicts@.take(n as int)).contains_key(
                    key,
                ),
                self@.contains_key(key) ==> self@[key] == verdict_map(
                    self.verdicts@.take(n as int),
                )[key],
            decreases n,
        {
            let ghost now = self.verdicts@.take(n as int);
            assert(now.drop_last() =~= self.verdicts@.take(n - 1));
            let v = &self.verdicts[n - 1];
            if same_text(v.path.as_str(), path) && same_time(v.modified, time) {
                return Some(copy_diagnostic(&v.diagnostic));
            }
            n -= 1;
        }
        None
    }

    /// Remembers what was found of this build, and returns it.
    pub fn check_emitter_version(
        &mut self,
        emitter: Emitter,
        path: &str,
        modified: Option<u64>,
        reported: Option<&str>,
        expected: &str,
    ) -> (r: Option<PluginDiagnostic>)
        ensures
            diagnostic_view(r) == verdict(emitter, path@, opt_text(reported), expected@),
            final(self)@ == old(self)@.insert(
                build_key(emitter, path@, modified),
                diagnostic_view(r),
            ),
    {
        let d = version_verdict(emitter, path, reported, expected);
        let kept = Verdict {
            path: copy_text(path),
            modified: match emitter {
                Emitter::Swift => None,
                Emitter::Dart => modified,
            },
            diagnostic: copy_diagnostic(&d),
        };
        let ghost before = self.verdicts@;
        self.verdicts.push(kept);
        assert(self.verdicts@.drop_last() =~= before);
        d
    }
}

/// No warning comes exactly where the version that is reported is the one
/// that is expected.
pub proof fn law_silence_means_same_version(
    emitter: Emitter,
    at: Seq<char>,
    reported: Option<Seq<char>>,
    expected: Seq<char>,
)
    ensures
        verdict(emitter, at, reported, expected) is None <==> (reported is Some
            && reported_version(emitter, reported->0) == expected),
{
}

/// A build of Dart's emitter that was made anew counts as another build; one
/// of Swift's does not.
pub proof fn law_rebuild_is_another_build(path: Seq<char>, a: Option<u64>, b: Option<u64>)
    ensures
        build_key(Emitter::Dart, path, a) == build_key(Emitter::Dart, path, b) <==> a == b,
        build_key(Emitter::Swift, path, a) == build_key(Emitter::Swift, path, b),
{
}

/// What was found of a build is found again, and what was found of another is
/// left alone.
pub proof fn law_verdict_is_remembered(
    cache: Map<BuildKey, Option<DiagnosticView>>,
    build: BuildKey,
    found: Option<DiagnosticView>,
    other: BuildKey,
)
    ensures
        cache.insert(build, found).contains_key(build),
        cache.insert(build, found)[build] == found,
        other != build ==> {
            &&& cache.insert(build, found).contains_key(other) == cache.contains_key(other)
            &&& cache.contains_key(other) ==> cache.insert(build, found)[other] == cache[other]
        },
{
}

/// A response with a warning behind those that it holds.
pub open spec fn with_warning(r: ResponseView, d: Option<DiagnosticView>) -> ResponseView {
    match d {
        Some(x) => ResponseView { diagnostics: r.diagnostics.push(x), ..r },
        None => r,
    }
}

/// Adds a warning to a response.
pub fn attach(mut response: InvokeResponse, d: Option<PluginDiagnostic>) -> (r: InvokeResponse)
    ensures
        r@ == with_warning(response@, diagnostic_view(d)),
{
    match d {
        Some(x) => {
            let ghost before = response.diagnostics@;
            response.diagnostics.push(x);
            assert(diagnostic_views(response.diagnostics@) =~= diagnostic_views(before).push(x@));
        },
        None => {},
    }
    response
}

/// The root of the SDK that a launcher of Dart belongs to, if it is laid out
/// as usual.
pub fn dart_sdk_of_binary(launcher: &str, windows: bool) -> (r: Option<String>)
    ensures
        text_in(r) == grandparent(launcher@, windows),
{
    grandparent_path(launcher, windows)
}

/// The SDK to use: the one that the variable names, else the first that a
/// launcher on the path belongs to, else the one that the launcher names when
/// it is asked; each only if it is one.
pub open spec fn chosen_sdk(
    variable: Option<Installation>,
    walked: Seq<Installation>,
    asked: Option<Installation>,
) -> Option<Seq<char>> {
    if variable is Some && variable->0.root@.len() > 0 && variable->0.has_sdk {
        Some(variable->0.root@)
    } else if first_sdk(walked, 0) is Some {
        first_sdk(walked, 0)
    } else if asked is Some && asked->0.has_sdk {
        Some(asked->0.root@)
    } else {
        None
    }
}

/// The SDK to use, of those that were found.
pub fn detect_dart_sdk(
    variable: Option<Installation>,
    walked: &Vec<Installation>,
    asked: Option<Installation>,
) -> (r: Option<String>)
    ensures
        text_in(r) == chosen_sdk(variable, walked@, asked),
{
    match variable {
        Some(v) => {
            if v.root.as_str().unicode_len() > 0 && v.has_sdk {
                return Some(v.root);
            }
        },
        None => {},
    }
    match first_installation(walked) {
        Some(p) => {
            return Some(p);
        },
        None => {},
    }
    match asked {
        Some(a) => if a.has_sdk {
            Some(a.root)
        } else {
            None
        },
        None => None,
    }
}

/// Only what was found to be an SDK is ever used.
pub proof fn law_only_an_sdk_is_used(
    variable: Option<Installation>,
    walked: Seq<Installation>,
    asked: Option<Installation>,
)
    ensures
        chosen_sdk(variable, walked, asked) matches Some(root) ==> {
            ||| variable is Some && variable->0.has_sdk && variable->0.root@ == root
            ||| asked is Some && asked->0.has_sdk && asked->0.root@ == root
            ||| exists|k: int|
                0 <= k < walked.len() && (#[trigger] walked[k]).has_sdk && walked[k].root@ == root
        },
{
    crate::dotnet::law_sdk_is_needed(walked);
}

/// The first of the places that exists is used, whatever lies in later ones.
pub proof fn law_first_existing_place_is_used(
    places: Seq<Seq<char>>,
    existing: Seq<Seq<char>>,
    k: int,
)
    requires
        0 <= k < places.len(),
        existing.contains(places[k]),
        forall|i: int| 0 <= i < k ==> !existing.contains(#[trigger] places[i]),
    ensures
        first_present(places, existing, 0) == Some(places[k]),
{
    lemma_first_place(places, existing, 0, k);
}

proof fn lemma_first_place(places: Seq<Seq<char>>, existing: Seq<Seq<char>>, i: int, k: int)
    requires
        0 <= i <= k < places.len(),
        existing.contains(places[k]),
        forall|j: int| i <= j < k ==> !existing.contains(#[trigger] places[j]),
    ensures
        first_present(places, existing, i) == Some(places[k]),
    decreases k - i,
{
    if i < k {
        lemma_first_place(places, existing, i + 1, k);
    }
}

/// Whether `name` is the name of one file or directory, and not of the one
/// that it stands in.
pub open spec fn is_plain_name(name: Seq<char>) -> bool {
    &&& name.len() > 0
    &&& name.last() != '.'
    &&& forall|i: int| 0 <= i < name.len() ==> (#[trigger] name[i]) != '/'
}

/// An emitter is looked for where its variable says; then where it was built in
/// the repository of an indexer that lies two directories deep there; then
/// beside the indexer.
pub proof fn law_emitter_is_looked_for_in_order(
    emitter: Emitter,
    variable: Seq<char>,
    repo: Seq<char>,
    outer: Seq<char>,
    inner: Seq<char>,
    name: Seq<char>,
)
    requires
        repo.len() > 0,
        repo.last() != '/',
        repo.last() != '.',
        is_plain_name(outer),
        is_plain_name(inner),
        is_plain_name(name),
    ensures
        ({
            let dir = repo + seq!['/'] + outer + seq!['/'] + inner;
            let exe = dir + seq!['/'] + name;
            let places = emitter_locations(emitter, Some(variable), Some(exe), false);
            &&& places.len() == 3
            &&& places[0] == variable
            &&& emitter is Swift ==> places[1] == repo
                + "/packages/swift-index-emitter/.build/release/swift-index-emitter"@ && places[2]
                == dir + "/travsr-swift-index-emitter"@
            &&& emitter is Dart ==> places[1] == repo + "/packages/dart-scip-emitter/bin/emit-native"@
                && places[2] == dir + "/travsr-dart-index-emitter"@
            &&& emitter_locations(emitter, None, Some(exe), false) == places.skip(1)
            &&& emitter_locations(emitter, Some(variable), None, false) == seq![variable]
        }),
{
    let a = repo + seq!['/'] + outer;
    let dir = a + seq!['/'] + inner;
    let exe = dir + seq!['/'] + name;
    assert(a.last() == outer.last());
    assert(dir.last() == inner.last());
    crate::dotnet::law_parent_undoes_inside(repo, outer, false);
    crate::dotnet::law_parent_undoes_inside(a, inner, false);
    crate::dotnet::law_parent_undoes_inside(dir, name, false);
    lemma_built_in(repo);
    lemma_installed_in(dir);
    let places = emitter_locations(emitter, Some(variable), Some(exe), false);
    assert(places.len() == 3);
    assert(emitter_locations(emitter, None, Some(exe), false) =~= places.skip(1));
    assert(emitter_locations(emitter, Some(variable), None, false) =~= seq![variable]);
}

proof fn lemma_installed_in(dir: Seq<char>)
    requires
        dir.len() > 0,
        dir.last() != '/',
    ensures
        inside(dir, Emitter::Swift.installed_as(), false) == dir + "/travsr-swift-index-emitter"@,
        inside(dir, Emitter::Dart.installed_as(), false) == dir + "/travsr-dart-index-emitter"@,
{
    reveal_strlit("/");
    reveal_strlit("travsr-swift-index-emitter");
    reveal_strlit("travsr-dart-index-emitter");
    reveal_strlit("/travsr-swift-index-emitter");
    reveal_strlit("/travsr-dart-index-emitter");
    assert(dir + "/"@ + "travsr-swift-index-emitter"@ =~= dir + "/travsr-swift-index-emitter"@);
    assert(dir + "/"@ + "travsr-dart-index-emitter"@ =~= dir + "/travsr-dart-index-emitter"@);
}

proof fn lemma_built_in(repo: Seq<char>)
    requires
        repo.len() > 0,
        repo.last() != '/',
    ensures
        inside_all(repo, Emitter::Swift.built_at(), false) == repo
            + "/packages/swift-index-emitter/.build/release/swift-index-emitter"@,
        inside_all(repo, Emitter::Dart.built_at(), false) == repo
            + "/packages/dart-scip-emitter/bin/emit-native"@,
{
    reveal_strlit("packages");
    reveal_strlit("swift-index-emitter");
    reveal_strlit(".build");
    reveal_strlit("release");
    reveal_strlit("dart-scip-emitter");
    reveal_strlit("bin");
    reveal_strlit("emit-native");
    reveal_strlit("/packages/swift-index-emitter/.build/release/swift-index-emitter");
    reveal_strlit("/packages/dart-scip-emitter/bin/emit-native");
    let none = Seq::<Seq<char>>::empty();
    assert(inside_all(repo, none, false) == repo);
    lemma_one_deeper(repo, none, "packages"@);
    let p = none.push("packages"@);
    lemma_one_deeper(repo, p, "swift-index-emitter"@);
    let a = p.push("swift-index-emitter"@);
    lemma_one_deeper(repo, a, ".build"@);
    let b = a.push(".build"@);
    lemma_one_deeper(repo, b, "release"@);
    let c = b.push("release"@);
    lemma_one_deeper(repo, c, "swift-index-emitter"@);
    assert(Emitter::Swift.built_at() =~= c.push("swift-index-emitter"@));
    assert(inside_all(repo, c.push("swift-index-emitter"@), false) =~= repo
        + "/packages/swift-index-emitter/.build/release/swift-index-emitter"@);
    lemma_one_deeper(repo, p, "dart-scip-emitter"@);
    let d = p.push("dart-scip-emitter"@);
    lemma_one_deeper(repo, d, "bin"@);
    let e = d.push("bin"@);
    lemma_one_deeper(repo, e, "emit-native"@);
    assert(Emitter::Dart.built_at() =~= e.push("emit-native"@));
    assert(inside_all(repo, e.push("emit-native"@), false) =~= repo
        + "/packages/dart-scip-emitter/bin/emit-native"@);
}

proof fn lemma_one_deeper(repo: Seq<char>, parts: Seq<Seq<char>>, name: Seq<char>)
    requires
        name.len() > 0,
        name.last() != '/',
        inside_all(repo, parts, false).len() > 0,
        inside_all(repo, parts, false).last() != '/',
    ensures
        inside_all(repo, parts.push(name), false) == inside_all(repo, parts, false) + seq!['/']
            + name,
        inside_all(repo, parts.push(name), false).last() != '/',
{
    let more = parts.push(name);
    assert(more.drop_last() =~= parts);
    assert(more.last() == name);
    reveal_strlit("/");
    assert("/"@ =~= seq!['/']);
    let s = inside_all(repo, parts, false) + seq!['/'] + name;
    assert(s.last() == name.last());
}

/// An emitter that says a name and its version is of that version, whichever
/// emitter it is: there is no warning where it is the one that is expected,
/// one that tells both where it is another, and one of its own kind for an
/// emitter that says nothing.
pub proof fn law_version_is_what_follows_the_name(
    emitter: Emitter,
    at: Seq<char>,
    name: Seq<char>,
    version: Seq<char>,
    expected: Seq<char>,
)
    requires
        name.len() > 0,
        version.len() > 0,
        forall|i: int| 0 <= i < name.len() ==> !crate::text::is_white(#[trigger] name[i]),
        forall|i: int| 0 <= i < version.len() ==> !crate::text::is_white(#[trigger] version[i]),
    ensures
        ({
            let line = name + seq![' '] + version;
            &&& version == expected ==> verdict(emitter, at, Some(line), expected) is None
            &&& version != expected ==> (verdict(emitter, at, Some(line), expected) matches Some(d)
                && d.code == "emitter.version-mismatch"@ && crate::text::holds(d.message, at)
                && crate::text::holds(d.message, line) && crate::text::holds(d.message, expected))
            &&& verdict(emitter, at, None, expected) matches Some(d) && d.code
                == "emitter.version-unsupported"@ && crate::text::holds(d.message, at)
                && crate::text::holds(d.message, expected)
        }),
{
    let none = Seq::<char>::empty();
    let line = name + seq![' '] + version;
    crate::text::law_last_word_ends_the_text(name, ' ', version, none);
    assert(line + none =~= line);
    assert forall|i: int| 0 <= i < line.len() implies (#[trigger] line[i]) != '\n' by {
        if i < name.len() {
            assert(line[i] == name[i]);
        } else if i > name.len() {
            assert(line[i] == version[i - name.len() - 1]);
        }
    }
    crate::text::law_lines_end_at_line_feeds(line, none);
    crate::text::law_blanks_around_a_text_are_trimmed(none, line, none);
    assert(none + line + none =~= line);
    assert(line[0] == name[0]);
    assert(line.last() == version.last());
    assert(reported_version(emitter, line) == version);
    let language = emitter.language_name();
    let m = mismatch(language, at, line, expected).message;
    let a = "the "@ + language + " index emitter at "@;
    let b = " reports "@;
    let c = ", but this sidecar is v"@;
    let d =
        ". Its output may not reflect the current emitter source; `cargo build` does not rebuild it."@;
    lemma_middle_is_held(a, at, b + line + c + expected + d);
    assert(m =~= a + at + (b + line + c + expected + d));
    lemma_middle_is_held(a + at + b, line, c + expected + d);
    assert(m =~= (a + at + b) + line + (c + expected + d));
    lemma_middle_is_held(a + at + b + line + c, expected, d);
    let u = unsupported(language, at, expected).message;
    let e = " does not support `--version`, so it predates this sidecar (v"@;
    let f =
        ") and its output may not reflect the current emitter source. `cargo build` does not rebuild it."@;
    lemma_middle_is_held(a, at, e + expected + f);
    assert(u =~= a + at + (e + expected + f));
    lemma_middle_is_held(a + at + e, expected, f);
}

/// A text holds whatever it is put together of.
pub proof fn lemma_middle_is_held(a: Seq<char>, b: Seq<char>, c: Seq<char>)
    ensures
        crate::text::holds(a + b + c, b),
{
    let s = a + b + c;
    let n = a.len() as int;
    assert(s.subrange(n, n + b.len()) =~= b);
    assert(crate::text::occurs_at(s, b, n));
}

/// What a program printed is taken without the line feed that ends it; a
/// program that failed or printed only white space printed nothing.
pub proof fn law_printed_line_is_bare(s: Seq<char>, blank: Seq<char>)
    requires
        s.len() > 0,
        !crate::text::is_white(s[0]),
        !crate::text::is_white(s.last()),
        forall|i: int| 0 <= i < blank.len() ==> crate::text::is_white(#[trigger] blank[i]),
    ensures
        printed(true, s + blank) == Some(s),
        printed(false, s + blank) is None,
        printed(true, blank) is None,
{
    let none = Seq::<char>::empty();
    crate::text::law_blanks_around_a_text_are_trimmed(none, s, blank);
    assert(none + s + blank =~= s + blank);
    crate::text::law_trim_leaves_nothing_of_blanks(blank);
}

/// The SDK that the variable names comes before any on the path, the first of
/// those before the one that the launcher names; what is no SDK, or an empty
/// variable, is passed over.
pub proof fn law_sdk_is_chosen_in_order(
    variable: Option<Installation>,
    walked: Seq<Installation>,
    asked: Option<Installation>,
    k: int,
)
    ensures
        variable is Some && variable->0.has_sdk && variable->0.root@.len() > 0 ==> chosen_sdk(
            variable,
            walked,
            asked,
        ) == Some(variable->0.root@),
        (variable is None || !variable->0.has_sdk || variable->0.root@.len() == 0) ==> {
            &&& 0 <= k < walked.len() && walked[k].has_sdk && (forall|i: int|
                0 <= i < k ==> !(#[trigger] walked[i]).has_sdk) ==> chosen_sdk(
                variable,
                walked,
                asked,
            ) == Some(walked[k].root@)
            &&& (forall|i: int| 0 <= i < walked.len() ==> !(#[trigger] walked[i]).has_sdk) ==> {
                &&& asked is Some && asked->0.has_sdk ==> chosen_sdk(variable, walked, asked)
                    == Some(asked->0.root@)
                &&& asked is None || !asked->0.has_sdk ==> chosen_sdk(variable, walked, asked)
                    is None
            }
        },
{
    if 0 <= k < walked.len() && walked[k].has_sdk && (forall|i: int|
        0 <= i < k ==> !(#[trigger] walked[i]).has_sdk) {
        crate::dotnet::law_first_installation_with_an_sdk(walked, k);
    }
    crate::dotnet::law_sdk_is_needed(walked);
}

} // verus!
