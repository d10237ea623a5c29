//! The command lines of the indexers that run as child processes, and where
//! the indexers are found.
use vstd::prelude::*;
use vstd::string::*;
use crate::paths::{strip_windows_verbatim_prefix, without_verbatim};
use crate::run::{Report, RunNames};
use crate::text::{after_last, chars_of, copy_text, string_of, tail_after, texts};

verus! {

/// A child process to run.
#[derive(Debug)]
pub struct Invocation {
    pub program: String,
    pub args: Vec<String>,
    /// Where to run it; empty for where the indexer itself runs.
    pub current_dir: String,
    /// A variable to set.
    pub env: Option<(String, String)>,
}

/// What an `Invocation` holds.
pub struct InvocationView {
    pub program: Seq<char>,
    pub args: Seq<Seq<char>>,
    pub current_dir: Seq<char>,
    pub env: Option<(Seq<char>, Seq<char>)>,
}

impl View for Invocation {
    type V = InvocationView;

    open spec fn view(&self) -> InvocationView {
        InvocationView {
            program: self.program@,
            args: texts(self.args@),
            current_dir: self.current_dir@,
            env: match self.env {
                Some((k, v)) => Some((k@, v@)),
                None => None,
            },
        }
    }
}

/// What to do for a project.
#[derive(Debug)]
pub enum Plan {
    Run(Invocation),
    /// There is nothing to index.
    Skip,
    /// It cannot be indexed, and this is why.
    Fail(String),
}

/// What a `Plan` holds.
pub enum PlanView {
    Run(InvocationView),
    Skip,
    Fail(Seq<char>),
}

impl View for Plan {
    type V = PlanView;

    open spec fn view(&self) -> PlanView {
        match self {
            Plan::Run(i) => PlanView::Run(i@),
            Plan::Skip => PlanView::Skip,
            Plan::Fail(e) => PlanView::Fail(e@),
        }
    }
}

/// Appends a text.
pub(crate) fn push_text(v: &mut Vec<String>, s: &str)
    ensures
        texts(final(v)@) == texts(old(v)@).push(s@),
{
    let ghost before = v@;
    let t = copy_text(s);
    v.push(t);
    proof {
        crate::text::lemma_texts_push(before, t);
    }
}

/// No texts.
pub(crate) fn no_texts() -> (r: Vec<String>)
    ensures
        texts(r@) == Seq::<Seq<char>>::empty(),
{
    let r: Vec<String> = Vec::new();
    r
}

/// The indexers that run as child processes.
#[derive(Debug, Clone, Copy, PartialEq, Eq, Structural)]
pub enum Indexer {
    Go,
    Ruby,
    C,
    Python,
    Php,
    CSharp,
    Java,
    Sbt,
    Rust,
    TypeScript,
}

impl Indexer {
    /// The name of the program.
    pub open spec fn program(self) -> Seq<char> {
        match self {
            Indexer::Go => "scip-go"@,
            Indexer::Ruby => "scip-ruby"@,
            Indexer::C => "scip-clang"@,
            Indexer::Python => "scip-python"@,
            Indexer::Php => "scip-php"@,
            Indexer::CSharp => "scip-dotnet"@,
            Indexer::Java => "scip-java"@,
            Indexer::Sbt => "sbt"@,
            Indexer::Rust => "rust-analyzer"@,
            Indexer::TypeScript => "travsr-lsif-ts"@,
        }
    }

    /// The name of the program.
    pub fn name(self) -> (r: &'static str)
        ensures
            r@ == self.program(),
    {
        match self {
            Indexer::Go => "scip-go",
            Indexer::Ruby => "scip-ruby",
            Indexer::C => "scip-clang",
            Indexer::Python => "scip-python",
            Indexer::Php => "scip-php",
            Indexer::CSharp => "scip-dotnet",
            Indexer::Java => "scip-java",
            Indexer::Sbt => "sbt",
            Indexer::Rust => "rust-analyzer",
            Indexer::TypeScript => "travsr-lsif-ts",
        }
    }

    /// How long it may run, in seconds.
    pub open spec fn budget(self) -> u64 {
        match self {
            Indexer::CSharp | Indexer::Java => 600,
            Indexer::TypeScript => 60,
            _ => 300,
        }
    }

    /// How long it may run, in seconds.
    pub fn timeout_secs(self) -> (r: u64)
        ensures
            r == self.budget(),
    {
        match self {
            Indexer::CSharp | Indexer::Java => 600,
            Indexer::TypeScript => 60,
            _ => 300,
        }
    }

    /// How often to look at it, in milliseconds.
    pub fn poll_ms(self) -> (r: u64)
        ensures
            r == match self {
                Indexer::TypeScript => 100,
                Indexer::Sbt => 500,
                _ => 200u64,
            },
    {
        match self {
            Indexer::TypeScript => 100,
            Indexer::Sbt => 500,
            _ => 200,
        }
    }

    /// Where it is looked for below the home directory, if it is not on the
    /// path.
    pub open spec fn below_home(self) -> Seq<Seq<char>> {
        match self {
            Indexer::Go => seq![".travsr/bin/scip-go"@, "go/bin/scip-go"@],
            Indexer::Ruby => seq![".travsr/bin/scip-ruby"@],
            Indexer::Python => seq![".travsr/bin/scip-python"@, ".local/bin/scip-python"@],
            Indexer::Php => seq![
                ".travsr/bin/scip-php"@,
                ".composer/vendor/bin/scip-php"@,
                ".config/composer/vendor/bin/scip-php"@,
            ],
            Indexer::Sbt => seq![
                ".sdkman/candidates/sbt/current/bin/sbt"@,
                ".local/share/coursier/bin/sbt"@,
                "Library/Application Support/Coursier/bin/sbt"@,
            ],
            _ => Seq::empty(),
        }
    }

    /// Where it is looked for below the home directory, if it is not on the
    /// path.
    pub fn home_candidates(self) -> (r: Vec<String>)
        ensures
            texts(r@) == self.below_home(),
    {
        let mut v = no_texts();
        match self {
            Indexer::Go => {
                push_text(&mut v, ".travsr/bin/scip-go");
                push_text(&mut v, "go/bin/scip-go");
            },
            Indexer::Ruby => {
                push_text(&mut v, ".travsr/bin/scip-ruby");
            },
            Indexer::Python => {
                push_text(&mut v, ".travsr/bin/scip-python");
                push_text(&mut v, ".local/bin/scip-python");
            },
            Indexer::Php => {
                push_text(&mut v, ".travsr/bin/scip-php");
                push_text(&mut v, ".composer/vendor/bin/scip-php");
                push_text(&mut v, ".config/composer/vendor/bin/scip-php");
            },
            Indexer::Sbt => {
                push_text(&mut v, ".sdkman/candidates/sbt/current/bin/sbt");
                push_text(&mut v, ".local/share/coursier/bin/sbt");
                push_text(&mut v, "Library/Application Support/Coursier/bin/sbt");
            },
            _ => {},
        }
        v
    }

    /// What to say when it is not found.
    pub open spec fn missing(self) -> Seq<char> {
        match self {
            Indexer::Go => {
                "scip-go not found \u{2014} install with: go install github.com/scip-code/scip-go/cmd/scip-go@latest"@
            },
            Indexer::Ruby => {
                "scip-ruby not found. See https://github.com/sourcegraph/scip-ruby/releases or run: travsr lang install ruby"@
            },
            Indexer::C => {
                "scip-clang not found on PATH \u{2014} see https://github.com/sourcegraph/scip-clang"@
            },
            Indexer::Python => {
                "scip-python not found \u{2014} install with: npm install -g @sourcegraph/scip-python"@
            },
            Indexer::Php => {
                "scip-php not found. See https://github.com/davidrjenni/scip-php (clone it and run `composer install` inside that checkout, then place its bin/scip-php in ~/.travsr/bin/). Installing it as a project dev-dependency does not work: it requires a vendor/ directory inside its own package dir, which composer does not create for a dependency."@
            },
            Indexer::CSharp => {
                "scip-dotnet not found. Install with: dotnet tool install --global scip-dotnet"@
            },
            Indexer::Java => {
                "scip-java not found. Download from https://github.com/sourcegraph/scip-java/releases and place in ~/.travsr/bin/scip-java"@
            },
            Indexer::Sbt => {
                "sbt not found. Install via SDKMAN! (sdk install sbt), Coursier (cs install sbt), or Homebrew (brew install sbt)"@
            },
            Indexer::Rust => {
                "rust-analyzer not found on PATH \u{2014} install with: rustup component add rust-analyzer"@
            },
            Indexer::TypeScript => {
                "travsr-lsif-ts not found on PATH \u{2014} install with: npm install -g travsr-lsif-ts"@
            },
        }
    }

    /// What to say when it is not found.
    pub fn missing_message(self) -> (r: &'static str)
        ensures
            r@ == self.missing(),
    {
        match self {
            Indexer::Go => {
                "scip-go not found \u{2014} install with: go install github.com/scip-code/scip-go/cmd/scip-go@latest"
            },
            Indexer::Ruby => {
                "scip-ruby not found. See https://github.com/sourcegraph/scip-ruby/releases or run: travsr lang install ruby"
            },
            Indexer::C => {
                "scip-clang not found on PATH \u{2014} see https://github.com/sourcegraph/scip-clang"
            },
            Indexer::Python => {
                "scip-python not found \u{2014} install with: npm install -g @sourcegraph/scip-python"
            },
            Indexer::Php => {
                "scip-php not found. See https://github.com/davidrjenni/scip-php (clone it and run `composer install` inside that checkout, then place its bin/scip-php in ~/.travsr/bin/). Installing it as a project dev-dependency does not work: it requires a vendor/ directory inside its own package dir, which composer does not create for a dependency."
            },
            Indexer::CSharp => {
                "scip-dotnet not found. Install with: dotnet tool install --global scip-dotnet"
            },
            Indexer::Java => {
                "scip-java not found. Download from https://github.com/sourcegraph/scip-java/releases and place in ~/.travsr/bin/scip-java"
            },
            Indexer::Sbt => {
                "sbt not found. Install via SDKMAN! (sdk install sbt), Coursier (cs install sbt), or Homebrew (brew install sbt)"
            },
            Indexer::Rust => {
                "rust-analyzer not found on PATH \u{2014} install with: rustup component add rust-analyzer"
            },
            Indexer::TypeScript => {
                "travsr-lsif-ts not found on PATH \u{2014} install with: npm install -g travsr-lsif-ts"
            },
        }
    }

    /// How to speak of a run of it.
    pub fn run_names(self) -> (r: RunNames)
        ensures
            r.timeout_name@ == self.program(),
            r.exit_name@ == self.program(),
            r.budget_secs == self.budget(),
            r.report == (if self == Indexer::Php {
                Report::Tail
            } else if self == Indexer::Java {
                Report::Telling
            } else {
                Report::Whole
            }),
    {
        RunNames {
            timeout_name: copy_text(self.name()),
            exit_name: copy_text(self.name()),
            budget_secs: self.timeout_secs(),
            report: match self {
                Indexer::Php => Report::Tail,
                Indexer::Java => Report::Telling,
                _ => Report::Whole,
            },
        }
    }
}

/// Where a program was found.
#[derive(Debug, Clone, Copy, PartialEq, Eq, Structural)]
pub enum Found {
    /// On the path.
    OnPath,
    /// The candidate with this number exists.
    Candidate(usize),
    Nowhere,
}

/// The first of `exists` that is true, from `i` on.
pub open spec fn first_true(exists_: Seq<bool>, i: int) -> Option<int>
    decreases exists_.len() - i,
{
    if i < 0 || i >= exists_.len() {
        None
    } else if exists_[i] {
        Some(i)
    } else {
        first_true(exists_, i + 1)
    }
}

/// Where a program is taken from: from the path, else from the first
/// candidate that exists.
pub fn choose_binary(on_path: bool, candidates: &Vec<bool>) -> (r: Found)
    ensures
        match r {
            Found::OnPath => on_path,
            Found::Candidate(i) => !on_path && first_true(candidates@, 0) == Some(i as int) && i
                < candidates@.len(),
            Found::Nowhere => !on_path && first_true(candidates@, 0) is None,
        },
{
    if on_path {
        return Found::OnPath;
    }
    let mut i: usize = 0;
    while i < candidates.len()
        invariant
            i <= candidates@.len(),
            !on_path,
            first_true(candidates@, 0) == first_true(candidates@, i as int),
        decreases candidates@.len() - i,
    {
        if candidates[i] {
            return Found::Candidate(i);
        }
        i += 1;
    }
    Found::Nowhere
}

/// A run of `program`.
pub open spec fn run_of(
    program: Seq<char>,
    args: Seq<Seq<char>>,
    current_dir: Seq<char>,
) -> PlanView {
    PlanView::Run(InvocationView { program, args, current_dir, env: None })
}

/// A run of `program`, or the reason why there is none.
pub open spec fn run_or_missing(
    indexer: Indexer,
    program: Option<Seq<char>>,
    args: Seq<Seq<char>>,
    current_dir: Seq<char>,
) -> PlanView {
    match program {
        Some(p) => run_of(p, args, current_dir),
        None => PlanView::Fail(indexer.missing()),
    }
}

/// The text that `o` holds.
pub open spec fn opt_text(o: Option<&str>) -> Option<Seq<char>> {
    match o {
        Some(s) => Some(s@),
        None => None,
    }
}

fn run_plan(program: &str, args: Vec<String>, current_dir: &str) -> (r: Plan)
    ensures
        r@ == run_of(program@, texts(args@), current_dir@),
{
    Plan::Run(
        Invocation {
            program: copy_text(program),
            args,
            current_dir: copy_text(current_dir),
            env: None,
        },
    )
}

fn fail(message: &str) -> (r: Plan)
    ensures
        r@ == PlanView::Fail(message@),
{
    Plan::Fail(copy_text(message))
}

/// How to run `scip-go` in `root`, with its index going to `output`.
pub fn plan_scip_go(program: Option<&str>, root: &str, output: &str) -> (r: Plan)
    ensures
        r@ == run_or_missing(
            Indexer::Go,
            opt_text(program),
            seq!["index"@, "--output"@, output@, "./..."@],
            root@,
        ),
{
    match program {
        Some(p) => {
            let mut v = no_texts();
            push_text(&mut v, "index");
            push_text(&mut v, "--output");
            push_text(&mut v, output);
            push_text(&mut v, "./...");
            assert(texts(v@) =~= seq!["index"@, "--output"@, output@, "./..."@]);
            run_plan(p, v, root)
        },
        None => fail(Indexer::Go.missing_message()),
    }
}

/// The gem that a corpus stands for.
pub open spec fn gem_metadata(corpus: Seq<char>) -> Seq<char> {
    after_last(corpus, '/') + "@0.0.0"@
}

/// What to say of an output path that is relative: it would lie elsewhere
/// than it seems to.
pub open spec fn relative_output_text(output: Seq<char>) -> Seq<char> {
    "scip-ruby output path must be absolute under current_dir(root): "@ + output
}

/// How to run `scip-ruby` in `root`, with its index going to `output`, which
/// has to be absolute.
pub fn plan_scip_ruby(
    program: Option<&str>,
    root: &str,
    corpus: &str,
    output: &str,
    output_is_absolute: bool,
) -> (r: Plan)
    ensures
        r@ == if program is Some && !output_is_absolute {
            PlanView::Fail(relative_output_text(output@))
        } else {
            run_or_missing(
                Indexer::Ruby,
                opt_text(program),
                seq![
                    "--index-file"@,
                    output@,
                    "--gem-metadata"@,
                    gem_metadata(corpus@),
                    "."@,
                ],
                root@,
            )
        },
{
    match program {
        Some(p) => {
            if !output_is_absolute {
                let mut e = String::new();
                e.append("scip-ruby output path must be absolute under current_dir(root): ");
                e.append(output);
                return Plan::Fail(e);
            }
            let chars = chars_of(corpus);
            let mut gem = string_of(tail_after(chars.as_slice(), '/'));
            gem.append("@0.0.0");
            let mut v = no_texts();
            push_text(&mut v, "--index-file");
            push_text(&mut v, output);
            push_text(&mut v, "--gem-metadata");
            push_text(&mut v, gem.as_str());
            push_text(&mut v, ".");
            assert(texts(v@) =~= seq![
                "--index-file"@,
                output@,
                "--gem-metadata"@,
                gem_metadata(corpus@),
                "."@,
            ]);
            run_plan(p, v, root)
        },
        None => fail(Indexer::Ruby.missing_message()),
    }
}

/// How to run `scip-clang` in `root`, with its index going to `output`. A
/// project without a compilation database is not indexed.
pub fn plan_scip_clang(
    available: bool,
    has_compdb: bool,
    root: &str,
    compdb: &str,
    output: &str,
) -> (r: Plan)
    ensures
        r@ == if !available {
            PlanView::Fail(Indexer::C.missing())
        } else if !has_compdb {
            PlanView::Skip
        } else {
            run_of(
                "scip-clang"@,
                seq!["--compdb-path"@, compdb@, "--index-output-path"@, output@],
                root@,
            )
        },
{
    if !available {
        return fail(Indexer::C.missing_message());
    }
    if !has_compdb {
        return Plan::Skip;
    }
    let mut v = no_texts();
    push_text(&mut v, "--compdb-path");
    push_text(&mut v, compdb);
    push_text(&mut v, "--index-output-path");
    push_text(&mut v, output);
    assert(texts(v@) =~= seq!["--compdb-path"@, compdb@, "--index-output-path"@, output@]);
    run_plan("scip-clang", v, root)
}

/// How to run `scip-python` on `root`; its index goes to `scratch`, where it
/// runs.
pub fn plan_scip_python(program: Option<&str>, root: &str, scratch: &str) -> (r: Plan)
    ensures
        r@ == run_or_missing(
            Indexer::Python,
            opt_text(program),
            seq![
                "index"@,
                "--project-name"@,
                "project"@,
                "--project-version"@,
                "0.0.1"@,
                root@,
            ],
            scratch@,
        ),
{
    match program {
        Some(p) => {
            let mut v = no_texts();
            push_text(&mut v, "index");
            push_text(&mut v, "--project-name");
            push_text(&mut v, "project");
            push_text(&mut v, "--project-version");
            push_text(&mut v, "0.0.1");
            push_text(&mut v, root);
            assert(texts(v@) =~= seq![
                "index"@,
                "--project-name"@,
                "project"@,
                "--project-version"@,
                "0.0.1"@,
                root@,
            ]);
            run_plan(p, v, scratch)
        },
        None => fail(Indexer::Python.missing_message()),
    }
}

/// How to run `rust-analyzer` on `root`.
pub fn plan_rust_analyzer(available: bool, root: &str) -> (r: Plan)
    ensures
        r@ == if available {
            run_of("rust-analyzer"@, seq!["lsif"@, root@], root@)
        } else {
            PlanView::Fail(Indexer::Rust.missing())
        },
{
    if !available {
        return fail(Indexer::Rust.missing_message());
    }
    let mut v = no_texts();
    push_text(&mut v, "lsif");
    push_text(&mut v, root);
    assert(texts(v@) =~= seq!["lsif"@, root@]);
    run_plan("rust-analyzer", v, root)
}

/// How to run `travsr-lsif-ts` on the project `tsconfig`. A directory without
/// one is not indexed.
pub fn plan_lsif_ts(has_tsconfig: bool, available: bool, tsconfig: &str) -> (r: Plan)
    ensures
        r@ == if !has_tsconfig {
            PlanView::Skip
        } else if !available {
            PlanView::Fail(Indexer::TypeScript.missing())
        } else {
            run_of("travsr-lsif-ts"@, seq!["--project"@, tsconfig@], ""@)
        },
{
    if !has_tsconfig {
        return Plan::Skip;
    }
    if !available {
        return fail(Indexer::TypeScript.missing_message());
    }
    let mut v = no_texts();
    push_text(&mut v, "--project");
    push_text(&mut v, tsconfig);
    assert(texts(v@) =~= seq!["--project"@, tsconfig@]);
    run_plan("travsr-lsif-ts", v, "")
}

/// How to run `scip-php`: it indexes the directory that it runs in.
pub fn plan_scip_php(program: Option<&str>, root: &str) -> (r: Plan)
    ensures
        r@ == run_or_missing(Indexer::Php, opt_text(program), Seq::empty(), root@),
{
    match program {
        Some(p) => run_plan(p, no_texts(), root),
        None => fail(Indexer::Php.missing_message()),
    }
}

/// What to say of a directory without a .NET project.
pub open spec fn no_project_text(root: Seq<char>) -> Seq<char> {
    "no .sln or .csproj found under "@ + root
}

/// How to run `scip-dotnet` on `project`, in `root` without its Windows
/// prefix, with its index going to `output` and with the runtime that was
/// found.
pub fn plan_scip_dotnet(
    program: Option<&str>,
    root: &str,
    project: Option<&str>,
    output: &str,
    dotnet_root: Option<&str>,
) -> (r: Plan)
    ensures
        r@ == match (opt_text(program), opt_text(project)) {
            (None, _) => PlanView::Fail(Indexer::CSharp.missing()),
            (Some(_), None) => PlanView::Fail(no_project_text(without_verbatim(root@))),
            (Some(p), Some(file)) => PlanView::Run(
                InvocationView {
                    program: p,
                    args: seq![
                        "index"@,
                        file,
                        "--output"@,
                        output@,
                        "--working-directory"@,
                        without_verbatim(root@),
                    ],
                    current_dir: without_verbatim(root@),
                    env: match opt_text(dotnet_root) {
                        Some(d) => Some(("DOTNET_ROOT"@, d)),
                        None => None,
                    },
                },
            ),
        },
{
    let p = match program {
        Some(p) => p,
        None => {
            return fail(Indexer::CSharp.missing_message());
        },
    };
    let root = strip_windows_verbatim_prefix(root);
    let file = match project {
        Some(f) => f,
        None => {
            let mut e = String::new();
            e.append("no .sln or .csproj found under ");
            e.append(root.as_str());
            return Plan::Fail(e);
        },
    };
    let mut v = no_texts();
    push_text(&mut v, "index");
    push_text(&mut v, file);
    push_text(&mut v, "--output");
    push_text(&mut v, output);
    push_text(&mut v, "--working-directory");
    push_text(&mut v, root.as_str());
    assert(texts(v@) =~= seq![
        "index"@,
        file@,
        "--output"@,
        output@,
        "--working-directory"@,
        root@,
    ]);
    let env = match dotnet_root {
        Some(d) => Some((copy_text("DOTNET_ROOT"), copy_text(d))),
        None => None,
    };
    Plan::Run(Invocation { program: copy_text(p), args: v, current_dir: root, env })
}

/// How to run an emitter on `root`, with its output going to `output`; with
/// the variable `env` where there is one to set.
pub fn plan_emitter(
    emitter: Option<&str>,
    missing: &str,
    root: &str,
    output: &str,
    env: Option<(&str, &str)>,
) -> (r: Plan)
    ensures
        r@ == match opt_text(emitter) {
            None => PlanView::Fail(missing@),
            Some(p) => PlanView::Run(
                InvocationView {
                    program: p,
                    args: seq![root@, output@],
                    current_dir: ""@,
                    env: match env {
                        Some((k, v)) => Some((k@, v@)),
                        None => None,
                    },
                },
            ),
        },
{
    let p = match emitter {
        Some(p) => p,
        None => {
            return fail(missing);
        },
    };
    let mut v = no_texts();
    push_text(&mut v, root);
    push_text(&mut v, output);
    assert(texts(v@) =~= seq![root@, output@]);
    let env = match env {
        Some((k, x)) => Some((copy_text(k), copy_text(x))),
        None => None,
    };
    let none = String::new();
    assert(none@ =~= ""@) by {
        reveal_strlit("");
    }
    Plan::Run(Invocation { program: copy_text(p), args: v, current_dir: none, env })
}

/// Whether an indexer writes to the directory that it was given, and not to
/// one of its own.
pub fn uses_scratch(indexer: Indexer, scratch: &str, is_dir: bool) -> (r: bool)
    ensures
        r == match indexer {
            Indexer::Ruby => scratch@.len() > 0,
            Indexer::Php => scratch@.len() > 0 && is_dir,
            _ => false,
        },
{
    match indexer {
        Indexer::Ruby => scratch.unicode_len() > 0,
        Indexer::Php => scratch.unicode_len() > 0 && is_dir,
        _ => false,
    }
}

/// A program that is not on the path is the first candidate that exists, and
/// there is none only where no candidate exists.
pub proof fn law_first_candidate_is_taken(candidates: Seq<bool>, k: int)
    requires
        0 <= k <= candidates.len(),
        k < candidates.len() ==> candidates[k],
        forall|i: int| 0 <= i < k ==> !(#[trigger] candidates[i]),
    ensures
        k < candidates.len() ==> first_true(candidates, 0) == Some(k),
        k == candidates.len() ==> first_true(candidates, 0) is None,
{
    lemma_first_candidate(candidates, 0, k);
}

proof fn lemma_first_candidate(candidates: Seq<bool>, i: int, k: int)
    requires
        0 <= i <= k <= candidates.len(),
        k < candidates.len() ==> candidates[k],
        forall|j: int| i <= j < k ==> !(#[trigger] candidates[j]),
    ensures
        first_true(candidates, i) == (if k < candidates.len() {
            Some(k)
        } else {
            None
        }),
    decreases k - i,
{
    if i < k {
        lemma_first_candidate(candidates, i + 1, k);
    }
}

/// A gem is named after the last part of its corpus, at a version that it does
/// not have.
pub proof fn law_gem_is_named_after_the_last_part(head: Seq<char>, name: Seq<char>)
    requires
        forall|i: int| 0 <= i < name.len() ==> (#[trigger] name[i]) != '/',
    ensures
        gem_metadata(head + seq!['/'] + name) == name + "@0.0.0"@,
        gem_metadata(name) == name + "@0.0.0"@,
{
    crate::text::law_tail_follows_the_last(head, '/', name);
}

/// An indexer may run for five minutes, one that builds for ten, and the one
/// of TypeScript for one.
pub proof fn law_builds_may_run_longest(i: Indexer)
    ensures
        i.budget() == 600 <==> i is CSharp || i is Java,
        i.budget() == 60 <==> i is TypeScript,
        i.budget() == 600 || i.budget() == 300 || i.budget() == 60,
{
}

/// Programs are looked for below the home directory under their own name, and
/// first, but for sbt, where travsr installs them.
pub proof fn law_programs_keep_their_name(i: Indexer, k: int)
    requires
        0 <= k < i.below_home().len(),
    ensures
        crate::text::ends_with(i.below_home()[k], "/"@ + i.program()),
        !(i is Sbt) ==> i.below_home()[0] == ".travsr/bin/"@ + i.program(),
{
    reveal_strlit("/");
    reveal_strlit(".travsr/bin/");
    reveal_strlit("scip-go");
    reveal_strlit("scip-ruby");
    reveal_strlit("scip-python");
    reveal_strlit("scip-php");
    reveal_strlit("sbt");
    reveal_strlit(".travsr/bin/scip-go");
    reveal_strlit("go/bin/scip-go");
    reveal_strlit(".travsr/bin/scip-ruby");
    reveal_strlit(".travsr/bin/scip-python");
    reveal_strlit(".local/bin/scip-python");
    reveal_strlit(".travsr/bin/scip-php");
    reveal_strlit(".composer/vendor/bin/scip-php");
    reveal_strlit(".config/composer/vendor/bin/scip-php");
    reveal_strlit(".sdkman/candidates/sbt/current/bin/sbt");
    reveal_strlit(".local/share/coursier/bin/sbt");
    reveal_strlit("Library/Application Support/Coursier/bin/sbt");
    let p = i.below_home()[k];
    let name = "/"@ + i.program();
    assert(p.skip(p.len() - name.len()) =~= name);
    if !(i is Sbt) {
        assert(i.below_home()[0] =~= ".travsr/bin/"@ + i.program());
    }
}

} // verus!
