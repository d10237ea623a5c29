//! Indexing Java: how a build is run so that its sources end up in an index.
use vstd::prelude::*;
use vstd::slice::slice_subrange;
use vstd::string::*;
use crate::agp::{lemma_shim_holds_no_backslash, no_backslash, AGP_INIT_SCRIPT_SHIM};
use crate::compdb::{extension_of, path_extension};
use crate::dotnet::{bare, bare_text, inside, parent_of, parent_path, path_inside, root_len};
use crate::graph::{empty_response, DiagnosticView, InvokeResponse, PluginDiagnostic, ResponseView};
use crate::indexers::{
    no_texts, opt_text, push_text, Indexer, Invocation, InvocationView, Plan, PlanView,
};
use crate::paths::{forward, forward_slashes, strip_windows_verbatim_prefix, without_verbatim};
use crate::run::{Report, RunNames};
use crate::text::{
    ascii_lower, chars_of, contains_text, copy_text, ends_with, has_prefix, has_suffix, holds,
    is_among, is_text, lines, lines_of, lowered, starts_with, string_of, texts, trim, trimmed,
};

verus! {

/// What runs a Java build.
#[derive(Debug, Clone, Copy, PartialEq, Eq, Structural)]
pub enum BuildSystem {
    Gradle,
    Maven,
}

impl BuildSystem {
    /// The name that `scip-java` has for it.
    pub open spec fn tool(self) -> Seq<char> {
        match self {
            BuildSystem::Gradle => "gradle"@,
            BuildSystem::Maven => "maven"@,
        }
    }

    /// The name that `scip-java` has for it.
    pub fn scip_java_name(&self) -> (r: &'static str)
        ensures
            r@ == self.tool(),
    {
        match self {
            BuildSystem::Gradle => "gradle",
            BuildSystem::Maven => "maven",
        }
    }
}

/// The files that tell a build by Gradle.
pub open spec fn gradle_files() -> Seq<Seq<char>> {
    seq![
        "gradlew.bat"@,
        "gradlew"@,
        "build.gradle"@,
        "build.gradle.kts"@,
        "settings.gradle"@,
        "settings.gradle.kts"@,
    ]
}

/// The build system of a project, told by the files in its root.
pub open spec fn build_system(files: Seq<Seq<char>>) -> Option<BuildSystem> {
    if exists|i: int|
        0 <= i < gradle_files().len() && files.contains(#[trigger] gradle_files()[i]) {
        Some(BuildSystem::Gradle)
    } else if files.contains("pom.xml"@) {
        Some(BuildSystem::Maven)
    } else {
        None
    }
}

/// The files that tell which system runs a build.
pub fn build_files() -> (r: Vec<String>)
    ensures
        texts(r@) == gradle_files().push("pom.xml"@),
{
    let mut v = no_texts();
    push_text(&mut v, "gradlew.bat");
    push_text(&mut v, "gradlew");
    push_text(&mut v, "build.gradle");
    push_text(&mut v, "build.gradle.kts");
    push_text(&mut v, "settings.gradle");
    push_text(&mut v, "settings.gradle.kts");
    push_text(&mut v, "pom.xml");
    v
}

/// The build system of a project in whose root these files exist. Gradle wins
/// where there is more than one.
pub fn detect_build_system(existing: &Vec<String>) -> (r: Option<BuildSystem>)
    ensures
        r == build_system(texts(existing@)),
{
    let ghost g = gradle_files();
    let a = is_among("gradlew.bat", existing);
    let b = is_among("gradlew", existing);
    let c = is_among("build.gradle", existing);
    let d = is_among("build.gradle.kts", existing);
    let e = is_among("settings.gradle", existing);
    let f = is_among("settings.gradle.kts", existing);
    if a || b || c || d || e || f {
        return Some(BuildSystem::Gradle);
    }
    assert forall|i: int| 0 <= i < g.len() implies !texts(existing@).contains(
        #[trigger] g[i],
    ) by {}
    if is_among("pom.xml", existing) {
        return Some(BuildSystem::Maven);
    }
    None
}

/// The tasks of Gradle that write an index.
pub open spec fn index_tasks() -> Seq<Seq<char>> {
    seq!["clean"@, "scipPrintDependencies"@, "scipCompileAll"@]
}

/// The tasks of Gradle that write an index: every source is compiled anew.
pub fn gradle_index_tasks() -> (r: Vec<String>)
    ensures
        texts(r@) == index_tasks(),
{
    let mut v = no_texts();
    push_tasks(&mut v);
    v
}

fn push_tasks(v: &mut Vec<String>)
    ensures
        texts(final(v)@) == texts(old(v)@) + index_tasks(),
{
    push_text(v, "clean");
    push_text(v, "scipPrintDependencies");
    push_text(v, "scipCompileAll");
}

/// What `scip-java` is told about the build that it is to run. Maven compiles
/// main and test sources and does nothing more; Gradle is given `shim` as a
/// script.
pub open spec fn build_args(build: Option<BuildSystem>, shim: Seq<char>) -> Seq<Seq<char>> {
    match build {
        None => Seq::empty(),
        Some(b) => seq!["--build-tool"@, b.tool()] + match b {
            BuildSystem::Maven => seq![
                "--"@,
                "--batch-mode"@,
                "-Dmaven.clean.failOnError=false"@,
                "clean"@,
                "test-compile"@,
            ],
            BuildSystem::Gradle => seq!["--"@, "--init-script"@, shim] + index_tasks(),
        },
    }
}

/// How to run `scip-java` in `root`, with its index going to `output`.
pub fn plan_scip_java(
    program: Option<&str>,
    root: &str,
    output: &str,
    build: Option<BuildSystem>,
    shim: &str,
) -> (r: Plan)
    ensures
        r@ == crate::indexers::run_or_missing(
            Indexer::Java,
            opt_text(program),
            seq!["index"@, "--output"@, output@] + build_args(build, shim@),
            root@,
        ),
{
    let p = match program {
        Some(p) => p,
        None => {
            return Plan::Fail(copy_text(Indexer::Java.missing_message()));
        },
    };
    let mut v = no_texts();
    push_text(&mut v, "index");
    push_text(&mut v, "--output");
    push_text(&mut v, output);
    match build {
        Some(b) => {
            push_text(&mut v, "--build-tool");
            push_text(&mut v, b.scip_java_name());
            match b {
                BuildSystem::Maven => {
                    push_text(&mut v, "--");
                    push_text(&mut v, "--batch-mode");
                    push_text(&mut v, "-Dmaven.clean.failOnError=false");
                    push_text(&mut v, "clean");
                    push_text(&mut v, "test-compile");
                },
                BuildSystem::Gradle => {
                    push_text(&mut v, "--");
                    push_text(&mut v, "--init-script");
                    push_text(&mut v, shim);
                    push_tasks(&mut v);
                },
            }
        },
        None => {},
    }
    assert(texts(v@) =~= seq!["index"@, "--output"@, output@] + build_args(build, shim@));
    Plan::Run(
        Invocation { program: copy_text(p), args: v, current_dir: copy_text(root), env: None },
    )
}

/// What a failed build says when the Android SDK is what it lacks.
pub open spec fn sdk_markers() -> Seq<Seq<char>> {
    seq![
        "SDK location not found"@,
        "Failed to find Platform SDK with path"@,
        "Failed to find target with hash string"@,
        "Failed to find Build Tools revision"@,
        "Failed to install the following Android SDK packages"@,
    ]
}

fn sdk_failure_markers() -> (r: Vec<String>)
    ensures
        texts(r@) == sdk_markers(),
{
    let mut v = no_texts();
    push_text(&mut v, "SDK location not found");
    push_text(&mut v, "Failed to find Platform SDK with path");
    push_text(&mut v, "Failed to find target with hash string");
    push_text(&mut v, "Failed to find Build Tools revision");
    push_text(&mut v, "Failed to install the following Android SDK packages");
    v
}

/// The first of `markers`, from `i` on, that `output` holds.
pub open spec fn first_held(markers: Seq<Seq<char>>, output: Seq<char>, i: int) -> Option<Seq<char>>
    decreases markers.len() - i,
{
    if i < 0 || i >= markers.len() {
        None
    } else if holds(output, markers[i]) {
        Some(markers[i])
    } else {
        first_held(markers, output, i + 1)
    }
}

/// The warning that names the SDK, given what the build said.
pub open spec fn sdk_missing(marker: Seq<char>) -> DiagnosticView {
    DiagnosticView {
        code: "java.android-sdk-missing"@,
        message: "the Android SDK this Android Gradle Plugin build needs was not found (Gradle said: \""@
            + marker
            + "\"), so the build could not configure and no Java symbols or call edges were produced. Point ANDROID_HOME at an installed SDK that has the platform and build-tools the project asks for, then re-run `travsr init --semantic --force`."@,
    }
}

/// What to warn of after a build with this output failed: nothing, unless it
/// names the SDK.
pub open spec fn sdk_warning(output: Seq<char>) -> Option<DiagnosticView> {
    match first_held(sdk_markers(), output, 0) {
        Some(m) => Some(sdk_missing(m)),
        None => None,
    }
}

/// What to warn of after a build with this output failed.
pub fn android_sdk_diagnostic(build_output: &str) -> (r: Option<PluginDiagnostic>)
    ensures
        crate::version::diagnostic_view(r) == sdk_warning(build_output@),
{
    let markers = sdk_failure_markers();
    let chars = chars_of(build_output);
    let ghost all = sdk_markers();
    let mut i: usize = 0;
    while i < markers.len()
        invariant
            i <= markers@.len(),
            all == sdk_markers(),
            texts(markers@) == all,
            chars@ == build_output@,
            first_held(all, build_output@, 0) == first_held(all, build_output@, i as int),
        decreases markers@.len() - i,
    {
        if contains_text(chars.as_slice(), markers[i].as_str()) {
            let mut m = copy_text(
                "the Android SDK this Android Gradle Plugin build needs was not found (Gradle said: \"",
            );
            m.append(markers[i].as_str());
            m.append(
                "\"), so the build could not configure and no Java symbols or call edges were produced. Point ANDROID_HOME at an installed SDK that has the platform and build-tools the project asks for, then re-run `travsr init --semantic --force`.",
            );
            return Some(
                PluginDiagnostic { code: copy_text("java.android-sdk-missing"), message: m },
            );
        }
        i += 1;
    }
    None
}

/// The response to a run that failed: empty, but for what there is to warn of.
pub open spec fn failed_response(detail: Seq<char>) -> ResponseView {
    crate::version::with_warning(empty_response(), sdk_warning(detail))
}

/// The response to a run that failed.
pub fn failure_response(detail: &str) -> (r: InvokeResponse)
    ensures
        r@ == failed_response(detail@),
{
    crate::version::attach(InvokeResponse::empty(), android_sdk_diagnostic(detail))
}

/// The response to a failed run says nothing of the project, and warns exactly
/// where the build named the SDK.
pub proof fn law_warning_names_the_sdk(detail: Seq<char>)
    ensures
        failed_response(detail).nodes.len() == 0,
        failed_response(detail).edges.len() == 0,
        failed_response(detail).diagnostics.len() == 1 <==> exists|i: int|
            0 <= i < sdk_markers().len() && holds(detail, #[trigger] sdk_markers()[i]),
        failed_response(detail).diagnostics.len() <= 1,
{
    lemma_first_held(sdk_markers(), detail, 0);
}

proof fn lemma_first_held(markers: Seq<Seq<char>>, output: Seq<char>, i: int)
    requires
        0 <= i,
    ensures
        first_held(markers, output, i) is Some <==> exists|k: int|
            i <= k < markers.len() && holds(output, #[trigger] markers[k]),
    decreases markers.len() - i,
{
    if i < markers.len() && !holds(output, markers[i]) {
        lemma_first_held(markers, output, i + 1);
    }
}

/// The jars that the plugin for Gradle is made of.
#[derive(Debug)]
pub struct GradlePluginJars {
    pub gradle_plugin: String,
    pub semanticdb_plugin: String,
    pub semanticdb_agent: String,
}

/// A path as it may stand in a script: without a Windows prefix and without
/// backslashes, which would escape what follows.
pub open spec fn gradle_path(p: Seq<char>) -> Seq<char> {
    forward(without_verbatim(p))
}

/// A path as it may stand in a script.
pub fn to_gradle_path(p: &str) -> (r: String)
    ensures
        r@ == gradle_path(p@),
{
    forward_slashes(strip_windows_verbatim_prefix(p).as_str())
}

/// The script that applies the plugin, up to the part for Android.
pub open spec fn script_head(
    gradle_plugin: Seq<char>,
    semanticdb_plugin: Seq<char>,
    semanticdb_agent: Seq<char>,
    target: Seq<char>,
    build: Seq<char>,
) -> Seq<char> {
    "initscript {\n  dependencies {\n    classpath(files(\""@
        + gradle_plugin
        + "\"))\n  }\n}\nimport com.sourcegraph.gradle.semanticdb.SemanticdbGradlePlugin\nallprojects {\n  layout.buildDirectory.set(new File(\""@
        + build
        + "/\" + project.name))\n  project.ext[\"semanticdbTarget\"] = \""@
        + target
        + "\"\n  project.ext[\"javacPluginJar\"] = \""@
        + semanticdb_plugin
        + "\"\n  project.ext[\"dependenciesOut\"] = \""@
        + target
        + "/dependencies.txt\"\n  project.ext[\"javacAgentPath\"] = \""@
        + semanticdb_agent
        + "\"\n  apply plugin: SemanticdbGradlePlugin\n}\n"@
}

/// The script that applies the plugin to every project of a build, with what
/// it writes going to `targetroot` and to `build_dir`.
pub fn render_gradle_init_script(
    jars: &GradlePluginJars,
    targetroot: &str,
    build_dir: &str,
) -> (r: String)
    ensures
        r@ == script_head(
            gradle_path(jars.gradle_plugin@),
            gradle_path(jars.semanticdb_plugin@),
            gradle_path(jars.semanticdb_agent@),
            gradle_path(targetroot@),
            gradle_path(build_dir@),
        ) + AGP_INIT_SCRIPT_SHIM@,
{
    let gradle_plugin = to_gradle_path(jars.gradle_plugin.as_str());
    let semanticdb_plugin = to_gradle_path(jars.semanticdb_plugin.as_str());
    let semanticdb_agent = to_gradle_path(jars.semanticdb_agent.as_str());
    let target = to_gradle_path(targetroot);
    let build = to_gradle_path(build_dir);
    let mut s = copy_text("initscript {\n  dependencies {\n    classpath(files(\"");
    s.append(gradle_plugin.as_str());
    s.append("\"))\n  }\n}\nimport com.sourcegraph.gradle.semanticdb.SemanticdbGradlePlugin\nallprojects {\n  layout.buildDirectory.set(new File(\"");
    s.append(build.as_str());
    s.append("/\" + project.name))\n  project.ext[\"semanticdbTarget\"] = \"");
    s.append(target.as_str());
    s.append("\"\n  project.ext[\"javacPluginJar\"] = \"");
    s.append(semanticdb_plugin.as_str());
    s.append("\"\n  project.ext[\"dependenciesOut\"] = \"");
    s.append(target.as_str());
    s.append("/dependencies.txt\"\n  project.ext[\"javacAgentPath\"] = \"");
    s.append(semanticdb_agent.as_str());
    s.append("\"\n  apply plugin: SemanticdbGradlePlugin\n}\n");
    s.append(AGP_INIT_SCRIPT_SHIM);
    s
}

/// However paths are written, no backslash gets into the script, where it
/// would escape what follows.
pub proof fn law_script_holds_no_backslash(
    gradle_plugin: Seq<char>,
    semanticdb_plugin: Seq<char>,
    semanticdb_agent: Seq<char>,
    target: Seq<char>,
    build: Seq<char>,
)
    ensures
        no_backslash(
            script_head(
                gradle_path(gradle_plugin),
                gradle_path(semanticdb_plugin),
                gradle_path(semanticdb_agent),
                gradle_path(target),
                gradle_path(build),
            ) + AGP_INIT_SCRIPT_SHIM@,
        ),
{
    lemma_shim_holds_no_backslash();
    reveal_strlit("initscript {\n  dependencies {\n    classpath(files(\"");
    reveal_strlit("\"))\n  }\n}\nimport com.sourcegraph.gradle.semanticdb.SemanticdbGradlePlugin\nallprojects {\n  layout.buildDirectory.set(new File(\"");
    reveal_strlit("/\" + project.name))\n  project.ext[\"semanticdbTarget\"] = \"");
    reveal_strlit("\"\n  project.ext[\"javacPluginJar\"] = \"");
    reveal_strlit("\"\n  project.ext[\"dependenciesOut\"] = \"");
    reveal_strlit("/dependencies.txt\"\n  project.ext[\"javacAgentPath\"] = \"");
    reveal_strlit("\"\n  apply plugin: SemanticdbGradlePlugin\n}\n");
}

/// A path to a script of Windows.
pub open spec fn is_script(path: Seq<char>) -> bool {
    match path_extension(path) {
        Some(e) => ascii_lower(e) == "cmd"@ || ascii_lower(e) == "bat"@,
        None => false,
    }
}

fn names_script(path: &str) -> (r: bool)
    ensures
        r == is_script(path@),
{
    match extension_of(path) {
        Some(e) => {
            let chars = chars_of(e.as_str());
            let low = lowered(chars.as_slice());
            is_text(low.as_slice(), "cmd") || is_text(low.as_slice(), "bat")
        },
        None => false,
    }
}

/// The jar to run, given the program that was found: where that is a script
/// of Windows, the jar lies beside it under the same name without extension.
pub open spec fn launcher_jar(resolved: Seq<char>, windows: bool) -> Seq<char> {
    let path = if windows {
        forward(resolved)
    } else {
        resolved
    };
    let t = bare(resolved, root_len(resolved, windows), windows);
    if is_script(path) && parent_of(resolved, windows) is Some && t.len() >= 4 {
        t.take(t.len() - 4)
    } else {
        resolved
    }
}

/// The jar to run, given the program that was found.
pub fn scip_java_launcher_jar(resolved: &str, windows: bool) -> (r: String)
    ensures
        r@ == launcher_jar(resolved@, windows),
{
    let path = if windows {
        forward_slashes(resolved)
    } else {
        copy_text(resolved)
    };
    let t = bare_text(resolved, windows);
    let n: usize = t.len();
    if names_script(path.as_str()) && parent_path(resolved, windows).is_some() && n >= 4 {
        let stem = slice_subrange(t.as_slice(), 0, n - 4);
        string_of(stem)
    } else {
        copy_text(resolved)
    }
}

/// The jar inside the launcher that holds the plugin's jars.
pub open spec fn is_payload(name: Seq<char>) -> bool {
    starts_with(name, "coursier/bootstrap/launcher/jars/scip-java_2.13-"@) && ends_with(
        name,
        ".jar"@,
    )
}

/// The first line, from `i` on, that names the jar that is looked for.
pub open spec fn first_payload(listing: Seq<Seq<char>>, i: int) -> Option<Seq<char>>
    decreases listing.len() - i,
{
    if i < 0 || i >= listing.len() {
        None
    } else if is_payload(trim(listing[i])) {
        Some(trim(listing[i]))
    } else {
        first_payload(listing, i + 1)
    }
}

/// What to say when the launcher is not laid out as expected.
pub const NO_PAYLOAD: &'static str = "scip-java_2.13 payload jar not found in the launcher. Is this a 0.12.x scip-java?";

/// The jar inside the launcher that holds the plugin's jars, given the list of
/// what the launcher holds.
pub fn payload_jar(listing: &str) -> (r: Result<String, String>)
    ensures
        match r {
            Ok(name) => first_payload(lines(listing@), 0) == Some(name@),
            Err(e) => first_payload(lines(listing@), 0) is None && e@ == NO_PAYLOAD@,
        },
{
    let chars = chars_of(listing);
    let all = lines_of(chars.as_slice());
    let ghost text = lines(listing@);
    let mut i: usize = 0;
    while i < all.len()
        invariant
            i <= all@.len(),
            texts(all@) == text,
            text == lines(listing@),
            first_payload(text, 0) == first_payload(text, i as int),
        decreases all@.len() - i,
    {
        let line = chars_of(all[i].as_str());
        let name = trimmed(line.as_slice());
        if has_prefix(name, "coursier/bootstrap/launcher/jars/scip-java_2.13-") && has_suffix(
            name,
            ".jar",
        ) {
            return Ok(string_of(name));
        }
        i += 1;
    }
    Err(copy_text(NO_PAYLOAD))
}

/// The names of the plugin's jars.
pub fn plugin_jar_names() -> (r: Vec<String>)
    ensures
        texts(r@) == seq!["gradle-plugin.jar"@, "semanticdb-plugin.jar"@, "semanticdb-agent.jar"@],
{
    let mut v = no_texts();
    push_text(&mut v, "gradle-plugin.jar");
    push_text(&mut v, "semanticdb-plugin.jar");
    push_text(&mut v, "semanticdb-agent.jar");
    v
}

/// The plugin's jars in the directory `dest`.
pub fn plugin_jars(dest: &str, windows: bool) -> (r: GradlePluginJars)
    ensures
        r.gradle_plugin@ == inside(dest@, "gradle-plugin.jar"@, windows),
        r.semanticdb_plugin@ == inside(dest@, "semanticdb-plugin.jar"@, windows),
        r.semanticdb_agent@ == inside(dest@, "semanticdb-agent.jar"@, windows),
{
    GradlePluginJars {
        gradle_plugin: path_inside(dest, "gradle-plugin.jar", windows),
        semanticdb_plugin: path_inside(dest, "semanticdb-plugin.jar", windows),
        semanticdb_agent: path_inside(dest, "semanticdb-agent.jar", windows),
    }
}

/// How to take the jar `nested` out of the launcher, into `dest`.
pub fn plan_extract_payload(jar: &str, launcher: &str, nested: &str, dest: &str) -> (r: Invocation)
    ensures
        r@ == (InvocationView {
            program: jar@,
            args: seq!["xf"@, launcher@, nested@],
            current_dir: dest@,
            env: None,
        }),
{
    let mut v = no_texts();
    push_text(&mut v, "xf");
    push_text(&mut v, launcher);
    push_text(&mut v, nested);
    assert(texts(v@) =~= seq!["xf"@, launcher@, nested@]);
    Invocation { program: copy_text(jar), args: v, current_dir: copy_text(dest), env: None }
}

/// How to take the plugin's jars out of the jar `nested`, into `dest`.
pub fn plan_extract_plugins(jar: &str, nested: &str, dest: &str, windows: bool) -> (r: Invocation)
    ensures
        r@ == (InvocationView {
            program: jar@,
            args: seq![
                "xf"@,
                inside(dest@, nested@, windows),
                "gradle-plugin.jar"@,
                "semanticdb-plugin.jar"@,
                "semanticdb-agent.jar"@,
            ],
            current_dir: dest@,
            env: None,
        }),
{
    let path = path_inside(dest, nested, windows);
    let mut v = no_texts();
    push_text(&mut v, "xf");
    push_text(&mut v, path.as_str());
    push_text(&mut v, "gradle-plugin.jar");
    push_text(&mut v, "semanticdb-plugin.jar");
    push_text(&mut v, "semanticdb-agent.jar");
    assert(texts(v@) =~= seq![
        "xf"@,
        path@,
        "gradle-plugin.jar"@,
        "semanticdb-plugin.jar"@,
        "semanticdb-agent.jar"@,
    ]);
    Invocation { program: copy_text(jar), args: v, current_dir: copy_text(dest), env: None }
}

/// What to say when the plugin's jars are not where they should be.
pub open spec fn jars_missing(dest: Seq<char>) -> Seq<char> {
    "scip-java plugin jars missing after extraction under "@ + dest
}

/// Whether all of the plugin's jars are in `dest`.
pub fn check_plugin_jars(dest: &str, gradle_plugin: bool, plugin: bool, agent: bool) -> (r: Result<
    (),
    String,
>)
    ensures
        match r {
            Ok(_) => gradle_plugin && plugin && agent,
            Err(e) => !(gradle_plugin && plugin && agent) && e@ == jars_missing(dest@),
        },
{
    if gradle_plugin && plugin && agent {
        return Ok(());
    }
    let mut e = copy_text("scip-java plugin jars missing after extraction under ");
    e.append(dest);
    Err(e)
}

/// What to say when there is no Gradle.
pub const NO_GRADLE: &'static str = "no gradlew.bat in the project and no `gradle` on PATH";

/// How to run Gradle in `root` with `init_script`: by the project's own
/// wrapper, else by the one on the path.
pub fn plan_gradle(
    root: &str,
    wrapper: Option<&str>,
    gradle: Option<&str>,
    init_script: &str,
) -> (r: Plan)
    ensures
        r@ == match crate::search::or_else(opt_text(wrapper), opt_text(gradle)) {
            Some(p) => crate::indexers::run_of(
                p,
                seq!["--no-daemon"@, "--console=plain"@, "--init-script"@, init_script@]
                    + index_tasks(),
                root@,
            ),
            None => PlanView::Fail(NO_GRADLE@),
        },
{
    let program = match wrapper {
        Some(w) => w,
        None => match gradle {
            Some(g) => g,
            None => {
                return Plan::Fail(copy_text(NO_GRADLE));
            },
        },
    };
    let mut v = no_texts();
    push_text(&mut v, "--no-daemon");
    push_text(&mut v, "--console=plain");
    push_text(&mut v, "--init-script");
    push_text(&mut v, init_script);
    push_tasks(&mut v);
    assert(texts(v@) =~= seq![
        "--no-daemon"@,
        "--console=plain"@,
        "--init-script"@,
        init_script@,
    ] + index_tasks());
    Plan::Run(
        Invocation {
            program: copy_text(program),
            args: v,
            current_dir: copy_text(root),
            env: None,
        },
    )
}

/// How to turn what the build wrote to `targetroot` into an index at `output`.
pub fn plan_index_semanticdb(
    java: &str,
    launcher: &str,
    output: &str,
    targetroot: &str,
    root: &str,
) -> (r: Invocation)
    ensures
        r@ == (InvocationView {
            program: java@,
            args: seq![
                "-jar"@,
                launcher@,
                "index-semanticdb"@,
                "--output"@,
                output@,
                targetroot@,
            ],
            current_dir: root@,
            env: None,
        }),
{
    let mut v = no_texts();
    push_text(&mut v, "-jar");
    push_text(&mut v, launcher);
    push_text(&mut v, "index-semanticdb");
    push_text(&mut v, "--output");
    push_text(&mut v, output);
    push_text(&mut v, targetroot);
    assert(texts(v@) =~= seq![
        "-jar"@,
        launcher@,
        "index-semanticdb"@,
        "--output"@,
        output@,
        targetroot@,
    ]);
    Invocation { program: copy_text(java), args: v, current_dir: copy_text(root), env: None }
}

/// What a build on Windows needs.
#[derive(Debug)]
pub struct WindowsTools {
    pub launcher: String,
    pub java: String,
    pub jar: String,
}

/// Why a project cannot be built on Windows, if it cannot.
pub open spec fn windows_refusal(
    scip_java: Option<Seq<char>>,
    java: Option<Seq<char>>,
    jar: Option<Seq<char>>,
    build: Option<BuildSystem>,
    root: Seq<char>,
) -> Option<Seq<char>> {
    if scip_java is None {
        Some("scip-java not found. Run `travsr lang install java`"@)
    } else if java is None {
        Some("no `java` found (set JAVA_HOME or put java on PATH)"@)
    } else if jar is None {
        Some("no `jar` found (need a JDK, not just a JRE, on JAVA_HOME/PATH)"@)
    } else {
        match build {
            Some(BuildSystem::Gradle) => None,
            Some(BuildSystem::Maven) => Some(
                "Maven-based Java projects are not yet supported for semantic analysis on Windows; convert the project to Gradle, or run on macOS/Linux"@,
            ),
            None => Some(
                "no Gradle or Maven build file found under "@ + root
                    + ", cannot build for semantic analysis"@,
            ),
        }
    }
}

/// What a build on Windows is run with, or why there is none: only Gradle's
/// can be run there, and only with a whole JDK.
pub fn windows_tools(
    scip_java: Option<&str>,
    java: Option<&str>,
    jar: Option<&str>,
    build: Option<BuildSystem>,
    root: &str,
) -> (r: Result<WindowsTools, String>)
    ensures
        match r {
            Ok(t) => windows_refusal(
                opt_text(scip_java),
                opt_text(java),
                opt_text(jar),
                build,
                root@,
            ) is None && t.launcher@ == launcher_jar(scip_java->0@, true) && t.java@ == java->0@
                && t.jar@ == jar->0@,
            Err(e) => windows_refusal(
                opt_text(scip_java),
                opt_text(java),
                opt_text(jar),
                build,
                root@,
            ) == Some(e@),
        },
{
    let scip_java = match scip_java {
        Some(p) => p,
        None => {
            return Err(copy_text("scip-java not found. Run `travsr lang install java`"));
        },
    };
    let java = match java {
        Some(p) => p,
        None => {
            return Err(copy_text("no `java` found (set JAVA_HOME or put java on PATH)"));
        },
    };
    let jar = match jar {
        Some(p) => p,
        None => {
            return Err(
                copy_text("no `jar` found (need a JDK, not just a JRE, on JAVA_HOME/PATH)"),
            );
        },
    };
    match build {
        Some(BuildSystem::Gradle) => Ok(
            WindowsTools {
                launcher: scip_java_launcher_jar(scip_java, true),
                java: copy_text(java),
                jar: copy_text(jar),
            },
        ),
        Some(BuildSystem::Maven) => Err(
            copy_text(
                "Maven-based Java projects are not yet supported for semantic analysis on Windows; convert the project to Gradle, or run on macOS/Linux",
            ),
        ),
        None => {
            let mut e = copy_text("no Gradle or Maven build file found under ");
            e.append(root);
            e.append(", cannot build for semantic analysis");
            Err(e)
        },
    }
}

/// Where a tool of the JDK in `java_home` is.
pub fn jdk_tool(java_home: &str, tool: &str, windows: bool) -> (r: String)
    ensures
        r@ == inside(
            inside(java_home@, "bin"@, windows),
            if windows {
                tool@ + ".exe"@
            } else {
                tool@
            },
            windows,
        ),
{
    let mut name = copy_text(tool);
    if windows {
        name.append(".exe");
    }
    path_inside(path_inside(java_home, "bin", windows).as_str(), name.as_str(), windows)
}

/// How to speak of a process of a Java build.
pub fn build_names(what: &str) -> (r: RunNames)
    ensures
        r.timeout_name@ == what@,
        r.exit_name@ == what@,
        r.budget_secs == Indexer::Java.budget(),
        r.report == Report::Telling,
{
    RunNames {
        timeout_name: copy_text(what),
        exit_name: copy_text(what),
        budget_secs: Indexer::Java.timeout_secs(),
        report: Report::Telling,
    }
}

/// A build is Gradle's where any file of Gradle's lies in the root, Maven's
/// where there is only a `pom.xml`, and none else.
pub proof fn law_build_is_told_by_its_files(files: Seq<Seq<char>>)
    ensures
        ({
            let gradle = files.contains("gradlew.bat"@) || files.contains("gradlew"@)
                || files.contains("build.gradle"@) || files.contains("build.gradle.kts"@)
                || files.contains("settings.gradle"@) || files.contains("settings.gradle.kts"@);
            &&& build_system(files) == Some(BuildSystem::Gradle) <==> gradle
            &&& build_system(files) == Some(BuildSystem::Maven) <==> !gradle && files.contains(
                "pom.xml"@,
            )
            &&& build_system(files) is None <==> !gradle && !files.contains("pom.xml"@)
        }),
{
    let g = gradle_files();
    assert(g[0] == "gradlew.bat"@);
    assert(g[1] == "gradlew"@);
    assert(g[2] == "build.gradle"@);
    assert(g[3] == "build.gradle.kts"@);
    assert(g[4] == "settings.gradle"@);
    assert(g[5] == "settings.gradle.kts"@);
}

/// Either build starts clean, so that every source is compiled anew, and
/// compiles main and test sources; Gradle's is given the script first.
pub proof fn law_build_compiles_everything_anew(shim: Seq<char>)
    ensures
        build_args(Some(BuildSystem::Maven), shim) == seq![
            "--build-tool"@,
            "maven"@,
            "--"@,
            "--batch-mode"@,
            "-Dmaven.clean.failOnError=false"@,
            "clean"@,
            "test-compile"@,
        ],
        build_args(Some(BuildSystem::Gradle), shim) == seq![
            "--build-tool"@,
            "gradle"@,
            "--"@,
            "--init-script"@,
            shim,
            "clean"@,
            "scipPrintDependencies"@,
            "scipCompileAll"@,
        ],
        build_args(None, shim) == Seq::<Seq<char>>::empty(),
{
}

/// A failed build that names the SDK is answered by one warning that repeats
/// what it said; one that says none of these is not.
pub proof fn law_named_sdk_is_repeated(detail: Seq<char>)
    ensures
        ({
            let a = holds(detail, "SDK location not found"@);
            let b = holds(detail, "Failed to find Platform SDK with path"@);
            let c = holds(detail, "Failed to find target with hash string"@);
            let d = holds(detail, "Failed to find Build Tools revision"@);
            let e = holds(detail, "Failed to install the following Android SDK packages"@);
            let said = failed_response(detail).diagnostics;
            &&& said.len() == 1 <==> a || b || c || d || e
            &&& said.len() == 1 ==> said[0].code == "java.android-sdk-missing"@ && exists|m: Seq<char>|
                #![trigger holds(said[0].message, m)]
                holds(detail, m) && m.len() > 0 && holds(said[0].message, m)
        }),
{
    let m = sdk_markers();
    lemma_first_held(m, detail, 0);
    assert(m[0] == "SDK location not found"@);
    assert(m[1] == "Failed to find Platform SDK with path"@);
    assert(m[2] == "Failed to find target with hash string"@);
    assert(m[3] == "Failed to find Build Tools revision"@);
    assert(m[4] == "Failed to install the following Android SDK packages"@);
    reveal_strlit("SDK location not found");
    reveal_strlit("Failed to find Platform SDK with path");
    reveal_strlit("Failed to find target with hash string");
    reveal_strlit("Failed to find Build Tools revision");
    reveal_strlit("Failed to install the following Android SDK packages");
    if first_held(m, detail, 0) is Some {
        let said = first_held(m, detail, 0)->0;
        lemma_held_is_one(m, detail, 0);
        crate::version::lemma_middle_is_held(
            "the Android SDK this Android Gradle Plugin build needs was not found (Gradle said: \""@,
            said,
            "\"), so the build could not configure and no Java symbols or call edges were produced. Point ANDROID_HOME at an installed SDK that has the platform and build-tools the project asks for, then re-run `travsr init --semantic --force`."@,
        );
        assert(holds(failed_response(detail).diagnostics[0].message, said));
    }
}

proof fn lemma_held_is_one(markers: Seq<Seq<char>>, output: Seq<char>, i: int)
    requires
        0 <= i,
        first_held(markers, output, i) is Some,
    ensures
        holds(output, first_held(markers, output, i)->0),
        exists|k: int| i <= k < markers.len() && #[trigger] markers[k] == first_held(markers, output, i)->0,
    decreases markers.len() - i,
{
    if i < markers.len() && !holds(output, markers[i]) {
        lemma_held_is_one(markers, output, i + 1);
    }
}

/// The jar that is taken out of the launcher is the first that is listed under
/// the name of one; where none is, there is none.
pub proof fn law_first_listed_payload_is_taken(listing: Seq<Seq<char>>, k: int)
    requires
        0 <= k <= listing.len(),
        k < listing.len() ==> starts_with(
            trim(listing[k]),
            "coursier/bootstrap/launcher/jars/scip-java_2.13-"@,
        ) && ends_with(trim(listing[k]), ".jar"@),
        forall|i: int|
            0 <= i < k ==> !(starts_with(
                trim(#[trigger] listing[i]),
                "coursier/bootstrap/launcher/jars/scip-java_2.13-"@,
            ) && ends_with(trim(listing[i]), ".jar"@)),
    ensures
        k < listing.len() ==> first_payload(listing, 0) == Some(trim(listing[k])),
        k == listing.len() ==> first_payload(listing, 0) is None,
{
    lemma_first_payload(listing, 0, k);
}

proof fn lemma_first_payload(listing: Seq<Seq<char>>, i: int, k: int)
    requires
        0 <= i <= k <= listing.len(),
        k < listing.len() ==> is_payload(trim(listing[k])),
        forall|j: int| i <= j < k ==> !is_payload(trim(#[trigger] listing[j])),
    ensures
        first_payload(listing, i) == (if k < listing.len() {
            Some(trim(listing[k]))
        } else {
            None
        }),
    decreases k - i,
{
    if i < k {
        lemma_first_payload(listing, i + 1, k);
    }
}

/// A project is built on Windows exactly where Gradle builds it and there are
/// `scip-java` and a whole JDK; what is missing first is what is told.
pub proof fn law_windows_needs_gradle_and_a_jdk(
    scip_java: Option<Seq<char>>,
    java: Option<Seq<char>>,
    jar: Option<Seq<char>>,
    build: Option<BuildSystem>,
    root: Seq<char>,
)
    ensures
        windows_refusal(scip_java, java, jar, build, root) is None <==> scip_java is Some
            && java is Some && jar is Some && build == Some(BuildSystem::Gradle),
        scip_java is None ==> windows_refusal(scip_java, java, jar, build, root) == Some(
            "scip-java not found. Run `travsr lang install java`"@,
        ),
        scip_java is Some && java is None ==> windows_refusal(scip_java, java, jar, build, root)
            == Some("no `java` found (set JAVA_HOME or put java on PATH)"@),
        scip_java is Some && java is Some && jar is Some && build is None ==> (windows_refusal(
            scip_java,
            java,
            jar,
            build,
            root,
        ) matches Some(e) && holds(e, root)),
{
    crate::version::lemma_middle_is_held(
        "no Gradle or Maven build file found under "@,
        root,
        ", cannot build for semantic analysis"@,
    );
}

/// The script tells the plugin where its jars are, where to write, and where
/// to build: each path stands under its own name.
#[verifier::rlimit(50)]
pub proof fn law_script_tells_every_path(
    gradle_plugin: Seq<char>,
    semanticdb_plugin: Seq<char>,
    semanticdb_agent: Seq<char>,
    target: Seq<char>,
    build: Seq<char>,
)
    ensures
        ({
            let s = script_head(gradle_plugin, semanticdb_plugin, semanticdb_agent, target, build);
            &&& holds(s, "classpath(files(\""@ + gradle_plugin + "\"))"@)
            &&& holds(s, "[\"javacPluginJar\"] = \""@ + semanticdb_plugin + "\""@)
            &&& holds(s, "[\"javacAgentPath\"] = \""@ + semanticdb_agent + "\""@)
            &&& holds(s, "[\"semanticdbTarget\"] = \""@ + target + "\""@)
            &&& holds(s, "[\"dependenciesOut\"] = \""@ + target + "/dependencies.txt\""@)
            &&& holds(s, "layout.buildDirectory.set(new File(\""@ + build + "/\" + project.name))"@)
        }),
{
    let s = script_head(gradle_plugin, semanticdb_plugin, semanticdb_agent, target, build);
    let a = "initscript {\n  dependencies {\n    classpath(files(\""@;
    let b =
        "\"))\n  }\n}\nimport com.sourcegraph.gradle.semanticdb.SemanticdbGradlePlugin\nallprojects {\n  layout.buildDirectory.set(new File(\""@;
    let c = "/\" + project.name))\n  project.ext[\"semanticdbTarget\"] = \""@;
    let d = "\"\n  project.ext[\"javacPluginJar\"] = \""@;
    let e = "\"\n  project.ext[\"dependenciesOut\"] = \""@;
    let f = "/dependencies.txt\"\n  project.ext[\"javacAgentPath\"] = \""@;
    let g = "\"\n  apply plugin: SemanticdbGradlePlugin\n}\n"@;
    reveal_strlit("initscript {\n  dependencies {\n    classpath(files(\"");
    reveal_strlit("\"))\n  }\n}\nimport com.sourcegraph.gradle.semanticdb.SemanticdbGradlePlugin\nallprojects {\n  layout.buildDirectory.set(new File(\"");
    reveal_strlit("/\" + project.name))\n  project.ext[\"semanticdbTarget\"] = \"");
    reveal_strlit("\"\n  project.ext[\"javacPluginJar\"] = \"");
    reveal_strlit("\"\n  project.ext[\"dependenciesOut\"] = \"");
    reveal_strlit("/dependencies.txt\"\n  project.ext[\"javacAgentPath\"] = \"");
    reveal_strlit("\"\n  apply plugin: SemanticdbGradlePlugin\n}\n");
    reveal_strlit("classpath(files(\"");
    reveal_strlit("\"))");
    reveal_strlit("[\"javacPluginJar\"] = \"");
    reveal_strlit("[\"javacAgentPath\"] = \"");
    reveal_strlit("[\"semanticdbTarget\"] = \"");
    reveal_strlit("[\"dependenciesOut\"] = \"");
    reveal_strlit("/dependencies.txt\"");
    reveal_strlit("\"");
    reveal_strlit("layout.buildDirectory.set(new File(\"");
    reveal_strlit("/\" + project.name))");
    let p = gradle_plugin;
    let q = semanticdb_plugin;
    let r = semanticdb_agent;
    let t = target;
    let none = Seq::<char>::empty();
    lemma_quoted(none, a, p, b, build + c + t + d + q + e + t + f + r + g, "classpath(files(\""@, "\"))"@);
    assert(s =~= none + a + p + b + (build + c + t + d + q + e + t + f + r + g));
    lemma_quoted(a + p, b, build, c, t + d + q + e + t + f + r + g, "layout.buildDirectory.set(new File(\""@, "/\" + project.name))"@);
    assert(s =~= (a + p) + b + build + c + (t + d + q + e + t + f + r + g));
    lemma_quoted(a + p + b + build, c, t, d, q + e + t + f + r + g, "[\"semanticdbTarget\"] = \""@, "\""@);
    assert(s =~= (a + p + b + build) + c + t + d + (q + e + t + f + r + g));
    lemma_quoted(a + p + b + build + c + t, d, q, e, t + f + r + g, "[\"javacPluginJar\"] = \""@, "\""@);
    assert(s =~= (a + p + b + build + c + t) + d + q + e + (t + f + r + g));
    lemma_quoted(a + p + b + build + c + t + d + q, e, t, f, r + g, "[\"dependenciesOut\"] = \""@, "/dependencies.txt\""@);
    assert(s =~= (a + p + b + build + c + t + d + q) + e + t + f + (r + g));
    lemma_quoted(a + p + b + build + c + t + d + q + e + t, f, r, g, none, "[\"javacAgentPath\"] = \""@, "\""@);
    assert(s =~= (a + p + b + build + c + t + d + q + e + t) + f + r + g + none);
}

proof fn lemma_quoted(
    front: Seq<char>,
    left: Seq<char>,
    mid: Seq<char>,
    right: Seq<char>,
    back: Seq<char>,
    open: Seq<char>,
    close: Seq<char>,
)
    requires
        open.len() <= left.len(),
        close.len() <= right.len(),
        left.skip(left.len() - open.len()) =~= open,
        right.take(close.len() as int) =~= close,
    ensures
        holds(front + left + mid + right + back, open + mid + close),
{
    let a = front + left.take(left.len() - open.len());
    let c = right.skip(close.len() as int) + back;
    crate::version::lemma_middle_is_held(a, open + mid + close, c);
    assert(left =~= left.take(left.len() - open.len()) + open);
    assert(right =~= close + right.skip(close.len() as int));
    assert(front + left + mid + right + back =~= a + (open + mid + close) + c);
}

/// A launcher of Windows that is a script has its jar beside it, under the same
/// name without extension; any other program is run as it is.
pub proof fn law_script_leads_to_its_jar(
    dir: Seq<char>,
    stem: Seq<char>,
    ext: Seq<char>,
    name: Seq<char>,
)
    requires
        dir.len() > 3,
        crate::paths::has_drive(dir),
        crate::dotnet::separates(dir[2], true),
        !crate::dotnet::separates(dir.last(), true),
        dir.last() != '.',
        stem.len() > 0,
        forall|i: int|
            0 <= i < stem.len() ==> !crate::dotnet::separates(#[trigger] stem[i], true),
        ascii_lower(ext) == "cmd"@ || ascii_lower(ext) == "bat"@,
        name.len() > 0,
        forall|i: int|
            0 <= i < name.len() ==> !crate::dotnet::separates(#[trigger] name[i], true) && name[i]
                != '.',
    ensures
        launcher_jar(dir + seq!['\\'] + stem + seq!['.'] + ext, true) == dir + seq!['\\'] + stem,
        launcher_jar(dir + seq!['\\'] + name, true) == dir + seq!['\\'] + name,
{
    reveal_strlit("cmd");
    reveal_strlit("bat");
    reveal_strlit(".");
    reveal_strlit("..");
    let low = ascii_lower(ext);
    assert(low.len() == ext.len());
    assert("cmd"@.len() == 3 && "bat"@.len() == 3);
    assert(ext.len() == 3);
    assert forall|i: int| 0 <= i < ext.len() implies (#[trigger] ext[i]) != '.'
        && !crate::dotnet::separates(ext[i], true) by {
        assert(low[i] == crate::text::lower(ext[i]));
    }
    let file = stem + seq!['.'] + ext;
    let s = dir + seq!['\\'] + file;
    assert(s =~= dir + seq!['\\'] + stem + seq!['.'] + ext);
    crate::paths::law_extension_follows_the_last_dot(stem, ext);
    assert(file.len() > 3);
    lemma_last_name(dir, file);
    assert(file.last() == ext[2]);
    crate::dotnet::law_parent_undoes_inside(dir, file, true);
    assert(s.last() == ext[2]);
    assert(bare(s, root_len(s, true), true) == s);
    assert(s.take(s.len() - 4) =~= dir + seq!['\\'] + stem);
    crate::paths::law_extension_follows_the_last_dot(stem, name);
    lemma_last_name(dir, name);
}

proof fn lemma_last_name(dir: Seq<char>, file: Seq<char>)
    requires
        file.len() > 0,
        file.len() > 1 || file[0] != '.',
        forall|i: int|
            0 <= i < file.len() ==> !crate::dotnet::separates(#[trigger] file[i], true),
    ensures
        path_extension(forward(dir + seq!['\\'] + file)) == crate::paths::name_extension(file),
{
    let s = forward(dir + seq!['\\'] + file);
    assert(forward(file) =~= file);
    assert(s =~= forward(dir) + seq!['/'] + file);
    crate::paths::lemma_split_concat(forward(dir), '/', file);
    crate::text::lemma_find_unique(file, '/', file.len() as int);
    assert(crate::text::split(file, '/') =~= seq![file]);
    let p = crate::text::split(s, '/');
    assert(p.last() == file);
    reveal_strlit(".");
}

} // verus!
