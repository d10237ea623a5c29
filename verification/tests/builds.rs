use travsr_lang::agp::AGP_INIT_SCRIPT_SHIM;
use travsr_lang::dotnet::{
    dotnet_root, dotnet_roots_of_binary, parent_path, path_inside, user_home,
    well_known_dotnet_binaries, well_known_dotnet_roots, windows_dotnet_roots, Installation, Machine,
};
use travsr_lang::java::{
    android_sdk_diagnostic, build_files, check_plugin_jars, detect_build_system, failure_response,
    gradle_index_tasks, jdk_tool, payload_jar, plan_extract_payload, plan_extract_plugins,
    plan_gradle, plan_index_semanticdb, plan_scip_java, plugin_jar_names, plugin_jars,
    render_gradle_init_script, scip_java_launcher_jar, windows_tools, BuildSystem,
    GradlePluginJars, NO_GRADLE, NO_PAYLOAD,
};
use travsr_lang::indexers::Plan;

fn unix(home: Option<&str>) -> Machine {
    Machine {
        windows: false,
        program_files: None,
        program_files_x86: None,
        home: home.map(str::to_string),
    }
}

fn windows() -> Machine {
    Machine {
        windows: true,
        program_files: Some(r"D:\Program Files".to_string()),
        program_files_x86: Some("c:/Program Files (x86)".to_string()),
        home: Some(r"C:\Users\me".to_string()),
    }
}

#[test]
fn candidates_cover_the_sandbox_path_gap() {
    let m = unix(None);
    assert!(well_known_dotnet_binaries(&m)
        .iter()
        .any(|p| p.ends_with("opt/homebrew/opt/dotnet/bin/dotnet")));
    assert!(well_known_dotnet_roots(&m)
        .iter()
        .any(|p| p.ends_with("opt/homebrew/opt/dotnet/libexec")));
}

#[test]
fn candidates_cover_the_windows_machine_wide_install() {
    let m = windows();
    assert!(
        well_known_dotnet_roots(&m)
            .iter()
            .any(|p| p.ends_with("dotnet") && p.contains("Program Files")),
        "the machine-wide Program Files root must be probed"
    );
    assert!(
        well_known_dotnet_binaries(&m)
            .iter()
            .any(|p| p.ends_with("dotnet.exe")),
        "and its launcher must be tried"
    );
}

#[test]
fn windows_roots_are_listed_once() {
    assert_eq!(
        windows_dotnet_roots(&windows()),
        [
            r"D:\Program Files\dotnet",
            r"c:/Program Files (x86)\dotnet",
            r"C:\Program Files\dotnet",
        ]
    );
    assert!(windows_dotnet_roots(&unix(Some("/home/u"))).is_empty());
    assert_eq!(
        well_known_dotnet_roots(&unix(Some("/home/u"))).last().map(String::as_str),
        Some("/home/u/.dotnet")
    );
    assert_eq!(
        well_known_dotnet_binaries(&unix(Some("/home/u"))).last().map(String::as_str),
        Some("/home/u/.dotnet/dotnet")
    );
}

#[test]
fn user_home_falls_back_to_userprofile() {
    let s = |x: &str| Some(x.to_string());
    assert_eq!(user_home(s("/h"), s("C:\\p")), s("/h"));
    assert_eq!(user_home(None, s("C:\\p")), s("C:\\p"));
    assert_eq!(user_home(None, None), None);
}

#[test]
fn resolves_homebrew_layout_from_binary() {
    let tried = dotnet_roots_of_binary("/cellar/bin/dotnet", &unix(Some("/home/u")));
    assert_eq!(tried, ["/cellar/bin", "/cellar/libexec", "/home/u/.dotnet"]);
    let found: Vec<Installation> = tried
        .into_iter()
        .map(|root| Installation { has_sdk: root == "/cellar/libexec", root })
        .collect();
    assert_eq!(dotnet_root(None, &found).as_deref(), Some("/cellar/libexec"));
}

#[test]
fn resolves_official_installer_layout_from_binary() {
    let tried = dotnet_roots_of_binary("/opt/net/dotnet", &unix(None));
    let found: Vec<Installation> = tried
        .into_iter()
        .map(|root| Installation { has_sdk: root == "/opt/net", root })
        .collect();
    assert_eq!(dotnet_root(None, &found).as_deref(), Some("/opt/net"));
}

#[test]
fn a_runtime_without_an_sdk_is_never_used() {
    let found = vec![Installation { root: "/opt/net".to_string(), has_sdk: false }];
    assert_eq!(dotnet_root(None, &found), None);
    assert_eq!(dotnet_root(Some("/set"), &found).as_deref(), Some("/set"));
}

#[test]
fn parents_and_children_of_paths() {
    assert_eq!(parent_path("/a/b", false).as_deref(), Some("/a"));
    assert_eq!(parent_path("/a//b/./", false).as_deref(), Some("/a"));
    assert_eq!(parent_path("/a", false).as_deref(), Some("/"));
    assert_eq!(parent_path("a", false).as_deref(), Some(""));
    assert_eq!(parent_path("/", false), None);
    assert_eq!(parent_path("", false), None);
    assert_eq!(parent_path(r"C:\dotnet\dotnet.exe", true).as_deref(), Some(r"C:\dotnet"));
    assert_eq!(parent_path(r"C:\dotnet.exe", true).as_deref(), Some(r"C:\"));
    assert_eq!(parent_path(r"\\server\share\dotnet.exe", true).as_deref(), Some(r"\\server\share\"));
    assert_eq!(parent_path(r"\\server\share\", true), None);
    assert_eq!(parent_path(r"\\server\share", true), None);
    assert_eq!(parent_path(r"\\?\UNC\server\share", true), None);
    assert_eq!(parent_path(r"\\server", true).as_deref(), Some(r"\"));
    let jar = scip_java_launcher_jar(r"\\srv\jdk\scip-java.cmd", true);
    assert_eq!(jar, r"\\srv\jdk\scip-java");
    assert_eq!(path_inside("/a/", "b", false), "/a/b");
    assert_eq!(path_inside(r"C:\a", "b", true), r"C:\a\b");
}

#[test]
fn init_script_is_valid_groovy_shape() {
    let jars = GradlePluginJars {
        gradle_plugin: r"C:\scratch\scip-java-plugins\gradle-plugin.jar".to_string(),
        semanticdb_plugin: r"C:\scratch\scip-java-plugins\semanticdb-plugin.jar".to_string(),
        semanticdb_agent: r"C:\scratch\scip-java-plugins\semanticdb-agent.jar".to_string(),
    };
    let script = render_gradle_init_script(
        &jars,
        r"C:\scratch\semanticdb-targetroot",
        r"C:\scratch\gradle-build",
    );
    assert!(
        !script.contains('\\'),
        "init-script must not contain backslashes:\n{script}"
    );
    assert!(script.contains("classpath(files(\"C:/scratch/scip-java-plugins/gradle-plugin.jar\"))"));
    assert!(script.contains("apply plugin: SemanticdbGradlePlugin"));
    assert!(script.contains("import com.sourcegraph.gradle.semanticdb.SemanticdbGradlePlugin"));
    assert!(script.contains("layout.buildDirectory.set"));
    assert!(
        script.contains(r#"project.ext["semanticdbTarget"] = "C:/scratch/semanticdb-targetroot""#)
    );
}

#[test]
fn launcher_jar_drops_cmd_extension() {
    assert_eq!(
        scip_java_launcher_jar(r"C:\Users\me\.travsr\bin\scip-java.cmd", true),
        r"C:\Users\me\.travsr\bin\scip-java"
    );
    assert_eq!(
        scip_java_launcher_jar(r"C:\Users\me\.travsr\bin\scip-java.cmd", false),
        r"C:\Users\me\.travsr\bin\scip-java"
    );
    assert_eq!(
        scip_java_launcher_jar("/home/me/.travsr/bin/scip-java", false),
        "/home/me/.travsr/bin/scip-java"
    );
    assert_eq!(scip_java_launcher_jar(r"C:\x\scip-java.BAT", true), r"C:\x\scip-java");
    assert_eq!(scip_java_launcher_jar(r"C:\x.cmd\tool", true), r"C:\x.cmd\tool");
}

#[test]
fn build_system_detection() {
    let files = |names: &[&str]| -> Vec<String> { names.iter().map(|n| n.to_string()).collect() };
    assert_eq!(detect_build_system(&files(&[])), None);
    assert_eq!(
        detect_build_system(&files(&["pom.xml"])),
        Some(BuildSystem::Maven)
    );
    assert_eq!(
        detect_build_system(&files(&["pom.xml", "build.gradle"])),
        Some(BuildSystem::Gradle)
    );
    for f in build_files() {
        let want = if f == "pom.xml" { BuildSystem::Maven } else { BuildSystem::Gradle };
        assert_eq!(detect_build_system(&vec![f]), Some(want));
    }
}

#[test]
fn init_script_carries_the_agp_shim() {
    let jars = GradlePluginJars {
        gradle_plugin: r"C:\scratch\scip-java-plugins\gradle-plugin.jar".to_string(),
        semanticdb_plugin: r"C:\scratch\scip-java-plugins\semanticdb-plugin.jar".to_string(),
        semanticdb_agent: r"C:\scratch\scip-java-plugins\semanticdb-agent.jar".to_string(),
    };
    let script = render_gradle_init_script(
        &jars,
        r"C:\scratch\semanticdb-targetroot",
        r"C:\scratch\gradle-build",
    );
    assert!(
        !script.contains('\\'),
        "no backslash may reach Groovy:\n{script}"
    );
    let plugin_at = script
        .find("apply plugin: SemanticdbGradlePlugin")
        .expect("plugin");
    let shim_at = script.find("Android Gradle Plugin support").expect("shim");
    assert!(
        plugin_at < shim_at,
        "shim must follow the plugin application"
    );
    for needle in [
        r#"if (p.plugins.hasPlugin("java")) { return }"#,
        "p.tasks.withType(JavaCompile)",
        r#"p.tasks.named("scipCompileAll") { it.dependsOn(selected) }"#,
        "settingsEvaluated",
        r#"String.valueOf(mode.getOrNull()) == "FAIL_ON_PROJECT_REPOS""#,
        r#"Enum.valueOf(modes, "PREFER_SETTINGS")"#,
        r#"["compileOnly", "testCompileOnly"]"#,
        r#"["annotationProcessor", "testAnnotationProcessor"]"#,
        "if (javacVersion >= 17) { jvmArgs.addAll(moduleOptions) }",
        "t.doFirst {",
        "def reachable = ",
        r#"p.tasks.named("scipPrintDependencies") { it.enabled = false }"#,
        "-javaagent:",
        "management.repositories.each",
    ] {
        assert!(
            script.contains(needle),
            "init-script is missing `{needle}`:\n{script}"
        );
    }
}

#[test]
fn agp_shim_reads_both_plugin_generations_from_extra_properties() {
    for key in [
        "semanticdbTarget",
        "scipTarget",
        "javacPluginJar",
        "javacAgentPath",
    ] {
        assert!(
            AGP_INIT_SCRIPT_SHIM.contains(&format!("\"{key}\"")),
            "shim must read `{key}`"
        );
    }
    assert!(AGP_INIT_SCRIPT_SHIM.contains(r#""semanticdbTarget" ? "semanticdb" : "scip""#));
    assert!(!AGP_INIT_SCRIPT_SHIM.contains('\\'));
    assert!(AGP_INIT_SCRIPT_SHIM.contains("AndroidTest|Release"));
    assert!(!AGP_INIT_SCRIPT_SHIM.contains("UnitTest"));
    let java_check = AGP_INIT_SCRIPT_SHIM
        .find(r#"hasPlugin("java")"#)
        .expect("java check");
    let repo_readd = AGP_INIT_SCRIPT_SHIM
        .find("management.repositories.each")
        .expect("repo re-add");
    assert!(
        java_check < repo_readd,
        "repository re-add must follow the java check"
    );
}

#[test]
fn scip_java_build_tool_names_match_detection() {
    assert_eq!(BuildSystem::Gradle.scip_java_name(), "gradle");
    assert_eq!(BuildSystem::Maven.scip_java_name(), "maven");
    assert_eq!(
        gradle_index_tasks(),
        ["clean", "scipPrintDependencies", "scipCompileAll"]
    );
}

#[test]
fn android_sdk_diagnostic_fires_only_on_agp_sdk_failures() {
    let missing = "gradle exited with exit code: 1:\nFAILURE: Build failed with an exception.\n\
                   * What went wrong:\nSDK location not found. Define a valid SDK location with an \
                   ANDROID_HOME environment variable or by setting the sdk.dir path in your \
                   project's local properties file at 'C:\\repo\\local.properties'.";
    let d = android_sdk_diagnostic(missing).expect("SDK failure must produce a diagnostic");
    assert_eq!(d.code, "java.android-sdk-missing");
    assert!(d.message.contains("ANDROID_HOME"), "{}", d.message);
    assert!(
        d.message.contains("SDK location not found"),
        "{}",
        d.message
    );

    let platform = "Failed to find Platform SDK with path: platforms;android-36";
    assert!(android_sdk_diagnostic(platform).is_some());

    let unrelated = "gradle exited with exit code: 1:\nerror: cannot find symbol Foo";
    assert!(android_sdk_diagnostic(unrelated).is_none());
    assert!(android_sdk_diagnostic("").is_none());
}

#[test]
fn a_failed_build_answers_with_the_warning_alone() {
    let r = failure_response("x: Failed to find Build Tools revision 35");
    assert!(r.nodes.is_empty() && r.edges.is_empty() && r.refs.is_empty());
    assert_eq!(r.diagnostics.len(), 1);
    assert!(r.diagnostics[0].message.contains("Build Tools revision"));
    assert!(failure_response("other").diagnostics.is_empty());
}

fn run(plan: Plan) -> (String, Vec<String>, String) {
    match plan {
        Plan::Run(i) => (i.program, i.args, i.current_dir),
        other => panic!("nothing to run: {other:?}"),
    }
}

#[test]
fn scip_java_is_told_which_build_to_run() {
    let (program, args, dir) = run(plan_scip_java(
        Some("scip-java"),
        "/repo",
        "/s/index.scip",
        Some(BuildSystem::Maven),
        "/s/shim.gradle",
    ));
    assert_eq!(program, "scip-java");
    assert_eq!(dir, "/repo");
    assert_eq!(
        args,
        [
            "index", "--output", "/s/index.scip", "--build-tool", "maven", "--", "--batch-mode",
            "-Dmaven.clean.failOnError=false", "clean", "test-compile",
        ]
    );
    let (_, args, _) = run(plan_scip_java(
        Some("scip-java"),
        "/repo",
        "/s/index.scip",
        Some(BuildSystem::Gradle),
        "/s/shim.gradle",
    ));
    assert_eq!(
        args[3..],
        [
            "--build-tool", "gradle", "--", "--init-script", "/s/shim.gradle", "clean",
            "scipPrintDependencies", "scipCompileAll",
        ]
    );
    let (_, args, _) = run(plan_scip_java(Some("scip-java"), "/repo", "/s/i", None, ""));
    assert_eq!(args, ["index", "--output", "/s/i"]);
    assert!(matches!(
        plan_scip_java(None, "/repo", "/s/i", None, ""),
        Plan::Fail(e) if e.starts_with("scip-java not found. Download from ")
    ));
}

#[test]
fn windows_builds_need_gradle_and_a_jdk() {
    let gradle = Some(BuildSystem::Gradle);
    let (s, j, r) = (Some(r"C:\b\scip-java.cmd"), Some("java"), Some("jar"));
    let t = windows_tools(s, j, r, gradle, r"C:\repo").expect("all there");
    assert_eq!(t.launcher, r"C:\b\scip-java");
    assert_eq!(
        windows_tools(None, j, r, gradle, "").unwrap_err(),
        "scip-java not found. Run `travsr lang install java`"
    );
    assert_eq!(
        windows_tools(s, None, None, gradle, "").unwrap_err(),
        "no `java` found (set JAVA_HOME or put java on PATH)"
    );
    assert_eq!(
        windows_tools(s, j, None, gradle, "").unwrap_err(),
        "no `jar` found (need a JDK, not just a JRE, on JAVA_HOME/PATH)"
    );
    assert!(windows_tools(s, j, r, Some(BuildSystem::Maven), "")
        .unwrap_err()
        .starts_with("Maven-based Java projects are not yet supported"));
    assert_eq!(
        windows_tools(s, j, r, None, r"C:\repo").unwrap_err(),
        r"no Gradle or Maven build file found under C:\repo, cannot build for semantic analysis"
    );
}

#[test]
fn the_plugin_is_taken_out_of_the_launcher() {
    let listing = "META-INF/\n  coursier/bootstrap/launcher/jars/scip-java_2.13-0.12.3.jar \nx.jar\n";
    let nested = payload_jar(listing).expect("listed");
    assert_eq!(nested, "coursier/bootstrap/launcher/jars/scip-java_2.13-0.12.3.jar");
    assert_eq!(payload_jar("x.jar\n").unwrap_err(), NO_PAYLOAD);
    let i = plan_extract_payload("jar", "/l", &nested, "/d");
    assert_eq!(i.args, ["xf", "/l", nested.as_str()]);
    assert_eq!(i.current_dir, "/d");
    let i = plan_extract_plugins("jar", "n.jar", "/d", false);
    assert_eq!(i.args[..2], ["xf", "/d/n.jar"]);
    assert_eq!(i.args[2..], plugin_jar_names());
    assert_eq!(plugin_jars("/d", false).semanticdb_agent, "/d/semanticdb-agent.jar");
    assert!(check_plugin_jars("/d", true, true, true).is_ok());
    assert_eq!(
        check_plugin_jars("/d", true, false, true).unwrap_err(),
        "scip-java plugin jars missing after extraction under /d"
    );
}

#[test]
fn gradle_runs_by_the_wrapper_first() {
    let (program, args, dir) = run(plan_gradle("/r", Some("/r/gradlew.bat"), Some("gradle"), "/i"));
    assert_eq!(program, "/r/gradlew.bat");
    assert_eq!(dir, "/r");
    assert_eq!(
        args,
        [
            "--no-daemon", "--console=plain", "--init-script", "/i", "clean",
            "scipPrintDependencies", "scipCompileAll",
        ]
    );
    let (program, _, _) = run(plan_gradle("/r", None, Some("gradle"), "/i"));
    assert_eq!(program, "gradle");
    assert!(matches!(plan_gradle("/r", None, None, "/i"), Plan::Fail(e) if e == NO_GRADLE));
    let i = plan_index_semanticdb("java", "/l", "/o", "/t", "/r");
    assert_eq!(i.args, ["-jar", "/l", "index-semanticdb", "--output", "/o", "/t"]);
    assert_eq!(jdk_tool("/jdk", "jar", false), "/jdk/bin/jar");
    assert_eq!(jdk_tool(r"C:\jdk", "jar", true), r"C:\jdk\bin\jar.exe");
}
