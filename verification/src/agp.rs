//! The part of Gradle's initialization script that reaches Android projects.
use vstd::prelude::*;

verus! {

/// A part of an initialization script for Gradle: it extends the plugin that
/// collects semantic data from projects of the `java` plugin to those of the
/// Android plugin. It reads what it needs from the properties that the plugin's
/// own script sets on every project.
pub const AGP_INIT_SCRIPT_SHIM: &'static str = r#"
// ---- travsr: Android Gradle Plugin support (see travsr-lang-java) ----
import org.gradle.api.JavaVersion
import org.gradle.api.tasks.compile.JavaCompile
// RepositoriesMode is never imported: the class only exists from Gradle 6.8,
// and an unresolvable import fails the whole init-script on an older Gradle
// before any try/catch can run, for every Gradle repo this shim is added to.
// The mode is compared by name and set reflectively, inside the catch.
settingsEvaluated { s ->
  try {
    def mode = s.dependencyResolutionManagement.repositoriesMode
    if (String.valueOf(mode.getOrNull()) == "FAIL_ON_PROJECT_REPOS") {
      def modes = Class.forName("org.gradle.api.initialization.resolve.RepositoriesMode")
      mode.set(Enum.valueOf(modes, "PREFER_SETTINGS"))
    }
  } catch (Throwable ignored) {
  }
}
allprojects { p ->
  p.afterEvaluate {
    if (p.plugins.hasPlugin("java")) { return }
    try {
      def management = p.gradle.settings.dependencyResolutionManagement
      def mode = management.repositoriesMode.getOrNull()
      if (mode == null || String.valueOf(mode) == "PREFER_PROJECT") {
        management.repositories.each { r -> if (p.repositories.findByName(r.name) == null) { p.repositories.add(r) } }
      }
    } catch (Throwable ignored) {
    }
    def targetKey = p.ext.has("semanticdbTarget") ? "semanticdbTarget" : (p.ext.has("scipTarget") ? "scipTarget" : null)
    if (targetKey == null || !p.ext.has("javacPluginJar")) { return }
    def pluginId = targetKey == "semanticdbTarget" ? "semanticdb" : "scip"
    def targetroot = p.ext[targetKey].toString()
    def pluginJar = p.ext["javacPluginJar"].toString()
    def agentJar = p.ext.has("javacAgentPath") ? p.ext["javacAgentPath"].toString() : null
    def sourceroot = p.rootDir.toString()
    try {
      ["compileOnly", "testCompileOnly"].each { conf ->
        if (p.configurations.findByName(conf) != null) { p.dependencies.add(conf, p.files(pluginJar)) }
      }
      ["annotationProcessor", "testAnnotationProcessor"].each { conf ->
        def c = p.configurations.findByName(conf)
        if (c != null && !c.dependencies.isEmpty()) { p.dependencies.add(conf, p.files(pluginJar)) }
      }
    } catch (Throwable e) {
      p.logger.warn("travsr: could not attach the SemanticDB javac plugin to project '" + p.path + "' (" + e.getClass().getSimpleName() + ": " + e.getMessage() + "); its Java sources will not be indexed unless the javac agent is in use")
    }
    def moduleOptions = ["--add-exports", "jdk.compiler/com.sun.tools.javac.api=ALL-UNNAMED",
                         "--add-exports", "jdk.compiler/com.sun.tools.javac.code=ALL-UNNAMED",
                         "--add-exports", "jdk.compiler/com.sun.tools.javac.model=ALL-UNNAMED",
                         "--add-exports", "jdk.compiler/com.sun.tools.javac.tree=ALL-UNNAMED",
                         "--add-exports", "jdk.compiler/com.sun.tools.javac.util=ALL-UNNAMED"]
    def selected = p.tasks.withType(JavaCompile).matching { t -> !(t.name ==~ /.*(AndroidTest|Release).*/) }
    selected.configureEach { t ->
      t.options.fork = true
      t.options.incremental = false
      // -Xplugin is decided at execution time, when the task's inputs are
      // resolved: javac loads plugins from -processorpath when Gradle passes
      // one (a non-empty annotation processor path) and from the classpath
      // otherwise, and the jar only reached those through the configurations
      // above. A task fed from other configurations (a KMP jvm target, or a
      // project whose adds failed) gets no -Xplugin instead of a javac that
      // dies with "plug-in not found" and takes the whole build with it.
      t.doFirst {
        def jarPath = new File(pluginJar).canonicalPath
        def carries = { fc -> fc != null && fc.files.any { it.canonicalPath == jarPath } }
        def apPath = t.options.annotationProcessorPath
        def reachable = (apPath != null && !apPath.isEmpty()) ? carries(apPath) : carries(t.classpath)
        def args = t.options.compilerArgs
        if (reachable && !args.any { it.toString().startsWith("-Xplugin:" + pluginId) }) {
          args.add("-Xplugin:" + pluginId + " -targetroot:" + targetroot + " -sourceroot:" + sourceroot + " -randomtimestamp=" + System.nanoTime())
        }
      }
      def jvmArgs = new ArrayList<String>(t.options.forkOptions.jvmArgs ?: [])
      def javacVersion = null
      try {
        def compiler = t.javaCompiler.getOrNull()
        if (compiler != null) { javacVersion = compiler.metadata.languageVersion.asInt() }
      } catch (Throwable ignored) {
      }
      if (javacVersion == null) { javacVersion = JavaVersion.current().majorVersion.toInteger() }
      if (javacVersion >= 17) { jvmArgs.addAll(moduleOptions) }
      if (agentJar != null) {
        jvmArgs.addAll(["-javaagent:" + agentJar, "-Dsemanticdb.pluginpath=" + pluginJar, "-Dsemanticdb.sourceroot=" + sourceroot, "-Dsemanticdb.targetroot=" + targetroot])
      }
      t.options.forkOptions.jvmArgs = jvmArgs
    }
    if (p.tasks.findByName("scipCompileAll") != null) { p.tasks.named("scipCompileAll") { it.dependsOn(selected) } }
    if (p.tasks.findByName("scipPrintDependencies") != null) { p.tasks.named("scipPrintDependencies") { it.enabled = false } }
  }
}
"#;

/// No backslash.
pub open spec fn no_backslash(s: Seq<char>) -> bool {
    forall|i: int| 0 <= i < s.len() ==> #[trigger] s[i] != '\\'
}

/// The part for Android holds no backslash: spelled out, that can be seen.
#[verifier::rlimit(100)]
pub proof fn lemma_shim_holds_no_backslash()
    ensures
        no_backslash(AGP_INIT_SCRIPT_SHIM@),
{
    reveal_strlit(
        r#"
// ---- travsr: Android Gradle Plugin support (see travsr-lang-java) ----
import org.gradle.api.JavaVersion
import org.gradle.api.tasks.compile.JavaCompile
// RepositoriesMode is never imported: the class only exists from Gradle 6.8,
// and an unresolvable import fails the whole init-script on an older Gradle
// before any try/catch can run, for every Gradle repo this shim is added to.
// The mode is compared by name and set reflectively, inside the catch.
settingsEvaluated { s ->
  try {
    def mode = s.dependencyResolutionManagement.repositoriesMode
    if (String.valueOf(mode.getOrNull()) == "FAIL_ON_PROJECT_REPOS") {
      def modes = Class.forName("org.gradle.api.initialization.resolve.RepositoriesMode")
      mode.set(Enum.valueOf(modes, "PREFER_SETTINGS"))
    }
  } catch (Throwable ignored) {
  }
}
allprojects { p ->
  p.afterEvaluate {
    if (p.plugins.hasPlugin("java")) { return }
    try {
      def management = p.gradle.settings.dependencyResolutionManagement
      def mode = management.repositoriesMode.getOrNull()
      if (mode == null || String.valueOf(mode) == "PREFER_PROJECT") {
        management.repositories.each { r -> if (p.repositories.findByName(r.name) == null) { p.repositories.add(r) } }
      }
    } catch (Throwable ignored) {
    }
    def targetKey = p.ext.has("semanticdbTarget") ? "semanticdbTarget" : (p.ext.has("scipTarget") ? "scipTarget" : null)
    if (targetKey == null || !p.ext.has("javacPluginJar")) { return }
    def pluginId = targetKey == "semanticdbTarget" ? "semanticdb" : "scip"
    def targetroot = p.ext[targetKey].toString()
    def pluginJar = p.ext["javacPluginJar"].toString()
    def agentJar = p.ext.has("javacAgentPath") ? p.ext["javacAgentPath"].toString() : null
    def sourceroot = p.rootDir.toString()
    try {
      ["compileOnly", "testCompileOnly"].each { conf ->
        if (p.configurations.findByName(conf) != null) { p.dependencies.add(conf, p.files(pluginJar)) }
      }
      ["annotationProcessor", "testAnnotationProcessor"].each { conf ->
        def c = p.configurations.findByName(conf)
        if (c != null && !c.dependencies.isEmpty()) { p.dependencies.add(conf, p.files(pluginJar)) }
      }
    } catch (Throwable e) {
      p.logger.warn("travsr: could not attach the SemanticDB javac plugin to project '" + p.path + "' (" + e.getClass().getSimpleName() + ": " + e.getMessage() + "); its Java sources will not be indexed unless the javac agent is in use")
    }
    def moduleOptions = ["--add-exports", "jdk.compiler/com.sun.tools.javac.api=ALL-UNNAMED",
                         "--add-exports", "jdk.compiler/com.sun.tools.javac.code=ALL-UNNAMED",
                         "--add-exports", "jdk.compiler/com.sun.tools.javac.model=ALL-UNNAMED",
                         "--add-exports", "jdk.compiler/com.sun.tools.javac.tree=ALL-UNNAMED",
                         "--add-exports", "jdk.compiler/com.sun.tools.javac.util=ALL-UNNAMED"]
    def selected = p.tasks.withType(JavaCompile).matching { t -> !(t.name ==~ /.*(AndroidTest|Release).*/) }
    selected.configureEach { t ->
      t.options.fork = true
      t.options.incremental = false
      // -Xplugin is decided at execution time, when the task's inputs are
      // resolved: javac loads plugins from -processorpath when Gradle passes
      // one (a non-empty annotation processor path) and from the classpath
      // otherwise, and the jar only reached those through the configurations
      // above. A task fed from other configurations (a KMP jvm target, or a
      // project whose adds failed) gets no -Xplugin instead of a javac that
      // dies with "plug-in not found" and takes the whole build with it.
      t.doFirst {
        def jarPath = new File(pluginJar).canonicalPath
        def carries = { fc -> fc != null && fc.files.any { it.canonicalPath == jarPath } }
        def apPath = t.options.annotationProcessorPath
        def reachable = (apPath != null && !apPath.isEmpty()) ? carries(apPath) : carries(t.classpath)
        def args = t.options.compilerArgs
        if (reachable && !args.any { it.toString().startsWith("-Xplugin:" + pluginId) }) {
          args.add("-Xplugin:" + pluginId + " -targetroot:" + targetroot + " -sourceroot:" + sourceroot + " -randomtimestamp=" + System.nanoTime())
        }
      }
      def jvmArgs = new ArrayList<String>(t.options.forkOptions.jvmArgs ?: [])
      def javacVersion = null
      try {
        def compiler = t.javaCompiler.getOrNull()
        if (compiler != null) { javacVersion = compiler.metadata.languageVersion.asInt() }
      } catch (Throwable ignored) {
      }
      if (javacVersion == null) { javacVersion = JavaVersion.current().majorVersion.toInteger() }
      if (javacVersion >= 17) { jvmArgs.addAll(moduleOptions) }
      if (agentJar != null) {
        jvmArgs.addAll(["-javaagent:" + agentJar, "-Dsemanticdb.pluginpath=" + pluginJar, "-Dsemanticdb.sourceroot=" + sourceroot, "-Dsemanticdb.targetroot=" + targetroot])
      }
      t.options.forkOptions.jvmArgs = jvmArgs
    }
    if (p.tasks.findByName("scipCompileAll") != null) { p.tasks.named("scipCompileAll") { it.dependsOn(selected) } }
    if (p.tasks.findByName("scipPrintDependencies") != null) { p.tasks.named("scipPrintDependencies") { it.enabled = false } }
  }
}
"#,
    );
}

} // verus!
