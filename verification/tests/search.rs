use travsr_lang::search::{
    under_target_dir, DirEntry, DirQueue, ProjectSearch, SbtSearch, SemanticdbSearch, SBT_DEPTH,
};

fn entry(dir: &str, name: &str, is_dir: bool) -> DirEntry {
    DirEntry {
        path: format!("{dir}/{name}"),
        name: name.to_string(),
        is_file: !is_dir,
        is_dir,
    }
}

/// The entries of `dir` in a tree that is told by the paths of its files, in
/// the order in which they are first seen.
fn listing(files: &[&str], dir: &str) -> Vec<DirEntry> {
    let mut out: Vec<DirEntry> = Vec::new();
    for f in files {
        if let Some(rest) = f.strip_prefix(dir).and_then(|r| r.strip_prefix('/')) {
            let (name, is_dir) = match rest.split_once('/') {
                Some((name, _)) => (name, true),
                None => (rest, false),
            };
            if !out.iter().any(|e| e.name == name) {
                out.push(entry(dir, name, is_dir));
            }
        }
    }
    out
}

fn semanticdb(files: &[&str], root: &str) -> Vec<String> {
    let mut s = SemanticdbSearch::new(root);
    while let Some(dir) = s.next_dir() {
        s.listed(&listing(files, &dir));
    }
    s.found()
}

#[test]
fn find_semanticdb_files_collects_subproject_target_and_skips_tool_caches() {
    let native = "/b/native/target/scala-2.13/meta/META-INF/semanticdb/B.scala.semanticdb";
    let jvm = "/b/jvm/target/scala-2.13/meta/META-INF/semanticdb/A.scala.semanticdb";
    let files = [
        native,
        jvm,
        "/b/.bloop/jvm/bloop-bsp-clients-classes/classes-Metals/META-INF/semanticdb/A.scala.semanticdb",
        "/b/.git/objects/stale/A.scala.semanticdb",
        "/b/.metals/readonly/C.scala.semanticdb",
        "/b/jvm/src/main/scala/D.scala.semanticdb",
    ];
    assert_eq!(semanticdb(&files, "/b"), vec![jvm, native]);
}

#[test]
fn a_finished_search_has_found_all_output_and_nothing_else() {
    let files = [
        "/b/target/A.semanticdb",
        "/b/x/y/z/target/deep/er/B.semanticdb",
        "/b/x/target/C.txt",
        "/b/node_modules/target/D.semanticdb",
    ];
    assert_eq!(semanticdb(&files, "/b"), vec![files[0], files[1]]);
}

#[test]
fn a_build_below_a_directory_called_target_is_not_output() {
    assert!(!under_target_dir("/target/b", "/target/b/src/A.semanticdb"));
    assert!(under_target_dir("/b", "/b/x/Target/A.semanticdb"));
    assert!(under_target_dir("/b", "/c/target/A.semanticdb"));
    assert_eq!(
        semanticdb(&["/target/b/src/A.semanticdb", "/target/b/target/B.semanticdb"], "/target/b"),
        ["/target/b/target/B.semanticdb"]
    );
}

fn sbt_root(files: &[&str], root: &str) -> Option<String> {
    let mut s = SbtSearch::new(root, SBT_DEPTH);
    while let Some(dir) = s.next_dir() {
        let entries = listing(files, &dir);
        let has_build = entries.iter().any(|e| e.name == "build.sbt" && e.is_file);
        s.visited(has_build, &entries);
    }
    s.found()
}

#[test]
fn the_shallowest_build_is_the_root() {
    assert_eq!(sbt_root(&["/r/a/x/build.sbt", "/r/b/build.sbt"], "/r").as_deref(), Some("/r/b"));
    assert_eq!(
        sbt_root(&["/r/z/build.sbt", "/r/a/build.sbt"], "/r").as_deref(),
        Some("/r/a"),
        "siblings are taken in the order of their paths"
    );
    assert_eq!(sbt_root(&["/r/build.sbt", "/r/a/build.sbt"], "/r").as_deref(), Some("/r"));
    assert_eq!(sbt_root(&["/r/target/build.sbt", "/r/.git/build.sbt"], "/r"), None);
    assert_eq!(sbt_root(&["/r/1/2/3/4/build.sbt"], "/r").as_deref(), Some("/r/1/2/3/4"));
    assert_eq!(sbt_root(&["/r/1/2/3/4/5/build.sbt"], "/r"), None);
}

fn project(files: &[&str], root: &str) -> Option<String> {
    let mut s = ProjectSearch::new(root);
    while let Some(dir) = s.next_dir() {
        s.listed(&listing(files, &dir));
    }
    s.found()
}

#[test]
fn a_solution_is_preferred_to_a_project() {
    assert_eq!(
        project(&["/r/a/A.csproj", "/r/a/b/B.sln"], "/r").as_deref(),
        Some("/r/a/b/B.sln")
    );
    assert_eq!(
        project(&["/r/a/A.csproj", "/r/a/b/B.csproj"], "/r").as_deref(),
        Some("/r/a/A.csproj")
    );
    assert_eq!(project(&["/r/x.txt"], "/r"), None);
    assert_eq!(project(&["/r/1/2/3/4/5/6/x.sln"], "/r"), None);
    assert_eq!(
        project(&["/r/1/2/3/4/5/x.sln"], "/r").as_deref(),
        Some("/r/1/2/3/4/5/x.sln")
    );
}

#[test]
fn a_queue_hands_out_what_it_was_given_in_order() {
    let mut q = DirQueue::new("/r", 1);
    assert_eq!(q.front().as_deref(), Some("/r"));
    q.advance(&vec!["/r/b".to_string(), "/r/a".to_string()]);
    assert_eq!(q.front().as_deref(), Some("/r/b"));
    q.advance(&vec!["/r/b/c".to_string()]);
    assert_eq!(q.front().as_deref(), Some("/r/a"));
    q.advance(&vec![]);
    assert_eq!(q.front(), None);
    q.advance(&vec!["/x".to_string()]);
    assert_eq!(q.front(), None);
}
