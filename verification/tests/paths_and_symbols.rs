use travsr_lang::java::to_gradle_path;
use travsr_lang::objc_symbol::{
    class_symbol, escape, function_symbol, method_symbol, pkg, property_symbol, protocol_symbol,
};
use travsr_lang::paths::{
    file_extension, is_same_path, normalize_drive_letter, path_below, path_to_uri, percent_decode,
    percent_encode_path, starts_with_drive_letter, strip_windows_verbatim_prefix as strip,
    uri_to_rel,
};

#[test]
fn main_strips_verbatim_drive_prefix() {
    assert_eq!(strip(r"\\?\D:\com.travsr\repo"), r"D:\com.travsr\repo");
}

#[test]
fn main_strips_verbatim_unc_prefix() {
    assert_eq!(
        strip(r"\\?\UNC\server\share\repo"),
        r"\\server\share\repo"
    );
}

#[test]
fn strips_verbatim_drive_prefix() {
    assert_eq!(strip(r"\\?\D:\com.travsr\repo"), r"D:\com.travsr\repo");
}

#[test]
fn strips_verbatim_unc_prefix() {
    assert_eq!(
        strip(r"\\?\UNC\server\share\repo"),
        r"\\server\share\repo"
    );
}

#[test]
fn no_op_on_plain_paths() {
    assert_eq!(strip(r"D:\repo"), r"D:\repo");
    assert_eq!(strip("/home/user/repo"), "/home/user/repo");
}

#[test]
fn strip_is_noop_on_plain_paths() {
    assert_eq!(strip(r"D:\repo"), r"D:\repo");
    assert_eq!(strip("/home/u/repo"), "/home/u/repo");
}

#[test]
fn strip_verbatim_prefix_handles_drive_unc_and_plain() {
    assert_eq!(strip(r"\\?\D:\repo"), r"D:\repo");
    assert_eq!(
        strip(r"\\?\UNC\server\share\repo"),
        r"\\server\share\repo"
    );
    assert_eq!(strip(r"D:\repo"), r"D:\repo");
    assert_eq!(strip("/home/u/repo"), "/home/u/repo");
}

#[test]
fn gradle_path_uses_forward_slashes_and_strips_verbatim() {
    assert_eq!(
        to_gradle_path(r"\\?\D:\com.travsr\testing\javarepo\build"),
        "D:/com.travsr/testing/javarepo/build"
    );
    assert_eq!(to_gradle_path("/tmp/x/y"), "/tmp/x/y");
}

#[test]
fn path_to_uri_windows_drive_path_is_a_valid_file_uri() {
    let uri = path_to_uri(r"D:\repo\Foo.kt");
    assert_eq!(uri, "file:///D:/repo/Foo.kt");
}

#[test]
fn uri_to_rel_windows_round_trips_through_path_to_uri() {
    let root = r"D:\repo";
    let uri = path_to_uri(r"D:\repo\src\Foo.kt");
    assert_eq!(uri, "file:///D:/repo/src/Foo.kt");
    assert_eq!(uri_to_rel(root, &uri).as_deref(), Some("src/Foo.kt"));
}

#[test]
fn path_to_uri_strips_windows_verbatim_prefix() {
    let uri = path_to_uri(r"\\?\D:\repo\Foo.kt");
    assert_eq!(uri, "file:///D:/repo/Foo.kt");
}

#[test]
fn uri_to_rel_strips_verbatim_prefix_from_root() {
    let root = r"\\?\D:\repo";
    let uri = "file:///D:/repo/src/Foo.kt";
    assert_eq!(uri_to_rel(root, uri).as_deref(), Some("src/Foo.kt"));
}

#[test]
fn path_to_uri_unix_absolute_path_unchanged() {
    let uri = path_to_uri("/home/user/repo/Foo.kt");
    assert_eq!(uri, "file:///home/user/repo/Foo.kt");
}

#[test]
fn uri_to_rel_unix_round_trips_through_path_to_uri() {
    let root = "/home/user/repo";
    let uri = path_to_uri("/home/user/repo/src/Foo.kt");
    assert_eq!(uri_to_rel(root, &uri).as_deref(), Some("src/Foo.kt"));
}

#[test]
fn path_to_uri_percent_encodes_spaces_and_round_trips() {
    let root = r"D:\Users\First Last\repo";
    let uri = path_to_uri(r"D:\Users\First Last\repo\src\Foo.kt");
    assert_eq!(uri, "file:///D:/Users/First%20Last/repo/src/Foo.kt");
    assert_eq!(uri_to_rel(root, &uri).as_deref(), Some("src/Foo.kt"));
}

#[test]
fn uri_to_rel_case_folds_drive_letter() {
    let root = r"D:\repo";
    let uri = "file:///d:/repo/src/Foo.kt";
    assert_eq!(uri_to_rel(root, uri).as_deref(), Some("src/Foo.kt"));
}

#[test]
fn percent_decode_is_utf8_correct() {
    assert_eq!(percent_decode("a%20b"), "a b");
    assert_eq!(percent_decode("caf%C3%A9"), "café");
    assert_eq!(percent_decode("100%zz"), "100%zz");
}

#[test]
fn decoding_undoes_encoding() {
    for s in ["", "a b", "café/ü", "100%", "%20", "日本/語.kt", "a+b&c=d"] {
        assert_eq!(percent_decode(&percent_encode_path(s)), s);
    }
    assert_eq!(percent_encode_path("a b%é"), "a%20b%25%C3%A9");
}

#[test]
fn bytes_that_are_no_text_are_replaced() {
    assert_eq!(percent_decode("a%FFb"), "a\u{fffd}b");
}

#[test]
fn an_address_leads_back_to_its_path() {
    for rel in ["a.kt", "src/main/Ä b.kt", "x/%20/y.kt"] {
        let root = "/home/u/my repo";
        let uri = path_to_uri(&format!("{root}/{rel}"));
        assert_eq!(uri_to_rel(root, &uri).as_deref(), Some(rel));
    }
    assert_eq!(uri_to_rel("/a/b", "file:///a/c/x.kt"), None);
    assert_eq!(uri_to_rel("/a/b", "jar:///a/b/x.kt"), None);
}

#[test]
fn drive_letters_are_found_and_capitalised() {
    assert!(starts_with_drive_letter("c:/x"));
    assert!(!starts_with_drive_letter("/c:/x"));
    assert!(!starts_with_drive_letter("1:/x"));
    assert_eq!(normalize_drive_letter("c:/x"), "C:/x");
    assert_eq!(normalize_drive_letter("/x"), "/x");
}

#[test]
fn paths_are_taken_apart_by_their_parts() {
    assert_eq!(path_below("/a/b/c", "/a/b").as_deref(), Some("c"));
    assert_eq!(path_below("/a/b", "/a/b").as_deref(), Some(""));
    assert_eq!(path_below("/a/bc", "/a/b"), None);
    assert_eq!(path_below("a/b", "/a"), None);
    let all = ["", "/", "//a", "/./a/", "./a", "a/./b", ".", "/.", "//", "a//", "/a/b/../c", "a"];
    for path in all {
        for root in all {
            let rest = std::path::Path::new(path).strip_prefix(root).ok();
            let rest = rest.and_then(|p| p.to_str());
            assert_eq!(path_below(path, root).as_deref(), rest, "{path} below {root}");
        }
    }
    assert!(is_same_path("/repo", "/repo/"));
    assert!(is_same_path("/repo/./x", "/repo/x"));
    assert!(!is_same_path("/repo", "repo"));
    assert_eq!(file_extension("a.b.kt").as_deref(), Some("kt"));
    assert_eq!(file_extension(".kt"), None);
    assert_eq!(file_extension("kt"), None);
    assert_eq!(file_extension("a.").as_deref(), Some(""));
}

#[test]
fn class_ends_with_hash() {
    assert!(class_symbol("corp", "Dog").ends_with("Dog#"));
}

#[test]
fn protocol_ends_with_slash() {
    assert!(protocol_symbol("corp", "Speakable").ends_with("Speakable/"));
}

#[test]
fn method_preserves_selector_colons() {
    let sym = method_symbol("corp", "Foo", "setWidth:height:");
    assert!(sym.contains("Foo#setWidth:height:"), "got: {sym}");
}

#[test]
fn method_has_scip_function_suffix() {
    let sym = method_symbol("corp", "Foo", "setWidth:height:");
    assert!(sym.ends_with("Foo#setWidth:height:()."), "got: {sym}");
}

#[test]
fn empty_corpus_uses_dot() {
    let sym = class_symbol("", "Bar");
    assert!(sym.starts_with("objc . . 0.0.0"), "got: {sym}");
}

#[test]
fn function_ends_with_dot() {
    assert!(function_symbol("corp", "helper").ends_with("helper."));
}

#[test]
fn identifier_with_space_is_escaped() {
    let sym = class_symbol("corp", "My Class");
    assert!(sym.contains("`My Class`"), "got: {sym}");
}

#[test]
fn symbols_are_spelled_out() {
    assert_eq!(class_symbol("corp", "Dog"), "objc . corp 0.0.0 Dog#");
    assert_eq!(
        property_symbol("corp", "Dog", "name"),
        "objc . corp 0.0.0 Dog#name."
    );
    assert_eq!(function_symbol("corp", "f"), "objc . corp 0.0.0 f.");
    assert_eq!(pkg(""), ".");
    assert_eq!(pkg("a/b"), "a/b");
    assert_ne!(escape("a`b"), escape("a b"));
    assert_ne!(escape("a``b"), escape("a`b"));
}
