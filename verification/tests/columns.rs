use travsr_lang::columns::{col_in_unit, encoding_agnostic_col, ColUnit, SourceCache};

#[test]
fn a_declared_unit_is_converted_rather_than_guessed() {
    let mixed = "    var s = \"Caf\u{e9}\"; return g.hello();";
    assert_eq!(col_in_unit(mixed, 29, ColUnit::Utf16), Some(30));
    assert_eq!(&mixed.as_bytes()[30..35], b"hello");
    assert_eq!(col_in_unit(mixed, 29, ColUnit::Unknown), None);
    assert_eq!(col_in_unit(mixed, 30, ColUnit::Utf8), Some(30));

    let ascii = "    return g.hello();";
    for unit in [ColUnit::Utf8, ColUnit::Utf16, ColUnit::Unknown] {
        assert_eq!(col_in_unit(ascii, 13, unit), Some(13), "{unit:?}");
    }

    let emoji = "let x = \"\u{1F600}\"; y();";
    assert_eq!(col_in_unit(emoji, 10, ColUnit::Utf16), None); // low surrogate
    assert_eq!(col_in_unit(emoji, 10, ColUnit::Utf8), None); // mid character

    assert_eq!(col_in_unit(ascii, 999, ColUnit::Utf8), None);
    assert_eq!(col_in_unit(ascii, -1, ColUnit::Utf16), None);
}

#[test]
fn an_undeclared_unit_stays_conservative() {
    assert_eq!(ColUnit::parse(Some("utf8")), ColUnit::Utf8);
    assert_eq!(ColUnit::parse(Some("utf16")), ColUnit::Utf16);
    assert_eq!(ColUnit::parse(None), ColUnit::Unknown);
    assert_eq!(ColUnit::parse(Some("utf32")), ColUnit::Unknown);
    assert_eq!(ColUnit::parse(Some("")), ColUnit::Unknown);
}

#[test]
fn a_column_is_kept_only_where_the_encoding_cannot_change_it() {
    assert_eq!(encoding_agnostic_col("    @p.hello", 4), Some(4));
    assert_eq!(encoding_agnostic_col("let x = foo();", 8), Some(8));
    assert_eq!(
        encoding_agnostic_col("    x = \"Caf\u{e9}\"; @p.hello", 20),
        None
    );
    assert_eq!(encoding_agnostic_col("    @c.gr\u{e9}et", 4), Some(4));
    assert_eq!(encoding_agnostic_col("abc", -1), None);
    assert_eq!(encoding_agnostic_col("abc", 9), None);
    assert_eq!(encoding_agnostic_col("abc", 3), Some(3));
}

#[test]
fn a_loaded_file_answers_by_line() {
    let mut cache = SourceCache::new();
    assert!(!cache.knows("a.rs"));
    cache.load("a.rs", Some("let a = 1;\nlet é = g();\n"));
    assert!(cache.knows("a.rs"));
    assert_eq!(cache.col("a.rs", 1, 4), Some(4));
    assert_eq!(cache.col("a.rs", 2, 8), None);
    assert_eq!(cache.col_in("a.rs", 2, 8, ColUnit::Utf16), Some(9));
    assert_eq!(cache.col("a.rs", 3, 0), None);
    assert_eq!(cache.col("b.rs", 1, 0), None);
}

#[test]
fn a_known_file_is_not_read_again() {
    let mut cache = SourceCache::new();
    cache.load("a.rs", None);
    assert!(cache.knows("a.rs"));
    assert_eq!(cache.col("a.rs", 1, 0), None);
    cache.load("a.rs", Some("abc"));
    assert_eq!(cache.col("a.rs", 1, 0), None);
}
