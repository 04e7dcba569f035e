use swe_grep::language::{
    detect_language_from_path, expand_language_hint, expand_language_token,
    extensions_for_languages, language_to_extensions, languages_include, passes_extension_filter,
};

fn strs(v: &[&str]) -> Vec<String> {
    v.iter().map(|s| s.to_string()).collect()
}

#[test]
fn expands_aliases() {
    assert_eq!(expand_language_token("typescript"), strs(&["ts", "tsx"]));
    assert_eq!(expand_language_token("kt"), strs(&["kt", "kts"]));
    assert_eq!(expand_language_token("swiftui"), strs(&["swift"]));
    assert_eq!(expand_language_token("zig"), strs(&["zig"]));
}

#[test]
fn hint_expansion_dedups_and_keeps_order() {
    assert_eq!(expand_language_hint(Some("typescript")), strs(&["ts", "tsx"]));
    assert_eq!(expand_language_hint(Some("ts,tsx")), strs(&["ts", "tsx"]));
    assert_eq!(expand_language_hint(Some("auto-swift-ts")), strs(&["swift", "ts", "tsx"]));
    assert_eq!(expand_language_hint(Some("  Rust ")), strs(&["rust"]));
    assert_eq!(expand_language_hint(Some("   ")), Vec::<String>::new());
    assert_eq!(expand_language_hint(None), Vec::<String>::new());
}

#[test]
fn tokens_include() {
    let toks = strs(&["swift", "rust"]);
    assert!(languages_include(&toks, "swift"));
    assert!(!languages_include(&toks, "python"));
}

#[test]
fn extension_filter_from_tokens() {
    assert_eq!(
        extensions_for_languages(&strs(&["rust", "ts"])),
        Some(strs(&["rs", "ts", "tsx"]))
    );
    assert_eq!(extensions_for_languages(&strs(&["fortran"])), None);
    assert_eq!(extensions_for_languages(&Vec::new()), None);
}

#[test]
fn single_hint_extensions() {
    assert_eq!(language_to_extensions("Rust"), Some(strs(&["rs"])));
    assert_eq!(language_to_extensions("typescript"), Some(strs(&["ts", "tsx"])));
    assert_eq!(language_to_extensions("cobol"), None);
}

#[test]
fn detects_language_from_extension() {
    assert_eq!(detect_language_from_path("src/lib.rs"), Some("rust".to_string()));
    assert_eq!(detect_language_from_path("App/Main.SWIFT"), Some("swift".to_string()));
    assert_eq!(detect_language_from_path("a/b.kts"), Some("kotlin".to_string()));
    assert_eq!(detect_language_from_path("README"), None);
    assert_eq!(detect_language_from_path(".gitignore"), None);
}

#[test]
fn filter_is_case_insensitive() {
    let exts = strs(&["rs", "ts"]);
    assert!(passes_extension_filter("src/lib.RS", Some(&exts)));
    assert!(!passes_extension_filter("src/lib.py", Some(&exts)));
    assert!(!passes_extension_filter("Makefile", Some(&exts)));
    assert!(passes_extension_filter("anything.at.all", None));
}
