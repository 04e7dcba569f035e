use swe_grep::snippet::{
    format_default_snippet, format_snippet, format_swift_snippet, format_typescript_snippet,
};

#[test]
fn default_takes_first_nonempty_line_collapsed() {
    assert_eq!(
        format_default_snippet("\n\n   let  x =   1;\nnext"),
        Some("let x = 1;".to_string())
    );
    assert_eq!(format_default_snippet("   \n  \n"), None);
    assert_eq!(format_default_snippet(""), None);
}

#[test]
fn typescript_prefers_jsx_lines_without_markers() {
    let raw = "// comment\n<Widget prop={1} />\nconst x = 1;";
    assert_eq!(format_typescript_snippet(raw), Some("<Widget prop={1} />".to_string()));
}

#[test]
fn typescript_declaration_gets_markers() {
    let raw = "export const f = async () => { await g(); };";
    let s = format_typescript_snippet(raw).unwrap();
    assert!(s.starts_with("export const f = async () => { await g(); };"));
    assert!(s.contains("[async]"));
    assert!(s.contains("[arrow]"));
    assert!(s.contains("[await]"));
}

#[test]
fn typescript_falls_back_to_first_nonempty() {
    assert_eq!(format_typescript_snippet("\nplain line\n"), Some("plain line".to_string()));
    assert_eq!(format_typescript_snippet("// only a comment"), Some("// only a comment".to_string()));
}

#[test]
fn swift_selects_declaration_and_marks_access() {
    // `public func` is not a declaration-prefixed line, so the first
    // non-empty line is selected; the access marker still applies
    let out = format_swift_snippet(1, "\npublic func load() {\n", &Vec::new()).unwrap();
    assert!(out.starts_with("public func load() {"), "got: {}", out);
    assert!(out.contains("[public]"));
    // a declaration-prefixed line wins over an earlier comment
    let out2 = format_swift_snippet(2, "// header\nfunc load() {\n", &Vec::new()).unwrap();
    assert!(out2.starts_with("func load() {"), "got: {}", out2);
}

#[test]
fn swift_joins_continuation_lines() {
    let raw = "func fetch(\n) async\n-> Int {\n";
    let out = format_swift_snippet(1, raw, &Vec::new()).unwrap();
    assert!(out.starts_with("func fetch( ) async -> Int {"));
    assert!(out.contains("[async]"));
}

#[test]
fn swift_takes_enclosing_context_from_raw_text() {
    let raw = "class Session {\nfunc close() {\n";
    // the first declaration line is the class itself, so the class is the
    // signature; use a non-declaration prefix instead
    let out = format_swift_snippet(2, raw, &Vec::new()).unwrap();
    assert!(out.starts_with("class Session {"));

    let raw2 = "let x = 1\nfunc close() {\n";
    let out2 = format_swift_snippet(2, raw2, &Vec::new()).unwrap();
    assert!(out2.starts_with("func close() {"), "got: {}", out2);
}

#[test]
fn swift_looks_up_context_in_the_file() {
    let file: Vec<String> = vec![
        "extension Store {".to_string(),
        "".to_string(),
        "func save() {".to_string(),
    ];
    let out = format_swift_snippet(3, "func save() {\n", &file).unwrap();
    assert_eq!(out, "extension Store { :: func save() {");
}

#[test]
fn dispatch_follows_the_extension() {
    let lines: Vec<String> = Vec::new();
    assert_eq!(
        format_snippet("src/x.py", 1, "  def  f():\n", &lines),
        Some("def f():".to_string())
    );
    let ts = format_snippet("src/x.ts", 1, "const a = () => 1;", &lines).unwrap();
    assert!(ts.contains("[arrow]"));
}
