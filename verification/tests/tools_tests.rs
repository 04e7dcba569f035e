use swe_grep::tools::{
    absorb_ast_matches, parse_ast_output, parse_rg_line, patterns_for_language, AstGrepMatch,
    AstPatternError, FdTool, RgMessage, RgaTool, RipgrepTool,
};

#[test]
fn fd_argument_list_is_exact() {
    let fd = FdTool::new(3000, 200);
    assert_eq!(
        fd.args("needle"),
        vec![
            "--type".to_string(),
            "f".to_string(),
            "--hidden".to_string(),
            "--color".to_string(),
            "never".to_string(),
            "--max-results".to_string(),
            "200".to_string(),
            "needle".to_string(),
            ".".to_string(),
        ]
    );
}

#[test]
fn rg_arguments_carry_queries_and_scope() {
    let rg = RipgrepTool::new(3000, 20, 0, 0, 200, 8);
    let queries = vec!["foo".to_string(), "bar".to_string()];
    let args = rg.search_args("/repo", &queries, &Vec::new());
    assert!(args.contains(&"--json".to_string()));
    assert!(args.contains(&"--smart-case".to_string()));
    let e_positions: Vec<usize> = args
        .iter()
        .enumerate()
        .filter(|(_, a)| a.as_str() == "-e")
        .map(|(i, _)| i)
        .collect();
    assert_eq!(e_positions.len(), 2);
    assert_eq!(args[e_positions[0] + 1], "foo");
    assert_eq!(args[e_positions[1] + 1], "bar");
    assert_eq!(args.last().unwrap(), ".");
}

#[test]
fn rg_scope_paths_are_rewritten_relative_to_root() {
    let rg = RipgrepTool::new(3000, 20, 1, 2, 200, 0);
    let scope = vec!["/repo/src/lib.rs".to_string(), "docs/x.md".to_string()];
    let args = rg.search_args("/repo", &vec!["q".to_string()], &scope);
    assert!(args.contains(&"--before-context".to_string()));
    assert!(args.contains(&"--after-context".to_string()));
    assert!(args.contains(&"src/lib.rs".to_string()));
    assert!(args.contains(&"docs/x.md".to_string()));
    // a thread count of zero is clamped to one
    assert!(args.contains(&"1".to_string()));
}

#[test]
fn rga_arguments_are_exact() {
    let rga = RgaTool::new(3000, 20);
    assert_eq!(
        rga.args("term"),
        vec![
            "--json".to_string(),
            "--line-number".to_string(),
            "--column".to_string(),
            "--max-columns".to_string(),
            "200".to_string(),
            "term".to_string(),
            ".".to_string(),
        ]
    );
}

#[test]
fn parses_a_ripgrep_match_line() {
    let line = "{\"type\":\"match\",\"data\":{\"path\":{\"text\":\"src/lib.rs\"},\"lines\":{\"text\":\"pub fn login_user()\"},\"line_number\":7,\"absolute_offset\":0,\"submatches\":[]}}";
    match parse_rg_line(line) {
        RgMessage::Match { data } => {
            assert_eq!(data.path.text, "src/lib.rs");
            assert_eq!(data.lines.text, "pub fn login_user()");
            assert_eq!(data.line_number, 7);
        }
        RgMessage::Other => panic!("expected a match record"),
    }
}

#[test]
fn non_match_records_and_garbage_are_other() {
    assert!(matches!(
        parse_rg_line("{\"type\":\"begin\",\"data\":{}}"),
        RgMessage::Other
    ));
    assert!(matches!(parse_rg_line("not json at all"), RgMessage::Other));
    assert!(matches!(parse_rg_line("{\"type\":\"match\"}"), RgMessage::Other));
}

#[test]
fn parses_ast_output_array() {
    let text = "[{\"path\":\"src/lib.rs\",\"range\":{\"start\":{\"line\":4,\"column\":0},\"end\":{\"line\":4,\"column\":9}}},{\"path\":\"src/other.rs\",\"range\":{\"start\":{\"line\":9,\"column\":1},\"end\":{\"line\":9,\"column\":2}}}]";
    let matches = parse_ast_output(text, 10);
    assert_eq!(matches.len(), 2);
    assert_eq!(matches[0].path, "src/lib.rs");
    assert_eq!(matches[0].line, 4);
    assert_eq!(matches[1].line, 9);
    assert_eq!(parse_ast_output(text, 1).len(), 1);
    assert!(parse_ast_output("nonsense", 10).is_empty());
}

#[test]
fn absorb_skips_duplicates_and_respects_the_cap() {
    let mut agg: Vec<AstGrepMatch> = Vec::new();
    let batch = vec![
        AstGrepMatch { path: "a.rs".to_string(), line: 1 },
        AstGrepMatch { path: "a.rs".to_string(), line: 1 },
        AstGrepMatch { path: "b.rs".to_string(), line: 2 },
        AstGrepMatch { path: "c.rs".to_string(), line: 3 },
    ];
    absorb_ast_matches(&mut agg, batch, 2);
    assert_eq!(agg.len(), 2);
    assert_eq!(agg[0].path, "a.rs");
    assert_eq!(agg[1].path, "b.rs");
}

#[test]
fn pattern_tables_per_language() {
    let rust = patterns_for_language("login_user", "rust");
    assert_eq!(rust.len(), 8);
    assert_eq!(
        rust[0],
        "(function_item name: (identifier) @id (#eq? @id \"login_user\"))"
    );
    let swift = patterns_for_language("save", "Swift");
    assert_eq!(swift.len(), 14);
    let ts = patterns_for_language("useThing", "tsx");
    assert_eq!(ts.len(), 16);
    let other = patterns_for_language("x", "go");
    assert_eq!(other, vec!["(identifier) @id (#eq? @id \"x\")".to_string()]);
    let empty = patterns_for_language("   ", "rust");
    assert_eq!(empty, vec!["(identifier) @id".to_string()]);
}

#[test]
fn pattern_error_accessors() {
    let e = AstPatternError::new("(bad".to_string(), "rejected".to_string());
    assert_eq!(e.pattern(), "(bad");
    assert_eq!(e.message(), "rejected");
    assert_eq!(e.describe(), "ast-grep pattern error for '(bad': rejected");
}
