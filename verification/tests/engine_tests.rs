use swe_grep::engine::{
    extend_candidates, is_literal_symbol, symbol_acceptable, SearchConfig, SearchEngine,
};
use swe_grep::hints::PersistentState;
use swe_grep::paths::{normalize_path, path_matches};
use swe_grep::request::SearchArgs;
use swe_grep::score::{HitOrigin, ProbeKind, SearchHit};
use swe_grep::tools::AstGrepMatch;

fn args(symbol: &str, language: Option<&str>) -> SearchArgs {
    SearchArgs {
        symbol: symbol.to_string(),
        path: Some("/repo".to_string()),
        language: language.map(|l| l.to_string()),
        timeout_secs: 3,
        max_matches: 20,
        concurrency: 8,
        context_before: 0,
        context_after: 0,
        body: false,
        enable_index: false,
        index_dir: None,
        enable_rga: false,
        cache_dir: None,
        log_dir: None,
        use_fd: true,
        use_ast_grep: true,
    }
}

fn engine_for(symbol: &str, language: Option<&str>) -> SearchEngine {
    let config = SearchConfig::try_from_args(args(symbol, language), "/repo".to_string());
    SearchEngine::new(config, PersistentState::new())
}

fn rg_hit(path: &str, line: usize, snippet: &str) -> SearchHit {
    SearchHit {
        path: path.to_string(),
        line,
        snippet: snippet.to_string(),
        score: 100,
        origin: HitOrigin::Ripgrep(ProbeKind::Scoped),
    }
}

#[test]
fn literal_symbols_take_the_fast_path() {
    assert!(is_literal_symbol("foo_bar"));
    assert!(is_literal_symbol("  foo_bar  "));
    assert!(is_literal_symbol("Abc123"));
    assert!(!is_literal_symbol("a.b"));
    assert!(!is_literal_symbol("two words"));
    assert!(!is_literal_symbol("   "));
}

#[test]
fn blank_symbols_are_rejected_before_any_cycle() {
    assert!(!symbol_acceptable("   "));
    assert!(!symbol_acceptable(""));
    assert!(symbol_acceptable(" login_user "));
}

#[test]
fn configuration_resolves_defaults() {
    let c = SearchConfig::try_from_args(args("s", Some(" Rust ")), "/repo".to_string());
    assert_eq!(c.language.as_deref(), Some("Rust"));
    assert_eq!(c.language_tokens, vec!["rust".to_string()]);
    assert_eq!(c.timeout_ms, 3000);
    assert_eq!(c.max_columns, 200);
    assert_eq!(c.index_dir, "/repo/.swe-grep-index");
    assert_eq!(c.cache_dir, "/repo/.swe-grep-cache");
    assert!(!c.use_index);

    let mut a2 = args("s", None);
    a2.max_matches = 0;
    a2.concurrency = 0;
    a2.log_dir = Some("logs".to_string());
    let c2 = SearchConfig::try_from_args(a2, "/repo".to_string());
    assert_eq!(c2.max_matches, 1);
    assert_eq!(c2.concurrency, 1);
    assert_eq!(c2.log_dir.as_deref(), Some("/repo/logs"));
    assert!(c2.language_tokens.is_empty());
}

#[test]
fn normalization_strips_the_root() {
    assert_eq!(normalize_path("/repo", "/repo/src/lib.rs"), "src/lib.rs");
    assert_eq!(normalize_path("/repo", "src/lib.rs"), "src/lib.rs");
    assert_eq!(normalize_path("/repo", "/elsewhere/x.rs"), "/elsewhere/x.rs");
    assert_eq!(normalize_path("/repo", "/repo"), "");
}

#[test]
fn path_suffix_matching_is_component_wise() {
    assert!(path_matches("fixtures/multi_lang/src/lib.rs", "src/lib.rs"));
    assert!(path_matches("src/lib.rs", "src/lib.rs"));
    assert!(!path_matches("src/xlib.rs", "lib.rs"));
    assert!(!path_matches("lib.rs", "src/lib.rs"));
}

#[test]
fn candidate_assembly_normalizes_filters_and_dedups() {
    let mut acc: Vec<String> = Vec::new();
    let exts = vec!["rs".to_string()];
    let fd = vec![
        "/repo/src/a.rs".to_string(),
        "/repo/src/a.rs".to_string(),
        "/repo/readme.md".to_string(),
    ];
    extend_candidates(&mut acc, &fd, "/repo", Some(&exts), true);
    assert_eq!(acc, vec!["src/a.rs".to_string()]);
    let hints = vec!["src/a.rs".to_string(), "src/b.rs".to_string()];
    extend_candidates(&mut acc, &hints, "/repo", Some(&exts), false);
    assert_eq!(acc, vec!["src/a.rs".to_string(), "src/b.rs".to_string()]);
}

#[test]
fn verify_promotes_structural_hits_and_ranks_them_first() {
    let mut engine = engine_for("login_user", Some("rust"));
    let hits = vec![
        rg_hit("src/lib.rs", 1, "pub fn login_user() {"),
        rg_hit("src/other.rs", 9, "login_user();"),
    ];
    let ast = vec![AstGrepMatch { path: "src/lib.rs".to_string(), line: 0 }];
    let out = engine.verify(hits, &ast, &Vec::new(), Vec::new(), &Vec::new());
    assert_eq!(out.dedup_count, 2);
    assert_eq!(out.top_hits.len(), 2);
    assert_eq!(out.top_hits[0].path, "src/lib.rs");
    assert_eq!(out.top_hits[0].origin, "ast-grep");
    assert_eq!(out.top_hits[0].score, 150);
    assert_eq!(out.top_hits[1].origin, "rg-scoped");
    assert_eq!(out.top_hits[0].origin_label, "ast-grep [rust]");
    assert_eq!(out.next_actions[0], "inspect src/lib.rs:1");
    assert!(out.metrics.reward > 0);
    // the observation reached the hint store
    assert_eq!(engine.state.hints_for_symbol("login_user").len(), 2);
}

#[test]
fn top_hit_keys_are_unique_within_a_summary() {
    let mut engine = engine_for("dup", None);
    let hits = vec![
        rg_hit("a.rs", 1, "x"),
        rg_hit("a.rs", 1, "x again"),
        rg_hit("a.rs", 2, "y"),
    ];
    let out = engine.verify(hits, &Vec::new(), &Vec::new(), Vec::new(), &Vec::new());
    let mut keys: Vec<(String, usize)> =
        out.top_hits.iter().map(|h| (h.path.clone(), h.line)).collect();
    let before = keys.len();
    keys.sort();
    keys.dedup();
    assert_eq!(keys.len(), before);
    assert_eq!(out.dedup_count, 2);
}

#[test]
fn a_second_identical_cycle_returns_no_new_hits() {
    let mut engine = engine_for("repeat", None);
    let first = engine.verify(
        vec![rg_hit("a.rs", 1, "x"), rg_hit("b.rs", 2, "y")],
        &Vec::new(),
        &Vec::new(),
        Vec::new(),
        &Vec::new(),
    );
    assert_eq!(first.dedup_count, 2);
    let second = engine.verify(
        vec![rg_hit("a.rs", 1, "x"), rg_hit("b.rs", 2, "y")],
        &Vec::new(),
        &Vec::new(),
        Vec::new(),
        &Vec::new(),
    );
    assert_eq!(second.dedup_count, 0);
    assert!(second.top_hits.is_empty());
    assert_eq!(second.metrics.reward, 0);
}

#[test]
fn discovery_bonus_raises_the_score() {
    let mut engine = engine_for("sym", None);
    let fd_set = vec!["a.rs".to_string()];
    let out = engine.verify(
        vec![rg_hit("a.rs", 1, "x"), rg_hit("b.rs", 1, "x")],
        &Vec::new(),
        &fd_set,
        fd_set.clone(),
        &Vec::new(),
    );
    assert_eq!(out.top_hits[0].path, "a.rs");
    assert_eq!(out.top_hits[0].score, 120);
    assert_eq!(out.top_hits[1].score, 100);
}
