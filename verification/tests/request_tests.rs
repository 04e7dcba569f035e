use swe_grep::bench::{build_search_args, matches_expectation, Expectation, Scenario};
use swe_grep::engine::{SearchSummary, StartupStats, TopHit};
use swe_grep::request::{
    apply_tool_flags, map_request, normalize_relative, option_from_string, zeroable,
    zeroable_usize, BenchArgs, HttpSearchRequest, RpcSearchRequest, SearchArgs,
};
use swe_grep::stats::{distribute_latency, aggregate_language_counts, StageStats};

fn base_args() -> SearchArgs {
    SearchArgs {
        symbol: "s".to_string(),
        path: None,
        language: None,
        timeout_secs: 3,
        max_matches: 20,
        concurrency: 8,
        context_before: 0,
        context_after: 0,
        body: false,
        enable_index: false,
        index_dir: None,
        enable_rga: false,
        cache_dir: None,
        log_dir: None,
        use_fd: true,
        use_ast_grep: true,
    }
}

#[test]
fn small_mappers() {
    assert_eq!(option_from_string("  ".to_string()), None);
    assert_eq!(option_from_string("x".to_string()), Some("x".to_string()));
    assert_eq!(zeroable(0), None);
    assert_eq!(zeroable(4), Some(4));
    assert_eq!(zeroable_usize(0), None);
    assert_eq!(zeroable_usize(9), Some(9));
    assert_eq!(normalize_relative("/base", None), None);
    assert_eq!(normalize_relative("/base", Some("/abs".to_string())), Some("/abs".to_string()));
    assert_eq!(normalize_relative("/base", Some("rel".to_string())), Some("/base/rel".to_string()));
}

#[test]
fn tool_flags_override_case_insensitively_and_ignore_unknown_keys() {
    let flags = vec![
        ("FD".to_string(), false),
        ("ast_grep".to_string(), false),
        ("RGA".to_string(), true),
        ("enable_index".to_string(), true),
        ("body".to_string(), true),
        ("mystery".to_string(), true),
    ];
    let r = apply_tool_flags(base_args(), &flags);
    assert!(!r.use_fd);
    assert!(!r.use_ast_grep);
    assert!(r.enable_rga);
    assert!(r.enable_index);
    assert!(r.body);
    assert_eq!(r.max_matches, 20);
}

#[test]
fn http_request_folds_toggles_into_the_flag_map() {
    let req = HttpSearchRequest {
        symbol: "getUser".to_string(),
        language: Some("ts".to_string()),
        root: None,
        timeout_secs: None,
        max_matches: Some(5),
        concurrency: None,
        enable_index: None,
        enable_rga: None,
        index_dir: None,
        cache_dir: None,
        log_dir: None,
        tool_flags: vec![("body".to_string(), true)],
        use_fd: Some(false),
        use_ast_grep: None,
        use_index: Some(true),
        use_rga: None,
        context_before: None,
        context_after: None,
        body: None,
    };
    let input = req.into_input();
    assert_eq!(input.symbol, "getUser");
    assert_eq!(input.max_matches, Some(5));
    assert_eq!(
        input.tool_flags,
        vec![
            ("body".to_string(), true),
            ("fd".to_string(), false),
            ("index".to_string(), true),
        ]
    );
}

#[test]
fn rpc_request_maps_zeroes_to_absent() {
    let req = RpcSearchRequest {
        symbol: "sym".to_string(),
        language: "".to_string(),
        root: "/r".to_string(),
        timeout_secs: 0,
        max_matches: 7,
        concurrency: 0,
        enable_index: false,
        enable_rga: true,
        index_dir: "".to_string(),
        cache_dir: " ".to_string(),
        log_dir: "logs".to_string(),
        tool_flags: Vec::new(),
    };
    let input = map_request(req);
    assert_eq!(input.symbol, "sym");
    assert_eq!(input.language, None);
    assert_eq!(input.root, Some("/r".to_string()));
    assert_eq!(input.timeout_secs, None);
    assert_eq!(input.max_matches, Some(7));
    assert_eq!(input.enable_index, None);
    assert_eq!(input.enable_rga, Some(true));
    assert_eq!(input.cache_dir, None);
    assert_eq!(input.log_dir, Some("logs".to_string()));
}

fn empty_summary() -> SearchSummary {
    SearchSummary {
        cycle: 1,
        symbol: "s".to_string(),
        queries: Vec::new(),
        top_hits: Vec::new(),
        deduped: 0,
        next_actions: Vec::new(),
        fd_candidates: Vec::new(),
        ast_hits: Vec::new(),
        startup_stats: Some(StartupStats::new()),
        stage_stats: StageStats::new(),
        reward: 0,
    }
}

fn top(path: &str, line: usize) -> TopHit {
    TopHit {
        path: path.to_string(),
        line,
        score: 100,
        origin: "rg-scoped".to_string(),
        origin_label: "rg-scoped".to_string(),
        snippet: None,
    }
}

#[test]
fn scenario_expectations() {
    let scenario = Scenario {
        name: "s1".to_string(),
        path: "fixtures/multi_lang".to_string(),
        symbol: "login_user".to_string(),
        language: Some("rust".to_string()),
        expected: Some(Expectation {
            path: "src/lib.rs".to_string(),
            line: None,
            top_n: Some(2),
        }),
        enable_index: None,
        enable_rga: None,
        cache_dir: None,
        log_dir: None,
        index_dir: None,
        concurrency: None,
        timeout_secs: None,
        max_matches: None,
    };
    let mut summary = empty_summary();
    summary.top_hits.push(top("docs/readme.md", 1));
    summary.top_hits.push(top("fixtures/multi_lang/src/lib.rs", 3));
    assert!(matches_expectation(&summary, &scenario));

    let mut only_first = empty_summary();
    only_first.top_hits.push(top("other.rs", 1));
    let mut narrow = scenario;
    narrow.expected = Some(Expectation {
        path: "src/lib.rs".to_string(),
        line: None,
        top_n: None,
    });
    assert!(!matches_expectation(&only_first, &narrow));
}

#[test]
fn bench_args_resolve_scenario_overrides() {
    let scenario = Scenario {
        name: "n".to_string(),
        path: "p".to_string(),
        symbol: "sym".to_string(),
        language: None,
        expected: None,
        enable_index: None,
        enable_rga: Some(true),
        cache_dir: None,
        log_dir: None,
        index_dir: None,
        concurrency: Some(2),
        timeout_secs: None,
        max_matches: None,
    };
    let bench = BenchArgs {
        scenario: None,
        output: None,
        iterations: 1,
        enable_index: true,
        enable_rga: false,
        cache_dir: Some("/tmp/cache".to_string()),
        log_dir: None,
    };
    let a = build_search_args("/repo/p", &scenario, &bench);
    assert_eq!(a.symbol, "sym");
    assert_eq!(a.path, Some("/repo/p".to_string()));
    assert_eq!(a.timeout_secs, 3);
    assert_eq!(a.max_matches, 20);
    assert_eq!(a.concurrency, 2);
    assert!(a.enable_index);
    assert!(a.enable_rga);
    assert_eq!(a.index_dir, Some("/tmp/cache/index".to_string()));
    assert_eq!(a.cache_dir, Some("/tmp/cache".to_string()));
    assert!(a.use_fd && a.use_ast_grep);
}

#[test]
fn latency_distribution_is_exact() {
    assert_eq!(distribute_latency(10, 3), vec![4, 3, 3]);
    assert_eq!(distribute_latency(2, 4), vec![1, 1, 0, 0]);
    assert_eq!(distribute_latency(5, 0), Vec::<u64>::new());
}

#[test]
fn language_counts_aggregate_by_detected_language() {
    let paths = vec![
        "a.rs".to_string(),
        "b.rs".to_string(),
        "c.swift".to_string(),
        "README".to_string(),
    ];
    let counts = aggregate_language_counts(&paths);
    assert_eq!(counts.len(), 3);
    assert_eq!(counts[0], ("rust".to_string(), 2));
    assert_eq!(counts[1], ("swift".to_string(), 1));
    assert_eq!(counts[2], ("other".to_string(), 1));
}
