use swe_grep::hints::PersistentState;
use swe_grep::score::{HitOrigin, ProbeKind, SearchHit};

fn all_dirs(state: &PersistentState) -> Vec<String> {
    state.directory_scores.iter().map(|(d, _)| d.clone()).collect()
}

fn hit(path: &str, line: usize) -> SearchHit {
    SearchHit {
        path: path.to_string(),
        line,
        snippet: String::new(),
        score: 100,
        origin: HitOrigin::Ripgrep(ProbeKind::Scoped),
    }
}

#[test]
fn observe_records_paths_and_directories() {
    let mut state = PersistentState::new();
    let hits = vec![hit("src/a.rs", 1), hit("src/b.rs", 2), hit("docs/c.md", 3)];
    state.observe("sym", &hits);
    assert!(state.dirty);
    let hints = state.hints_for_symbol("sym");
    assert_eq!(hints, vec!["src/a.rs".to_string(), "src/b.rs".to_string(), "docs/c.md".to_string()]);
    let dirs = state.top_directories(2, &all_dirs(&state));
    assert_eq!(dirs.len(), 2);
    assert_eq!(dirs[0], "src");
}

#[test]
fn observe_deduplicates_and_caps_at_ten() {
    let mut state = PersistentState::new();
    let mut hits = Vec::new();
    for i in 0..15usize {
        hits.push(hit(&format!("f{}.rs", i), i + 1));
    }
    hits.push(hit("f0.rs", 99));
    state.observe("sym", &hits);
    let hints = state.hints_for_symbol("sym");
    assert_eq!(hints.len(), 10);
    assert_eq!(hints[0], "f0.rs");
    // a second observation of a known path does not duplicate it
    state.observe("sym", &vec![hit("f0.rs", 1)]);
    let again = state.hints_for_symbol("sym");
    assert_eq!(again.iter().filter(|p| p.as_str() == "f0.rs").count(), 1);
}

#[test]
fn observe_of_empty_hits_is_a_no_op() {
    let mut state = PersistentState::new();
    state.observe("sym", &Vec::new());
    assert!(!state.dirty);
    assert!(state.hints_for_symbol("sym").is_empty());
}

#[test]
fn hidden_files_are_not_handed_out() {
    let mut state = PersistentState::new();
    state.observe("sym", &vec![hit("src/.hidden.rs", 1), hit("src/shown.rs", 2)]);
    let hints = state.hints_for_symbol("sym");
    assert_eq!(hints, vec!["src/shown.rs".to_string()]);
}

#[test]
fn top_directories_orders_by_count() {
    let mut state = PersistentState::new();
    state.observe("a", &vec![hit("hot/a.rs", 1), hit("hot/b.rs", 2), hit("cold/c.rs", 3)]);
    state.observe("b", &vec![hit("hot/d.rs", 4)]);
    let dirs = state.top_directories(5, &all_dirs(&state));
    assert_eq!(dirs[0], "hot");
    assert_eq!(dirs[1], "cold");
    assert_eq!(state.top_directories(1, &all_dirs(&state)), vec!["hot".to_string()]);
}

#[test]
fn top_directories_only_returns_existing_candidates() {
    let mut state = PersistentState::new();
    state.observe("a", &vec![hit("hot/a.rs", 1), hit("hot/b.rs", 2), hit("cold/c.rs", 3)]);
    // `hot` leads, but only `cold` is known to exist
    let existing = vec!["cold".to_string()];
    assert_eq!(state.top_directories(2, &existing), vec!["cold".to_string()]);
    assert_eq!(state.top_directories(2, &Vec::new()), Vec::<String>::new());
}

#[test]
fn from_tables_keeps_the_first_entry_of_a_repeated_key() {
    let state = PersistentState::from_tables(
        vec![
            ("sym".to_string(), vec!["a.rs".to_string()]),
            ("sym".to_string(), vec!["b.rs".to_string()]),
        ],
        vec![("d".to_string(), 2), ("d".to_string(), 9)],
    );
    assert!(!state.dirty);
    assert_eq!(state.hints_for_symbol("sym"), vec!["a.rs".to_string()]);
    assert_eq!(state.directory_scores, vec![("d".to_string(), 2)]);
}

#[test]
fn unknown_symbol_has_no_hints() {
    let state = PersistentState::new();
    assert!(state.hints_for_symbol("nothing").is_empty());
}
