use swe_grep::hints::PersistentState;
use swe_grep::score::{HitOrigin, ProbeKind, SearchHit};
use swe_grep::state_codec::decode_state;

fn all_dirs(state: &PersistentState) -> Vec<String> {
    state.directory_scores.iter().map(|(d, _)| d.clone()).collect()
}

fn hit(path: &str, line: usize) -> SearchHit {
    SearchHit {
        path: path.to_string(),
        line,
        snippet: String::new(),
        score: 100,
        origin: HitOrigin::Ripgrep(ProbeKind::Scoped),
    }
}

#[test]
fn empty_store_encodes_to_empty_maps() {
    let state = PersistentState::new();
    assert_eq!(state.encoded(), "{\"symbol_hits\":{},\"directory_scores\":{}}");
}

#[test]
fn save_then_load_preserves_hints_and_directories() {
    let mut state = PersistentState::new();
    state.observe("login_user", &vec![hit("src/a.rs", 1), hit("src/b.rs", 2)]);
    state.observe("getUser", &vec![hit("web/app.ts", 3)]);
    state.observe("login_user", &vec![hit("src/a.rs", 9), hit("docs/x.md", 4)]);

    let text = state.encoded();
    let loaded = decode_state(text.as_str()).expect("the encoder's output must decode");

    for sym in ["login_user", "getUser", "absent"] {
        assert_eq!(
            loaded.hints_for_symbol(sym),
            state.hints_for_symbol(sym),
            "hints differ for {}",
            sym
        );
    }
    for limit in 0..5 {
        assert_eq!(loaded.top_directories(limit, &all_dirs(&loaded)), state.top_directories(limit, &all_dirs(&state)));
    }
    assert!(!loaded.dirty);
}

#[test]
fn round_trip_survives_special_characters() {
    let mut state = PersistentState::new();
    let odd_symbol = "quote\" back\\slash\nnewline\ttab";
    let odd_path = "dir \"x\"/fi\\le.rs";
    state.observe(odd_symbol, &vec![hit(odd_path, 7), hit("ünïcode/päth.rs", 8)]);

    let text = state.encoded();
    let loaded = decode_state(text.as_str()).expect("escaped text must decode");
    assert_eq!(loaded.hints_for_symbol(odd_symbol), state.hints_for_symbol(odd_symbol));
    assert_eq!(loaded.top_directories(10, &all_dirs(&loaded)), state.top_directories(10, &all_dirs(&state)));
}

#[test]
fn malformed_text_decodes_to_nothing() {
    assert!(decode_state("").is_none());
    assert!(decode_state("not json").is_none());
    assert!(decode_state("{\"symbol_hits\":{}}").is_none());
    // trailing bytes after the document are refused
    let mut text = PersistentState::new().encoded();
    text.push(' ');
    assert!(decode_state(text.as_str()).is_none());
}

#[test]
fn decode_refuses_counter_overflow() {
    let text = "{\"symbol_hits\":{},\"directory_scores\":{\"d\":99999999999}}";
    assert!(decode_state(text).is_none());
    let ok = "{\"symbol_hits\":{},\"directory_scores\":{\"d\":4294967295}}";
    let st = decode_state(ok).expect("the largest counter fits");
    assert_eq!(st.top_directories(1, &all_dirs(&st)), vec!["d".to_string()]);
}

#[test]
fn decode_refuses_duplicate_keys() {
    let text = "{\"symbol_hits\":{\"a\":[\"p\"],\"a\":[\"q\"]},\"directory_scores\":{}}";
    assert!(decode_state(text).is_none());
}
