use swe_grep::rewrite::{dedup_queries, QueryRewriter};

#[test]
fn escape_quotes_every_metacharacter() {
    assert_eq!(QueryRewriter::escape_literal("a.b*c"), "a\\.b\\*c");
    assert_eq!(
        QueryRewriter::escape_literal("f(x)[y]{z}|w"),
        "f\\(x\\)\\[y\\]\\{z\\}\\|w"
    );
    assert_eq!(QueryRewriter::escape_literal("a^b$c?d+e"), "a\\^b\\$c\\?d\\+e");
    assert_eq!(QueryRewriter::escape_literal("back\\slash"), "back\\\\slash");
    assert_eq!(QueryRewriter::escape_literal("plain_name"), "plain_name");
}

#[test]
fn every_rewrite_is_escaped() {
    let rw = QueryRewriter::for_symbol("get.Data", &vec!["rust".to_string()]);
    let queries = rw.build();
    assert!(!queries.is_empty());
    for q in &queries {
        // the dot of the symbol must always be quoted
        assert!(q.contains("get\\.Data"), "unescaped query: {}", q);
    }
}

#[test]
fn rewrite_twice_yields_identical_lists() {
    let langs = vec!["typescript".to_string(), "rust".to_string()];
    let a = QueryRewriter::for_symbol("useFetch", &langs).build();
    let b = QueryRewriter::for_symbol("useFetch", &langs).build();
    assert_eq!(a, b);
}

#[test]
fn build_emits_base_rewrites_in_order() {
    let rw = QueryRewriter::for_symbol("login_user", &Vec::new());
    let queries = rw.build();
    assert_eq!(queries[0], "login_user");
    assert_eq!(queries[1], "login_user User");
    assert_eq!(queries[2], "login_user error");
    assert_eq!(queries[3], "User\\.login_user");
}

#[test]
fn build_deduplicates_queries() {
    let qs = vec![
        "a".to_string(),
        "b".to_string(),
        "a".to_string(),
        "c".to_string(),
        "b".to_string(),
    ];
    assert_eq!(dedup_queries(qs), vec!["a".to_string(), "b".to_string(), "c".to_string()]);
}

#[test]
fn type_hint_cases() {
    assert_eq!(QueryRewriter::for_symbol("fetch_user_data", &Vec::new()).derive_type_hint(), "Data");
    assert_eq!(
        QueryRewriter::for_symbol("parseHTTPResponse", &Vec::new()).derive_type_hint(),
        "Response"
    );
    assert_eq!(QueryRewriter::for_symbol("foo", &Vec::new()).derive_type_hint(), "Foo");
    assert_eq!(QueryRewriter::for_symbol("   ", &Vec::new()).derive_type_hint(), "value");
}

#[test]
fn empty_symbol_builds_nothing() {
    let rw = QueryRewriter::for_symbol("   ", &vec!["rust".to_string()]);
    assert!(rw.build().is_empty());
}

#[test]
fn rust_variants_present_for_rust_token() {
    let rw = QueryRewriter::for_symbol("Widget", &vec!["rust".to_string()]);
    let queries = rw.build();
    assert!(queries.contains(&"fn Widget".to_string()));
    assert!(queries.contains(&"impl Widget".to_string()));
    assert!(queries.contains(&"macro_rules! Widget".to_string()));
}

#[test]
fn hook_and_component_variants() {
    let rw = QueryRewriter::for_symbol("useThing", &vec!["ts".to_string()]);
    let queries = rw.build();
    assert!(queries.contains(&"useThing<\\{".to_string()));
    let rw2 = QueryRewriter::for_symbol("Widget", &vec!["tsx".to_string()]);
    let queries2 = rw2.build();
    assert!(queries2.contains(&"React\\.memo\\(Widget".to_string()));
    assert!(queries2.contains(&"WidgetProps".to_string()));
}
