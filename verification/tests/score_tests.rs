use swe_grep::score::{
    adjust_hit, compute_metrics, merge_hits, sort_hits_desc, HitOrigin, ProbeKind, SearchCache,
    SearchHit,
};

fn hit(path: &str, line: usize, score: i32, origin: HitOrigin) -> SearchHit {
    SearchHit {
        path: path.to_string(),
        line,
        snippet: String::new(),
        score,
        origin,
    }
}

#[test]
fn structural_promotion_adds_half_a_point_and_switches_origin() {
    let h = hit("src/lib.rs", 3, 100, HitOrigin::Ripgrep(ProbeKind::Scoped));
    let plain = adjust_hit(&h, false, false);
    let promoted = adjust_hit(&h, false, true);
    assert_eq!(plain.score, 100);
    assert_eq!(promoted.score, 150);
    assert_eq!(promoted.origin, HitOrigin::AstGrep);
    assert_eq!(plain.origin, HitOrigin::Ripgrep(ProbeKind::Scoped));
}

#[test]
fn origin_and_discovery_adjustments() {
    let g = hit("a", 1, 100, HitOrigin::Ripgrep(ProbeKind::Global));
    assert_eq!(adjust_hit(&g, false, false).score, 95);
    assert_eq!(adjust_hit(&g, true, false).score, 115);
    let r = hit("a", 1, 90, HitOrigin::Rga);
    assert_eq!(adjust_hit(&r, false, false).score, 80);
    let ix = hit("a", 1, 100, HitOrigin::Ripgrep(ProbeKind::Indexed));
    assert_eq!(adjust_hit(&ix, false, false).score, 110);
}

#[test]
fn merge_keeps_best_per_key_and_unique_keys() {
    let hits = vec![
        hit("a.rs", 1, 100, HitOrigin::Ripgrep(ProbeKind::Scoped)),
        hit("a.rs", 1, 150, HitOrigin::AstGrep),
        hit("b.rs", 2, 95, HitOrigin::Ripgrep(ProbeKind::Global)),
        hit("a.rs", 1, 120, HitOrigin::Ripgrep(ProbeKind::Scoped)),
    ];
    let merged = merge_hits(&hits);
    assert_eq!(merged.len(), 2);
    assert_eq!(merged[0].path, "a.rs");
    assert_eq!(merged[0].score, 150);
    assert_eq!(merged[1].path, "b.rs");
}

#[test]
fn sorting_is_by_score_descending_and_stable() {
    let hits = vec![
        hit("low", 1, 90, HitOrigin::Rga),
        hit("high", 2, 150, HitOrigin::AstGrep),
        hit("mid-first", 3, 100, HitOrigin::Ripgrep(ProbeKind::Scoped)),
        hit("mid-second", 4, 100, HitOrigin::Ripgrep(ProbeKind::Scoped)),
    ];
    let sorted = sort_hits_desc(hits);
    assert_eq!(sorted[0].path, "high");
    assert_eq!(sorted[1].path, "mid-first");
    assert_eq!(sorted[2].path, "mid-second");
    assert_eq!(sorted[3].path, "low");
}

#[test]
fn second_retain_on_same_batch_returns_nothing() {
    let mut cache = SearchCache::new();
    let mut first = vec![
        hit("a.rs", 1, 100, HitOrigin::Ripgrep(ProbeKind::Scoped)),
        hit("b.rs", 2, 100, HitOrigin::Ripgrep(ProbeKind::Scoped)),
    ];
    cache.retain_new(&mut first);
    assert_eq!(first.len(), 2);

    let mut second = vec![
        hit("a.rs", 1, 100, HitOrigin::Ripgrep(ProbeKind::Scoped)),
        hit("b.rs", 2, 100, HitOrigin::Ripgrep(ProbeKind::Scoped)),
    ];
    cache.retain_new(&mut second);
    assert!(second.is_empty());
}

#[test]
fn retain_drops_duplicates_within_one_batch() {
    let mut cache = SearchCache::new();
    let mut batch = vec![
        hit("a.rs", 1, 100, HitOrigin::Ripgrep(ProbeKind::Scoped)),
        hit("a.rs", 1, 120, HitOrigin::AstGrep),
    ];
    cache.retain_new(&mut batch);
    assert_eq!(batch.len(), 1);
}

#[test]
fn metrics_of_empty_hits_are_zero() {
    let m = compute_metrics(&Vec::new(), 5, 3);
    assert_eq!(m.precision, 0);
    assert_eq!(m.density, 0);
    assert_eq!(m.cluster_score, 0);
    assert_eq!(m.reward, 0);
}

#[test]
fn metrics_exact_values() {
    // two hits in one file, lines 3 and 5; one structural match; no
    // discovery candidates
    let hits = vec![
        hit("a.rs", 3, 150, HitOrigin::AstGrep),
        hit("a.rs", 5, 100, HitOrigin::Ripgrep(ProbeKind::Scoped)),
    ];
    let m = compute_metrics(&hits, 1, 0);
    assert_eq!(m.precision, 50);
    assert_eq!(m.density, 67);
    assert_eq!(m.cluster_score, 60);
    assert_eq!(m.reward, 54);
}

#[test]
fn precision_is_clamped_into_the_unit_interval() {
    // more structural matches than deduplicated hits: precision caps at 1.00
    let hits = vec![hit("a.rs", 3, 150, HitOrigin::AstGrep)];
    let m = compute_metrics(&hits, 2, 0);
    assert_eq!(m.precision, 100);
    assert!(m.reward <= 100);
}

#[test]
fn reward_is_positive_whenever_hits_exist() {
    let hits = vec![hit("only.rs", 40, 100, HitOrigin::Ripgrep(ProbeKind::Global))];
    let m = compute_metrics(&hits, 0, 0);
    assert!(m.reward >= 15);
    assert!(m.reward <= 100);
}
