//! Per-cycle stage statistics and per-language sub-accounting. Latencies
//! are milliseconds; metric values are fixed-point hundredths.

use vstd::prelude::*;
use vstd::string::*;
use crate::language::detect_lang_spec;
use crate::score::SearchHit;
use crate::tools::AstGrepMatch;

verus! {

/// The language bucket a path counts under: its detected language, or
/// `other`.
pub open spec fn lang_key_spec(p: Seq<char>) -> Seq<char> {
    match detect_lang_spec(p) {
        Option::Some(l) => l,
        Option::None => "other"@,
    }
}

/// How many of the paths count under the given key.
pub open spec fn lang_count(paths: Seq<Seq<char>>, k: Seq<char>) -> int
    decreases paths.len(),
{
    if paths.len() == 0 {
        0
    } else {
        lang_count(paths.drop_last(), k) + (if lang_key_spec(paths.last()) == k {
            1int
        } else {
            0int
        })
    }
}

/// Per-language hit counts, keyed by language, in first-seen order. Each
/// key occurs once, each count is the number of paths under that key, and
/// every path is counted somewhere.
pub fn aggregate_language_counts(paths: &Vec<String>) -> (r: Vec<(String, usize)>)
    ensures
        forall|i: int, j: int| 0 <= i < j < r@.len() ==> r@[i].0@ != r@[j].0@,
        forall|i: int|
            0 <= i < r@.len() ==> r@[i].1 == lang_count(paths.deep_view(), r@[i].0@) && r@[i].1
                > 0,
        forall|i: int|
            0 <= i < paths.deep_view().len() ==> exists|j: int|
                0 <= j < r@.len() && r@[j].0@ == lang_key_spec(#[trigger] paths.deep_view()[i]),
{
    let ghost pd = paths.deep_view();
    let mut r: Vec<(String, usize)> = Vec::new();
    let mut i: usize = 0;
    proof {
        assert(pd.len() == paths@.len());
        assert(pd.take(0) =~= Seq::<Seq<char>>::empty());
    }
    while i < paths.len()
        invariant
            i <= pd.len(),
            pd == paths.deep_view(),
            pd.len() == paths@.len(),
            forall|a: int, b: int| 0 <= a < b < r@.len() ==> r@[a].0@ != r@[b].0@,
            forall|a: int|
                0 <= a < r@.len() ==> r@[a].1 == lang_count(pd.take(i as int), r@[a].0@)
                    && r@[a].1 > 0,
            forall|a: int|
                0 <= a < i ==> exists|j: int|
                    0 <= j < r@.len() && r@[j].0@ == lang_key_spec(#[trigger] pd[a]),
        decreases pd.len() - i,
    {
        proof {
            assert(pd[i as int] == paths@[i as int]@);
        }
        let key: String = match crate::language::detect_language_from_path(paths[i].as_str()) {
            Option::Some(l) => l,
            Option::None => String::from_str("other"),
        };
        proof {
            assert(key@ == lang_key_spec(pd[i as int]));
            assert(pd.take(i + 1 as int).drop_last() =~= pd.take(i as int));
            assert(pd.take(i + 1 as int).last() == pd[i as int]);
        }
        let mut found = false;
        let mut j: usize = 0;
        while j < r.len() && !found
            invariant
                j <= r@.len(),
                !found ==> forall|a: int| 0 <= a < j ==> r@[a].0@ != key@,
                found ==> j < r@.len() && r@[j as int].0@ == key@,
            decreases r@.len() - j, (if found { 0int } else { 1int }),
        {
            if crate::text::str_eq(r[j].0.as_str(), key.as_str()) {
                found = true;
            } else {
                j += 1;
            }
        }
        if found {
            let ghost rpre = r@;
            let old_count = r[j].1;
            proof {
                assert(old_count < usize::MAX) by {
                    assert(rpre[j as int].1 == lang_count(pd.take(i as int), rpre[j as int].0@));
                    lemma_lang_count_bound(pd.take(i as int), rpre[j as int].0@);
                }
            }
            let name = r[j].0.clone();
            r[j] = (name, old_count + 1);
            proof {
                assert(forall|a: int| 0 <= a < r@.len() ==> r@[a].0@ == rpre[a].0@);
                assert forall|a: int| 0 <= a < r@.len() implies r@[a].1 == lang_count(
                    pd.take(i + 1 as int),
                    r@[a].0@,
                ) && r@[a].1 > 0 by {
                    if a == j {
                        assert(r@[a].0@ == key@);
                    } else {
                        assert(r@[a] == rpre[a]);
                        assert(r@[a].0@ != key@);
                    }
                }
                assert forall|a: int| 0 <= a < i + 1 implies exists|jj: int|
                    0 <= jj < r@.len() && r@[jj].0@ == lang_key_spec(#[trigger] pd[a]) by {
                    if a < i {
                        let jj = choose|jj: int|
                            0 <= jj < rpre.len() && rpre[jj].0@ == lang_key_spec(pd[a]);
                        assert(r@[jj].0@ == lang_key_spec(pd[a]));
                    } else {
                        assert(r@[j as int].0@ == lang_key_spec(pd[a]));
                    }
                }
            }
        } else {
            let ghost rpre = r@;
            r.push((key, 1));
            proof {
                assert forall|a: int| 0 <= a < r@.len() implies r@[a].1 == lang_count(
                    pd.take(i + 1 as int),
                    r@[a].0@,
                ) && r@[a].1 > 0 by {
                    if a < rpre.len() {
                        assert(r@[a] == rpre[a]);
                        assert(r@[a].0@ != key@) by {
                            assert(forall|b: int| 0 <= b < rpre.len() ==> rpre[b].0@ != key@);
                        }
                    } else {
                        assert(r@[a].0@ == key@);
                        assert(lang_count(pd.take(i as int), key@) == 0) by {
                            assert forall|c: int| 0 <= c < i implies lang_key_spec(
                                #[trigger] pd[c],
                            ) != key@ by {
                                let jj = choose|jj: int|
                                    0 <= jj < rpre.len() && rpre[jj].0@ == lang_key_spec(pd[c]);
                                assert(rpre[jj].0@ != key@);
                            }
                            lemma_lang_count_absent(pd.take(i as int), key@, i as int, pd);
                        }
                    }
                }
                assert forall|a: int| 0 <= a < i + 1 implies exists|jj: int|
                    0 <= jj < r@.len() && r@[jj].0@ == lang_key_spec(#[trigger] pd[a]) by {
                    if a < i {
                        let jj = choose|jj: int|
                            0 <= jj < rpre.len() && rpre[jj].0@ == lang_key_spec(pd[a]);
                        assert(r@[jj].0@ == lang_key_spec(pd[a]));
                    } else {
                        assert(r@[rpre.len() as int].0@ == lang_key_spec(pd[a]));
                    }
                }
            }
        }
        i += 1;
    }
    proof {
        assert(pd.take(pd.len() as int) =~= pd);
    }
    r
}

proof fn lemma_lang_count_bound(paths: Seq<Seq<char>>, k: Seq<char>)
    ensures
        0 <= lang_count(paths, k) <= paths.len(),
    decreases paths.len(),
{
    if paths.len() > 0 {
        lemma_lang_count_bound(paths.drop_last(), k);
    }
}

proof fn lemma_lang_count_absent(
    taken: Seq<Seq<char>>,
    k: Seq<char>,
    i: int,
    pd: Seq<Seq<char>>,
)
    requires
        0 <= i <= pd.len(),
        taken == pd.take(i),
        forall|a: int| 0 <= a < i ==> lang_key_spec(#[trigger] pd[a]) != k,
    ensures
        lang_count(taken, k) == 0,
    decreases i,
{
    if i > 0 {
        assert(taken.drop_last() =~= pd.take(i - 1));
        lemma_lang_count_absent(pd.take(i - 1), k, i - 1, pd);
        assert(taken.last() == pd[i - 1]);
    }
}

/// Splits a latency across buckets: every bucket gets the integer share,
/// the remainder spreads one extra millisecond over the first buckets.
pub fn distribute_latency(latency_ms: u64, buckets: usize) -> (r: Vec<u64>)
    ensures
        buckets == 0 ==> r@.len() == 0,
        buckets > 0 ==> {
            &&& r@.len() == buckets
            &&& forall|i: int|
                0 <= i < r@.len() ==> r@[i] == (latency_ms as int) / (buckets as int) + (
                if i < (latency_ms as int) % (buckets as int) {
                    1int
                } else {
                    0int
                })
        },
{
    let mut r: Vec<u64> = Vec::new();
    if buckets == 0 {
        return r;
    }
    let base = latency_ms / (buckets as u64);
    let rem = latency_ms % (buckets as u64);
    let mut i: usize = 0;
    while i < buckets
        invariant
            i <= buckets,
            buckets > 0,
            base == (latency_ms as int) / (buckets as int),
            rem == (latency_ms as int) % (buckets as int),
            r@.len() == i,
            forall|j: int|
                0 <= j < i ==> r@[j] == base + (if j < rem {
                    1int
                } else {
                    0int
                }),
        decreases buckets - i,
    {
        proof {
            vstd::arithmetic::div_mod::lemma_mod_bound(latency_ms as int, buckets as int);
            vstd::arithmetic::div_mod::lemma_div_pos_is_pos(latency_ms as int, buckets as int);
            vstd::arithmetic::div_mod::lemma_fundamental_div_mod(latency_ms as int, buckets as int);
            assert(base <= latency_ms) by {
                vstd::arithmetic::div_mod::lemma_fundamental_div_mod(
                    latency_ms as int,
                    buckets as int,
                );
                assert((latency_ms as int) / (buckets as int) <= latency_ms as int)
                    by (nonlinear_arith)
                    requires
                        buckets as int >= 1,
                        latency_ms as int >= 0,
                        (latency_ms as int) == (buckets as int) * ((latency_ms as int) / (
                        buckets as int)) + (latency_ms as int) % (buckets as int),
                        (latency_ms as int) % (buckets as int) >= 0,
                ;
            }
        }
        proof {
            assert(base + rem <= latency_ms) by (nonlinear_arith)
                requires
                    buckets as int >= 1,
                    base as int >= 0,
                    rem as int >= 0,
                    (latency_ms as int) == (buckets as int) * (base as int) + (rem as int),
            ;
        }
        if (i as u64) < rem {
            r.push(base + 1);
        } else {
            r.push(base);
        }
        i += 1;
    }
    r
}

pub fn is_zero(value: &u64) -> (r: bool)
    ensures
        r == (*value == 0),
{
    *value == 0
}

pub fn is_usize_zero(value: &usize) -> (r: bool)
    ensures
        r == (*value == 0),
{
    *value == 0
}

/// Millisecond shares of one stage's latency for one language.
pub struct LanguageLatencyStats {
    pub discover_ms: u64,
    pub probe_ms: u64,
    pub escalate_ms: u64,
    pub disambiguate_ms: u64,
    pub verify_ms: u64,
}

impl LanguageLatencyStats {
    pub fn new() -> (r: Self)
        ensures
            r.discover_ms == 0 && r.probe_ms == 0 && r.escalate_ms == 0 && r.disambiguate_ms == 0
                && r.verify_ms == 0,
    {
        LanguageLatencyStats {
            discover_ms: 0,
            probe_ms: 0,
            escalate_ms: 0,
            disambiguate_ms: 0,
            verify_ms: 0,
        }
    }

    pub fn is_empty(&self) -> (r: bool)
        ensures
            r == (self.discover_ms == 0 && self.probe_ms == 0 && self.escalate_ms == 0
                && self.disambiguate_ms == 0 && self.verify_ms == 0),
    {
        self.discover_ms == 0 && self.probe_ms == 0 && self.escalate_ms == 0
            && self.disambiguate_ms == 0 && self.verify_ms == 0
    }
}

/// Per-language candidate and hit counts with their latency shares.
pub struct LanguageMetrics {
    pub discover_candidates: usize,
    pub probe_hits: usize,
    pub escalate_hits: usize,
    pub disambiguate_hits: usize,
    pub verify_hits: usize,
    pub latency: LanguageLatencyStats,
}

impl LanguageMetrics {
    pub fn new() -> (r: Self)
        ensures
            r.discover_candidates == 0 && r.probe_hits == 0 && r.escalate_hits == 0
                && r.disambiguate_hits == 0 && r.verify_hits == 0,
            r.latency.discover_ms == 0 && r.latency.probe_ms == 0 && r.latency.escalate_ms == 0
                && r.latency.disambiguate_ms == 0 && r.latency.verify_ms == 0,
    {
        LanguageMetrics {
            discover_candidates: 0,
            probe_hits: 0,
            escalate_hits: 0,
            disambiguate_hits: 0,
            verify_hits: 0,
            latency: LanguageLatencyStats::new(),
        }
    }
}

/// Which stage a per-language record belongs to.
#[derive(Clone, Copy)]
pub enum StageKind {
    Discover,
    Probe,
    Escalate,
    Disambiguate,
    Verify,
}

/// The view of the per-language table.
pub open spec fn lm_view(v: Seq<(String, LanguageMetrics)>) -> Seq<(Seq<char>, LanguageMetrics)> {
    v.map(|_i: int, p: (String, LanguageMetrics)| (p.0@, p.1))
}

/// The view of a per-language count list.
pub open spec fn counts_view(v: Seq<(String, usize)>) -> Seq<(Seq<char>, usize)> {
    v.map(|_i: int, p: (String, usize)| (p.0@, p.1))
}

/// Saturating addition, at the spec level.
pub open spec fn sat_usize_spec(a: usize, b: usize) -> usize {
    if a + b > usize::MAX {
        usize::MAX
    } else {
        (a + b) as usize
    }
}

pub open spec fn sat_u64_spec(a: u64, b: u64) -> u64 {
    if a + b > u64::MAX {
        u64::MAX
    } else {
        (a + b) as u64
    }
}

/// A fresh per-language record: all zero.
pub open spec fn fresh_metrics() -> LanguageMetrics {
    LanguageMetrics {
        discover_candidates: 0,
        probe_hits: 0,
        escalate_hits: 0,
        disambiguate_hits: 0,
        verify_hits: 0,
        latency: LanguageLatencyStats {
            discover_ms: 0,
            probe_ms: 0,
            escalate_ms: 0,
            disambiguate_ms: 0,
            verify_ms: 0,
        },
    }
}

/// One stage's bump of a per-language record: the stage's counter and
/// latency share grow, saturating; the other fields stay.
pub open spec fn stage_bump(e: LanguageMetrics, stage: StageKind, count: usize, share: u64) -> LanguageMetrics {
    match stage {
        StageKind::Discover => LanguageMetrics {
            discover_candidates: sat_usize_spec(e.discover_candidates, count),
            latency: LanguageLatencyStats {
                discover_ms: sat_u64_spec(e.latency.discover_ms, share),
                ..e.latency
            },
            ..e
        },
        StageKind::Probe => LanguageMetrics {
            probe_hits: sat_usize_spec(e.probe_hits, count),
            latency: LanguageLatencyStats { probe_ms: sat_u64_spec(e.latency.probe_ms, share), ..e.latency },
            ..e
        },
        StageKind::Escalate => LanguageMetrics {
            escalate_hits: sat_usize_spec(e.escalate_hits, count),
            latency: LanguageLatencyStats {
                escalate_ms: sat_u64_spec(e.latency.escalate_ms, share),
                ..e.latency
            },
            ..e
        },
        StageKind::Disambiguate => LanguageMetrics {
            disambiguate_hits: sat_usize_spec(e.disambiguate_hits, count),
            latency: LanguageLatencyStats {
                disambiguate_ms: sat_u64_spec(e.latency.disambiguate_ms, share),
                ..e.latency
            },
            ..e
        },
        StageKind::Verify => LanguageMetrics {
            verify_hits: sat_usize_spec(e.verify_hits, count),
            latency: LanguageLatencyStats {
                verify_ms: sat_u64_spec(e.latency.verify_ms, share),
                ..e.latency
            },
            ..e
        },
    }
}

/// Recording one language: its entry is bumped in place, or a fresh bumped
/// entry joins the table.
pub open spec fn bump_lang(
    m: Seq<(Seq<char>, LanguageMetrics)>,
    stage: StageKind,
    k: Seq<char>,
    count: usize,
    share: u64,
) -> Seq<(Seq<char>, LanguageMetrics)> {
    let i = crate::hints::find_assoc(m, k);
    if i == -1 {
        m.push((k, stage_bump(fresh_metrics(), stage, count, share)))
    } else {
        m.update(i, (k, stage_bump(m[i].1, stage, count, share)))
    }
}

/// The latency share of bucket `i` out of `n`.
pub open spec fn share_at(latency: u64, n: int, i: int) -> u64 {
    ((latency as int) / n + (if i < (latency as int) % n {
        1int
    } else {
        0int
    })) as u64
}

/// Recording a whole stage: each named language bumped in order with its
/// latency share; an empty count list changes nothing.
pub open spec fn record_from(
    m: Seq<(Seq<char>, LanguageMetrics)>,
    stage: StageKind,
    counts: Seq<(Seq<char>, usize)>,
    latency: u64,
    n: int,
    i: int,
) -> Seq<(Seq<char>, LanguageMetrics)>
    decreases counts.len() - i,
{
    if i < 0 || i >= counts.len() {
        m
    } else {
        record_from(
            bump_lang(m, stage, counts[i].0, counts[i].1, share_at(latency, n, i)),
            stage,
            counts,
            latency,
            n,
            i + 1,
        )
    }
}

pub open spec fn record_spec(
    m: Seq<(Seq<char>, LanguageMetrics)>,
    stage: StageKind,
    counts: Seq<(Seq<char>, usize)>,
    latency: u64,
) -> Seq<(Seq<char>, LanguageMetrics)> {
    if counts.len() == 0 {
        m
    } else {
        record_from(m, stage, counts, latency, counts.len() as int, 0)
    }
}

proof fn lemma_lm_find_first(m: Seq<(Seq<char>, LanguageMetrics)>, k: Seq<char>, i: int)
    requires
        0 <= i < m.len(),
        forall|j: int| 0 <= j < i ==> m[j].0 != k,
        m[i].0 == k,
    ensures
        crate::hints::find_assoc(m, k) == i,
    decreases m.len(),
{
    if i > 0 {
        assert forall|j: int| 0 <= j < i - 1 implies m.drop_first()[j].0 != k by {
            assert(m.drop_first()[j] == m[j + 1]);
        }
        assert(m.drop_first()[i - 1] == m[i]);
        lemma_lm_find_first(m.drop_first(), k, i - 1);
    }
}

proof fn lemma_lm_find_none(m: Seq<(Seq<char>, LanguageMetrics)>, k: Seq<char>)
    requires
        forall|j: int| 0 <= j < m.len() ==> m[j].0 != k,
    ensures
        crate::hints::find_assoc(m, k) == -1,
    decreases m.len(),
{
    if m.len() > 0 {
        assert forall|j: int| 0 <= j < m.drop_first().len() implies m.drop_first()[j].0 != k by {
            assert(m.drop_first()[j] == m[j + 1]);
        }
        lemma_lm_find_none(m.drop_first(), k);
    }
}

/// The per-cycle stage statistics.
pub struct StageStats {
    pub discover_candidates: usize,
    pub discover_ms: u64,
    pub probe_hits: usize,
    pub probe_ms: u64,
    pub escalate_hits: usize,
    pub escalate_ms: u64,
    pub index_candidates: usize,
    pub index_probe_hits: usize,
    pub index_ms: u64,
    pub rga_hits: usize,
    pub rga_ms: u64,
    pub ast_matches: usize,
    pub disambiguate_ms: u64,
    pub verify_ms: u64,
    pub cycle_latency_ms: u64,
    pub precision: u64,
    pub density: u64,
    pub cluster_score: u64,
    pub reward: u64,
    pub language_metrics: Vec<(String, LanguageMetrics)>,
}

impl StageStats {
    pub fn new() -> (r: Self)
        ensures
            r.discover_candidates == 0 && r.discover_ms == 0 && r.probe_hits == 0 && r.probe_ms
                == 0 && r.escalate_hits == 0 && r.escalate_ms == 0 && r.index_candidates == 0
                && r.index_probe_hits == 0 && r.index_ms == 0 && r.rga_hits == 0 && r.rga_ms == 0
                && r.ast_matches == 0 && r.disambiguate_ms == 0 && r.verify_ms == 0
                && r.cycle_latency_ms == 0 && r.precision == 0 && r.density == 0 && r.cluster_score
                == 0 && r.reward == 0,
            r.language_metrics@.len() == 0,
    {
        StageStats {
            discover_candidates: 0,
            discover_ms: 0,
            probe_hits: 0,
            probe_ms: 0,
            escalate_hits: 0,
            escalate_ms: 0,
            index_candidates: 0,
            index_probe_hits: 0,
            index_ms: 0,
            rga_hits: 0,
            rga_ms: 0,
            ast_matches: 0,
            disambiguate_ms: 0,
            verify_ms: 0,
            cycle_latency_ms: 0,
            precision: 0,
            density: 0,
            cluster_score: 0,
            reward: 0,
            language_metrics: Vec::new(),
        }
    }

    /// Adds one stage's per-language counts and latency shares: each named
    /// language's stage counter and latency share grow by exactly the given
    /// count and its bucket's share, saturating; new languages join the
    /// table; the keys stay unique.
    #[verifier::rlimit(100)]
    pub fn record_stage_languages(
        &mut self,
        stage: StageKind,
        counts: &Vec<(String, usize)>,
        latency_ms: u64,
    )
        requires
            forall|a: int, b: int|
                0 <= a < b < old(self).language_metrics@.len() ==> old(self).language_metrics@[a].0@
                    != old(self).language_metrics@[b].0@,
        ensures
            lm_view(final(self).language_metrics@) == record_spec(
                lm_view(old(self).language_metrics@),
                stage,
                counts_view(counts@),
                latency_ms,
            ),
            forall|a: int, b: int|
                0 <= a < b < final(self).language_metrics@.len()
                    ==> final(self).language_metrics@[a].0@
                    != final(self).language_metrics@[b].0@,
    {
        if counts.len() == 0 {
            return ;
        }
        let ghost lm0 = lm_view(self.language_metrics@);
        let ghost cv = counts_view(counts@);
        let ghost n = counts@.len() as int;
        let shares = distribute_latency(latency_ms, counts.len());
        let mut i: usize = 0;
        while i < counts.len()
            invariant
                i <= counts@.len(),
                cv == counts_view(counts@),
                cv.len() == counts@.len(),
                n == counts@.len() as int,
                n >= 1,
                shares@.len() == counts@.len(),
                forall|k: int|
                    0 <= k < shares@.len() ==> (#[trigger] shares@[k]) as int == (
                    latency_ms as int) / n + (if k < (latency_ms as int) % n {
                        1int
                    } else {
                        0int
                    }),
                record_from(lm_view(self.language_metrics@), stage, cv, latency_ms, n, i as int)
                    == record_from(lm0, stage, cv, latency_ms, n, 0),
                forall|a: int, b: int|
                    0 <= a < b < self.language_metrics@.len() ==> self.language_metrics@[a].0@
                        != self.language_metrics@[b].0@,
            decreases counts@.len() - i,
        {
            proof {
                assert(shares@[i as int] as int == (latency_ms as int) / n + (if (i as int) < (
                latency_ms as int) % n {
                    1int
                } else {
                    0int
                }));
                assert(shares@[i as int] == share_at(latency_ms, n, i as int));
                assert(cv[i as int].0 == counts@[i as int].0@);
                assert(cv[i as int].1 == counts@[i as int].1);
            }
            let share = shares[i];
            let count = counts[i].1;
            let mut found = false;
            let mut j: usize = 0;
            let ghost lm = lm_view(self.language_metrics@);
            proof {
                assert(lm.len() == self.language_metrics@.len());
            }
            while j < self.language_metrics.len() && !found
                invariant
                    j <= self.language_metrics@.len(),
                    i < counts@.len(),
                    cv == counts_view(counts@),
                    lm == lm_view(self.language_metrics@),
                    lm.len() == self.language_metrics@.len(),
                    !found ==> forall|a: int| 0 <= a < j ==> lm[a].0 != cv[i as int].0,
                    found ==> j < lm.len() && lm[j as int].0 == cv[i as int].0 && (forall|a: int|
                        0 <= a < j ==> lm[a].0 != cv[i as int].0),
                decreases self.language_metrics@.len() - j, (if found { 0int } else { 1int }),
            {
                proof {
                    assert(lm[j as int].0 == self.language_metrics@[j as int].0@);
                }
                if crate::text::str_eq(
                    self.language_metrics[j].0.as_str(),
                    counts[i].0.as_str(),
                ) {
                    found = true;
                } else {
                    j += 1;
                }
            }
            let ghost pre = lm_view(self.language_metrics@);
            if !found {
                proof {
                    lemma_lm_find_none(pre, cv[i as int].0);
                }
                let ghost before_push = self.language_metrics@;
                self.language_metrics.push((counts[i].0.clone(), LanguageMetrics::new()));
                j = self.language_metrics.len() - 1;
                proof {
                    assert(lm_view(self.language_metrics@) =~= pre.push(
                        (cv[i as int].0, fresh_metrics()),
                    ));
                    assert(self.language_metrics@[before_push.len() as int].0@
                        == counts@[i as int].0@);
                    assert forall|a: int, b: int|
                        0 <= a < b < self.language_metrics@.len() implies self.language_metrics@[a].0@
                        != self.language_metrics@[b].0@ by {
                        if b == before_push.len() {
                            assert(self.language_metrics@[a] == before_push[a]);
                            assert(pre[a].0 == before_push[a].0@);
                        } else {
                            assert(self.language_metrics@[a] == before_push[a]);
                            assert(self.language_metrics@[b] == before_push[b]);
                        }
                    }
                }
            } else {
                proof {
                    lemma_lm_find_first(pre, cv[i as int].0, j as int);
                }
            }
            proof {
                assert(j < self.language_metrics@.len());
            }
            let ghost mid = lm_view(self.language_metrics@);
            let ghost before = self.language_metrics@;
            let name = self.language_metrics[j].0.clone();
            let ghost old_entry = mid[j as int].1;
            let mut entry = take_metrics(&self.language_metrics[j].1);
            proof {
                assert(mid[j as int].1 == self.language_metrics@[j as int].1);
                assert(entry == old_entry);
            }
            match stage {
                StageKind::Discover => {
                    entry.discover_candidates = sat_add_usize(entry.discover_candidates, count);
                    entry.latency.discover_ms = sat_add_u64(entry.latency.discover_ms, share);
                },
                StageKind::Probe => {
                    entry.probe_hits = sat_add_usize(entry.probe_hits, count);
                    entry.latency.probe_ms = sat_add_u64(entry.latency.probe_ms, share);
                },
                StageKind::Escalate => {
                    entry.escalate_hits = sat_add_usize(entry.escalate_hits, count);
                    entry.latency.escalate_ms = sat_add_u64(entry.latency.escalate_ms, share);
                },
                StageKind::Disambiguate => {
                    entry.disambiguate_hits = sat_add_usize(entry.disambiguate_hits, count);
                    entry.latency.disambiguate_ms = sat_add_u64(
                        entry.latency.disambiguate_ms,
                        share,
                    );
                },
                StageKind::Verify => {
                    entry.verify_hits = sat_add_usize(entry.verify_hits, count);
                    entry.latency.verify_ms = sat_add_u64(entry.latency.verify_ms, share);
                },
            }
            proof {
                assert(entry == stage_bump(old_entry, stage, count, share));
            }
            self.language_metrics[j] = (name, entry);
            proof {
                assert(name@ == mid[j as int].0);
                assert(lm_view(self.language_metrics@) =~= mid.update(
                    j as int,
                    (cv[i as int].0, stage_bump(old_entry, stage, count, share)),
                ));
                if found {
                    assert(mid == pre);
                    assert(lm_view(self.language_metrics@) == bump_lang(
                        pre,
                        stage,
                        cv[i as int].0,
                        count,
                        share,
                    ));
                } else {
                    // the fresh entry was appended, then bumped in place
                    assert(crate::hints::find_assoc(pre, cv[i as int].0) == -1);
                    assert(mid =~= pre.push((cv[i as int].0, fresh_metrics())));
                    assert(mid.update(
                        j as int,
                        (cv[i as int].0, stage_bump(fresh_metrics(), stage, count, share)),
                    ) =~= pre.push(
                        (cv[i as int].0, stage_bump(fresh_metrics(), stage, count, share)),
                    ));
                    assert(lm_view(self.language_metrics@) == bump_lang(
                        pre,
                        stage,
                        cv[i as int].0,
                        count,
                        share,
                    ));
                }
                assert(count == cv[i as int].1);
                assert(share == share_at(latency_ms, n, i as int));
                assert forall|a: int, b: int|
                    0 <= a < b < self.language_metrics@.len() implies self.language_metrics@[a].0@
                    != self.language_metrics@[b].0@ by {
                    assert(before[a].0@ != before[b].0@);
                    assert(self.language_metrics@[a].0@ == before[a].0@);
                    assert(self.language_metrics@[b].0@ == before[b].0@);
                }
            }
            i += 1;
        }
    }
}

/// Copies a per-language record.
fn take_metrics(m: &LanguageMetrics) -> (r: LanguageMetrics)
    ensures
        r == *m,
{
    LanguageMetrics {
        discover_candidates: m.discover_candidates,
        probe_hits: m.probe_hits,
        escalate_hits: m.escalate_hits,
        disambiguate_hits: m.disambiguate_hits,
        verify_hits: m.verify_hits,
        latency: LanguageLatencyStats {
            discover_ms: m.latency.discover_ms,
            probe_ms: m.latency.probe_ms,
            escalate_ms: m.latency.escalate_ms,
            disambiguate_ms: m.latency.disambiguate_ms,
            verify_ms: m.latency.verify_ms,
        },
    }
}

/// Saturating addition on counters.
pub fn sat_add_usize(a: usize, b: usize) -> (r: usize)
    ensures
        r == if a + b > usize::MAX {
            usize::MAX as int
        } else {
            a + b
        },
{
    if a > usize::MAX - b {
        usize::MAX
    } else {
        a + b
    }
}

pub fn sat_add_u64(a: u64, b: u64) -> (r: u64)
    ensures
        r == if a + b > u64::MAX {
            u64::MAX as int
        } else {
            a + b
        },
{
    if a > u64::MAX - b {
        u64::MAX
    } else {
        a + b
    }
}

/// The cycle's total latency: the sum of the stage latencies, saturating.
pub fn cycle_total_ms(s: &StageStats) -> (r: u64)
    ensures
        r == {
            let t = s.discover_ms + s.probe_ms + s.escalate_ms + s.index_ms + s.rga_ms
                + s.disambiguate_ms + s.verify_ms;
            if t > u64::MAX {
                u64::MAX as int
            } else {
                t
            }
        },
{
    let a = sat_add_u64(s.discover_ms, s.probe_ms);
    let b = sat_add_u64(a, s.escalate_ms);
    let c = sat_add_u64(b, s.index_ms);
    let d = sat_add_u64(c, s.rga_ms);
    let e = sat_add_u64(d, s.disambiguate_ms);
    sat_add_u64(e, s.verify_ms)
}

} // verus!
