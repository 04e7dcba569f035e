//! The cycle engine: resolved configuration, the fast-path predicate,
//! discovery candidate assembly, the verify stage and summary pieces. The
//! engine owns the hint store and the cross-cycle dedup cache; the
//! application drives the stages and performs every tool invocation and
//! file access, handing results back here.

use vstd::prelude::*;
use vstd::string::*;
use crate::hints::{
    PersistentState, observe_hints_spec, observe_scores_spec, hints_view, scores_view, find_assoc,
};
use crate::language::{expand_hint_spec, expand_language_hint, detect_lang_spec, passes_filter_spec,
    passes_extension_filter, detect_language_from_path};
use crate::paths::{join_spec, strip_root_spec, normalize_path};
use crate::request::SearchArgs;
use crate::score::{
    SearchHit, SearchCache, SearchMetrics, HitOrigin, ProbeKind, adjust_hit, merge_hits, merged_spec,
    sort_hits_desc, unique_keys, sorted_desc, retain_spec, key_in_seen, compute_metrics,
    origin_str_spec, lemma_retain_unique, lemma_retain_subset, lemma_retain_sorted,
    lemma_seen_after_covers, lemma_seen_after_monotone, precision_h, density_h, cluster_h,
    fd_bonus_h, reward_h, distinct_path_count, min_line_spec, max_line_spec,
};
use crate::snippet::format_snippet;
use crate::text::{
    dec_chars, is_ident, is_ident_char, str_eq, str_to_chars, trim_chars, trim_spec,
    chars_to_string,
};
use crate::tools::{AstGrepMatch, RipgrepMatch, RgaMatch, dec_string};
use crate::rewrite::contains_string;

verus! {

/// Millisecond timings of engine construction.
pub struct StartupStats {
    pub init_ms: u64,
    pub fd_ms: u64,
    pub rg_ms: u64,
    pub ast_ms: u64,
    pub rga_ms: u64,
    pub cache_ms: u64,
    pub state_ms: u64,
    pub index_ms: u64,
}

impl StartupStats {
    pub fn new() -> (r: Self)
        ensures
            r.init_ms == 0 && r.fd_ms == 0 && r.rg_ms == 0 && r.ast_ms == 0 && r.rga_ms == 0
                && r.cache_ms == 0 && r.state_ms == 0 && r.index_ms == 0,
    {
        StartupStats {
            init_ms: 0,
            fd_ms: 0,
            rg_ms: 0,
            ast_ms: 0,
            rga_ms: 0,
            cache_ms: 0,
            state_ms: 0,
            index_ms: 0,
        }
    }
}

/// One presented hit.
pub struct TopHit {
    pub path: String,
    pub line: usize,
    /// Fixed-point hundredths; `100` stands for a score of 1.00.
    pub score: i32,
    pub origin: String,
    pub origin_label: String,
    pub snippet: Option<String>,
}

/// The resolved per-cycle configuration. `root` is the canonicalized
/// repository root the caller resolved.
pub struct SearchConfig {
    pub root: String,
    pub symbol: String,
    pub language: Option<String>,
    pub language_tokens: Vec<String>,
    pub timeout_ms: u64,
    pub max_matches: usize,
    pub concurrency: usize,
    pub context_before: usize,
    pub context_after: usize,
    pub max_columns: usize,
    pub body: bool,
    pub use_index: bool,
    pub index_dir: String,
    pub use_rga: bool,
    pub use_fd: bool,
    pub use_ast: bool,
    pub cache_dir: String,
    pub log_dir: Option<String>,
}

/// The trimmed language hint, when any is left after trimming.
pub open spec fn trimmed_language_spec(language: Option<String>) -> Option<Seq<char>> {
    match language {
        Option::None => Option::None,
        Option::Some(l) => {
            if trim_spec(l@).len() == 0 {
                Option::None
            } else {
                Option::Some(trim_spec(l@))
            }
        },
    }
}

impl SearchConfig {
    /// Resolves the configuration from the arguments and the canonicalized
    /// root. The inverted-index fallback is not available in this build, so
    /// the index flag always resolves to off; counts are clamped to at
    /// least one; relative directories settle under the root.
    pub fn try_from_args(args: SearchArgs, root: String) -> (r: Self)
        ensures
            r.root == root,
            r.symbol == args.symbol,
            opt_view(r.language) == trimmed_language_spec(args.language),
            r.language_tokens.deep_view() == expand_hint_spec(
                trimmed_language_spec(args.language),
            ),
            r.timeout_ms == if args.timeout_secs * 1000 > u64::MAX {
                u64::MAX as int
            } else {
                args.timeout_secs * 1000
            },
            r.max_matches == if args.max_matches >= 1 {
                args.max_matches as int
            } else {
                1
            },
            r.concurrency == if args.concurrency >= 1 {
                args.concurrency as int
            } else {
                1
            },
            r.context_before == args.context_before,
            r.context_after == args.context_after,
            r.max_columns == 200,
            r.body == args.body,
            !r.use_index,
            r.use_rga == args.enable_rga,
            r.use_fd == args.use_fd,
            r.use_ast == args.use_ast_grep,
            match args.index_dir {
                Option::Some(d) => r.index_dir@ == join_spec(root@, d@),
                Option::None => r.index_dir@ == root@ + "/"@ + ".swe-grep-index"@,
            },
            match args.cache_dir {
                Option::Some(d) => r.cache_dir@ == join_spec(root@, d@),
                Option::None => r.cache_dir@ == root@ + "/"@ + ".swe-grep-cache"@,
            },
            match args.log_dir {
                Option::Some(d) => r.log_dir matches Option::Some(l) && l@ == join_spec(root@, d@),
                Option::None => r.log_dir is None,
            },
    {
        let language: Option<String> = match &args.language {
            Option::Some(l) => {
                let lv = str_to_chars(l.as_str());
                let t = trim_chars(&lv);
                if t.len() == 0 {
                    Option::None
                } else {
                    Option::Some(chars_to_string(&t))
                }
            },
            Option::None => Option::None,
        };
        let language_tokens = match &language {
            Option::Some(l) => expand_language_hint(Option::Some(l.as_str())),
            Option::None => expand_language_hint(Option::None),
        };
        proof {
            if args.language is Some {
                lemma_trim_idempotent(args.language->Some_0@);
            }
        }
        let timeout_ms: u64 = if args.timeout_secs > u64::MAX / 1000 {
            u64::MAX
        } else {
            args.timeout_secs * 1000
        };
        proof {
            lemma_times_1000(args.timeout_secs);
        }
        let index_dir = join_under(root.as_str(), &args.index_dir, ".swe-grep-index");
        let cache_dir = join_under(root.as_str(), &args.cache_dir, ".swe-grep-cache");
        let log_dir = match args.log_dir {
            Option::Some(d) => Option::Some(join_dir(root.as_str(), d.as_str())),
            Option::None => Option::None,
        };
        SearchConfig {
            root,
            symbol: args.symbol,
            language,
            language_tokens,
            timeout_ms,
            max_matches: if args.max_matches >= 1 {
                args.max_matches
            } else {
                1
            },
            concurrency: if args.concurrency >= 1 {
                args.concurrency
            } else {
                1
            },
            context_before: args.context_before,
            context_after: args.context_after,
            max_columns: 200,
            body: args.body,
            use_index: false,
            index_dir,
            use_rga: args.enable_rga,
            use_fd: args.use_fd,
            use_ast: args.use_ast_grep,
            cache_dir,
            log_dir,
        }
    }
}

/// The view of an optional string.
pub open spec fn opt_view(o: Option<String>) -> Option<Seq<char>> {
    match o {
        Option::None => Option::None,
        Option::Some(s) => Option::Some(s@),
    }
}

proof fn lemma_trim_idempotent(s: Seq<char>)
    ensures
        trim_spec(trim_spec(s)) == trim_spec(s),
{
    lemma_trim_start_of_trim(s);
}

proof fn lemma_trim_start_of_trim(s: Seq<char>)
    ensures
        trim_spec(trim_spec(s)) == trim_spec(s),
{
    let t = trim_spec(s);
    assert(t.len() > 0 ==> !crate::text::is_ws_char(t[0]) && !crate::text::is_ws_char(t.last()))
        by {
        lemma_trim_ends(s);
    }
    if t.len() > 0 {
        assert(crate::text::trim_start_spec(t) == t);
        assert(crate::text::trim_end_spec(t) == t);
    } else {
        assert(crate::text::trim_start_spec(t) == t);
        assert(crate::text::trim_end_spec(t) == t);
    }
}

proof fn lemma_trim_ends(s: Seq<char>)
    ensures
        trim_spec(s).len() > 0 ==> !crate::text::is_ws_char(trim_spec(s)[0]),
        trim_spec(s).len() > 0 ==> !crate::text::is_ws_char(trim_spec(s).last()),
{
    lemma_trim_start_head(s);
    let u = crate::text::trim_start_spec(s);
    lemma_trim_end_tail(u);
    lemma_trim_end_prefix(u);
}

proof fn lemma_trim_start_head(s: Seq<char>)
    ensures
        crate::text::trim_start_spec(s).len() > 0 ==> !crate::text::is_ws_char(
            crate::text::trim_start_spec(s)[0],
        ),
    decreases s.len(),
{
    if s.len() > 0 && crate::text::is_ws_char(s[0]) {
        lemma_trim_start_head(s.drop_first());
    }
}

proof fn lemma_trim_end_tail(s: Seq<char>)
    ensures
        crate::text::trim_end_spec(s).len() > 0 ==> !crate::text::is_ws_char(
            crate::text::trim_end_spec(s).last(),
        ),
    decreases s.len(),
{
    if s.len() > 0 && crate::text::is_ws_char(s.last()) {
        lemma_trim_end_tail(s.drop_last());
    }
}

proof fn lemma_trim_end_prefix(s: Seq<char>)
    ensures
        crate::text::trim_end_spec(s).len() > 0 ==> crate::text::trim_end_spec(s)[0] == s[0],
    decreases s.len(),
{
    if s.len() > 0 && crate::text::is_ws_char(s.last()) {
        lemma_trim_end_prefix(s.drop_last());
    }
}

proof fn lemma_times_1000(secs: u64)
    ensures
        secs > u64::MAX / 1000 <==> secs * 1000 > u64::MAX,
{
    vstd::arithmetic::div_mod::lemma_fundamental_div_mod(u64::MAX as int, 1000);
    assert(secs > u64::MAX / 1000 <==> secs * 1000 > u64::MAX) by (nonlinear_arith)
        requires
            (u64::MAX as int) == 1000 * ((u64::MAX as int) / 1000) + (u64::MAX as int) % 1000,
            0 <= (u64::MAX as int) % 1000 < 1000,
    ;
}

/// Joins an optional directory under the root, with a default leaf name.
fn join_under(root: &str, dir: &Option<String>, default_leaf: &str) -> (r: String)
    ensures
        match dir {
            Option::Some(d) => r@ == join_spec(root@, d@),
            Option::None => r@ == root@ + "/"@ + default_leaf@,
        },
{
    match dir {
        Option::Some(d) => join_dir(root, d.as_str()),
        Option::None => String::from_str(root).concat("/").concat(default_leaf),
    }
}

/// Joins a possibly relative directory under the root.
fn join_dir(root: &str, d: &str) -> (r: String)
    ensures
        r@ == join_spec(root@, d@),
{
    let dv = str_to_chars(d);
    if dv.len() > 0 && dv[0] == '/' {
        String::from_str(d)
    } else {
        let j = String::from_str(root).concat("/").concat(d);
        proof {
            reveal_strlit("/");
            assert("/"@ =~= seq!['/']);
            assert(j@ =~= join_spec(root@, d@));
        }
        j
    }
}

/// A literal identifier: non-empty after trimming, all ASCII alphanumerics
/// or underscores. The fast path runs exactly for these.
pub open spec fn is_literal_spec(s: Seq<char>) -> bool {
    trim_spec(s).len() > 0 && forall|i: int|
        0 <= i < trim_spec(s).len() ==> is_ident_char(#[trigger] trim_spec(s)[i])
}

/// Decides the fast path: whether the symbol is a plain literal identifier.
pub fn is_literal_symbol(symbol: &str) -> (r: bool)
    ensures
        r == is_literal_spec(symbol@),
{
    let sv = str_to_chars(symbol);
    let t = trim_chars(&sv);
    if t.len() == 0 {
        return false;
    }
    let mut i: usize = 0;
    while i < t.len()
        invariant
            i <= t@.len(),
            t@ == trim_spec(symbol@),
            t@.len() > 0,
            forall|j: int| 0 <= j < i ==> is_ident_char(#[trigger] t@[j]),
        decreases t@.len() - i,
    {
        if !is_ident(t[i]) {
            return false;
        }
        i += 1;
    }
    true
}

/// A symbol the service accepts: non-empty after trimming. A blank symbol
/// is rejected before any cycle runs.
pub fn symbol_acceptable(symbol: &str) -> (r: bool)
    ensures
        r == (trim_spec(symbol@).len() > 0),
{
    let sv = str_to_chars(symbol);
    let t = trim_chars(&sv);
    t.len() > 0
}

/// Candidate assembly: each path is normalized when asked, filtered by
/// extension, and appended unless already present.
pub open spec fn add_candidates_spec(
    acc: Seq<Seq<char>>,
    paths: Seq<Seq<char>>,
    root: Seq<char>,
    filter: Option<Seq<Seq<char>>>,
    normalize: bool,
) -> Seq<Seq<char>>
    decreases paths.len(),
{
    if paths.len() == 0 {
        acc
    } else {
        let p = if normalize {
            strip_root_spec(root, join_spec(root, paths[0]))
        } else {
            paths[0]
        };
        let acc1 = if passes_filter_spec(p, filter) && !acc.contains(p) {
            acc.push(p)
        } else {
            acc
        };
        add_candidates_spec(acc1, paths.drop_first(), root, filter, normalize)
    }
}

/// Appends one source's paths to the discovery candidates, normalizing,
/// filtering and deduplicating.
pub fn extend_candidates(
    acc: &mut Vec<String>,
    paths: &Vec<String>,
    root: &str,
    extensions: Option<&Vec<String>>,
    normalize: bool,
)
    ensures
        final(acc).deep_view() == add_candidates_spec(
            old(acc).deep_view(),
            paths.deep_view(),
            root@,
            match extensions {
                Option::None => Option::None,
                Option::Some(v) => Option::Some(v.deep_view()),
            },
            normalize,
        ),
{
    let ghost pd = paths.deep_view();
    let ghost fv: Option<Seq<Seq<char>>> = match extensions {
        Option::None => Option::None,
        Option::Some(v) => Option::Some(v.deep_view()),
    };
    let mut i: usize = 0;
    proof {
        assert(pd.len() == paths@.len());
        assert(pd.skip(0) =~= pd);
    }
    while i < paths.len()
        invariant
            i <= pd.len(),
            pd == paths.deep_view(),
            pd.len() == paths@.len(),
            fv == (match extensions {
                Option::None => Option::<Seq<Seq<char>>>::None,
                Option::Some(v) => Option::Some(v.deep_view()),
            }),
            add_candidates_spec(acc.deep_view(), pd.skip(i as int), root@, fv, normalize)
                == add_candidates_spec(old(acc).deep_view(), pd, root@, fv, normalize),
        decreases pd.len() - i,
    {
        proof {
            let u = pd.skip(i as int);
            assert(u[0] == pd[i as int]);
            assert(u.drop_first() =~= pd.skip(i + 1 as int));
            assert(pd[i as int] == paths@[i as int]@);
        }
        let p: String = if normalize {
            normalize_path(root, paths[i].as_str())
        } else {
            paths[i].clone()
        };
        let passes = passes_extension_filter(p.as_str(), extensions);
        let ghost pre = acc.deep_view();
        if passes {
            let present = contains_string(acc, &p);
            if !present {
                acc.push(p);
                proof {
                    assert(acc.deep_view() =~~= pre.push(
                        if normalize {
                            strip_root_spec(root@, join_spec(root@, pd[i as int]))
                        } else {
                            pd[i as int]
                        },
                    ));
                }
            }
        }
        i += 1;
    }
    proof {
        assert(pd.skip(pd.len() as int) =~= Seq::<Seq<char>>::empty());
    }
}

/// Builds a raw hit from a ripgrep match: the path normalized against the
/// root, a base score of one point.
impl SearchHit {
    pub fn from_ripgrep(root: &str, m: &RipgrepMatch, kind: ProbeKind) -> (r: SearchHit)
        ensures
            r.path@ == strip_root_spec(root@, join_spec(root@, m.path@)),
            r.line == m.line_number,
            r.snippet == m.lines,
            r.score == 100,
            r.origin == HitOrigin::Ripgrep(kind),
    {
        SearchHit {
            path: normalize_path(root, m.path.as_str()),
            line: m.line_number,
            snippet: m.lines.clone(),
            score: 100,
            origin: HitOrigin::Ripgrep(kind),
        }
    }

    /// Builds a raw hit from a content-fallback match, at its lower base
    /// score of ninety hundredths.
    pub fn from_rga(root: &str, m: &RgaMatch) -> (r: SearchHit)
        ensures
            r.path@ == strip_root_spec(root@, join_spec(root@, m.path@)),
            r.line == m.line_number,
            r.snippet == m.lines,
            r.score == 90,
            r.origin == HitOrigin::Rga,
    {
        SearchHit {
            path: normalize_path(root, m.path.as_str()),
            line: m.line_number,
            snippet: m.lines.clone(),
            score: 90,
            origin: HitOrigin::Rga,
        }
    }
}

/// The key a structural match contributes: its path normalized against the
/// root, its line made one-based (saturating).
pub open spec fn ast_key_of(root: Seq<char>, m: AstGrepMatch) -> (Seq<char>, usize) {
    (
        strip_root_spec(root, join_spec(root, m.path@)),
        if m.line == usize::MAX {
            usize::MAX
        } else {
            (m.line + 1) as usize
        },
    )
}

/// Membership of a pair among view-level keys.
pub open spec fn key_pair_mem(keys: Seq<(Seq<char>, usize)>, p: Seq<char>, l: usize) -> bool {
    exists|i: int| 0 <= i < keys.len() && keys[i].0 == p && keys[i].1 == l
}

/// The view of an executable key list.
pub open spec fn keys_view(keys: Seq<(String, usize)>) -> Seq<(Seq<char>, usize)> {
    keys.map(|_i: int, k: (String, usize)| (k.0@, k.1))
}

/// The AST key set: each match's key in order, first occurrences only.
pub open spec fn ast_keys_spec(root: Seq<char>, ms: Seq<AstGrepMatch>) -> Seq<(Seq<char>, usize)>
    decreases ms.len(),
{
    if ms.len() == 0 {
        Seq::<(Seq<char>, usize)>::empty()
    } else {
        let prior = ast_keys_spec(root, ms.drop_last());
        let k = ast_key_of(root, ms.last());
        if key_pair_mem(prior, k.0, k.1) {
            prior
        } else {
            prior.push(k)
        }
    }
}

/// Membership transfers between an executable key list and its view.
pub proof fn lemma_key_view_mem(keys: Seq<(String, usize)>, p: Seq<char>, l: usize)
    ensures
        key_in_seen(keys, p, l) == key_pair_mem(keys_view(keys), p, l),
{
    if key_in_seen(keys, p, l) {
        let i = choose|i: int| 0 <= i < keys.len() && keys[i].0@ == p && keys[i].1 == l;
        assert(keys_view(keys)[i].0 == p && keys_view(keys)[i].1 == l);
    }
    if key_pair_mem(keys_view(keys), p, l) {
        let i = choose|i: int|
            0 <= i < keys_view(keys).len() && keys_view(keys)[i].0 == p && keys_view(keys)[i].1
                == l;
        assert(keys[i].0@ == p && keys[i].1 == l);
    }
}

/// One hit after the verify-stage adjustments, as a function of the raw
/// hit, the discovery set and the AST key set.
pub open spec fn adjusted_one(
    h: SearchHit,
    fd: Seq<Seq<char>>,
    keys: Seq<(Seq<char>, usize)>,
) -> SearchHit {
    let in_fd = fd.contains(h.path@);
    let in_ast = key_pair_mem(keys, h.path@, h.line);
    SearchHit {
        path: h.path,
        line: h.line,
        snippet: h.snippet,
        score: crate::score::adjusted_score_spec(h.score as int, in_fd, h.origin, in_ast) as i32,
        origin: if in_ast {
            HitOrigin::AstGrep
        } else {
            h.origin
        },
    }
}

/// The whole batch after the verify-stage adjustments.
pub open spec fn adjusted_batch(
    hits: Seq<SearchHit>,
    fd: Seq<Seq<char>>,
    keys: Seq<(Seq<char>, usize)>,
) -> Seq<SearchHit> {
    hits.map(|_i: int, h: SearchHit| adjusted_one(h, fd, keys))
}

/// The `(path, line)` keys of the structural matches, normalized and
/// one-based, without duplicates, in first-seen order.
pub fn ast_key_set(root: &str, ast_matches: &Vec<AstGrepMatch>) -> (r: Vec<(String, usize)>)
    ensures
        keys_view(r@) == ast_keys_spec(root@, ast_matches@),
        forall|i: int, j: int|
            0 <= i < j < r@.len() ==> !(r@[i].0@ == r@[j].0@ && r@[i].1 == r@[j].1),
        r@.len() <= ast_matches@.len(),
{
    let ghost md = ast_matches@;
    let mut r: Vec<(String, usize)> = Vec::new();
    let mut i: usize = 0;
    proof {
        assert(md.take(0) =~= Seq::<AstGrepMatch>::empty());
        assert(keys_view(r@) =~= ast_keys_spec(root@, md.take(0)));
    }
    while i < ast_matches.len()
        invariant
            i <= md.len(),
            ast_matches@ == md,
            r@.len() <= i,
            keys_view(r@) == ast_keys_spec(root@, md.take(i as int)),
            forall|a: int, b: int|
                0 <= a < b < r@.len() ==> !(r@[a].0@ == r@[b].0@ && r@[a].1 == r@[b].1),
        decreases md.len() - i,
    {
        let m = &ast_matches[i];
        let p = normalize_path(root, m.path.as_str());
        let line1 = if m.line == usize::MAX {
            usize::MAX
        } else {
            m.line + 1
        };
        proof {
            assert(md.take(i + 1 as int).drop_last() =~= md.take(i as int));
            assert(md.take(i + 1 as int).last() == md[i as int]);
            assert((p@, line1) == ast_key_of(root@, md[i as int]));
        }
        let ghost kv = keys_view(r@);
        let mut present = false;
        let mut j: usize = 0;
        while j < r.len()
            invariant
                j <= r@.len(),
                kv == keys_view(r@),
                kv.len() == r@.len(),
                present ==> key_pair_mem(kv, p@, line1),
                !present ==> forall|a: int| 0 <= a < j ==> !(kv[a].0 == p@ && kv[a].1 == line1),
            decreases r@.len() - j,
        {
            proof {
                assert(kv[j as int].0 == r@[j as int].0@ && kv[j as int].1 == r@[j as int].1);
            }
            if str_eq(r[j].0.as_str(), p.as_str()) && r[j].1 == line1 {
                proof {
                    assert(kv[j as int].0 == p@ && kv[j as int].1 == line1);
                }
                present = true;
            }
            j += 1;
        }
        if !present {
            let ghost pre = r@;
            r.push((p, line1));
            proof {
                assert(keys_view(r@) =~= keys_view(pre).push((p@, line1)));
                assert forall|a: int, b: int|
                    0 <= a < b < r@.len() implies !(r@[a].0@ == r@[b].0@ && r@[a].1
                    == r@[b].1) by {
                    if b == pre.len() {
                        assert(r@[a] == pre[a]);
                        assert(keys_view(pre)[a].0 == pre[a].0@ && keys_view(pre)[a].1
                            == pre[a].1);
                    } else {
                        assert(r@[a] == pre[a] && r@[b] == pre[b]);
                    }
                }
            }
        }
        i += 1;
    }
    proof {
        assert(md.take(md.len() as int) =~= md);
    }
    r
}

/// The terminal output of one cycle.
pub struct SearchSummary {
    pub cycle: u32,
    pub symbol: String,
    pub queries: Vec<String>,
    pub top_hits: Vec<TopHit>,
    pub deduped: usize,
    pub next_actions: Vec<String>,
    pub fd_candidates: Vec<String>,
    pub ast_hits: Vec<(String, usize)>,
    pub startup_stats: Option<StartupStats>,
    pub stage_stats: crate::stats::StageStats,
    /// Cumulative reward in hundredths.
    pub reward: u64,
}

/// The engine's per-instance state: resolved configuration, the hint
/// store, the cross-cycle dedup cache, and the cumulative reward in
/// hundredths.
pub struct SearchEngine {
    pub config: SearchConfig,
    pub dedup_cache: SearchCache,
    pub state: PersistentState,
    pub reward_total: u64,
    pub startup_stats: StartupStats,
}

/// What the verify stage hands back.
pub struct VerificationOutcome {
    pub hits: Vec<SearchHit>,
    /// Distinct normalized structural-match keys this cycle saw.
    pub ast_key_count: usize,
    pub top_hits: Vec<TopHit>,
    pub next_actions: Vec<String>,
    pub dedup_count: usize,
    pub fd_candidates: Vec<String>,
    pub ast_hits: Vec<(String, usize)>,
    pub metrics: SearchMetrics,
    pub language_counts: Vec<(String, usize)>,
}

/// The origin label: the tool's name, with the path's language bracketed
/// when the extension identifies one.
pub open spec fn origin_label_spec(o: HitOrigin, p: Seq<char>) -> Seq<char> {
    match detect_lang_spec(p) {
        Option::Some(l) => origin_str_spec(o) + " ["@ + l + "]"@,
        Option::None => origin_str_spec(o),
    }
}

/// Renders the origin label for a hit.
pub fn format_origin_label(origin: &HitOrigin, path: &str) -> (r: String)
    ensures
        r@ == origin_label_spec(*origin, path@),
{
    let tool = origin.as_str();
    match detect_language_from_path(path) {
        Option::Some(l) => String::from_str(tool).concat(" [").concat(l.as_str()).concat("]"),
        Option::None => String::from_str(tool),
    }
}

/// The suggested follow-up for a hit.
pub open spec fn next_action_spec(p: Seq<char>, line: int) -> Seq<char> {
    "inspect "@ + p + ":"@ + dec_chars(line as nat)
}

fn next_action(p: &str, line: usize) -> (r: String)
    ensures
        r@ == next_action_spec(p@, line as int),
{
    String::from_str("inspect ").concat(p).concat(":").concat(dec_string(line).as_str())
}

/// The file lines recorded for a path, empty when none were supplied.
pub open spec fn file_lines_for_spec(fls: Seq<(Seq<char>, Seq<Seq<char>>)>, p: Seq<char>) -> Seq<
    Seq<char>,
> {
    let i = find_assoc(fls, p);
    if i == -1 {
        Seq::<Seq<char>>::empty()
    } else {
        fls[i].1
    }
}

/// The view of supplied per-file line tables.
pub open spec fn file_lines_view(fl: Seq<(String, Vec<String>)>) -> Seq<
    (Seq<char>, Seq<Seq<char>>),
> {
    fl.map(|_i: int, p: (String, Vec<String>)| (p.0@, p.1.deep_view()))
}

/// Looks up the supplied lines of one file.
fn lookup_file_lines<'a>(fl: &'a Vec<(String, Vec<String>)>, p: &str, empty: &'a Vec<String>) -> (
    r: &'a Vec<String>)
    requires
        empty@.len() == 0,
    ensures
        r.deep_view() == file_lines_for_spec(file_lines_view(fl@), p@),
{
    let ghost flv = file_lines_view(fl@);
    proof {
        assert(flv.len() == fl@.len());
    }
    let mut i: usize = 0;
    while i < fl.len()
        invariant
            i <= fl@.len(),
            flv == file_lines_view(fl@),
            flv.len() == fl@.len(),
            forall|j: int| 0 <= j < i ==> flv[j].0 != p@,
        decreases fl@.len() - i,
    {
        if str_eq(fl[i].0.as_str(), p) {
            proof {
                assert(flv[i as int].0 == p@);
                crate::hints::lemma_find_assoc_semantics(flv, p@);
                lemma_find_first(flv, p@, i as int);
            }
            return &fl[i].1;
        }
        proof {
            assert(flv[i as int].0 == fl@[i as int].0@);
        }
        i += 1;
    }
    proof {
        lemma_find_none(flv, p@);
        assert(empty.deep_view() =~= Seq::<Seq<char>>::empty());
    }
    empty
}

proof fn lemma_find_first<T>(m: Seq<(Seq<char>, T)>, k: Seq<char>, i: int)
    requires
        0 <= i < m.len(),
        forall|j: int| 0 <= j < i ==> m[j].0 != k,
        m[i].0 == k,
    ensures
        find_assoc(m, k) == i,
    decreases m.len(),
{
    if i > 0 {
        assert forall|j: int| 0 <= j < i - 1 implies m.drop_first()[j].0 != k by {
            assert(m.drop_first()[j] == m[j + 1]);
        }
        assert(m.drop_first()[i - 1] == m[i]);
        lemma_find_first(m.drop_first(), k, i - 1);
    }
}

proof fn lemma_find_none<T>(m: Seq<(Seq<char>, T)>, k: Seq<char>)
    requires
        forall|j: int| 0 <= j < m.len() ==> m[j].0 != k,
    ensures
        find_assoc(m, k) == -1,
    decreases m.len(),
{
    if m.len() > 0 {
        assert forall|j: int| 0 <= j < m.drop_first().len() implies m.drop_first()[j].0 != k by {
            assert(m.drop_first()[j] == m[j + 1]);
        }
        lemma_find_none(m.drop_first(), k);
    }
}

impl SearchEngine {
    /// A fresh engine over a resolved configuration and a loaded store.
    pub fn new(config: SearchConfig, state: PersistentState) -> (r: Self)
        requires
            state.wf(),
        ensures
            r.config == config,
            r.state == state,
            r.dedup_cache.seen@.len() == 0,
            r.reward_total == 0,
    {
        SearchEngine {
            config,
            dedup_cache: SearchCache::new(),
            state,
            reward_total: 0,
            startup_stats: StartupStats::new(),
        }
    }

    /// The verify stage: scores and promotes every raw hit, merges by key,
    /// ranks, drops keys earlier cycles returned, records the observation
    /// in the hint store, and assembles the presentation pieces and
    /// metrics.
    #[verifier::rlimit(100)]
    pub fn verify(
        &mut self,
        hits: Vec<SearchHit>,
        ast_matches: &Vec<AstGrepMatch>,
        fd_set: &Vec<String>,
        fd_candidates: Vec<String>,
        file_lines: &Vec<(String, Vec<String>)>,
    ) -> (r: VerificationOutcome)
        requires
            old(self).state.wf(),
            hits@.len() <= 100_000,
            ast_matches@.len() <= 100_000,
            fd_set@.len() <= 100_000,
            forall|i: int|
                0 <= i < hits@.len() ==> -100_000 <= (#[trigger] hits@[i]).score <= 100_000,
        ensures
            final(self).state.wf(),
            final(self).config == old(self).config,
            final(self).reward_total == old(self).reward_total,
            // every key is presented at most once, best score first
            unique_keys(r.hits@),
            sorted_desc(r.hits@),
            r.dedup_count == r.hits@.len(),
            // the returned hits are the retain pass over a ranking of the
            // merged, adjusted input batch
            exists|s: Seq<SearchHit>|
                {
                    &&& #[trigger] s.to_multiset() == merged_spec(
                        adjusted_batch(
                            hits@,
                            fd_set.deep_view(),
                            ast_keys_spec(old(self).config.root@, ast_matches@),
                        ),
                    ).to_multiset()
                    &&& sorted_desc(s)
                    &&& r.hits@ == retain_spec(s, old(self).dedup_cache.seen@)
                },
            // the structural inputs pass through unchanged
            r.fd_candidates == fd_candidates,
            r.ast_key_count == ast_keys_spec(old(self).config.root@, ast_matches@).len(),
            r.ast_key_count <= ast_matches@.len(),
            r.ast_hits@.len() == ast_matches@.len(),
            forall|i: int|
                0 <= i < r.ast_hits@.len() ==> (#[trigger] r.ast_hits@[i]).0@ == ast_key_of(
                    old(self).config.root@,
                    ast_matches@[i],
                ).0 && r.ast_hits@[i].1 == ast_key_of(old(self).config.root@, ast_matches@[i]).1,
            // at most five hits are presented, in rank order
            r.top_hits@.len() == (if r.hits@.len() < 5 {
                r.hits@.len() as int
            } else {
                5
            }),
            forall|i: int|
                0 <= i < r.top_hits@.len() ==> {
                    &&& (#[trigger] r.top_hits@[i]).path == r.hits@[i].path
                    &&& r.top_hits@[i].line == r.hits@[i].line
                    &&& r.top_hits@[i].score == r.hits@[i].score
                    &&& r.top_hits@[i].origin@ == origin_str_spec(r.hits@[i].origin)
                    &&& r.top_hits@[i].origin_label@ == origin_label_spec(
                        r.hits@[i].origin,
                        r.hits@[i].path@,
                    )
                },
            // one follow-up suggestion per presented hit
            r.next_actions@.len() == r.top_hits@.len(),
            forall|i: int|
                0 <= i < r.next_actions@.len() ==> (#[trigger] r.next_actions@[i])@
                    == next_action_spec(r.hits@[i].path@, r.hits@[i].line as int),
            // the cache only grows, and now covers every returned key
            forall|p: Seq<char>, l: usize|
                #[trigger] key_in_seen(old(self).dedup_cache.seen@, p, l) ==> key_in_seen(
                    final(self).dedup_cache.seen@,
                    p,
                    l,
                ),
            forall|i: int|
                0 <= i < r.hits@.len() ==> key_in_seen(
                    final(self).dedup_cache.seen@,
                    (#[trigger] r.hits@[i]).path@,
                    r.hits@[i].line,
                ),
            // the observation lands in the hint store
            r.hits@.len() == 0 ==> final(self).state == old(self).state,
            r.hits@.len() > 0 ==> {
                &&& hints_view(final(self).state.symbol_hits@) == observe_hints_spec(
                    hints_view(old(self).state.symbol_hits@),
                    old(self).config.symbol@,
                    r.hits@,
                )
                &&& scores_view(final(self).state.directory_scores@) == observe_scores_spec(
                    scores_view(old(self).state.directory_scores@),
                    r.hits@,
                )
                &&& final(self).state.dirty
            },
            // the metrics follow the hit list exactly
            r.hits@.len() == 0 ==> r.metrics.precision == 0 && r.metrics.density == 0
                && r.metrics.cluster_score == 0 && r.metrics.reward == 0,
            r.hits@.len() > 0 ==> {
                &&& r.metrics.precision == precision_h(r.ast_key_count as int, r.hits@.len() as int)
                &&& r.metrics.density == density_h(r.hits@.len() as int, distinct_path_count(r.hits@))
                &&& r.metrics.cluster_score == cluster_h(
                    r.hits@.len() as int,
                    max_line_spec(r.hits@) - min_line_spec(r.hits@),
                )
                &&& r.metrics.reward == reward_h(
                    r.metrics.precision as int,
                    r.metrics.density as int,
                    r.metrics.cluster_score as int,
                    fd_bonus_h(r.hits@.len() as int, fd_set@.len() as int),
                )
            },
    {
        let root_owned = self.config.root.clone();
        let root = root_owned.as_str();
        let ast_keys = ast_key_set(root, ast_matches);
        let ghost rootg = old(self).config.root@;
        let ghost fdv = fd_set.deep_view();
        let ghost keysv = ast_keys_spec(rootg, ast_matches@);
        proof {
            assert(root@ == rootg);
            assert(keys_view(ast_keys@) == keysv);
        }

        // score and promote
        let mut adjusted: Vec<SearchHit> = Vec::new();
        let mut i: usize = 0;
        proof {
            assert(hits@.take(0) =~= Seq::<SearchHit>::empty());
            assert(adjusted@ =~= adjusted_batch(hits@.take(0), fdv, keysv));
        }
        while i < hits.len()
            invariant
                i <= hits@.len(),
                adjusted@.len() == i,
                fdv == fd_set.deep_view(),
                keysv == keys_view(ast_keys@),
                adjusted@ == adjusted_batch(hits@.take(i as int), fdv, keysv),
                forall|j: int|
                    0 <= j < hits@.len() ==> -100_000 <= (#[trigger] hits@[j]).score <= 100_000,
                forall|j: int|
                    0 <= j < i ==> -100_000 - 100 <= (#[trigger] adjusted@[j]).score <= 100_000
                        + 100,
            decreases hits@.len() - i,
        {
            let h = &hits[i];
            let in_fd = contains_string(fd_set, &h.path);
            let in_ast = ast_key_contains(&ast_keys, &h.path, h.line);
            proof {
                lemma_key_view_mem(ast_keys@, h.path@, h.line);
            }
            let a = adjust_hit(h, in_fd, in_ast);
            let ghost pre = adjusted@;
            adjusted.push(a);
            proof {
                assert(a == adjusted_one(hits@[i as int], fdv, keysv));
                assert(adjusted@ =~= pre.push(adjusted_one(hits@[i as int], fdv, keysv)));
                assert(adjusted_batch(hits@.take(i + 1 as int), fdv, keysv) =~= adjusted_batch(
                    hits@.take(i as int),
                    fdv,
                    keysv,
                ).push(adjusted_one(hits@[i as int], fdv, keysv)));
            }
            i += 1;
        }
        proof {
            assert(hits@.take(hits@.len() as int) =~= hits@);
            assert(adjusted@ == adjusted_batch(hits@, fdv, keysv));
        }

        // merge, rank, and drop keys already returned
        let merged = merge_hits(&adjusted);
        let mut ranked = sort_hits_desc(merged);
        let ghost seen0 = self.dedup_cache.seen@;
        let ghost ranked0 = ranked@;
        self.dedup_cache.retain_new(&mut ranked);
        proof {
            lemma_retain_unique(ranked0, seen0);
            lemma_retain_sorted(ranked0, seen0);
            assert forall|p: Seq<char>, l: usize|
                #[trigger] key_in_seen(seen0, p, l) implies key_in_seen(
                self.dedup_cache.seen@,
                p,
                l,
            ) by {
                lemma_seen_after_monotone(ranked0, seen0, p, l);
            }
            assert forall|i2: int| 0 <= i2 < ranked@.len() implies key_in_seen(
                self.dedup_cache.seen@,
                (#[trigger] ranked@[i2]).path@,
                ranked@[i2].line,
            ) by {
                lemma_retain_subset(ranked0, seen0, i2);
                let x = ranked@[i2];
                let k = choose|k: int| 0 <= k < ranked0.len() && ranked0[k] == x;
                lemma_seen_after_covers(ranked0, seen0, k);
            }
            // the ranking itself witnesses the tie to the input batch
            assert(ranked0.to_multiset() == merged_spec(adjusted_batch(hits@, fdv, keysv)).to_multiset()
                && sorted_desc(ranked0) && ranked@ == retain_spec(ranked0, seen0));
        }

        // record the observation
        let symbol_owned = self.config.symbol.clone();
        self.state.observe(symbol_owned.as_str(), &ranked);

        // presentation pieces
        let take: usize = if ranked.len() < 5 {
            ranked.len()
        } else {
            5
        };
        let empty_lines: Vec<String> = Vec::new();
        let mut top_hits: Vec<TopHit> = Vec::new();
        let mut next_actions: Vec<String> = Vec::new();
        let mut t: usize = 0;
        while t < take
            invariant
                t <= take,
                take <= ranked@.len(),
                empty_lines@.len() == 0,
                top_hits@.len() == t,
                next_actions@.len() == t,
                forall|j: int|
                    0 <= j < t ==> {
                        &&& (#[trigger] top_hits@[j]).path == ranked@[j].path
                        &&& top_hits@[j].line == ranked@[j].line
                        &&& top_hits@[j].score == ranked@[j].score
                        &&& top_hits@[j].origin@ == origin_str_spec(ranked@[j].origin)
                        &&& top_hits@[j].origin_label@ == origin_label_spec(
                            ranked@[j].origin,
                            ranked@[j].path@,
                        )
                    },
                forall|j: int|
                    0 <= j < t ==> (#[trigger] next_actions@[j])@ == next_action_spec(
                        ranked@[j].path@,
                        ranked@[j].line as int,
                    ),
            decreases take - t,
        {
            let h = &ranked[t];
            let origin_s = String::from_str(h.origin.as_str());
            let label = format_origin_label(&h.origin, h.path.as_str());
            let lines = lookup_file_lines(file_lines, h.path.as_str(), &empty_lines);
            let snip = format_snippet(h.path.as_str(), h.line, h.snippet.as_str(), lines);
            top_hits.push(
                TopHit {
                    path: h.path.clone(),
                    line: h.line,
                    score: h.score,
                    origin: origin_s,
                    origin_label: label,
                    snippet: snip,
                },
            );
            next_actions.push(next_action(h.path.as_str(), h.line));
            t += 1;
        }

        // metrics over the final list
        proof {
            assert(ranked@.len() <= ranked0.len()) by {
                lemma_retain_len(ranked0, seen0);
            }
            assert(merged@.len() <= adjusted@.len()) by {
                crate::score::lemma_merged_len(adjusted@);
            }
        }
        let metrics = compute_metrics(&ranked, ast_keys.len(), fd_set.len());

        // per-language accounting of the final hits
        let mut hit_paths: Vec<String> = Vec::new();
        let mut q: usize = 0;
        while q < ranked.len()
            invariant
                q <= ranked@.len(),
            decreases ranked@.len() - q,
        {
            hit_paths.push(ranked[q].path.clone());
            q += 1;
        }
        let language_counts = crate::stats::aggregate_language_counts(&hit_paths);

        // normalized one-based AST hit list for the summary
        let mut ast_hits: Vec<(String, usize)> = Vec::new();
        let mut a: usize = 0;
        while a < ast_matches.len()
            invariant
                a <= ast_matches@.len(),
                rootg == old(self).config.root@,
                root_owned@ == rootg,
                root@ == rootg,
                ast_hits@.len() == a,
                forall|k: int|
                    0 <= k < a ==> (#[trigger] ast_hits@[k]).0@ == ast_key_of(
                        rootg,
                        ast_matches@[k],
                    ).0 && ast_hits@[k].1 == ast_key_of(rootg, ast_matches@[k]).1,
            decreases ast_matches@.len() - a,
        {
            let m = &ast_matches[a];
            let p = normalize_path(root, m.path.as_str());
            let line1 = if m.line == usize::MAX {
                usize::MAX
            } else {
                m.line + 1
            };
            ast_hits.push((p, line1));
            a += 1;
        }

        proof {
            assert(ast_matches@.take(ast_matches@.len() as int) =~= ast_matches@);
            assert(keys_view(ast_keys@).len() == ast_keys@.len());
        }
        let dedup_count = ranked.len();
        let ast_key_count = ast_keys.len();
        VerificationOutcome {
            hits: ranked,
            ast_key_count,
            top_hits,
            next_actions,
            dedup_count,
            fd_candidates,
            ast_hits,
            metrics,
            language_counts,
        }
    }
}

/// A retain pass never grows the batch.
pub proof fn lemma_retain_len(hits: Seq<SearchHit>, seen: Seq<(String, usize)>)
    ensures
        retain_spec(hits, seen).len() <= hits.len(),
    decreases hits.len(),
{
    if hits.len() > 0 {
        let h = hits[0];
        if key_in_seen(seen, h.path@, h.line) {
            lemma_retain_len(hits.drop_first(), seen);
        } else {
            lemma_retain_len(hits.drop_first(), seen.push((h.path, h.line)));
        }
    }
}

/// The distinct paths of a hit list, in first-seen order: the scope handed
/// to the structural search.
pub open spec fn distinct_paths_spec(hits: Seq<SearchHit>) -> Seq<Seq<char>>
    decreases hits.len(),
{
    if hits.len() == 0 {
        Seq::<Seq<char>>::empty()
    } else {
        let prior = distinct_paths_spec(hits.drop_last());
        if prior.contains(hits.last().path@) {
            prior
        } else {
            prior.push(hits.last().path@)
        }
    }
}

/// Collects each hit path once, keeping first-seen order.
pub fn distinct_paths(hits: &Vec<SearchHit>) -> (r: Vec<String>)
    ensures
        r.deep_view() == distinct_paths_spec(hits@),
{
    let ghost hd = hits@;
    let mut r: Vec<String> = Vec::new();
    let mut i: usize = 0;
    proof {
        assert(hd.take(0) =~= Seq::<SearchHit>::empty());
        assert(r.deep_view() =~= distinct_paths_spec(hd.take(0)));
    }
    while i < hits.len()
        invariant
            i <= hd.len(),
            hits@ == hd,
            r.deep_view() == distinct_paths_spec(hd.take(i as int)),
        decreases hd.len() - i,
    {
        proof {
            assert(hd.take(i + 1 as int).drop_last() =~= hd.take(i as int));
            assert(hd.take(i + 1 as int).last() == hd[i as int]);
        }
        let ghost pre = r.deep_view();
        let present = contains_string(&r, &hits[i].path);
        if !present {
            r.push(hits[i].path.clone());
            proof {
                assert(r.deep_view() =~= pre.push(hd[i as int].path@));
            }
        }
        i += 1;
    }
    proof {
        assert(hd.take(hd.len() as int) =~= hd);
    }
    r
}

/// Membership of a key in the AST key set.
pub fn ast_key_contains(keys: &Vec<(String, usize)>, path: &String, line: usize) -> (r: bool)
    ensures
        r == key_in_seen(keys@, path@, line),
{
    let mut i: usize = 0;
    while i < keys.len()
        invariant
            i <= keys@.len(),
            forall|j: int| 0 <= j < i ==> !(keys@[j].0@ == path@ && keys@[j].1 == line),
        decreases keys@.len() - i,
    {
        if str_eq(keys[i].0.as_str(), path.as_str()) && keys[i].1 == line {
            proof {
                assert(keys@[i as int].0@ == path@ && keys@[i as int].1 == line);
            }
            return true;
        }
        i += 1;
    }
    false
}

} // verus!
