//! Benchmark scenarios: their shape, the arguments they resolve to, and
//! the check that a summary meets a scenario's expectation. Running the
//! scenarios — timing, reading scenario files — happens outside the
//! library.

use vstd::prelude::*;
use vstd::string::*;
use crate::engine::SearchSummary;
use crate::paths::path_suffix_spec;
use crate::request::{BenchArgs, SearchArgs};

verus! {

/// Where a scenario expects its symbol to surface.
pub struct Expectation {
    pub path: String,
    pub line: Option<usize>,
    pub top_n: Option<usize>,
}

/// One benchmark scenario.
pub struct Scenario {
    pub name: String,
    pub path: String,
    pub symbol: String,
    pub language: Option<String>,
    pub expected: Option<Expectation>,
    pub enable_index: Option<bool>,
    pub enable_rga: Option<bool>,
    pub cache_dir: Option<String>,
    pub log_dir: Option<String>,
    pub index_dir: Option<String>,
    pub concurrency: Option<usize>,
    pub timeout_secs: Option<u64>,
    pub max_matches: Option<usize>,
}

/// Clones an optional string.
fn clone_opt(o: &Option<String>) -> (r: Option<String>)
    ensures
        r == *o,
{
    match o {
        Option::Some(s) => Option::Some(s.clone()),
        Option::None => Option::None,
    }
}

/// Resolves the search arguments for one scenario run: scenario settings
/// win over the benchmark-wide ones, with the usual defaults.
pub fn build_search_args(repo_root: &str, scenario: &Scenario, bench: &BenchArgs) -> (r:
    SearchArgs)
    ensures
        r.symbol == scenario.symbol,
        r.path matches Option::Some(p) && p@ == repo_root@,
        r.language == scenario.language,
        r.timeout_secs == (match scenario.timeout_secs {
            Option::Some(t) => t,
            Option::None => 3u64,
        }),
        r.max_matches == (match scenario.max_matches {
            Option::Some(m) => m,
            Option::None => 20usize,
        }),
        r.concurrency == (match scenario.concurrency {
            Option::Some(c) => c,
            Option::None => 8usize,
        }),
        r.enable_index == (match scenario.enable_index {
            Option::Some(b) => b,
            Option::None => bench.enable_index,
        }),
        r.enable_rga == (match scenario.enable_rga {
            Option::Some(b) => b,
            Option::None => bench.enable_rga,
        }),
        scenario.index_dir is Some ==> r.index_dir == scenario.index_dir,
        scenario.index_dir is None && bench.cache_dir is Some ==> (r.index_dir matches Option::Some(
            d,
        ) && d@ == bench.cache_dir->Some_0@ + "/"@ + "index"@),
        scenario.index_dir is None && bench.cache_dir is None ==> (r.index_dir matches Option::Some(
            d,
        ) && d@ == repo_root@ + "/"@ + ".swe-grep-index"@),
        r.cache_dir == (match scenario.cache_dir {
            Option::Some(_) => scenario.cache_dir,
            Option::None => bench.cache_dir,
        }),
        r.log_dir == (match scenario.log_dir {
            Option::Some(_) => scenario.log_dir,
            Option::None => bench.log_dir,
        }),
        r.use_fd && r.use_ast_grep && !r.body,
        r.context_before == 0 && r.context_after == 0,
{
    let index_dir: Option<String> = match &scenario.index_dir {
        Option::Some(d) => Option::Some(d.clone()),
        Option::None => {
            match &bench.cache_dir {
                Option::Some(c) => Option::Some(
                    String::from_str(c.as_str()).concat("/").concat("index"),
                ),
                Option::None => Option::Some(
                    String::from_str(repo_root).concat("/").concat(".swe-grep-index"),
                ),
            }
        },
    };
    SearchArgs {
        symbol: scenario.symbol.clone(),
        path: Option::Some(String::from_str(repo_root)),
        language: clone_opt(&scenario.language),
        timeout_secs: match scenario.timeout_secs {
            Option::Some(t) => t,
            Option::None => 3,
        },
        max_matches: match scenario.max_matches {
            Option::Some(m) => m,
            Option::None => 20,
        },
        concurrency: match scenario.concurrency {
            Option::Some(c) => c,
            Option::None => 8,
        },
        context_before: 0,
        context_after: 0,
        body: false,
        enable_index: match scenario.enable_index {
            Option::Some(b) => b,
            Option::None => bench.enable_index,
        },
        index_dir,
        enable_rga: match scenario.enable_rga {
            Option::Some(b) => b,
            Option::None => bench.enable_rga,
        },
        cache_dir: match &scenario.cache_dir {
            Option::Some(_) => clone_opt(&scenario.cache_dir),
            Option::None => clone_opt(&bench.cache_dir),
        },
        log_dir: match &scenario.log_dir {
            Option::Some(_) => clone_opt(&scenario.log_dir),
            Option::None => clone_opt(&bench.log_dir),
        },
        use_fd: true,
        use_ast_grep: true,
    }
}

/// A top hit meets the expectation when its path equals or ends with the
/// expected path and, when a line is expected, the lines agree.
pub open spec fn hit_meets(hit_path: Seq<char>, hit_line: usize, e: Expectation) -> bool {
    (hit_path == e.path@ || path_suffix_spec(hit_path, e.path@)) && (match e.line {
        Option::Some(l) => l == hit_line,
        Option::None => true,
    })
}

/// Whether a summary meets the scenario's expectation: some hit among the
/// first `top_n` (one by default) matches; with no expectation, any hit at
/// all counts.
pub fn matches_expectation(summary: &SearchSummary, scenario: &Scenario) -> (r: bool)
    ensures
        match scenario.expected {
            Option::None => r == (summary.top_hits@.len() > 0),
            Option::Some(e) => {
                let n = (match e.top_n {
                    Option::Some(n) => n as int,
                    Option::None => 1,
                });
                let lim = if n < summary.top_hits@.len() {
                    n
                } else {
                    summary.top_hits@.len() as int
                };
                r == exists|i: int|
                    0 <= i < lim && hit_meets(
                        (#[trigger] summary.top_hits@[i]).path@,
                        summary.top_hits@[i].line,
                        e,
                    )
            },
        },
{
    let e = match &scenario.expected {
        Option::None => {
            return summary.top_hits.len() > 0;
        },
        Option::Some(e) => e,
    };
    let n: usize = match e.top_n {
        Option::Some(n) => n,
        Option::None => 1,
    };
    let lim: usize = if n < summary.top_hits.len() {
        n
    } else {
        summary.top_hits.len()
    };
    let mut i: usize = 0;
    while i < lim
        invariant
            i <= lim,
            lim <= summary.top_hits@.len(),
            scenario.expected matches Option::Some(ee) && ee == *e,
            n as int == (match e.top_n {
                Option::Some(nn) => nn as int,
                Option::None => 1,
            }),
            lim as int == (if (n as int) < summary.top_hits@.len() {
                n as int
            } else {
                summary.top_hits@.len() as int
            }),
            forall|j: int|
                0 <= j < i ==> !hit_meets(
                    (#[trigger] summary.top_hits@[j]).path@,
                    summary.top_hits@[j].line,
                    *e,
                ),
        decreases lim - i,
    {
        let hit = &summary.top_hits[i];
        let pm = crate::paths::path_matches(hit.path.as_str(), e.path.as_str());
        let lm = match e.line {
            Option::Some(l) => l == hit.line,
            Option::None => true,
        };
        if pm && lm {
            proof {
                assert(hit_meets(summary.top_hits@[i as int].path@, summary.top_hits@[i as int].line, *e));
            }
            return true;
        }
        i += 1;
    }
    false
}

} // verus!
