//! The persistent hint store: a mapping from symbols to recently fruitful
//! paths and from directories to hit-frequency counters. This module holds
//! the in-memory structure and its mutation rules; reading and writing the
//! on-disk form live beside it in the state codec.

use vstd::prelude::*;
use vstd::string::*;
use crate::score::SearchHit;
use crate::text::{str_eq, str_to_chars, chars_to_string, subvec_chars};
use crate::paths::{tail_after_last, cut_after_last, path_file_name, file_name_spec};

verus! {

broadcast use vstd::seq_lib::group_to_multiset_ensures;

/// The mathematical view of the symbol table: symbol, then its hint paths.
pub open spec fn hints_view(m: Seq<(String, Vec<String>)>) -> Seq<(Seq<char>, Seq<Seq<char>>)> {
    m.map(|_i: int, p: (String, Vec<String>)| (p.0@, p.1.deep_view()))
}

/// The mathematical view of the directory table: directory, then counter.
pub open spec fn scores_view(m: Seq<(String, u32)>) -> Seq<(Seq<char>, u32)> {
    m.map(|_i: int, p: (String, u32)| (p.0@, p.1))
}

/// The index of a key in an association list, `-1` when absent.
pub open spec fn find_assoc<T>(m: Seq<(Seq<char>, T)>, k: Seq<char>) -> int
    decreases m.len(),
{
    if m.len() == 0 {
        -1
    } else if m[0].0 == k {
        0
    } else {
        let r = find_assoc(m.drop_first(), k);
        if r == -1 {
            -1
        } else {
            r + 1
        }
    }
}

pub proof fn lemma_find_assoc_semantics<T>(m: Seq<(Seq<char>, T)>, k: Seq<char>)
    ensures
        find_assoc(m, k) == -1 ==> forall|i: int| 0 <= i < m.len() ==> m[i].0 != k,
        find_assoc(m, k) != -1 ==> 0 <= find_assoc(m, k) < m.len() && m[find_assoc(m, k)].0 == k,
    decreases m.len(),
{
    if m.len() > 0 {
        lemma_find_assoc_semantics(m.drop_first(), k);
        if m[0].0 != k {
            let r = find_assoc(m.drop_first(), k);
            if r == -1 {
                assert forall|i: int| 0 <= i < m.len() implies m[i].0 != k by {
                    if i > 0 {
                        assert(m.drop_first()[i - 1] == m[i]);
                    }
                }
            } else {
                assert(m.drop_first()[r] == m[r + 1]);
            }
        }
    }
}

/// The first entry of each key, in order.
pub open spec fn dedup_keys<T>(m: Seq<(Seq<char>, T)>) -> Seq<(Seq<char>, T)>
    decreases m.len(),
{
    if m.len() == 0 {
        Seq::<(Seq<char>, T)>::empty()
    } else {
        let prior = dedup_keys(m.drop_last());
        if find_assoc(prior, m.last().0) == -1 {
            prior.push(m.last())
        } else {
            prior
        }
    }
}

/// No two entries of the association list share a key.
pub open spec fn assoc_unique<T>(m: Seq<(Seq<char>, T)>) -> bool {
    forall|i: int, j: int| 0 <= i < j < m.len() ==> m[i].0 != m[j].0
}

/// Appends each path that is not yet in the entry, in order.
pub open spec fn append_hints(entry: Seq<Seq<char>>, paths: Seq<Seq<char>>) -> Seq<Seq<char>>
    decreases paths.len(),
{
    if paths.len() == 0 {
        entry
    } else {
        let e1 = if entry.contains(paths[0]) {
            entry
        } else {
            entry.push(paths[0])
        };
        append_hints(e1, paths.drop_first())
    }
}

/// A hint list is capped at ten entries; the excess drops from the tail.
pub open spec fn cap_hints(s: Seq<Seq<char>>) -> Seq<Seq<char>> {
    if s.len() > 10 {
        s.take(10)
    } else {
        s
    }
}

/// The parent directory of a `/`-separated path; empty when the path holds
/// no separator.
pub open spec fn parent_dir_spec(p: Seq<char>) -> Seq<char> {
    let rest = tail_after_last(p, '/');
    if rest.len() == p.len() {
        Seq::<char>::empty()
    } else {
        p.take(p.len() - rest.len() - 1)
    }
}

/// One counter bump with saturation.
pub open spec fn bump_one(m: Seq<(Seq<char>, u32)>, d: Seq<char>) -> Seq<(Seq<char>, u32)> {
    if d.len() == 0 {
        m
    } else {
        let i = find_assoc(m, d);
        if i == -1 {
            m.push((d, 1u32))
        } else {
            m.update(
                i,
                (
                    d,
                    if m[i].1 == u32::MAX {
                        u32::MAX
                    } else {
                        (m[i].1 + 1) as u32
                    },
                ),
            )
        }
    }
}

/// Bumps the counter of every directory in the list, in order.
pub open spec fn bump_dirs(m: Seq<(Seq<char>, u32)>, dirs: Seq<Seq<char>>) -> Seq<
    (Seq<char>, u32),
>
    decreases dirs.len(),
{
    if dirs.len() == 0 {
        m
    } else {
        bump_dirs(bump_one(m, dirs[0]), dirs.drop_first())
    }
}

/// The paths of a hit sequence.
pub open spec fn hit_paths(hits: Seq<SearchHit>) -> Seq<Seq<char>> {
    hits.map(|_i: int, h: SearchHit| h.path@)
}

/// The parent directories of a hit sequence.
pub open spec fn hit_parent_dirs(hits: Seq<SearchHit>) -> Seq<Seq<char>> {
    hits.map(|_i: int, h: SearchHit| parent_dir_spec(h.path@))
}

/// At most the first `n` entries of a sequence.
pub open spec fn first_n<T>(s: Seq<T>, n: int) -> Seq<T> {
    if s.len() > n {
        s.take(n)
    } else {
        s
    }
}

/// The new symbol table after an observation: the symbol's entry gains the
/// first ten hit paths (without duplicates) and is capped at ten.
pub open spec fn observe_hints_spec(
    hv: Seq<(Seq<char>, Seq<Seq<char>>)>,
    sym: Seq<char>,
    hits: Seq<SearchHit>,
) -> Seq<(Seq<char>, Seq<Seq<char>>)> {
    let i = find_assoc(hv, sym);
    let old_entry: Seq<Seq<char>> = if i == -1 {
        Seq::empty()
    } else {
        hv[i].1
    };
    let new_entry = cap_hints(append_hints(old_entry, first_n(hit_paths(hits), 10)));
    if i == -1 {
        hv.push((sym, new_entry))
    } else {
        hv.update(i, (sym, new_entry))
    }
}

/// The new directory table after an observation: the parent directory of
/// each of the first twenty hits is bumped once, saturating.
pub open spec fn observe_scores_spec(
    sv: Seq<(Seq<char>, u32)>,
    hits: Seq<SearchHit>,
) -> Seq<(Seq<char>, u32)> {
    bump_dirs(sv, first_n(hit_parent_dirs(hits), 20))
}

/// The persistent hint store, keyed by symbol and by directory. Keys are
/// unique in both tables.
pub struct PersistentState {
    pub symbol_hits: Vec<(String, Vec<String>)>,
    pub directory_scores: Vec<(String, u32)>,
    pub dirty: bool,
}

impl PersistentState {
    /// Both association lists hold each key at most once.
    pub open spec fn wf(&self) -> bool {
        assoc_unique(hints_view(self.symbol_hits@)) && assoc_unique(
            scores_view(self.directory_scores@),
        )
    }

    /// A store built from externally read tables — a foreign but well-formed
    /// file the caller parsed leniently. Repeated keys keep their first
    /// entry, so the result is well formed whatever came in.
    pub fn from_tables(
        symbol_hits: Vec<(String, Vec<String>)>,
        directory_scores: Vec<(String, u32)>,
    ) -> (r: PersistentState)
        ensures
            r.wf(),
            !r.dirty,
            hints_view(r.symbol_hits@) == dedup_keys(hints_view(symbol_hits@)),
            scores_view(r.directory_scores@) == dedup_keys(scores_view(directory_scores@)),
    {
        let ghost hv = hints_view(symbol_hits@);
        let ghost sv = scores_view(directory_scores@);
        let mut hits_out: Vec<(String, Vec<String>)> = Vec::new();
        let mut i: usize = 0;
        proof {
            assert(hv.len() == symbol_hits@.len());
            assert(hv.take(0) =~= Seq::<(Seq<char>, Seq<Seq<char>>)>::empty());
            assert(hints_view(hits_out@) =~~= dedup_keys(hv.take(0)));
        }
        while i < symbol_hits.len()
            invariant
                i <= hv.len(),
                hv == hints_view(symbol_hits@),
                hv.len() == symbol_hits@.len(),
                hints_view(hits_out@) == dedup_keys(hv.take(i as int)),
                assoc_unique(hints_view(hits_out@)),
            decreases hv.len() - i,
        {
            proof {
                assert(hv.take(i + 1 as int).drop_last() =~= hv.take(i as int));
                assert(hv.take(i + 1 as int).last() == hv[i as int]);
                assert(hv[i as int].0 == symbol_hits@[i as int].0@);
                assert(hv[i as int].1 =~~= symbol_hits@[i as int].1.deep_view());
            }
            let ghost pre = hints_view(hits_out@);
            let key = symbol_hits[i].0.clone();
            let entry = crate::rewrite::clone_strings(&symbol_hits[i].1);
            let mut dup = false;
            let mut j: usize = 0;
            while j < hits_out.len()
                invariant
                    j <= hits_out@.len(),
                    pre == hints_view(hits_out@),
                    pre.len() == hits_out@.len(),
                    key@ == hv[i as int].0,
                    i < hv.len(),
                    hv == hints_view(symbol_hits@),
                    dup ==> find_assoc(pre, hv[i as int].0) != -1,
                    !dup ==> forall|a: int| 0 <= a < j ==> pre[a].0 != hv[i as int].0,
                decreases hits_out@.len() - j,
            {
                proof {
                    assert(pre[j as int].0 == hits_out@[j as int].0@);
                }
                if str_eq(hits_out[j].0.as_str(), key.as_str()) {
                    proof {
                        assert(pre[j as int].0 == hv[i as int].0);
                        lemma_find_assoc_semantics(pre, hv[i as int].0);
                        if find_assoc(pre, hv[i as int].0) == -1 {
                            assert(false);
                        }
                    }
                    dup = true;
                }
                j += 1;
            }
            if !dup {
                proof {
                    lemma_find_assoc_none(pre, hv[i as int].0);
                }
                hits_out.push((key, entry));
                proof {
                    assert(hints_view(hits_out@) =~~= pre.push(hv[i as int]));
                    assert forall|a: int, b: int|
                        0 <= a < b < hints_view(hits_out@).len() implies hints_view(
                        hits_out@,
                    )[a].0 != hints_view(hits_out@)[b].0 by {
                        let cur = hints_view(hits_out@);
                        if b == pre.len() {
                            assert(cur[a] == pre[a]);
                            assert(cur[b].0 == hv[i as int].0);
                        } else {
                            assert(cur[a] == pre[a] && cur[b] == pre[b]);
                        }
                    }
                }
            }
            i += 1;
        }
        proof {
            assert(hv.take(hv.len() as int) =~= hv);
        }
        let mut scores_out: Vec<(String, u32)> = Vec::new();
        let mut k: usize = 0;
        proof {
            assert(sv.len() == directory_scores@.len());
            assert(sv.take(0) =~= Seq::<(Seq<char>, u32)>::empty());
            assert(scores_view(scores_out@) =~= dedup_keys(sv.take(0)));
        }
        while k < directory_scores.len()
            invariant
                k <= sv.len(),
                sv == scores_view(directory_scores@),
                sv.len() == directory_scores@.len(),
                scores_view(scores_out@) == dedup_keys(sv.take(k as int)),
                assoc_unique(scores_view(scores_out@)),
            decreases sv.len() - k,
        {
            proof {
                assert(sv.take(k + 1 as int).drop_last() =~= sv.take(k as int));
                assert(sv.take(k + 1 as int).last() == sv[k as int]);
                assert(sv[k as int].0 == directory_scores@[k as int].0@);
                assert(sv[k as int].1 == directory_scores@[k as int].1);
            }
            let ghost pre = scores_view(scores_out@);
            let key = directory_scores[k].0.clone();
            let count = directory_scores[k].1;
            let mut dup = false;
            let mut j: usize = 0;
            while j < scores_out.len()
                invariant
                    j <= scores_out@.len(),
                    pre == scores_view(scores_out@),
                    pre.len() == scores_out@.len(),
                    key@ == sv[k as int].0,
                    k < sv.len(),
                    sv == scores_view(directory_scores@),
                    dup ==> find_assoc(pre, sv[k as int].0) != -1,
                    !dup ==> forall|a: int| 0 <= a < j ==> pre[a].0 != sv[k as int].0,
                decreases scores_out@.len() - j,
            {
                proof {
                    assert(pre[j as int].0 == scores_out@[j as int].0@);
                }
                if str_eq(scores_out[j].0.as_str(), key.as_str()) {
                    proof {
                        assert(pre[j as int].0 == sv[k as int].0);
                        lemma_find_assoc_semantics(pre, sv[k as int].0);
                        if find_assoc(pre, sv[k as int].0) == -1 {
                            assert(false);
                        }
                    }
                    dup = true;
                }
                j += 1;
            }
            if !dup {
                proof {
                    lemma_find_assoc_none(pre, sv[k as int].0);
                }
                scores_out.push((key, count));
                proof {
                    assert(scores_view(scores_out@) =~= pre.push(sv[k as int]));
                    assert forall|a: int, b: int|
                        0 <= a < b < scores_view(scores_out@).len() implies scores_view(
                        scores_out@,
                    )[a].0 != scores_view(scores_out@)[b].0 by {
                        let cur = scores_view(scores_out@);
                        if b == pre.len() {
                            assert(cur[a] == pre[a]);
                            assert(cur[b].0 == sv[k as int].0);
                        } else {
                            assert(cur[a] == pre[a] && cur[b] == pre[b]);
                        }
                    }
                }
            }
            k += 1;
        }
        proof {
            assert(sv.take(sv.len() as int) =~= sv);
        }
        PersistentState { symbol_hits: hits_out, directory_scores: scores_out, dirty: false }
    }

    /// An empty store.
    pub fn new() -> (r: Self)
        ensures
            r.wf(),
            hints_view(r.symbol_hits@) =~= Seq::<(Seq<char>, Seq<Seq<char>>)>::empty(),
            scores_view(r.directory_scores@) =~= Seq::<(Seq<char>, u32)>::empty(),
            !r.dirty,
    {
        PersistentState { symbol_hits: Vec::new(), directory_scores: Vec::new(), dirty: false }
    }

    /// The stored hints for a symbol whose file name is not hidden (does not
    /// begin with a dot). Whether each path still exists on disk is for the
    /// caller to check.
    pub fn hints_for_symbol(&self, symbol: &str) -> (r: Vec<String>)
        ensures
            r.deep_view() == visible_hints(
                {
                    let i = find_assoc(hints_view(self.symbol_hits@), symbol@);
                    if i == -1 {
                        Seq::<Seq<char>>::empty()
                    } else {
                        hints_view(self.symbol_hits@)[i].1
                    }
                },
            ),
    {
        let ghost hv = hints_view(self.symbol_hits@);
        let idx = find_sym_exec(&self.symbol_hits, symbol);
        let entry: &Vec<String> = match idx {
            Option::Some(i) => &self.symbol_hits[i].1,
            Option::None => {
                let r: Vec<String> = Vec::new();
                proof {
                    assert(visible_hints(Seq::<Seq<char>>::empty()) =~= Seq::<Seq<char>>::empty());
                    assert(r.deep_view() =~= Seq::<Seq<char>>::empty());
                }
                return r;
            },
        };
        let ghost ed = entry.deep_view();
        proof {
            assert(hv[find_assoc(hv, symbol@)].1 == ed);
        }
        let mut r: Vec<String> = Vec::new();
        let mut i: usize = 0;
        proof {
            assert(ed.take(0) =~= Seq::<Seq<char>>::empty());
            assert(r.deep_view() =~= visible_hints(ed.take(0)));
        }
        while i < entry.len()
            invariant
                i <= ed.len(),
                ed == entry.deep_view(),
                ed.len() == entry@.len(),
                r.deep_view() == visible_hints(ed.take(i as int)),
            decreases ed.len() - i,
        {
            let ghost pre = r.deep_view();
            proof {
                assert(ed[i as int] == entry@[i as int]@);
            }
            let pv = str_to_chars(entry[i].as_str());
            let name = path_file_name(&pv);
            let hidden = name.len() > 0 && name[0] == '.';
            if !hidden {
                r.push(entry[i].clone());
                proof {
                    assert(r.deep_view() =~= pre.push(ed[i as int]));
                }
            }
            proof {
                let t = ed.take(i + 1 as int);
                assert(t.drop_last() =~= ed.take(i as int));
                assert(t.last() == ed[i as int]);
                assert(hidden == is_hidden_path(ed[i as int]));
                if !hidden {
                    assert(r.deep_view() =~= pre + seq![ed[i as int]]);
                } else {
                    assert(r.deep_view() =~= pre + Seq::<Seq<char>>::empty());
                }
            }
            i += 1;
        }
        proof {
            assert(ed.take(ed.len() as int) =~= ed);
        }
        r
    }

    /// The existing directories with the highest counters, best first, at
    /// most `limit` of them; ties may fall either way. `existing` lists the
    /// directories the caller found on disk — only entries among them are
    /// considered, so `limit` existing candidates yield `limit` results.
    pub fn top_directories(&self, limit: usize, existing: &Vec<String>) -> (r: Vec<String>)
        ensures
            exists|s: Seq<(Seq<char>, u32)>|
                {
                    &&& #[trigger] sorted_desc_pairs(s)
                    &&& s.to_multiset() == existing_entries(
                        scores_view(self.directory_scores@),
                        existing.deep_view(),
                    ).to_multiset()
                    &&& r.deep_view() == first_n(s, limit as int).map(
                        |_i: int, p: (Seq<char>, u32)| p.0,
                    )
                },
    {
        let ghost sv = scores_view(self.directory_scores@);
        let ghost exd = existing.deep_view();
        let mut pool: Vec<(String, u32)> = Vec::new();
        let mut f: usize = 0;
        proof {
            assert(sv.len() == self.directory_scores@.len());
            assert(sv.take(0) =~= Seq::<(Seq<char>, u32)>::empty());
            assert(scores_view(pool@) =~= existing_entries(sv.take(0), exd));
        }
        while f < self.directory_scores.len()
            invariant
                f <= self.directory_scores@.len(),
                sv == scores_view(self.directory_scores@),
                sv.len() == self.directory_scores@.len(),
                exd == existing.deep_view(),
                scores_view(pool@) == existing_entries(sv.take(f as int), exd),
            decreases self.directory_scores@.len() - f,
        {
            proof {
                assert(sv.take(f + 1 as int).drop_last() =~= sv.take(f as int));
                assert(sv.take(f + 1 as int).last() == sv[f as int]);
                assert(sv[f as int].0 == self.directory_scores@[f as int].0@);
            }
            let ghost pre_pool = scores_view(pool@);
            let known = crate::rewrite::contains_string(existing, &self.directory_scores[f].0);
            if known {
                pool.push((self.directory_scores[f].0.clone(), self.directory_scores[f].1));
                proof {
                    assert(scores_view(pool@) =~= pre_pool.push(sv[f as int]));
                    assert(scores_view(pool@) =~= pre_pool + seq![sv[f as int]]);
                }
            } else {
                proof {
                    assert(scores_view(pool@) =~= pre_pool + Seq::<(Seq<char>, u32)>::empty());
                }
            }
            f += 1;
        }
        proof {
            assert(sv.take(sv.len() as int) =~= sv);
        }
        let ghost orig = scores_view(pool@);
        let mut sorted: Vec<(String, u32)> = Vec::new();
        let mut i: usize = 0;
        proof {
            assert(orig.len() == pool@.len());
            assert(orig.take(0) =~= Seq::<(Seq<char>, u32)>::empty());
            assert(scores_view(sorted@) =~= Seq::<(Seq<char>, u32)>::empty());
            assert(scores_view(sorted@).to_multiset() =~= orig.take(0).to_multiset());
        }
        while i < pool.len()
            invariant
                i <= pool@.len(),
                orig == scores_view(pool@),
                orig.len() == pool@.len(),
                scores_view(sorted@).to_multiset() == orig.take(i as int).to_multiset(),
                sorted_desc_pairs(scores_view(sorted@)),
                sorted@.len() == i,
            decreases pool@.len() - i,
        {
            let item = (pool[i].0.clone(), pool[i].1);
            proof {
                assert((item.0@, item.1) == orig[i as int]);
            }
            let ghost pre = scores_view(sorted@);
            let mut pos: usize = 0;
            while pos < sorted.len() && sorted[pos].1 >= item.1
                invariant
                    pos <= sorted@.len(),
                    pre == scores_view(sorted@),
                    pre.len() == sorted@.len(),
                    forall|j: int| 0 <= j < pos ==> pre[j].1 >= item.1,
                decreases sorted@.len() - pos,
            {
                proof {
                    assert(pre[pos as int].1 == sorted@[pos as int].1);
                }
                pos += 1;
            }
            proof {
                if pos < sorted@.len() {
                    assert(pre[pos as int].1 == sorted@[pos as int].1);
                    assert(pre[pos as int].1 < item.1);
                }
            }
            sorted.insert(pos, item);
            proof {
                let cur = scores_view(sorted@);
                assert(cur =~= pre.insert(pos as int, orig[i as int]));
                assert(cur =~= pre.take(pos as int) + seq![orig[i as int]] + pre.skip(pos as int));
                vstd::seq_lib::lemma_multiset_commutative(pre.take(pos as int), seq![orig[i as int]]);
                vstd::seq_lib::lemma_multiset_commutative(
                    pre.take(pos as int) + seq![orig[i as int]],
                    pre.skip(pos as int),
                );
                vstd::seq_lib::lemma_multiset_commutative(pre.take(pos as int), pre.skip(pos as int));
                assert(pre.take(pos as int) + pre.skip(pos as int) =~= pre);
                assert(seq![orig[i as int]] =~= Seq::<(Seq<char>, u32)>::empty().push(
                    orig[i as int],
                ));
                assert(cur.to_multiset() =~= pre.to_multiset().insert(orig[i as int]));
                assert(orig.take(i + 1 as int) =~= orig.take(i as int).push(orig[i as int]));
                assert(orig.take(i + 1 as int).to_multiset() =~= orig.take(
                    i as int,
                ).to_multiset().insert(orig[i as int]));
                assert forall|a: int, b: int| 0 <= a < b < cur.len() implies cur[a].1
                    >= cur[b].1 by {
                    if a < pos && b == pos {
                    } else if a == pos && b > pos {
                        assert(cur[b] == pre[b - 1]);
                        assert(pre[pos as int].1 < orig[i as int].1);
                        assert(pre[b - 1].1 <= pre[pos as int].1);
                    } else if a < pos && b > pos {
                        assert(cur[a] == pre[a] && cur[b] == pre[b - 1]);
                    } else if a > pos && b > pos {
                        assert(cur[a] == pre[a - 1] && cur[b] == pre[b - 1]);
                    } else {
                        assert(cur[a] == pre[a] && cur[b] == pre[b]);
                    }
                }
            }
            i += 1;
        }
        proof {
            assert(orig.take(orig.len() as int) =~= orig);
        }
        let n: usize = if limit < sorted.len() {
            limit
        } else {
            sorted.len()
        };
        let ghost s = scores_view(sorted@);
        let mut r: Vec<String> = Vec::new();
        let mut t: usize = 0;
        proof {
            assert(first_n(s, limit as int).len() == n);
        }
        while t < n
            invariant
                t <= n,
                s == scores_view(sorted@),
                s.len() == sorted@.len(),
                n <= sorted@.len(),
                first_n(s, limit as int).len() == n,
                r.deep_view() == first_n(s, limit as int).map(
                    |_i: int, p: (Seq<char>, u32)| p.0,
                ).take(t as int),
            decreases n - t,
        {
            let ghost pre = r.deep_view();
            r.push(sorted[t].0.clone());
            proof {
                let mapped = first_n(s, limit as int).map(|_i: int, p: (Seq<char>, u32)| p.0);
                assert(s[t as int].0 == sorted@[t as int].0@);
                assert(mapped[t as int] == s[t as int].0);
                assert(r.deep_view() =~= pre.push(s[t as int].0));
                assert(mapped.take(t + 1 as int) =~= mapped.take(t as int).push(mapped[t as int]));
            }
            t += 1;
        }
        proof {
            let mapped = first_n(s, limit as int).map(|_i: int, p: (Seq<char>, u32)| p.0);
            assert(mapped.take(n as int) =~= mapped);
            assert(sorted_desc_pairs(s) && s.to_multiset() == orig.to_multiset()
                && r.deep_view() == mapped);
        }
        r
    }

    /// Records an observation: a no-op for an empty hit list; otherwise the
    /// symbol's hint list and the directory counters absorb the hits and the
    /// store becomes dirty.
    pub fn observe(&mut self, symbol: &str, hits: &Vec<SearchHit>)
        requires
            old(self).wf(),
        ensures
            final(self).wf(),
            hits@.len() == 0 ==> *final(self) == *old(self),
            hits@.len() > 0 ==> {
                &&& hints_view(final(self).symbol_hits@) == observe_hints_spec(
                    hints_view(old(self).symbol_hits@),
                    symbol@,
                    hits@,
                )
                &&& scores_view(final(self).directory_scores@) == observe_scores_spec(
                    scores_view(old(self).directory_scores@),
                    hits@,
                )
                &&& final(self).dirty
            },
    {
        if hits.len() == 0 {
            return ;
        }
        let ghost hv0 = hints_view(self.symbol_hits@);
        let ghost sv0 = scores_view(self.directory_scores@);

        // gather the first ten paths
        let cap_paths: usize = if hits.len() > 10 {
            10
        } else {
            hits.len()
        };
        let mut entry: Vec<String> = Vec::new();
        let idx = find_sym_exec(&self.symbol_hits, symbol);
        let ghost old_entry: Seq<Seq<char>> = match idx {
            Option::Some(i) => hv0[i as int].1,
            Option::None => Seq::empty(),
        };
        match idx {
            Option::Some(i) => {
                entry = clone_string_vec(&self.symbol_hits[i].1);
                proof {
                    assert(hv0[i as int].1 == self.symbol_hits@[i as int].1.deep_view());
                    assert(entry.deep_view() =~~= old_entry);
                }
            },
            Option::None => {
                proof {
                    assert(entry.deep_view() =~= old_entry);
                }
            },
        }
        let ghost p10 = first_n(hit_paths(hits@), 10);
        let mut k: usize = 0;
        proof {
            assert(p10.len() == cap_paths);
            assert(p10.skip(0) =~= p10);
            assert(append_hints(entry.deep_view(), p10) == append_hints(old_entry, p10));
        }
        while k < cap_paths
            invariant
                k <= cap_paths,
                cap_paths <= hits@.len(),
                p10 == first_n(hit_paths(hits@), 10),
                p10.len() == cap_paths,
                append_hints(entry.deep_view(), p10.skip(k as int)) == append_hints(
                    old_entry,
                    p10,
                ),
            decreases cap_paths - k,
        {
            proof {
                let u = p10.skip(k as int);
                assert(u[0] == p10[k as int]);
                assert(u.drop_first() =~= p10.skip(k + 1 as int));
                assert(p10[k as int] == hits@[k as int].path@);
            }
            let ghost epre = entry.deep_view();
            let present = crate::rewrite::contains_string(&entry, &hits[k].path);
            if !present {
                entry.push(hits[k].path.clone());
                proof {
                    assert(entry.deep_view() =~~= epre.push(hits@[k as int].path@));
                }
            }
            proof {
                assert(epre.contains(p10[k as int]) == present);
            }
            k += 1;
        }
        proof {
            assert(p10.skip(cap_paths as int) =~= Seq::<Seq<char>>::empty());
        }
        // cap at ten entries
        let capped: Vec<String> = if entry.len() > 10 {
            let mut c: Vec<String> = Vec::new();
            let mut t: usize = 0;
            while t < 10
                invariant
                    t <= 10,
                    entry@.len() > 10,
                    c.deep_view() =~= entry.deep_view().take(t as int),
                decreases 10 - t,
            {
                let ghost cpre = c.deep_view();
                c.push(entry[t].clone());
                proof {
                    assert(c.deep_view() =~~= cpre.push(entry.deep_view()[t as int]));
                    assert(entry.deep_view().take(t + 1 as int) =~= entry.deep_view().take(
                        t as int,
                    ).push(entry.deep_view()[t as int]));
                }
                t += 1;
            }
            proof {
                assert(entry.deep_view().len() == entry@.len());
            }
            c
        } else {
            proof {
                assert(entry.deep_view().len() == entry@.len());
            }
            entry
        };
        proof {
            assert(capped.deep_view() == cap_hints(append_hints(old_entry, p10)));
        }
        // write the entry back
        let sym_string = String::from_str(symbol);
        match idx {
            Option::Some(i) => {
                let ghost m0 = self.symbol_hits@;
                self.symbol_hits[i] = (sym_string, capped);
                proof {
                    lemma_find_assoc_semantics(hv0, symbol@);
                    assert(hints_view(self.symbol_hits@) =~= hv0.update(
                        i as int,
                        (symbol@, cap_hints(append_hints(old_entry, p10))),
                    ));
                    assert(hv0[i as int].0 == symbol@);
                }
            },
            Option::None => {
                let ghost m0 = self.symbol_hits@;
                self.symbol_hits.push((sym_string, capped));
                proof {
                    assert(hints_view(self.symbol_hits@) =~= hv0.push(
                        (symbol@, cap_hints(append_hints(old_entry, p10))),
                    ));
                }
            },
        }
        proof {
            assert(hints_view(self.symbol_hits@) == observe_hints_spec(hv0, symbol@, hits@));
            lemma_observe_hints_unique(hv0, symbol@, hits@);
        }

        // bump the directory counters for the first twenty hits
        let cap_dirs: usize = if hits.len() > 20 {
            20
        } else {
            hits.len()
        };
        let ghost d20 = first_n(hit_parent_dirs(hits@), 20);
        let mut k2: usize = 0;
        proof {
            assert(d20.len() == cap_dirs);
            assert(d20.skip(0) =~= d20);
            assert(bump_dirs(scores_view(self.directory_scores@), d20) == bump_dirs(sv0, d20));
        }
        while k2 < cap_dirs
            invariant
                k2 <= cap_dirs,
                cap_dirs <= hits@.len(),
                d20 == first_n(hit_parent_dirs(hits@), 20),
                d20.len() == cap_dirs,
                hits@.len() > 0,
                hv0 == hints_view(old(self).symbol_hits@),
                sv0 == scores_view(old(self).directory_scores@),
                hints_view(self.symbol_hits@) == observe_hints_spec(hv0, symbol@, hits@),
                assoc_unique(hints_view(self.symbol_hits@)),
                assoc_unique(scores_view(self.directory_scores@)),
                bump_dirs(scores_view(self.directory_scores@), d20.skip(k2 as int)) == bump_dirs(
                    sv0,
                    d20,
                ),
            decreases cap_dirs - k2,
        {
            proof {
                let u = d20.skip(k2 as int);
                assert(u[0] == d20[k2 as int]);
                assert(u.drop_first() =~= d20.skip(k2 + 1 as int));
                assert(d20[k2 as int] == parent_dir_spec(hits@[k2 as int].path@));
            }
            let pv = str_to_chars(hits[k2].path.as_str());
            let cut = cut_after_last(&pv, '/');
            if cut > 0 {
                let dir = subvec_chars(&pv, 0, cut - 1);
                proof {
                    assert(dir@ =~= parent_dir_spec(hits@[k2 as int].path@));
                }
                let dir_s = chars_to_string(&dir);
                if dir.len() > 0 {
                    bump_dir_exec(&mut self.directory_scores, dir_s);
                } else {
                    proof {
                        assert(bump_one(
                            scores_view(self.directory_scores@),
                            d20[k2 as int],
                        ) == scores_view(self.directory_scores@));
                    }
                }
            } else {
                proof {
                    assert(tail_after_last(pv@, '/').len() == pv@.len());
                    assert(parent_dir_spec(hits@[k2 as int].path@).len() == 0);
                    assert(bump_one(scores_view(self.directory_scores@), d20[k2 as int])
                        == scores_view(self.directory_scores@));
                }
            }
            k2 += 1;
        }
        proof {
            assert(d20.skip(cap_dirs as int) =~= Seq::<Seq<char>>::empty());
        }

        self.dirty = true;
    }
}

/// The directory entries whose key the caller listed as existing, in
/// table order.
pub open spec fn existing_entries(sv: Seq<(Seq<char>, u32)>, ex: Seq<Seq<char>>) -> Seq<
    (Seq<char>, u32),
>
    decreases sv.len(),
{
    if sv.len() == 0 {
        Seq::<(Seq<char>, u32)>::empty()
    } else {
        existing_entries(sv.drop_last(), ex) + (if ex.contains(sv.last().0) {
            seq![sv.last()]
        } else {
            Seq::<(Seq<char>, u32)>::empty()
        })
    }
}

/// Counters are in descending order.
pub open spec fn sorted_desc_pairs(s: Seq<(Seq<char>, u32)>) -> bool {
    forall|i: int, j: int| 0 <= i < j < s.len() ==> s[i].1 >= s[j].1
}

/// A path whose file name begins with a dot.
pub open spec fn is_hidden_path(p: Seq<char>) -> bool {
    file_name_spec(p).len() > 0 && file_name_spec(p)[0] == '.'
}

/// The hint paths that are not hidden, in order.
pub open spec fn visible_hints(paths: Seq<Seq<char>>) -> Seq<Seq<char>>
    decreases paths.len(),
{
    if paths.len() == 0 {
        Seq::<Seq<char>>::empty()
    } else {
        visible_hints(paths.drop_last()) + (
        if is_hidden_path(paths.last()) {
            Seq::<Seq<char>>::empty()
        } else {
            seq![paths.last()]
        })
    }
}

/// Finds a symbol's entry in the table.
fn find_sym_exec(m: &Vec<(String, Vec<String>)>, sym: &str) -> (r: Option<usize>)
    ensures
        match r {
            Option::Some(i) => i < m@.len() && find_assoc(hints_view(m@), sym@) == i as int,
            Option::None => find_assoc(hints_view(m@), sym@) == -1,
        },
{
    let ghost hv = hints_view(m@);
    let mut i: usize = 0;
    proof {
        assert(hv.len() == m@.len());
    }
    while i < m.len()
        invariant
            i <= m@.len(),
            hv == hints_view(m@),
            hv.len() == m@.len(),
            forall|j: int| 0 <= j < i ==> hv[j].0 != sym@,
        decreases m@.len() - i,
    {
        if str_eq(m[i].0.as_str(), sym) {
            proof {
                assert(hv[i as int].0 == sym@);
                lemma_find_assoc_first(hv, sym@, i as int);
            }
            return Option::Some(i);
        }
        proof {
            assert(hv[i as int].0 == m@[i as int].0@);
        }
        i += 1;
    }
    proof {
        lemma_find_assoc_none(hv, sym@);
    }
    Option::None
}

proof fn lemma_find_assoc_first<T>(m: Seq<(Seq<char>, T)>, k: Seq<char>, i: int)
    requires
        0 <= i < m.len(),
        forall|j: int| 0 <= j < i ==> m[j].0 != k,
        m[i].0 == k,
    ensures
        find_assoc(m, k) == i,
    decreases m.len(),
{
    if i > 0 {
        assert forall|j: int| 0 <= j < i - 1 implies m.drop_first()[j].0 != k by {
            assert(m.drop_first()[j] == m[j + 1]);
        }
        assert(m.drop_first()[i - 1] == m[i]);
        lemma_find_assoc_first(m.drop_first(), k, i - 1);
    }
}

proof fn lemma_find_assoc_none<T>(m: Seq<(Seq<char>, T)>, k: Seq<char>)
    requires
        forall|j: int| 0 <= j < m.len() ==> m[j].0 != k,
    ensures
        find_assoc(m, k) == -1,
    decreases m.len(),
{
    if m.len() > 0 {
        assert forall|j: int| 0 <= j < m.drop_first().len() implies m.drop_first()[j].0 != k by {
            assert(m.drop_first()[j] == m[j + 1]);
        }
        lemma_find_assoc_none(m.drop_first(), k);
    }
}

/// Clones a vector of strings, preserving its view.
fn clone_string_vec(v: &Vec<String>) -> (r: Vec<String>)
    ensures
        r@ == v@,
{
    crate::rewrite::clone_strings(v)
}

/// The observation keeps the symbol table's keys unique.
proof fn lemma_observe_hints_unique(
    hv: Seq<(Seq<char>, Seq<Seq<char>>)>,
    sym: Seq<char>,
    hits: Seq<SearchHit>,
)
    requires
        assoc_unique(hv),
    ensures
        assoc_unique(observe_hints_spec(hv, sym, hits)),
{
    let i = find_assoc(hv, sym);
    lemma_find_assoc_semantics(hv, sym);
    let out = observe_hints_spec(hv, sym, hits);
    if i == -1 {
        assert forall|a: int, b: int| 0 <= a < b < out.len() implies out[a].0 != out[b].0 by {
            if b < hv.len() {
                assert(out[a] == hv[a] && out[b] == hv[b]);
            } else {
                assert(out[a] == hv[a]);
                assert(out[b].0 == sym);
            }
        }
    } else {
        assert forall|a: int, b: int| 0 <= a < b < out.len() implies out[a].0 != out[b].0 by {
            assert(hv[a].0 != hv[b].0);
            if a == i {
                assert(out[a].0 == sym && out[b] == hv[b]);
                assert(hv[i].0 == sym);
            } else if b == i {
                assert(out[b].0 == sym && out[a] == hv[a]);
                assert(hv[i].0 == sym);
            } else {
                assert(out[a] == hv[a] && out[b] == hv[b]);
            }
        }
    }
}

/// Bumps one directory counter, saturating, inserting a fresh counter of one
/// for a new directory.
fn bump_dir_exec(m: &mut Vec<(String, u32)>, dir: String)
    requires
        assoc_unique(scores_view(old(m)@)),
        dir@.len() > 0,
    ensures
        scores_view(final(m)@) == bump_one(scores_view(old(m)@), dir@),
        assoc_unique(scores_view(final(m)@)),
{
    let ghost sv = scores_view(m@);
    proof {
        assert(sv.len() == m@.len());
    }
    let mut i: usize = 0;
    while i < m.len()
        invariant
            i <= m@.len(),
            sv == scores_view(m@),
            sv == scores_view(old(m)@),
            sv.len() == m@.len(),
            assoc_unique(sv),
            dir@.len() > 0,
            forall|j: int| 0 <= j < i ==> sv[j].0 != dir@,
        decreases m@.len() - i,
    {
        if str_eq(m[i].0.as_str(), dir.as_str()) {
            proof {
                assert(sv[i as int].0 == dir@);
                lemma_find_assoc_first(sv, dir@, i as int);
            }
            let old_count = m[i].1;
            let new_count = if old_count == u32::MAX {
                u32::MAX
            } else {
                old_count + 1
            };
            let ghost m0 = m@;
            m[i] = (dir, new_count);
            proof {
                assert(sv[i as int].1 == old_count);
                assert(scores_view(m@) =~= bump_one(sv, dir@));
                let out = scores_view(m@);
                assert forall|a: int, b: int| 0 <= a < b < out.len() implies out[a].0
                    != out[b].0 by {
                    assert(sv[a].0 != sv[b].0);
                }
            }
            return ;
        }
        proof {
            assert(sv[i as int].0 == m@[i as int].0@);
        }
        i += 1;
    }
    proof {
        lemma_find_assoc_none(sv, dir@);
    }
    let ghost m0 = m@;
    m.push((dir, 1));
    proof {
        assert(scores_view(m@) =~= bump_one(sv, dir@));
        let out = scores_view(m@);
        assert forall|a: int, b: int| 0 <= a < b < out.len() implies out[a].0 != out[b].0 by {
            if b < sv.len() {
                assert(out[a] == sv[a] && out[b] == sv[b]);
            } else {
                assert(out[a] == sv[a]);
                assert(out[b].0 == dir@);
                assert(sv.contains(sv[a]));
            }
        }
    }
}

} // verus!
