//! Hit scoring, merging, cross-cycle deduplication and retrieval metrics.
//!
//! Scores and metrics are fixed-point values in hundredths: a score of `100`
//! stands for 1.00. This keeps every quantity exact and lets the rounding to
//! two decimals that reporting asks for be the representation itself.

use vstd::prelude::*;
use vstd::string::*;
use vstd::seq_lib::*;
use vstd::multiset::Multiset;
use crate::text::str_eq;

verus! {

broadcast use vstd::seq_lib::group_to_multiset_ensures;

/// Which ripgrep pass produced a hit.
#[derive(Clone, Copy, PartialEq, Eq, Structural, Debug)]
pub enum ProbeKind {
    Scoped,
    Global,
    Indexed,
}

/// The immediate source of a hit.
#[derive(Clone, Copy, PartialEq, Eq, Structural, Debug)]
pub enum HitOrigin {
    Ripgrep(ProbeKind),
    AstGrep,
    Rga,
}

/// The label reported for each origin.
pub open spec fn origin_str_spec(o: HitOrigin) -> Seq<char> {
    match o {
        HitOrigin::Ripgrep(ProbeKind::Scoped) => "rg-scoped"@,
        HitOrigin::Ripgrep(ProbeKind::Global) => "rg-global"@,
        HitOrigin::Ripgrep(ProbeKind::Indexed) => "rg-indexed"@,
        HitOrigin::AstGrep => "ast-grep"@,
        HitOrigin::Rga => "rga"@,
    }
}

impl HitOrigin {
    pub fn as_str(&self) -> (r: &'static str)
        ensures
            r@ == origin_str_spec(*self),
    {
        match self {
            HitOrigin::Ripgrep(ProbeKind::Scoped) => "rg-scoped",
            HitOrigin::Ripgrep(ProbeKind::Global) => "rg-global",
            HitOrigin::Ripgrep(ProbeKind::Indexed) => "rg-indexed",
            HitOrigin::AstGrep => "ast-grep",
            HitOrigin::Rga => "rga",
        }
    }
}

/// A raw search hit, scored in hundredths.
pub struct SearchHit {
    pub path: String,
    pub line: usize,
    pub snippet: String,
    pub score: i32,
    pub origin: HitOrigin,
}

/// Copies a hit, preserving its value.
pub fn copy_hit(h: &SearchHit) -> (r: SearchHit)
    ensures
        r == *h,
{
    SearchHit {
        path: h.path.clone(),
        line: h.line,
        snippet: h.snippet.clone(),
        score: h.score,
        origin: h.origin,
    }
}

/// The score adjustment each origin carries.
pub open spec fn origin_adjust_spec(o: HitOrigin) -> int {
    match o {
        HitOrigin::Ripgrep(ProbeKind::Global) => -5,
        HitOrigin::Ripgrep(ProbeKind::Indexed) => 10,
        HitOrigin::Rga => -10,
        _ => 0,
    }
}

/// The full score a hit carries after the verify stage looked at it: its
/// base score, a bonus when discovery already named its file, the origin
/// adjustment, and the structural bonus when the AST match set holds its key.
pub open spec fn adjusted_score_spec(base: int, in_fd: bool, origin: HitOrigin, in_ast: bool) -> int {
    base + (if in_fd {
        20int
    } else {
        0int
    }) + origin_adjust_spec(origin) + (if in_ast {
        50int
    } else {
        0int
    })
}

/// Law (structural promotion): a hit whose key lies in the AST match set
/// scores exactly half a point (50 hundredths) above the same hit without
/// the structural confirmation, whatever the other adjustments are.
pub proof fn lemma_ast_promotion(base: int, in_fd: bool, origin: HitOrigin)
    ensures
        adjusted_score_spec(base, in_fd, origin, true) == adjusted_score_spec(
            base,
            in_fd,
            origin,
            false,
        ) + 50,
{
}

/// Applies the verify-stage adjustments to one hit. A structurally confirmed
/// hit is promoted: its origin becomes the structural one.
pub fn adjust_hit(h: &SearchHit, in_fd: bool, in_ast: bool) -> (r: SearchHit)
    requires
        -100_000 <= h.score <= 100_000,
    ensures
        r.score == adjusted_score_spec(h.score as int, in_fd, h.origin, in_ast),
        r.origin == if in_ast {
            HitOrigin::AstGrep
        } else {
            h.origin
        },
        r.path == h.path,
        r.line == h.line,
        r.snippet == h.snippet,
{
    let mut score = h.score;
    if in_fd {
        score = score + 20;
    }
    match h.origin {
        HitOrigin::Ripgrep(ProbeKind::Global) => {
            score = score - 5;
        },
        HitOrigin::Ripgrep(ProbeKind::Indexed) => {
            score = score + 10;
        },
        HitOrigin::Rga => {
            score = score - 10;
        },
        _ => {},
    }
    let origin = if in_ast {
        score = score + 50;
        HitOrigin::AstGrep
    } else {
        h.origin
    };
    SearchHit { path: h.path.clone(), line: h.line, snippet: h.snippet.clone(), score, origin }
}

/// Two hits share an identity key when path and line agree.
pub open spec fn same_key(a: SearchHit, b: SearchHit) -> bool {
    a.path@ == b.path@ && a.line == b.line
}

/// No two hits of the sequence share a key.
pub open spec fn unique_keys(s: Seq<SearchHit>) -> bool {
    forall|i: int, j: int| 0 <= i < j < s.len() ==> !same_key(s[i], s[j])
}

/// The index of the first hit with the given key, `-1` when absent.
pub open spec fn find_key(s: Seq<SearchHit>, p: Seq<char>, l: usize) -> int
    decreases s.len(),
{
    if s.len() == 0 {
        -1
    } else if s[0].path@ == p && s[0].line == l {
        0
    } else {
        let r = find_key(s.drop_first(), p, l);
        if r == -1 {
            -1
        } else {
            r + 1
        }
    }
}

pub proof fn lemma_find_key_semantics(s: Seq<SearchHit>, p: Seq<char>, l: usize)
    ensures
        find_key(s, p, l) == -1 ==> forall|i: int|
            0 <= i < s.len() ==> !(s[i].path@ == p && s[i].line == l),
        find_key(s, p, l) != -1 ==> 0 <= find_key(s, p, l) < s.len() && s[find_key(
            s,
            p,
            l,
        )].path@ == p && s[find_key(s, p, l)].line == l,
    decreases s.len(),
{
    if s.len() > 0 {
        lemma_find_key_semantics(s.drop_first(), p, l);
        if !(s[0].path@ == p && s[0].line == l) {
            let r = find_key(s.drop_first(), p, l);
            if r == -1 {
                assert forall|i: int| 0 <= i < s.len() implies !(s[i].path@ == p && s[i].line
                    == l) by {
                    if i > 0 {
                        assert(s.drop_first()[i - 1] == s[i]);
                    }
                }
            } else {
                assert(s.drop_first()[r] == s[r + 1]);
            }
        }
    }
}

/// Merging a batch of scored hits: the first hit of each key stays at its
/// position; a later hit with the same key replaces it only when it scores
/// strictly higher.
pub open spec fn merged_spec(hits: Seq<SearchHit>) -> Seq<SearchHit>
    decreases hits.len(),
{
    if hits.len() == 0 {
        Seq::<SearchHit>::empty()
    } else {
        let prior = merged_spec(hits.drop_last());
        let h = hits.last();
        let idx = find_key(prior, h.path@, h.line);
        if idx == -1 {
            prior.push(h)
        } else if h.score > prior[idx].score {
            prior.update(idx, h)
        } else {
            prior
        }
    }
}

/// Merging never grows the batch.
pub proof fn lemma_merged_len(hits: Seq<SearchHit>)
    ensures
        merged_spec(hits).len() <= hits.len(),
    decreases hits.len(),
{
    if hits.len() > 0 {
        lemma_merged_len(hits.drop_last());
        lemma_find_key_semantics(merged_spec(hits.drop_last()), hits.last().path@, hits.last().line);
    }
}

/// Law (hit identity): after merging, every `(path, line)` key occurs at
/// most once.
pub proof fn lemma_merged_unique(hits: Seq<SearchHit>)
    ensures
        unique_keys(merged_spec(hits)),
    decreases hits.len(),
{
    if hits.len() > 0 {
        lemma_merged_unique(hits.drop_last());
        let prior = merged_spec(hits.drop_last());
        let h = hits.last();
        let idx = find_key(prior, h.path@, h.line);
        lemma_find_key_semantics(prior, h.path@, h.line);
        if idx == -1 {
            let out = prior.push(h);
            assert forall|i: int, j: int| 0 <= i < j < out.len() implies !same_key(
                out[i],
                out[j],
            ) by {
                if j < prior.len() {
                    assert(out[i] == prior[i] && out[j] == prior[j]);
                } else {
                    assert(out[j] == h);
                    assert(out[i] == prior[i]);
                }
            }
        } else {
            let out = prior.update(idx, h);
            assert(same_key(prior[idx], h));
            assert forall|i: int, j: int| 0 <= i < j < out.len() implies !same_key(
                out[i],
                out[j],
            ) by {
                assert(!same_key(prior[i], prior[j]));
                if i == idx {
                    assert(out[j] == prior[j]);
                } else if j == idx {
                    assert(out[i] == prior[i]);
                } else {
                    assert(out[i] == prior[i] && out[j] == prior[j]);
                }
            }
        }
    }
}

/// Finds the first hit with the given key in the vector.
fn find_key_exec(v: &Vec<SearchHit>, path: &String, line: usize) -> (r: Option<usize>)
    ensures
        match r {
            Option::Some(i) => i < v@.len() && find_key(v@, path@, line) == i as int,
            Option::None => find_key(v@, path@, line) == -1,
        },
{
    let mut i: usize = 0;
    while i < v.len()
        invariant
            i <= v@.len(),
            forall|j: int| 0 <= j < i ==> !(v@[j].path@ == path@ && v@[j].line == line),
        decreases v@.len() - i,
    {
        if str_eq(v[i].path.as_str(), path.as_str()) && v[i].line == line {
            proof {
                lemma_find_key_first(v@, path@, line, i as int);
            }
            return Option::Some(i);
        }
        i += 1;
    }
    proof {
        lemma_find_key_none(v@, path@, line);
    }
    Option::None
}

proof fn lemma_find_key_first(s: Seq<SearchHit>, p: Seq<char>, l: usize, k: int)
    requires
        0 <= k < s.len(),
        forall|j: int| 0 <= j < k ==> !(s[j].path@ == p && s[j].line == l),
        s[k].path@ == p && s[k].line == l,
    ensures
        find_key(s, p, l) == k,
    decreases s.len(),
{
    if k > 0 {
        assert(!(s[0].path@ == p && s[0].line == l));
        assert forall|j: int| 0 <= j < k - 1 implies !(s.drop_first()[j].path@ == p
            && s.drop_first()[j].line == l) by {
            assert(s.drop_first()[j] == s[j + 1]);
        }
        assert(s.drop_first()[k - 1] == s[k]);
        lemma_find_key_first(s.drop_first(), p, l, k - 1);
    }
}

proof fn lemma_find_key_none(s: Seq<SearchHit>, p: Seq<char>, l: usize)
    requires
        forall|j: int| 0 <= j < s.len() ==> !(s[j].path@ == p && s[j].line == l),
    ensures
        find_key(s, p, l) == -1,
    decreases s.len(),
{
    if s.len() > 0 {
        assert forall|j: int| 0 <= j < s.drop_first().len() implies !(s.drop_first()[j].path@ == p
            && s.drop_first()[j].line == l) by {
            assert(s.drop_first()[j] == s[j + 1]);
        }
        lemma_find_key_none(s.drop_first(), p, l);
    }
}

/// Merges hits by key, keeping for each key the highest score and, among
/// equal scores, the hit observed first.
pub fn merge_hits(hits: &Vec<SearchHit>) -> (r: Vec<SearchHit>)
    ensures
        r@ == merged_spec(hits@),
        unique_keys(r@),
{
    let mut out: Vec<SearchHit> = Vec::new();
    let mut i: usize = 0;
    proof {
        assert(hits@.take(0) =~= Seq::<SearchHit>::empty());
        assert(out@ =~= merged_spec(hits@.take(0)));
    }
    while i < hits.len()
        invariant
            i <= hits@.len(),
            out@ == merged_spec(hits@.take(i as int)),
        decreases hits@.len() - i,
    {
        let h = &hits[i];
        let ghost prior = out@;
        let found = find_key_exec(&out, &h.path, h.line);
        match found {
            Option::Some(idx) => {
                if h.score > out[idx].score {
                    let replacement = copy_hit(h);
                    out[idx] = replacement;
                }
            },
            Option::None => {
                out.push(copy_hit(h));
            },
        }
        proof {
            assert(hits@.take(i + 1 as int).drop_last() =~= hits@.take(i as int));
            assert(hits@.take(i + 1 as int).last() == hits@[i as int]);
            assert(out@ =~= merged_spec(hits@.take(i + 1 as int)));
        }
        i += 1;
    }
    proof {
        assert(hits@.take(hits@.len() as int) =~= hits@);
        lemma_merged_unique(hits@);
    }
    out
}

/// Scores are in descending order.
pub open spec fn sorted_desc(s: Seq<SearchHit>) -> bool {
    forall|i: int, j: int| 0 <= i < j < s.len() ==> s[i].score >= s[j].score
}

/// Sorts hits by score, highest first, keeping the relative order of equal
/// scores. The result holds exactly the input hits.
pub fn sort_hits_desc(hits: Vec<SearchHit>) -> (r: Vec<SearchHit>)
    ensures
        r@.to_multiset() == hits@.to_multiset(),
        sorted_desc(r@),
        r@.len() == hits@.len(),
{
    let mut out: Vec<SearchHit> = Vec::new();
    let mut i: usize = 0;
    proof {
        assert(hits@.take(0) =~= Seq::<SearchHit>::empty());
        assert(out@.to_multiset() =~= hits@.take(0).to_multiset());
    }
    while i < hits.len()
        invariant
            i <= hits@.len(),
            out@.to_multiset() == hits@.take(i as int).to_multiset(),
            out@.len() == i,
            sorted_desc(out@),
        decreases hits@.len() - i,
    {
        let h = copy_hit(&hits[i]);
        let ghost pre = out@;
        // find the first position whose score is strictly below the new one
        let mut pos: usize = 0;
        while pos < out.len() && out[pos].score >= h.score
            invariant
                pos <= out@.len(),
                out@ == pre,
                h == hits@[i as int],
                forall|j: int| 0 <= j < pos ==> out@[j].score >= h.score,
            decreases out@.len() - pos,
        {
            pos += 1;
        }
        proof {
            if pos < pre.len() {
                assert(pre[pos as int].score < h.score);
            }
        }
        out.insert(pos, h);
        proof {
            assert(out@ =~= pre.take(pos as int) + seq![hits@[i as int]] + pre.skip(pos as int));
            lemma_multiset_commutative(pre.take(pos as int), seq![hits@[i as int]]);
            lemma_multiset_commutative(
                pre.take(pos as int) + seq![hits@[i as int]],
                pre.skip(pos as int),
            );
            lemma_multiset_commutative(pre.take(pos as int), pre.skip(pos as int));
            assert(pre.take(pos as int) + pre.skip(pos as int) =~= pre);
            assert(seq![hits@[i as int]] =~= Seq::<SearchHit>::empty().push(hits@[i as int]));
            assert(seq![hits@[i as int]].to_multiset() =~= Multiset::<SearchHit>::empty().insert(
                hits@[i as int],
            ));
            assert(out@.to_multiset() =~= pre.to_multiset().insert(hits@[i as int]));
            assert(hits@.take(i + 1 as int) =~= hits@.take(i as int).push(hits@[i as int]));
            assert(hits@.take(i + 1 as int).to_multiset() =~= hits@.take(
                i as int,
            ).to_multiset().insert(hits@[i as int]));
            // sortedness after the insertion
            assert forall|a: int, b: int| 0 <= a < b < out@.len() implies out@[a].score
                >= out@[b].score by {
                if a < pos && b == pos {
                } else if a == pos && b > pos {
                    assert(out@[b] == pre[b - 1]);
                    assert(pre[pos as int].score < hits@[i as int].score);
                    assert(pre[b - 1].score <= pre[pos as int].score);
                } else if a < pos && b > pos {
                    assert(out@[a] == pre[a] && out@[b] == pre[b - 1]);
                } else if a > pos && b > pos {
                    assert(out@[a] == pre[a - 1] && out@[b] == pre[b - 1]);
                } else {
                    assert(out@[a] == pre[a] && out@[b] == pre[b]);
                }
            }
        }
        i += 1;
    }
    proof {
        assert(hits@.take(hits@.len() as int) =~= hits@);
    }
    out
}

/// The cache key of a hit.
pub open spec fn key_in_seen(seen: Seq<(String, usize)>, p: Seq<char>, l: usize) -> bool {
    exists|i: int| 0 <= i < seen.len() && seen[i].0@ == p && seen[i].1 == l
}

/// What a retain pass keeps: the hits whose key is neither in the cache nor
/// carried by an earlier hit of the same batch.
pub open spec fn retain_spec(hits: Seq<SearchHit>, seen: Seq<(String, usize)>) -> Seq<SearchHit>
    decreases hits.len(),
{
    if hits.len() == 0 {
        Seq::<SearchHit>::empty()
    } else {
        let h = hits[0];
        if key_in_seen(seen, h.path@, h.line) {
            retain_spec(hits.drop_first(), seen)
        } else {
            seq![h] + retain_spec(hits.drop_first(), seen.push((h.path, h.line)))
        }
    }
}

/// The cache contents after a retain pass.
pub open spec fn seen_after(hits: Seq<SearchHit>, seen: Seq<(String, usize)>) -> Seq<
    (String, usize),
>
    decreases hits.len(),
{
    if hits.len() == 0 {
        seen
    } else {
        let h = hits[0];
        if key_in_seen(seen, h.path@, h.line) {
            seen_after(hits.drop_first(), seen)
        } else {
            seen_after(hits.drop_first(), seen.push((h.path, h.line)))
        }
    }
}

/// Keys already returned by earlier cycles of this engine instance.
pub struct SearchCache {
    pub seen: Vec<(String, usize)>,
}

impl SearchCache {
    pub fn new() -> (r: Self)
        ensures
            r.seen@ =~= Seq::<(String, usize)>::empty(),
    {
        SearchCache { seen: Vec::new() }
    }

    /// Drops every hit whose key was already returned, remembering the keys
    /// of the hits that stay.
    pub fn retain_new(&mut self, hits: &mut Vec<SearchHit>)
        ensures
            final(hits)@ == retain_spec(old(hits)@, old(self).seen@),
            final(self).seen@ == seen_after(old(hits)@, old(self).seen@),
    {
        let ghost hits0 = hits@;
        let ghost seen0 = self.seen@;
        let mut out: Vec<SearchHit> = Vec::new();
        let mut i: usize = 0;
        proof {
            assert(hits0.skip(0) =~= hits0);
            assert(out@ + retain_spec(hits0, seen0) =~= retain_spec(hits0, seen0));
        }
        while i < hits.len()
            invariant
                i <= hits0.len(),
                hits@ == hits0,
                out@ + retain_spec(hits0.skip(i as int), self.seen@) == retain_spec(hits0, seen0),
                seen_after(hits0.skip(i as int), self.seen@) == seen_after(hits0, seen0),
            decreases hits0.len() - i,
        {
            let h = &hits[i];
            proof {
                let u = hits0.skip(i as int);
                assert(u[0] == hits0[i as int]);
                assert(u.drop_first() =~= hits0.skip(i + 1 as int));
            }
            let ghost pre_seen = self.seen@;
            let present = key_seen_exec(&self.seen, &h.path, h.line);
            let ghost out_pre = out@;
            if !present {
                out.push(copy_hit(h));
                self.seen.push((h.path.clone(), h.line));
            }
            proof {
                let u = hits0.skip(i as int);
                if !present {
                    assert(out@ =~= out_pre + seq![hits0[i as int]]);
                    assert(self.seen@ == pre_seen.push((hits0[i as int].path, hits0[i as int].line)));
                    assert(retain_spec(u, pre_seen) == seq![hits0[i as int]] + retain_spec(
                        hits0.skip(i + 1 as int),
                        self.seen@,
                    ));
                    assert(out@ + retain_spec(hits0.skip(i + 1 as int), self.seen@)
                        =~= out_pre + retain_spec(u, pre_seen));
                }
            }
            i += 1;
        }
        proof {
            assert(hits0.skip(hits0.len() as int) =~= Seq::<SearchHit>::empty());
            assert(out@ + Seq::<SearchHit>::empty() =~= out@);
        }
        *hits = out;
    }
}

/// Tests whether a key is in the cache list.
fn key_seen_exec(seen: &Vec<(String, usize)>, path: &String, line: usize) -> (r: bool)
    ensures
        r == key_in_seen(seen@, path@, line),
{
    let mut i: usize = 0;
    while i < seen.len()
        invariant
            i <= seen@.len(),
            forall|j: int| 0 <= j < i ==> !(seen@[j].0@ == path@ && seen@[j].1 == line),
        decreases seen@.len() - i,
    {
        if str_eq(seen[i].0.as_str(), path.as_str()) && seen[i].1 == line {
            assert(key_in_seen(seen@, path@, line)) by {
                assert(seen@[i as int].0@ == path@ && seen@[i as int].1 == line);
            }
            return true;
        }
        i += 1;
    }
    false
}

/// A key once in the cache stays in it across a retain pass.
pub proof fn lemma_seen_after_monotone(
    hits: Seq<SearchHit>,
    seen: Seq<(String, usize)>,
    p: Seq<char>,
    l: usize,
)
    requires
        key_in_seen(seen, p, l),
    ensures
        key_in_seen(seen_after(hits, seen), p, l),
    decreases hits.len(),
{
    if hits.len() > 0 {
        let h = hits[0];
        if key_in_seen(seen, h.path@, h.line) {
            lemma_seen_after_monotone(hits.drop_first(), seen, p, l);
        } else {
            let s2 = seen.push((h.path, h.line));
            assert(key_in_seen(s2, p, l)) by {
                let i = choose|i: int| 0 <= i < seen.len() && seen[i].0@ == p && seen[i].1 == l;
                assert(s2[i].0@ == p && s2[i].1 == l);
            }
            lemma_seen_after_monotone(hits.drop_first(), s2, p, l);
        }
    }
}

/// After a retain pass, the cache covers the key of every hit of the batch.
pub proof fn lemma_seen_after_covers(hits: Seq<SearchHit>, seen: Seq<(String, usize)>, k: int)
    requires
        0 <= k < hits.len(),
    ensures
        key_in_seen(seen_after(hits, seen), hits[k].path@, hits[k].line),
    decreases hits.len(),
{
    let h = hits[0];
    let s2 = if key_in_seen(seen, h.path@, h.line) {
        seen
    } else {
        seen.push((h.path, h.line))
    };
    if k == 0 {
        assert(key_in_seen(s2, h.path@, h.line)) by {
            if !key_in_seen(seen, h.path@, h.line) {
                assert(s2[s2.len() - 1].0@ == h.path@ && s2[s2.len() - 1].1 == h.line);
            }
        }
        lemma_seen_after_monotone(hits.drop_first(), s2, h.path@, h.line);
    } else {
        assert(hits.drop_first()[k - 1] == hits[k]);
        lemma_seen_after_covers(hits.drop_first(), s2, k - 1);
    }
}

/// A batch whose keys the cache already covers is dropped entirely.
pub proof fn lemma_retain_all_seen(hits: Seq<SearchHit>, seen: Seq<(String, usize)>)
    requires
        forall|i: int| 0 <= i < hits.len() ==> key_in_seen(seen, hits[i].path@, hits[i].line),
    ensures
        retain_spec(hits, seen) == Seq::<SearchHit>::empty(),
    decreases hits.len(),
{
    if hits.len() > 0 {
        assert(key_in_seen(seen, hits[0].path@, hits[0].line));
        assert forall|i: int| 0 <= i < hits.drop_first().len() implies key_in_seen(
            seen,
            hits.drop_first()[i].path@,
            hits.drop_first()[i].line,
        ) by {
            assert(hits.drop_first()[i] == hits[i + 1]);
        }
        lemma_retain_all_seen(hits.drop_first(), seen);
    }
}

/// Law (dedup monotonicity): running the same batch a second time, against
/// the cache state the first run left behind, returns nothing — earlier
/// cycles' results shadow later ones.
pub proof fn lemma_retain_second_run_empty(hits: Seq<SearchHit>, seen: Seq<(String, usize)>)
    ensures
        retain_spec(hits, seen_after(hits, seen)) == Seq::<SearchHit>::empty(),
{
    let seen1 = seen_after(hits, seen);
    assert forall|i: int| 0 <= i < hits.len() implies key_in_seen(
        seen1,
        hits[i].path@,
        hits[i].line,
    ) by {
        lemma_seen_after_covers(hits, seen, i);
    }
    lemma_retain_all_seen(hits, seen1);
}

/// Every kept hit comes from the batch.
pub proof fn lemma_retain_subset(hits: Seq<SearchHit>, seen: Seq<(String, usize)>, k: int)
    requires
        0 <= k < retain_spec(hits, seen).len(),
    ensures
        hits.contains(retain_spec(hits, seen)[k]),
    decreases hits.len(),
{
    if hits.len() > 0 {
        let h = hits[0];
        if key_in_seen(seen, h.path@, h.line) {
            lemma_retain_subset(hits.drop_first(), seen, k);
            let x = retain_spec(hits.drop_first(), seen)[k];
            let i = choose|i: int| 0 <= i < hits.drop_first().len() && hits.drop_first()[i] == x;
            assert(hits[i + 1] == x);
        } else {
            let rest = retain_spec(hits.drop_first(), seen.push((h.path, h.line)));
            if k == 0 {
                assert(retain_spec(hits, seen)[0] == h);
                assert(hits[0] == h);
            } else {
                assert(retain_spec(hits, seen)[k] == rest[k - 1]);
                lemma_retain_subset(hits.drop_first(), seen.push((h.path, h.line)), k - 1);
                let x = rest[k - 1];
                let i = choose|i: int|
                    0 <= i < hits.drop_first().len() && hits.drop_first()[i] == x;
                assert(hits[i + 1] == x);
            }
        }
    }
}

/// No kept hit carries a key the cache already had.
pub proof fn lemma_retain_keys_unseen(hits: Seq<SearchHit>, seen: Seq<(String, usize)>, k: int)
    requires
        0 <= k < retain_spec(hits, seen).len(),
    ensures
        !key_in_seen(seen, retain_spec(hits, seen)[k].path@, retain_spec(hits, seen)[k].line),
    decreases hits.len(),
{
    if hits.len() > 0 {
        let h = hits[0];
        if key_in_seen(seen, h.path@, h.line) {
            lemma_retain_keys_unseen(hits.drop_first(), seen, k);
        } else {
            let s2 = seen.push((h.path, h.line));
            let rest = retain_spec(hits.drop_first(), s2);
            if k == 0 {
                assert(retain_spec(hits, seen)[0] == h);
            } else {
                assert(retain_spec(hits, seen)[k] == rest[k - 1]);
                lemma_retain_keys_unseen(hits.drop_first(), s2, k - 1);
                let x = rest[k - 1];
                assert(!key_in_seen(s2, x.path@, x.line));
                assert(!key_in_seen(seen, x.path@, x.line)) by {
                    if key_in_seen(seen, x.path@, x.line) {
                        let i = choose|i: int|
                            0 <= i < seen.len() && seen[i].0@ == x.path@ && seen[i].1 == x.line;
                        assert(s2[i].0@ == x.path@ && s2[i].1 == x.line);
                    }
                }
            }
        }
    }
}

/// Law (hit identity, across the cache): the keys of a retained batch are
/// pairwise distinct.
pub proof fn lemma_retain_unique(hits: Seq<SearchHit>, seen: Seq<(String, usize)>)
    ensures
        unique_keys(retain_spec(hits, seen)),
    decreases hits.len(),
{
    if hits.len() > 0 {
        let h = hits[0];
        if key_in_seen(seen, h.path@, h.line) {
            lemma_retain_unique(hits.drop_first(), seen);
        } else {
            let s2 = seen.push((h.path, h.line));
            lemma_retain_unique(hits.drop_first(), s2);
            let rest = retain_spec(hits.drop_first(), s2);
            let out = retain_spec(hits, seen);
            assert forall|i: int, j: int| 0 <= i < j < out.len() implies !same_key(
                out[i],
                out[j],
            ) by {
                if i == 0 {
                    assert(out[0] == h);
                    assert(out[j] == rest[j - 1]);
                    lemma_retain_keys_unseen(hits.drop_first(), s2, j - 1);
                    assert(!key_in_seen(s2, rest[j - 1].path@, rest[j - 1].line));
                    assert(key_in_seen(s2, h.path@, h.line)) by {
                        assert(s2[s2.len() - 1].0@ == h.path@ && s2[s2.len() - 1].1 == h.line);
                    }
                } else {
                    assert(out[i] == rest[i - 1] && out[j] == rest[j - 1]);
                }
            }
        }
    }
}

/// A retain pass keeps the rank order: dropping cached keys from a list
/// sorted by score leaves a list sorted by score.
pub proof fn lemma_retain_sorted(hits: Seq<SearchHit>, seen: Seq<(String, usize)>)
    requires
        sorted_desc(hits),
    ensures
        sorted_desc(retain_spec(hits, seen)),
    decreases hits.len(),
{
    if hits.len() > 0 {
        let h = hits[0];
        let rest = hits.drop_first();
        assert(sorted_desc(rest)) by {
            assert forall|i: int, j: int| 0 <= i < j < rest.len() implies rest[i].score
                >= rest[j].score by {
                assert(rest[i] == hits[i + 1] && rest[j] == hits[j + 1]);
            }
        }
        if key_in_seen(seen, h.path@, h.line) {
            lemma_retain_sorted(rest, seen);
        } else {
            let s2 = seen.push((h.path, h.line));
            lemma_retain_sorted(rest, s2);
            let kept = retain_spec(rest, s2);
            let out = retain_spec(hits, seen);
            assert forall|i: int, j: int| 0 <= i < j < out.len() implies out[i].score
                >= out[j].score by {
                if i == 0 {
                    assert(out[0] == h);
                    assert(out[j] == kept[j - 1]);
                    lemma_retain_subset(rest, s2, j - 1);
                    let k = choose|k: int| 0 <= k < rest.len() && rest[k] == kept[j - 1];
                    assert(rest[k] == hits[k + 1]);
                    assert(hits[0].score >= hits[k + 1].score);
                } else {
                    assert(out[i] == kept[i - 1] && out[j] == kept[j - 1]);
                }
            }
        }
    }
}

/// Retrieval-quality metrics in hundredths.
pub struct SearchMetrics {
    pub precision: u64,
    pub density: u64,
    pub cluster_score: u64,
    pub reward: u64,
}

/// `num / den` rounded half-up, for a positive denominator.
pub open spec fn round_ratio(num: int, den: int) -> int {
    (2 * num + den) / (2 * den)
}

/// Share of hits confirmed structurally, clamped into the unit interval:
/// the match set can outnumber the deduplicated hits, and precision is a
/// metric in [0, 1].
pub open spec fn precision_h(ast: int, h: int) -> int {
    if round_ratio(100 * ast, h) > 100 {
        100
    } else {
        round_ratio(100 * ast, h)
    }
}

/// Hits per distinct file, squashed into the unit interval.
pub open spec fn density_h(h: int, d: int) -> int {
    round_ratio(100 * h, h + d)
}

/// Inverse of the line span relative to the hit count.
pub open spec fn cluster_h(h: int, span: int) -> int {
    round_ratio(100 * (h + 1), h + 1 + span)
}

/// Share of discovery candidates covered by hits.
pub open spec fn fd_bonus_h(h: int, fd: int) -> int {
    if fd > 0 {
        round_ratio(100 * (if h < fd {
            h
        } else {
            fd
        }), fd)
    } else {
        0
    }
}

/// Weighted combination of the four metrics.
pub open spec fn reward_h(p: int, de: int, c: int, f: int) -> int {
    round_ratio(50 * p + 30 * de + 15 * c + 5 * f, 100)
}

/// Distinct file paths among the hits.
pub open spec fn distinct_path_count(hits: Seq<SearchHit>) -> int
    decreases hits.len(),
{
    if hits.len() == 0 {
        0
    } else {
        distinct_path_count(hits.drop_last()) + (
        if exists|j: int| 0 <= j < hits.len() - 1 && hits[j].path@ == hits.last().path@ {
            0int
        } else {
            1int
        })
    }
}

pub proof fn lemma_distinct_bounds(hits: Seq<SearchHit>)
    ensures
        0 <= distinct_path_count(hits) <= hits.len(),
        hits.len() > 0 ==> distinct_path_count(hits) >= 1,
    decreases hits.len(),
{
    if hits.len() > 0 {
        lemma_distinct_bounds(hits.drop_last());
        if hits.len() == 1 {
            assert(distinct_path_count(hits.drop_last()) == 0);
        }
    }
}

/// The smallest line number among the hits (0 when there are none).
pub open spec fn min_line_spec(hits: Seq<SearchHit>) -> int
    decreases hits.len(),
{
    if hits.len() == 0 {
        0
    } else if hits.len() == 1 {
        hits[0].line as int
    } else {
        let m = min_line_spec(hits.drop_last());
        if hits.last().line < m {
            hits.last().line as int
        } else {
            m
        }
    }
}

/// The largest line number among the hits (0 when there are none).
pub open spec fn max_line_spec(hits: Seq<SearchHit>) -> int
    decreases hits.len(),
{
    if hits.len() == 0 {
        0
    } else if hits.len() == 1 {
        hits[0].line as int
    } else {
        let m = max_line_spec(hits.drop_last());
        if hits.last().line > m {
            hits.last().line as int
        } else {
            m
        }
    }
}

pub proof fn lemma_line_span(hits: Seq<SearchHit>)
    requires
        hits.len() > 0,
    ensures
        min_line_spec(hits) <= max_line_spec(hits),
        0 <= min_line_spec(hits),
    decreases hits.len(),
{
    if hits.len() > 1 {
        lemma_line_span(hits.drop_last());
    }
}

proof fn lemma_round_ratio_le(num: int, den: int, q: int)
    requires
        den > 0,
        0 <= num,
        0 <= q,
        2 * num + den < (q + 1) * 2 * den,
    ensures
        0 <= round_ratio(num, den) <= q,
{
    vstd::arithmetic::div_mod::lemma_fundamental_div_mod(2 * num + den, 2 * den);
    let r = round_ratio(num, den);
    assert(2 * num + den == 2 * den * r + (2 * num + den) % (2 * den));
    vstd::arithmetic::div_mod::lemma_mod_bound(2 * num + den, 2 * den);
    assert(r <= q) by (nonlinear_arith)
        requires
            2 * num + den == 2 * den * r + (2 * num + den) % (2 * den),
            0 <= (2 * num + den) % (2 * den),
            2 * num + den < (q + 1) * 2 * den,
            den > 0,
    ;
    assert(r >= 0) by (nonlinear_arith)
        requires
            2 * num + den == 2 * den * r + (2 * num + den) % (2 * den),
            (2 * num + den) % (2 * den) < 2 * den,
            0 <= num,
            den > 0,
    ;
}

proof fn lemma_round_ratio_ge(num: int, den: int, q: int)
    requires
        den > 0,
        0 <= num,
        2 * num + den >= q * 2 * den,
    ensures
        round_ratio(num, den) >= q,
{
    vstd::arithmetic::div_mod::lemma_fundamental_div_mod(2 * num + den, 2 * den);
    let r = round_ratio(num, den);
    vstd::arithmetic::div_mod::lemma_mod_bound(2 * num + den, 2 * den);
    assert(r >= q) by (nonlinear_arith)
        requires
            2 * num + den == 2 * den * r + (2 * num + den) % (2 * den),
            (2 * num + den) % (2 * den) < 2 * den,
            2 * num + den >= q * 2 * den,
            den > 0,
    ;
}

/// Law (metrics domain): for a non-empty hit list every metric lies in
/// [0, 1] (0 to 100 hundredths) and the reward is positive — so over all
/// inputs the reward is zero exactly when the hit list is empty. The exact
/// rational behind `cluster_h` is always positive; its two-decimal value
/// may still round to zero for a very wide line span, and the reward's
/// positivity is carried by the density term.
pub proof fn lemma_metrics_domain(h: int, d: int, ast: int, span: int, fd: int)
    requires
        h >= 1,
        1 <= d <= h,
        0 <= ast,
        0 <= span,
        0 <= fd,
    ensures
        0 <= precision_h(ast, h) <= 100,
        50 <= density_h(h, d) <= 100,
        0 <= cluster_h(h, span) <= 100,
        0 <= fd_bonus_h(h, fd) <= 100,
        15 <= reward_h(precision_h(ast, h), density_h(h, d), cluster_h(h, span), fd_bonus_h(h, fd))
            <= 100,
{
    assert(2 * (100 * ast) + h < ((100 * ast + 1) + 1) * 2 * h) by (nonlinear_arith)
        requires
            h >= 1,
            0 <= ast,
    ;
    lemma_round_ratio_le(100 * ast, h, 100 * ast + 1);
    assert(2 * (100 * h) + (h + d) < 101 * 2 * (h + d)) by (nonlinear_arith)
        requires
            h >= 1,
            d >= 1,
    ;
    lemma_round_ratio_le(100 * h, h + d, 100);
    assert(2 * (100 * h) + (h + d) >= 50 * 2 * (h + d)) by (nonlinear_arith)
        requires
            h >= 1,
            1 <= d <= h,
    ;
    lemma_round_ratio_ge(100 * h, h + d, 50);
    assert(2 * (100 * (h + 1)) + (h + 1 + span) < 101 * 2 * (h + 1 + span)) by (nonlinear_arith)
        requires
            h >= 1,
            span >= 0,
    ;
    lemma_round_ratio_le(100 * (h + 1), h + 1 + span, 100);
    if fd > 0 {
        let m = if h < fd {
            h
        } else {
            fd
        };
        assert(2 * (100 * m) + fd < 101 * 2 * fd) by (nonlinear_arith)
            requires
                fd >= 1,
                0 <= m <= fd,
        ;
        lemma_round_ratio_le(100 * m, fd, 100);
    }
    let p = precision_h(ast, h);
    let de = density_h(h, d);
    let c = cluster_h(h, span);
    let f = fd_bonus_h(h, fd);
    lemma_round_ratio_le(50 * p + 30 * de + 15 * c + 5 * f, 100, 100);
    lemma_round_ratio_ge(50 * p + 30 * de + 15 * c + 5 * f, 100, 15);
}

/// Counts the distinct paths among the hits.
fn count_distinct_paths(hits: &Vec<SearchHit>) -> (d: usize)
    ensures
        d == distinct_path_count(hits@),
{
    let mut d: usize = 0;
    let mut i: usize = 0;
    proof {
        assert(hits@.take(0) =~= Seq::<SearchHit>::empty());
    }
    while i < hits.len()
        invariant
            i <= hits@.len(),
            d == distinct_path_count(hits@.take(i as int)),
            d <= i,
        decreases hits@.len() - i,
    {
        let mut dup = false;
        let mut j: usize = 0;
        while j < i
            invariant
                j <= i,
                i < hits@.len(),
                dup == exists|k: int| 0 <= k < j && hits@[k].path@ == hits@[i as int].path@,
            decreases i - j,
        {
            if str_eq(hits[j].path.as_str(), hits[i].path.as_str()) {
                proof {
                    assert(hits@[j as int].path@ == hits@[i as int].path@);
                }
                dup = true;
            }
            j += 1;
        }
        proof {
            let t = hits@.take(i + 1 as int);
            assert(t.drop_last() =~= hits@.take(i as int));
            assert(t.last() == hits@[i as int]);
            assert((exists|k: int| 0 <= k < t.len() - 1 && t[k].path@ == t.last().path@) == dup)
                by {
                if exists|k: int| 0 <= k < t.len() - 1 && t[k].path@ == t.last().path@ {
                    let k = choose|k: int| 0 <= k < t.len() - 1 && t[k].path@ == t.last().path@;
                    assert(hits@[k].path@ == hits@[i as int].path@);
                }
                if dup {
                    let k = choose|k: int|
                        0 <= k < i && hits@[k].path@ == hits@[i as int].path@;
                    assert(t[k].path@ == t.last().path@);
                }
            }
            lemma_distinct_bounds(hits@.take(i as int));
        }
        if !dup {
            d += 1;
        }
        i += 1;
    }
    proof {
        assert(hits@.take(hits@.len() as int) =~= hits@);
    }
    d
}

/// Rounded ratio on machine integers.
fn round_ratio_exec(num: u128, den: u128) -> (r: u64)
    requires
        0 < den <= 0x10_0000_0000_0000_0000u128,
        num <= 0x0FFF_FFFF_FFFF_FFFFu128,
    ensures
        r == round_ratio(num as int, den as int),
{
    let v = (2 * num + den) / (2 * den);
    proof {
        assert(2 * (num as int) + (den as int) < ((num as int) + 2) * 2 * (den as int))
            by (nonlinear_arith)
            requires
                den as int >= 1,
                num as int >= 0,
        ;
        lemma_round_ratio_le(num as int, den as int, num as int + 1);
        assert(v == round_ratio(num as int, den as int));
        assert(v <= u64::MAX);
    }
    v as u64
}

/// Computes the cycle's retrieval metrics from the deduplicated hits, the
/// size of the AST match set, and the discovery candidate count. All four
/// results are exact fixed-point hundredths; an empty hit list yields zeros.
pub fn compute_metrics(hits: &Vec<SearchHit>, ast_len: usize, fd_candidates: usize) -> (r:
    SearchMetrics)
    requires
        ast_len <= 0xFFFF_FFFF,
        fd_candidates <= 0xFFFF_FFFF,
        hits@.len() <= 0xFFFF_FFFF,
    ensures
        hits@.len() == 0 ==> r.precision == 0 && r.density == 0 && r.cluster_score == 0 && r.reward
            == 0,
        hits@.len() > 0 ==> {
            &&& r.precision == precision_h(ast_len as int, hits@.len() as int)
            &&& r.density == density_h(hits@.len() as int, distinct_path_count(hits@))
            &&& r.cluster_score == cluster_h(
                hits@.len() as int,
                max_line_spec(hits@) - min_line_spec(hits@),
            )
            &&& r.reward == reward_h(
                r.precision as int,
                r.density as int,
                r.cluster_score as int,
                fd_bonus_h(hits@.len() as int, fd_candidates as int),
            )
        },
{
    if hits.len() == 0 {
        return SearchMetrics { precision: 0, density: 0, cluster_score: 0, reward: 0 };
    }
    let h = hits.len();
    let d = count_distinct_paths(hits);
    proof {
        lemma_distinct_bounds(hits@);
    }

    let mut min_line: usize = hits[0].line;
    let mut max_line: usize = hits[0].line;
    let mut i: usize = 1;
    proof {
        assert(hits@.take(1).len() == 1);
        assert(hits@.take(1)[0] == hits@[0]);
        assert(min_line == min_line_spec(hits@.take(1)));
        assert(max_line == max_line_spec(hits@.take(1)));
    }
    while i < hits.len()
        invariant
            1 <= i <= hits@.len(),
            min_line == min_line_spec(hits@.take(i as int)),
            max_line == max_line_spec(hits@.take(i as int)),
            min_line <= max_line,
        decreases hits@.len() - i,
    {
        proof {
            let t = hits@.take(i + 1 as int);
            assert(t.drop_last() =~= hits@.take(i as int));
            assert(t.last() == hits@[i as int]);
            assert(t.len() > 1);
        }
        if hits[i].line < min_line {
            min_line = hits[i].line;
        }
        if hits[i].line > max_line {
            max_line = hits[i].line;
        }
        proof {
            let t = hits@.take(i + 1 as int);
            lemma_line_span(t);
        }
        i += 1;
    }
    proof {
        assert(hits@.take(hits@.len() as int) =~= hits@);
    }
    let span = max_line - min_line;

    let precision_raw = round_ratio_exec(100 * (ast_len as u128), h as u128);
    let precision: u64 = if precision_raw > 100 {
        100
    } else {
        precision_raw
    };
    let density = round_ratio_exec(100 * (h as u128), (h as u128) + (d as u128));
    let cluster_score = round_ratio_exec(
        100 * ((h as u128) + 1),
        (h as u128) + 1 + (span as u128),
    );
    let fd_bonus: u64 = if fd_candidates > 0 {
        let m: usize = if h < fd_candidates {
            h
        } else {
            fd_candidates
        };
        round_ratio_exec(100 * (m as u128), fd_candidates as u128)
    } else {
        0
    };
    proof {
        assert(2 * (100 * (ast_len as int)) + (h as int) < ((100 * (ast_len as int) + 1) + 1) * 2
            * (h as int)) by (nonlinear_arith)
            requires
                (h as int) >= 1,
                (ast_len as int) >= 0,
        ;
        lemma_round_ratio_le(100 * (ast_len as int), h as int, 100 * (ast_len as int) + 1);
        assert(2 * (100 * (h as int)) + ((h as int) + (d as int)) < 101 * 2 * ((h as int) + (
        d as int))) by (nonlinear_arith)
            requires
                (h as int) >= 1,
                (d as int) >= 1,
        ;
        lemma_round_ratio_le(100 * (h as int), (h as int) + (d as int), 100);
        assert(2 * (100 * ((h as int) + 1)) + ((h as int) + 1 + (span as int)) < 101 * 2 * ((
        h as int) + 1 + (span as int))) by (nonlinear_arith)
            requires
                (h as int) >= 1,
                (span as int) >= 0,
        ;
        lemma_round_ratio_le(100 * ((h as int) + 1), (h as int) + 1 + (span as int), 100);
        if fd_candidates > 0 {
            let m = if (h as int) < (fd_candidates as int) {
                h as int
            } else {
                fd_candidates as int
            };
            assert(2 * (100 * m) + (fd_candidates as int) < 101 * 2 * (fd_candidates as int))
                by (nonlinear_arith)
                requires
                    (fd_candidates as int) >= 1,
                    0 <= m <= (fd_candidates as int),
            ;
            lemma_round_ratio_le(100 * m, fd_candidates as int, 100);
        }
    }
    let reward = round_ratio_exec(
        50 * (precision as u128) + 30 * (density as u128) + 15 * (cluster_score as u128) + 5 * (
        fd_bonus as u128),
        100,
    );
    SearchMetrics { precision, density, cluster_score, reward }
}

} // verus!
