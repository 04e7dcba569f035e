//! Path handling over plain strings: file names, extensions, prefix
//! stripping and component-wise suffix tests. Paths are `/`-separated
//! strings; nothing here touches the file system.

use vstd::prelude::*;
use vstd::string::*;
use crate::text::{chars_to_string, str_to_chars, subvec_chars};

verus! {

/// The suffix after the last occurrence of `c`, the whole string when `c`
/// does not occur.
pub open spec fn tail_after_last(s: Seq<char>, c: char) -> Seq<char>
    decreases s.len(),
{
    if s.len() == 0 {
        Seq::<char>::empty()
    } else if s.last() == c {
        Seq::<char>::empty()
    } else {
        tail_after_last(s.drop_last(), c).push(s.last())
    }
}

proof fn lemma_tail_after_last(s: Seq<char>, c: char, k: int)
    requires
        0 <= k <= s.len(),
        forall|j: int| k <= j < s.len() ==> s[j] != c,
        k == 0 || s[k - 1] == c,
    ensures
        tail_after_last(s, c) == s.skip(k),
    decreases s.len(),
{
    if k == s.len() {
        assert(tail_after_last(s, c) =~= s.skip(k));
    } else {
        assert(s.last() != c);
        lemma_tail_after_last(s.drop_last(), c, k);
        assert(s.drop_last().skip(k).push(s.last()) =~= s.skip(k));
    }
}

/// Index just past the last occurrence of `c` in `v`; 0 when `c` is absent.
/// The suffix from that index is `tail_after_last`.
pub fn cut_after_last(v: &Vec<char>, c: char) -> (k: usize)
    ensures
        k <= v@.len(),
        tail_after_last(v@, c) == v@.skip(k as int),
        forall|j: int| k <= j < v@.len() ==> v@[j] != c,
        k == 0 || v@[k - 1] == c,
{
    let mut k: usize = v.len();
    while k > 0 && v[k - 1] != c
        invariant
            k <= v@.len(),
            forall|j: int| k <= j < v@.len() ==> v@[j] != c,
        decreases k,
    {
        k -= 1;
    }
    proof {
        lemma_tail_after_last(v@, c, k as int);
    }
    k
}

/// The last path component.
pub open spec fn file_name_spec(p: Seq<char>) -> Seq<char> {
    tail_after_last(p, '/')
}

/// The extension of a path: the part of the file name after its last dot,
/// provided a dot occurs past the first position (a leading dot alone marks
/// a hidden file, not an extension).
pub open spec fn ext_of_path(p: Seq<char>) -> Option<Seq<char>> {
    let f = file_name_spec(p);
    if exists|i: int| 1 <= i < f.len() && f[i] == '.' {
        Option::Some(tail_after_last(f, '.'))
    } else {
        Option::None
    }
}

/// The extension of a path, if any.
pub fn path_extension(v: &Vec<char>) -> (r: Option<Vec<char>>)
    ensures
        match r {
            Option::Some(e) => ext_of_path(v@) == Option::Some(e@),
            Option::None => ext_of_path(v@) is None,
        },
{
    let start = cut_after_last(v, '/');
    let f = subvec_chars(v, start, v.len());
    proof {
        assert(f@ == file_name_spec(v@));
    }
    let d = cut_after_last(&f, '.');
    if d >= 2 {
        proof {
            assert(f@[d - 1 as int] == '.');
            assert(1 <= d - 1 < f@.len());
        }
        Option::Some(subvec_chars(&f, d, f.len()))
    } else {
        proof {
            if exists|i: int| 1 <= i < f@.len() && f@[i] == '.' {
                let i = choose|i: int| 1 <= i < f@.len() && f@[i] == '.';
                assert(v@.skip(start as int)[i] == '.');
                assert(d as int >= i + 1);
            }
        }
        Option::None
    }
}

/// The file name (last component) of a path.
pub fn path_file_name(v: &Vec<char>) -> (r: Vec<char>)
    ensures
        r@ == file_name_spec(v@),
{
    let start = cut_after_last(v, '/');
    subvec_chars(v, start, v.len())
}

/// Joining a possibly relative path onto a base: an absolute path is kept,
/// anything else is appended to the base after a slash.
pub open spec fn join_spec(base: Seq<char>, path: Seq<char>) -> Seq<char> {
    if path.len() > 0 && path[0] == '/' {
        path
    } else {
        base + seq!['/'] + path
    }
}

/// What a path looks like relative to a root: the root prefix (with its
/// separator) removed when present, the path unchanged otherwise.
pub open spec fn strip_root_spec(root: Seq<char>, p: Seq<char>) -> Seq<char> {
    if p == root {
        Seq::<char>::empty()
    } else if p.len() > root.len() && p.take(root.len() as int) == root && p[root.len() as int]
        == '/' {
        p.skip(root.len() as int + 1)
    } else {
        p
    }
}

/// Normalizes a path against a root: joins a relative path onto the root,
/// then strips the root prefix again where possible.
pub fn normalize_path(root: &str, path: &str) -> (r: String)
    ensures
        r@ == strip_root_spec(root@, join_spec(root@, path@)),
{
    let rv = str_to_chars(root);
    let pv = str_to_chars(path);
    let joined: Vec<char> = if pv.len() > 0 && pv[0] == '/' {
        pv
    } else {
        let mut j: Vec<char> = Vec::new();
        let mut i: usize = 0;
        while i < rv.len()
            invariant
                i <= rv@.len(),
                j@ =~= rv@.take(i as int),
            decreases rv@.len() - i,
        {
            j.push(rv[i]);
            i += 1;
        }
        j.push('/');
        let mut k: usize = 0;
        proof {
            assert(rv@.take(rv@.len() as int) =~= rv@);
            assert(j@ =~= rv@ + seq!['/'] + pv@.take(0));
        }
        while k < pv.len()
            invariant
                k <= pv@.len(),
                j@ =~= rv@ + seq!['/'] + pv@.take(k as int),
            decreases pv@.len() - k,
        {
            j.push(pv[k]);
            proof {
                assert(pv@.take(k + 1 as int) =~= pv@.take(k as int).push(pv@[k as int]));
            }
            k += 1;
        }
        proof {
            assert(pv@.take(pv@.len() as int) =~= pv@);
        }
        j
    };
    proof {
        assert(joined@ == join_spec(root@, path@));
    }
    strip_root_prefix_chars(&rv, joined)
}

/// Strips the root prefix from an already joined path.
fn strip_root_prefix_chars(root: &Vec<char>, p: Vec<char>) -> (r: String)
    ensures
        r@ == strip_root_spec(root@, p@),
{
    let n = root.len();
    if p.len() == n {
        let mut eq = true;
        let mut i: usize = 0;
        while i < n
            invariant
                i <= n,
                n == root@.len(),
                n == p@.len(),
                eq == (p@.take(i as int) =~= root@.take(i as int)),
            decreases n - i,
        {
            if p[i] != root[i] {
                eq = false;
            }
            proof {
                assert(p@.take(i + 1 as int) =~= p@.take(i as int).push(p@[i as int]));
                assert(root@.take(i + 1 as int) =~= root@.take(i as int).push(root@[i as int]));
                if p@[i as int] != root@[i as int] {
                    assert(p@.take(i + 1 as int)[i as int] == p@[i as int]);
                    assert(root@.take(i + 1 as int)[i as int] == root@[i as int]);
                    assert(!(p@.take(i + 1 as int) =~= root@.take(i + 1 as int)));
                }
            }
            i += 1;
        }
        proof {
            assert(p@.take(n as int) =~= p@);
            assert(root@.take(n as int) =~= root@);
        }
        if eq {
            return String::new();
        }
        return chars_to_string(&p);
    }
    if p.len() > n {
        let mut eq = true;
        let mut i: usize = 0;
        while i < n
            invariant
                i <= n,
                n == root@.len(),
                n < p@.len(),
                eq == (p@.take(i as int) =~= root@.take(i as int)),
            decreases n - i,
        {
            if p[i] != root[i] {
                eq = false;
            }
            proof {
                assert(p@.take(i + 1 as int) =~= p@.take(i as int).push(p@[i as int]));
                assert(root@.take(i + 1 as int) =~= root@.take(i as int).push(root@[i as int]));
                if p@[i as int] != root@[i as int] {
                    assert(p@.take(i + 1 as int)[i as int] == p@[i as int]);
                    assert(root@.take(i + 1 as int)[i as int] == root@[i as int]);
                    assert(!(p@.take(i + 1 as int) =~= root@.take(i + 1 as int)));
                }
            }
            i += 1;
        }
        proof {
            assert(root@.take(n as int) =~= root@);
        }
        if eq && p[n] == '/' {
            proof {
                assert(p@ != root@);
            }
            let rest = subvec_chars(&p, n + 1, p.len());
            proof {
                assert(rest@ =~= p@.skip(n + 1 as int));
            }
            return chars_to_string(&rest);
        }
        proof {
            assert(p@ != root@) by {
                assert(p@.len() != root@.len());
            }
        }
        return chars_to_string(&p);
    }
    proof {
        assert(p@ != root@) by {
            assert(p@.len() != root@.len());
        }
    }
    chars_to_string(&p)
}

/// The non-empty `/`-separated components of a path.
pub open spec fn slash_runs(s: Seq<char>) -> Seq<Seq<char>>
    decreases s.len(),
{
    if s.len() == 0 {
        seq![Seq::<char>::empty()]
    } else {
        let prior = slash_runs(s.drop_last());
        if s.last() == '/' {
            prior.push(Seq::<char>::empty())
        } else {
            prior.update(prior.len() - 1, prior.last().push(s.last()))
        }
    }
}

pub open spec fn path_components(s: Seq<char>) -> Seq<Seq<char>> {
    crate::language::nonempty_parts(slash_runs(s))
}

proof fn lemma_slash_runs_len(s: Seq<char>)
    ensures
        slash_runs(s).len() >= 1,
    decreases s.len(),
{
    if s.len() > 0 {
        lemma_slash_runs_len(s.drop_last());
    }
}

/// Splits a path into its non-empty components.
pub fn split_components(v: &Vec<char>) -> (r: Vec<Vec<char>>)
    ensures
        r.deep_view() == path_components(v@),
{
    let mut parts: Vec<Vec<char>> = Vec::new();
    let mut cur: Vec<char> = Vec::new();
    let mut i: usize = 0;
    proof {
        assert(slash_runs(v@.take(0)) =~= seq![Seq::<char>::empty()]);
        assert(parts.deep_view().push(cur@) =~~= slash_runs(v@.take(0)));
    }
    while i < v.len()
        invariant
            i <= v@.len(),
            parts.deep_view().push(cur@) == slash_runs(v@.take(i as int)),
        decreases v@.len() - i,
    {
        let c = v[i];
        let ghost pre_parts = parts.deep_view();
        let ghost pre_cur = cur@;
        if c == '/' {
            parts.push(cur);
            cur = Vec::new();
        } else {
            cur.push(c);
        }
        proof {
            assert(v@.take(i + 1 as int).drop_last() =~= v@.take(i as int));
            assert(v@.take(i + 1 as int).last() == v@[i as int]);
            let old_raw = slash_runs(v@.take(i as int));
            assert(old_raw.len() >= 1) by {
                lemma_slash_runs_len(v@.take(i as int));
            }
            assert(old_raw.drop_last() =~= pre_parts);
            assert(old_raw.last() == pre_cur);
            if v@[i as int] == '/' {
                assert(parts.deep_view() =~~= pre_parts.push(pre_cur));
                assert(parts.deep_view().push(cur@) =~~= old_raw.push(Seq::<char>::empty()));
            } else {
                assert(parts.deep_view().push(cur@) =~~= old_raw.update(
                    old_raw.len() - 1,
                    old_raw.last().push(v@[i as int]),
                ));
            }
        }
        i += 1;
    }
    proof {
        assert(v@.take(v@.len() as int) =~= v@);
    }
    let ghost all = slash_runs(v@);
    let ghost fin_parts = parts.deep_view();
    let ghost fin_cur = cur@;
    parts.push(cur);
    let mut r: Vec<Vec<char>> = Vec::new();
    let mut j: usize = 0;
    proof {
        assert(parts.deep_view() =~~= fin_parts.push(fin_cur));
        assert(parts.deep_view() == all);
    }
    while j < parts.len()
        invariant
            j <= parts@.len(),
            parts.deep_view() == all,
            r.deep_view() == crate::language::nonempty_parts(all.take(j as int)),
        decreases parts@.len() - j,
    {
        let ghost pre = r.deep_view();
        proof {
            assert(parts.deep_view()[j as int] =~= parts@[j as int]@);
        }
        if parts[j].len() > 0 {
            let piece = subvec_chars(&parts[j], 0, parts[j].len());
            proof {
                assert(piece@ =~= all[j as int]);
            }
            r.push(piece);
            proof {
                assert(r.deep_view() =~~= pre.push(all[j as int]));
            }
        }
        proof {
            assert(all.take(j + 1 as int).drop_last() =~= all.take(j as int));
            assert(all.take(j + 1 as int).last() == all[j as int]);
            if all[j as int].len() > 0 {
                assert(r.deep_view() =~= pre + seq![all[j as int]]);
            } else {
                assert(r.deep_view() =~= pre + Seq::<Seq<char>>::empty());
            }
        }
        j += 1;
    }
    proof {
        assert(all.take(all.len() as int) =~= all);
    }
    r
}

/// Component-wise suffix: the expected path's components close the hit
/// path's component list.
pub open spec fn path_suffix_spec(hit: Seq<char>, expected: Seq<char>) -> bool {
    let h = path_components(hit);
    let e = path_components(expected);
    e.len() <= h.len() && h.skip(h.len() - e.len()) == e
}

/// True when the hit path equals the expected path or ends with it,
/// component-wise.
pub fn path_matches(hit_path: &str, expected: &str) -> (r: bool)
    ensures
        r == (hit_path@ == expected@ || path_suffix_spec(hit_path@, expected@)),
{
    if crate::text::str_eq(hit_path, expected) {
        return true;
    }
    let hv = str_to_chars(hit_path);
    let ev = str_to_chars(expected);
    let h = split_components(&hv);
    let e = split_components(&ev);
    if e.len() > h.len() {
        proof {
            assert(e.deep_view().len() == e@.len());
            assert(h.deep_view().len() == h@.len());
        }
        return false;
    }
    let hn = h.len();
    let en = e.len();
    let off = hn - en;
    let ghost hd = h.deep_view();
    let ghost ed = e.deep_view();
    proof {
        assert(hd.len() == h@.len());
        assert(ed.len() == e@.len());
    }
    let mut i: usize = 0;
    while i < en
        invariant
            i <= en,
            hd == h.deep_view(),
            ed == e.deep_view(),
            hd == path_components(hit_path@),
            ed == path_components(expected@),
            hit_path@ != expected@,
            hn == h@.len(),
            en == e@.len(),
            hd.len() == hn,
            ed.len() == en,
            en <= hn,
            off == hn - en,
            forall|j: int| 0 <= j < i ==> hd[off + j] == ed[j],
        decreases en - i,
    {
        let hc = &h[off + i];
        let ec = &e[i];
        let mut k: usize = 0;
        proof {
            assert(hd[off + i as int] =~= h@[off + i as int]@);
            assert(ed[i as int] =~= e@[i as int]@);
        }
        if hc.len() != ec.len() {
            proof {
                assert(hd[off + i as int] != ed[i as int]);
                assert(hd.skip(off as int)[i as int] == hd[off + i as int]);
                assert(hd.skip(off as int) != ed);
            }
            return false;
        }
        while k < hc.len()
            invariant
                k <= hc@.len(),
                hc@.len() == ec@.len(),
                i < en,
                en <= hn,
                off == hn - en,
                hd.len() == hn,
                ed.len() == en,
                hd == path_components(hit_path@),
                ed == path_components(expected@),
                hit_path@ != expected@,
                hd[off + i as int] == hc@,
                ed[i as int] == ec@,
                forall|j: int| 0 <= j < k ==> hc@[j] == ec@[j],
            decreases hc@.len() - k,
        {
            if hc[k] != ec[k] {
                proof {
                    assert(hc@ != ec@);
                    assert(hd.skip(off as int)[i as int] == hd[off + i as int]);
                    assert(hd.skip(off as int) != ed);
                }
                return false;
            }
            k += 1;
        }
        proof {
            assert(hc@ =~= ec@);
            assert(hd[off + i as int] == ed[i as int]);
        }
        i += 1;
    }
    proof {
        assert(hd.skip(off as int) =~= ed);
    }
    true
}

} // verus!
