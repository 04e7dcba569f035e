//! Snippet formatting: turning a multi-line raw match into a single
//! presentation line, with language-specific selection and markers.

use vstd::prelude::*;
use vstd::string::*;
use crate::text::{
    chars_contain, chars_contain_sub, chars_start_with, chars_to_string, collapse_chars,
    collapse_spec, contains_sub, is_prefix_of, str_to_chars, subvec_chars, trim_chars, trim_spec,
    collapse_whitespace,
};
use crate::language::{lower_chars, lower_spec};

verus! {

/// The newline-separated runs of a text, empties included.
pub open spec fn newline_runs(s: Seq<char>) -> Seq<Seq<char>>
    decreases s.len(),
{
    if s.len() == 0 {
        seq![Seq::<char>::empty()]
    } else {
        let prior = newline_runs(s.drop_last());
        if s.last() == '\n' {
            prior.push(Seq::<char>::empty())
        } else {
            prior.update(prior.len() - 1, prior.last().push(s.last()))
        }
    }
}

proof fn lemma_newline_runs_len(s: Seq<char>)
    ensures
        newline_runs(s).len() >= 1,
    decreases s.len(),
{
    if s.len() > 0 {
        lemma_newline_runs_len(s.drop_last());
    }
}

/// The lines of a text: the newline runs, without a final empty run.
pub open spec fn lines_spec(s: Seq<char>) -> Seq<Seq<char>> {
    let ps = newline_runs(s);
    if ps.last().len() == 0 {
        ps.drop_last()
    } else {
        ps
    }
}

/// Splits a text into lines.
pub fn split_lines(v: &Vec<char>) -> (r: Vec<Vec<char>>)
    ensures
        r.deep_view() == lines_spec(v@),
{
    let mut parts: Vec<Vec<char>> = Vec::new();
    let mut cur: Vec<char> = Vec::new();
    let mut i: usize = 0;
    proof {
        assert(newline_runs(v@.take(0)) =~= seq![Seq::<char>::empty()]);
        assert(parts.deep_view().push(cur@) =~~= newline_runs(v@.take(0)));
    }
    while i < v.len()
        invariant
            i <= v@.len(),
            parts.deep_view().push(cur@) == newline_runs(v@.take(i as int)),
        decreases v@.len() - i,
    {
        let c = v[i];
        let ghost pre_parts = parts.deep_view();
        let ghost pre_cur = cur@;
        if c == '\n' {
            parts.push(cur);
            cur = Vec::new();
        } else {
            cur.push(c);
        }
        proof {
            assert(v@.take(i + 1 as int).drop_last() =~= v@.take(i as int));
            assert(v@.take(i + 1 as int).last() == v@[i as int]);
            let old_raw = newline_runs(v@.take(i as int));
            assert(old_raw.len() >= 1) by {
                lemma_newline_runs_len(v@.take(i as int));
            }
            assert(old_raw.drop_last() =~= pre_parts);
            assert(old_raw.last() == pre_cur);
            if v@[i as int] == '\n' {
                assert(parts.deep_view() =~~= pre_parts.push(pre_cur));
                assert(parts.deep_view().push(cur@) =~~= old_raw.push(Seq::<char>::empty()));
            } else {
                assert(parts.deep_view().push(cur@) =~~= old_raw.update(
                    old_raw.len() - 1,
                    old_raw.last().push(v@[i as int]),
                ));
            }
        }
        i += 1;
    }
    proof {
        assert(v@.take(v@.len() as int) =~= v@);
    }
    let ghost all = newline_runs(v@);
    if cur.len() > 0 {
        let ghost fin_parts = parts.deep_view();
        let ghost fin_cur = cur@;
        parts.push(cur);
        proof {
            assert(parts.deep_view() =~~= fin_parts.push(fin_cur));
            assert(parts.deep_view() == all);
            assert(all.last().len() > 0);
        }
    } else {
        proof {
            assert(all.last().len() == 0);
            assert(all.drop_last() =~= parts.deep_view());
        }
    }
    parts
}

/// The first line whose trimmed form is non-empty, trimmed.
pub open spec fn first_nonempty_trim(lines: Seq<Seq<char>>) -> Option<Seq<char>>
    decreases lines.len(),
{
    if lines.len() == 0 {
        Option::None
    } else if trim_spec(lines[0]).len() > 0 {
        Option::Some(trim_spec(lines[0]))
    } else {
        first_nonempty_trim(lines.drop_first())
    }
}

/// The default snippet: the first non-empty line, whitespace-collapsed.
pub open spec fn format_default_spec(raw: Seq<char>) -> Option<Seq<char>> {
    match first_nonempty_trim(lines_spec(raw)) {
        Option::None => Option::None,
        Option::Some(l) => Option::Some(collapse_spec(l)),
    }
}

/// Finds the first line with a non-empty trimmed form.
fn find_first_nonempty(lines: &Vec<Vec<char>>) -> (r: Option<Vec<char>>)
    ensures
        match r {
            Option::Some(t) => first_nonempty_trim(lines.deep_view()) == Option::Some(t@),
            Option::None => first_nonempty_trim(lines.deep_view()) is None,
        },
{
    let ghost ld = lines.deep_view();
    proof {
        assert(ld.len() == lines@.len());
        assert(ld.skip(0) =~= ld);
    }
    let mut i: usize = 0;
    while i < lines.len()
        invariant
            i <= ld.len(),
            ld == lines.deep_view(),
            ld.len() == lines@.len(),
            first_nonempty_trim(ld.skip(i as int)) == first_nonempty_trim(ld),
        decreases ld.len() - i,
    {
        proof {
            let u = ld.skip(i as int);
            assert(u[0] == ld[i as int]);
            assert(u.drop_first() =~= ld.skip(i + 1 as int));
            assert(ld[i as int] =~= lines@[i as int]@);
        }
        let t = trim_chars(&lines[i]);
        if t.len() > 0 {
            return Option::Some(t);
        }
        i += 1;
    }
    proof {
        assert(ld.skip(ld.len() as int) =~= Seq::<Seq<char>>::empty());
    }
    Option::None
}

/// Formats a snippet with no language-specific handling: the first
/// non-empty line, whitespace-collapsed.
pub fn format_default_snippet(raw: &str) -> (r: Option<String>)
    ensures
        match r {
            Option::Some(s) => format_default_spec(raw@) == Option::Some(s@),
            Option::None => format_default_spec(raw@) is None,
        },
{
    let rv = str_to_chars(raw);
    let lines = split_lines(&rv);
    match find_first_nonempty(&lines) {
        Option::Some(t) => {
            let c = collapse_chars(&t);
            let tc = trim_chars(&c);
            Option::Some(chars_to_string(&tc))
        },
        Option::None => Option::None,
    }
}

/// The TypeScript line scan. Walks the lines in order with the current
/// candidate; a JSX-looking line wins immediately, a line holding a full
/// generic or tag stops the scan as candidate, declaration-like lines
/// become the candidate and the scan goes on.
pub open spec fn ts_scan(lines: Seq<Seq<char>>, cand: Option<Seq<char>>) -> (
    bool,
    Seq<char>,
    Option<Seq<char>>,
)
    decreases lines.len(),
{
    if lines.len() == 0 {
        (false, Seq::<char>::empty(), cand)
    } else {
        let t = trim_spec(lines[0]);
        if t.len() == 0 || is_prefix_of("//"@, t) {
            ts_scan(lines.drop_first(), cand)
        } else if is_prefix_of("<"@, t) {
            (true, t, cand)
        } else if t.contains('<') && t.contains('>') {
            (false, Seq::<char>::empty(), Option::Some(t))
        } else if is_prefix_of("export"@, t) || is_prefix_of("type "@, t) || is_prefix_of(
            "interface "@,
            t,
        ) || contains_sub(t, "=>"@) {
            ts_scan(lines.drop_first(), Option::Some(t))
        } else {
            ts_scan(lines.drop_first(), cand)
        }
    }
}

/// The markers appended to a selected TypeScript line.
pub open spec fn ts_markers(sel: Seq<char>) -> Seq<char> {
    (if contains_sub(sel, "async"@) {
        " [async]"@
    } else {
        Seq::<char>::empty()
    }) + (if is_prefix_of("use"@, sel) || contains_sub(sel, " = use"@) {
        " [hook]"@
    } else {
        Seq::<char>::empty()
    }) + (if contains_sub(sel, "React.FC"@) || contains_sub(sel, "React.FunctionComponent"@) {
        " [component]"@
    } else {
        Seq::<char>::empty()
    }) + (if contains_sub(sel, "React.forwardRef"@) || contains_sub(sel, "React.memo"@) {
        " [component]"@
    } else {
        Seq::<char>::empty()
    }) + (if contains_sub(sel, "Promise<"@) {
        " [promise]"@
    } else {
        Seq::<char>::empty()
    }) + (if contains_sub(sel, "=>"@) {
        " [arrow]"@
    } else {
        Seq::<char>::empty()
    }) + (if contains_sub(sel, "await "@) {
        " [await]"@
    } else {
        Seq::<char>::empty()
    }) + (if sel.contains('<') && sel.contains('>') {
        " [generic]"@
    } else {
        Seq::<char>::empty()
    }) + (if contains_sub(sel, "satisfies "@) {
        " [satisfies]"@
    } else {
        Seq::<char>::empty()
    })
}

/// The TypeScript snippet: a JSX line collapsed as is, else the best
/// declaration-like candidate (or the first non-empty line) collapsed and
/// annotated with markers.
pub open spec fn format_typescript_spec(raw: Seq<char>) -> Option<Seq<char>> {
    let lines = lines_spec(raw);
    let scan = ts_scan(lines, Option::None);
    if scan.0 {
        Option::Some(collapse_spec(scan.1))
    } else {
        let sel = match scan.2 {
            Option::Some(c) => Option::Some(c),
            Option::None => first_nonempty_trim(lines),
        };
        match sel {
            Option::None => Option::None,
            Option::Some(s) => Option::Some(collapse_spec(s) + ts_markers(s)),
        }
    }
}

/// Appends the characters of `lit` to `out`.
fn push_lit(out: &mut Vec<char>, lit: &str)
    ensures
        final(out)@ == old(out)@ + lit@,
{
    let n = lit.unicode_len();
    let mut i: usize = 0;
    proof {
        assert(out@ =~= old(out)@ + lit@.take(0));
    }
    while i < n
        invariant
            i <= n,
            n == lit@.len(),
            out@ == old(out)@ + lit@.take(i as int),
        decreases n - i,
    {
        out.push(lit.get_char(i));
        proof {
            assert(lit@.take(i + 1 as int) =~= lit@.take(i as int).push(lit@[i as int]));
            assert(old(out)@ + lit@.take(i + 1 as int) =~= (old(out)@ + lit@.take(i as int)).push(
                lit@[i as int],
            ));
        }
        i += 1;
    }
    proof {
        assert(lit@.take(n as int) =~= lit@);
    }
}

/// Computes the TypeScript markers for a selected line.
fn ts_markers_exec(sel: &Vec<char>) -> (r: Vec<char>)
    ensures
        r@ == ts_markers(sel@),
{
    let mut out: Vec<char> = Vec::new();
    if chars_contain_sub(sel, "async") {
        push_lit(&mut out, " [async]");
    }
    if chars_start_with(sel, "use") || chars_contain_sub(sel, " = use") {
        push_lit(&mut out, " [hook]");
    }
    if chars_contain_sub(sel, "React.FC") || chars_contain_sub(sel, "React.FunctionComponent") {
        push_lit(&mut out, " [component]");
    }
    if chars_contain_sub(sel, "React.forwardRef") || chars_contain_sub(sel, "React.memo") {
        push_lit(&mut out, " [component]");
    }
    if chars_contain_sub(sel, "Promise<") {
        push_lit(&mut out, " [promise]");
    }
    if chars_contain_sub(sel, "=>") {
        push_lit(&mut out, " [arrow]");
    }
    if chars_contain_sub(sel, "await ") {
        push_lit(&mut out, " [await]");
    }
    if chars_contain(sel, '<') && chars_contain(sel, '>') {
        push_lit(&mut out, " [generic]");
    }
    if chars_contain_sub(sel, "satisfies ") {
        push_lit(&mut out, " [satisfies]");
    }
    proof {
        assert(out@ =~= ts_markers(sel@));
    }
    out
}

/// Renders a selected TypeScript line: collapsed, with its markers.
fn ts_render(sel: &Vec<char>) -> (r: String)
    ensures
        r@ == collapse_spec(sel@) + ts_markers(sel@),
{
    let c = collapse_chars(sel);
    let mut out = trim_chars(&c);
    let markers = ts_markers_exec(sel);
    let mut k: usize = 0;
    let ghost base = out@;
    while k < markers.len()
        invariant
            k <= markers@.len(),
            out@ == base + markers@.take(k as int),
        decreases markers@.len() - k,
    {
        out.push(markers[k]);
        proof {
            assert(markers@.take(k + 1 as int) =~= markers@.take(k as int).push(
                markers@[k as int],
            ));
            assert(base + markers@.take(k + 1 as int) =~= (base + markers@.take(k as int)).push(
                markers@[k as int],
            ));
        }
        k += 1;
    }
    proof {
        assert(markers@.take(markers@.len() as int) =~= markers@);
    }
    chars_to_string(&out)
}

/// Formats a TypeScript or TSX snippet.
pub fn format_typescript_snippet(raw: &str) -> (r: Option<String>)
    ensures
        match r {
            Option::Some(s) => format_typescript_spec(raw@) == Option::Some(s@),
            Option::None => format_typescript_spec(raw@) is None,
        },
{
    let rv = str_to_chars(raw);
    let lines = split_lines(&rv);
    let ghost ld = lines.deep_view();

    let mut cand: Option<Vec<char>> = Option::None;
    let mut i: usize = 0;
    proof {
        assert(ld == lines_spec(raw@));
        assert(ld.len() == lines@.len());
        assert(ld.skip(0) =~= ld);
    }
    while i < lines.len()
        invariant
            i <= ld.len(),
            ld == lines.deep_view(),
            ld == lines_spec(raw@),
            ld.len() == lines@.len(),
            ts_scan(
                ld.skip(i as int),
                match cand {
                    Option::Some(c) => Option::Some(c@),
                    Option::None => Option::None,
                },
            ) == ts_scan(ld, Option::None),
        decreases ld.len() - i,
    {
        proof {
            let u = ld.skip(i as int);
            assert(u[0] == ld[i as int]);
            assert(u.drop_first() =~= ld.skip(i + 1 as int));
            assert(ld[i as int] =~= lines@[i as int]@);
        }
        let t = trim_chars(&lines[i]);
        if t.len() == 0 || chars_start_with(&t, "//") {
        } else if chars_start_with(&t, "<") {
            proof {
                assert(ts_scan(ld, Option::None).0);
                assert(ts_scan(ld, Option::None).1 == t@);
            }
            let c = collapse_chars(&t);
            let tc = trim_chars(&c);
            return Option::Some(chars_to_string(&tc));
        } else if chars_contain(&t, '<') && chars_contain(&t, '>') {
            proof {
                assert(!ts_scan(ld, Option::None).0);
                assert(ts_scan(ld, Option::None).2 == Option::Some(t@));
            }
            return Option::Some(ts_render(&t));
        } else if chars_start_with(&t, "export") || chars_start_with(&t, "type ")
            || chars_start_with(&t, "interface ") || chars_contain_sub(&t, "=>") {
            cand = Option::Some(t);
        }
        i += 1;
    }
    proof {
        assert(ld.skip(ld.len() as int) =~= Seq::<Seq<char>>::empty());
    }
    match cand {
        Option::Some(c) => Option::Some(ts_render(&c)),
        Option::None => {
            match find_first_nonempty(&lines) {
                Option::Some(t) => Option::Some(ts_render(&t)),
                Option::None => Option::None,
            }
        },
    }
}

/// A line opening a Swift declaration.
pub open spec fn swift_decl_start(t: Seq<char>) -> bool {
    is_prefix_of("func "@, t) || is_prefix_of("protocol "@, t) || is_prefix_of("extension "@, t)
        || is_prefix_of("struct "@, t) || is_prefix_of("class "@, t) || is_prefix_of("actor "@, t)
        || is_prefix_of("init("@, t) || is_prefix_of("init "@, t) || is_prefix_of("enum "@, t)
}

/// A line opening a Swift type-like declaration.
pub open spec fn swift_type_decl_start(t: Seq<char>) -> bool {
    is_prefix_of("extension "@, t) || is_prefix_of("struct "@, t) || is_prefix_of("class "@, t)
        || is_prefix_of("protocol "@, t) || is_prefix_of("actor "@, t) || is_prefix_of(
        "enum "@,
        t,
    )
}

/// A Swift signature continuation line.
pub open spec fn swift_cont_start(t: Seq<char>) -> bool {
    is_prefix_of(")"@, t) || is_prefix_of("async"@, t) || is_prefix_of("throws"@, t)
        || is_prefix_of("rethrows"@, t) || is_prefix_of("->"@, t) || is_prefix_of("where "@, t)
        || is_prefix_of("some "@, t)
}

/// A candidate line: non-empty, not a comment, opening a declaration.
pub open spec fn swift_is_candidate(t: Seq<char>) -> bool {
    t.len() > 0 && !is_prefix_of("//"@, t) && swift_decl_start(t)
}

/// The first candidate index among the trimmed lines, `-1` when none.
pub open spec fn first_decl_idx(ts: Seq<Seq<char>>) -> int
    decreases ts.len(),
{
    if ts.len() == 0 {
        -1
    } else if swift_is_candidate(ts[0]) {
        0
    } else {
        let r = first_decl_idx(ts.drop_first());
        if r == -1 {
            -1
        } else {
            r + 1
        }
    }
}

/// The first non-empty index among the trimmed lines, `-1` when none.
pub open spec fn first_nonempty_idx(ts: Seq<Seq<char>>) -> int
    decreases ts.len(),
{
    if ts.len() == 0 {
        -1
    } else if ts[0].len() > 0 {
        0
    } else {
        let r = first_nonempty_idx(ts.drop_first());
        if r == -1 {
            -1
        } else {
            r + 1
        }
    }
}

/// Deduplicating attribute collection.
pub open spec fn add_attr(attrs: Seq<Seq<char>>, a: Seq<char>) -> Seq<Seq<char>> {
    if attrs.contains(a) {
        attrs
    } else {
        attrs.push(a)
    }
}

/// Gathers the signature continuation lines after the selected one: each
/// continuation joins the signature with a space, attribute lines are
/// collected, anything else stops the walk.
pub open spec fn swift_cont_scan(after: Seq<Seq<char>>, sig: Seq<char>, attrs: Seq<Seq<char>>) -> (
    Seq<char>,
    Seq<Seq<char>>,
)
    decreases after.len(),
{
    if after.len() == 0 {
        (sig, attrs)
    } else {
        let t = after[0];
        if t.len() == 0 {
            (sig, attrs)
        } else if t[0] == '@' {
            swift_cont_scan(after.drop_first(), sig, add_attr(attrs, collapse_spec(t)))
        } else if t[0] == '}' {
            (sig, attrs)
        } else if swift_cont_start(t) {
            swift_cont_scan(after.drop_first(), sig + seq![' '] + t, attrs)
        } else {
            (sig, attrs)
        }
    }
}

/// The access-level marker: the first access keyword found in the lowered
/// signature, at its start or as a word.
pub open spec fn access_hit(lowered: Seq<char>, start: Seq<char>, mid: Seq<char>, call: Seq<char>) -> bool {
    is_prefix_of(start, lowered) || contains_sub(lowered, mid) || contains_sub(lowered, call)
}

pub open spec fn swift_access_marker(lowered: Seq<char>) -> Seq<char> {
    if access_hit(lowered, "public"@, " public "@, " public("@) {
        " [public]"@
    } else if access_hit(lowered, "internal"@, " internal "@, " internal("@) {
        " [internal]"@
    } else if access_hit(lowered, "private"@, " private "@, " private("@) {
        " [private]"@
    } else if access_hit(lowered, "fileprivate"@, " fileprivate "@, " fileprivate("@) {
        " [fileprivate]"@
    } else if access_hit(lowered, "open"@, " open "@, " open("@) {
        " [open]"@
    } else {
        Seq::<char>::empty()
    }
}

/// The markers appended to a collapsed Swift signature.
pub open spec fn swift_markers(collapsed: Seq<char>) -> Seq<char> {
    (if contains_sub(collapsed, "async"@) {
        " [async]"@
    } else {
        Seq::<char>::empty()
    }) + (if contains_sub(lower_spec(collapsed), "await "@) {
        " [await]"@
    } else {
        Seq::<char>::empty()
    }) + swift_access_marker(lower_spec(collapsed)) + (if collapsed.contains('<')
        && collapsed.contains('>') {
        " [generic]"@
    } else {
        Seq::<char>::empty()
    })
}

/// Looks backward through the raw text for an enclosing type declaration,
/// collecting attribute lines on the way. The walk stops at the first
/// non-empty, non-attribute line.
pub open spec fn swift_back_scan(pre: Seq<Seq<char>>, attrs: Seq<Seq<char>>) -> (
    Option<Seq<char>>,
    Seq<Seq<char>>,
)
    decreases pre.len(),
{
    if pre.len() == 0 {
        (Option::None, attrs)
    } else {
        let t = pre.last();
        if t.len() == 0 {
            swift_back_scan(pre.drop_last(), attrs)
        } else if t[0] == '@' {
            swift_back_scan(pre.drop_last(), add_attr(attrs, collapse_spec(t)))
        } else if swift_type_decl_start(t) {
            (Option::Some(collapse_spec(t)), attrs)
        } else {
            (Option::None, attrs)
        }
    }
}

/// Looks upward through the file for an enclosing type declaration, from
/// the line above the match. Attribute lines are collected; a function,
/// initializer or binding ends the walk.
pub open spec fn swift_file_scan(fl: Seq<Seq<char>>, idx: int, attrs: Seq<Seq<char>>) -> (
    Option<Seq<char>>,
    Seq<Seq<char>>,
)
    decreases (if idx >= 0 {
        idx
    } else {
        0
    }),
{
    if idx <= 0 {
        (Option::None, attrs)
    } else if idx - 1 >= fl.len() {
        (Option::None, attrs)
    } else {
        let t = trim_spec(fl[idx - 1]);
        if t.len() == 0 {
            swift_file_scan(fl, idx - 1, attrs)
        } else if t[0] == '@' {
            swift_file_scan(fl, idx - 1, add_attr(attrs, collapse_spec(t)))
        } else if swift_type_decl_start(t) {
            (Option::Some(collapse_spec(t)), attrs)
        } else if is_prefix_of("func "@, t) || is_prefix_of("init"@, t) || is_prefix_of(
            "let "@,
            t,
        ) || is_prefix_of("var "@, t) {
            (Option::None, attrs)
        } else {
            swift_file_scan(fl, idx - 1, attrs)
        }
    }
}

/// Bracketed attribute markers, in order.
pub open spec fn render_attrs(attrs: Seq<Seq<char>>) -> Seq<char>
    decreases attrs.len(),
{
    if attrs.len() == 0 {
        Seq::<char>::empty()
    } else {
        " ["@ + attrs[0] + "]"@ + render_attrs(attrs.drop_first())
    }
}

/// The Swift snippet for a match at 1-based `line` of the file whose lines
/// are `fl`, out of raw matched text `raw`.
pub open spec fn format_swift_spec(line: int, raw: Seq<char>, fl: Seq<Seq<char>>) -> Option<
    Seq<char>,
> {
    let ts = lines_spec(raw).map(|_i: int, l: Seq<char>| trim_spec(l));
    let di = first_decl_idx(ts);
    let sel = if di != -1 {
        di
    } else {
        first_nonempty_idx(ts)
    };
    if sel == -1 {
        Option::None
    } else {
        let scan = swift_cont_scan(ts.skip(sel + 1), ts[sel], Seq::empty());
        let collapsed = collapse_spec(scan.0);
        let with_markers = collapsed + swift_markers(collapsed);
        let back = swift_back_scan(ts.take(sel), scan.1);
        let full = if back.0 is Some {
            back
        } else {
            swift_file_scan(
                fl,
                if line >= 1 {
                    line - 1
                } else {
                    0
                },
                back.1,
            )
        };
        let body = match full.0 {
            Option::Some(c) => c + " :: "@ + with_markers,
            Option::None => with_markers,
        };
        Option::Some(body + render_attrs(full.1.reverse()))
    }
}

/// The snippet for a hit, dispatched on the path's lowercased extension.
pub open spec fn format_snippet_spec(
    path: Seq<char>,
    line: int,
    raw: Seq<char>,
    fl: Seq<Seq<char>>,
) -> Option<Seq<char>> {
    match crate::paths::ext_of_path(path) {
        Option::Some(e) => {
            let le = lower_spec(e);
            if le == "swift"@ {
                format_swift_spec(line, raw, fl)
            } else if le == "ts"@ || le == "tsx"@ {
                format_typescript_spec(raw)
            } else {
                format_default_spec(raw)
            }
        },
        Option::None => format_default_spec(raw),
    }
}

/// Produces the presentation snippet for a hit: Swift and TypeScript files
/// get language-aware selection and markers, everything else the first
/// non-empty line. `file_lines` are the hit file's lines, used only for
/// Swift context lookup; pass an empty vector when unavailable.
pub fn format_snippet(path: &str, line: usize, raw: &str, file_lines: &Vec<String>) -> (r: Option<
    String,
>)
    ensures
        match r {
            Option::Some(s) => format_snippet_spec(path@, line as int, raw@, file_lines.deep_view())
                == Option::Some(s@),
            Option::None => format_snippet_spec(
                path@,
                line as int,
                raw@,
                file_lines.deep_view(),
            ) is None,
        },
{
    let pv = str_to_chars(path);
    match crate::paths::path_extension(&pv) {
        Option::Some(e) => {
            let low = lower_chars(&e);
            let le = chars_to_string(&low);
            if crate::text::str_eq(le.as_str(), "swift") {
                format_swift_snippet(line, raw, file_lines)
            } else if crate::text::str_eq(le.as_str(), "ts") || crate::text::str_eq(
                le.as_str(),
                "tsx",
            ) {
                format_typescript_snippet(raw)
            } else {
                format_default_snippet(raw)
            }
        },
        Option::None => format_default_snippet(raw),
    }
}

fn swift_is_candidate_exec(t: &Vec<char>) -> (r: bool)
    ensures
        r == swift_is_candidate(t@),
{
    t.len() > 0 && !chars_start_with(t, "//") && (chars_start_with(t, "func ") || chars_start_with(
        t,
        "protocol ",
    ) || chars_start_with(t, "extension ") || chars_start_with(t, "struct ") || chars_start_with(
        t,
        "class ",
    ) || chars_start_with(t, "actor ") || chars_start_with(t, "init(") || chars_start_with(
        t,
        "init ",
    ) || chars_start_with(t, "enum "))
}

fn swift_type_decl_exec(t: &Vec<char>) -> (r: bool)
    ensures
        r == swift_type_decl_start(t@),
{
    chars_start_with(t, "extension ") || chars_start_with(t, "struct ") || chars_start_with(
        t,
        "class ",
    ) || chars_start_with(t, "protocol ") || chars_start_with(t, "actor ") || chars_start_with(
        t,
        "enum ",
    )
}

proof fn lemma_first_decl(ts: Seq<Seq<char>>, k: int)
    requires
        0 <= k <= ts.len(),
        forall|j: int| 0 <= j < k ==> !swift_is_candidate(ts[j]),
        k == ts.len() || swift_is_candidate(ts[k]),
    ensures
        first_decl_idx(ts) == if k == ts.len() {
            -1int
        } else {
            k
        },
    decreases ts.len(),
{
    if ts.len() > 0 {
        if k == 0 {
        } else {
            assert(!swift_is_candidate(ts[0]));
            assert forall|j: int| 0 <= j < k - 1 implies !swift_is_candidate(
                ts.drop_first()[j],
            ) by {
                assert(ts.drop_first()[j] == ts[j + 1]);
            }
            if k < ts.len() {
                assert(ts.drop_first()[k - 1] == ts[k]);
            }
            lemma_first_decl(ts.drop_first(), k - 1);
        }
    }
}

proof fn lemma_first_nonempty(ts: Seq<Seq<char>>, k: int)
    requires
        0 <= k <= ts.len(),
        forall|j: int| 0 <= j < k ==> ts[j].len() == 0,
        k == ts.len() || ts[k].len() > 0,
    ensures
        first_nonempty_idx(ts) == if k == ts.len() {
            -1int
        } else {
            k
        },
    decreases ts.len(),
{
    if ts.len() > 0 {
        if k == 0 {
        } else {
            assert forall|j: int| 0 <= j < k - 1 implies ts.drop_first()[j].len() == 0 by {
                assert(ts.drop_first()[j] == ts[j + 1]);
            }
            if k < ts.len() {
                assert(ts.drop_first()[k - 1] == ts[k]);
            }
            lemma_first_nonempty(ts.drop_first(), k - 1);
        }
    }
}

/// Adds a collapsed attribute if it is not yet collected.
fn add_attr_exec(attrs: &mut Vec<String>, a: String)
    ensures
        final(attrs).deep_view() == add_attr(old(attrs).deep_view(), a@),
{
    let present = crate::rewrite::contains_string(attrs, &a);
    if !present {
        let ghost pre = attrs.deep_view();
        attrs.push(a);
        proof {
            assert(attrs.deep_view() =~~= pre.push(a@));
        }
    }
}

/// Formats a Swift snippet for a match at 1-based `line`, given the raw
/// matched text and the lines of the file (empty when unavailable).
#[verifier::rlimit(100)]
pub fn format_swift_snippet(line: usize, raw: &str, file_lines: &Vec<String>) -> (r: Option<
    String,
>)
    ensures
        match r {
            Option::Some(s) => format_swift_spec(line as int, raw@, file_lines.deep_view())
                == Option::Some(s@),
            Option::None => format_swift_spec(line as int, raw@, file_lines.deep_view()) is None,
        },
{
    let rv = str_to_chars(raw);
    let lines = split_lines(&rv);
    let ghost ld = lines.deep_view();

    // trim every line
    let mut ts: Vec<Vec<char>> = Vec::new();
    let mut i: usize = 0;
    let ghost tsd = ld.map(|_i: int, l: Seq<char>| trim_spec(l));
    proof {
        assert(ld.len() == lines@.len());
        assert(ts.deep_view() =~~= tsd.take(0));
    }
    while i < lines.len()
        invariant
            i <= ld.len(),
            ld == lines.deep_view(),
            ld.len() == lines@.len(),
            tsd == ld.map(|_i: int, l: Seq<char>| trim_spec(l)),
            ts.deep_view() == tsd.take(i as int),
        decreases ld.len() - i,
    {
        proof {
            assert(ld[i as int] =~= lines@[i as int]@);
        }
        let ghost pre = ts.deep_view();
        let t = trim_chars(&lines[i]);
        ts.push(t);
        proof {
            assert(ts.deep_view() =~~= pre.push(tsd[i as int]));
            assert(tsd.take(i + 1 as int) =~= tsd.take(i as int).push(tsd[i as int]));
        }
        i += 1;
    }
    proof {
        assert(tsd.take(tsd.len() as int) =~= tsd);
        assert(ts.deep_view() == tsd);
    }
    let ghost tv = ts.deep_view();

    // select the signature line
    let mut sel: usize = 0;
    let mut found = false;
    let mut j: usize = 0;
    while j < ts.len() && !found
        invariant
            j <= tv.len(),
            tv == ts.deep_view(),
            tv.len() == ts@.len(),
            !found ==> forall|k: int| 0 <= k < j ==> !swift_is_candidate(tv[k]),
            found ==> first_decl_idx(tv) == sel && sel < tv.len(),
        decreases tv.len() - j, (if found { 0int } else { 1int }),
    {
        proof {
            assert(tv[j as int] =~= ts@[j as int]@);
        }
        if swift_is_candidate_exec(&ts[j]) {
            proof {
                lemma_first_decl(tv, j as int);
            }
            sel = j;
            found = true;
        } else {
            j += 1;
        }
    }
    if !found {
        proof {
            lemma_first_decl(tv, tv.len() as int);
        }
        let mut j2: usize = 0;
        while j2 < ts.len() && !found
            invariant
                j2 <= tv.len(),
                tv == ts.deep_view(),
                tv.len() == ts@.len(),
                first_decl_idx(tv) == -1,
                !found ==> forall|k: int| 0 <= k < j2 ==> tv[k].len() == 0,
                found ==> first_nonempty_idx(tv) == sel && sel < tv.len(),
            decreases tv.len() - j2, (if found { 0int } else { 1int }),
        {
            proof {
                assert(tv[j2 as int] =~= ts@[j2 as int]@);
            }
            if ts[j2].len() > 0 {
                proof {
                    lemma_first_nonempty(tv, j2 as int);
                }
                sel = j2;
                found = true;
            } else {
                j2 += 1;
            }
        }
        if !found {
            proof {
                lemma_first_nonempty(tv, tv.len() as int);
            }
            return Option::None;
        }
    }
    let ghost seli = sel as int;
    let ghost chosen: int = if first_decl_idx(tv) != -1 {
        first_decl_idx(tv)
    } else {
        first_nonempty_idx(tv)
    };
    proof {
        assert(chosen == seli);
    }

    // gather the continuation lines
    let mut sig = subvec_chars(&ts[sel], 0, ts[sel].len());
    proof {
        assert(sig@ =~= tv[seli]);
    }
    let mut attrs: Vec<String> = Vec::new();
    let mut c: usize = sel + 1;
    let ghost after = tv.skip(seli + 1);
    proof {
        assert(after.skip(0) =~= after);
        assert(attrs.deep_view() =~= Seq::<Seq<char>>::empty());
        assert(swift_cont_scan(after, sig@, attrs.deep_view()) == swift_cont_scan(
            after,
            tv[seli],
            Seq::empty(),
        ));
    }
    let mut cstop = false;
    while c < ts.len() && !cstop
        invariant
            seli + 1 <= c <= tv.len(),
            tv == ts.deep_view(),
            tv.len() == ts@.len(),
            0 <= seli < tv.len(),
            after == tv.skip(seli + 1),
            !cstop ==> swift_cont_scan(after.skip(c - seli - 1), sig@, attrs.deep_view())
                == swift_cont_scan(after, tv[seli], Seq::empty()),
            cstop ==> (sig@, attrs.deep_view()) == swift_cont_scan(after, tv[seli], Seq::empty()),
        decreases tv.len() - c, (if cstop { 0int } else { 1int }),
    {
        proof {
            let u = after.skip(c - seli - 1);
            assert(u[0] == after[c - seli - 1]);
            assert(after[c - seli - 1] == tv[c as int]);
            assert(u.drop_first() =~= after.skip(c - seli));
            assert(tv[c as int] =~= ts@[c as int]@);
        }
        let t = &ts[c];
        if t.len() == 0 {
            cstop = true;
        } else if t[0] == '@' {
            let ca = collapse_chars(t);
            let tc = trim_chars(&ca);
            add_attr_exec(&mut attrs, chars_to_string(&tc));
            c += 1;
        } else if t[0] == '}' {
            cstop = true;
        } else if chars_start_with(t, ")") || chars_start_with(t, "async") || chars_start_with(
            t,
            "throws",
        ) || chars_start_with(t, "rethrows") || chars_start_with(t, "->") || chars_start_with(
            t,
            "where ",
        ) || chars_start_with(t, "some ") {
            let ghost sig0 = sig@;
            sig.push(' ');
            let mut m: usize = 0;
            while m < t.len()
                invariant
                    m <= t@.len(),
                    sig@ == sig0 + seq![' '] + t@.take(m as int),
                decreases t@.len() - m,
            {
                sig.push(t[m]);
                proof {
                    assert(t@.take(m + 1 as int) =~= t@.take(m as int).push(t@[m as int]));
                    assert(sig0 + seq![' '] + t@.take(m + 1 as int) =~= (sig0 + seq![' ']
                        + t@.take(m as int)).push(t@[m as int]));
                }
                m += 1;
            }
            proof {
                assert(t@.take(t@.len() as int) =~= t@);
                assert(sig@ =~= sig0 + seq![' '] + tv[c as int]);
            }
            c += 1;
        } else {
            cstop = true;
        }
    }
    proof {
        if !cstop {
            assert(after.skip(c - seli - 1) =~= Seq::<Seq<char>>::empty());
        }
        assert((sig@, attrs.deep_view()) == swift_cont_scan(after, tv[seli], Seq::empty()));
    }
    let ghost scan = swift_cont_scan(after, tv[seli], Seq::<Seq<char>>::empty());

    // collapse and annotate
    let cc = collapse_chars(&sig);
    let collapsed = trim_chars(&cc);
    proof {
        assert(collapsed@ == collapse_spec(scan.0));
    }
    let lowered = lower_chars(&collapsed);
    let mut with_markers = subvec_chars(&collapsed, 0, collapsed.len());
    proof {
        assert(with_markers@ =~= collapsed@);
    }
    if chars_contain_sub(&collapsed, "async") {
        push_lit(&mut with_markers, " [async]");
    }
    if chars_contain_sub(&lowered, "await ") {
        push_lit(&mut with_markers, " [await]");
    }
    if chars_start_with(&lowered, "public") || chars_contain_sub(&lowered, " public ")
        || chars_contain_sub(&lowered, " public(") {
        push_lit(&mut with_markers, " [public]");
    } else if chars_start_with(&lowered, "internal") || chars_contain_sub(&lowered, " internal ")
        || chars_contain_sub(&lowered, " internal(") {
        push_lit(&mut with_markers, " [internal]");
    } else if chars_start_with(&lowered, "private") || chars_contain_sub(&lowered, " private ")
        || chars_contain_sub(&lowered, " private(") {
        push_lit(&mut with_markers, " [private]");
    } else if chars_start_with(&lowered, "fileprivate") || chars_contain_sub(
        &lowered,
        " fileprivate ",
    ) || chars_contain_sub(&lowered, " fileprivate(") {
        push_lit(&mut with_markers, " [fileprivate]");
    } else if chars_start_with(&lowered, "open") || chars_contain_sub(&lowered, " open ")
        || chars_contain_sub(&lowered, " open(") {
        push_lit(&mut with_markers, " [open]");
    }
    if chars_contain(&collapsed, '<') && chars_contain(&collapsed, '>') {
        push_lit(&mut with_markers, " [generic]");
    }
    proof {
        assert(with_markers@ =~= collapse_spec(scan.0) + swift_markers(collapse_spec(scan.0)));
    }

    // look backward in the raw text for an enclosing declaration
    let mut ctx: Option<Vec<char>> = Option::None;
    let mut b: usize = sel;
    let mut stopped = false;
    let ghost pre_lines = tv.take(seli);
    let ghost back = swift_back_scan(pre_lines, scan.1);
    proof {
        assert(pre_lines.take(seli) =~= pre_lines);
        assert(swift_back_scan(pre_lines.take(b as int), attrs.deep_view()) == back);
    }
    while b > 0 && !stopped
        invariant
            b <= seli,
            tv == ts.deep_view(),
            tv.len() == ts@.len(),
            0 <= seli < tv.len(),
            pre_lines == tv.take(seli),
            back == swift_back_scan(pre_lines, scan.1),
            !stopped ==> ctx is None && swift_back_scan(pre_lines.take(b as int), attrs.deep_view())
                == back,
            stopped ==> (match ctx {
                Option::Some(cv) => back == (Option::Some(cv@), attrs.deep_view()),
                Option::None => back == (Option::<Seq<char>>::None, attrs.deep_view()),
            }),
        decreases b, (if stopped { 0int } else { 1int }),
    {
        proof {
            let u = pre_lines.take(b as int);
            assert(u.last() == tv[b - 1]);
            assert(u.drop_last() =~= pre_lines.take(b - 1));
            assert(tv[b - 1] =~= ts@[b - 1]@);
        }
        let t = &ts[b - 1];
        if t.len() == 0 {
            b -= 1;
        } else if t[0] == '@' {
            let ca = collapse_chars(t);
            let tc = trim_chars(&ca);
            add_attr_exec(&mut attrs, chars_to_string(&tc));
            b -= 1;
        } else if swift_type_decl_exec(t) {
            let ca = collapse_chars(t);
            let tc = trim_chars(&ca);
            ctx = Option::Some(tc);
            stopped = true;
        } else {
            stopped = true;
        }
    }
    proof {
        if !stopped {
            assert(b == 0);
            assert(pre_lines.take(0) =~= Seq::<Seq<char>>::empty());
        }
    }

    // fall back to the file for the enclosing declaration
    let mut ctx_final: Option<Vec<char>> = Option::None;
    match ctx {
        Option::Some(cv) => {
            proof {
                assert(back.0 == Option::Some(cv@));
                assert(back.1 == attrs.deep_view());
            }
            ctx_final = Option::Some(cv);
        },
        Option::None => {
            proof {
                assert(back.0 is None);
                assert(back.1 == attrs.deep_view());
            }
            let ghost fl = file_lines.deep_view();
            let start: usize = if line >= 1 {
                line - 1
            } else {
                0
            };
            let mut idx: usize = start;
            let mut fstopped = false;
            let ghost fscan = swift_file_scan(fl, start as int, back.1);
            proof {
                assert(fl.len() == file_lines@.len());
                assert(swift_file_scan(fl, idx as int, attrs.deep_view()) == fscan);
            }
            while idx > 0 && !fstopped
                invariant
                    fl == file_lines.deep_view(),
                    fl.len() == file_lines@.len(),
                    fscan == swift_file_scan(fl, start as int, back.1),
                    !fstopped ==> ctx_final is None && swift_file_scan(
                        fl,
                        idx as int,
                        attrs.deep_view(),
                    ) == fscan,
                    fstopped ==> (match ctx_final {
                        Option::Some(cv) => fscan == (Option::Some(cv@), attrs.deep_view()),
                        Option::None => fscan == (
                            Option::<Seq<char>>::None,
                            attrs.deep_view(),
                        ),
                    }),
                decreases idx, (if fstopped { 0int } else { 1int }),
            {
                if idx - 1 >= file_lines.len() {
                    fstopped = true;
                } else {
                    proof {
                        assert(fl[idx - 1] =~= file_lines@[idx - 1]@);
                    }
                    let lv = str_to_chars(file_lines[idx - 1].as_str());
                    let t = trim_chars(&lv);
                    if t.len() == 0 {
                        idx -= 1;
                    } else if t[0] == '@' {
                        let ca = collapse_chars(&t);
                        let tc = trim_chars(&ca);
                        add_attr_exec(&mut attrs, chars_to_string(&tc));
                        idx -= 1;
                    } else if swift_type_decl_exec(&t) {
                        let ca = collapse_chars(&t);
                        let tc = trim_chars(&ca);
                        ctx_final = Option::Some(tc);
                        fstopped = true;
                    } else if chars_start_with(&t, "func ") || chars_start_with(&t, "init")
                        || chars_start_with(&t, "let ") || chars_start_with(&t, "var ") {
                        fstopped = true;
                    } else {
                        idx -= 1;
                    }
                }
            }
            proof {
                if !fstopped {
                    assert(idx == 0);
                }
                if ctx_final is None {
                    assert(fscan.0 is None && fscan.1 == attrs.deep_view());
                } else {
                    assert(fscan.0 == Option::Some(ctx_final->Some_0@) && fscan.1
                        == attrs.deep_view());
                }
            }
        },
    }

    // assemble: context prefix, then the reversed attribute markers
    let ghost full = if back.0 is Some {
        back
    } else {
        swift_file_scan(
            file_lines.deep_view(),
            if line as int >= 1 {
                line as int - 1
            } else {
                0
            },
            back.1,
        )
    };
    let mut out: Vec<char> = Vec::new();
    match ctx_final {
        Option::Some(cv) => {
            let mut k: usize = 0;
            proof {
                assert(out@ =~= cv@.take(0));
            }
            while k < cv.len()
                invariant
                    k <= cv@.len(),
                    out@ == cv@.take(k as int),
                decreases cv@.len() - k,
            {
                out.push(cv[k]);
                proof {
                    assert(cv@.take(k + 1 as int) =~= cv@.take(k as int).push(cv@[k as int]));
                }
                k += 1;
            }
            proof {
                assert(cv@.take(cv@.len() as int) =~= cv@);
            }
            push_lit(&mut out, " :: ");
        },
        Option::None => {},
    }
    let ghost body_prefix = out@;
    let mut k: usize = 0;
    while k < with_markers.len()
        invariant
            k <= with_markers@.len(),
            out@ == body_prefix + with_markers@.take(k as int),
        decreases with_markers@.len() - k,
    {
        out.push(with_markers[k]);
        proof {
            assert(with_markers@.take(k + 1 as int) =~= with_markers@.take(k as int).push(
                with_markers@[k as int],
            ));
            assert(body_prefix + with_markers@.take(k + 1 as int) =~= (body_prefix
                + with_markers@.take(k as int)).push(with_markers@[k as int]));
        }
        k += 1;
    }
    proof {
        assert(with_markers@.take(with_markers@.len() as int) =~= with_markers@);
    }

    // reversed attributes
    let ghost ad = attrs.deep_view();
    let mut a: usize = attrs.len();
    let ghost out_before_attrs = out@;
    proof {
        assert(ad.len() == attrs@.len());
        assert(ad.reverse().skip(0) =~= ad.reverse());
        assert(out@ + render_attrs(ad.reverse().skip(0)) == out_before_attrs + render_attrs(
            ad.reverse(),
        ));
    }
    while a > 0
        invariant
            a <= ad.len(),
            ad == attrs.deep_view(),
            ad.len() == attrs@.len(),
            out@ + render_attrs(ad.reverse().skip(ad.len() - a)) == out_before_attrs
                + render_attrs(ad.reverse()),
        decreases a,
    {
        proof {
            let u = ad.reverse().skip(ad.len() - a);
            assert(u[0] == ad.reverse()[ad.len() - a]);
            assert(ad.reverse()[ad.len() - a] == ad[a - 1]);
            assert(u.drop_first() =~= ad.reverse().skip(ad.len() - a + 1));
            assert(ad[a - 1] =~= attrs@[a - 1]@);
        }
        let ghost out0 = out@;
        push_lit(&mut out, " [");
        let av = str_to_chars(attrs[a - 1].as_str());
        let mut m: usize = 0;
        while m < av.len()
            invariant
                m <= av@.len(),
                out@ == out0 + " ["@ + av@.take(m as int),
            decreases av@.len() - m,
        {
            out.push(av[m]);
            proof {
                assert(av@.take(m + 1 as int) =~= av@.take(m as int).push(av@[m as int]));
                assert(out0 + " ["@ + av@.take(m + 1 as int) =~= (out0 + " ["@ + av@.take(
                    m as int,
                )).push(av@[m as int]));
            }
            m += 1;
        }
        proof {
            assert(av@.take(av@.len() as int) =~= av@);
        }
        push_lit(&mut out, "]");
        proof {
            assert(out@ =~= out0 + (" ["@ + ad[a - 1] + "]"@));
            assert(out@ + render_attrs(ad.reverse().skip(ad.len() - a + 1)) =~= out0
                + render_attrs(ad.reverse().skip(ad.len() - a)));
        }
        a -= 1;
    }
    proof {
        assert(ad.reverse().skip(ad.len() as int) =~= Seq::<Seq<char>>::empty());
        assert(out@ + Seq::<char>::empty() =~= out@);
        assert(out@ == out_before_attrs + render_attrs(ad.reverse()));
    }
    Option::Some(chars_to_string(&out))
}

} // verus!
