//! Query rewriting: deriving a deduplicated, regex-escaped list of search
//! patterns from a symbol, conditioned by language tokens.

use vstd::prelude::*;
use vstd::string::*;
use crate::text::{
    chars_to_string, is_upper_char, str_eq, str_to_chars, to_upper, to_upper_char, trim_spec,
    trim_chars, chars_contain, subvec_chars, is_upper,
};

verus! {

/// The regex metacharacters that must be escaped before a symbol is handed
/// to a regex-based search tool.
pub open spec fn is_meta_char(c: char) -> bool {
    c == '\\' || c == '.' || c == '+' || c == '*' || c == '?' || c == '^' || c == '$'
        || c == '(' || c == ')' || c == '[' || c == ']' || c == '{' || c == '}' || c == '|'
}

/// How a single character is rendered in an escaped pattern.
pub open spec fn escape_unit(c: char) -> Seq<char> {
    if is_meta_char(c) {
        seq!['\\', c]
    } else {
        seq![c]
    }
}

/// The escaped form of a string: every metacharacter prefixed by a backslash.
pub open spec fn escape_spec(s: Seq<char>) -> Seq<char>
    decreases s.len(),
{
    if s.len() == 0 {
        Seq::empty()
    } else {
        escape_unit(s[0]) + escape_spec(s.drop_first())
    }
}

/// Decodes an escaped pattern: a backslash quotes the character after it.
pub open spec fn unescape_spec(s: Seq<char>) -> Seq<char>
    decreases s.len(),
{
    if s.len() == 0 {
        Seq::empty()
    } else if s[0] == '\\' && s.len() >= 2 {
        seq![s[1]] + unescape_spec(s.skip(2))
    } else {
        seq![s[0]] + unescape_spec(s.skip(1))
    }
}

/// A pattern in which no metacharacter stands on its own: every
/// metacharacter is consumed by a preceding backslash.
pub open spec fn properly_escaped(s: Seq<char>) -> bool
    decreases s.len(),
{
    if s.len() == 0 {
        true
    } else if s[0] == '\\' {
        s.len() >= 2 && properly_escaped(s.skip(2))
    } else {
        !is_meta_char(s[0]) && properly_escaped(s.skip(1))
    }
}

/// Law: escaping is lossless. Decoding an escaped pattern yields exactly the
/// original characters, so an escaped rewrite denotes the literal symbol and
/// nothing else.
pub proof fn lemma_escape_round_trip(s: Seq<char>)
    ensures
        unescape_spec(escape_spec(s)) == s,
    decreases s.len(),
{
    if s.len() == 0 {
        assert(unescape_spec(escape_spec(s)) =~= s);
    } else {
        let rest = s.drop_first();
        lemma_escape_round_trip(rest);
        let e = escape_spec(s);
        if is_meta_char(s[0]) {
            assert(e == seq!['\\', s[0]] + escape_spec(rest));
            assert(e[0] == '\\');
            assert(e[1] == s[0]);
            assert(e.len() >= 2);
            assert(e.skip(2) =~= escape_spec(rest));
            assert(unescape_spec(e) == seq![s[0]] + unescape_spec(escape_spec(rest)));
            assert(unescape_spec(e) =~= s);
        } else {
            assert(e == seq![s[0]] + escape_spec(rest));
            assert(e[0] == s[0]);
            assert(e[0] != '\\');
            assert(e.skip(1) =~= escape_spec(rest));
            assert(unescape_spec(e) == seq![s[0]] + unescape_spec(escape_spec(rest)));
            assert(unescape_spec(e) =~= s);
        }
    }
}

/// Law: an escaped pattern never leaves a metacharacter bare — every
/// metacharacter in the output is quoted by the backslash before it.
pub proof fn lemma_escape_safe(s: Seq<char>)
    ensures
        properly_escaped(escape_spec(s)),
    decreases s.len(),
{
    if s.len() > 0 {
        let rest = s.drop_first();
        lemma_escape_safe(rest);
        let e = escape_spec(s);
        if is_meta_char(s[0]) {
            assert(e == seq!['\\', s[0]] + escape_spec(rest));
            assert(e[0] == '\\');
            assert(e.len() >= 2);
            assert(e.skip(2) =~= escape_spec(rest));
        } else {
            assert(e == seq![s[0]] + escape_spec(rest));
            assert(e[0] != '\\');
            assert(e.skip(1) =~= escape_spec(rest));
        }
    }
}

/// Keeps the first occurrence of every query, in order.
pub open spec fn dedup_spec(qs: Seq<Seq<char>>) -> Seq<Seq<char>>
    decreases qs.len(),
{
    if qs.len() == 0 {
        Seq::empty()
    } else {
        let prior = dedup_spec(qs.drop_last());
        if prior.contains(qs.last()) {
            prior
        } else {
            prior.push(qs.last())
        }
    }
}

/// No two entries of the sequence are equal.
pub open spec fn no_dup(qs: Seq<Seq<char>>) -> bool {
    forall|i: int, j: int| 0 <= i < j < qs.len() ==> qs[i] != qs[j]
}

pub proof fn lemma_dedup_contains(qs: Seq<Seq<char>>, x: Seq<char>)
    ensures
        dedup_spec(qs).contains(x) == qs.contains(x),
    decreases qs.len(),
{
    if qs.len() > 0 {
        lemma_dedup_contains(qs.drop_last(), x);
        let prior = dedup_spec(qs.drop_last());
        if qs.contains(x) {
            let i = choose|i: int| 0 <= i < qs.len() && qs[i] == x;
            if i < qs.len() - 1 {
                assert(qs.drop_last()[i] == x);
                assert(qs.drop_last().contains(x));
                if !prior.contains(qs.last()) {
                    assert(prior.push(qs.last()).contains(x)) by {
                        let j = choose|j: int| 0 <= j < prior.len() && prior[j] == x;
                        assert(prior.push(qs.last())[j] == x);
                    }
                }
            } else {
                assert(qs[qs.len() - 1] == x);
                if prior.contains(qs.last()) {
                } else {
                    assert(prior.push(x)[prior.len() as int] == x);
                }
            }
        } else {
            assert(!qs.drop_last().contains(x)) by {
                if qs.drop_last().contains(x) {
                    let i = choose|i: int| 0 <= i < qs.drop_last().len() && qs.drop_last()[i] == x;
                    assert(qs[i] == x);
                }
            }
            assert(qs.last() != x) by {
                assert(qs[qs.len() - 1] == qs.last());
            }
            if !prior.contains(qs.last()) {
                assert(!prior.push(qs.last()).contains(x)) by {
                    if prior.push(qs.last()).contains(x) {
                        let j = choose|j: int|
                            0 <= j < prior.push(qs.last()).len() && prior.push(qs.last())[j] == x;
                        if j < prior.len() {
                            assert(prior[j] == x);
                        }
                    }
                }
            }
        }
    }
}

pub proof fn lemma_dedup_no_dup(qs: Seq<Seq<char>>)
    ensures
        no_dup(dedup_spec(qs)),
    decreases qs.len(),
{
    if qs.len() > 0 {
        lemma_dedup_no_dup(qs.drop_last());
        let prior = dedup_spec(qs.drop_last());
        if !prior.contains(qs.last()) {
            let out = prior.push(qs.last());
            assert forall|i: int, j: int| 0 <= i < j < out.len() implies out[i] != out[j] by {
                if j < prior.len() {
                    assert(out[i] == prior[i] && out[j] == prior[j]);
                } else {
                    assert(out[j] == qs.last());
                    assert(out[i] == prior[i]);
                    assert(prior.contains(prior[i]));
                }
            }
        }
    }
}

pub proof fn lemma_dedup_of_no_dup(qs: Seq<Seq<char>>)
    requires
        no_dup(qs),
    ensures
        dedup_spec(qs) == qs,
    decreases qs.len(),
{
    if qs.len() == 0 {
        assert(dedup_spec(qs) =~= qs);
    } else {
        assert(no_dup(qs.drop_last()));
        lemma_dedup_of_no_dup(qs.drop_last());
        let prior = dedup_spec(qs.drop_last());
        assert(!prior.contains(qs.last())) by {
            if prior.contains(qs.last()) {
                let i = choose|i: int| 0 <= i < prior.len() && prior[i] == qs.last();
                assert(qs[i] == qs.last());
                assert(qs[qs.len() - 1] == qs.last());
            }
        }
        assert(prior.push(qs.last()) =~= qs);
    }
}

/// One step of deduplication: appending an element keeps the list unchanged
/// exactly when the element was already present.
pub proof fn lemma_dedup_push(qs: Seq<Seq<char>>, x: Seq<char>)
    ensures
        dedup_spec(qs.push(x)) == if dedup_spec(qs).contains(x) {
            dedup_spec(qs)
        } else {
            dedup_spec(qs).push(x)
        },
{
    assert(qs.push(x).drop_last() =~= qs);
    assert(qs.push(x).last() == x);
}

/// Law: deduplication is idempotent — rewriting the same input twice yields
/// the same ordered query list.
pub proof fn lemma_dedup_idempotent(qs: Seq<Seq<char>>)
    ensures
        dedup_spec(dedup_spec(qs)) == dedup_spec(qs),
{
    lemma_dedup_no_dup(qs);
    lemma_dedup_of_no_dup(dedup_spec(qs));
}

/// The first character uppercased (ASCII), the rest unchanged.
pub open spec fn capitalize_spec(s: Seq<char>) -> Seq<char> {
    if s.len() == 0 {
        s
    } else {
        seq![to_upper_char(s[0])] + s.drop_first()
    }
}

/// The segment after the last `:`, `_` or `.` separator.
pub open spec fn is_sep_char(c: char) -> bool {
    c == ':' || c == '_' || c == '.'
}

pub open spec fn tail_after_last_sep(s: Seq<char>) -> Seq<char>
    decreases s.len(),
{
    if s.len() == 0 {
        Seq::empty()
    } else if is_sep_char(s.last()) {
        Seq::empty()
    } else {
        tail_after_last_sep(s.drop_last()).push(s.last())
    }
}

pub open spec fn has_upper_spec(s: Seq<char>) -> bool {
    exists|i: int| 0 <= i < s.len() && is_upper_char(s[i])
}

/// The suffix starting at the last ASCII-uppercase character.
pub open spec fn from_last_upper(s: Seq<char>) -> Seq<char>
    decreases s.len(),
{
    if s.len() == 0 {
        Seq::empty()
    } else if is_upper_char(s.last()) {
        seq![s.last()]
    } else {
        from_last_upper(s.drop_last()).push(s.last())
    }
}

/// The type hint derived from a trimmed symbol, as the rewriter uses it.
pub open spec fn type_hint_spec(t: Seq<char>) -> Seq<char> {
    if t.len() == 0 {
        "value"@
    } else if t.contains('_') {
        capitalize_spec(tail_after_last_sep(t))
    } else if has_upper_spec(t) {
        from_last_upper(t)
    } else {
        capitalize_spec(t)
    }
}

proof fn lemma_tail_after_last_sep(s: Seq<char>, k: int)
    requires
        0 <= k <= s.len(),
        forall|j: int| k <= j < s.len() ==> !is_sep_char(s[j]),
        k == 0 || is_sep_char(s[k - 1]),
    ensures
        tail_after_last_sep(s) == s.skip(k),
    decreases s.len(),
{
    if k == s.len() {
        if k > 0 {
            assert(is_sep_char(s.last()));
        }
        assert(tail_after_last_sep(s) =~= s.skip(k));
    } else {
        assert(!is_sep_char(s.last()));
        lemma_tail_after_last_sep(s.drop_last(), k);
        assert(s.drop_last().skip(k).push(s.last()) =~= s.skip(k));
    }
}

proof fn lemma_from_last_upper(s: Seq<char>, k: int)
    requires
        0 <= k < s.len(),
        is_upper_char(s[k]),
        forall|j: int| k < j < s.len() ==> !is_upper_char(s[j]),
    ensures
        from_last_upper(s) == s.skip(k),
    decreases s.len(),
{
    if k == s.len() - 1 {
        assert(from_last_upper(s) =~= s.skip(k));
    } else {
        assert(!is_upper_char(s.last()));
        lemma_from_last_upper(s.drop_last(), k);
        assert(s.drop_last().skip(k).push(s.last()) =~= s.skip(k));
    }
}

/// Uppercases the first character (ASCII), keeping the rest.
pub fn capitalize(segment: &str) -> (r: String)
    ensures
        r@ == capitalize_spec(segment@),
{
    let v = str_to_chars(segment);
    if v.len() == 0 {
        String::new()
    } else {
        let mut out: Vec<char> = Vec::new();
        out.push(to_upper(v[0]));
        let mut i: usize = 1;
        while i < v.len()
            invariant
                1 <= i <= v@.len(),
                v@ == segment@,
                out@ =~= seq![to_upper_char(v@[0])] + v@.subrange(1, i as int),
            decreases v@.len() - i,
        {
            out.push(v[i]);
            i += 1;
        }
        proof {
            assert(v@.subrange(1, v@.len() as int) =~= v@.drop_first());
            assert(out@ =~= capitalize_spec(segment@));
        }
        chars_to_string(&out)
    }
}

/// Keeps the first occurrence of each query string, in order.
pub fn dedup_queries(queries: Vec<String>) -> (r: Vec<String>)
    ensures
        r.deep_view() == dedup_spec(queries.deep_view()),
{
    let mut r: Vec<String> = Vec::new();
    let mut i: usize = 0;
    while i < queries.len()
        invariant
            i <= queries@.len(),
            r.deep_view() == dedup_spec(queries.deep_view().take(i as int)),
        decreases queries@.len() - i,
    {
        let ghost pre = queries.deep_view().take(i as int);
        let present = contains_string(&r, &queries[i]);
        if !present {
            r.push(queries[i].clone());
        }
        proof {
            let post = queries.deep_view().take(i + 1 as int);
            assert(post.drop_last() =~= pre);
            assert(post.last() == queries.deep_view()[i as int]);
            if !present {
                assert(r.deep_view() =~= dedup_spec(pre).push(queries.deep_view()[i as int]));
            }
        }
        i += 1;
    }
    proof {
        assert(queries.deep_view().take(queries@.len() as int) =~= queries.deep_view());
    }
    r
}

pub fn is_meta(c: char) -> (r: bool)
    ensures
        r == is_meta_char(c),
{
    c == '\\' || c == '.' || c == '+' || c == '*' || c == '?' || c == '^' || c == '$'
        || c == '(' || c == ')' || c == '[' || c == ']' || c == '{' || c == '}' || c == '|'
}

/// Clones a vector of strings, preserving the values.
pub fn clone_strings(v: &Vec<String>) -> (r: Vec<String>)
    ensures
        r@ == v@,
{
    let mut r: Vec<String> = Vec::new();
    let mut i: usize = 0;
    while i < v.len()
        invariant
            i <= v@.len(),
            r@ =~= v@.take(i as int),
        decreases v@.len() - i,
    {
        r.push(v[i].clone());
        i += 1;
    }
    proof {
        assert(v@.take(v@.len() as int) =~= v@);
    }
    r
}

/// Appends all entries of `src` to `dst`, in order.
pub fn extend_strings(dst: &mut Vec<String>, src: Vec<String>)
    ensures
        final(dst).deep_view() == old(dst).deep_view() + src.deep_view(),
{
    let mut i: usize = 0;
    while i < src.len()
        invariant
            i <= src@.len(),
            dst.deep_view() =~= old(dst).deep_view() + src.deep_view().take(i as int),
        decreases src@.len() - i,
    {
        let ghost pre = dst.deep_view();
        dst.push(src[i].clone());
        proof {
            assert(dst.deep_view() =~= pre.push(src.deep_view()[i as int]));
            assert(src.deep_view().take(i + 1 as int) =~= src.deep_view().take(i as int).push(
                src.deep_view()[i as int],
            ));
        }
        i += 1;
    }
    proof {
        assert(src.deep_view().take(src@.len() as int) =~= src.deep_view());
        assert(dst.deep_view() =~= old(dst).deep_view() + src.deep_view());
    }
}

/// True when some entry of `v` equals the string `s`.
pub fn contains_string(v: &Vec<String>, s: &String) -> (r: bool)
    ensures
        r == v.deep_view().contains(s@),
{
    let mut i: usize = 0;
    while i < v.len()
        invariant
            i <= v@.len(),
            forall|j: int| 0 <= j < i ==> v.deep_view()[j] != s@,
        decreases v@.len() - i,
    {
        if str_eq(v[i].as_str(), s.as_str()) {
            assert(v.deep_view()[i as int] == s@);
            return true;
        }
        i += 1;
    }
    false
}

/// A symbol that starts with `use` and carries more after it, the shape of a
/// front-end hook name.
pub open spec fn is_hook_spec(s: Seq<char>) -> bool {
    s.len() > 3 && s[0] == 'u' && s[1] == 's' && s[2] == 'e'
}

/// A symbol whose first character is uppercase, the shape of a type or
/// component name.
pub open spec fn first_upper_spec(s: Seq<char>) -> bool {
    s.len() > 0 && is_upper_char(s[0])
}

/// The rewrites always emitted for a trimmed symbol: the symbol itself, the
/// symbol next to its type hint, the symbol next to `error`, and the hint
/// dotted with the symbol — each regex-escaped.
pub open spec fn base_queries_spec(t: Seq<char>) -> Seq<Seq<char>> {
    let hint = type_hint_spec(t);
    seq![
        escape_spec(t),
        escape_spec(t + " "@ + hint),
        escape_spec(t + " error"@),
        escape_spec(hint + "."@ + t),
    ]
}

pub open spec fn ts_variants_spec(t: Seq<char>) -> Seq<Seq<char>> {
    let base = seq![
        escape_spec(t + "<"@),
        escape_spec(t + " <"@),
        escape_spec("<"@ + t),
        escape_spec("</"@ + t),
        escape_spec(t + " extends"@),
        escape_spec("type "@ + t),
        escape_spec("interface "@ + t),
        escape_spec("const "@ + t),
        escape_spec("export const "@ + t),
        escape_spec("function "@ + t),
        escape_spec("export function "@ + t),
        escape_spec(t + "("@),
        escape_spec(t + " satisfies"@),
        escape_spec("namespace "@ + t),
        escape_spec("export default "@ + t),
        escape_spec(t + " props"@),
        escape_spec(t + ":"@),
    ];
    let hook = if is_hook_spec(t) {
        seq![escape_spec(t + "("@), escape_spec(t + "<{"@)]
    } else {
        Seq::<Seq<char>>::empty()
    };
    let comp = if first_upper_spec(t) {
        seq![
            escape_spec("<"@ + t + " "@),
            escape_spec("<"@ + t + " />"@),
            escape_spec(t + "Props"@),
            escape_spec(t + "Component"@),
            escape_spec("<"@ + t + " {..."@),
            escape_spec("React.memo("@ + t),
            escape_spec("React.forwardRef("@ + t),
        ]
    } else {
        Seq::<Seq<char>>::empty()
    };
    base + hook + comp
}

pub open spec fn rust_variants_spec(t: Seq<char>) -> Seq<Seq<char>> {
    seq![
        escape_spec("fn "@ + t),
        escape_spec("impl "@ + t),
        escape_spec("trait "@ + t),
        escape_spec("pub(crate) "@ + t),
        escape_spec(t + "::<"@),
        escape_spec("::"@ + t),
        escape_spec("macro_rules! "@ + t),
    ]
}

pub open spec fn swift_variants_spec(t: Seq<char>) -> Seq<Seq<char>> {
    let base = seq![
        escape_spec("func "@ + t),
        escape_spec("func "@ + t + "("@),
        escape_spec("func "@ + t + "<"@),
        escape_spec(t + " async"@),
        escape_spec("@MainActor func "@ + t),
        escape_spec(t + "("@),
        escape_spec("."@ + t),
        escape_spec("self."@ + t),
        escape_spec("await "@ + t),
    ];
    let ty = if first_upper_spec(t) {
        seq![
            escape_spec("@"@ + t),
            escape_spec(": "@ + t),
            escape_spec("extension "@ + t),
            escape_spec("where "@ + t),
        ]
    } else {
        Seq::<Seq<char>>::empty()
    };
    base + ty
}

/// The rewrites contributed by one language token.
pub open spec fn queries_for_lang(t: Seq<char>, lang: Seq<char>) -> Seq<Seq<char>> {
    if lang == "typescript"@ || lang == "ts"@ || lang == "tsx"@ {
        ts_variants_spec(t)
    } else if lang == "swift"@ {
        swift_variants_spec(t)
    } else if lang == "rust"@ {
        rust_variants_spec(t)
    } else {
        Seq::<Seq<char>>::empty()
    }
}

pub open spec fn lang_queries_spec(t: Seq<char>, langs: Seq<Seq<char>>) -> Seq<Seq<char>>
    decreases langs.len(),
{
    if langs.len() == 0 {
        Seq::<Seq<char>>::empty()
    } else {
        lang_queries_spec(t, langs.drop_last()) + queries_for_lang(t, langs.last())
    }
}

/// Everything `build` returns: the deduplicated base rewrites followed by the
/// per-language rewrites, empty when the trimmed symbol is empty.
pub open spec fn build_spec(sym: Seq<char>, langs: Seq<Seq<char>>) -> Seq<Seq<char>> {
    let t = trim_spec(sym);
    if t.len() == 0 {
        Seq::<Seq<char>>::empty()
    } else {
        dedup_spec(base_queries_spec(t) + lang_queries_spec(t, langs))
    }
}

/// Derives regex rewrites for one symbol under a set of language tokens.
pub struct QueryRewriter {
    pub symbol: String,
    pub languages: Vec<String>,
}

impl QueryRewriter {
    pub fn for_symbol(symbol: &str, languages: &Vec<String>) -> (r: Self)
        ensures
            r.symbol@ == symbol@,
            r.languages@ == languages@,
    {
        QueryRewriter { symbol: String::from_str(symbol), languages: clone_strings(languages) }
    }

    /// Escapes every regex metacharacter in the value with a backslash.
    pub fn escape_literal(value: &str) -> (r: String)
        ensures
            r@ == escape_spec(value@),
    {
        let v = str_to_chars(value);
        let mut out: Vec<char> = Vec::new();
        let mut i: usize = 0;
        proof {
            assert(v@.skip(0) =~= v@);
            assert(out@ + escape_spec(v@) =~= escape_spec(v@));
        }
        while i < v.len()
            invariant
                v@ == value@,
                i <= v@.len(),
                out@ + escape_spec(v@.skip(i as int)) == escape_spec(v@),
            decreases v@.len() - i,
        {
            let c = v[i];
            proof {
                let u = v@.skip(i as int);
                assert(u[0] == v@[i as int]);
                assert(u.drop_first() =~= v@.skip(i + 1 as int));
            }
            let ghost out0 = out@;
            if is_meta(c) {
                out.push('\\');
                out.push(c);
            } else {
                out.push(c);
            }
            proof {
                assert(out@ =~= out0 + escape_unit(v@[i as int]));
                assert(out@ + escape_spec(v@.skip(i + 1 as int)) =~= (out0 + escape_spec(
                    v@.skip(i as int),
                )));
            }
            i += 1;
        }
        proof {
            assert(v@.skip(v@.len() as int) =~= Seq::<char>::empty());
            assert(out@ + Seq::<char>::empty() =~= out@);
        }
        chars_to_string(&out)
    }

    /// Derives the type hint of the trimmed symbol: the capitalized final
    /// segment for snake-case names, the suffix from the last uppercase
    /// letter for camel-case names, the capitalized symbol otherwise, and
    /// `value` for an empty symbol.
    pub fn derive_type_hint(&self) -> (r: String)
        ensures
            r@ == type_hint_spec(trim_spec(self.symbol@)),
    {
        let chars = str_to_chars(self.symbol.as_str());
        let t = trim_chars(&chars);
        if t.len() == 0 {
            return String::from_str("value");
        }
        if chars_contain(&t, '_') {
            let mut k: usize = t.len();
            while k > 0 && !is_sep(t[k - 1])
                invariant
                    k <= t@.len(),
                    forall|j: int| k <= j < t@.len() ==> !is_sep_char(t@[j]),
                decreases k,
            {
                k -= 1;
            }
            proof {
                lemma_tail_after_last_sep(t@, k as int);
            }
            let seg = subvec_chars(&t, k, t.len());
            let seg_s = chars_to_string(&seg);
            capitalize(seg_s.as_str())
        } else {
            let mut k: usize = t.len();
            while k > 0 && !is_upper(t[k - 1])
                invariant
                    k <= t@.len(),
                    forall|j: int| k <= j < t@.len() ==> !is_upper_char(t@[j]),
                decreases k,
            {
                k -= 1;
            }
            if k > 0 {
                proof {
                    lemma_from_last_upper(t@, k - 1 as int);
                    assert(has_upper_spec(t@)) by {
                        assert(is_upper_char(t@[k - 1 as int]));
                    }
                }
                let seg = subvec_chars(&t, k - 1, t.len());
                chars_to_string(&seg)
            } else {
                proof {
                    assert(!has_upper_spec(t@));
                }
                let whole = chars_to_string(&t);
                capitalize(whole.as_str())
            }
        }
    }

    pub fn build_typescript_variants(&self, symbol: &str) -> (r: Vec<String>)
        ensures
            symbol@.len() > 0 ==> r.deep_view() == ts_variants_spec(symbol@),
            symbol@.len() == 0 ==> r@.len() == 0,
    {
        let mut v: Vec<String> = Vec::new();
        let n = symbol.unicode_len();
        if n == 0 {
            return v;
        }
        let is_hook = n > 3 && symbol.get_char(0) == 'u' && symbol.get_char(1) == 's'
            && symbol.get_char(2) == 'e';
        let first_upper = is_upper(symbol.get_char(0));

        v.push(Self::escape_literal(String::from_str(symbol).concat("<").as_str()));
        v.push(Self::escape_literal(String::from_str(symbol).concat(" <").as_str()));
        v.push(Self::escape_literal(String::from_str("<").concat(symbol).as_str()));
        v.push(Self::escape_literal(String::from_str("</").concat(symbol).as_str()));
        v.push(Self::escape_literal(String::from_str(symbol).concat(" extends").as_str()));
        v.push(Self::escape_literal(String::from_str("type ").concat(symbol).as_str()));
        v.push(Self::escape_literal(String::from_str("interface ").concat(symbol).as_str()));
        v.push(Self::escape_literal(String::from_str("const ").concat(symbol).as_str()));
        v.push(Self::escape_literal(String::from_str("export const ").concat(symbol).as_str()));
        v.push(Self::escape_literal(String::from_str("function ").concat(symbol).as_str()));
        v.push(Self::escape_literal(String::from_str("export function ").concat(symbol).as_str()));
        v.push(Self::escape_literal(String::from_str(symbol).concat("(").as_str()));
        v.push(Self::escape_literal(String::from_str(symbol).concat(" satisfies").as_str()));
        v.push(Self::escape_literal(String::from_str("namespace ").concat(symbol).as_str()));
        v.push(Self::escape_literal(String::from_str("export default ").concat(symbol).as_str()));
        v.push(Self::escape_literal(String::from_str(symbol).concat(" props").as_str()));
        v.push(Self::escape_literal(String::from_str(symbol).concat(":").as_str()));
        if is_hook {
            v.push(Self::escape_literal(String::from_str(symbol).concat("(").as_str()));
            v.push(Self::escape_literal(String::from_str(symbol).concat("<{").as_str()));
        }
        if first_upper {
            v.push(
                Self::escape_literal(String::from_str("<").concat(symbol).concat(" ").as_str()),
            );
            v.push(
                Self::escape_literal(String::from_str("<").concat(symbol).concat(" />").as_str()),
            );
            v.push(Self::escape_literal(String::from_str(symbol).concat("Props").as_str()));
            v.push(Self::escape_literal(String::from_str(symbol).concat("Component").as_str()));
            v.push(
                Self::escape_literal(String::from_str("<").concat(symbol).concat(" {...").as_str()),
            );
            v.push(Self::escape_literal(String::from_str("React.memo(").concat(symbol).as_str()));
            v.push(
                Self::escape_literal(String::from_str("React.forwardRef(").concat(symbol).as_str()),
            );
        }
        proof {
            assert(is_hook == is_hook_spec(symbol@));
            assert(first_upper == first_upper_spec(symbol@));
            assert(v.deep_view() =~= ts_variants_spec(symbol@));
        }
        v
    }

    pub fn build_rust_variants(&self, symbol: &str) -> (r: Vec<String>)
        ensures
            symbol@.len() > 0 ==> r.deep_view() == rust_variants_spec(symbol@),
            symbol@.len() == 0 ==> r@.len() == 0,
    {
        let mut v: Vec<String> = Vec::new();
        if symbol.unicode_len() == 0 {
            return v;
        }
        v.push(Self::escape_literal(String::from_str("fn ").concat(symbol).as_str()));
        v.push(Self::escape_literal(String::from_str("impl ").concat(symbol).as_str()));
        v.push(Self::escape_literal(String::from_str("trait ").concat(symbol).as_str()));
        v.push(Self::escape_literal(String::from_str("pub(crate) ").concat(symbol).as_str()));
        v.push(Self::escape_literal(String::from_str(symbol).concat("::<").as_str()));
        v.push(Self::escape_literal(String::from_str("::").concat(symbol).as_str()));
        v.push(Self::escape_literal(String::from_str("macro_rules! ").concat(symbol).as_str()));
        proof {
            assert(v.deep_view() =~= rust_variants_spec(symbol@));
        }
        v
    }

    pub fn build_swift_variants(&self, symbol: &str) -> (r: Vec<String>)
        ensures
            symbol@.len() > 0 ==> r.deep_view() == swift_variants_spec(symbol@),
            symbol@.len() == 0 ==> r@.len() == 0,
    {
        let mut v: Vec<String> = Vec::new();
        let n = symbol.unicode_len();
        if n == 0 {
            return v;
        }
        let first_upper = is_upper(symbol.get_char(0));
        v.push(Self::escape_literal(String::from_str("func ").concat(symbol).as_str()));
        v.push(
            Self::escape_literal(String::from_str("func ").concat(symbol).concat("(").as_str()),
        );
        v.push(
            Self::escape_literal(String::from_str("func ").concat(symbol).concat("<").as_str()),
        );
        v.push(Self::escape_literal(String::from_str(symbol).concat(" async").as_str()));
        v.push(Self::escape_literal(String::from_str("@MainActor func ").concat(symbol).as_str()));
        v.push(Self::escape_literal(String::from_str(symbol).concat("(").as_str()));
        v.push(Self::escape_literal(String::from_str(".").concat(symbol).as_str()));
        v.push(Self::escape_literal(String::from_str("self.").concat(symbol).as_str()));
        v.push(Self::escape_literal(String::from_str("await ").concat(symbol).as_str()));
        if first_upper {
            v.push(Self::escape_literal(String::from_str("@").concat(symbol).as_str()));
            v.push(Self::escape_literal(String::from_str(": ").concat(symbol).as_str()));
            v.push(Self::escape_literal(String::from_str("extension ").concat(symbol).as_str()));
            v.push(Self::escape_literal(String::from_str("where ").concat(symbol).as_str()));
        }
        proof {
            assert(first_upper == first_upper_spec(symbol@));
            assert(v.deep_view() =~= swift_variants_spec(symbol@));
        }
        v
    }

    /// Produces the full ordered, deduplicated rewrite list for the symbol.
    pub fn build(&self) -> (r: Vec<String>)
        ensures
            r.deep_view() == build_spec(self.symbol@, self.languages.deep_view()),
    {
        let chars = str_to_chars(self.symbol.as_str());
        let tv = trim_chars(&chars);
        if tv.len() == 0 {
            let r: Vec<String> = Vec::new();
            proof {
                assert(r.deep_view() =~= build_spec(self.symbol@, self.languages.deep_view()));
            }
            return r;
        }
        let ghost tspec = trim_spec(self.symbol@);
        let t = chars_to_string(&tv);
        let hint = self.derive_type_hint();

        let mut queries: Vec<String> = Vec::new();
        queries.push(Self::escape_literal(t.as_str()));
        queries.push(
            Self::escape_literal(
                String::from_str(t.as_str()).concat(" ").concat(hint.as_str()).as_str(),
            ),
        );
        queries.push(Self::escape_literal(String::from_str(t.as_str()).concat(" error").as_str()));
        queries.push(
            Self::escape_literal(
                String::from_str(hint.as_str()).concat(".").concat(t.as_str()).as_str(),
            ),
        );
        proof {
            assert(queries.deep_view() =~= base_queries_spec(tspec));
        }

        let ghost langs = self.languages.deep_view();
        let mut li: usize = 0;
        while li < self.languages.len()
            invariant
                li <= langs.len(),
                langs == self.languages.deep_view(),
                tspec == trim_spec(self.symbol@),
                tspec.len() > 0,
                t@ == tspec,
                queries.deep_view() == base_queries_spec(tspec) + lang_queries_spec(
                    tspec,
                    langs.take(li as int),
                ),
            decreases langs.len() - li,
        {
            let ghost pre = queries.deep_view();
            let lang = self.languages[li].clone();
            if str_eq(lang.as_str(), "typescript") || str_eq(lang.as_str(), "ts") || str_eq(
                lang.as_str(),
                "tsx",
            ) {
                let vs = self.build_typescript_variants(t.as_str());
                extend_strings(&mut queries, vs);
            } else if str_eq(lang.as_str(), "swift") {
                let vs = self.build_swift_variants(t.as_str());
                extend_strings(&mut queries, vs);
            } else if str_eq(lang.as_str(), "rust") {
                let vs = self.build_rust_variants(t.as_str());
                extend_strings(&mut queries, vs);
            }
            proof {
                assert(langs.take(li + 1 as int).drop_last() =~= langs.take(li as int));
                assert(langs.take(li + 1 as int).last() == langs[li as int]);
                assert(lang@ == langs[li as int]);
                assert(queries.deep_view() =~= pre + queries_for_lang(tspec, langs[li as int]));
                assert(queries.deep_view() =~= base_queries_spec(tspec) + lang_queries_spec(
                    tspec,
                    langs.take(li + 1 as int),
                ));
            }
            li += 1;
        }
        proof {
            assert(langs.take(langs.len() as int) =~= langs);
        }
        dedup_queries(queries)
    }
}

pub fn is_sep(c: char) -> (r: bool)
    ensures
        r == is_sep_char(c),
{
    c == ':' || c == '_' || c == '.'
}

} // verus!
