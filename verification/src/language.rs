//! Language hints: normalizing a request's language hint into an ordered,
//! deduplicated list of language tokens, and mapping tokens to file
//! extensions.

use vstd::prelude::*;
use vstd::string::*;
use crate::text::{
    chars_start_with, chars_to_string, is_prefix_of, str_eq, str_to_chars, subvec_chars,
    to_lower, to_lower_char, trim_chars, trim_spec,
};
use crate::rewrite::{contains_string, dedup_spec, lemma_dedup_push};

verus! {

/// ASCII lowercasing of every character.
pub open spec fn lower_spec(s: Seq<char>) -> Seq<char> {
    s.map(|_i: int, c: char| to_lower_char(c))
}

/// Lowercases a character vector (ASCII).
pub fn lower_chars(v: &Vec<char>) -> (r: Vec<char>)
    ensures
        r@ == lower_spec(v@),
{
    let mut r: Vec<char> = Vec::new();
    let mut i: usize = 0;
    while i < v.len()
        invariant
            i <= v@.len(),
            r@ =~= lower_spec(v@.take(i as int)),
        decreases v@.len() - i,
    {
        r.push(to_lower(v[i]));
        proof {
            assert(lower_spec(v@.take(i + 1 as int)) =~= lower_spec(v@.take(i as int)).push(
                to_lower_char(v@[i as int]),
            ));
        }
        i += 1;
    }
    proof {
        assert(v@.take(v@.len() as int) =~= v@);
    }
    r
}

/// What one normalized language token expands to.
pub open spec fn expand_token_spec(t: Seq<char>) -> Seq<Seq<char>> {
    if t == "typescript"@ || t == "ts"@ {
        seq!["ts"@, "tsx"@]
    } else if t == "tsx"@ {
        seq!["tsx"@]
    } else if t == "swift"@ {
        seq!["swift"@]
    } else if t == "rust"@ || t == "rs"@ {
        seq!["rust"@]
    } else if t == "javascript"@ || t == "js"@ {
        seq!["js"@, "jsx"@]
    } else if t == "jsx"@ {
        seq!["jsx"@]
    } else if t == "kotlin"@ || t == "kt"@ {
        seq!["kt"@, "kts"@]
    } else if t == "kts"@ {
        seq!["kts"@]
    } else if t == "python"@ || t == "py"@ {
        seq!["py"@]
    } else if t == "swiftui"@ {
        seq!["swift"@]
    } else {
        seq![t]
    }
}

/// Expands one normalized language token into its language tags.
pub fn expand_language_token(token: &str) -> (r: Vec<String>)
    ensures
        r.deep_view() == expand_token_spec(token@),
{
    let mut r: Vec<String> = Vec::new();
    if str_eq(token, "typescript") || str_eq(token, "ts") {
        r.push(String::from_str("ts"));
        r.push(String::from_str("tsx"));
    } else if str_eq(token, "tsx") {
        r.push(String::from_str("tsx"));
    } else if str_eq(token, "swift") {
        r.push(String::from_str("swift"));
    } else if str_eq(token, "rust") || str_eq(token, "rs") {
        r.push(String::from_str("rust"));
    } else if str_eq(token, "javascript") || str_eq(token, "js") {
        r.push(String::from_str("js"));
        r.push(String::from_str("jsx"));
    } else if str_eq(token, "jsx") {
        r.push(String::from_str("jsx"));
    } else if str_eq(token, "kotlin") || str_eq(token, "kt") {
        r.push(String::from_str("kt"));
        r.push(String::from_str("kts"));
    } else if str_eq(token, "kts") {
        r.push(String::from_str("kts"));
    } else if str_eq(token, "python") || str_eq(token, "py") {
        r.push(String::from_str("py"));
    } else if str_eq(token, "swiftui") {
        r.push(String::from_str("swift"));
    } else {
        r.push(String::from_str(token));
    }
    proof {
        assert(r.deep_view() =~= expand_token_spec(token@));
    }
    r
}

/// Splitting on separator characters; `with_dash` adds `-` to the separator
/// set. The result lists every run between separators, empty runs included.
pub open spec fn is_split_char(c: char, with_dash: bool) -> bool {
    c == '+' || c == '|' || c == ',' || (with_dash && c == '-')
}

pub open spec fn raw_parts(s: Seq<char>, with_dash: bool) -> Seq<Seq<char>>
    decreases s.len(),
{
    if s.len() == 0 {
        seq![Seq::<char>::empty()]
    } else {
        let prior = raw_parts(s.drop_last(), with_dash);
        if is_split_char(s.last(), with_dash) {
            prior.push(Seq::<char>::empty())
        } else {
            prior.update(prior.len() - 1, prior.last().push(s.last()))
        }
    }
}

pub open spec fn nonempty_parts(ps: Seq<Seq<char>>) -> Seq<Seq<char>>
    decreases ps.len(),
{
    if ps.len() == 0 {
        Seq::<Seq<char>>::empty()
    } else {
        nonempty_parts(ps.drop_last()) + (
        if ps.last().len() > 0 {
            seq![ps.last()]
        } else {
            Seq::<Seq<char>>::empty()
        })
    }
}

proof fn lemma_raw_parts_len(s: Seq<char>, with_dash: bool)
    ensures
        raw_parts(s, with_dash).len() >= 1,
    decreases s.len(),
{
    if s.len() > 0 {
        lemma_raw_parts_len(s.drop_last(), with_dash);
    }
}

/// Splits a character sequence on the separator set, dropping empty runs.
pub fn split_tokens(v: &Vec<char>, with_dash: bool) -> (r: Vec<Vec<char>>)
    ensures
        r.deep_view() == nonempty_parts(raw_parts(v@, with_dash)),
{
    let mut parts: Vec<Vec<char>> = Vec::new();
    let mut cur: Vec<char> = Vec::new();
    let mut i: usize = 0;
    proof {
        assert(raw_parts(v@.take(0), with_dash) =~= seq![Seq::<char>::empty()]);
        assert(parts.deep_view().push(cur@) =~~= raw_parts(v@.take(0), with_dash));
    }
    while i < v.len()
        invariant
            i <= v@.len(),
            parts.deep_view().push(cur@) == raw_parts(v@.take(i as int), with_dash),
        decreases v@.len() - i,
    {
        let c = v[i];
        let is_sep = c == '+' || c == '|' || c == ',' || (with_dash && c == '-');
        let ghost pre_parts = parts.deep_view();
        let ghost pre_cur = cur@;
        if is_sep {
            parts.push(cur);
            cur = Vec::new();
        } else {
            cur.push(c);
        }
        proof {
            assert(is_sep == is_split_char(v@[i as int], with_dash));
            assert(v@.take(i + 1 as int).drop_last() =~= v@.take(i as int));
            assert(v@.take(i + 1 as int).last() == v@[i as int]);
            let old_raw = raw_parts(v@.take(i as int), with_dash);
            assert(old_raw.len() >= 1) by {
                lemma_raw_parts_len(v@.take(i as int), with_dash);
            }
            assert(old_raw.drop_last() =~= pre_parts);
            assert(old_raw.last() == pre_cur);
            if is_sep {
                assert(parts.deep_view() =~~= pre_parts.push(pre_cur));
                assert(parts.deep_view().push(cur@) =~~= old_raw.push(Seq::<char>::empty()));
            } else {
                assert(parts.deep_view().push(cur@) =~~= old_raw.update(
                    old_raw.len() - 1,
                    old_raw.last().push(v@[i as int]),
                ));
            }
        }
        i += 1;
    }
    proof {
        assert(v@.take(v@.len() as int) =~= v@);
    }
    // keep only the non-empty runs
    let ghost all = raw_parts(v@, with_dash);
    let ghost fin_parts = parts.deep_view();
    let ghost fin_cur = cur@;
    parts.push(cur);
    let mut r: Vec<Vec<char>> = Vec::new();
    let mut j: usize = 0;
    proof {
        assert(parts.deep_view() =~~= fin_parts.push(fin_cur));
        assert(parts.deep_view() == all);
    }
    while j < parts.len()
        invariant
            j <= parts@.len(),
            parts.deep_view() == all,
            r.deep_view() == nonempty_parts(all.take(j as int)),
        decreases parts@.len() - j,
    {
        let ghost pre = r.deep_view();
        proof {
            assert(parts.deep_view()[j as int] =~= parts@[j as int]@);
        }
        if parts[j].len() > 0 {
            let piece = subvec_chars(&parts[j], 0, parts[j].len());
            proof {
                assert(piece@ =~= all[j as int]);
            }
            r.push(piece);
            proof {
                assert(r.deep_view() =~~= pre.push(all[j as int]));
            }
        }
        proof {
            assert(all.take(j + 1 as int).drop_last() =~= all.take(j as int));
            assert(all.take(j + 1 as int).last() == all[j as int]);
            if all[j as int].len() > 0 {
                assert(r.deep_view() =~= pre + seq![all[j as int]]);
            } else {
                assert(r.deep_view() =~= pre + Seq::<Seq<char>>::empty());
            }
        }
        j += 1;
    }
    proof {
        assert(all.take(all.len() as int) =~= all);
    }
    r
}

/// The expansion of a sequence of split parts, in order.
pub open spec fn expand_parts_spec(ps: Seq<Seq<char>>) -> Seq<Seq<char>>
    decreases ps.len(),
{
    if ps.len() == 0 {
        Seq::<Seq<char>>::empty()
    } else {
        expand_parts_spec(ps.drop_last()) + expand_token_spec(ps.last())
    }
}

/// Strips every leading `auto-` marker.
pub open spec fn strip_auto_spec(s: Seq<char>) -> Seq<char>
    decreases s.len(),
{
    if is_prefix_of("auto-"@, s) && "auto-"@.len() > 0 {
        strip_auto_spec(s.skip("auto-"@.len() as int))
    } else {
        s
    }
}

/// The full normalization of an optional language hint into ordered,
/// deduplicated language tokens.
pub open spec fn expand_hint_spec(language: Option<Seq<char>>) -> Seq<Seq<char>> {
    match language {
        Option::None => Seq::<Seq<char>>::empty(),
        Option::Some(raw) => {
            let norm = lower_spec(trim_spec(raw));
            if norm.len() == 0 {
                Seq::<Seq<char>>::empty()
            } else if is_prefix_of("auto-"@, norm) {
                let rem = strip_auto_spec(norm);
                dedup_spec(expand_parts_spec(nonempty_parts(raw_parts(rem, true))))
            } else {
                let parts = nonempty_parts(raw_parts(norm, false));
                if parts.len() == 0 {
                    dedup_spec(expand_token_spec(norm))
                } else {
                    dedup_spec(expand_parts_spec(parts))
                }
            }
        },
    }
}

/// Expands a sequence of parts and deduplicates the outcome.
fn expand_and_dedup(parts: &Vec<Vec<char>>) -> (r: Vec<String>)
    ensures
        r.deep_view() == dedup_spec(expand_parts_spec(parts.deep_view())),
{
    let mut r: Vec<String> = Vec::new();
    let ghost pd = parts.deep_view();
    let mut i: usize = 0;
    proof {
        assert(pd.take(0) =~= Seq::<Seq<char>>::empty());
        assert(r.deep_view() =~= dedup_spec(expand_parts_spec(pd.take(0))));
    }
    while i < parts.len()
        invariant
            i <= parts@.len(),
            pd == parts.deep_view(),
            r.deep_view() == dedup_spec(expand_parts_spec(pd.take(i as int))),
        decreases parts@.len() - i,
    {
        let ghost acc = expand_parts_spec(pd.take(i as int));
        proof {
            assert(pd[i as int] =~= parts@[i as int]@);
        }
        let part_s = chars_to_string(&parts[i]);
        let toks = expand_language_token(part_s.as_str());
        let mut k: usize = 0;
        proof {
            assert(expand_token_spec(pd[i as int]).take(0) =~= Seq::<Seq<char>>::empty());
            assert(acc + expand_token_spec(pd[i as int]).take(0) =~= acc);
        }
        while k < toks.len()
            invariant
                k <= toks@.len(),
                pd == parts.deep_view(),
                i < pd.len(),
                toks.deep_view() == expand_token_spec(pd[i as int]),
                acc == expand_parts_spec(pd.take(i as int)),
                r.deep_view() == dedup_spec(acc + expand_token_spec(pd[i as int]).take(k as int)),
            decreases toks@.len() - k,
        {
            let ghost sofar = acc + expand_token_spec(pd[i as int]).take(k as int);
            let present = contains_string(&r, &toks[k]);
            if !present {
                r.push(toks[k].clone());
            }
            proof {
                let x = expand_token_spec(pd[i as int])[k as int];
                lemma_dedup_push(sofar, x);
                assert(sofar.push(x) =~= acc + expand_token_spec(pd[i as int]).take(k + 1 as int));
                if !present {
                    assert(r.deep_view() =~= dedup_spec(sofar).push(x));
                }
            }
            k += 1;
        }
        proof {
            let et = expand_token_spec(pd[i as int]);
            assert(et.take(et.len() as int) =~= et);
            assert(pd.take(i + 1 as int).drop_last() =~= pd.take(i as int));
            assert(pd.take(i + 1 as int).last() == pd[i as int]);
        }
        i += 1;
    }
    proof {
        assert(pd.take(pd.len() as int) =~= pd);
    }
    r
}

/// Normalizes an optional language hint into its ordered, deduplicated
/// language tokens.
pub fn expand_language_hint(language: Option<&str>) -> (r: Vec<String>)
    ensures
        r.deep_view() == expand_hint_spec(
            match language {
                Option::None => Option::None,
                Option::Some(s) => Option::Some(s@),
            },
        ),
{
    let raw = match language {
        Option::None => {
            let r: Vec<String> = Vec::new();
            proof {
                assert(r.deep_view() =~= Seq::<Seq<char>>::empty());
            }
            return r;
        },
        Option::Some(s) => s,
    };
    let rc = str_to_chars(raw);
    let trimmed = trim_chars(&rc);
    let norm = lower_chars(&trimmed);
    if norm.len() == 0 {
        let r: Vec<String> = Vec::new();
        proof {
            assert(r.deep_view() =~= Seq::<Seq<char>>::empty());
        }
        return r;
    }
    if chars_start_with(&norm, "auto-") {
        let alen = "auto-".unicode_len();
        let mut rem = subvec_chars(&norm, alen, norm.len());
        proof {
            assert(alen > 0) by {
                reveal_strlit("auto-");
            }
            assert(norm@.skip("auto-"@.len() as int) =~= norm@.subrange(
                alen as int,
                norm@.len() as int,
            ));
        }
        while chars_start_with(&rem, "auto-")
            invariant
                strip_auto_spec(rem@) == strip_auto_spec(norm@),
            decreases rem@.len(),
        {
            let n = "auto-".unicode_len();
            proof {
                assert(n > 0) by {
                    reveal_strlit("auto-");
                }
            }
            let next = subvec_chars(&rem, n, rem.len());
            proof {
                assert(next@ =~= rem@.skip("auto-"@.len() as int));
            }
            rem = next;
        }
        let parts = split_tokens(&rem, true);
        proof {
            assert(rem@ == strip_auto_spec(norm@));
        }
        expand_and_dedup(&parts)
    } else {
        let parts = split_tokens(&norm, false);
        if parts.len() == 0 {
            let norm_s = chars_to_string(&norm);
            let toks = expand_language_token(norm_s.as_str());
            proof {
                assert(parts.deep_view().len() == 0);
            }
            dedup_token_list(toks)
        } else {
            expand_and_dedup(&parts)
        }
    }
}

/// Deduplicates a token list, keeping first occurrences in order.
fn dedup_token_list(toks: Vec<String>) -> (r: Vec<String>)
    ensures
        r.deep_view() == dedup_spec(toks.deep_view()),
{
    crate::rewrite::dedup_queries(toks)
}

/// The file extensions one language token filters to.
pub open spec fn exts_for_lang_spec(lang: Seq<char>) -> Seq<Seq<char>> {
    if lang == "swift"@ {
        seq!["swift"@]
    } else if lang == "tsx"@ {
        seq!["tsx"@]
    } else if lang == "ts"@ || lang == "typescript"@ {
        seq!["ts"@, "tsx"@]
    } else if lang == "rust"@ {
        seq!["rs"@]
    } else if lang == "js"@ || lang == "javascript"@ {
        seq!["js"@, "jsx"@]
    } else if lang == "jsx"@ {
        seq!["jsx"@]
    } else if lang == "kt"@ || lang == "kts"@ || lang == "kotlin"@ {
        seq!["kt"@, "kts"@]
    } else if lang == "py"@ || lang == "python"@ {
        seq!["py"@]
    } else {
        Seq::<Seq<char>>::empty()
    }
}

pub open spec fn all_exts_spec(langs: Seq<Seq<char>>) -> Seq<Seq<char>>
    decreases langs.len(),
{
    if langs.len() == 0 {
        Seq::<Seq<char>>::empty()
    } else {
        all_exts_spec(langs.drop_last()) + exts_for_lang_spec(langs.last())
    }
}

/// The deduplicated extension filter for a token list; `None` when no token
/// maps to an extension.
pub open spec fn ext_filter_spec(langs: Seq<Seq<char>>) -> Option<Seq<Seq<char>>> {
    let all = dedup_spec(all_exts_spec(langs));
    if all.len() == 0 {
        Option::None
    } else {
        Option::Some(all)
    }
}

fn exts_for_lang(lang: &str) -> (r: Vec<String>)
    ensures
        r.deep_view() == exts_for_lang_spec(lang@),
{
    let mut r: Vec<String> = Vec::new();
    if str_eq(lang, "swift") {
        r.push(String::from_str("swift"));
    } else if str_eq(lang, "tsx") {
        r.push(String::from_str("tsx"));
    } else if str_eq(lang, "ts") || str_eq(lang, "typescript") {
        r.push(String::from_str("ts"));
        r.push(String::from_str("tsx"));
    } else if str_eq(lang, "rust") {
        r.push(String::from_str("rs"));
    } else if str_eq(lang, "js") || str_eq(lang, "javascript") {
        r.push(String::from_str("js"));
        r.push(String::from_str("jsx"));
    } else if str_eq(lang, "jsx") {
        r.push(String::from_str("jsx"));
    } else if str_eq(lang, "kt") || str_eq(lang, "kts") || str_eq(lang, "kotlin") {
        r.push(String::from_str("kt"));
        r.push(String::from_str("kts"));
    } else if str_eq(lang, "py") || str_eq(lang, "python") {
        r.push(String::from_str("py"));
    }
    proof {
        assert(r.deep_view() =~= exts_for_lang_spec(lang@));
    }
    r
}

/// Maps the language tokens to the file-extension filter they imply:
/// the distinct extensions in token order, `None` when no token is known.
pub fn extensions_for_languages(languages: &Vec<String>) -> (r: Option<Vec<String>>)
    ensures
        match r {
            Option::Some(v) => ext_filter_spec(languages.deep_view()) == Option::Some(
                v.deep_view(),
            ),
            Option::None => ext_filter_spec(languages.deep_view()) is None,
        },
{
    let mut acc: Vec<String> = Vec::new();
    let ghost langs = languages.deep_view();
    let mut i: usize = 0;
    proof {
        assert(langs.take(0) =~= Seq::<Seq<char>>::empty());
        assert(acc.deep_view() =~= dedup_spec(all_exts_spec(langs.take(0))));
    }
    while i < languages.len()
        invariant
            i <= langs.len(),
            langs == languages.deep_view(),
            acc.deep_view() == dedup_spec(all_exts_spec(langs.take(i as int))),
        decreases langs.len() - i,
    {
        let ghost sofar = all_exts_spec(langs.take(i as int));
        proof {
            assert(langs[i as int] =~= languages@[i as int]@);
        }
        let exts = exts_for_lang(languages[i].as_str());
        let mut k: usize = 0;
        proof {
            assert(exts_for_lang_spec(langs[i as int]).take(0) =~= Seq::<Seq<char>>::empty());
            assert(sofar + exts_for_lang_spec(langs[i as int]).take(0) =~= sofar);
        }
        while k < exts.len()
            invariant
                k <= exts@.len(),
                langs == languages.deep_view(),
                i < langs.len(),
                exts.deep_view() == exts_for_lang_spec(langs[i as int]),
                sofar == all_exts_spec(langs.take(i as int)),
                acc.deep_view() == dedup_spec(
                    sofar + exts_for_lang_spec(langs[i as int]).take(k as int),
                ),
            decreases exts@.len() - k,
        {
            let ghost before = sofar + exts_for_lang_spec(langs[i as int]).take(k as int);
            let present = contains_string(&acc, &exts[k]);
            if !present {
                acc.push(exts[k].clone());
            }
            proof {
                let x = exts_for_lang_spec(langs[i as int])[k as int];
                lemma_dedup_push(before, x);
                assert(before.push(x) =~= sofar + exts_for_lang_spec(langs[i as int]).take(
                    k + 1 as int,
                ));
                if !present {
                    assert(acc.deep_view() =~= dedup_spec(before).push(x));
                }
            }
            k += 1;
        }
        proof {
            let ee = exts_for_lang_spec(langs[i as int]);
            assert(ee.take(ee.len() as int) =~= ee);
            assert(langs.take(i + 1 as int).drop_last() =~= langs.take(i as int));
            assert(langs.take(i + 1 as int).last() == langs[i as int]);
        }
        i += 1;
    }
    proof {
        assert(langs.take(langs.len() as int) =~= langs);
    }
    if acc.len() == 0 {
        proof {
            assert(acc.deep_view().len() == 0);
        }
        Option::None
    } else {
        proof {
            assert(acc.deep_view().len() > 0);
        }
        Option::Some(acc)
    }
}

/// The extension filter for a single raw language hint (lowercased).
pub open spec fn single_hint_exts_spec(lang: Seq<char>) -> Option<Seq<Seq<char>>> {
    let l = lower_spec(lang);
    if l == "rust"@ {
        Option::Some(seq!["rs"@])
    } else if l == "swift"@ {
        Option::Some(seq!["swift"@])
    } else if l == "typescript"@ || l == "ts"@ {
        Option::Some(seq!["ts"@, "tsx"@])
    } else if l == "tsx"@ {
        Option::Some(seq!["tsx"@])
    } else if l == "javascript"@ || l == "js"@ {
        Option::Some(seq!["js"@, "jsx"@])
    } else if l == "python"@ || l == "py"@ {
        Option::Some(seq!["py"@])
    } else if l == "kotlin"@ {
        Option::Some(seq!["kt"@, "kts"@])
    } else {
        Option::None
    }
}

/// Maps one raw language hint to the extensions it implies.
pub fn language_to_extensions(language: &str) -> (r: Option<Vec<String>>)
    ensures
        match r {
            Option::Some(v) => single_hint_exts_spec(language@) == Option::Some(v.deep_view()),
            Option::None => single_hint_exts_spec(language@) is None,
        },
{
    let lv = str_to_chars(language);
    let low = lower_chars(&lv);
    let l = chars_to_string(&low);
    let mut r: Vec<String> = Vec::new();
    if str_eq(l.as_str(), "rust") {
        r.push(String::from_str("rs"));
    } else if str_eq(l.as_str(), "swift") {
        r.push(String::from_str("swift"));
    } else if str_eq(l.as_str(), "typescript") || str_eq(l.as_str(), "ts") {
        r.push(String::from_str("ts"));
        r.push(String::from_str("tsx"));
    } else if str_eq(l.as_str(), "tsx") {
        r.push(String::from_str("tsx"));
    } else if str_eq(l.as_str(), "javascript") || str_eq(l.as_str(), "js") {
        r.push(String::from_str("js"));
        r.push(String::from_str("jsx"));
    } else if str_eq(l.as_str(), "python") || str_eq(l.as_str(), "py") {
        r.push(String::from_str("py"));
    } else if str_eq(l.as_str(), "kotlin") {
        r.push(String::from_str("kt"));
        r.push(String::from_str("kts"));
    } else {
        proof {
            assert(single_hint_exts_spec(language@) is None);
        }
        return Option::None;
    }
    proof {
        assert(single_hint_exts_spec(language@) == Option::Some(r.deep_view())) by {
            assert(r.deep_view() =~= single_hint_exts_spec(language@)->Some_0);
        }
    }
    Option::Some(r)
}

/// The language a path's extension identifies, if any.
pub open spec fn detect_lang_spec(p: Seq<char>) -> Option<Seq<char>> {
    match crate::paths::ext_of_path(p) {
        Option::None => Option::None,
        Option::Some(e) => {
            let le = lower_spec(e);
            if le == "rs"@ {
                Option::Some("rust"@)
            } else if le == "swift"@ {
                Option::Some("swift"@)
            } else if le == "ts"@ {
                Option::Some("typescript"@)
            } else if le == "tsx"@ {
                Option::Some("tsx"@)
            } else if le == "js"@ {
                Option::Some("javascript"@)
            } else if le == "jsx"@ {
                Option::Some("jsx"@)
            } else if le == "py"@ {
                Option::Some("python"@)
            } else if le == "kt"@ || le == "kts"@ {
                Option::Some("kotlin"@)
            } else {
                Option::None
            }
        },
    }
}

/// Detects the language a path's extension identifies.
pub fn detect_language_from_path(path: &str) -> (r: Option<String>)
    ensures
        match r {
            Option::Some(l) => detect_lang_spec(path@) == Option::Some(l@),
            Option::None => detect_lang_spec(path@) is None,
        },
{
    let pv = str_to_chars(path);
    let ext = match crate::paths::path_extension(&pv) {
        Option::Some(e) => e,
        Option::None => {
            return Option::None;
        },
    };
    let low = lower_chars(&ext);
    let le = chars_to_string(&low);
    if str_eq(le.as_str(), "rs") {
        Option::Some(String::from_str("rust"))
    } else if str_eq(le.as_str(), "swift") {
        Option::Some(String::from_str("swift"))
    } else if str_eq(le.as_str(), "ts") {
        Option::Some(String::from_str("typescript"))
    } else if str_eq(le.as_str(), "tsx") {
        Option::Some(String::from_str("tsx"))
    } else if str_eq(le.as_str(), "js") {
        Option::Some(String::from_str("javascript"))
    } else if str_eq(le.as_str(), "jsx") {
        Option::Some(String::from_str("jsx"))
    } else if str_eq(le.as_str(), "py") {
        Option::Some(String::from_str("python"))
    } else if str_eq(le.as_str(), "kt") || str_eq(le.as_str(), "kts") {
        Option::Some(String::from_str("kotlin"))
    } else {
        Option::None
    }
}

/// Whether a path passes the extension filter: with no filter everything
/// passes; with a filter the path's extension must match one entry,
/// case-insensitively.
/// Some entry of the filter equals the extension, case-insensitively.
pub open spec fn filter_has_ext(exts: Seq<Seq<char>>, e: Seq<char>) -> bool {
    exists|i: int| 0 <= i < exts.len() && lower_spec(exts[i]) == lower_spec(e)
}

pub open spec fn passes_filter_spec(p: Seq<char>, filter: Option<Seq<Seq<char>>>) -> bool {
    match filter {
        Option::None => true,
        Option::Some(exts) => crate::paths::ext_of_path(p) is Some && filter_has_ext(
            exts,
            crate::paths::ext_of_path(p)->Some_0,
        ),
    }
}

/// Tests a path against an optional extension filter.
pub fn passes_extension_filter(path: &str, extensions: Option<&Vec<String>>) -> (r: bool)
    ensures
        r == passes_filter_spec(
            path@,
            match extensions {
                Option::None => Option::None,
                Option::Some(v) => Option::Some(v.deep_view()),
            },
        ),
{
    let exts = match extensions {
        Option::None => {
            return true;
        },
        Option::Some(v) => v,
    };
    let pv = str_to_chars(path);
    let e = match crate::paths::path_extension(&pv) {
        Option::Some(e) => e,
        Option::None => {
            return false;
        },
    };
    let le = chars_to_string(&lower_chars(&e));
    let ghost ed = exts.deep_view();
    proof {
        assert(ed.len() == exts@.len());
    }
    let mut i: usize = 0;
    while i < exts.len()
        invariant
            i <= ed.len(),
            ed == exts.deep_view(),
            ed.len() == exts@.len(),
            le@ == lower_spec(e@),
            extensions is Some,
            ed == extensions->Some_0.deep_view(),
            crate::paths::ext_of_path(path@) == Option::Some(e@),
            forall|j: int| 0 <= j < i ==> lower_spec(ed[j]) != lower_spec(e@),
        decreases ed.len() - i,
    {
        let cand = &exts[i];
        let cl = chars_to_string(&lower_chars(&str_to_chars(cand.as_str())));
        if str_eq(cl.as_str(), le.as_str()) {
            proof {
                assert(ed[i as int] == exts@[i as int]@);
                assert(lower_spec(ed[i as int]) == lower_spec(e@));
                assert(exists|j: int| 0 <= j < ed.len() && lower_spec(ed[j]) == lower_spec(e@))
                    by {
                    assert(0 <= (i as int) < ed.len() && lower_spec(ed[i as int]) == lower_spec(
                        e@,
                    ));
                }
                assert(crate::paths::ext_of_path(path@) is Some);
                let espec = crate::paths::ext_of_path(path@)->Some_0;
                assert(espec == e@);
                let sd = extensions->Some_0.deep_view();
                assert(sd == ed);
                assert(filter_has_ext(sd, espec)) by {
                    assert(0 <= (i as int) < sd.len() && lower_spec(sd[i as int]) == lower_spec(
                        espec,
                    ));
                }
                assert(passes_filter_spec(path@, Option::Some(extensions->Some_0.deep_view())));
            }
            return true;
        }
        proof {
            assert(ed[i as int] == exts@[i as int]@);
        }
        i += 1;
    }
    false
}

/// True when the token list carries the given language tag.
pub fn languages_include(tokens: &Vec<String>, needle: &str) -> (r: bool)
    ensures
        r == tokens.deep_view().contains(needle@),
{
    let mut i: usize = 0;
    while i < tokens.len()
        invariant
            i <= tokens@.len(),
            forall|j: int| 0 <= j < i ==> tokens.deep_view()[j] != needle@,
        decreases tokens@.len() - i,
    {
        if str_eq(tokens[i].as_str(), needle) {
            assert(tokens.deep_view()[i as int] == needle@);
            return true;
        }
        i += 1;
    }
    false
}

} // verus!
