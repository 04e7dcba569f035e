//! The external search tools' verified surface: configuration, argument
//! lists, structural pattern tables, output parsing and match merging. The
//! process spawning itself happens outside the library; everything the
//! library decides about an invocation is here.

use vstd::prelude::*;
use vstd::string::*;
use crate::text::{dec_chars, usize_to_chars, chars_to_string, str_eq, str_to_chars, trim_chars,
    trim_spec};
use crate::paths::normalize_path;
use crate::jsonval::{parse_json, value_get, value_as_str, value_as_u64, value_as_array};
use crate::language::{lower_chars, lower_spec};

verus! {

/// A decimal rendering of a number as a `String`.
pub fn dec_string(n: usize) -> (r: String)
    ensures
        r@ == dec_chars(n as nat),
{
    let v = usize_to_chars(n);
    chars_to_string(&v)
}

/// One structural match reported by the syntax-aware tool.
pub struct AstGrepMatch {
    pub path: String,
    pub line: usize,
}

/// A pattern the syntax-aware tool rejected.
pub struct AstPatternError {
    pub pattern: String,
    pub message: String,
}

impl AstPatternError {
    pub fn new(pattern: String, message: String) -> (r: Self)
        ensures
            r.pattern == pattern,
            r.message == message,
    {
        AstPatternError { pattern, message }
    }

    pub fn pattern(&self) -> (r: &str)
        ensures
            r@ == self.pattern@,
    {
        self.pattern.as_str()
    }

    pub fn message(&self) -> (r: &str)
        ensures
            r@ == self.message@,
    {
        self.message.as_str()
    }

    /// A readable rendering of the error.
    pub fn describe(&self) -> (r: String)
        ensures
            r@ == "ast-grep pattern error for '"@ + self.pattern@ + "': "@ + self.message@,
    {
        String::from_str("ast-grep pattern error for '").concat(self.pattern.as_str()).concat(
            "': ",
        ).concat(self.message.as_str())
    }
}

/// One match from a ripgrep-style JSON stream.
pub struct RipgrepMatch {
    pub path: String,
    pub line_number: usize,
    pub lines: String,
    pub raw_json: String,
}

/// One match from the document-content fallback tool.
pub struct RgaMatch {
    pub path: String,
    pub line_number: usize,
    pub lines: String,
}

/// A parsed line of ripgrep-style JSON output.
pub enum RgMessage {
    Match { data: RgMatchData },
    Other,
}

pub struct RgMatchData {
    pub path: RgPath,
    pub lines: RgLines,
    pub line_number: usize,
}

pub struct RgPath {
    pub text: String,
}

pub struct RgLines {
    pub text: String,
}

/// Configuration for the file-name discovery tool.
pub struct FdTool {
    pub timeout_ms: u64,
    pub max_results: usize,
}

/// The argument list handed to the file-name discovery tool.
pub open spec fn fd_args_spec(max_results: int, needle: Seq<char>) -> Seq<Seq<char>> {
    seq![
        "--type"@,
        "f"@,
        "--hidden"@,
        "--color"@,
        "never"@,
        "--max-results"@,
        dec_chars(max_results as nat),
        needle,
        "."@,
    ]
}

impl FdTool {
    pub fn new(timeout_ms: u64, max_results: usize) -> (r: Self)
        ensures
            r.timeout_ms == timeout_ms,
            r.max_results == max_results,
    {
        FdTool { timeout_ms, max_results }
    }

    /// Builds the full argument list for one run.
    pub fn args(&self, needle: &str) -> (r: Vec<String>)
        ensures
            r.deep_view() == fd_args_spec(self.max_results as int, needle@),
    {
        let mut r: Vec<String> = Vec::new();
        r.push(String::from_str("--type"));
        r.push(String::from_str("f"));
        r.push(String::from_str("--hidden"));
        r.push(String::from_str("--color"));
        r.push(String::from_str("never"));
        r.push(String::from_str("--max-results"));
        r.push(dec_string(self.max_results));
        r.push(String::from_str(needle));
        r.push(String::from_str("."));
        proof {
            assert(r.deep_view() =~= fd_args_spec(self.max_results as int, needle@));
        }
        r
    }
}

/// Configuration for the ripgrep runs.
pub struct RipgrepTool {
    pub timeout_ms: u64,
    pub max_matches: usize,
    pub context_before: usize,
    pub context_after: usize,
    pub max_columns: usize,
    pub threads: usize,
}

/// The fixed head of a ripgrep argument list.
pub open spec fn rg_head_spec(t: RipgrepTool) -> Seq<Seq<char>> {
    seq![
        "--json"@,
        "--line-number"@,
        "--column"@,
        "--threads"@,
        dec_chars(t.threads as nat),
        "--max-columns"@,
        dec_chars(t.max_columns as nat),
        "--smart-case"@,
        "--max-count"@,
        dec_chars(t.max_matches as nat),
    ] + (if t.context_before > 0 {
        seq!["--before-context"@, dec_chars(t.context_before as nat)]
    } else {
        Seq::<Seq<char>>::empty()
    }) + (if t.context_after > 0 {
        seq!["--after-context"@, dec_chars(t.context_after as nat)]
    } else {
        Seq::<Seq<char>>::empty()
    })
}

/// Each query contributes a `-e` flag and its pattern.
pub open spec fn rg_query_args(queries: Seq<Seq<char>>) -> Seq<Seq<char>>
    decreases queries.len(),
{
    if queries.len() == 0 {
        Seq::<Seq<char>>::empty()
    } else {
        rg_query_args(queries.drop_last()) + seq!["-e"@, queries.last()]
    }
}

/// The scope arguments: each path normalized against the root; `.` for an
/// empty scope.
pub open spec fn rg_scope_args(root: Seq<char>, paths: Seq<Seq<char>>, cap: int) -> Seq<
    Seq<char>,
> {
    if paths.len() == 0 {
        seq!["."@]
    } else {
        crate::hints::first_n(paths, cap).map(
            |_i: int, p: Seq<char>|
                crate::paths::strip_root_spec(root, crate::paths::join_spec(root, p)),
        )
    }
}

impl RipgrepTool {
    /// Builds a ripgrep configuration; the thread count is at least one.
    pub fn new(
        timeout_ms: u64,
        max_matches: usize,
        context_before: usize,
        context_after: usize,
        max_columns: usize,
        threads: usize,
    ) -> (r: Self)
        ensures
            r.timeout_ms == timeout_ms,
            r.max_matches == max_matches,
            r.context_before == context_before,
            r.context_after == context_after,
            r.max_columns == max_columns,
            r.threads == if threads >= 1 {
                threads
            } else {
                1
            },
    {
        RipgrepTool {
            timeout_ms,
            max_matches,
            context_before,
            context_after,
            max_columns,
            threads: if threads >= 1 {
                threads
            } else {
                1
            },
        }
    }

    /// Builds the full argument list for a union search over the given
    /// queries, scoped to the given paths.
    pub fn search_args(&self, root: &str, queries: &Vec<String>, paths: &Vec<String>) -> (r: Vec<
        String,
    >)
        ensures
            r.deep_view() == rg_head_spec(*self) + rg_query_args(queries.deep_view())
                + rg_scope_args(root@, paths.deep_view(), self.max_matches as int),
    {
        let mut r: Vec<String> = Vec::new();
        r.push(String::from_str("--json"));
        r.push(String::from_str("--line-number"));
        r.push(String::from_str("--column"));
        r.push(String::from_str("--threads"));
        r.push(dec_string(self.threads));
        r.push(String::from_str("--max-columns"));
        r.push(dec_string(self.max_columns));
        r.push(String::from_str("--smart-case"));
        r.push(String::from_str("--max-count"));
        r.push(dec_string(self.max_matches));
        if self.context_before > 0 {
            r.push(String::from_str("--before-context"));
            r.push(dec_string(self.context_before));
        }
        if self.context_after > 0 {
            r.push(String::from_str("--after-context"));
            r.push(dec_string(self.context_after));
        }
        proof {
            assert(r.deep_view() =~= rg_head_spec(*self));
        }
        let ghost qd = queries.deep_view();
        let mut i: usize = 0;
        while i < queries.len()
            invariant
                i <= qd.len(),
                qd == queries.deep_view(),
                qd.len() == queries@.len(),
                r.deep_view() == rg_head_spec(*self) + rg_query_args(qd.take(i as int)),
            decreases qd.len() - i,
        {
            let ghost pre = r.deep_view();
            r.push(String::from_str("-e"));
            r.push(queries[i].clone());
            proof {
                assert(qd[i as int] == queries@[i as int]@);
                assert(qd.take(i + 1 as int).drop_last() =~= qd.take(i as int));
                assert(qd.take(i + 1 as int).last() == qd[i as int]);
                assert(r.deep_view() =~= pre + seq!["-e"@, qd[i as int]]);
            }
            i += 1;
        }
        proof {
            assert(qd.take(qd.len() as int) =~= qd);
        }
        let ghost base = r.deep_view();
        let ghost pd = paths.deep_view();
        if paths.len() == 0 {
            r.push(String::from_str("."));
            proof {
                assert(r.deep_view() =~= base + rg_scope_args(root@, pd, self.max_matches as int));
            }
        } else {
            let cap: usize = if paths.len() > self.max_matches {
                self.max_matches
            } else {
                paths.len()
            };
            let ghost capped = crate::hints::first_n(pd, self.max_matches as int);
            let ghost mapped = rg_scope_args(root@, pd, self.max_matches as int);
            let mut k: usize = 0;
            proof {
                assert(capped.len() == cap);
                assert(mapped.len() == cap);
            }
            while k < cap
                invariant
                    k <= cap,
                    pd == paths.deep_view(),
                    pd.len() == paths@.len(),
                    pd.len() > 0,
                    cap <= pd.len(),
                    capped == crate::hints::first_n(pd, self.max_matches as int),
                    mapped == rg_scope_args(root@, pd, self.max_matches as int),
                    capped.len() == cap,
                    mapped.len() == cap,
                    r.deep_view() == base + mapped.take(k as int),
                decreases cap - k,
            {
                let ghost pre = r.deep_view();
                proof {
                    assert(pd[k as int] == paths@[k as int]@);
                    assert(capped[k as int] == pd[k as int]);
                    assert(mapped[k as int] == crate::paths::strip_root_spec(
                        root@,
                        crate::paths::join_spec(root@, pd[k as int]),
                    ));
                }
                let rel = normalize_path(root, paths[k].as_str());
                r.push(rel);
                proof {
                    assert(r.deep_view() =~= pre.push(mapped[k as int]));
                    assert(mapped.take(k + 1 as int) =~= mapped.take(k as int).push(
                        mapped[k as int],
                    ));
                }
                k += 1;
            }
            proof {
                assert(mapped.take(cap as int) =~= mapped);
            }
        }
        r
    }
}

/// Configuration for the document-content fallback tool.
pub struct RgaTool {
    pub timeout_ms: u64,
    pub max_matches: usize,
}

/// The argument list for a content-fallback run over the raw symbol.
pub open spec fn rga_args_spec(query: Seq<char>) -> Seq<Seq<char>> {
    seq!["--json"@, "--line-number"@, "--column"@, "--max-columns"@, "200"@, query, "."@]
}

impl RgaTool {
    pub fn new(timeout_ms: u64, max_matches: usize) -> (r: Self)
        ensures
            r.timeout_ms == timeout_ms,
            r.max_matches == max_matches,
    {
        RgaTool { timeout_ms, max_matches }
    }

    pub fn args(&self, query: &str) -> (r: Vec<String>)
        ensures
            r.deep_view() == rga_args_spec(query@),
    {
        let mut r: Vec<String> = Vec::new();
        r.push(String::from_str("--json"));
        r.push(String::from_str("--line-number"));
        r.push(String::from_str("--column"));
        r.push(String::from_str("--max-columns"));
        r.push(String::from_str("200"));
        r.push(String::from_str(query));
        r.push(String::from_str("."));
        proof {
            assert(r.deep_view() =~= rga_args_spec(query@));
        }
        r
    }
}

/// Configuration for the syntax-aware disambiguation tool.
pub struct AstGrepTool {
    pub timeout_ms: u64,
    pub max_matches: usize,
}

impl AstGrepTool {
    pub fn new(timeout_ms: u64, max_matches: usize) -> (r: Self)
        ensures
            r.timeout_ms == timeout_ms,
            r.max_matches == max_matches,
    {
        AstGrepTool { timeout_ms, max_matches }
    }
}

/// Parses one line of ripgrep-style JSON output. A complete record of
/// type `match` (per `rg_match_of`) whose line number fits the platform
/// becomes a `Match` carrying exactly the record's path, line number and
/// text; everything else is `Other`.
pub fn parse_rg_line(line: &str) -> (r: RgMessage)
    ensures
        match crate::jsonval::rg_match_of(line@) {
            Option::Some(f) => {
                &&& f.1 <= usize::MAX ==> (r matches RgMessage::Match { data } && data.path.text@
                    == f.0 && data.line_number as int == f.1 as int && data.lines.text@ == f.2)
                &&& f.1 > usize::MAX ==> r is Other
            },
            Option::None => r is Other,
        },
{
    match crate::jsonval::rg_match_fields(line) {
        Option::Some(fields) => {
            let (path_text, n, lines_text) = fields;
            if n > usize::MAX as u64 {
                RgMessage::Other
            } else {
                RgMessage::Match {
                    data: RgMatchData {
                        path: RgPath { text: path_text },
                        lines: RgLines { text: lines_text },
                        line_number: n as usize,
                    },
                }
            }
        },
        Option::None => RgMessage::Other,
    }
}

/// The structural matches a value list denotes: for each element in order,
/// the fields `ast_fields_of` names, kept when present and within the
/// platform's line range.
pub open spec fn ast_parsed(values: Seq<serde_json::Value>) -> Seq<(Seq<char>, u64)>
    decreases values.len(),
{
    if values.len() == 0 {
        Seq::<(Seq<char>, u64)>::empty()
    } else {
        ast_parsed(values.drop_last()) + (match crate::jsonval::ast_fields_of(values.last()) {
            Option::Some(f) => if f.1 <= usize::MAX {
                seq![f]
            } else {
                Seq::<(Seq<char>, u64)>::empty()
            },
            Option::None => Seq::<(Seq<char>, u64)>::empty(),
        })
    }
}

/// Extracts the structural matches from parsed JSON values: the first
/// `limit` complete records, in order.
pub fn parse_ast_values(values: &Vec<serde_json::Value>, limit: usize) -> (r: Vec<AstGrepMatch>)
    ensures
        r@.len() == (if ast_parsed(values@).len() < limit {
            ast_parsed(values@).len() as int
        } else {
            limit as int
        }),
        forall|i: int|
            0 <= i < r@.len() ==> (#[trigger] r@[i]).path@ == ast_parsed(values@)[i].0
                && r@[i].line as int == ast_parsed(values@)[i].1 as int,
{
    let ghost vd = values@;
    let mut out: Vec<AstGrepMatch> = Vec::new();
    let mut i: usize = 0;
    proof {
        assert(vd.take(0) =~= Seq::<serde_json::Value>::empty());
    }
    while i < values.len()
        invariant
            i <= vd.len(),
            values@ == vd,
            out@.len() == (if ast_parsed(vd.take(i as int)).len() < limit {
                ast_parsed(vd.take(i as int)).len() as int
            } else {
                limit as int
            }),
            forall|k: int|
                0 <= k < out@.len() ==> (#[trigger] out@[k]).path@ == ast_parsed(
                    vd.take(i as int),
                )[k].0 && out@[k].line as int == ast_parsed(vd.take(i as int))[k].1 as int,
        decreases vd.len() - i,
    {
        proof {
            assert(vd.take(i + 1 as int).drop_last() =~= vd.take(i as int));
            assert(vd.take(i + 1 as int).last() == vd[i as int]);
        }
        let fields = crate::jsonval::ast_value_fields(&values[i]);
        let ghost pre = out@;
        match fields {
            Option::Some(f) => {
                let (path, n) = f;
                if n <= usize::MAX as u64 && out.len() < limit {
                    out.push(AstGrepMatch { path, line: n as usize });
                }
            },
            Option::None => {},
        }
        proof {
            let prev = ast_parsed(vd.take(i as int));
            let cur = ast_parsed(vd.take(i + 1 as int));
            assert forall|k: int| 0 <= k < prev.len() && k < limit implies cur[k] == prev[k] by {
                assert(cur =~= prev + (cur.skip(prev.len() as int)));
            }
        }
        i += 1;
    }
    proof {
        assert(vd.take(vd.len() as int) =~= vd);
    }
    out
}

/// Parses the syntax-aware tool's output text: a top-level JSON array of
/// match objects, or one object. Element extraction and capping follow
/// `parse_ast_values`; at most `limit` matches come back.
pub fn parse_ast_output(text: &str, limit: usize) -> (r: Vec<AstGrepMatch>)
    ensures
        r@.len() <= limit,
{
    let mut out: Vec<AstGrepMatch> = Vec::new();
    if let Option::Some(v) = parse_json(text) {
        if let Option::Some(arr) = value_as_array(&v) {
            return parse_ast_values(arr, limit);
        }
        if let Option::Some(fields) = crate::jsonval::ast_value_fields(&v) {
            let (path, n) = fields;
            if n <= usize::MAX as u64 && limit > 0 {
                out.push(AstGrepMatch { path, line: n as usize });
            }
        }
        return out;
    }
    out
}

/// Membership of a `(path, line)` key among structural matches.
pub open spec fn ast_key_mem(s: Seq<AstGrepMatch>, p: Seq<char>, l: usize) -> bool {
    exists|i: int| 0 <= i < s.len() && s[i].path@ == p && s[i].line == l
}

/// What absorbing one batch produces: each batch element in order joins
/// the aggregate unless its key is already present or the aggregate is
/// full.
pub open spec fn absorb_spec(agg: Seq<AstGrepMatch>, batch: Seq<AstGrepMatch>, max: int) -> Seq<
    AstGrepMatch,
>
    decreases batch.len(),
{
    if batch.len() == 0 {
        agg
    } else {
        let m = batch[0];
        let a1 = if agg.len() >= max {
            agg
        } else if ast_key_mem(agg, m.path@, m.line) {
            agg
        } else {
            agg.push(m)
        };
        absorb_spec(a1, batch.drop_first(), max)
    }
}

/// A full aggregate absorbs nothing more.
proof fn lemma_absorb_full(agg: Seq<AstGrepMatch>, batch: Seq<AstGrepMatch>, max: int)
    requires
        agg.len() >= max,
    ensures
        absorb_spec(agg, batch, max) == agg,
    decreases batch.len(),
{
    if batch.len() > 0 {
        lemma_absorb_full(agg, batch.drop_first(), max);
    }
}

/// Folds one pattern's matches into the aggregate: duplicate `(path, line)`
/// keys are skipped and the aggregate never exceeds `max_matches`.
pub fn absorb_ast_matches(agg: &mut Vec<AstGrepMatch>, batch: Vec<AstGrepMatch>, max_matches: usize)
    requires
        old(agg)@.len() <= max_matches,
    ensures
        final(agg)@ == absorb_spec(old(agg)@, batch@, max_matches as int),
        final(agg)@.len() <= max_matches,
{
    let ghost b = batch@;
    let mut i: usize = 0;
    proof {
        assert(b.skip(0) =~= b);
    }
    while i < batch.len()
        invariant
            i <= b.len(),
            batch@ == b,
            agg@.len() <= max_matches,
            absorb_spec(agg@, b.skip(i as int), max_matches as int) == absorb_spec(
                old(agg)@,
                b,
                max_matches as int,
            ),
        decreases b.len() - i,
    {
        proof {
            let u = b.skip(i as int);
            assert(u[0] == b[i as int]);
            assert(u.drop_first() =~= b.skip(i + 1 as int));
        }
        if agg.len() >= max_matches {
            proof {
                lemma_absorb_full(agg@, b.skip(i as int), max_matches as int);
            }
            return ;
        }
        let m = &batch[i];
        let mut seen = false;
        let mut j: usize = 0;
        while j < agg.len()
            invariant
                j <= agg@.len(),
                seen ==> ast_key_mem(agg@, m.path@, m.line),
                !seen ==> forall|k: int|
                    0 <= k < j ==> !((#[trigger] agg@[k]).path@ == m.path@ && agg@[k].line
                        == m.line),
            decreases agg@.len() - j,
        {
            if str_eq(agg[j].path.as_str(), m.path.as_str()) && agg[j].line == m.line {
                proof {
                    assert(agg@[j as int].path@ == m.path@ && agg@[j as int].line == m.line);
                }
                seen = true;
            }
            j += 1;
        }
        let ghost pre = agg@;
        if !seen {
            agg.push(AstGrepMatch { path: m.path.clone(), line: m.line });
            proof {
                assert(agg@ =~= pre.push(b[i as int]));
            }
        }
        proof {
            assert(seen == ast_key_mem(pre, b[i as int].path@, b[i as int].line));
        }
        i += 1;
    }
    proof {
        assert(b.skip(b.len() as int) =~= Seq::<AstGrepMatch>::empty());
    }
}

/// The full pattern tables, keyed by the lowercased language.
pub open spec fn patterns_spec(needle: Seq<char>, lang_lower: Seq<char>) -> Seq<Seq<char>> {
    if needle.len() == 0 {
        seq!["(identifier) @id"@]
    } else if lang_lower == "swift"@ {
        seq![
        "(function_declaration name: (identifier) @id (#eq? @id \""@ + needle + "\"))"@,
        "(protocol_declaration name: (identifier) @id (#eq? @id \""@ + needle + "\"))"@,
        "(protocol_member_declaration (function_declaration name: (identifier) @id) (#eq? @id \""@ + needle + "\"))"@,
        "(initializer_declaration name: (identifier) @id (#eq? @id \""@ + needle + "\"))"@,
        "(class_declaration body: (member_declaration_list (member_declaration (function_declaration name: (identifier) @id (#eq? @id \""@ + needle + "\")))))"@,
        "(struct_declaration body: (member_declaration_list (member_declaration (function_declaration name: (identifier) @id (#eq? @id \""@ + needle + "\")))))"@,
        "(extension_declaration body: (member_declaration_list (member_declaration (function_declaration name: (identifier) @id (#eq? @id \""@ + needle + "\")))))"@,
        "(actor_declaration body: (member_declaration_list (member_declaration (function_declaration name: (identifier) @id (#eq? @id \""@ + needle + "\")))))"@,
        "(member_access_expression name: (identifier) @id (#eq? @id \""@ + needle + "\"))"@,
        "(function_call_expression function: (identifier) @id (#eq? @id \""@ + needle + "\"))"@,
        "(await_expression (function_call_expression function: (identifier) @id (#eq? @id \""@ + needle + "\")))"@,
        "(attribute attribute_name: (identifier) @id (#eq? @id \""@ + needle + "\"))"@,
        "(extension_declaration protocol_conformance: (identifier) @id (#eq? @id \""@ + needle + "\"))"@,
        "(generic_argument_clause (identifier) @id (#eq? @id \""@ + needle + "\"))"@,
        ]
    } else if lang_lower == "typescript"@ || lang_lower == "ts"@ || lang_lower == "tsx"@ {
        seq![
        "(identifier) @id (#eq? @id \""@ + needle + "\")"@,
        "(call_expression function: (identifier) @id (#eq? @id \""@ + needle + "\"))"@,
        "(call_expression function: (member_expression property: (property_identifier) @id (#eq? @id \""@ + needle + "\")))"@,
        "(class_declaration name: (identifier) @id (#eq? @id \""@ + needle + "\"))"@,
        "(interface_declaration name: (identifier) @id (#eq? @id \""@ + needle + "\"))"@,
        "(interface_declaration name: (type_identifier) @id (#eq? @id \""@ + needle + "\"))"@,
        "(type_alias_declaration name: (identifier) @id (#eq? @id \""@ + needle + "\"))"@,
        "(type_alias_declaration name: (type_identifier) @id (#eq? @id \""@ + needle + "\"))"@,
        "(method_definition name: (property_identifier) @id (#eq? @id \""@ + needle + "\"))"@,
        "(lexical_declaration (variable_declarator name: (identifier) @id (#eq? @id \""@ + needle + "\"))))"@,
        "(jsx_opening_element name: (identifier) @id (#eq? @id \""@ + needle + "\"))"@,
        "(lexical_declaration (variable_declarator name: (identifier) @id (#eq? @id \""@ + needle + "\") value: (arrow_function)))"@,
        "(export_statement value: (identifier) @id (#eq? @id \""@ + needle + "\"))"@,
        "(export_statement (export_clause (export_specifier name: (identifier) @id (#eq? @id \""@ + needle + "\"))))"@,
        "(jsx_attribute name: (property_identifier) @id (#eq? @id \""@ + needle + "\"))"@,
        "(binary_expression left: (identifier) @id (#eq? @id \""@ + needle + "\") operator: \"satisfies\")"@,
        ]
    } else if lang_lower == "rust"@ {
        seq![
        "(function_item name: (identifier) @id (#eq? @id \""@ + needle + "\"))"@,
        "(impl_item type: (type_path (path_segment name: (identifier) @id (#eq? @id \""@ + needle + "\"))))"@,
        "(trait_item name: (identifier) @id (#eq? @id \""@ + needle + "\"))"@,
        "(struct_item name: (identifier) @id (#eq? @id \""@ + needle + "\"))"@,
        "(enum_item name: (identifier) @id (#eq? @id \""@ + needle + "\"))"@,
        "(macro_invocation macro: (identifier) @id (#eq? @id \""@ + needle + "\"))"@,
        "(impl_item trait: (trait_ref path: (scoped_identifier path: (identifier) @id (#eq? @id \""@ + needle + "\"))))"@,
        "(impl_item trait: (trait_ref path: (type_identifier) @id (#eq? @id \""@ + needle + "\")))"@,
        ]
    } else {
        seq!["(identifier) @id (#eq? @id \""@ + needle + "\")"@]
    }
}

/// The structural patterns tried for one symbol under one language, in
/// order. An empty trimmed symbol gets the catch-all identifier pattern.
pub fn patterns_for_language(symbol: &str, language: &str) -> (r: Vec<String>)
    ensures
        r.deep_view() == patterns_spec(
            trim_spec(symbol@),
            crate::language::lower_spec(language@),
        ),
        r@.len() >= 1,
{
    let sv = str_to_chars(symbol);
    let tv = trim_chars(&sv);
    let needle = chars_to_string(&tv);
    let mut r: Vec<String> = Vec::new();
    if needle.as_str().unicode_len() == 0 {
        r.push(String::from_str("(identifier) @id"));
        proof {
            assert(r.deep_view() =~= patterns_spec(
                trim_spec(symbol@),
                crate::language::lower_spec(language@),
            ));
        }
        return r;
    }
    let lv = str_to_chars(language);
    let low = lower_chars(&lv);
    let lang = chars_to_string(&low);
    let n = needle.as_str();
    if str_eq(lang.as_str(), "swift") {
        r.push(pat3("(function_declaration name: (identifier) @id (#eq? @id \"", n, "\"))"));
        r.push(pat3("(protocol_declaration name: (identifier) @id (#eq? @id \"", n, "\"))"));
        r.push(
            pat3(
                "(protocol_member_declaration (function_declaration name: (identifier) @id) (#eq? @id \"",
                n,
                "\"))",
            ),
        );
        r.push(pat3("(initializer_declaration name: (identifier) @id (#eq? @id \"", n, "\"))"));
        r.push(
            pat3(
                "(class_declaration body: (member_declaration_list (member_declaration (function_declaration name: (identifier) @id (#eq? @id \"",
                n,
                "\")))))",
            ),
        );
        r.push(
            pat3(
                "(struct_declaration body: (member_declaration_list (member_declaration (function_declaration name: (identifier) @id (#eq? @id \"",
                n,
                "\")))))",
            ),
        );
        r.push(
            pat3(
                "(extension_declaration body: (member_declaration_list (member_declaration (function_declaration name: (identifier) @id (#eq? @id \"",
                n,
                "\")))))",
            ),
        );
        r.push(
            pat3(
                "(actor_declaration body: (member_declaration_list (member_declaration (function_declaration name: (identifier) @id (#eq? @id \"",
                n,
                "\")))))",
            ),
        );
        r.push(pat3("(member_access_expression name: (identifier) @id (#eq? @id \"", n, "\"))"));
        r.push(
            pat3("(function_call_expression function: (identifier) @id (#eq? @id \"", n, "\"))"),
        );
        r.push(
            pat3(
                "(await_expression (function_call_expression function: (identifier) @id (#eq? @id \"",
                n,
                "\")))",
            ),
        );
        r.push(pat3("(attribute attribute_name: (identifier) @id (#eq? @id \"", n, "\"))"));
        r.push(
            pat3(
                "(extension_declaration protocol_conformance: (identifier) @id (#eq? @id \"",
                n,
                "\"))",
            ),
        );
        r.push(pat3("(generic_argument_clause (identifier) @id (#eq? @id \"", n, "\"))"));
    } else if str_eq(lang.as_str(), "typescript") || str_eq(lang.as_str(), "ts") || str_eq(
        lang.as_str(),
        "tsx",
    ) {
        r.push(pat3("(identifier) @id (#eq? @id \"", n, "\")"));
        r.push(pat3("(call_expression function: (identifier) @id (#eq? @id \"", n, "\"))"));
        r.push(
            pat3(
                "(call_expression function: (member_expression property: (property_identifier) @id (#eq? @id \"",
                n,
                "\")))",
            ),
        );
        r.push(pat3("(class_declaration name: (identifier) @id (#eq? @id \"", n, "\"))"));
        r.push(pat3("(interface_declaration name: (identifier) @id (#eq? @id \"", n, "\"))"));
        r.push(pat3("(interface_declaration name: (type_identifier) @id (#eq? @id \"", n, "\"))"));
        r.push(pat3("(type_alias_declaration name: (identifier) @id (#eq? @id \"", n, "\"))"));
        r.push(
            pat3("(type_alias_declaration name: (type_identifier) @id (#eq? @id \"", n, "\"))"),
        );
        r.push(pat3("(method_definition name: (property_identifier) @id (#eq? @id \"", n, "\"))"));
        r.push(
            pat3(
                "(lexical_declaration (variable_declarator name: (identifier) @id (#eq? @id \"",
                n,
                "\"))))",
            ),
        );
        r.push(pat3("(jsx_opening_element name: (identifier) @id (#eq? @id \"", n, "\"))"));
        r.push(
            pat3(
                "(lexical_declaration (variable_declarator name: (identifier) @id (#eq? @id \"",
                n,
                "\") value: (arrow_function)))",
            ),
        );
        r.push(pat3("(export_statement value: (identifier) @id (#eq? @id \"", n, "\"))"));
        r.push(
            pat3(
                "(export_statement (export_clause (export_specifier name: (identifier) @id (#eq? @id \"",
                n,
                "\"))))",
            ),
        );
        r.push(pat3("(jsx_attribute name: (property_identifier) @id (#eq? @id \"", n, "\"))"));
        r.push(
            pat3(
                "(binary_expression left: (identifier) @id (#eq? @id \"",
                n,
                "\") operator: \"satisfies\")",
            ),
        );
    } else if str_eq(lang.as_str(), "rust") {
        r.push(pat3("(function_item name: (identifier) @id (#eq? @id \"", n, "\"))"));
        r.push(
            pat3(
                "(impl_item type: (type_path (path_segment name: (identifier) @id (#eq? @id \"",
                n,
                "\"))))",
            ),
        );
        r.push(pat3("(trait_item name: (identifier) @id (#eq? @id \"", n, "\"))"));
        r.push(pat3("(struct_item name: (identifier) @id (#eq? @id \"", n, "\"))"));
        r.push(pat3("(enum_item name: (identifier) @id (#eq? @id \"", n, "\"))"));
        r.push(pat3("(macro_invocation macro: (identifier) @id (#eq? @id \"", n, "\"))"));
        r.push(
            pat3(
                "(impl_item trait: (trait_ref path: (scoped_identifier path: (identifier) @id (#eq? @id \"",
                n,
                "\"))))",
            ),
        );
        r.push(
            pat3(
                "(impl_item trait: (trait_ref path: (type_identifier) @id (#eq? @id \"",
                n,
                "\")))",
            ),
        );
    } else {
        r.push(pat3("(identifier) @id (#eq? @id \"", n, "\")"));
    }
    proof {
        assert(r.deep_view() =~= patterns_spec(trim_spec(symbol@), crate::language::lower_spec(language@)));
    }
    r
}

/// Splices a needle between a pattern prefix and suffix.
fn pat3(prefix: &str, needle: &str, suffix: &str) -> (r: String)
    ensures
        r@ == prefix@ + needle@ + suffix@,
{
    String::from_str(prefix).concat(needle).concat(suffix)
}

/// Index configuration for the optional inverted-index fallback.
pub struct IndexConfig {
    pub root: String,
    pub index_dir: String,
    pub extensions: Option<Vec<String>>,
}

} // verus!
