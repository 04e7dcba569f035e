//! Request shapes: the search arguments the CLI surface produces, the
//! request wrapper shared by the protocol layers, and the mappings between
//! them. Paths travel as plain strings.

use vstd::prelude::*;
use vstd::string::*;
use crate::text::{str_to_chars, trim_chars, trim_spec, chars_to_string};
use crate::paths::join_spec;

verus! {

/// Arguments for one search invocation.
pub struct SearchArgs {
    pub symbol: String,
    pub path: Option<String>,
    pub language: Option<String>,
    pub timeout_secs: u64,
    pub max_matches: usize,
    pub concurrency: usize,
    pub context_before: usize,
    pub context_after: usize,
    pub body: bool,
    pub enable_index: bool,
    pub index_dir: Option<String>,
    pub enable_rga: bool,
    pub cache_dir: Option<String>,
    pub log_dir: Option<String>,
    pub use_fd: bool,
    pub use_ast_grep: bool,
}

/// Arguments for a benchmark run.
pub struct BenchArgs {
    pub scenario: Option<String>,
    pub output: Option<String>,
    pub iterations: usize,
    pub enable_index: bool,
    pub enable_rga: bool,
    pub cache_dir: Option<String>,
    pub log_dir: Option<String>,
}

/// The request wrapper shared by the protocol entry points.
pub struct SearchInput {
    pub symbol: String,
    pub language: Option<String>,
    pub root: Option<String>,
    pub timeout_secs: Option<u64>,
    pub max_matches: Option<usize>,
    pub concurrency: Option<usize>,
    pub enable_index: Option<bool>,
    pub enable_rga: Option<bool>,
    pub index_dir: Option<String>,
    pub cache_dir: Option<String>,
    pub log_dir: Option<String>,
    pub context_before: Option<usize>,
    pub context_after: Option<usize>,
    pub body: Option<bool>,
    pub tool_flags: Vec<(String, bool)>,
}

/// The HTTP request body shape.
pub struct HttpSearchRequest {
    pub symbol: String,
    pub language: Option<String>,
    pub root: Option<String>,
    pub timeout_secs: Option<u64>,
    pub max_matches: Option<usize>,
    pub concurrency: Option<usize>,
    pub enable_index: Option<bool>,
    pub enable_rga: Option<bool>,
    pub index_dir: Option<String>,
    pub cache_dir: Option<String>,
    pub log_dir: Option<String>,
    pub tool_flags: Vec<(String, bool)>,
    pub use_fd: Option<bool>,
    pub use_ast_grep: Option<bool>,
    pub use_index: Option<bool>,
    pub use_rga: Option<bool>,
    pub context_before: Option<usize>,
    pub context_after: Option<usize>,
    pub body: Option<bool>,
}

/// The explicit toggles an HTTP request may carry, appended to its flag map.
pub open spec fn http_extra_flags(r: HttpSearchRequest) -> Seq<(Seq<char>, bool)> {
    (match r.use_fd {
        Option::Some(v) => seq![("fd"@, v)],
        Option::None => Seq::<(Seq<char>, bool)>::empty(),
    }) + (match r.use_ast_grep {
        Option::Some(v) => seq![("ast-grep"@, v)],
        Option::None => Seq::<(Seq<char>, bool)>::empty(),
    }) + (match r.use_index {
        Option::Some(v) => seq![("index"@, v)],
        Option::None => Seq::<(Seq<char>, bool)>::empty(),
    }) + (match r.use_rga {
        Option::Some(v) => seq![("rga"@, v)],
        Option::None => Seq::<(Seq<char>, bool)>::empty(),
    })
}

pub open spec fn flags_view(flags: Seq<(String, bool)>) -> Seq<(Seq<char>, bool)> {
    flags.map(|_i: int, p: (String, bool)| (p.0@, p.1))
}

impl HttpSearchRequest {
    /// Turns the HTTP body into the shared request wrapper: the fields move
    /// over unchanged and the explicit toggles join the flag map.
    pub fn into_input(self) -> (r: SearchInput)
        ensures
            r.symbol == self.symbol,
            r.language == self.language,
            r.root == self.root,
            r.timeout_secs == self.timeout_secs,
            r.max_matches == self.max_matches,
            r.concurrency == self.concurrency,
            r.enable_index == self.enable_index,
            r.enable_rga == self.enable_rga,
            r.index_dir == self.index_dir,
            r.cache_dir == self.cache_dir,
            r.log_dir == self.log_dir,
            r.context_before == self.context_before,
            r.context_after == self.context_after,
            r.body == self.body,
            flags_view(r.tool_flags@) == flags_view(self.tool_flags@) + http_extra_flags(self),
    {
        let ghost me = self;
        let HttpSearchRequest {
            symbol,
            language,
            root,
            timeout_secs,
            max_matches,
            concurrency,
            enable_index,
            enable_rga,
            index_dir,
            cache_dir,
            log_dir,
            mut tool_flags,
            use_fd,
            use_ast_grep,
            use_index,
            use_rga,
            context_before,
            context_after,
            body,
        } = self;
        let ghost base = flags_view(tool_flags@);
        if let Option::Some(v) = use_fd {
            tool_flags.push((String::from_str("fd"), v));
        }
        if let Option::Some(v) = use_ast_grep {
            tool_flags.push((String::from_str("ast-grep"), v));
        }
        if let Option::Some(v) = use_index {
            tool_flags.push((String::from_str("index"), v));
        }
        if let Option::Some(v) = use_rga {
            tool_flags.push((String::from_str("rga"), v));
        }
        proof {
            assert(flags_view(tool_flags@) =~= base + http_extra_flags(me));
        }
        SearchInput {
            symbol,
            language,
            root,
            timeout_secs,
            max_matches,
            concurrency,
            enable_index,
            enable_rga,
            index_dir,
            cache_dir,
            log_dir,
            context_before,
            context_after,
            body,
            tool_flags,
        }
    }
}

/// The flat request shape of the RPC surface: absent strings are empty,
/// absent numbers are zero.
pub struct RpcSearchRequest {
    pub symbol: String,
    pub language: String,
    pub root: String,
    pub timeout_secs: u32,
    pub max_matches: u32,
    pub concurrency: u32,
    pub enable_index: bool,
    pub enable_rga: bool,
    pub index_dir: String,
    pub cache_dir: String,
    pub log_dir: String,
    pub tool_flags: Vec<(String, bool)>,
}

/// A string whose trimmed form is non-empty, kept whole; `None` otherwise.
pub fn option_from_string(value: String) -> (r: Option<String>)
    ensures
        trim_spec(value@).len() == 0 ==> r is None,
        trim_spec(value@).len() > 0 ==> r == Option::Some(value),
{
    let vc = str_to_chars(value.as_str());
    let t = trim_chars(&vc);
    if t.len() == 0 {
        Option::None
    } else {
        Option::Some(value)
    }
}

/// Like `option_from_string`, for path-valued fields.
pub fn path_from_string(value: String) -> (r: Option<String>)
    ensures
        trim_spec(value@).len() == 0 ==> r is None,
        trim_spec(value@).len() > 0 ==> r == Option::Some(value),
{
    option_from_string(value)
}

/// Zero means absent.
pub fn zeroable(value: u32) -> (r: Option<u64>)
    ensures
        value == 0 ==> r is None,
        value != 0 ==> r == Option::Some(value as u64),
{
    if value == 0 {
        Option::None
    } else {
        Option::Some(value as u64)
    }
}

pub fn zeroable_usize(value: u32) -> (r: Option<usize>)
    ensures
        value == 0 ==> r is None,
        value != 0 ==> r == Option::Some(value as usize),
{
    if value == 0 {
        Option::None
    } else {
        Option::Some(value as usize)
    }
}

/// Maps a flat RPC request onto the shared wrapper.
pub fn map_request(req: RpcSearchRequest) -> (r: SearchInput)
    ensures
        r.symbol == req.symbol,
        trim_spec(req.language@).len() == 0 ==> r.language is None,
        trim_spec(req.language@).len() > 0 ==> r.language == Option::Some(req.language),
        trim_spec(req.root@).len() == 0 ==> r.root is None,
        trim_spec(req.root@).len() > 0 ==> r.root == Option::Some(req.root),
        req.timeout_secs == 0 ==> r.timeout_secs is None,
        req.timeout_secs != 0 ==> r.timeout_secs == Option::Some(req.timeout_secs as u64),
        req.max_matches == 0 ==> r.max_matches is None,
        req.max_matches != 0 ==> r.max_matches == Option::Some(req.max_matches as usize),
        req.concurrency == 0 ==> r.concurrency is None,
        req.concurrency != 0 ==> r.concurrency == Option::Some(req.concurrency as usize),
        r.enable_index == if req.enable_index {
            Option::Some(true)
        } else {
            Option::<bool>::None
        },
        r.enable_rga == if req.enable_rga {
            Option::Some(true)
        } else {
            Option::<bool>::None
        },
        trim_spec(req.index_dir@).len() == 0 ==> r.index_dir is None,
        trim_spec(req.index_dir@).len() > 0 ==> r.index_dir == Option::Some(req.index_dir),
        trim_spec(req.cache_dir@).len() == 0 ==> r.cache_dir is None,
        trim_spec(req.cache_dir@).len() > 0 ==> r.cache_dir == Option::Some(req.cache_dir),
        trim_spec(req.log_dir@).len() == 0 ==> r.log_dir is None,
        trim_spec(req.log_dir@).len() > 0 ==> r.log_dir == Option::Some(req.log_dir),
        r.tool_flags == req.tool_flags,
        r.context_before is None && r.context_after is None && r.body is None,
{
    let RpcSearchRequest {
        symbol,
        language,
        root,
        timeout_secs,
        max_matches,
        concurrency,
        enable_index,
        enable_rga,
        index_dir,
        cache_dir,
        log_dir,
        tool_flags,
    } = req;
    SearchInput {
        symbol,
        language: option_from_string(language),
        root: path_from_string(root),
        timeout_secs: zeroable(timeout_secs),
        max_matches: zeroable_usize(max_matches),
        concurrency: zeroable_usize(concurrency),
        enable_index: if enable_index {
            Option::Some(true)
        } else {
            Option::None
        },
        enable_rga: if enable_rga {
            Option::Some(true)
        } else {
            Option::None
        },
        index_dir: path_from_string(index_dir),
        cache_dir: path_from_string(cache_dir),
        log_dir: path_from_string(log_dir),
        context_before: Option::None,
        context_after: Option::None,
        body: Option::None,
        tool_flags,
    }
}

/// Joins a possibly relative path onto a base; an absolute path stays.
pub fn normalize_relative(base: &str, value: Option<String>) -> (r: Option<String>)
    ensures
        match value {
            Option::None => r is None,
            Option::Some(p) => r matches Option::Some(q) && q@ == join_spec(base@, p@),
        },
{
    match value {
        Option::None => Option::None,
        Option::Some(p) => {
            let pv = str_to_chars(p.as_str());
            if pv.len() > 0 && pv[0] == '/' {
                proof {
                    assert(p@ == join_spec(base@, p@));
                }
                Option::Some(p)
            } else {
                let joined = String::from_str(base).concat("/").concat(p.as_str());
                proof {
                    reveal_strlit("/");
                    assert("/"@ =~= seq!['/']);
                    assert(joined@ =~= join_spec(base@, p@));
                }
                Option::Some(joined)
            }
        },
    }
}

/// The flag keys recognized for each toggle, compared on the lowered key.
pub open spec fn is_fd_key(k: Seq<char>) -> bool {
    k == "fd"@ || k == "use_fd"@ || k == "disable_fd"@
}

pub open spec fn is_ast_key(k: Seq<char>) -> bool {
    k == "ast-grep"@ || k == "ast_grep"@ || k == "use_ast_grep"@
}

pub open spec fn is_index_key(k: Seq<char>) -> bool {
    k == "index"@ || k == "use_index"@ || k == "enable_index"@
}

pub open spec fn is_rga_key(k: Seq<char>) -> bool {
    k == "rga"@ || k == "use_rga"@ || k == "enable_rga"@
}

pub open spec fn is_body_key(k: Seq<char>) -> bool {
    k == "body"@ || k == "fetch_body"@ || k == "include_body"@
}

/// The five toggles after applying the overrides in order: each recognized
/// key (case-insensitively) sets its toggle, unknown keys change nothing.
/// The tuple is (use_fd, use_ast_grep, enable_index, enable_rga, body).
pub open spec fn toggles_after(
    init: (bool, bool, bool, bool, bool),
    flags: Seq<(Seq<char>, bool)>,
) -> (bool, bool, bool, bool, bool)
    decreases flags.len(),
{
    if flags.len() == 0 {
        init
    } else {
        let prior = toggles_after(init, flags.drop_last());
        let k = crate::language::lower_spec(flags.last().0);
        let v = flags.last().1;
        (
            if is_fd_key(k) {
                v
            } else {
                prior.0
            },
            if is_ast_key(k) {
                v
            } else {
                prior.1
            },
            if is_index_key(k) {
                v
            } else {
                prior.2
            },
            if is_rga_key(k) {
                v
            } else {
                prior.3
            },
            if is_body_key(k) {
                v
            } else {
                prior.4
            },
        )
    }
}

/// Applies the dynamic tool-flag overrides to the search arguments, in
/// order; unknown keys are ignored. Keys are case-insensitive.
#[verifier::rlimit(100)]
pub fn apply_tool_flags(args: SearchArgs, flags: &Vec<(String, bool)>) -> (r: SearchArgs)
    ensures
        r.symbol == args.symbol,
        r.path == args.path,
        r.language == args.language,
        r.timeout_secs == args.timeout_secs,
        r.max_matches == args.max_matches,
        r.concurrency == args.concurrency,
        r.context_before == args.context_before,
        r.context_after == args.context_after,
        r.index_dir == args.index_dir,
        r.cache_dir == args.cache_dir,
        r.log_dir == args.log_dir,
        (r.use_fd, r.use_ast_grep, r.enable_index, r.enable_rga, r.body) == toggles_after(
            (args.use_fd, args.use_ast_grep, args.enable_index, args.enable_rga, args.body),
            flags_view(flags@),
        ),
{
    let ghost init = (args.use_fd, args.use_ast_grep, args.enable_index, args.enable_rga, args.body);
    let ghost fv = flags_view(flags@);
    let mut r = args;
    let mut i: usize = 0;
    proof {
        assert(fv.len() == flags@.len());
        assert(fv.take(0) =~= Seq::<(Seq<char>, bool)>::empty());
    }
    while i < flags.len()
        invariant
            i <= fv.len(),
            fv == flags_view(flags@),
            fv.len() == flags@.len(),
            r.symbol == args.symbol,
            r.path == args.path,
            r.language == args.language,
            r.timeout_secs == args.timeout_secs,
            r.max_matches == args.max_matches,
            r.concurrency == args.concurrency,
            r.context_before == args.context_before,
            r.context_after == args.context_after,
            r.index_dir == args.index_dir,
            r.cache_dir == args.cache_dir,
            r.log_dir == args.log_dir,
            (r.use_fd, r.use_ast_grep, r.enable_index, r.enable_rga, r.body) == toggles_after(
                init,
                fv.take(i as int),
            ),
        decreases fv.len() - i,
    {
        let kv = str_to_chars(flags[i].0.as_str());
        let low = crate::language::lower_chars(&kv);
        let key = chars_to_string(&low);
        let value = flags[i].1;
        proof {
            assert(fv[i as int].0 == flags@[i as int].0@);
            assert(fv[i as int].1 == flags@[i as int].1);
            assert(key@ == crate::language::lower_spec(fv[i as int].0));
            assert(fv.take(i + 1 as int).drop_last() =~= fv.take(i as int));
            assert(fv.take(i + 1 as int).last() == fv[i as int]);
        }
        let kfd = crate::text::str_eq(key.as_str(), "fd") || crate::text::str_eq(
            key.as_str(),
            "use_fd",
        ) || crate::text::str_eq(key.as_str(), "disable_fd");
        let kast = crate::text::str_eq(key.as_str(), "ast-grep") || crate::text::str_eq(
            key.as_str(),
            "ast_grep",
        ) || crate::text::str_eq(key.as_str(), "use_ast_grep");
        let kidx = crate::text::str_eq(key.as_str(), "index") || crate::text::str_eq(
            key.as_str(),
            "use_index",
        ) || crate::text::str_eq(key.as_str(), "enable_index");
        let krga = crate::text::str_eq(key.as_str(), "rga") || crate::text::str_eq(
            key.as_str(),
            "use_rga",
        ) || crate::text::str_eq(key.as_str(), "enable_rga");
        let kbody = crate::text::str_eq(key.as_str(), "body") || crate::text::str_eq(
            key.as_str(),
            "fetch_body",
        ) || crate::text::str_eq(key.as_str(), "include_body");
        if kfd {
            r.use_fd = value;
        }
        if kast {
            r.use_ast_grep = value;
        }
        if kidx {
            r.enable_index = value;
        }
        if krga {
            r.enable_rga = value;
        }
        if kbody {
            r.body = value;
        }
        i += 1;
    }
    proof {
        assert(fv.take(fv.len() as int) =~= fv);
    }
    r
}

} // verus!
