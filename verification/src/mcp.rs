//! The tool server's decisions: how each JSON-RPC request is answered, what
//! a tool call asks for, and the text each tool answers with.
use vstd::prelude::*;
use std::path::PathBuf;
use crate::config::Config;
use crate::store::{IndexStats, SymbolRecord};
use vstd::string::StringSliceAdditionalSpecFns;
use vstd::utf8::{decode_utf8, is_char_boundary};
use crate::text::{byte_slice, concat, decimal, lemma_concat_push, push_str, str_eq, to_owned, usize_to_string, views};

verus! {

/// The tool server of a project.
pub struct McpServer {
    root_path: PathBuf,
    config: Config,
}

impl McpServer {
    pub closed spec fn root(&self) -> PathBuf {
        self.root_path
    }

    pub closed spec fn settings(&self) -> Config {
        self.config
    }

    /// A server for the project at `root_path`.
    pub fn new(root_path: PathBuf, config: Config) -> (s: Self)
        ensures
            s.root() == root_path,
            s.settings() == config,
    {
        McpServer { root_path, config }
    }

    /// The project's root directory.
    pub fn root_path(&self) -> (r: &PathBuf)
        ensures
            *r == self.root(),
    {
        &self.root_path
    }

    /// The project's configuration.
    pub fn config(&self) -> (r: &Config)
        ensures
            *r == self.settings(),
    {
        &self.config
    }
}

/// How a JSON-RPC request is answered.
#[derive(Debug, Clone, Copy, PartialEq, Eq, Structural)]
pub enum Route {
    /// Reply with the server's protocol version, capabilities and name.
    Initialize,
    /// The client's `initialized` notification: no reply.
    Initialized,
    /// Reply with the tool definitions.
    ListTools,
    /// Run a tool and reply with its text.
    CallTool,
    /// Reply with a "method not found" error.
    UnknownMethod,
    /// An unknown notification: no reply.
    Ignore,
}

pub open spec fn route_of(method: Seq<char>, has_id: bool) -> Route {
    if method == "initialize"@ {
        Route::Initialize
    } else if method == "notifications/initialized"@ {
        Route::Initialized
    } else if method == "tools/list"@ {
        Route::ListTools
    } else if method == "tools/call"@ {
        Route::CallTool
    } else if has_id {
        Route::UnknownMethod
    } else {
        Route::Ignore
    }
}

/// How to answer a request with method `method`, carrying an id or not.
pub fn route(method: &str, has_id: bool) -> (r: Route)
    ensures
        r == route_of(method@, has_id),
{
    if str_eq(method, "initialize") {
        Route::Initialize
    } else if str_eq(method, "notifications/initialized") {
        Route::Initialized
    } else if str_eq(method, "tools/list") {
        Route::ListTools
    } else if str_eq(method, "tools/call") {
        Route::CallTool
    } else if has_id {
        Route::UnknownMethod
    } else {
        Route::Ignore
    }
}

/// The arguments of a tool call: its text and its non-negative integer values, by name.
#[derive(Debug, Clone)]
pub struct ToolArgs {
    pub texts: Vec<(String, String)>,
    pub numbers: Vec<(String, u64)>,
}

/// The first text argument named `key`.
pub open spec fn text_arg(args: Seq<(String, String)>, key: Seq<char>) -> Option<Seq<char>>
    decreases args.len(),
{
    if args.len() == 0 {
        None
    } else if args[0].0@ == key {
        Some(args[0].1@)
    } else {
        text_arg(args.drop_first(), key)
    }
}

/// The first number argument named `key`.
pub open spec fn number_arg(args: Seq<(String, u64)>, key: Seq<char>) -> Option<u64>
    decreases args.len(),
{
    if args.len() == 0 {
        None
    } else if args[0].0@ == key {
        Some(args[0].1)
    } else {
        number_arg(args.drop_first(), key)
    }
}

impl ToolArgs {
    /// The text argument named `key`.
    pub fn text(&self, key: &str) -> (r: Option<String>)
        ensures
            match text_arg(self.texts@, key@) {
                Some(v) => r matches Some(x) && x@ == v,
                None => r is None,
            },
    {
        let mut i: usize = 0;
        proof {
            assert(self.texts@.skip(0) =~= self.texts@);
        }
        while i < self.texts.len()
            invariant
                i <= self.texts@.len(),
                text_arg(self.texts@, key@) == text_arg(self.texts@.skip(i as int), key@),
            decreases self.texts@.len() - i,
        {
            proof {
                assert(self.texts@.skip(i as int).drop_first() =~= self.texts@.skip(i + 1));
            }
            if str_eq(self.texts[i].0.as_str(), key) {
                return Some(self.texts[i].1.clone());
            }
            i = i + 1;
        }
        None
    }

    /// The number argument named `key`.
    pub fn number(&self, key: &str) -> (r: Option<u64>)
        ensures
            r == number_arg(self.numbers@, key@),
    {
        let mut i: usize = 0;
        proof {
            assert(self.numbers@.skip(0) =~= self.numbers@);
        }
        while i < self.numbers.len()
            invariant
                i <= self.numbers@.len(),
                number_arg(self.numbers@, key@) == number_arg(self.numbers@.skip(i as int), key@),
            decreases self.numbers@.len() - i,
        {
            proof {
                assert(self.numbers@.skip(i as int).drop_first() =~= self.numbers@.skip(i + 1));
            }
            if str_eq(self.numbers[i].0.as_str(), key) {
                return Some(self.numbers[i].1);
            }
            i = i + 1;
        }
        None
    }
}

/// What a tool call asks for.
#[derive(Debug, Clone)]
pub enum ToolRequest {
    MapOverview { max_chars: u64, detail: String },
    FindSymbol { name: String, kind: Option<String> },
    ReadSource { symbol: String, max_chars: u64 },
    SearchSymbols { query: String, max_results: u64 },
    GetSkeleton { file_path: String },
    GetDependencies { symbol: String, direction: String },
    GetImpact { symbol: String },
    GetRankedSymbols { top_n: u64, kind: Option<String> },
    CompressContext { query: String, token_budget: u64 },
    PackRepo { token_budget: u64, format: String },
    IndexStatus,
    Reindex { path: Option<String> },
}

/// Why a tool call cannot run.
#[derive(Debug, Clone)]
pub enum ToolError {
    /// A required argument is missing.
    MissingParameter(String),
    /// No tool has the name.
    UnknownTool(String),
}

impl ToolError {
    pub fn message(&self) -> (r: String)
        ensures
            r@ == match self {
                ToolError::MissingParameter(p) => "missing '"@ + p@ + "' parameter"@,
                ToolError::UnknownTool(n) => "Unknown tool: "@ + n@,
            },
    {
        match self {
            ToolError::MissingParameter(p) => {
                let mut m = to_owned("missing '");
                push_str(&mut m, p.as_str());
                push_str(&mut m, "' parameter");
                m
            },
            ToolError::UnknownTool(n) => {
                let mut m = to_owned("Unknown tool: ");
                push_str(&mut m, n.as_str());
                m
            },
        }
    }
}

pub open spec fn or_default_text(v: Option<Seq<char>>, d: Seq<char>) -> Seq<char> {
    match v {
        Some(x) => x,
        None => d,
    }
}

pub open spec fn or_default_number(v: Option<u64>, d: u64) -> u64 {
    match v {
        Some(x) => x,
        None => d,
    }
}

pub open spec fn opt_text(v: Option<String>) -> Option<Seq<char>> {
    match v {
        Some(x) => Some(x@),
        None => None,
    }
}

/// The text of a required argument, or the error that it is missing.
fn required(args: &ToolArgs, key: &str) -> (r: Result<String, ToolError>)
    ensures
        match text_arg(args.texts@, key@) {
            Some(v) => r matches Ok(x) && x@ == v,
            None => r matches Err(ToolError::MissingParameter(p)) && p@ == key@,
        },
{
    match args.text(key) {
        Some(v) => Ok(v),
        None => Err(ToolError::MissingParameter(to_owned(key))),
    }
}

fn text_or(args: &ToolArgs, key: &str, default: &str) -> (r: String)
    ensures
        r@ == or_default_text(text_arg(args.texts@, key@), default@),
{
    match args.text(key) {
        Some(v) => v,
        None => to_owned(default),
    }
}

fn number_or(args: &ToolArgs, key: &str, default: u64) -> (r: u64)
    ensures
        r == or_default_number(number_arg(args.numbers@, key@), default),
{
    match args.number(key) {
        Some(v) => v,
        None => default,
    }
}

/// A tool call read, as plain values.
pub enum ToolCall {
    MapOverview(u64, Seq<char>),
    FindSymbol(Seq<char>, Option<Seq<char>>),
    ReadSource(Seq<char>, u64),
    SearchSymbols(Seq<char>, u64),
    GetSkeleton(Seq<char>),
    GetDependencies(Seq<char>, Seq<char>),
    GetImpact(Seq<char>),
    GetRankedSymbols(u64, Option<Seq<char>>),
    CompressContext(Seq<char>, u64),
    PackRepo(u64, Seq<char>),
    IndexStatus,
    Reindex(Option<Seq<char>>),
    /// A required argument is missing.
    Missing(Seq<char>),
    /// No tool has the name.
    Unknown(Seq<char>),
}

pub open spec fn call_view(r: Result<ToolRequest, ToolError>) -> ToolCall {
    match r {
        Ok(ToolRequest::MapOverview { max_chars, detail }) => ToolCall::MapOverview(max_chars, detail@),
        Ok(ToolRequest::FindSymbol { name, kind }) => ToolCall::FindSymbol(name@, opt_text(kind)),
        Ok(ToolRequest::ReadSource { symbol, max_chars }) => ToolCall::ReadSource(symbol@, max_chars),
        Ok(ToolRequest::SearchSymbols { query, max_results }) => ToolCall::SearchSymbols(query@, max_results),
        Ok(ToolRequest::GetSkeleton { file_path }) => ToolCall::GetSkeleton(file_path@),
        Ok(ToolRequest::GetDependencies { symbol, direction }) => ToolCall::GetDependencies(symbol@, direction@),
        Ok(ToolRequest::GetImpact { symbol }) => ToolCall::GetImpact(symbol@),
        Ok(ToolRequest::GetRankedSymbols { top_n, kind }) => ToolCall::GetRankedSymbols(top_n, opt_text(kind)),
        Ok(ToolRequest::CompressContext { query, token_budget }) => ToolCall::CompressContext(query@, token_budget),
        Ok(ToolRequest::PackRepo { token_budget, format }) => ToolCall::PackRepo(token_budget, format@),
        Ok(ToolRequest::IndexStatus) => ToolCall::IndexStatus,
        Ok(ToolRequest::Reindex { path }) => ToolCall::Reindex(opt_text(path)),
        Err(ToolError::MissingParameter(p)) => ToolCall::Missing(p@),
        Err(ToolError::UnknownTool(n)) => ToolCall::Unknown(n@),
    }
}

/// The call with the required text argument `key`, or the missing-argument error.
pub open spec fn needing(args: ToolArgs, key: Seq<char>, call: spec_fn(Seq<char>) -> ToolCall) -> ToolCall {
    match text_arg(args.texts@, key) {
        Some(v) => call(v),
        None => ToolCall::Missing(key),
    }
}

/// What a call of the tool `name` with `args` asks for: each tool's
/// arguments, numbers not given taking their defaults and token budgets
/// `default_budget`.
pub open spec fn tool_call(name: Seq<char>, args: ToolArgs, default_budget: u64) -> ToolCall {
    let number = |k: Seq<char>, d: u64| or_default_number(number_arg(args.numbers@, k), d);
    let text = |k: Seq<char>, d: Seq<char>| or_default_text(text_arg(args.texts@, k), d);
    if name == "map_overview"@ {
        ToolCall::MapOverview(number("max_chars"@, 8000), text("detail"@, "summary"@))
    } else if name == "find_symbol"@ {
        needing(args, "name"@, |n: Seq<char>| ToolCall::FindSymbol(n, text_arg(args.texts@, "kind"@)))
    } else if name == "read_source"@ {
        needing(args, "symbol"@, |v: Seq<char>| ToolCall::ReadSource(v, number("max_chars"@, 20000)))
    } else if name == "search_symbols"@ {
        needing(args, "query"@, |q: Seq<char>| ToolCall::SearchSymbols(q, number("max_results"@, 10)))
    } else if name == "get_skeleton"@ {
        needing(args, "file_path"@, |f: Seq<char>| ToolCall::GetSkeleton(f))
    } else if name == "get_dependencies"@ {
        needing(args, "symbol"@, |v: Seq<char>| ToolCall::GetDependencies(v, text("direction"@, "both"@)))
    } else if name == "get_impact"@ {
        needing(args, "symbol"@, |v: Seq<char>| ToolCall::GetImpact(v))
    } else if name == "get_ranked_symbols"@ {
        ToolCall::GetRankedSymbols(number("top_n"@, 10), text_arg(args.texts@, "kind"@))
    } else if name == "compress_context"@ {
        needing(args, "query"@, |q: Seq<char>| ToolCall::CompressContext(q, number("token_budget"@, default_budget)))
    } else if name == "pack_repo"@ {
        match number_arg(args.numbers@, "token_budget"@) {
            Some(b) => ToolCall::PackRepo(b, text("format"@, "xml"@)),
            None => ToolCall::Missing("token_budget"@),
        }
    } else if name == "index_status"@ {
        ToolCall::IndexStatus
    } else if name == "reindex"@ {
        ToolCall::Reindex(text_arg(args.texts@, "path"@))
    } else {
        ToolCall::Unknown(name)
    }
}

/// Read a tool call: the tool named `name` with `args`; numbers not given
/// take their defaults, a token budget that of the configuration.
pub fn tool_request(name: &str, args: &ToolArgs, default_budget: u64) -> (r: Result<ToolRequest, ToolError>)
    ensures
        call_view(r) == tool_call(name@, *args, default_budget),
{
    if str_eq(name, "map_overview") {
        Ok(ToolRequest::MapOverview { max_chars: number_or(args, "max_chars", 8000), detail: text_or(args, "detail", "summary") })
    } else if str_eq(name, "find_symbol") {
        let n = required(args, "name")?;
        Ok(ToolRequest::FindSymbol { name: n, kind: args.text("kind") })
    } else if str_eq(name, "read_source") {
        let s = required(args, "symbol")?;
        Ok(ToolRequest::ReadSource { symbol: s, max_chars: number_or(args, "max_chars", 20000) })
    } else if str_eq(name, "search_symbols") {
        let q = required(args, "query")?;
        Ok(ToolRequest::SearchSymbols { query: q, max_results: number_or(args, "max_results", 10) })
    } else if str_eq(name, "get_skeleton") {
        let f = required(args, "file_path")?;
        Ok(ToolRequest::GetSkeleton { file_path: f })
    } else if str_eq(name, "get_dependencies") {
        let s = required(args, "symbol")?;
        Ok(ToolRequest::GetDependencies { symbol: s, direction: text_or(args, "direction", "both") })
    } else if str_eq(name, "get_impact") {
        let s = required(args, "symbol")?;
        Ok(ToolRequest::GetImpact { symbol: s })
    } else if str_eq(name, "get_ranked_symbols") {
        Ok(ToolRequest::GetRankedSymbols { top_n: number_or(args, "top_n", 10), kind: args.text("kind") })
    } else if str_eq(name, "compress_context") {
        let q = required(args, "query")?;
        Ok(ToolRequest::CompressContext { query: q, token_budget: number_or(args, "token_budget", default_budget) })
    } else if str_eq(name, "pack_repo") {
        let b = match args.number("token_budget") {
            Some(b) => b,
            None => return Err(ToolError::MissingParameter(to_owned("token_budget"))),
        };
        Ok(ToolRequest::PackRepo { token_budget: b, format: text_or(args, "format", "xml") })
    } else if str_eq(name, "index_status") {
        Ok(ToolRequest::IndexStatus)
    } else if str_eq(name, "reindex") {
        Ok(ToolRequest::Reindex { path: args.text("path") })
    } else {
        Err(ToolError::UnknownTool(to_owned(name)))
    }
}



// ─── Tool answers ────────────────────────────────────────────────────

/// What `find_symbol` tells of one symbol.
pub open spec fn symbol_entry(s: SymbolRecord) -> Seq<char> {
    "Name: "@ + s.name@ + "\n"@ + "Kind: "@ + s.kind@ + "\n"@ + "File: "@ + s.file_path@ + "\n"@ + "Visibility: "@
        + s.visibility@ + "\n"@ + "Signature: "@ + s.signature@ + "\n"@ + match s.docstring {
        Some(d) => "Docstring: "@ + d@ + "\n"@,
        None => seq![],
    } + "Location: bytes "@ + decimal(s.byte_start as nat) + ".."@ + decimal(s.byte_end as nat) + "\n"@ + "\n"@
}

/// What `search_symbols` tells of one symbol.
pub open spec fn search_entry(s: SymbolRecord) -> Seq<char> {
    "["@ + s.kind@ + "] "@ + s.name@ + " ("@ + s.visibility@ + ") \u{2014} "@ + s.file_path@ + "\n  "@ + s.signature@ + "\n"@
}

pub open spec fn symbol_entries(v: Seq<SymbolRecord>) -> Seq<char> {
    concat(v.map_values(|s: SymbolRecord| symbol_entry(s)))
}

pub open spec fn search_entries(v: Seq<SymbolRecord>) -> Seq<char> {
    concat(v.map_values(|s: SymbolRecord| search_entry(s)))
}

pub(crate) fn push_all(out: &mut String, parts: &[&str])
    ensures
        final(out)@ == old(out)@ + concat(parts@.map_values(|p: &str| p@)),
{
    let ghost o0 = out@;
    let mut i: usize = 0;
    proof {
        assert(parts@.take(0).map_values(|p: &str| p@) =~= Seq::<Seq<char>>::empty());
        assert(o0 + concat(Seq::<Seq<char>>::empty()) =~= o0);
    }
    while i < parts.len()
        invariant
            i <= parts@.len(),
            out@ == o0 + concat(parts@.take(i as int).map_values(|p: &str| p@)),
        decreases parts@.len() - i,
    {
        push_str(out, parts[i]);
        proof {
            let f = |p: &str| p@;
            assert(parts@.take(i + 1).map_values(f) =~= parts@.take(i as int).map_values(f).push(parts@[i as int]@));
            lemma_concat_push(parts@.take(i as int).map_values(f), parts@[i as int]@);
        }
        i = i + 1;
    }
    proof {
        assert(parts@.take(i as int) =~= parts@);
    }
}

fn symbol_entry_text(s: &SymbolRecord) -> (r: String)
    ensures
        r@ == symbol_entry(*s),
{
    let mut out = String::new();
    push_all(&mut out, &["Name: ", s.name.as_str(), "\n", "Kind: ", s.kind.as_str(), "\n", "File: ", s.file_path.as_str(), "\n", "Visibility: ", s.visibility.as_str(), "\n", "Signature: ", s.signature.as_str(), "\n"]);
    let ghost head = out@;
    match &s.docstring {
        Some(d) => push_all(&mut out, &["Docstring: ", d.as_str(), "\n"]),
        None => {},
    }
    let start = usize_to_string(s.byte_start);
    let end = usize_to_string(s.byte_end);
    push_all(&mut out, &["Location: bytes ", start.as_str(), "..", end.as_str(), "\n", "\n"]);
    proof {
        reveal_with_fuel(concat, 16);
        assert(out@ =~= symbol_entry(*s));
    }
    out
}

fn search_entry_text(s: &SymbolRecord) -> (r: String)
    ensures
        r@ == search_entry(*s),
{
    let mut out = String::new();
    push_all(&mut out, &["[", s.kind.as_str(), "] ", s.name.as_str(), " (", s.visibility.as_str(), ") \u{2014} ", s.file_path.as_str(), "\n  ", s.signature.as_str(), "\n"]);
    proof {
        reveal_with_fuel(concat, 12);
        assert(out@ =~= search_entry(*s));
    }
    out
}

/// What `find_symbol` answers: an entry per symbol found, or an error
/// naming the symbol where none was.
pub fn find_symbol_answer(name: &str, results: &[SymbolRecord]) -> (r: Result<String, String>)
    ensures
        results@.len() == 0 ==> (r matches Err(e) && e@ == "SYMBOL_NOT_FOUND: "@ + name@),
        results@.len() > 0 ==> (r matches Ok(t) && t@ == symbol_entries(results@)),
{
    if results.len() == 0 {
        let mut e = to_owned("SYMBOL_NOT_FOUND: ");
        push_str(&mut e, name);
        return Err(e);
    }
    let mut out = String::new();
    let mut i: usize = 0;
    while i < results.len()
        invariant
            i <= results@.len(),
            out@ == symbol_entries(results@.take(i as int)),
        decreases results@.len() - i,
    {
        let e = symbol_entry_text(&results[i]);
        push_str(&mut out, e.as_str());
        proof {
            let f = |s: SymbolRecord| symbol_entry(s);
            assert(results@.take(i + 1).map_values(f) =~= results@.take(i as int).map_values(f).push(symbol_entry(results@[i as int])));
            lemma_concat_push(results@.take(i as int).map_values(f), symbol_entry(results@[i as int]));
        }
        i = i + 1;
    }
    proof {
        assert(results@.take(i as int) =~= results@);
    }
    Ok(out)
}

/// What `search_symbols` answers: an entry per symbol found, or that none was.
pub fn search_symbols_answer(results: &[SymbolRecord]) -> (r: String)
    ensures
        results@.len() == 0 ==> r@ == "No matching symbols found."@,
        results@.len() > 0 ==> r@ == search_entries(results@),
{
    if results.len() == 0 {
        return to_owned("No matching symbols found.");
    }
    let mut out = String::new();
    let mut i: usize = 0;
    while i < results.len()
        invariant
            i <= results@.len(),
            out@ == search_entries(results@.take(i as int)),
        decreases results@.len() - i,
    {
        let e = search_entry_text(&results[i]);
        push_str(&mut out, e.as_str());
        proof {
            let f = |s: SymbolRecord| search_entry(s);
            assert(results@.take(i + 1).map_values(f) =~= results@.take(i as int).map_values(f).push(search_entry(results@[i as int])));
            lemma_concat_push(results@.take(i as int).map_values(f), search_entry(results@[i as int]));
        }
        i = i + 1;
    }
    proof {
        assert(results@.take(i as int) =~= results@);
    }
    out
}

/// The lines `get_impact` lists the dependents on.
pub open spec fn impact_lines(deps: Seq<Seq<char>>) -> Seq<char> {
    concat(deps.map_values(|d: Seq<char>| "  \u{26a1} "@ + d + "\n"@))
}

/// What `get_impact` answers for a symbol's dependents.
pub fn impact_answer(symbol: &str, impact: &[String]) -> (r: String)
    ensures
        impact@.len() == 0 ==> r@ == "No transitive dependents found for: "@ + symbol@,
        impact@.len() > 0 ==> r@ == "Blast radius for "@ + symbol@ + " ("@ + decimal(impact@.len()) + " affected symbols):\n"@
            + impact_lines(views(impact@)),
{
    if impact.len() == 0 {
        let mut m = to_owned("No transitive dependents found for: ");
        push_str(&mut m, symbol);
        return m;
    }
    let n = usize_to_string(impact.len());
    let mut out = String::new();
    push_all(&mut out, &["Blast radius for ", symbol, " (", n.as_str(), " affected symbols):\n"]);
    let ghost head = out@;
    proof {
        reveal_with_fuel(concat, 6);
        assert(head =~= "Blast radius for "@ + symbol@ + " ("@ + decimal(impact@.len()) + " affected symbols):\n"@);
    }
    let mut i: usize = 0;
    while i < impact.len()
        invariant
            i <= impact@.len(),
            out@ == head + impact_lines(views(impact@.take(i as int))),
        decreases impact@.len() - i,
    {
        push_all(&mut out, &["  \u{26a1} ", impact[i].as_str(), "\n"]);
        proof {
            reveal_with_fuel(concat, 4);
            let f = |d: Seq<char>| "  \u{26a1} "@ + d + "\n"@;
            assert(views(impact@.take(i + 1)) =~= views(impact@.take(i as int)).push(impact@[i as int]@));
            assert(views(impact@.take(i + 1)).map_values(f) =~= views(impact@.take(i as int)).map_values(f).push(f(impact@[i as int]@)));
            lemma_concat_push(views(impact@.take(i as int)).map_values(f), f(impact@[i as int]@));
        }
        i = i + 1;
    }
    proof {
        assert(impact@.take(i as int) =~= impact@);
    }
    out
}

/// Texts joined by `sep`.
pub open spec fn joined(parts: Seq<Seq<char>>, sep: Seq<char>) -> Seq<char>
    decreases parts.len(),
{
    if parts.len() == 0 {
        seq![]
    } else if parts.len() == 1 {
        parts[0]
    } else {
        joined(parts.drop_last(), sep) + sep + parts.last()
    }
}

pub(crate) fn join_strings(parts: &Vec<String>, sep: &str) -> (r: String)
    ensures
        r@ == joined(views(parts@), sep@),
{
    let mut out = String::new();
    let mut i: usize = 0;
    while i < parts.len()
        invariant
            i <= parts@.len(),
            out@ == joined(views(parts@.take(i as int)), sep@),
        decreases parts@.len() - i,
    {
        if i > 0 {
            push_str(&mut out, sep);
        }
        push_str(&mut out, parts[i].as_str());
        proof {
            let a = views(parts@.take(i + 1));
            assert(a.drop_last() =~= views(parts@.take(i as int)));
            assert(a.last() == parts@[i as int]@);
            if i == 0 {
                assert(out@ =~= a[0]);
            }
        }
        i = i + 1;
    }
    proof {
        assert(parts@.take(i as int) =~= parts@);
    }
    out
}

/// What `index_status` answers.
pub fn index_status_answer(stats: &IndexStats, database: &str) -> (r: String)
    ensures
        r@ == "Files indexed: "@ + decimal(stats.file_count as nat) + "\n"@ + "Symbols: "@ + decimal(stats.symbol_count as nat)
            + "\n"@ + "Imports tracked: "@ + decimal(stats.import_count as nat) + "\n"@ + "Languages: "@
            + joined(views(stats.languages@), ", "@) + "\n"@ + "Database: "@ + database@ + "\n"@,
{
    let files = usize_to_string(stats.file_count);
    let symbols = usize_to_string(stats.symbol_count);
    let imports = usize_to_string(stats.import_count);
    let langs = join_strings(&stats.languages, ", ");
    let mut out = String::new();
    push_all(&mut out, &["Files indexed: ", files.as_str(), "\n", "Symbols: ", symbols.as_str(), "\n", "Imports tracked: ", imports.as_str(), "\n", "Languages: ", langs.as_str(), "\n", "Database: ", database, "\n"]);
    proof {
        reveal_with_fuel(concat, 16);
        assert(out@ =~= "Files indexed: "@ + decimal(stats.file_count as nat) + "\n"@ + "Symbols: "@ + decimal(stats.symbol_count as nat)
            + "\n"@ + "Imports tracked: "@ + decimal(stats.import_count as nat) + "\n"@ + "Languages: "@
            + joined(views(stats.languages@), ", "@) + "\n"@ + "Database: "@ + database@ + "\n"@);
    }
    out
}

/// What `reindex` answers for one file.
pub fn reindex_file_answer(path: &str, indexed: bool) -> (r: String)
    ensures
        indexed ==> r@ == "Re-indexed: "@ + path@,
        !indexed ==> r@ == "Re-index skipped: "@ + path@ + " unchanged."@,
{
    let mut out = String::new();
    if indexed {
        push_all(&mut out, &["Re-indexed: ", path]);
    } else {
        push_all(&mut out, &["Re-index skipped: ", path, " unchanged."]);
    }
    proof {
        reveal_with_fuel(concat, 4);
    }
    out
}

/// What `reindex` answers for the whole project.
pub fn reindex_all_answer(indexed: usize, unchanged: usize, total: usize) -> (r: String)
    ensures
        r@ == "Re-indexed "@ + decimal(indexed as nat) + " files ("@ + decimal(unchanged as nat) + " unchanged, "@
            + decimal(total as nat) + " scanned)."@,
{
    let a = usize_to_string(indexed);
    let b = usize_to_string(unchanged);
    let c = usize_to_string(total);
    let mut out = String::new();
    push_all(&mut out, &["Re-indexed ", a.as_str(), " files (", b.as_str(), " unchanged, ", c.as_str(), " scanned)."]);
    proof {
        reveal_with_fuel(concat, 8);
        assert(out@ =~= "Re-indexed "@ + decimal(indexed as nat) + " files ("@ + decimal(unchanged as nat) + " unchanged, "@
            + decimal(total as nat) + " scanned)."@);
    }
    out
}

/// A ranked symbol with its score already written out.
#[derive(Clone, Debug)]
pub struct RankedRow {
    pub name: String,
    pub kind: String,
    pub file_path: String,
    pub score: String,
}

/// The lines `get_dependencies` lists, each dependency with its rank text.
pub open spec fn dependency_lines(deps: Seq<Seq<char>>, ranks: Seq<Seq<char>>) -> Seq<char>
    decreases deps.len(),
{
    if deps.len() == 0 {
        seq![]
    } else {
        dependency_lines(deps.drop_last(), ranks) + "  \u{2192} "@ + deps.last() + " (rank: "@ + ranks[deps.len() - 1]
            + ")\n"@
    }
}

/// What `get_dependencies` answers: each dependency in `direction` with its
/// rank (`ranks[i]` is the written score of `deps[i]`), or that there is none.
pub fn dependencies_answer(symbol: &str, direction: &str, deps: &[String], ranks: &[String]) -> (r: String)
    requires
        deps@.len() == ranks@.len(),
    ensures
        deps@.len() == 0 ==> r@ == "No "@ + direction@ + " dependencies found for: "@ + symbol@,
        deps@.len() > 0 ==> r@ == "Dependencies ("@ + direction@ + ") for "@ + symbol@ + ":\n"@ + dependency_lines(
            views(deps@),
            views(ranks@),
        ),
{
    if deps.len() == 0 {
        let mut m = String::new();
        push_all(&mut m, &["No ", direction, " dependencies found for: ", symbol]);
        proof {
            reveal_with_fuel(concat, 5);
        }
        return m;
    }
    let mut out = String::new();
    push_all(&mut out, &["Dependencies (", direction, ") for ", symbol, ":\n"]);
    let ghost head = out@;
    proof {
        reveal_with_fuel(concat, 6);
    }
    let mut i: usize = 0;
    while i < deps.len()
        invariant
            i <= deps@.len(),
            deps@.len() == ranks@.len(),
            out@ == head + dependency_lines(views(deps@.take(i as int)), views(ranks@)),
        decreases deps@.len() - i,
    {
        push_all(&mut out, &["  \u{2192} ", deps[i].as_str(), " (rank: ", ranks[i].as_str(), ")\n"]);
        proof {
            reveal_with_fuel(concat, 6);
            assert(views(deps@.take(i + 1)).drop_last() =~= views(deps@.take(i as int)));
            assert(views(deps@.take(i + 1)).last() == deps@[i as int]@);
        }
        i = i + 1;
    }
    proof {
        assert(deps@.take(i as int) =~= deps@);
    }
    out
}

/// The lines of ranked symbols, numbered from `1`.
pub open spec fn ranked_lines(rows: Seq<RankedRow>) -> Seq<char>
    decreases rows.len(),
{
    if rows.len() == 0 {
        seq![]
    } else {
        let r = rows.last();
        ranked_lines(rows.drop_last()) + "  "@ + decimal(rows.len()) + ". "@ + r.name@ + " ["@ + r.kind@
            + "] \u{2014} "@ + r.file_path@ + " (score: "@ + r.score@ + ")\n"@
    }
}

/// What `get_ranked_symbols` answers: the ranked symbols, numbered, or
/// that there is none.
pub fn ranked_answer(rows: &[RankedRow]) -> (r: String)
    ensures
        rows@.len() == 0 ==> r@ == "No ranked symbols found."@,
        rows@.len() > 0 ==> r@ == "Top "@ + decimal(rows@.len()) + " symbols by PageRank:\n"@ + ranked_lines(rows@),
{
    if rows.len() == 0 {
        return to_owned("No ranked symbols found.");
    }
    let n = usize_to_string(rows.len());
    let mut out = String::new();
    push_all(&mut out, &["Top ", n.as_str(), " symbols by PageRank:\n"]);
    let ghost head = out@;
    proof {
        reveal_with_fuel(concat, 4);
    }
    let mut i: usize = 0;
    while i < rows.len()
        invariant
            i <= rows@.len(),
            out@ == head + ranked_lines(rows@.take(i as int)),
        decreases rows@.len() - i,
    {
        let r = &rows[i];
        let num = usize_to_string(i + 1);
        push_all(&mut out, &["  ", num.as_str(), ". ", r.name.as_str(), " [", r.kind.as_str(), "] \u{2014} ",
            r.file_path.as_str(), " (score: ", r.score.as_str(), ")\n"]);
        proof {
            reveal_with_fuel(concat, 12);
            assert(rows@.take(i + 1).drop_last() =~= rows@.take(i as int));
            assert(rows@.take(i + 1).last() == *r);
        }
        i = i + 1;
    }
    proof {
        assert(rows@.take(i as int) =~= rows@);
    }
    out
}

/// The byte range `read_source` shows of a symbol: its own, cut to a
/// source of `n` bytes.
pub open spec fn source_range(sym: SymbolRecord, n: nat) -> (nat, nat) {
    (
        if sym.byte_start <= n { sym.byte_start as nat } else { n },
        if sym.byte_end <= n { sym.byte_end as nat } else { n },
    )
}

/// The bytes `read_source` keeps at the head of a long excerpt.
pub open spec fn head_budget(max: usize) -> nat {
    (max * 3 / 4) as nat
}

/// Whether `read_source` can cut the source `bytes` for `sym` at whole
/// characters: the range is ordered and each cut it makes, at its ends and,
/// for an excerpt over `max` bytes, after the head and before the tail,
/// falls between characters.
pub open spec fn excerpt_cuts_ok(sym: SymbolRecord, bytes: Seq<u8>, max: usize) -> bool {
    let (s, e) = source_range(sym, bytes.len());
    &&& bytes.len() <= usize::MAX
    &&& s <= e
    &&& is_char_boundary(bytes, s as int)
    &&& is_char_boundary(bytes, e as int)
    &&& (e - s > max ==> {
        &&& max * 3 <= usize::MAX
        &&& is_char_boundary(bytes, (s + head_budget(max)) as int)
        &&& is_char_boundary(bytes, e - (max - head_budget(max)))
    })
}

/// What `read_source` answers for `sym` given its file's bytes: a location
/// line and the symbol's source; where that is over `max` bytes, its first
/// three quarters of `max` and its last quarter, with the bytes left out
/// counted.
pub open spec fn read_source_text(sym: SymbolRecord, bytes: Seq<u8>, max: usize) -> Seq<char> {
    let (s, e) = source_range(sym, bytes.len());
    let total = (e - s) as nat;
    let loc = "// "@ + sym.file_path@ + ":"@ + decimal(sym.byte_start as nat) + "-"@ + decimal(sym.byte_end as nat);
    if total <= max {
        loc + "\n"@ + decode_utf8(bytes.subrange(s as int, e as int))
    } else {
        let hb = head_budget(max);
        let tb = (max - hb) as nat;
        loc + " ("@ + decimal(total) + " chars total, showing first "@ + decimal(hb) + " + last "@ + decimal(tb) + ")\n"@
            + decode_utf8(bytes.subrange(s as int, (s + hb) as int)) + "\n\n// ... ("@ + decimal((total - hb - tb) as nat)
            + " chars omitted) ...\n\n"@ + decode_utf8(bytes.subrange(e - tb, e as int))
    }
}

/// Whether `read_source_answer` can be called: `excerpt_cuts_ok`, computed.
pub fn excerpt_cuts_fit(sym: &SymbolRecord, source: &str, max_chars: usize) -> (r: bool)
    requires
        source.spec_bytes().len() <= usize::MAX,
    ensures
        r == excerpt_cuts_ok(*sym, source.spec_bytes(), max_chars),
{
    let n = source.len();
    let s = if sym.byte_start <= n { sym.byte_start } else { n };
    let e = if sym.byte_end <= n { sym.byte_end } else { n };
    if s > e || !source.is_char_boundary(s) || !source.is_char_boundary(e) {
        return false;
    }
    if e - s <= max_chars {
        return true;
    }
    if max_chars > usize::MAX / 3 {
        return false;
    }
    let hb = max_chars * 3 / 4;
    let tb = max_chars - hb;
    source.is_char_boundary(s + hb) && source.is_char_boundary(e - tb)
}

/// What `read_source` answers for `sym`, whose file holds `source`.
#[verifier::rlimit(40)]
pub fn read_source_answer(sym: &SymbolRecord, source: &str, max_chars: usize) -> (r: String)
    requires
        excerpt_cuts_ok(*sym, source.spec_bytes(), max_chars),
    ensures
        r@ == read_source_text(*sym, source.spec_bytes(), max_chars),
{
    let n = source.len();
    let s = if sym.byte_start <= n { sym.byte_start } else { n };
    let e = if sym.byte_end <= n { sym.byte_end } else { n };
    let total = e - s;
    let bs = usize_to_string(sym.byte_start);
    let be = usize_to_string(sym.byte_end);
    let mut out = String::new();
    push_all(&mut out, &["// ", sym.file_path.as_str(), ":", bs.as_str(), "-", be.as_str()]);
    let ghost loc = out@;
    proof {
        reveal_with_fuel(concat, 7);
    }
    if total <= max_chars {
        let fragment = byte_slice(source, s, e);
        push_all(&mut out, &["\n", fragment]);
        proof {
            reveal_with_fuel(concat, 3);
        }
        out
    } else {
        proof {
            assert(max_chars * 3 / 4 <= max_chars) by (nonlinear_arith)
                requires
                    max_chars * 3 <= usize::MAX,
            ;
        }
        let hb = max_chars * 3 / 4;
        let tb = max_chars - hb;
        let head = byte_slice(source, s, s + hb);
        let tail = byte_slice(source, e - tb, e);
        let t = usize_to_string(total);
        let h = usize_to_string(hb);
        let l = usize_to_string(tb);
        let o = usize_to_string(total - hb - tb);
        push_all(&mut out, &[" (", t.as_str(), " chars total, showing first ", h.as_str(), " + last ", l.as_str(), ")\n"]);
        let ghost mid = out@;
        proof {
            reveal_with_fuel(concat, 8);
            assert(mid =~= loc + " ("@ + decimal(total as nat) + " chars total, showing first "@ + decimal(hb as nat) + " + last "@
                + decimal(tb as nat) + ")\n"@);
        }
        push_all(&mut out, &[head, "\n\n// ... (", o.as_str(), " chars omitted) ...\n\n", tail]);
        proof {
            reveal_with_fuel(concat, 6);
            assert(out@ =~= mid + head@ + "\n\n// ... ("@ + decimal((total - hb - tb) as nat) + " chars omitted) ...\n\n"@ + tail@);
        }
        out
    }
}

} // verus!
