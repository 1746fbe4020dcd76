//! The tools the server offers, each with its parameters, as the tool list
//! describes them to a client.
use vstd::prelude::*;
use crate::mcp::{tool_call, ToolArgs};
use crate::text::{to_owned, views};

verus! {

/// The default value of a tool parameter.
#[derive(Clone, Debug)]
pub enum DefaultValue {
    Integer(u64),
    Text(String),
}

/// A tool parameter: its name, JSON type, description, default, and the
/// values it is limited to (none where it is free).
#[derive(Clone, Debug)]
pub struct ToolParam {
    pub name: String,
    pub kind: String,
    pub description: String,
    pub default: Option<DefaultValue>,
    pub choices: Vec<String>,
}

/// A tool: its name, description, parameters, and the parameters a call
/// must give.
#[derive(Clone, Debug)]
pub struct ToolDefinition {
    pub name: String,
    pub description: String,
    pub params: Vec<ToolParam>,
    pub required: Vec<String>,
}

/// A default value, as text.
#[verifier::ext_equal]
pub enum DefaultSpec {
    Integer(u64),
    Text(Seq<char>),
}

/// A tool parameter, as text.
#[verifier::ext_equal]
pub struct ParamSpec {
    pub name: Seq<char>,
    pub kind: Seq<char>,
    pub description: Seq<char>,
    pub default: Option<DefaultSpec>,
    pub choices: Seq<Seq<char>>,
}

/// A tool, as text.
#[verifier::ext_equal]
pub struct ToolSpec {
    pub name: Seq<char>,
    pub description: Seq<char>,
    pub params: Seq<ParamSpec>,
    pub required: Seq<Seq<char>>,
}

pub open spec fn default_spec(d: Option<DefaultValue>) -> Option<DefaultSpec> {
    match d {
        Some(DefaultValue::Integer(n)) => Some(DefaultSpec::Integer(n)),
        Some(DefaultValue::Text(t)) => Some(DefaultSpec::Text(t@)),
        None => None,
    }
}

impl View for ToolParam {
    type V = ParamSpec;

    open spec fn view(&self) -> ParamSpec {
        ParamSpec {
            name: self.name@,
            kind: self.kind@,
            description: self.description@,
            default: default_spec(self.default),
            choices: views(self.choices@),
        }
    }
}

impl View for ToolDefinition {
    type V = ToolSpec;

    open spec fn view(&self) -> ToolSpec {
        ToolSpec {
            name: self.name@,
            description: self.description@,
            params: self.params@.map_values(|p: ToolParam| p@),
            required: views(self.required@),
        }
    }
}

pub open spec fn param_spec(
    name: Seq<char>,
    kind: Seq<char>,
    description: Seq<char>,
    default: Option<DefaultSpec>,
    choices: Seq<Seq<char>>,
) -> ParamSpec {
    ParamSpec { name, kind, description, default, choices }
}

/// The tools, in the order they are listed.
pub open spec fn tool_table() -> Seq<ToolSpec> {
    seq![
        ToolSpec {
            name: "map_overview"@,
            description: "Get a map of the codebase. Use detail='tree' for a compact directory overview (~2K tokens for any codebase), 'summary' for file paths + symbol names (~15K tokens for large codebases), or 'full' for complete signatures."@,
            params: seq![
                param_spec("max_chars"@, "integer"@, "Maximum characters in the output"@, Some(DefaultSpec::Integer(8000)), seq![]),
                param_spec("detail"@, "string"@, "Level of detail: tree (dirs only), summary (symbol names), full (signatures)"@, Some(DefaultSpec::Text("summary"@)), seq!["tree"@, "summary"@, "full"@])
            ],
            required: seq![],
        },
        ToolSpec {
            name: "find_symbol"@,
            description: "Find a symbol by exact name. Returns signature, location, and docstring."@,
            params: seq![
                param_spec("name"@, "string"@, "Exact symbol name to find"@, None, seq![]),
                param_spec("kind"@, "string"@, "Optional: filter by symbol kind"@, None, seq!["function"@, "class"@, "method"@, "type"@, "const"@, "interface"@])
            ],
            required: seq!["name"@],
        },
        ToolSpec {
            name: "read_source"@,
            description: "Read the source code of a specific symbol. Large symbols are truncated to max_chars (head + tail) to save tokens."@,
            params: seq![
                param_spec("symbol"@, "string"@, "Symbol name to read"@, None, seq![]),
                param_spec("max_chars"@, "integer"@, "Maximum characters to return. Large symbols show head + tail with omission marker."@, Some(DefaultSpec::Integer(20000)), seq![])
            ],
            required: seq!["symbol"@],
        },
        ToolSpec {
            name: "search_symbols"@,
            description: "Fuzzy search for symbols by name, signature, or docstring. Supports multi-word queries (e.g. 'auth login') by matching all terms."@,
            params: seq![
                param_spec("query"@, "string"@, "Search query"@, None, seq![]),
                param_spec("max_results"@, "integer"@, "Maximum results"@, Some(DefaultSpec::Integer(10)), seq![]),
                param_spec("max_tokens"@, "integer"@, "Maximum tokens in response"@, Some(DefaultSpec::Integer(2000)), seq![])
            ],
            required: seq!["query"@],
        },
        ToolSpec {
            name: "get_skeleton"@,
            description: "Return a skeletonized view of a file: signatures only, bodies collapsed, imports aggregated."@,
            params: seq![
                param_spec("file_path"@, "string"@, "Relative path to the source file"@, None, seq![])
            ],
            required: seq!["file_path"@],
        },
        ToolSpec {
            name: "get_dependencies"@,
            description: "Get direct dependencies or dependents of a symbol."@,
            params: seq![
                param_spec("symbol"@, "string"@, "Symbol name"@, None, seq![]),
                param_spec("direction"@, "string"@, "Direction of dependencies"@, Some(DefaultSpec::Text("both"@)), seq!["in"@, "out"@, "both"@])
            ],
            required: seq!["symbol"@],
        },
        ToolSpec {
            name: "get_impact"@,
            description: "Compute the blast radius of changing a symbol. Returns all transitive dependents."@,
            params: seq![
                param_spec("symbol"@, "string"@, "Symbol name to analyze"@, None, seq![])
            ],
            required: seq!["symbol"@],
        },
        ToolSpec {
            name: "get_ranked_symbols"@,
            description: "Get top N symbols ranked by PageRank importance score."@,
            params: seq![
                param_spec("top_n"@, "integer"@, "Number of top symbols"@, Some(DefaultSpec::Integer(10)), seq![]),
                param_spec("kind"@, "string"@, "Optional: filter by kind"@, None, seq!["function"@, "class"@, "method"@, "type"@, "const"@, "interface"@])
            ],
            required: seq![],
        },
        ToolSpec {
            name: "compress_context"@,
            description: "Return maximally relevant compressed code for a query within a strict token budget."@,
            params: seq![
                param_spec("query"@, "string"@, "Natural language or identifier query"@, None, seq![]),
                param_spec("token_budget"@, "integer"@, "Max tokens in response"@, Some(DefaultSpec::Integer(4000)), seq![])
            ],
            required: seq!["query"@],
        },
        ToolSpec {
            name: "pack_repo"@,
            description: "Pack entire repo into a single artifact within a token budget."@,
            params: seq![
                param_spec("token_budget"@, "integer"@, "Max tokens"@, None, seq![]),
                param_spec("format"@, "string"@, "Output format"@, Some(DefaultSpec::Text("xml"@)), seq!["xml"@, "json"@])
            ],
            required: seq!["token_budget"@],
        },
        ToolSpec {
            name: "index_status"@,
            description: "Show index health: file count, symbol count, last update."@,
            params: seq![

            ],
            required: seq![],
        },
        ToolSpec {
            name: "reindex"@,
            description: "Force re-index of a specific file or the entire repository."@,
            params: seq![
                param_spec("path"@, "string"@, "Optional: specific file to re-index"@, None, seq![])
            ],
            required: seq![],
        }
    ]
}

fn strings(items: &[&str]) -> (r: Vec<String>)
    ensures
        views(r@) == items@.map_values(|s: &str| s@),
{
    let mut v: Vec<String> = Vec::new();
    let mut i: usize = 0;
    while i < items.len()
        invariant
            i <= items@.len(),
            views(v@) == items@.take(i as int).map_values(|s: &str| s@),
        decreases items@.len() - i,
    {
        let ghost before = views(v@);
        v.push(to_owned(items[i]));
        proof {
            assert(items@.take(i + 1) =~= items@.take(i as int).push(items@[i as int]));
            assert(views(v@) =~= before.push(items@[i as int]@));
            assert(views(v@) =~= items@.take(i + 1).map_values(|s: &str| s@));
        }
        i = i + 1;
    }
    proof {
        assert(items@.take(i as int) =~= items@);
    }
    v
}

fn param(name: &str, kind: &str, description: &str, default: Option<DefaultValue>, choices: &[&str]) -> (r: ToolParam)
    ensures
        r@ == param_spec(name@, kind@, description@, default_spec(default), choices@.map_values(|s: &str| s@)),
{
    ToolParam {
        name: to_owned(name),
        kind: to_owned(kind),
        description: to_owned(description),
        default,
        choices: strings(choices),
    }
}

fn tool(name: &str, description: &str, params: Vec<ToolParam>, required: &[&str]) -> (r: ToolDefinition)
    ensures
        r@ == (ToolSpec {
            name: name@,
            description: description@,
            params: params@.map_values(|p: ToolParam| p@),
            required: required@.map_values(|s: &str| s@),
        }),
{
    ToolDefinition {
        name: to_owned(name),
        description: to_owned(description),
        params,
        required: strings(required),
    }
}

/// The tools the server offers, with their parameters.
#[verifier::rlimit(60)]
pub fn tool_definitions() -> (r: Vec<ToolDefinition>)
    ensures
        r@.map_values(|t: ToolDefinition| t@) =~~= tool_table(),
{
    let mut tools: Vec<ToolDefinition> = Vec::new();
    let mut params: Vec<ToolParam> = Vec::new();
    params.push(param("max_chars", "integer", "Maximum characters in the output", Some(DefaultValue::Integer(8000)), &[]));
    params.push(param("detail", "string", "Level of detail: tree (dirs only), summary (symbol names), full (signatures)", Some(DefaultValue::Text(to_owned("summary"))), &["tree", "summary", "full"]));
    tools.push(tool("map_overview", "Get a map of the codebase. Use detail='tree' for a compact directory overview (~2K tokens for any codebase), 'summary' for file paths + symbol names (~15K tokens for large codebases), or 'full' for complete signatures.", params, &[]));
    let mut params: Vec<ToolParam> = Vec::new();
    params.push(param("name", "string", "Exact symbol name to find", None, &[]));
    params.push(param("kind", "string", "Optional: filter by symbol kind", None, &["function", "class", "method", "type", "const", "interface"]));
    tools.push(tool("find_symbol", "Find a symbol by exact name. Returns signature, location, and docstring.", params, &["name"]));
    let mut params: Vec<ToolParam> = Vec::new();
    params.push(param("symbol", "string", "Symbol name to read", None, &[]));
    params.push(param("max_chars", "integer", "Maximum characters to return. Large symbols show head + tail with omission marker.", Some(DefaultValue::Integer(20000)), &[]));
    tools.push(tool("read_source", "Read the source code of a specific symbol. Large symbols are truncated to max_chars (head + tail) to save tokens.", params, &["symbol"]));
    let mut params: Vec<ToolParam> = Vec::new();
    params.push(param("query", "string", "Search query", None, &[]));
    params.push(param("max_results", "integer", "Maximum results", Some(DefaultValue::Integer(10)), &[]));
    params.push(param("max_tokens", "integer", "Maximum tokens in response", Some(DefaultValue::Integer(2000)), &[]));
    tools.push(tool("search_symbols", "Fuzzy search for symbols by name, signature, or docstring. Supports multi-word queries (e.g. 'auth login') by matching all terms.", params, &["query"]));
    let mut params: Vec<ToolParam> = Vec::new();
    params.push(param("file_path", "string", "Relative path to the source file", None, &[]));
    tools.push(tool("get_skeleton", "Return a skeletonized view of a file: signatures only, bodies collapsed, imports aggregated.", params, &["file_path"]));
    let mut params: Vec<ToolParam> = Vec::new();
    params.push(param("symbol", "string", "Symbol name", None, &[]));
    params.push(param("direction", "string", "Direction of dependencies", Some(DefaultValue::Text(to_owned("both"))), &["in", "out", "both"]));
    tools.push(tool("get_dependencies", "Get direct dependencies or dependents of a symbol.", params, &["symbol"]));
    let mut params: Vec<ToolParam> = Vec::new();
    params.push(param("symbol", "string", "Symbol name to analyze", None, &[]));
    tools.push(tool("get_impact", "Compute the blast radius of changing a symbol. Returns all transitive dependents.", params, &["symbol"]));
    let mut params: Vec<ToolParam> = Vec::new();
    params.push(param("top_n", "integer", "Number of top symbols", Some(DefaultValue::Integer(10)), &[]));
    params.push(param("kind", "string", "Optional: filter by kind", None, &["function", "class", "method", "type", "const", "interface"]));
    tools.push(tool("get_ranked_symbols", "Get top N symbols ranked by PageRank importance score.", params, &[]));
    let mut params: Vec<ToolParam> = Vec::new();
    params.push(param("query", "string", "Natural language or identifier query", None, &[]));
    params.push(param("token_budget", "integer", "Max tokens in response", Some(DefaultValue::Integer(4000)), &[]));
    tools.push(tool("compress_context", "Return maximally relevant compressed code for a query within a strict token budget.", params, &["query"]));
    let mut params: Vec<ToolParam> = Vec::new();
    params.push(param("token_budget", "integer", "Max tokens", None, &[]));
    params.push(param("format", "string", "Output format", Some(DefaultValue::Text(to_owned("xml"))), &["xml", "json"]));
    tools.push(tool("pack_repo", "Pack entire repo into a single artifact within a token budget.", params, &["token_budget"]));
    let mut params: Vec<ToolParam> = Vec::new();

    tools.push(tool("index_status", "Show index health: file count, symbol count, last update.", params, &[]));
    let mut params: Vec<ToolParam> = Vec::new();
    params.push(param("path", "string", "Optional: specific file to re-index", None, &[]));
    tools.push(tool("reindex", "Force re-index of a specific file or the entire repository.", params, &[]));
    proof {
        assert(tools@.map_values(|t: ToolDefinition| t@) =~~= tool_table());
    }
    tools
}

/// The tools a client is offered are the tools it can call: a call by
/// name is refused as unknown exactly where no listed tool has the name.
pub proof fn lemma_listed_tools_are_callable(name: Seq<char>, args: ToolArgs, default_budget: u64)
    ensures
        (tool_call(name, args, default_budget) is Unknown) <==> !(exists|i: int|
            0 <= i < tool_table().len() && #[trigger] tool_table()[i].name == name),
{
    let t = tool_table();
    if tool_call(name, args, default_budget) is Unknown {
        assert forall|i: int| 0 <= i < t.len() implies #[trigger] t[i].name != name by {}
    } else {
        if name == "map_overview"@ {
            assert(t[0].name == name);
        } else if name == "find_symbol"@ {
            assert(t[1].name == name);
        } else if name == "read_source"@ {
            assert(t[2].name == name);
        } else if name == "search_symbols"@ {
            assert(t[3].name == name);
        } else if name == "get_skeleton"@ {
            assert(t[4].name == name);
        } else if name == "get_dependencies"@ {
            assert(t[5].name == name);
        } else if name == "get_impact"@ {
            assert(t[6].name == name);
        } else if name == "get_ranked_symbols"@ {
            assert(t[7].name == name);
        } else if name == "compress_context"@ {
            assert(t[8].name == name);
        } else if name == "pack_repo"@ {
            assert(t[9].name == name);
        } else if name == "index_status"@ {
            assert(t[10].name == name);
        } else {
            assert(name == "reindex"@);
            assert(t[11].name == name);
        }
    }
}

} // verus!
