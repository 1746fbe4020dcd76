use forgeindex::config::Config;
use forgeindex::mcp::{
    find_symbol_answer, impact_answer, index_status_answer, reindex_all_answer, reindex_file_answer, route,
    search_symbols_answer, tool_request, McpServer, Route, ToolArgs, ToolError, ToolRequest,
};
use forgeindex::store::{IndexStats, SymbolRecord};
use std::path::PathBuf;

fn record(name: &str, doc: Option<&str>) -> SymbolRecord {
    SymbolRecord {
        id: 1,
        file_path: "a.py".to_string(),
        name: name.to_string(),
        qualified_name: format!("a.py::{name}"),
        kind: "function".to_string(),
        visibility: "public".to_string(),
        signature: format!("def {name}():"),
        docstring: doc.map(|d| d.to_string()),
        byte_start: 3,
        byte_end: 42,
        parent_id: None,
    }
}

fn args(texts: &[(&str, &str)], numbers: &[(&str, u64)]) -> ToolArgs {
    ToolArgs {
        texts: texts.iter().map(|(k, v)| (k.to_string(), v.to_string())).collect(),
        numbers: numbers.iter().map(|(k, v)| (k.to_string(), *v)).collect(),
    }
}

#[test]
fn requests_are_routed_by_method() {
    assert_eq!(route("initialize", true), Route::Initialize);
    assert_eq!(route("notifications/initialized", false), Route::Initialized);
    assert_eq!(route("tools/list", true), Route::ListTools);
    assert_eq!(route("tools/call", true), Route::CallTool);
    assert_eq!(route("bogus", true), Route::UnknownMethod);
    assert_eq!(route("bogus", false), Route::Ignore);
}

#[test]
fn server_keeps_its_root_and_config() {
    let server = McpServer::new(PathBuf::from("/proj"), Config::default());
    assert_eq!(server.root_path(), &PathBuf::from("/proj"));
    assert_eq!(server.config().compression.default_token_budget, 4000);
}

#[test]
fn tool_calls_take_defaults_and_require_arguments() {
    match tool_request("map_overview", &args(&[], &[]), 4000) {
        Ok(ToolRequest::MapOverview { max_chars, detail }) => {
            assert_eq!(max_chars, 8000);
            assert_eq!(detail, "summary");
        },
        _ => panic!("map_overview"),
    }
    match tool_request("compress_context", &args(&[("query", "auth")], &[]), 4000) {
        Ok(ToolRequest::CompressContext { query, token_budget }) => {
            assert_eq!(query, "auth");
            assert_eq!(token_budget, 4000);
        },
        _ => panic!("compress_context"),
    }
    match tool_request("search_symbols", &args(&[("query", "x")], &[("max_results", 3)]), 4000) {
        Ok(ToolRequest::SearchSymbols { max_results, .. }) => assert_eq!(max_results, 3),
        _ => panic!("search_symbols"),
    }
    match tool_request("find_symbol", &args(&[], &[]), 4000) {
        Err(e @ ToolError::MissingParameter(_)) => assert_eq!(e.message(), "missing 'name' parameter"),
        _ => panic!("find_symbol"),
    }
    match tool_request("fly", &args(&[], &[]), 4000) {
        Err(e) => assert_eq!(e.message(), "Unknown tool: fly"),
        _ => panic!("fly"),
    }
}

#[test]
fn find_symbol_lists_each_match() {
    let text = find_symbol_answer("f", &[record("f", Some("Does f."))]).unwrap();
    assert_eq!(
        text,
        "Name: f\nKind: function\nFile: a.py\nVisibility: public\nSignature: def f():\nDocstring: Does f.\nLocation: bytes 3..42\n\n"
    );
    assert_eq!(find_symbol_answer("g", &[]), Err("SYMBOL_NOT_FOUND: g".to_string()));
}

#[test]
fn search_results_show_kind_name_and_file() {
    assert_eq!(search_symbols_answer(&[]), "No matching symbols found.");
    assert_eq!(search_symbols_answer(&[record("f", None)]), "[function] f (public) \u{2014} a.py\n  def f():\n");
}

#[test]
fn impact_and_status_answers() {
    assert_eq!(impact_answer("x", &[]), "No transitive dependents found for: x");
    assert_eq!(
        impact_answer("x", &["a.py::a".to_string(), "b.py::b".to_string()]),
        "Blast radius for x (2 affected symbols):\n  \u{26a1} a.py::a\n  \u{26a1} b.py::b\n"
    );
    let stats = IndexStats {
        file_count: 2,
        symbol_count: 10,
        import_count: 3,
        reference_count: 0,
        edge_count: 0,
        languages: vec!["python".to_string(), "rust".to_string()],
    };
    assert_eq!(
        index_status_answer(&stats, "/p/.forgeindex/index.db"),
        "Files indexed: 2\nSymbols: 10\nImports tracked: 3\nLanguages: python, rust\nDatabase: /p/.forgeindex/index.db\n"
    );
    assert_eq!(reindex_file_answer("a.py", true), "Re-indexed: a.py");
    assert_eq!(reindex_file_answer("a.py", false), "Re-index skipped: a.py unchanged.");
    assert_eq!(reindex_all_answer(3, 4, 9), "Re-indexed 3 files (4 unchanged, 9 scanned).");
}

#[test]
fn packing_needs_a_token_budget_and_imports_are_no_tool() {
    match tool_request("pack_repo", &args(&[], &[]), 4000) {
        Err(ToolError::MissingParameter(p)) => assert_eq!(p, "token_budget"),
        _ => panic!("pack_repo without a budget"),
    }
    match tool_request("pack_repo", &args(&[], &[("token_budget", 100)]), 4000) {
        Ok(ToolRequest::PackRepo { token_budget, format }) => {
            assert_eq!(token_budget, 100);
            assert_eq!(format, "xml");
        },
        _ => panic!("pack_repo"),
    }
    assert!(matches!(tool_request("search_imports", &args(&[("query", "x")], &[]), 4000), Err(ToolError::UnknownTool(_))));
}
