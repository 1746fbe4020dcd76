use forgeindex::mcp::{
    dependencies_answer, excerpt_cuts_fit, ranked_answer, read_source_answer, RankedRow,
};
use forgeindex::overview::{map_overview_answer, symbol_map};
use forgeindex::search::{find_symbol_query, import_search_query, split_words, symbol_search_query};
use forgeindex::store::{IndexStats, SymbolRecord};
use forgeindex::tools::{tool_definitions, DefaultValue};

fn sym(id: i64, file: &str, name: &str, kind: &str, vis: &str, parent: Option<i64>) -> SymbolRecord {
    SymbolRecord {
        id,
        file_path: file.to_string(),
        name: name.to_string(),
        qualified_name: format!("{file}::{name}"),
        kind: kind.to_string(),
        visibility: vis.to_string(),
        signature: format!("sig {name}"),
        docstring: None,
        byte_start: 0,
        byte_end: 10,
        parent_id: parent,
    }
}

fn stats() -> IndexStats {
    IndexStats {
        file_count: 2,
        symbol_count: 4,
        import_count: 1,
        reference_count: 0,
        edge_count: 0,
        languages: vec!["python".to_string()],
    }
}

fn sample() -> Vec<SymbolRecord> {
    vec![
        sym(1, "src/b.py", "Shape", "class", "public", None),
        sym(2, "src/b.py", "area", "method", "private", Some(1)),
        sym(3, "a.py", "main", "function", "public", None),
        sym(4, "src/b.py", "helper", "function", "internal", None),
    ]
}

#[test]
fn overview_summary_groups_files_in_path_order() {
    let out = map_overview_answer(&stats(), &sample(), 120000, "summary");
    assert_eq!(
        out,
        "Codebase: 2 files, 4 symbols, 1 imports\n\na.py:\n  + fn main\n\nsrc/b.py:\n  + class Shape\n    - fn area\n  ~ fn helper\n"
    );
}

#[test]
fn overview_full_lists_signatures_with_members() {
    let out = map_overview_answer(&stats(), &sample(), 120000, "full");
    assert_eq!(
        out,
        "Codebase: 2 files, 4 symbols, 1 imports\n\na.py:\n  sig main\n\nsrc/b.py:\n  sig Shape\n    sig area\n  sig helper\n"
    );
}

#[test]
fn overview_tree_counts_files_and_top_level_symbols_per_directory() {
    let out = map_overview_answer(&stats(), &sample(), 120000, "tree");
    assert_eq!(out, "Codebase: 2 files, 4 symbols, 1 imports\n\n/  (1 files, 1 symbols)\nsrc/  (1 files, 2 symbols)\n");
}

#[test]
fn overview_stops_before_the_block_that_would_pass_the_budget() {
    let head = "Codebase: 2 files, 4 symbols, 1 imports\n";
    let out = map_overview_answer(&stats(), &sample(), 76, "summary");
    assert_eq!(out, format!("{head}\na.py:\n  + fn main\n\n... (truncated)\n"));
    assert_eq!(out.len(), 76);
    let out = map_overview_answer(&stats(), &sample(), 75, "summary");
    assert_eq!(out, format!("{head}\na.py:\n  + fn main\n"));
    let tree = map_overview_answer(&stats(), &sample(), 81, "tree");
    assert_eq!(tree, format!("{head}\n/  (1 files, 1 symbols)\n... (truncated)\n"));
    assert_eq!(tree.len(), 81);
}

#[test]
fn overview_never_passes_max_chars() {
    for max in 0..200 {
        for detail in ["tree", "summary", "full"] {
            let out = map_overview_answer(&stats(), &sample(), max, detail);
            assert!(out.len() <= max, "{detail} {max}: {out:?}");
        }
        assert!(symbol_map(&sample(), max).len() <= max);
    }
    assert_eq!(map_overview_answer(&stats(), &sample(), 10, "summary"), "");
    assert_eq!(map_overview_answer(&stats(), &sample(), 20, "summary"), "\n... (truncated)\n");
}

#[test]
fn overview_of_nothing_asks_for_an_index() {
    assert_eq!(
        map_overview_answer(&stats(), &[], 100, "tree"),
        "No symbols indexed. Run `forgeindex reindex` first."
    );
}

#[test]
fn symbol_map_heads_each_file_and_lists_members() {
    let out = symbol_map(&sample(), 100000);
    assert_eq!(
        out,
        "\nsrc/b.py:\n  + class Shape\n    - fn area\n\na.py:\n  + fn main\n\nsrc/b.py:\n  ~ fn helper\n"
    );
    assert_eq!(symbol_map(&[], 10), "");
    assert_eq!(symbol_map(&sample(), 58), "\nsrc/b.py:\n  + class Shape\n    - fn area\n\n... (truncated)\n");
    assert_eq!(symbol_map(&sample(), 5), "");
}

#[test]
fn tool_list_names_every_tool_in_order() {
    let tools = tool_definitions();
    let names: Vec<&str> = tools.iter().map(|t| t.name.as_str()).collect();
    assert_eq!(
        names,
        vec![
            "map_overview",
            "find_symbol",
            "read_source",
            "search_symbols",
            "get_skeleton",
            "get_dependencies",
            "get_impact",
            "get_ranked_symbols",
            "compress_context",
            "pack_repo",
            "index_status",
            "reindex"
        ]
    );
    assert_eq!(tools[1].required, vec!["name".to_string()]);
    assert!(tools[0].required.is_empty());
    assert!(matches!(tools[0].params[0].default, Some(DefaultValue::Integer(8000))));
    assert_eq!(tools[5].params[1].choices, vec!["in".to_string(), "out".to_string(), "both".to_string()]);
    assert!(tools[10].params.is_empty());
    assert_eq!(tools[8].params[1].default.as_ref().map(|d| matches!(d, DefaultValue::Integer(4000))), Some(true));
    assert_eq!(tools[9].required, vec!["token_budget".to_string()]);
    assert_eq!(tools.len(), 12);
}

#[test]
fn words_split_at_any_whitespace() {
    assert_eq!(split_words("  auth\tlogin \n x "), vec!["auth", "login", "x"]);
    assert!(split_words(" \t ").is_empty());
}

#[test]
fn symbol_search_with_long_words_matches_anywhere() {
    let q = symbol_search_query("auth ai", 7).unwrap();
    assert_eq!(
        q.sql,
        "SELECT s.id, f.path, s.name, COALESCE(s.qualified_name, ''), s.kind, s.visibility, s.signature, s.docstring, s.byte_start, s.byte_end, s.parent_symbol_id FROM symbols s JOIN files f ON s.file_id = f.id WHERE (s.name LIKE ?1 OR s.qualified_name LIKE ?1 OR s.signature LIKE ?1 OR COALESCE(s.docstring,'') LIKE ?1 OR f.path LIKE ?1) ORDER BY CASE WHEN s.name = ?2 OR s.qualified_name = ?2 THEN -100 ELSE 0 END + CASE WHEN s.qualified_name LIKE ?3 THEN -12 WHEN s.name LIKE ?3 THEN -10 WHEN f.path LIKE ?3 THEN -5 WHEN s.signature LIKE ?3 THEN -3 WHEN COALESCE(s.docstring,'') LIKE ?3 THEN -1 ELSE 0 END + CASE WHEN s.kind = 'variable' THEN 5 WHEN s.kind = 'const' THEN 3 ELSE 0 END LIMIT ?4"
    );
    assert_eq!(q.params, vec!["%auth%", "auth ai", "%auth%", "7"]);
}

#[test]
fn symbol_search_with_only_short_words_matches_whole_names() {
    let q = symbol_search_query("ai", 10).unwrap();
    assert!(q.sql.contains("WHERE (LOWER(s.name) = LOWER(?1) OR LOWER(s.qualified_name) = LOWER(?1) OR LOWER(s.name) LIKE LOWER(?2) OR LOWER(s.qualified_name) LIKE LOWER(?2) OR f.path LIKE ?3) ORDER BY CASE WHEN s.name = ?4"));
    assert!(q.sql.ends_with("LIMIT ?6"));
    assert_eq!(q.params, vec!["ai", "ai%", "%/ai%", "ai", "%ai%", "10"]);
    assert!(symbol_search_query("   ", 10).is_none());
}

#[test]
fn import_search_numbers_parameters_across_words() {
    let q = import_search_query("ai stripe", 30).unwrap();
    assert_eq!(
        q.sql,
        "SELECT f.path, i.raw_text, i.source_module FROM imports i JOIN files f ON i.file_id = f.id WHERE (COALESCE(i.source_module,'') = ?1 OR COALESCE(i.source_module,'') LIKE ?2 OR COALESCE(i.source_module,'') LIKE ?3) OR (i.raw_text LIKE ?4 OR COALESCE(i.source_module,'') LIKE ?4) ORDER BY f.path LIMIT ?5"
    );
    assert_eq!(q.params, vec!["ai", "ai/%", "%/ai", "%stripe%", "30"]);
    assert!(import_search_query("", 30).is_none());
}

#[test]
fn read_source_shows_short_symbols_whole() {
    let mut s = sym(1, "a.py", "f", "function", "public", None);
    s.byte_start = 4;
    s.byte_end = 9;
    let src = "abc\ndef f\nxyz";
    assert!(excerpt_cuts_fit(&s, src, 100));
    assert_eq!(read_source_answer(&s, src, 100), "// a.py:4-9\ndef f");
}

#[test]
fn read_source_keeps_head_and_tail_of_long_symbols() {
    let mut s = sym(1, "a.py", "f", "function", "public", None);
    s.byte_start = 0;
    s.byte_end = 50;
    let src = "0123456789abcdefghij";
    assert!(excerpt_cuts_fit(&s, src, 8));
    assert_eq!(
        read_source_answer(&s, src, 8),
        "// a.py:0-50 (20 chars total, showing first 6 + last 2)\n012345\n\n// ... (12 chars omitted) ...\n\nij"
    );
}

#[test]
fn read_source_cuts_must_fall_between_characters() {
    let mut s = sym(1, "a.py", "f", "function", "public", None);
    s.byte_start = 1;
    s.byte_end = 3;
    assert!(!excerpt_cuts_fit(&s, "\u{e9}\u{e9}", 100));
}

#[test]
fn dependency_and_rank_answers_list_entries() {
    let deps = vec!["a.py::f".to_string()];
    let ranks = vec!["0.5000".to_string()];
    assert_eq!(
        dependencies_answer("g", "out", &deps, &ranks),
        "Dependencies (out) for g:\n  \u{2192} a.py::f (rank: 0.5000)\n"
    );
    assert_eq!(dependencies_answer("g", "in", &[], &[]), "No in dependencies found for: g");
    let rows = vec![RankedRow {
        name: "f".to_string(),
        kind: "function".to_string(),
        file_path: "a.py".to_string(),
        score: "0.250000".to_string(),
    }];
    assert_eq!(ranked_answer(&rows), "Top 1 symbols by PageRank:\n  1. f [function] \u{2014} a.py (score: 0.250000)\n");
    assert_eq!(ranked_answer(&[]), "No ranked symbols found.");
}

#[test]
fn symbol_lookup_filters_by_kind_when_given() {
    let plain = find_symbol_query("f", None);
    assert!(plain.sql.ends_with("WHERE s.qualified_name = ?1 OR s.name = ?1"));
    assert_eq!(plain.params, vec!["f"]);
    let typed = find_symbol_query("f", Some("o'clock"));
    assert!(typed.sql.ends_with("WHERE (s.qualified_name = ?1 OR s.name = ?1) AND s.kind = ?2"));
    assert_eq!(typed.params, vec!["f", "o'clock"]);
}
