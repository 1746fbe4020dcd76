use forgeindex::parser::{parse_file, Import};
use std::path::Path;
use forgeindex::store::{
    backfill_qualified_names, build_qualified_name, containing_symbol_id, import_relevant_for_reference,
    module_matches_file_path, needs_backfill, normalize_file_path, parent_chains_end, normalize_module_path, pick_best_candidate,
    resolve_reference_target, CandidateSymbol, InsertedSymbol, ScopedSymbol,
};

fn inserted(id: i64, name: &str, start: usize, end: usize) -> InsertedSymbol {
    InsertedSymbol { id, name: name.to_string(), byte_start: start, byte_end: end }
}

fn candidate(id: i64, path: &str, parent: Option<i64>) -> CandidateSymbol {
    CandidateSymbol { id, file_path: path.to_string(), parent_id: parent }
}

fn import(module: Option<&str>, names: &[&str]) -> Import {
    Import {
        raw_text: String::new(),
        source_module: module.map(|m| m.to_string()),
        imported_names: names.iter().map(|n| n.to_string()).collect(),
    }
}

#[test]
fn qualified_names_nest_under_their_parent() {
    assert_eq!(build_qualified_name("main.py", None, "run"), "main.py::run");
    assert_eq!(build_qualified_name("main.py", Some("main.py::App"), "run"), "main.py::App::run");
    assert_eq!(build_qualified_name("main.py", Some(""), "run"), "main.py::run");
}

#[test]
fn backfill_follows_parent_chains() {
    let rows = vec![
        ScopedSymbol { id: 1, file_path: "main.py".into(), name: "Application".into(), parent_id: None, qualified_name: None },
        ScopedSymbol { id: 2, file_path: "main.py".into(), name: "run".into(), parent_id: Some(1), qualified_name: None },
        ScopedSymbol { id: 3, file_path: "main.py".into(), name: "orphan".into(), parent_id: Some(99), qualified_name: Some(String::new()) },
    ];
    assert!(needs_backfill(&rows));
    assert_eq!(
        backfill_qualified_names(&rows),
        vec!["main.py::Application", "main.py::Application::run", "main.py::orphan"]
    );
    let named = vec![ScopedSymbol {
        id: 1,
        file_path: "a.py".into(),
        name: "a".into(),
        parent_id: None,
        qualified_name: Some("a.py::a".into()),
    }];
    assert!(!needs_backfill(&named));
}

#[test]
fn the_innermost_symbol_contains_an_offset() {
    let symbols = vec![inserted(1, "Outer", 0, 100), inserted(2, "inner", 10, 50), inserted(3, "twin", 10, 50)];
    assert_eq!(containing_symbol_id(20, &symbols), Some(2));
    assert_eq!(containing_symbol_id(60, &symbols), Some(1));
    assert_eq!(containing_symbol_id(100, &symbols), None);
}

#[test]
fn module_paths_match_files() {
    assert_eq!(normalize_module_path(" .pkg.util. "), "pkg/util");
    assert_eq!(normalize_module_path("crate::store::Store"), "crate/store/Store");
    assert_eq!(normalize_file_path("pkg\\util.py"), "pkg/util");
    assert_eq!(normalize_file_path("pkg/__init__.py"), "pkg");
    assert_eq!(normalize_file_path("README"), "README");
    assert!(module_matches_file_path("pkg.util", "src/pkg/util.py", "helper"));
    assert!(!module_matches_file_path("other", "src/pkg/util.py", "helper"));
    assert!(!module_matches_file_path("...", "src/pkg/util.py", "helper"));
}

#[test]
fn imports_concern_the_names_they_bring_in() {
    assert!(import_relevant_for_reference(&import(Some("pkg.util"), &["helper"]), "helper"));
    assert!(import_relevant_for_reference(&import(None, &["pkg.helper"]), "helper"));
    assert!(import_relevant_for_reference(&import(Some("crate::helper"), &[]), "helper"));
    assert!(!import_relevant_for_reference(&import(Some("pkg.util"), &["other"]), "helper"));
}

#[test]
fn best_candidate_prefers_top_level() {
    let cands = vec![candidate(1, "a.py", Some(9)), candidate(2, "b.py", None)];
    assert_eq!(pick_best_candidate(&cands), Some(1));
    let nested = vec![candidate(1, "a.py", Some(9))];
    assert_eq!(pick_best_candidate(&nested), Some(0));
    assert_eq!(pick_best_candidate(&[]), None);
}

#[test]
fn references_resolve_locally_then_by_import_then_best() {
    let local = vec![inserted(10, "caller", 0, 50), inserted(11, "helper", 60, 90)];
    let imports = vec![import(Some("pkg.util"), &["helper"])];
    let cands = vec![candidate(1, "other/helper.py", None), candidate(2, "pkg/util.py", None)];
    // A local symbol of the name wins.
    assert_eq!(resolve_reference_target("main.py", 10, &local, &imports, "helper", &cands), Some(11));
    // Else the import's module picks the candidate.
    assert_eq!(resolve_reference_target("main.py", 10, &local[..1], &imports, "helper", &cands), Some(2));
    // Else the best candidate.
    assert_eq!(resolve_reference_target("main.py", 10, &local[..1], &[], "helper", &cands), Some(1));
    // Nothing of the name: nothing.
    assert_eq!(resolve_reference_target("main.py", 10, &local[..1], &imports, "helper", &[]), None);
}

#[test]
fn parent_chains_must_end_before_backfill() {
    let row = |id: i64, parent: Option<i64>| ScopedSymbol {
        id,
        file_path: "a.rs".to_string(),
        name: format!("n{id}"),
        parent_id: parent,
        qualified_name: None,
    };
    assert!(parent_chains_end(&[row(1, None), row(2, Some(1)), row(3, Some(9))]));
    assert!(!parent_chains_end(&[row(1, Some(2)), row(2, Some(1))]));
    assert!(!parent_chains_end(&[row(4, Some(4))]));
}

#[test]
fn migrates_legacy_symbols_table_and_backfills_qualified_names() {
    // The rows a legacy table without scoped names holds: a class and its method.
    let rows = vec![
        ScopedSymbol {
            id: 1,
            file_path: "main.py".to_string(),
            name: "Application".to_string(),
            parent_id: None,
            qualified_name: None,
        },
        ScopedSymbol {
            id: 2,
            file_path: "main.py".to_string(),
            name: "run".to_string(),
            parent_id: Some(1),
            qualified_name: None,
        },
    ];
    assert!(needs_backfill(&rows));
    assert!(parent_chains_end(&rows));
    let names = backfill_qualified_names(&rows);
    assert!(names.iter().any(|n| n == "main.py::Application"));
    assert!(names.iter().any(|n| n == "main.py::Application::run"));
}

#[test]
fn resolves_python_import_calls_into_edges() {
    let helper = parse_file(Path::new("pkg/util.py"), "\ndef helper():\n    return 1\n").expect("helper parses");
    let caller_source = "\nfrom pkg.util import helper\n\ndef caller():\n    helper()\n";
    let caller = parse_file(Path::new("main.py"), caller_source).expect("caller parses");

    let helper_sym = helper.symbols.iter().find(|s| s.name == "helper").expect("helper symbol");
    let caller_sym = caller.symbols.iter().find(|s| s.name == "caller").expect("caller symbol");
    let helper_qname = build_qualified_name(&helper.path, None, &helper_sym.name);
    let caller_qname = build_qualified_name(&caller.path, None, &caller_sym.name);
    assert_eq!(caller_qname, "main.py::caller");
    assert_eq!(helper_qname, "pkg/util.py::helper");

    let (helper_id, caller_id) = (1, 2);
    let local = vec![inserted(caller_id, "caller", caller_sym.byte_start, caller_sym.byte_end)];
    let call_at = caller_source.rfind("helper()").unwrap();
    let source = containing_symbol_id(call_at, &local).expect("call inside caller");
    assert_eq!(source, caller_id);
    let candidates = vec![candidate(helper_id, &helper.path, None)];
    assert_eq!(
        resolve_reference_target(&caller.path, source, &local, &caller.imports, "helper", &candidates),
        Some(helper_id)
    );
}
