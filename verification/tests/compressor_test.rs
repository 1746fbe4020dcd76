use forgeindex::compressor::{estimate_tokens, tokenize};

#[test]
fn test_tokenize() {
    let tokens = tokenize("getUserById");
    assert!(tokens.contains(&"get".to_string()));
    assert!(tokens.contains(&"user".to_string()));
    assert!(tokens.contains(&"by".to_string()));
    assert!(tokens.contains(&"id".to_string()));
}

#[test]
fn test_estimate_tokens() {
    assert_eq!(estimate_tokens("hello world"), 3);
}

#[test]
fn test_tokenize_snake_case() {
    let tokens = tokenize("get_user_by_id");
    assert!(tokens.contains(&"get".to_string()));
    assert!(tokens.contains(&"user".to_string()));
    assert!(tokens.contains(&"by".to_string()));
    assert!(tokens.contains(&"id".to_string()));
}

use forgeindex::compressor::{compress_context, pack_repo, skeleton};
use forgeindex::store::SymbolRecord;

fn sym(id: i64, file: &str, name: &str, kind: &str, sig: &str, parent: Option<i64>) -> SymbolRecord {
    SymbolRecord {
        id,
        file_path: file.to_string(),
        name: name.to_string(),
        qualified_name: format!("{file}::{name}"),
        kind: kind.to_string(),
        visibility: "public".to_string(),
        signature: sig.to_string(),
        docstring: None,
        byte_start: 0,
        byte_end: 1,
        parent_id: parent,
    }
}

#[test]
fn skeleton_keeps_imports_and_signatures() {
    let source = "import os\nfrom a import b\n\nclass A:\n    def m(self):\n        pass\n\ndef f():\n    pass\n";
    let symbols = vec![
        sym(1, "x.py", "A", "class", "class A:", None),
        sym(2, "x.py", "m", "method", "def m(self):", Some(1)),
        sym(3, "x.py", "f", "function", "def f():", None),
    ];
    assert_eq!(
        skeleton(source, &symbols, true),
        "import os\nfrom a import b\n\nclass A:\n  def m(self):\n\ndef f():\n  ...\n\n"
    );
    assert_eq!(skeleton(source, &symbols, false), "class A:\n  def m(self):\n\ndef f():\n  ...\n\n");
}

#[test]
fn compressed_context_respects_the_budget_and_groups_by_file() {
    let symbols = vec![
        sym(1, "b.py", "total", "function", "def calculate_total(items):", None),
        sym(2, "a.py", "price", "function", "def price():", None),
        sym(3, "a.py", "noise", "function", "def noise():", None),
    ];
    let ranked = vec![(0, true), (1, true), (2, false)];
    assert_eq!(
        compress_context(&symbols, &ranked, 100),
        "// a.py\ndef price():\n\n// b.py\ndef calculate_total(items):\n\n"
    );
    // The first choice alone takes ten tokens with its header; in seven,
    // only the second fits.
    assert_eq!(compress_context(&symbols, &ranked, 10), "// b.py\ndef calculate_total(items):\n\n");
    assert_eq!(compress_context(&symbols, &ranked, 7), "// a.py\ndef price():\n\n");
    assert_eq!(compress_context(&symbols, &ranked, 0), "");
}

#[test]
fn compressed_context_counts_headers_against_the_budget() {
    let symbols = vec![sym(1, "a.py", "abcd", "function", "abcd", None)];
    let ranked = vec![(0, true)];
    assert_eq!(compress_context(&symbols, &ranked, 1), "");
    assert_eq!(compress_context(&symbols, &ranked, 4), "// a.py\nabcd\n\n");
    for budget in 0..40 {
        let symbols = vec![
            sym(1, "b.py", "total", "function", "def calculate_total(items):", None),
            sym(2, "a.py", "price", "function", "def price():", None),
        ];
        let out = compress_context(&symbols, &[(0, true), (1, true)], budget);
        assert!(estimate_tokens(&out) <= budget);
    }
}

#[test]
fn packed_repo_in_both_formats() {
    let symbols = vec![
        sym(1, "b.py", "g", "function", "def g():", None),
        sym(2, "a.py", "f", "function", "def f():", None),
        sym(3, "a.py", "m", "method", "def m(self):", Some(2)),
    ];
    let xml = pack_repo(&symbols, 8000, "xml");
    assert_eq!(xml, "<repo>\n<file path=\"a.py\">\ndef f():\n</file>\n<file path=\"b.py\">\ndef g():\n</file>\n</repo>\n");
    let json = pack_repo(&symbols, 8000, "json");
    let value: serde_json::Value = serde_json::from_str(&json).unwrap();
    assert_eq!(value["files"][0]["path"], "a.py");
    assert_eq!(value["files"][1]["symbols"], "def g():");
    // The closing tag is counted: below the bare tags nothing is packed.
    assert_eq!(pack_repo(&symbols, 3, "xml"), "");
    assert_eq!(pack_repo(&symbols, 4, "xml"), "<repo>\n</repo>\n");
    assert_eq!(pack_repo(&symbols, 13, "xml"), "<repo>\n<file path=\"a.py\">\ndef f():\n</file>\n</repo>\n");
    assert_eq!(pack_repo(&symbols, 21, "xml"), "<repo>\n<file path=\"a.py\">\ndef f():\n</file>\n</repo>\n");
    for budget in 0..40 {
        assert!(estimate_tokens(&pack_repo(&symbols, budget, "xml")) <= budget);
    }
}

#[test]
fn packed_blocks_stay_within_the_budget() {
    let symbols = vec![
        sym(1, "a.py", "f", "function", "def f():", None),
        sym(2, "b.py", "g", "function", "def g():", None),
    ];
    // With both tags, the artifact with one file block is 51 bytes, 13
    // tokens; with both blocks 87 bytes, 22 tokens.
    let xml = pack_repo(&symbols, 13, "xml");
    assert_eq!(xml, "<repo>\n<file path=\"a.py\">\ndef f():\n</file>\n</repo>\n");
    assert_eq!(estimate_tokens(&xml), 13);
    assert_eq!(pack_repo(&symbols, 12, "xml"), "<repo>\n</repo>\n");
    assert_eq!(estimate_tokens(&pack_repo(&symbols, 22, "xml")), 22);
    assert_eq!(pack_repo(&symbols, 21, "xml"), xml);
    // JSON: 20 for the frame and 2 + 20 for each file.
    let json = pack_repo(&symbols, 50, "json");
    let value: serde_json::Value = serde_json::from_str(&json).unwrap();
    assert_eq!(value["files"].as_array().unwrap().len(), 1);
}

#[test]
fn every_relevant_symbol_is_kept_when_all_of_them_fit() {
    let symbols = vec![
        sym(1, "b.py", "calculate_total", "function", "def calculate_total(items):", None),
        sym(2, "a.py", "price", "function", "def price():", None),
        sym(3, "a.py", "noise", "function", "def noise():", None),
    ];
    let ranked = vec![(1, true), (2, false), (0, true)];
    let all = compress_context(&symbols, &ranked, 15);
    assert_eq!(estimate_tokens(&all), 15);
    assert!(all.contains("def calculate_total(items):"));
    assert!(all.contains("def price():"));
    assert!(!all.contains("def noise():"));
}
