use forgeindex::graph::{DepGraph, Direction};
use forgeindex::store::{EdgeRecord, SymbolRecord};

fn symbol(id: i64, file_path: &str, name: &str) -> SymbolRecord {
    SymbolRecord {
        id,
        file_path: file_path.to_string(),
        name: name.to_string(),
        qualified_name: format!("{file_path}::{name}"),
        kind: "function".to_string(),
        visibility: "public".to_string(),
        signature: format!("fn {name}()"),
        docstring: None,
        byte_start: 0,
        byte_end: 10,
        parent_id: None,
    }
}

fn edge(a: i64, b: i64) -> EdgeRecord {
    EdgeRecord { source_symbol_id: a, target_symbol_id: b, context: "call".to_string() }
}

#[test]
fn graph_uses_resolved_edges() {
    let symbols = vec![symbol(1, "a.py", "alpha"), symbol(2, "b.py", "beta"), symbol(3, "c.py", "gamma")];
    let edges = vec![
        EdgeRecord { source_symbol_id: 1, target_symbol_id: 2, context: "call".to_string() },
        EdgeRecord { source_symbol_id: 2, target_symbol_id: 3, context: "call".to_string() },
    ];

    let graph = DepGraph::build(&symbols, &edges);

    assert_eq!(graph.get_dependencies("alpha", Direction::Out), vec!["b.py::beta"]);
    assert_eq!(graph.get_impact("gamma"), vec!["a.py::alpha", "b.py::beta"]);
    assert_eq!(
        graph.trace_flow("alpha", 2).1,
        vec![("b.py::beta".to_string(), 1), ("c.py::gamma".to_string(), 2)]
    );
}

#[test]
fn direction_parse_defaults_to_both() {
    assert_eq!(Direction::parse("in"), Direction::In);
    assert_eq!(Direction::parse("out"), Direction::Out);
    assert_eq!(Direction::parse("both"), Direction::Both);
    assert_eq!(Direction::parse("sideways"), Direction::Both);
}

#[test]
fn impact_is_all_transitive_dependents() {
    // d -> c -> b -> a, and e -> a: everything depends on a.
    let symbols = vec![
        symbol(1, "a.py", "a"),
        symbol(2, "b.py", "b"),
        symbol(3, "c.py", "c"),
        symbol(4, "d.py", "d"),
        symbol(5, "e.py", "e"),
    ];
    let edges = vec![edge(2, 1), edge(3, 2), edge(4, 3), edge(5, 1)];
    let graph = DepGraph::build(&symbols, &edges);
    assert_eq!(graph.get_impact("a"), vec!["b.py::b", "c.py::c", "d.py::d", "e.py::e"]);
    assert_eq!(graph.get_impact_bounded("a", 1), vec!["b.py::b", "e.py::e"]);
    assert_eq!(graph.get_impact("d"), Vec::<String>::new());
}

#[test]
fn edges_to_unknown_symbols_are_dropped() {
    let symbols = vec![symbol(1, "a.py", "a"), symbol(2, "b.py", "b")];
    let edges = vec![edge(1, 2), edge(1, 99), edge(42, 2)];
    let graph = DepGraph::build(&symbols, &edges);
    assert_eq!(graph.get_dependencies("a", Direction::Out), vec!["b.py::b"]);
    assert_eq!(graph.get_dependencies("b", Direction::In), vec!["a.py::a"]);
    assert_eq!(graph.get_dependencies("a", Direction::Both), vec!["b.py::b"]);
}

#[test]
fn related_goes_both_ways_without_the_symbol() {
    let symbols = vec![symbol(1, "a.py", "a"), symbol(2, "b.py", "b"), symbol(3, "c.py", "c")];
    let edges = vec![edge(1, 2), edge(3, 1)];
    let graph = DepGraph::build(&symbols, &edges);
    assert_eq!(graph.related("a", 1), vec!["b.py::b", "c.py::c"]);
    assert_eq!(graph.related("missing", 3), Vec::<String>::new());
}

#[test]
fn qualified_names_take_precedence_over_bare_names() {
    let symbols = vec![symbol(1, "a.py", "run"), symbol(2, "b.py", "run"), symbol(3, "c.py", "helper")];
    let edges = vec![edge(1, 3), edge(2, 3)];
    let graph = DepGraph::build(&symbols, &edges);
    // The bare name resolves to both `run`s; the qualified one to one.
    assert_eq!(graph.get_impact("helper"), vec!["a.py::run", "b.py::run"]);
    assert_eq!(graph.get_dependencies("b.py::run", Direction::Out), vec!["c.py::helper"]);
    assert_eq!(graph.get_dependencies("run", Direction::Out), vec!["c.py::helper"]);
    assert_eq!(graph.file_of("b.py::run"), Some("b.py"));
    assert_eq!(graph.file_of("run"), Some("a.py"));
    assert_eq!(graph.kind_of("helper"), Some("function"));
    assert_eq!(graph.file_of("nothing"), None);
}

#[test]
fn trace_lists_each_name_at_its_least_depth() {
    // a -> b -> c, a -> c: c is met at depth 1.
    let symbols = vec![symbol(1, "a.py", "a"), symbol(2, "b.py", "b"), symbol(3, "c.py", "c")];
    let edges = vec![edge(1, 2), edge(2, 3), edge(1, 3)];
    let graph = DepGraph::build(&symbols, &edges);
    let (up, down) = graph.trace_flow("a", 5);
    assert!(up.is_empty());
    assert_eq!(down, vec![("b.py::b".to_string(), 1), ("c.py::c".to_string(), 1)]);
    let (up_c, _) = graph.trace_flow("c", 1);
    assert_eq!(up_c, vec![("a.py::a".to_string(), 1), ("b.py::b".to_string(), 1)]);
}

#[test]
fn node_accessors_describe_the_graph() {
    let symbols = vec![symbol(7, "a.py", "a"), symbol(9, "b.py", "b")];
    let edges = vec![edge(7, 9)];
    let graph = DepGraph::build(&symbols, &edges);
    assert_eq!(graph.node_count(), 2);
    let a = graph.symbol_nodes("a")[0];
    let b = graph.symbol_nodes("b")[0];
    assert_eq!(graph.node_id(a), 7);
    assert_eq!(graph.node_name(b), "b.py::b");
    assert_eq!(graph.node_file(a), "a.py");
    assert_eq!(graph.node_kind(a), "function");
    assert_eq!(graph.uses(a), &vec![b]);
    assert_eq!(graph.used_by(b), &vec![a]);
    assert!(graph.uses(b).is_empty());
    let empty = DepGraph::default();
    assert_eq!(empty.node_count(), 0);
}

#[test]
fn both_directions_are_dependencies_and_dependents_together() {
    let symbols = vec![symbol(1, "a.py", "a"), symbol(2, "b.py", "b"), symbol(3, "c.py", "c"), symbol(4, "d.py", "d")];
    let edges = vec![edge(1, 2), edge(3, 1), edge(1, 1), edge(4, 3)];
    let graph = DepGraph::build(&symbols, &edges);
    let out = graph.get_dependencies("a", Direction::Out);
    let inn = graph.get_dependencies("a", Direction::In);
    let mut union: Vec<String> = out.iter().chain(inn.iter()).cloned().collect();
    union.sort();
    union.dedup();
    assert_eq!(graph.get_dependencies("a", Direction::Both), union);
    assert_eq!(union, vec!["a.py::a", "b.py::b", "c.py::c"]);
    // At depth one, related is the same neighbours without the symbol itself.
    assert_eq!(graph.related("a", 1), vec!["b.py::b", "c.py::c"]);
}
