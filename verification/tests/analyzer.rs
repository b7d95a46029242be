use code_path_lens::analyzer::{analyze, AnalyzeError, AnalyzeOptions, ScanOutcome};
use code_path_lens::model::{EdgeKind, NodeKind};
use code_path_lens::scan::{compile_excludes, Scanner};

/// Scans in-memory files as the walk would hand them over.
fn scan_sources(root: &str, files: &[(&str, &str)]) -> ScanOutcome {
    let excludes = compile_excludes(&vec![]).unwrap();
    let mut scanner = Scanner::new();
    for (rel, source) in files {
        let abs = format!("{root}/{rel}");
        if let Some(adapter) = scanner.file(rel, &abs, &excludes) {
            scanner.source(adapter, rel, &abs, source, false);
        }
    }
    scanner.finish()
}

fn options(root: &str, symbol: &str, depth: usize, max_nodes: usize, link: &str) -> AnalyzeOptions {
    AnalyzeOptions {
        root: root.into(),
        symbol: symbol.into(),
        depth,
        max_nodes,
        include_generated: false,
        excludes: vec![],
        link_template: link.into(),
    }
}

const LIB: &str = "struct Order {}\nfn entry(x: Order) { known(); mystery(); }\nfn known() {}\nfn caller() { entry(Order {}); }\n";

#[test]
fn builds_a_bounded_graph_and_keeps_unresolved_evidence() {
    let scan = scan_sources("/repo", &[("src/lib.rs", LIB)]);
    let graph = analyze(
        &options("/repo", "entry", 2, 40, "vscode://file/{abs}:{line}"),
        "/repo",
        scan,
    )
    .unwrap();
    assert!(graph.nodes.iter().any(|node| node.label == "known"));
    assert!(graph.nodes.iter().any(|node| node.label == "caller"));
    assert!(graph
        .nodes
        .iter()
        .any(|node| node.label == "mystery" && node.kind == NodeKind::Unresolved));
    assert!(graph
        .nodes
        .iter()
        .any(|node| node.label == "Order" && node.kind == NodeKind::Type));
}

#[test]
fn reports_ambiguous_symbols() {
    let scan = scan_sources("/repo", &[("a.py", "def run():\n    pass\n"), ("b.py", "def run():\n    pass\n")]);
    let error = analyze(&options("/repo", "run", 1, 10, "{path}:{line}"), "/repo", scan).unwrap_err();
    assert!(error.message().contains("ambiguous"));
    assert_eq!(
        error.message(),
        "symbol `run` is ambiguous; use one of these stable ids:\n  a.py:1:run (a.py:1)\n  b.py:1:run (b.py:1)"
    );
}

#[test]
fn stable_ids_select_one_of_several_functions() {
    let scan = scan_sources("/repo", &[("a.py", "def run():\n    pass\n"), ("b.py", "def run():\n    pass\n")]);
    let graph = analyze(&options("/repo", "b.py:1:run", 1, 10, "{path}:{line}"), "/repo", scan).unwrap();
    assert_eq!(graph.nodes.len(), 1);
    assert_eq!(graph.nodes[0].id, "b.py:1:run");
    assert_eq!(graph.nodes[0].kind, NodeKind::Entry);
    assert_eq!(graph.nodes[0].location.as_ref().unwrap().link, "b.py:1");
}

#[test]
fn missing_symbols_are_reported() {
    let scan = scan_sources("/repo", &[("src/lib.rs", LIB)]);
    let error = analyze(&options("/repo", "nope", 2, 40, "{path}"), "/repo", scan).unwrap_err();
    assert!(matches!(error, AnalyzeError::NotFound(ref s) if s == "nope"));
    assert_eq!(error.message(), "symbol `nope` was not found in supported source files");
    let scan = scan_sources("/repo", &[("src/lib.rs", LIB)]);
    assert!(analyze(&options("/repo", "Order", 2, 40, "{path}"), "/repo", scan).is_err());
}

#[test]
fn graph_is_ordered_and_carries_evidence() {
    let scan = scan_sources("/repo", &[("src/lib.rs", LIB)]);
    let graph = analyze(
        &options("/repo", "entry", 2, 40, "{path}#{line}"),
        "/repo",
        scan,
    )
    .unwrap();
    let ids: Vec<&str> = graph.nodes.iter().map(|n| n.id.as_str()).collect();
    assert_eq!(
        ids,
        vec![
            "src/lib.rs:2:entry",
            "src/lib.rs:3:known",
            "src/lib.rs:4:caller",
            "src/lib.rs:1:Order",
            "unresolved:src/lib.rs:2:entry:2:mystery",
        ]
    );
    let entry = &graph.nodes[0];
    assert_eq!(entry.evidence, "requested entry symbol");
    assert_eq!(entry.location.as_ref().unwrap().link, "src/lib.rs#2");
    assert_eq!(entry.language.as_deref(), Some("Rust"));
    let kinds: Vec<(String, String, EdgeKind)> = graph
        .edges
        .iter()
        .map(|e| (e.from.clone(), e.to.clone(), e.kind))
        .collect();
    assert_eq!(
        kinds,
        vec![
            ("src/lib.rs:2:entry".to_string(), "src/lib.rs:1:Order".to_string(), EdgeKind::UsesType),
            ("src/lib.rs:2:entry".to_string(), "src/lib.rs:3:known".to_string(), EdgeKind::Calls),
            ("src/lib.rs:2:entry".to_string(), "src/lib.rs:4:caller".to_string(), EdgeKind::CalledBy),
            (
                "src/lib.rs:2:entry".to_string(),
                "unresolved:src/lib.rs:2:entry:2:mystery".to_string(),
                EdgeKind::UnresolvedCall
            ),
            ("src/lib.rs:3:known".to_string(), "src/lib.rs:2:entry".to_string(), EdgeKind::CalledBy),
            ("src/lib.rs:4:caller".to_string(), "src/lib.rs:1:Order".to_string(), EdgeKind::UsesType),
            ("src/lib.rs:4:caller".to_string(), "src/lib.rs:2:entry".to_string(), EdgeKind::Calls),
        ]
    );
    for (i, a) in graph.nodes.iter().enumerate() {
        for b in &graph.nodes[i + 1..] {
            assert_ne!(a.id, b.id);
        }
    }
    for edge in &graph.edges {
        assert!(graph.nodes.iter().any(|n| n.id == edge.from));
        assert!(graph.nodes.iter().any(|n| n.id == edge.to));
    }
    assert_eq!(graph.nodes.iter().filter(|n| n.kind == NodeKind::Entry).count(), 1);
    assert!(!graph.limits.truncated);
    assert_eq!(graph.warnings.len(), 1);
    assert!(graph.warnings[0].starts_with("Static approximation:"));
    assert_eq!(graph.schema_version, 1);
    assert_eq!(graph.root, "/repo");
    assert_eq!(graph.approximation_notice, "Bounded static evidence, not a runtime-complete call trace.");
    assert_eq!(graph.scanned.parsed_files, 1);
}

#[test]
fn the_node_budget_truncates_and_warns() {
    let scan = scan_sources("/repo", &[("src/lib.rs", LIB)]);
    let graph = analyze(&options("/repo", "entry", 2, 1, "{path}"), "/repo", scan).unwrap();
    assert_eq!(graph.nodes.len(), 1);
    assert_eq!(graph.nodes[0].kind, NodeKind::Entry);
    assert!(graph.limits.truncated);
    assert_eq!(
        graph.warnings[0],
        "Graph reached the 1 node budget; some evidence is omitted. Re-run with --max-nodes to change the explicit bound."
    );
    assert!(graph.warnings.last().unwrap().starts_with("Static approximation:"));
}

#[test]
fn depth_zero_keeps_only_unresolved_calls_and_boundaries() {
    let scan = scan_sources(
        "/repo",
        &[("a.rs", "fn entry() { helper(); fetch_orders(); }\nfn helper() {}\nfn fetch_orders() {}\n")],
    );
    let graph = analyze(&options("/repo", "entry", 0, 40, "{path}"), "/repo", scan).unwrap();
    let labels: Vec<&str> = graph.nodes.iter().map(|n| n.label.as_str()).collect();
    assert_eq!(labels, vec!["entry", "network I/O"]);
    assert_eq!(graph.nodes[1].kind, NodeKind::DataBoundary);
    assert_eq!(graph.nodes[1].id, "boundary:a.rs:1:entry:1:network I/O");
    assert_eq!(
        graph.nodes[1].evidence,
        "call `fetch_orders` at a.rs:1 matched the network I/O boundary rule"
    );
    assert_eq!(graph.edges.len(), 1);
    assert_eq!(graph.edges[0].kind, EdgeKind::CrossesBoundary);
    assert_eq!(graph.edges[0].evidence, "a.rs:1 calls fetch_orders");
}

#[test]
fn calls_with_several_declarations_stay_unresolved() {
    let scan = scan_sources(
        "/repo",
        &[
            ("a.rs", "fn entry() {\n    run();\n}\n"),
            ("b.rs", "fn run() {}\n"),
            ("c.rs", "fn run() {}\n"),
        ],
    );
    let graph = analyze(&options("/repo", "entry", 2, 40, "{path}"), "/repo", scan).unwrap();
    let unresolved = graph.nodes.iter().find(|n| n.kind == NodeKind::Unresolved).unwrap();
    assert_eq!(unresolved.label, "run");
    assert_eq!(unresolved.evidence, "multiple matching declarations at a.rs:2");
    assert!(graph.nodes.iter().all(|n| n.label != "run" || n.kind == NodeKind::Unresolved));
}

#[test]
fn skipped_generated_files_are_reported_before_the_approximation() {
    let excludes = compile_excludes(&vec![]).unwrap();
    let mut scanner = Scanner::new();
    for (rel, source) in [("a.rs", "fn entry() {}\n"), ("b.rs", "// @generated\nfn other() {}\n")] {
        let abs = format!("/repo/{rel}");
        let adapter = scanner.file(rel, &abs, &excludes).unwrap();
        scanner.source(adapter, rel, &abs, source, false);
    }
    let graph = analyze(&options("/repo", "entry", 2, 40, "{path}"), "/repo", scanner.finish()).unwrap();
    assert_eq!(graph.scanned.skipped_generated, 1);
    assert_eq!(
        graph.warnings,
        vec![
            "Skipped 1 generated source file(s); pass --include-generated to inspect them.".to_string(),
            "Static approximation: dynamic dispatch, reflection, macros, generated code, and runtime configuration may change the executed path.".to_string(),
        ]
    );
}
