use code_path_lens::adapters::{boundary_for, is_primitive, parse_file, source_excerpt, Adapter, ParseFailure};
use code_path_lens::syntax::Grammar;

#[test]
fn rust_adapter_finds_function_calls_and_types() {
    let source = r#"
struct Order { id: u64 }
fn handle(order: Order) -> Result<()> {
    validate(order);
    db.execute("insert");
    Ok(())
}
fn validate(order: Order) {}
"#;
    let symbols = parse_file(Adapter::Rust, source, "src/lib.rs", "/repo/src/lib.rs").unwrap();
    let handle = symbols.iter().find(|s| s.name == "handle").unwrap();
    assert!(handle.calls.iter().any(|c| c.name == "validate"));
    assert!(handle
        .calls
        .iter()
        .any(|c| c.boundary.as_deref() == Some("database I/O")));
    assert!(handle.type_names.contains(&"Order".to_string()));
}

#[test]
fn polyglot_adapters_find_documented_declarations() {
    let cases = [
        (
            Adapter::TypeScript,
            "type Order = { id: number };\nconst handle = (order: Order) => validate(order);\nfunction validate(order: Order) {}\n",
            "handle",
        ),
        (
            Adapter::Python,
            "class Order:\n    pass\n\ndef handle(order: Order):\n    validate(order)\n",
            "handle",
        ),
        (
            Adapter::Go,
            "package shop\ntype Order struct { ID int }\nfunc handle(order Order) { validate(order) }\n",
            "handle",
        ),
    ];
    for (adapter, source, expected) in cases {
        let symbols = parse_file(adapter, source, "fixture", "/fixture").unwrap();
        assert!(
            symbols.iter().any(|symbol| symbol.name == expected),
            "{} adapter missed {expected}",
            adapter.label()
        );
    }
}

#[test]
fn rust_symbols_have_ids_lines_and_excerpts() {
    let source = "struct Order {}\nfn handle(order: Order) {\n    validate(order);\n}\nfn validate(order: Order) {}\n";
    let symbols = parse_file(Adapter::Rust, source, "src/lib.rs", "/repo/src/lib.rs").unwrap();
    let ids: Vec<&str> = symbols.iter().map(|s| s.id.as_str()).collect();
    assert_eq!(ids, vec!["src/lib.rs:1:Order", "src/lib.rs:2:handle", "src/lib.rs:5:validate"]);
    let handle = &symbols[1];
    assert_eq!(handle.line, 2);
    assert_eq!(handle.end_line, 4);
    assert_eq!(handle.language, "Rust");
    assert_eq!(
        handle.excerpt,
        "   2 \u{2502} fn handle(order: Order) {\n   3 \u{2502}     validate(order);\n   4 \u{2502} }"
    );
    assert_eq!(handle.calls.len(), 1);
    assert_eq!(handle.calls[0].line, 3);
    assert_eq!(handle.calls[0].boundary, None);
    assert_eq!(handle.type_names, vec!["Order".to_string()]);
    assert!(symbols[0].calls.is_empty());
}

#[test]
fn nested_functions_are_not_searched_for_declarations() {
    let source = "fn outer() {\n    fn inner() {}\n    inner();\n}\n";
    let symbols = parse_file(Adapter::Rust, source, "a.rs", "/a.rs").unwrap();
    let names: Vec<&str> = symbols.iter().map(|s| s.name.as_str()).collect();
    assert_eq!(names, vec!["outer"]);
}

#[test]
fn type_names_are_sorted_and_unique_without_primitives() {
    let source = "fn f(a: Zeta, b: Alpha, c: Zeta, d: u64, e: String) {}\n";
    let symbols = parse_file(Adapter::Rust, source, "a.rs", "/a.rs").unwrap();
    assert_eq!(symbols[0].type_names, vec!["Alpha".to_string(), "Zeta".to_string()]);
}

#[test]
fn adapters_are_chosen_by_extension() {
    assert_eq!(Adapter::for_path("/repo/src/lib.rs"), Some(Adapter::Rust));
    assert_eq!(Adapter::for_path("a/b.MTS"), Some(Adapter::TypeScript));
    assert_eq!(Adapter::for_path("a/b.cts"), Some(Adapter::TypeScript));
    assert_eq!(Adapter::for_path("x.tsx"), Some(Adapter::Tsx));
    assert_eq!(Adapter::for_path("x.jsx"), Some(Adapter::Tsx));
    assert_eq!(Adapter::for_path("x.mjs"), Some(Adapter::JavaScript));
    assert_eq!(Adapter::for_path("x.py"), Some(Adapter::Python));
    assert_eq!(Adapter::for_path("x.go"), Some(Adapter::Go));
    assert_eq!(Adapter::for_path("README.md"), None);
    assert_eq!(Adapter::for_path(".rs"), None);
    assert_eq!(Adapter::for_path("dir.rs/"), Some(Adapter::Rust));
    assert_eq!(Adapter::for_path("a/.."), None);
    assert_eq!(Adapter::for_path("Makefile"), None);
}

#[test]
fn labels_name_each_language() {
    assert_eq!(Adapter::Rust.label(), "Rust");
    assert_eq!(Adapter::Tsx.label(), "TSX");
    assert_eq!(Adapter::JavaScript.label(), "JavaScript");
    assert_eq!(Adapter::Go.function_kinds(), vec!["function_declaration", "method_declaration"]);
    assert_eq!(Adapter::Python.type_kinds(), vec!["class_definition"]);
}

#[test]
fn boundaries_follow_the_first_matching_group() {
    assert_eq!(boundary_for("fetchOrders").as_deref(), Some("network I/O"));
    assert_eq!(boundary_for("read_file").as_deref(), Some("filesystem I/O"));
    assert_eq!(boundary_for("execute").as_deref(), Some("database I/O"));
    assert_eq!(boundary_for("parseJson").as_deref(), Some("serialization"));
    assert_eq!(boundary_for("getenv").as_deref(), Some("process environment"));
    assert_eq!(boundary_for("SendAndRead").as_deref(), Some("network I/O"));
    assert_eq!(boundary_for("validate"), None);
}

#[test]
fn primitives_are_recognised() {
    assert!(is_primitive("u64"));
    assert!(is_primitive("string"));
    assert!(!is_primitive("Order"));
}

#[test]
fn excerpts_number_at_most_eighteen_lines() {
    let source: String = (1..=30).map(|i| format!("line{i}\n")).collect();
    let excerpt = source_excerpt(&source, 2, 30);
    assert_eq!(excerpt.lines().count(), 18);
    assert!(excerpt.starts_with("   2 \u{2502} line2"));
    assert!(excerpt.ends_with("  19 \u{2502} line19"));
    assert_eq!(source_excerpt("a\r\nb", 1, 2), "   1 \u{2502} a\n   2 \u{2502} b");
}

#[test]
fn parse_failures_are_described() {
    assert_eq!(
        ParseFailure::NoTree(Adapter::Go).message(),
        "Go parser returned no tree"
    );
    assert_eq!(
        ParseFailure::LanguageUnavailable(Adapter::Rust, "bad version".to_string()).message(),
        "could not load the Rust parser: bad version"
    );
}

#[test]
fn javascript_is_read_with_the_typescript_grammar() {
    assert_eq!(Adapter::JavaScript.grammar(), Grammar::TypeScript);
    assert_eq!(Adapter::Tsx.grammar(), Grammar::Tsx);
    assert_eq!(Adapter::Rust.grammar(), Grammar::Rust);
    assert_eq!(Adapter::Go.grammar(), Grammar::Go);
    assert_eq!(Adapter::Python.grammar(), Grammar::Python);
}

#[test]
fn calls_lie_within_their_declaration() {
    let source = "fn a() {\n    b();\n}\nfn b() {\n    c();\n    d();\n}\n";
    let symbols = parse_file(Adapter::Rust, source, "x.rs", "/x.rs").unwrap();
    assert_eq!(symbols.len(), 2);
    for s in &symbols {
        assert!(!s.calls.is_empty());
        for c in &s.calls {
            assert!(s.line <= c.line && c.line <= s.end_line);
        }
    }
    assert_eq!(symbols[1].calls.iter().map(|c| c.line).collect::<Vec<_>>(), vec![5, 6]);
}
