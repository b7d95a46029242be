use code_path_lens::adapters::Adapter;
use code_path_lens::scan::{compile_excludes, excluded_by_default, is_generated, ExcludeError, Scanner};

#[test]
fn vendor_and_build_directories_are_excluded() {
    assert!(excluded_by_default("node_modules/left-pad/index.js"));
    assert!(excluded_by_default("crates/a/target/debug/x.rs"));
    assert!(excluded_by_default(".next/server.js"));
    assert!(!excluded_by_default("src/targets/x.rs"));
    assert!(!excluded_by_default("src/lib.rs"));
}

#[test]
fn generated_files_are_recognised_by_name_or_header() {
    assert!(is_generated("src/api.generated.ts", "export {}\n"));
    assert!(is_generated("proto/a_pb2.py", ""));
    assert!(is_generated("web/app.min.js", ""));
    assert!(is_generated("a.go", "// Code generated by protoc. DO NOT EDIT.\npackage a\n"));
    assert!(is_generated("a.rs", "\n\n\n\n\n\n\n// @generated\n"));
    assert!(!is_generated("a.rs", "\n\n\n\n\n\n\n\n// @generated\n"));
    assert!(!is_generated("generated.rs/a.rs", "fn main() {}\n"));
}

#[test]
fn exclusion_globs_are_validated() {
    match compile_excludes(&vec!["docs/**".to_string(), "[".to_string()]) {
        Err(ExcludeError::InvalidGlob(p)) => assert_eq!(p, "["),
        _ => panic!("an unclosed class is not a glob"),
    }
    assert_eq!(
        ExcludeError::InvalidGlob("[".to_string()).message(),
        "invalid --exclude glob `[`"
    );
    assert!(compile_excludes(&vec!["docs/**".to_string()]).is_ok());
}

#[test]
fn the_scanner_counts_files_by_outcome() {
    let excludes = compile_excludes(&vec!["docs/**".to_string()]).unwrap();
    let mut scanner = Scanner::new();
    assert_eq!(scanner.file("docs/a.rs", "/r/docs/a.rs", &excludes), None);
    assert_eq!(scanner.file("target/a.rs", "/r/target/a.rs", &excludes), None);
    assert_eq!(scanner.file("README.md", "/r/README.md", &excludes), None);
    assert_eq!(scanner.file("src/a.rs", "/r/src/a.rs", &excludes), Some(Adapter::Rust));
    scanner.source(Adapter::Rust, "src/a.rs", "/r/src/a.rs", "fn a() {}\n", false);
    assert_eq!(scanner.file("src/b.generated.rs", "/r/src/b.generated.rs", &excludes), Some(Adapter::Rust));
    scanner.source(Adapter::Rust, "src/b.generated.rs", "/r/src/b.generated.rs", "fn b() {}\n", false);
    assert_eq!(scanner.file("src/c.rs", "/r/src/c.rs", &excludes), Some(Adapter::Rust));
    scanner.read_warning("src/c.rs", "permission denied");
    scanner.walk_warning("loop detected");
    assert_eq!(scanner.summary.files, 6);
    assert_eq!(scanner.pending, 0);
    assert_eq!(scanner.summary.unsupported_files, 1);
    assert_eq!(scanner.summary.parsed_files, 1);
    assert_eq!(scanner.summary.skipped_generated, 1);
    assert_eq!(
        scanner.warnings,
        vec![
            "could not read src/c.rs: permission denied".to_string(),
            "walk warning: loop detected".to_string()
        ]
    );
    let outcome = scanner.finish();
    assert_eq!(outcome.symbols.len(), 1);
    assert_eq!(outcome.symbols[0].id, "src/a.rs:1:a");
}

#[test]
fn generated_files_are_parsed_when_included() {
    let excludes = compile_excludes(&vec![]).unwrap();
    let mut scanner = Scanner::new();
    let adapter = scanner.file("src\\b.generated.rs", "/r/src/b.generated.rs", &excludes).unwrap();
    scanner.source(adapter, "src\\b.generated.rs", "/r/src/b.generated.rs", "fn b() {}\n", true);
    let outcome = scanner.finish();
    assert_eq!(outcome.summary.parsed_files, 1);
    assert_eq!(outcome.symbols[0].id, "src/b.generated.rs:1:b");
    assert_eq!(outcome.symbols[0].abs_path, "/r/src/b.generated.rs");
}
