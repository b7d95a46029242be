use code_path_lens::cli::{
    default_output, effective_format, exit_code, needs_pro, parse_depth, parse_nodes, safe_filename, FailureKind,
    OutputFormat,
};

#[test]
fn filenames_are_portable() {
    assert_eq!(safe_filename("crate::handle/order"), "crate--handle-order");
}

#[test]
fn filenames_are_lower_case_trimmed_and_short() {
    assert_eq!(safe_filename("::Order.Handle::"), "order-handle");
    assert_eq!(safe_filename("a_b-c"), "a_b-c");
    assert_eq!(safe_filename("---"), "");
    let long: String = "X".repeat(100);
    assert_eq!(safe_filename(&long), "x".repeat(80));
    assert_eq!(safe_filename("caf\u{e9}"), "caf");
}

#[test]
fn depth_is_bounded_by_the_pro_limit() {
    assert_eq!(parse_depth("0"), Ok(0));
    assert_eq!(parse_depth("8"), Ok(8));
    assert_eq!(parse_depth("+3"), Ok(3));
    assert_eq!(parse_depth("9"), Err("depth must be between 0 and 8".to_string()));
    assert_eq!(parse_depth("two"), Err("depth must be an integer".to_string()));
    assert_eq!(parse_depth(""), Err("depth must be an integer".to_string()));
    assert_eq!(parse_depth("-1"), Err("depth must be an integer".to_string()));
    assert_eq!(
        parse_depth("99999999999999999999999"),
        Err("depth must be an integer".to_string())
    );
}

#[test]
fn node_budget_is_between_one_and_the_pro_limit() {
    assert_eq!(parse_nodes("1"), Ok(1));
    assert_eq!(parse_nodes("250"), Ok(250));
    assert_eq!(parse_nodes("0"), Err("max-nodes must be between 1 and 250".to_string()));
    assert_eq!(parse_nodes("251"), Err("max-nodes must be between 1 and 250".to_string()));
    assert_eq!(parse_nodes("4 0"), Err("max-nodes must be an integer".to_string()));
}

#[test]
fn free_bounds_need_no_license() {
    assert!(!needs_pro(2, 40));
    assert!(needs_pro(3, 40));
    assert!(needs_pro(0, 41));
}

#[test]
fn default_outputs_follow_the_format() {
    assert_eq!(default_output(OutputFormat::Html, "crate::handle"), "crate--handle-lens.html");
    assert_eq!(default_output(OutputFormat::Dot, "handle"), "handle-lens.dot");
    assert_eq!(default_output(OutputFormat::Json, "handle"), "-");
    assert_eq!(effective_format(true, OutputFormat::Dot), OutputFormat::Json);
    assert_eq!(effective_format(false, OutputFormat::Dot), OutputFormat::Dot);
}

#[test]
fn exit_codes_classify_failures() {
    assert_eq!(exit_code(FailureKind::Symbol), 3);
    assert_eq!(exit_code(FailureKind::License), 4);
    assert_eq!(exit_code(FailureKind::Analysis), 1);
}
