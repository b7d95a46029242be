use code_path_lens::license::{
    billing_base, license_verdict, missing_token_text, select_token, verify_url, DEFAULT_BILLING_BASE,
};

#[test]
fn released_cli_defaults_to_the_production_billing_service() {
    assert_eq!(DEFAULT_BILLING_BASE, "https://api.sociobot.in/api/v1");
    assert!(!DEFAULT_BILLING_BASE.contains("pilot-api"));
}

#[test]
fn the_explicit_token_wins_and_blank_tokens_are_missing() {
    assert_eq!(select_token(Some("abc"), Some("env".to_string())), Some("abc".to_string()));
    assert_eq!(select_token(None, Some("env".to_string())), Some("env".to_string()));
    assert_eq!(select_token(Some("  "), Some("env".to_string())), None);
    assert_eq!(select_token(None, Some("\t\n".to_string())), None);
    assert_eq!(select_token(None, None), None);
}

#[test]
fn the_verify_address_names_the_product() {
    assert_eq!(
        verify_url(&billing_base(None)),
        "https://api.sociobot.in/api/v1/products/code-path-lens/verify"
    );
    assert_eq!(
        verify_url(&billing_base(Some("http://localhost:8080//".to_string()))),
        "http://localhost:8080/products/code-path-lens/verify"
    );
}

#[test]
fn inactive_licenses_give_their_reason() {
    assert_eq!(license_verdict(true, "ignored"), Ok(()));
    assert_eq!(
        license_verdict(false, "expired"),
        Err("license is not active (expired)".to_string())
    );
    assert!(missing_token_text().contains("CODE_PATH_LENS_LICENSE"));
}
