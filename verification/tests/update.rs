use tt::update::{asset_name, exec, is_newer, parse_latest_tag, plan_update};

#[test]
fn newer_minor_and_patch() {
    assert!(is_newer("v1.2.0", "v1.1.9"));
    assert!(!is_newer("v1.1.9", "v1.2.0"));
    assert!(is_newer("v0.1.1", "v0.1.0"));
}

#[test]
fn components_compare_as_numbers() {
    assert!(is_newer("1.10", "1.9"));
    assert!(!is_newer("v2", "v10"));
}

#[test]
fn missing_components_count_as_zero() {
    assert!(!is_newer("v1.2", "v1.2.0"));
    assert!(!is_newer("v1.2.0", "v1.2"));
    assert!(is_newer("v1.2.0.1", "v1.2"));
}

#[test]
fn same_version_is_not_newer() {
    assert!(!is_newer("v0.3.1", "v0.3.1"));
    assert!(!is_newer("", ""));
}

#[test]
fn leading_vs_are_ignored() {
    assert!(is_newer("vv1.0", "v0.9"));
    assert!(!is_newer("vvv3.4", "3.4"));
    assert!(!is_newer("3.4", "vvv3.4"));
}

#[test]
fn pieces_that_are_not_numbers_are_skipped() {
    assert!(is_newer("v1.a.3", "v1.0.2"));
    assert!(is_newer("v1.a.3", "v1.0.3"));
    assert!(!is_newer("v1.0.3", "v1.a.3"));
    assert!(!is_newer("1.2.3rc", "1.2.3"));
    assert!(is_newer("1.2.3", "1.2.3rc"));
    assert!(!is_newer("abc", "v0.0.1"));
    assert!(is_newer("v0.0.1", "abc"));
    assert!(!is_newer("2x", "1"));
    assert!(is_newer("1", "2x"));
}

#[test]
fn empty_and_signed_pieces() {
    assert!(is_newer("1..2", "1.1"));
    assert!(!is_newer("1..2", "1.2"));
    assert!(is_newer("1.+5", "1.4"));
    assert!(!is_newer("1.+5", "1.5"));
    assert!(!is_newer("1.-5", "1"));
}

#[test]
fn dashes_outside_semantic_versions() {
    // Two core parts: not a semantic version, so "2-x" is skipped.
    assert!(!is_newer("1.2-x.y", "1.1"));
    assert!(is_newer("1.1", "1.2-x.y"));
    // A leading zero: not a semantic version either.
    assert!(!is_newer("01.2.3-rc1", "1.2.2"));
}

#[test]
fn numbers_beyond_u32_are_skipped_outside_semver() {
    assert!(!is_newer("99999999999999999999.0", "9.0"));
    assert!(is_newer("9.0", "99999999999999999999.0"));
    assert!(!is_newer("007", "7"));
    assert!(!is_newer("7", "007"));
}

#[test]
fn semver_numbers_of_any_size() {
    assert!(is_newer("99999999999999999999.0.0", "9.0.0"));
    assert!(!is_newer("9.0.0", "99999999999999999999.0.0"));
}

#[test]
fn prerelease_after_lower_release() {
    assert!(is_newer("v1.2.3-rc1", "v1.2.2"));
    assert!(!is_newer("v1.2.2", "v1.2.3-rc1"));
}

#[test]
fn prerelease_before_its_release() {
    assert!(is_newer("v1.2.3", "v1.2.3-rc1"));
    assert!(!is_newer("v1.2.3-rc1", "v1.2.3"));
}

#[test]
fn prerelease_precedence_chain() {
    let chain = [
        "1.0.0-alpha",
        "1.0.0-alpha.1",
        "1.0.0-alpha.beta",
        "1.0.0-beta",
        "1.0.0-beta.2",
        "1.0.0-beta.11",
        "1.0.0-rc.1",
        "1.0.0",
    ];
    for i in 0..chain.len() {
        for j in 0..chain.len() {
            assert_eq!(is_newer(chain[j], chain[i]), j > i, "{} vs {}", chain[j], chain[i]);
        }
    }
}

#[test]
fn build_metadata_ignored() {
    assert!(!is_newer("1.0.0+b2", "1.0.0+b1"));
    assert!(!is_newer("1.0.0+b1", "1.0.0+b2"));
    assert!(!is_newer("1.0.0", "1.0.0+abc-def"));
    assert!(!is_newer("1.0.0+abc-def", "1.0.0"));
    assert!(is_newer("1.0.0+x", "1.0.0-rc.1+y"));
}

#[test]
fn asset_for_known_platforms() {
    assert_eq!(asset_name("macos", "aarch64"), Some("tt-darwin-arm64"));
    assert_eq!(asset_name("linux", "x86_64"), Some("tt-linux-x64"));
    assert_eq!(asset_name("macos", "x86_64"), Some("tt-darwin-x64"));
    assert_eq!(asset_name("linux", "aarch64"), None);
    assert_eq!(asset_name("windows", "x86_64"), None);
}

#[test]
fn tag_from_release_response() {
    let body = r#"{"url":"https://api.github.com/x","tag_name": "v0.3.1","name":"tt v0.3.1"}"#;
    assert_eq!(parse_latest_tag(body), Some("v0.3.1".to_string()));
    assert_eq!(parse_latest_tag(r#"{"tag_name":"v1"}"#), Some("v1".to_string()));
}

#[test]
fn tag_missing_or_unterminated() {
    assert_eq!(parse_latest_tag(r#"{"name":"v1"}"#), None);
    assert_eq!(parse_latest_tag(r#"{"tag_name": 12}"#), None);
    assert_eq!(parse_latest_tag(r#"{"tag_name": "v1"#), None);
    assert_eq!(parse_latest_tag(""), None);
}

#[test]
fn tag_uses_first_marker() {
    let body = "\"tag_name\": \"é1\", \"tag_name\": \"v2\"";
    assert_eq!(parse_latest_tag(body), Some("é1".to_string()));
}

#[test]
fn plan_when_newer() {
    let plan = plan_update("tt-linux-x64", "v0.2.0", "0.1.0").expect("update planned");
    assert_eq!(plan.current, "v0.1.0");
    assert_eq!(
        plan.url,
        "https://github.com/storozhenko98/tt/releases/download/v0.2.0/tt-linux-x64"
    );
}

#[test]
fn no_plan_when_up_to_date() {
    assert!(plan_update("tt-linux-x64", "v0.1.0", "0.1.0").is_none());
    assert!(plan_update("tt-darwin-arm64", "v0.0.9", "0.1.0").is_none());
}

#[test]
fn restart_drops_program_name() {
    let args = vec!["tt".to_string(), "Alice".to_string(), "x".to_string()];
    assert_eq!(exec(&args), vec!["Alice".to_string(), "x".to_string()]);
    assert_eq!(exec(&vec!["tt".to_string()]), Vec::<String>::new());
}
