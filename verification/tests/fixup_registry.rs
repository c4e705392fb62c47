use muntjac::error::ConfigError;
use muntjac::fixup::registry::{parse_registry_config, RegistryConfig};

#[test]
fn parses_none() {
    assert_eq!(
        parse_registry_config("none", None).unwrap(),
        RegistryConfig::NoRegistry
    );
}

#[test]
fn parses_file_url_abs() {
    let got = parse_registry_config("file:///abs/path/to/registry", None).unwrap();
    assert_eq!(
        got,
        RegistryConfig::FileUrl("/abs/path/to/registry".to_string())
    );
}

#[test]
fn rejects_file_url_relative() {
    let err = parse_registry_config("file://relative", None).unwrap_err();
    assert!(matches!(err, ConfigError::RegistryPathNotAbsolute { .. }));
}

#[test]
fn rejects_file_url_dot_slash() {
    let err = parse_registry_config("file://./registry", None).unwrap_err();
    assert!(matches!(err, ConfigError::RegistryPathNotAbsolute { .. }));
}

#[test]
fn parses_github_url_with_rev() {
    let got =
        parse_registry_config("github.com/jackmpcollins/muntjac-fixups", Some("abc123")).unwrap();
    assert_eq!(
        got,
        RegistryConfig::Git {
            url: "github.com/jackmpcollins/muntjac-fixups".into(),
            rev: Some("abc123".into()),
        }
    );
}

#[test]
fn parses_github_url_no_rev() {
    let got = parse_registry_config("github.com/o/r", None).unwrap();
    match got {
        RegistryConfig::Git { url, rev } => {
            assert_eq!(url, "github.com/o/r");
            assert_eq!(rev, None);
        }
        other => panic!("expected Git, got {:?}", other),
    }
}

#[test]
fn rejects_malformed_github_url() {
    let err = parse_registry_config("github.com/onlyname", None).unwrap_err();
    assert!(matches!(err, ConfigError::BadRegistry(_)));
}

#[test]
fn rejects_bare_string() {
    let err = parse_registry_config("not-a-url", None).unwrap_err();
    assert!(matches!(err, ConfigError::BadRegistry(_)));
}

#[test]
fn rejects_github_url_with_extra_segment() {
    let err = parse_registry_config("github.com/o/r/x", None).unwrap_err();
    assert!(matches!(err, ConfigError::BadRegistry(_)));
    let err = parse_registry_config("github.com//r", None).unwrap_err();
    assert!(matches!(err, ConfigError::BadRegistry(_)));
}

#[test]
fn relative_file_url_error_carries_the_path() {
    let err = parse_registry_config("file://rel/x", None).unwrap_err();
    assert_eq!(
        err.to_string(),
        "registry path must be absolute (got `rel/x`); use a full file:// URL or set registry to a path relative to muntjac.toml"
    );
}
