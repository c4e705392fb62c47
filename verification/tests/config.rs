use std::str::FromStr;

use muntjac::config::{Config, Platform, PythonVersion};
use muntjac::error::ConfigError;
use muntjac::fixup::registry::RegistryConfig;

const MINIMAL_SINGLE_TREE: &str = r#"
manifest_path   = "../pyproject.toml"
third_party_dir = "."
python_versions = ["3.11", "3.12"]

[platforms.linux-x86_64-gnu]
target    = "x86_64-unknown-linux-gnu"
manylinux = "2_17"

[platforms.macos-arm64]
target    = "aarch64-apple-darwin"
macos_min = "11.0"
"#;

#[test]
fn parses_minimal_single_tree() {
    let config = Config::from_str(MINIMAL_SINGLE_TREE).expect("parse");
    assert_eq!(config.trees.len(), 1);
    let tree = &config.trees[0];
    assert_eq!(tree.name, "default");
    assert_eq!(tree.manifest_path.as_str(), "../pyproject.toml");
    assert_eq!(
        tree.python_versions,
        vec![PythonVersion(3, 11), PythonVersion(3, 12)]
    );
    assert_eq!(config.platforms.len(), 2);
}

const MULTI_TREE: &str = r#"
[platforms.linux-x86_64-gnu]
target = "x86_64-unknown-linux-gnu"
manylinux = "2_17"

[tree.modern]
manifest_path   = "pyproject.toml"
third_party_dir = "third-party/python/modern"
python_versions = ["3.12"]

[tree.legacy]
manifest_path   = "legacy/pyproject.toml"
third_party_dir = "third-party/python/legacy"
python_versions = ["3.10"]
"#;

const MIXED_SHAPE: &str = r#"
manifest_path   = "../pyproject.toml"
third_party_dir = "."
python_versions = ["3.12"]

[platforms.linux-x86_64-gnu]
target = "x86_64-unknown-linux-gnu"

[tree.extra]
manifest_path   = "other/pyproject.toml"
third_party_dir = "other"
python_versions = ["3.11"]
"#;

#[test]
fn parses_multi_tree() {
    let config = Config::from_str(MULTI_TREE).expect("parse");
    assert_eq!(config.trees.len(), 2);
    let names: Vec<&str> = config.trees.iter().map(|t| t.name.as_str()).collect();
    // BTreeMap iteration is sorted, so we expect alphabetical.
    assert_eq!(names, vec!["legacy", "modern"]);
}

#[test]
fn cfg_dir_single_tree_is_third_party_dir() {
    let toml = r#"
manifest_path = "../pyproject.toml"
third_party_dir = "third-party/python"
python_versions = ["3.12"]
[platforms]
macos-arm64 = { target = "aarch64-apple-darwin", macos_min = "11.0" }
"#;
    let config: Config = toml.parse().unwrap();
    assert_eq!(
        config.shared_cfg_dir(),
        "third-party/python"
    );
}

#[test]
fn cfg_dir_multi_tree_is_common_ancestor() {
    let toml = r#"
[platforms]
macos-arm64 = { target = "aarch64-apple-darwin", macos_min = "11.0" }
[tree.modern]
manifest_path = "pyproject.toml"
third_party_dir = "third-party/python/modern"
python_versions = ["3.12"]
[tree.legacy]
manifest_path = "legacy/pyproject.toml"
third_party_dir = "third-party/python/legacy"
python_versions = ["3.12"]
"#;
    let config: Config = toml.parse().unwrap();
    assert_eq!(
        config.shared_cfg_dir(),
        "third-party/python"
    );
}

#[test]
fn cfg_dir_explicit_override_wins() {
    let toml = r#"
[platforms]
macos-arm64 = { target = "aarch64-apple-darwin", macos_min = "11.0" }
[buck]
cfg_dir = "buck/cfg"
[tree.a]
manifest_path = "a/pyproject.toml"
third_party_dir = "apps/a/tp"
python_versions = ["3.12"]
[tree.b]
manifest_path = "b/pyproject.toml"
third_party_dir = "apps/b/tp"
python_versions = ["3.12"]
"#;
    let config: Config = toml.parse().unwrap();
    assert_eq!(
        config.shared_cfg_dir(),
        "buck/cfg"
    );
}

#[test]
fn python_versions_union_dedupes_and_sorts() {
    let toml = r#"
[platforms]
macos-arm64 = { target = "aarch64-apple-darwin", macos_min = "11.0" }
[tree.modern]
manifest_path = "pyproject.toml"
third_party_dir = "tp/modern"
python_versions = ["3.12", "3.11"]
[tree.legacy]
manifest_path = "legacy/pyproject.toml"
third_party_dir = "tp/legacy"
python_versions = ["3.11"]
"#;
    let config: Config = toml.parse().unwrap();
    assert_eq!(
        config.python_versions_union(),
        vec![PythonVersion(3, 11), PythonVersion(3, 12)]
    );
}

#[test]
fn rejects_duplicate_tree_dir() {
    let toml = r#"
[platforms]
macos-arm64 = { target = "aarch64-apple-darwin", macos_min = "11.0" }
[tree.a]
manifest_path = "a/pyproject.toml"
third_party_dir = "tp/shared"
python_versions = ["3.12"]
[tree.b]
manifest_path = "b/pyproject.toml"
third_party_dir = "tp/shared"
python_versions = ["3.12"]
"#;
    let err = toml.parse::<Config>().unwrap_err();
    assert!(matches!(
        err,
        ConfigError::DuplicateTreeDir { .. }
    ));
}

#[test]
fn rejects_tree_dir_equal_to_cfg_dir_when_multi_tree() {
    // cfg_dir derives to "tp" (common ancestor of tp + tp/legacy); tree "a"
    // sits exactly at "tp", colliding with the shared cfg location.
    let toml = r#"
[platforms]
macos-arm64 = { target = "aarch64-apple-darwin", macos_min = "11.0" }
[tree.a]
manifest_path = "a/pyproject.toml"
third_party_dir = "tp"
python_versions = ["3.12"]
[tree.legacy]
manifest_path = "legacy/pyproject.toml"
third_party_dir = "tp/legacy"
python_versions = ["3.12"]
"#;
    let err = toml.parse::<Config>().unwrap_err();
    assert!(matches!(
        err,
        ConfigError::TreeDirIsCfgDir { .. }
    ));
}

#[test]
fn single_tree_cfg_dir_equals_third_party_dir_is_ok() {
    let toml = r#"
manifest_path = "../pyproject.toml"
third_party_dir = "third-party/python"
python_versions = ["3.12"]
[platforms]
macos-arm64 = { target = "aarch64-apple-darwin", macos_min = "11.0" }
"#;
    assert!(toml.parse::<Config>().is_ok());
}

#[test]
fn rejects_underivable_cfg_dir_no_common_ancestor() {
    // Two trees with no shared path prefix → empty derived cfg_dir → must error
    // (would otherwise emit the shared cfg at the project root).
    let toml = r#"
[platforms]
macos-arm64 = { target = "aarch64-apple-darwin", macos_min = "11.0" }
[tree.a]
manifest_path = "a/pyproject.toml"
third_party_dir = "apps/a/tp"
python_versions = ["3.12"]
[tree.b]
manifest_path = "b/pyproject.toml"
third_party_dir = "services/b/tp"
python_versions = ["3.12"]
"#;
    let err = toml.parse::<Config>().unwrap_err();
    assert!(matches!(err, ConfigError::CfgDirNotDerivable));
}

#[test]
fn explicit_cfg_dir_rescues_no_common_ancestor() {
    // Same no-common-ancestor trees, but an explicit [buck] cfg_dir makes it valid.
    let toml = r#"
[platforms]
macos-arm64 = { target = "aarch64-apple-darwin", macos_min = "11.0" }
[buck]
cfg_dir = "buck/cfg"
[tree.a]
manifest_path = "a/pyproject.toml"
third_party_dir = "apps/a/tp"
python_versions = ["3.12"]
[tree.b]
manifest_path = "b/pyproject.toml"
third_party_dir = "services/b/tp"
python_versions = ["3.12"]
"#;
    assert!(toml.parse::<Config>().is_ok());
}

#[test]
fn rejects_mixed_shape() {
    let err = Config::from_str(MIXED_SHAPE).expect_err("should fail");
    assert!(matches!(err, ConfigError::IncompatibleShape));
}

#[test]
fn rejects_missing_manifest_path_when_no_trees() {
    let toml_str = r#"
third_party_dir = "."
python_versions = ["3.12"]

[platforms.linux-x86_64-gnu]
target = "x86_64-unknown-linux-gnu"
"#;
    let err = Config::from_str(toml_str).expect_err("should fail");
    assert!(matches!(
        err,
        ConfigError::MissingField(ref f) if f == "manifest_path"
    ));
}

#[test]
fn rejects_bad_python_version() {
    let toml_str = r#"
manifest_path   = "../pyproject.toml"
third_party_dir = "."
python_versions = ["3"]

[platforms.linux-x86_64-gnu]
target = "x86_64-unknown-linux-gnu"
"#;
    let err = Config::from_str(toml_str).expect_err("should fail");
    assert!(matches!(err, ConfigError::Parse(_)));
}

#[test]
fn validates_platform_target_triple() {
    let toml_str = r#"
manifest_path   = "../pyproject.toml"
third_party_dir = "."
python_versions = ["3.12"]

[platforms.bogus]
target = "not-a-real-triple"
"#;
    let err = Config::from_str(toml_str).expect_err("should fail");
    assert!(
        matches!(err, ConfigError::BadPlatform { ref reason, .. }
        if reason.contains("unknown target triple"))
    );
}

#[test]
fn accepts_known_target_triples() {
    let toml_str = r#"
manifest_path   = "../pyproject.toml"
third_party_dir = "."
python_versions = ["3.12"]

[platforms.linux-x86_64-gnu]
target = "x86_64-unknown-linux-gnu"
manylinux = "2_17"

[platforms.linux-aarch64-gnu]
target = "aarch64-unknown-linux-gnu"
manylinux = "2_17"

[platforms.linux-x86_64-musl]
target = "x86_64-unknown-linux-musl"
musllinux = "1_2"

[platforms.macos-x86_64]
target = "x86_64-apple-darwin"
macos_min = "11.0"

[platforms.macos-arm64]
target = "aarch64-apple-darwin"
macos_min = "11.0"
"#;
    let config = Config::from_str(toml_str).expect("parse");
    config.validate().expect("validate");
}

#[test]
fn validates_registry_form() {
    let bad = r#"
manifest_path   = "../pyproject.toml"
third_party_dir = "."
python_versions = ["3.12"]

[platforms.linux-x86_64-gnu]
target = "x86_64-unknown-linux-gnu"
manylinux = "2_17"

[fixups]
registry = "https://example.com/whatever"
"#;
    let err = Config::from_str(bad).expect_err("should fail");
    // With typed parse, the bad registry is rejected at deserialize time,
    // which folds into ConfigError::Parse.
    assert!(matches!(err, ConfigError::Parse(_)));
}

#[test]
fn accepts_registry_forms() {
    for r in [
        "none",
        "file:///tmp/fixups",
        "github.com/rsJames-ttrpg/muntjac-fixups",
    ] {
        let toml_str = format!(
            r#"
manifest_path   = "../pyproject.toml"
third_party_dir = "."
python_versions = ["3.12"]

[platforms.linux-x86_64-gnu]
target    = "x86_64-unknown-linux-gnu"
manylinux = "2_17"

[fixups]
registry = "{r}"
"#
        );
        Config::from_str(&toml_str).unwrap_or_else(|_| panic!("parse+validate `{r}`"));
    }
}

#[test]
fn config_parses_file_url_registry() {
    let toml = r#"
manifest_path   = "../pyproject.toml"
third_party_dir = "."
python_versions = ["3.12"]

[platforms.linux-x86_64-gnu]
target    = "x86_64-unknown-linux-gnu"
manylinux = "2_17"

[fixups]
registry = "file:///abs/path/to/checkout"
"#;
    let config = Config::from_str(toml).expect("parse");
    
    assert_eq!(
        config.fixups.registry,
        RegistryConfig::FileUrl("/abs/path/to/checkout".to_string())
    );
}

#[test]
fn config_defaults_registry_to_none() {
    let toml = r#"
manifest_path   = "../pyproject.toml"
third_party_dir = "."
python_versions = ["3.12"]

[platforms.linux-x86_64-gnu]
target    = "x86_64-unknown-linux-gnu"
manylinux = "2_17"
"#;
    let config = Config::from_str(toml).expect("parse");
    
    assert_eq!(config.fixups.registry, RegistryConfig::NoRegistry);
}

#[test]
fn parses_lockfile_config_section() {
    let toml_str = r#"
manifest_path   = "../pyproject.toml"
third_party_dir = "."
python_versions = ["3.12"]

[platforms.linux-x86_64-gnu]
target    = "x86_64-unknown-linux-gnu"
manylinux = "2_17"

[lockfile]
include_groups = ["test", "docs"]
"#;
    let config = Config::from_str(toml_str).expect("parse");
    assert_eq!(
        config.lockfile.include_groups,
        vec!["test".to_string(), "docs".to_string()]
    );
}

#[test]
fn lockfile_config_defaults_to_empty() {
    let toml_str = r#"
manifest_path   = "../pyproject.toml"
third_party_dir = "."
python_versions = ["3.12"]

[platforms.linux-x86_64-gnu]
target    = "x86_64-unknown-linux-gnu"
manylinux = "2_17"
"#;
    let config = Config::from_str(toml_str).expect("parse");
    assert!(config.lockfile.include_groups.is_empty());
}

#[test]
fn rejects_invalid_group_identifier() {
    let toml_str = r#"
manifest_path   = "../pyproject.toml"
third_party_dir = "."
python_versions = ["3.12"]

[platforms.linux-x86_64-gnu]
target    = "x86_64-unknown-linux-gnu"
manylinux = "2_17"

[lockfile]
include_groups = ["bad name with space"]
"#;
    let err = Config::from_str(toml_str).expect_err("should fail");
    assert!(matches!(err, ConfigError::BadGroupName(_)));
}

#[test]
fn rejects_linux_platform_without_any_baseline() {
    let toml_str = r#"
manifest_path   = "../pyproject.toml"
third_party_dir = "."
python_versions = ["3.12"]

[platforms.linux-bare]
target = "x86_64-unknown-linux-gnu"
"#;
    let err = Config::from_str(toml_str).expect_err("should fail");
    assert!(
        matches!(err, ConfigError::BadPlatform { ref reason, .. }
        if reason.contains("manylinux") && reason.contains("musllinux"))
    );
}

#[test]
fn rejects_macos_platform_without_macos_min() {
    let toml_str = r#"
manifest_path   = "../pyproject.toml"
third_party_dir = "."
python_versions = ["3.12"]

[platforms.macos-bare]
target = "aarch64-apple-darwin"
"#;
    let err = Config::from_str(toml_str).expect_err("should fail");
    assert!(
        matches!(err, ConfigError::BadPlatform { ref reason, .. }
        if reason.contains("macos_min"))
    );
}

#[test]
fn rejects_bad_baseline_shape() {
    let toml_str = r#"
manifest_path   = "../pyproject.toml"
third_party_dir = "."
python_versions = ["3.12"]

[platforms.linux]
target = "x86_64-unknown-linux-gnu"
manylinux = "2014"
"#;
    let err = Config::from_str(toml_str).expect_err("should fail");
    assert!(
        matches!(err, ConfigError::BadPlatform { ref reason, .. }
        if reason.contains("2014") && reason.contains("2_17"))
    );
}

#[test]
fn rejects_musllinux_on_gnu_target() {
    let toml_str = r#"
manifest_path   = "../pyproject.toml"
third_party_dir = "."
python_versions = ["3.12"]

[platforms.confused]
target = "x86_64-unknown-linux-gnu"
musllinux = "1_2"
"#;
    let err = Config::from_str(toml_str).expect_err("should fail");
    assert!(
        matches!(err, ConfigError::BadPlatform { ref reason, .. }
        if reason.contains("musllinux") && reason.contains("linux-gnu"))
    );
}

#[test]
fn include_groups_dedups_with_warning() {
    let toml_str = r#"
manifest_path   = "../pyproject.toml"
third_party_dir = "."
python_versions = ["3.12"]

[platforms.linux-x86_64-gnu]
target = "x86_64-unknown-linux-gnu"
manylinux = "2_17"

[lockfile]
include_groups = ["test", "test", "docs"]
"#;
    let config = Config::from_str(toml_str).expect("parse");
    assert_eq!(
        config.lockfile.include_groups,
        vec!["test".to_string(), "docs".to_string()]
    );
}

#[test]
fn missing_platforms_table_produces_clear_error() {
    let toml_str = r#"
manifest_path   = "../pyproject.toml"
third_party_dir = "."
python_versions = ["3.12"]
"#;
    let err = Config::from_str(toml_str).expect_err("should fail");
    assert!(matches!(
        err,
        ConfigError::MissingField(ref f) if f == "platforms"
    ));
}

#[test]
fn platform_baseline_accessors() {
    let p_linux = Platform {
        target: "x86_64-unknown-linux-gnu".into(),
        manylinux: Some("2_28".into()),
        musllinux: None,
        macos_min: None,
    };
    assert_eq!(p_linux.manylinux_baseline(), Some((2, 28)));
    assert_eq!(p_linux.musllinux_baseline(), None);
    assert_eq!(p_linux.macos_min_parsed(), None);

    let p_mac = Platform {
        target: "aarch64-apple-darwin".into(),
        manylinux: None,
        musllinux: None,
        macos_min: Some("11.0".into()),
    };
    assert_eq!(p_mac.macos_min_parsed(), Some((11, 0)));
}

#[test]
fn registry_rev_with_none_registry_parses_ok() {
    // This invocation triggers the stderr warning (we can't easily
    // capture it in-process; assert behavior: parse succeeds, value
    // is preserved on the struct).
    let toml = r#"
manifest_path   = "../pyproject.toml"
third_party_dir = "."
python_versions = ["3.12"]

[platforms.linux-x86_64-gnu]
target    = "x86_64-unknown-linux-gnu"
manylinux = "2_17"

[fixups]
registry = "none"
registry_rev = "abc123"
"#;
    let config = Config::from_str(toml).expect("parse");
    
    assert_eq!(config.fixups.registry, RegistryConfig::NoRegistry);
    assert_eq!(config.fixups.registry_rev.as_deref(), Some("abc123"));
}

#[test]
fn registry_rev_with_git_registry_no_warning() {
    let toml = r#"
manifest_path   = "../pyproject.toml"
third_party_dir = "."
python_versions = ["3.12"]

[platforms.linux-x86_64-gnu]
target    = "x86_64-unknown-linux-gnu"
manylinux = "2_17"

[fixups]
registry = "github.com/o/r"
registry_rev = "abc123"
"#;
    let config = Config::from_str(toml).expect("parse");
    
    match &config.fixups.registry {
        RegistryConfig::Git { url, rev } => {
            assert_eq!(url, "github.com/o/r");
            assert_eq!(rev.as_deref(), Some("abc123"));
        }
        other => panic!("expected Git, got {:?}", other),
    }
}


const TWO_TREES_HEAD: &str = r#"
[platforms]
macos-arm64 = { target = "aarch64-apple-darwin", macos_min = "11.0" }
"#;

fn two_trees(a: &str, b: &str) -> String {
    format!(
        "{TWO_TREES_HEAD}[tree.a]\nmanifest_path = \"a/pyproject.toml\"\nthird_party_dir = \"{a}\"\npython_versions = [\"3.12\"]\n[tree.b]\nmanifest_path = \"b/pyproject.toml\"\nthird_party_dir = \"{b}\"\npython_versions = [\"3.12\"]\n"
    )
}

#[test]
fn cfg_dir_ignores_redundant_separators_and_dots() {
    let config = Config::from_str(&two_trees("tp//x/./a/", "tp/x/b")).unwrap();
    assert_eq!(config.shared_cfg_dir(), "tp/x");
}

#[test]
fn cfg_dir_keeps_leading_dot_and_root() {
    let config = Config::from_str(&two_trees("./tp/a", "./tp/b")).unwrap();
    assert_eq!(config.shared_cfg_dir(), "./tp");
    let config = Config::from_str(&two_trees("/srv/tp/a", "/srv/tp/b")).unwrap();
    assert_eq!(config.shared_cfg_dir(), "/srv/tp");
}

#[test]
fn duplicate_dir_compares_components_and_lists_trees() {
    let err = Config::from_str(&two_trees("tp/shared/", "tp//shared")).unwrap_err();
    match err {
        ConfigError::DuplicateTreeDir { dir, trees } => {
            assert_eq!(dir, "tp/shared/");
            assert_eq!(trees, vec!["a".to_string(), "b".to_string()]);
        }
        other => panic!("expected DuplicateTreeDir, got {other:?}"),
    }
}

#[test]
fn python_version_parse_rules() {
    assert_eq!(PythonVersion::parse("3.12"), Ok(PythonVersion(3, 12)));
    assert_eq!(
        PythonVersion::parse("3"),
        Err("python version must be MAJOR.MINOR, got `3`".to_string())
    );
    assert_eq!(PythonVersion::parse("x.1"), Err("bad major in `x.1`".to_string()));
    assert_eq!(PythonVersion::parse("3.999"), Err("bad minor in `3.999`".to_string()));
    assert_eq!(
        PythonVersion::parse("2.7"),
        Err("only Python 3.x supported, got `2.7`".to_string())
    );
}

#[test]
fn bad_registry_in_config_is_a_parse_error_with_its_message() {
    let toml_str = r#"
manifest_path   = "../pyproject.toml"
third_party_dir = "."
python_versions = ["3.12"]
[platforms.linux-x86_64-gnu]
target    = "x86_64-unknown-linux-gnu"
manylinux = "2_17"
[fixups]
registry = "file://rel"
"#;
    match Config::from_str(toml_str).unwrap_err() {
        ConfigError::Parse(m) => assert!(m.contains("registry path must be absolute")),
        other => panic!("expected Parse, got {other:?}"),
    }
}

#[test]
fn wrong_field_type_is_a_parse_error() {
    let toml_str = r#"
manifest_path   = 3
third_party_dir = "."
python_versions = ["3.12"]
[platforms.linux-x86_64-gnu]
target    = "x86_64-unknown-linux-gnu"
manylinux = "2_17"
"#;
    assert!(matches!(Config::from_str(toml_str), Err(ConfigError::Parse(_))));
}

#[test]
fn unknown_target_message_lists_known_triples() {
    let toml_str = r#"
manifest_path   = "../pyproject.toml"
third_party_dir = "."
python_versions = ["3.12"]
[platforms.bogus]
target = "riscv"
"#;
    match Config::from_str(toml_str).unwrap_err() {
        ConfigError::BadPlatform { name, reason } => {
            assert_eq!(name, "bogus");
            assert_eq!(reason, "unknown target triple `riscv`; expected one of [\"x86_64-unknown-linux-gnu\", \"aarch64-unknown-linux-gnu\", \"x86_64-unknown-linux-musl\", \"aarch64-unknown-linux-musl\", \"x86_64-apple-darwin\", \"aarch64-apple-darwin\"]");
        }
        other => panic!("expected BadPlatform, got {other:?}"),
    }
}

#[test]
fn platforms_iterate_in_name_order() {
    let config = Config::from_str(MINIMAL_SINGLE_TREE).unwrap();
    let names: Vec<&str> = config.platforms.entries().iter().map(|(n, _)| n.as_str()).collect();
    assert_eq!(names, vec!["linux-x86_64-gnu", "macos-arm64"]);
}

#[test]
fn names_the_config_field_of_the_wrong_type() {
    let toml_str = r#"
manifest_path   = 5
third_party_dir = "."
python_versions = ["3.12"]

[platforms.linux-x86_64-gnu]
target = "x86_64-unknown-linux-gnu"
"#;
    let err = Config::from_str(toml_str).expect_err("should fail");
    assert!(matches!(err, ConfigError::Parse(ref m) if m == "invalid type for `manifest_path`"));
}

#[test]
fn python_version_from_str_matches_parse() {
    assert_eq!(PythonVersion::from_str("3.12"), Ok(PythonVersion(3, 12)));
    assert_eq!(PythonVersion::from_str("3.12"), PythonVersion::parse("3.12"));
    assert!(PythonVersion::from_str("2.7").is_err());
}
