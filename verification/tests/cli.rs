use std::str::FromStr;

use muntjac::cli::{expand_requires_python, resolve_trees, resolve_vendor_mode, ModeFlag};
use muntjac::config::{Config, PythonVersion};

fn cfg() -> Config {
    Config::from_str(
        r#"
[platforms]
macos-arm64 = { target = "aarch64-apple-darwin", macos_min = "11.0" }
[tree.modern]
manifest_path = "m/pyproject.toml"
third_party_dir = "tp/modern"
python_versions = ["3.12"]
[tree.legacy]
manifest_path = "l/pyproject.toml"
third_party_dir = "tp/legacy"
python_versions = ["3.12"]
"#,
    )
    .unwrap()
}

#[test]
fn resolve_trees_none_returns_all() {
    let c = cfg();
    assert_eq!(resolve_trees(&c, None).unwrap().len(), 2);
}

#[test]
fn resolve_trees_filters_by_name() {
    let c = cfg();
    let got = resolve_trees(&c, Some("modern")).unwrap();
    assert_eq!(got.len(), 1);
    assert_eq!(got[0].name, "modern");
}

#[test]
fn resolve_trees_unknown_errors() {
    let c = cfg();
    let err = resolve_trees(&c, Some("ghost")).unwrap_err().to_string();
    assert!(err.contains("ghost"));
    assert!(err.contains("modern"));
    assert!(err.contains("legacy"));
}

#[test]
fn resolve_trees_unknown_message_is_exact() {
    let c = cfg();
    let err = resolve_trees(&c, Some("ghost")).unwrap_err();
    let names: Vec<&str> = c.trees.iter().map(|t| t.name.as_str()).collect();
    assert_eq!(err, format!("tree `ghost` not found in muntjac.toml; available: {}", names.join(", ")));
}

#[test]
fn resolve_vendor_mode_uses_config_when_no_override() {
    let toml = r#"
manifest_path = "pyproject.toml"
third_party_dir = "third-party/python"
python_versions = ["3.12"]
[platforms]
linux-x86_64-gnu = { target = "x86_64-unknown-linux-gnu", manylinux = "2_17" }
[buck]
vendor = true
"#;
    let config: Config = toml.parse().unwrap();
    assert!(resolve_vendor_mode(&config, None));
}

#[test]
fn resolve_vendor_mode_override_committed_beats_config_false() {
    let toml = r#"
manifest_path = "pyproject.toml"
third_party_dir = "third-party/python"
python_versions = ["3.12"]
[platforms]
linux-x86_64-gnu = { target = "x86_64-unknown-linux-gnu", manylinux = "2_17" }
"#;
    let config: Config = toml.parse().unwrap();
    assert!(resolve_vendor_mode(&config, Some(ModeFlag::Committed)));
}

#[test]
fn resolve_vendor_mode_override_prebake_only_beats_config_true() {
    let toml = r#"
manifest_path = "pyproject.toml"
third_party_dir = "third-party/python"
python_versions = ["3.12"]
[platforms]
linux-x86_64-gnu = { target = "x86_64-unknown-linux-gnu", manylinux = "2_17" }
[buck]
vendor = true
"#;
    let config: Config = toml.parse().unwrap();
    assert!(!resolve_vendor_mode(&config, Some(ModeFlag::PrebakeOnly)));
}

#[test]
fn resolve_vendor_mode_defaults_to_false_when_no_override_and_no_buck_section() {
    let toml = r#"
manifest_path = "pyproject.toml"
third_party_dir = "third-party/python"
python_versions = ["3.12"]
[platforms]
linux-x86_64-gnu = { target = "x86_64-unknown-linux-gnu", manylinux = "2_17" }
"#;
    let config: Config = toml.parse().unwrap();
    assert!(!resolve_vendor_mode(&config, None));
}

#[test]
fn expands_requires_python_ranges() {
    assert_eq!(
        expand_requires_python(">=3.10").unwrap(),
        vec![PythonVersion(3, 11), PythonVersion(3, 12), PythonVersion(3, 13)]
    );
    assert_eq!(expand_requires_python(">=3.11,<3.13").unwrap(), vec![PythonVersion(3, 11), PythonVersion(3, 12)]);
    assert_eq!(expand_requires_python("==3.12.*").unwrap(), vec![PythonVersion(3, 12)]);
}

#[test]
fn expand_requires_python_edges() {
    assert_eq!(expand_requires_python(" >=3.12 , <3.13 ").unwrap(), vec![PythonVersion(3, 12)]);
    assert_eq!(expand_requires_python(">= 3.12").unwrap_err(), "major not u8");
    assert_eq!(expand_requires_python(">=3.13,<3.12").unwrap(), Vec::<PythonVersion>::new());
    assert_eq!(expand_requires_python("~=3.9").unwrap().len(), 3);
    assert_eq!(expand_requires_python(">=x.12").unwrap_err(), "major not u8");
    assert_eq!(expand_requires_python("<3.x").unwrap_err(), "minor not u8");
    assert_eq!(expand_requires_python("==3.y").unwrap_err(), "bad minor in == bound");
    assert_eq!(expand_requires_python(">=3").unwrap(), vec![PythonVersion(3, 11), PythonVersion(3, 12), PythonVersion(3, 13)]);
    assert_eq!(expand_requires_python("<3.0").unwrap(), Vec::<PythonVersion>::new());
}

#[test]
fn pyproject_with_project_table_proposes_its_python_range() {
    let text = "[project]\nname = \"x\"\nrequires-python = \">=3.11\"\n";
    assert!(muntjac::cli::has_project_or_uv(text));
    assert_eq!(
        muntjac::cli::extract_python_versions(text),
        vec![PythonVersion(3, 11), PythonVersion(3, 12), PythonVersion(3, 13)]
    );
}

#[test]
fn pyproject_without_requires_python_proposes_312() {
    let text = "[project]\nname = \"x\"\n";
    assert!(muntjac::cli::has_project_or_uv(text));
    assert_eq!(muntjac::cli::extract_python_versions(text), vec![PythonVersion(3, 12)]);
}

#[test]
fn pyproject_detection_needs_project_or_tool_uv() {
    assert!(!muntjac::cli::has_project_or_uv("[build-system]\nrequires = []\n"));
    assert!(muntjac::cli::has_project_or_uv("[tool.uv]\n"));
    assert!(!muntjac::cli::has_project_or_uv("project = 3\n"));
    assert!(!muntjac::cli::has_project_or_uv("not toml ["));
    assert_eq!(muntjac::cli::extract_python_versions("[project]\nrequires-python = 7\n"), vec![PythonVersion(3, 12)]);
    assert_eq!(muntjac::cli::extract_python_versions("[project]\nrequires-python = \">=3.14\"\n"), vec![PythonVersion(3, 12)]);
}

#[test]
fn stub_commands_name_their_plan() {
    assert_eq!(
        muntjac::cli::run("audit", "S10").unwrap_err(),
        "muntjac audit is not implemented yet (planned for S10)"
    );
}
