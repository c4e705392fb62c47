use muntjac::fixup::validate::is_valid_buck_target;

#[test]
fn accepts_canonical_forms() {
    assert!(is_valid_buck_target("//third-party/c:libjpeg"));
    assert!(is_valid_buck_target(":local"));
    assert!(is_valid_buck_target("//a/b/c:target"));
    assert!(is_valid_buck_target("//x:y-z_w.0"));
}

#[test]
fn rejects_no_colon() {
    assert!(!is_valid_buck_target("//third-party/c/libjpeg"));
    assert!(!is_valid_buck_target("libjpeg"));
}

#[test]
fn rejects_empty_name() {
    assert!(!is_valid_buck_target("//foo:"));
    assert!(!is_valid_buck_target(":"));
}

#[test]
fn rejects_wildcards() {
    assert!(!is_valid_buck_target("//foo/...:bar"));
    assert!(!is_valid_buck_target("//foo:bar*"));
}

#[test]
fn rejects_traversal() {
    assert!(!is_valid_buck_target("//../foo:bar"));
    assert!(!is_valid_buck_target("//foo/..:bar"));
}

#[test]
fn rejects_missing_leading_slashes() {
    assert!(!is_valid_buck_target("foo:bar"));
    assert!(!is_valid_buck_target("/foo:bar"));
}

#[test]
fn rejects_empty_path_segments_and_bare_slashes() {
    assert!(!is_valid_buck_target("//:bar"));
    assert!(!is_valid_buck_target("//a//b:bar"));
    assert!(!is_valid_buck_target("//a/./b:bar"));
    assert!(is_valid_buck_target("//a/b.c:bar"));
}

#[test]
fn splits_at_last_colon() {
    assert!(!is_valid_buck_target("//a:b:c"));
    assert!(!is_valid_buck_target("//ä:b"));
}

#[test]
fn module_compiles() {
    // Every fixup item the crate offers resolves.
    let _ = muntjac::fixup::validate::is_valid_buck_target(":x");
    let _ = muntjac::fixup::registry::parse_registry_config;
    let _ = muntjac::fixup::layer::resolve_for_cell;
}
