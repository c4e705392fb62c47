use muntjac::fixups_cmd::pin_registry_rev;
use muntjac::fixup::diff::DiffLine;
use muntjac::fixup::registry::RegistryConfig;
use muntjac::fixups_cmd::{diff_report, pin_footer, show_report, update_plan, update_source, UpdatePlan};

#[test]
fn show_reports_missing_fixup_as_error_for_single_tree() {
    let reg = RegistryConfig::FileUrl("/reg".into());
    let err = show_report("Foo", "default", &reg, "third-party", None, None, true).unwrap_err();
    assert_eq!(err, "no fixup for package 'Foo' (checked community at /reg/packages, local at third-party/fixups)");
    let err = show_report("Foo", "default", &RegistryConfig::NoRegistry, "tp", None, None, true).unwrap_err();
    assert!(err.contains("checked community at (none)"));
    let git = RegistryConfig::Git { url: "https://github.com/o/r".into(), rev: None };
    let err = show_report("Foo", "default", &git, "tp", None, None, true).unwrap_err();
    assert!(err.contains("checked community at git: https://github.com/o/r"));
}

#[test]
fn show_notes_missing_fixup_in_multi_tree_mode() {
    let out = show_report("foo", "web", &RegistryConfig::NoRegistry, "tp", None, None, false).unwrap();
    assert_eq!(out, "# (no fixup for 'foo' in tree 'web')\n");
}

#[test]
fn show_prints_single_layer_as_is() {
    let out = show_report("foo", "t", &RegistryConfig::NoRegistry, "tp", Some("a = 1\n"), None, true).unwrap();
    assert_eq!(out, "a = 1\n");
    let out = show_report("foo", "t", &RegistryConfig::NoRegistry, "tp", None, Some(("b = 2\n", false)), true).unwrap();
    assert_eq!(out, "b = 2\n");
}

#[test]
fn show_labels_both_layers() {
    let reg = RegistryConfig::FileUrl("/reg".into());
    let out = show_report("Foo", "t", &reg, "tp", Some("a = 1\n"), Some(("b = 2\n", true)), true).unwrap();
    assert_eq!(
        out,
        "# community: /reg/packages/foo/fixups.toml\na = 1\n\n\
         # (community fixup above is disabled by replace_community = true)\n\
         # local: tp/fixups/foo/fixups.toml\nb = 2\n"
    );
    let out = show_report("foo", "t", &RegistryConfig::NoRegistry, "tp", Some("a\n"), Some(("b\n", false)), true).unwrap();
    assert_eq!(out, "# community:\na\n\n# local: tp/fixups/foo/fixups.toml\nb\n");
}

#[test]
fn update_requires_git_registry() {
    assert_eq!(
        update_source(&RegistryConfig::NoRegistry).unwrap_err(),
        "muntjac fixups update requires a git-based registry; current registry is \"none\""
    );
    assert_eq!(
        update_source(&RegistryConfig::FileUrl("/x".into())).unwrap_err(),
        "muntjac fixups update requires a git-based registry; current registry is file:// directory form at /x"
    );
    let (url, rev) = update_source(&RegistryConfig::Git { url: "u".into(), rev: Some("abc".into()) }).unwrap();
    assert_eq!((url.as_str(), rev.as_deref()), ("u", Some("abc")));
}

#[test]
fn update_plan_and_footer() {
    assert_eq!(update_plan(Some("a"), "a"), UpdatePlan::AlreadyAt);
    assert_eq!(update_plan(Some("a"), "b"), UpdatePlan::DiffAgainst("a".into()));
    assert_eq!(update_plan(None, "b"), UpdatePlan::InitialPin);
    assert_eq!(pin_footer("u", "b", Some("a")), "\nPinned u @ b (was: a)\n");
    assert_eq!(pin_footer("u", "b", Some("b")), "\nPinned u @ b\n");
    assert_eq!(pin_footer("u", "b", None), "\nPinned u @ b\n");
}

#[test]
fn diff_report_notes_empty_diff() {
    assert_eq!(diff_report(&[]), "(no fixup changes)\n");
    let out = diff_report(&[DiffLine::Added("foo".into())]);
    assert!(out.contains("foo"));
}

#[test]
fn pin_registry_rev_sets_the_key_and_keeps_the_rest() {
    let text = "# top comment\n[fixups]\nregistry = \"file:///reg\"\n";
    let out = pin_registry_rev(text, "abc123").unwrap();
    assert_eq!(out, "# top comment\n[fixups]\nregistry = \"file:///reg\"\nregistry_rev = \"abc123\"\n");
    let again = pin_registry_rev(&out, "def456").unwrap();
    assert_eq!(again, "# top comment\n[fixups]\nregistry = \"file:///reg\"\nregistry_rev = \"def456\"\n");
    assert_eq!(pin_registry_rev("fixups = 1\n", "abc").unwrap_err(), "[fixups] is not a table");
    assert!(pin_registry_rev("[fixups\n", "abc").is_err());
}
