use muntjac::fixup::diff::{diff_fixup_sets, render_diff, DiffLine};
use muntjac::fixup::error::{CfgParseError, FixupError};
use muntjac::fixup::layer::EffectiveFixups;
use muntjac::fixup::loader::{check_community_fixup, extract_unknown_field, load_failure, FixupSet};
use muntjac::fixup::schema::{FixupBody, FixupConfig};
use muntjac::strmap::StrMap;

fn fixup_with(deps: Vec<&str>) -> FixupConfig {
    let mut top = FixupBody::empty();
    top.extra_deps = deps.into_iter().map(String::from).collect();
    FixupConfig { top, cfg_sections: vec![], replace_community: false }
}

fn set(pkgs: Vec<(&str, FixupConfig)>) -> FixupSet {
    let mut m = StrMap::new();
    for (n, c) in pkgs {
        m.insert(n.to_string(), c);
    }
    FixupSet::from_map_for_test(m)
}

#[test]
fn diff_added_package() {
    let old = set(vec![]);
    let new = set(vec![("pkg-a", fixup_with(vec!["//x:y"]))]);
    let lines = diff_fixup_sets(&old, &new);
    assert_eq!(lines.len(), 1);
    assert!(matches!(&lines[0], DiffLine::Added(n) if n == "pkg-a"));
}

#[test]
fn diff_removed_package() {
    let old = set(vec![("pkg-a", fixup_with(vec!["//x:y"]))]);
    let new = set(vec![]);
    let lines = diff_fixup_sets(&old, &new);
    assert_eq!(lines.len(), 1);
    assert!(matches!(&lines[0], DiffLine::Removed(n) if n == "pkg-a"));
}

#[test]
fn diff_modified_extra_deps() {
    let old = set(vec![("pkg-a", fixup_with(vec!["//x:y"]))]);
    let new = set(vec![("pkg-a", fixup_with(vec!["//x:y", "//z:w"]))]);
    let lines = diff_fixup_sets(&old, &new);
    assert_eq!(lines.len(), 1);
    match &lines[0] {
        DiffLine::Modified(n, fields) => {
            assert_eq!(n, "pkg-a");
            assert_eq!(fields, &vec!["extra_deps"]);
        }
        other => panic!("expected Modified, got {:?}", other),
    }
}

#[test]
fn diff_modified_multiple_fields() {
    let mut a = fixup_with(vec!["//x:y"]);
    a.top.visibility = Some(vec!["//a:...".into()]);
    let mut b = fixup_with(vec!["//z:w"]);
    b.top.visibility = Some(vec!["//b:...".into()]);
    let old = set(vec![("pkg-a", a)]);
    let new = set(vec![("pkg-a", b)]);
    let lines = diff_fixup_sets(&old, &new);
    match &lines[0] {
        DiffLine::Modified(_, fields) => assert_eq!(fields, &vec!["extra_deps", "visibility"]),
        other => panic!("expected Modified, got {:?}", other),
    }
}

#[test]
fn diff_modified_cfg_sections() {
    let a = fixup_with(vec!["//x:y"]);
    let mut b = fixup_with(vec!["//x:y"]);
    let mut body = FixupBody::empty();
    body.extra_deps = vec!["//linux:dep".into()];
    b.cfg_sections.push(("target_os = \"linux\"".to_string(), body));
    let old = set(vec![("pkg-a", a)]);
    let new = set(vec![("pkg-a", b)]);
    let lines = diff_fixup_sets(&old, &new);
    match &lines[0] {
        DiffLine::Modified(_, fields) => assert_eq!(fields, &vec!["cfg_sections"]),
        other => panic!("expected Modified, got {:?}", other),
    }
}

#[test]
fn diff_identical_yields_nothing() {
    let old = set(vec![("pkg-a", fixup_with(vec!["//x:y"]))]);
    let new = set(vec![("pkg-a", fixup_with(vec!["//x:y"]))]);
    assert!(diff_fixup_sets(&old, &new).is_empty());
}

#[test]
fn diff_mixes_in_name_order() {
    let old = set(vec![("b", fixup_with(vec![])), ("c", fixup_with(vec!["//x:y"]))]);
    let new = set(vec![("a", fixup_with(vec![])), ("c", fixup_with(vec![]))]);
    let lines = diff_fixup_sets(&old, &new);
    assert_eq!(
        lines,
        vec![
            DiffLine::Added("a".into()),
            DiffLine::Removed("b".into()),
            DiffLine::Modified("c".into(), vec!["extra_deps".into()]),
        ]
    );
    assert_eq!(render_diff(&lines), "+ a\n- b\n~ c (extra_deps)\n");
}

#[test]
fn render_diff_canonical_format() {
    let lines = vec![
        DiffLine::Added("aaa".into()),
        DiffLine::Modified("bbb".into(), vec!["extra_deps".into(), "visibility".into()]),
        DiffLine::Removed("ccc".into()),
    ];
    assert_eq!(render_diff(&lines), "+ aaa\n~ bbb (extra_deps, visibility)\n- ccc\n");
}

#[test]
fn render_diff_empty_input_empty_output() {
    let lines: Vec<DiffLine> = vec![];
    assert_eq!(render_diff(&lines), "");
}

#[test]
fn entry_points_auto_message_is_exact() {
    let e = FixupError::EntryPointsAuto { pkg: "pillow".into() };
    assert_eq!(
        e.to_string(),
        "entry_points = true is not supported in v1; list the binaries explicitly (e.g. entry_points = [\"ruff\"]).\n  package: pillow"
    );
}

#[test]
fn overlay_empty_message_is_exact() {
    let e = FixupError::OverlayEmpty { pkg: "pillow".into(), path: "overlay/".into() };
    assert_eq!(e.to_string(), "overlay = \"overlay/\" is set for pillow but the directory is empty or missing");
}

#[test]
fn bad_cfg_atom_message_is_exact() {
    let e = FixupError::BadCfgAtom { atom: "target_family".into() };
    assert_eq!(
        e.to_string(),
        "unknown cfg atom `target_family`; expected one of: version, python, target_os, target_arch, target_env"
    );
}

#[test]
fn replace_community_in_community_message_is_exact() {
    let e = FixupError::ReplaceCommunityInCommunity { file: "registry/packages/pillow/fixups.toml".into() };
    assert_eq!(
        e.to_string(),
        "fixup file registry/packages/pillow/fixups.toml sets `replace_community = true`, which is only valid in local fixups, not in the community registry"
    );
}

#[test]
fn git_registry_not_implemented_message_is_exact() {
    let e = FixupError::GitRegistryNotImplemented { registry: "github.com/jackmpcollins/muntjac-fixups".into() };
    assert_eq!(
        e.to_string(),
        "git-based community registry is not yet implemented (S7b); registry = github.com/jackmpcollins/muntjac-fixups requires either \"none\" or \"file://...\""
    );
}

#[test]
fn registry_path_not_found_message_is_exact() {
    let e = FixupError::RegistryPathNotFound { path: "/tmp/no/such/packages".into() };
    assert_eq!(e.to_string(), "community registry path /tmp/no/such/packages does not exist");
}

#[test]
fn unknown_field_message_names_field_and_file() {
    let e = FixupError::UnknownField { file: "fixups/pillow/fixups.toml".into(), field: "extra_things".into() };
    assert_eq!(e.to_string(), "unknown field `extra_things` in fixup at fixups/pillow/fixups.toml");
}

#[test]
fn cfg_parse_message_nests_offset() {
    let e = FixupError::CfgParse {
        file: "f.toml".into(),
        section: "cfg(x)".into(),
        source: CfgParseError::AtOffset { offset: 12, message: "unexpected token".into() },
    };
    assert_eq!(e.to_string(), "failed to parse cfg() in f.toml section `cfg(x)`:\n  at byte 12: unexpected token");
}

#[test]
fn unknown_field_is_extracted_from_toml_errors() {
    assert_eq!(
        extract_unknown_field("TOML parse error at line 2\nunknown field `extra_things`, expected one of `extra_deps`"),
        Some("extra_things".to_string())
    );
    assert_eq!(extract_unknown_field("invalid type: integer"), None);
    assert_eq!(extract_unknown_field("unknown field `unterminated"), None);
    match load_failure("f.toml", "unknown field `foo`, expected `bar`") {
        FixupError::UnknownField { file, field } => {
            assert_eq!(file, "f.toml");
            assert_eq!(field, "foo");
        }
        other => panic!("unexpected {other:?}"),
    }
    assert!(matches!(load_failure("f.toml", "bad"), FixupError::ParseError { .. }));
}

#[test]
fn community_fixups_may_not_replace_community() {
    let mut c = fixup_with(vec![]);
    assert!(check_community_fixup("p/fixups.toml", &c).is_ok());
    c.replace_community = true;
    assert!(matches!(
        check_community_fixup("p/fixups.toml", &c),
        Err(FixupError::ReplaceCommunityInCommunity { file }) if file == "p/fixups.toml"
    ));
}

#[test]
fn effective_fixups_resolve_returns_default_when_neither_layer_has_pkg() {
    let eff = EffectiveFixups::empty();
    let rf = eff.resolve("missing", &[], &[]);
    assert!(rf.extra_deps.is_empty());
    assert!(rf.replace_deps.len() == 0);
    assert!(rf.overlay.is_none());
}

#[test]
fn effective_fixups_resolve_community_only() {
    let eff = EffectiveFixups { community: set(vec![("pkg", fixup_with(vec!["//c:base"]))]), local: FixupSet::empty() };
    assert_eq!(eff.resolve("pkg", &[], &[]).extra_deps, vec!["//c:base"]);
}

#[test]
fn effective_fixups_resolve_local_only() {
    let eff = EffectiveFixups { community: FixupSet::empty(), local: set(vec![("pkg", fixup_with(vec!["//l:base"]))]) };
    assert_eq!(eff.resolve("pkg", &[], &[]).extra_deps, vec!["//l:base"]);
}

#[test]
fn effective_fixups_resolve_both_layers_concat() {
    let eff = EffectiveFixups {
        community: set(vec![("pkg", fixup_with(vec!["//c:base"]))]),
        local: set(vec![("pkg", fixup_with(vec!["//l:base"]))]),
    };
    assert_eq!(eff.resolve("pkg", &[], &[]).extra_deps, vec!["//c:base", "//l:base"]);
}

#[test]
fn effective_fixups_resolve_replace_community_drops_community() {
    let mut local = fixup_with(vec!["//l:only"]);
    local.replace_community = true;
    let eff = EffectiveFixups {
        community: set(vec![("pkg", fixup_with(vec!["//c:never-merged"]))]),
        local: set(vec![("pkg", local)]),
    };
    assert_eq!(eff.resolve("pkg", &[], &[]).extra_deps, vec!["//l:only"]);
}

#[test]
fn effective_fixups_resolve_replace_community_with_empty_local_yields_empty() {
    let mut local = fixup_with(vec![]);
    local.replace_community = true;
    let eff = EffectiveFixups { community: set(vec![("pkg", fixup_with(vec!["//c:base"]))]), local: set(vec![("pkg", local)]) };
    let rf = eff.resolve("pkg", &[], &[]);
    assert!(rf.extra_deps.is_empty());
    assert!(rf.overlay.is_none());
}

#[test]
fn effective_fixups_local_scalars_win() {
    let mut c = fixup_with(vec![]);
    c.top.overlay = Some("community".into());
    c.top.prefer_wheel = Some("sha256:c".into());
    let mut l = fixup_with(vec![]);
    l.top.overlay = Some("local".into());
    let eff = EffectiveFixups { community: set(vec![("pkg", c)]), local: set(vec![("pkg", l)]) };
    let rf = eff.resolve("pkg", &[], &[]);
    assert_eq!(rf.overlay.as_deref(), Some("local"));
    assert_eq!(rf.prefer_wheel.as_deref(), Some("sha256:c"));
}

#[test]
fn fixup_set_lookups() {
    let s = set(vec![("b", fixup_with(vec![])), ("a", fixup_with(vec!["//x:y"]))]);
    assert_eq!(s.len(), 2);
    assert!(!s.is_empty());
    assert!(s.get("a").is_some());
    assert!(s.get("c").is_none());
    let names: Vec<&str> = s.iter().iter().map(|(n, _)| n.as_str()).collect();
    assert_eq!(names, vec!["a", "b"]);
    assert!(FixupSet::empty().is_empty());
}
