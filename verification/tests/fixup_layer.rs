use muntjac::buck::emit::ConfigName;
use muntjac::fixup::layer::EffectiveFixups;
use muntjac::fixup::loader::FixupSet;
use muntjac::fixup::overlay::overlay_listing;
use muntjac::fixup::layer::{merge_into, merge_resolved, resolve_for_cell, ResolvedFixup};
use muntjac::fixup::schema::{EntryPoints, FixupBody, FixupConfig};
use muntjac::strmap::StrMap;

fn map_of(pairs: &[(&str, &str)]) -> StrMap<String> {
    let mut m = StrMap::new();
    for (k, v) in pairs {
        m.insert(k.to_string(), v.to_string());
    }
    m
}

#[test]
fn merge_lists_accumulate() {
    let mut acc = ResolvedFixup::default();
    let a = FixupBody {
        extra_deps: vec!["//a:b".into()],
        ..Default::default()
    };
    let b = FixupBody {
        extra_deps: vec!["//c:d".into()],
        ..Default::default()
    };
    merge_into(&mut acc, &a);
    merge_into(&mut acc, &b);
    assert_eq!(acc.extra_deps, vec!["//a:b", "//c:d"]);
}

#[test]
fn merge_scalars_replace_when_some() {
    let mut acc = ResolvedFixup::default();
    let a = FixupBody {
        overlay: Some("first".into()),
        ..Default::default()
    };
    let b = FixupBody {
        overlay: Some("second".into()),
        ..Default::default()
    };
    let c = FixupBody {
        overlay: None,
        ..Default::default()
    };
    merge_into(&mut acc, &a);
    merge_into(&mut acc, &b);
    merge_into(&mut acc, &c);
    assert_eq!(acc.overlay.as_deref(), Some("second"));
}

#[test]
fn merge_maps_extend() {
    let mut acc = ResolvedFixup::default();
    merge_into(
        &mut acc,
        &FixupBody {
            replace_deps: map_of(&[("numpy", "//company/numpy:numpy")]),
            ..Default::default()
        },
    );
    merge_into(
        &mut acc,
        &FixupBody {
            replace_deps: map_of(&[("numpy", "//new/numpy:numpy"), ("scipy", "//company/scipy:scipy")]),
            ..Default::default()
        },
    );
    assert_eq!(
        acc.replace_deps.get("numpy").map(|s| s.as_str()),
        Some("//new/numpy:numpy")
    );
    assert_eq!(
        acc.replace_deps.get("scipy").map(|s| s.as_str()),
        Some("//company/scipy:scipy")
    );
}

fn cfg(top: FixupBody, sections: Vec<(&str, FixupBody)>) -> FixupConfig {
    FixupConfig {
        top,
        cfg_sections: sections.into_iter().map(|(p, b)| (p.to_string(), b)).collect(),
        replace_community: false,
    }
}

#[test]
fn resolve_picks_matching_cfg_sections() {
    let config = cfg(
        FixupBody {
            extra_deps: vec!["//base:dep".into()],
            ..Default::default()
        },
        vec![
            (
                "target_os = \"linux\"",
                FixupBody {
                    extra_deps: vec!["//linux:dep".into()],
                    ..Default::default()
                },
            ),
            (
                "target_os = \"macos\"",
                FixupBody {
                    extra_deps: vec!["//macos:dep".into()],
                    ..Default::default()
                },
            ),
        ],
    );
    // On linux: the first section applies, the second does not.
    let resolved = resolve_for_cell(&config, &[true, false]);
    assert_eq!(resolved.extra_deps, vec!["//base:dep", "//linux:dep"]);
}

#[test]
fn resolve_with_no_matches_yields_top_only() {
    let config = cfg(
        FixupBody {
            extra_deps: vec!["//base:dep".into()],
            ..Default::default()
        },
        vec![(
            "target_os = \"linux\"",
            FixupBody {
                extra_deps: vec!["//linux:dep".into()],
                ..Default::default()
            },
        )],
    );
    let resolved = resolve_for_cell(&config, &[false]);
    assert_eq!(resolved.extra_deps, vec!["//base:dep"]);
}

#[test]
fn resolve_section_order_preserved() {
    let config = cfg(
        FixupBody {
            overlay: Some("top".into()),
            ..Default::default()
        },
        vec![
            (
                "target_os = \"linux\"",
                FixupBody {
                    overlay: Some("first".into()),
                    ..Default::default()
                },
            ),
            (
                "target_arch = \"x86_64\"",
                FixupBody {
                    overlay: Some("second".into()),
                    ..Default::default()
                },
            ),
        ],
    );
    let resolved = resolve_for_cell(&config, &[true, true]);
    assert_eq!(resolved.overlay.as_deref(), Some("second"));
}

#[test]
fn merge_resolved_extra_deps_community_first_dedup() {
    let c = ResolvedFixup {
        extra_deps: vec!["//c:base".into(), "//shared:dep".into()],
        ..Default::default()
    };
    let l = ResolvedFixup {
        extra_deps: vec!["//shared:dep".into(), "//l:base".into()],
        ..Default::default()
    };
    let merged = merge_resolved(c, l);
    assert_eq!(merged.extra_deps, vec!["//c:base", "//shared:dep", "//l:base"]);
}

#[test]
fn merge_resolved_omit_deps_community_first_dedup() {
    let c = ResolvedFixup {
        omit_deps: vec!["one".into(), "two".into()],
        ..Default::default()
    };
    let l = ResolvedFixup {
        omit_deps: vec!["two".into(), "three".into()],
        ..Default::default()
    };
    let merged = merge_resolved(c, l);
    assert_eq!(merged.omit_deps, vec!["one", "two", "three"]);
}

#[test]
fn merge_resolved_replace_deps_local_wins_on_key_collision() {
    let c = ResolvedFixup {
        replace_deps: map_of(&[("foo", "//c:foo"), ("only-community", "//c:only")]),
        ..Default::default()
    };
    let l = ResolvedFixup {
        replace_deps: map_of(&[("foo", "//l:foo"), ("only-local", "//l:only")]),
        ..Default::default()
    };
    let merged = merge_resolved(c, l);
    assert_eq!(merged.replace_deps.get("foo").map(|s| s.as_str()), Some("//l:foo"));
    assert_eq!(
        merged.replace_deps.get("only-community").map(|s| s.as_str()),
        Some("//c:only")
    );
    assert_eq!(
        merged.replace_deps.get("only-local").map(|s| s.as_str()),
        Some("//l:only")
    );
}

#[test]
fn merge_resolved_prefer_wheel_local_some_wins() {
    let c = ResolvedFixup {
        prefer_wheel: Some("sha256:aaa".into()),
        ..Default::default()
    };
    let l = ResolvedFixup {
        prefer_wheel: Some("sha256:bbb".into()),
        ..Default::default()
    };
    let merged = merge_resolved(c, l);
    assert_eq!(merged.prefer_wheel.as_deref(), Some("sha256:bbb"));
}

#[test]
fn merge_resolved_prefer_wheel_community_kept_when_local_none() {
    let c = ResolvedFixup {
        prefer_wheel: Some("sha256:aaa".into()),
        ..Default::default()
    };
    let l = ResolvedFixup::default();
    let merged = merge_resolved(c, l);
    assert_eq!(merged.prefer_wheel.as_deref(), Some("sha256:aaa"));
}

#[test]
fn merge_resolved_exclude_wheels_concat_dedup() {
    let c = ResolvedFixup {
        exclude_wheels: vec!["*win32*".into()],
        ..Default::default()
    };
    let l = ResolvedFixup {
        exclude_wheels: vec!["*win32*".into(), "*cuda*".into()],
        ..Default::default()
    };
    let merged = merge_resolved(c, l);
    assert_eq!(merged.exclude_wheels, vec!["*win32*", "*cuda*"]);
}

#[test]
fn merge_resolved_overlay_local_some_wins() {
    let c = ResolvedFixup {
        overlay: Some("c-overlay".into()),
        ..Default::default()
    };
    let l = ResolvedFixup {
        overlay: Some("l-overlay".into()),
        ..Default::default()
    };
    let merged = merge_resolved(c, l);
    assert_eq!(merged.overlay.as_deref(), Some("l-overlay"));
}

#[test]
fn merge_resolved_entry_points_local_some_wins() {
    let c = ResolvedFixup {
        entry_points: Some(EntryPoints::Named(vec!["c-bin".into()])),
        ..Default::default()
    };
    let l = ResolvedFixup {
        entry_points: Some(EntryPoints::Named(vec!["l-bin".into()])),
        ..Default::default()
    };
    let merged = merge_resolved(c, l);
    match merged.entry_points {
        Some(EntryPoints::Named(names)) => {
            assert_eq!(names, vec!["l-bin".to_string()]);
        }
        other => panic!("expected Named, got {:?}", other),
    }
}

#[test]
fn merge_resolved_visibility_local_some_wins() {
    let c = ResolvedFixup {
        visibility: Some(vec!["//c:...".into()]),
        ..Default::default()
    };
    let l = ResolvedFixup {
        visibility: Some(vec!["//l:...".into()]),
        ..Default::default()
    };
    let merged = merge_resolved(c, l);
    assert_eq!(merged.visibility, Some(vec!["//l:...".to_string()]));
}

#[test]
fn merge_resolved_labels_concat_dedup() {
    let c = ResolvedFixup {
        labels: vec!["tag-a".into(), "tag-b".into()],
        ..Default::default()
    };
    let l = ResolvedFixup {
        labels: vec!["tag-b".into(), "tag-c".into()],
        ..Default::default()
    };
    let merged = merge_resolved(c, l);
    assert_eq!(merged.labels, vec!["tag-a", "tag-b", "tag-c"]);
}

#[test]
fn merge_resolved_runtime_env_local_overrides_key() {
    let c = ResolvedFixup {
        runtime_env: map_of(&[("FOO", "c"), ("BAR", "c")]),
        ..Default::default()
    };
    let l = ResolvedFixup {
        runtime_env: map_of(&[("FOO", "l"), ("BAZ", "l")]),
        ..Default::default()
    };
    let merged = merge_resolved(c, l);
    assert_eq!(merged.runtime_env.get("FOO").map(|s| s.as_str()), Some("l"));
    assert_eq!(merged.runtime_env.get("BAR").map(|s| s.as_str()), Some("c"));
    assert_eq!(merged.runtime_env.get("BAZ").map(|s| s.as_str()), Some("l"));
}

#[test]
fn merge_resolved_dedups_within_one_layer_too() {
    let c = ResolvedFixup {
        labels: vec!["x".into(), "x".into()],
        ..Default::default()
    };
    let merged = merge_resolved(c, ResolvedFixup::default());
    assert_eq!(merged.labels, vec!["x"]);
}

#[test]
fn strmap_keeps_keys_sorted() {
    let m = map_of(&[("b", "2"), ("a", "1"), ("c", "3"), ("a", "9")]);
    let keys: Vec<&str> = m.entries().iter().map(|(k, _)| k.as_str()).collect();
    assert_eq!(keys, vec!["a", "b", "c"]);
    assert_eq!(m.get("a").map(|s| s.as_str()), Some("9"));
    assert_eq!(m.len(), 3);
}

#[test]
fn overlay_listing_sorts_and_refuses_empty() {
    let files = vec![
        ("b/x.py".to_string(), "fixups/p/ov/b/x.py".to_string()),
        ("a.py".to_string(), "fixups/p/ov/a.py".to_string()),
        ("b/a.py".to_string(), "fixups/p/ov/b/a.py".to_string()),
    ];
    let out = overlay_listing("p", "ov", &files).unwrap();
    let mut want = files.clone();
    want.sort();
    assert_eq!(out, want);
    let err = overlay_listing("p", "ov", &Vec::new()).unwrap_err();
    assert!(matches!(err, muntjac::fixup::error::FixupError::OverlayEmpty { ref pkg, ref path } if pkg == "p" && path == "ov"));
}

#[test]
fn resolve_all_covers_every_package_and_cell() {
    let cfg = || {
        let mut body = FixupBody::empty();
        body.labels = vec!["x".to_string()];
        FixupConfig { top: body, cfg_sections: vec![], replace_community: false }
    };
    let mut community = FixupSet::empty();
    community.insert("foo".to_string(), cfg());
    let mut local = FixupSet::empty();
    local.insert("bar".to_string(), cfg());
    local.insert("foo".to_string(), cfg());
    let eff = EffectiveFixups { community, local };
    let cells = vec![ConfigName::new("3.12", "linux"), ConfigName::new("3.11", "linux")];
    let r = eff.resolve_all(&cells);
    assert_eq!(r.entries().len(), 2);
    let foo = r.get("foo").unwrap();
    assert_eq!(foo.entries().len(), 2);
    assert_eq!(foo.get("py312-linux").unwrap().labels, vec!["x".to_string()]);
    assert!(r.get("bar").unwrap().get("py311-linux").is_some());
}
