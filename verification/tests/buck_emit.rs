use muntjac::buck::emit::{
    apply_dep_ops, apply_exclude_wheels, build_emit_input, cell_compat_tags, emit_tree, format_cell_deps, BuckEmitter, ConfigName,
    EmitDeps, EmitError, EmitInput, EmitOverlay, EmitPackage, EmitWheel, OverlayFiles,
};
use muntjac::buck::string_writer::StringTemplateEmitter;
use muntjac::config::{BuckConfig, Config, FixupsConfig, LockfileConfig, Platform, PythonVersion, Tree};
use muntjac::fixup::layer::ResolvedFixup;
use muntjac::fixup::schema::EntryPoints;
use muntjac::lock::resolved::{ResolvedConfig, ResolvedKind, ResolvedPackage, ResolvedView, SourceInfo};
use muntjac::lock::types::{DepEdge, FirstPartyKind, Lockfile, Package, Sdist, Source, Wheel};
use muntjac::sdist::classifier::AllowlistedBackend;
use muntjac::sdist::manifest::{Manifest, ManifestClassification, ManifestEntry};
use muntjac::strmap::StrMap;
use muntjac::wheel::compat::CompatibleTags;
use muntjac::wheel::tag::{AbiTag, LinuxArch, PlatformTag, PythonTag, Tag};

#[test]
fn emit_input_constructs() {
    let inp = EmitInput {
        tree: "default".into(),
        third_party_dir: "third-party/python".into(),
        configs: vec![ConfigName::new("3.12", "linux-x86_64-gnu")],
        packages: vec![EmitPackage {
            name: "requests".into(),
            version: "2.32.3".into(),
            deps: EmitDeps::Uniform(vec![":certifi".into(), ":idna".into()]),
            wheels: {
                let mut m = StrMap::new();
                m.insert(
                    ConfigName::new("3.12", "linux-x86_64-gnu").as_str().to_string(),
                    EmitWheel {
                        url: "https://example.com/requests-2.32.3-py3-none-any.whl".into(),
                        hash: "sha256:abc".into(),
                    },
                );
                m
            },
            overlay: None,
            entry_points: vec![],
            visibility: None,
            labels: vec![],
            runtime_env: StrMap::new(),
        }],
    };
    assert_eq!(inp.tree, "default");
    assert_eq!(inp.packages.len(), 1);
    assert_eq!(inp.configs[0].as_str(), "py312-linux-x86_64-gnu");
}

#[test]
fn emit_package_with_fixup_fields_constructs() {
    let mut rt_env = StrMap::new();
    rt_env.insert("LIBJPEG_PATH".to_string(), "/opt/libjpeg/lib".to_string());

    let pkg = EmitPackage {
        name: "pillow".into(),
        version: "10.0.0".into(),
        deps: EmitDeps::Uniform(vec![]),
        wheels: StrMap::new(),
        overlay: Some(EmitOverlay {
            files: vec![("PIL/_imaging.py".into(), "fixups/pillow/overlay/PIL/_imaging.py".into())],
        }),
        entry_points: vec!["pillow-cli".into()],
        visibility: Some(vec!["//apps/imaging/...".into()]),
        labels: vec!["security-sensitive".into()],
        runtime_env: rt_env,
    };
    assert_eq!(pkg.entry_points, vec!["pillow-cli"]);
    assert_eq!(pkg.overlay.unwrap().files.len(), 1);
}

#[test]
fn config_name_orders_lexicographically() {
    let a = ConfigName::new("3.11", "linux-x86_64-gnu");
    let b = ConfigName::new("3.12", "linux-x86_64-gnu");
    assert!(a < b);
    assert_eq!(a.as_str(), "py311-linux-x86_64-gnu");
}

#[test]
fn emit_wheel_renders_prebake_source_as_prebake_url() {
    let w = EmitWheel {
        url: "prebake:tomli-2.0.1-py3-none-any.whl".to_string(),
        hash: "sha256:cafef00d".to_string(),
    };
    assert!(w.url.starts_with("prebake:"));
    assert!(w.hash.starts_with("sha256:"));
}

#[test]
fn emit_deps_variants_construct() {
    let uniform = EmitDeps::Uniform(vec![":foo".into(), ":bar".into()]);
    let per_cell = EmitDeps::PerCell({
        let mut m = StrMap::new();
        m.insert(ConfigName::new("3.12", "linux-x86_64-gnu").as_str().to_string(), vec![":foo".to_string()]);
        m.insert(
            ConfigName::new("3.11", "linux-x86_64-gnu").as_str().to_string(),
            vec![":foo".to_string(), ":bar".to_string()],
        );
        m
    });

    match uniform {
        EmitDeps::Uniform(v) => assert_eq!(v.len(), 2),
        EmitDeps::PerCell(_) => panic!("expected Uniform"),
    }
    match per_cell {
        EmitDeps::PerCell(m) => assert_eq!(m.len(), 2),
        EmitDeps::Uniform(_) => panic!("expected PerCell"),
    }
}

#[test]
fn emitter_returns_four_strings() {
    let input = EmitInput {
        tree: "default".into(),
        third_party_dir: "third-party/python".into(),
        configs: vec![ConfigName::new("3.12", "linux-x86_64-gnu")],
        packages: vec![],
    };
    let out = StringTemplateEmitter.emit(&input);
    let _ = out.buck;
    let _ = out.muntjac_bzl;
    let _ = out.config_buck;
    let _ = out.package_file;
}

#[test]
fn config_name_keeps_only_version_digits() {
    assert_eq!(ConfigName::new("3.9", "macos-arm64").as_str(), "py39-macos-arm64");
    assert_eq!(ConfigName::new("", "x").as_str(), "py-x");
}

// ---- composition ----

fn linux_platform() -> Platform {
    Platform {
        target: "x86_64-unknown-linux-gnu".into(),
        manylinux: Some("2_17".into()),
        musllinux: None,
        macos_min: None,
    }
}

fn tree(versions: Vec<PythonVersion>) -> Tree {
    Tree {
        name: "default".into(),
        manifest_path: "pyproject.toml".into(),
        third_party_dir: "third-party/python".into(),
        python_versions: versions,
    }
}

fn config(t: &Tree) -> Config {
    let mut platforms = StrMap::new();
    platforms.insert("linux-x86_64-gnu".to_string(), linux_platform());
    Config {
        trees: vec![t.clone()],
        platforms,
        fixups: FixupsConfig::default_config(),
        buck: BuckConfig::default_config(),
        lockfile: LockfileConfig::default_config(),
    }
}

fn compat_312() -> CompatibleTags {
    CompatibleTags::from_ordered(vec![
        Tag {
            python: PythonTag::CPython(3, 12),
            abi: AbiTag::CPython(3, 12),
            plat: PlatformTag::ManyLinux { major: 2, minor: 17, arch: LinuxArch::X86_64 },
        },
        Tag { python: PythonTag::Py(3, None), abi: AbiTag::NoAbi, plat: PlatformTag::Any },
    ])
}

fn wheel(filename: &str, hash: &str) -> Wheel {
    Wheel {
        url: format!("https://example.com/{filename}"),
        hash: hash.into(),
        size: None,
        filename: filename.into(),
    }
}

fn registry_pkg(name: &str, version: &str, deps: Vec<&str>, wheels: Vec<Wheel>, sdist: Option<Sdist>) -> Package {
    Package {
        name: name.into(),
        version: version.into(),
        source: Source::Registry { url: "https://pypi.org/simple".into() },
        dependencies: deps
            .into_iter()
            .map(|d| DepEdge { name: d.into(), extra: vec![], marker: None })
            .collect(),
        sdist,
        wheels,
        metadata: None,
    }
}

fn app_pkg(deps: Vec<&str>) -> Package {
    Package {
        name: "app".into(),
        version: "0.1.0".into(),
        source: Source::FirstParty { kind: FirstPartyKind::Virtual, path: ".".into() },
        dependencies: deps
            .into_iter()
            .map(|d| DepEdge { name: d.into(), extra: vec![], marker: None })
            .collect(),
        sdist: None,
        wheels: vec![],
        metadata: None,
    }
}

fn resolved(name: &str, version: &str, kind: ResolvedKind, deps: Vec<&str>) -> ResolvedPackage {
    ResolvedPackage {
        name: name.into(),
        version: version.into(),
        kind,
        source_info: SourceInfo::Registry { registry: "https://pypi.org/simple".into() },
        deps: deps.into_iter().map(String::from).collect(),
    }
}

fn cell(py: &str, packages: Vec<ResolvedPackage>) -> ResolvedConfig {
    ResolvedConfig { platform: "linux-x86_64-gnu".into(), python_version: py.into(), packages }
}

fn lockfile(packages: Vec<Package>) -> Lockfile {
    Lockfile { version: 1, revision: 3, requires_python: ">=3.11".into(), packages }
}

fn no_fixups() -> StrMap<StrMap<ResolvedFixup>> {
    StrMap::new()
}

fn no_overlays() -> StrMap<OverlayFiles> {
    StrMap::new()
}

#[test]
fn build_emit_input_from_synthetic_resolved() {
    let t = tree(vec![PythonVersion(3, 12)]);
    let c = config(&t);
    let lock = lockfile(vec![
        app_pkg(vec!["certifi"]),
        registry_pkg(
            "certifi",
            "2025.4.26",
            vec![],
            vec![wheel("certifi-2025.4.26-py3-none-any.whl", "sha256:abc")],
            None,
        ),
    ]);
    let view = ResolvedView {
        configs: vec![cell(
            "3.12",
            vec![
                resolved("app", "0.1.0", ResolvedKind::FirstParty, vec!["certifi@2025.4.26"]),
                resolved("certifi", "2025.4.26", ResolvedKind::Registry, vec![]),
            ],
        )],
    };
    let input = build_emit_input(&c, &t, &lock, &view, &vec![compat_312()], None, &no_fixups(), &no_overlays())
        .expect("build_emit_input succeeds");
    assert_eq!(input.tree, "default");
    assert_eq!(input.third_party_dir, "third-party/python");
    assert_eq!(input.configs, vec![ConfigName::new("3.12", "linux-x86_64-gnu")]);
    assert_eq!(input.packages.len(), 1);
    let pkg = &input.packages[0];
    assert_eq!(pkg.name, "certifi");
    assert_eq!(pkg.version, "2025.4.26");
    match &pkg.deps {
        EmitDeps::Uniform(v) => assert!(v.is_empty()),
        EmitDeps::PerCell(_) => panic!("expected Uniform for empty-deps case"),
    }
    assert_eq!(pkg.wheels.len(), 1);
    let w = pkg.wheels.get("py312-linux-x86_64-gnu").unwrap();
    assert!(w.url.contains("certifi-2025.4.26"));
    assert_eq!(w.hash, "sha256:abc");
}

#[test]
fn build_emit_input_errors_on_no_wheel() {
    let t = tree(vec![PythonVersion(3, 12)]);
    let c = config(&t);
    let lock = lockfile(vec![
        app_pkg(vec!["ancient-pkg"]),
        registry_pkg(
            "ancient-pkg",
            "0.1.0",
            vec![],
            vec![wheel("ancient_pkg-0.1.0-cp310-cp310-manylinux_2_17_x86_64.whl", "sha256:aaaa")],
            None,
        ),
    ]);
    let view = ResolvedView {
        configs: vec![cell(
            "3.12",
            vec![
                resolved("app", "0.1.0", ResolvedKind::FirstParty, vec!["ancient-pkg@0.1.0"]),
                resolved("ancient-pkg", "0.1.0", ResolvedKind::Registry, vec![]),
            ],
        )],
    };
    let err = build_emit_input(&c, &t, &lock, &view, &vec![compat_312()], None, &no_fixups(), &no_overlays())
        .expect_err("should fail on NoWheel");
    let msg = err.to_string();
    assert!(msg.contains("ancient-pkg"), "{msg}");
    assert!(msg.contains("3.12"), "{msg}");
    assert!(msg.contains("linux-x86_64-gnu"), "{msg}");
    assert!(msg.contains("no compatible wheel"), "{msg}");
    assert!(msg.contains("muntjac.toml"), "{msg}");
}

#[test]
fn build_emit_input_yields_per_cell_for_cross_cell_dep_diff() {
    let t = tree(vec![PythonVersion(3, 11), PythonVersion(3, 12)]);
    let c = config(&t);
    let lock = lockfile(vec![
        app_pkg(vec!["parent"]),
        registry_pkg("parent", "1.0.0", vec!["child"], vec![wheel("parent-1.0.0-py3-none-any.whl", "sha256:pppp")], None),
        registry_pkg("child", "1.0.0", vec![], vec![wheel("child-1.0.0-py3-none-any.whl", "sha256:cccc")], None),
    ]);
    let view = ResolvedView {
        configs: vec![
            cell(
                "3.11",
                vec![
                    resolved("app", "0.1.0", ResolvedKind::FirstParty, vec!["parent@1.0.0"]),
                    resolved("child", "1.0.0", ResolvedKind::Registry, vec![]),
                    resolved("parent", "1.0.0", ResolvedKind::Registry, vec!["child@1.0.0"]),
                ],
            ),
            cell(
                "3.12",
                vec![
                    resolved("app", "0.1.0", ResolvedKind::FirstParty, vec!["parent@1.0.0"]),
                    resolved("parent", "1.0.0", ResolvedKind::Registry, vec![]),
                ],
            ),
        ],
    };
    let input = build_emit_input(
        &c,
        &t,
        &lock,
        &view,
        &vec![compat_312(), compat_312()],
        None,
        &no_fixups(),
        &no_overlays(),
    )
    .expect("succeeds");
    assert_eq!(
        input.configs,
        vec![ConfigName::new("3.11", "linux-x86_64-gnu"), ConfigName::new("3.12", "linux-x86_64-gnu")]
    );
    let names: Vec<&str> = input.packages.iter().map(|p| p.name.as_str()).collect();
    assert_eq!(names, vec!["child", "parent"]);
    let parent = &input.packages[1];
    match &parent.deps {
        EmitDeps::PerCell(m) => {
            assert_eq!(m.len(), 2);
            assert_eq!(m.get("py311-linux-x86_64-gnu").unwrap(), &vec![":child".to_string()]);
            assert_eq!(m.get("py312-linux-x86_64-gnu").unwrap(), &Vec::<String>::new());
        }
        EmitDeps::Uniform(_) => panic!("expected PerCell, got Uniform"),
    }
    assert_eq!(input.packages[0].wheels.len(), 1);
    assert_eq!(parent.wheels.len(), 2);
}

#[test]
fn build_emit_input_collapses_to_uniform_when_cells_agree() {
    let t = tree(vec![PythonVersion(3, 11), PythonVersion(3, 12)]);
    let c = config(&t);
    let lock = lockfile(vec![
        app_pkg(vec!["six"]),
        registry_pkg("six", "1.16.0", vec![], vec![wheel("six-1.16.0-py2.py3-none-any.whl", "sha256:66")], None),
    ]);
    let six = || resolved("six", "1.16.0", ResolvedKind::Registry, vec![]);
    let view = ResolvedView { configs: vec![cell("3.11", vec![six()]), cell("3.12", vec![six()])] };
    let input = build_emit_input(
        &c,
        &t,
        &lock,
        &view,
        &vec![compat_312(), compat_312()],
        None,
        &no_fixups(),
        &no_overlays(),
    )
    .expect("succeeds");
    assert!(matches!(&input.packages[0].deps, EmitDeps::Uniform(v) if v.is_empty()));
}

fn sdist_only_setup(manifest: Option<Manifest>) -> Result<EmitInput, EmitError> {
    let t = tree(vec![PythonVersion(3, 12)]);
    let c = config(&t);
    let lock = lockfile(vec![
        app_pkg(vec!["tomli"]),
        registry_pkg(
            "tomli",
            "2.0.1",
            vec![],
            vec![],
            Some(Sdist { url: "https://example.com/tomli-2.0.1.tar.gz".into(), hash: "sha256:deadbeef".into(), size: None }),
        ),
    ]);
    let view = ResolvedView {
        configs: vec![cell(
            "3.12",
            vec![
                resolved("app", "0.1.0", ResolvedKind::FirstParty, vec!["tomli@2.0.1"]),
                resolved("tomli", "2.0.1", ResolvedKind::Registry, vec![]),
            ],
        )],
    };
    build_emit_input(&c, &t, &lock, &view, &vec![compat_312()], manifest.as_ref(), &no_fixups(), &no_overlays())
}

fn manifest_with(sha: &str, classification: ManifestClassification) -> Manifest {
    Manifest {
        version: 1,
        entries: vec![ManifestEntry {
            package: "tomli".into(),
            version: "2.0.1".into(),
            sdist_sha256: sha.into(),
            classification,
        }],
    }
}

fn pure(filename: &str, sha: &str) -> ManifestClassification {
    ManifestClassification::PurePython {
        backend: AllowlistedBackend::Setuptools,
        wheel_filename: filename.into(),
        wheel_sha256: sha.into(),
    }
}

#[test]
fn build_emit_input_errors_when_sdist_missing_from_manifest() {
    let err = sdist_only_setup(None).expect_err("not prebaked");
    assert_eq!(err.to_string(), "pure-python sdist tomli 2.0.1 not prebaked. Run `muntjac vendor` first.");
}

#[test]
fn build_emit_input_errors_when_manifest_sdist_sha_mismatch() {
    let m = manifest_with("00000000", pure("tomli-2.0.1-py3-none-any.whl", "cafef00d"));
    let err = sdist_only_setup(Some(m)).expect_err("stale");
    assert_eq!(
        err.to_string(),
        "prebake of tomli 2.0.1 is stale (sdist sha changed in uv.lock). Run `muntjac vendor`."
    );
}

#[test]
fn build_emit_input_uses_prebaked_wheel() {
    let m = manifest_with("deadbeef", pure("tomli-2.0.1-py3-none-any.whl", "cafef00d"));
    let input = sdist_only_setup(Some(m)).expect("prebaked");
    let w = input.packages[0].wheels.get("py312-linux-x86_64-gnu").unwrap();
    assert_eq!(w.url, "prebake:tomli-2.0.1-py3-none-any.whl");
    assert_eq!(w.hash, "sha256:cafef00d");
}

#[test]
fn build_emit_input_errors_on_native_sdist() {
    let m = manifest_with("deadbeef", ManifestClassification::Native { reason: "setup.py ext_modules".into() });
    let err = sdist_only_setup(Some(m)).expect_err("native");
    assert_eq!(
        err.to_string(),
        "tomli 2.0.1 has no wheel for (py312, linux-x86_64-gnu) and is a native sdist.\n       add a fixup at third-party/python/fixups/tomli/fixups.toml \u{2014} see\n       `muntjac fixups show tomli` for the current community fixup, or use\n       `replace_deps` to point at a hand-rolled Buck target."
    );
}

#[test]
fn build_emit_input_errors_on_missing_platform() {
    let t = tree(vec![PythonVersion(3, 12)]);
    let c = config(&t);
    let lock = lockfile(vec![app_pkg(vec![])]);
    let view = ResolvedView {
        configs: vec![ResolvedConfig { platform: "windows".into(), python_version: "3.12".into(), packages: vec![] }],
    };
    let err = build_emit_input(&c, &t, &lock, &view, &vec![compat_312()], None, &no_fixups(), &no_overlays())
        .expect_err("missing platform");
    assert_eq!(err.to_string(), "platform `windows` missing from config");
}

#[test]
fn build_emit_input_errors_on_lockfile_cycle() {
    let t = tree(vec![PythonVersion(3, 12)]);
    let c = config(&t);
    let lock = lockfile(vec![registry_pkg("a", "1", vec!["b"], vec![], None), registry_pkg("b", "1", vec!["a"], vec![], None)]);
    let view = ResolvedView { configs: vec![] };
    let err = build_emit_input(&c, &t, &lock, &view, &vec![], None, &no_fixups(), &no_overlays()).expect_err("cycle");
    assert!(matches!(err, EmitError::Lockfile(_)));
}

fn fixup_setup(rf: ResolvedFixup, wheels: Vec<Wheel>, overlays: StrMap<OverlayFiles>) -> Result<EmitInput, EmitError> {
    let t = tree(vec![PythonVersion(3, 12)]);
    let c = config(&t);
    let lock = lockfile(vec![
        app_pkg(vec!["pillow"]),
        registry_pkg("pillow", "10.0.0", vec!["olefile"], wheels, None),
        registry_pkg("olefile", "0.47", vec![], vec![wheel("olefile-0.47-py3-none-any.whl", "sha256:01")], None),
    ]);
    let view = ResolvedView {
        configs: vec![cell(
            "3.12",
            vec![
                resolved("olefile", "0.47", ResolvedKind::Registry, vec![]),
                resolved("pillow", "10.0.0", ResolvedKind::Registry, vec!["olefile@0.47"]),
            ],
        )],
    };
    let mut per_cell = StrMap::new();
    per_cell.insert("py312-linux-x86_64-gnu".to_string(), rf);
    let mut fixups = StrMap::new();
    fixups.insert("pillow".to_string(), per_cell);
    build_emit_input(&c, &t, &lock, &view, &vec![compat_312()], None, &fixups, &overlays)
}

fn pillow_wheels() -> Vec<Wheel> {
    vec![
        wheel("pillow-10.0.0-cp312-cp312-manylinux_2_17_x86_64.whl", "sha256:aa"),
        wheel("pillow-10.0.0-py3-none-any.whl", "sha256:bb"),
    ]
}

#[test]
fn fixup_extra_deps_appends() {
    let mut rf = ResolvedFixup::default();
    rf.extra_deps = vec!["//third-party/c:libjpeg".into()];
    let input = fixup_setup(rf, pillow_wheels(), no_overlays()).expect("ok");
    let pillow = input.packages.iter().find(|p| p.name == "pillow").unwrap();
    match &pillow.deps {
        EmitDeps::Uniform(v) => assert_eq!(v, &vec!["//third-party/c:libjpeg".to_string(), ":olefile".to_string()]),
        EmitDeps::PerCell(_) => panic!("expected Uniform"),
    }
}

#[test]
fn fixup_prefer_wheel_overrides_picker() {
    let mut rf = ResolvedFixup::default();
    rf.prefer_wheel = Some("sha256:bb".into());
    let input = fixup_setup(rf, pillow_wheels(), no_overlays()).expect("ok");
    let pillow = input.packages.iter().find(|p| p.name == "pillow").unwrap();
    let w = pillow.wheels.get("py312-linux-x86_64-gnu").unwrap();
    assert_eq!(w.hash, "sha256:bb");
}

#[test]
fn fixup_prefer_wheel_not_found_errors() {
    let mut rf = ResolvedFixup::default();
    rf.prefer_wheel = Some("sha256:zz".into());
    let err = fixup_setup(rf, pillow_wheels(), no_overlays()).expect_err("not found");
    assert_eq!(
        err.to_string(),
        "prefer_wheel sha256:zz not found for pillow on cell py312-linux-x86_64-gnu.\n  available wheel shas: aa, bb"
    );
}

#[test]
fn fixup_exclude_wheels_leaves_none_errors() {
    let mut rf = ResolvedFixup::default();
    rf.exclude_wheels = vec!["pillow-*".into()];
    let err = fixup_setup(rf, pillow_wheels(), no_overlays()).expect_err("none left");
    assert_eq!(
        err.to_string(),
        "exclude_wheels eliminates every wheel for pillow on cell py312-linux-x86_64-gnu.\n  loosen the patterns or remove the fixup"
    );
}

#[test]
fn fixup_exclude_wheels_drops_matching_wheels() {
    let mut rf = ResolvedFixup::default();
    rf.exclude_wheels = vec!["*manylinux*".into()];
    let input = fixup_setup(rf, pillow_wheels(), no_overlays()).expect("ok");
    let pillow = input.packages.iter().find(|p| p.name == "pillow").unwrap();
    assert_eq!(pillow.wheels.get("py312-linux-x86_64-gnu").unwrap().hash, "sha256:bb");
}

#[test]
fn fixup_entry_points_auto_errors() {
    let mut rf = ResolvedFixup::default();
    rf.entry_points = Some(EntryPoints::Auto(true));
    let err = fixup_setup(rf, pillow_wheels(), no_overlays()).expect_err("auto");
    assert_eq!(
        err.to_string(),
        "entry_points = true is not supported in v1; list the binaries explicitly (e.g. entry_points = [\"ruff\"]).\n  package: pillow"
    );
}

#[test]
fn fixup_extra_dep_invalid_buck_target_errors() {
    let mut rf = ResolvedFixup::default();
    rf.extra_deps = vec!["not-a-target".into()];
    let err = fixup_setup(rf, pillow_wheels(), no_overlays()).expect_err("invalid");
    assert_eq!(
        err.to_string(),
        "extra_deps target for pillow is not a valid Buck target: `not-a-target`\n  expected //path:name or :name form"
    );
}

#[test]
fn fixup_visibility_and_entry_points_thread_to_emit_package() {
    let mut rf = ResolvedFixup::default();
    rf.entry_points = Some(EntryPoints::Named(vec!["pillow-cli".into()]));
    rf.visibility = Some(vec!["//apps/...".into()]);
    rf.labels = vec!["security-sensitive".into()];
    rf.runtime_env.insert("A".to_string(), "1".to_string());
    rf.overlay = Some("overlay".into());
    let mut overlays: StrMap<OverlayFiles> = StrMap::new();
    overlays.insert(
        "pillow".to_string(),
        Ok(vec![("PIL/x.py".to_string(), "fixups/pillow/overlay/PIL/x.py".to_string())]),
    );
    let input = fixup_setup(rf, pillow_wheels(), overlays).expect("ok");
    let pillow = input.packages.iter().find(|p| p.name == "pillow").unwrap();
    assert_eq!(pillow.entry_points, vec!["pillow-cli".to_string()]);
    assert_eq!(pillow.visibility, Some(vec!["//apps/...".to_string()]));
    assert_eq!(pillow.labels, vec!["security-sensitive".to_string()]);
    assert_eq!(pillow.runtime_env.get("A"), Some(&"1".to_string()));
    assert_eq!(pillow.overlay.as_ref().unwrap().files.len(), 1);
    let olefile = input.packages.iter().find(|p| p.name == "olefile").unwrap();
    assert!(olefile.entry_points.is_empty());
    assert!(olefile.visibility.is_none());
}

#[test]
fn overlay_discovery_error_is_reported() {
    let mut rf = ResolvedFixup::default();
    rf.overlay = Some("overlay".into());
    let mut overlays: StrMap<OverlayFiles> = StrMap::new();
    overlays.insert("pillow".to_string(), Err("overlay directory is empty".to_string()));
    let err = fixup_setup(rf, pillow_wheels(), overlays).expect_err("overlay");
    assert_eq!(err.to_string(), "overlay directory is empty");
}

#[test]
fn dep_ops_replace_omit_extra() {
    let mut rf = ResolvedFixup::default();
    rf.replace_deps.insert("numpy".to_string(), "//third-party/numpy:numpy".to_string());
    rf.omit_deps = vec!["six".into()];
    rf.extra_deps = vec![":local".into()];
    let mut deps = vec!["numpy@1.0".to_string(), "six@1.16".to_string(), "idna@3".to_string()];
    apply_dep_ops(&mut deps, &rf);
    assert_eq!(
        deps,
        vec![
            "__BUCK_TARGET__//third-party/numpy:numpy".to_string(),
            "idna@3".to_string(),
            "__BUCK_TARGET__:local".to_string(),
        ]
    );
    assert_eq!(
        format_cell_deps(&deps),
        vec!["//third-party/numpy:numpy".to_string(), ":idna".to_string(), ":local".to_string()]
    );
}

#[test]
fn format_cell_deps_sorts_and_dedups() {
    let raw = vec!["b@1".to_string(), "a@2".to_string(), "b@3".to_string()];
    assert_eq!(format_cell_deps(&raw), vec![":a".to_string(), ":b".to_string()]);
}

#[test]
fn exclude_wheels_uses_glob_patterns() {
    let ws = vec![wheel("x-1-cp312-cp312-win_amd64.whl", "sha256:1"), wheel("x-1-py3-none-any.whl", "sha256:2")];
    let kept = apply_exclude_wheels(&ws, &vec!["*win*".to_string()]);
    assert_eq!(kept.len(), 1);
    assert_eq!(kept[0].filename, "x-1-py3-none-any.whl");
    let kept = apply_exclude_wheels(&ws, &vec!["[".to_string()]);
    assert_eq!(kept.len(), 2);
}

#[test]
fn emit_tree_gives_per_cell_deps_from_markers() {
    let t = tree(vec![PythonVersion(3, 11), PythonVersion(3, 12)]);
    let c = config(&t);
    let mut rich = registry_pkg("rich", "13.0", vec![], vec![wheel("rich-13.0-py3-none-any.whl", "sha256:rr")], None);
    rich.dependencies = vec![DepEdge {
        name: "typing-extensions".into(),
        extra: vec![],
        marker: Some("python_version < '3.12'".into()),
    }];
    let lock = lockfile(vec![
        app_pkg(vec!["rich"]),
        rich,
        registry_pkg(
            "typing-extensions",
            "4.0",
            vec![],
            vec![wheel("typing_extensions-4.0-py3-none-any.whl", "sha256:tt")],
            None,
        ),
    ]);
    let input = emit_tree(&c, &t, &lock, None, &no_fixups(), &no_overlays()).expect("succeeds");
    let rich = input.packages.iter().find(|p| p.name == "rich").expect("rich emitted");
    match &rich.deps {
        EmitDeps::PerCell(m) => {
            assert_eq!(m.get("py311-linux-x86_64-gnu").unwrap(), &vec![":typing-extensions".to_string()]);
            assert_eq!(m.get("py312-linux-x86_64-gnu").unwrap(), &Vec::<String>::new());
        }
        EmitDeps::Uniform(_) => panic!("expected PerCell"),
    }
}

#[test]
fn emit_tree_collapses_uniform_deps_and_keeps_one_wheel_per_cell() {
    let t = tree(vec![PythonVersion(3, 11), PythonVersion(3, 12)]);
    let c = config(&t);
    let lock = lockfile(vec![
        app_pkg(vec!["certifi"]),
        registry_pkg(
            "certifi",
            "2025.4.26",
            vec![],
            vec![wheel("certifi-2025.4.26-py3-none-any.whl", "sha256:abc")],
            None,
        ),
    ]);
    let input = emit_tree(&c, &t, &lock, None, &no_fixups(), &no_overlays()).expect("succeeds");
    assert_eq!(input.packages.len(), 1);
    let certifi = &input.packages[0];
    assert_eq!(certifi.name, "certifi");
    assert_eq!(certifi.wheels.len(), 2);
    assert!(matches!(&certifi.deps, EmitDeps::Uniform(v) if v.is_empty()));
}

#[test]
fn emit_tree_leaves_out_the_first_party_package() {
    let t = tree(vec![PythonVersion(3, 12)]);
    let c = config(&t);
    let lock = lockfile(vec![
        app_pkg(vec!["certifi"]),
        registry_pkg(
            "certifi",
            "2025.4.26",
            vec![],
            vec![wheel("certifi-2025.4.26-py3-none-any.whl", "sha256:abc")],
            None,
        ),
    ]);
    let input = emit_tree(&c, &t, &lock, None, &no_fixups(), &no_overlays()).expect("succeeds");
    assert_eq!(input.tree, "default");
    assert_eq!(input.third_party_dir, "third-party/python");
    assert_eq!(input.configs, vec![ConfigName::new("3.12", "linux-x86_64-gnu")]);
    assert_eq!(input.packages.len(), 1);
    assert_eq!(input.packages[0].name, "certifi");
    assert_eq!(input.packages[0].wheels.get("py312-linux-x86_64-gnu").unwrap().hash, "sha256:abc");
}

#[test]
fn emit_tree_refuses_a_cyclic_lockfile() {
    let t = tree(vec![PythonVersion(3, 12)]);
    let c = config(&t);
    let lock = lockfile(vec![
        app_pkg(vec!["a"]),
        registry_pkg("a", "1.0", vec!["b"], vec![wheel("a-1.0-py3-none-any.whl", "sha256:aa")], None),
        registry_pkg("b", "1.0", vec!["a"], vec![wheel("b-1.0-py3-none-any.whl", "sha256:bb")], None),
    ]);
    let err = emit_tree(&c, &t, &lock, None, &no_fixups(), &no_overlays()).expect_err("cycle refused");
    assert!(matches!(err, EmitError::Lockfile(muntjac::error::LockfileError::Cycle(ref c)) if !c.is_empty()));
}

#[test]
fn cell_compat_tags_lists_each_cells_tags() {
    let t = tree(vec![PythonVersion(3, 12)]);
    let c = config(&t);
    let view = ResolvedView { configs: vec![cell("3.12", vec![]), cell("2", vec![])] };
    let tags = cell_compat_tags(&c, &view);
    assert_eq!(tags.len(), 2);
    assert_eq!(tags[0].len(), 54);
    assert_eq!(tags[1].len(), 0);
}

#[test]
fn emit_tree_per_cell_deps_cover_every_cell() {
    let t = tree(vec![PythonVersion(3, 11), PythonVersion(3, 12)]);
    let c = config(&t);
    let mut app = app_pkg(vec![]);
    app.dependencies = vec![DepEdge { name: "foo".into(), extra: vec![], marker: Some("python_version < '3.12'".into()) }];
    let lock = lockfile(vec![
        app,
        registry_pkg("foo", "1.0", vec!["bar"], vec![wheel("foo-1.0-py3-none-any.whl", "sha256:ff")], None),
        registry_pkg("bar", "1.0", vec![], vec![wheel("bar-1.0-py3-none-any.whl", "sha256:bb")], None),
    ]);
    let input = emit_tree(&c, &t, &lock, None, &no_fixups(), &no_overlays()).expect("succeeds");
    let foo = input.packages.iter().find(|p| p.name == "foo").expect("foo emitted");
    assert_eq!(foo.wheels.len(), 1);
    match &foo.deps {
        EmitDeps::PerCell(m) => {
            assert_eq!(m.len(), 2);
            assert_eq!(m.get("py311-linux-x86_64-gnu").unwrap(), &vec![":bar".to_string()]);
            assert_eq!(m.get("py312-linux-x86_64-gnu").unwrap(), &Vec::<String>::new());
        }
        EmitDeps::Uniform(_) => panic!("expected PerCell"),
    }
}

#[test]
fn emit_tree_is_deterministic() {
    let t = tree(vec![PythonVersion(3, 11), PythonVersion(3, 12)]);
    let c = config(&t);
    let lock = || {
        lockfile(vec![
            app_pkg(vec!["certifi"]),
            registry_pkg(
                "certifi",
                "2025.4.26",
                vec![],
                vec![wheel("certifi-2025.4.26-py3-none-any.whl", "sha256:abc")],
                None,
            ),
        ])
    };
    let a = emit_tree(&c, &t, &lock(), None, &no_fixups(), &no_overlays()).expect("succeeds");
    let b = emit_tree(&c, &t, &lock(), None, &no_fixups(), &no_overlays()).expect("succeeds");
    assert_eq!(format!("{a:?}"), format!("{b:?}"));
}
