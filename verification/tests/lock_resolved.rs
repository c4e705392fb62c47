use muntjac::config::{BuckConfig, Config, FixupsConfig, LockfileConfig, Platform, PythonVersion, Tree};
use muntjac::lock::graph::build;
use muntjac::lock::resolved::{project, ResolvedKind, SourceInfo};
use muntjac::lock::types::{DepEdge, FirstPartyKind, Lockfile, Package, Source};
use muntjac::strmap::StrMap;

fn package(name: &str, version: &str, source: Source, deps: Vec<DepEdge>) -> Package {
    Package { name: name.into(), version: version.into(), source, dependencies: deps, sdist: None, wheels: vec![], metadata: None }
}

fn dep(name: &str, marker: Option<&str>) -> DepEdge {
    DepEdge { name: name.into(), extra: vec![], marker: marker.map(|m| m.to_string()) }
}

fn fixture_lock() -> Lockfile {
    Lockfile {
        version: 1,
        revision: 3,
        requires_python: ">=3.12".into(),
        packages: vec![
            package("app", "0.1", Source::FirstParty { kind: FirstPartyKind::Virtual, path: ".".into() }, vec![dep("numpy", None)]),
            package("numpy", "2.4.6", Source::Registry { url: "https://pypi.org/simple".into() }, vec![]),
        ],
    }
}

fn linux() -> Platform {
    Platform { target: "x86_64-unknown-linux-gnu".into(), manylinux: Some("2_17".into()), musllinux: None, macos_min: None }
}

fn fixture_config(pythons: Vec<PythonVersion>) -> (Config, Tree) {
    let mut platforms = StrMap::new();
    platforms.insert("linux-x86_64-gnu".to_string(), linux());
    let tree = Tree {
        name: "default".into(),
        manifest_path: "pyproject.toml".into(),
        third_party_dir: ".".into(),
        python_versions: pythons,
    };
    let config = Config {
        trees: vec![tree.clone()],
        platforms,
        fixups: FixupsConfig::default_config(),
        buck: BuckConfig::default_config(),
        lockfile: LockfileConfig::default_config(),
    };
    (config, tree)
}

#[test]
fn project_produces_one_config_per_combination() {
    let lock = fixture_lock();
    let g = build(&lock).expect("build");
    let (cfg, tree) = fixture_config(vec![PythonVersion(3, 12)]);
    let view = project(&g, &cfg, &tree);
    assert_eq!(view.configs.len(), 1);
    let cfg0 = &view.configs[0];
    assert_eq!(cfg0.platform, "linux-x86_64-gnu");
    assert_eq!(cfg0.python_version, "3.12");
    assert_eq!(cfg0.packages.len(), 2);
    assert_eq!(cfg0.packages[0].name, "app");
    assert!(matches!(cfg0.packages[0].kind, ResolvedKind::FirstParty));
    assert_eq!(cfg0.packages[1].name, "numpy");
    assert!(matches!(cfg0.packages[1].kind, ResolvedKind::Registry));
}

#[test]
fn project_is_deterministic() {
    let lock = fixture_lock();
    let g = build(&lock).expect("build");
    let (cfg, tree) = fixture_config(vec![PythonVersion(3, 12)]);
    let v1 = format!("{:?}", project(&g, &cfg, &tree));
    let v2 = format!("{:?}", project(&g, &cfg, &tree));
    assert_eq!(v1, v2);
}

#[test]
fn project_fills_deps_and_source_info() {
    let lock = fixture_lock();
    let g = build(&lock).expect("build");
    let (cfg, tree) = fixture_config(vec![PythonVersion(3, 12)]);
    let view = project(&g, &cfg, &tree);
    let app = &view.configs[0].packages[0];
    assert_eq!(app.deps, vec!["numpy@2.4.6".to_string()]);
    match &app.source_info {
        SourceInfo::FirstParty { first_party_kind, first_party_path } => {
            assert_eq!(first_party_kind, "virtual");
            assert_eq!(first_party_path, ".");
        }
        other => panic!("unexpected {other:?}"),
    }
    match &view.configs[0].packages[1].source_info {
        SourceInfo::Registry { registry } => assert_eq!(registry, "https://pypi.org/simple"),
        other => panic!("unexpected {other:?}"),
    }
}

#[test]
fn project_sorts_cells_by_text_and_packages_by_kind_then_name() {
    let mut lock = fixture_lock();
    lock.packages.push(package(
        "zlib-ng",
        "1.0",
        Source::Git { url: "https://git.example/z".into(), rev: "abc".into(), subdirectory: Some("py".into()) },
        vec![],
    ));
    lock.packages.push(package("attrs", "24.1", Source::Registry { url: "https://pypi.org/simple".into() }, vec![]));
    lock.packages[0].dependencies.push(dep("zlib-ng", None));
    lock.packages[0].dependencies.push(dep("attrs", Some("python_version < '3.11'")));
    lock.packages[0].dependencies.push(dep("numpy", None));
    let g = build(&lock).expect("build");
    let mut platforms = StrMap::new();
    platforms.insert("mac".to_string(), Platform {
        target: "aarch64-apple-darwin".into(),
        manylinux: None,
        musllinux: None,
        macos_min: Some("11.0".into()),
    });
    platforms.insert("linux".to_string(), linux());
    let (mut cfg, mut tree) = fixture_config(vec![PythonVersion(3, 9), PythonVersion(3, 10)]);
    cfg.platforms = platforms;
    tree.python_versions = vec![PythonVersion(3, 9), PythonVersion(3, 10)];
    let view = project(&g, &cfg, &tree);
    let keys: Vec<(String, String)> = view.configs.iter().map(|c| (c.platform.clone(), c.python_version.clone())).collect();
    assert_eq!(
        keys,
        vec![
            ("linux".to_string(), "3.10".to_string()),
            ("linux".to_string(), "3.9".to_string()),
            ("mac".to_string(), "3.10".to_string()),
            ("mac".to_string(), "3.9".to_string()),
        ]
    );
    let names: Vec<&str> = view.configs[0].packages.iter().map(|p| p.name.as_str()).collect();
    assert_eq!(names, vec!["app", "attrs", "numpy", "zlib-ng"]);
    assert_eq!(
        view.configs[0].packages[0].deps,
        vec!["attrs@24.1".to_string(), "numpy@2.4.6".to_string(), "zlib-ng@1.0".to_string()]
    );
    match &view.configs[0].packages[3].source_info {
        SourceInfo::Git { git, rev, subdirectory } => {
            assert_eq!((git.as_str(), rev.as_str(), subdirectory.as_deref()), ("https://git.example/z", "abc", Some("py")));
        }
        other => panic!("unexpected {other:?}"),
    }
}
