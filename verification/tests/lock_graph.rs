use muntjac::lock::names::normalize_name;
use muntjac::error::LockfileError;
use muntjac::lock::graph::{build, detect_cycles, reachable_from, reachable_with_extras};
use muntjac::lock::parser::parse;
use muntjac::lock::types::{DepEdge, FirstPartyKind, Lockfile, Package, Source};

fn pkg(name: &str, version: &str, source: Source, deps: Vec<&str>) -> Package {
    Package {
        name: name.into(),
        version: version.into(),
        source,
        dependencies: deps
            .into_iter()
            .map(|n| DepEdge { name: n.into(), extra: vec![], marker: None })
            .collect(),
        sdist: None,
        wheels: vec![],
        metadata: None,
    }
}

fn registry() -> Source {
    Source::Registry { url: "https://pypi.org/simple".into() }
}

fn first_party() -> Source {
    Source::FirstParty { kind: FirstPartyKind::Virtual, path: ".".into() }
}

fn lock(packages: Vec<Package>) -> Lockfile {
    Lockfile { version: 1, revision: 3, requires_python: ">=3.12".into(), packages }
}

#[test]
fn builds_linear_chain() {
    let lock = lock(vec![
        pkg("a", "1.0", first_party(), vec!["b"]),
        pkg("b", "1.0", registry(), vec!["c"]),
        pkg("c", "1.0", registry(), vec![]),
    ]);
    let g = build(&lock).expect("build");
    assert_eq!(g.nodes.len(), 3);
    assert_eq!(g.roots.len(), 1);
    let a_id = *g.by_name.get("a").unwrap();
    let b_id = *g.by_name.get("b").unwrap();
    assert_eq!(g.nodes[a_id].edges_out, vec![b_id]);
}

#[test]
fn errors_on_duplicate_package_name() {
    let lock = lock(vec![pkg("numpy", "1.0", registry(), vec![]), pkg("numpy", "2.0", registry(), vec![])]);
    let err = build(&lock).expect_err("should fail");
    assert!(matches!(err, LockfileError::DuplicatePackageName { .. }));
}

#[test]
fn errors_on_unresolved_dep() {
    let lock = lock(vec![pkg("a", "1.0", first_party(), vec!["ghost"])]);
    let err = build(&lock).expect_err("should fail");
    match err {
        LockfileError::UnresolvedDep { from_pkg, dep } => {
            assert_eq!(from_pkg, "a");
            assert_eq!(dep, "ghost");
        }
        other => panic!("unexpected error: {other:?}"),
    }
}

#[test]
fn detects_self_loop() {
    let lock = lock(vec![pkg("a", "1.0", first_party(), vec!["a"])]);
    let g = build(&lock).expect("build");
    let err = detect_cycles(&g).expect_err("should fail");
    match err {
        LockfileError::Cycle(cycles) => {
            assert_eq!(cycles.len(), 1);
            assert_eq!(cycles[0], vec!["a@1.0"]);
        }
        other => panic!("unexpected: {other:?}"),
    }
}

#[test]
fn detects_three_cycle() {
    let lock = lock(vec![
        pkg("a", "1.0", first_party(), vec!["b"]),
        pkg("b", "1.0", registry(), vec!["c"]),
        pkg("c", "1.0", registry(), vec!["a"]),
    ]);
    let g = build(&lock).expect("build");
    let err = detect_cycles(&g).expect_err("should fail");
    let s = err.to_string();
    assert!(s.contains("a@1.0") && s.contains("b@1.0") && s.contains("c@1.0"));
    assert!(s.contains("dependency cycle(s) detected"));
}

#[test]
fn detect_cycles_finds_simple_cycle() {
    let lock = lock(vec![pkg("alpha", "1.0", first_party(), vec!["beta"]), pkg("beta", "1.0", registry(), vec!["alpha"])]);
    let g = build(&lock).expect("build");
    let err = detect_cycles(&g).expect_err("should fail");
    match err {
        LockfileError::Cycle(cycles) => {
            assert_eq!(cycles.len(), 1);
            assert_eq!(cycles[0], vec!["alpha@1.0", "beta@1.0"]);
        }
        other => panic!("unexpected: {other:?}"),
    }
}

#[test]
fn detect_cycles_handles_deep_linear_chain_without_stack_overflow() {
    const N: usize = 5000;
    let mut packages = Vec::with_capacity(N);
    for i in 0..N {
        let name = format!("pkg-{:05}", i);
        let next = format!("pkg-{:05}", i + 1);
        let deps = if i + 1 < N { vec![next.as_str()] } else { vec![] };
        let source = if i == 0 { first_party() } else { registry() };
        packages.push(pkg(&name, "1.0", source, deps));
    }
    let lockfile = Lockfile { version: 1, revision: 3, requires_python: ">=3.11".into(), packages };
    let graph = build(&lockfile).expect("graph builds");
    detect_cycles(&graph).expect("no cycles in a linear chain");
}

#[test]
fn passes_acyclic_diamond() {
    let lock = lock(vec![
        pkg("a", "1.0", first_party(), vec!["b", "c"]),
        pkg("b", "1.0", registry(), vec!["d"]),
        pkg("c", "1.0", registry(), vec!["d"]),
        pkg("d", "1.0", registry(), vec![]),
    ]);
    let g = build(&lock).expect("build");
    detect_cycles(&g).expect("acyclic");
}

#[test]
fn reports_two_disjoint_cycles_sorted() {
    let lock = lock(vec![
        pkg("z", "1", registry(), vec!["y"]),
        pkg("y", "1", registry(), vec!["z"]),
        pkg("b", "1", registry(), vec!["a"]),
        pkg("a", "1", registry(), vec!["b"]),
    ]);
    let g = build(&lock).expect("build");
    match detect_cycles(&g).expect_err("cycles") {
        LockfileError::Cycle(cycles) => {
            assert_eq!(cycles, vec![vec!["a@1", "b@1"], vec!["y@1", "z@1"]]);
        }
        other => panic!("unexpected: {other:?}"),
    }
}

const MINIMAL: &str = r#"
version = 1
revision = 3
requires-python = ">=3.12"

[[package]]
name = "certifi"
version = "2026.5.20"
source = { registry = "https://pypi.org/simple" }
"#;

#[test]
fn parses_minimal_lockfile() {
    let lock = parse(MINIMAL).expect("parse");
    assert_eq!(lock.version, 1);
    assert_eq!(lock.revision, 3);
    assert_eq!(lock.requires_python, ">=3.12");
    assert_eq!(lock.packages.len(), 1);
    let pkg = &lock.packages[0];
    assert_eq!(pkg.name, "certifi");
    assert_eq!(pkg.version, "2026.5.20");
    assert!(matches!(pkg.source, Source::Registry { .. }));
    assert!(pkg.dependencies.is_empty());
    assert!(pkg.sdist.is_none());
    assert!(pkg.wheels.is_empty());
}

#[test]
fn rejects_unsupported_version() {
    let bad = r#"
version = 99
revision = 1
requires-python = ">=3.12"
"#;
    let err = parse(bad).expect_err("should fail");
    assert!(matches!(err, LockfileError::UnsupportedVersion(99)));
}

#[test]
fn parses_first_party_virtual_source() {
    let toml_str = r#"
version = 1
revision = 3
requires-python = ">=3.12"

[[package]]
name = "myapp"
version = "0.1.0"
source = { virtual = "." }
"#;
    let lock = parse(toml_str).expect("parse");
    let pkg = &lock.packages[0];
    assert!(matches!(pkg.source, Source::FirstParty { kind: FirstPartyKind::Virtual, .. }));
}

#[test]
fn parses_git_source() {
    let toml_str = r#"
version = 1
revision = 3
requires-python = ">=3.12"

[[package]]
name = "foo"
version = "0.1.0"
source = { git = "https://github.com/foo/bar", rev = "abc123" }
"#;
    let lock = parse(toml_str).expect("parse");
    assert!(matches!(lock.packages[0].source, Source::Git { .. }));
}

#[test]
fn rejects_ambiguous_source() {
    let toml_str = r#"
version = 1
revision = 3
requires-python = ">=3.12"

[[package]]
name = "foo"
version = "0.1.0"
source = { registry = "https://pypi.org/simple", git = "https://github.com/foo/bar" }
"#;
    let err = parse(toml_str).expect_err("should fail");
    assert!(matches!(err, LockfileError::AmbiguousSource { .. }));
}

#[test]
fn first_party_kind_round_trips() {
    let k = FirstPartyKind::Editable;
    assert_eq!(k, FirstPartyKind::Editable);
    assert_ne!(k, FirstPartyKind::Virtual);
}

#[test]
fn package_constructs() {
    let pkg = pkg("numpy", "2.4.6", registry(), vec![]);
    assert_eq!(pkg.name, "numpy");
    assert_eq!(pkg.version, "2.4.6");
}

fn linux_x86_platform() -> muntjac::config::Platform {
    muntjac::config::Platform {
        target: "x86_64-unknown-linux-gnu".into(),
        manylinux: Some("2_17".into()),
        musllinux: None,
        macos_min: None,
    }
}

fn edge(name: &str, extra: Vec<&str>, marker: Option<&str>) -> DepEdge {
    DepEdge { name: name.into(), extra: extra.into_iter().map(|s| s.to_string()).collect(), marker: marker.map(|m| m.to_string()) }
}

#[test]
fn reachable_drops_marker_false_edges() {
    let mut lock = lock(vec![pkg("app", "0.1", first_party(), vec![]), pkg("typing-extensions", "4.0", registry(), vec![])]);
    lock.requires_python = ">=3.10".into();
    lock.packages[0].dependencies.push(edge("typing-extensions", vec![], Some("python_version < '3.11'")));
    let g = build(&lock).expect("build");

    let env_310 = muntjac::platform::marker_env(&linux_x86_platform(), muntjac::config::PythonVersion(3, 10));
    let r = reachable_from(&g, &g.roots, &env_310, &vec![]);
    assert_eq!(r.len(), 2);

    let env_312 = muntjac::platform::marker_env(&linux_x86_platform(), muntjac::config::PythonVersion(3, 12));
    let r = reachable_from(&g, &g.roots, &env_312, &vec![]);
    assert_eq!(r.len(), 1);
}

#[test]
fn reachable_respects_group_gating() {
    let mut lock = lock(vec![pkg("app", "0.1", first_party(), vec![]), pkg("pytest", "8.0", registry(), vec![])]);
    lock.packages[0].dependencies.push(edge("pytest", vec![], Some("extra == 'test'")));
    let g = build(&lock).expect("build");
    let env = muntjac::platform::marker_env(&linux_x86_platform(), muntjac::config::PythonVersion(3, 12));

    let r = reachable_from(&g, &g.roots, &env, &vec![]);
    assert_eq!(r.len(), 1);

    let r = reachable_from(&g, &g.roots, &env, &vec!["test".to_string()]);
    assert_eq!(r.len(), 2);
}

#[test]
fn reachable_worked_example_extras_flow() {
    // app -> requests[security]; app -> pytest (extra == 'test');
    // requests -> certifi; requests -> chardet (extra == 'security'); pytest -> iniconfig
    let mut lock = lock(vec![
        pkg("app", "0.1", first_party(), vec![]),
        pkg("requests", "2.32", registry(), vec!["certifi"]),
        pkg("pytest", "8.0", registry(), vec!["iniconfig"]),
        pkg("certifi", "1.0", registry(), vec![]),
        pkg("chardet", "5.0", registry(), vec![]),
        pkg("iniconfig", "2.0", registry(), vec![]),
    ]);
    lock.packages[0].dependencies.push(edge("requests", vec!["security"], None));
    lock.packages[0].dependencies.push(edge("pytest", vec![], Some("extra == 'test'")));
    lock.packages[1].dependencies.push(edge("chardet", vec![], Some("extra == 'security'")));
    let g = build(&lock).expect("build");
    let env = muntjac::platform::marker_env(&linux_x86_platform(), muntjac::config::PythonVersion(3, 12));
    let act = reachable_with_extras(&g, &g.roots, &env, &vec!["test".to_string()]);
    assert!(act.iter().all(|a| a.is_some()));
    assert_eq!(act[0].as_ref().unwrap(), &vec!["test".to_string()]);
    assert_eq!(act[1].as_ref().unwrap(), &vec!["security".to_string(), "test".to_string()]);
    assert_eq!(act[2].as_ref().unwrap(), &vec!["test".to_string()]);
    // Without the group, pytest and iniconfig stay out; the app gains no `security` of its own.
    let act = reachable_with_extras(&g, &g.roots, &env, &vec![]);
    assert_eq!(act[0].as_ref().unwrap(), &Vec::<String>::new());
    assert!(act[2].is_none() && act[5].is_none());
    assert!(act[4].is_some());
}

#[test]
fn reachable_normalizes_and_sorts_extras() {
    let mut lock = lock(vec![pkg("app", "0.1", first_party(), vec![]), pkg("lib", "1.0", registry(), vec![])]);
    lock.packages[0].dependencies.push(edge("lib", vec!["Zeta_X", "alpha", "not valid!"], None));
    let g = build(&lock).expect("build");
    let env = muntjac::platform::marker_env(&linux_x86_platform(), muntjac::config::PythonVersion(3, 12));
    let act = reachable_with_extras(&g, &g.roots, &env, &vec!["Dev".to_string()]);
    assert_eq!(act[1].as_ref().unwrap(), &vec!["alpha".to_string(), "dev".to_string(), "zeta-x".to_string()]);
}

#[test]
fn reachable_follows_cycle_once_per_new_extra() {
    let mut lock = lock(vec![
        pkg("app", "0.1", first_party(), vec!["a"]),
        pkg("a", "1.0", registry(), vec![]),
        pkg("b", "1.0", registry(), vec![]),
    ]);
    lock.packages[1].dependencies.push(edge("b", vec!["x"], None));
    lock.packages[2].dependencies.push(edge("a", vec!["y"], Some("extra == 'x'")));
    let g = build(&lock).expect("build");
    let env = muntjac::platform::marker_env(&linux_x86_platform(), muntjac::config::PythonVersion(3, 12));
    let act = reachable_with_extras(&g, &g.roots, &env, &vec![]);
    assert_eq!(act[1].as_ref().unwrap(), &vec!["y".to_string()]);
    assert_eq!(act[2].as_ref().unwrap(), &vec!["x".to_string()]);
    assert_eq!(reachable_from(&g, &g.roots, &env, &vec![]), vec![0, 1, 2]);
}

#[test]
fn names_the_field_of_the_wrong_type() {
    let bad = r#"
version = 1
revision = 3
requires-python = ">=3.12"

[[package]]
name = 7
version = "1.0"
source = { registry = "https://pypi.org/simple" }
"#;
    let err = parse(bad).expect_err("should fail");
    assert!(matches!(err, LockfileError::Parse(ref m) if m == "invalid type for `name`"));
}

#[test]
fn normalize_name_follows_pep_503() {
    assert_eq!(normalize_name("Foo_Bar.baz").unwrap(), "foo-bar-baz");
    assert_eq!(normalize_name("typing-extensions").unwrap(), "typing-extensions");
    let err = normalize_name("-bad").unwrap_err();
    assert!(err.contains("Not a valid package or extra name"), "{err}");
}
