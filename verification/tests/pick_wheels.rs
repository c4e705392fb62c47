use muntjac::cli::PickWheelsArgs;
use muntjac::config::{PythonVersion, Tree};
use muntjac::lock::resolved::{ResolvedConfig, ResolvedKind, ResolvedPackage, ResolvedView, SourceInfo};
use muntjac::lock::types::{Lockfile, Package, Source, Wheel};
use muntjac::pick_wheels::{build_tree_output, SelectionOutcome};
use muntjac::wheel::compat::CompatibleTags;
use muntjac::wheel::tag::{AbiTag, LinuxArch, PlatformTag, PythonTag, Tag};

fn wheel(filename: &str) -> Wheel {
    Wheel { url: format!("https://example.com/{filename}"), hash: "sha256:abc".into(), size: None, filename: filename.into() }
}

fn package(name: &str, version: &str, wheels: Vec<Wheel>) -> Package {
    Package {
        name: name.into(),
        version: version.into(),
        source: Source::Registry { url: "https://pypi.org/simple".into() },
        dependencies: vec![],
        sdist: None,
        wheels,
        metadata: None,
    }
}

fn resolved(name: &str, version: &str) -> ResolvedPackage {
    ResolvedPackage {
        name: name.into(),
        version: version.into(),
        kind: ResolvedKind::Registry,
        source_info: SourceInfo::Registry { registry: "https://pypi.org/simple".into() },
        deps: vec![],
    }
}

fn compat(minor: u8) -> CompatibleTags {
    CompatibleTags::from_ordered(vec![
        Tag {
            python: PythonTag::CPython(3, minor),
            abi: AbiTag::CPython(3, minor),
            plat: PlatformTag::ManyLinux { major: 2, minor: 17, arch: LinuxArch::X86_64 },
        },
        Tag { python: PythonTag::Py(3, None), abi: AbiTag::NoAbi, plat: PlatformTag::Any },
    ])
}

fn tree() -> Tree {
    Tree { name: "default".into(), manifest_path: "pyproject.toml".into(), third_party_dir: ".".into(), python_versions: vec![PythonVersion(3, 12)] }
}

fn fixture() -> (Lockfile, ResolvedView, Vec<CompatibleTags>) {
    let lock = Lockfile {
        version: 1,
        revision: 3,
        requires_python: ">=3.11".into(),
        packages: vec![
            package("zeta", "1.0", vec![wheel("zeta-1.0-py3-none-any.whl"), wheel("zeta-1.0-cp312-cp312-manylinux_2_17_x86_64.whl")]),
            package("alpha", "2.0", vec![wheel("alpha-2.0-cp39-cp39-win_amd64.whl")]),
            package("app", "0.1", vec![]),
        ],
    };
    let view = ResolvedView {
        configs: vec![
            ResolvedConfig {
                platform: "linux".into(),
                python_version: "3.12".into(),
                packages: vec![resolved("app", "0.1"), resolved("alpha", "2.0"), resolved("zeta", "1.0")],
            },
            ResolvedConfig {
                platform: "linux".into(),
                python_version: "3.11".into(),
                packages: vec![resolved("zeta", "1.0"), resolved("missing", "9.9")],
            },
        ],
    };
    (lock, view, vec![compat(12), compat(11)])
}

fn no_filters() -> PickWheelsArgs {
    PickWheelsArgs { tree: None, platform: None, python: None, package: None }
}

#[test]
fn pick_report_sorts_and_skips_packages_without_wheels() {
    let (lock, view, compat) = fixture();
    let out = build_tree_output(&tree(), &lock, &view, &compat, &no_filters());
    assert_eq!(out.schema_version, 1);
    assert_eq!(out.tree, "default");
    let keys: Vec<(&str, &str)> = out.selections.iter().map(|s| (s.package.as_str(), s.python_version.as_str())).collect();
    assert_eq!(keys, vec![("alpha", "3.12"), ("zeta", "3.11"), ("zeta", "3.12")]);
    match &out.selections[0].outcome {
        SelectionOutcome::NoWheel { wheels_considered, wheels } => {
            assert_eq!(*wheels_considered, 1);
            assert_eq!(wheels, &vec!["alpha-2.0-cp39-cp39-win_amd64.whl".to_string()]);
        }
        other => panic!("unexpected {other:?}"),
    }
    match &out.selections[2].outcome {
        SelectionOutcome::Picked { wheel, matched_tag, rank, wheels_considered } => {
            assert_eq!(wheel.filename, "zeta-1.0-cp312-cp312-manylinux_2_17_x86_64.whl");
            assert_eq!(wheel.url, "https://example.com/zeta-1.0-cp312-cp312-manylinux_2_17_x86_64.whl");
            assert_eq!(matched_tag, "cp312-cp312-manylinux_2_17_x86_64");
            assert_eq!((*rank, *wheels_considered), (0, 2));
        }
        other => panic!("unexpected {other:?}"),
    }
    match &out.selections[1].outcome {
        SelectionOutcome::Picked { wheel, rank, .. } => {
            assert_eq!(wheel.filename, "zeta-1.0-py3-none-any.whl");
            assert_eq!(*rank, 1);
        }
        other => panic!("unexpected {other:?}"),
    }
}

#[test]
fn pick_report_applies_filters() {
    let (lock, view, compat) = fixture();
    let args = PickWheelsArgs { tree: None, platform: Some("linux".into()), python: Some("3.11".into()), package: Some("zeta".into()) };
    let out = build_tree_output(&tree(), &lock, &view, &compat, &args);
    assert_eq!(out.selections.len(), 1);
    assert_eq!(out.selections[0].python_version, "3.11");
    let args = PickWheelsArgs { tree: None, platform: Some("mac".into()), python: None, package: None };
    assert!(build_tree_output(&tree(), &lock, &view, &compat, &args).selections.is_empty());
}

#[test]
fn pick_report_uses_last_lockfile_entry_of_a_release() {
    let (mut lock, view, compat) = fixture();
    lock.packages.push(package("alpha", "2.0", vec![wheel("alpha-2.0-py3-none-any.whl")]));
    let out = build_tree_output(&tree(), &lock, &view, &compat, &no_filters());
    match &out.selections[0].outcome {
        SelectionOutcome::Picked { wheel, .. } => assert_eq!(wheel.filename, "alpha-2.0-py3-none-any.whl"),
        other => panic!("unexpected {other:?}"),
    }
}
