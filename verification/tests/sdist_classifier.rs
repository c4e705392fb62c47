use muntjac::sdist::classifier::{walk_step, WalkAction, WALK_DEPTH_LIMIT};
use muntjac::sdist::classifier::{
    after_pyproject, after_setup_py, classify, is_excluded, match_backend, native_hit_for_file,
    AllowlistedBackend, Classification, ClassifyError, ClassifyStep, NativeReason, NativeSourceHit,
};

fn pyproject(backend: &str) -> String {
    format!("[build-system]\nrequires = [\"x\"]\nbuild-backend = \"{backend}\"\n\n[project]\nname = \"demo\"\n")
}

fn classify_tree(backend: &str, setup_py: Option<&str>, files: &[&str]) -> Classification {
    let text = pyproject(backend);
    let hit = files
        .iter()
        .find_map(|f| native_hit_for_file(f.rsplit('/').next().unwrap(), f.to_string()));
    classify("sdist", true, Some(&text), setup_py, hit).unwrap()
}

#[test]
fn flit_core_pure() {
    let result = classify_tree("flit_core.buildapi", None, &["demo/__init__.py"]);
    assert_eq!(
        result,
        Classification::PurePython {
            backend: AllowlistedBackend::FlitCore
        }
    );
}

#[test]
fn hatchling_pure() {
    let result = classify_tree("hatchling.build", None, &["src/demo/__init__.py"]);
    assert_eq!(
        result,
        Classification::PurePython {
            backend: AllowlistedBackend::Hatchling
        }
    );
}

#[test]
fn setuptools_pure() {
    let result = classify_tree(
        "setuptools.build_meta",
        Some("from setuptools import setup\nsetup(name='demo')\n"),
        &["demo/__init__.py"],
    );
    assert_eq!(
        result,
        Classification::PurePython {
            backend: AllowlistedBackend::Setuptools
        }
    );
}

#[test]
fn poetry_core_pure() {
    let result = classify_tree("poetry.core.masonry.api", None, &[]);
    assert_eq!(
        result,
        Classification::PurePython {
            backend: AllowlistedBackend::PoetryCore
        }
    );
}

#[test]
fn pdm_backend_pure() {
    let result = classify_tree("pdm.backend", None, &[]);
    assert_eq!(
        result,
        Classification::PurePython {
            backend: AllowlistedBackend::PdmBackend
        }
    );
}

#[test]
fn missing_pyproject_is_native() {
    let result = classify("sdist", true, None, None, None).unwrap();
    assert_eq!(
        result,
        Classification::Native {
            reason: NativeReason::MissingPyprojectToml
        }
    );
}

#[test]
fn unknown_backend_is_native() {
    let result = classify_tree("scikit_build_core.build", None, &[]);
    match result {
        Classification::Native {
            reason: NativeReason::UnknownBackend { build_backend },
        } => assert_eq!(build_backend, "scikit_build_core.build"),
        other => panic!("expected UnknownBackend, got {other:?}"),
    }
}

#[test]
fn setuptools_ext_modules_is_native() {
    let result = classify_tree(
        "setuptools.build_meta",
        Some("from setuptools import setup, Extension\nsetup(ext_modules=[Extension('m', ['m.c'])])\n"),
        &[],
    );
    assert_eq!(
        result,
        Classification::Native {
            reason: NativeReason::SetuptoolsWithExtModules
        }
    );
}

#[test]
fn cargo_toml_via_unknown_backend() {
    // maturin is not in the allowlist, so this fires UnknownBackend before
    // the adjacent-source walk runs.
    let result = classify_tree("maturin", None, &["Cargo.toml"]);
    match result {
        Classification::Native {
            reason: NativeReason::UnknownBackend { build_backend },
        } => assert_eq!(build_backend, "maturin"),
        other => panic!("expected UnknownBackend(maturin), got {other:?}"),
    }
}

#[test]
fn meson_build_is_native() {
    let result = classify_tree("hatchling.build", None, &["meson.build"]);
    match result {
        Classification::Native {
            reason:
                NativeReason::AdjacentNativeSource {
                    hit: NativeSourceHit::MesonBuild(_),
                },
        } => {}
        other => panic!("expected MesonBuild hit, got {other:?}"),
    }
}

#[test]
fn cmakelists_is_native() {
    let result = classify_tree("hatchling.build", None, &["CMakeLists.txt"]);
    match result {
        Classification::Native {
            reason:
                NativeReason::AdjacentNativeSource {
                    hit: NativeSourceHit::CMakeLists(_),
                },
        } => {}
        other => panic!("expected CMakeLists hit, got {other:?}"),
    }
}

#[test]
fn c_ext_is_native() {
    let result = classify_tree("flit_core.buildapi", None, &["src/fast.c"]);
    match result {
        Classification::Native {
            reason:
                NativeReason::AdjacentNativeSource {
                    hit: NativeSourceHit::CExt(p),
                },
        } => assert_eq!(p, "src/fast.c"),
        other => panic!("expected CExt hit, got {other:?}"),
    }
}

#[test]
fn cpp_ext_is_native() {
    let result = classify_tree("flit_core.buildapi", None, &["src/fast.cpp"]);
    match result {
        Classification::Native {
            reason:
                NativeReason::AdjacentNativeSource {
                    hit: NativeSourceHit::CppExt(_),
                },
        } => {}
        other => panic!("expected CppExt hit, got {other:?}"),
    }
}

#[test]
fn pyx_ext_is_native() {
    let result = classify_tree("flit_core.buildapi", None, &["src/fast.pyx"]);
    match result {
        Classification::Native {
            reason:
                NativeReason::AdjacentNativeSource {
                    hit: NativeSourceHit::PyxExt(_),
                },
        } => {}
        other => panic!("expected PyxExt hit, got {other:?}"),
    }
}

#[test]
fn excluded_dir_does_not_trigger_native() {
    assert!(is_excluded(".git"));
    assert!(is_excluded("__pycache__"));
    assert!(is_excluded(".venv"));
    assert!(is_excluded("node_modules"));
    assert!(is_excluded("demo.egg-info"));
    assert!(!is_excluded("src"));
}

#[test]
fn root_does_not_exist() {
    let err = classify("/nonexistent/dir/should/fail", false, None, None, None).unwrap_err();
    match err {
        ClassifyError::NotADir(p) => assert_eq!(p, "/nonexistent/dir/should/fail"),
        other => panic!("expected NotADir, got {other:?}"),
    }
}

#[test]
fn bad_pyproject_toml_is_an_error_naming_the_file() {
    let err = classify("sdist/", true, Some("[build-system"), None, None).unwrap_err();
    match err {
        ClassifyError::BadToml { path, .. } => assert_eq!(path, "sdist/pyproject.toml"),
        other => panic!("expected BadToml, got {other:?}"),
    }
}

#[test]
fn missing_backend_key_is_unknown_empty_backend() {
    let result = classify("sdist", true, Some("[project]\nname='x'\n"), None, None).unwrap();
    match result {
        Classification::Native {
            reason: NativeReason::UnknownBackend { build_backend },
        } => assert_eq!(build_backend, ""),
        other => panic!("expected UnknownBackend, got {other:?}"),
    }
}

#[test]
fn backend_allowlist_and_steps() {
    assert_eq!(match_backend("setuptools.build_meta:__legacy__"), Some(AllowlistedBackend::Setuptools));
    assert_eq!(match_backend("flit_core.api"), Some(AllowlistedBackend::FlitCore));
    assert_eq!(match_backend("flit_core"), None);
    assert!(matches!(
        after_pyproject("r", true, Some(&pyproject("setuptools.build_meta"))),
        ClassifyStep::ReadSetupPy(AllowlistedBackend::Setuptools)
    ));
    assert!(matches!(
        after_setup_py(AllowlistedBackend::Setuptools, None),
        ClassifyStep::WalkTree(AllowlistedBackend::Setuptools)
    ));
}

#[test]
fn file_extension_rules() {
    assert!(native_hit_for_file(".c", ".c".into()).is_none());
    assert!(native_hit_for_file("x.cc", "x.cc".into()).is_some());
    assert!(native_hit_for_file("x.cxx", "x.cxx".into()).is_some());
    assert!(native_hit_for_file("x.c.txt", "x.c.txt".into()).is_none());
    assert!(native_hit_for_file("cargo.toml", "cargo.toml".into()).is_none());
}

fn entries(items: &[(&str, bool)]) -> Vec<(String, bool)> {
    items.iter().map(|(n, d)| (n.to_string(), *d)).collect()
}

#[test]
fn walk_step_takes_the_first_native_file_by_name() {
    let es = entries(&[("zeta.pyx", false), ("src", true), ("alpha.c", false), ("README", false)]);
    match walk_step(1, "pkg", &es) {
        WalkAction::Hit(NativeSourceHit::CExt(p)) => assert_eq!(p, "pkg/alpha.c"),
        other => panic!("unexpected {other:?}"),
    }
    match walk_step(0, "", &entries(&[("Cargo.toml", false)])) {
        WalkAction::Hit(NativeSourceHit::CargoToml(p)) => assert_eq!(p, "Cargo.toml"),
        other => panic!("unexpected {other:?}"),
    }
}

#[test]
fn walk_step_descends_into_kept_directories_in_name_order() {
    let es = entries(&[
        ("zz", true),
        (".git", true),
        ("demo.egg-info", true),
        ("aa", true),
        ("setup.py", false),
        ("src", false),
    ]);
    match walk_step(0, "", &es) {
        WalkAction::Descend(ds) => assert_eq!(ds, vec!["aa".to_string(), "zz".to_string()]),
        other => panic!("unexpected {other:?}"),
    }
    match walk_step(WALK_DEPTH_LIMIT, "a/b/c/d", &es) {
        WalkAction::Descend(ds) => assert!(ds.is_empty()),
        other => panic!("unexpected {other:?}"),
    }
    assert!(matches!(walk_step(WALK_DEPTH_LIMIT + 1, "x", &es), WalkAction::Stop));
}
