use muntjac::error::LockfileError;
use muntjac::error::{CacheError, ConfigError};

#[test]
fn cache_root_resolve_error_message() {
    let e = CacheError::CacheRootResolve("no XDG_CACHE_HOME or HOME".into());
    assert_eq!(
        e.to_string(),
        "could not resolve cache root: no XDG_CACHE_HOME or HOME"
    );
}

#[test]
fn registry_path_not_absolute_message_is_exact() {
    let e = ConfigError::RegistryPathNotAbsolute {
        path: "./registry".into(),
    };
    assert_eq!(
        e.to_string(),
        "registry path must be absolute (got `./registry`); use a full file:// URL or set registry to a path relative to muntjac.toml"
    );
}

#[test]
fn duplicate_tree_dir_message_is_exact() {
    let e = ConfigError::DuplicateTreeDir {
        dir: "tp/shared".into(),
        trees: vec!["a".into(), "b".into()],
    };
    assert_eq!(
        e.to_string(),
        "trees [\"a\", \"b\"] share third_party_dir `tp/shared`; each tree needs a distinct directory"
    );
}

#[test]
fn tree_dir_is_cfg_dir_message_is_exact() {
    let e = ConfigError::TreeDirIsCfgDir {
        tree: "a".into(),
        dir: "tp".into(),
    };
    assert_eq!(
        e.to_string(),
        "tree `a`'s third_party_dir `tp` collides with the shared cfg_dir; move the tree under a subdirectory or set [buck] cfg_dir explicitly"
    );
}

#[test]
fn cfg_dir_not_derivable_message_is_exact() {
    let e = ConfigError::CfgDirNotDerivable;
    assert_eq!(
        e.to_string(),
        "cannot derive a shared cfg_dir: trees have no common parent directory; set [buck] cfg_dir explicitly"
    );
}

#[test]
fn create_dir_message_names_path_and_cause() {
    let e = CacheError::CreateDir {
        path: "/c/x".into(),
        source: "denied".into(),
    };
    assert_eq!(e.to_string(), "could not create cache directory /c/x: denied");
}

#[test]
fn bad_registry_message_lists_forms() {
    let e = ConfigError::BadRegistry("zz".into());
    assert_eq!(
        e.to_string(),
        "invalid registry `zz`: expected \"none\", \"file://<path>\", or \"github.com/<owner>/<repo>\""
    );
}

#[test]
fn lockfile_error_messages_include_context() {
    let err = LockfileError::UnsupportedVersion(2);
    assert_eq!(err.to_string(), "unsupported uv.lock version `2`; muntjac supports version = 1");

    let err = LockfileError::UnresolvedDep { from_pkg: "requests-2.34.2".into(), dep: "ghost".into() };
    assert!(err.to_string().contains("requests-2.34.2"));
    assert!(err.to_string().contains("ghost"));

    let err = LockfileError::DuplicatePackageName { name: "numpy".into(), versions: vec!["1.2.0".into(), "2.0.0".into()] };
    assert!(err.to_string().contains("numpy"));
}
