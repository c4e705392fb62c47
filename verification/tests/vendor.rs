use muntjac::cache::{cache_root_from, fixup_cache_path_for_sha};
use muntjac::error::CacheError;
use muntjac::lock::types::{FirstPartyKind, Lockfile, Package, Sdist, Source, Wheel};
use muntjac::sdist::classifier::{AllowlistedBackend, NativeReason, NativeSourceHit};
use muntjac::sdist::manifest::ManifestClassification;
use muntjac::vendor::{
    backend_str, is_sdist_only, manifest_entry_for, registry_wheels, render_native_reason, sdists_to_prebake,
    stale_wheels, BakeOutcome,
};

fn package(name: &str, source: Source, wheels: Vec<Wheel>, sdist: Option<Sdist>) -> Package {
    Package {
        name: name.into(),
        version: "1.0".into(),
        source,
        dependencies: vec![],
        sdist,
        wheels,
        metadata: None,
    }
}

fn registry() -> Source {
    Source::Registry { url: "https://pypi.org/simple".into() }
}

fn sdist(hash: &str) -> Option<Sdist> {
    Some(Sdist { url: "https://example.com/x.tar.gz".into(), hash: hash.into(), size: None })
}

fn wheel(filename: &str) -> Wheel {
    Wheel { url: format!("https://example.com/{filename}"), hash: "sha256:ab".into(), size: None, filename: filename.into() }
}

fn lockfile() -> Lockfile {
    Lockfile {
        version: 1,
        revision: 3,
        requires_python: ">=3.12".into(),
        packages: vec![
            package("app", Source::FirstParty { kind: FirstPartyKind::Virtual, path: ".".into() }, vec![], None),
            package("six", registry(), vec![wheel("six-1.0-py3-none-any.whl")], sdist("sha256:11")),
            package("My.Pkg", registry(), vec![], sdist("sha256:22")),
            package("gitdep", Source::Git { url: "https://g".into(), rev: "r".into(), subdirectory: None }, vec![], sdist("sha256:33")),
        ],
    }
}

#[test]
fn only_registry_sdist_only_packages_are_prebaked() {
    let l = lockfile();
    assert!(!is_sdist_only(&l.packages[0]));
    assert!(!is_sdist_only(&l.packages[1]));
    assert!(is_sdist_only(&l.packages[2]));
    assert!(!is_sdist_only(&l.packages[3]));
    let bakes = sdists_to_prebake(&l);
    assert_eq!(bakes.len(), 1);
    assert_eq!(bakes[0].package, "My.Pkg");
    assert_eq!(bakes[0].sha256, "22");
    assert_eq!(bakes[0].wheel_filename, "my_pkg-1.0-py3-none-any.whl");
}

#[test]
fn registry_wheels_are_all_fetched() {
    let fetches = registry_wheels(&lockfile());
    assert_eq!(fetches.len(), 1);
    assert_eq!(fetches[0].filename, "six-1.0-py3-none-any.whl");
    assert_eq!(fetches[0].sha256, "ab");
    assert_eq!(fetches[0].package, "six");
}

#[test]
fn native_reasons_render() {
    assert_eq!(
        render_native_reason(&NativeReason::UnknownBackend { build_backend: "maturin".into() }),
        "UnknownBackend:maturin"
    );
    assert_eq!(render_native_reason(&NativeReason::MissingPyprojectToml), "MissingPyprojectToml");
    assert_eq!(
        render_native_reason(&NativeReason::AdjacentNativeSource { hit: NativeSourceHit::CExt("src/a.c".into()) }),
        "AdjacentNativeSource:CExt@src/a.c"
    );
    assert_eq!(backend_str(AllowlistedBackend::PdmBackend), "pdm-backend");
}

#[test]
fn manifest_entries_record_outcomes() {
    let bake = &sdists_to_prebake(&lockfile())[0];
    let e = manifest_entry_for(
        bake,
        &BakeOutcome::Built {
            backend: AllowlistedBackend::FlitCore,
            wheel_filename: "my_pkg-1.0-py3-none-any.whl".into(),
            wheel_sha256: "cafe".into(),
        },
    );
    assert_eq!(e.sdist_sha256, "22");
    assert!(matches!(e.classification, ManifestClassification::PurePython { .. }));
    let e = manifest_entry_for(bake, &BakeOutcome::Native { reason: NativeReason::SetuptoolsWithExtModules });
    assert_eq!(e.classification, ManifestClassification::Native { reason: "SetuptoolsWithExtModules".into() });
}

#[test]
fn prune_picks_unexpected_wheels_sorted() {
    let listing = vec![
        "z-1.0-py3-none-any.whl".to_string(),
        "keep-1.0-py3-none-any.whl".to_string(),
        "notes.txt".to_string(),
        ".whl".to_string(),
        "a-1.0-py3-none-any.whl".to_string(),
    ];
    let expected = vec!["keep-1.0-py3-none-any.whl".to_string()];
    assert_eq!(
        stale_wheels(&listing, &expected),
        vec!["a-1.0-py3-none-any.whl".to_string(), "z-1.0-py3-none-any.whl".to_string()]
    );
}

#[test]
fn cache_root_precedence() {
    assert_eq!(cache_root_from(Some("/tmp/c"), Some("/home/u/.cache")).unwrap(), "/tmp/c");
    assert_eq!(cache_root_from(None, Some("/home/u/.cache")).unwrap(), "/home/u/.cache/muntjac");
    match cache_root_from(Some(""), None) {
        Err(CacheError::CacheRootResolve(m)) => assert_eq!(m, "MUNTJAC_CACHE_HOME is set but empty"),
        _ => panic!("expected an error"),
    }
    assert!(matches!(cache_root_from(None, None), Err(CacheError::CacheRootResolve(_))));
}

#[test]
fn fixup_cache_path_appends_sha_under_fixups_subdir() {
    assert_eq!(fixup_cache_path_for_sha("/tmp/cache", "abc123"), "/tmp/cache/fixups/abc123");
    assert_eq!(fixup_cache_path_for_sha("/tmp/cache/", "abc123"), "/tmp/cache/fixups/abc123");
}

#[test]
fn skip_existing_compares_sha256_of_existing_bytes() {
    let bytes = b"hello".to_vec();
    let digest = "2cf24dba5fb0a30e26e83b2ac5b9e29e1b161e5c1fa7425e73043362938b9824";
    assert!(muntjac::vendor::skip_existing(Some(&bytes), digest));
    assert!(muntjac::vendor::skip_existing(Some(&bytes), &format!("sha256:{digest}")));
    assert!(!muntjac::vendor::skip_existing(Some(&bytes), "sha256:00"));
    assert!(!muntjac::vendor::skip_existing(None, digest));
}

#[test]
fn verify_sha256_reports_mismatch() {
    let bytes = b"hello".to_vec();
    let digest = "2cf24dba5fb0a30e26e83b2ac5b9e29e1b161e5c1fa7425e73043362938b9824";
    assert!(muntjac::vendor::verify_sha256(&bytes, digest, "p", "1").is_ok());
    let err = muntjac::vendor::verify_sha256(&bytes, &format!("sha256:{digest}"), "p", "1").expect_err("prefix is not stripped");
    assert_eq!(
        err.to_string(),
        format!("sha256 mismatch for p 1: lockfile says `sha256:{digest}`, got `{digest}`")
    );
}

#[test]
fn wheel_sha_check_strips_prefix() {
    let bytes = b"hello".to_vec();
    let digest = "2cf24dba5fb0a30e26e83b2ac5b9e29e1b161e5c1fa7425e73043362938b9824";
    assert!(muntjac::vendor::check_wheel_sha256(&bytes, &format!("sha256:{digest}")).is_ok());
    let (expected, actual) = muntjac::vendor::check_wheel_sha256(&bytes, "sha256:beef").unwrap_err();
    assert_eq!((expected.as_str(), actual.as_str()), ("beef", digest));
}

#[test]
fn wheel_sha256_is_lowercase_hex_digest() {
    let h = muntjac::vendor::wheel_sha256(&b"abc".to_vec());
    assert_eq!(h, "ba7816bf8f01cfea414140de5dae2223b00361a396177a9cb410ff61f20015ad");
    assert_ne!(muntjac::vendor::wheel_sha256(&Vec::new()), h);
}
