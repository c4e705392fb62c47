use muntjac::config::{Platform, PythonVersion};
use muntjac::platform::{derive_env_strings, edge_applies, marker_env, marker_matches};

fn linux_x86_64() -> Platform {
    Platform {
        target: "x86_64-unknown-linux-gnu".into(),
        manylinux: Some("2_17".into()),
        musllinux: None,
        macos_min: None,
    }
}

fn macos_arm64() -> Platform {
    Platform {
        target: "aarch64-apple-darwin".into(),
        manylinux: None,
        musllinux: None,
        macos_min: Some("11.0".into()),
    }
}

#[test]
fn python_version_marker() {
    let env = marker_env(&linux_x86_64(), PythonVersion(3, 11));
    assert!(marker_matches(Some("python_version >= '3.10'"), &env));
    assert!(marker_matches(Some("python_version < '3.13'"), &env));
    assert!(!marker_matches(Some("python_version < '3.11'"), &env));
}

#[test]
fn sys_platform_marker() {
    let linux = marker_env(&linux_x86_64(), PythonVersion(3, 12));
    let mac = marker_env(&macos_arm64(), PythonVersion(3, 12));
    let m = "sys_platform == 'linux'";
    assert!(marker_matches(Some(m), &linux));
    assert!(!marker_matches(Some(m), &mac));
}

#[test]
fn platform_machine_marker() {
    let linux_x86 = marker_env(&linux_x86_64(), PythonVersion(3, 12));
    let macos_arm = marker_env(&macos_arm64(), PythonVersion(3, 12));
    assert!(marker_matches(Some("platform_machine == 'x86_64'"), &linux_x86));
    assert!(marker_matches(Some("platform_machine == 'arm64'"), &macos_arm));
    assert!(!marker_matches(Some("platform_machine == 'arm64'"), &linux_x86));
}

#[test]
fn no_marker_always_matches() {
    let env = marker_env(&linux_x86_64(), PythonVersion(3, 11));
    assert!(marker_matches(None, &env));
}

#[test]
fn full_version_lowest_patch() {
    let env = marker_env(&linux_x86_64(), PythonVersion(3, 12));
    assert!(marker_matches(Some("python_full_version >= '3.12.0'"), &env));
    assert!(!marker_matches(Some("python_full_version >= '3.12.4'"), &env));
}

#[test]
fn excludes_emscripten() {
    let env = marker_env(&linux_x86_64(), PythonVersion(3, 12));
    assert!(marker_matches(Some("platform_system != 'Emscripten'"), &env));
}

#[test]
fn marker_env_fields_for_macos_cell() {
    let env = marker_env(&macos_arm64(), PythonVersion(3, 13));
    assert_eq!(env.python_version, "3.13");
    assert_eq!(env.python_full_version, "3.13.0");
    assert_eq!(env.implementation_version, "3.13.0");
    assert_eq!(env.sys_platform, "darwin");
    assert_eq!(env.platform_system, "Darwin");
    assert_eq!(env.platform_machine, "arm64");
    assert_eq!(env.os_name, "posix");
    assert_eq!(env.implementation_name, "cpython");
}

#[test]
fn unknown_triple_has_empty_env_strings() {
    let (os, sys, system, machine) = derive_env_strings("riscv64-unknown-linux-gnu");
    assert_eq!((os.as_str(), sys.as_str(), system.as_str(), machine.as_str()), ("", "", "", ""));
    let (os, sys, system, machine) = derive_env_strings("aarch64-unknown-linux-musl");
    assert_eq!((os.as_str(), sys.as_str(), system.as_str(), machine.as_str()), ("posix", "linux", "Linux", "aarch64"));
}

#[test]
fn extras_gate_extra_markers() {
    let env = marker_env(&linux_x86_64(), PythonVersion(3, 12));
    assert!(!edge_applies(Some("extra == 'test'"), &env, &vec![]));
    assert!(edge_applies(Some("extra == 'test'"), &env, &vec!["test".to_string()]));
    assert!(edge_applies(Some("extra == 'Test_Suite'"), &env, &vec!["test-suite".to_string()]));
}

#[test]
fn unparseable_marker_never_matches() {
    let env = marker_env(&linux_x86_64(), PythonVersion(3, 12));
    assert!(!marker_matches(Some("python_version >>> '3'"), &env));
}
