use muntjac::wheel::tag::{parse_filename, render_tag, AbiTag, LinuxArch, MacArch, PlatformTag, PythonTag, Tag, TagParseError, WheelTag};

#[test]
fn tag_equality_and_hash() {
    let a = Tag {
        python: PythonTag::CPython(3, 12),
        abi: AbiTag::CPython(3, 12),
        plat: PlatformTag::ManyLinux {
            major: 2,
            minor: 17,
            arch: LinuxArch::X86_64,
        },
    };
    let b = a.clone();
    assert_eq!(a, b);

    let mut set = std::collections::HashSet::new();
    set.insert(a);
    assert!(set.contains(&b));
}

#[test]
fn arch_variants_are_distinct() {
    assert_ne!(LinuxArch::X86_64, LinuxArch::Aarch64);
    assert_ne!(MacArch::X86_64, MacArch::Arm64);
    assert_ne!(MacArch::Arm64, MacArch::Universal2);
}

fn parse(s: &str) -> WheelTag {
    parse_filename(s).unwrap_or_else(|e| panic!("parse `{s}`: {e:?}"))
}

#[test]
fn parses_simple_cp312_manylinux() {
    let w = parse("numpy-2.1.3-cp312-cp312-manylinux_2_17_x86_64.whl");
    assert_eq!(w.tags.len(), 1);
    assert_eq!(
        w.tags[0],
        Tag {
            python: PythonTag::CPython(3, 12),
            abi: AbiTag::CPython(3, 12),
            plat: PlatformTag::ManyLinux {
                major: 2,
                minor: 17,
                arch: LinuxArch::X86_64
            },
        }
    );
}

#[test]
fn parses_pure_python_any() {
    let w = parse("requests-2.32.3-py3-none-any.whl");
    assert_eq!(w.tags.len(), 1);
    assert_eq!(
        w.tags[0],
        Tag {
            python: PythonTag::Py(3, None),
            abi: AbiTag::NoAbi,
            plat: PlatformTag::Any,
        }
    );
}

#[test]
fn parses_abi3_wheel() {
    let w = parse("cryptography-42.0.0-cp37-abi3-manylinux_2_28_x86_64.whl");
    assert_eq!(w.tags[0].abi, AbiTag::Abi3);
}

#[test]
fn expands_compressed_python_tag() {
    let w = parse("foo-1.0-py2.py3-none-any.whl");
    assert_eq!(w.tags.len(), 2);
    assert!(w.tags.contains(&Tag {
        python: PythonTag::Py(2, None),
        abi: AbiTag::NoAbi,
        plat: PlatformTag::Any
    }));
    assert!(w.tags.contains(&Tag {
        python: PythonTag::Py(3, None),
        abi: AbiTag::NoAbi,
        plat: PlatformTag::Any
    }));
}

#[test]
fn canonicalizes_manylinux2014_alias() {
    let w = parse("foo-1.0-cp312-cp312-manylinux2014_x86_64.whl");
    assert_eq!(
        w.tags[0].plat,
        PlatformTag::ManyLinux {
            major: 2,
            minor: 17,
            arch: LinuxArch::X86_64
        }
    );
}

#[test]
fn dedupes_after_alias_canonicalization() {
    let w = parse("foo-1.0-cp312-cp312-manylinux_2_17_x86_64.manylinux2014_x86_64.whl");
    assert_eq!(w.tags.len(), 1);
}

#[test]
fn parses_macos_universal2() {
    let w = parse("foo-1.0-cp312-cp312-macosx_11_0_universal2.whl");
    assert_eq!(
        w.tags[0].plat,
        PlatformTag::MacOs {
            major: 11,
            minor: 0,
            arch: MacArch::Universal2
        }
    );
}

#[test]
fn parses_musllinux() {
    let w = parse("foo-1.0-cp312-cp312-musllinux_1_2_x86_64.whl");
    assert_eq!(
        w.tags[0].plat,
        PlatformTag::MuslLinux {
            major: 1,
            minor: 2,
            arch: LinuxArch::X86_64
        }
    );
}

#[test]
fn pypy_tag_classified_as_other() {
    let w = parse("foo-1.0-pp310-pypy310_pp73-manylinux_2_17_x86_64.whl");
    assert!(matches!(w.tags[0].python, PythonTag::Other(ref s) if s == "pp310"));
}

#[test]
fn build_tag_is_ignored() {
    let w = parse("foo-1.0-1-cp312-cp312-manylinux_2_17_x86_64.whl");
    assert_eq!(w.tags[0].python, PythonTag::CPython(3, 12));
}

#[test]
fn rejects_missing_whl_suffix() {
    assert!(matches!(
        parse_filename("foo-1.0-py3-none-any.zip"),
        Err(TagParseError::MalformedFilename(_))
    ));
}

#[test]
fn rejects_too_few_segments() {
    assert!(matches!(
        parse_filename("foo-1.0.whl"),
        Err(TagParseError::MalformedFilename(_))
    ));
}

#[test]
fn s390x_manylinux_falls_to_other() {
    let w = parse("cryptography-43.0.0-cp312-cp312-manylinux_2_28_s390x.whl");
    assert!(matches!(w.tags[0].plat, PlatformTag::Other(ref s)
        if s == "manylinux_2_28_s390x"));
}

#[test]
fn armv7l_manylinux_falls_to_other() {
    let w = parse("foo-1.0-cp312-cp312-manylinux_2_28_armv7l.whl");
    assert!(matches!(w.tags[0].plat, PlatformTag::Other(_)));
}

#[test]
fn cp313t_free_threaded_routes_to_other() {
    let w = parse("foo-1.0-cp313t-cp313t-manylinux_2_28_x86_64.whl");
    assert!(matches!(w.tags[0].python, PythonTag::Other(ref s) if s == "cp313t"));
    assert!(matches!(w.tags[0].abi, AbiTag::Other(ref s) if s == "cp313t"));
}

#[test]
fn tag_display_canonical_cases() {
    let cp312 = Tag {
        python: PythonTag::CPython(3, 12),
        abi: AbiTag::CPython(3, 12),
        plat: PlatformTag::ManyLinux {
            major: 2,
            minor: 17,
            arch: LinuxArch::X86_64,
        },
    };
    assert_eq!(cp312.to_string(), "cp312-cp312-manylinux_2_17_x86_64");

    let abi3 = Tag {
        python: PythonTag::CPython(3, 12),
        abi: AbiTag::Abi3,
        plat: PlatformTag::MacOs {
            major: 11,
            minor: 0,
            arch: MacArch::Universal2,
        },
    };
    assert_eq!(abi3.to_string(), "cp312-abi3-macosx_11_0_universal2");

    let pure = Tag {
        python: PythonTag::Py(3, None),
        abi: AbiTag::NoAbi,
        plat: PlatformTag::Any,
    };
    assert_eq!(pure.to_string(), "py3-none-any");

    let py_minor = Tag {
        python: PythonTag::Py(3, Some(7)),
        abi: AbiTag::NoAbi,
        plat: PlatformTag::Any,
    };
    assert_eq!(py_minor.to_string(), "py37-none-any");

    let other = Tag {
        python: PythonTag::Other("pp310".into()),
        abi: AbiTag::Other("pypy310_pp73".into()),
        plat: PlatformTag::MuslLinux {
            major: 1,
            minor: 2,
            arch: LinuxArch::Aarch64,
        },
    };
    assert_eq!(
        other.to_string(),
        "pp310-pypy310_pp73-musllinux_1_2_aarch64"
    );
}


#[test]
fn rendered_tags_read_back() {
    let tags = vec![
        Tag {
            python: PythonTag::CPython(3, 12),
            abi: AbiTag::CPython(3, 12),
            plat: PlatformTag::ManyLinux { major: 2, minor: 17, arch: LinuxArch::X86_64 },
        },
        Tag {
            python: PythonTag::Py(3, None),
            abi: AbiTag::NoAbi,
            plat: PlatformTag::Any,
        },
        Tag {
            python: PythonTag::CPython(3, 9),
            abi: AbiTag::Abi3,
            plat: PlatformTag::MacOs { major: 11, minor: 0, arch: MacArch::Universal2 },
        },
        Tag {
            python: PythonTag::Py(3, Some(8)),
            abi: AbiTag::NoAbi,
            plat: PlatformTag::MuslLinux { major: 1, minor: 2, arch: LinuxArch::Aarch64 },
        },
    ];
    for t in tags {
        let f = format!("pkg-1.0-{}.whl", render_tag(&t));
        let w = parse_filename(&f).expect("parses");
        assert_eq!(w.tags, vec![t]);
    }
}
