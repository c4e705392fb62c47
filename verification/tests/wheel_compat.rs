use muntjac::config::Platform;
use muntjac::wheel::compat::build_compatible_tags;
use muntjac::config::PythonVersion;
use muntjac::wheel::compat::{build_python_axis, CompatibleTags};
use muntjac::wheel::tag::{AbiTag, LinuxArch, PlatformTag, PythonTag, Tag};

#[test]
fn rank_of_returns_index() {
    let tag_a = Tag {
        python: PythonTag::CPython(3, 12),
        abi:    AbiTag::CPython(3, 12),
        plat:   PlatformTag::Any,
    };
    let tag_b = Tag {
        python: PythonTag::Py(3, None),
        abi:    AbiTag::NoAbi,
        plat:   PlatformTag::Any,
    };
    let compat = CompatibleTags::from_ordered(vec![tag_a.clone(), tag_b.clone()]);
    assert_eq!(compat.rank_of(&tag_a), Some(0));
    assert_eq!(compat.rank_of(&tag_b), Some(1));

    let unknown = Tag {
        python: PythonTag::CPython(3, 10),
        abi:    AbiTag::NoAbi,
        plat:   PlatformTag::ManyLinux { major: 2, minor: 17, arch: LinuxArch::X86_64 },
    };
    assert_eq!(compat.rank_of(&unknown), None);
}

#[test]
fn python_axis_for_3_12() {
    
    let axis = build_python_axis(PythonVersion(3, 12));

    // The first three are the current-interpreter triple.
    assert_eq!(axis[0], (PythonTag::CPython(3, 12), AbiTag::CPython(3, 12)));
    assert_eq!(axis[1], (PythonTag::CPython(3, 12), AbiTag::Abi3));
    assert_eq!(axis[2], (PythonTag::CPython(3, 12), AbiTag::NoAbi));

    // Older cp_abi3 entries: cp311-abi3 ... cp32-abi3 (10 entries).
    assert_eq!(axis[3], (PythonTag::CPython(3, 11), AbiTag::Abi3));
    assert_eq!(axis[12], (PythonTag::CPython(3, 2), AbiTag::Abi3));

    // Then py3<minor>-none walking down to py30-none.
    assert_eq!(axis[13], (PythonTag::Py(3, Some(12)), AbiTag::NoAbi));
    assert_eq!(axis[25], (PythonTag::Py(3, Some(0)), AbiTag::NoAbi));

    // Then py3-none.
    assert_eq!(axis[26], (PythonTag::Py(3, None), AbiTag::NoAbi));

    // Total length: 3 (current) + 10 (older abi3) + 13 (py3X) + 1 (py3) = 27.
    assert_eq!(axis.len(), 27);
}

#[test]
fn python_axis_for_3_8() {
    
    let axis = build_python_axis(PythonVersion(3, 8));
    // 3 (current) + 6 (older abi3: cp37 down to cp32) + 9 (py38 down to py30) + 1 (py3) = 19
    assert_eq!(axis.len(), 19);
    assert_eq!(axis[0], (PythonTag::CPython(3, 8), AbiTag::CPython(3, 8)));
}


#[test]
fn build_compatible_tags_orders_python_axis_outermost() {
    let p = Platform {
        target: "x86_64-unknown-linux-gnu".into(),
        manylinux: Some("2_17".into()),
        musllinux: None,
        macos_min: None,
    };
    let tags = build_compatible_tags(&p, PythonVersion(3, 12));
    assert_eq!(tags.len(), 54);
    let o = tags.ordered();
    assert_eq!(
        o[0],
        Tag {
            python: PythonTag::CPython(3, 12),
            abi: AbiTag::CPython(3, 12),
            plat: PlatformTag::ManyLinux { major: 2, minor: 17, arch: LinuxArch::X86_64 },
        }
    );
    assert_eq!(o[1], Tag { python: PythonTag::CPython(3, 12), abi: AbiTag::CPython(3, 12), plat: PlatformTag::Any });
    assert_eq!(o[53], Tag { python: PythonTag::Py(3, None), abi: AbiTag::NoAbi, plat: PlatformTag::Any });

    let mac = Platform {
        target: "aarch64-apple-darwin".into(),
        manylinux: None,
        musllinux: None,
        macos_min: Some("11.0".into()),
    };
    let tags = build_compatible_tags(&mac, PythonVersion(3, 12));
    let o = tags.ordered();
    assert_eq!(o.len(), 81);
    assert_eq!(o[0].plat, PlatformTag::MacOs { major: 11, minor: 0, arch: muntjac::wheel::tag::MacArch::Arm64 });
    assert_eq!(o[1].plat, PlatformTag::MacOs { major: 11, minor: 0, arch: muntjac::wheel::tag::MacArch::Universal2 });
    assert_eq!(o[2].plat, PlatformTag::Any);
}
