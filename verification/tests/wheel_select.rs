use muntjac::lock::types::Wheel;
use muntjac::wheel::compat::CompatibleTags;
use muntjac::wheel::select::{pick_wheel, PickResult};
use muntjac::wheel::tag::{AbiTag, LinuxArch, PlatformTag, PythonTag, Tag};

fn make_wheel(filename: &str) -> Wheel {
    Wheel {
        url: format!("https://example.com/{filename}"),
        hash: "sha256:abc".into(),
        size: None,
        filename: filename.into(),
    }
}

fn compat() -> CompatibleTags {
    CompatibleTags::from_ordered(vec![
        Tag {
            python: PythonTag::CPython(3, 12),
            abi: AbiTag::CPython(3, 12),
            plat: PlatformTag::ManyLinux { major: 2, minor: 17, arch: LinuxArch::X86_64 },
        },
        Tag {
            python: PythonTag::CPython(3, 12),
            abi: AbiTag::Abi3,
            plat: PlatformTag::ManyLinux { major: 2, minor: 17, arch: LinuxArch::X86_64 },
        },
        Tag {
            python: PythonTag::Py(3, None),
            abi: AbiTag::NoAbi,
            plat: PlatformTag::Any,
        },
    ])
}

#[test]
fn picks_best_ranked_wheel() {
    let wheels = vec![
        make_wheel("foo-1.0-py3-none-any.whl"),
        make_wheel("foo-1.0-cp312-cp312-manylinux_2_17_x86_64.whl"),
    ];
    match pick_wheel(&wheels, &compat()) {
        PickResult::Picked { wheel, matched_tag, rank } => {
            assert_eq!(wheel.filename, "foo-1.0-cp312-cp312-manylinux_2_17_x86_64.whl");
            assert_eq!(rank, 0);
            assert_eq!(matched_tag.to_string(), "cp312-cp312-manylinux_2_17_x86_64");
        }
        PickResult::NoWheel => panic!("expected a pick"),
    }
}

#[test]
fn no_compatible_wheel() {
    let wheels = vec![make_wheel("foo-1.0-cp311-cp311-win_amd64.whl"), make_wheel("garbage.zip")];
    assert!(matches!(pick_wheel(&wheels, &compat()), PickResult::NoWheel));
}

#[test]
fn tie_goes_to_smaller_filename_whatever_the_order() {
    let a = make_wheel("a-1.0-py3-none-any.whl");
    let b = make_wheel("b-1.0-py3-none-any.whl");
    for wheels in [vec![a.clone(), b.clone()], vec![b.clone(), a.clone()]] {
        match pick_wheel(&wheels, &compat()) {
            PickResult::Picked { wheel, rank, .. } => {
                assert_eq!(wheel.filename, "a-1.0-py3-none-any.whl");
                assert_eq!(rank, 2);
            }
            PickResult::NoWheel => panic!("expected a pick"),
        }
    }
}

#[test]
fn compressed_tag_set_matches_its_best_member() {
    let wheels = vec![make_wheel("foo-1.0-cp312-abi3.cp312-manylinux_2_17_x86_64.whl")];
    match pick_wheel(&wheels, &compat()) {
        PickResult::Picked { rank, .. } => assert_eq!(rank, 0),
        PickResult::NoWheel => panic!("expected a pick"),
    }
}
