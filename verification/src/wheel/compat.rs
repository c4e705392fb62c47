//! Compatible-tag list construction and ranking.

use vstd::prelude::*;

use crate::config::{baseline_spec, parse_pair, Platform, PythonVersion};
use crate::text::{chars_of, has_prefix, starts_with};
use crate::wheel::tag::{
    copy_abi_tag, copy_python_tag, tag_row, tags_model, tag_eq, AbiTag, AbiTagModel, LinuxArch, MacArch, PlatformTag,
    PlatformTagModel, PythonTag, PythonTagModel, Tag, TagModel,
};

verus! {

/// An ordered list of the tags a target accepts, most preferred first.
pub struct CompatibleTags {
    ordered: Vec<Tag>,
}

/// Index of the first occurrence of `t` in `ordered`.
pub open spec fn rank_in(ordered: Seq<TagModel>, t: TagModel) -> Option<int> {
    if exists|i: int| 0 <= i < ordered.len() && ordered[i] == t {
        Some(
            choose|i: int|
                0 <= i < ordered.len() && ordered[i] == t && forall|k: int|
                    0 <= k < i ==> ordered[k] != t,
        )
    } else {
        None
    }
}

impl View for CompatibleTags {
    type V = Seq<TagModel>;

    closed spec fn view(&self) -> Seq<TagModel> {
        tags_model(self.ordered@)
    }
}

impl CompatibleTags {
    /// Builds the list from tags already in preference order.
    pub fn from_ordered(ordered: Vec<Tag>) -> (r: Self)
        ensures
            r@ == tags_model(ordered@),
    {
        CompatibleTags { ordered }
    }

    /// The preference rank (position) of `tag`, or `None` if it is not accepted.
    pub fn rank_of(&self, tag: &Tag) -> (r: Option<usize>)
        ensures
            match r {
                Some(k) => rank_in(self@, tag@) == Some(k as int),
                None => rank_in(self@, tag@) is None,
            },
    {
        let mut i: usize = 0;
        while i < self.ordered.len()
            invariant
                i <= self.ordered@.len(),
                forall|k: int| 0 <= k < i ==> self.ordered@[k]@ != tag@,
            decreases self.ordered@.len() - i,
        {
            if tag_eq(&self.ordered[i], tag) {
                proof {
                    let m = tags_model(self.ordered@);
                    assert(m[i as int] == tag@);
                    let w = choose|j: int|
                        0 <= j < m.len() && m[j] == tag@ && forall|k: int| 0 <= k < j ==> m[k] != tag@;
                    if w < i {
                        assert(m[w] == self.ordered@[w]@);
                    } else if w > i {
                    }
                }
                return Some(i);
            }
            i += 1;
        }
        proof {
            let m = tags_model(self.ordered@);
            if exists|j: int| 0 <= j < m.len() && m[j] == tag@ {
                let j = choose|j: int| 0 <= j < m.len() && m[j] == tag@;
                assert(self.ordered@[j]@ == tag@);
            }
        }
        None
    }

    /// The tags in preference order.
    pub fn ordered(&self) -> (r: &[Tag])
        ensures
            tags_model(r@) == self@,
    {
        self.ordered.as_slice()
    }

    /// Number of accepted tags.
    pub fn len(&self) -> (r: usize)
        ensures
            r == self@.len(),
    {
        self.ordered.len()
    }
}

/// The python/abi preference axis for CPython `major.minor`:
/// the interpreter's own ABI, stable ABI and no ABI; older stable-ABI
/// releases down to 3.2; `py3X-none` from the current minor down to 0;
/// finally `py3-none`.
pub open spec fn python_axis(major: u8, minor: u8) -> Seq<(PythonTagModel, AbiTagModel)> {
    seq![
        (PythonTagModel::CPython(major, minor), AbiTagModel::CPython(major, minor)),
        (PythonTagModel::CPython(major, minor), AbiTagModel::Abi3),
        (PythonTagModel::CPython(major, minor), AbiTagModel::NoAbi),
    ] + older_abi3(major, minor) + py_minors(major, minor) + seq![
        (PythonTagModel::Py(major, None), AbiTagModel::NoAbi),
    ]
}

/// `cp{major}{older}-abi3` for `older` from `minor - 1` down to 2 (none below 3.3).
pub open spec fn older_abi3(major: u8, minor: u8) -> Seq<(PythonTagModel, AbiTagModel)> {
    if minor >= 3 {
        Seq::new(
            (minor - 2) as nat,
            |k: int| (PythonTagModel::CPython(major, (minor - 1 - k) as u8), AbiTagModel::Abi3),
        )
    } else {
        Seq::empty()
    }
}

/// `py{major}{older}-none` for `older` from `minor` down to 0.
pub open spec fn py_minors(major: u8, minor: u8) -> Seq<(PythonTagModel, AbiTagModel)> {
    Seq::new(
        (minor + 1) as nat,
        |k: int| (PythonTagModel::Py(major, Some((minor - k) as u8)), AbiTagModel::NoAbi),
    )
}

pub open spec fn axis_model(v: Seq<(PythonTag, AbiTag)>) -> Seq<(PythonTagModel, AbiTagModel)> {
    v.map_values(|p: (PythonTag, AbiTag)| (p.0@, p.1@))
}

/// Builds the python/abi axis of the compatible-tag list for one interpreter.
pub fn build_python_axis(py: PythonVersion) -> (r: Vec<(PythonTag, AbiTag)>)
    ensures
        axis_model(r@) == python_axis(py.0, py.1),
{
    let major = py.0;
    let minor = py.1;
    let mut out: Vec<(PythonTag, AbiTag)> = Vec::new();

    // 1-3: Current interpreter, full / stable-ABI / no-ABI.
    out.push((PythonTag::CPython(major, minor), AbiTag::CPython(major, minor)));
    out.push((PythonTag::CPython(major, minor), AbiTag::Abi3));
    out.push((PythonTag::CPython(major, minor), AbiTag::NoAbi));
    let ghost head = axis_model(out@);
    assert(head =~= seq![
        (PythonTagModel::CPython(major, minor), AbiTagModel::CPython(major, minor)),
        (PythonTagModel::CPython(major, minor), AbiTagModel::Abi3),
        (PythonTagModel::CPython(major, minor), AbiTagModel::NoAbi),
    ]);

    // 4: Older cp3X-abi3, walking back from (minor-1) down to 2.
    //    PEP 384 abi3 introduced in 3.2.
    if minor >= 3 {
        let mut older: u8 = minor;
        while older > 2
            invariant
                minor >= 3,
                2 <= older <= minor,
                axis_model(out@) == head + older_abi3(major, minor).subrange(0, (minor - older) as int),
            decreases older,
        {
            older -= 1;
            let ghost prev = axis_model(out@);
            out.push((PythonTag::CPython(major, older), AbiTag::Abi3));
            assert(axis_model(out@) =~= prev.push((PythonTagModel::CPython(major, older), AbiTagModel::Abi3)));
            assert(axis_model(out@) =~= head + older_abi3(major, minor).subrange(0, (minor - older) as int));
        }
        assert(older_abi3(major, minor).subrange(0, (minor - 2) as int) =~= older_abi3(major, minor));
    } else {
        assert(head + older_abi3(major, minor) =~= head);
    }
    let ghost head2 = axis_model(out@);
    assert(head2 =~= head + older_abi3(major, minor));

    // 5: py3X-none from current minor down to 0.
    let mut k: u16 = 0;
    while k <= minor as u16
        invariant
            k <= minor + 1,
            axis_model(out@) == head2 + py_minors(major, minor).subrange(0, k as int),
        decreases minor + 1 - k,
    {
        let older = minor - k as u8;
        let ghost prev = axis_model(out@);
        out.push((PythonTag::Py(major, Some(older)), AbiTag::NoAbi));
        assert(axis_model(out@) =~= prev.push((PythonTagModel::Py(major, Some(older)), AbiTagModel::NoAbi)));
        k += 1;
        assert(axis_model(out@) =~= head2 + py_minors(major, minor).subrange(0, k as int));
    }
    assert(py_minors(major, minor).subrange(0, (minor + 1) as int) =~= py_minors(major, minor));

    // 6: py3-none (catch-all).
    let ghost prev = axis_model(out@);
    out.push((PythonTag::Py(major, None), AbiTag::NoAbi));
    assert(axis_model(out@) =~= prev.push((PythonTagModel::Py(major, None), AbiTagModel::NoAbi)));
    assert(axis_model(out@) =~= head + older_abi3(major, minor) + py_minors(major, minor) + seq![
        (PythonTagModel::Py(major, None), AbiTagModel::NoAbi),
    ]);
    out
}

/// Each python/abi pair of `axis` in order, each over every platform tag of
/// `plats` in order.
pub open spec fn tag_grid(axis: Seq<(PythonTagModel, AbiTagModel)>, plats: Seq<PlatformTagModel>) -> Seq<TagModel>
    decreases axis.len(),
{
    if axis.len() == 0 {
        Seq::empty()
    } else {
        tag_grid(axis.drop_last(), plats) + tag_row(axis.last().0, axis.last().1, plats)
    }
}

/// The Linux architecture of a target triple: `aarch64` or else `x86_64`.
pub open spec fn linux_arch_of(target: Seq<char>) -> LinuxArch {
    if starts_with(target, "aarch64"@) {
        LinuxArch::Aarch64
    } else {
        LinuxArch::X86_64
    }
}

/// The macOS architecture of a target triple: `arm64` or else `x86_64`.
pub open spec fn mac_arch_of(target: Seq<char>) -> MacArch {
    if starts_with(target, "aarch64"@) {
        MacArch::Arm64
    } else {
        MacArch::X86_64
    }
}

/// The manylinux tag of a platform, where its baseline is set and well formed.
pub open spec fn manylinux_part(p: Platform) -> Seq<PlatformTagModel> {
    match baseline_spec(p.manylinux, '_') {
        Some((a, b)) => seq![PlatformTagModel::ManyLinux { major: a, minor: b, arch: linux_arch_of(p.target@) }],
        None => Seq::empty(),
    }
}

/// The musllinux tag of a platform, where its baseline is set and well formed.
pub open spec fn musllinux_part(p: Platform) -> Seq<PlatformTagModel> {
    match baseline_spec(p.musllinux, '_') {
        Some((a, b)) => seq![PlatformTagModel::MuslLinux { major: a, minor: b, arch: linux_arch_of(p.target@) }],
        None => Seq::empty(),
    }
}

/// The macOS tags of a platform (own architecture, then `universal2`),
/// where its minimum is set and well formed.
pub open spec fn macos_part(p: Platform) -> Seq<PlatformTagModel> {
    match baseline_spec(p.macos_min, '.') {
        Some((a, b)) => seq![
            PlatformTagModel::MacOs { major: a, minor: b, arch: mac_arch_of(p.target@) },
            PlatformTagModel::MacOs { major: a, minor: b, arch: MacArch::Universal2 },
        ],
        None => Seq::empty(),
    }
}

/// The platform tags a platform accepts, most preferred first: its manylinux
/// baseline, its musllinux baseline, its macOS minimum, each where set and
/// well formed, and finally `any`.
pub open spec fn platform_axis(p: Platform) -> Seq<PlatformTagModel> {
    manylinux_part(p) + musllinux_part(p) + macos_part(p) + seq![PlatformTagModel::Any]
}

/// The tags a cell (platform, interpreter) accepts, most preferred first:
/// the python/abi axis outermost, the platform tags within.
pub open spec fn compatible_order(p: Platform, py: PythonVersion) -> Seq<TagModel> {
    tag_grid(python_axis(py.0, py.1), platform_axis(p))
}

fn opt_baseline(o: &Option<String>, sep: char) -> (r: Option<(u32, u32)>)
    ensures
        r == baseline_spec(*o, sep),
{
    match o {
        Some(s) => parse_pair(s.as_str(), sep),
        None => None,
    }
}

fn copy_platform_tag(t: &PlatformTag) -> (r: PlatformTag)
    ensures
        r@ == t@,
{
    match t {
        PlatformTag::Any => PlatformTag::Any,
        PlatformTag::ManyLinux { major, minor, arch } => PlatformTag::ManyLinux { major: *major, minor: *minor, arch: *arch },
        PlatformTag::MuslLinux { major, minor, arch } => PlatformTag::MuslLinux { major: *major, minor: *minor, arch: *arch },
        PlatformTag::MacOs { major, minor, arch } => PlatformTag::MacOs { major: *major, minor: *minor, arch: *arch },
        PlatformTag::Other(s) => PlatformTag::Other(crate::text::owned(s.as_str())),
    }
}

fn is_aarch64(platform: &Platform) -> (r: bool)
    ensures
        r == starts_with(platform.target@, "aarch64"@),
{
    let t = chars_of(platform.target.as_str());
    let aarch = chars_of("aarch64");
    has_prefix(t.as_slice(), aarch.as_slice())
}

fn manylinux_tags(platform: &Platform, la: LinuxArch) -> (r: Vec<PlatformTag>)
    requires
        la == linux_arch_of(platform.target@),
    ensures
        r@.map_values(|q: PlatformTag| q@) == manylinux_part(*platform),
{
    let mut v: Vec<PlatformTag> = Vec::new();
    if let Some((major, minor)) = opt_baseline(&platform.manylinux, '_') {
        v.push(PlatformTag::ManyLinux { major, minor, arch: la });
    }
    assert(v@.map_values(|q: PlatformTag| q@) =~= manylinux_part(*platform));
    v
}

fn musllinux_tags(platform: &Platform, la: LinuxArch) -> (r: Vec<PlatformTag>)
    requires
        la == linux_arch_of(platform.target@),
    ensures
        r@.map_values(|q: PlatformTag| q@) == musllinux_part(*platform),
{
    let mut v: Vec<PlatformTag> = Vec::new();
    if let Some((major, minor)) = opt_baseline(&platform.musllinux, '_') {
        v.push(PlatformTag::MuslLinux { major, minor, arch: la });
    }
    assert(v@.map_values(|q: PlatformTag| q@) =~= musllinux_part(*platform));
    v
}

fn macos_tags(platform: &Platform, ma: MacArch) -> (r: Vec<PlatformTag>)
    requires
        ma == mac_arch_of(platform.target@),
    ensures
        r@.map_values(|q: PlatformTag| q@) == macos_part(*platform),
{
    let mut v: Vec<PlatformTag> = Vec::new();
    if let Some((major, minor)) = opt_baseline(&platform.macos_min, '.') {
        v.push(PlatformTag::MacOs { major, minor, arch: ma });
        v.push(PlatformTag::MacOs { major, minor, arch: MacArch::Universal2 });
    }
    assert(v@.map_values(|q: PlatformTag| q@) =~= macos_part(*platform));
    v
}

/// The platform tags of [`platform_axis`].
fn build_platform_axis(platform: &Platform) -> (r: Vec<PlatformTag>)
    ensures
        r@.map_values(|q: PlatformTag| q@) == platform_axis(*platform),
{
    let is_aarch = is_aarch64(platform);
    let la = if is_aarch { LinuxArch::Aarch64 } else { LinuxArch::X86_64 };
    let ma = if is_aarch { MacArch::Arm64 } else { MacArch::X86_64 };
    let mut plats = manylinux_tags(platform, la);
    let mut b = musllinux_tags(platform, la);
    let mut c = macos_tags(platform, ma);
    let ghost pa = plats@;
    let ghost pb = b@;
    let ghost pc = c@;
    plats.append(&mut b);
    plats.append(&mut c);
    plats.push(PlatformTag::Any);
    assert(plats@ =~= pa + pb + pc + seq![PlatformTag::Any]);
    assert(plats@.map_values(|q: PlatformTag| q@) =~= pa.map_values(|q: PlatformTag| q@) + pb.map_values(
        |q: PlatformTag| q@,
    ) + pc.map_values(|q: PlatformTag| q@) + seq![PlatformTagModel::Any]);
    plats
}

/// The compatible tags of a cell: the platform's tags of
/// [`platform_axis`] under each python/abi pair of the interpreter's axis,
/// as [`compatible_order`] lists them.
pub fn build_compatible_tags(platform: &Platform, py: PythonVersion) -> (r: CompatibleTags)
    ensures
        r@ == compatible_order(*platform, py),
{
    let plats = build_platform_axis(platform);
    let ghost pm = plats@.map_values(|q: PlatformTag| q@);
    let axis = build_python_axis(py);
    let ghost am = axis_model(axis@);
    let mut ordered: Vec<Tag> = Vec::new();
    let mut i: usize = 0;
    while i < axis.len()
        invariant
            i <= axis@.len(),
            am == axis_model(axis@),
            pm == plats@.map_values(|q: PlatformTag| q@),
            tags_model(ordered@) == tag_grid(am.subrange(0, i as int), pm),
        decreases axis@.len() - i,
    {
        let ghost before = tags_model(ordered@);
        let mut j: usize = 0;
        while j < plats.len()
            invariant
                i < axis@.len(),
                j <= plats@.len(),
                am == axis_model(axis@),
                pm == plats@.map_values(|q: PlatformTag| q@),
                tags_model(ordered@) == before + tag_row(am[i as int].0, am[i as int].1, pm.subrange(0, j as int)),
            decreases plats@.len() - j,
        {
            let t = Tag {
                python: copy_python_tag(&axis[i].0),
                abi: copy_abi_tag(&axis[i].1),
                plat: copy_platform_tag(&plats[j]),
            };
            let ghost prev = tags_model(ordered@);
            ordered.push(t);
            proof {
                assert(pm.subrange(0, j + 1).drop_last() =~= pm.subrange(0, j as int));
                assert(tags_model(ordered@) =~= prev.push(t@));
            }
            j += 1;
        }
        proof {
            assert(pm.subrange(0, plats@.len() as int) =~= pm);
            assert(am.subrange(0, i + 1).drop_last() =~= am.subrange(0, i as int));
        }
        i += 1;
    }
    assert(am.subrange(0, axis@.len() as int) =~= am);
    CompatibleTags::from_ordered(ordered)
}


/// For a list of distinct tags, a tag's rank is its position in the list,
/// and a tag not in the list has none.
pub proof fn law_rank_is_position(ordered: Seq<TagModel>, t: TagModel)
    requires
        forall|a: int, b: int| 0 <= a < b < ordered.len() ==> ordered[a] != ordered[b],
    ensures
        forall|i: int| 0 <= i < ordered.len() ==> (rank_in(ordered, t) == Some(i) <==> ordered[i] == t),
        rank_in(ordered, t) is None <==> !ordered.contains(t),
{
    if ordered.contains(t) {
        let w = choose|i: int| 0 <= i < ordered.len() && ordered[i] == t;
        assert(forall|k: int| 0 <= k < w ==> ordered[k] != t);
        let r = rank_in(ordered, t)->Some_0;
        assert(0 <= r < ordered.len() && ordered[r] == t);
        assert forall|i: int| 0 <= i < ordered.len() implies (rank_in(ordered, t) == Some(i) <==> ordered[i] == t) by {
            if ordered[i] == t && i != r {
                if i < r {
                    assert(ordered[i] != ordered[r]);
                } else {
                    assert(ordered[r] != ordered[i]);
                }
            }
        }
    }
}

} // verus!
