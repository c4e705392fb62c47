//! PEP 425/600/656 wheel tag types and filename parser.

use vstd::prelude::*;

use crate::text::{
    all_digits, chars_eq, chars_of, copy_string, decimal, digit_val, ends_with, find_char,
    first_index, has_prefix, has_suffix, is_digit, owned, parse_u32, parse_u32_spec, parse_u8,
    parse_u8_spec, push_decimal, push_str, slice_chars, split_chars, split_seq, starts_with,
    string_of, free_of, lemma_decimal_digits, lemma_decimal_free, lemma_digit_char, lemma_first_index_after,
    lemma_parse_decimal, lemma_parse_u32_decimal, lemma_split_concat, lemma_split_free, digit_char,
};

verus! {

/// A single fully-expanded PEP 425 tag triple.
#[derive(Debug, Clone, PartialEq, Eq, Hash)]
pub struct Tag {
    pub python: PythonTag,
    pub abi: AbiTag,
    pub plat: PlatformTag,
}

#[derive(Debug, Clone, PartialEq, Eq, Hash)]
pub enum PythonTag {
    /// e.g. cp312 → CPython(3, 12)
    CPython(u8, u8),
    /// `py3` → Py(3, None); `py37` → Py(3, Some(7)); `py2` → Py(2, None).
    Py(u8, Option<u8>),
    /// pp310, jy27, ip3 — unsupported, kept opaque.
    Other(String),
}

#[derive(Debug, Clone, PartialEq, Eq, Hash)]
pub enum AbiTag {
    CPython(u8, u8),
    Abi3,
    /// The `none` ABI tag.
    NoAbi,
    Other(String),
}

#[derive(Debug, Clone, PartialEq, Eq, Hash)]
#[allow(inconsistent_fields)]
pub enum PlatformTag {
    Any,
    ManyLinux { major: u32, minor: u32, arch: LinuxArch },
    MuslLinux { major: u32, minor: u32, arch: LinuxArch },
    MacOs { major: u32, minor: u32, arch: MacArch },
    Other(String),
}

#[derive(Debug, Clone, Copy, PartialEq, Eq, Hash, Structural)]
pub enum LinuxArch {
    X86_64,
    Aarch64,
}

#[derive(Debug, Clone, Copy, PartialEq, Eq, Hash, Structural)]
pub enum MacArch {
    X86_64,
    Arm64,
    Universal2,
}

/// All tags expanded from a wheel filename.
#[derive(Debug, Clone)]
pub struct WheelTag {
    pub tags: Vec<Tag>,
    pub raw_filename: String,
}

#[derive(Debug)]
pub enum TagParseError {
    /// The filename does not match the PEP 427 structure.
    MalformedFilename(String),
    /// A platform segment has a shape that is recognised but not supported.
    UnknownTagShape(String),
}

// ---- Mathematical models ----

pub enum PythonTagModel {
    CPython(u8, u8),
    Py(u8, Option<u8>),
    Other(Seq<char>),
}

pub enum AbiTagModel {
    CPython(u8, u8),
    Abi3,
    /// The `none` ABI tag.
    NoAbi,
    Other(Seq<char>),
}

#[allow(inconsistent_fields)]
pub enum PlatformTagModel {
    Any,
    ManyLinux { major: u32, minor: u32, arch: LinuxArch },
    MuslLinux { major: u32, minor: u32, arch: LinuxArch },
    MacOs { major: u32, minor: u32, arch: MacArch },
    Other(Seq<char>),
}

pub struct TagModel {
    pub python: PythonTagModel,
    pub abi: AbiTagModel,
    pub plat: PlatformTagModel,
}

pub enum TagParseErrorModel {
    MalformedFilename(Seq<char>),
    UnknownTagShape(Seq<char>),
}

impl View for PythonTag {
    type V = PythonTagModel;

    open spec fn view(&self) -> PythonTagModel {
        match self {
            PythonTag::CPython(a, b) => PythonTagModel::CPython(*a, *b),
            PythonTag::Py(a, b) => PythonTagModel::Py(*a, *b),
            PythonTag::Other(s) => PythonTagModel::Other(s@),
        }
    }
}

impl View for AbiTag {
    type V = AbiTagModel;

    open spec fn view(&self) -> AbiTagModel {
        match self {
            AbiTag::CPython(a, b) => AbiTagModel::CPython(*a, *b),
            AbiTag::Abi3 => AbiTagModel::Abi3,
            AbiTag::NoAbi => AbiTagModel::NoAbi,
            AbiTag::Other(s) => AbiTagModel::Other(s@),
        }
    }
}

impl View for PlatformTag {
    type V = PlatformTagModel;

    open spec fn view(&self) -> PlatformTagModel {
        match self {
            PlatformTag::Any => PlatformTagModel::Any,
            PlatformTag::ManyLinux { major, minor, arch } => PlatformTagModel::ManyLinux {
                major: *major,
                minor: *minor,
                arch: *arch,
            },
            PlatformTag::MuslLinux { major, minor, arch } => PlatformTagModel::MuslLinux {
                major: *major,
                minor: *minor,
                arch: *arch,
            },
            PlatformTag::MacOs { major, minor, arch } => PlatformTagModel::MacOs {
                major: *major,
                minor: *minor,
                arch: *arch,
            },
            PlatformTag::Other(s) => PlatformTagModel::Other(s@),
        }
    }
}

impl View for Tag {
    type V = TagModel;

    open spec fn view(&self) -> TagModel {
        TagModel { python: self.python@, abi: self.abi@, plat: self.plat@ }
    }
}

impl View for TagParseError {
    type V = TagParseErrorModel;

    open spec fn view(&self) -> TagParseErrorModel {
        match self {
            TagParseError::MalformedFilename(s) => TagParseErrorModel::MalformedFilename(s@),
            TagParseError::UnknownTagShape(s) => TagParseErrorModel::UnknownTagShape(s@),
        }
    }
}

/// The models of a sequence of tags.
pub open spec fn tags_model(v: Seq<Tag>) -> Seq<TagModel> {
    v.map_values(|t: Tag| t@)
}

// ---- Specification of the filename parser ----

/// `(major, minor)` read from the digits after `cp`/`py`: the first digit is
/// the major version, the rest (if any) the minor version.
pub open spec fn version_digits(d: Seq<char>) -> Option<(u8, Option<u8>)> {
    if d.len() == 0 || !all_digits(d) {
        None
    } else if d.len() == 1 {
        Some((digit_val(d[0]) as u8, None))
    } else {
        match parse_u8_spec(d.subrange(1, d.len() as int)) {
            Some(m) => Some((digit_val(d[0]) as u8, Some(m))),
            None => None,
        }
    }
}

pub open spec fn python_tag_spec(s: Seq<char>) -> PythonTagModel {
    if starts_with(s, "cp"@) {
        match version_digits(s.subrange("cp"@.len() as int, s.len() as int)) {
            Some((maj, min)) => PythonTagModel::CPython(
                maj,
                match min {
                    Some(m) => m,
                    None => 0,
                },
            ),
            None => PythonTagModel::Other(s),
        }
    } else if starts_with(s, "py"@) {
        match version_digits(s.subrange("py"@.len() as int, s.len() as int)) {
            Some((maj, min)) => PythonTagModel::Py(maj, min),
            None => PythonTagModel::Other(s),
        }
    } else {
        PythonTagModel::Other(s)
    }
}

pub open spec fn abi_tag_spec(s: Seq<char>) -> AbiTagModel {
    if s == "abi3"@ {
        AbiTagModel::Abi3
    } else if s == "none"@ {
        AbiTagModel::NoAbi
    } else if starts_with(s, "cp"@) {
        match version_digits(s.subrange("cp"@.len() as int, s.len() as int)) {
            Some((maj, min)) => AbiTagModel::CPython(
                maj,
                match min {
                    Some(m) => m,
                    None => 0,
                },
            ),
            None => AbiTagModel::Other(s),
        }
    } else {
        AbiTagModel::Other(s)
    }
}

pub open spec fn linux_arch_spec(s: Seq<char>) -> Option<LinuxArch> {
    if s == "x86_64"@ {
        Some(LinuxArch::X86_64)
    } else if s == "aarch64"@ {
        Some(LinuxArch::Aarch64)
    } else {
        None
    }
}

pub open spec fn mac_arch_spec(s: Seq<char>) -> Option<MacArch> {
    if s == "x86_64"@ {
        Some(MacArch::X86_64)
    } else if s == "arm64"@ {
        Some(MacArch::Arm64)
    } else if s == "universal2"@ {
        Some(MacArch::Universal2)
    } else {
        None
    }
}

/// `<major>_<minor>_<rest>` as `splitn(3, '_')` cuts it, with both numbers parsed.
pub open spec fn versioned_parts(s: Seq<char>) -> Option<(u32, u32, Seq<char>)> {
    match first_index(s, '_') {
        None => None,
        Some(i) => {
            let rest = s.subrange(i + 1, s.len() as int);
            match first_index(rest, '_') {
                None => None,
                Some(j) => match (
                    parse_u32_spec(s.subrange(0, i)),
                    parse_u32_spec(rest.subrange(0, j)),
                ) {
                    (Some(a), Some(b)) => Some((a, b, rest.subrange(j + 1, rest.len() as int))),
                    _ => None,
                },
            }
        },
    }
}

pub open spec fn versioned_linux_spec(s: Seq<char>) -> Option<(u32, u32, LinuxArch)> {
    match versioned_parts(s) {
        Some((a, b, r)) => match linux_arch_spec(r) {
            Some(x) => Some((a, b, x)),
            None => None,
        },
        None => None,
    }
}

pub open spec fn versioned_mac_spec(s: Seq<char>) -> Option<(u32, u32, MacArch)> {
    match versioned_parts(s) {
        Some((a, b, r)) => match mac_arch_spec(r) {
            Some(x) => Some((a, b, x)),
            None => None,
        },
        None => None,
    }
}

pub open spec fn after(s: Seq<char>, p: Seq<char>) -> Seq<char> {
    s.subrange(p.len() as int, s.len() as int)
}

/// A legacy manylinux alias: the arch must be known, else the tag shape is
/// rejected with the arch text.
pub open spec fn legacy_linux(s: Seq<char>, p: Seq<char>, minor: u32) -> Result<
    PlatformTagModel,
    Seq<char>,
> {
    match linux_arch_spec(after(s, p)) {
        Some(a) => Ok(PlatformTagModel::ManyLinux { major: 2, minor: minor, arch: a }),
        None => Err(after(s, p)),
    }
}

/// The platform tag read from one platform segment; `Err` carries the
/// unknown arch of a legacy manylinux alias.
pub open spec fn platform_tag_spec(s: Seq<char>) -> Result<PlatformTagModel, Seq<char>> {
    if s == "any"@ {
        Ok(PlatformTagModel::Any)
    } else if starts_with(s, "manylinux1_"@) {
        legacy_linux(s, "manylinux1_"@, 5)
    } else if starts_with(s, "manylinux2010_"@) {
        legacy_linux(s, "manylinux2010_"@, 12)
    } else if starts_with(s, "manylinux2014_"@) {
        legacy_linux(s, "manylinux2014_"@, 17)
    } else {
        Ok(versioned_platform_spec(s))
    }
}

/// The `manylinux_`/`musllinux_`/`macosx_` forms; anything else is kept opaque.
pub open spec fn versioned_platform_spec(s: Seq<char>) -> PlatformTagModel {
    if starts_with(s, "manylinux_"@) && versioned_linux_spec(after(s, "manylinux_"@)) is Some {
        let (a, b, x) = versioned_linux_spec(after(s, "manylinux_"@))->0;
        PlatformTagModel::ManyLinux { major: a, minor: b, arch: x }
    } else if starts_with(s, "musllinux_"@) && versioned_linux_spec(after(s, "musllinux_"@)) is Some {
        let (a, b, x) = versioned_linux_spec(after(s, "musllinux_"@))->0;
        PlatformTagModel::MuslLinux { major: a, minor: b, arch: x }
    } else if starts_with(s, "macosx_"@) && versioned_mac_spec(after(s, "macosx_"@)) is Some {
        let (a, b, x) = versioned_mac_spec(after(s, "macosx_"@))->0;
        PlatformTagModel::MacOs { major: a, minor: b, arch: x }
    } else {
        PlatformTagModel::Other(s)
    }
}

/// `collect::<Result<Vec<_>, _>>()`: all values, or the first error.
pub open spec fn collect_platforms(segs: Seq<Seq<char>>) -> Result<Seq<PlatformTagModel>, Seq<char>>
    decreases segs.len(),
{
    if segs.len() == 0 {
        Ok(Seq::empty())
    } else {
        match collect_platforms(segs.drop_last()) {
            Err(e) => Err(e),
            Ok(v) => match platform_tag_spec(segs.last()) {
                Ok(p) => Ok(v.push(p)),
                Err(e) => Err(e),
            },
        }
    }
}

/// The tags for one python tag and one abi tag, over every platform tag.
pub open spec fn tag_row(p: PythonTagModel, a: AbiTagModel, qs: Seq<PlatformTagModel>) -> Seq<
    TagModel,
>
    decreases qs.len(),
{
    if qs.len() == 0 {
        Seq::empty()
    } else {
        tag_row(p, a, qs.drop_last()).push(TagModel { python: p, abi: a, plat: qs.last() })
    }
}

/// The tags for one python tag over every abi tag and platform tag.
pub open spec fn tag_block(p: PythonTagModel, abis: Seq<AbiTagModel>, qs: Seq<PlatformTagModel>) -> Seq<
    TagModel,
>
    decreases abis.len(),
{
    if abis.len() == 0 {
        Seq::empty()
    } else {
        tag_block(p, abis.drop_last(), qs) + tag_row(p, abis.last(), qs)
    }
}

/// Every (python, abi, platform) combination, python outermost.
pub open spec fn tag_product(
    ps: Seq<PythonTagModel>,
    abis: Seq<AbiTagModel>,
    qs: Seq<PlatformTagModel>,
) -> Seq<TagModel>
    decreases ps.len(),
{
    if ps.len() == 0 {
        Seq::empty()
    } else {
        tag_product(ps.drop_last(), abis, qs) + tag_block(ps.last(), abis, qs)
    }
}

/// Keeps the first occurrence of every element, in order.
pub open spec fn dedup_seq<A>(s: Seq<A>) -> Seq<A>
    decreases s.len(),
{
    if s.len() == 0 {
        s
    } else {
        let p = dedup_seq(s.drop_last());
        if p.contains(s.last()) {
            p
        } else {
            p.push(s.last())
        }
    }
}

pub open spec fn wheel_stem(f: Seq<char>) -> Seq<char> {
    f.subrange(0, f.len() - ".whl"@.len())
}

/// The three tag segments of a filename stem split on `-`: the last three.
pub open spec fn tag_segments(parts: Seq<Seq<char>>) -> (Seq<char>, Seq<char>, Seq<char>) {
    let n = parts.len();
    (parts[n - 3], parts[n - 2], parts[n - 1])
}

/// The result of parsing a wheel filename: every tag triple it lists, without repeats.
pub open spec fn parse_filename_spec(f: Seq<char>) -> Result<Seq<TagModel>, TagParseErrorModel> {
    if !ends_with(f, ".whl"@) {
        Err(TagParseErrorModel::MalformedFilename(f))
    } else {
        let parts = split_seq(wheel_stem(f), '-');
        if parts.len() < 5 {
            Err(TagParseErrorModel::MalformedFilename(f))
        } else {
            let (py, abi, plat) = tag_segments(parts);
            let pys = split_seq(py, '.').map_values(|x: Seq<char>| python_tag_spec(x));
            let abis = split_seq(abi, '.').map_values(|x: Seq<char>| abi_tag_spec(x));
            match collect_platforms(split_seq(plat, '.')) {
                Err(e) => Err(TagParseErrorModel::UnknownTagShape(e)),
                Ok(qs) => Ok(dedup_seq(tag_product(pys, abis, qs))),
            }
        }
    }
}

// ---- Lemmas ----

pub proof fn lemma_dedup_contains<A>(s: Seq<A>, x: A)
    ensures
        dedup_seq(s).contains(x) <==> s.contains(x),
    decreases s.len(),
{
    if s.len() > 0 {
        lemma_dedup_contains(s.drop_last(), x);
        let p = dedup_seq(s.drop_last());
        if s.contains(x) && !s.drop_last().contains(x) {
            let i = choose|i: int| 0 <= i < s.len() && s[i] == x;
            if i < s.len() - 1 {
                assert(s.drop_last()[i] == x);
            }
            assert(s.last() == x);
            if !p.contains(s.last()) {
                assert(p.push(s.last())[p.len() as int] == x);
            }
        }
        if s.drop_last().contains(x) {
            let i = choose|i: int| 0 <= i < s.drop_last().len() && s.drop_last()[i] == x;
            assert(s[i] == x);
            if !p.contains(s.last()) {
                let k = choose|k: int| 0 <= k < p.len() && p[k] == x;
                assert(p.push(s.last())[k] == x);
            }
        }
        if dedup_seq(s).contains(x) && !p.contains(x) {
            assert(s.last() == x);
            assert(s[s.len() - 1] == x);
        }
    }
}

/// No element repeats in a deduplicated sequence.
pub proof fn lemma_dedup_no_duplicates<A>(s: Seq<A>)
    ensures
        dedup_seq(s).no_duplicates(),
    decreases s.len(),
{
    if s.len() > 0 {
        lemma_dedup_no_duplicates(s.drop_last());
    }
}

proof fn lemma_row_step(p: PythonTagModel, a: AbiTagModel, qs: Seq<PlatformTagModel>, k: int)
    requires
        0 <= k < qs.len(),
    ensures
        tag_row(p, a, qs.subrange(0, k + 1)) == tag_row(p, a, qs.subrange(0, k)).push(
            TagModel { python: p, abi: a, plat: qs[k] },
        ),
{
    assert(qs.subrange(0, k + 1).drop_last() =~= qs.subrange(0, k));
}

proof fn lemma_block_step(p: PythonTagModel, abis: Seq<AbiTagModel>, qs: Seq<PlatformTagModel>, j: int)
    requires
        0 <= j < abis.len(),
    ensures
        tag_block(p, abis.subrange(0, j + 1), qs) == tag_block(p, abis.subrange(0, j), qs)
            + tag_row(p, abis[j], qs),
{
    assert(abis.subrange(0, j + 1).drop_last() =~= abis.subrange(0, j));
}

proof fn lemma_product_step(
    ps: Seq<PythonTagModel>,
    abis: Seq<AbiTagModel>,
    qs: Seq<PlatformTagModel>,
    i: int,
)
    requires
        0 <= i < ps.len(),
    ensures
        tag_product(ps.subrange(0, i + 1), abis, qs) == tag_product(ps.subrange(0, i), abis, qs)
            + tag_block(ps[i], abis, qs),
{
    assert(ps.subrange(0, i + 1).drop_last() =~= ps.subrange(0, i));
}

// ---- Executable parser ----

fn linux_arch_of(s: &[char]) -> (r: Option<LinuxArch>)
    ensures
        r == linux_arch_spec(s@),
{
    let x = chars_of("x86_64");
    let a = chars_of("aarch64");
    if chars_eq(s, x.as_slice()) {
        Some(LinuxArch::X86_64)
    } else if chars_eq(s, a.as_slice()) {
        Some(LinuxArch::Aarch64)
    } else {
        None
    }
}

fn mac_arch_of(s: &[char]) -> (r: Option<MacArch>)
    ensures
        r == mac_arch_spec(s@),
{
    let x = chars_of("x86_64");
    let a = chars_of("arm64");
    let u = chars_of("universal2");
    if chars_eq(s, x.as_slice()) {
        Some(MacArch::X86_64)
    } else if chars_eq(s, a.as_slice()) {
        Some(MacArch::Arm64)
    } else if chars_eq(s, u.as_slice()) {
        Some(MacArch::Universal2)
    } else {
        None
    }
}

/// Parse the digit string after `cp` or `py`. Returns (major, optional minor).
/// `"3"` → (3, None); `"312"` → (3, Some(12)); `"37"` → (3, Some(7)).
pub fn parse_version_digits(s: &[char]) -> (r: Option<(u8, Option<u8>)>)
    ensures
        r == version_digits(s@),
{
    if s.len() == 0 {
        return None;
    }
    let mut i: usize = 0;
    while i < s.len()
        invariant
            i <= s@.len(),
            forall|k: int| 0 <= k < i ==> is_digit(#[trigger] s@[k]),
        decreases s@.len() - i,
    {
        if !('0' <= s[i] && s[i] <= '9') {
            assert(!is_digit(s@[i as int]));
            return None;
        }
        i += 1;
    }
    let major = (s[0] as u32 - '0' as u32) as u8;
    if s.len() == 1 {
        return Some((major, None));
    }
    let rest = slice_chars(s, 1, s.len());
    match parse_u8(rest.as_slice()) {
        Some(m) => Some((major, Some(m))),
        None => None,
    }
}

fn parse_python_tag(s: &[char]) -> (r: PythonTag)
    ensures
        r@ == python_tag_spec(s@),
{
    let cp = chars_of("cp");
    let py = chars_of("py");
    if has_prefix(s, cp.as_slice()) {
        let rest = slice_chars(s, cp.len(), s.len());
        match parse_version_digits(rest.as_slice()) {
            Some((maj, min)) => PythonTag::CPython(
                maj,
                match min {
                    Some(m) => m,
                    None => 0,
                },
            ),
            None => PythonTag::Other(string_of(s)),
        }
    } else if has_prefix(s, py.as_slice()) {
        let rest = slice_chars(s, py.len(), s.len());
        match parse_version_digits(rest.as_slice()) {
            Some((maj, min)) => PythonTag::Py(maj, min),
            None => PythonTag::Other(string_of(s)),
        }
    } else {
        PythonTag::Other(string_of(s))
    }
}

fn parse_abi_tag(s: &[char]) -> (r: AbiTag)
    ensures
        r@ == abi_tag_spec(s@),
{
    let abi3 = chars_of("abi3");
    let none = chars_of("none");
    let cp = chars_of("cp");
    if chars_eq(s, abi3.as_slice()) {
        AbiTag::Abi3
    } else if chars_eq(s, none.as_slice()) {
        AbiTag::NoAbi
    } else if has_prefix(s, cp.as_slice()) {
        let rest = slice_chars(s, cp.len(), s.len());
        match parse_version_digits(rest.as_slice()) {
            Some((maj, min)) => AbiTag::CPython(
                maj,
                match min {
                    Some(m) => m,
                    None => 0,
                },
            ),
            None => AbiTag::Other(string_of(s)),
        }
    } else {
        AbiTag::Other(string_of(s))
    }
}

/// Cuts `<major>_<minor>_<rest>` and parses both numbers.
fn split_versioned(s: &[char]) -> (r: Option<(u32, u32, Vec<char>)>)
    ensures
        r matches Some((a, b, v)) ==> versioned_parts(s@) == Some((a, b, v@)),
        r is None ==> versioned_parts(s@) is None,
{
    let n = s.len();
    match find_char(s, '_') {
        None => None,
        Some(i) => {
            let rest = slice_chars(s, i + 1, n);
            match find_char(rest.as_slice(), '_') {
                None => None,
                Some(j) => {
                    let a_txt = slice_chars(s, 0, i);
                    let b_txt = slice_chars(rest.as_slice(), 0, j);
                    match (parse_u32(a_txt.as_slice()), parse_u32(b_txt.as_slice())) {
                        (Some(a), Some(b)) => {
                            let tail = slice_chars(rest.as_slice(), j + 1, rest.len());
                            Some((a, b, tail))
                        },
                        _ => None,
                    }
                },
            }
        },
    }
}

/// Parse `<major>_<minor>_<arch>` for manylinux/musllinux.
fn split_versioned_linux(s: &[char]) -> (r: Option<(u32, u32, LinuxArch)>)
    ensures
        r == versioned_linux_spec(s@),
{
    match split_versioned(s) {
        Some((a, b, rest)) => match linux_arch_of(rest.as_slice()) {
            Some(x) => Some((a, b, x)),
            None => None,
        },
        None => None,
    }
}

/// Parse `<major>_<minor>_<arch>` for macosx.
fn split_versioned_mac(s: &[char]) -> (r: Option<(u32, u32, MacArch)>)
    ensures
        r == versioned_mac_spec(s@),
{
    match split_versioned(s) {
        Some((a, b, rest)) => match mac_arch_of(rest.as_slice()) {
            Some(x) => Some((a, b, x)),
            None => None,
        },
        None => None,
    }
}

fn legacy_linux_of(s: &[char], p: &[char], minor: u32) -> (r: Result<PlatformTag, TagParseError>)
    requires
        starts_with(s@, p@),
    ensures
        r matches Ok(t) ==> legacy_linux(s@, p@, minor) == Ok::<PlatformTagModel, Seq<char>>(
            t@,
        ),
        r matches Err(e) ==> legacy_linux(s@, p@, minor) is Err && e@
            == TagParseErrorModel::UnknownTagShape(legacy_linux(s@, p@, minor)->Err_0),
{
    let arch = slice_chars(s, p.len(), s.len());
    match linux_arch_of(arch.as_slice()) {
        Some(a) => Ok(PlatformTag::ManyLinux { major: 2, minor: minor, arch: a }),
        None => Err(TagParseError::UnknownTagShape(string_of(arch.as_slice()))),
    }
}

fn parse_platform_tag(s: &[char]) -> (r: Result<PlatformTag, TagParseError>)
    ensures
        r matches Ok(t) ==> platform_tag_spec(s@) == Ok::<PlatformTagModel, Seq<char>>(t@),
        r matches Err(e) ==> platform_tag_spec(s@) is Err && e@
            == TagParseErrorModel::UnknownTagShape(platform_tag_spec(s@)->Err_0),
{
    let any = chars_of("any");
    let m1 = chars_of("manylinux1_");
    let m2010 = chars_of("manylinux2010_");
    let m2014 = chars_of("manylinux2014_");
    if chars_eq(s, any.as_slice()) {
        return Ok(PlatformTag::Any);
    }
    if has_prefix(s, m1.as_slice()) {
        return legacy_linux_of(s, m1.as_slice(), 5);
    }
    if has_prefix(s, m2010.as_slice()) {
        return legacy_linux_of(s, m2010.as_slice(), 12);
    }
    if has_prefix(s, m2014.as_slice()) {
        return legacy_linux_of(s, m2014.as_slice(), 17);
    }
    Ok(parse_versioned_platform(s))
}

fn parse_versioned_platform(s: &[char]) -> (r: PlatformTag)
    ensures
        r@ == versioned_platform_spec(s@),
{
    let many = chars_of("manylinux_");
    let musl = chars_of("musllinux_");
    let mac = chars_of("macosx_");
    if has_prefix(s, many.as_slice()) {
        let rest = slice_chars(s, many.len(), s.len());
        if let Some((maj, min, arch)) = split_versioned_linux(rest.as_slice()) {
            return PlatformTag::ManyLinux { major: maj, minor: min, arch };
        }
        // fall through to Other for unknown arches (s390x, ppc64le, armv7l, etc.)
    }
    if has_prefix(s, musl.as_slice()) {
        let rest = slice_chars(s, musl.len(), s.len());
        if let Some((maj, min, arch)) = split_versioned_linux(rest.as_slice()) {
            return PlatformTag::MuslLinux { major: maj, minor: min, arch };
        }
    }
    if has_prefix(s, mac.as_slice()) {
        let rest = slice_chars(s, mac.len(), s.len());
        if let Some((maj, min, arch)) = split_versioned_mac(rest.as_slice()) {
            return PlatformTag::MacOs { major: maj, minor: min, arch };
        }
    }
    PlatformTag::Other(string_of(s))
}

// ---- Copies ----

pub fn copy_python_tag(t: &PythonTag) -> (r: PythonTag)
    ensures
        r@ == t@,
{
    match t {
        PythonTag::CPython(a, b) => PythonTag::CPython(*a, *b),
        PythonTag::Py(a, b) => PythonTag::Py(*a, *b),
        PythonTag::Other(s) => PythonTag::Other(copy_string(s)),
    }
}

pub fn copy_abi_tag(t: &AbiTag) -> (r: AbiTag)
    ensures
        r@ == t@,
{
    match t {
        AbiTag::CPython(a, b) => AbiTag::CPython(*a, *b),
        AbiTag::Abi3 => AbiTag::Abi3,
        AbiTag::NoAbi => AbiTag::NoAbi,
        AbiTag::Other(s) => AbiTag::Other(copy_string(s)),
    }
}

pub fn copy_platform_tag(t: &PlatformTag) -> (r: PlatformTag)
    ensures
        r@ == t@,
{
    match t {
        PlatformTag::Any => PlatformTag::Any,
        PlatformTag::ManyLinux { major, minor, arch } => PlatformTag::ManyLinux {
            major: *major,
            minor: *minor,
            arch: *arch,
        },
        PlatformTag::MuslLinux { major, minor, arch } => PlatformTag::MuslLinux {
            major: *major,
            minor: *minor,
            arch: *arch,
        },
        PlatformTag::MacOs { major, minor, arch } => PlatformTag::MacOs {
            major: *major,
            minor: *minor,
            arch: *arch,
        },
        PlatformTag::Other(s) => PlatformTag::Other(copy_string(s)),
    }
}

impl Tag {
    /// A copy of this tag.
    pub fn copy(&self) -> (r: Tag)
        ensures
            r@ == self@,
    {
        Tag {
            python: copy_python_tag(&self.python),
            abi: copy_abi_tag(&self.abi),
            plat: copy_platform_tag(&self.plat),
        }
    }
}

// ---- Equality ----

pub fn python_tag_eq(a: &PythonTag, b: &PythonTag) -> (r: bool)
    ensures
        r == (a@ == b@),
{
    match (a, b) {
        (PythonTag::CPython(a1, a2), PythonTag::CPython(b1, b2)) => *a1 == *b1 && *a2 == *b2,
        (PythonTag::Py(a1, a2), PythonTag::Py(b1, b2)) => *a1 == *b1 && match (a2, b2) {
            (Some(x), Some(y)) => *x == *y,
            (None, None) => true,
            _ => false,
        },
        (PythonTag::Other(x), PythonTag::Other(y)) => *x == *y,
        _ => false,
    }
}

pub fn abi_tag_eq(a: &AbiTag, b: &AbiTag) -> (r: bool)
    ensures
        r == (a@ == b@),
{
    match (a, b) {
        (AbiTag::CPython(a1, a2), AbiTag::CPython(b1, b2)) => *a1 == *b1 && *a2 == *b2,
        (AbiTag::Abi3, AbiTag::Abi3) => true,
        (AbiTag::NoAbi, AbiTag::NoAbi) => true,
        (AbiTag::Other(x), AbiTag::Other(y)) => *x == *y,
        _ => false,
    }
}

pub fn platform_tag_eq(a: &PlatformTag, b: &PlatformTag) -> (r: bool)
    ensures
        r == (a@ == b@),
{
    match (a, b) {
        (PlatformTag::Any, PlatformTag::Any) => true,
        (
            PlatformTag::ManyLinux { major: a1, minor: a2, arch: a3 },
            PlatformTag::ManyLinux { major: b1, minor: b2, arch: b3 },
        ) => *a1 == *b1 && *a2 == *b2 && *a3 == *b3,
        (
            PlatformTag::MuslLinux { major: a1, minor: a2, arch: a3 },
            PlatformTag::MuslLinux { major: b1, minor: b2, arch: b3 },
        ) => *a1 == *b1 && *a2 == *b2 && *a3 == *b3,
        (
            PlatformTag::MacOs { major: a1, minor: a2, arch: a3 },
            PlatformTag::MacOs { major: b1, minor: b2, arch: b3 },
        ) => *a1 == *b1 && *a2 == *b2 && *a3 == *b3,
        (PlatformTag::Other(x), PlatformTag::Other(y)) => *x == *y,
        _ => false,
    }
}

/// Equality of tags by content.
pub fn tag_eq(a: &Tag, b: &Tag) -> (r: bool)
    ensures
        r == (a@ == b@),
{
    python_tag_eq(&a.python, &b.python) && abi_tag_eq(&a.abi, &b.abi) && platform_tag_eq(
        &a.plat,
        &b.plat,
    )
}

/// Whether `v` holds a tag equal to `t`.
pub fn contains_tag(v: &Vec<Tag>, t: &Tag) -> (r: bool)
    ensures
        r == tags_model(v@).contains(t@),
{
    let mut i: usize = 0;
    while i < v.len()
        invariant
            i <= v@.len(),
            forall|k: int| 0 <= k < i ==> v@[k]@ != t@,
        decreases v@.len() - i,
    {
        if tag_eq(&v[i], t) {
            assert(tags_model(v@)[i as int] == t@);
            return true;
        }
        i += 1;
    }
    proof {
        if tags_model(v@).contains(t@) {
            let k = choose|k: int| 0 <= k < tags_model(v@).len() && tags_model(v@)[k] == t@;
            assert(v@[k]@ == t@);
        }
    }
    false
}

// ---- Filename parsing ----

/// Parses every segment, stopping at the first error.
fn parse_platform_segments(segs: &Vec<Vec<char>>) -> (r: Result<Vec<PlatformTag>, TagParseError>)
    ensures
        r matches Ok(v) ==> collect_platforms(segs@.map_values(|x: Vec<char>| x@)) == Ok::<
            Seq<PlatformTagModel>,
            Seq<char>,
        >(v@.map_values(|t: PlatformTag| t@)),
        r matches Err(e) ==> collect_platforms(segs@.map_values(|x: Vec<char>| x@)) is Err
            && e@ == TagParseErrorModel::UnknownTagShape(
            collect_platforms(segs@.map_values(|x: Vec<char>| x@))->Err_0,
        ),
{
    let ghost model = segs@.map_values(|x: Vec<char>| x@);
    let mut out: Vec<PlatformTag> = Vec::new();
    let mut i: usize = 0;
    assert(model.subrange(0, 0) =~= Seq::<Seq<char>>::empty());
    assert(out@.map_values(|t: PlatformTag| t@) =~= Seq::<PlatformTagModel>::empty());
    while i < segs.len()
        invariant
            i <= segs@.len(),
            model == segs@.map_values(|x: Vec<char>| x@),
            collect_platforms(model.subrange(0, i as int)) == Ok::<
                Seq<PlatformTagModel>,
                Seq<char>,
            >(out@.map_values(|t: PlatformTag| t@)),
        decreases segs@.len() - i,
    {
        proof {
            assert(model.subrange(0, i + 1).drop_last() =~= model.subrange(0, i as int));
        }
        match parse_platform_tag(segs[i].as_slice()) {
            Ok(t) => {
                let ghost prev = out@;
                let ghost tm = t@;
                out.push(t);
                proof {
                    assert(model[i as int] == segs@[i as int]@);
                    assert(model.subrange(0, i + 1).last() == model[i as int]);
                    assert(out@.map_values(|t: PlatformTag| t@) =~= prev.map_values(
                        |t: PlatformTag| t@,
                    ).push(tm));
                }
            },
            Err(e) => {
                proof {
                    assert(model[i as int] == segs@[i as int]@);
                    assert(model.subrange(0, i + 1).last() == model[i as int]);
                    lemma_collect_err_prefix(model, i as int + 1);
                }
                return Err(e);
            },
        }
        i += 1;
    }
    assert(model.subrange(0, segs@.len() as int) =~= model);
    Ok(out)
}

/// An error in a prefix of the segments is the error of the whole.
proof fn lemma_collect_err_prefix(segs: Seq<Seq<char>>, n: int)
    requires
        0 <= n <= segs.len(),
        collect_platforms(segs.subrange(0, n)) is Err,
    ensures
        collect_platforms(segs) == collect_platforms(segs.subrange(0, n)),
    decreases segs.len() - n,
{
    if n < segs.len() {
        assert(segs.subrange(0, n + 1).drop_last() =~= segs.subrange(0, n));
        lemma_collect_err_prefix(segs, n + 1);
    } else {
        assert(segs.subrange(0, n) =~= segs);
    }
}

/// Parse a PEP 427 wheel filename into all its compatible Tag triples.
pub fn parse_filename(filename: &str) -> (r: Result<WheelTag, TagParseError>)
    ensures
        r matches Ok(w) ==> parse_filename_spec(filename@) == Ok::<
            Seq<TagModel>,
            TagParseErrorModel,
        >(tags_model(w.tags@)) && w.raw_filename@ == filename@,
        r matches Err(e) ==> parse_filename_spec(filename@) == Err::<
            Seq<TagModel>,
            TagParseErrorModel,
        >(e@),
{
    let f = chars_of(filename);
    let whl = chars_of(".whl");
    if !has_suffix(f.as_slice(), whl.as_slice()) {
        return Err(TagParseError::MalformedFilename(owned(filename)));
    }
    let stem = slice_chars(f.as_slice(), 0, f.len() - whl.len());
    let parts = split_chars(stem.as_slice(), '-');
    if parts.len() < 5 {
        return Err(TagParseError::MalformedFilename(owned(filename)));
    }
    let n = parts.len();
    let py_segs = split_chars(parts[n - 3].as_slice(), '.');
    let abi_segs = split_chars(parts[n - 2].as_slice(), '.');
    let plat_segs = split_chars(parts[n - 1].as_slice(), '.');
    let ghost segs_model = plat_segs@.map_values(|x: Vec<char>| x@);
    assert(segs_model =~= split_seq(parts@[n - 1]@, '.'));

    let mut pythons: Vec<PythonTag> = Vec::new();
    let mut i: usize = 0;
    while i < py_segs.len()
        invariant
            i <= py_segs@.len(),
            pythons@.len() == i,
            forall|k: int| 0 <= k < i ==> (#[trigger] pythons@[k])@ == python_tag_spec(py_segs@[k]@),
        decreases py_segs@.len() - i,
    {
        let t = parse_python_tag(py_segs[i].as_slice());
        pythons.push(t);
        i += 1;
    }
    let mut abis: Vec<AbiTag> = Vec::new();
    let mut i: usize = 0;
    while i < abi_segs.len()
        invariant
            i <= abi_segs@.len(),
            abis@.len() == i,
            forall|k: int| 0 <= k < i ==> (#[trigger] abis@[k])@ == abi_tag_spec(abi_segs@[k]@),
        decreases abi_segs@.len() - i,
    {
        let t = parse_abi_tag(abi_segs[i].as_slice());
        abis.push(t);
        i += 1;
    }
    let plats = match parse_platform_segments(&plat_segs) {
        Ok(v) => v,
        Err(e) => {
            return Err(e);
        },
    };

    let ghost pm = pythons@.map_values(|t: PythonTag| t@);
    let ghost am = abis@.map_values(|t: AbiTag| t@);
    let ghost qm = plats@.map_values(|t: PlatformTag| t@);
    proof {
        assert(pm =~= split_seq(parts@[n - 3]@, '.').map_values(|x: Seq<char>| python_tag_spec(x)));
        assert(am =~= split_seq(parts@[n - 2]@, '.').map_values(|x: Seq<char>| abi_tag_spec(x)));
    }

    let mut tags: Vec<Tag> = Vec::new();
    let ghost mut seen: Seq<TagModel> = Seq::empty();
    let mut i: usize = 0;
    while i < pythons.len()
        invariant
            i <= pythons@.len(),
            pm == pythons@.map_values(|t: PythonTag| t@),
            am == abis@.map_values(|t: AbiTag| t@),
            qm == plats@.map_values(|t: PlatformTag| t@),
            seen == tag_product(pm.subrange(0, i as int), am, qm),
            tags_model(tags@) == dedup_seq(seen),
        decreases pythons@.len() - i,
    {
        proof {
            lemma_product_step(pm, am, qm, i as int);
        }
        let ghost before_block = seen;
        let mut j: usize = 0;
        assert(am.subrange(0, 0) =~= Seq::<AbiTagModel>::empty());
        while j < abis.len()
            invariant
                i < pythons@.len(),
                j <= abis@.len(),
                pm == pythons@.map_values(|t: PythonTag| t@),
                am == abis@.map_values(|t: AbiTag| t@),
                qm == plats@.map_values(|t: PlatformTag| t@),
                seen == before_block + tag_block(pm[i as int], am.subrange(0, j as int), qm),
                tags_model(tags@) == dedup_seq(seen),
            decreases abis@.len() - j,
        {
            proof {
                lemma_block_step(pm[i as int], am, qm, j as int);
            }
            let ghost before_row = seen;
            let mut k: usize = 0;
            assert(qm.subrange(0, 0) =~= Seq::<PlatformTagModel>::empty());
            while k < plats.len()
                invariant
                    i < pythons@.len(),
                    j < abis@.len(),
                    k <= plats@.len(),
                    pm == pythons@.map_values(|t: PythonTag| t@),
                    am == abis@.map_values(|t: AbiTag| t@),
                    qm == plats@.map_values(|t: PlatformTag| t@),
                    seen == before_row + tag_row(pm[i as int], am[j as int], qm.subrange(0, k as int)),
                    tags_model(tags@) == dedup_seq(seen),
                decreases plats@.len() - k,
            {
                let t = Tag {
                    python: copy_python_tag(&pythons[i]),
                    abi: copy_abi_tag(&abis[j]),
                    plat: copy_platform_tag(&plats[k]),
                };
                proof {
                    lemma_row_step(pm[i as int], am[j as int], qm, k as int);
                }
                let present = contains_tag(&tags, &t);
                let ghost prev_seen = seen;
                proof {
                    seen = seen.push(t@);
                    assert(seen.drop_last() =~= prev_seen);
                }
                if !present {
                    let ghost old_tags = tags@;
                    tags.push(t);
                    proof {
                        assert(tags_model(tags@) =~= tags_model(old_tags).push(seen.last()));
                    }
                }
                k += 1;
                proof {
                    assert(seen =~= before_row + tag_row(
                        pm[i as int],
                        am[j as int],
                        qm.subrange(0, k as int),
                    ));
                }
            }
            j += 1;
            proof {
                assert(qm.subrange(0, qm.len() as int) =~= qm);
                assert(seen =~= before_block + tag_block(pm[i as int], am.subrange(0, j as int), qm));
            }
        }
        i += 1;
        proof {
            assert(am.subrange(0, am.len() as int) =~= am);
            assert(seen =~= tag_product(pm.subrange(0, i as int), am, qm));
        }
    }
    proof {
        assert(pm.subrange(0, pm.len() as int) =~= pm);
    }
    Ok(WheelTag { tags, raw_filename: owned(filename) })
}

// ---- Rendering ----

pub open spec fn python_tag_text(p: PythonTagModel) -> Seq<char> {
    match p {
        PythonTagModel::CPython(a, b) => "cp"@ + decimal(a as nat) + decimal(b as nat),
        PythonTagModel::Py(a, Some(b)) => "py"@ + decimal(a as nat) + decimal(b as nat),
        PythonTagModel::Py(a, None) => "py"@ + decimal(a as nat),
        PythonTagModel::Other(s) => s,
    }
}

pub open spec fn abi_tag_text(a: AbiTagModel) -> Seq<char> {
    match a {
        AbiTagModel::CPython(x, y) => "cp"@ + decimal(x as nat) + decimal(y as nat),
        AbiTagModel::Abi3 => "abi3"@,
        AbiTagModel::NoAbi => "none"@,
        AbiTagModel::Other(s) => s,
    }
}

pub open spec fn linux_arch_text(a: LinuxArch) -> Seq<char> {
    match a {
        LinuxArch::X86_64 => "x86_64"@,
        LinuxArch::Aarch64 => "aarch64"@,
    }
}

pub open spec fn mac_arch_text(a: MacArch) -> Seq<char> {
    match a {
        MacArch::X86_64 => "x86_64"@,
        MacArch::Arm64 => "arm64"@,
        MacArch::Universal2 => "universal2"@,
    }
}

pub open spec fn versioned_text(prefix: Seq<char>, major: u32, minor: u32, arch: Seq<char>) -> Seq<
    char,
> {
    prefix + decimal(major as nat) + "_"@ + decimal(minor as nat) + "_"@ + arch
}

pub open spec fn platform_tag_text(p: PlatformTagModel) -> Seq<char> {
    match p {
        PlatformTagModel::Any => "any"@,
        PlatformTagModel::ManyLinux { major, minor, arch } => versioned_text(
            "manylinux_"@,
            major,
            minor,
            linux_arch_text(arch),
        ),
        PlatformTagModel::MuslLinux { major, minor, arch } => versioned_text(
            "musllinux_"@,
            major,
            minor,
            linux_arch_text(arch),
        ),
        PlatformTagModel::MacOs { major, minor, arch } => versioned_text(
            "macosx_"@,
            major,
            minor,
            mac_arch_text(arch),
        ),
        PlatformTagModel::Other(s) => s,
    }
}

/// `{python}-{abi}-{plat}`.
pub open spec fn tag_text(t: TagModel) -> Seq<char> {
    python_tag_text(t.python) + "-"@ + abi_tag_text(t.abi) + "-"@ + platform_tag_text(t.plat)
}

fn push_python_tag(out: &mut String, p: &PythonTag)
    ensures
        final(out)@ == old(out)@ + python_tag_text(p@),
{
    match p {
        PythonTag::CPython(a, b) => {
            push_str(out, "cp");
            push_decimal(out, *a as u64);
            push_decimal(out, *b as u64);
        },
        PythonTag::Py(a, Some(b)) => {
            push_str(out, "py");
            push_decimal(out, *a as u64);
            push_decimal(out, *b as u64);
        },
        PythonTag::Py(a, None) => {
            push_str(out, "py");
            push_decimal(out, *a as u64);
        },
        PythonTag::Other(s) => {
            push_str(out, s.as_str());
        },
    }
    assert(final(out)@ =~= old(out)@ + python_tag_text(p@));
}

fn push_abi_tag(out: &mut String, a: &AbiTag)
    ensures
        final(out)@ == old(out)@ + abi_tag_text(a@),
{
    match a {
        AbiTag::CPython(x, y) => {
            push_str(out, "cp");
            push_decimal(out, *x as u64);
            push_decimal(out, *y as u64);
        },
        AbiTag::Abi3 => push_str(out, "abi3"),
        AbiTag::NoAbi => push_str(out, "none"),
        AbiTag::Other(s) => push_str(out, s.as_str()),
    }
    assert(final(out)@ =~= old(out)@ + abi_tag_text(a@));
}

fn push_versioned(out: &mut String, prefix: &str, major: u32, minor: u32, arch: &str)
    ensures
        final(out)@ == old(out)@ + versioned_text(prefix@, major, minor, arch@),
{
    push_str(out, prefix);
    push_decimal(out, major as u64);
    push_str(out, "_");
    push_decimal(out, minor as u64);
    push_str(out, "_");
    push_str(out, arch);
    assert(final(out)@ =~= old(out)@ + versioned_text(prefix@, major, minor, arch@));
}

fn linux_arch_str(a: LinuxArch) -> (r: &'static str)
    ensures
        r@ == linux_arch_text(a),
{
    match a {
        LinuxArch::X86_64 => "x86_64",
        LinuxArch::Aarch64 => "aarch64",
    }
}

fn mac_arch_str(a: MacArch) -> (r: &'static str)
    ensures
        r@ == mac_arch_text(a),
{
    match a {
        MacArch::X86_64 => "x86_64",
        MacArch::Arm64 => "arm64",
        MacArch::Universal2 => "universal2",
    }
}

fn push_platform_tag(out: &mut String, p: &PlatformTag)
    ensures
        final(out)@ == old(out)@ + platform_tag_text(p@),
{
    match p {
        PlatformTag::Any => push_str(out, "any"),
        PlatformTag::ManyLinux { major, minor, arch } => {
            push_versioned(out, "manylinux_", *major, *minor, linux_arch_str(*arch))
        },
        PlatformTag::MuslLinux { major, minor, arch } => {
            push_versioned(out, "musllinux_", *major, *minor, linux_arch_str(*arch))
        },
        PlatformTag::MacOs { major, minor, arch } => {
            push_versioned(out, "macosx_", *major, *minor, mac_arch_str(*arch))
        },
        PlatformTag::Other(s) => push_str(out, s.as_str()),
    }
}

impl PythonTag {
    /// The tag as written in a wheel filename (`cp312`, `py3`, ...).
    pub fn to_string(&self) -> (r: String)
        ensures
            r@ == python_tag_text(self@),
    {
        let mut out = String::new();
        push_python_tag(&mut out, self);
        out
    }
}

impl AbiTag {
    /// The tag as written in a wheel filename (`cp312`, `abi3`, `none`, ...).
    pub fn to_string(&self) -> (r: String)
        ensures
            r@ == abi_tag_text(self@),
    {
        let mut out = String::new();
        push_abi_tag(&mut out, self);
        out
    }
}

impl PlatformTag {
    /// The canonical platform tag (`manylinux_2_17_x86_64`, `any`, ...).
    pub fn to_string(&self) -> (r: String)
        ensures
            r@ == platform_tag_text(self@),
    {
        let mut out = String::new();
        push_platform_tag(&mut out, self);
        out
    }
}

impl Tag {
    /// The canonical `{python}-{abi}-{plat}` form of the tag.
    pub fn to_string(&self) -> (r: String)
        ensures
            r@ == tag_text(self@),
    {
        let mut out = String::new();
        push_python_tag(&mut out, &self.python);
        push_str(&mut out, "-");
        push_abi_tag(&mut out, &self.abi);
        push_str(&mut out, "-");
        push_platform_tag(&mut out, &self.plat);
        assert(out@ =~= tag_text(self@));
        out
    }
}

/// Renders a tag as `{python}-{abi}-{plat}` for diagnostics output.
pub fn render_tag(t: &Tag) -> (r: String)
    ensures
        r@ == tag_text(t@),
{
    t.to_string()
}

impl TagParseError {
    /// The error message.
    pub fn to_string(&self) -> (r: String)
        ensures
            r@ == (match self@ {
                TagParseErrorModel::MalformedFilename(f) => "wheel filename `"@ + f
                    + "` does not match PEP 427 structure"@,
                TagParseErrorModel::UnknownTagShape(s) => "unknown structure in tag segment of `"@
                    + s + "`"@,
            }),
    {
        let mut out = String::new();
        match self {
            TagParseError::MalformedFilename(f) => {
                push_str(&mut out, "wheel filename `");
                push_str(&mut out, f.as_str());
                push_str(&mut out, "` does not match PEP 427 structure");
            },
            TagParseError::UnknownTagShape(s) => {
                push_str(&mut out, "unknown structure in tag segment of `");
                push_str(&mut out, s.as_str());
                push_str(&mut out, "`");
            },
        }
        assert(out@ =~= (match self@ {
            TagParseErrorModel::MalformedFilename(f) => "wheel filename `"@ + f
                + "` does not match PEP 427 structure"@,
            TagParseErrorModel::UnknownTagShape(s) => "unknown structure in tag segment of `"@ + s
                + "`"@,
        }));
        out
    }
}


// ---- Reading back a rendered tag ----

/// A tag whose text reads back as itself: no component kept as opaque
/// text, and single-digit major versions (so the digits cannot be cut
/// elsewhere).
pub open spec fn renders_plainly(t: TagModel) -> bool {
    &&& match t.python {
        PythonTagModel::CPython(a, _) => a <= 9,
        PythonTagModel::Py(a, _) => a <= 9,
        PythonTagModel::Other(_) => false,
    }
    &&& match t.abi {
        AbiTagModel::CPython(a, _) => a <= 9,
        AbiTagModel::Other(_) => false,
        _ => true,
    }
    &&& !(t.plat is Other)
}

proof fn lemma_version_digits(a: u8, mb: Option<u8>)
    requires
        a <= 9,
    ensures
        version_digits(decimal(a as nat) + match mb {
            Some(b) => decimal(b as nat),
            None => Seq::empty(),
        }) == Some((a, mb)),
{
    lemma_decimal_digits(a as nat);
    lemma_digit_char(a as nat);
    let tail = match mb {
        Some(b) => decimal(b as nat),
        None => Seq::<char>::empty(),
    };
    let d = decimal(a as nat) + tail;
    match mb {
        Some(b) => {
            lemma_decimal_digits(b as nat);
            lemma_parse_decimal(b as nat, u8::MAX as nat);
            assert(d.subrange(1, d.len() as int) =~= decimal(b as nat));
            assert(all_digits(d));
        },
        None => {
            assert(d =~= seq![digit_char(a as nat)]);
        },
    }
}

proof fn lemma_python_text(p: PythonTagModel)
    requires
        !(p is Other),
        match p {
            PythonTagModel::CPython(a, _) => a <= 9,
            PythonTagModel::Py(a, _) => a <= 9,
            _ => true,
        },
    ensures
        python_tag_spec(python_tag_text(p)) == p,
        free_of(python_tag_text(p), '-'),
        free_of(python_tag_text(p), '.'),
{
    reveal_strlit("cp");
    reveal_strlit("py");
    let s = python_tag_text(p);
    match p {
        PythonTagModel::CPython(a, b) => {
            lemma_version_digits(a, Some(b));
            assert(s.subrange(2, s.len() as int) =~= decimal(a as nat) + decimal(b as nat));
            assert(s.subrange(0, 2) =~= "cp"@);
            assert(starts_with(s, "cp"@));
            lemma_decimal_free(a as nat, '-');
            lemma_decimal_free(b as nat, '-');
            lemma_decimal_free(a as nat, '.');
            lemma_decimal_free(b as nat, '.');
        },
        PythonTagModel::Py(a, mb) => {
            lemma_version_digits(a, mb);
            let tail = match mb {
                Some(b) => decimal(b as nat),
                None => Seq::<char>::empty(),
            };
            assert(s =~= "py"@ + (decimal(a as nat) + tail));
            assert(s.subrange(2, s.len() as int) =~= decimal(a as nat) + tail);
            assert(!starts_with(s, "cp"@)) by {
                if starts_with(s, "cp"@) {
                    assert(s.subrange(0, 2)[0] == s[0]);
                }
            }
            assert(s.subrange(0, 2) =~= "py"@);
            assert(starts_with(s, "py"@));
            lemma_decimal_free(a as nat, '-');
            lemma_decimal_free(a as nat, '.');
            if let Some(b) = mb {
                lemma_decimal_free(b as nat, '-');
                lemma_decimal_free(b as nat, '.');
            }
        },
        _ => {},
    }
}

proof fn lemma_abi_text(a: AbiTagModel)
    requires
        !(a is Other),
        a matches AbiTagModel::CPython(x, _) ==> x <= 9,
    ensures
        abi_tag_spec(abi_tag_text(a)) == a,
        free_of(abi_tag_text(a), '-'),
        free_of(abi_tag_text(a), '.'),
{
    reveal_strlit("cp");
    reveal_strlit("abi3");
    reveal_strlit("none");
    let s = abi_tag_text(a);
    match a {
        AbiTagModel::CPython(x, y) => {
            lemma_version_digits(x, Some(y));
            assert(s.subrange(2, s.len() as int) =~= decimal(x as nat) + decimal(y as nat));
            assert(s.subrange(0, 2) =~= "cp"@);
            assert(starts_with(s, "cp"@));
            assert(s != "abi3"@) by {
                if s == "abi3"@ {
                    assert(s[0] == 'c');
                }
            }
            assert(s != "none"@) by {
                if s == "none"@ {
                    assert(s[0] == 'c');
                }
            }
            lemma_decimal_free(x as nat, '-');
            lemma_decimal_free(y as nat, '-');
            lemma_decimal_free(x as nat, '.');
            lemma_decimal_free(y as nat, '.');
        },
        AbiTagModel::NoAbi => {
            assert(s != "abi3"@) by {
                if s == "abi3"@ {
                    assert(s[0] == 'n');
                }
            }
        },
        _ => {},
    }
}


proof fn lemma_arch_texts()
    ensures
        forall|a: LinuxArch| #[trigger] linux_arch_spec(linux_arch_text(a)) == Some(a),
        forall|a: MacArch| #[trigger] mac_arch_spec(mac_arch_text(a)) == Some(a),
        forall|a: LinuxArch| free_of(#[trigger] linux_arch_text(a), '-') && free_of(linux_arch_text(a), '.'),
        forall|a: MacArch| free_of(#[trigger] mac_arch_text(a), '-') && free_of(mac_arch_text(a), '.'),
{
    reveal_strlit("x86_64");
    reveal_strlit("aarch64");
    reveal_strlit("arm64");
    reveal_strlit("universal2");
    assert("aarch64"@ != "x86_64"@) by {
        assert("aarch64"@[0] != "x86_64"@[0]);
    }
    assert("arm64"@ != "x86_64"@) by {
        assert("arm64"@[0] != "x86_64"@[0]);
    }
    assert("universal2"@ != "x86_64"@) by {
        assert("universal2"@[0] != "x86_64"@[0]);
    }
    assert("universal2"@ != "arm64"@) by {
        assert("universal2"@[0] != "arm64"@[0]);
    }
}

#[verifier::spinoff_prover]
#[verifier::rlimit(40)]
proof fn lemma_versioned_parts(major: u32, minor: u32, arch: Seq<char>)
    ensures
        versioned_parts(decimal(major as nat) + "_"@ + decimal(minor as nat) + "_"@ + arch) == Some((major, minor, arch)),
{
    reveal_strlit("_");
    let dm = decimal(major as nat);
    let dn = decimal(minor as nat);
    let rest = dn + seq!['_'] + arch;
    let x = dm + seq!['_'] + rest;
    assert(dm + "_"@ + dn + "_"@ + arch =~= x);
    lemma_decimal_free(major as nat, '_');
    lemma_decimal_free(minor as nat, '_');
    lemma_first_index_after(dm, rest, '_');
    lemma_first_index_after(dn, arch, '_');
    lemma_parse_u32_decimal(major);
    lemma_parse_u32_decimal(minor);
}

proof fn lemma_versioned_free(prefix: Seq<char>, major: u32, minor: u32, arch: Seq<char>, c: char)
    requires
        free_of(prefix, c),
        free_of(arch, c),
        c != '_',
        !is_digit(c),
    ensures
        free_of(versioned_text(prefix, major, minor, arch), c),
{
    reveal_strlit("_");
    lemma_decimal_free(major as nat, c);
    lemma_decimal_free(minor as nat, c);
    let t = versioned_text(prefix, major, minor, arch);
    assert(t =~= prefix + decimal(major as nat) + seq!['_'] + decimal(minor as nat) + seq!['_'] + arch);
}

proof fn lemma_platform_not_legacy(s: Seq<char>)
    requires
        s != "any"@,
        !starts_with(s, "manylinux1_"@),
        !starts_with(s, "manylinux2010_"@),
        !starts_with(s, "manylinux2014_"@),
    ensures
        platform_tag_spec(s) == Ok::<PlatformTagModel, Seq<char>>(versioned_platform_spec(s)),
{
}

proof fn lemma_platform_is_manylinux(s: Seq<char>, major: u32, minor: u32, arch: LinuxArch)
    requires
        starts_with(s, "manylinux_"@),
        versioned_linux_spec(after(s, "manylinux_"@)) == Some((major, minor, arch)),
    ensures
        versioned_platform_spec(s) == (PlatformTagModel::ManyLinux { major, minor, arch }),
{
}

proof fn lemma_platform_is_musllinux(s: Seq<char>, major: u32, minor: u32, arch: LinuxArch)
    requires
        !starts_with(s, "manylinux_"@),
        starts_with(s, "musllinux_"@),
        versioned_linux_spec(after(s, "musllinux_"@)) == Some((major, minor, arch)),
    ensures
        versioned_platform_spec(s) == (PlatformTagModel::MuslLinux { major, minor, arch }),
{
}

proof fn lemma_platform_is_macos(s: Seq<char>, major: u32, minor: u32, arch: MacArch)
    requires
        !starts_with(s, "manylinux_"@),
        !starts_with(s, "musllinux_"@),
        starts_with(s, "macosx_"@),
        versioned_mac_spec(after(s, "macosx_"@)) == Some((major, minor, arch)),
    ensures
        versioned_platform_spec(s) == (PlatformTagModel::MacOs { major, minor, arch }),
{
}

#[verifier::spinoff_prover]
#[verifier::rlimit(40)]
proof fn lemma_platform_manylinux_facts(major: u32, minor: u32, arch: LinuxArch)
    ensures
        ({
            let s = platform_tag_text(PlatformTagModel::ManyLinux { major, minor, arch });
            &&& s != "any"@
            &&& !starts_with(s, "manylinux1_"@)
            &&& !starts_with(s, "manylinux2010_"@)
            &&& !starts_with(s, "manylinux2014_"@)
            &&& starts_with(s, "manylinux_"@)
            &&& versioned_linux_spec(after(s, "manylinux_"@)) == Some((major, minor, arch))
        }),
{
    let q = PlatformTagModel::ManyLinux { major, minor, arch };
    let s = platform_tag_text(q);
    let at = linux_arch_text(arch);
    let x = decimal(major as nat) + "_"@ + decimal(minor as nat) + "_"@ + at;
    reveal_strlit("manylinux_");
    assert(s == "manylinux_"@ + x) by {
        assert(s =~= "manylinux_"@ + x);
    }
    assert(after(s, "manylinux_"@) == x) by {
        assert(after(s, "manylinux_"@) =~= x);
    }
    assert(starts_with(s, "manylinux_"@)) by {
        assert(s.subrange(0, 10) =~= "manylinux_"@);
    }
    assert(versioned_linux_spec(x) == Some((major, minor, arch))) by {
        lemma_versioned_parts(major, minor, at);
        lemma_arch_texts();
    }
        assert(s != "any"@) by {
            reveal_strlit("any");
            if s == "any"@ { assert(s[0] == "any"@[0]); }
        }
        assert(!starts_with(s, "manylinux1_"@)) by {
            reveal_strlit("manylinux1_");
            if starts_with(s, "manylinux1_"@) { assert(s.subrange(0, 11)[9] == s[9]); }
        }
        assert(!starts_with(s, "manylinux2010_"@)) by {
            reveal_strlit("manylinux2010_");
            if starts_with(s, "manylinux2010_"@) { assert(s.subrange(0, 14)[9] == s[9]); }
        }
        assert(!starts_with(s, "manylinux2014_"@)) by {
            reveal_strlit("manylinux2014_");
            if starts_with(s, "manylinux2014_"@) { assert(s.subrange(0, 14)[9] == s[9]); }
        }
}

#[verifier::spinoff_prover]
#[verifier::rlimit(80)]
proof fn lemma_platform_manylinux(major: u32, minor: u32, arch: LinuxArch)
    ensures
        ({
            let q = PlatformTagModel::ManyLinux { major, minor, arch };
            &&& platform_tag_spec(platform_tag_text(q)) == Ok::<PlatformTagModel, Seq<char>>(q)
            &&& free_of(platform_tag_text(q), '-')
            &&& free_of(platform_tag_text(q), '.')
        }),
{
    let s = platform_tag_text(PlatformTagModel::ManyLinux { major, minor, arch });
    lemma_platform_manylinux_facts(major, minor, arch);
    lemma_platform_not_legacy(s);
    lemma_platform_is_manylinux(s, major, minor, arch);
    lemma_arch_texts();
    let at = linux_arch_text(arch);
    reveal_strlit("manylinux_");
    lemma_versioned_free("manylinux_"@, major, minor, at, '-');
    lemma_versioned_free("manylinux_"@, major, minor, at, '.');
}

#[verifier::spinoff_prover]
#[verifier::rlimit(40)]
proof fn lemma_platform_musllinux_facts(major: u32, minor: u32, arch: LinuxArch)
    ensures
        ({
            let s = platform_tag_text(PlatformTagModel::MuslLinux { major, minor, arch });
            &&& s != "any"@
            &&& !starts_with(s, "manylinux1_"@)
            &&& !starts_with(s, "manylinux2010_"@)
            &&& !starts_with(s, "manylinux2014_"@)
            &&& !starts_with(s, "manylinux_"@)
            &&& starts_with(s, "musllinux_"@)
            &&& versioned_linux_spec(after(s, "musllinux_"@)) == Some((major, minor, arch))
        }),
{
    let q = PlatformTagModel::MuslLinux { major, minor, arch };
    let s = platform_tag_text(q);
    let at = linux_arch_text(arch);
    let x = decimal(major as nat) + "_"@ + decimal(minor as nat) + "_"@ + at;
    reveal_strlit("musllinux_");
    assert(s == "musllinux_"@ + x) by {
        assert(s =~= "musllinux_"@ + x);
    }
    assert(after(s, "musllinux_"@) == x) by {
        assert(after(s, "musllinux_"@) =~= x);
    }
    assert(starts_with(s, "musllinux_"@)) by {
        assert(s.subrange(0, 10) =~= "musllinux_"@);
    }
    assert(versioned_linux_spec(x) == Some((major, minor, arch))) by {
        lemma_versioned_parts(major, minor, at);
        lemma_arch_texts();
    }
        assert(s != "any"@) by {
            reveal_strlit("any");
            if s == "any"@ { assert(s[0] == "any"@[0]); }
        }
        assert(!starts_with(s, "manylinux1_"@)) by {
            reveal_strlit("manylinux1_");
            if starts_with(s, "manylinux1_"@) { assert(s.subrange(0, 11)[1] == s[1]); }
        }
        assert(!starts_with(s, "manylinux2010_"@)) by {
            reveal_strlit("manylinux2010_");
            if starts_with(s, "manylinux2010_"@) { assert(s.subrange(0, 14)[1] == s[1]); }
        }
        assert(!starts_with(s, "manylinux2014_"@)) by {
            reveal_strlit("manylinux2014_");
            if starts_with(s, "manylinux2014_"@) { assert(s.subrange(0, 14)[1] == s[1]); }
        }
        assert(!starts_with(s, "manylinux_"@)) by {
            reveal_strlit("manylinux_");
            if starts_with(s, "manylinux_"@) { assert(s.subrange(0, 10)[1] == s[1]); }
        }
}

#[verifier::spinoff_prover]
#[verifier::rlimit(80)]
proof fn lemma_platform_musllinux(major: u32, minor: u32, arch: LinuxArch)
    ensures
        ({
            let q = PlatformTagModel::MuslLinux { major, minor, arch };
            &&& platform_tag_spec(platform_tag_text(q)) == Ok::<PlatformTagModel, Seq<char>>(q)
            &&& free_of(platform_tag_text(q), '-')
            &&& free_of(platform_tag_text(q), '.')
        }),
{
    let s = platform_tag_text(PlatformTagModel::MuslLinux { major, minor, arch });
    lemma_platform_musllinux_facts(major, minor, arch);
    lemma_platform_not_legacy(s);
    lemma_platform_is_musllinux(s, major, minor, arch);
    lemma_arch_texts();
    let at = linux_arch_text(arch);
    reveal_strlit("musllinux_");
    lemma_versioned_free("musllinux_"@, major, minor, at, '-');
    lemma_versioned_free("musllinux_"@, major, minor, at, '.');
}

#[verifier::spinoff_prover]
#[verifier::rlimit(40)]
proof fn lemma_platform_macos_facts(major: u32, minor: u32, arch: MacArch)
    ensures
        ({
            let s = platform_tag_text(PlatformTagModel::MacOs { major, minor, arch });
            &&& s != "any"@
            &&& !starts_with(s, "manylinux1_"@)
            &&& !starts_with(s, "manylinux2010_"@)
            &&& !starts_with(s, "manylinux2014_"@)
            &&& !starts_with(s, "manylinux_"@)
            &&& !starts_with(s, "musllinux_"@)
            &&& starts_with(s, "macosx_"@)
            &&& versioned_mac_spec(after(s, "macosx_"@)) == Some((major, minor, arch))
        }),
{
    let q = PlatformTagModel::MacOs { major, minor, arch };
    let s = platform_tag_text(q);
    let at = mac_arch_text(arch);
    let x = decimal(major as nat) + "_"@ + decimal(minor as nat) + "_"@ + at;
    reveal_strlit("macosx_");
    assert(s == "macosx_"@ + x) by {
        assert(s =~= "macosx_"@ + x);
    }
    assert(after(s, "macosx_"@) == x) by {
        assert(after(s, "macosx_"@) =~= x);
    }
    assert(starts_with(s, "macosx_"@)) by {
        assert(s.subrange(0, 7) =~= "macosx_"@);
    }
    assert(versioned_mac_spec(x) == Some((major, minor, arch))) by {
        lemma_versioned_parts(major, minor, at);
        lemma_arch_texts();
    }
        assert(s != "any"@) by {
            reveal_strlit("any");
            if s == "any"@ { assert(s[0] == "any"@[0]); }
        }
        assert(!starts_with(s, "manylinux1_"@)) by {
            reveal_strlit("manylinux1_");
            if starts_with(s, "manylinux1_"@) { assert(s.subrange(0, 11)[2] == s[2]); }
        }
        assert(!starts_with(s, "manylinux2010_"@)) by {
            reveal_strlit("manylinux2010_");
            if starts_with(s, "manylinux2010_"@) { assert(s.subrange(0, 14)[2] == s[2]); }
        }
        assert(!starts_with(s, "manylinux2014_"@)) by {
            reveal_strlit("manylinux2014_");
            if starts_with(s, "manylinux2014_"@) { assert(s.subrange(0, 14)[2] == s[2]); }
        }
        assert(!starts_with(s, "manylinux_"@)) by {
            reveal_strlit("manylinux_");
            if starts_with(s, "manylinux_"@) { assert(s.subrange(0, 10)[2] == s[2]); }
        }
        assert(!starts_with(s, "musllinux_"@)) by {
            reveal_strlit("musllinux_");
            if starts_with(s, "musllinux_"@) { assert(s.subrange(0, 10)[1] == s[1]); }
        }
}

#[verifier::spinoff_prover]
#[verifier::rlimit(80)]
proof fn lemma_platform_macos(major: u32, minor: u32, arch: MacArch)
    ensures
        ({
            let q = PlatformTagModel::MacOs { major, minor, arch };
            &&& platform_tag_spec(platform_tag_text(q)) == Ok::<PlatformTagModel, Seq<char>>(q)
            &&& free_of(platform_tag_text(q), '-')
            &&& free_of(platform_tag_text(q), '.')
        }),
{
    let s = platform_tag_text(PlatformTagModel::MacOs { major, minor, arch });
    lemma_platform_macos_facts(major, minor, arch);
    lemma_platform_not_legacy(s);
    lemma_platform_is_macos(s, major, minor, arch);
    lemma_arch_texts();
    let at = mac_arch_text(arch);
    reveal_strlit("macosx_");
    lemma_versioned_free("macosx_"@, major, minor, at, '-');
    lemma_versioned_free("macosx_"@, major, minor, at, '.');
}

proof fn lemma_platform_text(q: PlatformTagModel)
    requires
        !(q is Other),
    ensures
        platform_tag_spec(platform_tag_text(q)) == Ok::<PlatformTagModel, Seq<char>>(q),
        free_of(platform_tag_text(q), '-'),
        free_of(platform_tag_text(q), '.'),
{
    reveal_strlit("any");
    match q {
        PlatformTagModel::ManyLinux { major, minor, arch } => lemma_platform_manylinux(major, minor, arch),
        PlatformTagModel::MuslLinux { major, minor, arch } => lemma_platform_musllinux(major, minor, arch),
        PlatformTagModel::MacOs { major, minor, arch } => lemma_platform_macos(major, minor, arch),
        _ => {},
    }
}


proof fn lemma_filename_parts(name: Seq<char>, version: Seq<char>, pt: Seq<char>, at: Seq<char>, qt: Seq<char>)
    requires
        free_of(name, '-'),
        free_of(version, '-'),
        free_of(pt, '-'),
        free_of(at, '-'),
        free_of(qt, '-'),
    ensures
        ({
            let f = name + "-"@ + version + "-"@ + (pt + "-"@ + at + "-"@ + qt) + ".whl"@;
            &&& ends_with(f, ".whl"@)
            &&& split_seq(wheel_stem(f), '-') == seq![name, version, pt, at, qt]
        }),
{
    reveal_strlit("-");
    reveal_strlit(".whl");
    let stem = name + seq!['-'] + (version + seq!['-'] + (pt + seq!['-'] + (at + seq!['-'] + qt)));
    let f = name + "-"@ + version + "-"@ + (pt + "-"@ + at + "-"@ + qt) + ".whl"@;
    assert(f =~= stem + ".whl"@);
    assert(f.subrange(f.len() - 4, f.len() as int) =~= ".whl"@);
    assert(wheel_stem(f) =~= stem);
    lemma_split_concat(at, qt, '-');
    lemma_split_concat(pt, at + seq!['-'] + qt, '-');
    lemma_split_concat(version, pt + seq!['-'] + (at + seq!['-'] + qt), '-');
    lemma_split_concat(name, version + seq!['-'] + (pt + seq!['-'] + (at + seq!['-'] + qt)), '-');
    lemma_split_free(name, '-');
    lemma_split_free(version, '-');
    lemma_split_free(pt, '-');
    lemma_split_free(at, '-');
    lemma_split_free(qt, '-');
    assert(split_seq(stem, '-') =~= seq![name, version, pt, at, qt]);
}

proof fn lemma_single_product(t: TagModel)
    ensures
        dedup_seq(tag_product(seq![t.python], seq![t.abi], seq![t.plat])) == seq![t],
{
    let qs = seq![t.plat];
    assert(seq![t.python].drop_last() =~= Seq::<PythonTagModel>::empty());
    assert(seq![t.abi].drop_last() =~= Seq::<AbiTagModel>::empty());
    assert(qs.drop_last() =~= Seq::<PlatformTagModel>::empty());
    assert(tag_row(t.python, t.abi, Seq::<PlatformTagModel>::empty()) == Seq::<TagModel>::empty());
    assert(qs.last() == t.plat);
    assert((TagModel { python: t.python, abi: t.abi, plat: t.plat }) == t);
    assert(tag_row(t.python, t.abi, qs) =~= seq![t]);
    assert(tag_block(t.python, Seq::<AbiTagModel>::empty(), qs) == Seq::<TagModel>::empty());
    assert(seq![t.abi].last() == t.abi);
    assert(tag_block(t.python, seq![t.abi], qs) =~= seq![t]);
    assert(tag_product(Seq::<PythonTagModel>::empty(), seq![t.abi], qs) == Seq::<TagModel>::empty());
    assert(seq![t.python].last() == t.python);
    assert(tag_product(seq![t.python], seq![t.abi], qs) =~= seq![t]);
    assert(seq![t].drop_last() =~= Seq::<TagModel>::empty());
    assert(dedup_seq(Seq::<TagModel>::empty()) == Seq::<TagModel>::empty());
    assert(!Seq::<TagModel>::empty().contains(t));
    assert(seq![t].last() == t);
    assert(Seq::<TagModel>::empty().push(t) =~= seq![t]);
    assert(dedup_seq(seq![t]) =~= seq![t]);
}

/// Reading back one rendered tag: a wheel filename
/// `{name}-{version}-{tag}.whl`, whose name and version hold no `-`, lists
/// exactly the tag it was written with, when the tag renders plainly.
#[verifier::spinoff_prover]
#[verifier::rlimit(80)]
pub proof fn law_tag_text_reads_back(name: Seq<char>, version: Seq<char>, t: TagModel)
    requires
        free_of(name, '-'),
        free_of(version, '-'),
        renders_plainly(t),
    ensures
        parse_filename_spec(name + "-"@ + version + "-"@ + tag_text(t) + ".whl"@) == Ok::<Seq<TagModel>, TagParseErrorModel>(seq![t]),
{
    let pt = python_tag_text(t.python);
    let at = abi_tag_text(t.abi);
    let qt = platform_tag_text(t.plat);
    lemma_python_text(t.python);
    lemma_abi_text(t.abi);
    lemma_platform_text(t.plat);
    lemma_filename_parts(name, version, pt, at, qt);
    let f = name + "-"@ + version + "-"@ + tag_text(t) + ".whl"@;
    let parts = seq![name, version, pt, at, qt];
    assert(tag_segments(parts) == (pt, at, qt));
    lemma_split_free(pt, '.');
    lemma_split_free(at, '.');
    lemma_split_free(qt, '.');
    assert(split_seq(pt, '.').map_values(|x: Seq<char>| python_tag_spec(x)) =~= seq![t.python]);
    assert(split_seq(at, '.').map_values(|x: Seq<char>| abi_tag_spec(x)) =~= seq![t.abi]);
    assert(seq![qt].drop_last() =~= Seq::<Seq<char>>::empty());
    assert(collect_platforms(seq![qt]) == Ok::<Seq<PlatformTagModel>, Seq<char>>(seq![t.plat])) by {
        assert(collect_platforms(Seq::<Seq<char>>::empty()) == Ok::<Seq<PlatformTagModel>, Seq<char>>(Seq::empty()));
        assert(seq![qt].last() == qt);
        assert(Seq::<PlatformTagModel>::empty().push(t.plat) =~= seq![t.plat]);
    }
    lemma_single_product(t);
}

#[verifier::spinoff_prover]
proof fn lemma_macos_word(name: Seq<char>, version: Seq<char>, p: PythonTagModel, a: AbiTagModel, major: u32, minor: u32, arch: MacArch)
    requires
        free_of(name, '-'),
        free_of(version, '-'),
        renders_plainly(TagModel { python: p, abi: a, plat: PlatformTagModel::Any }),
    ensures
        platform_tag_text(PlatformTagModel::MacOs { major, minor, arch }) == "macosx_"@ + decimal(major as nat) + "_"@
            + decimal(minor as nat) + "_"@ + mac_arch_text(arch),
        parse_filename_spec(name + "-"@ + version + "-"@ + python_tag_text(p) + "-"@ + abi_tag_text(a) + "-"@ + ("macosx_"@
            + decimal(major as nat) + "_"@ + decimal(minor as nat) + "_"@ + mac_arch_text(arch)) + ".whl"@)
            == Ok::<Seq<TagModel>, TagParseErrorModel>(seq![TagModel { python: p, abi: a, plat: PlatformTagModel::MacOs { major, minor, arch } }]),
{
    let t = TagModel { python: p, abi: a, plat: PlatformTagModel::MacOs { major, minor, arch } };
    let q = "macosx_"@ + decimal(major as nat) + "_"@ + decimal(minor as nat) + "_"@ + mac_arch_text(arch);
    assert(platform_tag_text(t.plat) =~= q);
    law_tag_text_reads_back(name, version, t);
    assert(name + "-"@ + version + "-"@ + tag_text(t) + ".whl"@ =~= name + "-"@ + version + "-"@ + python_tag_text(p) + "-"@
        + abi_tag_text(a) + "-"@ + q + ".whl"@);
}

#[verifier::spinoff_prover]
proof fn lemma_macos_arm64(
    name: Seq<char>,
    version: Seq<char>,
    p: PythonTagModel,
    a: AbiTagModel,
    major: u32,
    minor: u32,
)
    requires
        free_of(name, '-'),
        free_of(version, '-'),
        renders_plainly(TagModel { python: p, abi: a, plat: PlatformTagModel::Any }),
    ensures
        platform_tag_text(PlatformTagModel::MacOs { major, minor, arch: MacArch::Arm64 }) == "macosx_"@ + decimal(major as nat) + "_"@ + decimal(minor as nat) + "_arm64"@,
        parse_filename_spec(name + "-"@ + version + "-"@ + python_tag_text(p) + "-"@ + abi_tag_text(a) + "-"@ + ("macosx_"@ + decimal(major as nat) + "_"@ + decimal(minor as nat) + "_arm64"@) + ".whl"@)
            == Ok::<Seq<TagModel>, TagParseErrorModel>(seq![TagModel { python: p, abi: a, plat: PlatformTagModel::MacOs { major, minor, arch: MacArch::Arm64 } }]),
{
    lemma_macos_word(name, version, p, a, major, minor, MacArch::Arm64);
    reveal_strlit("_");
    reveal_strlit("arm64");
    reveal_strlit("_arm64");
    let q = "macosx_"@ + decimal(major as nat) + "_"@ + decimal(minor as nat) + "_"@ + mac_arch_text(MacArch::Arm64);
    let q2 = "macosx_"@ + decimal(major as nat) + "_"@ + decimal(minor as nat) + "_arm64"@;
    assert(q =~= q2);
}

#[verifier::spinoff_prover]
proof fn lemma_macos_x86_64(
    name: Seq<char>,
    version: Seq<char>,
    p: PythonTagModel,
    a: AbiTagModel,
    major: u32,
    minor: u32,
)
    requires
        free_of(name, '-'),
        free_of(version, '-'),
        renders_plainly(TagModel { python: p, abi: a, plat: PlatformTagModel::Any }),
    ensures
        platform_tag_text(PlatformTagModel::MacOs { major, minor, arch: MacArch::X86_64 }) == "macosx_"@ + decimal(major as nat) + "_"@ + decimal(minor as nat) + "_x86_64"@,
        parse_filename_spec(name + "-"@ + version + "-"@ + python_tag_text(p) + "-"@ + abi_tag_text(a) + "-"@ + ("macosx_"@ + decimal(major as nat) + "_"@ + decimal(minor as nat) + "_x86_64"@) + ".whl"@)
            == Ok::<Seq<TagModel>, TagParseErrorModel>(seq![TagModel { python: p, abi: a, plat: PlatformTagModel::MacOs { major, minor, arch: MacArch::X86_64 } }]),
{
    lemma_macos_word(name, version, p, a, major, minor, MacArch::X86_64);
    reveal_strlit("_");
    reveal_strlit("x86_64");
    reveal_strlit("_x86_64");
    let q = "macosx_"@ + decimal(major as nat) + "_"@ + decimal(minor as nat) + "_"@ + mac_arch_text(MacArch::X86_64);
    let q2 = "macosx_"@ + decimal(major as nat) + "_"@ + decimal(minor as nat) + "_x86_64"@;
    assert(q =~= q2);
}

#[verifier::spinoff_prover]
proof fn lemma_macos_universal2(
    name: Seq<char>,
    version: Seq<char>,
    p: PythonTagModel,
    a: AbiTagModel,
    major: u32,
    minor: u32,
)
    requires
        free_of(name, '-'),
        free_of(version, '-'),
        renders_plainly(TagModel { python: p, abi: a, plat: PlatformTagModel::Any }),
    ensures
        platform_tag_text(PlatformTagModel::MacOs { major, minor, arch: MacArch::Universal2 }) == "macosx_"@ + decimal(major as nat) + "_"@ + decimal(minor as nat) + "_universal2"@,
        parse_filename_spec(name + "-"@ + version + "-"@ + python_tag_text(p) + "-"@ + abi_tag_text(a) + "-"@ + ("macosx_"@ + decimal(major as nat) + "_"@ + decimal(minor as nat) + "_universal2"@) + ".whl"@)
            == Ok::<Seq<TagModel>, TagParseErrorModel>(seq![TagModel { python: p, abi: a, plat: PlatformTagModel::MacOs { major, minor, arch: MacArch::Universal2 } }]),
{
    lemma_macos_word(name, version, p, a, major, minor, MacArch::Universal2);
    reveal_strlit("_");
    reveal_strlit("universal2");
    reveal_strlit("_universal2");
    let q = "macosx_"@ + decimal(major as nat) + "_"@ + decimal(minor as nat) + "_"@ + mac_arch_text(MacArch::Universal2);
    let q2 = "macosx_"@ + decimal(major as nat) + "_"@ + decimal(minor as nat) + "_universal2"@;
    assert(q =~= q2);
}

/// macOS platform tags name their architecture with the wheel-tag words
/// `arm64`, `x86_64` and `universal2`: a wheel filename whose platform
/// segment is `macosx_<M>_<N>_arm64` lists the macOS tag of version
/// `<M>.<N>` for Arm64 (and `x86_64` for X86_64, `universal2` for
/// Universal2), and each such tag is written back with that word.
pub proof fn law_macos_arch_words(
    name: Seq<char>,
    version: Seq<char>,
    p: PythonTagModel,
    a: AbiTagModel,
    major: u32,
    minor: u32,
)
    requires
        free_of(name, '-'),
        free_of(version, '-'),
        renders_plainly(TagModel { python: p, abi: a, plat: PlatformTagModel::Any }),
    ensures
        platform_tag_text(PlatformTagModel::MacOs { major, minor, arch: MacArch::Arm64 }) == "macosx_"@ + decimal(major as nat) + "_"@ + decimal(minor as nat) + "_arm64"@,
        parse_filename_spec(name + "-"@ + version + "-"@ + python_tag_text(p) + "-"@ + abi_tag_text(a) + "-"@ + ("macosx_"@ + decimal(major as nat) + "_"@ + decimal(minor as nat) + "_arm64"@) + ".whl"@)
            == Ok::<Seq<TagModel>, TagParseErrorModel>(seq![TagModel { python: p, abi: a, plat: PlatformTagModel::MacOs { major, minor, arch: MacArch::Arm64 } }]),
        platform_tag_text(PlatformTagModel::MacOs { major, minor, arch: MacArch::X86_64 }) == "macosx_"@ + decimal(major as nat) + "_"@ + decimal(minor as nat) + "_x86_64"@,
        parse_filename_spec(name + "-"@ + version + "-"@ + python_tag_text(p) + "-"@ + abi_tag_text(a) + "-"@ + ("macosx_"@ + decimal(major as nat) + "_"@ + decimal(minor as nat) + "_x86_64"@) + ".whl"@)
            == Ok::<Seq<TagModel>, TagParseErrorModel>(seq![TagModel { python: p, abi: a, plat: PlatformTagModel::MacOs { major, minor, arch: MacArch::X86_64 } }]),
        platform_tag_text(PlatformTagModel::MacOs { major, minor, arch: MacArch::Universal2 }) == "macosx_"@ + decimal(major as nat) + "_"@ + decimal(minor as nat) + "_universal2"@,
        parse_filename_spec(name + "-"@ + version + "-"@ + python_tag_text(p) + "-"@ + abi_tag_text(a) + "-"@ + ("macosx_"@ + decimal(major as nat) + "_"@ + decimal(minor as nat) + "_universal2"@) + ".whl"@)
            == Ok::<Seq<TagModel>, TagParseErrorModel>(seq![TagModel { python: p, abi: a, plat: PlatformTagModel::MacOs { major, minor, arch: MacArch::Universal2 } }]),
{
    lemma_macos_arm64(name, version, p, a, major, minor);
    lemma_macos_x86_64(name, version, p, a, major, minor);
    lemma_macos_universal2(name, version, p, a, major, minor);
}

#[verifier::spinoff_prover]
proof fn lemma_plat_reads_back(name: Seq<char>, version: Seq<char>, p: PythonTagModel, a: AbiTagModel, q: PlatformTagModel)
    requires
        free_of(name, '-'),
        free_of(version, '-'),
        renders_plainly(TagModel { python: p, abi: a, plat: PlatformTagModel::Any }),
        !(q is Other),
    ensures
        parse_filename_spec(name + "-"@ + version + "-"@ + python_tag_text(p) + "-"@ + abi_tag_text(a) + "-"@
            + platform_tag_text(q) + ".whl"@) == Ok::<Seq<TagModel>, TagParseErrorModel>(seq![TagModel { python: p, abi: a, plat: q }]),
{
    let t = TagModel { python: p, abi: a, plat: q };
    law_tag_text_reads_back(name, version, t);
    assert(name + "-"@ + version + "-"@ + tag_text(t) + ".whl"@ =~= name + "-"@ + version + "-"@ + python_tag_text(p) + "-"@
        + abi_tag_text(a) + "-"@ + platform_tag_text(q) + ".whl"@);
}

#[verifier::spinoff_prover]
proof fn lemma_manylinux_x86_64(
    name: Seq<char>,
    version: Seq<char>,
    p: PythonTagModel,
    a: AbiTagModel,
    major: u32,
    minor: u32,
)
    requires
        free_of(name, '-'),
        free_of(version, '-'),
        renders_plainly(TagModel { python: p, abi: a, plat: PlatformTagModel::Any }),
    ensures
        platform_tag_text(PlatformTagModel::ManyLinux { major, minor, arch: LinuxArch::X86_64 }) == "manylinux_"@ + decimal(major as nat) + "_"@ + decimal(minor as nat) + "_x86_64"@,
        parse_filename_spec(name + "-"@ + version + "-"@ + python_tag_text(p) + "-"@ + abi_tag_text(a) + "-"@ + ("manylinux_"@ + decimal(major as nat) + "_"@ + decimal(minor as nat) + "_x86_64"@) + ".whl"@)
            == Ok::<Seq<TagModel>, TagParseErrorModel>(seq![TagModel { python: p, abi: a, plat: PlatformTagModel::ManyLinux { major, minor, arch: LinuxArch::X86_64 } }]),
{
    lemma_plat_reads_back(name, version, p, a, PlatformTagModel::ManyLinux { major, minor, arch: LinuxArch::X86_64 });
    reveal_strlit("_");
    reveal_strlit("manylinux_");
    reveal_strlit("x86_64");
    reveal_strlit("_x86_64");
    assert(platform_tag_text(PlatformTagModel::ManyLinux { major, minor, arch: LinuxArch::X86_64 }) =~= "manylinux_"@ + decimal(major as nat) + "_"@ + decimal(minor as nat) + "_x86_64"@);
}

#[verifier::spinoff_prover]
proof fn lemma_manylinux_aarch64(
    name: Seq<char>,
    version: Seq<char>,
    p: PythonTagModel,
    a: AbiTagModel,
    major: u32,
    minor: u32,
)
    requires
        free_of(name, '-'),
        free_of(version, '-'),
        renders_plainly(TagModel { python: p, abi: a, plat: PlatformTagModel::Any }),
    ensures
        platform_tag_text(PlatformTagModel::ManyLinux { major, minor, arch: LinuxArch::Aarch64 }) == "manylinux_"@ + decimal(major as nat) + "_"@ + decimal(minor as nat) + "_aarch64"@,
        parse_filename_spec(name + "-"@ + version + "-"@ + python_tag_text(p) + "-"@ + abi_tag_text(a) + "-"@ + ("manylinux_"@ + decimal(major as nat) + "_"@ + decimal(minor as nat) + "_aarch64"@) + ".whl"@)
            == Ok::<Seq<TagModel>, TagParseErrorModel>(seq![TagModel { python: p, abi: a, plat: PlatformTagModel::ManyLinux { major, minor, arch: LinuxArch::Aarch64 } }]),
{
    lemma_plat_reads_back(name, version, p, a, PlatformTagModel::ManyLinux { major, minor, arch: LinuxArch::Aarch64 });
    reveal_strlit("_");
    reveal_strlit("manylinux_");
    reveal_strlit("aarch64");
    reveal_strlit("_aarch64");
    assert(platform_tag_text(PlatformTagModel::ManyLinux { major, minor, arch: LinuxArch::Aarch64 }) =~= "manylinux_"@ + decimal(major as nat) + "_"@ + decimal(minor as nat) + "_aarch64"@);
}

#[verifier::spinoff_prover]
proof fn lemma_musllinux_x86_64(
    name: Seq<char>,
    version: Seq<char>,
    p: PythonTagModel,
    a: AbiTagModel,
    major: u32,
    minor: u32,
)
    requires
        free_of(name, '-'),
        free_of(version, '-'),
        renders_plainly(TagModel { python: p, abi: a, plat: PlatformTagModel::Any }),
    ensures
        platform_tag_text(PlatformTagModel::MuslLinux { major, minor, arch: LinuxArch::X86_64 }) == "musllinux_"@ + decimal(major as nat) + "_"@ + decimal(minor as nat) + "_x86_64"@,
        parse_filename_spec(name + "-"@ + version + "-"@ + python_tag_text(p) + "-"@ + abi_tag_text(a) + "-"@ + ("musllinux_"@ + decimal(major as nat) + "_"@ + decimal(minor as nat) + "_x86_64"@) + ".whl"@)
            == Ok::<Seq<TagModel>, TagParseErrorModel>(seq![TagModel { python: p, abi: a, plat: PlatformTagModel::MuslLinux { major, minor, arch: LinuxArch::X86_64 } }]),
{
    lemma_plat_reads_back(name, version, p, a, PlatformTagModel::MuslLinux { major, minor, arch: LinuxArch::X86_64 });
    reveal_strlit("_");
    reveal_strlit("musllinux_");
    reveal_strlit("x86_64");
    reveal_strlit("_x86_64");
    assert(platform_tag_text(PlatformTagModel::MuslLinux { major, minor, arch: LinuxArch::X86_64 }) =~= "musllinux_"@ + decimal(major as nat) + "_"@ + decimal(minor as nat) + "_x86_64"@);
}

#[verifier::spinoff_prover]
proof fn lemma_musllinux_aarch64(
    name: Seq<char>,
    version: Seq<char>,
    p: PythonTagModel,
    a: AbiTagModel,
    major: u32,
    minor: u32,
)
    requires
        free_of(name, '-'),
        free_of(version, '-'),
        renders_plainly(TagModel { python: p, abi: a, plat: PlatformTagModel::Any }),
    ensures
        platform_tag_text(PlatformTagModel::MuslLinux { major, minor, arch: LinuxArch::Aarch64 }) == "musllinux_"@ + decimal(major as nat) + "_"@ + decimal(minor as nat) + "_aarch64"@,
        parse_filename_spec(name + "-"@ + version + "-"@ + python_tag_text(p) + "-"@ + abi_tag_text(a) + "-"@ + ("musllinux_"@ + decimal(major as nat) + "_"@ + decimal(minor as nat) + "_aarch64"@) + ".whl"@)
            == Ok::<Seq<TagModel>, TagParseErrorModel>(seq![TagModel { python: p, abi: a, plat: PlatformTagModel::MuslLinux { major, minor, arch: LinuxArch::Aarch64 } }]),
{
    lemma_plat_reads_back(name, version, p, a, PlatformTagModel::MuslLinux { major, minor, arch: LinuxArch::Aarch64 });
    reveal_strlit("_");
    reveal_strlit("musllinux_");
    reveal_strlit("aarch64");
    reveal_strlit("_aarch64");
    assert(platform_tag_text(PlatformTagModel::MuslLinux { major, minor, arch: LinuxArch::Aarch64 }) =~= "musllinux_"@ + decimal(major as nat) + "_"@ + decimal(minor as nat) + "_aarch64"@);
}

/// Linux platform tags name their architecture with the wheel-tag words
/// `x86_64` and `aarch64`: a platform segment `manylinux_<M>_<N>_x86_64`
/// lists the manylinux tag of glibc `<M>.<N>` for X86_64 (`aarch64` for
/// Aarch64), `musllinux_<M>_<N>_<arch>` the musllinux one, and each such
/// tag is written back with those words.
pub proof fn law_linux_arch_words(
    name: Seq<char>,
    version: Seq<char>,
    p: PythonTagModel,
    a: AbiTagModel,
    major: u32,
    minor: u32,
)
    requires
        free_of(name, '-'),
        free_of(version, '-'),
        renders_plainly(TagModel { python: p, abi: a, plat: PlatformTagModel::Any }),
    ensures
        platform_tag_text(PlatformTagModel::ManyLinux { major, minor, arch: LinuxArch::X86_64 }) == "manylinux_"@ + decimal(major as nat) + "_"@ + decimal(minor as nat) + "_x86_64"@,
        parse_filename_spec(name + "-"@ + version + "-"@ + python_tag_text(p) + "-"@ + abi_tag_text(a) + "-"@ + ("manylinux_"@ + decimal(major as nat) + "_"@ + decimal(minor as nat) + "_x86_64"@) + ".whl"@)
            == Ok::<Seq<TagModel>, TagParseErrorModel>(seq![TagModel { python: p, abi: a, plat: PlatformTagModel::ManyLinux { major, minor, arch: LinuxArch::X86_64 } }]),
        platform_tag_text(PlatformTagModel::ManyLinux { major, minor, arch: LinuxArch::Aarch64 }) == "manylinux_"@ + decimal(major as nat) + "_"@ + decimal(minor as nat) + "_aarch64"@,
        parse_filename_spec(name + "-"@ + version + "-"@ + python_tag_text(p) + "-"@ + abi_tag_text(a) + "-"@ + ("manylinux_"@ + decimal(major as nat) + "_"@ + decimal(minor as nat) + "_aarch64"@) + ".whl"@)
            == Ok::<Seq<TagModel>, TagParseErrorModel>(seq![TagModel { python: p, abi: a, plat: PlatformTagModel::ManyLinux { major, minor, arch: LinuxArch::Aarch64 } }]),
        platform_tag_text(PlatformTagModel::MuslLinux { major, minor, arch: LinuxArch::X86_64 }) == "musllinux_"@ + decimal(major as nat) + "_"@ + decimal(minor as nat) + "_x86_64"@,
        parse_filename_spec(name + "-"@ + version + "-"@ + python_tag_text(p) + "-"@ + abi_tag_text(a) + "-"@ + ("musllinux_"@ + decimal(major as nat) + "_"@ + decimal(minor as nat) + "_x86_64"@) + ".whl"@)
            == Ok::<Seq<TagModel>, TagParseErrorModel>(seq![TagModel { python: p, abi: a, plat: PlatformTagModel::MuslLinux { major, minor, arch: LinuxArch::X86_64 } }]),
        platform_tag_text(PlatformTagModel::MuslLinux { major, minor, arch: LinuxArch::Aarch64 }) == "musllinux_"@ + decimal(major as nat) + "_"@ + decimal(minor as nat) + "_aarch64"@,
        parse_filename_spec(name + "-"@ + version + "-"@ + python_tag_text(p) + "-"@ + abi_tag_text(a) + "-"@ + ("musllinux_"@ + decimal(major as nat) + "_"@ + decimal(minor as nat) + "_aarch64"@) + ".whl"@)
            == Ok::<Seq<TagModel>, TagParseErrorModel>(seq![TagModel { python: p, abi: a, plat: PlatformTagModel::MuslLinux { major, minor, arch: LinuxArch::Aarch64 } }]),
{
    lemma_manylinux_x86_64(name, version, p, a, major, minor);
    lemma_manylinux_aarch64(name, version, p, a, major, minor);
    lemma_musllinux_x86_64(name, version, p, a, major, minor);
    lemma_musllinux_aarch64(name, version, p, a, major, minor);
}

#[verifier::spinoff_prover]
proof fn lemma_words_cp_cp(
    name: Seq<char>,
    version: Seq<char>,
    major: u8,
    minor: u8,
)
    requires
        free_of(name, '-'),
        free_of(version, '-'),
        major <= 9,
    ensures
        parse_filename_spec(name + "-"@ + version + "-"@ + ("cp"@ + decimal(major as nat) + decimal(minor as nat)) + "-"@ + ("cp"@ + decimal(major as nat) + decimal(minor as nat)) + "-"@ + "any"@ + ".whl"@)
            == Ok::<Seq<TagModel>, TagParseErrorModel>(seq![TagModel { python: PythonTagModel::CPython(major, minor), abi: AbiTagModel::CPython(major, minor), plat: PlatformTagModel::Any }]),
{
    reveal_strlit("cp");
    reveal_strlit("py");
    reveal_strlit("abi3");
    reveal_strlit("none");
    reveal_strlit("any");
    let t = TagModel { python: PythonTagModel::CPython(major, minor), abi: AbiTagModel::CPython(major, minor), plat: PlatformTagModel::Any };
    law_tag_text_reads_back(name, version, t);
    assert(python_tag_text(t.python) =~= "cp"@ + decimal(major as nat) + decimal(minor as nat));
    assert(abi_tag_text(t.abi) =~= "cp"@ + decimal(major as nat) + decimal(minor as nat));
    assert(platform_tag_text(t.plat) =~= "any"@);
    assert(name + "-"@ + version + "-"@ + tag_text(t) + ".whl"@ =~= name + "-"@ + version + "-"@ + ("cp"@ + decimal(major as nat) + decimal(minor as nat)) + "-"@ + ("cp"@ + decimal(major as nat) + decimal(minor as nat)) + "-"@ + "any"@ + ".whl"@);
}

#[verifier::spinoff_prover]
proof fn lemma_words_cp_abi3(
    name: Seq<char>,
    version: Seq<char>,
    major: u8,
    minor: u8,
)
    requires
        free_of(name, '-'),
        free_of(version, '-'),
        major <= 9,
    ensures
        parse_filename_spec(name + "-"@ + version + "-"@ + ("cp"@ + decimal(major as nat) + decimal(minor as nat)) + "-"@ + ("abi3"@) + "-"@ + "any"@ + ".whl"@)
            == Ok::<Seq<TagModel>, TagParseErrorModel>(seq![TagModel { python: PythonTagModel::CPython(major, minor), abi: AbiTagModel::Abi3, plat: PlatformTagModel::Any }]),
{
    reveal_strlit("cp");
    reveal_strlit("py");
    reveal_strlit("abi3");
    reveal_strlit("none");
    reveal_strlit("any");
    let t = TagModel { python: PythonTagModel::CPython(major, minor), abi: AbiTagModel::Abi3, plat: PlatformTagModel::Any };
    law_tag_text_reads_back(name, version, t);
    assert(python_tag_text(t.python) =~= "cp"@ + decimal(major as nat) + decimal(minor as nat));
    assert(abi_tag_text(t.abi) =~= "abi3"@);
    assert(platform_tag_text(t.plat) =~= "any"@);
    assert(name + "-"@ + version + "-"@ + tag_text(t) + ".whl"@ =~= name + "-"@ + version + "-"@ + ("cp"@ + decimal(major as nat) + decimal(minor as nat)) + "-"@ + ("abi3"@) + "-"@ + "any"@ + ".whl"@);
}

#[verifier::spinoff_prover]
proof fn lemma_words_py_none(
    name: Seq<char>,
    version: Seq<char>,
    major: u8,
    minor: u8,
)
    requires
        free_of(name, '-'),
        free_of(version, '-'),
        major <= 9,
    ensures
        parse_filename_spec(name + "-"@ + version + "-"@ + ("py"@ + decimal(major as nat)) + "-"@ + ("none"@) + "-"@ + "any"@ + ".whl"@)
            == Ok::<Seq<TagModel>, TagParseErrorModel>(seq![TagModel { python: PythonTagModel::Py(major, None), abi: AbiTagModel::NoAbi, plat: PlatformTagModel::Any }]),
{
    reveal_strlit("cp");
    reveal_strlit("py");
    reveal_strlit("abi3");
    reveal_strlit("none");
    reveal_strlit("any");
    let t = TagModel { python: PythonTagModel::Py(major, None), abi: AbiTagModel::NoAbi, plat: PlatformTagModel::Any };
    law_tag_text_reads_back(name, version, t);
    assert(python_tag_text(t.python) =~= "py"@ + decimal(major as nat));
    assert(abi_tag_text(t.abi) =~= "none"@);
    assert(platform_tag_text(t.plat) =~= "any"@);
    assert(name + "-"@ + version + "-"@ + tag_text(t) + ".whl"@ =~= name + "-"@ + version + "-"@ + ("py"@ + decimal(major as nat)) + "-"@ + ("none"@) + "-"@ + "any"@ + ".whl"@);
}

#[verifier::spinoff_prover]
proof fn lemma_words_py_minor_none(
    name: Seq<char>,
    version: Seq<char>,
    major: u8,
    minor: u8,
)
    requires
        free_of(name, '-'),
        free_of(version, '-'),
        major <= 9,
    ensures
        parse_filename_spec(name + "-"@ + version + "-"@ + ("py"@ + decimal(major as nat) + decimal(minor as nat)) + "-"@ + ("none"@) + "-"@ + "any"@ + ".whl"@)
            == Ok::<Seq<TagModel>, TagParseErrorModel>(seq![TagModel { python: PythonTagModel::Py(major, Some(minor)), abi: AbiTagModel::NoAbi, plat: PlatformTagModel::Any }]),
{
    reveal_strlit("cp");
    reveal_strlit("py");
    reveal_strlit("abi3");
    reveal_strlit("none");
    reveal_strlit("any");
    let t = TagModel { python: PythonTagModel::Py(major, Some(minor)), abi: AbiTagModel::NoAbi, plat: PlatformTagModel::Any };
    law_tag_text_reads_back(name, version, t);
    assert(python_tag_text(t.python) =~= "py"@ + decimal(major as nat) + decimal(minor as nat));
    assert(abi_tag_text(t.abi) =~= "none"@);
    assert(platform_tag_text(t.plat) =~= "any"@);
    assert(name + "-"@ + version + "-"@ + tag_text(t) + ".whl"@ =~= name + "-"@ + version + "-"@ + ("py"@ + decimal(major as nat) + decimal(minor as nat)) + "-"@ + ("none"@) + "-"@ + "any"@ + ".whl"@);
}

/// Python and ABI tags are read by their wheel-tag words: `cp<M><N>` is
/// CPython `<M>.<N>` (as interpreter or ABI), `abi3` the stable ABI,
/// `none` no ABI, `py<M>` and `py<M><N>` the generic Python tags, and
/// `any` the platform-independent tag.
pub proof fn law_python_abi_words(
    name: Seq<char>,
    version: Seq<char>,
    major: u8,
    minor: u8,
)
    requires
        free_of(name, '-'),
        free_of(version, '-'),
        major <= 9,
    ensures
        parse_filename_spec(name + "-"@ + version + "-"@ + ("cp"@ + decimal(major as nat) + decimal(minor as nat)) + "-"@ + ("cp"@ + decimal(major as nat) + decimal(minor as nat)) + "-"@ + "any"@ + ".whl"@)
            == Ok::<Seq<TagModel>, TagParseErrorModel>(seq![TagModel { python: PythonTagModel::CPython(major, minor), abi: AbiTagModel::CPython(major, minor), plat: PlatformTagModel::Any }]),
        parse_filename_spec(name + "-"@ + version + "-"@ + ("cp"@ + decimal(major as nat) + decimal(minor as nat)) + "-"@ + ("abi3"@) + "-"@ + "any"@ + ".whl"@)
            == Ok::<Seq<TagModel>, TagParseErrorModel>(seq![TagModel { python: PythonTagModel::CPython(major, minor), abi: AbiTagModel::Abi3, plat: PlatformTagModel::Any }]),
        parse_filename_spec(name + "-"@ + version + "-"@ + ("py"@ + decimal(major as nat)) + "-"@ + ("none"@) + "-"@ + "any"@ + ".whl"@)
            == Ok::<Seq<TagModel>, TagParseErrorModel>(seq![TagModel { python: PythonTagModel::Py(major, None), abi: AbiTagModel::NoAbi, plat: PlatformTagModel::Any }]),
        parse_filename_spec(name + "-"@ + version + "-"@ + ("py"@ + decimal(major as nat) + decimal(minor as nat)) + "-"@ + ("none"@) + "-"@ + "any"@ + ".whl"@)
            == Ok::<Seq<TagModel>, TagParseErrorModel>(seq![TagModel { python: PythonTagModel::Py(major, Some(minor)), abi: AbiTagModel::NoAbi, plat: PlatformTagModel::Any }]),
{
    lemma_words_cp_cp(name, version, major, minor);
    lemma_words_cp_abi3(name, version, major, minor);
    lemma_words_py_none(name, version, major, minor);
    lemma_words_py_minor_none(name, version, major, minor);
}

} // verus!
