//! Pure-python vs native sdist classification.
//!
//! The filesystem is read by the caller; these functions make the
//! decisions. Classification goes in steps, each reading only what the
//! previous one asks for: the root must be a directory; a missing
//! `pyproject.toml` means native; its build backend must be on the
//! allowlist; a setuptools `setup.py` must not mention `ext_modules`; and
//! no native source may sit in the tree.

use vstd::prelude::*;

use crate::lock::reach::{insert_unique, strictly_sorted};
use crate::text::{
    chars_of, ends_with, lemma_seq_lt_asymmetric, lemma_seq_lt_irreflexive, lemma_seq_lt_transitive, owned, push_str,
    seq_lt, str_eq, string_lt, strings_view,
};
use crate::toml_doc::{get_entry, parse_toml, table_get, toml_document, TomlValue};

verus! {

#[derive(Debug, Clone, PartialEq, Eq)]
pub enum Classification {
    PurePython { backend: AllowlistedBackend },
    Native { reason: NativeReason },
}

#[derive(Debug, Clone, Copy, PartialEq, Eq, Structural)]
pub enum AllowlistedBackend {
    FlitCore,
    Hatchling,
    Setuptools,
    PoetryCore,
    PdmBackend,
}

#[derive(Debug, Clone, PartialEq, Eq)]
pub enum NativeReason {
    UnknownBackend { build_backend: String },
    MissingPyprojectToml,
    SetuptoolsWithExtModules,
    AdjacentNativeSource { hit: NativeSourceHit },
}

/// A native source found in the tree, with its path relative to the root.
#[derive(Debug, Clone, PartialEq, Eq)]
pub enum NativeSourceHit {
    CargoToml(String),
    MesonBuild(String),
    CMakeLists(String),
    CExt(String),
    CppExt(String),
    PyxExt(String),
}

/// Why an sdist could not be classified.
#[derive(Debug)]
pub enum ClassifyError {
    /// The root is missing or not a directory.
    NotADir(String),
    /// A file could not be read; its path and the I/O error's text.
    Io { path: String, source: String },
    /// `pyproject.toml` is not TOML; its path and the parser's message.
    BadToml { path: String, source: String },
}

/// The backend an allowlisted `build-backend` string names.
pub open spec fn backend_spec(s: Seq<char>) -> Option<AllowlistedBackend> {
    if s == "flit_core.buildapi"@ || s == "flit_core.api"@ {
        Some(AllowlistedBackend::FlitCore)
    } else if s == "hatchling.build"@ {
        Some(AllowlistedBackend::Hatchling)
    } else if s == "setuptools.build_meta"@ || s == "setuptools.build_meta:__legacy__"@ {
        Some(AllowlistedBackend::Setuptools)
    } else if s == "poetry.core.masonry.api"@ {
        Some(AllowlistedBackend::PoetryCore)
    } else if s == "pdm.backend"@ {
        Some(AllowlistedBackend::PdmBackend)
    } else {
        None
    }
}

/// Looks a `build-backend` string up in the allowlist.
pub fn match_backend(s: &str) -> (r: Option<AllowlistedBackend>)
    ensures
        r == backend_spec(s@),
{
    if str_eq(s, "flit_core.buildapi") || str_eq(s, "flit_core.api") {
        Some(AllowlistedBackend::FlitCore)
    } else if str_eq(s, "hatchling.build") {
        Some(AllowlistedBackend::Hatchling)
    } else if str_eq(s, "setuptools.build_meta") || str_eq(s, "setuptools.build_meta:__legacy__") {
        Some(AllowlistedBackend::Setuptools)
    } else if str_eq(s, "poetry.core.masonry.api") {
        Some(AllowlistedBackend::PoetryCore)
    } else if str_eq(s, "pdm.backend") {
        Some(AllowlistedBackend::PdmBackend)
    } else {
        None
    }
}

/// `build-system.build-backend` of a parsed `pyproject.toml`, when it is a
/// string.
pub open spec fn backend_of_doc(doc: TomlValue) -> Option<Seq<char>> {
    match doc {
        TomlValue::Table(e) => match table_get(e@, "build-system"@) {
            Some(TomlValue::Table(bs)) => match table_get(bs@, "build-backend"@) {
                Some(TomlValue::Str(s)) => Some(s@),
                _ => None,
            },
            _ => None,
        },
        _ => None,
    }
}

/// Reads `build-system.build-backend` from `pyproject.toml` text; a parse
/// failure is the parser's message.
pub fn read_build_backend(text: &str) -> (r: Result<Option<String>, String>)
    ensures
        match (r, toml_document(text@)) {
            (Ok(o), Ok(doc)) => crate::config::opt_view(o) == backend_of_doc(doc),
            (Err(m), Err(n)) => m@ == n,
            _ => false,
        },
{
    let doc = parse_toml(text)?;
    let e = match &doc {
        TomlValue::Table(e) => e,
        _ => return Ok(None),
    };
    let bs = match get_entry(e, "build-system") {
        Some(TomlValue::Table(bs)) => bs,
        _ => return Ok(None),
    };
    match get_entry(bs, "build-backend") {
        Some(TomlValue::Str(s)) => Ok(Some(s.clone())),
        _ => Ok(None),
    }
}

/// `p` occurs in `s`.
pub open spec fn contains_text(s: Seq<char>, p: Seq<char>) -> bool {
    exists|i: int| 0 <= i && i + p.len() <= s.len() && #[trigger] s.subrange(i, i + p.len()) == p
}

/// Substring test.
pub fn text_contains(s: &str, p: &str) -> (r: bool)
    ensures
        r == contains_text(s@, p@),
{
    let a = chars_of(s);
    let b = chars_of(p);
    if b.len() > a.len() {
        proof {
            if contains_text(s@, p@) {
                let i = choose|i: int| 0 <= i && i + p@.len() <= s@.len() && #[trigger] s@.subrange(i, i + p@.len()) == p@;
            }
        }
        return false;
    }
    let n = a.len();
    let last = n - b.len();
    let mut i: usize = 0;
    while i <= last
        invariant
            a@ == s@,
            b@ == p@,
            n == a@.len(),
            last == n - b@.len(),
            b@.len() <= a@.len(),
            i <= last + 1,
            forall|k: int| 0 <= k < i ==> #[trigger] s@.subrange(k, k + p@.len()) != p@,
        decreases a@.len() - i,
    {
        let mut j: usize = 0;
        let mut same = true;
        while j < b.len()
            invariant
                a@ == s@,
                b@ == p@,
                n == a@.len(),
                i + b@.len() <= a@.len(),
                j <= b@.len(),
                same <==> forall|m: int| 0 <= m < j ==> a@[i + m] == b@[m],
            decreases b@.len() - j,
        {
            if a[i + j] != b[j] {
                same = false;
            }
            j += 1;
        }
        if same {
            assert(s@.subrange(i as int, i + p@.len()) =~= p@);
            return true;
        }
        proof {
            if s@.subrange(i as int, i + p@.len()) == p@ {
                let m = choose|m: int| 0 <= m < j && a@[i + m] != b@[m];
                assert(s@.subrange(i as int, i + p@.len())[m] == a@[i + m]);
            }
        }
        i += 1;
    }
    proof {
        if contains_text(s@, p@) {
            let k = choose|k: int| 0 <= k && k + p@.len() <= s@.len() && #[trigger] s@.subrange(k, k + p@.len()) == p@;
            assert(k <= last);
            assert(k < i);
        }
    }
    false
}

/// A file name's extension as `Path::extension` gives it: after the last
/// `.`, unless the only `.` starts the name.
pub open spec fn extension_of(name: Seq<char>) -> Option<Seq<char>> {
    match crate::text::last_index(name, '.') {
        None => None,
        Some(i) => if i == 0 || name == ".."@ {
            None
        } else {
            Some(name.subrange(i + 1, name.len() as int))
        },
    }
}

fn extension(name: &str) -> (r: Option<Vec<char>>)
    ensures
        match r {
            Some(v) => extension_of(name@) == Some(v@),
            None => extension_of(name@) is None,
        },
{
    proof {
        reveal_strlit("..");
    }
    let cs = chars_of(name);
    let n = cs.len();
    let found = crate::text::rfind_char(cs.as_slice(), '.');
    if found.is_none() {
        return None;
    }
    let i = found.unwrap();
    assert(found == Some(i));
    if i == 0 || str_eq(name, "..") {
        return None;
    }
    Some(crate::text::slice_chars(cs.as_slice(), i + 1, n))
}

/// The native-source hit a file named `name` (at `rel`) is, if any.
pub open spec fn file_hit_spec(name: Seq<char>) -> Option<int> {
    if name == "Cargo.toml"@ {
        Some(0)
    } else if name == "meson.build"@ {
        Some(1)
    } else if name == "CMakeLists.txt"@ {
        Some(2)
    } else {
        match extension_of(name) {
            Some(e) => if e == "c"@ {
                Some(3)
            } else if e == "cpp"@ || e == "cc"@ || e == "cxx"@ {
                Some(4)
            } else if e == "pyx"@ {
                Some(5)
            } else {
                None
            },
            None => None,
        }
    }
}

/// The kind of a hit, numbered as [`file_hit_spec`] numbers them.
pub open spec fn hit_kind(h: NativeSourceHit) -> int {
    match h {
        NativeSourceHit::CargoToml(_) => 0,
        NativeSourceHit::MesonBuild(_) => 1,
        NativeSourceHit::CMakeLists(_) => 2,
        NativeSourceHit::CExt(_) => 3,
        NativeSourceHit::CppExt(_) => 4,
        NativeSourceHit::PyxExt(_) => 5,
    }
}

pub open spec fn hit_path(h: NativeSourceHit) -> Seq<char> {
    match h {
        NativeSourceHit::CargoToml(p) => p@,
        NativeSourceHit::MesonBuild(p) => p@,
        NativeSourceHit::CMakeLists(p) => p@,
        NativeSourceHit::CExt(p) => p@,
        NativeSourceHit::CppExt(p) => p@,
        NativeSourceHit::PyxExt(p) => p@,
    }
}

fn chars_is(v: &Vec<char>, s: &str) -> (r: bool)
    ensures
        r == (v@ == s@),
{
    let t = chars_of(s);
    crate::text::chars_eq(v.as_slice(), t.as_slice())
}

/// Whether a (non-directory) file is a native source: `Cargo.toml`,
/// `meson.build`, `CMakeLists.txt`, or a `.c`, `.cpp`/`.cc`/`.cxx` or
/// `.pyx` file. `rel` is its path relative to the sdist root.
pub fn native_hit_for_file(name: &str, rel: String) -> (r: Option<NativeSourceHit>)
    ensures
        match r {
            Some(h) => file_hit_spec(name@) == Some(hit_kind(h)) && hit_path(h) == rel@,
            None => file_hit_spec(name@) is None,
        },
{
    if str_eq(name, "Cargo.toml") {
        return Some(NativeSourceHit::CargoToml(rel));
    }
    if str_eq(name, "meson.build") {
        return Some(NativeSourceHit::MesonBuild(rel));
    }
    if str_eq(name, "CMakeLists.txt") {
        return Some(NativeSourceHit::CMakeLists(rel));
    }
    match extension(name) {
        Some(e) => {
            if chars_is(&e, "c") {
                Some(NativeSourceHit::CExt(rel))
            } else if chars_is(&e, "cpp") || chars_is(&e, "cc") || chars_is(&e, "cxx") {
                Some(NativeSourceHit::CppExt(rel))
            } else if chars_is(&e, "pyx") {
                Some(NativeSourceHit::PyxExt(rel))
            } else {
                None
            }
        },
        None => None,
    }
}

/// Directories the native-source walk does not enter.
pub open spec fn excluded_dir(name: Seq<char>) -> bool {
    name == ".git"@ || name == "__pycache__"@ || name == ".venv"@ || name == "node_modules"@
        || ends_with(name, ".egg-info"@)
}

/// Whether the walk skips a directory named `name`.
pub fn is_excluded(name: &str) -> (r: bool)
    ensures
        r == excluded_dir(name@),
{
    if str_eq(name, ".git") || str_eq(name, "__pycache__") || str_eq(name, ".venv") || str_eq(name, "node_modules") {
        return true;
    }
    let a = chars_of(name);
    let b = chars_of(".egg-info");
    crate::text::has_suffix(a.as_slice(), b.as_slice())
}

/// How deep below the root the walk looks.
pub const WALK_DEPTH_LIMIT: usize = 4;

/// `dir` joined with the file name `name`, as `Path::join` joins a
/// relative name.
pub open spec fn join_spec(dir: Seq<char>, name: Seq<char>) -> Seq<char> {
    if dir.len() == 0 || dir.last() == '/' {
        dir + name
    } else {
        dir + seq!['/'] + name
    }
}

/// Joins a file name onto a directory path.
pub fn join_path(dir: &str, name: &str) -> (r: String)
    ensures
        r@ == join_spec(dir@, name@),
{
    let d = chars_of(dir);
    let mut out = owned(dir);
    if d.len() > 0 && d[d.len() - 1] != '/' {
        crate::text::push_char(&mut out, '/');
    }
    push_str(&mut out, name);
    out
}

/// What the native-source walk does in one directory.
#[derive(Debug)]
pub enum WalkAction {
    /// The directory lies below the depth limit: nothing is looked at.
    Stop,
    /// A file here is a native source.
    Hit(NativeSourceHit),
    /// No file here is a native source: walk these subdirectories next, in
    /// this order.
    Descend(Vec<String>),
}

/// Entry `j` of a directory listing (name, whether a directory) is a file
/// that counts as a native source.
pub open spec fn file_hit_at(entries: Seq<(String, bool)>, j: int) -> bool {
    0 <= j < entries.len() && !entries[j].1 && file_hit_spec(entries[j].0@) is Some
}

/// Entry `j` is a subdirectory named `n` that the walk enters.
pub open spec fn kept_dir_at(entries: Seq<(String, bool)>, j: int, n: Seq<char>) -> bool {
    0 <= j < entries.len() && entries[j].1 && entries[j].0@ == n && !excluded_dir(n)
}

/// Some entry before `i` is a subdirectory named `n` that the walk enters.
pub open spec fn kept_dir_before(entries: Seq<(String, bool)>, i: int, n: Seq<char>) -> bool {
    exists|j: int| 0 <= j < i && #[trigger] kept_dir_at(entries, j, n)
}

/// One step of the native-source walk, in the directory at `rel_dir`
/// (relative to the sdist root, empty at the root) and `depth` levels below
/// the root, given its entries as (name, whether a directory):
/// - below [`WALK_DEPTH_LIMIT`] nothing is looked at;
/// - else, of the files that are native sources, the one first in name
///   order is the hit, with its path relative to the root;
/// - else the subdirectories to walk next: the distinct names of those not
///   excluded, in name order, and none where their depth would pass the
///   limit.
pub fn walk_step(depth: usize, rel_dir: &str, entries: &Vec<(String, bool)>) -> (r: WalkAction)
    ensures
        match r {
            WalkAction::Stop => depth > WALK_DEPTH_LIMIT,
            WalkAction::Hit(h) => {
                &&& depth <= WALK_DEPTH_LIMIT
                &&& exists|i: int| {
                    &&& #[trigger] file_hit_at(entries@, i)
                    &&& file_hit_spec(entries@[i].0@) == Some(hit_kind(h))
                    &&& hit_path(h) == join_spec(rel_dir@, entries@[i].0@)
                    &&& forall|j: int| file_hit_at(entries@, j) ==> !seq_lt(entries@[j].0@, entries@[i].0@)
                }
            },
            WalkAction::Descend(ds) => {
                &&& depth <= WALK_DEPTH_LIMIT
                &&& forall|j: int| !file_hit_at(entries@, j)
                &&& strictly_sorted(strings_view(ds@))
                &&& forall|n: Seq<char>| #[trigger] strings_view(ds@).contains(n) <==> (depth < WALK_DEPTH_LIMIT
                    && kept_dir_before(entries@, entries@.len() as int, n))
            },
        },
{
    if depth > WALK_DEPTH_LIMIT {
        return WalkAction::Stop;
    }
    let mut best: Option<usize> = None;
    let mut i: usize = 0;
    while i < entries.len()
        invariant
            i <= entries@.len(),
            match best {
                Some(b) => b < i && file_hit_at(entries@, b as int) && forall|j: int|
                    0 <= j < i && file_hit_at(entries@, j) ==> !seq_lt(entries@[j].0@, entries@[b as int].0@),
                None => forall|j: int| 0 <= j < i ==> !file_hit_at(entries@, j),
            },
        decreases entries@.len() - i,
    {
        if !entries[i].1 && native_hit_for_file(entries[i].0.as_str(), String::new()).is_some() {
            assert(file_hit_at(entries@, i as int));
            match best {
                None => {
                    best = Some(i);
                    proof {
                        lemma_seq_lt_irreflexive(entries@[i as int].0@);
                    }
                },
                Some(b) => {
                    if string_lt(&entries[i].0, &entries[b].0) {
                        proof {
                            let ni = entries@[i as int].0@;
                            let nb = entries@[b as int].0@;
                            lemma_seq_lt_irreflexive(ni);
                            assert forall|j: int| 0 <= j < i + 1 && file_hit_at(entries@, j) implies !seq_lt(
                                entries@[j].0@,
                                ni,
                            ) by {
                                lemma_seq_lt_transitive(entries@[j].0@, ni, nb);
                                lemma_seq_lt_asymmetric(ni, nb);
                            }
                        }
                        best = Some(i);
                    }
                },
            }
        }
        i += 1;
    }
    match best {
        Some(b) => {
            let rel = join_path(rel_dir, entries[b].0.as_str());
            match native_hit_for_file(entries[b].0.as_str(), rel) {
                Some(h) => WalkAction::Hit(h),
                None => {
                    assert(false);
                    WalkAction::Stop
                },
            }
        },
        None => {
            let mut ds: Vec<String> = Vec::new();
            if depth < WALK_DEPTH_LIMIT {
                let mut k: usize = 0;
                while k < entries.len()
                    invariant
                        k <= entries@.len(),
                        strictly_sorted(strings_view(ds@)),
                        forall|n: Seq<char>| #[trigger] strings_view(ds@).contains(n) <==> kept_dir_before(entries@, k as int, n),
                    decreases entries@.len() - k,
                {
                    if entries[k].1 && !is_excluded(entries[k].0.as_str()) {
                        let name = entries[k].0.clone();
                        proof {
                            assert(kept_dir_at(entries@, k as int, name@));
                        }
                        insert_unique(&mut ds, name);
                    }
                    proof {
                        assert forall|n: Seq<char>| kept_dir_before(entries@, k + 1, n) implies kept_dir_before(entries@, k as int, n)
                            || kept_dir_at(entries@, k as int, n) by {
                            let j = choose|j: int| 0 <= j < k + 1 && #[trigger] kept_dir_at(entries@, j, n);
                            if j < k {
                                assert(kept_dir_at(entries@, j, n));
                            }
                        }
                        assert forall|n: Seq<char>| kept_dir_before(entries@, k as int, n) implies kept_dir_before(entries@, k + 1, n) by {
                            let j = choose|j: int| 0 <= j < k && #[trigger] kept_dir_at(entries@, j, n);
                            assert(kept_dir_at(entries@, j, n));
                        }
                    }
                    k += 1;
                }
            } else {
                proof {
                    assert(strings_view(ds@) =~= Seq::<Seq<char>>::empty());
                }
            }
            WalkAction::Descend(ds)
        },
    }
}

/// The next step of a classification.
#[derive(Debug)]
pub enum ClassifyStep {
    /// Classification is over.
    Done(Result<Classification, ClassifyError>),
    /// Setuptools backend: read `setup.py` (if it is a file) and go on
    /// with [`after_setup_py`].
    ReadSetupPy(AllowlistedBackend),
    /// Walk the tree for native sources and finish with [`after_walk`].
    WalkTree(AllowlistedBackend),
}

/// What [`after_pyproject`] decides.
pub open spec fn after_pyproject_spec(root: Seq<char>, root_is_dir: bool, pyproject: Option<Seq<char>>, step: ClassifyStep) -> bool {
    if !root_is_dir {
        step matches ClassifyStep::Done(Err(ClassifyError::NotADir(p))) && p@ == root
    } else {
        match pyproject {
            None => step matches ClassifyStep::Done(Ok(Classification::Native { reason: NativeReason::MissingPyprojectToml })),
            Some(text) => match toml_document(text) {
                Err(m) => step matches ClassifyStep::Done(Err(ClassifyError::BadToml { path, source })) && path@ == join_spec(
                    root,
                    "pyproject.toml"@,
                ) && source@ == m,
                Ok(doc) => {
                    let b = match backend_of_doc(doc) {
                        Some(s) => s,
                        None => Seq::empty(),
                    };
                    match backend_spec(b) {
                        None => step matches ClassifyStep::Done(Ok(Classification::Native { reason: NativeReason::UnknownBackend { build_backend } })) && build_backend@ == b,
                        Some(AllowlistedBackend::Setuptools) => step matches ClassifyStep::ReadSetupPy(AllowlistedBackend::Setuptools),
                        Some(k) => step == ClassifyStep::WalkTree(k),
                    }
                },
            },
        }
    }
}

/// First steps: the root must be a directory; without a `pyproject.toml`
/// (`None`) the sdist is native; its build backend (missing counts as
/// empty) must be on the allowlist; setuptools goes on to `setup.py`,
/// other backends to the native-source walk.
pub fn after_pyproject(root: &str, root_is_dir: bool, pyproject: Option<&str>) -> (r: ClassifyStep)
    ensures
        after_pyproject_spec(root@, root_is_dir, crate::fixup::registry::opt_str_view(pyproject), r),
{
    if !root_is_dir {
        return ClassifyStep::Done(Err(ClassifyError::NotADir(owned(root))));
    }
    let text = match pyproject {
        None => {
            return ClassifyStep::Done(Ok(Classification::Native { reason: NativeReason::MissingPyprojectToml }));
        },
        Some(t) => t,
    };
    let backend_str = match read_build_backend(text) {
        Err(m) => {
            return ClassifyStep::Done(Err(ClassifyError::BadToml { path: join_path(root, "pyproject.toml"), source: m }));
        },
        Ok(Some(s)) => s,
        Ok(None) => String::new(),
    };
    match match_backend(backend_str.as_str()) {
        None => ClassifyStep::Done(Ok(Classification::Native { reason: NativeReason::UnknownBackend { build_backend: backend_str } })),
        Some(AllowlistedBackend::Setuptools) => ClassifyStep::ReadSetupPy(AllowlistedBackend::Setuptools),
        Some(b) => ClassifyStep::WalkTree(b),
    }
}

/// Setuptools carve-out: a `setup.py` that mentions `ext_modules` builds
/// extensions, so the sdist is native; otherwise walk the tree.
pub fn after_setup_py(backend: AllowlistedBackend, setup_py: Option<&str>) -> (r: ClassifyStep)
    ensures
        match setup_py {
            Some(t) => if contains_text(t@, "ext_modules"@) {
                r matches ClassifyStep::Done(Ok(Classification::Native { reason: NativeReason::SetuptoolsWithExtModules }))
            } else {
                r == ClassifyStep::WalkTree(backend)
            },
            None => r == ClassifyStep::WalkTree(backend),
        },
{
    match setup_py {
        Some(t) => {
            if text_contains(t, "ext_modules") {
                ClassifyStep::Done(Ok(Classification::Native { reason: NativeReason::SetuptoolsWithExtModules }))
            } else {
                ClassifyStep::WalkTree(backend)
            }
        },
        None => ClassifyStep::WalkTree(backend),
    }
}

/// Last step: a native source in the tree makes the sdist native;
/// otherwise it is pure-python with its backend.
pub fn after_walk(backend: AllowlistedBackend, hit: Option<NativeSourceHit>) -> (r: Classification)
    ensures
        match hit {
            Some(h) => r == Classification::Native { reason: NativeReason::AdjacentNativeSource { hit: h } },
            None => r == Classification::PurePython { backend },
        },
{
    match hit {
        Some(h) => Classification::Native { reason: NativeReason::AdjacentNativeSource { hit: h } },
        None => Classification::PurePython { backend },
    }
}

/// The walk's outcome for `backend`.
pub open spec fn walked(backend: AllowlistedBackend, hit: Option<NativeSourceHit>, r: Result<Classification, ClassifyError>) -> bool {
    match hit {
        Some(h) => r == Ok::<Classification, ClassifyError>(Classification::Native { reason: NativeReason::AdjacentNativeSource { hit: h } }),
        None => r == Ok::<Classification, ClassifyError>(Classification::PurePython { backend }),
    }
}

/// `r` is the classification of an sdist whose root is (or is not) a
/// directory and which holds the given `pyproject.toml` and `setup.py`
/// texts and first native source.
pub open spec fn classified(
    root: Seq<char>,
    root_is_dir: bool,
    pyproject: Option<Seq<char>>,
    setup_py: Option<Seq<char>>,
    hit: Option<NativeSourceHit>,
    r: Result<Classification, ClassifyError>,
) -> bool {
    if !root_is_dir {
        r matches Err(ClassifyError::NotADir(p)) && p@ == root
    } else {
        match pyproject {
            None => r == Ok::<Classification, ClassifyError>(Classification::Native { reason: NativeReason::MissingPyprojectToml }),
            Some(text) => match toml_document(text) {
                Err(m) => r matches Err(ClassifyError::BadToml { path, source }) && path@ == join_spec(root, "pyproject.toml"@)
                    && source@ == m,
                Ok(doc) => {
                    let b = match backend_of_doc(doc) {
                        Some(s) => s,
                        None => Seq::empty(),
                    };
                    match backend_spec(b) {
                        None => r matches Ok(Classification::Native { reason: NativeReason::UnknownBackend { build_backend } })
                            && build_backend@ == b,
                        Some(AllowlistedBackend::Setuptools) => if setup_py matches Some(t) && contains_text(t, "ext_modules"@) {
                            r == Ok::<Classification, ClassifyError>(Classification::Native { reason: NativeReason::SetuptoolsWithExtModules })
                        } else {
                            walked(AllowlistedBackend::Setuptools, hit, r)
                        },
                        Some(k) => walked(k, hit, r),
                    }
                },
            },
        }
    }
}

/// Classifies an sdist from what its tree holds: whether the root is a
/// directory, the `pyproject.toml` text (if the file exists), the
/// `setup.py` text (if it exists), and the first native source of the walk
/// (if any). Only the facts the steps reach are used.
pub fn classify(
    root: &str,
    root_is_dir: bool,
    pyproject: Option<&str>,
    setup_py: Option<&str>,
    native_hit: Option<NativeSourceHit>,
) -> (r: Result<Classification, ClassifyError>)
    ensures
        classified(root@, root_is_dir, crate::fixup::registry::opt_str_view(pyproject),
            crate::fixup::registry::opt_str_view(setup_py), native_hit, r),
{
    match after_pyproject(root, root_is_dir, pyproject) {
        ClassifyStep::Done(r) => r,
        ClassifyStep::ReadSetupPy(b) => match after_setup_py(b, setup_py) {
            ClassifyStep::Done(r) => r,
            ClassifyStep::ReadSetupPy(b2) => Ok(after_walk(b2, native_hit)),
            ClassifyStep::WalkTree(b2) => Ok(after_walk(b2, native_hit)),
        },
        ClassifyStep::WalkTree(b) => Ok(after_walk(b, native_hit)),
    }
}

} // verus!
