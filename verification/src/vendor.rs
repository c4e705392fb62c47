//! What `vendor` fetches, prebakes, records and prunes. The downloads, the
//! builds and the directory listing are the binary's work; these functions
//! decide what they are applied to and what their results become.

use vstd::prelude::*;

use crate::buck::emit::{sha_prefix, trim_all, trim_sha_text};
use crate::lock::types::{Lockfile, Package, Source};
use crate::sdist::error::SdistError;
use crate::pep427::{escape_name_spec, pure_python_filename};
use crate::sdist::classifier::{AllowlistedBackend, NativeReason, NativeSourceHit};
use crate::sdist::manifest::{ManifestClassification, ManifestEntry};
use crate::text::{chars_of, last_index, push_str, rfind_char, seq_lt, slice_chars, str_eq, string_lt, strings_view};

verus! {

/// A registry package.
pub open spec fn is_registry(s: Source) -> bool {
    s matches Source::Registry { .. }
}

/// A registry package with an sdist and no wheel.
pub open spec fn sdist_only(p: Package) -> bool {
    is_registry(p.source) && p.sdist is Some && p.wheels@.len() == 0
}

/// Whether `pkg` is a registry package known only by its sdist.
pub fn is_sdist_only(pkg: &Package) -> (r: bool)
    ensures
        r == sdist_only(*pkg),
{
    let reg = match &pkg.source {
        Source::Registry { .. } => true,
        _ => false,
    };
    reg && pkg.sdist.is_some() && pkg.wheels.len() == 0
}

/// A registry wheel to have in `vendor/`.
#[derive(Debug, Clone)]
pub struct WheelFetch {
    pub package: String,
    pub version: String,
    pub url: String,
    pub filename: String,
    /// The expected hash, without its `sha256:` prefix.
    pub sha256: String,
}

pub struct WheelFetchModel {
    pub package: Seq<char>,
    pub version: Seq<char>,
    pub url: Seq<char>,
    pub filename: Seq<char>,
    pub sha256: Seq<char>,
}

impl View for WheelFetch {
    type V = WheelFetchModel;

    open spec fn view(&self) -> WheelFetchModel {
        WheelFetchModel {
            package: self.package@,
            version: self.version@,
            url: self.url@,
            filename: self.filename@,
            sha256: self.sha256@,
        }
    }
}

/// The wheels of one package to fetch: all of a registry package's wheels.
pub open spec fn fetches_of(p: Package) -> Seq<WheelFetchModel> {
    if is_registry(p.source) {
        p.wheels@.map_values(
            |w: crate::lock::types::Wheel|
                WheelFetchModel {
                    package: p.name@,
                    version: p.version@,
                    url: w.url@,
                    filename: w.filename@,
                    sha256: crate::buck::emit::trim_all(w.hash@, crate::buck::emit::sha_prefix()),
                },
        )
    } else {
        Seq::empty()
    }
}

/// The wheels to fetch, package by package.
pub open spec fn all_fetches(ps: Seq<Package>) -> Seq<WheelFetchModel>
    decreases ps.len(),
{
    if ps.len() == 0 {
        Seq::empty()
    } else {
        all_fetches(ps.drop_last()) + fetches_of(ps.last())
    }
}

pub open spec fn fetches_view(v: Seq<WheelFetch>) -> Seq<WheelFetchModel> {
    v.map_values(|f: WheelFetch| f@)
}

/// Every wheel of every registry package, in lockfile order, with the hash
/// it must have.
pub fn registry_wheels(lock: &Lockfile) -> (r: Vec<WheelFetch>)
    ensures
        fetches_view(r@) == all_fetches(lock.packages@),
        r@.len() == registry_wheel_count(lock.packages@),
        forall|i: int, j: int|
            0 <= i < lock.packages@.len() && is_registry(lock.packages@[i].source) && 0 <= j < lock.packages@[i].wheels@.len()
                ==> #[trigger] wheel_fetched(fetches_view(r@), lock.packages@[i], j),
{
    let ps = &lock.packages;
    let mut out: Vec<WheelFetch> = Vec::new();
    let mut i: usize = 0;
    proof {
        assert(fetches_view(out@) =~= all_fetches(ps@.subrange(0, 0)));
    }
    while i < ps.len()
        invariant
            i <= ps@.len(),
            fetches_view(out@) == all_fetches(ps@.subrange(0, i as int)),
        decreases ps@.len() - i,
    {
        let p = &ps[i];
        let ghost before = fetches_view(out@);
        let reg = match &p.source {
            Source::Registry { .. } => true,
            _ => false,
        };
        if reg {
            let mut j: usize = 0;
            while j < p.wheels.len()
                invariant
                    j <= p.wheels@.len(),
                    is_registry(p.source),
                    fetches_view(out@) == before + fetches_of(*p).subrange(0, j as int),
                decreases p.wheels@.len() - j,
            {
                let w = &p.wheels[j];
                let f = WheelFetch {
                    package: p.name.clone(),
                    version: p.version.clone(),
                    url: w.url.clone(),
                    filename: w.filename.clone(),
                    sha256: crate::buck::emit::trim_sha_text(w.hash.as_str()),
                };
                let ghost pre = out@;
                out.push(f);
                assert(fetches_view(out@) =~= fetches_view(pre).push(f@));
                j += 1;
                assert(fetches_view(out@) =~= before + fetches_of(*p).subrange(0, j as int));
            }
            assert(fetches_of(*p).subrange(0, j as int) =~= fetches_of(*p));
        } else {
            assert(fetches_view(out@) =~= before + fetches_of(*p));
        }
        proof {
            let t = ps@.subrange(0, i + 1);
            assert(t.drop_last() =~= ps@.subrange(0, i as int));
        }
        i += 1;
    }
    assert(ps@.subrange(0, i as int) =~= ps@);
    proof {
        law_every_registry_wheel_fetched(ps@);
    }
    out
}

/// An sdist to prebake.
#[derive(Debug, Clone)]
pub struct SdistBake {
    pub package: String,
    pub version: String,
    pub url: String,
    /// The expected hash, without its `sha256:` prefix.
    pub sha256: String,
    /// The pure-python wheel filename the build should give.
    pub wheel_filename: String,
}

pub struct SdistBakeModel {
    pub package: Seq<char>,
    pub version: Seq<char>,
    pub url: Seq<char>,
    pub sha256: Seq<char>,
    pub wheel_filename: Seq<char>,
}

impl View for SdistBake {
    type V = SdistBakeModel;

    open spec fn view(&self) -> SdistBakeModel {
        SdistBakeModel {
            package: self.package@,
            version: self.version@,
            url: self.url@,
            sha256: self.sha256@,
            wheel_filename: self.wheel_filename@,
        }
    }
}

/// The prebake of an sdist-only package.
pub open spec fn bake_of(p: Package) -> SdistBakeModel {
    SdistBakeModel {
        package: p.name@,
        version: p.version@,
        url: p.sdist->0.url@,
        sha256: crate::buck::emit::trim_all(p.sdist->0.hash@, crate::buck::emit::sha_prefix()),
        wheel_filename: escape_name_spec(p.name@) + seq!['-'] + p.version@ + "-py3-none-any.whl"@,
    }
}

/// The prebakes of the sdist-only packages, in order.
pub open spec fn all_bakes(ps: Seq<Package>) -> Seq<SdistBakeModel>
    decreases ps.len(),
{
    if ps.len() == 0 {
        Seq::empty()
    } else if sdist_only(ps.last()) {
        all_bakes(ps.drop_last()).push(bake_of(ps.last()))
    } else {
        all_bakes(ps.drop_last())
    }
}

pub open spec fn bakes_view(v: Seq<SdistBake>) -> Seq<SdistBakeModel> {
    v.map_values(|b: SdistBake| b@)
}

/// The sdists to prebake: those of the sdist-only packages, in lockfile order.
pub fn sdists_to_prebake(lock: &Lockfile) -> (r: Vec<SdistBake>)
    ensures
        bakes_view(r@) == all_bakes(lock.packages@),
{
    let ps = &lock.packages;
    let mut out: Vec<SdistBake> = Vec::new();
    let mut i: usize = 0;
    proof {
        assert(bakes_view(out@) =~= all_bakes(ps@.subrange(0, 0)));
    }
    while i < ps.len()
        invariant
            i <= ps@.len(),
            bakes_view(out@) == all_bakes(ps@.subrange(0, i as int)),
        decreases ps@.len() - i,
    {
        let p = &ps[i];
        proof {
            let t = ps@.subrange(0, i + 1);
            assert(t.drop_last() =~= ps@.subrange(0, i as int));
        }
        if is_sdist_only(p) {
            let sd = match &p.sdist {
                Some(sd) => sd,
                None => {
                    return out;
                },
            };
            let b = SdistBake {
                package: p.name.clone(),
                version: p.version.clone(),
                url: sd.url.clone(),
                sha256: crate::buck::emit::trim_sha_text(sd.hash.as_str()),
                wheel_filename: pure_python_filename(p.name.as_str(), p.version.as_str()),
            };
            let ghost pre = out@;
            out.push(b);
            assert(bakes_view(out@) =~= bakes_view(pre).push(b@));
        }
        i += 1;
    }
    assert(ps@.subrange(0, i as int) =~= ps@);
    proof {
        law_every_registry_wheel_fetched(ps@);
    }
    out
}

/// The name a build backend is shown by.
pub open spec fn backend_text(b: AllowlistedBackend) -> Seq<char> {
    match b {
        AllowlistedBackend::FlitCore => "flit-core"@,
        AllowlistedBackend::Hatchling => "hatchling"@,
        AllowlistedBackend::Setuptools => "setuptools"@,
        AllowlistedBackend::PoetryCore => "poetry-core"@,
        AllowlistedBackend::PdmBackend => "pdm-backend"@,
    }
}

/// The name a build backend is shown by.
pub fn backend_str(b: AllowlistedBackend) -> (r: &'static str)
    ensures
        r@ == backend_text(b),
{
    match b {
        AllowlistedBackend::FlitCore => "flit-core",
        AllowlistedBackend::Hatchling => "hatchling",
        AllowlistedBackend::Setuptools => "setuptools",
        AllowlistedBackend::PoetryCore => "poetry-core",
        AllowlistedBackend::PdmBackend => "pdm-backend",
    }
}

/// How a native classification is recorded in the manifest.
pub open spec fn native_reason_text(r: NativeReason) -> Seq<char> {
    match r {
        NativeReason::UnknownBackend { build_backend } => "UnknownBackend:"@ + build_backend@,
        NativeReason::MissingPyprojectToml => "MissingPyprojectToml"@,
        NativeReason::SetuptoolsWithExtModules => "SetuptoolsWithExtModules"@,
        NativeReason::AdjacentNativeSource { hit } => "AdjacentNativeSource:"@ + match hit {
            NativeSourceHit::CargoToml(p) => "CargoToml@"@ + p@,
            NativeSourceHit::MesonBuild(p) => "MesonBuild@"@ + p@,
            NativeSourceHit::CMakeLists(p) => "CMakeLists@"@ + p@,
            NativeSourceHit::CExt(p) => "CExt@"@ + p@,
            NativeSourceHit::CppExt(p) => "CppExt@"@ + p@,
            NativeSourceHit::PyxExt(p) => "PyxExt@"@ + p@,
        },
    }
}

/// How a native classification is recorded in the manifest.
pub fn render_native_reason(reason: &NativeReason) -> (r: String)
    ensures
        r@ == native_reason_text(*reason),
{
    let mut out = String::new();
    match reason {
        NativeReason::UnknownBackend { build_backend } => {
            push_str(&mut out, "UnknownBackend:");
            push_str(&mut out, build_backend.as_str());
        },
        NativeReason::MissingPyprojectToml => {
            push_str(&mut out, "MissingPyprojectToml");
        },
        NativeReason::SetuptoolsWithExtModules => {
            push_str(&mut out, "SetuptoolsWithExtModules");
        },
        NativeReason::AdjacentNativeSource { hit } => {
            push_str(&mut out, "AdjacentNativeSource:");
            let ghost o = out@;
            match hit {
                NativeSourceHit::CargoToml(p) => {
                    push_str(&mut out, "CargoToml@");
                    push_str(&mut out, p.as_str());
                },
                NativeSourceHit::MesonBuild(p) => {
                    push_str(&mut out, "MesonBuild@");
                    push_str(&mut out, p.as_str());
                },
                NativeSourceHit::CMakeLists(p) => {
                    push_str(&mut out, "CMakeLists@");
                    push_str(&mut out, p.as_str());
                },
                NativeSourceHit::CExt(p) => {
                    push_str(&mut out, "CExt@");
                    push_str(&mut out, p.as_str());
                },
                NativeSourceHit::CppExt(p) => {
                    push_str(&mut out, "CppExt@");
                    push_str(&mut out, p.as_str());
                },
                NativeSourceHit::PyxExt(p) => {
                    push_str(&mut out, "PyxExt@");
                    push_str(&mut out, p.as_str());
                },
            }
        },
    }
    out
}

/// What prebaking an sdist came to: a built wheel, or a native sdist.
#[derive(Debug, Clone)]
pub enum BakeOutcome {
    Built { backend: AllowlistedBackend, wheel_filename: String, wheel_sha256: String },
    Native { reason: NativeReason },
}

/// The manifest entry recording a prebake.
pub fn manifest_entry_for(b: &SdistBake, outcome: &BakeOutcome) -> (r: ManifestEntry)
    ensures
        r.package@ == b.package@,
        r.version@ == b.version@,
        r.sdist_sha256@ == b.sha256@,
        match *outcome {
            BakeOutcome::Built { backend, wheel_filename, wheel_sha256 } => r.classification matches ManifestClassification::PurePython {
                backend: rb,
                wheel_filename: rf,
                wheel_sha256: rs,
            } && rb == backend && rf@ == wheel_filename@ && rs@ == wheel_sha256@,
            BakeOutcome::Native { reason } => r.classification matches ManifestClassification::Native { reason: rr }
                && rr@ == native_reason_text(reason),
        },
{
    let classification = match outcome {
        BakeOutcome::Built { backend, wheel_filename, wheel_sha256 } => ManifestClassification::PurePython {
            backend: *backend,
            wheel_filename: wheel_filename.clone(),
            wheel_sha256: wheel_sha256.clone(),
        },
        BakeOutcome::Native { reason } => ManifestClassification::Native { reason: render_native_reason(reason) },
    };
    ManifestEntry {
        package: b.package.clone(),
        version: b.version.clone(),
        sdist_sha256: b.sha256.clone(),
        classification,
    }
}

/// The file name has the extension `whl` (`Path::extension`: the text after
/// the last `.`, when that `.` is not the first character).
pub open spec fn has_whl_extension(name: Seq<char>) -> bool {
    match last_index(name, '.') {
        Some(i) => i > 0 && name.subrange(i + 1, name.len() as int) == seq!['w', 'h', 'l'],
        None => false,
    }
}

fn has_whl_extension_exec(name: &str) -> (r: bool)
    ensures
        r == has_whl_extension(name@),
{
    let cs = chars_of(name);
    match rfind_char(cs.as_slice(), '.') {
        Some(i) => {
            if i == 0 {
                return false;
            }
            let n = cs.len();
            assert(i < n);
            let start = i + 1;
            let ext = slice_chars(cs.as_slice(), start, n);
            let whl = vec!['w', 'h', 'l'];
            assert(whl@ =~= seq!['w', 'h', 'l']);
            crate::text::chars_eq(ext.as_slice(), whl.as_slice())
        },
        None => false,
    }
}

/// `a` sorts no later than `b`.
pub open spec fn text_le(a: Seq<char>, b: Seq<char>) -> bool {
    seq_lt(a, b) || a == b
}

/// The listed wheels that are not expected, in listing order.
pub open spec fn stale_of(listing: Seq<Seq<char>>, expected: Seq<Seq<char>>) -> Seq<Seq<char>>
    decreases listing.len(),
{
    if listing.len() == 0 {
        Seq::empty()
    } else if has_whl_extension(listing.last()) && !expected.contains(listing.last()) {
        stale_of(listing.drop_last(), expected).push(listing.last())
    } else {
        stale_of(listing.drop_last(), expected)
    }
}

/// Inserts `x` into a sorted list, after any equal text.
fn insert_text(out: &mut Vec<String>, x: String)
    requires
        forall|a: int, b: int| 0 <= a < b < old(out)@.len() ==> text_le(#[trigger] old(out)@[a]@, #[trigger] old(out)@[b]@),
    ensures
        forall|a: int, b: int| 0 <= a < b < final(out)@.len() ==> text_le(#[trigger] final(out)@[a]@, #[trigger] final(out)@[b]@),
        strings_view(final(out)@).to_multiset() == strings_view(old(out)@).to_multiset().insert(x@),
{
    let ghost o = strings_view(out@);
    let mut i: usize = 0;
    while i < out.len()
        invariant
            i <= out@.len(),
            o == strings_view(out@),
            forall|a: int, b: int| 0 <= a < b < o.len() ==> text_le(#[trigger] o[a], #[trigger] o[b]),
            forall|k: int| 0 <= k < i ==> text_le(#[trigger] o[k], x@),
        ensures
            i <= out@.len(),
            o == strings_view(out@),
            forall|k: int| 0 <= k < i ==> text_le(#[trigger] o[k], x@),
            i < out@.len() ==> seq_lt(x@, o[i as int]),
        decreases out@.len() - i,
    {
        assert(o[i as int] == out@[i as int]@);
        if string_lt(&x, &out[i]) {
            break;
        }
        proof {
            crate::text::lemma_seq_lt_total(x@, out@[i as int]@);
        }
        i += 1;
    }
    proof {
        if i < o.len() {
            assert(o[i as int] == out@[i as int]@);
        }
    }
    let ghost xv = x@;
    out.insert(i, x);
    proof {
        let n = strings_view(out@);
        assert(n =~= o.insert(i as int, xv));
        vstd::seq_lib::to_multiset_insert(o, i as int, xv);
        assert forall|a: int, b: int| 0 <= a < b < n.len() implies text_le(#[trigger] out@[a]@, #[trigger] out@[b]@) by {
            assert(n[a] == out@[a]@ && n[b] == out@[b]@);
            if b < i {
                assert(n[a] == o[a] && n[b] == o[b]);
            } else if b == i {
                assert(n[a] == o[a]);
            } else if a < i {
                assert(n[a] == o[a] && n[b] == o[b - 1]);
                if b - 1 > a {
                    assert(text_le(o[a], o[b - 1]));
                }
            } else if a == i {
                assert(n[b] == o[b - 1]);
                if b - 1 > i {
                    assert(text_le(o[i as int], o[b - 1]));
                    if seq_lt(o[i as int], o[b - 1]) {
                        crate::text::lemma_seq_lt_transitive(xv, o[i as int], o[b - 1]);
                    }
                }
            } else {
                assert(n[a] == o[a - 1] && n[b] == o[b - 1]);
                assert(text_le(o[a - 1], o[b - 1]));
            }
        }
    }
}

/// Which listed files to prune from `vendor/`: the `.whl` files not
/// expected, sorted.
pub fn stale_wheels(listing: &Vec<String>, expected: &Vec<String>) -> (r: Vec<String>)
    ensures
        forall|a: int, b: int| 0 <= a < b < r@.len() ==> text_le(#[trigger] r@[a]@, #[trigger] r@[b]@),
        strings_view(r@).to_multiset() == stale_of(strings_view(listing@), strings_view(expected@)).to_multiset(),
{
    let ghost lv = strings_view(listing@);
    let ghost ev = strings_view(expected@);
    let mut out: Vec<String> = Vec::new();
    let mut i: usize = 0;
    proof {
        assert(strings_view(out@) =~= stale_of(lv.subrange(0, 0), ev));
    }
    while i < listing.len()
        invariant
            i <= listing@.len(),
            lv == strings_view(listing@),
            ev == strings_view(expected@),
            forall|a: int, b: int| 0 <= a < b < out@.len() ==> text_le(#[trigger] out@[a]@, #[trigger] out@[b]@),
            strings_view(out@).to_multiset() == stale_of(lv.subrange(0, i as int), ev).to_multiset(),
        decreases listing@.len() - i,
    {
        let name = &listing[i];
        proof {
            let t = lv.subrange(0, i + 1);
            assert(t.drop_last() =~= lv.subrange(0, i as int));
            assert(t.last() == name@);
        }
        let mut wanted = false;
        let mut j: usize = 0;
        while j < expected.len()
            invariant
                j <= expected@.len(),
                ev == strings_view(expected@),
                wanted == exists|k: int| 0 <= k < j && ev[k] == name@,
            decreases expected@.len() - j,
        {
            let same = str_eq(expected[j].as_str(), name.as_str());
            if same {
                wanted = true;
            }
            proof {
                assert(ev[j as int] == expected@[j as int]@);
                if !same && exists|k: int| 0 <= k < j + 1 && ev[k] == name@ {
                    let k = choose|k: int| 0 <= k < j + 1 && ev[k] == name@;
                    assert(k < j);
                }
            }
            j += 1;
        }
        if has_whl_extension_exec(name.as_str()) && !wanted {
            let ghost pre = stale_of(lv.subrange(0, i as int), ev);
            insert_text(&mut out, name.clone());
            proof {
                vstd::seq_lib::to_multiset_build(pre, name@);
            }
        }
        i += 1;
    }
    assert(lv.subrange(0, i as int) =~= lv);
    out
}

/// The SHA-256 digest of `bytes` as `hex::encode` renders it (lowercase).
pub uninterp spec fn sha256_digest(bytes: Seq<u8>) -> Seq<char>;

/// `sha2::Sha256::digest` of `bytes`, rendered by `hex::encode`: the result
/// is named by [`sha256_digest`]; its length, two hex digits per byte of the
/// 32-byte digest, is stated.
#[verifier::external_body]
pub(crate) fn sha256_hex(bytes: &Vec<u8>) -> (r: String)
    ensures
        r@ == sha256_digest(bytes@),
        r@.len() == 64,
{
    hex::encode(<sha2::Sha256 as sha2::Digest>::digest(bytes.as_slice()))
}

/// The lowercase hex SHA-256 of a wheel that a build produced, as the
/// manifest records it.
pub fn wheel_sha256(bytes: &Vec<u8>) -> (r: String)
    ensures
        r@ == sha256_digest(bytes@),
        r@.len() == 64,
{
    sha256_hex(bytes)
}

/// Whether a file already in place (its bytes, `None` when there is no such
/// file) has the hash the lockfile gives, leading `sha256:` prefixes ignored.
pub fn skip_existing(existing: Option<&Vec<u8>>, expected_sha: &str) -> (r: bool)
    ensures
        r == match existing {
            Some(b) => sha256_digest(b@) == trim_all(expected_sha@, sha_prefix()),
            None => false,
        },
{
    match existing {
        None => false,
        Some(b) => {
            let got = sha256_hex(b);
            let want = trim_sha_text(expected_sha);
            str_eq(got.as_str(), want.as_str())
        },
    }
}

/// `e` reports that `package` `version` hashed to `actual`, not `expected`.
pub open spec fn hash_mismatch(e: SdistError, package: Seq<char>, version: Seq<char>, expected: Seq<char>, actual: Seq<char>) -> bool {
    match e {
        SdistError::HashMismatch { package: p, version: v, expected: x, actual: a } => p@ == package && v@ == version
            && x@ == expected && a@ == actual,
        _ => false,
    }
}

/// Checks a downloaded sdist against the hash the lockfile gives, compared
/// as is.
pub fn verify_sha256(bytes: &Vec<u8>, expected: &str, package: &str, version: &str) -> (r: Result<(), SdistError>)
    ensures
        r is Ok <==> sha256_digest(bytes@) == expected@,
        (r matches Err(e) ==> hash_mismatch(e, package@, version@, expected@, sha256_digest(bytes@))),
{
    let actual = sha256_hex(bytes);
    if str_eq(actual.as_str(), expected) {
        Ok(())
    } else {
        Err(SdistError::HashMismatch {
            package: package.to_string(),
            version: version.to_string(),
            expected: expected.to_string(),
            actual,
        })
    }
}

/// Checks a downloaded wheel against the hash the lockfile gives, leading
/// `sha256:` prefixes ignored; on a mismatch, the expected and the actual
/// digests.
pub fn check_wheel_sha256(bytes: &Vec<u8>, expected_sha256: &str) -> (r: Result<(), (String, String)>)
    ensures
        r is Ok <==> sha256_digest(bytes@) == trim_all(expected_sha256@, sha_prefix()),
        (r matches Err(p) ==> p.0@ == trim_all(expected_sha256@, sha_prefix()) && p.1@ == sha256_digest(bytes@)),
{
    let actual = sha256_hex(bytes);
    let expected = trim_sha_text(expected_sha256);
    if str_eq(actual.as_str(), expected.as_str()) {
        Ok(())
    } else {
        Err((expected, actual))
    }
}


/// How many wheels the registry packages list, all together.
pub open spec fn registry_wheel_count(ps: Seq<Package>) -> nat
    decreases ps.len(),
{
    if ps.len() == 0 {
        0
    } else {
        registry_wheel_count(ps.drop_last()) + if is_registry(ps.last().source) {
            ps.last().wheels@.len()
        } else {
            0
        }
    }
}

/// `f` fetches wheel `j` of package `p`: the package's name and version,
/// the wheel's URL and filename, and its hash without the `sha256:` prefix.
pub open spec fn fetches_wheel(f: WheelFetchModel, p: Package, j: int) -> bool {
    &&& f.package == p.name@
    &&& f.version == p.version@
    &&& f.url == p.wheels@[j].url@
    &&& f.filename == p.wheels@[j].filename@
    &&& f.sha256 == crate::buck::emit::trim_all(p.wheels@[j].hash@, crate::buck::emit::sha_prefix())
}

/// Some fetch of `fs` fetches wheel `j` of package `p`.
pub open spec fn wheel_fetched(fs: Seq<WheelFetchModel>, p: Package, j: int) -> bool {
    exists|k: int| 0 <= k < fs.len() && #[trigger] fetches_wheel(fs[k], p, j)
}

/// `f` fetches some wheel of some registry package of `ps`.
pub open spec fn from_registry_wheel(ps: Seq<Package>, f: WheelFetchModel) -> bool {
    exists|i: int, j: int|
        0 <= i < ps.len() && is_registry(ps[i].source) && 0 <= j < ps[i].wheels@.len() && #[trigger] fetches_wheel(f, ps[i], j)
}

/// Vendoring fetches every wheel of every registry package and nothing
/// else: one fetch per such wheel.
pub proof fn law_every_registry_wheel_fetched(ps: Seq<Package>)
    ensures
        all_fetches(ps).len() == registry_wheel_count(ps),
        forall|i: int, j: int|
            0 <= i < ps.len() && is_registry(ps[i].source) && 0 <= j < ps[i].wheels@.len() ==> #[trigger] wheel_fetched(
                all_fetches(ps),
                ps[i],
                j,
            ),
        forall|k: int| 0 <= k < all_fetches(ps).len() ==> from_registry_wheel(ps, #[trigger] all_fetches(ps)[k]),
    decreases ps.len(),
{
    if ps.len() > 0 {
        let d = ps.drop_last();
        let p = ps.last();
        law_every_registry_wheel_fetched(d);
        let a = all_fetches(d);
        let b = fetches_of(p);
        let all = all_fetches(ps);
        assert(all == a + b);
        let n = ps.len() - 1;
        assert(ps[n] == p);
        assert forall|i: int, j: int|
            0 <= i < ps.len() && is_registry(ps[i].source) && 0 <= j < ps[i].wheels@.len() implies #[trigger] wheel_fetched(
                all,
                ps[i],
                j,
            ) by {
            if i < n {
                assert(d[i] == ps[i]);
                assert(wheel_fetched(a, d[i], j));
                let k = choose|k: int| 0 <= k < a.len() && #[trigger] fetches_wheel(a[k], d[i], j);
                assert(all[k] == a[k]);
                assert(fetches_wheel(all[k], ps[i], j));
            } else {
                assert(all[a.len() + j] == b[j]);
                assert(fetches_wheel(all[a.len() + j], ps[i], j));
            }
        }
        assert forall|k: int| 0 <= k < all.len() implies from_registry_wheel(ps, #[trigger] all[k]) by {
            if k < a.len() {
                assert(all[k] == a[k]);
                assert(from_registry_wheel(d, a[k]));
                let (i, j) = choose|i: int, j: int|
                    0 <= i < d.len() && is_registry(d[i].source) && 0 <= j < d[i].wheels@.len()
                        && #[trigger] fetches_wheel(a[k], d[i], j);
                assert(d[i] == ps[i]);
                assert(fetches_wheel(all[k], ps[i], j));
            } else {
                let j = k - a.len();
                assert(all[k] == b[j]);
                assert(is_registry(p.source));
                assert(fetches_wheel(all[k], ps[n], j));
            }
        }
    }
}


/// How many packages are known only by their registry sdist.
pub open spec fn sdist_only_count(ps: Seq<Package>) -> nat
    decreases ps.len(),
{
    if ps.len() == 0 {
        0
    } else {
        sdist_only_count(ps.drop_last()) + if sdist_only(ps.last()) {
            1nat
        } else {
            0
        }
    }
}

/// `b` prebakes the sdist of package `p`: its name and version, the
/// sdist's URL, and its hash without the `sha256:` prefix.
pub open spec fn bakes_sdist_of(b: SdistBakeModel, p: Package) -> bool {
    &&& b.package == p.name@
    &&& b.version == p.version@
    &&& b.url == p.sdist->0.url@
    &&& b.sha256 == crate::buck::emit::trim_all(p.sdist->0.hash@, crate::buck::emit::sha_prefix())
}

/// Some prebake of `bs` is for package `p`'s sdist.
pub open spec fn sdist_baked(bs: Seq<SdistBakeModel>, p: Package) -> bool {
    exists|k: int| 0 <= k < bs.len() && #[trigger] bakes_sdist_of(bs[k], p)
}

/// `b` prebakes some sdist-only package of `ps`.
pub open spec fn from_sdist_only(ps: Seq<Package>, b: SdistBakeModel) -> bool {
    exists|i: int| 0 <= i < ps.len() && sdist_only(ps[i]) && #[trigger] bakes_sdist_of(b, ps[i])
}

/// Vendoring prebakes the sdist of every package known only by its registry
/// sdist, once each, and nothing else.
pub proof fn law_every_sdist_only_prebaked(ps: Seq<Package>)
    ensures
        all_bakes(ps).len() == sdist_only_count(ps),
        forall|i: int| 0 <= i < ps.len() && sdist_only(ps[i]) ==> #[trigger] sdist_baked(all_bakes(ps), ps[i]),
        forall|k: int| 0 <= k < all_bakes(ps).len() ==> from_sdist_only(ps, #[trigger] all_bakes(ps)[k]),
    decreases ps.len(),
{
    if ps.len() > 0 {
        let d = ps.drop_last();
        let p = ps.last();
        let n = ps.len() - 1;
        assert(ps[n] == p);
        law_every_sdist_only_prebaked(d);
        let a = all_bakes(d);
        let all = all_bakes(ps);
        if sdist_only(p) {
            assert(all == a.push(bake_of(p)));
        } else {
            assert(all == a);
        }
        assert forall|i: int| 0 <= i < ps.len() && sdist_only(ps[i]) implies #[trigger] sdist_baked(all, ps[i]) by {
            if i < n {
                assert(d[i] == ps[i]);
                assert(sdist_baked(a, d[i]));
                let k = choose|k: int| 0 <= k < a.len() && #[trigger] bakes_sdist_of(a[k], d[i]);
                assert(all[k] == a[k]);
                assert(bakes_sdist_of(all[k], ps[i]));
            } else {
                assert(all[a.len() as int] == bake_of(p));
                assert(bakes_sdist_of(all[a.len() as int], ps[i]));
            }
        }
        assert forall|k: int| 0 <= k < all.len() implies from_sdist_only(ps, #[trigger] all[k]) by {
            if k < a.len() {
                assert(all[k] == a[k]);
                assert(from_sdist_only(d, a[k]));
                let i = choose|i: int| 0 <= i < d.len() && sdist_only(d[i]) && #[trigger] bakes_sdist_of(a[k], d[i]);
                assert(d[i] == ps[i]);
                assert(bakes_sdist_of(all[k], ps[i]));
            } else {
                assert(all[k] == bake_of(p));
                assert(bakes_sdist_of(all[k], ps[n]));
            }
        }
    }
}

/// The wheels to prune are exactly the listed `.whl` files that are not
/// expected.
pub proof fn law_stale_are_unexpected_wheels(listing: Seq<Seq<char>>, expected: Seq<Seq<char>>)
    ensures
        forall|x: Seq<char>| #[trigger] stale_of(listing, expected).contains(x) <==> (listing.contains(x) && has_whl_extension(x)
            && !expected.contains(x)),
    decreases listing.len(),
{
    if listing.len() > 0 {
        let d = listing.drop_last();
        let l = listing.last();
        law_stale_are_unexpected_wheels(d, expected);
        let prev = stale_of(d, expected);
        let r = stale_of(listing, expected);
        assert(listing =~= d.push(l));
        assert forall|x: Seq<char>| #[trigger] r.contains(x) <==> (listing.contains(x) && has_whl_extension(x) && !expected.contains(x)) by {
            if has_whl_extension(l) && !expected.contains(l) {
                assert(r == prev.push(l));
                if prev.contains(x) {
                    let k = choose|k: int| 0 <= k < prev.len() && prev[k] == x;
                    assert(r[k] == x);
                }
                if r.contains(x) && x != l {
                    let k = choose|k: int| 0 <= k < r.len() && r[k] == x;
                    assert(prev[k] == x);
                }
                if x == l {
                    assert(r[prev.len() as int] == x);
                }
            } else {
                assert(r == prev);
            }
            if listing.contains(x) && x != l {
                let k = choose|k: int| 0 <= k < listing.len() && listing[k] == x;
                assert(d[k] == x);
            }
            if d.contains(x) {
                let k = choose|k: int| 0 <= k < d.len() && d[k] == x;
                assert(listing[k] == x);
            }
            if x == l {
                assert(listing[listing.len() - 1] == x);
            }
        }
    }
}

} // verus!
