//! `muntjac.toml` configuration: model, validation and derived values.

use vstd::prelude::*;

use crate::error::{ConfigError, ConfigErrorModel};
use crate::fixup::registry::{RegistryConfig, RegistryModel};
use crate::paths::{components, keep_common, path_components, path_less, path_lt, render, render_components, vecs_view, common_prefix, lemma_path_lt_irreflexive, lemma_path_lt_total, lemma_path_lt_transitive};
use crate::strmap::{lookup, sorted_keys, StrMap};
use crate::text::{
    dedup_strings,
    chars_of, ends_with, find_char, first_index, has_suffix, owned, parse_u32, parse_u32_spec,
    parse_u8, parse_u8_spec, push_decimal, push_str, slice_chars, split_chars, split_seq, str_eq,
    string_of,
};

verus! {

/// A CPython version `major.minor`.
#[derive(Debug, Clone, Copy, PartialEq, Eq, Hash, PartialOrd, Ord, Structural)]
pub struct PythonVersion(pub u8, pub u8);

/// What `PythonVersion::from_str` makes of `s`: `3.<minor>`, or the message
/// of the first check that fails.
pub open spec fn python_version_spec(s: Seq<char>) -> Result<PythonVersion, Seq<char>> {
    let parts = split_seq(s, '.');
    if parts.len() != 2 {
        Err("python version must be MAJOR.MINOR, got `"@ + s + "`"@)
    } else if parse_u8_spec(parts[0]) is None {
        Err("bad major in `"@ + s + "`"@)
    } else if parse_u8_spec(parts[1]) is None {
        Err("bad minor in `"@ + s + "`"@)
    } else if parse_u8_spec(parts[0]) != Some(3u8) {
        Err("only Python 3.x supported, got `"@ + s + "`"@)
    } else {
        Ok(PythonVersion(3, parse_u8_spec(parts[1])->0))
    }
}

fn quoted_message(prefix: &str, s: &str) -> (r: String)
    ensures
        r@ == prefix@ + s@ + "`"@,
{
    let mut out = String::new();
    push_str(&mut out, prefix);
    push_str(&mut out, s);
    push_str(&mut out, "`");
    out
}

impl PythonVersion {
    /// Parses `MAJOR.MINOR`; only Python 3 is accepted.
    pub fn parse(s: &str) -> (r: Result<PythonVersion, String>)
        ensures
            match (r, python_version_spec(s@)) {
                (Ok(v), Ok(w)) => v == w,
                (Err(e), Err(m)) => e@ == m,
                _ => false,
            },
    {
        let cs = chars_of(s);
        let parts = split_chars(cs.as_slice(), '.');
        if parts.len() != 2 {
            return Err(quoted_message("python version must be MAJOR.MINOR, got `", s));
        }
        assert(parts@[0]@ == split_seq(s@, '.')[0]);
        assert(parts@[1]@ == split_seq(s@, '.')[1]);
        let major = match parse_u8(parts[0].as_slice()) {
            Some(m) => m,
            None => return Err(quoted_message("bad major in `", s)),
        };
        let minor = match parse_u8(parts[1].as_slice()) {
            Some(m) => m,
            None => return Err(quoted_message("bad minor in `", s)),
        };
        if major != 3 {
            return Err(quoted_message("only Python 3.x supported, got `", s));
        }
        Ok(PythonVersion(major, minor))
    }

    /// `major.minor`, as the version is written.
    pub fn to_string(&self) -> (r: String)
        ensures
            r@ == crate::text::decimal(self.0 as nat) + seq!['.'] + crate::text::decimal(
                self.1 as nat,
            ),
    {
        let mut out = String::new();
        push_decimal(&mut out, self.0 as u64);
        crate::text::push_char(&mut out, '.');
        push_decimal(&mut out, self.1 as u64);
        out
    }
}

impl std::str::FromStr for PythonVersion {
    type Err = String;

    fn from_str(s: &str) -> (r: Result<Self, Self::Err>)
        ensures
            match (r, python_version_spec(s@)) {
                (Ok(v), Ok(w)) => v == w,
                (Err(e), Err(m)) => e@ == m,
                _ => false,
            },
    {
        PythonVersion::parse(s)
    }
}

/// `a<sep>b` split at the first `sep`, both sides `u32`s (`str::parse`).
pub open spec fn pair_spec(s: Seq<char>, sep: char) -> Option<(u32, u32)> {
    match first_index(s, sep) {
        None => None,
        Some(i) => match (parse_u32_spec(s.subrange(0, i)), parse_u32_spec(s.subrange(i + 1, s.len() as int))) {
            (Some(a), Some(b)) => Some((a, b)),
            _ => None,
        },
    }
}

/// Splits `s` at its first `sep` and parses both sides as `u32`.
pub fn parse_pair(s: &str, sep: char) -> (r: Option<(u32, u32)>)
    ensures
        r == pair_spec(s@, sep),
{
    let cs = chars_of(s);
    let found = find_char(cs.as_slice(), sep);
    if found.is_none() {
        return None;
    }
    let i = found.unwrap();
    assert(found == Some(i));
    let n = cs.len();
    let left = slice_chars(cs.as_slice(), 0, i);
    let right = slice_chars(cs.as_slice(), i + 1, n);
    match (parse_u32(left.as_slice()), parse_u32(right.as_slice())) {
        (Some(a), Some(b)) => Some((a, b)),
        _ => None,
    }
}

/// One target platform: a Rust target triple and its wheel baselines.
#[derive(Debug, Clone, PartialEq, Eq)]
pub struct Platform {
    pub target: String,
    pub manylinux: Option<String>,
    pub musllinux: Option<String>,
    pub macos_min: Option<String>,
}

pub open spec fn opt_view(o: Option<String>) -> Option<Seq<char>> {
    match o {
        Some(s) => Some(s@),
        None => None,
    }
}

/// The baseline `o` holds, parsed with `sep`; `None` when unset.
pub open spec fn baseline_spec(o: Option<String>, sep: char) -> Option<(u32, u32)> {
    match o {
        Some(s) => pair_spec(s@, sep),
        None => None,
    }
}

/// `o` is unset or parses with `sep`.
pub open spec fn baseline_ok(o: Option<String>, sep: char) -> bool {
    match o {
        Some(s) => pair_spec(s@, sep) is Some,
        None => true,
    }
}

fn parse_baseline(o: &Option<String>, sep: char) -> (r: Option<(u32, u32)>)
    requires
        baseline_ok(*o, sep),
    ensures
        r == baseline_spec(*o, sep),
{
    match o {
        Some(s) => parse_pair(s.as_str(), sep),
        None => None,
    }
}

impl Platform {
    /// The manylinux baseline `(major, minor)`, if set. The string must have
    /// passed validation.
    pub fn manylinux_baseline(&self) -> (r: Option<(u32, u32)>)
        requires
            baseline_ok(self.manylinux, '_'),
        ensures
            r == baseline_spec(self.manylinux, '_'),
    {
        parse_baseline(&self.manylinux, '_')
    }

    /// The musllinux baseline `(major, minor)`, if set. The string must have
    /// passed validation.
    pub fn musllinux_baseline(&self) -> (r: Option<(u32, u32)>)
        requires
            baseline_ok(self.musllinux, '_'),
        ensures
            r == baseline_spec(self.musllinux, '_'),
    {
        parse_baseline(&self.musllinux, '_')
    }

    /// The macOS deployment target `(major, minor)`, if set: the oldest
    /// macOS the binaries must support. The string must have passed
    /// validation.
    pub fn macos_min_parsed(&self) -> (r: Option<(u32, u32)>)
        requires
            baseline_ok(self.macos_min, '.'),
        ensures
            r == baseline_spec(self.macos_min, '.'),
    {
        parse_baseline(&self.macos_min, '.')
    }
}

/// The target triples a platform may name.
pub open spec fn known_triples() -> Seq<Seq<char>> {
    seq![
        "x86_64-unknown-linux-gnu"@,
        "aarch64-unknown-linux-gnu"@,
        "x86_64-unknown-linux-musl"@,
        "aarch64-unknown-linux-musl"@,
        "x86_64-apple-darwin"@,
        "aarch64-apple-darwin"@,
    ]
}

/// How the known triples are listed in the error message.
pub open spec fn known_triples_listed() -> Seq<char> {
    "[\"x86_64-unknown-linux-gnu\", \"aarch64-unknown-linux-gnu\", \"x86_64-unknown-linux-musl\", \"aarch64-unknown-linux-musl\", \"x86_64-apple-darwin\", \"aarch64-apple-darwin\"]"@
}

/// The outcome of checking a platform's target triple.
pub open spec fn target_triple_spec(name: Seq<char>, target: Seq<char>) -> Result<(), ConfigErrorModel> {
    if known_triples().contains(target) {
        Ok(())
    } else {
        Err(ConfigErrorModel::BadPlatform {
            name,
            reason: "unknown target triple `"@ + target + "`; expected one of "@ + known_triples_listed(),
        })
    }
}

pub open spec fn unit_result_matches(r: Result<(), ConfigError>, s: Result<(), ConfigErrorModel>) -> bool {
    match (r, s) {
        (Ok(_), Ok(_)) => true,
        (Err(e), Err(m)) => e@ == m,
        _ => false,
    }
}

/// Refuses a target triple outside the known set.
pub fn validate_target_triple(name: &str, target: &str) -> (r: Result<(), ConfigError>)
    ensures
        unit_result_matches(r, target_triple_spec(name@, target@)),
{
    proof {
        reveal_strlit("x86_64-unknown-linux-gnu");
        reveal_strlit("aarch64-unknown-linux-gnu");
        reveal_strlit("x86_64-unknown-linux-musl");
        reveal_strlit("aarch64-unknown-linux-musl");
        reveal_strlit("x86_64-apple-darwin");
        reveal_strlit("aarch64-apple-darwin");
    }
    let known = str_eq(target, "x86_64-unknown-linux-gnu") || str_eq(target, "aarch64-unknown-linux-gnu")
        || str_eq(target, "x86_64-unknown-linux-musl") || str_eq(target, "aarch64-unknown-linux-musl")
        || str_eq(target, "x86_64-apple-darwin") || str_eq(target, "aarch64-apple-darwin");
    proof {
        let k = known_triples();
        if k.contains(target@) {
            let j = choose|j: int| 0 <= j < k.len() && k[j] == target@;
            assert(0 <= j < 6);
        }
        if known {
            assert(k[0] == "x86_64-unknown-linux-gnu"@);
            assert(k[1] == "aarch64-unknown-linux-gnu"@);
            assert(k[2] == "x86_64-unknown-linux-musl"@);
            assert(k[3] == "aarch64-unknown-linux-musl"@);
            assert(k[4] == "x86_64-apple-darwin"@);
            assert(k[5] == "aarch64-apple-darwin"@);
        }
    }
    if known {
        Ok(())
    } else {
        let mut reason = String::new();
        push_str(&mut reason, "unknown target triple `");
        push_str(&mut reason, target);
        push_str(&mut reason, "`; expected one of ");
        push_str(
            &mut reason,
            "[\"x86_64-unknown-linux-gnu\", \"aarch64-unknown-linux-gnu\", \"x86_64-unknown-linux-musl\", \"aarch64-unknown-linux-musl\", \"x86_64-apple-darwin\", \"aarch64-apple-darwin\"]",
        );
        Err(ConfigError::BadPlatform { name: owned(name), reason })
    }
}

/// The outcome of checking a platform's baselines: each one that is set
/// must parse, and the baselines must suit the target's libc / OS.
pub open spec fn platform_baseline_spec(name: Seq<char>, p: Platform) -> Result<(), ConfigErrorModel> {
    let t = p.target@;
    let is_gnu = ends_with(t, "linux-gnu"@);
    let is_musl = ends_with(t, "linux-musl"@);
    let is_mac = ends_with(t, "apple-darwin"@);
    if !baseline_ok(p.manylinux, '_') {
        Err(ConfigErrorModel::BadPlatform {
            name,
            reason: "manylinux baseline must be N_M (got `"@ + p.manylinux->0@
                + "`); use `2_17` not `2014`"@,
        })
    } else if !baseline_ok(p.musllinux, '_') {
        Err(ConfigErrorModel::BadPlatform {
            name,
            reason: "musllinux baseline must be N_M (got `"@ + p.musllinux->0@ + "`)"@,
        })
    } else if !baseline_ok(p.macos_min, '.') {
        Err(ConfigErrorModel::BadPlatform {
            name,
            reason: "macos_min must be MAJOR.MINOR (got `"@ + p.macos_min->0@ + "`)"@,
        })
    } else if (is_gnu || is_musl) && p.manylinux is None && p.musllinux is None {
        Err(ConfigErrorModel::BadPlatform {
            name,
            reason: "linux platform must declare manylinux and/or musllinux baseline"@,
        })
    } else if (is_gnu || is_musl) && is_gnu && p.musllinux is Some {
        Err(ConfigErrorModel::BadPlatform {
            name,
            reason: "musllinux baseline only valid on *-linux-musl targets, not linux-gnu"@,
        })
    } else if (is_gnu || is_musl) && is_musl && p.manylinux is Some {
        Err(ConfigErrorModel::BadPlatform {
            name,
            reason: "manylinux baseline only valid on *-linux-gnu targets, not linux-musl"@,
        })
    } else if is_mac && p.macos_min is None {
        Err(ConfigErrorModel::BadPlatform {
            name,
            reason: "macOS platform must declare macos_min (deployment target)"@,
        })
    } else {
        Ok(())
    }
}

fn bad_platform(name: &str, reason: &str) -> (r: ConfigError)
    ensures
        r@ == (ConfigErrorModel::BadPlatform { name: name@, reason: reason@ }),
{
    ConfigError::BadPlatform { name: owned(name), reason: owned(reason) }
}

fn bad_shape(name: &str, prefix: &str, value: &str, suffix: &str) -> (r: ConfigError)
    ensures
        r@ == (ConfigErrorModel::BadPlatform { name: name@, reason: prefix@ + value@ + suffix@ }),
{
    let mut reason = String::new();
    push_str(&mut reason, prefix);
    push_str(&mut reason, value);
    push_str(&mut reason, suffix);
    ConfigError::BadPlatform { name: owned(name), reason }
}

fn str_ends_with(s: &str, suffix: &str) -> (r: bool)
    ensures
        r == ends_with(s@, suffix@),
{
    let a = chars_of(s);
    let b = chars_of(suffix);
    has_suffix(a.as_slice(), b.as_slice())
}

/// Checks the shape of each baseline that is set, then that the baselines
/// suit the target: a linux target needs one, glibc takes only manylinux,
/// musl only musllinux, and macOS needs `macos_min`.
pub fn validate_platform_baseline(name: &str, p: &Platform) -> (r: Result<(), ConfigError>)
    ensures
        unit_result_matches(r, platform_baseline_spec(name@, *p)),
{
    let is_gnu = str_ends_with(p.target.as_str(), "linux-gnu");
    let is_musl = str_ends_with(p.target.as_str(), "linux-musl");
    let is_mac = str_ends_with(p.target.as_str(), "apple-darwin");
    if let Some(s) = &p.manylinux {
        if parse_pair(s.as_str(), '_').is_none() {
            return Err(bad_shape(name, "manylinux baseline must be N_M (got `", s.as_str(), "`); use `2_17` not `2014`"));
        }
    }
    if let Some(s) = &p.musllinux {
        if parse_pair(s.as_str(), '_').is_none() {
            return Err(bad_shape(name, "musllinux baseline must be N_M (got `", s.as_str(), "`)"));
        }
    }
    if let Some(s) = &p.macos_min {
        if parse_pair(s.as_str(), '.').is_none() {
            return Err(bad_shape(name, "macos_min must be MAJOR.MINOR (got `", s.as_str(), "`)"));
        }
    }
    if is_gnu || is_musl {
        if p.manylinux.is_none() && p.musllinux.is_none() {
            return Err(bad_platform(name, "linux platform must declare manylinux and/or musllinux baseline"));
        }
        if is_gnu && p.musllinux.is_some() {
            return Err(bad_platform(name, "musllinux baseline only valid on *-linux-musl targets, not linux-gnu"));
        }
        if is_musl && p.manylinux.is_some() {
            return Err(bad_platform(name, "manylinux baseline only valid on *-linux-gnu targets, not linux-musl"));
        }
    }
    if is_mac && p.macos_min.is_none() {
        return Err(bad_platform(name, "macOS platform must declare macos_min (deployment target)"));
    }
    Ok(())
}

pub open spec fn is_ascii_lower(c: char) -> bool {
    'a' <= c && c <= 'z'
}

/// A dependency-group name: `[a-z][a-z0-9-]*`.
pub open spec fn valid_group_name(s: Seq<char>) -> bool {
    s.len() > 0 && is_ascii_lower(s[0]) && forall|i: int|
        1 <= i < s.len() ==> (is_ascii_lower(#[trigger] s[i]) || ('0' <= s[i] && s[i] <= '9')
            || s[i] == '-')
}

/// Refuses a dependency-group name outside `[a-z][a-z0-9-]*`.
pub fn validate_group_name(name: &str) -> (r: Result<(), ConfigError>)
    ensures
        match r {
            Ok(_) => valid_group_name(name@),
            Err(e) => !valid_group_name(name@) && e@ == ConfigErrorModel::BadGroupName(name@),
        },
{
    let cs = chars_of(name);
    if cs.len() == 0 || !('a' <= cs[0] && cs[0] <= 'z') {
        return Err(ConfigError::BadGroupName(owned(name)));
    }
    let mut i: usize = 1;
    while i < cs.len()
        invariant
            1 <= i <= cs@.len(),
            cs@ == name@,
            is_ascii_lower(cs@[0]),
            forall|k: int|
                1 <= k < i ==> (is_ascii_lower(#[trigger] cs@[k]) || ('0' <= cs@[k] && cs@[k] <= '9')
                    || cs@[k] == '-'),
        decreases cs@.len() - i,
    {
        let c = cs[i];
        if !(('a' <= c && c <= 'z') || ('0' <= c && c <= '9') || c == '-') {
            return Err(ConfigError::BadGroupName(owned(name)));
        }
        i += 1;
    }
    Ok(())
}

/// One dependency tree: a project manifest and where its vendored
/// packages live.
#[derive(Debug, Clone, PartialEq, Eq)]
pub struct Tree {
    pub name: String,
    pub manifest_path: String,
    pub third_party_dir: String,
    pub python_versions: Vec<PythonVersion>,
}

/// The `[fixups]` table.
#[derive(Debug, Clone, PartialEq, Eq)]
pub struct FixupsConfig {
    pub registry: RegistryConfig,
    pub registry_rev: Option<String>,
    pub allow_local_overrides: bool,
}

impl FixupsConfig {
    /// No registry, no revision, local overrides allowed.
    pub fn default_config() -> (r: Self)
        ensures
            r.registry@ == RegistryModel::NoRegistry,
            r.registry_rev is None,
            r.allow_local_overrides,
    {
        FixupsConfig { registry: RegistryConfig::NoRegistry, registry_rev: None, allow_local_overrides: true }
    }
}

/// The `[buck]` table.
#[derive(Debug, Clone, PartialEq, Eq)]
pub struct BuckConfig {
    pub file_name: String,
    pub vendor: bool,
    /// Where the shared cfg (`config/` and `wiring.bzl`) is written; unset
    /// means the longest common ancestor of the trees' third-party dirs.
    pub cfg_dir: Option<String>,
}

impl BuckConfig {
    /// `BUCK` files, not vendored, derived cfg dir.
    pub fn default_config() -> (r: Self)
        ensures
            r.file_name@ == "BUCK"@,
            !r.vendor,
            r.cfg_dir is None,
    {
        BuckConfig { file_name: owned("BUCK"), vendor: false, cfg_dir: None }
    }
}

/// The `[lockfile]` table.
#[derive(Debug, Clone, PartialEq, Eq)]
pub struct LockfileConfig {
    pub include_groups: Vec<String>,
}

impl LockfileConfig {
    /// No extra dependency groups.
    pub fn default_config() -> (r: Self)
        ensures
            r.include_groups@.len() == 0,
    {
        LockfileConfig { include_groups: Vec::new() }
    }
}

/// A whole `muntjac.toml`.
#[derive(Debug)]
pub struct Config {
    pub trees: Vec<Tree>,
    pub platforms: StrMap<Platform>,
    pub fixups: FixupsConfig,
    pub buck: BuckConfig,
    pub lockfile: LockfileConfig,
}

/// The components of each tree's third-party dir.
pub open spec fn tree_dirs(trees: Seq<Tree>) -> Seq<Seq<Seq<char>>> {
    trees.map_values(|t: Tree| path_components(t.third_party_dir@))
}

/// The common ancestor of all the dirs, component-wise.
pub open spec fn common_of(dirs: Seq<Seq<Seq<char>>>) -> Seq<Seq<char>>
    decreases dirs.len(),
{
    if dirs.len() <= 1 {
        if dirs.len() == 0 {
            Seq::empty()
        } else {
            dirs[0]
        }
    } else {
        common_prefix(common_of(dirs.drop_last()), dirs.last())
    }
}

/// Where the shared cfg goes: the explicit `[buck] cfg_dir`, else the
/// longest common ancestor of the trees' third-party dirs.
pub open spec fn shared_cfg_dir_spec(c: Config) -> Seq<char> {
    match c.buck.cfg_dir {
        Some(d) => d@,
        None => render_components(common_of(tree_dirs(c.trees@))),
    }
}

impl Config {
    /// Where the shared cfg (`config/` and `wiring.bzl`) is written. An
    /// explicit `[buck] cfg_dir` wins; else the longest common path-ancestor
    /// of all trees' third-party dirs, which for a single tree is its own.
    pub fn shared_cfg_dir(&self) -> (r: String)
        requires
            self.buck.cfg_dir is Some || self.trees@.len() > 0,
        ensures
            r@ == shared_cfg_dir_spec(*self),
    {
        if let Some(explicit) = &self.buck.cfg_dir {
            return explicit.clone();
        }
        let ghost dirs = tree_dirs(self.trees@);
        let mut common = components(self.trees[0].third_party_dir.as_str());
        assert(dirs.subrange(0, 1).len() == 1);
        assert(common_of(dirs.subrange(0, 1)) == dirs[0]);
        let mut i: usize = 1;
        while i < self.trees.len()
            invariant
                1 <= i <= self.trees@.len(),
                dirs == tree_dirs(self.trees@),
                vecs_view(common@) == common_of(dirs.subrange(0, i as int)),
            decreases self.trees@.len() - i,
        {
            let next = components(self.trees[i].third_party_dir.as_str());
            keep_common(&mut common, &next);
            assert(dirs.subrange(0, i + 1).drop_last() =~= dirs.subrange(0, i as int));
            i += 1;
        }
        assert(dirs.subrange(0, i as int) =~= dirs);
        render(&common)
    }
}

/// Version order: by major, then minor.
pub open spec fn version_lt(a: PythonVersion, b: PythonVersion) -> bool {
    a.0 < b.0 || (a.0 == b.0 && a.1 < b.1)
}

/// `v` is listed by some tree.
pub open spec fn listed_version(trees: Seq<Tree>, v: PythonVersion) -> bool {
    exists|i: int| 0 <= i < trees.len() && trees[i].python_versions@.contains(v)
}

/// Inserts `v` into a strictly increasing list unless present.
fn insert_version(out: &mut Vec<PythonVersion>, v: PythonVersion)
    requires
        forall|a: int, b: int| 0 <= a < b < old(out)@.len() ==> version_lt(old(out)@[a], old(out)@[b]),
    ensures
        forall|a: int, b: int| 0 <= a < b < final(out)@.len() ==> version_lt(final(out)@[a], final(out)@[b]),
        forall|w: PythonVersion| final(out)@.contains(w) <==> (old(out)@.contains(w) || w == v),
{
    let mut i: usize = 0;
    while i < out.len() && (out[i].0 < v.0 || (out[i].0 == v.0 && out[i].1 < v.1))
        invariant
            i <= out@.len(),
            forall|a: int, b: int| 0 <= a < b < out@.len() ==> version_lt(out@[a], out@[b]),
            forall|k: int| 0 <= k < i ==> version_lt(#[trigger] out@[k], v),
        decreases out@.len() - i,
    {
        i += 1;
    }
    if i < out.len() && out[i].0 == v.0 && out[i].1 == v.1 {
        assert(out@[i as int] == v);
        return;
    }
    let ghost o = out@;
    proof {
        if i < o.len() {
            assert(o[i as int] != v);
            assert(!version_lt(o[i as int], v));
            assert(version_lt(v, o[i as int]));
        }
    }
    out.insert(i, v);
    proof {
        let n = out@;
        assert(n == o.insert(i as int, v));
        assert forall|a: int, b: int| 0 <= a < b < n.len() implies version_lt(n[a], n[b]) by {
            if b < i {
                assert(n[a] == o[a] && n[b] == o[b]);
            } else if b == i {
                assert(n[a] == o[a]);
            } else if a < i {
                assert(n[a] == o[a] && n[b] == o[b - 1]);
                assert(version_lt(v, o[i as int]) || i == b - 1);
            } else if a == i {
                assert(n[b] == o[b - 1]);
                assert(n[a] == v);
                if b - 1 > i {
                    assert(version_lt(o[i as int], o[b - 1]));
                }
            } else {
                assert(n[a] == o[a - 1] && n[b] == o[b - 1]);
            }
        }
        assert forall|w: PythonVersion| n.contains(w) <==> (o.contains(w) || w == v) by {
            if o.contains(w) {
                let k = choose|k: int| 0 <= k < o.len() && o[k] == w;
                if k < i {
                    assert(n[k] == w);
                } else {
                    assert(n[k + 1] == w);
                }
            }
            if n.contains(w) {
                let k = choose|k: int| 0 <= k < n.len() && n[k] == w;
                if k < i {
                    assert(o[k] == w);
                } else if k > i {
                    assert(o[k - 1] == w);
                }
            }
            if w == v {
                assert(n[i as int] == v);
            }
        }
    }
}

impl Config {
    /// Every tree's python versions together, sorted and without repeats.
    pub fn python_versions_union(&self) -> (r: Vec<PythonVersion>)
        ensures
            forall|a: int, b: int| 0 <= a < b < r@.len() ==> version_lt(r@[a], r@[b]),
            forall|v: PythonVersion| r@.contains(v) <==> listed_version(self.trees@, v),
    {
        let mut out: Vec<PythonVersion> = Vec::new();
        let mut i: usize = 0;
        while i < self.trees.len()
            invariant
                i <= self.trees@.len(),
                forall|a: int, b: int| 0 <= a < b < out@.len() ==> version_lt(out@[a], out@[b]),
                forall|v: PythonVersion|
                    #![trigger out@.contains(v)]
                    out@.contains(v) <==> listed_version(self.trees@.subrange(0, i as int), v),
            decreases self.trees@.len() - i,
        {
            let t = &self.trees[i];
            let ghost before = out@;
            let mut j: usize = 0;
            while j < t.python_versions.len()
                invariant
                    j <= t.python_versions@.len(),
                    forall|a: int, b: int| 0 <= a < b < out@.len() ==> version_lt(out@[a], out@[b]),
                    forall|v: PythonVersion|
                        #![trigger out@.contains(v)]
                        out@.contains(v) <==> (before.contains(v) || t.python_versions@.subrange(0, j as int).contains(v)),
                decreases t.python_versions@.len() - j,
            {
                let v = t.python_versions[j];
                assert(v == t.python_versions@[j as int]);
                let ghost mid = out@;
                insert_version(&mut out, v);
                proof {
                    let sub = t.python_versions@.subrange(0, j + 1);
                    assert(sub == t.python_versions@.subrange(0, j as int).push(v));
                    assert forall|w: PythonVersion| sub.contains(w) <==> (t.python_versions@.subrange(0, j as int).contains(w) || w == v) by {
                        if sub.contains(w) {
                            let k = choose|k: int| 0 <= k < sub.len() && sub[k] == w;
                            if k < j {
                                assert(t.python_versions@.subrange(0, j as int)[k] == w);
                            }
                        }
                        if t.python_versions@.subrange(0, j as int).contains(w) {
                            let k = choose|k: int| 0 <= k < j && t.python_versions@.subrange(0, j as int)[k] == w;
                            assert(sub[k] == w);
                        }
                        if w == v {
                            assert(sub[j as int] == w);
                        }
                    }
                    assert forall|w: PythonVersion| out@.contains(w) <==> (before.contains(w) || sub.contains(w)) by {
                        assert(out@.contains(w) <==> (mid.contains(w) || w == v));
                        assert(mid.contains(w) <==> (before.contains(w) || t.python_versions@.subrange(0, j as int).contains(w)));
                    }
                }
                j += 1;
            }
            proof {
                assert(t.python_versions@.subrange(0, j as int) =~= t.python_versions@);
                let pre = self.trees@.subrange(0, i as int);
                let post = self.trees@.subrange(0, i + 1);
                assert forall|v: PythonVersion| listed_version(post, v) <==> (listed_version(pre, v) || t.python_versions@.contains(v)) by {
                    if listed_version(post, v) {
                        let k = choose|k: int| 0 <= k < post.len() && post[k].python_versions@.contains(v);
                        if k < i {
                            assert(pre[k] == post[k]);
                        }
                    }
                    if listed_version(pre, v) {
                        let k = choose|k: int| 0 <= k < pre.len() && pre[k].python_versions@.contains(v);
                        assert(post[k] == pre[k]);
                    }
                    if t.python_versions@.contains(v) {
                        assert(post[i as int] == *t);
                    }
                }
                assert forall|v: PythonVersion| out@.contains(v) <==> listed_version(post, v) by {
                    assert(out@.contains(v) <==> (before.contains(v) || t.python_versions@.subrange(0, j as int).contains(v)));
                    assert(before.contains(v) <==> listed_version(pre, v));
                }
            }
            i += 1;
        }
        assert(self.trees@.subrange(0, i as int) =~= self.trees@);
        out
    }
}

impl Config {
    /// Drops repeated `include_groups` entries, keeping each first occurrence.
    pub fn dedupe_include_groups(&mut self)
        ensures
            crate::text::strings_view(final(self).lockfile.include_groups@) == dedup_strings(
                crate::text::strings_view(old(self).lockfile.include_groups@),
            ),
            final(self).trees == old(self).trees,
            final(self).platforms == old(self).platforms,
            final(self).fixups == old(self).fixups,
            final(self).buck == old(self).buck,
    {
        let ghost gv = crate::text::strings_view(self.lockfile.include_groups@);
        let mut kept: Vec<String> = Vec::new();
        let mut i: usize = 0;
        while i < self.lockfile.include_groups.len()
            invariant
                i <= self.lockfile.include_groups@.len(),
                gv == crate::text::strings_view(self.lockfile.include_groups@),
                crate::text::strings_view(kept@) == dedup_strings(gv.subrange(0, i as int)),
            decreases self.lockfile.include_groups@.len() - i,
        {
            let g = &self.lockfile.include_groups[i];
            let mut seen = false;
            let mut j: usize = 0;
            while j < kept.len()
                invariant
                    j <= kept@.len(),
                    seen <==> exists|k: int| 0 <= k < j && kept@[k]@ == g@,
                decreases kept@.len() - j,
            {
                if str_eq(kept[j].as_str(), g.as_str()) {
                    seen = true;
                }
                j += 1;
            }
            proof {
                let kv = crate::text::strings_view(kept@);
                assert(gv.subrange(0, i + 1).drop_last() =~= gv.subrange(0, i as int));
                assert(gv.subrange(0, i + 1).last() == g@);
                if seen {
                    let k = choose|k: int| 0 <= k < j && kept@[k]@ == g@;
                    assert(kv[k] == g@);
                }
                if kv.contains(g@) {
                    let k = choose|k: int| 0 <= k < kv.len() && kv[k] == g@;
                    assert(kept@[k]@ == g@);
                }
            }
            if !seen {
                kept.push(g.clone());
                proof {
                    assert(crate::text::strings_view(kept@) =~= dedup_strings(gv.subrange(0, i as int)).push(g@));
                }
            }
            i += 1;
        }
        assert(gv.subrange(0, i as int) =~= gv);
        self.lockfile.include_groups = kept;
    }
}

/// Tree `i`'s dir first appears at `i` and appears again later.
pub open spec fn is_dup_head(dirs: Seq<Seq<Seq<char>>>, i: int) -> bool {
    &&& 0 <= i < dirs.len()
    &&& forall|j: int| 0 <= j < i ==> dirs[j] != dirs[i]
    &&& exists|j: int| i < j < dirs.len() && dirs[j] == dirs[i]
}

/// `f` heads the smallest shared dir in path order, as a `BTreeMap` keyed
/// by path finds it first.
pub open spec fn is_dup_choice(dirs: Seq<Seq<Seq<char>>>, f: int) -> bool {
    is_dup_head(dirs, f) && forall|g: int| is_dup_head(dirs, g) ==> !path_lt(dirs[g], dirs[f])
}

/// Names of the trees whose dir has components `d`, in tree order.
pub open spec fn names_at(trees: Seq<Tree>, d: Seq<Seq<char>>) -> Seq<Seq<char>>
    decreases trees.len(),
{
    if trees.len() == 0 {
        Seq::empty()
    } else {
        let p = names_at(trees.drop_last(), d);
        if path_components(trees.last().third_party_dir@) == d {
            p.push(trees.last().name@)
        } else {
            p
        }
    }
}

/// The first check that refuses the trees' dirs being shared.
pub open spec fn duplicate_dir_spec(trees: Seq<Tree>) -> Option<ConfigErrorModel> {
    let dirs = tree_dirs(trees);
    if exists|i: int| is_dup_head(dirs, i) {
        let f = choose|f: int| is_dup_choice(dirs, f);
        Some(ConfigErrorModel::DuplicateTreeDir { dir: trees[f].third_party_dir@, trees: names_at(trees, dirs[f]) })
    } else {
        None
    }
}

proof fn lemma_dup_choice_unique(dirs: Seq<Seq<Seq<char>>>, f1: int, f2: int)
    requires
        is_dup_choice(dirs, f1),
        is_dup_choice(dirs, f2),
    ensures
        f1 == f2,
{
    lemma_path_lt_total(dirs[f1], dirs[f2]);
    if f1 < f2 {
        assert(dirs[f1] != dirs[f2]);
    } else if f2 < f1 {
        assert(dirs[f2] != dirs[f1]);
    }
}

fn comps_eq(a: &Vec<Vec<char>>, b: &Vec<Vec<char>>) -> (r: bool)
    ensures
        r == (vecs_view(a@) == vecs_view(b@)),
{
    if a.len() != b.len() {
        return false;
    }
    let mut i: usize = 0;
    while i < a.len()
        invariant
            a@.len() == b@.len(),
            i <= a@.len(),
            forall|k: int| 0 <= k < i ==> a@[k]@ == b@[k]@,
        decreases a@.len() - i,
    {
        if !crate::text::chars_eq(a[i].as_slice(), b[i].as_slice()) {
            assert(vecs_view(a@)[i as int] != vecs_view(b@)[i as int]);
            return false;
        }
        i += 1;
    }
    assert(vecs_view(a@) =~= vecs_view(b@));
    true
}

pub open spec fn dirs_view(d: Seq<Vec<Vec<char>>>) -> Seq<Seq<Seq<char>>> {
    d.map_values(|x: Vec<Vec<char>>| vecs_view(x@))
}

fn dup_head_exec(dirs: &Vec<Vec<Vec<char>>>, i: usize) -> (r: bool)
    requires
        i < dirs@.len(),
    ensures
        r == is_dup_head(dirs_view(dirs@), i as int),
{
    let ghost dv = dirs_view(dirs@);
    let mut j: usize = 0;
    while j < i
        invariant
            j <= i < dirs@.len(),
            dv == dirs_view(dirs@),
            forall|k: int| 0 <= k < j ==> dv[k] != dv[i as int],
        decreases i - j,
    {
        if comps_eq(&dirs[j], &dirs[i]) {
            assert(dv[j as int] == dv[i as int]);
            return false;
        }
        j += 1;
    }
    let n = dirs.len();
    let mut k: usize = i + 1;
    while k < dirs.len()
        invariant
            i < k <= dirs@.len(),
            dv == dirs_view(dirs@),
            forall|m: int| 0 <= m < i ==> dv[m] != dv[i as int],
            forall|m: int| i < m < k ==> dv[m] != dv[i as int],
        decreases dirs@.len() - k,
    {
        if comps_eq(&dirs[k], &dirs[i]) {
            assert(dv[k as int] == dv[i as int]);
            return true;
        }
        k += 1;
    }
    false
}

/// Refuses two trees whose third-party dirs are the same path.
fn check_duplicate_dirs(trees: &Vec<Tree>) -> (r: Result<(), ConfigError>)
    ensures
        match (r, duplicate_dir_spec(trees@)) {
            (Ok(_), None) => true,
            (Err(e), Some(m)) => e@ == m,
            _ => false,
        },
{
    let ghost dv_t = tree_dirs(trees@);
    let mut dirs: Vec<Vec<Vec<char>>> = Vec::new();
    let mut i: usize = 0;
    while i < trees.len()
        invariant
            i <= trees@.len(),
            dv_t == tree_dirs(trees@),
            dirs_view(dirs@) == dv_t.subrange(0, i as int),
        decreases trees@.len() - i,
    {
        let c = components(trees[i].third_party_dir.as_str());
        assert(dv_t[i as int] == path_components(trees@[i as int].third_party_dir@));
        let ghost cv = vecs_view(c@);
        assert(dirs_view(dirs@).len() == i);
        let ghost d0 = dirs@;
        dirs.push(c);
        assert(dirs@ == d0.push(dirs@[i as int]));
        assert(vecs_view(dirs@[i as int]@) == cv);
        assert(dirs_view(dirs@)[i as int] == cv);
        assert(dirs_view(dirs@) =~= dv_t.subrange(0, i + 1));
        i += 1;
    }
    assert(dv_t.subrange(0, i as int) =~= dv_t);
    let ghost dv = dirs_view(dirs@);
    let mut best: Option<usize> = None;
    let mut i: usize = 0;
    while i < dirs.len()
        invariant
            i <= dirs@.len(),
            dirs@.len() == trees@.len(),
            dv == dirs_view(dirs@),
            dv == tree_dirs(trees@),
            best matches Some(f) ==> f < i && is_dup_head(dv, f as int) && forall|g: int|
                0 <= g < i && is_dup_head(dv, g) ==> !path_lt(dv[g], dv[f as int]),
            best is None ==> forall|g: int| 0 <= g < i ==> !is_dup_head(dv, g),
        decreases dirs@.len() - i,
    {
        if dup_head_exec(&dirs, i) {
            let replace = match best {
                None => true,
                Some(f) => path_less(&dirs[i], &dirs[f]),
            };
            proof {
                if let Some(f) = best {
                    if replace {
                        assert forall|g: int| 0 <= g < i + 1 && is_dup_head(dv, g) implies !path_lt(dv[g], dv[i as int]) by {
                            if g == i as int {
                                lemma_path_lt_irreflexive(dv[g]);
                            } else {
                                lemma_path_lt_transitive(dv[g], dv[i as int], dv[f as int]);
                            }
                        }
                    } else {
                        assert forall|g: int| 0 <= g < i + 1 && is_dup_head(dv, g) implies !path_lt(dv[g], dv[f as int]) by {
                        }
                    }
                } else {
                    assert forall|g: int| 0 <= g < i + 1 && is_dup_head(dv, g) implies !path_lt(dv[g], dv[i as int]) by {
                        lemma_path_lt_irreflexive(dv[g]);
                    }
                }
            }
            if replace {
                best = Some(i);
            }
        }
        i += 1;
    }
    match best {
        None => Ok(()),
        Some(f) => {
            proof {
                assert(is_dup_choice(dv, f as int));
                let c = choose|c: int| is_dup_choice(dv, c);
                lemma_dup_choice_unique(dv, f as int, c);
            }
            let mut names: Vec<String> = Vec::new();
            let mut k: usize = 0;
            while k < trees.len()
                invariant
                    k <= trees@.len(),
                    f < trees@.len(),
                    dirs@.len() == trees@.len(),
                    dv == dirs_view(dirs@),
                    dv == tree_dirs(trees@),
                    crate::text::strings_view(names@) == names_at(trees@.subrange(0, k as int), dv[f as int]),
                decreases trees@.len() - k,
            {
                assert(trees@.subrange(0, k + 1).drop_last() =~= trees@.subrange(0, k as int));
                assert(dv[k as int] == path_components(trees@[k as int].third_party_dir@));
                if comps_eq(&dirs[k], &dirs[f]) {
                    names.push(trees[k].name.clone());
                    assert(crate::text::strings_view(names@) =~= names_at(trees@.subrange(0, k as int), dv[f as int]).push(trees@[k as int].name@));
                }
                k += 1;
            }
            assert(trees@.subrange(0, k as int) =~= trees@);
            Err(ConfigError::DuplicateTreeDir { dir: trees[f].third_party_dir.clone(), trees: names })
        },
    }
}

/// Index of the first dir equal to `d`.
pub open spec fn first_at(dirs: Seq<Seq<Seq<char>>>, d: Seq<Seq<char>>) -> Option<int>
    decreases dirs.len(),
{
    if dirs.len() == 0 {
        None
    } else {
        match first_at(dirs.drop_last(), d) {
            Some(i) => Some(i),
            None => if dirs.last() == d {
                Some(dirs.len() - 1)
            } else {
                None
            },
        }
    }
}

/// Platforms in key order: the first whose target triple or baselines are
/// refused.
pub open spec fn platforms_spec(ps: Seq<(String, Platform)>) -> Result<(), ConfigErrorModel>
    decreases ps.len(),
{
    if ps.len() == 0 {
        Ok(())
    } else {
        match target_triple_spec(ps[0].0@, ps[0].1.target@) {
            Err(e) => Err(e),
            Ok(_) => match platform_baseline_spec(ps[0].0@, ps[0].1) {
                Err(e) => Err(e),
                Ok(_) => platforms_spec(ps.drop_first()),
            },
        }
    }
}

/// The first dependency-group name that is refused.
pub open spec fn groups_spec(gs: Seq<Seq<char>>) -> Result<(), ConfigErrorModel>
    decreases gs.len(),
{
    if gs.len() == 0 {
        Ok(())
    } else if !valid_group_name(gs[0]) {
        Err(ConfigErrorModel::BadGroupName(gs[0]))
    } else {
        groups_spec(gs.drop_first())
    }
}

/// What `Config::validate` decides, check by check.
pub open spec fn validate_spec(c: Config) -> Result<(), ConfigErrorModel> {
    let trees = c.trees@;
    let rest = match platforms_spec(c.platforms.pairs()) {
        Err(e) => Err(e),
        Ok(_) => groups_spec(crate::text::strings_view(c.lockfile.include_groups@)),
    };
    match duplicate_dir_spec(trees) {
        Some(e) => Err(e),
        None => if trees.len() > 1 {
            let d = shared_cfg_dir_spec(c);
            if d.len() == 0 {
                Err(ConfigErrorModel::CfgDirNotDerivable)
            } else {
                match first_at(tree_dirs(trees), path_components(d)) {
                    Some(t) => Err(ConfigErrorModel::TreeDirIsCfgDir {
                        tree: trees[t].name@,
                        dir: trees[t].third_party_dir@,
                    }),
                    None => rest,
                }
            }
        } else {
            rest
        },
    }
}

impl Config {
    /// Checks the whole configuration: no two trees share a third-party
    /// dir; with several trees the shared cfg dir is derivable and is no
    /// tree's own dir; every platform's triple and baselines are sound; and
    /// every dependency-group name is well formed.
    pub fn validate(&self) -> (r: Result<(), ConfigError>)
        requires
            self.platforms.wf(),
        ensures
            unit_result_matches(r, validate_spec(*self)),
    {
        match check_duplicate_dirs(&self.trees) {
            Err(e) => return Err(e),
            Ok(_) => {},
        }
        if self.trees.len() > 1 {
            let cfg_dir = self.shared_cfg_dir();
            if cfg_dir.unicode_len() == 0 {
                return Err(ConfigError::CfgDirNotDerivable);
            }
            let cfg_comps = components(cfg_dir.as_str());
            let ghost dirs = tree_dirs(self.trees@);
            let mut i: usize = 0;
            while i < self.trees.len()
                invariant
                    i <= self.trees@.len(),
                    self.trees@.len() > 1,
                    duplicate_dir_spec(self.trees@) is None,
                    cfg_dir@ == shared_cfg_dir_spec(*self),
                    cfg_dir@.len() > 0,
                    vecs_view(cfg_comps@) == path_components(cfg_dir@),
                    dirs == tree_dirs(self.trees@),
                    first_at(dirs.subrange(0, i as int), vecs_view(cfg_comps@)) is None,
                decreases self.trees@.len() - i,
            {
                let t = &self.trees[i];
                let tc = components(t.third_party_dir.as_str());
                assert(dirs.subrange(0, i + 1).drop_last() =~= dirs.subrange(0, i as int));
                assert(dirs[i as int] == vecs_view(tc@));
                if comps_eq(&tc, &cfg_comps) {
                    proof {
                        lemma_first_at_prefix(dirs, vecs_view(cfg_comps@), i as int + 1);
                    }
                    return Err(ConfigError::TreeDirIsCfgDir {
                        tree: t.name.clone(),
                        dir: t.third_party_dir.clone(),
                    });
                }
                i += 1;
            }
            assert(dirs.subrange(0, i as int) =~= dirs);
        }
        let ps = self.platforms.entries();
        let ghost gv0 = crate::text::strings_view(self.lockfile.include_groups@);
        assert(validate_spec(*self) == match platforms_spec(ps@) {
            Err(e) => Err(e),
            Ok(_) => groups_spec(gv0),
        });
        let mut i: usize = 0;
        assert(ps@.skip(0) =~= ps@);
        while i < ps.len()
            invariant
                i <= ps@.len(),
                gv0 == crate::text::strings_view(self.lockfile.include_groups@),
                validate_spec(*self) == match platforms_spec(ps@) {
                    Err(e) => Err(e),
                    Ok(_) => groups_spec(gv0),
                },
                platforms_spec(ps@) == platforms_spec(ps@.skip(i as int)),
            decreases ps@.len() - i,
        {
            let (name, p) = &ps[i];
            assert(ps@.skip(i as int)[0] == ps@[i as int]);
            assert(ps@.skip(i as int).drop_first() =~= ps@.skip(i + 1));
            match validate_target_triple(name.as_str(), p.target.as_str()) {
                Err(e) => return Err(e),
                Ok(_) => {},
            }
            match validate_platform_baseline(name.as_str(), p) {
                Err(e) => return Err(e),
                Ok(_) => {},
            }
            i += 1;
        }
        let gs = &self.lockfile.include_groups;
        let ghost gv = crate::text::strings_view(gs@);
        let mut k: usize = 0;
        assert(gv.skip(0) =~= gv);
        while k < gs.len()
            invariant
                k <= gs@.len(),
                gv == crate::text::strings_view(gs@),
                validate_spec(*self) == groups_spec(gv),
                groups_spec(gv) == groups_spec(gv.skip(k as int)),
            decreases gs@.len() - k,
        {
            assert(gv.skip(k as int)[0] == gs@[k as int]@);
            assert(gv.skip(k as int).drop_first() =~= gv.skip(k + 1));
            match validate_group_name(gs[k].as_str()) {
                Err(e) => return Err(e),
                Ok(_) => {},
            }
            k += 1;
        }
        Ok(())
    }
}

proof fn lemma_first_at_prefix(dirs: Seq<Seq<Seq<char>>>, d: Seq<Seq<char>>, n: int)
    requires
        0 < n <= dirs.len(),
        first_at(dirs.subrange(0, n - 1), d) is None,
        dirs[n - 1] == d,
    ensures
        first_at(dirs, d) == Some(n - 1),
{
    assert(dirs.subrange(0, n).drop_last() =~= dirs.subrange(0, n - 1));
    lemma_first_at_extend(dirs, d, n, n - 1);
}

proof fn lemma_first_at_extend(dirs: Seq<Seq<Seq<char>>>, d: Seq<Seq<char>>, n: int, idx: int)
    requires
        0 <= n <= dirs.len(),
        first_at(dirs.subrange(0, n), d) == Some(idx),
    ensures
        first_at(dirs, d) == Some(idx),
    decreases dirs.len() - n,
{
    if n < dirs.len() {
        assert(dirs.subrange(0, n + 1).drop_last() =~= dirs.subrange(0, n));
        lemma_first_at_extend(dirs, d, n + 1, idx);
    } else {
        assert(dirs.subrange(0, n) =~= dirs);
    }
}

/// A `[tree.<name>]` table as read.
#[derive(Debug, Clone)]
pub struct RawTree {
    pub manifest_path: String,
    pub third_party_dir: String,
    pub python_versions: Vec<PythonVersion>,
}

/// The configuration as read, before its shape is checked.
#[derive(Debug)]
pub struct RawConfig {
    pub manifest_path: Option<String>,
    pub third_party_dir: Option<String>,
    pub python_versions: Option<Vec<PythonVersion>>,
    pub platforms: StrMap<Platform>,
    pub fixups: FixupsConfig,
    pub buck: BuckConfig,
    pub lockfile: LockfileConfig,
    pub tree: StrMap<RawTree>,
}

/// The error, if any, that `Config::from_raw` gives.
pub open spec fn from_raw_error(raw: RawConfig) -> Option<ConfigErrorModel> {
    let has_top = raw.manifest_path is Some || raw.third_party_dir is Some || raw.python_versions is Some;
    let has_trees = raw.tree.pairs().len() > 0;
    if has_top && has_trees {
        Some(ConfigErrorModel::IncompatibleShape)
    } else if !has_trees && raw.manifest_path is None {
        Some(ConfigErrorModel::MissingField("manifest_path"@))
    } else if !has_trees && raw.third_party_dir is None {
        Some(ConfigErrorModel::MissingField("third_party_dir"@))
    } else if !has_trees && raw.python_versions is None {
        Some(ConfigErrorModel::MissingField("python_versions"@))
    } else if raw.platforms.pairs().len() == 0 {
        Some(ConfigErrorModel::MissingField("platforms"@))
    } else {
        None
    }
}

/// `trees` are the trees `raw` describes: one per `[tree.<name>]` in name
/// order, or the single top-level tree named `default`.
pub open spec fn trees_from_raw(raw: RawConfig, trees: Seq<Tree>) -> bool {
    if raw.tree.pairs().len() > 0 {
        &&& trees.len() == raw.tree.pairs().len()
        &&& forall|i: int|
            0 <= i < trees.len() ==> {
                let (n, t) = #[trigger] raw.tree.pairs()[i];
                &&& trees[i].name@ == n@
                &&& trees[i].manifest_path@ == t.manifest_path@
                &&& trees[i].third_party_dir@ == t.third_party_dir@
                &&& trees[i].python_versions@ == t.python_versions@
            }
    } else {
        &&& trees.len() == 1
        &&& trees[0].name@ == "default"@
        &&& trees[0].manifest_path@ == raw.manifest_path->0@
        &&& trees[0].third_party_dir@ == raw.third_party_dir->0@
        &&& trees[0].python_versions@ == raw.python_versions->0@
    }
}

fn missing(field: &str) -> (r: ConfigError)
    ensures
        r@ == ConfigErrorModel::MissingField(field@),
{
    ConfigError::MissingField(owned(field))
}

impl Config {
    /// Builds the configuration from what was read: either top-level
    /// `manifest_path`/`third_party_dir`/`python_versions` (one tree named
    /// `default`) or `[tree.*]` sections, never both; platforms are required.
    pub fn from_raw(raw: RawConfig) -> (r: Result<Config, ConfigError>)
        ensures
            match r {
                Ok(c) => from_raw_error(raw) is None && trees_from_raw(raw, c.trees@)
                    && c.platforms == raw.platforms && c.fixups == raw.fixups && c.buck == raw.buck
                    && c.lockfile == raw.lockfile,
                Err(e) => from_raw_error(raw) == Some(e@),
            },
    {
        proof {
            reveal_strlit("manifest_path");
            reveal_strlit("third_party_dir");
            reveal_strlit("python_versions");
            reveal_strlit("platforms");
            reveal_strlit("default");
        }
        let has_top = raw.manifest_path.is_some() || raw.third_party_dir.is_some()
            || raw.python_versions.is_some();
        let has_trees = raw.tree.len() > 0;
        if has_top && has_trees {
            return Err(ConfigError::IncompatibleShape);
        }
        let ghost raw0 = raw;
        let RawConfig {
            manifest_path,
            third_party_dir,
            python_versions,
            platforms,
            fixups,
            buck,
            lockfile,
            tree,
        } = raw;
        let mut trees: Vec<Tree> = Vec::new();
        if has_trees {
            let entries = tree.entries();
            let mut i: usize = 0;
            while i < entries.len()
                invariant
                    i <= entries@.len(),
                    entries@ == raw0.tree.pairs(),
                    trees@.len() == i,
                    forall|k: int|
                        0 <= k < i ==> {
                            let (n, t) = #[trigger] entries@[k];
                            &&& trees@[k].name@ == n@
                            &&& trees@[k].manifest_path@ == t.manifest_path@
                            &&& trees@[k].third_party_dir@ == t.third_party_dir@
                            &&& trees@[k].python_versions@ == t.python_versions@
                        },
                decreases entries@.len() - i,
            {
                let (n, t) = &entries[i];
                let versions = copy_versions(&t.python_versions);
                trees.push(Tree {
                    name: n.clone(),
                    manifest_path: t.manifest_path.clone(),
                    third_party_dir: t.third_party_dir.clone(),
                    python_versions: versions,
                });
                i += 1;
            }
        } else {
            let mp = match manifest_path {
                Some(m) => m,
                None => return Err(missing("manifest_path")),
            };
            let tpd = match third_party_dir {
                Some(d) => d,
                None => return Err(missing("third_party_dir")),
            };
            let pv = match python_versions {
                Some(v) => v,
                None => return Err(missing("python_versions")),
            };
            trees.push(Tree { name: owned("default"), manifest_path: mp, third_party_dir: tpd, python_versions: pv });
        }
        if platforms.len() == 0 {
            return Err(missing("platforms"));
        }
        Ok(Config { trees, platforms, fixups, buck, lockfile })
    }
}

fn copy_versions(v: &Vec<PythonVersion>) -> (r: Vec<PythonVersion>)
    ensures
        r@ == v@,
{
    let mut out: Vec<PythonVersion> = Vec::new();
    let mut i: usize = 0;
    while i < v.len()
        invariant
            i <= v@.len(),
            out@ == v@.subrange(0, i as int),
        decreases v@.len() - i,
    {
        out.push(v[i]);
        i += 1;
        assert(out@ =~= v@.subrange(0, i as int));
    }
    assert(v@.subrange(0, i as int) =~= v@);
    out
}

} // verus!
