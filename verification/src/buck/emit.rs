//! Types of the BUCK emitter, and the composition of its input.

use vstd::prelude::*;

use crate::config::{Config, Platform, PythonVersion, Tree};
use crate::error::{lockfile_error_message, LockfileError};
use crate::config::python_version_spec;
use crate::fixup::layer::{extend_map, map_get, opt_strs, ResolvedFixup};
use crate::fixup::schema::EntryPoints;
use crate::fixup::validate::{is_valid_buck_target, valid_buck_target};
use crate::lock::resolved::{cell_keys, product_keys, project, projection, row_keys, ResolvedConfig, ResolvedView};
use crate::lock::graph::{build, first_party_nodes, lock_nodes, GraphNode};
use crate::wheel::compat::{build_compatible_tags, compatible_order};
use crate::lock::graph::{build_error, is_dup_name, lemma_graph_is_lockfile, lock_cycles, names_of, unresolved_at};
use crate::lock::cycles::{nested, strs_le};
use crate::lock::types::Lockfile;
use crate::lock::resolved::{ResolvedPackage, ResolvedPackageModel};
use crate::lock::types::{Package, Wheel, WheelModel};
use crate::sdist::manifest::{Manifest, ManifestClassification, ManifestEntry};
use crate::wheel::compat::CompatibleTags;
use crate::wheel::select::{is_pick, lemma_pick_index, pick_index, pick_wheel, ranked, PickResult};
use crate::wheel::tag::TagModel;
use crate::wheel::select::wheels_model;
use crate::paths::{join_with, push_joined};
use crate::strmap::{lookup, sorted_keys, StrMap};
use crate::text::{
    chars_of, find_char, first_index, has_prefix, lemma_seq_lt_asymmetric, lemma_seq_lt_irreflexive, lemma_seq_lt_total,
    lemma_seq_lt_transitive, push_all, push_char, push_str, seq_lt, slice_chars, starts_with, str_eq,
    string_lt, string_of, strings_view, decimal, push_decimal,
};

verus! {

/// The emitter's input for one tree.
#[derive(Debug)]
pub struct EmitInput {
    pub tree: String,
    pub third_party_dir: String,
    pub configs: Vec<ConfigName>,
    pub packages: Vec<EmitPackage>,
}

/// The dependencies of one package.
#[derive(Debug)]
pub enum EmitDeps {
    /// Every cell has the same dep list.
    Uniform(Vec<String>),
    /// Cells differ: one list per cell, keyed by the cell's config name.
    PerCell(StrMap<Vec<String>>),
}

/// One package as the emitter renders it.
#[derive(Debug)]
pub struct EmitPackage {
    pub name: String,
    pub version: String,
    pub deps: EmitDeps,
    /// The wheel for each cell, keyed by the cell's config name.
    pub wheels: StrMap<EmitWheel>,
    /// Overlay file list; `None` when there is no overlay.
    pub overlay: Option<EmitOverlay>,
    /// Entry-point names to emit binaries for.
    pub entry_points: Vec<String>,
    /// Top-level alias visibility; `None` means public.
    pub visibility: Option<Vec<String>>,
    pub labels: Vec<String>,
    /// Environment for the emitted binaries.
    pub runtime_env: StrMap<String>,
}

/// Overlay files: each entry is `(path_in_wheel, src_path_rel_to_tpd)`.
#[derive(Debug)]
pub struct EmitOverlay {
    pub files: Vec<(String, String)>,
}

/// Where a cell's wheel comes from, and its hash.
#[derive(Debug, Clone)]
pub struct EmitWheel {
    pub url: String,
    pub hash: String,
}

pub struct EmitWheelModel {
    pub url: Seq<char>,
    pub hash: Seq<char>,
}

impl View for EmitWheel {
    type V = EmitWheelModel;

    open spec fn view(&self) -> EmitWheelModel {
        EmitWheelModel { url: self.url@, hash: self.hash@ }
    }
}

/// The name of one (python, platform) cell, such as `py312-linux-x86_64-gnu`.
#[derive(Debug, Clone, PartialEq, Eq, PartialOrd, Ord, Hash)]
pub struct ConfigName(String);

/// The ASCII digits of `s`, in order.
pub open spec fn ascii_digits(s: Seq<char>) -> Seq<char>
    decreases s.len(),
{
    if s.len() == 0 {
        Seq::empty()
    } else if crate::text::is_digit(s.last()) {
        ascii_digits(s.drop_last()).push(s.last())
    } else {
        ascii_digits(s.drop_last())
    }
}

/// `py`, the digits of the python version, `-`, the platform key.
pub open spec fn config_name_spec(py: Seq<char>, platform: Seq<char>) -> Seq<char> {
    seq!['p', 'y'] + ascii_digits(py) + seq!['-'] + platform
}

impl View for ConfigName {
    type V = Seq<char>;

    closed spec fn view(&self) -> Seq<char> {
        self.0@
    }
}

impl ConfigName {
    /// The config name of a python version (such as `3.12`) and a platform
    /// key (such as `linux-x86_64-gnu`): `py312-linux-x86_64-gnu`.
    pub fn new(py_version: &str, platform_name: &str) -> (r: Self)
        ensures
            r@ == config_name_spec(py_version@, platform_name@),
    {
        let mut s = String::new();
        push_char(&mut s, 'p');
        push_char(&mut s, 'y');
        let cs = chars_of(py_version);
        let mut i: usize = 0;
        while i < cs.len()
            invariant
                i <= cs@.len(),
                cs@ == py_version@,
                s@ == seq!['p', 'y'] + ascii_digits(cs@.subrange(0, i as int)),
            decreases cs@.len() - i,
        {
            let c = cs[i];
            let ghost t = cs@.subrange(0, i + 1);
            assert(t.drop_last() =~= cs@.subrange(0, i as int));
            assert(t.last() == c);
            if '0' <= c && c <= '9' {
                push_char(&mut s, c);
            }
            i += 1;
        }
        assert(cs@.subrange(0, i as int) =~= cs@);
        push_char(&mut s, '-');
        push_str(&mut s, platform_name);
        assert(s@ =~= config_name_spec(py_version@, platform_name@));
        ConfigName(s)
    }

    /// The name as text.
    pub fn as_str(&self) -> (r: &str)
        ensures
            r@ == self@,
    {
        self.0.as_str()
    }

    /// A copy of this name.
    pub fn copy(&self) -> (r: Self)
        ensures
            r@ == self@,
    {
        ConfigName(self.0.clone())
    }
}

/// The four rendered files of one tree.
#[derive(Debug)]
pub struct EmitOutput {
    pub buck: String,
    pub muntjac_bzl: String,
    pub config_buck: String,
    pub package_file: String,
}

/// A BUCK emitter: renders an [`EmitInput`] deterministically.
pub trait BuckEmitter {
    fn emit(&self, input: &EmitInput) -> EmitOutput;
}

/// The marker put before a dep that is already a full Buck target.
pub open spec fn target_marker() -> Seq<char> {
    seq!['_', '_', 'B', 'U', 'C', 'K', '_', 'T', 'A', 'R', 'G', 'E', 'T', '_', '_']
}

fn target_marker_chars() -> (r: Vec<char>)
    ensures
        r@ == target_marker(),
{
    let r = chars_of("__BUCK_TARGET__");
    proof {
        reveal_strlit("__BUCK_TARGET__");
    }
    assert(r@ =~= target_marker());
    r
}

/// The package name of a raw dep `name@version`: the text before the first `@`.
pub open spec fn dep_name(d: Seq<char>) -> Seq<char> {
    match first_index(d, '@') {
        Some(i) => d.subrange(0, i),
        None => d,
    }
}

/// A raw dep after `replace_deps`: a marked Buck target when its name is replaced.
pub open spec fn replaced_dep(d: Seq<char>, replace: StrMap<String>) -> Seq<char> {
    match map_get(replace, dep_name(d)) {
        Some(t) => target_marker() + t,
        None => d,
    }
}

/// A dep survives `omit_deps` when it is a marked target or its name is not omitted.
pub open spec fn dep_kept(d: Seq<char>, omit: Seq<Seq<char>>) -> bool {
    starts_with(d, target_marker()) || !omit.contains(dep_name(d))
}

/// The deps of `s` that survive `omit_deps`, in order.
pub open spec fn kept_deps(s: Seq<Seq<char>>, omit: Seq<Seq<char>>) -> Seq<Seq<char>>
    decreases s.len(),
{
    if s.len() == 0 {
        Seq::empty()
    } else if dep_kept(s.last(), omit) {
        kept_deps(s.drop_last(), omit).push(s.last())
    } else {
        kept_deps(s.drop_last(), omit)
    }
}

/// The marked Buck targets of `extra_deps`.
pub open spec fn marked_targets(extra: Seq<Seq<char>>) -> Seq<Seq<char>> {
    extra.map_values(|e: Seq<char>| target_marker() + e)
}

/// A package's raw deps after a fixup's dep-side ops: `replace_deps`
/// rewrites, then `omit_deps` drops, then `extra_deps` are appended.
pub open spec fn dep_ops_spec(deps: Seq<Seq<char>>, f: ResolvedFixup) -> Seq<Seq<char>> {
    kept_deps(deps.map_values(|d: Seq<char>| replaced_dep(d, f.replace_deps)), strings_view(f.omit_deps@))
        + marked_targets(strings_view(f.extra_deps@))
}

/// The name part of a raw dep.
fn dep_name_of(d: &str) -> (r: String)
    ensures
        r@ == dep_name(d@),
{
    let cs = chars_of(d);
    match find_char(cs.as_slice(), '@') {
        Some(i) => string_of(slice_chars(cs.as_slice(), 0, i).as_slice()),
        None => string_of(cs.as_slice()),
    }
}

/// `v` holds `s`.
fn contains_str(v: &Vec<String>, s: &str) -> (r: bool)
    ensures
        r == strings_view(v@).contains(s@),
{
    let mut i: usize = 0;
    while i < v.len()
        invariant
            i <= v@.len(),
            forall|k: int| 0 <= k < i ==> v@[k]@ != s@,
        decreases v@.len() - i,
    {
        if str_eq(v[i].as_str(), s) {
            assert(strings_view(v@)[i as int] == s@);
            return true;
        }
        i += 1;
    }
    proof {
        if strings_view(v@).contains(s@) {
            let k = choose|k: int| 0 <= k < strings_view(v@).len() && strings_view(v@)[k] == s@;
            assert(v@[k]@ == s@);
        }
    }
    false
}

/// `target_marker()` followed by `t`.
fn marked(t: &str) -> (r: String)
    ensures
        r@ == target_marker() + t@,
{
    let m = target_marker_chars();
    let mut out = String::new();
    push_all(&mut out, m.as_slice());
    push_str(&mut out, t);
    assert(out@ =~= target_marker() + t@);
    out
}

/// Applies a fixup's dep-side ops to a package's raw deps (`name@version`):
/// `replace_deps` turns a dep into a marked Buck target, `omit_deps` drops
/// the deps it names (marked targets stay), `extra_deps` are appended as
/// marked targets.
pub fn apply_dep_ops(deps: &mut Vec<String>, fixup: &ResolvedFixup)
    requires
        fixup.wf(),
    ensures
        strings_view(final(deps)@) == dep_ops_spec(strings_view(old(deps)@), *fixup),
{
    let ghost d0 = strings_view(deps@);
    let ghost rep = d0.map_values(|d: Seq<char>| replaced_dep(d, fixup.replace_deps));
    let ghost omit = strings_view(fixup.omit_deps@);
    let m = target_marker_chars();
    let mut out: Vec<String> = Vec::new();
    let mut i: usize = 0;
    while i < deps.len()
        invariant
            i <= deps@.len(),
            d0 == strings_view(deps@),
            rep == d0.map_values(|d: Seq<char>| replaced_dep(d, fixup.replace_deps)),
            omit == strings_view(fixup.omit_deps@),
            m@ == target_marker(),
            fixup.wf(),
            strings_view(out@) == kept_deps(rep.subrange(0, i as int), omit),
        decreases deps@.len() - i,
    {
        let name = dep_name_of(deps[i].as_str());
        let d: String = match fixup.replace_deps.get(name.as_str()) {
            Some(t) => marked(t.as_str()),
            None => deps[i].clone(),
        };
        assert(d@ == rep[i as int]);
        let dc = chars_of(d.as_str());
        let keep = if has_prefix(dc.as_slice(), m.as_slice()) {
            true
        } else {
            let dn = dep_name_of(d.as_str());
            !contains_str(&fixup.omit_deps, dn.as_str())
        };
        let ghost pre = out@;
        proof {
            let t = rep.subrange(0, i + 1);
            assert(t.drop_last() =~= rep.subrange(0, i as int));
            assert(t.last() == d@);
        }
        if keep {
            out.push(d);
            assert(strings_view(out@) =~= strings_view(pre).push(rep[i as int]));
        }
        i += 1;
    }
    assert(rep.subrange(0, i as int) =~= rep);
    let ghost kept = strings_view(out@);
    let mut j: usize = 0;
    while j < fixup.extra_deps.len()
        invariant
            j <= fixup.extra_deps@.len(),
            strings_view(out@) == kept + marked_targets(strings_view(fixup.extra_deps@)).subrange(0, j as int),
        decreases fixup.extra_deps@.len() - j,
    {
        let t = marked(fixup.extra_deps[j].as_str());
        let ghost pre = out@;
        out.push(t);
        assert(strings_view(out@) =~= strings_view(pre).push(t@));
        j += 1;
        assert(strings_view(out@) =~= kept + marked_targets(strings_view(fixup.extra_deps@)).subrange(0, j as int));
    }
    assert(marked_targets(strings_view(fixup.extra_deps@)).subrange(0, j as int) =~= marked_targets(
        strings_view(fixup.extra_deps@),
    ));
    *deps = out;
}

/// How a dep is named in BUCK: a marked target as itself, any other dep as
/// `:` and its package name.
pub open spec fn formatted_dep(d: Seq<char>) -> Seq<char> {
    if starts_with(d, target_marker()) {
        d.subrange(target_marker().len() as int, d.len() as int)
    } else {
        seq![':'] + dep_name(d)
    }
}

/// Each element is smaller than the next (so none repeats).
pub open spec fn strictly_sorted(s: Seq<Seq<char>>) -> bool {
    forall|a: int, b: int| 0 <= a < b < s.len() ==> seq_lt(#[trigger] s[a], #[trigger] s[b])
}

/// `r` is the sorted, repeat-free list of the formatted deps of `raw`.
pub open spec fn formats_deps(raw: Seq<Seq<char>>, r: Seq<Seq<char>>) -> bool {
    &&& strictly_sorted(r)
    &&& forall|x: Seq<char>| r.contains(x) <==> exists|i: int| 0 <= i < raw.len() && #[trigger] formatted_dep(raw[i]) == x
}

fn format_dep(d: &str) -> (r: String)
    ensures
        r@ == formatted_dep(d@),
{
    let m = target_marker_chars();
    let dc = chars_of(d);
    if has_prefix(dc.as_slice(), m.as_slice()) {
        string_of(slice_chars(dc.as_slice(), m.len(), dc.len()).as_slice())
    } else {
        let n = dep_name_of(d);
        let mut out = String::new();
        push_char(&mut out, ':');
        push_str(&mut out, n.as_str());
        assert(out@ =~= seq![':'] + dep_name(d@));
        out
    }
}

/// The BUCK dep list of one cell: each raw dep formatted, sorted, repeats dropped.
pub fn format_cell_deps(raw: &Vec<String>) -> (r: Vec<String>)
    ensures
        formats_deps(strings_view(raw@), strings_view(r@)),
{
    let ghost rv = strings_view(raw@);
    let mut set: StrMap<bool> = StrMap::new();
    let mut i: usize = 0;
    while i < raw.len()
        invariant
            i <= raw@.len(),
            rv == strings_view(raw@),
            set.wf(),
            forall|x: Seq<char>| #[trigger] lookup(set.pairs(), x) is Some <==> exists|k: int| 0 <= k < i && formatted_dep(rv[k]) == x,
        decreases raw@.len() - i,
    {
        let f = format_dep(raw[i].as_str());
        let ghost fv = f@;
        set.insert(f, true);
        proof {
            assert forall|x: Seq<char>| #[trigger] lookup(set.pairs(), x) is Some <==> exists|k: int| 0 <= k < i + 1 && formatted_dep(rv[k]) == x by {
                if x == fv {
                    assert(formatted_dep(rv[i as int]) == x);
                } else {
                    if exists|k: int| 0 <= k < i + 1 && formatted_dep(rv[k]) == x {
                        let k = choose|k: int| 0 <= k < i + 1 && formatted_dep(rv[k]) == x;
                        assert(k < i);
                    }
                }
            }
        }
        i += 1;
    }
    let entries = set.entries();
    let mut out: Vec<String> = Vec::new();
    let mut j: usize = 0;
    proof {
        set.lemma_sorted();
    }
    while j < entries.len()
        invariant
            j <= entries@.len(),
            entries@ == set.pairs(),
            sorted_keys(entries@),
            out@.len() == j,
            forall|a: int| 0 <= a < j ==> out@[a]@ == entries@[a].0@,
        decreases entries@.len() - j,
    {
        out.push(entries[j].0.clone());
        j += 1;
    }
    proof {
        let ov = strings_view(out@);
        assert forall|a: int, b: int| 0 <= a < b < ov.len() implies seq_lt(#[trigger] ov[a], #[trigger] ov[b]) by {
            assert(ov[a] == entries@[a].0@);
            assert(ov[b] == entries@[b].0@);
        }
        assert forall|x: Seq<char>| ov.contains(x) <==> exists|k: int| 0 <= k < rv.len() && #[trigger] formatted_dep(rv[k]) == x by {
            if ov.contains(x) {
                let a = choose|a: int| 0 <= a < ov.len() && ov[a] == x;
                assert(entries@[a].0@ == x);
                assert(lookup(set.pairs(), x) is Some);
            }
            if exists|k: int| 0 <= k < rv.len() && #[trigger] formatted_dep(rv[k]) == x {
                assert(lookup(set.pairs(), x) is Some);
                let a = choose|a: int| 0 <= a < entries@.len() && entries@[a].0@ == x;
                assert(ov[a] == x);
            }
        }
    }
    out
}

/// Why the emitter's input could not be composed.
#[derive(Debug)]
pub enum EmitError {
    /// The lockfile's graph did not build or has a cycle.
    Lockfile(LockfileError),
    PlatformMissing { platform: String },
    /// A cell's python version did not parse; the parser's message.
    BadPythonVersion(String),
    ExcludeWheelsEliminatesAll { package: String, cell: String },
    NotPrebaked { package: String, version: String },
    StalePrebake { package: String, version: String },
    NativeSdist { package: String, version: String, python: String, platform: String },
    PreferWheelNotFound { want: String, package: String, cell: String, available: Vec<String> },
    NoCompatibleWheel { package: String, version: String, python_version: String, platform: String },
    EntryPointsAuto { package: String },
    InvalidExtraDep { package: String, target: String },
    InvalidReplaceDep { package: String, target: String },
    /// The overlay of a package could not be discovered; the message.
    Overlay(String),
}

/// [`EmitError`] with its strings taken as character sequences.
pub enum EmitErrorModel {
    Lockfile(Seq<char>),
    PlatformMissing { platform: Seq<char> },
    BadPythonVersion(Seq<char>),
    ExcludeWheelsEliminatesAll { package: Seq<char>, cell: Seq<char> },
    NotPrebaked { package: Seq<char>, version: Seq<char> },
    StalePrebake { package: Seq<char>, version: Seq<char> },
    NativeSdist { package: Seq<char>, version: Seq<char>, python: Seq<char>, platform: Seq<char> },
    PreferWheelNotFound { want: Seq<char>, package: Seq<char>, cell: Seq<char>, available: Seq<Seq<char>> },
    NoCompatibleWheel { package: Seq<char>, version: Seq<char>, python_version: Seq<char>, platform: Seq<char> },
    EntryPointsAuto { package: Seq<char> },
    InvalidExtraDep { package: Seq<char>, target: Seq<char> },
    InvalidReplaceDep { package: Seq<char>, target: Seq<char> },
    Overlay(Seq<char>),
}

impl View for EmitError {
    type V = EmitErrorModel;

    open spec fn view(&self) -> EmitErrorModel {
        match self {
            EmitError::Lockfile(e) => EmitErrorModel::Lockfile(lockfile_error_message(*e)),
            EmitError::PlatformMissing { platform } => EmitErrorModel::PlatformMissing { platform: platform@ },
            EmitError::BadPythonVersion(m) => EmitErrorModel::BadPythonVersion(m@),
            EmitError::ExcludeWheelsEliminatesAll { package, cell } => EmitErrorModel::ExcludeWheelsEliminatesAll {
                package: package@,
                cell: cell@,
            },
            EmitError::NotPrebaked { package, version } => EmitErrorModel::NotPrebaked {
                package: package@,
                version: version@,
            },
            EmitError::StalePrebake { package, version } => EmitErrorModel::StalePrebake {
                package: package@,
                version: version@,
            },
            EmitError::NativeSdist { package, version, python, platform } => EmitErrorModel::NativeSdist {
                package: package@,
                version: version@,
                python: python@,
                platform: platform@,
            },
            EmitError::PreferWheelNotFound { want, package, cell, available } =>
                EmitErrorModel::PreferWheelNotFound {
                    want: want@,
                    package: package@,
                    cell: cell@,
                    available: strings_view(available@),
                },
            EmitError::NoCompatibleWheel { package, version, python_version, platform } =>
                EmitErrorModel::NoCompatibleWheel {
                    package: package@,
                    version: version@,
                    python_version: python_version@,
                    platform: platform@,
                },
            EmitError::EntryPointsAuto { package } => EmitErrorModel::EntryPointsAuto { package: package@ },
            EmitError::InvalidExtraDep { package, target } => EmitErrorModel::InvalidExtraDep {
                package: package@,
                target: target@,
            },
            EmitError::InvalidReplaceDep { package, target } => EmitErrorModel::InvalidReplaceDep {
                package: package@,
                target: target@,
            },
            EmitError::Overlay(m) => EmitErrorModel::Overlay(m@),
        }
    }
}

/// The message an [`EmitError`] displays.
pub open spec fn emit_error_message(e: EmitErrorModel) -> Seq<char> {
    match e {
        EmitErrorModel::Lockfile(m) => m,
        EmitErrorModel::PlatformMissing { platform } => "platform `"@ + platform + "` missing from config"@,
        EmitErrorModel::BadPythonVersion(m) => m,
        EmitErrorModel::ExcludeWheelsEliminatesAll { package, cell } => "exclude_wheels eliminates every wheel for "@
            + package + " on cell "@ + cell + ".\n  loosen the patterns or remove the fixup"@,
        EmitErrorModel::NotPrebaked { package, version } => "pure-python sdist "@ + package + " "@ + version
            + " not prebaked. Run `muntjac vendor` first."@,
        EmitErrorModel::StalePrebake { package, version } => "prebake of "@ + package + " "@ + version
            + " is stale (sdist sha changed in uv.lock). Run `muntjac vendor`."@,
        EmitErrorModel::NativeSdist { package, version, python, platform } => package + " "@ + version
            + " has no wheel for ("@ + python + ", "@ + platform
            + ") and is a native sdist.\n       add a fixup at third-party/python/fixups/"@ + package
            + "/fixups.toml \u{2014} see\n       `muntjac fixups show "@ + package
            + "` for the current community fixup, or use\n       `replace_deps` to point at a hand-rolled Buck target."@,
        EmitErrorModel::PreferWheelNotFound { want, package, cell, available } => "prefer_wheel sha256:"@ + want
            + " not found for "@ + package + " on cell "@ + cell + ".\n  available wheel shas: "@ + join_with(
            available,
            ", "@,
        ),
        EmitErrorModel::NoCompatibleWheel { package, version, python_version, platform } => "package '"@
            + package + "-"@ + version + "' has no compatible wheel for cell ("@ + python_version + ", "@
            + platform
            + ") \u{2014} no wheels matched the (platform, python) tags. Consider restricting muntjac.toml platforms."@,
        EmitErrorModel::EntryPointsAuto { package } =>
            "entry_points = true is not supported in v1; list the binaries explicitly (e.g. entry_points = [\"ruff\"]).\n  package: "@
            + package,
        EmitErrorModel::InvalidExtraDep { package, target } => "extra_deps target for "@ + package
            + " is not a valid Buck target: `"@ + target + "`\n  expected //path:name or :name form"@,
        EmitErrorModel::InvalidReplaceDep { package, target } => "replace_deps target for "@ + package
            + " is not a valid Buck target: `"@ + target + "`\n  expected //path:name or :name form"@,
        EmitErrorModel::Overlay(m) => m,
    }
}

impl EmitError {
    /// The error's message.
    pub fn to_string(&self) -> (r: String)
        ensures
            r@ == emit_error_message(self@),
    {
        let mut out = String::new();
        match self {
            EmitError::Lockfile(e) => {
                let m = e.to_string();
                push_str(&mut out, m.as_str());
            },
            EmitError::PlatformMissing { platform } => {
                push_str(&mut out, "platform `");
                push_str(&mut out, platform.as_str());
                push_str(&mut out, "` missing from config");
            },
            EmitError::BadPythonVersion(m) => {
                push_str(&mut out, m.as_str());
            },
            EmitError::ExcludeWheelsEliminatesAll { package, cell } => {
                push_str(&mut out, "exclude_wheels eliminates every wheel for ");
                push_str(&mut out, package.as_str());
                push_str(&mut out, " on cell ");
                push_str(&mut out, cell.as_str());
                push_str(&mut out, ".\n  loosen the patterns or remove the fixup");
            },
            EmitError::NotPrebaked { package, version } => {
                push_str(&mut out, "pure-python sdist ");
                push_str(&mut out, package.as_str());
                push_str(&mut out, " ");
                push_str(&mut out, version.as_str());
                push_str(&mut out, " not prebaked. Run `muntjac vendor` first.");
            },
            EmitError::StalePrebake { package, version } => {
                push_str(&mut out, "prebake of ");
                push_str(&mut out, package.as_str());
                push_str(&mut out, " ");
                push_str(&mut out, version.as_str());
                push_str(&mut out, " is stale (sdist sha changed in uv.lock). Run `muntjac vendor`.");
            },
            EmitError::NativeSdist { package, version, python, platform } => {
                push_str(&mut out, package.as_str());
                push_str(&mut out, " ");
                push_str(&mut out, version.as_str());
                push_str(&mut out, " has no wheel for (");
                push_str(&mut out, python.as_str());
                push_str(&mut out, ", ");
                push_str(&mut out, platform.as_str());
                push_str(&mut out, ") and is a native sdist.\n       add a fixup at third-party/python/fixups/");
                push_str(&mut out, package.as_str());
                push_str(&mut out, "/fixups.toml \u{2014} see\n       `muntjac fixups show ");
                push_str(&mut out, package.as_str());
                push_str(
                    &mut out,
                    "` for the current community fixup, or use\n       `replace_deps` to point at a hand-rolled Buck target.",
                );
            },
            EmitError::PreferWheelNotFound { want, package, cell, available } => {
                push_str(&mut out, "prefer_wheel sha256:");
                push_str(&mut out, want.as_str());
                push_str(&mut out, " not found for ");
                push_str(&mut out, package.as_str());
                push_str(&mut out, " on cell ");
                push_str(&mut out, cell.as_str());
                push_str(&mut out, ".\n  available wheel shas: ");
                push_joined(&mut out, available, ", ");
            },
            EmitError::NoCompatibleWheel { package, version, python_version, platform } => {
                push_str(&mut out, "package '");
                push_str(&mut out, package.as_str());
                push_str(&mut out, "-");
                push_str(&mut out, version.as_str());
                push_str(&mut out, "' has no compatible wheel for cell (");
                push_str(&mut out, python_version.as_str());
                push_str(&mut out, ", ");
                push_str(&mut out, platform.as_str());
                push_str(
                    &mut out,
                    ") \u{2014} no wheels matched the (platform, python) tags. Consider restricting muntjac.toml platforms.",
                );
            },
            EmitError::EntryPointsAuto { package } => {
                push_str(
                    &mut out,
                    "entry_points = true is not supported in v1; list the binaries explicitly (e.g. entry_points = [\"ruff\"]).\n  package: ",
                );
                push_str(&mut out, package.as_str());
            },
            EmitError::InvalidExtraDep { package, target } => {
                push_str(&mut out, "extra_deps target for ");
                push_str(&mut out, package.as_str());
                push_str(&mut out, " is not a valid Buck target: `");
                push_str(&mut out, target.as_str());
                push_str(&mut out, "`\n  expected //path:name or :name form");
            },
            EmitError::InvalidReplaceDep { package, target } => {
                push_str(&mut out, "replace_deps target for ");
                push_str(&mut out, package.as_str());
                push_str(&mut out, " is not a valid Buck target: `");
                push_str(&mut out, target.as_str());
                push_str(&mut out, "`\n  expected //path:name or :name form");
            },
            EmitError::Overlay(m) => {
                push_str(&mut out, m.as_str());
            },
        }
        out
    }
}

/// What `glob::Pattern::new(pattern)` and then `Pattern::matches(name)` give:
/// `None` when the pattern does not compile, else whether `name` matches.
pub uninterp spec fn glob_match(pattern: Seq<char>, name: Seq<char>) -> Option<bool>;

/// Compiles `pattern` with `glob::Pattern::new` and tests `name` with
/// `Pattern::matches`; the result is named, not stated.
#[verifier::external_body]
fn glob_matches(pattern: &str, name: &str) -> (r: Option<bool>)
    ensures
        r == glob_match(pattern@, name@),
{
    match glob::Pattern::new(pattern) {
        Ok(p) => Some(p.matches(name)),
        Err(_) => None,
    }
}

/// Some pattern compiles and matches the filename.
pub open spec fn wheel_excluded(patterns: Seq<Seq<char>>, filename: Seq<char>) -> bool {
    exists|k: int| 0 <= k < patterns.len() && glob_match(#[trigger] patterns[k], filename) == Some(true)
}

/// The wheels that no pattern excludes, in order.
pub open spec fn unexcluded(ws: Seq<WheelModel>, patterns: Seq<Seq<char>>) -> Seq<WheelModel>
    decreases ws.len(),
{
    if ws.len() == 0 {
        Seq::empty()
    } else if wheel_excluded(patterns, ws.last().filename) {
        unexcluded(ws.drop_last(), patterns)
    } else {
        unexcluded(ws.drop_last(), patterns).push(ws.last())
    }
}

/// The wheels whose flag (by position) is unset, in order.
pub open spec fn kept_by_flags(ws: Seq<WheelModel>, flags: Seq<bool>) -> Seq<WheelModel>
    decreases ws.len(),
{
    if ws.len() == 0 {
        Seq::empty()
    } else if flags[ws.len() - 1] {
        kept_by_flags(ws.drop_last(), flags)
    } else {
        kept_by_flags(ws.drop_last(), flags).push(ws.last())
    }
}

proof fn lemma_flags_exclude(ws: Seq<WheelModel>, flags: Seq<bool>, patterns: Seq<Seq<char>>)
    requires
        ws.len() <= flags.len(),
        forall|i: int| 0 <= i < ws.len() ==> flags[i] == wheel_excluded(patterns, #[trigger] ws[i].filename),
    ensures
        kept_by_flags(ws, flags) == unexcluded(ws, patterns),
    decreases ws.len(),
{
    if ws.len() > 0 {
        let d = ws.drop_last();
        assert forall|i: int| 0 <= i < d.len() implies flags[i] == wheel_excluded(patterns, #[trigger] d[i].filename) by {
            assert(d[i] == ws[i]);
        }
        lemma_flags_exclude(d, flags, patterns);
        assert(flags[ws.len() - 1] == wheel_excluded(patterns, ws[ws.len() - 1].filename));
    }
}

/// The wheels whose `excluded` flag is unset, in order.
pub fn retain_unexcluded(wheels: &[Wheel], excluded: &[bool]) -> (r: Vec<Wheel>)
    requires
        excluded@.len() == wheels@.len(),
    ensures
        wheels_model(r@) == kept_by_flags(wheels_model(wheels@), excluded@),
{
    let ghost wm = wheels_model(wheels@);
    let mut out: Vec<Wheel> = Vec::new();
    let mut i: usize = 0;
    while i < wheels.len()
        invariant
            i <= wheels@.len(),
            excluded@.len() == wheels@.len(),
            wm == wheels_model(wheels@),
            wheels_model(out@) == kept_by_flags(wm.subrange(0, i as int), excluded@),
        decreases wheels@.len() - i,
    {
        proof {
            let t = wm.subrange(0, i + 1);
            assert(t.drop_last() =~= wm.subrange(0, i as int));
            assert(t.last() == wheels@[i as int]@);
        }
        if !excluded[i] {
            let w = wheels[i].copy();
            let ghost pre = out@;
            out.push(w);
            assert(wheels_model(out@) =~= wheels_model(pre).push(w@));
        }
        i += 1;
    }
    assert(wm.subrange(0, i as int) =~= wm);
    out
}

/// The wheels whose filename no compiling pattern matches (a pattern that
/// does not compile excludes nothing).
pub fn apply_exclude_wheels(wheels: &[Wheel], patterns: &Vec<String>) -> (r: Vec<Wheel>)
    ensures
        wheels_model(r@) == unexcluded(wheels_model(wheels@), strings_view(patterns@)),
{
    let ghost pv = strings_view(patterns@);
    let ghost wm = wheels_model(wheels@);
    let mut flags: Vec<bool> = Vec::new();
    let mut i: usize = 0;
    while i < wheels.len()
        invariant
            i <= wheels@.len(),
            flags@.len() == i,
            pv == strings_view(patterns@),
            wm == wheels_model(wheels@),
            forall|a: int| 0 <= a < i ==> flags@[a] == wheel_excluded(pv, #[trigger] wm[a].filename),
        decreases wheels@.len() - i,
    {
        let mut hit = false;
        let mut j: usize = 0;
        while j < patterns.len()
            invariant
                i < wheels@.len(),
                j <= patterns@.len(),
                pv == strings_view(patterns@),
                wm == wheels_model(wheels@),
                hit == exists|k: int| 0 <= k < j && glob_match(#[trigger] pv[k], wm[i as int].filename) == Some(true),
            decreases patterns@.len() - j,
        {
            let m = glob_matches(patterns[j].as_str(), wheels[i].filename.as_str());
            if m == Some(true) {
                hit = true;
            }
            proof {
                assert(pv[j as int] == patterns@[j as int]@);
                if hit && !(m == Some(true)) {
                    let k = choose|k: int| 0 <= k < j && glob_match(#[trigger] pv[k], wm[i as int].filename) == Some(true);
                    assert(0 <= k < j + 1);
                }
            }
            j += 1;
        }
        flags.push(hit);
        i += 1;
    }
    let r = retain_unexcluded(wheels, flags.as_slice());
    proof {
        lemma_flags_exclude(wm, flags@, pv);
    }
    r
}

/// `s` with every leading repeat of `p` removed (`str::trim_start_matches`).
pub open spec fn trim_all(s: Seq<char>, p: Seq<char>) -> Seq<char>
    decreases s.len(),
{
    if p.len() > 0 && starts_with(s, p) {
        trim_all(s.subrange(p.len() as int, s.len() as int), p)
    } else {
        s
    }
}

/// The hash prefix that hashes carry.
pub open spec fn sha_prefix() -> Seq<char> {
    seq!['s', 'h', 'a', '2', '5', '6', ':']
}

fn sha_prefix_chars() -> (r: Vec<char>)
    ensures
        r@ == sha_prefix(),
{
    let r = chars_of("sha256:");
    proof {
        reveal_strlit("sha256:");
    }
    assert(r@ =~= sha_prefix());
    r
}

/// `s` without its leading `sha256:` prefixes.
pub fn trim_sha_text(s: &str) -> (r: String)
    ensures
        r@ == trim_all(s@, sha_prefix()),
{
    trim_sha(s)
}

/// `s` without its leading `sha256:` prefixes.
fn trim_sha(s: &str) -> (r: String)
    ensures
        r@ == trim_all(s@, sha_prefix()),
{
    let p = sha_prefix_chars();
    let cs = chars_of(s);
    let mut start: usize = 0;
    assert(cs@.subrange(0, cs@.len() as int) =~= s@);
    while p.len() <= cs.len() - start && has_prefix(slice_chars(cs.as_slice(), start, cs.len()).as_slice(), p.as_slice())
        invariant
            start <= cs@.len(),
            p@ == sha_prefix(),
            cs@ == s@,
            trim_all(cs@.subrange(start as int, cs@.len() as int), p@) == trim_all(s@, p@),
        decreases cs@.len() - start,
    {
        let ghost t = cs@.subrange(start as int, cs@.len() as int);
        assert(t.subrange(p@.len() as int, t.len() as int) =~= cs@.subrange(start + p@.len(), cs@.len() as int));
        start = start + p.len();
    }
    let ghost t = cs@.subrange(start as int, cs@.len() as int);
    proof {
        if p@.len() > cs@.len() - start {
            assert(!starts_with(t, p@));
        }
    }
    string_of(slice_chars(cs.as_slice(), start, cs.len()).as_slice())
}

/// The value behind an optional reference.
pub open spec fn deref_opt<T>(o: Option<&T>) -> Option<T> {
    match o {
        Some(x) => Some(*x),
        None => None,
    }
}

/// The wheels a lockfile package lists (none without a package).
pub open spec fn lock_wheels(lp: Option<Package>) -> Seq<WheelModel> {
    match lp {
        Some(p) => wheels_model(p.wheels@),
        None => Seq::empty(),
    }
}

/// The wheels left after the fixup's `exclude_wheels`.
pub open spec fn fixup_wheels(lp: Option<Package>, rf: Option<ResolvedFixup>) -> Seq<WheelModel> {
    match rf {
        Some(f) => unexcluded(lock_wheels(lp), strings_view(f.exclude_wheels@)),
        None => lock_wheels(lp),
    }
}

/// A cell's raw deps after the fixup's dep-side ops.
pub open spec fn fixup_deps(deps: Seq<Seq<char>>, rf: Option<ResolvedFixup>) -> Seq<Seq<char>> {
    match rf {
        Some(f) => dep_ops_spec(deps, f),
        None => deps,
    }
}

/// Index of the first manifest entry for `name` at `version`.
pub open spec fn entry_index(es: Seq<ManifestEntry>, name: Seq<char>, version: Seq<char>) -> Option<int>
    decreases es.len(),
{
    if es.len() == 0 {
        None
    } else {
        match entry_index(es.drop_last(), name, version) {
            Some(i) => Some(i),
            None => if es.last().package@ == name && es.last().version@ == version {
                Some(es.len() - 1)
            } else {
                None
            },
        }
    }
}

/// The manifest's entry for `name` at `version`.
pub open spec fn manifest_entry(m: Option<Manifest>, name: Seq<char>, version: Seq<char>) -> Option<ManifestEntry> {
    match m {
        Some(m) => match entry_index(m.entries@, name, version) {
            Some(i) => Some(m.entries@[i]),
            None => None,
        },
        None => None,
    }
}

/// Index of the first wheel whose hash, without `sha256:` prefixes, is `want`.
pub open spec fn hash_index(ws: Seq<WheelModel>, want: Seq<char>) -> Option<int>
    decreases ws.len(),
{
    if ws.len() == 0 {
        None
    } else {
        match hash_index(ws.drop_last(), want) {
            Some(i) => Some(i),
            None => if trim_all(ws.last().hash, sha_prefix()) == want {
                Some(ws.len() - 1)
            } else {
                None
            },
        }
    }
}

/// Each wheel's hash without its `sha256:` prefixes.
pub open spec fn wheel_shas(ws: Seq<WheelModel>) -> Seq<Seq<char>> {
    ws.map_values(|w: WheelModel| trim_all(w.hash, sha_prefix()))
}

/// The text before the first `-` (all of it when there is none).
pub open spec fn before_dash(c: Seq<char>) -> Seq<char> {
    match first_index(c, '-') {
        Some(i) => c.subrange(0, i),
        None => c,
    }
}

/// The text after the first `-` (empty when there is none).
pub open spec fn after_dash(c: Seq<char>) -> Seq<char> {
    match first_index(c, '-') {
        Some(i) => c.subrange(i + 1, c.len() as int),
        None => Seq::empty(),
    }
}

/// The wheel and raw deps one package gets in one cell.
pub struct CellChoice {
    pub wheel: EmitWheelModel,
    pub deps: Seq<Seq<char>>,
}

/// What one package becomes in one cell: skipped (`Ok(None)`: no wheel and
/// no sdist, as for first-party packages), a wheel with its deps, or an error.
///
/// The fixup's `exclude_wheels` filters the lockfile's wheels first (an error
/// when that leaves none of several). Without wheels, the sdist must be
/// prebaked, up to date and pure-python, and its prebaked wheel is used.
/// With wheels, `prefer_wheel` names one by hash; else the picker chooses.
pub open spec fn decide_spec(
    pkg: ResolvedPackageModel,
    lp: Option<Package>,
    rf: Option<ResolvedFixup>,
    manifest: Option<Manifest>,
    compat: Seq<TagModel>,
    cell: Seq<char>,
    python_version: Seq<char>,
    platform: Seq<char>,
) -> Result<Option<CellChoice>, EmitErrorModel> {
    let ws = fixup_wheels(lp, rf);
    let deps = fixup_deps(pkg.deps, rf);
    if rf is Some && lock_wheels(lp).len() > 0 && ws.len() == 0 {
        Err(EmitErrorModel::ExcludeWheelsEliminatesAll { package: pkg.name, cell })
    } else if ws.len() == 0 {
        match lp {
            Some(p) => match p.sdist {
                Some(sd) => match manifest_entry(manifest, pkg.name, pkg.version) {
                    None => Err(EmitErrorModel::NotPrebaked { package: pkg.name, version: pkg.version }),
                    Some(e) => if e.sdist_sha256@ != trim_all(sd.hash@, sha_prefix()) {
                        Err(EmitErrorModel::StalePrebake { package: pkg.name, version: pkg.version })
                    } else {
                        match e.classification {
                            ManifestClassification::PurePython { wheel_filename, wheel_sha256, .. } => Ok(
                                Some(
                                    CellChoice {
                                        wheel: EmitWheelModel {
                                            url: "prebake:"@ + wheel_filename@,
                                            hash: sha_prefix() + wheel_sha256@,
                                        },
                                        deps,
                                    },
                                ),
                            ),
                            ManifestClassification::Native { .. } => Err(
                                EmitErrorModel::NativeSdist {
                                    package: pkg.name,
                                    version: pkg.version,
                                    python: before_dash(cell),
                                    platform: after_dash(cell),
                                },
                            ),
                        }
                    },
                },
                None => Ok(None),
            },
            None => Ok(None),
        }
    } else {
        match rf {
            Some(f) if f.prefer_wheel is Some => {
                let want = trim_all(f.prefer_wheel->0@, sha_prefix());
                match hash_index(ws, want) {
                    Some(i) => Ok(Some(CellChoice { wheel: EmitWheelModel { url: ws[i].url, hash: ws[i].hash }, deps })),
                    None => Err(
                        EmitErrorModel::PreferWheelNotFound {
                            want,
                            package: pkg.name,
                            cell,
                            available: wheel_shas(ws),
                        },
                    ),
                }
            },
            _ => match pick_index(compat, ws) {
                Some(i) => Ok(Some(CellChoice { wheel: EmitWheelModel { url: ws[i].url, hash: ws[i].hash }, deps })),
                None => Err(
                    EmitErrorModel::NoCompatibleWheel {
                        package: pkg.name,
                        version: pkg.version,
                        python_version,
                        platform,
                    },
                ),
            },
        }
    }
}

/// The decision `r` is the one `s` describes.
pub open spec fn decision_matches(
    r: Result<Option<(EmitWheel, Vec<String>)>, EmitError>,
    s: Result<Option<CellChoice>, EmitErrorModel>,
) -> bool {
    match (r, s) {
        (Ok(Some((w, d))), Ok(Some(c))) => w@ == c.wheel && strings_view(d@) == c.deps,
        (Ok(None), Ok(None)) => true,
        (Err(e), Err(m)) => e@ == m,
        _ => false,
    }
}

/// The first manifest entry for `name` at `version`.
fn find_entry<'a>(m: &'a Manifest, name: &str, version: &str) -> (r: Option<&'a ManifestEntry>)
    ensures
        match r {
            Some(e) => entry_index(m.entries@, name@, version@) matches Some(i) && *e == m.entries@[i],
            None => entry_index(m.entries@, name@, version@) is None,
        },
{
    let mut i: usize = 0;
    while i < m.entries.len()
        invariant
            i <= m.entries@.len(),
            entry_index(m.entries@.subrange(0, i as int), name@, version@) is None,
        decreases m.entries@.len() - i,
    {
        let e = &m.entries[i];
        proof {
            let t = m.entries@.subrange(0, i + 1);
            assert(t.drop_last() =~= m.entries@.subrange(0, i as int));
        }
        if str_eq(e.package.as_str(), name) && str_eq(e.version.as_str(), version) {
            proof {
                lemma_entry_index_prefix(m.entries@, i + 1, name@, version@);
            }
            return Some(e);
        }
        i += 1;
    }
    assert(m.entries@.subrange(0, i as int) =~= m.entries@);
    None
}

proof fn lemma_entry_index_prefix(es: Seq<ManifestEntry>, n: int, name: Seq<char>, version: Seq<char>)
    requires
        0 <= n <= es.len(),
        entry_index(es.subrange(0, n), name, version) is Some,
    ensures
        entry_index(es, name, version) == entry_index(es.subrange(0, n), name, version),
    decreases es.len() - n,
{
    if n < es.len() {
        let t = es.subrange(0, n + 1);
        assert(t.drop_last() =~= es.subrange(0, n));
        lemma_entry_index_prefix(es, n + 1, name, version);
    } else {
        assert(es.subrange(0, n) =~= es);
    }
}

proof fn lemma_hash_index_prefix(ws: Seq<WheelModel>, n: int, want: Seq<char>)
    requires
        0 <= n <= ws.len(),
        hash_index(ws.subrange(0, n), want) is Some,
    ensures
        hash_index(ws, want) == hash_index(ws.subrange(0, n), want),
    decreases ws.len() - n,
{
    if n < ws.len() {
        let t = ws.subrange(0, n + 1);
        assert(t.drop_last() =~= ws.subrange(0, n));
        lemma_hash_index_prefix(ws, n + 1, want);
    } else {
        assert(ws.subrange(0, n) =~= ws);
    }
}

/// The text before the first `-`, and after it.
fn split_dash(c: &str) -> (r: (String, String))
    ensures
        r.0@ == before_dash(c@),
        r.1@ == after_dash(c@),
{
    let cs = chars_of(c);
    match find_char(cs.as_slice(), '-') {
        Some(i) => {
            assert(i < cs@.len());
            let before = string_of(slice_chars(cs.as_slice(), 0, i).as_slice());
            let after = if i < cs.len() {
                string_of(slice_chars(cs.as_slice(), i + 1, cs.len()).as_slice())
            } else {
                String::new()
            };
            (before, after)
        },
        None => (string_of(cs.as_slice()), String::new()),
    }
}

/// Decides what one package becomes in one cell (see [`decide_spec`]).
pub fn decide_cell(
    pkg: &ResolvedPackage,
    lock_pkg: Option<&Package>,
    fixup: Option<&ResolvedFixup>,
    manifest: Option<&Manifest>,
    compat: &CompatibleTags,
    cell: &ConfigName,
    python_version: &str,
    platform: &str,
) -> (r: Result<Option<(EmitWheel, Vec<String>)>, EmitError>)
    requires
        fixup matches Some(f) ==> f.wf(),
    ensures
        decision_matches(
            r,
            decide_spec(
                pkg@,
                deref_opt(lock_pkg),
                deref_opt(fixup),
                deref_opt(manifest),
                compat@,
                cell@,
                python_version@,
                platform@,
            ),
        ),
{
    let empty: Vec<Wheel> = Vec::new();
    let wheels0: &[Wheel] = match lock_pkg {
        Some(p) => p.wheels.as_slice(),
        None => empty.as_slice(),
    };
    assert(wheels_model(wheels0@) == lock_wheels(deref_opt(lock_pkg)));
    let ws: Vec<Wheel> = match fixup {
        Some(f) => {
            let filtered = apply_exclude_wheels(wheels0, &f.exclude_wheels);
            if wheels0.len() > 0 && filtered.len() == 0 {
                return Err(
                    EmitError::ExcludeWheelsEliminatesAll {
                        package: pkg.name.clone(),
                        cell: cell.as_str().to_owned(),
                    },
                );
            }
            filtered
        },
        None => copy_wheels(wheels0),
    };
    let ghost wsm = fixup_wheels(deref_opt(lock_pkg), deref_opt(fixup));
    assert(wheels_model(ws@) == wsm);
    let mut deps = crate::text::copy_strings(&pkg.deps);
    if let Some(f) = fixup {
        apply_dep_ops(&mut deps, f);
    }
    assert(strings_view(deps@) == fixup_deps(pkg@.deps, deref_opt(fixup)));
    if ws.len() == 0 {
        let p = match lock_pkg {
            Some(p) => p,
            None => return Ok(None),
        };
        let sd = match &p.sdist {
            Some(sd) => sd,
            None => return Ok(None),
        };
        let sha = trim_sha(sd.hash.as_str());
        let entry = match manifest {
            Some(m) => find_entry(m, pkg.name.as_str(), pkg.version.as_str()),
            None => None,
        };
        let e = match entry {
            Some(e) => e,
            None => {
                return Err(EmitError::NotPrebaked { package: pkg.name.clone(), version: pkg.version.clone() });
            },
        };
        if !str_eq(e.sdist_sha256.as_str(), sha.as_str()) {
            return Err(EmitError::StalePrebake { package: pkg.name.clone(), version: pkg.version.clone() });
        }
        match &e.classification {
            ManifestClassification::PurePython { wheel_filename, wheel_sha256, .. } => {
                let mut url = String::new();
                push_str(&mut url, "prebake:");
                push_str(&mut url, wheel_filename.as_str());
                let mut hash = String::new();
                push_all(&mut hash, sha_prefix_chars().as_slice());
                push_str(&mut hash, wheel_sha256.as_str());
                Ok(Some((EmitWheel { url, hash }, deps)))
            },
            ManifestClassification::Native { .. } => {
                let (python, plat) = split_dash(cell.as_str());
                Err(
                    EmitError::NativeSdist {
                        package: pkg.name.clone(),
                        version: pkg.version.clone(),
                        python,
                        platform: plat,
                    },
                )
            },
        }
    } else {
        let prefer: Option<&String> = match fixup {
            Some(f) => match &f.prefer_wheel {
                Some(pw) => Some(pw),
                None => None,
            },
            None => None,
        };
        match prefer {
            Some(pw) => {
                let want = trim_sha(pw.as_str());
                let mut i: usize = 0;
                while i < ws.len()
                    invariant
                        i <= ws@.len(),
                        ws@.len() > 0,
                        wheels_model(ws@) == wsm,
                        wsm == fixup_wheels(deref_opt(lock_pkg), deref_opt(fixup)),
                        strings_view(deps@) == fixup_deps(pkg@.deps, deref_opt(fixup)),
                        fixup is Some && fixup->0.prefer_wheel == Some(*pw),
                        want@ == trim_all(pw@, sha_prefix()),
                        hash_index(wsm.subrange(0, i as int), want@) is None,
                    decreases ws@.len() - i,
                {
                    let h = trim_sha(ws[i].hash.as_str());
                    proof {
                        let t = wsm.subrange(0, i + 1);
                        assert(t.drop_last() =~= wsm.subrange(0, i as int));
                        assert(t.last() == ws@[i as int]@);
                    }
                    if str_eq(h.as_str(), want.as_str()) {
                        proof {
                            lemma_hash_index_prefix(wsm, i + 1, want@);
                            assert(hash_index(wsm, want@) == Some(i as int));
                            assert(wsm[i as int] == ws@[i as int]@);
                        }
                        return Ok(Some((EmitWheel { url: ws[i].url.clone(), hash: ws[i].hash.clone() }, deps)));
                    }
                    i += 1;
                }
                assert(wsm.subrange(0, i as int) =~= wsm);
                let mut available: Vec<String> = Vec::new();
                let mut j: usize = 0;
                while j < ws.len()
                    invariant
                        j <= ws@.len(),
                        wheels_model(ws@) == wsm,
                        strings_view(available@) == wheel_shas(wsm).subrange(0, j as int),
                    decreases ws@.len() - j,
                {
                    let h = trim_sha(ws[j].hash.as_str());
                    let ghost pre = available@;
                    available.push(h);
                    assert(strings_view(available@) =~= strings_view(pre).push(h@));
                    assert(wsm[j as int] == ws@[j as int]@);
                    j += 1;
                    assert(strings_view(available@) =~= wheel_shas(wsm).subrange(0, j as int));
                }
                assert(wheel_shas(wsm).subrange(0, j as int) =~= wheel_shas(wsm));
                Err(
                    EmitError::PreferWheelNotFound {
                        want,
                        package: pkg.name.clone(),
                        cell: cell.as_str().to_owned(),
                        available,
                    },
                )
            },
            None => {
                let pr = pick_wheel(ws.as_slice(), compat);
                match pr {
                    PickResult::Picked { wheel, rank, .. } => {
                        proof {
                            let (p, k) = choose|p: int, k: int|
                                #![trigger is_pick(compat@, wsm, p, k, rank as int)]
                                is_pick(compat@, wsm, p, k, rank as int) && *wheel == ws@[p];
                            assert(ranked(compat@, wsm, p, k, rank as int));
                            reveal(ranked);
                            assert(wsm[p] == ws@[p]@);
                            lemma_pick_index(compat@, wsm, p, k, rank as int);
                        }
                        Ok(Some((EmitWheel { url: wheel.url.clone(), hash: wheel.hash.clone() }, deps)))
                    },
                    PickResult::NoWheel => {
                        proof {
                            if exists|p: int, k: int, r: int| #[trigger] is_pick(compat@, wsm, p, k, r) {
                                let (p, k, r) = choose|p: int, k: int, r: int| #[trigger] is_pick(compat@, wsm, p, k, r);
                                assert(ranked(compat@, wsm, p, k, r));
                            }
                        }
                        Err(
                            EmitError::NoCompatibleWheel {
                                package: pkg.name.clone(),
                                version: pkg.version.clone(),
                                python_version: python_version.to_owned(),
                                platform: platform.to_owned(),
                            },
                        )
                    },
                }
            },
        }
    }
}

/// Copies a list of wheels.
fn copy_wheels(ws: &[Wheel]) -> (r: Vec<Wheel>)
    ensures
        wheels_model(r@) == wheels_model(ws@),
{
    let mut out: Vec<Wheel> = Vec::new();
    let mut i: usize = 0;
    while i < ws.len()
        invariant
            i <= ws@.len(),
            wheels_model(out@) == wheels_model(ws@).subrange(0, i as int),
        decreases ws@.len() - i,
    {
        let w = ws[i].copy();
        let ghost pre = out@;
        out.push(w);
        assert(wheels_model(out@) =~= wheels_model(pre).push(w@));
        i += 1;
        assert(wheels_model(out@) =~= wheels_model(ws@).subrange(0, i as int));
    }
    assert(wheels_model(ws@).subrange(0, i as int) =~= wheels_model(ws@));
    out
}

/// Every list equals the first.
pub open spec fn all_agree(e: Seq<(String, Vec<String>)>) -> bool {
    forall|i: int| 0 <= i < e.len() ==> strings_view(#[trigger] e[i].1@) == strings_view(e[0].1@)
}

/// Equality of two string lists by content.
fn strings_equal(a: &Vec<String>, b: &Vec<String>) -> (r: bool)
    ensures
        r == (strings_view(a@) == strings_view(b@)),
{
    if a.len() != b.len() {
        assert(strings_view(a@).len() != strings_view(b@).len());
        return false;
    }
    let mut i: usize = 0;
    while i < a.len()
        invariant
            i <= a@.len(),
            a@.len() == b@.len(),
            forall|k: int| 0 <= k < i ==> a@[k]@ == b@[k]@,
        decreases a@.len() - i,
    {
        if !str_eq(a[i].as_str(), b[i].as_str()) {
            assert(strings_view(a@)[i as int] != strings_view(b@)[i as int]);
            return false;
        }
        i += 1;
    }
    assert(strings_view(a@) =~= strings_view(b@));
    true
}

/// `Uniform` when every cell's list is the same, else `PerCell` with the map.
pub fn collapse_deps(per_cell: StrMap<Vec<String>>) -> (r: EmitDeps)
    requires
        per_cell.pairs().len() > 0,
    ensures
        all_agree(per_cell.pairs()) ==> (r matches EmitDeps::Uniform(v) && strings_view(v@) == strings_view(
            per_cell.pairs()[0].1@,
        )),
        !all_agree(per_cell.pairs()) ==> (r matches EmitDeps::PerCell(m) && m == per_cell),
{
    let agree = {
        let entries = per_cell.entries();
        let mut same = true;
        let mut i: usize = 1;
        while i < entries.len()
            invariant
                1 <= i <= entries@.len(),
                entries@ == per_cell.pairs(),
                same == forall|k: int| 0 <= k < i ==> strings_view(#[trigger] entries@[k].1@) == strings_view(
                    entries@[0].1@,
                ),
            decreases entries@.len() - i,
        {
            if !strings_equal(&entries[i].1, &entries[0].1) {
                same = false;
            }
            i += 1;
        }
        if same {
            Some(crate::text::copy_strings(&entries[0].1))
        } else {
            None
        }
    };
    match agree {
        Some(v) => EmitDeps::Uniform(v),
        None => EmitDeps::PerCell(per_cell),
    }
}

/// One package's wheel and raw deps in one cell.
pub struct EmitRecord {
    pub name: Seq<char>,
    pub version: Seq<char>,
    pub cell: Seq<char>,
    pub choice: CellChoice,
}

/// `(n1, v1)` sorts before `(n2, v2)`: by name, then by version.
pub open spec fn pair_lt(n1: Seq<char>, v1: Seq<char>, n2: Seq<char>, v2: Seq<char>) -> bool {
    seq_lt(n1, n2) || (n1 == n2 && seq_lt(v1, v2))
}

pub(crate) proof fn lemma_pair_lt_transitive(
    n1: Seq<char>,
    v1: Seq<char>,
    n2: Seq<char>,
    v2: Seq<char>,
    n3: Seq<char>,
    v3: Seq<char>,
)
    requires
        pair_lt(n1, v1, n2, v2),
        pair_lt(n2, v2, n3, v3),
    ensures
        pair_lt(n1, v1, n3, v3),
{
    if seq_lt(n1, n2) && seq_lt(n2, n3) {
        lemma_seq_lt_transitive(n1, n2, n3);
    }
    if n1 == n2 && n2 == n3 {
        lemma_seq_lt_transitive(v1, v2, v3);
    }
}

pub(crate) proof fn lemma_pair_lt_irreflexive(n: Seq<char>, v: Seq<char>)
    ensures
        !pair_lt(n, v, n, v),
{
    lemma_seq_lt_irreflexive(n);
    lemma_seq_lt_irreflexive(v);
}

pub(crate) proof fn lemma_pair_lt_total(n1: Seq<char>, v1: Seq<char>, n2: Seq<char>, v2: Seq<char>)
    ensures
        pair_lt(n1, v1, n2, v2) || pair_lt(n2, v2, n1, v1) || (n1 == n2 && v1 == v2),
{
    lemma_seq_lt_total(n1, n2);
    lemma_seq_lt_total(v1, v2);
}

/// The wheel the last record for `(n, v)` in cell `k` chose.
pub open spec fn last_wheel(rs: Seq<EmitRecord>, n: Seq<char>, v: Seq<char>, k: Seq<char>) -> Option<EmitWheelModel>
    decreases rs.len(),
{
    if rs.len() == 0 {
        None
    } else if rs.last().name == n && rs.last().version == v && rs.last().cell == k {
        Some(rs.last().choice.wheel)
    } else {
        last_wheel(rs.drop_last(), n, v, k)
    }
}

/// The raw deps of the last record for `(n, v)` in cell `k`.
pub open spec fn last_deps(rs: Seq<EmitRecord>, n: Seq<char>, v: Seq<char>, k: Seq<char>) -> Option<Seq<Seq<char>>>
    decreases rs.len(),
{
    if rs.len() == 0 {
        None
    } else if rs.last().name == n && rs.last().version == v && rs.last().cell == k {
        Some(rs.last().choice.deps)
    } else {
        last_deps(rs.drop_last(), n, v, k)
    }
}

/// Some record is for `(n, v)`.
pub open spec fn has_pair(rs: Seq<EmitRecord>, n: Seq<char>, v: Seq<char>) -> bool {
    exists|i: int| 0 <= i < rs.len() && #[trigger] rs[i].name == n && rs[i].version == v
}

proof fn lemma_no_pair_no_last(rs: Seq<EmitRecord>, n: Seq<char>, v: Seq<char>, k: Seq<char>)
    requires
        !has_pair(rs, n, v),
    ensures
        last_wheel(rs, n, v, k) is None,
        last_deps(rs, n, v, k) is None,
    decreases rs.len(),
{
    if rs.len() > 0 {
        let d = rs.drop_last();
        assert(!(rs[rs.len() - 1].name == n && rs[rs.len() - 1].version == v));
        assert(!has_pair(d, n, v)) by {
            if has_pair(d, n, v) {
                let i = choose|i: int| 0 <= i < d.len() && #[trigger] d[i].name == n && d[i].version == v;
                assert(rs[i].name == n && rs[i].version == v);
            }
        }
        lemma_no_pair_no_last(d, n, v, k);
    }
}

/// A package's wheels and raw deps, gathered cell by cell.
struct PkgAcc {
    name: String,
    version: String,
    wheels: StrMap<EmitWheel>,
    deps: StrMap<Vec<String>>,
}

/// The wheel stored under `k`.
pub open spec fn wheel_at(m: StrMap<EmitWheel>, k: Seq<char>) -> Option<EmitWheelModel> {
    match lookup(m.pairs(), k) {
        Some(w) => Some(w@),
        None => None,
    }
}

/// The list stored under `k`.
pub open spec fn list_at(m: StrMap<Vec<String>>, k: Seq<char>) -> Option<Seq<Seq<char>>> {
    match lookup(m.pairs(), k) {
        Some(d) => Some(strings_view(d@)),
        None => None,
    }
}

/// The gathered packages are sorted, one per `(name, version)` of the
/// records, and each holds the last wheel and deps recorded for each cell.
spec fn acc_inv(acc: Seq<PkgAcc>, rs: Seq<EmitRecord>) -> bool {
    &&& forall|a: int, b: int|
        0 <= a < b < acc.len() ==> pair_lt(
            #[trigger] acc[a].name@,
            acc[a].version@,
            #[trigger] acc[b].name@,
            acc[b].version@,
        )
    &&& forall|a: int| 0 <= a < acc.len() ==> (#[trigger] acc[a]).wheels.wf() && acc[a].deps.wf()
    &&& forall|a: int, k: Seq<char>|
        0 <= a < acc.len() ==> #[trigger] wheel_at(acc[a].wheels, k) == last_wheel(rs, acc[a].name@, acc[a].version@, k)
    &&& forall|a: int, k: Seq<char>|
        0 <= a < acc.len() ==> #[trigger] list_at(acc[a].deps, k) == last_deps(rs, acc[a].name@, acc[a].version@, k)
    &&& forall|a: int| 0 <= a < acc.len() ==> has_pair(rs, (#[trigger] acc[a]).name@, acc[a].version@)
    &&& forall|i: int|
        0 <= i < rs.len() ==> exists|a: int| 0 <= a < acc.len() && #[trigger] acc[a].name@ == (#[trigger] rs[i]).name && acc[a].version@ == rs[i].version
}

proof fn lemma_last_push(rs: Seq<EmitRecord>, rec: EmitRecord)
    ensures
        forall|n: Seq<char>, v: Seq<char>, k: Seq<char>|
            #[trigger] last_wheel(rs.push(rec), n, v, k) == (if n == rec.name && v == rec.version && k == rec.cell {
                Some(rec.choice.wheel)
            } else {
                last_wheel(rs, n, v, k)
            }),
        forall|n: Seq<char>, v: Seq<char>, k: Seq<char>|
            #[trigger] last_deps(rs.push(rec), n, v, k) == (if n == rec.name && v == rec.version && k == rec.cell {
                Some(rec.choice.deps)
            } else {
                last_deps(rs, n, v, k)
            }),
{
    assert(rs.push(rec).drop_last() =~= rs);
}

proof fn lemma_pairs_push(a1: Seq<PkgAcc>, rs: Seq<EmitRecord>, rec: EmitRecord, i: int)
    requires
        0 <= i < a1.len(),
        a1[i].name@ == rec.name && a1[i].version@ == rec.version,
        forall|a: int| 0 <= a < a1.len() && a != i ==> has_pair(rs, (#[trigger] a1[a]).name@, a1[a].version@),
        forall|j: int|
            0 <= j < rs.len() ==> exists|a: int| 0 <= a < a1.len() && #[trigger] a1[a].name@ == (#[trigger] rs[j]).name && a1[a].version@ == rs[j].version,
    ensures
        forall|a: int| 0 <= a < a1.len() ==> has_pair(rs.push(rec), (#[trigger] a1[a]).name@, a1[a].version@),
        forall|j: int|
            0 <= j < rs.push(rec).len() ==> exists|a: int| 0 <= a < a1.len() && #[trigger] a1[a].name@ == (#[trigger] rs.push(rec)[j]).name && a1[a].version@ == rs.push(rec)[j].version,
{
    let rs2 = rs.push(rec);
    assert forall|a: int| 0 <= a < a1.len() implies has_pair(rs2, (#[trigger] a1[a]).name@, a1[a].version@) by {
        if a == i {
            assert(rs2[rs.len() as int] == rec);
        } else {
            let j = choose|j: int| 0 <= j < rs.len() && #[trigger] rs[j].name == a1[a].name@ && rs[j].version == a1[a].version@;
            assert(rs2[j] == rs[j]);
        }
    }
    assert forall|j: int| 0 <= j < rs2.len() implies exists|a: int| 0 <= a < a1.len() && #[trigger] a1[a].name@ == (#[trigger] rs2[j]).name && a1[a].version@ == rs2[j].version by {
        if j < rs.len() {
            assert(rs2[j] == rs[j]);
        } else {
            assert(a1[i].name@ == rs2[j].name);
        }
    }
}

/// The entry at `i`, of the record's package, gains the record's cell.
proof fn lemma_acc_update(a0: Seq<PkgAcc>, a1: Seq<PkgAcc>, i: int, rs: Seq<EmitRecord>, rec: EmitRecord)
    requires
        acc_inv(a0, rs),
        0 <= i < a0.len(),
        a0[i].name@ == rec.name && a0[i].version@ == rec.version,
        a1.len() == a0.len(),
        forall|a: int| 0 <= a < a1.len() && a != i ==> a1[a] == a0[a],
        a1[i].name@ == rec.name && a1[i].version@ == rec.version,
        a1[i].wheels.wf() && a1[i].deps.wf(),
        forall|k: Seq<char>| #[trigger] wheel_at(a1[i].wheels, k) == (if k == rec.cell { Some(rec.choice.wheel) } else { wheel_at(a0[i].wheels, k) }),
        forall|k: Seq<char>| #[trigger] list_at(a1[i].deps, k) == (if k == rec.cell { Some(rec.choice.deps) } else { list_at(a0[i].deps, k) }),
    ensures
        acc_inv(a1, rs.push(rec)),
{
    let rs2 = rs.push(rec);
    lemma_last_push(rs, rec);
    lemma_pair_lt_irreflexive(rec.name, rec.version);
    assert forall|a: int, k: Seq<char>| 0 <= a < a1.len() implies #[trigger] wheel_at(a1[a].wheels, k) == last_wheel(rs2, a1[a].name@, a1[a].version@, k) && list_at(a1[a].deps, k) == last_deps(rs2, a1[a].name@, a1[a].version@, k) by {
        if a != i {
            if a0[a].name@ == rec.name && a0[a].version@ == rec.version {
                if a < i {
                    assert(pair_lt(a0[a].name@, a0[a].version@, a0[i].name@, a0[i].version@));
                } else {
                    assert(pair_lt(a0[i].name@, a0[i].version@, a0[a].name@, a0[a].version@));
                }
            }
        }
    }
    assert forall|a: int, b: int| 0 <= a < b < a1.len() implies pair_lt(
        #[trigger] a1[a].name@,
        a1[a].version@,
        #[trigger] a1[b].name@,
        a1[b].version@,
    ) by {
        assert(pair_lt(a0[a].name@, a0[a].version@, a0[b].name@, a0[b].version@));
    }
    assert forall|a: int| 0 <= a < a1.len() && a != i implies has_pair(rs, (#[trigger] a1[a]).name@, a1[a].version@) by {
        assert(has_pair(rs, a0[a].name@, a0[a].version@));
    }
    assert forall|j: int| 0 <= j < rs.len() implies exists|a: int| 0 <= a < a1.len() && #[trigger] a1[a].name@ == (#[trigger] rs[j]).name && a1[a].version@ == rs[j].version by {
        let a = choose|a: int| 0 <= a < a0.len() && #[trigger] a0[a].name@ == (#[trigger] rs[j]).name && a0[a].version@ == rs[j].version;
        if a == i {
            assert(a1[i].name@ == rs[j].name);
        } else {
            assert(a1[a] == a0[a]);
        }
    }
    lemma_pairs_push(a1, rs, rec, i);
}

/// A new entry for the record's package goes in at its sorted place `i`.
#[verifier::rlimit(80)]
#[verifier::spinoff_prover]
proof fn lemma_acc_insert(a0: Seq<PkgAcc>, e: PkgAcc, i: int, rs: Seq<EmitRecord>, rec: EmitRecord)
    requires
        acc_inv(a0, rs),
        0 <= i <= a0.len(),
        forall|a: int| 0 <= a < i ==> pair_lt(#[trigger] a0[a].name@, a0[a].version@, rec.name, rec.version),
        i < a0.len() ==> !pair_lt(a0[i].name@, a0[i].version@, rec.name, rec.version) && !(a0[i].name@ == rec.name
            && a0[i].version@ == rec.version),
        e.name@ == rec.name && e.version@ == rec.version,
        e.wheels.wf() && e.deps.wf(),
        forall|k: Seq<char>| #[trigger] wheel_at(e.wheels, k) == (if k == rec.cell { Some(rec.choice.wheel) } else { None::<EmitWheelModel> }),
        forall|k: Seq<char>| #[trigger] list_at(e.deps, k) == (if k == rec.cell { Some(rec.choice.deps) } else { None::<Seq<Seq<char>>> }),
    ensures
        acc_inv(a0.insert(i, e), rs.push(rec)),
{
    let a1 = a0.insert(i, e);
    let rs2 = rs.push(rec);
    lemma_last_push(rs, rec);
    lemma_pair_lt_irreflexive(rec.name, rec.version);
    if i < a0.len() {
        lemma_pair_lt_total(a0[i].name@, a0[i].version@, rec.name, rec.version);
    }
    assert forall|a: int| 0 <= a < a0.len() implies !(#[trigger] a0[a].name@ == rec.name && a0[a].version@ == rec.version) by {
        if a0[a].name@ == rec.name && a0[a].version@ == rec.version {
            if a > i {
                lemma_pair_lt_transitive(rec.name, rec.version, a0[i].name@, a0[i].version@, a0[a].name@, a0[a].version@);
            }
        }
    }
    assert(!has_pair(rs, rec.name, rec.version)) by {
        if has_pair(rs, rec.name, rec.version) {
            let j = choose|j: int| 0 <= j < rs.len() && #[trigger] rs[j].name == rec.name && rs[j].version == rec.version;
            let a = choose|a: int| 0 <= a < a0.len() && #[trigger] a0[a].name@ == (#[trigger] rs[j]).name && a0[a].version@ == rs[j].version;
        }
    }
    assert forall|a: int, b: int| 0 <= a < b < a1.len() implies pair_lt(
        #[trigger] a1[a].name@,
        a1[a].version@,
        #[trigger] a1[b].name@,
        a1[b].version@,
    ) by {
        if a < i && b == i {
        } else if a < i && b > i {
            assert(a1[b] == a0[b - 1]);
            assert(a1[a] == a0[a]);
            if b - 1 == a {
            } else {
                assert(pair_lt(a0[a].name@, a0[a].version@, a0[b - 1].name@, a0[b - 1].version@));
            }
        } else if a == i {
            assert(a1[b] == a0[b - 1]);
            if b - 1 > i {
                assert(pair_lt(a0[i].name@, a0[i].version@, a0[b - 1].name@, a0[b - 1].version@));
                lemma_pair_lt_transitive(rec.name, rec.version, a0[i].name@, a0[i].version@, a0[b - 1].name@, a0[b - 1].version@);
            }
        } else if a > i {
            assert(a1[b] == a0[b - 1]);
            assert(a1[a] == a0[a - 1]);
            assert(pair_lt(a0[a - 1].name@, a0[a - 1].version@, a0[b - 1].name@, a0[b - 1].version@));
        } else {
            assert(a1[a] == a0[a]);
            assert(a1[b] == a0[b]);
            assert(pair_lt(a0[a].name@, a0[a].version@, a0[b].name@, a0[b].version@));
        }
    }
    assert forall|a: int, k: Seq<char>| 0 <= a < a1.len() implies #[trigger] wheel_at(a1[a].wheels, k) == last_wheel(rs2, a1[a].name@, a1[a].version@, k) && list_at(a1[a].deps, k) == last_deps(rs2, a1[a].name@, a1[a].version@, k) by {
        if a == i {
            lemma_no_pair_no_last(rs, rec.name, rec.version, k);
        } else {
            let b = if a < i { a } else { a - 1 };
            assert(a1[a] == a0[b]);
            assert(wheel_at(a0[b].wheels, k) == last_wheel(rs, a0[b].name@, a0[b].version@, k));
            assert(list_at(a0[b].deps, k) == last_deps(rs, a0[b].name@, a0[b].version@, k));
        }
    }
    assert forall|a: int| 0 <= a < a1.len() implies (#[trigger] a1[a]).wheels.wf() && a1[a].deps.wf() by {
        if a != i {
            let b = if a < i { a } else { a - 1 };
            assert(a1[a] == a0[b]);
        }
    }
    assert forall|a: int| 0 <= a < a1.len() && a != i implies has_pair(rs, (#[trigger] a1[a]).name@, a1[a].version@) by {
        let b = if a < i { a } else { a - 1 };
        assert(a1[a] == a0[b]);
        assert(has_pair(rs, a0[b].name@, a0[b].version@));
    }
    assert forall|j: int| 0 <= j < rs.len() implies exists|a: int| 0 <= a < a1.len() && #[trigger] a1[a].name@ == (#[trigger] rs[j]).name && a1[a].version@ == rs[j].version by {
        let b = choose|b: int| 0 <= b < a0.len() && #[trigger] a0[b].name@ == (#[trigger] rs[j]).name && a0[b].version@ == rs[j].version;
        let a = if b < i { b } else { b + 1 };
        assert(a1[a] == a0[b]);
    }
    lemma_pairs_push(a1, rs, rec, i);
    assert forall|a: int, k: Seq<char>| 0 <= a < a1.len() implies #[trigger] list_at(a1[a].deps, k) == last_deps(rs2, a1[a].name@, a1[a].version@, k) by {
        assert(wheel_at(a1[a].wheels, k) == last_wheel(rs2, a1[a].name@, a1[a].version@, k));
    }
}

/// Adds one record to the gathered packages.
fn record(
    acc: &mut Vec<PkgAcc>,
    name: &String,
    version: &String,
    cell: &ConfigName,
    wheel: EmitWheel,
    deps: Vec<String>,
    Ghost(rs): Ghost<Seq<EmitRecord>>,
)
    requires
        acc_inv(old(acc)@, rs),
    ensures
        acc_inv(
            final(acc)@,
            rs.push(
                EmitRecord {
                    name: name@,
                    version: version@,
                    cell: cell@,
                    choice: CellChoice { wheel: wheel@, deps: strings_view(deps@) },
                },
            ),
        ),
{
    let ghost rec = EmitRecord {
        name: name@,
        version: version@,
        cell: cell@,
        choice: CellChoice { wheel: wheel@, deps: strings_view(deps@) },
    };
    let ghost a0 = acc@;
    let mut i: usize = 0;
    while i < acc.len() && (string_lt(&acc[i].name, name) || (str_eq(acc[i].name.as_str(), name.as_str())
        && string_lt(&acc[i].version, version)))
        invariant
            i <= acc@.len(),
            acc@ == a0,
            forall|a: int| 0 <= a < i ==> pair_lt(#[trigger] a0[a].name@, a0[a].version@, name@, version@),
        decreases acc@.len() - i,
    {
        i += 1;
    }
    let found = i < acc.len() && str_eq(acc[i].name.as_str(), name.as_str()) && str_eq(
        acc[i].version.as_str(),
        version.as_str(),
    );
    if found {
        let mut entry = acc.remove(i);
        let ghost e0 = entry;
        entry.wheels.insert(cell.as_str().to_owned(), wheel);
        entry.deps.insert(cell.as_str().to_owned(), deps);
        acc.insert(i, entry);
        proof {
            assert(e0 == a0[i as int]);
            lemma_acc_update(a0, acc@, i as int, rs, rec);
        }
    } else {
        let mut wheels: StrMap<EmitWheel> = StrMap::new();
        wheels.insert(cell.as_str().to_owned(), wheel);
        let mut dm: StrMap<Vec<String>> = StrMap::new();
        dm.insert(cell.as_str().to_owned(), deps);
        let entry = PkgAcc { name: name.clone(), version: version.clone(), wheels, deps: dm };
        proof {
            lemma_acc_insert(a0, entry, i as int, rs, rec);
        }
        acc.insert(i, entry);
    }
}

/// The text of a python version, `MAJOR.MINOR`.
pub open spec fn py_text(v: PythonVersion) -> Seq<char> {
    decimal(v.0 as nat) + seq!['.'] + decimal(v.1 as nat)
}

/// The cell names of one platform, one per python version, in order.
pub open spec fn names_for(plat: Seq<char>, vs: Seq<PythonVersion>) -> Seq<Seq<char>> {
    vs.map_values(|v: PythonVersion| config_name_spec(py_text(v), plat))
}

/// The cell names of every platform (in key order) and python version.
pub open spec fn config_names(ps: Seq<(String, Platform)>, vs: Seq<PythonVersion>) -> Seq<Seq<char>>
    decreases ps.len(),
{
    if ps.len() == 0 {
        Seq::empty()
    } else {
        config_names(ps.drop_last(), vs) + names_for(ps.last().0@, vs)
    }
}

/// `a` sorts no later than `b`.
pub open spec fn seq_le(a: Seq<char>, b: Seq<char>) -> bool {
    seq_lt(a, b) || a == b
}

/// Each element sorts no later than the next.
pub open spec fn sorted_le(s: Seq<Seq<char>>) -> bool {
    forall|a: int, b: int| 0 <= a < b < s.len() ==> seq_le(#[trigger] s[a], #[trigger] s[b])
}

/// The names as text.
pub open spec fn names_view(v: Seq<ConfigName>) -> Seq<Seq<char>> {
    v.map_values(|c: ConfigName| c@)
}

/// Inserts `x` into a sorted list, after any equal names.
fn insert_config(out: &mut Vec<ConfigName>, x: ConfigName)
    requires
        sorted_le(names_view(old(out)@)),
    ensures
        sorted_le(names_view(final(out)@)),
        names_view(final(out)@).to_multiset() == names_view(old(out)@).to_multiset().insert(x@),
{
    let ghost o = names_view(out@);
    let ghost xv = x@;
    let mut i: usize = 0;
    while i < out.len()
        invariant
            i <= out@.len(),
            o == names_view(out@),
            xv == x@,
            sorted_le(o),
            forall|k: int| 0 <= k < i ==> seq_le(#[trigger] o[k], xv),
        ensures
            i <= out@.len(),
            o == names_view(out@),
            forall|k: int| 0 <= k < i ==> seq_le(#[trigger] o[k], xv),
            i < out@.len() ==> seq_lt(xv, o[i as int]),
        decreases out@.len() - i,
    {
        let a = out[i].as_str().to_owned();
        let b = x.as_str().to_owned();
        assert(o[i as int] == out@[i as int]@);
        if string_lt(&b, &a) {
            break;
        }
        proof {
            lemma_seq_lt_total(a@, b@);
        }
        i += 1;
    }
    proof {
        if i < o.len() {
            assert(o[i as int] == out@[i as int]@);
        }
    }
    out.insert(i, x);
    proof {
        let n = names_view(out@);
        assert(n =~= o.insert(i as int, xv));
        vstd::seq_lib::to_multiset_insert(o, i as int, xv);
        assert forall|a: int, b: int| 0 <= a < b < n.len() implies seq_le(#[trigger] n[a], #[trigger] n[b]) by {
            if b < i {
                assert(n[a] == o[a] && n[b] == o[b]);
            } else if b == i {
                assert(n[a] == o[a]);
            } else if a < i {
                assert(n[a] == o[a] && n[b] == o[b - 1]);
                if b - 1 > a {
                    assert(seq_le(o[a], o[b - 1]));
                }
            } else if a == i {
                assert(n[b] == o[b - 1]);
                if b - 1 > i {
                    assert(seq_le(o[i as int], o[b - 1]));
                    if seq_lt(o[i as int], o[b - 1]) {
                        lemma_seq_lt_transitive(xv, o[i as int], o[b - 1]);
                    }
                }
            } else {
                assert(n[a] == o[a - 1] && n[b] == o[b - 1]);
                assert(seq_le(o[a - 1], o[b - 1]));
            }
        }
    }
}

/// The cell names of the config's platforms and the tree's python versions,
/// sorted.
pub fn cell_configs(config: &Config, tree: &Tree) -> (r: Vec<ConfigName>)
    ensures
        sorted_le(names_view(r@)),
        names_view(r@).to_multiset() == config_names(config.platforms.pairs(), tree.python_versions@).to_multiset(),
{
    let ps = config.platforms.entries();
    let vs = &tree.python_versions;
    let mut out: Vec<ConfigName> = Vec::new();
    let ghost mut made: Seq<Seq<char>> = Seq::empty();
    let mut p: usize = 0;
    assert(names_view(out@) =~= made);
    assert(config_names(ps@.subrange(0, 0), vs@) =~= made);
    while p < ps.len()
        invariant
            p <= ps@.len(),
            ps@ == config.platforms.pairs(),
            vs@ == tree.python_versions@,
            made == config_names(ps@.subrange(0, p as int), vs@),
            sorted_le(names_view(out@)),
            names_view(out@).to_multiset() == made.to_multiset(),
        decreases ps@.len() - p,
    {
        let ghost before = made;
        let mut v: usize = 0;
        while v < vs.len()
            invariant
                p < ps@.len(),
                v <= vs@.len(),
                ps@ == config.platforms.pairs(),
                vs@ == tree.python_versions@,
                made == before + names_for(ps@[p as int].0@, vs@).subrange(0, v as int),
                sorted_le(names_view(out@)),
                names_view(out@).to_multiset() == made.to_multiset(),
            decreases vs@.len() - v,
        {
            let mut py = String::new();
            push_decimal(&mut py, vs[v].0 as u64);
            push_char(&mut py, '.');
            push_decimal(&mut py, vs[v].1 as u64);
            assert(py@ =~= py_text(vs@[v as int]));
            let name = ConfigName::new(py.as_str(), ps[p].0.as_str());
            let ghost nv = name@;
            insert_config(&mut out, name);
            proof {
                vstd::seq_lib::to_multiset_build(made, nv);
                made = made.push(nv);
                assert(made =~= before + names_for(ps@[p as int].0@, vs@).subrange(0, v + 1));
            }
            v += 1;
        }
        proof {
            let t = ps@.subrange(0, p + 1);
            assert(t.drop_last() =~= ps@.subrange(0, p as int));
            assert(names_for(ps@[p as int].0@, vs@).subrange(0, v as int) =~= names_for(ps@[p as int].0@, vs@));
        }
        p += 1;
    }
    assert(ps@.subrange(0, p as int) =~= ps@);
    out
}

/// What the composition reads.
pub struct EmitSources {
    pub config: Config,
    pub view: ResolvedView,
    pub compat: Seq<Seq<TagModel>>,
    pub lockfile: Lockfile,
    pub manifest: Option<Manifest>,
    pub fixups: StrMap<StrMap<ResolvedFixup>>,
}

/// The config name of the view's cell `c`.
pub open spec fn cell_name(v: ResolvedView, c: int) -> Seq<char> {
    config_name_spec(v.configs@[c].python_version@, v.configs@[c].platform@)
}

/// Cell `c` names a platform the config lacks, or a python version that does not parse.
pub open spec fn cell_check(src: EmitSources, c: int) -> Option<EmitErrorModel> {
    let rc = src.view.configs@[c];
    if lookup(src.config.platforms.pairs(), rc.platform@) is None {
        Some(EmitErrorModel::PlatformMissing { platform: rc.platform@ })
    } else {
        match python_version_spec(rc.python_version@) {
            Err(m) => Some(EmitErrorModel::BadPythonVersion(m)),
            Ok(_) => None,
        }
    }
}

/// Index of the first lockfile package named `n` at version `v`.
pub open spec fn lock_index(ps: Seq<Package>, n: Seq<char>, v: Seq<char>) -> Option<int>
    decreases ps.len(),
{
    if ps.len() == 0 {
        None
    } else {
        match lock_index(ps.drop_last(), n, v) {
            Some(i) => Some(i),
            None => if ps.last().name@ == n && ps.last().version@ == v {
                Some(ps.len() - 1)
            } else {
                None
            },
        }
    }
}

/// The lockfile package named `n` at version `v`.
pub open spec fn lock_pkg(ps: Seq<Package>, n: Seq<char>, v: Seq<char>) -> Option<Package> {
    match lock_index(ps, n, v) {
        Some(i) => Some(ps[i]),
        None => None,
    }
}

/// The fixup for package `n` in cell `cell`, if one is given.
pub open spec fn cell_fixup(f: StrMap<StrMap<ResolvedFixup>>, n: Seq<char>, cell: Seq<char>) -> Option<ResolvedFixup> {
    match lookup(f.pairs(), n) {
        Some(m) => lookup(m.pairs(), cell),
        None => None,
    }
}

/// Every map, and every fixup, is well formed.
pub open spec fn fixups_wf(f: StrMap<StrMap<ResolvedFixup>>) -> bool {
    &&& f.wf()
    &&& forall|i: int| 0 <= i < f.pairs().len() ==> (#[trigger] f.pairs()[i]).1.wf()
    &&& forall|i: int, j: int|
        0 <= i < f.pairs().len() && 0 <= j < f.pairs()[i].1.pairs().len() ==> (#[trigger] f.pairs()[i].1.pairs()[j]).1.wf()
}

/// What package `j` of cell `c` becomes.
pub open spec fn decision(src: EmitSources, c: int, j: int) -> Result<Option<CellChoice>, EmitErrorModel> {
    let rc = src.view.configs@[c];
    let pkg = rc.packages@[j];
    decide_spec(
        pkg@,
        lock_pkg(src.lockfile.packages@, pkg.name@, pkg.version@),
        cell_fixup(src.fixups, pkg.name@, cell_name(src.view, c)),
        src.manifest,
        src.compat[c],
        cell_name(src.view, c),
        rc.python_version@,
        rc.platform@,
    )
}

/// The records of the first `n` packages of cell `c`, or the first error.
pub open spec fn cell_outcomes(src: EmitSources, c: int, n: int) -> Result<Seq<EmitRecord>, EmitErrorModel>
    decreases n,
{
    if n <= 0 {
        Ok(Seq::empty())
    } else {
        match cell_outcomes(src, c, n - 1) {
            Err(e) => Err(e),
            Ok(rs) => match decision(src, c, n - 1) {
                Err(e) => Err(e),
                Ok(None) => Ok(rs),
                Ok(Some(ch)) => Ok(
                    rs.push(
                        EmitRecord {
                            name: src.view.configs@[c].packages@[n - 1].name@,
                            version: src.view.configs@[c].packages@[n - 1].version@,
                            cell: cell_name(src.view, c),
                            choice: ch,
                        },
                    ),
                ),
            },
        }
    }
}

/// The records of the first `m` cells, in order, or the first error.
pub open spec fn outcomes(src: EmitSources, m: int) -> Result<Seq<EmitRecord>, EmitErrorModel>
    decreases m,
{
    if m <= 0 {
        Ok(Seq::empty())
    } else {
        match outcomes(src, m - 1) {
            Err(e) => Err(e),
            Ok(rs) => match cell_check(src, m - 1) {
                Some(e) => Err(e),
                None => match cell_outcomes(src, m - 1, src.view.configs@[m - 1].packages@.len() as int) {
                    Err(e) => Err(e),
                    Ok(rs2) => Ok(rs + rs2),
                },
            },
        }
    }
}

proof fn lemma_cell_outcomes_err(src: EmitSources, c: int, n: int, m: int)
    requires
        0 <= n <= m,
        cell_outcomes(src, c, n) is Err,
    ensures
        cell_outcomes(src, c, m) == cell_outcomes(src, c, n),
    decreases m - n,
{
    if n < m {
        lemma_cell_outcomes_err(src, c, n, m - 1);
    }
}

proof fn lemma_outcomes_err(src: EmitSources, n: int, m: int)
    requires
        0 <= n <= m,
        outcomes(src, n) is Err,
    ensures
        outcomes(src, m) == outcomes(src, n),
    decreases m - n,
{
    if n < m {
        lemma_outcomes_err(src, n, m - 1);
    }
}

/// The first target that is not a valid Buck target.
pub open spec fn first_invalid(ts: Seq<Seq<char>>) -> Option<Seq<char>>
    decreases ts.len(),
{
    if ts.len() == 0 {
        None
    } else {
        match first_invalid(ts.drop_last()) {
            Some(x) => Some(x),
            None => if !valid_buck_target(ts.last()) {
                Some(ts.last())
            } else {
                None
            },
        }
    }
}

/// The values of a string map, in key order.
pub open spec fn map_values_of(m: StrMap<String>) -> Seq<Seq<char>> {
    m.pairs().map_values(|p: (String, String)| p.1@)
}

/// An overlay discovery result, by package name.
pub type OverlayFiles = Result<Vec<(String, String)>, String>;

/// What a package's fixup (as resolved for the first cell) refuses: automatic
/// entry points, an invalid `extra_deps` or `replace_deps` target, an overlay
/// that could not be discovered.
pub open spec fn post_error(
    n: Seq<char>,
    rf0: Option<ResolvedFixup>,
    overlays: StrMap<Result<Vec<(String, String)>, String>>,
) -> Option<EmitErrorModel> {
    match rf0 {
        None => None,
        Some(f) => if f.entry_points matches Some(EntryPoints::Auto(b)) && b {
            Some(EmitErrorModel::EntryPointsAuto { package: n })
        } else if first_invalid(strings_view(f.extra_deps@)) is Some {
            Some(EmitErrorModel::InvalidExtraDep { package: n, target: first_invalid(strings_view(f.extra_deps@))->0 })
        } else if first_invalid(map_values_of(f.replace_deps)) is Some {
            Some(EmitErrorModel::InvalidReplaceDep { package: n, target: first_invalid(map_values_of(f.replace_deps))->0 })
        } else if f.overlay is Some && lookup(overlays.pairs(), n) matches Some(Err(m)) {
            Some(EmitErrorModel::Overlay(lookup(overlays.pairs(), n)->0->Err_0@))
        } else {
            None
        },
    }
}

/// The text pairs of an overlay file list.
pub open spec fn files_view(v: Seq<(String, String)>) -> Seq<(Seq<char>, Seq<char>)> {
    v.map_values(|p: (String, String)| (p.0@, p.1@))
}

/// `d` keeps a list per cell and has one under `k`.
pub open spec fn per_cell_has(d: EmitDeps, k: Seq<char>) -> bool {
    match d {
        EmitDeps::PerCell(m) => lookup(m.pairs(), k) is Some,
        EmitDeps::Uniform(_) => false,
    }
}

/// The raw deps recorded last for `(n, v)` in cell `k`; none where the
/// package has no record in that cell.
pub open spec fn cell_raw_deps(rs: Seq<EmitRecord>, n: Seq<char>, v: Seq<char>, k: Seq<char>) -> Seq<Seq<char>> {
    match last_deps(rs, n, v, k) {
        Some(d) => d,
        None => Seq::empty(),
    }
}

/// `k` is a cell of the package's dep lists: one of the input's cells
/// `cells`, or a cell the package was recorded in.
pub open spec fn dep_cell(rs: Seq<EmitRecord>, n: Seq<char>, v: Seq<char>, cells: Seq<Seq<char>>, k: Seq<char>) -> bool {
    cells.contains(k) || last_deps(rs, n, v, k) is Some
}

/// A package's dep lists, one per cell of the input (and per cell it was
/// recorded in), each formatting the last raw deps recorded there (none
/// where it has no record): one list when every such cell agrees, else a
/// map with a list under every such cell, two of them differing.
pub open spec fn deps_ok(d: EmitDeps, rs: Seq<EmitRecord>, n: Seq<char>, v: Seq<char>, cells: Seq<Seq<char>>) -> bool {
    match d {
        EmitDeps::Uniform(u) => forall|k: Seq<char>|
            #[trigger] dep_cell(rs, n, v, cells, k) ==> formats_deps(cell_raw_deps(rs, n, v, k), strings_view(u@)),
        EmitDeps::PerCell(m) => {
            &&& m.wf()
            &&& forall|k: Seq<char>| #[trigger] lookup(m.pairs(), k) is Some <==> dep_cell(rs, n, v, cells, k)
            &&& forall|k: Seq<char>|
                #[trigger] lookup(m.pairs(), k) is Some ==> formats_deps(
                    cell_raw_deps(rs, n, v, k),
                    strings_view(lookup(m.pairs(), k)->0@),
                )
            &&& exists|i: int, j: int|
                0 <= i < m.pairs().len() && 0 <= j < m.pairs().len() && strings_view(#[trigger] m.pairs()[i].1@)
                    != strings_view(#[trigger] m.pairs()[j].1@)
        },
    }
}

/// The per-package fields the first cell's fixup gives.
pub open spec fn fields_ok(
    p: EmitPackage,
    rf0: Option<ResolvedFixup>,
    overlays: StrMap<Result<Vec<(String, String)>, String>>,
) -> bool {
    &&& strings_view(p.entry_points@) == (match rf0 {
        Some(f) => match f.entry_points {
            Some(EntryPoints::Named(v)) => strings_view(v@),
            _ => Seq::empty(),
        },
        None => Seq::empty(),
    })
    &&& opt_strs(p.visibility) == (match rf0 {
        Some(f) => opt_strs(f.visibility),
        None => None,
    })
    &&& strings_view(p.labels@) == (match rf0 {
        Some(f) => strings_view(f.labels@),
        None => Seq::empty(),
    })
    &&& p.runtime_env.wf()
    &&& forall|k: Seq<char>|
        #[trigger] map_get(p.runtime_env, k) == (match rf0 {
            Some(f) => map_get(f.runtime_env, k),
            None => None,
        })
    &&& (match rf0 {
        Some(f) if f.overlay is Some => match lookup(overlays.pairs(), p.name@) {
            Some(Ok(files)) => p.overlay matches Some(o) && files_view(o.files@) == files_view(files@),
            _ => p.overlay is None,
        },
        _ => p.overlay is None,
    })
}

/// The first target of `ts` that is not a valid Buck target.
fn find_invalid(ts: &Vec<String>) -> (r: Option<String>)
    ensures
        match r {
            Some(t) => first_invalid(strings_view(ts@)) == Some(t@),
            None => first_invalid(strings_view(ts@)) is None,
        },
{
    let ghost tv = strings_view(ts@);
    let mut i: usize = 0;
    while i < ts.len()
        invariant
            i <= ts@.len(),
            tv == strings_view(ts@),
            first_invalid(tv.subrange(0, i as int)) is None,
        decreases ts@.len() - i,
    {
        proof {
            let t = tv.subrange(0, i + 1);
            assert(t.drop_last() =~= tv.subrange(0, i as int));
        }
        if !is_valid_buck_target(ts[i].as_str()) {
            proof {
                lemma_first_invalid_prefix(tv, i + 1);
            }
            return Some(ts[i].clone());
        }
        i += 1;
    }
    assert(tv.subrange(0, i as int) =~= tv);
    None
}

proof fn lemma_first_invalid_prefix(ts: Seq<Seq<char>>, n: int)
    requires
        0 <= n <= ts.len(),
        first_invalid(ts.subrange(0, n)) is Some,
    ensures
        first_invalid(ts) == first_invalid(ts.subrange(0, n)),
    decreases ts.len() - n,
{
    if n < ts.len() {
        let t = ts.subrange(0, n + 1);
        assert(t.drop_last() =~= ts.subrange(0, n));
        lemma_first_invalid_prefix(ts, n + 1);
    } else {
        assert(ts.subrange(0, n) =~= ts);
    }
}

/// The values of a string map, in key order.
fn values_of(m: &StrMap<String>) -> (r: Vec<String>)
    ensures
        strings_view(r@) == map_values_of(*m),
{
    let es = m.entries();
    let mut out: Vec<String> = Vec::new();
    let mut i: usize = 0;
    while i < es.len()
        invariant
            i <= es@.len(),
            es@ == m.pairs(),
            strings_view(out@) == map_values_of(*m).subrange(0, i as int),
        decreases es@.len() - i,
    {
        let ghost pre = out@;
        out.push(es[i].1.clone());
        assert(strings_view(out@) =~= strings_view(pre).push(es@[i as int].1@));
        i += 1;
        assert(strings_view(out@) =~= map_values_of(*m).subrange(0, i as int));
    }
    assert(map_values_of(*m).subrange(0, i as int) =~= map_values_of(*m));
    out
}

/// Copies an overlay file list.
fn copy_files(v: &Vec<(String, String)>) -> (r: Vec<(String, String)>)
    ensures
        files_view(r@) == files_view(v@),
{
    let mut out: Vec<(String, String)> = Vec::new();
    let mut i: usize = 0;
    while i < v.len()
        invariant
            i <= v@.len(),
            files_view(out@) == files_view(v@).subrange(0, i as int),
        decreases v@.len() - i,
    {
        let ghost pre = out@;
        let item = (v[i].0.clone(), v[i].1.clone());
        out.push(item);
        assert(files_view(out@) =~= files_view(pre).push((v@[i as int].0@, v@[i as int].1@)));
        i += 1;
        assert(files_view(out@) =~= files_view(v@).subrange(0, i as int));
    }
    assert(files_view(v@).subrange(0, i as int) =~= files_view(v@));
    out
}

pub(crate) proof fn lemma_has_pair_last(rs: Seq<EmitRecord>, n: Seq<char>, v: Seq<char>)
    requires
        has_pair(rs, n, v),
    ensures
        exists|k: Seq<char>| #[trigger] last_deps(rs, n, v, k) is Some,
    decreases rs.len(),
{
    let l = rs.last();
    if l.name == n && l.version == v {
        assert(last_deps(rs, n, v, l.cell) is Some);
    } else {
        let d = rs.drop_last();
        let i = choose|i: int| 0 <= i < rs.len() && #[trigger] rs[i].name == n && rs[i].version == v;
        assert(i < rs.len() - 1);
        assert(d[i] == rs[i]);
        lemma_has_pair_last(d, n, v);
        let k = choose|k: Seq<char>| #[trigger] last_deps(d, n, v, k) is Some;
        assert(last_deps(rs, n, v, k) is Some);
    }
}

/// Completes one gathered package: each cell's deps formatted and collapsed,
/// and the per-package fields taken from the first cell's fixup, which the
/// package may not break (see [`post_error`]).
fn finish_package(
    a: PkgAcc,
    configs: &Vec<ConfigName>,
    rf0: Option<&ResolvedFixup>,
    overlays: &StrMap<OverlayFiles>,
    Ghost(rs): Ghost<Seq<EmitRecord>>,
) -> (r: Result<EmitPackage, EmitError>)
    requires
        a.wheels.wf(),
        a.deps.wf(),
        has_pair(rs, a.name@, a.version@),
        forall|k: Seq<char>| #[trigger] list_at(a.deps, k) == last_deps(rs, a.name@, a.version@, k),
        rf0 matches Some(f) ==> f.wf(),
        overlays.wf(),
    ensures
        match r {
            Ok(p) => {
                &&& post_error(a.name@, deref_opt(rf0), *overlays) is None
                &&& p.name@ == a.name@
                &&& p.version@ == a.version@
                &&& p.wheels == a.wheels
                &&& deps_ok(p.deps, rs, a.name@, a.version@, names_view(configs@))
                &&& fields_ok(p, deref_opt(rf0), *overlays)
            },
            Err(e) => post_error(a.name@, deref_opt(rf0), *overlays) == Some(e@),
        },
{
    let ghost n = a.name@;
    let ghost v = a.version@;
    let es = a.deps.entries();
    let mut fm: StrMap<Vec<String>> = StrMap::new();
    let mut i: usize = 0;
    proof {
        a.deps.lemma_sorted();
    }
    while i < es.len()
        invariant
            i <= es@.len(),
            es@ == a.deps.pairs(),
            sorted_keys(es@),
            fm.wf(),
            forall|k: Seq<char>|
                #[trigger] lookup(fm.pairs(), k) is Some <==> exists|j: int| 0 <= j < i && es@[j].0@ == k,
            forall|k: Seq<char>|
                #[trigger] lookup(fm.pairs(), k) is Some ==> list_at(a.deps, k) is Some && formats_deps(
                    list_at(a.deps, k)->0,
                    strings_view(lookup(fm.pairs(), k)->0@),
                ),
        decreases es@.len() - i,
    {
        let f = format_cell_deps(&es[i].1);
        let key = es[i].0.clone();
        let ghost kv = key@;
        proof {
            crate::strmap::lemma_unique_key(es@, i as int);
            assert(lookup(a.deps.pairs(), kv) == Some(es@[i as int].1));
        }
        fm.insert(key, f);
        proof {
            assert forall|k: Seq<char>| #[trigger] lookup(fm.pairs(), k) is Some <==> exists|j: int| 0 <= j < i + 1 && es@[j].0@ == k by {
                if k == kv {
                    assert(es@[i as int].0@ == k);
                } else if exists|j: int| 0 <= j < i + 1 && es@[j].0@ == k {
                    let j = choose|j: int| 0 <= j < i + 1 && es@[j].0@ == k;
                    assert(j < i);
                }
            }
        }
        i += 1;
    }
    proof {
        lemma_has_pair_last(rs, n, v);
        let k = choose|k: Seq<char>| #[trigger] last_deps(rs, n, v, k) is Some;
        assert(list_at(a.deps, k) is Some);
        assert(lookup(a.deps.pairs(), k) is Some);
        let j = choose|j: int| 0 <= j < a.deps.pairs().len() && a.deps.pairs()[j].0@ == k;
        assert(es@[j].0@ == k);
        assert(lookup(fm.pairs(), k) is Some);
        assert forall|k2: Seq<char>| #[trigger] lookup(fm.pairs(), k2) is Some <==> last_deps(rs, n, v, k2) is Some by {
            if last_deps(rs, n, v, k2) is Some {
                assert(lookup(a.deps.pairs(), k2) is Some);
                let j2 = choose|j2: int| 0 <= j2 < a.deps.pairs().len() && a.deps.pairs()[j2].0@ == k2;
                assert(es@[j2].0@ == k2);
            }
        }
    }
    let ghost cells = names_view(configs@);
    let mut c: usize = 0;
    while c < configs.len()
        invariant
            c <= configs@.len(),
            cells == names_view(configs@),
            fm.wf(),
            forall|k: Seq<char>| #[trigger] list_at(a.deps, k) == last_deps(rs, n, v, k),
            forall|k: Seq<char>|
                #[trigger] lookup(fm.pairs(), k) is Some <==> (last_deps(rs, n, v, k) is Some || cells.subrange(0, c as int).contains(k)),
            forall|k: Seq<char>|
                #[trigger] lookup(fm.pairs(), k) is Some ==> formats_deps(
                    cell_raw_deps(rs, n, v, k),
                    strings_view(lookup(fm.pairs(), k)->0@),
                ),
        decreases configs@.len() - c,
    {
        let ghost kc = configs@[c as int]@;
        assert(cells[c as int] == kc);
        if fm.get(configs[c].as_str()).is_none() {
            proof {
                if last_deps(rs, n, v, kc) is Some {
                    assert(lookup(fm.pairs(), kc) is Some);
                }
                assert(cell_raw_deps(rs, n, v, kc) == Seq::<Seq<char>>::empty());
            }
            let empty: Vec<String> = Vec::new();
            assert(strings_view(empty@) =~= Seq::<Seq<char>>::empty());
            fm.insert(crate::text::owned(configs[c].as_str()), empty);
        }
        proof {
            let pre0 = cells.subrange(0, c as int);
            let pre1 = cells.subrange(0, c + 1);
            assert(pre1 =~= pre0.push(kc));
            assert forall|k: Seq<char>| #[trigger] lookup(fm.pairs(), k) is Some <==> (last_deps(rs, n, v, k) is Some
                || pre1.contains(k)) by {
                if pre1.contains(k) && k != kc {
                    let j = choose|j: int| 0 <= j < pre1.len() && #[trigger] pre1[j] == k;
                    assert(pre0[j] == k);
                }
                if pre0.contains(k) {
                    let j = choose|j: int| 0 <= j < pre0.len() && #[trigger] pre0[j] == k;
                    assert(pre1[j] == k);
                }
                if k == kc {
                    assert(pre1[c as int] == k);
                }
            }
        }
        c += 1;
    }
    proof {
        assert(cells.subrange(0, configs@.len() as int) =~= cells);
        assert forall|k: Seq<char>| #[trigger] lookup(fm.pairs(), k) is Some <==> dep_cell(rs, n, v, cells, k) by {}
        lemma_has_pair_last(rs, n, v);
        let k = choose|k: Seq<char>| #[trigger] last_deps(rs, n, v, k) is Some;
        assert(lookup(fm.pairs(), k) is Some);
    }
    let ghost fm0 = fm;
    let deps = collapse_deps(fm);
    let ghost dg = deps;
    proof {
        match dg {
            EmitDeps::Uniform(u) => {
                assert forall|k: Seq<char>| #[trigger] dep_cell(rs, n, v, cells, k) implies formats_deps(
                    cell_raw_deps(rs, n, v, k),
                    strings_view(u@),
                ) by {
                    assert(lookup(fm0.pairs(), k) is Some);
                    let j = choose|i: int| 0 <= i < fm0.pairs().len() && fm0.pairs()[i].0@ == k;
                    assert(strings_view(fm0.pairs()[j].1@) == strings_view(fm0.pairs()[0].1@));
                }
            },
            EmitDeps::PerCell(m) => {
                let j = choose|j: int| 0 <= j < fm0.pairs().len() && !(strings_view(#[trigger] fm0.pairs()[j].1@) == strings_view(fm0.pairs()[0].1@));
                assert(strings_view(m.pairs()[j].1@) != strings_view(m.pairs()[0].1@));
            },
        }
    }
    let mut entry_points: Vec<String> = Vec::new();
    let mut visibility: Option<Vec<String>> = None;
    let mut labels: Vec<String> = Vec::new();
    let mut runtime_env: StrMap<String> = StrMap::new();
    let mut overlay: Option<EmitOverlay> = None;
    if let Some(f) = rf0 {
        match &f.entry_points {
            Some(EntryPoints::Auto(b)) => {
                if *b {
                    return Err(EmitError::EntryPointsAuto { package: a.name.clone() });
                }
            },
            Some(EntryPoints::Named(names)) => {
                entry_points = crate::text::copy_strings(names);
            },
            None => {},
        }
        match find_invalid(&f.extra_deps) {
            Some(t) => {
                return Err(EmitError::InvalidExtraDep { package: a.name.clone(), target: t });
            },
            None => {},
        }
        let targets = values_of(&f.replace_deps);
        match find_invalid(&targets) {
            Some(t) => {
                return Err(EmitError::InvalidReplaceDep { package: a.name.clone(), target: t });
            },
            None => {},
        }
        if f.overlay.is_some() {
            match overlays.get(a.name.as_str()) {
                Some(Ok(files)) => {
                    overlay = Some(EmitOverlay { files: copy_files(files) });
                },
                Some(Err(m)) => {
                    return Err(EmitError::Overlay(m.clone()));
                },
                None => {},
            }
        }
        visibility = match &f.visibility {
            Some(vis) => Some(crate::text::copy_strings(vis)),
            None => None,
        };
        labels = crate::text::copy_strings(&f.labels);
        extend_map(&mut runtime_env, &f.runtime_env);
    }
    proof {
        if entry_points@.len() == 0 {
            assert(strings_view(entry_points@) =~= Seq::<Seq<char>>::empty());
        }
        if labels@.len() == 0 {
            assert(strings_view(labels@) =~= Seq::<Seq<char>>::empty());
        }
        assert forall|k: Seq<char>| #[trigger] map_get(runtime_env, k) == (match deref_opt(rf0) {
            Some(f) => map_get(f.runtime_env, k),
            None => None,
        }) by {
            if rf0 is None {
                assert(lookup(runtime_env.pairs(), k) is None);
            }
        }
    }
    Ok(
        EmitPackage {
            name: a.name,
            version: a.version,
            deps,
            wheels: a.wheels,
            overlay,
            entry_points,
            visibility,
            labels,
            runtime_env,
        },
    )
}

/// The smallest name, if there is any.
pub open spec fn first_name(names: Seq<Seq<char>>) -> Option<Seq<char>> {
    if names.len() == 0 {
        None
    } else {
        Some(choose|x: Seq<char>| names.contains(x) && forall|y: Seq<char>| #[trigger] names.contains(y) ==> seq_le(x, y))
    }
}

proof fn lemma_first_name(s: Seq<Seq<char>>, names: Seq<Seq<char>>)
    requires
        s.len() > 0,
        sorted_le(s),
        s.to_multiset() == names.to_multiset(),
    ensures
        first_name(names) == Some(s[0]),
{
    vstd::seq_lib::to_multiset_contains(s, s[0]);
    vstd::seq_lib::to_multiset_contains(names, s[0]);
    assert(s.contains(s[0]));
    vstd::seq_lib::to_multiset_len(s);
    vstd::seq_lib::to_multiset_len(names);
    assert forall|y: Seq<char>| #[trigger] names.contains(y) implies seq_le(s[0], y) by {
        vstd::seq_lib::to_multiset_contains(names, y);
        vstd::seq_lib::to_multiset_contains(s, y);
        let j = choose|j: int| 0 <= j < s.len() && s[j] == y;
        if j > 0 {
            assert(seq_le(s[0], s[j]));
        }
    }
    let x = choose|x: Seq<char>| names.contains(x) && forall|y: Seq<char>| #[trigger] names.contains(y) ==> seq_le(x, y);
    assert(seq_le(x, s[0]));
    assert(seq_le(s[0], x));
    if x != s[0] {
        lemma_seq_lt_asymmetric(x, s[0]);
    }
}

/// The first lockfile package named `name` at `version`.
fn find_lock_pkg<'a>(ps: &'a Vec<Package>, name: &str, version: &str) -> (r: Option<&'a Package>)
    ensures
        deref_opt(r) == lock_pkg(ps@, name@, version@),
{
    let mut i: usize = 0;
    while i < ps.len()
        invariant
            i <= ps@.len(),
            lock_index(ps@.subrange(0, i as int), name@, version@) is None,
        decreases ps@.len() - i,
    {
        proof {
            let t = ps@.subrange(0, i + 1);
            assert(t.drop_last() =~= ps@.subrange(0, i as int));
        }
        if str_eq(ps[i].name.as_str(), name) && str_eq(ps[i].version.as_str(), version) {
            proof {
                lemma_lock_index_prefix(ps@, i + 1, name@, version@);
            }
            return Some(&ps[i]);
        }
        i += 1;
    }
    assert(ps@.subrange(0, i as int) =~= ps@);
    None
}

proof fn lemma_lock_index_prefix(ps: Seq<Package>, n: int, name: Seq<char>, version: Seq<char>)
    requires
        0 <= n <= ps.len(),
        lock_index(ps.subrange(0, n), name, version) is Some,
    ensures
        lock_index(ps, name, version) == lock_index(ps.subrange(0, n), name, version),
    decreases ps.len() - n,
{
    if n < ps.len() {
        let t = ps.subrange(0, n + 1);
        assert(t.drop_last() =~= ps.subrange(0, n));
        lemma_lock_index_prefix(ps, n + 1, name, version);
    } else {
        assert(ps.subrange(0, n) =~= ps);
    }
}

/// The fixup given for package `name` in cell `cell`.
fn fixup_for<'a>(fixups: &'a StrMap<StrMap<ResolvedFixup>>, name: &str, cell: &str) -> (r: Option<&'a ResolvedFixup>)
    requires
        fixups_wf(*fixups),
    ensures
        deref_opt(r) == cell_fixup(*fixups, name@, cell@),
        r matches Some(f) ==> f.wf(),
{
    match fixups.get(name) {
        Some(m) => {
            proof {
                let i = choose|i: int| 0 <= i < fixups.pairs().len() && fixups.pairs()[i].0@ == name@ && fixups.pairs()[i].1
                    == *m;
                assert(fixups.pairs()[i].1.wf());
            }
            let r = m.get(cell);
            proof {
                if r is Some {
                    let i = choose|i: int| 0 <= i < fixups.pairs().len() && fixups.pairs()[i].0@ == name@ && fixups.pairs()[i].1
                        == *m;
                    let j = choose|j: int| 0 <= j < m.pairs().len() && m.pairs()[j].0@ == cell@ && m.pairs()[j].1 == *r->0;
                    assert(fixups.pairs()[i].1.pairs()[j].1.wf());
                }
            }
            r
        },
        None => None,
    }
}

/// The fixup for package `n` in the first cell.
pub open spec fn first_fixup(f: StrMap<StrMap<ResolvedFixup>>, n: Seq<char>, first: Option<Seq<char>>) -> Option<ResolvedFixup> {
    match first {
        Some(c) => cell_fixup(f, n, c),
        None => None,
    }
}

/// The records' package at `i` is the first, in (name, version) order, that
/// its fixup refuses, with error `e`.
pub open spec fn first_post_error(
    rs: Seq<EmitRecord>,
    f: StrMap<StrMap<ResolvedFixup>>,
    first: Option<Seq<char>>,
    overlays: StrMap<Result<Vec<(String, String)>, String>>,
    e: EmitErrorModel,
) -> bool {
    exists|i: int|
        0 <= i < rs.len() && post_error(#[trigger] rs[i].name, first_fixup(f, rs[i].name, first), overlays) == Some(e)
            && forall|j: int|
            0 <= j < rs.len() && pair_lt(rs[j].name, rs[j].version, rs[i].name, rs[i].version) ==> post_error(
                #[trigger] rs[j].name,
                first_fixup(f, rs[j].name, first),
                overlays,
            ) is None
}

/// Some package is `n` at version `v`.
pub open spec fn lists_pair(ps: Seq<EmitPackage>, n: Seq<char>, v: Seq<char>) -> bool {
    exists|a: int| 0 <= a < ps.len() && #[trigger] ps[a].name@ == n && ps[a].version@ == v
}

/// The emitter's packages are the records' packages, sorted by (name,
/// version), each with the last wheel and deps recorded per cell and the
/// fields of its first cell's fixup, which refuses none of them.
pub open spec fn packages_ok(
    ps: Seq<EmitPackage>,
    rs: Seq<EmitRecord>,
    cells: Seq<Seq<char>>,
    f: StrMap<StrMap<ResolvedFixup>>,
    first: Option<Seq<char>>,
    overlays: StrMap<Result<Vec<(String, String)>, String>>,
) -> bool {
    &&& forall|a: int, b: int|
        0 <= a < b < ps.len() ==> pair_lt(#[trigger] ps[a].name@, ps[a].version@, #[trigger] ps[b].name@, ps[b].version@)
    &&& forall|a: int| 0 <= a < ps.len() ==> has_pair(rs, (#[trigger] ps[a]).name@, ps[a].version@)
    &&& forall|i: int| 0 <= i < rs.len() ==> lists_pair(ps, (#[trigger] rs[i]).name, rs[i].version)
    &&& forall|a: int| 0 <= a < ps.len() ==> (#[trigger] ps[a]).wheels.wf()
    &&& forall|a: int, k: Seq<char>|
        0 <= a < ps.len() ==> #[trigger] wheel_at(ps[a].wheels, k) == last_wheel(rs, ps[a].name@, ps[a].version@, k)
    &&& forall|a: int| 0 <= a < ps.len() ==> deps_ok((#[trigger] ps[a]).deps, rs, ps[a].name@, ps[a].version@, cells)
    &&& forall|a: int|
        0 <= a < ps.len() ==> fields_ok(#[trigger] ps[a], first_fixup(f, ps[a].name@, first), overlays)
    &&& forall|i: int| 0 <= i < rs.len() ==> post_error(#[trigger] rs[i].name, first_fixup(f, rs[i].name, first), overlays) is None
}

/// The lockfile names no package twice and every dependency is listed.
pub open spec fn lock_ok(ps: Seq<Package>) -> bool {
    !(exists|n: Seq<char>| is_dup_name(names_of(ps), n)) && !(exists|i: int, k: int| unresolved_at(ps, i, k))
}

/// Completes the gathered packages in order; the first refused one fails.
#[verifier::rlimit(30)]
fn finish_all(
    acc: Vec<PkgAcc>,
    configs: &Vec<ConfigName>,
    first_cfg: Option<&ConfigName>,
    fixups: &StrMap<StrMap<ResolvedFixup>>,
    overlays: &StrMap<OverlayFiles>,
    Ghost(rsf): Ghost<Seq<EmitRecord>>,
    Ghost(first): Ghost<Option<Seq<char>>>,
) -> (r: Result<Vec<EmitPackage>, EmitError>)
    requires
        acc_inv(acc@, rsf),
        fixups_wf(*fixups),
        overlays.wf(),
        first == (match first_cfg {
            Some(c) => Some(c@),
            None => None,
        }),
    ensures
        match r {
            Ok(ps) => packages_ok(ps@, rsf, names_view(configs@), *fixups, first, *overlays),
            Err(e) => first_post_error(rsf, *fixups, first, *overlays, e@),
        },
{
    let ghost acc0 = acc@;
    let mut acc = acc;
    let mut packages: Vec<EmitPackage> = Vec::new();
    let mut i: usize = 0;
    let total = acc.len();
    while i < total
        invariant
            i <= total,
            total == acc0.len(),
            acc@ == acc0.subrange(i as int, total as int),
            acc_inv(acc0, rsf),
            fixups_wf(*fixups),
            overlays.wf(),
            first == (match first_cfg {
                Some(c) => Some(c@),
                None => None,
            }),
            packages@.len() == i,
            forall|a: int| 0 <= a < i ==> (#[trigger] packages@[a]).name@ == acc0[a].name@ && packages@[a].version@ == acc0[a].version@
                && packages@[a].wheels == acc0[a].wheels,
            forall|a: int| 0 <= a < i ==> deps_ok((#[trigger] packages@[a]).deps, rsf, packages@[a].name@, packages@[a].version@, names_view(configs@)),
            forall|a: int| 0 <= a < i ==> fields_ok(#[trigger] packages@[a], first_fixup(*fixups, packages@[a].name@, first), *overlays),
            forall|a: int| 0 <= a < i ==> post_error(#[trigger] acc0[a].name@, first_fixup(*fixups, acc0[a].name@, first), *overlays) is None,
        decreases total - i,
    {
        let a = acc.remove(0);
        assert(a == acc0[i as int]);
        let rf0: Option<&ResolvedFixup> = match first_cfg {
            Some(c) => fixup_for(fixups, a.name.as_str(), c.as_str()),
            None => None,
        };
        assert(deref_opt(rf0) == first_fixup(*fixups, a.name@, first));
        match finish_package(a, configs, rf0, overlays, Ghost(rsf)) {
            Ok(p) => {
                packages.push(p);
            },
            Err(e) => {
                proof {
                    lemma_first_refused(acc0, rsf, *fixups, first, *overlays, i as int, e@);
                }
                return Err(e);
            },
        }
        i += 1;
    }
    proof {
        lemma_packages_sorted(acc0, packages@, rsf);
        lemma_packages_cover(acc0, packages@, rsf);
        lemma_packages_wheels(acc0, packages@, rsf);
        lemma_none_refused(acc0, rsf, *fixups, first, *overlays);
    }
    Ok(packages)
}

proof fn lemma_first_refused(
    acc0: Seq<PkgAcc>,
    rsf: Seq<EmitRecord>,
    fixups: StrMap<StrMap<ResolvedFixup>>,
    first: Option<Seq<char>>,
    overlays: StrMap<Result<Vec<(String, String)>, String>>,
    i: int,
    e: EmitErrorModel,
)
    requires
        acc_inv(acc0, rsf),
        0 <= i < acc0.len(),
        post_error(acc0[i].name@, first_fixup(fixups, acc0[i].name@, first), overlays) == Some(e),
        forall|a: int| 0 <= a < i ==> post_error(#[trigger] acc0[a].name@, first_fixup(fixups, acc0[a].name@, first), overlays) is None,
    ensures
        first_post_error(rsf, fixups, first, overlays, e),
{
    assert(has_pair(rsf, acc0[i].name@, acc0[i].version@));
    let pick = choose|k: int| 0 <= k < rsf.len() && #[trigger] rsf[k].name == acc0[i].name@ && rsf[k].version == acc0[i].version@;
    assert forall|k: int|
        0 <= k < rsf.len() && pair_lt(rsf[k].name, rsf[k].version, rsf[pick].name, rsf[pick].version) implies post_error(
        #[trigger] rsf[k].name,
        first_fixup(fixups, rsf[k].name, first),
        overlays,
    ) is None by {
        let b = choose|b: int| 0 <= b < acc0.len() && #[trigger] acc0[b].name@ == (#[trigger] rsf[k]).name && acc0[b].version@ == rsf[k].version;
        if b >= i {
            lemma_pair_lt_irreflexive(acc0[b].name@, acc0[b].version@);
            if b > i {
                assert(pair_lt(acc0[i].name@, acc0[i].version@, acc0[b].name@, acc0[b].version@));
                lemma_pair_lt_transitive(acc0[b].name@, acc0[b].version@, acc0[i].name@, acc0[i].version@, acc0[b].name@, acc0[b].version@);
            }
        }
    }
}

proof fn lemma_packages_sorted(acc0: Seq<PkgAcc>, ps: Seq<EmitPackage>, rsf: Seq<EmitRecord>)
    requires
        acc_inv(acc0, rsf),
        ps.len() == acc0.len(),
        forall|a: int| 0 <= a < ps.len() ==> (#[trigger] ps[a]).name@ == acc0[a].name@ && ps[a].version@ == acc0[a].version@,
    ensures
        forall|a: int, b: int|
            0 <= a < b < ps.len() ==> pair_lt(#[trigger] ps[a].name@, ps[a].version@, #[trigger] ps[b].name@, ps[b].version@),
        forall|a: int| 0 <= a < ps.len() ==> has_pair(rsf, (#[trigger] ps[a]).name@, ps[a].version@),
{
    assert forall|a: int, b: int| 0 <= a < b < ps.len() implies pair_lt(#[trigger] ps[a].name@, ps[a].version@, #[trigger] ps[b].name@, ps[b].version@) by {
        assert(pair_lt(acc0[a].name@, acc0[a].version@, acc0[b].name@, acc0[b].version@));
    }
    assert forall|a: int| 0 <= a < ps.len() implies has_pair(rsf, (#[trigger] ps[a]).name@, ps[a].version@) by {
        assert(has_pair(rsf, acc0[a].name@, acc0[a].version@));
    }
}

proof fn lemma_packages_cover(acc0: Seq<PkgAcc>, ps: Seq<EmitPackage>, rsf: Seq<EmitRecord>)
    requires
        acc_inv(acc0, rsf),
        ps.len() == acc0.len(),
        forall|a: int| 0 <= a < ps.len() ==> (#[trigger] ps[a]).name@ == acc0[a].name@ && ps[a].version@ == acc0[a].version@,
    ensures
        forall|i: int| 0 <= i < rsf.len() ==> lists_pair(ps, (#[trigger] rsf[i]).name, rsf[i].version),
{
    assert forall|k: int| 0 <= k < rsf.len() implies lists_pair(ps, (#[trigger] rsf[k]).name, rsf[k].version) by {
        let b = choose|b: int| 0 <= b < acc0.len() && #[trigger] acc0[b].name@ == (#[trigger] rsf[k]).name && acc0[b].version@ == rsf[k].version;
        assert(ps[b].name@ == acc0[b].name@);
    }
}

proof fn lemma_packages_wheels(acc0: Seq<PkgAcc>, ps: Seq<EmitPackage>, rsf: Seq<EmitRecord>)
    requires
        acc_inv(acc0, rsf),
        ps.len() == acc0.len(),
        forall|a: int| 0 <= a < ps.len() ==> (#[trigger] ps[a]).name@ == acc0[a].name@ && ps[a].version@ == acc0[a].version@
            && ps[a].wheels == acc0[a].wheels,
    ensures
        forall|a: int| 0 <= a < ps.len() ==> (#[trigger] ps[a]).wheels.wf(),
        forall|a: int, k: Seq<char>|
            0 <= a < ps.len() ==> #[trigger] wheel_at(ps[a].wheels, k) == last_wheel(rsf, ps[a].name@, ps[a].version@, k),
{
    assert forall|a: int| 0 <= a < ps.len() implies (#[trigger] ps[a]).wheels.wf() by {
        assert(acc0[a].wheels.wf());
    }
    assert forall|a: int, k: Seq<char>| 0 <= a < ps.len() implies #[trigger] wheel_at(ps[a].wheels, k) == last_wheel(rsf, ps[a].name@, ps[a].version@, k) by {
        assert(wheel_at(acc0[a].wheels, k) == last_wheel(rsf, acc0[a].name@, acc0[a].version@, k));
    }
}

proof fn lemma_none_refused(
    acc0: Seq<PkgAcc>,
    rsf: Seq<EmitRecord>,
    fixups: StrMap<StrMap<ResolvedFixup>>,
    first: Option<Seq<char>>,
    overlays: StrMap<Result<Vec<(String, String)>, String>>,
)
    requires
        acc_inv(acc0, rsf),
        forall|a: int| 0 <= a < acc0.len() ==> post_error(#[trigger] acc0[a].name@, first_fixup(fixups, acc0[a].name@, first), overlays) is None,
    ensures
        forall|i: int| 0 <= i < rsf.len() ==> post_error(#[trigger] rsf[i].name, first_fixup(fixups, rsf[i].name, first), overlays) is None,
{
    assert forall|k: int| 0 <= k < rsf.len() implies post_error(#[trigger] rsf[k].name, first_fixup(fixups, rsf[k].name, first), overlays) is None by {
        let b = choose|b: int| 0 <= b < acc0.len() && #[trigger] acc0[b].name@ == (#[trigger] rsf[k]).name && acc0[b].version@ == rsf[k].version;
        assert(post_error(acc0[b].name@, first_fixup(fixups, acc0[b].name@, first), overlays) is None);
    }
}

/// The sources the composition reads, as one value.
pub open spec fn sources_of(
    config: Config,
    view: ResolvedView,
    compat: Seq<CompatibleTags>,
    lockfile: Lockfile,
    manifest: Option<Manifest>,
    fixups: StrMap<StrMap<ResolvedFixup>>,
) -> EmitSources {
    EmitSources { config, view, compat: compat.map_values(|c: CompatibleTags| c@), lockfile, manifest, fixups }
}

/// What [`build_emit_input`] gives for these arguments: the lockfile's
/// graph errors and cycles first; then each cell's records in order, the first
/// refused cell or package failing; then the packages completed from the
/// records, with the tree, directory and sorted cell names of the config.
pub open spec fn emitted(
    config: Config,
    tree: Tree,
    lockfile: Lockfile,
    view: ResolvedView,
    compat: Seq<CompatibleTags>,
    manifest: Option<Manifest>,
    fixups: StrMap<StrMap<ResolvedFixup>>,
    overlays: StrMap<OverlayFiles>,
    r: Result<EmitInput, EmitError>,
) -> bool {
    let src = sources_of(config, view, compat, lockfile, manifest, fixups);
    let first = first_name(config_names(config.platforms.pairs(), tree.python_versions@));
    let n = view.configs@.len() as int;
    match r {
        Ok(inp) => {
            &&& lock_ok(lockfile.packages@)
            &&& lock_cycles(lockfile.packages@).len() == 0
            &&& inp.tree@ == tree.name@
            &&& inp.third_party_dir@ == tree.third_party_dir@
            &&& sorted_le(names_view(inp.configs@))
            &&& names_view(inp.configs@).to_multiset() == config_names(
                config.platforms.pairs(),
                tree.python_versions@,
            ).to_multiset()
            &&& outcomes(src, n) matches Ok(rs) && packages_ok(inp.packages@, rs, names_view(inp.configs@), fixups, first, overlays)
        },
        Err(EmitError::Lockfile(e)) => build_error(lockfile.packages@, e) || ({
            &&& lock_ok(lockfile.packages@)
            &&& e matches LockfileError::Cycle(c)
            &&& c@.len() > 0
            &&& forall|a: int, b: int| 0 <= a < b < c@.len() ==> strs_le(nested(c@)[a], nested(c@)[b])
            &&& nested(c@).to_multiset() == lock_cycles(lockfile.packages@).to_multiset()
        }),
        Err(e) => {
            &&& lock_ok(lockfile.packages@)
            &&& lock_cycles(lockfile.packages@).len() == 0
            &&& (outcomes(src, n) == Err::<Seq<EmitRecord>, EmitErrorModel>(e@) || (outcomes(src, n) matches Ok(rs)
                && first_post_error(rs, fixups, first, overlays, e@)))
        },
    }
}

/// Composes the emitter's input for one tree.
///
/// `view` is the dependency graph projected on each (platform, python) cell,
/// with `compat[c]` the compatible tags of its cell `c`; `fixups` holds, by
/// package name and then by cell name, the fixup resolved for that cell;
/// `overlays` holds, by package name, the discovered overlay files of each
/// package whose fixup names an overlay (a package missing there gets none).
///
/// The lockfile's graph must build and have no cycle. Then each cell, in
/// order, must name a platform of the config and a python version that
/// parses, and each of its packages becomes a record or is skipped, or fails
/// (see [`decide_spec`]); the first failure is the error. The records give
/// one package per (name, version), sorted, with the last wheel and raw deps
/// recorded for each cell; the first package (in that order) that its first
/// cell's fixup refuses (see [`post_error`]) gives the error.
pub fn build_emit_input(
    config: &Config,
    tree: &Tree,
    lockfile: &Lockfile,
    view: &ResolvedView,
    compat: &Vec<CompatibleTags>,
    manifest: Option<&Manifest>,
    fixups: &StrMap<StrMap<ResolvedFixup>>,
    overlays: &StrMap<OverlayFiles>,
) -> (r: Result<EmitInput, EmitError>)
    requires
        compat@.len() == view.configs@.len(),
        config.platforms.wf(),
        fixups_wf(*fixups),
        overlays.wf(),
    ensures
        emitted(*config, *tree, *lockfile, *view, compat@, deref_opt(manifest), *fixups, *overlays, r),
{
    let ghost src = sources_of(*config, *view, compat@, *lockfile, deref_opt(manifest), *fixups);
    let ghost first = first_name(config_names(config.platforms.pairs(), tree.python_versions@));
    let graph = match crate::lock::graph::build(lockfile) {
        Ok(g) => g,
        Err(e) => {
            return Err(EmitError::Lockfile(e));
        },
    };
    proof {
        lemma_graph_is_lockfile(lockfile.packages@, graph);
    }
    match crate::lock::graph::detect_cycles(&graph) {
        Ok(_) => {},
        Err(e) => {
            return Err(EmitError::Lockfile(e));
        },
    }
    let configs = cell_configs(config, tree);
    let mut acc: Vec<PkgAcc> = Vec::new();
    let ghost mut rs: Seq<EmitRecord> = Seq::empty();
    let mut c: usize = 0;
    while c < view.configs.len()
        invariant
            c <= view.configs@.len(),
            compat@.len() == view.configs@.len(),
            config.platforms.wf(),
            fixups_wf(*fixups),
            src == sources_of(*config, *view, compat@, *lockfile, deref_opt(manifest), *fixups),
            lock_ok(lockfile.packages@),
            lock_cycles(lockfile.packages@).len() == 0,
            outcomes(src, c as int) == Ok::<Seq<EmitRecord>, EmitErrorModel>(rs),
            acc_inv(acc@, rs),
        decreases view.configs@.len() - c,
    {
        let rc = &view.configs[c];
        if config.platforms.get(rc.platform.as_str()).is_none() {
            let e = EmitError::PlatformMissing { platform: rc.platform.clone() };
            proof {
                assert(cell_check(src, c as int) == Some(e@));
                assert(outcomes(src, c + 1) == Err::<Seq<EmitRecord>, EmitErrorModel>(e@));
                lemma_outcomes_err(src, c + 1, view.configs@.len() as int);
            }
            return Err(e);
        }
        match PythonVersion::parse(rc.python_version.as_str()) {
            Ok(_) => {},
            Err(m) => {
                let e = EmitError::BadPythonVersion(m);
                proof {
                    assert(cell_check(src, c as int) == Some(e@));
                    assert(outcomes(src, c + 1) == Err::<Seq<EmitRecord>, EmitErrorModel>(e@));
                    lemma_outcomes_err(src, c + 1, view.configs@.len() as int);
                }
                return Err(e);
            },
        }
        assert(cell_check(src, c as int) is None);
        let cfg = ConfigName::new(rc.python_version.as_str(), rc.platform.as_str());
        assert(cfg@ == cell_name(*view, c as int));
        let ghost rs0 = rs;
        let mut j: usize = 0;
        while j < rc.packages.len()
            invariant
                c < view.configs@.len(),
                j <= rc.packages@.len(),
                *rc == view.configs@[c as int],
                compat@.len() == view.configs@.len(),
                fixups_wf(*fixups),
                cfg@ == cell_name(*view, c as int),
                src == sources_of(*config, *view, compat@, *lockfile, deref_opt(manifest), *fixups),
                lock_ok(lockfile.packages@),
                lock_cycles(lockfile.packages@).len() == 0,
                outcomes(src, c as int) == Ok::<Seq<EmitRecord>, EmitErrorModel>(rs0),
                cell_check(src, c as int) is None,
                cell_outcomes(src, c as int, j as int) matches Ok(rc_rs) && rs == rs0 + rc_rs,
                acc_inv(acc@, rs),
            decreases rc.packages@.len() - j,
        {
            let pkg = &rc.packages[j];
            let lp = find_lock_pkg(&lockfile.packages, pkg.name.as_str(), pkg.version.as_str());
            let rf = fixup_for(fixups, pkg.name.as_str(), cfg.as_str());
            let d = decide_cell(pkg, lp, rf, manifest, &compat[c], &cfg, rc.python_version.as_str(), rc.platform.as_str());
            assert(src.compat[c as int] == compat@[c as int]@);
            assert(decision(src, c as int, j as int) == decide_spec(
                pkg@,
                deref_opt(lp),
                deref_opt(rf),
                deref_opt(manifest),
                compat@[c as int]@,
                cfg@,
                rc.python_version@,
                rc.platform@,
            ));
            match d {
                Err(e) => {
                    proof {
                        assert(cell_outcomes(src, c as int, j + 1) == Err::<Seq<EmitRecord>, EmitErrorModel>(e@));
                        lemma_cell_outcomes_err(src, c as int, j + 1, rc.packages@.len() as int);
                        assert(outcomes(src, c + 1) == Err::<Seq<EmitRecord>, EmitErrorModel>(e@));
                        lemma_outcomes_err(src, c + 1, view.configs@.len() as int);
                    }
                    return Err(e);
                },
                Ok(None) => {},
                Ok(Some((w, dd))) => {
                    let ghost rec = EmitRecord {
                        name: pkg.name@,
                        version: pkg.version@,
                        cell: cfg@,
                        choice: CellChoice { wheel: w@, deps: strings_view(dd@) },
                    };
                    record(&mut acc, &pkg.name, &pkg.version, &cfg, w, dd, Ghost(rs));
                    proof {
                        let rc_rs = cell_outcomes(src, c as int, j as int)->Ok_0;
                        assert(rs.push(rec) =~= rs0 + rc_rs.push(rec));
                        rs = rs.push(rec);
                    }
                },
            }
            j += 1;
        }
        proof {
            let rc_rs = cell_outcomes(src, c as int, j as int)->Ok_0;
            assert(outcomes(src, c + 1) == Ok::<Seq<EmitRecord>, EmitErrorModel>(rs0 + rc_rs));
        }
        c += 1;
    }
    proof {
        if configs@.len() > 0 {
            lemma_first_name(names_view(configs@), config_names(config.platforms.pairs(), tree.python_versions@));
        } else {
            vstd::seq_lib::to_multiset_len(names_view(configs@));
            vstd::seq_lib::to_multiset_len(config_names(config.platforms.pairs(), tree.python_versions@));
        }
    }
    let first_cfg: Option<&ConfigName> = if configs.len() > 0 {
        Some(&configs[0])
    } else {
        None
    };
    let packages = match finish_all(acc, &configs, first_cfg, fixups, overlays, Ghost(rs), Ghost(first)) {
        Ok(ps) => ps,
        Err(e) => {
            return Err(e);
        },
    };
    Ok(
        EmitInput {
            tree: tree.name.clone(),
            third_party_dir: tree.third_party_dir.clone(),
            configs,
            packages,
        },
    )
}


/// The tags a cell accepts, most preferred first, as
/// [`build_compatible_tags`] lists them for its platform and interpreter;
/// none where the platform is not in the config or the version does not
/// parse.
pub open spec fn cell_tag_order(config: Config, c: ResolvedConfig) -> Seq<TagModel> {
    match (lookup(config.platforms.pairs(), c.platform@), python_version_spec(c.python_version@)) {
        (Some(p), Ok(v)) => compatible_order(p, v),
        _ => Seq::empty(),
    }
}

/// The compatible tags of each cell of a projection, in cell order.
pub fn cell_compat_tags(config: &Config, view: &ResolvedView) -> (r: Vec<CompatibleTags>)
    requires
        config.platforms.wf(),
    ensures
        r@.len() == view.configs@.len(),
        forall|i: int| 0 <= i < r@.len() ==> #[trigger] r@[i]@ == cell_tag_order(*config, view.configs@[i]),
{
    let mut out: Vec<CompatibleTags> = Vec::new();
    let mut i: usize = 0;
    while i < view.configs.len()
        invariant
            i <= view.configs@.len(),
            config.platforms.wf(),
            out@.len() == i,
            forall|k: int| 0 <= k < i ==> #[trigger] out@[k]@ == cell_tag_order(*config, view.configs@[k]),
        decreases view.configs@.len() - i,
    {
        let c = &view.configs[i];
        let tags = match (config.platforms.get(c.platform.as_str()), PythonVersion::parse(c.python_version.as_str())) {
            (Some(p), Ok(v)) => build_compatible_tags(p, v),
            _ => {
                let t = CompatibleTags::from_ordered(Vec::new());
                assert(t@ =~= Seq::<TagModel>::empty());
                t
            },
        };
        out.push(tags);
        i += 1;
    }
    out
}

/// Composes the emitter's input for one tree from the lockfile itself: its
/// graph projected on each cell of the config and the tree (the cells'
/// reachable packages as [`project`] gives them), each cell's compatible
/// tags as [`cell_tag_order`] lists them, then [`build_emit_input`].
/// A lockfile whose graph cannot be built gives that error.
pub fn emit_tree(
    config: &Config,
    tree: &Tree,
    lockfile: &Lockfile,
    manifest: Option<&Manifest>,
    fixups: &StrMap<StrMap<ResolvedFixup>>,
    overlays: &StrMap<OverlayFiles>,
) -> (r: Result<EmitInput, EmitError>)
    requires
        config.platforms.wf(),
        fixups_wf(*fixups),
        overlays.wf(),
    ensures
        !lock_ok(lockfile.packages@) ==> (r matches Err(EmitError::Lockfile(e)) && build_error(lockfile.packages@, e)),
        lock_ok(lockfile.packages@) ==> exists|nodes: Seq<GraphNode>, view: ResolvedView, compat: Seq<CompatibleTags>| {
            &&& #[trigger] lock_nodes(lockfile.packages@, nodes)
            &&& projection(
                nodes,
                first_party_nodes(lockfile.packages@),
                strings_view(config.lockfile.include_groups@),
                config.platforms.pairs(),
                tree.python_versions@,
                view.configs@,
            )
            &&& compat.len() == view.configs@.len()
            &&& forall|i: int| 0 <= i < compat.len() ==> #[trigger] compat[i]@ == cell_tag_order(*config, view.configs@[i])
            &&& #[trigger] emitted(*config, *tree, *lockfile, view, compat, deref_opt(manifest), *fixups, *overlays, r)
        },
        r matches Ok(inp) ==> forall|a: int| 0 <= a < inp.packages@.len() ==> (#[trigger] inp.packages@[a]).wheels.pairs().len() > 0,
        r matches Ok(inp) ==> forall|a: int, k: Seq<char>| 0 <= a < inp.packages@.len() && #[trigger] wheel_at(inp.packages@[a].wheels, k) is Some
            ==> names_view(inp.configs@).contains(k),
        r matches Ok(inp) ==> forall|a: int, k: Seq<char>| 0 <= a < inp.packages@.len() && inp.packages@[a].deps is PerCell
            ==> (#[trigger] per_cell_has(inp.packages@[a].deps, k) <==> names_view(inp.configs@).contains(k)),
{
    let graph = match build(lockfile) {
        Ok(g) => g,
        Err(e) => {
            return Err(EmitError::Lockfile(e));
        },
    };
    proof {
        lemma_graph_is_lockfile(lockfile.packages@, graph);
    }
    let view = project(&graph, config, tree);
    let compat = cell_compat_tags(config, &view);
    let r = build_emit_input(config, tree, lockfile, &view, &compat, manifest, fixups, overlays);
    proof {
        assert(lock_nodes(lockfile.packages@, graph.nodes@));
        assert(emitted(*config, *tree, *lockfile, view, compat@, deref_opt(manifest), *fixups, *overlays, r));
        if r is Ok {
            let inp = r->Ok_0;
            law_emitted_wheels_cover_cells(*config, *tree, *lockfile, view, compat@, deref_opt(manifest), *fixups, *overlays, inp);
            lemma_emit_tree_keys(*config, *tree, view, graph.nodes@, graph.roots@, inp);
            law_emitted_dep_cells(*config, *tree, *lockfile, view, compat@, deref_opt(manifest), *fixups, *overlays, inp);
            lemma_emit_tree_dep_keys(*config, *tree, view, graph.nodes@, graph.roots@, inp);
        }
    }
    r
}


/// Record `i` was made in a cell before `m`.
pub open spec fn cell_before(src: EmitSources, cell: Seq<char>, m: int) -> bool {
    exists|c: int| 0 <= c < m && #[trigger] cell_name(src.view, c) == cell
}

proof fn lemma_cell_records(src: EmitSources, c: int, n: int)
    requires
        cell_outcomes(src, c, n) is Ok,
    ensures
        forall|i: int| 0 <= i < cell_outcomes(src, c, n)->Ok_0.len() ==> (#[trigger] cell_outcomes(src, c, n)->Ok_0[i]).cell == cell_name(src.view, c),
    decreases n,
{
    if n > 0 {
        lemma_cell_records(src, c, n - 1);
    }
}

proof fn lemma_records_cells(src: EmitSources, m: int)
    requires
        outcomes(src, m) is Ok,
    ensures
        forall|i: int| 0 <= i < outcomes(src, m)->Ok_0.len() ==> cell_before(src, (#[trigger] outcomes(src, m)->Ok_0[i]).cell, m),
    decreases m,
{
    if m > 0 {
        lemma_records_cells(src, m - 1);
        let rs = outcomes(src, m - 1)->Ok_0;
        let k = src.view.configs@[m - 1].packages@.len() as int;
        lemma_cell_records(src, m - 1, k);
        let all = outcomes(src, m)->Ok_0;
        assert forall|i: int| 0 <= i < all.len() implies cell_before(src, (#[trigger] all[i]).cell, m) by {
            if i < rs.len() {
                assert(all[i] == rs[i]);
                let c = choose|c: int| 0 <= c < m - 1 && #[trigger] cell_name(src.view, c) == rs[i].cell;
                assert(cell_name(src.view, c) == all[i].cell);
            } else {
                let rs2 = cell_outcomes(src, m - 1, k)->Ok_0;
                assert(all[i] == rs2[i - rs.len()]);
                assert(cell_name(src.view, m - 1) == all[i].cell);
            }
        }
    }
}

proof fn lemma_last_wheel_found(rs: Seq<EmitRecord>, i: int)
    requires
        0 <= i < rs.len(),
    ensures
        last_wheel(rs, rs[i].name, rs[i].version, rs[i].cell) is Some,
    decreases rs.len(),
{
    if i < rs.len() - 1 {
        let r = rs[i];
        if !(rs.last().name == r.name && rs.last().version == r.version && rs.last().cell == r.cell) {
            lemma_last_wheel_found(rs.drop_last(), i);
            assert(rs.drop_last()[i] == r);
        }
    }
}

proof fn lemma_last_wheel_cell(rs: Seq<EmitRecord>, n: Seq<char>, v: Seq<char>, k: Seq<char>)
    requires
        last_wheel(rs, n, v, k) is Some,
    ensures
        exists|i: int| 0 <= i < rs.len() && (#[trigger] rs[i]).cell == k,
    decreases rs.len(),
{
    if !(rs.last().name == n && rs.last().version == v && rs.last().cell == k) {
        lemma_last_wheel_cell(rs.drop_last(), n, v, k);
        let i = choose|i: int| 0 <= i < rs.drop_last().len() && (#[trigger] rs.drop_last()[i]).cell == k;
        assert(rs[i] == rs.drop_last()[i]);
    } else {
        assert(rs[rs.len() - 1].cell == k);
    }
}

/// Every package that the emitter's input holds has at least one wheel,
/// and every cell it has a wheel for is a cell of the view.
pub proof fn law_emitted_wheels_cover_cells(
    config: Config,
    tree: Tree,
    lockfile: Lockfile,
    view: ResolvedView,
    compat: Seq<CompatibleTags>,
    manifest: Option<Manifest>,
    fixups: StrMap<StrMap<ResolvedFixup>>,
    overlays: StrMap<OverlayFiles>,
    inp: EmitInput,
)
    requires
        emitted(config, tree, lockfile, view, compat, manifest, fixups, overlays, Ok(inp)),
    ensures
        forall|a: int| 0 <= a < inp.packages@.len() ==> (#[trigger] inp.packages@[a]).wheels.pairs().len() > 0,
        forall|a: int, k: Seq<char>| 0 <= a < inp.packages@.len() && #[trigger] wheel_at(inp.packages@[a].wheels, k) is Some
            ==> exists|c: int| 0 <= c < view.configs@.len() && #[trigger] cell_name(view, c) == k,
{
    let src = sources_of(config, view, compat, lockfile, manifest, fixups);
    let n = view.configs@.len() as int;
    let rs = outcomes(src, n)->Ok_0;
    let ps = inp.packages@;
    lemma_records_cells(src, n);
    assert forall|a: int| 0 <= a < ps.len() implies (#[trigger] ps[a]).wheels.pairs().len() > 0 by {
        assert(has_pair(rs, ps[a].name@, ps[a].version@));
        let i = choose|i: int| 0 <= i < rs.len() && #[trigger] rs[i].name == ps[a].name@ && rs[i].version == ps[a].version@;
        lemma_last_wheel_found(rs, i);
        assert(wheel_at(ps[a].wheels, rs[i].cell) == last_wheel(rs, ps[a].name@, ps[a].version@, rs[i].cell));
        if ps[a].wheels.pairs().len() == 0 {
            assert(lookup(ps[a].wheels.pairs(), rs[i].cell) is None);
        }
    }
    assert forall|a: int, k: Seq<char>| 0 <= a < ps.len() && #[trigger] wheel_at(ps[a].wheels, k) is Some
        implies exists|c: int| 0 <= c < n && #[trigger] cell_name(view, c) == k by {
        assert(wheel_at(ps[a].wheels, k) == last_wheel(rs, ps[a].name@, ps[a].version@, k));
        lemma_last_wheel_cell(rs, ps[a].name@, ps[a].version@, k);
        let i = choose|i: int| 0 <= i < rs.len() && (#[trigger] rs[i]).cell == k;
        assert(cell_before(src, rs[i].cell, n));
        let c = choose|c: int| 0 <= c < n && #[trigger] cell_name(src.view, c) == rs[i].cell;
        assert(cell_name(view, c) == k);
    }
}


proof fn lemma_product_key(names: Seq<Seq<char>>, vs: Seq<PythonVersion>, key: (Seq<char>, Seq<char>))
    requires
        product_keys(names, vs).contains(key),
    ensures
        exists|p: int, q: int| 0 <= p < names.len() && 0 <= q < vs.len() && key == (#[trigger] names[p], py_text(#[trigger] vs[q])),
    decreases names.len(),
{
    let prev = product_keys(names.drop_last(), vs);
    let row = row_keys(names.last(), vs);
    let i = choose|i: int| 0 <= i < product_keys(names, vs).len() && product_keys(names, vs)[i] == key;
    if i < prev.len() {
        assert(prev[i] == key);
        lemma_product_key(names.drop_last(), vs, key);
        let (p, q) = choose|p: int, q: int| 0 <= p < names.drop_last().len() && 0 <= q < vs.len() && key == (#[trigger] names.drop_last()[p], py_text(#[trigger] vs[q]));
        assert(names[p] == names.drop_last()[p]);
    } else {
        let q = i - prev.len();
        assert(row[q] == key);
        assert(key == (names[names.len() - 1], py_text(vs[q])));
    }
}

proof fn lemma_config_name_listed(ps: Seq<(String, Platform)>, vs: Seq<PythonVersion>, p: int, q: int)
    requires
        0 <= p < ps.len(),
        0 <= q < vs.len(),
    ensures
        config_names(ps, vs).contains(config_name_spec(py_text(vs[q]), ps[p].0@)),
    decreases ps.len(),
{
    let prev = config_names(ps.drop_last(), vs);
    let row = names_for(ps.last().0@, vs);
    let x = config_name_spec(py_text(vs[q]), ps[p].0@);
    if p < ps.len() - 1 {
        lemma_config_name_listed(ps.drop_last(), vs, p, q);
        assert(ps.drop_last()[p] == ps[p]);
        let i = choose|i: int| 0 <= i < prev.len() && prev[i] == x;
        assert(config_names(ps, vs)[i] == x);
    } else {
        assert(row[q] == x);
        assert(config_names(ps, vs)[prev.len() + q] == x);
    }
}

/// Under a projection of the config's platforms and the tree's versions,
/// every cell of the view is one of the config's cell names.
proof fn lemma_view_cells_named(
    config: Config,
    tree: Tree,
    view: ResolvedView,
    nodes: Seq<GraphNode>,
    roots: Seq<usize>,
    c: int,
)
    requires
        projection(
            nodes,
            roots,
            strings_view(config.lockfile.include_groups@),
            config.platforms.pairs(),
            tree.python_versions@,
            view.configs@,
        ),
        0 <= c < view.configs@.len(),
    ensures
        config_names(config.platforms.pairs(), tree.python_versions@).contains(cell_name(view, c)),
{
    let ps = config.platforms.pairs();
    let names = ps.map_values(|p: (String, Platform)| p.0@);
    let vs = tree.python_versions@;
    let key = cell_keys(view.configs@)[c];
    cell_keys(view.configs@).to_multiset_ensures();
    product_keys(names, vs).to_multiset_ensures();
    assert(cell_keys(view.configs@).contains(key));
    assert(product_keys(names, vs).to_multiset().count(key) > 0);
    assert(product_keys(names, vs).contains(key));
    lemma_product_key(names, vs, key);
    let (p, q) = choose|p: int, q: int| 0 <= p < names.len() && 0 <= q < vs.len() && key == (#[trigger] names[p], py_text(#[trigger] vs[q]));
    lemma_config_name_listed(ps, vs, p, q);
}


proof fn lemma_emit_tree_keys(
    config: Config,
    tree: Tree,
    view: ResolvedView,
    nodes: Seq<GraphNode>,
    roots: Seq<usize>,
    inp: EmitInput,
)
    requires
        projection(
            nodes,
            roots,
            strings_view(config.lockfile.include_groups@),
            config.platforms.pairs(),
            tree.python_versions@,
            view.configs@,
        ),
        names_view(inp.configs@).to_multiset() == config_names(config.platforms.pairs(), tree.python_versions@).to_multiset(),
        forall|a: int, k: Seq<char>| 0 <= a < inp.packages@.len() && #[trigger] wheel_at(inp.packages@[a].wheels, k) is Some
            ==> exists|c: int| 0 <= c < view.configs@.len() && #[trigger] cell_name(view, c) == k,
    ensures
        forall|a: int, k: Seq<char>| 0 <= a < inp.packages@.len() && #[trigger] wheel_at(inp.packages@[a].wheels, k) is Some
            ==> names_view(inp.configs@).contains(k),
{
    let cn = config_names(config.platforms.pairs(), tree.python_versions@);
    cn.to_multiset_ensures();
    names_view(inp.configs@).to_multiset_ensures();
    assert forall|a: int, k: Seq<char>| 0 <= a < inp.packages@.len() && #[trigger] wheel_at(inp.packages@[a].wheels, k) is Some
        implies names_view(inp.configs@).contains(k) by {
        let c = choose|c: int| 0 <= c < view.configs@.len() && #[trigger] cell_name(view, c) == k;
        lemma_view_cells_named(config, tree, view, nodes, roots, c);
        assert(cn.contains(k));
        assert(cn.to_multiset().count(k) > 0);
        assert(names_view(inp.configs@).to_multiset().count(k) > 0);
    }
}


proof fn lemma_last_deps_cell(rs: Seq<EmitRecord>, n: Seq<char>, v: Seq<char>, k: Seq<char>)
    requires
        last_deps(rs, n, v, k) is Some,
    ensures
        exists|i: int| 0 <= i < rs.len() && (#[trigger] rs[i]).cell == k,
    decreases rs.len(),
{
    if !(rs.last().name == n && rs.last().version == v && rs.last().cell == k) {
        lemma_last_deps_cell(rs.drop_last(), n, v, k);
        let i = choose|i: int| 0 <= i < rs.drop_last().len() && (#[trigger] rs.drop_last()[i]).cell == k;
        assert(rs[i] == rs.drop_last()[i]);
    } else {
        assert(rs[rs.len() - 1].cell == k);
    }
}

/// A package whose dep lists differ between cells has a list under every
/// cell of the input, and under no cell but those and the view's.
pub proof fn law_emitted_dep_cells(
    config: Config,
    tree: Tree,
    lockfile: Lockfile,
    view: ResolvedView,
    compat: Seq<CompatibleTags>,
    manifest: Option<Manifest>,
    fixups: StrMap<StrMap<ResolvedFixup>>,
    overlays: StrMap<OverlayFiles>,
    inp: EmitInput,
)
    requires
        emitted(config, tree, lockfile, view, compat, manifest, fixups, overlays, Ok(inp)),
    ensures
        forall|a: int, k: Seq<char>| 0 <= a < inp.packages@.len() && names_view(inp.configs@).contains(k)
            && inp.packages@[a].deps is PerCell ==> #[trigger] per_cell_has(inp.packages@[a].deps, k),
        forall|a: int, k: Seq<char>| 0 <= a < inp.packages@.len() && #[trigger] per_cell_has(inp.packages@[a].deps, k)
            ==> names_view(inp.configs@).contains(k) || exists|c: int| 0 <= c < view.configs@.len() && #[trigger] cell_name(view, c) == k,
{
    let src = sources_of(config, view, compat, lockfile, manifest, fixups);
    let n = view.configs@.len() as int;
    let rs = outcomes(src, n)->Ok_0;
    let ps = inp.packages@;
    let cells = names_view(inp.configs@);
    lemma_records_cells(src, n);
    assert forall|a: int, k: Seq<char>| 0 <= a < ps.len() && cells.contains(k) && ps[a].deps is PerCell
        implies #[trigger] per_cell_has(ps[a].deps, k) by {
        assert(deps_ok(ps[a].deps, rs, ps[a].name@, ps[a].version@, cells));
        assert(dep_cell(rs, ps[a].name@, ps[a].version@, cells, k));
    }
    assert forall|a: int, k: Seq<char>| 0 <= a < ps.len() && #[trigger] per_cell_has(ps[a].deps, k)
        implies cells.contains(k) || exists|c: int| 0 <= c < n && #[trigger] cell_name(view, c) == k by {
        assert(deps_ok(ps[a].deps, rs, ps[a].name@, ps[a].version@, cells));
        if !cells.contains(k) {
            assert(last_deps(rs, ps[a].name@, ps[a].version@, k) is Some);
            lemma_last_deps_cell(rs, ps[a].name@, ps[a].version@, k);
            let i = choose|i: int| 0 <= i < rs.len() && (#[trigger] rs[i]).cell == k;
            assert(cell_before(src, rs[i].cell, n));
            let c = choose|c: int| 0 <= c < n && #[trigger] cell_name(src.view, c) == rs[i].cell;
            assert(cell_name(view, c) == k);
        }
    }
}


proof fn lemma_emit_tree_dep_keys(
    config: Config,
    tree: Tree,
    view: ResolvedView,
    nodes: Seq<GraphNode>,
    roots: Seq<usize>,
    inp: EmitInput,
)
    requires
        projection(
            nodes,
            roots,
            strings_view(config.lockfile.include_groups@),
            config.platforms.pairs(),
            tree.python_versions@,
            view.configs@,
        ),
        names_view(inp.configs@).to_multiset() == config_names(config.platforms.pairs(), tree.python_versions@).to_multiset(),
        forall|a: int, k: Seq<char>| 0 <= a < inp.packages@.len() && names_view(inp.configs@).contains(k)
            && inp.packages@[a].deps is PerCell ==> #[trigger] per_cell_has(inp.packages@[a].deps, k),
        forall|a: int, k: Seq<char>| 0 <= a < inp.packages@.len() && #[trigger] per_cell_has(inp.packages@[a].deps, k)
            ==> names_view(inp.configs@).contains(k) || exists|c: int| 0 <= c < view.configs@.len() && #[trigger] cell_name(view, c) == k,
    ensures
        forall|a: int, k: Seq<char>| 0 <= a < inp.packages@.len() && inp.packages@[a].deps is PerCell
            ==> (#[trigger] per_cell_has(inp.packages@[a].deps, k) <==> names_view(inp.configs@).contains(k)),
{
    let cn = config_names(config.platforms.pairs(), tree.python_versions@);
    cn.to_multiset_ensures();
    names_view(inp.configs@).to_multiset_ensures();
    assert forall|a: int, k: Seq<char>| 0 <= a < inp.packages@.len() && inp.packages@[a].deps is PerCell
        implies (#[trigger] per_cell_has(inp.packages@[a].deps, k) <==> names_view(inp.configs@).contains(k)) by {
        if per_cell_has(inp.packages@[a].deps, k) && !names_view(inp.configs@).contains(k) {
            let c = choose|c: int| 0 <= c < view.configs@.len() && #[trigger] cell_name(view, c) == k;
            lemma_view_cells_named(config, tree, view, nodes, roots, c);
            assert(cn.contains(k));
            assert(cn.to_multiset().count(k) > 0);
            assert(names_view(inp.configs@).to_multiset().count(k) > 0);
        }
    }
}


/// Wherever a cell's wheel comes from (the picker, `prefer_wheel` or the
/// prebake manifest), the deps recorded for the cell are the package's
/// resolved deps after its fixup's dep operations.
pub proof fn law_cell_deps_follow_fixup(
    pkg: ResolvedPackageModel,
    lp: Option<Package>,
    rf: Option<ResolvedFixup>,
    manifest: Option<Manifest>,
    compat: Seq<TagModel>,
    cell: Seq<char>,
    python_version: Seq<char>,
    platform: Seq<char>,
)
    ensures
        ({
            let d = decide_spec(pkg, lp, rf, manifest, compat, cell, python_version, platform);
            d is Ok && d->Ok_0 is Some ==> d->Ok_0->Some_0.deps == fixup_deps(pkg.deps, rf)
        }),
{
}

} // verus!
