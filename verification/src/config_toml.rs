//! Reading `muntjac.toml` from TOML text into [`Config`].
//!
//! Fields are read as serde reads them: unknown keys are ignored, missing
//! optional keys take their defaults, and a value of the wrong type is a
//! parse error.

use vstd::prelude::*;

use crate::config::{
    from_raw_error, trees_from_raw, validate_spec,
    python_version_spec, BuckConfig, Config, FixupsConfig, LockfileConfig, Platform, PythonVersion,
    RawConfig, RawTree,
};
use crate::error::{config_error_message, ConfigError, ConfigErrorModel};
use crate::fixup::registry::{parse_registry_config, registry_spec, RegistryModel};
use crate::strmap::{lookup, StrMap};
use crate::text::{dedup_strings, owned, push_str};
use crate::toml_doc::{get_entry, parse_toml, table_get, toml_document, TomlValue};

verus! {

/// A string field: `None` if of another type, `Some(None)` if absent.
pub open spec fn field_str(t: Seq<(String, TomlValue)>, key: Seq<char>) -> Option<Option<Seq<char>>> {
    match table_get(t, key) {
        None => Some(None),
        Some(TomlValue::Str(s)) => Some(Some(s@)),
        Some(_) => None,
    }
}

/// A boolean field: `None` if of another type, `Some(None)` if absent.
pub open spec fn field_bool(t: Seq<(String, TomlValue)>, key: Seq<char>) -> Option<Option<bool>> {
    match table_get(t, key) {
        None => Some(None),
        Some(TomlValue::Bool(b)) => Some(Some(b)),
        Some(_) => None,
    }
}

/// The strings of an array value, if every element is a string.
pub open spec fn strings_of(v: TomlValue) -> Option<Seq<Seq<char>>> {
    match v {
        TomlValue::Array(a) => if forall|i: int| 0 <= i < a@.len() ==> (#[trigger] a@[i]) is Str {
            Some(a@.map_values(|x: TomlValue| x->Str_0@))
        } else {
            None
        },
        _ => None,
    }
}

/// The versions of an array of version strings, if every one parses.
pub open spec fn versions_of(v: TomlValue) -> Option<Seq<PythonVersion>> {
    match strings_of(v) {
        Some(ss) => if forall|i: int| 0 <= i < ss.len() ==> (#[trigger] python_version_spec(ss[i])) is Ok {
            Some(ss.map_values(|s: Seq<char>| python_version_spec(s)->Ok_0))
        } else {
            None
        },
        None => None,
    }
}

/// The message for a field whose value has the wrong type.
pub open spec fn type_error_text(key: Seq<char>) -> Seq<char> {
    "invalid type for `"@ + key + "`"@
}

fn type_error(key: &str) -> (r: ConfigError)
    ensures
        r@ == ConfigErrorModel::Parse(type_error_text(key@)),
{
    let mut m = String::new();
    push_str(&mut m, "invalid type for `");
    push_str(&mut m, key);
    push_str(&mut m, "`");
    assert(m@ =~= type_error_text(key@));
    ConfigError::Parse(m)
}

fn get_str(t: &Vec<(String, TomlValue)>, key: &str) -> (r: Result<Option<String>, ConfigError>)
    ensures
        match r {
            Ok(o) => field_str(t@, key@) == Some(crate::config::opt_view(o)),
            Err(e) => field_str(t@, key@) is None && e@ is Parse,
        },
{
    match get_entry(t, key) {
        None => Ok(None),
        Some(TomlValue::Str(s)) => Ok(Some(s.clone())),
        Some(_) => Err(type_error(key)),
    }
}

fn get_bool(t: &Vec<(String, TomlValue)>, key: &str) -> (r: Result<Option<bool>, ConfigError>)
    ensures
        match r {
            Ok(o) => field_bool(t@, key@) == Some(o),
            Err(e) => field_bool(t@, key@) is None && e@ is Parse,
        },
{
    match get_entry(t, key) {
        None => Ok(None),
        Some(TomlValue::Bool(b)) => Ok(Some(*b)),
        Some(_) => Err(type_error(key)),
    }
}

fn read_strings(v: &TomlValue, key: &str) -> (r: Result<Vec<String>, ConfigError>)
    ensures
        match r {
            Ok(ss) => strings_of(*v) == Some(crate::text::strings_view(ss@)),
            Err(e) => strings_of(*v) is None && e@ is Parse,
        },
{
    match v {
        TomlValue::Array(a) => {
            let mut out: Vec<String> = Vec::new();
            let mut i: usize = 0;
            while i < a.len()
                invariant
                    i <= a@.len(),
                    *v == TomlValue::Array(*a),
                    out@.len() == i,
                    forall|k: int| 0 <= k < i ==> (#[trigger] a@[k]) is Str && out@[k]@ == a@[k]->Str_0@,
                decreases a@.len() - i,
            {
                match &a[i] {
                    TomlValue::Str(s) => out.push(s.clone()),
                    _ => {
                        assert(!(a@[i as int] is Str));
                        return Err(type_error(key));
                    },
                }
                i += 1;
            }
            assert(crate::text::strings_view(out@) =~= a@.map_values(|x: TomlValue| x->Str_0@));
            Ok(out)
        },
        _ => Err(type_error(key)),
    }
}

fn read_versions(v: &TomlValue, key: &str) -> (r: Result<Vec<PythonVersion>, ConfigError>)
    ensures
        match r {
            Ok(vs) => versions_of(*v) == Some(vs@),
            Err(e) => versions_of(*v) is None && e@ is Parse,
        },
{
    let ss = read_strings(v, key)?;
    let ghost sv = crate::text::strings_view(ss@);
    let mut out: Vec<PythonVersion> = Vec::new();
    let mut i: usize = 0;
    while i < ss.len()
        invariant
            i <= ss@.len(),
            sv == crate::text::strings_view(ss@),
            strings_of(*v) == Some(sv),
            out@.len() == i,
            forall|k: int| 0 <= k < i ==> (#[trigger] python_version_spec(sv[k])) == Ok::<PythonVersion, Seq<char>>(out@[k]),
        decreases ss@.len() - i,
    {
        match PythonVersion::parse(ss[i].as_str()) {
            Ok(pv) => out.push(pv),
            Err(msg) => {
                assert(python_version_spec(sv[i as int]) is Err);
                return Err(ConfigError::Parse(msg));
            },
        }
        i += 1;
    }
    assert(out@ =~= sv.map_values(|s: Seq<char>| python_version_spec(s)->Ok_0));
    Ok(out)
}

/// A table field: `None` if of another type, `Some(None)` if absent.
pub open spec fn field_table(t: Seq<(String, TomlValue)>, key: Seq<char>) -> Option<Option<Seq<(String, TomlValue)>>> {
    match table_get(t, key) {
        None => Some(None),
        Some(TomlValue::Table(e)) => Some(Some(e@)),
        Some(_) => None,
    }
}

/// `v` is a `[platforms.<name>]` table with a string `target` and string
/// baselines where given.
#[verifier::opaque]
pub open spec fn platform_ok(v: TomlValue) -> bool {
    match v {
        TomlValue::Table(e) => {
            &&& field_str(e@, "target"@) matches Some(Some(_))
            &&& field_str(e@, "manylinux"@) is Some
            &&& field_str(e@, "musllinux"@) is Some
            &&& field_str(e@, "macos_min"@) is Some
        },
        _ => false,
    }
}

/// `p` is the platform the table `v` describes.
#[verifier::opaque]
pub open spec fn platform_rel(v: TomlValue, p: Platform) -> bool {
    match v {
        TomlValue::Table(e) => {
            &&& field_str(e@, "target"@) == Some(Some(p.target@))
            &&& field_str(e@, "manylinux"@) == Some(crate::config::opt_view(p.manylinux))
            &&& field_str(e@, "musllinux"@) == Some(crate::config::opt_view(p.musllinux))
            &&& field_str(e@, "macos_min"@) == Some(crate::config::opt_view(p.macos_min))
        },
        _ => false,
    }
}

fn read_platform(v: &TomlValue) -> (r: Result<Platform, ConfigError>)
    ensures
        match r {
            Ok(p) => platform_rel(*v, p),
            Err(e) => !platform_ok(*v) && e@ is Parse,
        },
{
    reveal(platform_ok);
    reveal(platform_rel);
    match v {
        TomlValue::Table(e) => {
            let target = match get_str(e, "target")? {
                Some(t) => t,
                None => return Err(ConfigError::Parse(owned("missing field `target`"))),
            };
            let manylinux = get_str(e, "manylinux")?;
            let musllinux = get_str(e, "musllinux")?;
            let macos_min = get_str(e, "macos_min")?;
            Ok(Platform { target, manylinux, musllinux, macos_min })
        },
        _ => Err(type_error("platforms")),
    }
}

/// Every entry of a platforms table describes a platform.
pub open spec fn all_platforms_ok(pe: Seq<(String, TomlValue)>) -> bool {
    forall|i: int| 0 <= i < pe.len() ==> platform_ok(#[trigger] pe[i].1)
}

/// Every entry of a tree table describes a tree.
pub open spec fn all_trees_ok(te: Seq<(String, TomlValue)>) -> bool {
    forall|i: int| 0 <= i < te.len() ==> tree_ok(#[trigger] te[i].1)
}

proof fn lemma_platform_rel_ok(v: TomlValue, p: Platform)
    requires
        platform_rel(v, p),
    ensures
        platform_ok(v),
{
    reveal(platform_rel);
    reveal(platform_ok);
}

proof fn lemma_tree_rel_ok(v: TomlValue, t: RawTree)
    requires
        tree_rel(v, t),
    ensures
        tree_ok(v),
{
    reveal(tree_rel);
    reveal(tree_ok);
}

/// Entry `i` is the last one with key `k`.
pub open spec fn last_with_key(e: Seq<(String, TomlValue)>, i: int, k: Seq<char>) -> bool {
    0 <= i < e.len() && e[i].0@ == k && forall|j: int| i < j < e.len() ==> e[j].0@ != k
}

/// `m` maps each key of `e` to the platform its last entry describes.
pub open spec fn platforms_rel(e: Seq<(String, TomlValue)>, m: StrMap<Platform>) -> bool {
    &&& m.wf()
    &&& forall|k: Seq<char>|
        match #[trigger] lookup(m.pairs(), k) {
            Some(p) => exists|i: int| last_with_key(e, i, k) && platform_rel(e[i].1, p),
            None => forall|i: int| 0 <= i < e.len() ==> e[i].0@ != k,
        }
}

fn read_platforms(e: &Vec<(String, TomlValue)>) -> (r: Result<StrMap<Platform>, ConfigError>)
    ensures
        match r {
            Ok(m) => platforms_rel(e@, m) && all_platforms_ok(e@),
            Err(err) => !all_platforms_ok(e@) && err@ is Parse,
        },
{
    let mut m: StrMap<Platform> = StrMap::new();
    let mut i: usize = 0;
    while i < e.len()
        invariant
            i <= e@.len(),
            platforms_rel(e@.subrange(0, i as int), m),
            forall|k: int| 0 <= k < i ==> platform_ok(#[trigger] e@[k].1),
        decreases e@.len() - i,
    {
        let ghost pre = e@.subrange(0, i as int);
        let ghost post = e@.subrange(0, i + 1);
        let (k, v) = &e[i];
        let p = match read_platform(v) {
            Ok(p) => p,
            Err(err) => {
                assert(!platform_ok(e@[i as int].1));
                return Err(err);
            },
        };
        proof {
            lemma_platform_rel_ok(*v, p);
        }
        let ghost m0 = m;
        m.insert(k.clone(), p);
        proof {
            assert forall|q: Seq<char>|
                match #[trigger] lookup(m.pairs(), q) {
                    Some(pp) => exists|j: int| last_with_key(post, j, q) && platform_rel(post[j].1, pp),
                    None => forall|j: int| 0 <= j < post.len() ==> post[j].0@ != q,
                } by {
                if q == k@ {
                    assert(last_with_key(post, i as int, q));
                    assert(post[i as int].1 == *v);
                } else {
                    assert(lookup(m.pairs(), q) == lookup(m0.pairs(), q));
                    match lookup(m0.pairs(), q) {
                        Some(pp) => {
                            let j = choose|j: int| last_with_key(pre, j, q) && platform_rel(pre[j].1, pp);
                            assert(post[j] == pre[j]);
                            assert(last_with_key(post, j, q));
                        },
                        None => {
                            assert forall|j: int| 0 <= j < post.len() implies post[j].0@ != q by {
                                if j < i {
                                    assert(post[j] == pre[j]);
                                }
                            }
                        },
                    }
                }
            }
        }
        i += 1;
    }
    assert(e@.subrange(0, i as int) =~= e@);
    Ok(m)
}

/// `v` is a `[tree.<name>]` table with string paths and python versions.
#[verifier::opaque]
pub open spec fn tree_ok(v: TomlValue) -> bool {
    match v {
        TomlValue::Table(e) => {
            &&& field_str(e@, "manifest_path"@) matches Some(Some(_))
            &&& field_str(e@, "third_party_dir"@) matches Some(Some(_))
            &&& table_get(e@, "python_versions"@) matches Some(pv) && versions_of(pv) is Some
        },
        _ => false,
    }
}

/// `t` is the tree the table `v` describes.
#[verifier::opaque]
pub open spec fn tree_rel(v: TomlValue, t: RawTree) -> bool {
    match v {
        TomlValue::Table(e) => {
            &&& field_str(e@, "manifest_path"@) == Some(Some(t.manifest_path@))
            &&& field_str(e@, "third_party_dir"@) == Some(Some(t.third_party_dir@))
            &&& table_get(e@, "python_versions"@) matches Some(pv) && versions_of(pv) == Some(
                t.python_versions@,
            )
        },
        _ => false,
    }
}

fn read_tree(v: &TomlValue) -> (r: Result<RawTree, ConfigError>)
    ensures
        match r {
            Ok(t) => tree_rel(*v, t),
            Err(e) => !tree_ok(*v) && e@ is Parse,
        },
{
    reveal(tree_ok);
    reveal(tree_rel);
    match v {
        TomlValue::Table(e) => {
            let manifest_path = match get_str(e, "manifest_path")? {
                Some(m) => m,
                None => return Err(ConfigError::Parse(owned("missing field `manifest_path`"))),
            };
            let third_party_dir = match get_str(e, "third_party_dir")? {
                Some(d) => d,
                None => return Err(ConfigError::Parse(owned("missing field `third_party_dir`"))),
            };
            let python_versions = match get_entry(e, "python_versions") {
                Some(pv) => read_versions(pv, "python_versions")?,
                None => return Err(ConfigError::Parse(owned("missing field `python_versions`"))),
            };
            Ok(RawTree { manifest_path, third_party_dir, python_versions })
        },
        _ => Err(type_error("tree")),
    }
}

/// `m` maps each key of `e` to the tree its last entry describes.
pub open spec fn trees_rel(e: Seq<(String, TomlValue)>, m: StrMap<RawTree>) -> bool {
    &&& m.wf()
    &&& forall|k: Seq<char>|
        match #[trigger] lookup(m.pairs(), k) {
            Some(t) => exists|i: int| last_with_key(e, i, k) && tree_rel(e[i].1, t),
            None => forall|i: int| 0 <= i < e.len() ==> e[i].0@ != k,
        }
}

fn read_trees(e: &Vec<(String, TomlValue)>) -> (r: Result<StrMap<RawTree>, ConfigError>)
    ensures
        match r {
            Ok(m) => trees_rel(e@, m) && all_trees_ok(e@),
            Err(err) => !all_trees_ok(e@) && err@ is Parse,
        },
{
    let mut m: StrMap<RawTree> = StrMap::new();
    let mut i: usize = 0;
    while i < e.len()
        invariant
            i <= e@.len(),
            trees_rel(e@.subrange(0, i as int), m),
            forall|k: int| 0 <= k < i ==> tree_ok(#[trigger] e@[k].1),
        decreases e@.len() - i,
    {
        let ghost pre = e@.subrange(0, i as int);
        let ghost post = e@.subrange(0, i + 1);
        let (k, v) = &e[i];
        let t = match read_tree(v) {
            Ok(t) => t,
            Err(err) => {
                assert(!tree_ok(e@[i as int].1));
                return Err(err);
            },
        };
        proof {
            lemma_tree_rel_ok(*v, t);
        }
        let ghost m0 = m;
        m.insert(k.clone(), t);
        proof {
            assert forall|q: Seq<char>|
                match #[trigger] lookup(m.pairs(), q) {
                    Some(tt) => exists|j: int| last_with_key(post, j, q) && tree_rel(post[j].1, tt),
                    None => forall|j: int| 0 <= j < post.len() ==> post[j].0@ != q,
                } by {
                if q == k@ {
                    assert(last_with_key(post, i as int, q));
                    assert(post[i as int].1 == *v);
                } else {
                    assert(lookup(m.pairs(), q) == lookup(m0.pairs(), q));
                    match lookup(m0.pairs(), q) {
                        Some(tt) => {
                            let j = choose|j: int| last_with_key(pre, j, q) && tree_rel(pre[j].1, tt);
                            assert(post[j] == pre[j]);
                            assert(last_with_key(post, j, q));
                        },
                        None => {
                            assert forall|j: int| 0 <= j < post.len() implies post[j].0@ != q by {
                                if j < i {
                                    assert(post[j] == pre[j]);
                                }
                            }
                        },
                    }
                }
            }
        }
        i += 1;
    }
    assert(e@.subrange(0, i as int) =~= e@);
    Ok(m)
}

/// The registry string of a `[fixups]` table: `"none"` when absent.
pub open spec fn registry_text(e: Seq<(String, TomlValue)>) -> Seq<char> {
    match field_str(e, "registry"@) {
        Some(Some(s)) => s,
        _ => "none"@,
    }
}

/// The fields of a `[fixups]` table have their types.
pub open spec fn fixups_fields_ok(e: Seq<(String, TomlValue)>) -> bool {
    &&& field_str(e, "registry"@) is Some
    &&& field_str(e, "registry_rev"@) is Some
    &&& field_bool(e, "allow_local_overrides"@) is Some
}

/// A `[fixups]` table is accepted: typed fields and a registry that parses.
pub open spec fn fixups_ok(e: Seq<(String, TomlValue)>) -> bool {
    fixups_fields_ok(e) && registry_spec(registry_text(e), field_str(e, "registry_rev"@)->0) is Ok
}

/// `f` is what the `[fixups]` table `e` says.
pub open spec fn fixups_rel(e: Seq<(String, TomlValue)>, f: FixupsConfig) -> bool {
    &&& fixups_fields_ok(e)
    &&& field_str(e, "registry_rev"@) == Some(crate::config::opt_view(f.registry_rev))
    &&& f.allow_local_overrides == match field_bool(e, "allow_local_overrides"@) {
        Some(Some(b)) => b,
        _ => true,
    }
    &&& registry_spec(registry_text(e), crate::config::opt_view(f.registry_rev)) == Ok::<RegistryModel, ConfigErrorModel>(f.registry@)
}

fn read_fixups(e: &Vec<(String, TomlValue)>) -> (r: Result<FixupsConfig, ConfigError>)
    ensures
        match r {
            Ok(f) => fixups_rel(e@, f),
            Err(err) => !fixups_ok(e@) && err@ is Parse && (fixups_fields_ok(e@) ==> err@ == ConfigErrorModel::Parse(
                config_error_message(registry_spec(registry_text(e@), field_str(e@, "registry_rev"@)->0)->Err_0),
            )),
        },
{
    proof {
        reveal_strlit("none");
    }
    let registry_str = match get_str(e, "registry")? {
        Some(s) => s,
        None => owned("none"),
    };
    let registry_rev = get_str(e, "registry_rev")?;
    let allow = match get_bool(e, "allow_local_overrides")? {
        Some(b) => b,
        None => true,
    };
    let rev_ref: Option<&str> = match &registry_rev {
        Some(r) => Some(r.as_str()),
        None => None,
    };
    assert(crate::fixup::registry::opt_str_view(rev_ref) == crate::config::opt_view(registry_rev));
    match parse_registry_config(registry_str.as_str(), rev_ref) {
        Ok(registry) => Ok(FixupsConfig { registry, registry_rev, allow_local_overrides: allow }),
        Err(err) => Err(ConfigError::Parse(err.to_string())),
    }
}

/// `b` is what the `[buck]` table `e` says.
pub open spec fn buck_rel(e: Seq<(String, TomlValue)>, b: BuckConfig) -> bool {
    &&& field_str(e, "file_name"@) matches Some(o) && b.file_name@ == match o {
        Some(f) => f,
        None => "BUCK"@,
    }
    &&& field_bool(e, "vendor"@) matches Some(o) && b.vendor == match o {
        Some(v) => v,
        None => false,
    }
    &&& field_str(e, "cfg_dir"@) == Some(crate::config::opt_view(b.cfg_dir))
}

pub open spec fn buck_ok(e: Seq<(String, TomlValue)>) -> bool {
    field_str(e, "file_name"@) is Some && field_bool(e, "vendor"@) is Some && field_str(e, "cfg_dir"@) is Some
}

fn read_buck(e: &Vec<(String, TomlValue)>) -> (r: Result<BuckConfig, ConfigError>)
    ensures
        match r {
            Ok(b) => buck_rel(e@, b),
            Err(err) => !buck_ok(e@) && err@ is Parse,
        },
{
    proof {
        reveal_strlit("BUCK");
    }
    let file_name = match get_str(e, "file_name")? {
        Some(f) => f,
        None => owned("BUCK"),
    };
    let vendor = match get_bool(e, "vendor")? {
        Some(v) => v,
        None => false,
    };
    let cfg_dir = get_str(e, "cfg_dir")?;
    Ok(BuckConfig { file_name, vendor, cfg_dir })
}

/// `l` is what the `[lockfile]` table `e` says.
pub open spec fn lockfile_rel(e: Seq<(String, TomlValue)>, l: LockfileConfig) -> bool {
    match table_get(e, "include_groups"@) {
        None => l.include_groups@.len() == 0,
        Some(v) => strings_of(v) == Some(crate::text::strings_view(l.include_groups@)),
    }
}

pub open spec fn lockfile_ok(e: Seq<(String, TomlValue)>) -> bool {
    match table_get(e, "include_groups"@) {
        None => true,
        Some(v) => strings_of(v) is Some,
    }
}

fn read_lockfile(e: &Vec<(String, TomlValue)>) -> (r: Result<LockfileConfig, ConfigError>)
    ensures
        match r {
            Ok(l) => lockfile_rel(e@, l),
            Err(err) => !lockfile_ok(e@) && err@ is Parse,
        },
{
    match get_entry(e, "include_groups") {
        None => Ok(LockfileConfig { include_groups: Vec::new() }),
        Some(v) => {
            let groups = read_strings(v, "include_groups")?;
            Ok(LockfileConfig { include_groups: groups })
        },
    }
}

/// The document's fields all have the types the configuration needs.
pub open spec fn raw_ok(doc: TomlValue) -> bool {
    match doc {
        TomlValue::Table(d) => {
            let e = d@;
            &&& field_str(e, "manifest_path"@) is Some
            &&& field_str(e, "third_party_dir"@) is Some
            &&& (table_get(e, "python_versions"@) matches Some(pv) ==> versions_of(pv) is Some)
            &&& field_table(e, "platforms"@) matches Some(o) && (o matches Some(pe) ==> all_platforms_ok(pe))
            &&& field_table(e, "fixups"@) matches Some(o) && (o matches Some(fe) ==> fixups_ok(fe))
            &&& field_table(e, "buck"@) matches Some(o) && (o matches Some(be) ==> buck_ok(be))
            &&& field_table(e, "lockfile"@) matches Some(o) && (o matches Some(le) ==> lockfile_ok(le))
            &&& field_table(e, "tree"@) matches Some(o) && (o matches Some(te) ==> all_trees_ok(te))
        },
        _ => false,
    }
}

/// `raw` is what the document `doc` says, defaults filled in.
pub open spec fn raw_rel(doc: TomlValue, raw: RawConfig) -> bool {
    match doc {
        TomlValue::Table(d) => {
            let e = d@;
            &&& field_str(e, "manifest_path"@) == Some(crate::config::opt_view(raw.manifest_path))
            &&& field_str(e, "third_party_dir"@) == Some(crate::config::opt_view(raw.third_party_dir))
            &&& match table_get(e, "python_versions"@) {
                None => raw.python_versions is None,
                Some(pv) => raw.python_versions is Some && versions_of(pv) == Some(raw.python_versions->0@),
            }
            &&& match field_table(e, "platforms"@) {
                Some(Some(pe)) => platforms_rel(pe, raw.platforms),
                Some(None) => raw.platforms.wf() && raw.platforms.pairs().len() == 0,
                None => false,
            }
            &&& match field_table(e, "fixups"@) {
                Some(Some(fe)) => fixups_rel(fe, raw.fixups),
                Some(None) => raw.fixups.registry@ == RegistryModel::NoRegistry && raw.fixups.registry_rev is None
                    && raw.fixups.allow_local_overrides,
                None => false,
            }
            &&& match field_table(e, "buck"@) {
                Some(Some(be)) => buck_rel(be, raw.buck),
                Some(None) => raw.buck.file_name@ == "BUCK"@ && !raw.buck.vendor && raw.buck.cfg_dir is None,
                None => false,
            }
            &&& match field_table(e, "lockfile"@) {
                Some(Some(le)) => lockfile_rel(le, raw.lockfile),
                Some(None) => raw.lockfile.include_groups@.len() == 0,
                None => false,
            }
            &&& match field_table(e, "tree"@) {
                Some(Some(te)) => trees_rel(te, raw.tree),
                Some(None) => raw.tree.wf() && raw.tree.pairs().len() == 0,
                None => false,
            }
        },
        _ => false,
    }
}

fn get_table<'a>(e: &'a Vec<(String, TomlValue)>, key: &str) -> (r: Result<Option<&'a Vec<(String, TomlValue)>>, ConfigError>)
    ensures
        match r {
            Ok(Some(t)) => field_table(e@, key@) == Some(Some(t@)),
            Ok(None) => field_table(e@, key@) == Some(None::<Seq<(String, TomlValue)>>),
            Err(err) => field_table(e@, key@) is None && err@ is Parse,
        },
{
    match get_entry(e, key) {
        None => Ok(None),
        Some(TomlValue::Table(t)) => Ok(Some(t)),
        Some(_) => Err(type_error(key)),
    }
}

/// Reads the configuration's fields out of a parsed document.
pub fn read_raw(doc: &TomlValue) -> (r: Result<RawConfig, ConfigError>)
    ensures
        match r {
            Ok(raw) => raw_ok(*doc) && raw_rel(*doc, raw),
            Err(err) => !raw_ok(*doc) && err@ is Parse,
        },
{
    proof {
        reveal_strlit("BUCK");
    }
    let e = match doc {
        TomlValue::Table(e) => e,
        _ => return Err(type_error("muntjac.toml")),
    };
    let manifest_path = get_str(e, "manifest_path")?;
    let third_party_dir = get_str(e, "third_party_dir")?;
    let python_versions = match get_entry(e, "python_versions") {
        None => None,
        Some(pv) => Some(read_versions(pv, "python_versions")?),
    };
    let platforms = match get_table(e, "platforms")? {
        None => StrMap::new(),
        Some(pe) => read_platforms(pe)?,
    };
    let fixups = match get_table(e, "fixups")? {
        None => FixupsConfig::default_config(),
        Some(fe) => read_fixups(fe)?,
    };
    let buck = match get_table(e, "buck")? {
        None => BuckConfig::default_config(),
        Some(be) => read_buck(be)?,
    };
    let lockfile = match get_table(e, "lockfile")? {
        None => LockfileConfig::default_config(),
        Some(le) => read_lockfile(le)?,
    };
    let tree = match get_table(e, "tree")? {
        None => StrMap::new(),
        Some(te) => read_trees(te)?,
    };
    Ok(RawConfig { manifest_path, third_party_dir, python_versions, platforms, fixups, buck, lockfile, tree })
}

/// `c` is the configuration that `raw` gives once its shape is checked
/// and repeated dependency groups are dropped.
pub open spec fn config_of(raw: RawConfig, c: Config) -> bool {
    &&& trees_from_raw(raw, c.trees@)
    &&& c.platforms == raw.platforms
    &&& c.fixups == raw.fixups
    &&& c.buck == raw.buck
    &&& crate::text::strings_view(c.lockfile.include_groups@) == dedup_strings(
        crate::text::strings_view(raw.lockfile.include_groups@),
    )
}

/// What reading `muntjac.toml` from the text `s` gives: the TOML parser's
/// message where the text does not parse; a parse error where the document
/// does not have the expected shape; otherwise the configuration read from it
/// when it passes validation, and the first error met when it does not.
pub open spec fn parsed_config(s: Seq<char>, r: Result<Config, ConfigError>) -> bool {
    match toml_document(s) {
        Err(m) => (r matches Err(e) && e@ == ConfigErrorModel::Parse(m)),
        Ok(doc) => {
            &&& !raw_ok(doc) ==> (r matches Err(e) && e@ is Parse)
            &&& r is Ok ==> raw_ok(doc) && exists|raw: RawConfig|
                raw_rel(doc, raw) && from_raw_error(raw) is None && config_of(raw, r->Ok_0)
                    && validate_spec(r->Ok_0) is Ok
            &&& (r is Err && raw_ok(doc)) ==> exists|raw: RawConfig|
                raw_rel(doc, raw) && (from_raw_error(raw) == Some(r->Err_0@) || (from_raw_error(raw) is None
                    && exists|c: Config| config_of(raw, c) && validate_spec(c) == Err::<(), ConfigErrorModel>(r->Err_0@)))
        },
    }
}

impl Config {
    /// Reads and checks `muntjac.toml`: parse the TOML, read the fields,
    /// check the shape, drop repeated dependency groups, validate.
    pub fn parse_str(s: &str) -> (r: Result<Config, ConfigError>)
        ensures
            parsed_config(s@, r),
    {
        let doc = match parse_toml(s) {
            Ok(d) => d,
            Err(m) => return Err(ConfigError::Parse(m)),
        };
        let raw = read_raw(&doc)?;
        let ghost raw0 = raw;
        let mut config = Config::from_raw(raw)?;
        config.dedupe_include_groups();
        proof {
            assert(config_of(raw0, config));
            if raw0.platforms.pairs().len() == 0 {
                assert(raw0.platforms.wf());
            }
        }
        match config.validate() {
            Ok(_) => Ok(config),
            Err(e) => {
                proof {
                    assert(config_of(raw0, config) && validate_spec(config) == Err::<(), ConfigErrorModel>(e@));
                }
                Err(e)
            },
        }
    }
}

impl std::str::FromStr for Config {
    type Err = ConfigError;

    fn from_str(s: &str) -> (r: Result<Self, Self::Err>)
        ensures
            parsed_config(s@, r),
    {
        Config::parse_str(s)
    }
}

} // verus!
