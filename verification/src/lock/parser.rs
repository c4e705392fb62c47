//! Parsing `uv.lock` text into a [`Lockfile`].

use vstd::prelude::*;

use crate::config_toml::{field_str, field_table};
use crate::error::LockfileError;
use crate::lock::names::{
    invalid_name_message, normalize_package_name, normalized_name, parse_url, parse_version,
    pep440_version, url_parse, valid_package_name,
};
use crate::lock::types::{FirstPartyKind, Lockfile, Package, Source};
use crate::text::{owned, push_str, strings_view};
use crate::toml_doc::{get_entry, parse_toml, table_get, toml_document, TomlValue};

verus! {

/// A `[package.source]` table as read: each key optional.
pub struct RawSource {
    pub registry: Option<String>,
    pub git: Option<String>,
    pub rev: Option<String>,
    pub subdirectory: Option<String>,
    pub virtual_: Option<String>,
    pub editable: Option<String>,
    pub directory: Option<String>,
    pub path: Option<String>,
}

/// A `[[package]]` entry as read.
pub struct RawPackage {
    pub name: String,
    pub version: String,
    pub source: RawSource,
}

/// The whole file as read.
pub struct RawLockfile {
    pub version: u32,
    pub revision: u32,
    pub requires_python: String,
    pub packages: Vec<RawPackage>,
}

pub open spec fn ov(o: Option<String>) -> Option<Seq<char>> {
    crate::config::opt_view(o)
}

/// The kinds of source a raw source names, in the order they are checked.
pub open spec fn source_kinds(rs: RawSource) -> Seq<Seq<char>> {
    (if rs.registry is Some { seq!["registry"@] } else { Seq::empty() })
        + (if rs.git is Some { seq!["git"@] } else { Seq::empty() })
        + (if rs.virtual_ is Some { seq!["virtual"@] } else { Seq::empty() })
        + (if rs.editable is Some { seq!["editable"@] } else { Seq::empty() })
        + (if rs.directory is Some { seq!["directory"@] } else { Seq::empty() })
        + (if rs.path is Some { seq!["path"@] } else { Seq::empty() })
}

/// The error a raw source gives, if any.
pub open spec fn source_error(name: Seq<char>, rs: RawSource, e: LockfileError) -> bool {
    let kinds = source_kinds(rs);
    if kinds.len() != 1 {
        e matches LockfileError::AmbiguousSource { package, found } && package@ == name && strings_view(found@) == kinds
    } else if rs.registry is Some && url_parse(rs.registry->0@) is Err {
        let u = rs.registry->0@;
        e matches LockfileError::BadVersion { package, value, reason } && package@ == name && value@ == u
            && reason@ == "registry URL: "@ + url_parse(u)->Err_0
    } else if rs.registry is None && rs.git is Some && url_parse(rs.git->0@) is Err {
        let u = rs.git->0@;
        e matches LockfileError::BadVersion { package, value, reason } && package@ == name && value@ == u
            && reason@ == "git URL: "@ + url_parse(u)->Err_0
    } else {
        false
    }
}

/// The raw source is accepted.
pub open spec fn source_ok(rs: RawSource) -> bool {
    &&& source_kinds(rs).len() == 1
    &&& rs.registry matches Some(u) ==> url_parse(u@) is Ok
    &&& rs.git matches Some(u) ==> url_parse(u@) is Ok
}

/// `s` is the source `rs` describes.
pub open spec fn source_rel(rs: RawSource, s: Source) -> bool {
    if rs.registry is Some {
        s matches Source::Registry { url } && Ok::<Seq<char>, Seq<char>>(url@) == url_parse(rs.registry->0@)
    } else if rs.git is Some {
        s matches Source::Git { url, rev, subdirectory } && Ok::<Seq<char>, Seq<char>>(url@) == url_parse(rs.git->0@)
            && rev@ == (match rs.rev {
            Some(r) => r@,
            None => Seq::empty(),
        }) && ov(subdirectory) == ov(rs.subdirectory)
    } else if rs.virtual_ is Some {
        s matches Source::FirstParty { kind, path } && kind == FirstPartyKind::Virtual && path@ == rs.virtual_->0@
    } else if rs.editable is Some {
        s matches Source::FirstParty { kind, path } && kind == FirstPartyKind::Editable && path@ == rs.editable->0@
    } else if rs.directory is Some {
        s matches Source::FirstParty { kind, path } && kind == FirstPartyKind::Directory && path@ == rs.directory->0@
    } else {
        s matches Source::FirstParty { kind, path } && kind == FirstPartyKind::Path && path@ == rs.path->0@
    }
}

fn push_kind(found: &mut Vec<String>, kind: &str)
    ensures
        strings_view(final(found)@) == strings_view(old(found)@).push(kind@),
{
    let ghost f0 = strings_view(found@);
    found.push(owned(kind));
    assert(strings_view(found@) =~= f0.push(kind@));
}

fn bad_url(name: &str, url: &String, what: &str, msg: String) -> (e: LockfileError)
    ensures
        e matches LockfileError::BadVersion { package, value, reason } && package@ == name@ && value@ == url@
            && reason@ == what@ + msg@,
{
    let mut reason = owned(what);
    push_str(&mut reason, msg.as_str());
    LockfileError::BadVersion { package: owned(name), value: url.clone(), reason }
}

/// Turns a raw source into a [`Source`]: exactly one kind must be given,
/// and a registry or git URL must parse.
pub fn source_from_raw(pkg_name: &str, rs: RawSource) -> (r: Result<Source, LockfileError>)
    ensures
        match r {
            Ok(s) => source_ok(rs) && source_rel(rs, s),
            Err(e) => !source_ok(rs) && source_error(pkg_name@, rs, e),
        },
{
    proof {
        reveal_strlit("registry");
        reveal_strlit("git");
        reveal_strlit("virtual");
        reveal_strlit("editable");
        reveal_strlit("directory");
        reveal_strlit("path");
        reveal_strlit("registry URL: ");
        reveal_strlit("git URL: ");
    }
    let ghost rs0 = rs;
    let mut found: Vec<String> = Vec::new();
    if rs.registry.is_some() {
        push_kind(&mut found, "registry");
    }
    if rs.git.is_some() {
        push_kind(&mut found, "git");
    }
    if rs.virtual_.is_some() {
        push_kind(&mut found, "virtual");
    }
    if rs.editable.is_some() {
        push_kind(&mut found, "editable");
    }
    if rs.directory.is_some() {
        push_kind(&mut found, "directory");
    }
    if rs.path.is_some() {
        push_kind(&mut found, "path");
    }
    assert(strings_view(found@) =~= source_kinds(rs0));
    if found.len() != 1 {
        return Err(LockfileError::AmbiguousSource { package: owned(pkg_name), found });
    }
    let RawSource { registry, git, rev, subdirectory, virtual_, editable, directory, path } = rs;
    if let Some(url) = registry {
        return match parse_url(url.as_str()) {
            Ok(u) => Ok(Source::Registry { url: u }),
            Err(m) => Err(bad_url(pkg_name, &url, "registry URL: ", m)),
        };
    }
    if let Some(url) = git {
        return match parse_url(url.as_str()) {
            Ok(u) => Ok(Source::Git {
                url: u,
                rev: match rev {
                    Some(r) => r,
                    None => String::new(),
                },
                subdirectory,
            }),
            Err(m) => Err(bad_url(pkg_name, &url, "git URL: ", m)),
        };
    }
    if let Some(p) = virtual_ {
        return Ok(Source::FirstParty { kind: FirstPartyKind::Virtual, path: p });
    }
    if let Some(p) = editable {
        return Ok(Source::FirstParty { kind: FirstPartyKind::Editable, path: p });
    }
    if let Some(p) = directory {
        return Ok(Source::FirstParty { kind: FirstPartyKind::Directory, path: p });
    }
    match path {
        Some(p) => Ok(Source::FirstParty { kind: FirstPartyKind::Path, path: p }),
        None => {
            assert(false);
            Err(LockfileError::AmbiguousSource { package: owned(pkg_name), found: Vec::new() })
        },
    }
}

/// The error a raw package gives, if any: its name, then its version,
/// then its source.
pub open spec fn package_error(rp: RawPackage, e: LockfileError) -> bool {
    if !valid_package_name(rp.name@) {
        e matches LockfileError::BadPackageName(n, m) && n@ == rp.name@ && m@ == invalid_name_message(rp.name@)
    } else if pep440_version(rp.version@) is Err {
        e matches LockfileError::BadVersion { package, value, reason } && package@ == rp.name@ && value@ == rp.version@
            && reason@ == pep440_version(rp.version@)->Err_0
    } else {
        source_error(rp.name@, rp.source, e)
    }
}

/// The raw package is accepted.
pub open spec fn package_ok(rp: RawPackage) -> bool {
    valid_package_name(rp.name@) && pep440_version(rp.version@) is Ok && source_ok(rp.source)
}

/// `p` is the package `rp` describes (its dependencies, artifacts and
/// metadata are not read).
pub open spec fn package_rel(rp: RawPackage, p: Package) -> bool {
    &&& p.name@ == normalized_name(rp.name@)
    &&& Ok::<Seq<char>, Seq<char>>(p.version@) == pep440_version(rp.version@)
    &&& source_rel(rp.source, p.source)
    &&& p.dependencies@.len() == 0
    &&& p.sdist is None
    &&& p.wheels@.len() == 0
    &&& p.metadata is None
}

/// Turns a raw package into a [`Package`].
pub fn package_from_raw(rp: RawPackage) -> (r: Result<Package, LockfileError>)
    ensures
        match r {
            Ok(p) => package_ok(rp) && package_rel(rp, p),
            Err(e) => !package_ok(rp) && package_error(rp, e),
        },
{
    let ghost rp0 = rp;
    let name = match normalize_package_name(rp.name.as_str()) {
        Ok(n) => n,
        Err(m) => return Err(LockfileError::BadPackageName(rp.name, m)),
    };
    let version = match parse_version(rp.version.as_str()) {
        Ok(v) => v,
        Err(m) => {
            return Err(LockfileError::BadVersion { package: rp.name, value: rp.version, reason: m });
        },
    };
    let source = source_from_raw(rp.name.as_str(), rp.source)?;
    Ok(Package {
        name,
        version,
        source,
        dependencies: Vec::new(),
        sdist: None,
        wheels: Vec::new(),
        metadata: None,
    })
}

/// An integer field that fits `u32`: `None` if of another type or out of
/// range, `Some(None)` if absent.
pub open spec fn field_u32(t: Seq<(String, TomlValue)>, key: Seq<char>) -> Option<Option<u32>> {
    match table_get(t, key) {
        None => Some(None),
        Some(TomlValue::Int(i)) => if 0 <= i <= u32::MAX {
            Some(Some(i as u32))
        } else {
            None
        },
        Some(_) => None,
    }
}

/// The message for a field whose value has the wrong type.
pub open spec fn type_error_text(key: Seq<char>) -> Seq<char> {
    "invalid type for `"@ + key + "`"@
}

fn type_error(key: &str) -> (r: LockfileError)
    ensures
        r matches LockfileError::Parse(m) && m@ == type_error_text(key@),
{
    let mut m = String::new();
    push_str(&mut m, "invalid type for `");
    push_str(&mut m, key);
    push_str(&mut m, "`");
    assert(m@ =~= type_error_text(key@));
    LockfileError::Parse(m)
}

fn get_str(t: &Vec<(String, TomlValue)>, key: &str) -> (r: Result<Option<String>, LockfileError>)
    ensures
        match r {
            Ok(o) => field_str(t@, key@) == Some(ov(o)),
            Err(e) => field_str(t@, key@) is None && e is Parse,
        },
{
    match get_entry(t, key) {
        None => Ok(None),
        Some(TomlValue::Str(s)) => Ok(Some(s.clone())),
        Some(_) => Err(type_error(key)),
    }
}

fn get_u32(t: &Vec<(String, TomlValue)>, key: &str) -> (r: Result<Option<u32>, LockfileError>)
    ensures
        match r {
            Ok(o) => field_u32(t@, key@) == Some(o),
            Err(e) => field_u32(t@, key@) is None && e is Parse,
        },
{
    match get_entry(t, key) {
        None => Ok(None),
        Some(TomlValue::Int(i)) => {
            if 0 <= *i && *i <= 0xffff_ffff {
                Ok(Some(*i as u32))
            } else {
                Err(type_error(key))
            }
        },
        Some(_) => Err(type_error(key)),
    }
}

/// `rs` is what the source table `e` says.
pub open spec fn raw_source_rel(e: Seq<(String, TomlValue)>, rs: RawSource) -> bool {
    &&& field_str(e, "registry"@) == Some(ov(rs.registry))
    &&& field_str(e, "git"@) == Some(ov(rs.git))
    &&& field_str(e, "rev"@) == Some(ov(rs.rev))
    &&& field_str(e, "subdirectory"@) == Some(ov(rs.subdirectory))
    &&& field_str(e, "virtual"@) == Some(ov(rs.virtual_))
    &&& field_str(e, "editable"@) == Some(ov(rs.editable))
    &&& field_str(e, "directory"@) == Some(ov(rs.directory))
    &&& field_str(e, "path"@) == Some(ov(rs.path))
}

/// A `[[package]]` value: a table with string `name` and `version` and a
/// source table whose keys are strings.
#[verifier::opaque]
pub open spec fn raw_package_ok(v: TomlValue) -> bool {
    match v {
        TomlValue::Table(e) => {
            &&& field_str(e@, "name"@) matches Some(Some(_))
            &&& field_str(e@, "version"@) matches Some(Some(_))
            &&& field_table(e@, "source"@) matches Some(Some(se)) && {
                &&& field_str(se, "registry"@) is Some
                &&& field_str(se, "git"@) is Some
                &&& field_str(se, "rev"@) is Some
                &&& field_str(se, "subdirectory"@) is Some
                &&& field_str(se, "virtual"@) is Some
                &&& field_str(se, "editable"@) is Some
                &&& field_str(se, "directory"@) is Some
                &&& field_str(se, "path"@) is Some
            }
        },
        _ => false,
    }
}

/// `rp` is what the `[[package]]` value `v` says.
#[verifier::opaque]
pub open spec fn raw_package_rel(v: TomlValue, rp: RawPackage) -> bool {
    match v {
        TomlValue::Table(e) => {
            &&& field_str(e@, "name"@) == Some(Some(rp.name@))
            &&& field_str(e@, "version"@) == Some(Some(rp.version@))
            &&& field_table(e@, "source"@) matches Some(Some(se)) && raw_source_rel(se, rp.source)
        },
        _ => false,
    }
}

fn read_package(v: &TomlValue) -> (r: Result<RawPackage, LockfileError>)
    ensures
        match r {
            Ok(rp) => raw_package_ok(*v) && raw_package_rel(*v, rp),
            Err(e) => !raw_package_ok(*v) && e is Parse,
        },
{
    reveal(raw_package_ok);
    reveal(raw_package_rel);
    let e = match v {
        TomlValue::Table(e) => e,
        _ => return Err(type_error("package")),
    };
    let name = match get_str(e, "name")? {
        Some(n) => n,
        None => return Err(LockfileError::Parse(owned("missing field `name`"))),
    };
    let version = match get_str(e, "version")? {
        Some(n) => n,
        None => return Err(LockfileError::Parse(owned("missing field `version`"))),
    };
    let se = match get_entry(e, "source") {
        Some(TomlValue::Table(se)) => se,
        Some(_) => return Err(type_error("source")),
        None => return Err(LockfileError::Parse(owned("missing field `source`"))),
    };
    let registry = get_str(se, "registry")?;
    let git = get_str(se, "git")?;
    let rev = get_str(se, "rev")?;
    let subdirectory = get_str(se, "subdirectory")?;
    let virtual_ = get_str(se, "virtual")?;
    let editable = get_str(se, "editable")?;
    let directory = get_str(se, "directory")?;
    let path = get_str(se, "path")?;
    Ok(RawPackage {
        name,
        version,
        source: RawSource { registry, git, rev, subdirectory, virtual_, editable, directory, path },
    })
}

/// The document's fields have the types a lockfile needs.
#[verifier::opaque]
pub open spec fn raw_lock_ok(doc: TomlValue) -> bool {
    match doc {
        TomlValue::Table(d) => {
            &&& field_u32(d@, "version"@) matches Some(Some(_))
            &&& field_u32(d@, "revision"@) is Some
            &&& field_str(d@, "requires-python"@) is Some
            &&& match table_get(d@, "package"@) {
                None => true,
                Some(TomlValue::Array(a)) => forall|i: int| 0 <= i < a@.len() ==> raw_package_ok(#[trigger] a@[i]),
                Some(_) => false,
            }
        },
        _ => false,
    }
}

/// `raw` is what the document says, defaults filled in.
#[verifier::opaque]
pub open spec fn raw_lock_rel(doc: TomlValue, raw: RawLockfile) -> bool {
    match doc {
        TomlValue::Table(d) => {
            &&& field_u32(d@, "version"@) == Some(Some(raw.version))
            &&& raw.revision == match field_u32(d@, "revision"@) {
                Some(Some(r)) => r,
                _ => 0,
            }
            &&& raw.requires_python@ == match field_str(d@, "requires-python"@) {
                Some(Some(r)) => r,
                _ => Seq::empty(),
            }
            &&& match table_get(d@, "package"@) {
                None => raw.packages@.len() == 0,
                Some(TomlValue::Array(a)) => a@.len() == raw.packages@.len() && forall|i: int|
                    0 <= i < a@.len() ==> raw_package_rel(#[trigger] a@[i], raw.packages@[i]),
                Some(_) => false,
            }
        },
        _ => false,
    }
}

proof fn lemma_bad_package(d: Vec<(String, TomlValue)>, a: Vec<TomlValue>, i: int)
    requires
        table_get(d@, "package"@) == Some(TomlValue::Array(a)),
        0 <= i < a@.len(),
        !raw_package_ok(a@[i]),
    ensures
        !raw_lock_ok(TomlValue::Table(d)),
{
    reveal(raw_lock_ok);
    let doc = TomlValue::Table(d);
    if raw_lock_ok(doc) {
        match table_get(d@, "package"@) {
            Some(TomlValue::Array(b)) => {
                assert(b == a);
                assert(raw_package_ok(b@[i]));
            },
            _ => {},
        }
    }
}

/// Reads the lockfile's fields out of a parsed document.
pub fn read_raw_lock(doc: &TomlValue) -> (r: Result<RawLockfile, LockfileError>)
    ensures
        match r {
            Ok(raw) => raw_lock_ok(*doc) && raw_lock_rel(*doc, raw),
            Err(e) => !raw_lock_ok(*doc) && e is Parse,
        },
{
    proof {
        reveal(raw_lock_ok);
    }
    let d = match doc {
        TomlValue::Table(d) => d,
        _ => return Err(type_error("uv.lock")),
    };
    let version = match get_u32(d, "version")? {
        Some(v) => v,
        None => return Err(LockfileError::Parse(owned("missing field `version`"))),
    };
    let revision = match get_u32(d, "revision")? {
        Some(r) => r,
        None => 0,
    };
    let requires_python = match get_str(d, "requires-python")? {
        Some(r) => r,
        None => String::new(),
    };
    let mut packages: Vec<RawPackage> = Vec::new();
    let entry = get_entry(d, "package");
    match entry {
        None => {},
        Some(TomlValue::Array(a)) => {
            let ghost whole = *doc;
            let mut i: usize = 0;
            while i < a.len()
                invariant
                    i <= a@.len(),
                    whole == TomlValue::Table(*d),
                    *doc == whole,
                    table_get(d@, "package"@) == Some(TomlValue::Array(*a)),
                    packages@.len() == i,
                    forall|k: int| 0 <= k < i ==> raw_package_ok(#[trigger] a@[k]) && raw_package_rel(a@[k], packages@[k]),
                decreases a@.len() - i,
            {
                let rp = match read_package(&a[i]) {
                    Ok(rp) => rp,
                    Err(e) => {
                        proof {
                            lemma_bad_package(*d, *a, i as int);
                        }
                        return Err(e);
                    },
                };
                packages.push(rp);
                i += 1;
            }
        },
        Some(_) => return Err(type_error("package")),
    }
    let raw = RawLockfile { version, revision, requires_python, packages };
    proof {
        reveal(raw_lock_ok);
        reveal(raw_lock_rel);
    }
    Ok(raw)
}

/// `r` is what checking `raw` gives: version 1 only, then each package in
/// order, the first refused one deciding the error.
pub open spec fn lock_from_raw_spec(raw: RawLockfile, r: Result<Lockfile, LockfileError>) -> bool {
    let ps = raw.packages@;
    if raw.version != 1 {
        r matches Err(LockfileError::UnsupportedVersion(v)) && v == raw.version
    } else if exists|i: int| 0 <= i < ps.len() && !package_ok(#[trigger] ps[i]) {
        exists|i: int|
            #![trigger ps[i]]
            0 <= i < ps.len() && !package_ok(ps[i]) && (forall|j: int| 0 <= j < i ==> package_ok(#[trigger] ps[j]))
                && (r matches Err(e) && package_error(ps[i], e))
    } else {
        r matches Ok(l) && l.version == raw.version && l.revision == raw.revision && l.requires_python@
            == raw.requires_python@ && l.packages@.len() == ps.len() && forall|i: int|
            0 <= i < ps.len() ==> package_rel(ps[i], #[trigger] l.packages@[i])
    }
}

impl Lockfile {
    /// Checks what was read: only lockfile version 1 is supported, and every
    /// package must have a valid name, version and source.
    pub fn from_raw(raw: RawLockfile) -> (r: Result<Lockfile, LockfileError>)
        ensures
            lock_from_raw_spec(raw, r),
    {
        if raw.version != 1 {
            return Err(LockfileError::UnsupportedVersion(raw.version));
        }
        let ghost raw0 = raw;
        let RawLockfile { version, revision, requires_python, packages: raw_packages } = raw;
        let ghost ps = raw_packages@;
        let mut packages: Vec<Package> = Vec::new();
        let mut rest = raw_packages;
        let n = rest.len();
        let mut i: usize = 0;
        assert(rest@ =~= ps.subrange(0, ps.len() as int));
        while rest.len() > 0
            invariant
                ps == raw0.packages@,
                raw0 == raw,
                n == ps.len(),
                raw0.version == 1,
                i + rest@.len() == ps.len(),
                rest@ == ps.subrange(i as int, ps.len() as int),
                packages@.len() == i,
                forall|k: int| 0 <= k < i ==> package_ok(#[trigger] ps[k]) && package_rel(ps[k], packages@[k]),
            decreases rest@.len(),
        {
            let rp = rest.remove(0);
            proof {
                assert(rp == ps[i as int]);
                assert(rest@ =~= ps.subrange(i + 1, ps.len() as int));
            }
            match package_from_raw(rp) {
                Ok(p) => packages.push(p),
                Err(e) => {
                    let r: Result<Lockfile, LockfileError> = Err(e);
                    proof {
                        assert(!package_ok(ps[i as int]));
                        assert(0 <= i < ps.len() && !package_ok(ps[i as int]) && (forall|j: int| 0 <= j < i ==> package_ok(#[trigger] ps[j]))
                            && (r matches Err(e2) && package_error(ps[i as int], e2)));
                        assert(raw0.packages@ == ps);
                    }
                    return r;
                },
            }
            i += 1;
        }
        let l = Lockfile { version, revision, requires_python, packages };
        proof {
            assert(!exists|k: int| 0 <= k < ps.len() && !package_ok(#[trigger] ps[k]));
        }
        Ok(l)
    }
}

/// Parses `uv.lock` text: TOML first (a failure is `Parse`), then the
/// fields (a missing or mistyped one is `Parse`), then the checks of
/// [`Lockfile::from_raw`].
pub fn parse(toml_src: &str) -> (r: Result<Lockfile, LockfileError>)
    ensures
        match toml_document(toml_src@) {
            Err(m) => (r matches Err(LockfileError::Parse(p)) && p@ == m),
            Ok(doc) => if raw_lock_ok(doc) {
                exists|raw: RawLockfile| raw_lock_rel(doc, raw) && lock_from_raw_spec(raw, r)
            } else {
                r matches Err(LockfileError::Parse(_))
            },
        },
{
    let doc = match parse_toml(toml_src) {
        Ok(d) => d,
        Err(m) => return Err(LockfileError::Parse(m)),
    };
    let raw = read_raw_lock(&doc)?;
    let ghost raw0 = raw;
    let r = Lockfile::from_raw(raw);
    assert(raw_lock_rel(doc, raw0) && lock_from_raw_spec(raw0, r));
    r
}

} // verus!
