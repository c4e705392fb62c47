//! Error types of configuration loading and the cache, with their messages.

use vstd::prelude::*;

use crate::text::{copy_string, debug_strings, debug_strings_text, push_str, strings_view};

verus! {

/// Why `muntjac.toml` was refused.
#[derive(Debug)]
pub enum ConfigError {
    /// The TOML text did not parse; the parser's message.
    Parse(String),
    MissingField(String),
    IncompatibleShape,
    DuplicateTreeDir { dir: String, trees: Vec<String> },
    TreeDirIsCfgDir { tree: String, dir: String },
    CfgDirNotDerivable,
    BadPlatform { name: String, reason: String },
    BadPythonVersion(String),
    BadRegistry(String),
    RegistryPathNotAbsolute { path: String },
    BadGroupName(String),
}

/// [`ConfigError`] with its strings taken as character sequences.
pub enum ConfigErrorModel {
    Parse(Seq<char>),
    MissingField(Seq<char>),
    IncompatibleShape,
    DuplicateTreeDir { dir: Seq<char>, trees: Seq<Seq<char>> },
    TreeDirIsCfgDir { tree: Seq<char>, dir: Seq<char> },
    CfgDirNotDerivable,
    BadPlatform { name: Seq<char>, reason: Seq<char> },
    BadPythonVersion(Seq<char>),
    BadRegistry(Seq<char>),
    RegistryPathNotAbsolute { path: Seq<char> },
    BadGroupName(Seq<char>),
}

impl View for ConfigError {
    type V = ConfigErrorModel;

    open spec fn view(&self) -> ConfigErrorModel {
        match self {
            ConfigError::Parse(m) => ConfigErrorModel::Parse(m@),
            ConfigError::MissingField(f) => ConfigErrorModel::MissingField(f@),
            ConfigError::IncompatibleShape => ConfigErrorModel::IncompatibleShape,
            ConfigError::DuplicateTreeDir { dir, trees } => ConfigErrorModel::DuplicateTreeDir {
                dir: dir@,
                trees: strings_view(trees@),
            },
            ConfigError::TreeDirIsCfgDir { tree, dir } => ConfigErrorModel::TreeDirIsCfgDir {
                tree: tree@,
                dir: dir@,
            },
            ConfigError::CfgDirNotDerivable => ConfigErrorModel::CfgDirNotDerivable,
            ConfigError::BadPlatform { name, reason } => ConfigErrorModel::BadPlatform {
                name: name@,
                reason: reason@,
            },
            ConfigError::BadPythonVersion(v) => ConfigErrorModel::BadPythonVersion(v@),
            ConfigError::BadRegistry(r) => ConfigErrorModel::BadRegistry(r@),
            ConfigError::RegistryPathNotAbsolute { path } => ConfigErrorModel::RegistryPathNotAbsolute {
                path: path@,
            },
            ConfigError::BadGroupName(g) => ConfigErrorModel::BadGroupName(g@),
        }
    }
}

/// The message a [`ConfigError`] displays.
pub open spec fn config_error_message(e: ConfigErrorModel) -> Seq<char> {
    match e {
        ConfigErrorModel::Parse(m) => "failed to parse muntjac.toml: "@ + m,
        ConfigErrorModel::MissingField(f) => "missing required field `"@ + f + "`"@,
        ConfigErrorModel::IncompatibleShape =>
            "config cannot mix top-level manifest_path/third_party_dir/python_versions with [tree.*] sections"@,
        ConfigErrorModel::DuplicateTreeDir { dir, trees } => "trees "@ + debug_strings_text(trees)
            + " share third_party_dir `"@ + dir
            + "`; each tree needs a distinct directory"@,
        ConfigErrorModel::TreeDirIsCfgDir { tree, dir } => "tree `"@ + tree
            + "`'s third_party_dir `"@ + dir
            + "` collides with the shared cfg_dir; move the tree under a subdirectory or set [buck] cfg_dir explicitly"@,
        ConfigErrorModel::CfgDirNotDerivable =>
            "cannot derive a shared cfg_dir: trees have no common parent directory; set [buck] cfg_dir explicitly"@,
        ConfigErrorModel::BadPlatform { name, reason } => "invalid platform `"@ + name + "`: "@
            + reason,
        ConfigErrorModel::BadPythonVersion(v) => "invalid python version `"@ + v + "`"@,
        ConfigErrorModel::BadRegistry(r) => "invalid registry `"@ + r
            + "`: expected \"none\", \"file://<path>\", or \"github.com/<owner>/<repo>\""@,
        ConfigErrorModel::RegistryPathNotAbsolute { path } =>
            "registry path must be absolute (got `"@ + path
            + "`); use a full file:// URL or set registry to a path relative to muntjac.toml"@,
        ConfigErrorModel::BadGroupName(g) => "invalid dependency-group name `"@ + g
            + "`: must match [a-z][a-z0-9-]*"@,
    }
}

impl ConfigError {
    /// The error's message.
    pub fn to_string(&self) -> (r: String)
        ensures
            r@ == config_error_message(self@),
    {
        let mut out = String::new();
        match self {
            ConfigError::Parse(m) => {
                push_str(&mut out, "failed to parse muntjac.toml: ");
                push_str(&mut out, m.as_str());
            },
            ConfigError::MissingField(f) => {
                push_str(&mut out, "missing required field `");
                push_str(&mut out, f.as_str());
                push_str(&mut out, "`");
            },
            ConfigError::IncompatibleShape => {
                push_str(
                    &mut out,
                    "config cannot mix top-level manifest_path/third_party_dir/python_versions with [tree.*] sections",
                );
            },
            ConfigError::DuplicateTreeDir { dir, trees } => {
                push_str(&mut out, "trees ");
                let listed = debug_strings(trees);
                push_str(&mut out, listed.as_str());
                push_str(&mut out, " share third_party_dir `");
                push_str(&mut out, dir.as_str());
                push_str(&mut out, "`; each tree needs a distinct directory");
            },
            ConfigError::TreeDirIsCfgDir { tree, dir } => {
                push_str(&mut out, "tree `");
                push_str(&mut out, tree.as_str());
                push_str(&mut out, "`'s third_party_dir `");
                push_str(&mut out, dir.as_str());
                push_str(
                    &mut out,
                    "` collides with the shared cfg_dir; move the tree under a subdirectory or set [buck] cfg_dir explicitly",
                );
            },
            ConfigError::CfgDirNotDerivable => {
                push_str(
                    &mut out,
                    "cannot derive a shared cfg_dir: trees have no common parent directory; set [buck] cfg_dir explicitly",
                );
            },
            ConfigError::BadPlatform { name, reason } => {
                push_str(&mut out, "invalid platform `");
                push_str(&mut out, name.as_str());
                push_str(&mut out, "`: ");
                push_str(&mut out, reason.as_str());
            },
            ConfigError::BadPythonVersion(v) => {
                push_str(&mut out, "invalid python version `");
                push_str(&mut out, v.as_str());
                push_str(&mut out, "`");
            },
            ConfigError::BadRegistry(r) => {
                push_str(&mut out, "invalid registry `");
                push_str(&mut out, r.as_str());
                push_str(
                    &mut out,
                    "`: expected \"none\", \"file://<path>\", or \"github.com/<owner>/<repo>\"",
                );
            },
            ConfigError::RegistryPathNotAbsolute { path } => {
                push_str(&mut out, "registry path must be absolute (got `");
                push_str(&mut out, path.as_str());
                push_str(
                    &mut out,
                    "`); use a full file:// URL or set registry to a path relative to muntjac.toml",
                );
            },
            ConfigError::BadGroupName(g) => {
                push_str(&mut out, "invalid dependency-group name `");
                push_str(&mut out, g.as_str());
                push_str(&mut out, "`: must match [a-z][a-z0-9-]*");
            },
        }
        out
    }
}

/// Why the download cache could not be used.
#[derive(Debug)]
pub enum CacheError {
    /// No cache root could be found; says what was looked for.
    CacheRootResolve(String),
    /// A cache directory could not be created; the path and the I/O error's text.
    CreateDir { path: String, source: String },
}

/// The message a [`CacheError`] displays.
pub open spec fn cache_error_message(e: CacheError) -> Seq<char> {
    match e {
        CacheError::CacheRootResolve(m) => "could not resolve cache root: "@ + m@,
        CacheError::CreateDir { path, source } => "could not create cache directory "@ + path@
            + ": "@ + source@,
    }
}

impl CacheError {
    /// The error's message.
    pub fn to_string(&self) -> (r: String)
        ensures
            r@ == cache_error_message(*self),
    {
        match self {
            CacheError::CacheRootResolve(m) => {
                let mut out = String::new();
                push_str(&mut out, "could not resolve cache root: ");
                push_str(&mut out, m.as_str());
                out
            },
            CacheError::CreateDir { path, source } => {
                let mut out = String::new();
                push_str(&mut out, "could not create cache directory ");
                push_str(&mut out, path.as_str());
                push_str(&mut out, ": ");
                push_str(&mut out, source.as_str());
                out
            },
        }
    }
}

/// Why a `uv.lock` was refused.
#[derive(Debug)]
pub enum LockfileError {
    /// The TOML text did not parse; the parser's message.
    Parse(String),
    UnsupportedVersion(u32),
    BadVersion { package: String, value: String, reason: String },
    BadUrl { package: String, field: String, url: String, reason: String },
    AmbiguousSource { package: String, found: Vec<String> },
    BadMarker { package: String, dep: String, marker: String, reason: String },
    UnresolvedDep { from_pkg: String, dep: String },
    DuplicatePackageName { name: String, versions: Vec<String> },
    /// Each cycle as the display names along it, starting at its smallest.
    Cycle(Vec<Vec<String>>),
    BadPackageName(String, String),
}

/// One cycle line: `  - a -> b -> a` (back to the first member).
pub open spec fn cycle_line(cycle: Seq<Seq<char>>) -> Seq<char> {
    "  - "@ + crate::paths::join_with(cycle, " -> "@) + (if cycle.len() > 0 {
        " -> "@ + cycle[0]
    } else {
        Seq::empty()
    }) + "\n"@
}

/// All cycle lines after the heading.
pub open spec fn cycle_lines(cycles: Seq<Seq<Seq<char>>>) -> Seq<char>
    decreases cycles.len(),
{
    if cycles.len() == 0 {
        Seq::empty()
    } else {
        cycle_lines(cycles.drop_last()) + cycle_line(cycles.last())
    }
}

pub open spec fn nested_view(v: Seq<Vec<String>>) -> Seq<Seq<Seq<char>>> {
    v.map_values(|x: Vec<String>| strings_view(x@))
}

/// The message a [`LockfileError`] displays.
pub open spec fn lockfile_error_message(e: LockfileError) -> Seq<char> {
    match e {
        LockfileError::Parse(m) => "failed to parse uv.lock: "@ + m@,
        LockfileError::UnsupportedVersion(v) => "unsupported uv.lock version `"@ + crate::text::decimal(v as nat)
            + "`; muntjac supports version = 1"@,
        LockfileError::BadVersion { package, value, reason } => "package `"@ + package@ + "`: invalid version `"@
            + value@ + "`: "@ + reason@,
        LockfileError::BadUrl { package, field, url, reason } => "package `"@ + package@ + "`: invalid "@ + field@
            + " URL `"@ + url@ + "`: "@ + reason@,
        LockfileError::AmbiguousSource { package, found } => "package `"@ + package@
            + "`: source must have exactly one of registry/git/virtual/editable/directory/path; found "@
            + debug_strings_text(strings_view(found@)),
        LockfileError::BadMarker { package, dep, marker, reason } => "package `"@ + package@ + "`: dep `"@ + dep@
            + "`: marker `"@ + marker@ + "` failed to parse: "@ + reason@,
        LockfileError::UnresolvedDep { from_pkg, dep } => "package `"@ + from_pkg@ + "`: dep `"@ + dep@
            + "` has no matching [[package]] entry"@,
        LockfileError::DuplicatePackageName { name, versions } => "duplicate package name `"@ + name@
            + "` (found versions "@ + debug_strings_text(strings_view(versions@))
            + "); S1 expects one version per name"@,
        LockfileError::Cycle(cycles) => "dependency cycle(s) detected:\n"@ + cycle_lines(nested_view(cycles@)),
        LockfileError::BadPackageName(n, r) => "invalid package name `"@ + n@ + "`: "@ + r@,
    }
}

fn push_cycle_line(out: &mut String, cycle: &Vec<String>)
    ensures
        final(out)@ == old(out)@ + cycle_line(strings_view(cycle@)),
{
    let ghost o0 = out@;
    let ghost cv = strings_view(cycle@);
    push_str(out, "  - ");
    let mut i: usize = 0;
    while i < cycle.len()
        invariant
            i <= cycle@.len(),
            cv == strings_view(cycle@),
            out@ == o0 + "  - "@ + crate::paths::join_with(cv.subrange(0, i as int), " -> "@),
        decreases cycle@.len() - i,
    {
        assert(cv.subrange(0, i + 1).drop_last() =~= cv.subrange(0, i as int));
        if i > 0 {
            push_str(out, " -> ");
        }
        push_str(out, cycle[i].as_str());
        i += 1;
        assert(out@ =~= o0 + "  - "@ + crate::paths::join_with(cv.subrange(0, i as int), " -> "@));
    }
    assert(cv.subrange(0, i as int) =~= cv);
    if cycle.len() > 0 {
        push_str(out, " -> ");
        push_str(out, cycle[0].as_str());
    }
    push_str(out, "\n");
    assert(out@ =~= o0 + cycle_line(cv));
}

impl LockfileError {
    /// The error's message.
    pub fn to_string(&self) -> (r: String)
        ensures
            r@ == lockfile_error_message(*self),
    {
        let mut out = String::new();
        match self {
            LockfileError::Parse(m) => {
                push_str(&mut out, "failed to parse uv.lock: ");
                push_str(&mut out, m.as_str());
            },
            LockfileError::UnsupportedVersion(v) => {
                push_str(&mut out, "unsupported uv.lock version `");
                crate::text::push_decimal(&mut out, *v as u64);
                push_str(&mut out, "`; muntjac supports version = 1");
            },
            LockfileError::BadVersion { package, value, reason } => {
                push_str(&mut out, "package `");
                push_str(&mut out, package.as_str());
                push_str(&mut out, "`: invalid version `");
                push_str(&mut out, value.as_str());
                push_str(&mut out, "`: ");
                push_str(&mut out, reason.as_str());
            },
            LockfileError::BadUrl { package, field, url, reason } => {
                push_str(&mut out, "package `");
                push_str(&mut out, package.as_str());
                push_str(&mut out, "`: invalid ");
                push_str(&mut out, field.as_str());
                push_str(&mut out, " URL `");
                push_str(&mut out, url.as_str());
                push_str(&mut out, "`: ");
                push_str(&mut out, reason.as_str());
            },
            LockfileError::AmbiguousSource { package, found } => {
                push_str(&mut out, "package `");
                push_str(&mut out, package.as_str());
                push_str(
                    &mut out,
                    "`: source must have exactly one of registry/git/virtual/editable/directory/path; found ",
                );
                let listed = debug_strings(found);
                push_str(&mut out, listed.as_str());
            },
            LockfileError::BadMarker { package, dep, marker, reason } => {
                push_str(&mut out, "package `");
                push_str(&mut out, package.as_str());
                push_str(&mut out, "`: dep `");
                push_str(&mut out, dep.as_str());
                push_str(&mut out, "`: marker `");
                push_str(&mut out, marker.as_str());
                push_str(&mut out, "` failed to parse: ");
                push_str(&mut out, reason.as_str());
            },
            LockfileError::UnresolvedDep { from_pkg, dep } => {
                push_str(&mut out, "package `");
                push_str(&mut out, from_pkg.as_str());
                push_str(&mut out, "`: dep `");
                push_str(&mut out, dep.as_str());
                push_str(&mut out, "` has no matching [[package]] entry");
            },
            LockfileError::DuplicatePackageName { name, versions } => {
                push_str(&mut out, "duplicate package name `");
                push_str(&mut out, name.as_str());
                push_str(&mut out, "` (found versions ");
                let listed = debug_strings(versions);
                push_str(&mut out, listed.as_str());
                push_str(&mut out, "); S1 expects one version per name");
            },
            LockfileError::Cycle(cycles) => {
                push_str(&mut out, "dependency cycle(s) detected:\n");
                let ghost o0 = out@;
                let ghost cv = nested_view(cycles@);
                let mut i: usize = 0;
                while i < cycles.len()
                    invariant
                        i <= cycles@.len(),
                        cv == nested_view(cycles@),
                        out@ == o0 + cycle_lines(cv.subrange(0, i as int)),
                    decreases cycles@.len() - i,
                {
                    assert(cv.subrange(0, i + 1).drop_last() =~= cv.subrange(0, i as int));
                    push_cycle_line(&mut out, &cycles[i]);
                    i += 1;
                    assert(out@ =~= o0 + cycle_lines(cv.subrange(0, i as int)));
                }
                assert(cv.subrange(0, i as int) =~= cv);
            },
            LockfileError::BadPackageName(n, r) => {
                push_str(&mut out, "invalid package name `");
                push_str(&mut out, n.as_str());
                push_str(&mut out, "`: ");
                push_str(&mut out, r.as_str());
            },
        }
        out
    }
}

} // verus!
