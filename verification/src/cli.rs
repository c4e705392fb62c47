//! Command-line level decisions: which trees a command runs on, whether
//! wheels are vendored, and the python versions a `requires-python` allows.
//! The argument types mirror the command line; parsing them is the
//! binary's business.

use vstd::prelude::*;

use crate::config::{Config, PythonVersion, Tree};
use crate::paths::{join_with, push_joined};
use crate::toml_doc::{get_entry, parse_toml, table_get, toml_document, TomlValue};
use crate::text::{
    chars_of, ends_with, has_prefix, has_suffix, parse_u8, parse_u8_spec, push_str, slice_chars, split_chars, split_seq,
    starts_with, str_eq, strings_view,
};

verus! {

/// Per-invocation override of `[buck] vendor`: `Committed` vendors wheels,
/// `PrebakeOnly` does not.
#[derive(Debug, Clone, Copy, PartialEq, Eq, Structural)]
pub enum ModeFlag {
    Committed,
    PrebakeOnly,
}

/// Options every command accepts.
#[derive(Debug, Clone)]
pub struct Globals {
    /// Run as if invoked from this path.
    pub cd: Option<String>,
    /// Verbosity (repeatable).
    pub verbose: u8,
    /// Forbid any network calls.
    pub no_network: bool,
    /// Forbid running `uv lock`.
    pub frozen: bool,
    /// Operate on one tree of a multi-tree config.
    pub tree: Option<String>,
}

#[derive(Debug, Clone, Default)]
pub struct VendorArgs {
    pub mode: Option<ModeFlag>,
    /// Keep stale wheels in committed mode.
    pub no_prune: bool,
}

#[derive(Debug, Clone, Default)]
pub struct BuckifyArgs {
    pub mode: Option<ModeFlag>,
}

#[derive(Debug, Clone)]
pub struct InitArgs {
    /// Overwrite an existing muntjac.toml.
    pub force: bool,
    /// Target directory (the current one when unset).
    pub path: Option<String>,
}

/// A pyproject.toml found by `init`, with the python versions it allows.
#[derive(Debug, Clone)]
pub struct Detection {
    pub path: String,
    pub python_versions: Vec<PythonVersion>,
}

#[derive(Debug, Clone)]
pub struct ConfigCheckArgs {
    pub format: ConfigCheckFormat,
}

#[derive(Debug, Clone, Copy, PartialEq, Eq, Structural)]
pub enum ConfigCheckFormat {
    Human,
    Json,
}

#[derive(Debug, Clone)]
pub struct PrintDepsArgs {
    pub tree: Option<String>,
    pub pretty: bool,
}

#[derive(Debug, Clone)]
pub struct PickWheelsArgs {
    pub tree: Option<String>,
    pub platform: Option<String>,
    pub python: Option<String>,
    pub package: Option<String>,
}

#[derive(Debug, Clone)]
pub enum DebugOp {
    PrintDeps(PrintDepsArgs),
    PickWheels(PickWheelsArgs),
}

#[derive(Debug, Clone)]
pub enum ConfigOp {
    Check(ConfigCheckArgs),
}

#[derive(Debug, Clone)]
pub enum FixupsOp {
    /// Print the merged fixup of one package.
    Show { package: String },
    /// Fetch the registry and pin `registry_rev` to what was fetched (the
    /// given SHA, branch or tag; the default branch's head when unset).
    Update { rev: Option<String> },
}

#[derive(Debug, Clone)]
pub enum Command {
    Init(InitArgs),
    Config { op: ConfigOp },
    Debug { op: Option<DebugOp> },
    Vendor(VendorArgs),
    Buckify(BuckifyArgs),
    Audit,
    Fixups { op: FixupsOp },
    Unused,
}

#[derive(Debug, Clone)]
pub struct Cli {
    pub globals: Globals,
    pub command: Command,
}

/// Whether wheels are vendored: the override when given, else `[buck] vendor`.
pub fn resolve_vendor_mode(config: &Config, mode_override: Option<ModeFlag>) -> (r: bool)
    ensures
        r == match mode_override {
            Some(ModeFlag::Committed) => true,
            Some(ModeFlag::PrebakeOnly) => false,
            None => config.buck.vendor,
        },
{
    match mode_override {
        Some(ModeFlag::Committed) => true,
        Some(ModeFlag::PrebakeOnly) => false,
        None => config.buck.vendor,
    }
}

/// The tree names, in order.
pub open spec fn tree_names(ts: Seq<Tree>) -> Seq<Seq<char>> {
    ts.map_values(|t: Tree| t.name@)
}

/// Index of the first tree named `n`.
pub open spec fn tree_index(ts: Seq<Tree>, n: Seq<char>) -> Option<int> {
    if exists|i: int| 0 <= i < ts.len() && ts[i].name@ == n {
        Some(choose|i: int| 0 <= i < ts.len() && ts[i].name@ == n && forall|k: int| 0 <= k < i ==> ts[k].name@ != n)
    } else {
        None
    }
}

/// The message for a tree filter that names no tree.
pub open spec fn unknown_tree_message(n: Seq<char>, ts: Seq<Tree>) -> Seq<char> {
    "tree `"@ + n + "` not found in muntjac.toml; available: "@ + join_with(tree_names(ts), ", "@)
}

/// The trees a command runs on: all of them without a filter, else the
/// first tree with that name, or an error listing the available names.
pub fn resolve_trees<'a>(config: &'a Config, tree_filter: Option<&str>) -> (r: Result<Vec<&'a Tree>, String>)
    ensures
        match tree_filter {
            None => r matches Ok(v) && v@ == config.trees@.map_values(|t: Tree| &t),
            Some(n) => match tree_index(config.trees@, n@) {
                Some(i) => r matches Ok(v) && v@.len() == 1 && *v@[0] == config.trees@[i],
                None => r matches Err(m) && m@ == unknown_tree_message(n@, config.trees@),
            },
        },
{
    match tree_filter {
        None => {
            let mut out: Vec<&'a Tree> = Vec::new();
            let mut i: usize = 0;
            while i < config.trees.len()
                invariant
                    i <= config.trees@.len(),
                    out@ == config.trees@.subrange(0, i as int).map_values(|t: Tree| &t),
                decreases config.trees@.len() - i,
            {
                out.push(&config.trees[i]);
                i += 1;
                assert(out@ =~= config.trees@.subrange(0, i as int).map_values(|t: Tree| &t));
            }
            assert(config.trees@.subrange(0, i as int) =~= config.trees@);
            Ok(out)
        },
        Some(name) => {
            let mut i: usize = 0;
            while i < config.trees.len()
                invariant
                    i <= config.trees@.len(),
                    tree_filter == Some(name),
                    forall|k: int| 0 <= k < i ==> config.trees@[k].name@ != name@,
                decreases config.trees@.len() - i,
            {
                if str_eq(config.trees[i].name.as_str(), name) {
                    let mut out: Vec<&'a Tree> = Vec::new();
                    out.push(&config.trees[i]);
                    proof {
                        let ts = config.trees@;
                        assert(ts[i as int].name@ == name@);
                        let j = tree_index(ts, name@)->0;
                        if j > i {
                            assert(ts[i as int].name@ != name@);
                        }
                    }
                    return Ok(out);
                }
                i += 1;
            }
            let mut names: Vec<String> = Vec::new();
            let mut j: usize = 0;
            while j < config.trees.len()
                invariant
                    j <= config.trees@.len(),
                    strings_view(names@) == tree_names(config.trees@).subrange(0, j as int),
                decreases config.trees@.len() - j,
            {
                let ghost pre = names@;
                names.push(config.trees[j].name.clone());
                assert(strings_view(names@) =~= strings_view(pre).push(config.trees@[j as int].name@));
                j += 1;
                assert(strings_view(names@) =~= tree_names(config.trees@).subrange(0, j as int));
            }
            assert(tree_names(config.trees@).subrange(0, j as int) =~= tree_names(config.trees@));
            let mut m = String::new();
            push_str(&mut m, "tree `");
            push_str(&mut m, name);
            push_str(&mut m, "` not found in muntjac.toml; available: ");
            push_joined(&mut m, &names, ", ");
            Err(m)
        },
    }
}

/// `c` is Unicode white space (`char::is_whitespace`).
pub open spec fn is_white(c: char) -> bool {
    ('\u{9}' <= c && c <= '\u{d}') || c == ' ' || c == '\u{85}' || c == '\u{a0}' || c == '\u{1680}' || ('\u{2000}'
        <= c && c <= '\u{200a}') || c == '\u{2028}' || c == '\u{2029}' || c == '\u{202f}' || c == '\u{205f}' || c
        == '\u{3000}'
}

fn is_white_exec(c: char) -> (r: bool)
    ensures
        r == is_white(c),
{
    ('\u{9}' <= c && c <= '\u{d}') || c == ' ' || c == '\u{85}' || c == '\u{a0}' || c == '\u{1680}' || ('\u{2000}'
        <= c && c <= '\u{200a}') || c == '\u{2028}' || c == '\u{2029}' || c == '\u{202f}' || c == '\u{205f}' || c
        == '\u{3000}'
}

/// `s` without leading white space.
pub open spec fn trim_start_ws(s: Seq<char>) -> Seq<char>
    decreases s.len(),
{
    if s.len() > 0 && is_white(s[0]) {
        trim_start_ws(s.drop_first())
    } else {
        s
    }
}

/// `s` without trailing white space.
pub open spec fn trim_end_ws(s: Seq<char>) -> Seq<char>
    decreases s.len(),
{
    if s.len() > 0 && is_white(s.last()) {
        trim_end_ws(s.drop_last())
    } else {
        s
    }
}

/// `s` without white space at either end (`str::trim`).
pub open spec fn trim_ws(s: Seq<char>) -> Seq<char> {
    trim_end_ws(trim_start_ws(s))
}

fn trim_chars(s: &[char]) -> (r: Vec<char>)
    ensures
        r@ == trim_ws(s@),
{
    let mut a: usize = 0;
    proof {
        assert(s@.subrange(0, s@.len() as int) =~= s@);
    }
    while a < s.len() && is_white_exec(s[a])
        invariant
            a <= s@.len(),
            trim_start_ws(s@.subrange(a as int, s@.len() as int)) == trim_start_ws(s@),
        decreases s@.len() - a,
    {
        let ghost t = s@.subrange(a as int, s@.len() as int);
        assert(t.drop_first() =~= s@.subrange(a + 1, s@.len() as int));
        a += 1;
    }
    let mut b: usize = s.len();
    while b > a && is_white_exec(s[b - 1])
        invariant
            a <= b <= s@.len(),
            trim_start_ws(s@) == s@.subrange(a as int, s@.len() as int),
            trim_end_ws(s@.subrange(a as int, b as int)) == trim_ws(s@),
        decreases b - a,
    {
        let ghost t = s@.subrange(a as int, b as int);
        assert(t.drop_last() =~= s@.subrange(a as int, b - 1));
        b -= 1;
    }
    slice_chars(s, a, b)
}

/// `s` with every trailing repeat of `p` removed (`str::trim_end_matches`).
pub open spec fn trim_suffix_all(s: Seq<char>, p: Seq<char>) -> Seq<char>
    decreases s.len(),
{
    if p.len() > 0 && ends_with(s, p) {
        trim_suffix_all(s.subrange(0, s.len() - p.len()), p)
    } else {
        s
    }
}

/// The minor version of a `MAJOR[.MINOR]` bound (a missing minor is `0`),
/// or which part does not parse as a `u8`.
pub open spec fn bound_minor(s: Seq<char>) -> Result<u8, Seq<char>> {
    let ps = split_seq(s, '.');
    if parse_u8_spec(ps[0]) is None {
        Err("major not u8"@)
    } else {
        match parse_u8_spec(if ps.len() >= 2 { ps[1] } else { seq!['0'] }) {
            None => Err("minor not u8"@),
            Some(m) => Ok(m),
        }
    }
}

/// The minor range after one comma-separated part of a `requires-python`:
/// `>=` raises the floor, `<` lowers the ceiling below it, `==X.Y[.*]` pins it.
pub open spec fn bound_step(st: Result<(u8, u8), Seq<char>>, part: Seq<char>) -> Result<(u8, u8), Seq<char>> {
    match st {
        Err(e) => Err(e),
        Ok((lo, hi)) => {
            let p = trim_ws(part);
            if starts_with(p, seq!['>', '=']) {
                match bound_minor(p.subrange(2, p.len() as int)) {
                    Err(e) => Err(e),
                    Ok(m) => Ok((if lo < m { m } else { lo }, hi)),
                }
            } else if starts_with(p, seq!['<']) {
                match bound_minor(p.subrange(1, p.len() as int)) {
                    Err(e) => Err(e),
                    Ok(m) => {
                        let below: u8 = if m == 0 { 0 } else { (m - 1) as u8 };
                        Ok((lo, if below < hi { below } else { hi }))
                    },
                }
            } else if starts_with(p, seq!['=', '=']) {
                let ps = split_seq(trim_suffix_all(p.subrange(2, p.len() as int), seq!['.', '*']), '.');
                if ps.len() >= 2 {
                    match parse_u8_spec(ps[1]) {
                        None => Err("bad minor in == bound"@),
                        Some(m) => Ok((m, m)),
                    }
                } else {
                    Ok((lo, hi))
                }
            } else {
                Ok((lo, hi))
            }
        },
    }
}

/// The minor range after all parts, from `3.11` to `3.13`.
pub open spec fn bounds_of(parts: Seq<Seq<char>>) -> Result<(u8, u8), Seq<char>>
    decreases parts.len(),
{
    if parts.len() == 0 {
        Ok((11u8, 13u8))
    } else {
        bound_step(bounds_of(parts.drop_last()), parts.last())
    }
}

/// Python `3.lo` through `3.hi`.
pub open spec fn versions_between(lo: u8, hi: u8) -> Seq<PythonVersion> {
    Seq::new(if lo <= hi { (hi - lo + 1) as nat } else { 0 }, |i: int| PythonVersion(3, (lo + i) as u8))
}

fn bound_minor_exec(s: &[char]) -> (r: Result<u8, String>)
    ensures
        match (r, bound_minor(s@)) {
            (Ok(a), Ok(b)) => a == b,
            (Err(e), Err(m)) => e@ == m,
            _ => false,
        },
{
    let ps = split_chars(s, '.');
    proof {
        crate::text::lemma_split_seq_nonempty(s@, '.');
    }
    if parse_u8(ps[0].as_slice()).is_none() {
        return Err("major not u8".to_string());
    }
    let minor = if ps.len() >= 2 {
        parse_u8(ps[1].as_slice())
    } else {
        let zero = vec!['0'];
        assert(zero@ =~= seq!['0']);
        parse_u8(zero.as_slice())
    };
    match minor {
        None => Err("minor not u8".to_string()),
        Some(m) => Ok(m),
    }
}

/// Strips every trailing `.*`.
fn trim_star_suffix(s: &[char]) -> (r: Vec<char>)
    ensures
        r@ == trim_suffix_all(s@, seq!['.', '*']),
{
    let p = vec!['.', '*'];
    assert(p@ =~= seq!['.', '*']);
    let mut end: usize = s.len();
    proof {
        assert(s@.subrange(0, end as int) =~= s@);
    }
    while end >= 2 && has_suffix(slice_chars(s, 0, end).as_slice(), p.as_slice())
        invariant
            end <= s@.len(),
            p@ == seq!['.', '*'],
            trim_suffix_all(s@.subrange(0, end as int), p@) == trim_suffix_all(s@, p@),
        decreases end,
    {
        let ghost t = s@.subrange(0, end as int);
        assert(t.subrange(0, t.len() - 2) =~= s@.subrange(0, end - 2));
        end -= 2;
    }
    proof {
        let t = s@.subrange(0, end as int);
        if end < 2 {
            assert(!ends_with(t, p@));
        }
    }
    slice_chars(s, 0, end)
}

/// The python versions a `requires-python` allows, from a small subset of
/// its grammar: comma-separated `>=X.Y`, `<X.Y` and `==X.Y[.*]` bounds over
/// the default range `3.11` to `3.13`; other parts are ignored.
pub fn expand_requires_python(spec: &str) -> (r: Result<Vec<PythonVersion>, String>)
    ensures
        match (r, bounds_of(split_seq(spec@, ','))) {
            (Ok(v), Ok((lo, hi))) => v@ == versions_between(lo, hi),
            (Err(e), Err(m)) => e@ == m,
            _ => false,
        },
{
    let cs = chars_of(spec);
    let parts = split_chars(cs.as_slice(), ',');
    let ghost ps = split_seq(spec@, ',');
    let mut lo: u8 = 11;
    let mut hi: u8 = 13;
    let mut i: usize = 0;
    proof {
        assert(ps.subrange(0, 0) =~= Seq::<Seq<char>>::empty());
    }
    while i < parts.len()
        invariant
            i <= parts@.len(),
            parts@.len() == ps.len(),
            ps == split_seq(spec@, ','),
            forall|k: int| 0 <= k < parts@.len() ==> (#[trigger] parts@[k])@ == ps[k],
            bounds_of(ps.subrange(0, i as int)) == Ok::<(u8, u8), Seq<char>>((lo, hi)),
        decreases parts@.len() - i,
    {
        proof {
            let t = ps.subrange(0, i + 1);
            assert(t.drop_last() =~= ps.subrange(0, i as int));
            assert(t.last() == parts@[i as int]@);
        }
        let p = trim_chars(parts[i].as_slice());
        let ge = vec!['>', '='];
        let lt = vec!['<'];
        let eq = vec!['=', '='];
        assert(ge@ =~= seq!['>', '=']);
        assert(lt@ =~= seq!['<']);
        assert(eq@ =~= seq!['=', '=']);
        if has_prefix(p.as_slice(), ge.as_slice()) {
            match bound_minor_exec(slice_chars(p.as_slice(), 2, p.len()).as_slice()) {
                Err(e) => {
                    proof {
                        lemma_bounds_err(ps, i as int + 1);
                    }
                    return Err(e);
                },
                Ok(m) => {
                    if lo < m {
                        lo = m;
                    }
                },
            }
        } else if has_prefix(p.as_slice(), lt.as_slice()) {
            match bound_minor_exec(slice_chars(p.as_slice(), 1, p.len()).as_slice()) {
                Err(e) => {
                    proof {
                        lemma_bounds_err(ps, i as int + 1);
                    }
                    return Err(e);
                },
                Ok(m) => {
                    let below: u8 = if m == 0 {
                        0
                    } else {
                        m - 1
                    };
                    if below < hi {
                        hi = below;
                    }
                },
            }
        } else if has_prefix(p.as_slice(), eq.as_slice()) {
            let rest = trim_star_suffix(slice_chars(p.as_slice(), 2, p.len()).as_slice());
            let pieces = split_chars(rest.as_slice(), '.');
            if pieces.len() >= 2 {
                match parse_u8(pieces[1].as_slice()) {
                    None => {
                        proof {
                            lemma_bounds_err(ps, i as int + 1);
                        }
                        return Err("bad minor in == bound".to_string());
                    },
                    Some(m) => {
                        lo = m;
                        hi = m;
                    },
                }
            }
        }
        i += 1;
    }
    assert(ps.subrange(0, i as int) =~= ps);
    let mut out: Vec<PythonVersion> = Vec::new();
    let mut m: u16 = lo as u16;
    while m <= hi as u16
        invariant
            lo <= m <= (if lo <= hi { hi + 1 } else { lo as int }),
            out@ == versions_between(lo, hi).subrange(0, m - lo),
        decreases hi + 1 - m,
    {
        out.push(PythonVersion(3, m as u8));
        m = m + 1;
        assert(out@ =~= versions_between(lo, hi).subrange(0, m - lo));
    }
    assert(out@ =~= versions_between(lo, hi));
    Ok(out)
}

proof fn lemma_bounds_err(ps: Seq<Seq<char>>, n: int)
    requires
        0 <= n <= ps.len(),
        bounds_of(ps.subrange(0, n)) is Err,
    ensures
        bounds_of(ps) == bounds_of(ps.subrange(0, n)),
    decreases ps.len() - n,
{
    if n < ps.len() {
        let t = ps.subrange(0, n + 1);
        assert(t.drop_last() =~= ps.subrange(0, n));
        lemma_bounds_err(ps, n + 1);
    } else {
        assert(ps.subrange(0, n) =~= ps);
    }
}

/// What `init` reads of a pyproject.toml: whether it has a `project` table
/// or a `tool.uv` entry, and `project.requires-python`. `None` when the
/// text is not TOML, `project` or `tool` is not a table, or
/// `requires-python` is not a string.
pub open spec fn pyproject_probe(text: Seq<char>) -> Option<(bool, Option<Seq<char>>)> {
    match toml_document(text) {
        Ok(TomlValue::Table(top)) => {
            let project = table_get(top@, "project"@);
            let wants: Option<Option<Seq<char>>> = match project {
                None => Some(None),
                Some(TomlValue::Table(p)) => match table_get(p@, "requires-python"@) {
                    None => Some(None),
                    Some(TomlValue::Str(rp)) => Some(Some(rp@)),
                    Some(_) => None,
                },
                Some(_) => None,
            };
            let uv: Option<bool> = match table_get(top@, "tool"@) {
                None => Some(false),
                Some(TomlValue::Table(t)) => Some(table_get(t@, "uv"@) is Some),
                Some(_) => None,
            };
            match (wants, uv) {
                (Some(rp), Some(u)) => Some((project is Some || u, rp)),
                _ => None,
            }
        },
        _ => None,
    }
}

/// Reads what [`pyproject_probe`] describes.
fn probe_pyproject(toml_src: &str) -> (r: Option<(bool, Option<String>)>)
    ensures
        match (r, pyproject_probe(toml_src@)) {
            (Some(a), Some(b)) => a.0 == b.0 && match (a.1, b.1) {
                (Some(x), Some(y)) => x@ == y,
                (None, None) => true,
                _ => false,
            },
            (None, None) => true,
            _ => false,
        },
{
    let doc = match parse_toml(toml_src) {
        Ok(d) => d,
        Err(_) => return None,
    };
    let top = match &doc {
        TomlValue::Table(t) => t,
        _ => return None,
    };
    let project = get_entry(top, "project");
    let wants: Option<String> = match project {
        None => None,
        Some(TomlValue::Table(p)) => match get_entry(p, "requires-python") {
            None => None,
            Some(TomlValue::Str(rp)) => Some(rp.clone()),
            Some(_) => return None,
        },
        Some(_) => return None,
    };
    let uv = match get_entry(top, "tool") {
        None => false,
        Some(TomlValue::Table(t)) => get_entry(t, "uv").is_some(),
        Some(_) => return None,
    };
    Some((project.is_some() || uv, wants))
}

/// Whether a pyproject.toml has a `project` table or a `tool.uv` entry
/// (false when it does not read as [`pyproject_probe`] expects).
pub fn has_project_or_uv(toml_src: &str) -> (r: bool)
    ensures
        r == match pyproject_probe(toml_src@) {
            Some(p) => p.0,
            None => false,
        },
{
    match probe_pyproject(toml_src) {
        Some(p) => p.0,
        None => false,
    }
}

/// The python versions `init` proposes: those `project.requires-python`
/// allows, else 3.12 alone.
pub open spec fn proposed_versions(text: Seq<char>) -> Seq<PythonVersion> {
    match pyproject_probe(text) {
        Some((_, Some(rp))) => match bounds_of(split_seq(rp, ',')) {
            Ok((lo, hi)) => if versions_between(lo, hi).len() > 0 {
                versions_between(lo, hi)
            } else {
                seq![PythonVersion(3, 12)]
            },
            Err(_) => seq![PythonVersion(3, 12)],
        },
        _ => seq![PythonVersion(3, 12)],
    }
}

/// The python versions a pyproject.toml allows (see [`proposed_versions`]).
pub fn extract_python_versions(toml_src: &str) -> (r: Vec<PythonVersion>)
    ensures
        r@ == proposed_versions(toml_src@),
{
    let mut fallback: Vec<PythonVersion> = Vec::new();
    fallback.push(PythonVersion(3, 12));
    assert(fallback@ =~= seq![PythonVersion(3, 12)]);
    match probe_pyproject(toml_src) {
        Some((_, Some(rp))) => match expand_requires_python(rp.as_str()) {
            Ok(vs) => {
                if vs.len() > 0 {
                    vs
                } else {
                    fallback
                }
            },
            Err(_) => fallback,
        },
        _ => fallback,
    }
}


/// What a command that is not implemented yet answers.
pub open spec fn stub_message(verb: Seq<char>, planned_for: Seq<char>) -> Seq<char> {
    "muntjac "@ + verb + " is not implemented yet (planned for "@ + planned_for + ")"@
}

/// Refuses a command that is not implemented yet, naming when it is planned.
pub fn run(verb: &str, planned_for: &str) -> (r: Result<(), String>)
    ensures
        r matches Err(m) && m@ == stub_message(verb@, planned_for@),
{
    let mut m = String::new();
    crate::text::push_str(&mut m, "muntjac ");
    crate::text::push_str(&mut m, verb);
    crate::text::push_str(&mut m, " is not implemented yet (planned for ");
    crate::text::push_str(&mut m, planned_for);
    crate::text::push_str(&mut m, ")");
    assert(m@ =~= stub_message(verb@, planned_for@));
    Err(m)
}

} // verus!
