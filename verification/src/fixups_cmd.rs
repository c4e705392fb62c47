//! What `fixups show` prints for a package and what `fixups update` reports
//! around a new registry pin. Loading the fixups, rendering them as TOML,
//! fetching the registry and rewriting the config are the binary's work.

use vstd::prelude::*;

use crate::cache::{push_path, push_path_exec};
use crate::fixup::diff::{diff_text, lines_view, render_diff, DiffLine};
use crate::fixup::registry::RegistryConfig;
use crate::text::{push_str, str_eq};

verus! {

/// `s` in lower case, as `str::to_lowercase` gives it.
pub uninterp spec fn lowercase(s: Seq<char>) -> Seq<char>;

/// `str::to_lowercase`; the result is named by [`lowercase`].
#[verifier::external_body]
fn to_lowercase(s: &str) -> (r: String)
    ensures
        r@ == lowercase(s@),
{
    s.to_lowercase()
}

/// Where the community layer of `registry` is looked for, as the
/// missing-fixup error names it.
pub open spec fn community_location(registry: RegistryConfig) -> Seq<char> {
    match registry {
        RegistryConfig::NoRegistry => "(none)"@,
        RegistryConfig::FileUrl(p) => push_path(p@, "packages"@),
        RegistryConfig::Git { url, .. } => "git: "@ + url@,
    }
}

/// `<dir>/<layer>/<package, lower case>/fixups.toml`.
pub open spec fn fixup_file(dir: Seq<char>, layer: Seq<char>, package: Seq<char>) -> Seq<char> {
    push_path(push_path(push_path(dir, layer), lowercase(package)), "fixups.toml"@)
}

/// The report of `fixups show` for one tree: the community fixup's TOML and
/// the local one's (with whether it sets `replace_community`), each under a
/// header naming its file when both exist. With neither, an error when the
/// command runs on this tree alone, else a note.
pub open spec fn show_spec(
    package: Seq<char>,
    tree_name: Seq<char>,
    registry: RegistryConfig,
    third_party_dir: Seq<char>,
    community: Option<Seq<char>>,
    local: Option<(Seq<char>, bool)>,
    bail_if_missing: bool,
) -> Result<Seq<char>, Seq<char>> {
    match (community, local) {
        (None, None) => if bail_if_missing {
            Err(
                "no fixup for package '"@ + package + "' (checked community at "@ + community_location(registry)
                    + ", local at "@ + push_path(third_party_dir, "fixups"@) + ")"@,
            )
        } else {
            Ok("# (no fixup for '"@ + package + "' in tree '"@ + tree_name + "')\n"@)
        },
        (Some(c), None) => Ok(c),
        (None, Some(l)) => Ok(l.0),
        (Some(c), Some(l)) => {
            let head = match registry {
                RegistryConfig::FileUrl(p) => "# community: "@ + fixup_file(p@, "packages"@, package) + "\n"@,
                _ => "# community:\n"@,
            };
            let note = if l.1 {
                "# (community fixup above is disabled by replace_community = true)\n"@
            } else {
                Seq::empty()
            };
            Ok(head + c + "\n"@ + note + "# local: "@ + fixup_file(third_party_dir, "fixups"@, package) + "\n"@ + l.0)
        },
    }
}

/// What `fixups show` prints for `package` in one tree (see [`show_spec`]).
pub fn show_report(
    package: &str,
    tree_name: &str,
    registry: &RegistryConfig,
    third_party_dir: &str,
    community: Option<&str>,
    local: Option<(&str, bool)>,
    bail_if_missing: bool,
) -> (r: Result<String, String>)
    ensures
        match r {
            Ok(t) => show_spec(
                package@,
                tree_name@,
                *registry,
                third_party_dir@,
                match community {
                    Some(c) => Some(c@),
                    None => None,
                },
                match local {
                    Some(l) => Some((l.0@, l.1)),
                    None => None,
                },
                bail_if_missing,
            ) == Ok::<Seq<char>, Seq<char>>(t@),
            Err(m) => show_spec(
                package@,
                tree_name@,
                *registry,
                third_party_dir@,
                match community {
                    Some(c) => Some(c@),
                    None => None,
                },
                match local {
                    Some(l) => Some((l.0@, l.1)),
                    None => None,
                },
                bail_if_missing,
            ) == Err::<Seq<char>, Seq<char>>(m@),
        },
{
    match (community, local) {
        (None, None) => {
            if bail_if_missing {
                let mut m = String::new();
                push_str(&mut m, "no fixup for package '");
                push_str(&mut m, package);
                push_str(&mut m, "' (checked community at ");
                match registry {
                    RegistryConfig::NoRegistry => push_str(&mut m, "(none)"),
                    RegistryConfig::FileUrl(p) => {
                        let c = push_path_exec(p.as_str(), "packages");
                        push_str(&mut m, c.as_str());
                    },
                    RegistryConfig::Git { url, .. } => {
                        push_str(&mut m, "git: ");
                        push_str(&mut m, url.as_str());
                    },
                }
                push_str(&mut m, ", local at ");
                let l = push_path_exec(third_party_dir, "fixups");
                push_str(&mut m, l.as_str());
                push_str(&mut m, ")");
                proof {
                    reveal_strlit("(none)");
                    reveal_strlit("git: ");
                }
                assert(m@ =~= show_spec(package@, tree_name@, *registry, third_party_dir@, None, None, true)->Err_0);
                Err(m)
            } else {
                let mut t = String::new();
                push_str(&mut t, "# (no fixup for '");
                push_str(&mut t, package);
                push_str(&mut t, "' in tree '");
                push_str(&mut t, tree_name);
                push_str(&mut t, "')\n");
                assert(t@ =~= show_spec(package@, tree_name@, *registry, third_party_dir@, None, None, false)->Ok_0);
                Ok(t)
            }
        },
        (Some(c), None) => Ok(c.to_string()),
        (None, Some(l)) => Ok(l.0.to_string()),
        (Some(c), Some(l)) => {
            let lower = to_lowercase(package);
            let mut t = String::new();
            match registry {
                RegistryConfig::FileUrl(p) => {
                    let a = push_path_exec(p.as_str(), "packages");
                    let b = push_path_exec(a.as_str(), lower.as_str());
                    let f = push_path_exec(b.as_str(), "fixups.toml");
                    push_str(&mut t, "# community: ");
                    push_str(&mut t, f.as_str());
                    push_str(&mut t, "\n");
                },
                _ => push_str(&mut t, "# community:\n"),
            }
            push_str(&mut t, c);
            push_str(&mut t, "\n");
            if l.1 {
                push_str(&mut t, "# (community fixup above is disabled by replace_community = true)\n");
            }
            let a = push_path_exec(third_party_dir, "fixups");
            let b = push_path_exec(a.as_str(), lower.as_str());
            let f = push_path_exec(b.as_str(), "fixups.toml");
            push_str(&mut t, "# local: ");
            push_str(&mut t, f.as_str());
            push_str(&mut t, "\n");
            push_str(&mut t, l.0);
            assert(t@ =~= show_spec(package@, tree_name@, *registry, third_party_dir@, Some(c@), Some((l.0@, l.1)), bail_if_missing)->Ok_0);
            Ok(t)
        },
    }
}

/// Where `fixups update` fetches from and the rev pinned now; only a git
/// registry can be updated.
pub fn update_source(registry: &RegistryConfig) -> (r: Result<(String, Option<String>), String>)
    ensures
        match *registry {
            RegistryConfig::Git { url, rev } => r matches Ok(p) && p.0@ == url@ && p.1 == rev,
            RegistryConfig::NoRegistry => r matches Err(m) && m@
                == "muntjac fixups update requires a git-based registry; current registry is \"none\""@,
            RegistryConfig::FileUrl(p) => r matches Err(m) && m@
                == "muntjac fixups update requires a git-based registry; current registry is file:// directory form at "@
                + p@,
        },
{
    match registry {
        RegistryConfig::Git { url, rev } => Ok((url.clone(), rev.clone())),
        RegistryConfig::NoRegistry => Err(
            "muntjac fixups update requires a git-based registry; current registry is \"none\"".to_string(),
        ),
        RegistryConfig::FileUrl(p) => {
            let mut m = String::new();
            push_str(&mut m, "muntjac fixups update requires a git-based registry; current registry is file:// directory form at ");
            push_str(&mut m, p.as_str());
            Err(m)
        },
    }
}

/// What `fixups update` does once the new commit is fetched.
#[derive(Debug, Clone, PartialEq, Eq)]
pub enum UpdatePlan {
    /// The pin is that commit already: report it and stop.
    AlreadyAt,
    /// Diff the fixups at the prior pin against the new ones.
    DiffAgainst(String),
    /// Nothing was pinned before.
    InitialPin,
}

/// The plan for a prior pin `prior` and a fetched commit `new_sha`.
pub fn update_plan(prior: Option<&str>, new_sha: &str) -> (r: UpdatePlan)
    ensures
        match prior {
            Some(p) => if p@ == new_sha@ {
                r is AlreadyAt
            } else {
                r matches UpdatePlan::DiffAgainst(q) && q@ == p@
            },
            None => r is InitialPin,
        },
{
    match prior {
        Some(p) => {
            if str_eq(p, new_sha) {
                UpdatePlan::AlreadyAt
            } else {
                UpdatePlan::DiffAgainst(p.to_string())
            }
        },
        None => UpdatePlan::InitialPin,
    }
}

/// The report of a fixup diff: a note when nothing changed, else the diff.
pub fn diff_report(lines: &[DiffLine]) -> (r: String)
    ensures
        lines@.len() == 0 ==> r@ == "(no fixup changes)\n"@,
        lines@.len() > 0 ==> r@ == diff_text(lines_view(lines@)),
{
    if lines.len() == 0 {
        "(no fixup changes)\n".to_string()
    } else {
        render_diff(lines)
    }
}

/// What `toml_edit` makes of the document `text` when the string `value` is
/// stored under `key` in the table `table` (the table is added when absent),
/// the rest of the document kept as written: the new text; `Err(Some(m))`
/// with the parser's message when `text` is not TOML; `Err(None)` when
/// `table` names something other than a table.
pub uninterp spec fn toml_string_set(
    text: Seq<char>,
    table: Seq<char>,
    key: Seq<char>,
    value: Seq<char>,
) -> Result<Seq<char>, Option<Seq<char>>>;

/// Parses `text` as a `toml_edit::DocumentMut`, takes (or adds) the table
/// `table` and sets `key` in it to the string `value`, giving the document
/// as text; the result is named by [`toml_string_set`].
#[verifier::external_body]
fn set_toml_string(text: &str, table: &str, key: &str, value: &str) -> (r: Result<String, Option<String>>)
    ensures
        match (r, toml_string_set(text@, table@, key@, value@)) {
            (Ok(a), Ok(b)) => a@ == b,
            (Err(Some(a)), Err(Some(b))) => a@ == b,
            (Err(None), Err(None)) => true,
            _ => false,
        },
{
    let mut doc: toml_edit::DocumentMut = match text.parse() {
        Ok(d) => d,
        Err(e) => return Err(Some(toml_edit::TomlError::to_string(&e))),
    };
    let item = doc.entry(table).or_insert(toml_edit::Item::Table(toml_edit::Table::new()));
    match item.as_table_mut() {
        Some(t) => {
            t[key] = toml_edit::value(value);
            Ok(doc.to_string())
        },
        None => Err(None),
    }
}

/// The message when `[fixups]` in the config is not a table.
pub open spec fn fixups_not_table_message() -> Seq<char> {
    "[fixups] is not a table"@
}

/// The config text with `[fixups] registry_rev` set to `sha`, the rest of
/// the file kept as written: `Ok` with the new text, or `Err` with the TOML
/// parser's message, or [`fixups_not_table_message`] when `fixups` is not a
/// table.
pub fn pin_registry_rev(text: &str, sha: &str) -> (r: Result<String, String>)
    ensures
        match toml_string_set(text@, "fixups"@, "registry_rev"@, sha@) {
            Ok(t) => r matches Ok(n) && n@ == t,
            Err(Some(m)) => r matches Err(e) && e@ == m,
            Err(None) => r matches Err(e) && e@ == fixups_not_table_message(),
        },
{
    match set_toml_string(text, "fixups", "registry_rev", sha) {
        Ok(t) => Ok(t),
        Err(Some(m)) => Err(m),
        Err(None) => {
            let m = crate::text::owned("[fixups] is not a table");
            proof {
                reveal_strlit("[fixups] is not a table");
            }
            Err(m)
        },
    }
}

/// The closing line of `fixups update`, naming the prior pin when it differs.
pub fn pin_footer(url: &str, new_sha: &str, prior: Option<&str>) -> (r: String)
    ensures
        r@ == "\nPinned "@ + url@ + " @ "@ + new_sha@ + match prior {
            Some(p) => if p@ != new_sha@ {
                " (was: "@ + p@ + ")"@
            } else {
                Seq::empty()
            },
            None => Seq::empty(),
        } + "\n"@,
{
    let mut t = String::new();
    push_str(&mut t, "\nPinned ");
    push_str(&mut t, url);
    push_str(&mut t, " @ ");
    push_str(&mut t, new_sha);
    match prior {
        Some(p) => {
            if !str_eq(p, new_sha) {
                push_str(&mut t, " (was: ");
                push_str(&mut t, p);
                push_str(&mut t, ")");
            }
        },
        None => {},
    }
    push_str(&mut t, "\n");
    t
}

} // verus!
