//! Typed parse of the `[fixups] registry = "…"` field.
//!
//! Three forms:
//!   - `"none"`: no community layer.
//!   - `"file:///abs/path"`: a local checkout.
//!   - `"github.com/<owner>/<repo>"`: a git registry.

use vstd::prelude::*;

use crate::error::{ConfigError, ConfigErrorModel};
use crate::text::{chars_of, has_prefix, owned, slice_chars, split_chars, split_seq, starts_with, str_eq, string_of};

verus! {

/// Parsed registry configuration.
#[derive(Debug, Clone, PartialEq, Eq)]
pub enum RegistryConfig {
    /// No community registry; the community layer is empty.
    NoRegistry,
    /// Local checkout; the path is absolute.
    FileUrl(String),
    /// Git-hosted registry.
    Git { url: String, rev: Option<String> },
}

/// [`RegistryConfig`] with its strings taken as character sequences.
pub enum RegistryModel {
    NoRegistry,
    FileUrl(Seq<char>),
    Git { url: Seq<char>, rev: Option<Seq<char>> },
}

impl View for RegistryConfig {
    type V = RegistryModel;

    open spec fn view(&self) -> RegistryModel {
        match self {
            RegistryConfig::NoRegistry => RegistryModel::NoRegistry,
            RegistryConfig::FileUrl(p) => RegistryModel::FileUrl(p@),
            RegistryConfig::Git { url, rev } => RegistryModel::Git {
                url: url@,
                rev: match rev {
                    Some(r) => Some(r@),
                    None => None,
                },
            },
        }
    }
}

impl RegistryConfig {
    /// The default: no community registry.
    pub fn default_config() -> (r: Self)
        ensures
            r@ == RegistryModel::NoRegistry,
    {
        RegistryConfig::NoRegistry
    }
}

/// `<owner>/<repo>`: exactly two non-empty `/`-separated parts.
pub open spec fn is_owner_repo(rest: Seq<char>) -> bool {
    let parts = split_seq(rest, '/');
    parts.len() == 2 && parts[0].len() > 0 && parts[1].len() > 0
}

/// What [`parse_registry_config`] makes of `raw` and `rev`.
pub open spec fn registry_spec(raw: Seq<char>, rev: Option<Seq<char>>) -> Result<
    RegistryModel,
    ConfigErrorModel,
> {
    if raw == "none"@ {
        Ok(RegistryModel::NoRegistry)
    } else if starts_with(raw, "file://"@) {
        let rest = raw.skip(7);
        if rest.len() > 0 && rest[0] == '/' {
            Ok(RegistryModel::FileUrl(rest))
        } else {
            Err(ConfigErrorModel::RegistryPathNotAbsolute { path: rest })
        }
    } else if starts_with(raw, "github.com/"@) && is_owner_repo(raw.skip(11)) {
        Ok(RegistryModel::Git { url: raw, rev })
    } else {
        Err(ConfigErrorModel::BadRegistry(raw))
    }
}

pub open spec fn opt_str_view(o: Option<&str>) -> Option<Seq<char>> {
    match o {
        Some(s) => Some(s@),
        None => None,
    }
}

/// Parses the raw `registry` string (and optional `registry_rev`) from
/// `muntjac.toml`: `"none"`, an absolute `file://` URL, or
/// `github.com/<owner>/<repo>`. A relative `file://` path is
/// `RegistryPathNotAbsolute`; anything else is `BadRegistry`.
pub fn parse_registry_config(raw: &str, registry_rev: Option<&str>) -> (r: Result<
    RegistryConfig,
    ConfigError,
>)
    ensures
        match (r, registry_spec(raw@, opt_str_view(registry_rev))) {
            (Ok(c), Ok(m)) => c@ == m,
            (Err(e), Err(m)) => e@ == m,
            _ => false,
        },
{
    proof {
        reveal_strlit("none");
        reveal_strlit("file://");
        reveal_strlit("github.com/");
    }
    if str_eq(raw, "none") {
        return Ok(RegistryConfig::NoRegistry);
    }
    let cs = chars_of(raw);
    let file_prefix = chars_of("file://");
    if has_prefix(cs.as_slice(), file_prefix.as_slice()) {
        let rest = slice_chars(cs.as_slice(), 7, cs.len());
        assert(rest@ =~= raw@.skip(7));
        let path = string_of(rest.as_slice());
        if rest.len() == 0 || rest[0] != '/' {
            return Err(ConfigError::RegistryPathNotAbsolute { path });
        }
        return Ok(RegistryConfig::FileUrl(path));
    }
    let gh_prefix = chars_of("github.com/");
    if has_prefix(cs.as_slice(), gh_prefix.as_slice()) {
        let rest = slice_chars(cs.as_slice(), 11, cs.len());
        assert(rest@ =~= raw@.skip(11));
        let parts = split_chars(rest.as_slice(), '/');
        if parts.len() == 2 && parts[0].len() > 0 && parts[1].len() > 0 {
            assert(parts@[0]@ == split_seq(rest@, '/')[0]);
            assert(parts@[1]@ == split_seq(rest@, '/')[1]);
            let rev = match registry_rev {
                Some(s) => Some(owned(s)),
                None => None,
            };
            return Ok(RegistryConfig::Git { url: owned(raw), rev });
        }
        proof {
            if is_owner_repo(rest@) {
                assert(parts@[0]@ == split_seq(rest@, '/')[0]);
                assert(parts@[1]@ == split_seq(rest@, '/')[1]);
            }
        }
    }
    Err(ConfigError::BadRegistry(owned(raw)))
}

} // verus!
