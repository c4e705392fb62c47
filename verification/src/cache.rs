//! Where the download cache lives. The environment and the platform cache
//! directory are read, and the directory created, by the binary.

use vstd::prelude::*;

use crate::error::CacheError;
use crate::sdist::classifier::{join_path, join_spec};
use crate::text::{chars_of, owned};

verus! {

/// `name` pushed onto the path `dir` (`PathBuf::push`): an absolute `name`
/// replaces it, else a separator goes between unless `dir` is empty or
/// already ends with one.
pub open spec fn push_path(dir: Seq<char>, name: Seq<char>) -> Seq<char> {
    if name.len() > 0 && name[0] == '/' {
        name
    } else {
        join_spec(dir, name)
    }
}

pub(crate) fn push_path_exec(dir: &str, name: &str) -> (r: String)
    ensures
        r@ == push_path(dir@, name@),
{
    let n = chars_of(name);
    if n.len() > 0 && n[0] == '/' {
        owned(name)
    } else {
        join_path(dir, name)
    }
}

/// The cache root: `$MUNTJAC_CACHE_HOME` when set (an error when empty),
/// else `muntjac` under the platform cache directory, else an error.
pub fn cache_root_from(env_override: Option<&str>, platform_cache: Option<&str>) -> (r: Result<String, CacheError>)
    ensures
        match env_override {
            Some(e) => if e@.len() == 0 {
                r matches Err(CacheError::CacheRootResolve(m)) && m@ == "MUNTJAC_CACHE_HOME is set but empty"@
            } else {
                r matches Ok(root) && root@ == e@
            },
            None => match platform_cache {
                Some(d) => r matches Ok(root) && root@ == push_path(d@, "muntjac"@),
                None => r matches Err(CacheError::CacheRootResolve(m)) && m@
                    == "neither MUNTJAC_CACHE_HOME nor a platform cache dir is available"@,
            },
        },
{
    match env_override {
        Some(e) => {
            if e.unicode_len() == 0 {
                Err(CacheError::CacheRootResolve("MUNTJAC_CACHE_HOME is set but empty".to_string()))
            } else {
                Ok(owned(e))
            }
        },
        None => match platform_cache {
            Some(d) => Ok(push_path_exec(d, "muntjac")),
            None => Err(
                CacheError::CacheRootResolve("neither MUNTJAC_CACHE_HOME nor a platform cache dir is available".to_string()),
            ),
        },
    }
}

/// `<root>/fixups/<sha>`, where a fixup registry checkout at `sha` is cached.
pub fn fixup_cache_path_for_sha(root: &str, sha: &str) -> (r: String)
    ensures
        r@ == push_path(push_path(root@, "fixups"@), sha@),
{
    let f = push_path_exec(root, "fixups");
    push_path_exec(f.as_str(), sha)
}

} // verus!
