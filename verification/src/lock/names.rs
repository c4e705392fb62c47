//! Package names, versions and URLs of a lockfile, read through the
//! `pep508_rs`, `pep440_rs` and `url` crates.

use std::str::FromStr;

use vstd::prelude::*;

use crate::pep427::{ascii_lower, is_ascii_alnum};

verus! {

/// `-`, `_` or `.`: the separators a package name may hold.
pub open spec fn is_name_sep(c: char) -> bool {
    c == '-' || c == '_' || c == '.'
}

/// A valid package name: ASCII letters, digits and separators, neither
/// starting nor ending with a separator (the empty name passes).
pub open spec fn valid_package_name(s: Seq<char>) -> bool {
    &&& forall|i: int| 0 <= i < s.len() ==> is_ascii_alnum(#[trigger] s[i]) || is_name_sep(s[i])
    &&& s.len() > 0 ==> !is_name_sep(s[0]) && !is_name_sep(s.last())
}

/// Lowercases letters and turns each run of separators into one `-`;
/// `after_sep` says whether the text before `s` ended in a separator.
pub open spec fn normalize_from(s: Seq<char>, after_sep: bool) -> Seq<char>
    decreases s.len(),
{
    if s.len() == 0 {
        Seq::empty()
    } else if is_name_sep(s[0]) {
        (if after_sep {
            Seq::empty()
        } else {
            seq!['-']
        }) + normalize_from(s.drop_first(), true)
    } else {
        seq![ascii_lower(s[0])] + normalize_from(s.drop_first(), false)
    }
}

/// The normalized form of a valid package name.
pub open spec fn normalized_name(s: Seq<char>) -> Seq<char> {
    normalize_from(s, true)
}

/// The message `pep508_rs` gives for an invalid name.
pub open spec fn invalid_name_message(s: Seq<char>) -> Seq<char> {
    "Not a valid package or extra name: \""@ + s
        + "\". Names must start and end with a letter or digit and may only contain -, _, ., and alphanumeric characters."@
}

/// `pep508_rs::PackageName::from_str` and its `Display`: a valid name is
/// lowercased with separator runs collapsed to `-`; an invalid one gives
/// `InvalidNameError`'s message.
#[verifier::external_body]
pub(crate) fn normalize_package_name(s: &str) -> (r: Result<String, String>)
    ensures
        match r {
            Ok(n) => valid_package_name(s@) && n@ == normalized_name(s@),
            Err(m) => !valid_package_name(s@) && m@ == invalid_name_message(s@),
        },
{
    match pep508_rs::PackageName::from_str(s) {
        Ok(n) => Ok(n.to_string()),
        Err(e) => Err(e.to_string()),
    }
}

/// The PEP 503 normal form of a package name, as fixup directories and the
/// `fixups show` argument are keyed: `Ok` with the normalized name exactly
/// when the name is valid, else `Err` with the message for an invalid name.
pub fn normalize_name(s: &str) -> (r: Result<String, String>)
    ensures
        match r {
            Ok(n) => valid_package_name(s@) && n@ == normalized_name(s@),
            Err(m) => !valid_package_name(s@) && m@ == invalid_name_message(s@),
        },
{
    normalize_package_name(s)
}

/// What `pep440_rs::Version::from_str` gives for `s`: the version's
/// canonical text (its `Display`), or the parse error's message.
pub uninterp spec fn pep440_version(s: Seq<char>) -> Result<Seq<char>, Seq<char>>;

/// Parses a PEP 440 version with `pep440_rs::Version::from_str`, giving its
/// canonical text or the error's message.
#[verifier::external_body]
pub(crate) fn parse_version(s: &str) -> (r: Result<String, String>)
    ensures
        match (r, pep440_version(s@)) {
            (Ok(v), Ok(w)) => v@ == w,
            (Err(e), Err(m)) => e@ == m,
            _ => false,
        },
{
    match pep440_rs::Version::from_str(s) {
        Ok(v) => Ok(v.to_string()),
        Err(e) => Err(e.to_string()),
    }
}

/// What `url::Url::parse` gives for `s`: the URL's serialization, or the
/// parse error's message.
pub uninterp spec fn url_parse(s: Seq<char>) -> Result<Seq<char>, Seq<char>>;

/// Parses a URL with `url::Url::parse`, giving its serialization or the
/// error's message.
#[verifier::external_body]
pub(crate) fn parse_url(s: &str) -> (r: Result<String, String>)
    ensures
        match (r, url_parse(s@)) {
            (Ok(v), Ok(w)) => v@ == w,
            (Err(e), Err(m)) => e@ == m,
            _ => false,
        },
{
    match url::Url::parse(s) {
        Ok(u) => Ok(u.to_string()),
        Err(e) => Err(e.to_string()),
    }
}

} // verus!
