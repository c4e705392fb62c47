//! Buck target validation: a cheap pre-flight that catches typos in
//! `extra_deps` / `replace_deps` before they reach Buck's parser.

use vstd::prelude::*;

use crate::pep427::{is_ascii_alnum, is_ascii_alnum_exec};
use crate::text::{chars_of, last_index, rfind_char, slice_chars, split_chars, split_seq, starts_with};

verus! {

/// A character allowed in a target name or path: `[A-Za-z0-9_./-]`.
pub open spec fn is_target_char(c: char) -> bool {
    is_ascii_alnum(c) || c == '_' || c == '.' || c == '/' || c == '-'
}

pub open spec fn all_target_chars(s: Seq<char>) -> bool {
    forall|i: int| 0 <= i < s.len() ==> is_target_char(#[trigger] s[i])
}

/// One `/`-separated segment of the package path is acceptable.
pub open spec fn valid_segment(seg: Seq<char>) -> bool {
    &&& seg.len() > 0
    &&& seg != seq!['.']
    &&& seg != seq!['.', '.']
    &&& seg != seq!['.', '.', '.']
    &&& all_target_chars(seg)
}

/// The package part before the last colon: empty, or `//` and a path of
/// valid segments.
pub open spec fn valid_package(pkg: Seq<char>) -> bool {
    pkg.len() == 0 || (starts_with(pkg, seq!['/', '/']) && pkg.len() > 2 && forall|i: int|
        0 <= i < split_seq(pkg.skip(2), '/').len() ==> valid_segment(
            #[trigger] split_seq(pkg.skip(2), '/')[i],
        ))
}

/// `s` is `//path:name` or `:name`, split at its last colon.
pub open spec fn valid_buck_target(s: Seq<char>) -> bool {
    match last_index(s, ':') {
        None => false,
        Some(p) => {
            let name = s.subrange(p + 1, s.len() as int);
            name.len() > 0 && all_target_chars(name) && valid_package(s.subrange(0, p))
        },
    }
}

fn is_target_char_exec(c: char) -> (r: bool)
    ensures
        r == is_target_char(c),
{
    is_ascii_alnum_exec(c) || c == '_' || c == '.' || c == '/' || c == '-'
}

fn all_target_chars_exec(s: &[char]) -> (r: bool)
    ensures
        r == all_target_chars(s@),
{
    let mut i: usize = 0;
    while i < s.len()
        invariant
            i <= s@.len(),
            forall|k: int| 0 <= k < i ==> is_target_char(#[trigger] s@[k]),
        decreases s@.len() - i,
    {
        if !is_target_char_exec(s[i]) {
            return false;
        }
        i += 1;
    }
    true
}

fn valid_segment_exec(seg: &[char]) -> (r: bool)
    ensures
        r == valid_segment(seg@),
{
    let n = seg.len();
    if n == 0 {
        return false;
    }
    let all_dots = n <= 3 && seg[0] == '.' && (n < 2 || seg[1] == '.') && (n < 3 || seg[2] == '.');
    if all_dots {
        proof {
            if n == 1 {
                assert(seg@ =~= seq!['.']);
            } else if n == 2 {
                assert(seg@ =~= seq!['.', '.']);
            } else {
                assert(seg@ =~= seq!['.', '.', '.']);
            }
        }
        return false;
    }
    proof {
        if seg@ == seq!['.'] || seg@ == seq!['.', '.'] || seg@ == seq!['.', '.', '.'] {
            assert(seg@[0] == '.');
        }
    }
    all_target_chars_exec(seg)
}

/// Valid Buck target: optional `//path` followed by `:name`, such as
/// `//third-party/c:libjpeg` or `:local`. Wildcards (`//foo/...`) and
/// `.`/`..` path segments are refused.
pub fn is_valid_buck_target(s: &str) -> (r: bool)
    ensures
        r == valid_buck_target(s@),
{
    let cs = chars_of(s);
    let n = cs.len();
    let found = rfind_char(cs.as_slice(), ':');
    if found.is_none() {
        return false;
    }
    let colon_pos = found.unwrap();
    assert(found == Some(colon_pos));
    assert(colon_pos < cs@.len());
    let name = slice_chars(cs.as_slice(), colon_pos + 1, n);
    if name.len() == 0 || !all_target_chars_exec(name.as_slice()) {
        return false;
    }
    let pkg = slice_chars(cs.as_slice(), 0, colon_pos);
    if pkg.len() == 0 {
        return true;
    }
    if pkg.len() < 2 || pkg[0] != '/' || pkg[1] != '/' {
        proof {
            if starts_with(pkg@, seq!['/', '/']) {
                assert(pkg@.subrange(0, 2) =~= seq!['/', '/']);
                assert(pkg@[0] == pkg@.subrange(0, 2)[0]);
                assert(pkg@[1] == pkg@.subrange(0, 2)[1]);
            }
        }
        return false;
    }
    assert(pkg@.subrange(0, 2) =~= seq!['/', '/']);
    if pkg.len() == 2 {
        return false;
    }
    let path = slice_chars(pkg.as_slice(), 2, pkg.len());
    assert(path@ =~= pkg@.skip(2));
    let segs = split_chars(path.as_slice(), '/');
    let mut i: usize = 0;
    while i < segs.len()
        invariant
            i <= segs@.len(),
            path@ == pkg@.skip(2),
            pkg@ == s@.subrange(0, colon_pos as int),
            last_index(s@, ':') == Some(colon_pos as int),
            starts_with(pkg@, seq!['/', '/']),
            pkg@.len() > 2,
            segs@.len() == split_seq(path@, '/').len(),
            forall|k: int| 0 <= k < segs@.len() ==> (#[trigger] segs@[k])@ == split_seq(path@, '/')[k],
            forall|k: int| 0 <= k < i ==> valid_segment(#[trigger] split_seq(path@, '/')[k]),
        decreases segs@.len() - i,
    {
        assert(segs@[i as int]@ == split_seq(path@, '/')[i as int]);
        if !valid_segment_exec(segs[i].as_slice()) {
            assert(!valid_segment(split_seq(pkg@.skip(2), '/')[i as int]));
            return false;
        }
        i += 1;
    }
    true
}

} // verus!
