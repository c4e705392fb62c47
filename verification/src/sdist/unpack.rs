//! Decisions made while unpacking an sdist tarball: which members are
//! refused, the modification time a member's PAX header records, and which
//! directory is the sdist's root. The archive is read by the binary.

use vstd::prelude::*;

use crate::paths::{components, path_components, vecs_view};
use crate::text::{all_digits, chars_of, digits_value, find_char, first_index, owned, parse_unsigned, parse_unsigned_chars, slice_chars, str_eq};

verus! {

/// A member path escapes the archive root: one of its components is the
/// root or a parent directory.
pub open spec fn member_escapes(path: Seq<char>) -> bool {
    exists|i: int|
        0 <= i < path_components(path).len() && (#[trigger] path_components(path)[i] == seq!['/']
            || path_components(path)[i] == seq!['.', '.'])
}

/// Whether a tarball member's path escapes the archive root.
pub fn escapes_archive(path: &str) -> (r: bool)
    ensures
        r == member_escapes(path@),
{
    let cs = components(path);
    let ghost cv = vecs_view(cs@);
    let mut i: usize = 0;
    while i < cs.len()
        invariant
            i <= cs@.len(),
            cv == vecs_view(cs@),
            cv == path_components(path@),
            forall|k: int| 0 <= k < i ==> !(cv[k] == seq!['/'] || cv[k] == seq!['.', '.']),
        decreases cs@.len() - i,
    {
        let c = &cs[i];
        let root = c.len() == 1 && c[0] == '/';
        let parent = c.len() == 2 && c[0] == '.' && c[1] == '.';
        proof {
            assert(cv[i as int] == c@);
            if c@ == seq!['/'] {
                assert(c@[0] == '/');
            }
            if c@ == seq!['.', '.'] {
                assert(c@[0] == '.' && c@[1] == '.');
            }
            if root {
                assert(c@ =~= seq!['/']);
            }
            if parent {
                assert(c@ =~= seq!['.', '.']);
            }
        }
        if root || parent {
            return true;
        }
        i += 1;
    }
    false
}

/// `str::parse::<i64>`: an optional sign, then one or more ASCII digits
/// whose value fits.
pub open spec fn parse_i64_spec(s: Seq<char>) -> Option<i64> {
    if s.len() > 0 && s[0] == '-' {
        let t = s.drop_first();
        if t.len() > 0 && all_digits(t) && digits_value(t) <= 0x8000_0000_0000_0000 {
            Some((0 - digits_value(t)) as i64)
        } else {
            None
        }
    } else {
        match parse_unsigned(s, 0x7fff_ffff_ffff_ffff) {
            Some(v) => Some(v as i64),
            None => None,
        }
    }
}

/// Parses a signed decimal number (`str::parse::<i64>`).
pub fn parse_i64(s: &[char]) -> (r: Option<i64>)
    ensures
        r == parse_i64_spec(s@),
{
    if s.len() > 0 && s[0] == '-' {
        let t = slice_chars(s, 1, s.len());
        assert(t@ =~= s@.drop_first());
        if t.len() > 0 && t[0] == '+' {
            proof {
                assert(!crate::text::is_digit(t@[0]));
            }
            return None;
        }
        match parse_unsigned_chars(t.as_slice(), 0x8000_0000_0000_0000) {
            Some(v) => {
                if v == 0x8000_0000_0000_0000 {
                    Some(i64::MIN)
                } else {
                    Some(0 - (v as i64))
                }
            },
            None => None,
        }
    } else {
        match parse_unsigned_chars(s, 0x7fff_ffff_ffff_ffff) {
            Some(v) => Some(v as i64),
            None => None,
        }
    }
}

/// The whole-seconds part of a PAX `mtime` value: the text before the first `.`.
pub open spec fn whole_seconds(v: Seq<char>) -> Seq<char> {
    match first_index(v, '.') {
        Some(i) => v.subrange(0, i),
        None => v,
    }
}

/// The `mtime` a member's PAX extensions record: the last `mtime` entry
/// whose whole seconds parse.
pub open spec fn pax_mtime_spec(exts: Seq<(Seq<char>, Seq<char>)>) -> Option<i64>
    decreases exts.len(),
{
    if exts.len() == 0 {
        None
    } else {
        let (k, v) = exts.last();
        if k == "mtime"@ && parse_i64_spec(whole_seconds(v)) is Some {
            parse_i64_spec(whole_seconds(v))
        } else {
            pax_mtime_spec(exts.drop_last())
        }
    }
}

pub open spec fn exts_view(v: Seq<(String, String)>) -> Seq<(Seq<char>, Seq<char>)> {
    v.map_values(|p: (String, String)| (p.0@, p.1@))
}

/// The modification time a member's PAX extensions (key, value) record.
pub fn pax_mtime(exts: &Vec<(String, String)>) -> (r: Option<i64>)
    ensures
        r == pax_mtime_spec(exts_view(exts@)),
{
    let ghost ev = exts_view(exts@);
    let mut found: Option<i64> = None;
    let mut i: usize = 0;
    while i < exts.len()
        invariant
            i <= exts@.len(),
            ev == exts_view(exts@),
            found == pax_mtime_spec(ev.subrange(0, i as int)),
        decreases exts@.len() - i,
    {
        let (k, v) = (&exts[i].0, &exts[i].1);
        proof {
            let t = ev.subrange(0, i + 1);
            assert(t.drop_last() =~= ev.subrange(0, i as int));
            assert(t.last() == (k@, v@));
        }
        if str_eq(k.as_str(), "mtime") {
            let vc = chars_of(v.as_str());
            let secs = match find_char(vc.as_slice(), '.') {
                Some(j) => slice_chars(vc.as_slice(), 0, j),
                None => vc,
            };
            assert(secs@ == whole_seconds(v@));
            match parse_i64(secs.as_slice()) {
                Some(s) => {
                    found = Some(s);
                },
                None => {},
            }
        }
        i += 1;
    }
    assert(ev.subrange(0, i as int) =~= ev);
    found
}

/// The sdist's root: the only directory it extracted to, else the
/// extraction directory itself.
pub fn sdist_root(extract_dir: &str, dirs: &Vec<String>) -> (r: String)
    ensures
        dirs@.len() == 1 ==> r@ == dirs@[0]@,
        dirs@.len() != 1 ==> r@ == extract_dir@,
{
    if dirs.len() == 1 {
        dirs[0].clone()
    } else {
        owned(extract_dir)
    }
}

} // verus!
