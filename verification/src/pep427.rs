//! Wheel filename naming rules for distribution names.

use vstd::prelude::*;

use crate::text::{chars_of, push_char, push_str};

verus! {

/// ASCII letter or digit.
pub open spec fn is_ascii_alnum(c: char) -> bool {
    ('a' <= c && c <= 'z') || ('A' <= c && c <= 'Z') || ('0' <= c && c <= '9')
}

/// ASCII lowercase of `c`; other characters are unchanged.
pub open spec fn ascii_lower(c: char) -> char {
    if 'A' <= c && c <= 'Z' {
        ((c as u32) + 32) as char
    } else {
        c
    }
}

/// Executable form of [`is_ascii_alnum`].
pub fn is_ascii_alnum_exec(c: char) -> (r: bool)
    ensures
        r == is_ascii_alnum(c),
{
    ('a' <= c && c <= 'z') || ('A' <= c && c <= 'Z') || ('0' <= c && c <= '9')
}

/// Executable form of [`ascii_lower`].
pub fn ascii_lower_exec(c: char) -> (r: char)
    ensures
        r == ascii_lower(c),
{
    if 'A' <= c && c <= 'Z' {
        let b: u8 = c as u8;
        assert(b == c as u32);
        ((b + 32) as char)
    } else {
        c
    }
}

/// Escaped form of `s`, given whether the text before it ended in a
/// separator: letters and digits are lowercased, and each run of other
/// characters becomes one underscore.
pub open spec fn escape_from(s: Seq<char>, after_sep: bool) -> Seq<char>
    decreases s.len(),
{
    if s.len() == 0 {
        Seq::empty()
    } else if is_ascii_alnum(s[0]) {
        seq![ascii_lower(s[0])] + escape_from(s.drop_first(), false)
    } else if !after_sep {
        seq!['_'] + escape_from(s.drop_first(), true)
    } else {
        escape_from(s.drop_first(), true)
    }
}

/// The escaped distribution name.
pub open spec fn escape_name_spec(s: Seq<char>) -> Seq<char> {
    escape_from(s, false)
}

/// Escape rule for the distribution-name component of a wheel filename:
/// lowercase, and collapse runs of non-alphanumeric characters to a
/// single underscore.
pub fn escape_name(name: &str) -> (r: String)
    ensures
        r@ == escape_name_spec(name@),
{
    let cs = chars_of(name);
    let mut out = String::new();
    let mut last_was_sep = false;
    let mut i: usize = 0;
    assert(cs@.skip(0) =~= cs@);
    assert(out@ + escape_from(cs@, false) =~= escape_from(cs@, false));
    while i < cs.len()
        invariant
            i <= cs@.len(),
            cs@ == name@,
            out@ + escape_from(cs@.skip(i as int), last_was_sep) == escape_from(cs@, false),
        decreases cs@.len() - i,
    {
        let c = cs[i];
        let ghost rest = cs@.skip(i as int);
        assert(rest[0] == c);
        assert(rest.drop_first() =~= cs@.skip(i + 1));
        if is_ascii_alnum_exec(c) {
            let l = ascii_lower_exec(c);
            push_char(&mut out, l);
            last_was_sep = false;
        } else if !last_was_sep {
            push_char(&mut out, '_');
            last_was_sep = true;
        }
        i += 1;
        assert(out@ + escape_from(cs@.skip(i as int), last_was_sep) =~= escape_from(cs@, false));
    }
    assert(cs@.skip(i as int) =~= Seq::<char>::empty());
    assert(out@ =~= out@ + escape_from(cs@.skip(i as int), last_was_sep));
    out
}

/// Wheel filename of a pure-python distribution:
/// `{escape_name(name)}-{version}-py3-none-any.whl`. The version is taken
/// as given (already canonical).
pub fn pure_python_filename(name: &str, version: &str) -> (r: String)
    ensures
        r@ == escape_name_spec(name@) + seq!['-'] + version@ + "-py3-none-any.whl"@,
{
    let mut out = escape_name(name);
    push_char(&mut out, '-');
    push_str(&mut out, version);
    push_str(&mut out, "-py3-none-any.whl");
    out
}

} // verus!
