//! The fixups of one layer, by package, and what a fixup file that did not
//! load is reported as. Reading the directories and files is the binary's
//! work.

use vstd::prelude::*;

use crate::fixup::error::FixupError;
use crate::fixup::layer::config_wf;
use crate::fixup::schema::FixupConfig;
use crate::strmap::{lookup, StrMap};
use crate::text::{chars_of, find_char, has_prefix, owned, slice_chars, starts_with, string_of};

verus! {

/// The fixups of one layer, keyed by PEP 503-normalized package name.
#[derive(Debug)]
pub struct FixupSet {
    fixups: StrMap<FixupConfig>,
}

impl FixupSet {
    /// The package-keyed fixups.
    pub closed spec fn configs(&self) -> StrMap<FixupConfig> {
        self.fixups
    }

    /// The map and every fixup's maps are well formed.
    pub open spec fn wf(&self) -> bool {
        &&& self.configs().wf()
        &&& forall|i: int| 0 <= i < self.configs().pairs().len() ==> config_wf(#[trigger] self.configs().pairs()[i].1)
    }

    /// No fixups.
    pub fn empty() -> (r: Self)
        ensures
            r.wf(),
            r.configs().pairs().len() == 0,
    {
        FixupSet { fixups: StrMap::new() }
    }

    /// Adds (or replaces) the fixup of package `name`.
    pub fn insert(&mut self, name: String, config: FixupConfig)
        requires
            old(self).configs().wf(),
        ensures
            final(self).configs().wf(),
            forall|k: Seq<char>| #[trigger] lookup(final(self).configs().pairs(), k) == if k == name@ {
                Some(config)
            } else {
                lookup(old(self).configs().pairs(), k)
            },
    {
        self.fixups.insert(name, config);
    }

    /// The fixups of a package-keyed map.
    pub fn from_map_for_test(fixups: StrMap<FixupConfig>) -> (r: Self)
        ensures
            r.configs() == fixups,
    {
        FixupSet { fixups }
    }

    /// The fixup of package `name`.
    pub fn get(&self, name: &str) -> (r: Option<&FixupConfig>)
        requires
            self.wf(),
        ensures
            match r {
                Some(c) => lookup(self.configs().pairs(), name@) == Some(*c) && config_wf(*c),
                None => lookup(self.configs().pairs(), name@) is None,
            },
    {
        let r = self.fixups.get(name);
        proof {
            if let Some(c) = r {
                let i = choose|i: int| 0 <= i < self.fixups.pairs().len() && self.fixups.pairs()[i].0@ == name@ && self.fixups.pairs()[i].1 == *c;
                assert(config_wf(self.fixups.pairs()[i].1));
            }
        }
        r
    }

    /// The fixups in package-name order.
    pub fn iter(&self) -> (r: &[(String, FixupConfig)])
        ensures
            r@ == self.configs().pairs(),
    {
        self.fixups.entries()
    }

    /// Number of packages with a fixup.
    pub fn len(&self) -> (r: usize)
        ensures
            r == self.configs().pairs().len(),
    {
        self.fixups.len()
    }

    /// No package has a fixup.
    pub fn is_empty(&self) -> (r: bool)
        ensures
            r == (self.configs().pairs().len() == 0),
    {
        self.fixups.len() == 0
    }
}

/// The prefix a TOML error gives an unknown field.
pub open spec fn unknown_field_marker() -> Seq<char> {
    seq!['u', 'n', 'k', 'n', 'o', 'w', 'n', ' ', 'f', 'i', 'e', 'l', 'd', ' ', '`']
}

/// Index of the first occurrence of `needle` in `s`.
#[verifier::opaque]
pub open spec fn find_seq(s: Seq<char>, needle: Seq<char>) -> Option<int> {
    if exists|i: int| 0 <= i <= s.len() - needle.len() && #[trigger] s.subrange(i, i + needle.len()) == needle {
        Some(
            choose|i: int|
                0 <= i <= s.len() - needle.len() && #[trigger] s.subrange(i, i + needle.len()) == needle && forall|k: int|
                    0 <= k < i ==> #[trigger] s.subrange(k, k + needle.len()) != needle,
        )
    } else {
        None
    }
}

/// The field a TOML "unknown field" error names: the text between the first
/// "unknown field `" and the next backquote.
pub open spec fn unknown_field_of(msg: Seq<char>) -> Option<Seq<char>> {
    match find_seq(msg, unknown_field_marker()) {
        Some(i) => {
            let rest = msg.subrange(i + unknown_field_marker().len(), msg.len() as int);
            match crate::text::first_index(rest, '`') {
                Some(j) => Some(rest.subrange(0, j)),
                None => None,
            }
        },
        None => None,
    }
}

/// The first place `needle` occurs in `s`.
fn find_window(s: &[char], needle: &[char]) -> (r: Option<usize>)
    requires
        needle@.len() > 0,
    ensures
        match r {
            Some(i) => find_seq(s@, needle@) == Some(i as int) && i + needle@.len() <= s@.len(),
            None => find_seq(s@, needle@) is None,
        },
{
    reveal(find_seq);
    let len = s.len();
    let n = needle.len();
    if n > len {
        proof {
            if exists|j: int| 0 <= j <= s@.len() - n && #[trigger] s@.subrange(j, j + n) == needle@ {
                let j = choose|j: int| 0 <= j <= s@.len() - n && #[trigger] s@.subrange(j, j + n) == needle@;
            }
        }
        return None;
    }
    let bound = len - n + 1;
    let mut i: usize = 0;
    while i < bound
        invariant
            len == s@.len(),
            n == needle@.len(),
            0 < n <= len,
            bound == len - n + 1,
            i <= bound,
            forall|k: int| 0 <= k < i ==> #[trigger] s@.subrange(k, k + n) != needle@,
        decreases bound - i,
    {
        let window = slice_chars(s, i, i + n);
        if crate::text::chars_eq(window.as_slice(), needle) {
            proof {
                reveal(find_seq);
                let fi = find_seq(s@, needle@);
                assert(s@.subrange(i as int, i + n) == needle@);
                let j = fi->0;
                if j > i {
                    assert(s@.subrange(i as int, i + n) != needle@);
                }
            }
            return Some(i);
        }
        i += 1;
    }
    proof {
        reveal(find_seq);
        if exists|j: int| 0 <= j <= s@.len() - n && #[trigger] s@.subrange(j, j + n) == needle@ {
            let j = choose|j: int| 0 <= j <= s@.len() - n && #[trigger] s@.subrange(j, j + n) == needle@;
            assert(j < i);
        }
    }
    None
}

/// The field an "unknown field" TOML error message names, if it is one.
pub fn extract_unknown_field(msg: &str) -> (r: Option<String>)
    ensures
        match r {
            Some(f) => unknown_field_of(msg@) == Some(f@),
            None => unknown_field_of(msg@) is None,
        },
{
    let cs = chars_of(msg);
    let needle = chars_of("unknown field `");
    proof {
        reveal_strlit("unknown field `");
    }
    assert(needle@ =~= unknown_field_marker());
    let start = match find_window(cs.as_slice(), needle.as_slice()) {
        Some(s) => s,
        None => {
            return None;
        },
    };
    let total = cs.len();
    assert(start + needle@.len() <= total);
    let after = start + needle.len();
    let rest = slice_chars(cs.as_slice(), after, total);
    match find_char(rest.as_slice(), '`') {
        Some(j) => Some(string_of(slice_chars(rest.as_slice(), 0, j).as_slice())),
        None => None,
    }
}

/// What a fixup file whose TOML did not load is reported as: the unknown
/// field its error names, or the parse error itself.
pub fn load_failure(file: &str, message: &str) -> (r: FixupError)
    ensures
        match unknown_field_of(message@) {
            Some(f) => r matches FixupError::UnknownField { file: rf, field } && rf@ == file@ && field@ == f,
            None => r matches FixupError::ParseError { file: rf, source } && rf@ == file@ && source@ == message@,
        },
{
    match extract_unknown_field(message) {
        Some(field) => FixupError::UnknownField { file: owned(file), field },
        None => FixupError::ParseError { file: owned(file), source: owned(message) },
    }
}

/// A community fixup may not opt out of the community layer.
pub fn check_community_fixup(file: &str, config: &FixupConfig) -> (r: Result<(), FixupError>)
    ensures
        config.replace_community ==> (r matches Err(FixupError::ReplaceCommunityInCommunity { file: rf }) && rf@ == file@),
        !config.replace_community ==> r is Ok,
{
    if config.replace_community {
        Err(FixupError::ReplaceCommunityInCommunity { file: owned(file) })
    } else {
        Ok(())
    }
}

} // verus!
