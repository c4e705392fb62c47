//! What a prebake produced, and which built file is the wheel. Running the
//! build and hashing the file are the binary's work.

use vstd::prelude::*;

use crate::text::strings_view;
use crate::vendor::{has_whl_extension, stale_wheels, stale_of, text_le};

verus! {

/// A prebaked wheel: where it is, its file name and its SHA-256 (hex).
#[derive(Debug, Clone)]
pub struct PrebakeOutput {
    pub wheel_path: String,
    pub wheel_filename: String,
    pub sha256: String,
}

/// The `.whl` files among what a build wrote, sorted: the build must leave
/// exactly one (`Ok` with its name), else `Err` with all of them.
pub fn single_wheel(listing: &Vec<String>) -> (r: Result<String, Vec<String>>)
    ensures
        ({
            let whl = stale_of(strings_view(listing@), Seq::empty());
            match r {
                Ok(w) => whl.len() == 1 && w@ == whl[0],
                Err(found) => whl.len() != 1 && strings_view(found@).to_multiset() == whl.to_multiset() && forall|a: int, b: int|
                    0 <= a < b < found@.len() ==> text_le(#[trigger] found@[a]@, #[trigger] found@[b]@),
            }
        }),
{
    let none: Vec<String> = Vec::new();
    assert(strings_view(none@) =~= Seq::<Seq<char>>::empty());
    let found = stale_wheels(listing, &none);
    let ghost whl = stale_of(strings_view(listing@), Seq::empty());
    proof {
        vstd::seq_lib::to_multiset_len(strings_view(found@));
        vstd::seq_lib::to_multiset_len(whl);
    }
    if found.len() == 1 {
        proof {
            vstd::seq_lib::to_multiset_contains(strings_view(found@), found@[0]@);
            vstd::seq_lib::to_multiset_contains(whl, found@[0]@);
            assert(strings_view(found@).contains(found@[0]@)) by {
                assert(strings_view(found@)[0] == found@[0]@);
            }
            assert(whl.contains(found@[0]@));
        }
        Ok(found[0].clone())
    } else {
        Err(found)
    }
}

} // verus!
