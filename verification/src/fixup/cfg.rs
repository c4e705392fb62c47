//! The cfg predicates that gate fixup sections, and what they are evaluated
//! against. Neither carries anything yet: no predicate is parsed, so a
//! section never applies (see [`crate::fixup::layer::resolve_for_cell`]).

use vstd::prelude::*;

verus! {

/// A parsed `cfg(...)` predicate.
#[derive(Debug)]
pub struct CfgPredicate;

/// What a predicate is evaluated against for one cell.
pub struct CfgContext<'a> {
    _marker: core::marker::PhantomData<&'a ()>,
}

} // verus!
