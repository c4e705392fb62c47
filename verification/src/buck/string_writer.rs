//! The string-template implementation of [`BuckEmitter`].

use vstd::prelude::*;

use crate::buck::emit::{BuckEmitter, EmitInput, EmitOutput};

verus! {

/// The string-template emitter; it renders every file empty for now.
pub struct StringTemplateEmitter;

impl BuckEmitter for StringTemplateEmitter {
    fn emit(&self, input: &EmitInput) -> (r: EmitOutput)
        ensures
            r.buck@.len() == 0,
            r.muntjac_bzl@.len() == 0,
            r.config_buck@.len() == 0,
            r.package_file@.len() == 0,
    {
        EmitOutput {
            buck: String::new(),
            muntjac_bzl: String::new(),
            config_buck: String::new(),
            package_file: String::new(),
        }
    }
}

} // verus!
