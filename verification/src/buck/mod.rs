//! The BUCK emitter: the input it renders, composed from the lockfile,
//! the per-cell projection, the prebake manifest and the fixups.

pub mod emit;
pub mod string_writer;
pub mod emit_law;
