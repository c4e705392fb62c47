//! Wheel filename parsing and selection.

pub mod compat;
pub mod select;
pub mod tag;
