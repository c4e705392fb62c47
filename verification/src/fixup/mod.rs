//! Fixups: per-package build adjustments, their layering and validation.

pub mod cfg;
pub mod diff;
pub mod error;
pub mod layer;
pub mod loader;
pub mod registry;
pub mod schema;
pub mod validate;
pub mod overlay;
