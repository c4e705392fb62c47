//! `uv.lock` model, dependency graph and per-cell projection.

pub mod cycles;
pub mod graph;
pub mod names;
pub mod parser;
pub mod reach;
pub mod resolved;
pub mod types;
