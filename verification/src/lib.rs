//! Translate `uv.lock` into Buck2 build rules: the verified core.

pub mod buck;
pub mod cache;
pub mod cli;
pub mod config;
pub mod config_toml;
pub mod error;
pub mod fixup;
pub mod fixups_cmd;
pub mod lock;
pub mod paths;
pub mod pick_wheels;
pub mod pep427;
pub mod platform;
pub mod sdist;
pub mod strmap;
pub mod text;
pub mod toml_doc;
pub mod vendor;
pub mod wheel;
