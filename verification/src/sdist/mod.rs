//! Sdist classification (pure-python or native) and the prebake manifest.

pub mod classifier;
pub mod error;
pub mod manifest;
pub mod prebake;
pub mod unpack;
