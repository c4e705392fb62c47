//! The prebake manifest: which sdists were prebaked, and into what.

use vstd::prelude::*;

use crate::sdist::classifier::AllowlistedBackend;

verus! {

#[derive(Debug, Clone, PartialEq, Eq)]
pub struct Manifest {
    pub version: u32,
    pub entries: Vec<ManifestEntry>,
}

#[derive(Debug, Clone, PartialEq, Eq)]
pub struct ManifestEntry {
    pub package: String,
    pub version: String,
    pub sdist_sha256: String,
    pub classification: ManifestClassification,
}

#[derive(Debug, Clone, PartialEq, Eq)]
pub enum ManifestClassification {
    PurePython { backend: AllowlistedBackend, wheel_filename: String, wheel_sha256: String },
    Native { reason: String },
}

impl Manifest {
    /// A version-1 manifest with no entries.
    pub fn empty() -> (r: Self)
        ensures
            r.version == 1,
            r.entries@.len() == 0,
    {
        Manifest { version: 1, entries: Vec::new() }
    }
}

} // verus!
