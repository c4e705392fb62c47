//! Lockfile domain types.
//!
//! Mirrors the shape of `uv.lock`, typed and normalized. Names, versions and
//! URLs are held as their canonical text; a dependency marker is held as the
//! PEP 508 marker expression text.

use vstd::prelude::*;

verus! {

#[derive(Debug, Clone)]
pub struct Package {
    /// PEP 503-normalized package name.
    pub name: String,
    /// Canonical PEP 440 version text.
    pub version: String,
    pub source: Source,
    pub dependencies: Vec<DepEdge>,
    pub sdist: Option<Sdist>,
    pub wheels: Vec<Wheel>,
    pub metadata: Option<Metadata>,
}

#[derive(Debug, Clone)]
pub enum Source {
    Registry { url: String },
    Git { url: String, rev: String, subdirectory: Option<String> },
    FirstParty { kind: FirstPartyKind, path: String },
}

#[derive(Debug, Clone, Copy, PartialEq, Eq, Structural)]
pub enum FirstPartyKind {
    Virtual,
    Editable,
    Directory,
    Path,
}

#[derive(Debug, Clone)]
pub struct DepEdge {
    /// PEP 503-normalized name of the dependency.
    pub name: String,
    pub extra: Vec<String>,
    /// PEP 508 marker expression gating the edge, if any.
    pub marker: Option<String>,
}

#[derive(Debug, Clone)]
pub struct Sdist {
    pub url: String,
    pub hash: String,
    pub size: Option<u64>,
}

#[derive(Debug, Clone)]
pub struct Wheel {
    pub url: String,
    pub hash: String,
    pub size: Option<u64>,
    pub filename: String,
}

#[derive(Debug, Clone)]
pub struct Metadata {
    pub requires_dist: Vec<DepEdge>,
    pub provides_extras: Vec<String>,
}

#[derive(Debug, Clone)]
pub struct Lockfile {
    pub version: u32,
    pub revision: u32,
    pub requires_python: String,
    pub packages: Vec<Package>,
}

pub struct WheelModel {
    pub url: Seq<char>,
    pub hash: Seq<char>,
    pub size: Option<u64>,
    pub filename: Seq<char>,
}

impl View for Wheel {
    type V = WheelModel;

    open spec fn view(&self) -> WheelModel {
        WheelModel { url: self.url@, hash: self.hash@, size: self.size, filename: self.filename@ }
    }
}

impl Wheel {
    /// A copy of this wheel record.
    pub fn copy(&self) -> (r: Wheel)
        ensures
            r@ == self@,
    {
        Wheel {
            url: self.url.clone(),
            hash: self.hash.clone(),
            size: self.size,
            filename: self.filename.clone(),
        }
    }
}

} // verus!
