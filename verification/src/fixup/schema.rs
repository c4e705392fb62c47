//! The fixup file model: a top-level body plus cfg-gated sections.

use vstd::prelude::*;

use crate::strmap::StrMap;

verus! {

/// Which console-script entry points to wrap as binaries.
#[derive(Debug, Clone, PartialEq, Eq)]
pub enum EntryPoints {
    /// `true` asks for all of them; `false` for none.
    Auto(bool),
    /// The listed entry points.
    Named(Vec<String>),
}

/// [`EntryPoints`] with its names taken as character sequences.
pub enum EntryPointsModel {
    Auto(bool),
    Named(Seq<Seq<char>>),
}

impl View for EntryPoints {
    type V = EntryPointsModel;

    open spec fn view(&self) -> EntryPointsModel {
        match self {
            EntryPoints::Auto(b) => EntryPointsModel::Auto(*b),
            EntryPoints::Named(v) => EntryPointsModel::Named(crate::text::strings_view(v@)),
        }
    }
}

impl EntryPoints {
    /// A copy of this setting.
    pub fn copy(&self) -> (r: Self)
        ensures
            r@ == self@,
    {
        match self {
            EntryPoints::Auto(b) => EntryPoints::Auto(*b),
            EntryPoints::Named(v) => EntryPoints::Named(crate::text::copy_strings(v)),
        }
    }
}

/// Sdist handling options of a fixup.
#[derive(Debug, Clone, PartialEq, Eq)]
pub struct SdistFixup;

/// One body of fixup settings (the top level, or one cfg section).
#[derive(Debug)]
pub struct FixupBody {
    pub extra_deps: Vec<String>,
    pub omit_deps: Vec<String>,
    pub replace_deps: StrMap<String>,
    pub prefer_wheel: Option<String>,
    pub exclude_wheels: Vec<String>,
    pub overlay: Option<String>,
    pub entry_points: Option<EntryPoints>,
    pub visibility: Option<Vec<String>>,
    pub labels: Vec<String>,
    pub runtime_env: StrMap<String>,
    pub sdist: Option<SdistFixup>,
}

impl FixupBody {
    /// A body that sets nothing.
    pub fn empty() -> (r: Self)
        ensures
            r.extra_deps@.len() == 0,
            r.omit_deps@.len() == 0,
            r.replace_deps.wf() && r.replace_deps.pairs().len() == 0,
            r.prefer_wheel is None,
            r.exclude_wheels@.len() == 0,
            r.overlay is None,
            r.entry_points is None,
            r.visibility is None,
            r.labels@.len() == 0,
            r.runtime_env.wf() && r.runtime_env.pairs().len() == 0,
            r.sdist is None,
    {
        FixupBody {
            extra_deps: Vec::new(),
            omit_deps: Vec::new(),
            replace_deps: StrMap::new(),
            prefer_wheel: None,
            exclude_wheels: Vec::new(),
            overlay: None,
            entry_points: None,
            visibility: None,
            labels: Vec::new(),
            runtime_env: StrMap::new(),
            sdist: None,
        }
    }
}

impl Default for FixupBody {
    fn default() -> (r: Self)
        ensures
            r.extra_deps@.len() == 0,
            r.omit_deps@.len() == 0,
            r.replace_deps.wf() && r.replace_deps.pairs().len() == 0,
            r.prefer_wheel is None,
            r.exclude_wheels@.len() == 0,
            r.overlay is None,
            r.entry_points is None,
            r.visibility is None,
            r.labels@.len() == 0,
            r.runtime_env.wf() && r.runtime_env.pairs().len() == 0,
            r.sdist is None,
    {
        FixupBody::empty()
    }
}

/// A package's fixup: the top-level body and `[cfg."<predicate>"]` sections
/// in file order.
#[derive(Debug)]
pub struct FixupConfig {
    pub top: FixupBody,
    pub cfg_sections: Vec<(String, FixupBody)>,
    /// Drop the community layer's fixup for this package.
    pub replace_community: bool,
}

} // verus!
