//! Errors of fixup loading, resolution and validation, with their messages.

use vstd::prelude::*;

use crate::text::{decimal, push_decimal, push_str};

verus! {

/// Why a fixup could not be loaded, resolved or used. Paths are their text;
/// a wrapped error is its message.
#[derive(Debug)]
pub enum FixupError {
    ParseError { file: String, source: String },
    UnknownField { file: String, field: String },
    CfgParse { file: String, section: String, source: CfgParseError },
    EntryPointsAuto { pkg: String },
    PreferWheelNotFound { pkg: String, sha: String, cell: String, available: String },
    ExcludeWheelsLeavesNone { pkg: String, cell: String },
    OverlayPathOutsideTree { file: String },
    OverlayEmpty { pkg: String, path: String },
    ReplaceDepInvalid { pkg: String, target: String },
    ExtraDepInvalid { pkg: String, target: String },
    BadCfgAtom { atom: String },
    ReplaceCommunityInCommunity { file: String },
    GitRegistryNotImplemented { registry: String },
    RegistryPathNotFound { path: String },
    Io { path: String, source: String },
}

/// A cfg predicate that did not parse.
#[derive(Debug)]
pub enum CfgParseError {
    AtOffset { offset: usize, message: String },
}

/// The message a [`CfgParseError`] displays.
pub open spec fn cfg_parse_message(e: CfgParseError) -> Seq<char> {
    match e {
        CfgParseError::AtOffset { offset, message } => "at byte "@ + decimal(offset as nat) + ": "@ + message@,
    }
}

impl CfgParseError {
    /// The error's message.
    pub fn to_string(&self) -> (r: String)
        ensures
            r@ == cfg_parse_message(*self),
    {
        let mut out = String::new();
        match self {
            CfgParseError::AtOffset { offset, message } => {
                push_str(&mut out, "at byte ");
                push_decimal(&mut out, *offset as u64);
                push_str(&mut out, ": ");
                push_str(&mut out, message.as_str());
            },
        }
        out
    }
}

/// The message a [`FixupError`] displays.
pub open spec fn fixup_error_message(e: FixupError) -> Seq<char> {
    match e {
        FixupError::ParseError { file, source } => "failed to parse fixup at "@ + file@ + ":\n  "@ + source@,
        FixupError::UnknownField { file, field } => "unknown field `"@ + field@ + "` in fixup at "@ + file@,
        FixupError::CfgParse { file, section, source } => "failed to parse cfg() in "@ + file@ + " section `"@
            + section@ + "`:\n  "@ + cfg_parse_message(source),
        FixupError::EntryPointsAuto { pkg } =>
            "entry_points = true is not supported in v1; list the binaries explicitly (e.g. entry_points = [\"ruff\"]).\n  package: "@
            + pkg@,
        FixupError::PreferWheelNotFound { pkg, sha, cell, available } => "prefer_wheel sha256:"@ + sha@
            + " not found for "@ + pkg@ + " on cell "@ + cell@ + ".\n  available wheel shas: "@ + available@,
        FixupError::ExcludeWheelsLeavesNone { pkg, cell } => "exclude_wheels eliminates every wheel for "@ + pkg@
            + " on cell "@ + cell@ + ".\n  loosen the patterns or remove the fixup"@,
        FixupError::OverlayPathOutsideTree { file } =>
            "overlay/ contains a symlink to outside the fixup directory: "@ + file@ + "\n  refusing for safety"@,
        FixupError::OverlayEmpty { pkg, path } => "overlay = \""@ + path@ + "\" is set for "@ + pkg@
            + " but the directory is empty or missing"@,
        FixupError::ReplaceDepInvalid { pkg, target } => "replace_deps target for "@ + pkg@
            + " is not a valid Buck target: `"@ + target@ + "`\n  expected //path:name or :name form"@,
        FixupError::ExtraDepInvalid { pkg, target } => "extra_deps target for "@ + pkg@
            + " is not a valid Buck target: `"@ + target@ + "`\n  expected //path:name or :name form"@,
        FixupError::BadCfgAtom { atom } => "unknown cfg atom `"@ + atom@
            + "`; expected one of: version, python, target_os, target_arch, target_env"@,
        FixupError::ReplaceCommunityInCommunity { file } => "fixup file "@ + file@
            + " sets `replace_community = true`, which is only valid in local fixups, not in the community registry"@,
        FixupError::GitRegistryNotImplemented { registry } =>
            "git-based community registry is not yet implemented (S7b); registry = "@ + registry@
            + " requires either \"none\" or \"file://...\""@,
        FixupError::RegistryPathNotFound { path } => "community registry path "@ + path@ + " does not exist"@,
        FixupError::Io { path, source } => "I/O error reading fixups directory "@ + path@ + ": "@ + source@,
    }
}

impl FixupError {
    /// The error's message.
    pub fn to_string(&self) -> (r: String)
        ensures
            r@ == fixup_error_message(*self),
    {
        let mut out = String::new();
        match self {
            FixupError::ParseError { file, source } => {
                push_str(&mut out, "failed to parse fixup at ");
                push_str(&mut out, file.as_str());
                push_str(&mut out, ":\n  ");
                push_str(&mut out, source.as_str());
            },
            FixupError::UnknownField { file, field } => {
                push_str(&mut out, "unknown field `");
                push_str(&mut out, field.as_str());
                push_str(&mut out, "` in fixup at ");
                push_str(&mut out, file.as_str());
            },
            FixupError::CfgParse { file, section, source } => {
                push_str(&mut out, "failed to parse cfg() in ");
                push_str(&mut out, file.as_str());
                push_str(&mut out, " section `");
                push_str(&mut out, section.as_str());
                push_str(&mut out, "`:\n  ");
                let m = source.to_string();
                push_str(&mut out, m.as_str());
            },
            FixupError::EntryPointsAuto { pkg } => {
                push_str(
                    &mut out,
                    "entry_points = true is not supported in v1; list the binaries explicitly (e.g. entry_points = [\"ruff\"]).\n  package: ",
                );
                push_str(&mut out, pkg.as_str());
            },
            FixupError::PreferWheelNotFound { pkg, sha, cell, available } => {
                push_str(&mut out, "prefer_wheel sha256:");
                push_str(&mut out, sha.as_str());
                push_str(&mut out, " not found for ");
                push_str(&mut out, pkg.as_str());
                push_str(&mut out, " on cell ");
                push_str(&mut out, cell.as_str());
                push_str(&mut out, ".\n  available wheel shas: ");
                push_str(&mut out, available.as_str());
            },
            FixupError::ExcludeWheelsLeavesNone { pkg, cell } => {
                push_str(&mut out, "exclude_wheels eliminates every wheel for ");
                push_str(&mut out, pkg.as_str());
                push_str(&mut out, " on cell ");
                push_str(&mut out, cell.as_str());
                push_str(&mut out, ".\n  loosen the patterns or remove the fixup");
            },
            FixupError::OverlayPathOutsideTree { file } => {
                push_str(&mut out, "overlay/ contains a symlink to outside the fixup directory: ");
                push_str(&mut out, file.as_str());
                push_str(&mut out, "\n  refusing for safety");
            },
            FixupError::OverlayEmpty { pkg, path } => {
                push_str(&mut out, "overlay = \"");
                push_str(&mut out, path.as_str());
                push_str(&mut out, "\" is set for ");
                push_str(&mut out, pkg.as_str());
                push_str(&mut out, " but the directory is empty or missing");
            },
            FixupError::ReplaceDepInvalid { pkg, target } => {
                push_str(&mut out, "replace_deps target for ");
                push_str(&mut out, pkg.as_str());
                push_str(&mut out, " is not a valid Buck target: `");
                push_str(&mut out, target.as_str());
                push_str(&mut out, "`\n  expected //path:name or :name form");
            },
            FixupError::ExtraDepInvalid { pkg, target } => {
                push_str(&mut out, "extra_deps target for ");
                push_str(&mut out, pkg.as_str());
                push_str(&mut out, " is not a valid Buck target: `");
                push_str(&mut out, target.as_str());
                push_str(&mut out, "`\n  expected //path:name or :name form");
            },
            FixupError::BadCfgAtom { atom } => {
                push_str(&mut out, "unknown cfg atom `");
                push_str(&mut out, atom.as_str());
                push_str(&mut out, "`; expected one of: version, python, target_os, target_arch, target_env");
            },
            FixupError::ReplaceCommunityInCommunity { file } => {
                push_str(&mut out, "fixup file ");
                push_str(&mut out, file.as_str());
                push_str(
                    &mut out,
                    " sets `replace_community = true`, which is only valid in local fixups, not in the community registry",
                );
            },
            FixupError::GitRegistryNotImplemented { registry } => {
                push_str(&mut out, "git-based community registry is not yet implemented (S7b); registry = ");
                push_str(&mut out, registry.as_str());
                push_str(&mut out, " requires either \"none\" or \"file://...\"");
            },
            FixupError::RegistryPathNotFound { path } => {
                push_str(&mut out, "community registry path ");
                push_str(&mut out, path.as_str());
                push_str(&mut out, " does not exist");
            },
            FixupError::Io { path, source } => {
                push_str(&mut out, "I/O error reading fixups directory ");
                push_str(&mut out, path.as_str());
                push_str(&mut out, ": ");
                push_str(&mut out, source.as_str());
            },
        }
        out
    }
}

} // verus!
