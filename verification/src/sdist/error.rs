//! Errors of sdist classification and prebaking, with their messages.

use vstd::prelude::*;

use crate::sdist::classifier::ClassifyError;
use crate::text::{debug_strings, debug_strings_text, decimal, push_decimal, push_str, strings_view};

verus! {

/// The message a [`ClassifyError`] displays.
pub open spec fn classify_error_message(e: ClassifyError) -> Seq<char> {
    match e {
        ClassifyError::NotADir(p) => "sdist root `"@ + p@ + "` does not exist or is not a directory"@,
        ClassifyError::Io { path, source } => "failed to read `"@ + path@ + "`: "@ + source@,
        ClassifyError::BadToml { path, source } => "failed to parse `"@ + path@ + "` as TOML: "@ + source@,
    }
}

impl ClassifyError {
    /// The error's message.
    pub fn to_string(&self) -> (r: String)
        ensures
            r@ == classify_error_message(*self),
    {
        let mut out = String::new();
        match self {
            ClassifyError::NotADir(p) => {
                push_str(&mut out, "sdist root `");
                push_str(&mut out, p.as_str());
                push_str(&mut out, "` does not exist or is not a directory");
            },
            ClassifyError::Io { path, source } => {
                push_str(&mut out, "failed to read `");
                push_str(&mut out, path.as_str());
                push_str(&mut out, "`: ");
                push_str(&mut out, source.as_str());
            },
            ClassifyError::BadToml { path, source } => {
                push_str(&mut out, "failed to parse `");
                push_str(&mut out, path.as_str());
                push_str(&mut out, "` as TOML: ");
                push_str(&mut out, source.as_str());
            },
        }
        out
    }
}

/// Why an sdist could not be prebaked. Paths are their text; a wrapped I/O,
/// download or parse error is its message.
#[derive(Debug)]
pub enum SdistError {
    Classify(ClassifyError),
    UvNotFound,
    UvSpawnFailed { source: String },
    PrebakeFailed { package: String, version: String, stderr: String },
    PrebakeOutputUnexpected { package: String, version: String, out_dir: String, found: Vec<String> },
    Download { package: String, version: String, url: String, source: String },
    HashMismatch { package: String, version: String, expected: String, actual: String },
    Extract { package: String, version: String, source: String },
    PathTraversal { package: String, version: String, member: String },
    ManifestWrite { path: String, source: String },
    ManifestParse { path: String, source: String },
    ManifestRead { path: String, source: String },
}

/// The message an [`SdistError`] displays.
pub open spec fn sdist_error_message(e: SdistError) -> Seq<char> {
    match e {
        SdistError::Classify(c) => "classifier failure: "@ + classify_error_message(c),
        SdistError::UvNotFound => "`uv` binary not found on PATH; install uv (see https://docs.astral.sh/uv)"@,
        SdistError::UvSpawnFailed { source } => "failed to spawn `uv`: "@ + source@,
        SdistError::PrebakeFailed { package, version, stderr } => "`uv build --wheel` failed for "@ + package@ + " "@
            + version@ + ":\n--- uv stderr ---\n"@ + stderr@,
        SdistError::PrebakeOutputUnexpected { package, version, out_dir, found } => "`uv build` for "@ + package@
            + " "@ + version@ + " produced "@ + decimal(found@.len()) + " wheel(s) in "@ + out_dir@ + " (expected 1): "@
            + debug_strings_text(strings_view(found@)),
        SdistError::Download { package, version, url, source } => "failed to download `"@ + url@ + "` for "@
            + package@ + " "@ + version@ + ": "@ + source@,
        SdistError::HashMismatch { package, version, expected, actual } => "sha256 mismatch for "@ + package@ + " "@
            + version@ + ": lockfile says `"@ + expected@ + "`, got `"@ + actual@ + "`"@,
        SdistError::Extract { package, version, source } => "failed to extract tarball for "@ + package@ + " "@
            + version@ + ": "@ + source@,
        SdistError::PathTraversal { package, version, member } => "refused to extract `"@ + member@ + "` from "@
            + package@ + " "@ + version@ + ": path escapes archive root"@,
        SdistError::ManifestWrite { path, source } => "failed to write manifest `"@ + path@ + "`: "@ + source@,
        SdistError::ManifestParse { path, source } => "failed to parse manifest `"@ + path@ + "`: "@ + source@,
        SdistError::ManifestRead { path, source } => "failed to read manifest `"@ + path@ + "`: "@ + source@,
    }
}

impl SdistError {
    /// The error's message.
    pub fn to_string(&self) -> (r: String)
        ensures
            r@ == sdist_error_message(*self),
    {
        let mut out = String::new();
        match self {
            SdistError::Classify(c) => {
                push_str(&mut out, "classifier failure: ");
                let m = c.to_string();
                push_str(&mut out, m.as_str());
            },
            SdistError::UvNotFound => {
                push_str(&mut out, "`uv` binary not found on PATH; install uv (see https://docs.astral.sh/uv)");
            },
            SdistError::UvSpawnFailed { source } => {
                push_str(&mut out, "failed to spawn `uv`: ");
                push_str(&mut out, source.as_str());
            },
            SdistError::PrebakeFailed { package, version, stderr } => {
                push_str(&mut out, "`uv build --wheel` failed for ");
                push_str(&mut out, package.as_str());
                push_str(&mut out, " ");
                push_str(&mut out, version.as_str());
                push_str(&mut out, ":\n--- uv stderr ---\n");
                push_str(&mut out, stderr.as_str());
            },
            SdistError::PrebakeOutputUnexpected { package, version, out_dir, found } => {
                push_str(&mut out, "`uv build` for ");
                push_str(&mut out, package.as_str());
                push_str(&mut out, " ");
                push_str(&mut out, version.as_str());
                push_str(&mut out, " produced ");
                push_decimal(&mut out, found.len() as u64);
                push_str(&mut out, " wheel(s) in ");
                push_str(&mut out, out_dir.as_str());
                push_str(&mut out, " (expected 1): ");
                let listed = debug_strings(found);
                push_str(&mut out, listed.as_str());
            },
            SdistError::Download { package, version, url, source } => {
                push_str(&mut out, "failed to download `");
                push_str(&mut out, url.as_str());
                push_str(&mut out, "` for ");
                push_str(&mut out, package.as_str());
                push_str(&mut out, " ");
                push_str(&mut out, version.as_str());
                push_str(&mut out, ": ");
                push_str(&mut out, source.as_str());
            },
            SdistError::HashMismatch { package, version, expected, actual } => {
                push_str(&mut out, "sha256 mismatch for ");
                push_str(&mut out, package.as_str());
                push_str(&mut out, " ");
                push_str(&mut out, version.as_str());
                push_str(&mut out, ": lockfile says `");
                push_str(&mut out, expected.as_str());
                push_str(&mut out, "`, got `");
                push_str(&mut out, actual.as_str());
                push_str(&mut out, "`");
            },
            SdistError::Extract { package, version, source } => {
                push_str(&mut out, "failed to extract tarball for ");
                push_str(&mut out, package.as_str());
                push_str(&mut out, " ");
                push_str(&mut out, version.as_str());
                push_str(&mut out, ": ");
                push_str(&mut out, source.as_str());
            },
            SdistError::PathTraversal { package, version, member } => {
                push_str(&mut out, "refused to extract `");
                push_str(&mut out, member.as_str());
                push_str(&mut out, "` from ");
                push_str(&mut out, package.as_str());
                push_str(&mut out, " ");
                push_str(&mut out, version.as_str());
                push_str(&mut out, ": path escapes archive root");
            },
            SdistError::ManifestWrite { path, source } => {
                push_str(&mut out, "failed to write manifest `");
                push_str(&mut out, path.as_str());
                push_str(&mut out, "`: ");
                push_str(&mut out, source.as_str());
            },
            SdistError::ManifestParse { path, source } => {
                push_str(&mut out, "failed to parse manifest `");
                push_str(&mut out, path.as_str());
                push_str(&mut out, "`: ");
                push_str(&mut out, source.as_str());
            },
            SdistError::ManifestRead { path, source } => {
                push_str(&mut out, "failed to read manifest `");
                push_str(&mut out, path.as_str());
                push_str(&mut out, "`: ");
                push_str(&mut out, source.as_str());
            },
        }
        out
    }
}

} // verus!
