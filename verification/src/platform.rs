//! The PEP 508 marker environment of a (platform, python version) cell, and
//! marker evaluation in it.

use std::str::FromStr;

use vstd::prelude::*;

use crate::config::{known_triples, Platform, PythonVersion};
use crate::lock::names::{normalized_name, valid_package_name};
use crate::text::{decimal, ends_with, push_char, push_decimal, push_str, starts_with, str_eq, strings_view};

verus! {

/// The values a marker can test.
#[derive(Debug, Clone)]
pub struct MarkerEnv {
    pub implementation_name: String,
    pub implementation_version: String,
    pub os_name: String,
    pub platform_machine: String,
    pub platform_python_implementation: String,
    pub platform_release: String,
    pub platform_system: String,
    pub platform_version: String,
    pub python_full_version: String,
    pub python_version: String,
    pub sys_platform: String,
}

pub struct MarkerEnvModel {
    pub implementation_name: Seq<char>,
    pub implementation_version: Seq<char>,
    pub os_name: Seq<char>,
    pub platform_machine: Seq<char>,
    pub platform_python_implementation: Seq<char>,
    pub platform_release: Seq<char>,
    pub platform_system: Seq<char>,
    pub platform_version: Seq<char>,
    pub python_full_version: Seq<char>,
    pub python_version: Seq<char>,
    pub sys_platform: Seq<char>,
}

impl View for MarkerEnv {
    type V = MarkerEnvModel;

    open spec fn view(&self) -> MarkerEnvModel {
        MarkerEnvModel {
            implementation_name: self.implementation_name@,
            implementation_version: self.implementation_version@,
            os_name: self.os_name@,
            platform_machine: self.platform_machine@,
            platform_python_implementation: self.platform_python_implementation@,
            platform_release: self.platform_release@,
            platform_system: self.platform_system@,
            platform_version: self.platform_version@,
            python_full_version: self.python_full_version@,
            python_version: self.python_version@,
            sys_platform: self.sys_platform@,
        }
    }
}

/// `os_name`, `sys_platform`, `platform_system` and `platform_machine` of a
/// target triple; all empty for a triple not listed.
pub open spec fn env_strings(target: Seq<char>) -> (Seq<char>, Seq<char>, Seq<char>, Seq<char>) {
    if target == "x86_64-unknown-linux-gnu"@ || target == "x86_64-unknown-linux-musl"@ {
        ("posix"@, "linux"@, "Linux"@, "x86_64"@)
    } else if target == "aarch64-unknown-linux-gnu"@ || target == "aarch64-unknown-linux-musl"@ {
        ("posix"@, "linux"@, "Linux"@, "aarch64"@)
    } else if target == "x86_64-apple-darwin"@ {
        ("posix"@, "darwin"@, "Darwin"@, "x86_64"@)
    } else if target == "aarch64-apple-darwin"@ {
        ("posix"@, "darwin"@, "Darwin"@, "arm64"@)
    } else {
        (Seq::empty(), Seq::empty(), Seq::empty(), Seq::empty())
    }
}

/// The environment strings of a target triple (see [`env_strings`]).
pub fn derive_env_strings(target: &str) -> (r: (String, String, String, String))
    ensures
        (r.0@, r.1@, r.2@, r.3@) == env_strings(target@),
{
    if str_eq(target, "x86_64-unknown-linux-gnu") || str_eq(target, "x86_64-unknown-linux-musl") {
        ("posix".to_string(), "linux".to_string(), "Linux".to_string(), "x86_64".to_string())
    } else if str_eq(target, "aarch64-unknown-linux-gnu") || str_eq(target, "aarch64-unknown-linux-musl") {
        ("posix".to_string(), "linux".to_string(), "Linux".to_string(), "aarch64".to_string())
    } else if str_eq(target, "x86_64-apple-darwin") {
        ("posix".to_string(), "darwin".to_string(), "Darwin".to_string(), "x86_64".to_string())
    } else if str_eq(target, "aarch64-apple-darwin") {
        ("posix".to_string(), "darwin".to_string(), "Darwin".to_string(), "arm64".to_string())
    } else {
        (String::new(), String::new(), String::new(), String::new())
    }
}

/// `MAJOR.MINOR` of a python version.
pub open spec fn short_version(v: PythonVersion) -> Seq<char> {
    decimal(v.0 as nat) + seq!['.'] + decimal(v.1 as nat)
}

/// The marker environment of a cell: CPython at `MAJOR.MINOR.0` on the
/// platform's target.
pub open spec fn marker_env_spec(p: Platform, v: PythonVersion) -> MarkerEnvModel {
    let (os, sys, system, machine) = env_strings(p.target@);
    let full = short_version(v) + ".0"@;
    MarkerEnvModel {
        implementation_name: "cpython"@,
        implementation_version: full,
        os_name: os,
        platform_machine: machine,
        platform_python_implementation: "CPython"@,
        platform_release: Seq::empty(),
        platform_system: system,
        platform_version: Seq::empty(),
        python_full_version: full,
        python_version: short_version(v),
        sys_platform: sys,
    }
}

/// The marker environment of a cell (see [`marker_env_spec`]).
pub fn marker_env(platform: &Platform, python: PythonVersion) -> (r: MarkerEnv)
    ensures
        r@ == marker_env_spec(*platform, python),
{
    let (os_name, sys_platform, platform_system, platform_machine) = derive_env_strings(platform.target.as_str());
    let mut short = String::new();
    push_decimal(&mut short, python.0 as u64);
    push_char(&mut short, '.');
    push_decimal(&mut short, python.1 as u64);
    assert(short@ =~= short_version(python));
    let mut full = short.clone();
    push_str(&mut full, ".0");
    MarkerEnv {
        implementation_name: "cpython".to_string(),
        implementation_version: full.clone(),
        os_name,
        platform_machine,
        platform_python_implementation: "CPython".to_string(),
        platform_release: String::new(),
        platform_system,
        platform_version: String::new(),
        python_full_version: full,
        python_version: short,
        sys_platform,
    }
}

/// What `pep508_rs` makes of a marker: the text parsed by
/// `MarkerTree::from_str`, evaluated by `MarkerTree::evaluate` in the
/// environment that `MarkerEnvironment::try_from` builds from `env`, with the
/// extras parsed by `ExtraName::from_str`; `None` when one of them does not
/// parse.
pub uninterp spec fn marker_holds(marker: Seq<char>, env: MarkerEnvModel, extras: Seq<Seq<char>>) -> Option<bool>;

/// Evaluates a PEP 508 marker with `pep508_rs` (see [`marker_holds`]); the
/// result is named, not stated.
#[verifier::external_body]
fn evaluate_marker(marker: &str, env: &MarkerEnv, extras: &Vec<String>) -> (r: Option<bool>)
    ensures
        r == marker_holds(marker@, env@, strings_view(extras@)),
{
    let tree = pep508_rs::MarkerTree::from_str(marker).ok()?;
    let e = env;
    let built = pep508_rs::MarkerEnvironment::try_from(pep508_rs::MarkerEnvironmentBuilder {
        implementation_name: &e.implementation_name, implementation_version: &e.implementation_version,
        os_name: &e.os_name, platform_machine: &e.platform_machine,
        platform_python_implementation: &e.platform_python_implementation, platform_release: &e.platform_release,
        platform_system: &e.platform_system, platform_version: &e.platform_version,
        python_full_version: &e.python_full_version, python_version: &e.python_version, sys_platform: &e.sys_platform,
    }).ok()?;
    let names = extras.iter().map(|x| pep508_rs::ExtraName::from_str(x)).collect::<Result<Vec<_>, _>>().ok()?;
    Some(tree.evaluate(&built, &names))
}

/// An optional marker holds: no marker always does; a marker that does not
/// parse never does.
pub open spec fn marker_applies(marker: Option<Seq<char>>, env: MarkerEnvModel, extras: Seq<Seq<char>>) -> bool {
    match marker {
        None => true,
        Some(m) => marker_holds(m, env, extras) == Some(true),
    }
}

/// Whether an optional marker holds in `env` with `extras` active.
pub fn edge_applies(marker: Option<&str>, env: &MarkerEnv, extras: &Vec<String>) -> (r: bool)
    ensures
        r == marker_applies(
            match marker {
                Some(m) => Some(m@),
                None => None,
            },
            env@,
            strings_view(extras@),
        ),
{
    match marker {
        None => true,
        Some(m) => evaluate_marker(m, env, extras) == Some(true),
    }
}

/// Whether an optional marker holds in `env`, no extra active.
pub fn marker_matches(marker: Option<&str>, env: &MarkerEnv) -> (r: bool)
    ensures
        r == marker_applies(
            match marker {
                Some(m) => Some(m@),
                None => None,
            },
            env@,
            Seq::empty(),
        ),
{
    let none: Vec<String> = Vec::new();
    assert(strings_view(none@) =~= Seq::<Seq<char>>::empty());
    edge_applies(marker, env, &none)
}

/// `pep508_rs::ExtraName::from_str` and its `Display`: extras normalize as
/// package names do.
#[verifier::external_body]
pub(crate) fn normalize_extra(s: &str) -> (r: Option<String>)
    ensures
        match r {
            Some(n) => valid_package_name(s@) && n@ == normalized_name(s@),
            None => !valid_package_name(s@),
        },
{
    pep508_rs::ExtraName::from_str(s).ok().map(|n| n.to_string())
}


proof fn lemma_ends_with_last(t: Seq<char>, x: Seq<char>)
    requires
        x.len() > 0,
    ensures
        ends_with(t, x) ==> t.last() == x.last(),
{
    if ends_with(t, x) {
        assert(t.subrange(t.len() - x.len(), t.len() as int)[x.len() - 1] == t[t.len() - 1]);
    }
}

proof fn lemma_triple_env(t: Seq<char>)
    requires
        known_triples().contains(t),
    ensures
        env_strings(t).0 == "posix"@,
        env_strings(t).1.len() > 0,
        env_strings(t).2.len() > 0,
        env_strings(t).3.len() > 0,
        (ends_with(t, "-unknown-linux-gnu"@) || ends_with(t, "-unknown-linux-musl"@)) ==> env_strings(t).1 == "linux"@
            && env_strings(t).2 == "Linux"@ && starts_with(t, env_strings(t).3 + "-"@),
        ends_with(t, "-apple-darwin"@) ==> env_strings(t).1 == "darwin"@ && env_strings(t).2 == "Darwin"@,
        ends_with(t, "-apple-darwin"@) && starts_with(t, "aarch64-"@) ==> env_strings(t).3 == "arm64"@,
        ends_with(t, "-apple-darwin"@) && starts_with(t, "x86_64-"@) ==> env_strings(t).3 == "x86_64"@,
{
    reveal_strlit("aarch64-");
    reveal_strlit("x86_64-");
    reveal_strlit("x86_64-unknown-linux-gnu");
    reveal_strlit("aarch64-unknown-linux-gnu");
    reveal_strlit("x86_64-unknown-linux-musl");
    reveal_strlit("aarch64-unknown-linux-musl");
    reveal_strlit("x86_64-apple-darwin");
    reveal_strlit("aarch64-apple-darwin");
    reveal_strlit("-unknown-linux-gnu");
    reveal_strlit("-unknown-linux-musl");
    reveal_strlit("-apple-darwin");
    reveal_strlit("posix");
    reveal_strlit("linux");
    reveal_strlit("Linux");
    reveal_strlit("darwin");
    reveal_strlit("Darwin");
    reveal_strlit("x86_64");
    reveal_strlit("aarch64");
    reveal_strlit("arm64");
    reveal_strlit("-");
    let k = known_triples();
    let i = choose|i: int| 0 <= i < k.len() && k[i] == t;
    assert("aarch64-unknown-linux-gnu"@[0] != "x86_64-unknown-linux-musl"@[0]);
    assert("aarch64-unknown-linux-gnu"@ != "x86_64-unknown-linux-musl"@);
    if i == 0 {
        assert(t =~= "x86_64-unknown-linux-gnu"@);
        assert(t.subrange(0, 7) =~= "x86_64"@ + "-"@);
        lemma_ends_with_last(t, "-apple-darwin"@);
    } else if i == 1 {
        assert(t.subrange(0, 8) =~= "aarch64"@ + "-"@);
        lemma_ends_with_last(t, "-apple-darwin"@);
    } else if i == 2 {
        assert(t.subrange(0, 7) =~= "x86_64"@ + "-"@);
        lemma_ends_with_last(t, "-apple-darwin"@);
    } else if i == 3 {
        assert(t.subrange(0, 8) =~= "aarch64"@ + "-"@);
        lemma_ends_with_last(t, "-apple-darwin"@);
    } else if i == 4 {
        lemma_ends_with_last(t, "-unknown-linux-gnu"@);
        lemma_ends_with_last(t, "-unknown-linux-musl"@);
        assert(starts_with(t, "aarch64-"@) ==> t.subrange(0, 8)[0] == t[0]);
    } else {
        lemma_ends_with_last(t, "-unknown-linux-gnu"@);
        lemma_ends_with_last(t, "-unknown-linux-musl"@);
        assert(starts_with(t, "x86_64-"@) ==> t.subrange(0, 7)[0] == t[0]);
    }
}

/// Every known target gets a full marker environment: `os_name` is
/// `posix`, and `sys_platform`, `platform_system` and `platform_machine`
/// are set. A Linux triple `<arch>-unknown-linux-gnu` or
/// `<arch>-unknown-linux-musl` gives `sys_platform` `linux`,
/// `platform_system` `Linux` and `platform_machine` its architecture
/// `<arch>`; a macOS triple gives `darwin` and `Darwin`.
pub proof fn law_known_targets_env(p: Platform, v: PythonVersion)
    requires
        known_triples().contains(p.target@),
    ensures
        marker_env_spec(p, v).os_name == "posix"@,
        marker_env_spec(p, v).sys_platform.len() > 0,
        marker_env_spec(p, v).platform_system.len() > 0,
        marker_env_spec(p, v).platform_machine.len() > 0,
        (ends_with(p.target@, "-unknown-linux-gnu"@) || ends_with(p.target@, "-unknown-linux-musl"@))
            ==> marker_env_spec(p, v).sys_platform == "linux"@ && marker_env_spec(p, v).platform_system == "Linux"@
            && starts_with(p.target@, marker_env_spec(p, v).platform_machine + "-"@),
        ends_with(p.target@, "-apple-darwin"@) ==> marker_env_spec(p, v).sys_platform == "darwin"@
            && marker_env_spec(p, v).platform_system == "Darwin"@,
        ends_with(p.target@, "-apple-darwin"@) && starts_with(p.target@, "aarch64-"@) ==> marker_env_spec(p, v).platform_machine
            == "arm64"@,
        ends_with(p.target@, "-apple-darwin"@) && starts_with(p.target@, "x86_64-"@) ==> marker_env_spec(p, v).platform_machine
            == "x86_64"@,
{
    lemma_triple_env(p.target@);
}

} // verus!
