//! The per-(platform, python version) projection of the dependency graph.

use vstd::prelude::*;

use crate::config::{Config, Platform, PythonVersion, Tree};
use crate::lock::graph::{DepGraph, GraphNode};
use crate::lock::reach::{
    deps_of, extras_at, insert_unique, law_walk_unique, marker_text, markers_monotone, reachable_with_extras, strictly_sorted,
    walk_outcome,
};
use crate::lock::types::{FirstPartyKind, Source};
use crate::platform::{edge_applies, marker_applies, marker_env, marker_env_spec, short_version, MarkerEnv, MarkerEnvModel};
use crate::strmap::StrMap;
use crate::text::{
    lemma_seq_lt_irreflexive, lemma_seq_lt_total, lemma_seq_lt_transitive, push_char, push_decimal, push_str, seq_lt,
    str_eq, string_lt, strings_view,
};

verus! {

/// One projected cell per (platform, python version).
#[derive(Debug)]
pub struct ResolvedView {
    pub configs: Vec<ResolvedConfig>,
}

/// The packages reachable in one cell.
#[derive(Debug)]
pub struct ResolvedConfig {
    pub platform: String,
    pub python_version: String,
    pub packages: Vec<ResolvedPackage>,
}

/// One package reachable in a cell, with the deps that apply there.
#[derive(Debug)]
pub struct ResolvedPackage {
    pub name: String,
    pub version: String,
    pub kind: ResolvedKind,
    pub source_info: SourceInfo,
    /// `name@version` of each dep that applies in the cell, sorted, no repeats.
    pub deps: Vec<String>,
}

#[derive(Debug, Clone, Copy, PartialEq, Eq, Structural)]
pub enum ResolvedKind {
    Registry,
    Git,
    FirstParty,
}

/// Where a resolved package comes from.
#[derive(Debug, Clone)]
pub enum SourceInfo {
    Registry { registry: String },
    Git { git: String, rev: String, subdirectory: Option<String> },
    FirstParty { first_party_kind: String, first_party_path: String },
}

pub struct ResolvedPackageModel {
    pub name: Seq<char>,
    pub version: Seq<char>,
    pub kind: ResolvedKind,
    pub source_info: SourceInfo,
    pub deps: Seq<Seq<char>>,
}

impl View for ResolvedPackage {
    type V = ResolvedPackageModel;

    open spec fn view(&self) -> ResolvedPackageModel {
        ResolvedPackageModel {
            name: self.name@,
            version: self.version@,
            kind: self.kind,
            source_info: self.source_info,
            deps: strings_view(self.deps@),
        }
    }
}

/// The kind of package a source makes.
pub open spec fn kind_of(s: Source) -> ResolvedKind {
    match s {
        Source::Registry { .. } => ResolvedKind::Registry,
        Source::Git { .. } => ResolvedKind::Git,
        Source::FirstParty { .. } => ResolvedKind::FirstParty,
    }
}

/// Packages sort first-party first, then registry, then git.
pub open spec fn kind_rank(k: ResolvedKind) -> int {
    match k {
        ResolvedKind::FirstParty => 0,
        ResolvedKind::Registry => 1,
        ResolvedKind::Git => 2,
    }
}

/// The lowercase name of a first-party kind.
pub open spec fn first_party_kind_text(k: FirstPartyKind) -> Seq<char> {
    match k {
        FirstPartyKind::Virtual => "virtual"@,
        FirstPartyKind::Editable => "editable"@,
        FirstPartyKind::Directory => "directory"@,
        FirstPartyKind::Path => "path"@,
    }
}

pub open spec fn opt_text(o: Option<String>) -> Option<Seq<char>> {
    match o {
        Some(s) => Some(s@),
        None => None,
    }
}

/// `info` describes where `s` comes from.
pub open spec fn source_info_of(info: SourceInfo, s: Source) -> bool {
    match (info, s) {
        (SourceInfo::Registry { registry }, Source::Registry { url }) => registry@ == url@,
        (SourceInfo::Git { git, rev, subdirectory }, Source::Git { url, rev: r, subdirectory: sd }) => git@ == url@
            && rev@ == r@ && opt_text(subdirectory) == opt_text(sd),
        (
            SourceInfo::FirstParty { first_party_kind, first_party_path },
            Source::FirstParty { kind, path },
        ) => first_party_kind@ == first_party_kind_text(kind) && first_party_path@ == path@,
        _ => false,
    }
}

/// `name@version` of node `t`.
pub open spec fn dep_label(g: Seq<GraphNode>, t: int) -> Seq<char> {
    g[t].pkg.name@ + "@"@ + g[t].pkg.version@
}

/// Edge `k` of node `i` has its marker hold with the extras `e` and leads
/// to the node labelled `x`.
pub open spec fn applied_dep(g: Seq<GraphNode>, env: MarkerEnvModel, e: Seq<Seq<char>>, i: int, k: int, x: Seq<char>) -> bool {
    &&& 0 <= k < deps_of(g, i).len()
    &&& marker_applies(marker_text(deps_of(g, i)[k]), env, e)
    &&& dep_label(g, g[i].edges_out@[k] as int) == x
}

/// `p` is what node `i` projects to when it holds the extras `e`.
pub open spec fn package_with(g: Seq<GraphNode>, env: MarkerEnvModel, e: Seq<Seq<char>>, i: int, p: ResolvedPackage) -> bool {
    &&& p.name@ == g[i].pkg.name@
    &&& p.version@ == g[i].pkg.version@
    &&& p.kind == kind_of(g[i].pkg.source)
    &&& source_info_of(p.source_info, g[i].pkg.source)
    &&& strictly_sorted(strings_view(p.deps@))
    &&& forall|x: Seq<char>|
        #[trigger] strings_view(p.deps@).contains(x) <==> exists|k: int| #[trigger] applied_dep(g, env, e, i, k, x)
}

/// `p` is what node `i` projects to under the activation `a`.
pub open spec fn package_of(g: Seq<GraphNode>, env: MarkerEnvModel, a: Seq<Option<Vec<String>>>, i: int, p: ResolvedPackage) -> bool {
    package_with(g, env, extras_at(a, i), i, p)
}

/// `p` is what some active node projects to.
pub open spec fn from_active(g: Seq<GraphNode>, env: MarkerEnvModel, a: Seq<Option<Vec<String>>>, p: ResolvedPackage) -> bool {
    exists|i: int| 0 <= i < g.len() && a[i] is Some && #[trigger] package_of(g, env, a, i, p)
}

/// `p` is what one of the active nodes below `n` projects to.
pub open spec fn active_below(g: Seq<GraphNode>, env: MarkerEnvModel, a: Seq<Option<Vec<String>>>, p: ResolvedPackage, n: int) -> bool {
    exists|i: int| 0 <= i < n && a[i] is Some && #[trigger] package_of(g, env, a, i, p)
}

/// Package order: kind rank, then name, then version.
pub open spec fn package_lt(p: ResolvedPackage, q: ResolvedPackage) -> bool {
    ||| kind_rank(p.kind) < kind_rank(q.kind)
    ||| kind_rank(p.kind) == kind_rank(q.kind) && seq_lt(p.name@, q.name@)
    ||| kind_rank(p.kind) == kind_rank(q.kind) && p.name@ == q.name@ && seq_lt(p.version@, q.version@)
}

/// The packages of a cell under the activation `a`: one per active node,
/// in package order.
pub open spec fn packages_for(g: Seq<GraphNode>, env: MarkerEnvModel, a: Seq<Option<Vec<String>>>, ps: Seq<ResolvedPackage>) -> bool {
    &&& forall|q: int| 0 <= q < ps.len() ==> #[trigger] from_active(g, env, a, ps[q])
    &&& forall|i: int| 0 <= i < g.len() && #[trigger] a[i] is Some ==> exists|q: int| 0 <= q < ps.len() && package_of(g, env, a, i, #[trigger] ps[q])
    &&& forall|q: int, r: int| 0 <= q < r < ps.len() ==> package_lt(#[trigger] ps[q], #[trigger] ps[r])
}

/// Where node `i`'s package comes from.
fn source_info(s: &Source) -> (r: (ResolvedKind, SourceInfo))
    ensures
        r.0 == kind_of(*s),
        source_info_of(r.1, *s),
{
    match s {
        Source::Registry { url } => (ResolvedKind::Registry, SourceInfo::Registry { registry: url.clone() }),
        Source::Git { url, rev, subdirectory } => {
            let sd = match subdirectory {
                Some(x) => Some(x.clone()),
                None => None,
            };
            (ResolvedKind::Git, SourceInfo::Git { git: url.clone(), rev: rev.clone(), subdirectory: sd })
        },
        Source::FirstParty { kind, path } => {
            let k = match kind {
                FirstPartyKind::Virtual => "virtual".to_string(),
                FirstPartyKind::Editable => "editable".to_string(),
                FirstPartyKind::Directory => "directory".to_string(),
                FirstPartyKind::Path => "path".to_string(),
            };
            (ResolvedKind::FirstParty, SourceInfo::FirstParty { first_party_kind: k, first_party_path: path.clone() })
        },
    }
}

/// The package node `i` projects to when it holds `extras`: its deps are
/// the `name@version` of the targets of the edges whose markers hold.
fn build_one(graph: &DepGraph, i: usize, env: &MarkerEnv, extras: &Vec<String>) -> (p: ResolvedPackage)
    requires
        graph.wf(),
        i < graph.nodes@.len(),
    ensures
        package_with(graph.nodes@, env@, strings_view(extras@), i as int, p),
{
    let ghost g = graph.nodes@;
    let ghost e = strings_view(extras@);
    let node = &graph.nodes[i];
    let deps = &node.pkg.dependencies;
    let mut out: Vec<String> = Vec::new();
    let mut k: usize = 0;
    while k < deps.len()
        invariant
            g == graph.nodes@,
            graph.wf(),
            i < g.len(),
            e == strings_view(extras@),
            *node == g[i as int],
            deps@ == deps_of(g, i as int),
            k <= deps@.len(),
            strictly_sorted(strings_view(out@)),
            forall|x: Seq<char>|
                #[trigger] strings_view(out@).contains(x) <==> exists|k2: int| 0 <= k2 < k && #[trigger] applied_dep(g, env@, e, i as int, k2, x),
        decreases deps@.len() - k,
    {
        let d = &deps[k];
        let marker = match &d.marker {
            Some(m) => Some(m.as_str()),
            None => None,
        };
        let fires = edge_applies(marker, env, extras);
        let ghost pre = strings_view(out@);
        let t = node.edges_out[k];
        let ghost label = dep_label(g, t as int);
        if fires {
            assert(t < g.len());
            let tp = graph.nodes[t].pkg;
            let mut lab = tp.name.clone();
            push_char(&mut lab, '@');
            push_str(&mut lab, tp.version.as_str());
            proof {
                reveal_strlit("@");
            }
            assert(lab@ =~= label);
            insert_unique(&mut out, lab);
        }
        proof {
            assert forall|x: Seq<char>|
                #[trigger] strings_view(out@).contains(x) <==> exists|k2: int| 0 <= k2 < k + 1 && #[trigger] applied_dep(g, env@, e, i as int, k2, x) by {
                if exists|k2: int| 0 <= k2 < k + 1 && #[trigger] applied_dep(g, env@, e, i as int, k2, x) {
                    let k2 = choose|k2: int| 0 <= k2 < k + 1 && #[trigger] applied_dep(g, env@, e, i as int, k2, x);
                    if k2 < k {
                        assert(pre.contains(x));
                    }
                }
                if fires && x == label {
                    assert(applied_dep(g, env@, e, i as int, k as int, x));
                }
            }
        }
        k += 1;
    }
    let (kind, source_info) = source_info(&node.pkg.source);
    let p = ResolvedPackage { name: node.pkg.name.clone(), version: node.pkg.version.clone(), kind, source_info, deps: out };
    proof {
        assert forall|x: Seq<char>|
            #[trigger] strings_view(p.deps@).contains(x) <==> exists|k2: int| #[trigger] applied_dep(g, env@, e, i as int, k2, x) by {
            if exists|k2: int| #[trigger] applied_dep(g, env@, e, i as int, k2, x) {
                let k2 = choose|k2: int| #[trigger] applied_dep(g, env@, e, i as int, k2, x);
                assert(0 <= k2 < k);
            }
        }
    }
    p
}

proof fn lemma_package_lt_transitive(p: ResolvedPackage, q: ResolvedPackage, r: ResolvedPackage)
    requires
        package_lt(p, q),
        package_lt(q, r),
    ensures
        package_lt(p, r),
{
    lemma_seq_lt_transitive(p.name@, q.name@, r.name@);
    lemma_seq_lt_transitive(p.version@, q.version@, r.version@);
}

proof fn lemma_package_lt_total(p: ResolvedPackage, q: ResolvedPackage)
    requires
        p.name@ != q.name@,
    ensures
        package_lt(p, q) || package_lt(q, p),
{
    lemma_seq_lt_total(p.name@, q.name@);
}

proof fn lemma_package_lt_asym(p: ResolvedPackage, q: ResolvedPackage)
    ensures
        !(package_lt(p, q) && package_lt(q, p)),
{
    crate::text::lemma_seq_lt_asymmetric(p.name@, q.name@);
    crate::text::lemma_seq_lt_asymmetric(p.version@, q.version@);
}

/// Inserts `p` into a list in package order, where no package has its name.
fn insert_package(out: &mut Vec<ResolvedPackage>, p: ResolvedPackage) -> (pos: usize)
    requires
        forall|a: int, b: int| 0 <= a < b < old(out)@.len() ==> package_lt(#[trigger] old(out)@[a], #[trigger] old(out)@[b]),
        forall|a: int| 0 <= a < old(out)@.len() ==> (#[trigger] old(out)@[a]).name@ != p.name@,
    ensures
        pos <= old(out)@.len(),
        final(out)@ == old(out)@.insert(pos as int, p),
        forall|a: int, b: int| 0 <= a < b < final(out)@.len() ==> package_lt(#[trigger] final(out)@[a], #[trigger] final(out)@[b]),
{
    let ghost o = out@;
    let mut i: usize = 0;
    while i < out.len()
        invariant
            i <= out@.len(),
            o == out@,
            forall|a: int| 0 <= a < o.len() ==> (#[trigger] o[a]).name@ != p.name@,
            forall|a: int| 0 <= a < i ==> package_lt(#[trigger] o[a], p),
        ensures
            i <= out@.len(),
            o == out@,
            forall|a: int| 0 <= a < i ==> package_lt(#[trigger] o[a], p),
            i < out@.len() ==> package_lt(p, o[i as int]),
        decreases out@.len() - i,
    {
        let c = &out[i];
        assert(*c == o[i as int]);
        let rc = rank_of(c.kind);
        let rp = rank_of(p.kind);
        let before = rc < rp || (rc == rp && (string_lt(&c.name, &p.name) || (str_eq(c.name.as_str(), p.name.as_str())
            && string_lt(&c.version, &p.version))));
        if !before {
            proof {
                lemma_package_lt_total(o[i as int], p);
            }
            break;
        }
        i += 1;
    }
    out.insert(i, p);
    proof {
        let n = out@;
        assert forall|a: int, b: int| 0 <= a < b < n.len() implies package_lt(#[trigger] n[a], #[trigger] n[b]) by {
            if b < i {
                assert(n[a] == o[a] && n[b] == o[b]);
            } else if b == i {
                assert(n[a] == o[a]);
            } else if a < i {
                assert(n[a] == o[a] && n[b] == o[b - 1]);
                if b - 1 > a {
                    assert(package_lt(o[a], o[b - 1]));
                }
            } else if a == i {
                assert(n[b] == o[b - 1]);
                if b - 1 > i {
                    assert(package_lt(o[i as int], o[b - 1]));
                    lemma_package_lt_transitive(p, o[i as int], o[b - 1]);
                }
            } else {
                assert(n[a] == o[a - 1] && n[b] == o[b - 1]);
            }
        }
    }
    i
}

/// The rank of a kind (see [`kind_rank`]).
fn rank_of(k: ResolvedKind) -> (r: u8)
    ensures
        r == kind_rank(k),
{
    match k {
        ResolvedKind::FirstParty => 0,
        ResolvedKind::Registry => 1,
        ResolvedKind::Git => 2,
    }
}

/// One package per active node, in package order.
fn build_packages(graph: &DepGraph, act: &Vec<Option<Vec<String>>>, env: &MarkerEnv) -> (ps: Vec<ResolvedPackage>)
    requires
        graph.wf(),
        act@.len() == graph.nodes@.len(),
    ensures
        packages_for(graph.nodes@, env@, act@, ps@),
{
    let ghost g = graph.nodes@;
    let mut out: Vec<ResolvedPackage> = Vec::new();
    let mut i: usize = 0;
    while i < act.len()
        invariant
            g == graph.nodes@,
            graph.wf(),
            act@.len() == g.len(),
            i <= g.len(),
            forall|q: int| 0 <= q < out@.len() ==> #[trigger] active_below(g, env@, act@, out@[q], i as int),
            forall|j: int| 0 <= j < i && #[trigger] act@[j] is Some ==> exists|q: int| 0 <= q < out@.len() && package_of(g, env@, act@, j, #[trigger] out@[q]),
            forall|a: int, b: int| 0 <= a < b < out@.len() ==> package_lt(#[trigger] out@[a], #[trigger] out@[b]),
        decreases g.len() - i,
    {
        match &act[i] {
            Some(e) => {
                let p = build_one(graph, i, env, e);
                let ghost o = out@;
                proof {
                    assert forall|a: int| 0 <= a < o.len() implies (#[trigger] o[a]).name@ != p.name@ by {
                        assert(active_below(g, env@, act@, o[a], i as int));
                        let j = choose|j: int| 0 <= j < i && act@[j] is Some && #[trigger] package_of(g, env@, act@, j, o[a]);
                        assert(g[j].pkg.name@ != g[i as int].pkg.name@);
                    }
                }
                let pos = insert_package(&mut out, p);
                proof {
                    assert(package_of(g, env@, act@, i as int, p));
                    assert forall|q: int| 0 <= q < out@.len() implies #[trigger] active_below(g, env@, act@, out@[q], i + 1) by {
                        if q < pos {
                            assert(out@[q] == o[q]);
                            assert(active_below(g, env@, act@, o[q], i as int));
                        } else if q == pos {
                            assert(out@[q] == p);
                        } else {
                            assert(out@[q] == o[q - 1]);
                            assert(active_below(g, env@, act@, o[q - 1], i as int));
                        }
                    }
                    assert forall|j: int| 0 <= j < i + 1 && #[trigger] act@[j] is Some implies exists|q: int| 0 <= q < out@.len() && package_of(g, env@, act@, j, #[trigger] out@[q]) by {
                        if j == i {
                            assert(out@[pos as int] == p);
                        } else {
                            let q = choose|q: int| 0 <= q < o.len() && package_of(g, env@, act@, j, #[trigger] o[q]);
                            if q < pos {
                                assert(out@[q] == o[q]);
                            } else {
                                assert(out@[q + 1] == o[q]);
                            }
                        }
                    }
                }
            },
            None => {
                proof {
                    assert forall|q: int| 0 <= q < out@.len() implies #[trigger] active_below(g, env@, act@, out@[q], i + 1) by {
                        assert(active_below(g, env@, act@, out@[q], i as int));
                    }
                }
            },
        }
        i += 1;
    }
    proof {
        assert forall|q: int| 0 <= q < out@.len() implies #[trigger] from_active(g, env@, act@, out@[q]) by {
            assert(active_below(g, env@, act@, out@[q], i as int));
        }
    }
    out
}

/// The packages of a cell: those some outcome of the walk activates.
pub open spec fn cell_packages(
    g: Seq<GraphNode>,
    roots: Seq<usize>,
    env: MarkerEnvModel,
    groups: Seq<Seq<char>>,
    ps: Seq<ResolvedPackage>,
) -> bool {
    exists|a: Seq<Option<Vec<String>>>| walk_outcome(g, roots, env, groups, a) && packages_for(g, env, a, ps)
}

/// `c` is the cell of one of the platforms at one of the python versions.
pub open spec fn cell_of(
    g: Seq<GraphNode>,
    roots: Seq<usize>,
    groups: Seq<Seq<char>>,
    platforms: Seq<(String, Platform)>,
    vs: Seq<PythonVersion>,
    c: ResolvedConfig,
) -> bool {
    exists|e: int, v: int|
        0 <= e < platforms.len() && 0 <= v < vs.len() && c.platform@ == (#[trigger] platforms[e]).0@
            && c.python_version@ == short_version(#[trigger] vs[v]) && cell_packages(
            g,
            roots,
            marker_env_spec(platforms[e].1, vs[v]),
            groups,
            c.packages@,
        )
}

/// The (platform, python version) key a cell sorts by.
pub open spec fn cell_keys(cs: Seq<ResolvedConfig>) -> Seq<(Seq<char>, Seq<char>)> {
    cs.map_values(|c: ResolvedConfig| (c.platform@, c.python_version@))
}

pub open spec fn key_lt(a: (Seq<char>, Seq<char>), b: (Seq<char>, Seq<char>)) -> bool {
    seq_lt(a.0, b.0) || (a.0 == b.0 && seq_lt(a.1, b.1))
}

/// The keys of one platform's cells, one per python version.
pub open spec fn row_keys(name: Seq<char>, vs: Seq<PythonVersion>) -> Seq<(Seq<char>, Seq<char>)> {
    vs.map_values(|v: PythonVersion| (name, short_version(v)))
}

/// The keys of every (platform, python version) pair.
pub open spec fn product_keys(names: Seq<Seq<char>>, vs: Seq<PythonVersion>) -> Seq<(Seq<char>, Seq<char>)>
    decreases names.len(),
{
    if names.len() == 0 {
        Seq::empty()
    } else {
        product_keys(names.drop_last(), vs) + row_keys(names.last(), vs)
    }
}

proof fn lemma_key_lt(a: (Seq<char>, Seq<char>), b: (Seq<char>, Seq<char>), c: (Seq<char>, Seq<char>))
    ensures
        key_lt(a, b) && key_lt(b, c) ==> key_lt(a, c),
        !(key_lt(a, b) && key_lt(b, a)),
{
    lemma_seq_lt_transitive(a.0, b.0, c.0);
    lemma_seq_lt_transitive(a.1, b.1, c.1);
    crate::text::lemma_seq_lt_asymmetric(a.0, b.0);
    crate::text::lemma_seq_lt_asymmetric(a.1, b.1);
}

/// Inserts `c` after every cell whose key is not above its own.
fn insert_cell(out: &mut Vec<ResolvedConfig>, c: ResolvedConfig) -> (pos: usize)
    requires
        forall|a: int, b: int| 0 <= a < b < old(out)@.len() ==> !key_lt(#[trigger] cell_keys(old(out)@)[b], #[trigger] cell_keys(old(out)@)[a]),
    ensures
        pos <= old(out)@.len(),
        final(out)@ == old(out)@.insert(pos as int, c),
        forall|a: int, b: int| 0 <= a < b < final(out)@.len() ==> !key_lt(#[trigger] cell_keys(final(out)@)[b], #[trigger] cell_keys(final(out)@)[a]),
{
    let ghost o = out@;
    let ghost ko = cell_keys(o);
    let ghost kc = (c.platform@, c.python_version@);
    let mut i: usize = 0;
    while i < out.len()
        invariant
            i <= out@.len(),
            o == out@,
            ko == cell_keys(o),
            kc == (c.platform@, c.python_version@),
            forall|a: int| 0 <= a < i ==> !key_lt(kc, #[trigger] ko[a]),
        ensures
            i <= out@.len(),
            o == out@,
            forall|a: int| 0 <= a < i ==> !key_lt(kc, #[trigger] ko[a]),
            i < out@.len() ==> key_lt(kc, ko[i as int]),
        decreases out@.len() - i,
    {
        let x = &out[i];
        assert(ko[i as int] == (x.platform@, x.python_version@));
        let above = string_lt(&c.platform, &x.platform) || (str_eq(c.platform.as_str(), x.platform.as_str())
            && string_lt(&c.python_version, &x.python_version));
        if above {
            break;
        }
        i += 1;
    }
    out.insert(i, c);
    proof {
        let kn = cell_keys(out@);
        assert(kn =~= ko.insert(i as int, kc));
        assert forall|a: int, b: int| 0 <= a < b < kn.len() implies !key_lt(#[trigger] kn[b], #[trigger] kn[a]) by {
            if b < i {
                assert(kn[a] == ko[a] && kn[b] == ko[b]);
            } else if b == i {
                assert(kn[a] == ko[a]);
            } else if a < i {
                assert(kn[a] == ko[a] && kn[b] == ko[b - 1]);
                if b - 1 > a {
                    assert(!key_lt(ko[b - 1], ko[a]));
                }
            } else if a == i {
                assert(kn[b] == ko[b - 1]);
                lemma_key_lt(ko[b - 1], kc, ko[i as int]);
                if b - 1 > i {
                    assert(!key_lt(ko[b - 1], ko[i as int]));
                }
            } else {
                assert(kn[a] == ko[a - 1] && kn[b] == ko[b - 1]);
            }
        }
    }
    i
}

/// `MAJOR.MINOR` of a python version.
fn python_text(v: PythonVersion) -> (r: String)
    ensures
        r@ == short_version(v),
{
    let mut s = String::new();
    push_decimal(&mut s, v.0 as u64);
    push_char(&mut s, '.');
    push_decimal(&mut s, v.1 as u64);
    assert(s@ =~= short_version(v));
    s
}

/// One cell per platform (in name order) and python version of `tree`,
/// sorted by (platform, python version) text, equal keys in the order made.
/// Each cell holds one package per node that the walk from the graph's roots
/// activates in the cell's marker environment, with the configured groups.
pub fn project(graph: &DepGraph, cfg: &Config, tree: &Tree) -> (view: ResolvedView)
    requires
        graph.wf(),
        forall|q: int| 0 <= q < graph.roots@.len() ==> #[trigger] graph.roots@[q] < graph.nodes@.len(),
    ensures
        projection(
            graph.nodes@,
            graph.roots@,
            strings_view(cfg.lockfile.include_groups@),
            cfg.platforms.pairs(),
            tree.python_versions@,
            view.configs@,
        ),
{
    let ghost g = graph.nodes@;
    let ghost roots = graph.roots@;
    let ghost gv = strings_view(cfg.lockfile.include_groups@);
    let ghost vs = tree.python_versions@;
    let entries = cfg.platforms.entries();
    let ghost ents = entries@;
    let ghost names = ents.map_values(|p: (String, Platform)| p.0@);
    let mut configs: Vec<ResolvedConfig> = Vec::new();
    let ghost mut made: Seq<(Seq<char>, Seq<char>)> = Seq::empty();
    assert(cell_keys(configs@) =~= made);
    assert(names.subrange(0, 0) =~= Seq::<Seq<char>>::empty());
    let mut pi: usize = 0;
    while pi < entries.len()
        invariant
            g == graph.nodes@,
            roots == graph.roots@,
            graph.wf(),
            forall|q: int| 0 <= q < roots.len() ==> #[trigger] roots[q] < g.len(),
            gv == strings_view(cfg.lockfile.include_groups@),
            vs == tree.python_versions@,
            ents == entries@,
            ents == cfg.platforms.pairs(),
            names == ents.map_values(|p: (String, Platform)| p.0@),
            pi <= ents.len(),
            made == product_keys(names.subrange(0, pi as int), vs),
            cell_keys(configs@).to_multiset() == made.to_multiset(),
            forall|a: int, b: int| 0 <= a < b < configs@.len() ==> !key_lt(#[trigger] cell_keys(configs@)[b], #[trigger] cell_keys(configs@)[a]),
            forall|q: int| 0 <= q < configs@.len() ==> #[trigger] cell_of(g, roots, gv, ents, vs, configs@[q]),
        decreases ents.len() - pi,
    {
        let name = &entries[pi].0;
        let plat = &entries[pi].1;
        let ghost made0 = made;
        let mut vi: usize = 0;
        while vi < tree.python_versions.len()
            invariant
                g == graph.nodes@,
                roots == graph.roots@,
                graph.wf(),
                forall|q: int| 0 <= q < roots.len() ==> #[trigger] roots[q] < g.len(),
                gv == strings_view(cfg.lockfile.include_groups@),
                vs == tree.python_versions@,
                ents == entries@,
                pi < ents.len(),
                *name == ents[pi as int].0,
                *plat == ents[pi as int].1,
                vi <= vs.len(),
                made == made0 + row_keys(name@, vs.subrange(0, vi as int)),
                cell_keys(configs@).to_multiset() == made.to_multiset(),
                forall|a: int, b: int| 0 <= a < b < configs@.len() ==> !key_lt(#[trigger] cell_keys(configs@)[b], #[trigger] cell_keys(configs@)[a]),
                forall|q: int| 0 <= q < configs@.len() ==> #[trigger] cell_of(g, roots, gv, ents, vs, configs@[q]),
            decreases vs.len() - vi,
        {
            let v = tree.python_versions[vi];
            let env = marker_env(plat, v);
            let act = reachable_with_extras(graph, &graph.roots, &env, &cfg.lockfile.include_groups);
            let packages = build_packages(graph, &act, &env);
            let c = ResolvedConfig { platform: name.clone(), python_version: python_text(v), packages };
            proof {
                assert(walk_outcome(g, roots, env@, gv, act@));
                assert(cell_packages(g, roots, marker_env_spec(ents[pi as int].1, vs[vi as int]), gv, c.packages@));
                assert(cell_of(g, roots, gv, ents, vs, c));
            }
            let ghost old_cfg = configs@;
            let pos = insert_cell(&mut configs, c);
            proof {
                let k = (c.platform@, c.python_version@);
                assert(cell_keys(configs@) =~= cell_keys(old_cfg).insert(pos as int, k));
                vstd::seq_lib::to_multiset_insert(cell_keys(old_cfg), pos as int, k);
                vstd::seq_lib::to_multiset_build(made, k);
                assert(row_keys(name@, vs.subrange(0, vi + 1)) =~= row_keys(name@, vs.subrange(0, vi as int)).push(k));
                assert(made0 + row_keys(name@, vs.subrange(0, vi + 1)) =~= made.push(k));
                made = made.push(k);
                assert forall|q: int| 0 <= q < configs@.len() implies #[trigger] cell_of(g, roots, gv, ents, vs, configs@[q]) by {
                    if q < pos {
                        assert(configs@[q] == old_cfg[q]);
                    } else if q > pos {
                        assert(configs@[q] == old_cfg[q - 1]);
                    }
                }
            }
            vi += 1;
        }
        proof {
            assert(vs.subrange(0, vs.len() as int) =~= vs);
            let sub = names.subrange(0, pi + 1);
            assert(sub.drop_last() =~= names.subrange(0, pi as int));
            assert(sub.last() == name@);
        }
        pi += 1;
    }
    proof {
        assert(names.subrange(0, ents.len() as int) =~= names);
    }
    ResolvedView { configs }
}

/// Two sources read the same.
pub open spec fn source_same(a: SourceInfo, b: SourceInfo) -> bool {
    match (a, b) {
        (SourceInfo::Registry { registry: x }, SourceInfo::Registry { registry: y }) => x@ == y@,
        (SourceInfo::Git { git: g1, rev: r1, subdirectory: s1 }, SourceInfo::Git { git: g2, rev: r2, subdirectory: s2 }) => g1@
            == g2@ && r1@ == r2@ && opt_text(s1) == opt_text(s2),
        (
            SourceInfo::FirstParty { first_party_kind: k1, first_party_path: p1 },
            SourceInfo::FirstParty { first_party_kind: k2, first_party_path: p2 },
        ) => k1@ == k2@ && p1@ == p2@,
        _ => false,
    }
}

/// Two packages read the same.
pub open spec fn same_package(p: ResolvedPackage, q: ResolvedPackage) -> bool {
    &&& p.name@ == q.name@
    &&& p.version@ == q.version@
    &&& p.kind == q.kind
    &&& source_same(p.source_info, q.source_info)
    &&& strings_view(p.deps@) == strings_view(q.deps@)
}

proof fn lemma_package_with_same(g: Seq<GraphNode>, env: MarkerEnvModel, e: Seq<Seq<char>>, i: int, p: ResolvedPackage, q: ResolvedPackage)
    requires
        package_with(g, env, e, i, p),
        package_with(g, env, e, i, q),
    ensures
        same_package(p, q),
{
    crate::lock::reach::lemma_sorted_same(strings_view(p.deps@), strings_view(q.deps@));
}

/// Nodes with distinct indices have distinct package names.
pub open spec fn names_distinct(g: Seq<GraphNode>) -> bool {
    forall|i: int, j: int| 0 <= i < g.len() && 0 <= j < g.len() && i != j ==> (#[trigger] g[i]).pkg.name@ != (#[trigger] g[j]).pkg.name@
}

spec fn from_nodes(g: Seq<GraphNode>, env: MarkerEnvModel, a: Seq<Option<Vec<String>>>, nodes: Set<int>, p: ResolvedPackage) -> bool {
    exists|i: int| #[trigger] nodes.contains(i) && package_of(g, env, a, i, p)
}

spec fn has_projection(g: Seq<GraphNode>, env: MarkerEnvModel, a: Seq<Option<Vec<String>>>, i: int, ps: Seq<ResolvedPackage>) -> bool {
    exists|q: int| 0 <= q < ps.len() && package_of(g, env, a, i, #[trigger] ps[q])
}

/// `ps` projects exactly the nodes of `nodes` under activation `a`, in
/// package order.
spec fn projects(g: Seq<GraphNode>, env: MarkerEnvModel, a: Seq<Option<Vec<String>>>, nodes: Set<int>, ps: Seq<ResolvedPackage>) -> bool {
    &&& forall|q: int| 0 <= q < ps.len() ==> #[trigger] from_nodes(g, env, a, nodes, ps[q])
    &&& forall|i: int| #[trigger] nodes.contains(i) ==> has_projection(g, env, a, i, ps)
    &&& forall|q: int, r: int| 0 <= q < r < ps.len() ==> package_lt(#[trigger] ps[q], #[trigger] ps[r])
    &&& forall|i: int| #[trigger] nodes.contains(i) ==> 0 <= i < g.len()
}

proof fn lemma_projects_same(
    g: Seq<GraphNode>,
    env: MarkerEnvModel,
    a1: Seq<Option<Vec<String>>>,
    a2: Seq<Option<Vec<String>>>,
    nodes: Set<int>,
    ps1: Seq<ResolvedPackage>,
    ps2: Seq<ResolvedPackage>,
)
    requires
        names_distinct(g),
        forall|i: int| #[trigger] nodes.contains(i) ==> extras_at(a1, i) == extras_at(a2, i),
        projects(g, env, a1, nodes, ps1),
        projects(g, env, a2, nodes, ps2),
    ensures
        ps1.len() == ps2.len(),
        forall|q: int| 0 <= q < ps1.len() ==> same_package(#[trigger] ps1[q], ps2[q]),
    decreases ps1.len() + ps2.len(),
{
    if ps1.len() == 0 || ps2.len() == 0 {
        if ps1.len() > 0 {
            assert(from_nodes(g, env, a1, nodes, ps1[0]));
            let i = choose|i: int| #[trigger] nodes.contains(i) && package_of(g, env, a1, i, ps1[0]);
            assert(has_projection(g, env, a2, i, ps2));
        }
        if ps2.len() > 0 {
            assert(from_nodes(g, env, a2, nodes, ps2[0]));
            let i = choose|i: int| #[trigger] nodes.contains(i) && package_of(g, env, a2, i, ps2[0]);
            assert(has_projection(g, env, a1, i, ps1));
        }
        return;
    }
    let l1 = ps1.len() - 1;
    let l2 = ps2.len() - 1;
    assert(from_nodes(g, env, a1, nodes, ps1[l1]));
    let i1 = choose|i: int| #[trigger] nodes.contains(i) && package_of(g, env, a1, i, ps1[l1]);
    assert(has_projection(g, env, a2, i1, ps2));
    let q2 = choose|q: int| 0 <= q < ps2.len() && package_of(g, env, a2, i1, #[trigger] ps2[q]);
    assert(package_of(g, env, a1, i1, ps2[q2]));
    lemma_package_with_same(g, env, extras_at(a1, i1), i1, ps1[l1], ps2[q2]);
    if q2 < l2 {
        assert(from_nodes(g, env, a2, nodes, ps2[l2]));
        let i2 = choose|i: int| #[trigger] nodes.contains(i) && package_of(g, env, a2, i, ps2[l2]);
        assert(package_lt(ps2[q2], ps2[l2]));
        if i2 == i1 {
            lemma_package_lt_irreflexive(ps2[q2], ps2[l2]);
        }
        assert(has_projection(g, env, a1, i2, ps1));
        let q1 = choose|q: int| 0 <= q < ps1.len() && package_of(g, env, a1, i2, #[trigger] ps1[q]);
        assert(package_of(g, env, a1, i2, ps2[l2]));
        lemma_package_with_same(g, env, extras_at(a1, i2), i2, ps1[q1], ps2[l2]);
        if q1 == l1 {
            assert(g[i1].pkg.name@ == g[i2].pkg.name@);
        }
        assert(package_lt(ps1[q1], ps1[l1]));
        lemma_package_lt_asym(ps2[q2], ps2[l2]);
    }
    assert(q2 == l2);
    let rest = nodes.remove(i1);
    let d1 = ps1.drop_last();
    let d2 = ps2.drop_last();
    lemma_projects_drop(g, env, a1, nodes, ps1, i1);
    assert(package_of(g, env, a2, i1, ps2[l2]));
    lemma_projects_drop(g, env, a2, nodes, ps2, i1);
    lemma_projects_same(g, env, a1, a2, rest, d1, d2);
    assert forall|q: int| 0 <= q < ps1.len() implies same_package(#[trigger] ps1[q], ps2[q]) by {
        if q < l1 {
            assert(d1[q] == ps1[q] && d2[q] == ps2[q]);
        }
    }
}

/// Packages that agree on kind, name and version order alike.
proof fn lemma_package_lt_irreflexive(p: ResolvedPackage, q: ResolvedPackage)
    requires
        p.kind == q.kind && p.name@ == q.name@ && p.version@ == q.version@,
    ensures
        !package_lt(p, q),
{
    lemma_seq_lt_irreflexive(p.name@);
    lemma_seq_lt_irreflexive(p.version@);
}

/// Without its last package, which projects node `i`, the list projects the
/// other nodes.
proof fn lemma_projects_drop(
    g: Seq<GraphNode>,
    env: MarkerEnvModel,
    a: Seq<Option<Vec<String>>>,
    nodes: Set<int>,
    ps: Seq<ResolvedPackage>,
    i: int,
)
    requires
        names_distinct(g),
        projects(g, env, a, nodes, ps),
        ps.len() > 0,
        nodes.contains(i),
        package_of(g, env, a, i, ps.last()),
    ensures
        projects(g, env, a, nodes.remove(i), ps.drop_last()),
{
    let d = ps.drop_last();
    let rest = nodes.remove(i);
    let l = ps.len() - 1;
    assert forall|q: int| 0 <= q < d.len() implies #[trigger] from_nodes(g, env, a, rest, d[q]) by {
        assert(from_nodes(g, env, a, nodes, ps[q]));
        let i2 = choose|i2: int| #[trigger] nodes.contains(i2) && package_of(g, env, a, i2, ps[q]);
        assert(d[q] == ps[q]);
        if i2 == i {
            assert(package_lt(ps[q], ps[l]));
            lemma_package_lt_irreflexive(ps[q], ps[l]);
        }
        assert(rest.contains(i2));
    }
    assert forall|i2: int| #[trigger] rest.contains(i2) implies has_projection(g, env, a, i2, d) by {
        assert(has_projection(g, env, a, i2, ps));
        let q = choose|q: int| 0 <= q < ps.len() && package_of(g, env, a, i2, #[trigger] ps[q]);
        if q == l {
            assert(g[i].pkg.name@ == g[i2].pkg.name@);
        }
        assert(d[q] == ps[q]);
    }
    assert forall|q: int, r: int| 0 <= q < r < d.len() implies package_lt(#[trigger] d[q], #[trigger] d[r]) by {
        assert(d[q] == ps[q] && d[r] == ps[r]);
    }
}

/// A cell's packages project the nodes its activation holds.
proof fn lemma_packages_project(g: Seq<GraphNode>, env: MarkerEnvModel, a: Seq<Option<Vec<String>>>, b: Seq<Option<Vec<String>>>, ps: Seq<ResolvedPackage>)
    requires
        packages_for(g, env, a, ps),
        forall|i: int| 0 <= i < g.len() ==> (#[trigger] a[i] is Some) == (b[i] is Some),
    ensures
        projects(g, env, a, Set::new(|i: int| 0 <= i < g.len() && b[i] is Some), ps),
{
    let nodes = Set::new(|i: int| 0 <= i < g.len() && b[i] is Some);
    assert forall|q: int| 0 <= q < ps.len() implies #[trigger] from_nodes(g, env, a, nodes, ps[q]) by {
        assert(from_active(g, env, a, ps[q]));
        let i = choose|i: int| 0 <= i < g.len() && a[i] is Some && #[trigger] package_of(g, env, a, i, ps[q]);
        assert(nodes.contains(i));
    }
    assert forall|i: int| #[trigger] nodes.contains(i) implies has_projection(g, env, a, i, ps) by {
        assert(a[i] is Some);
    }
}

proof fn lemma_key_total(a: (Seq<char>, Seq<char>), b: (Seq<char>, Seq<char>))
    ensures
        a == b || key_lt(a, b) || key_lt(b, a),
{
    lemma_seq_lt_total(a.0, b.0);
    lemma_seq_lt_total(a.1, b.1);
}

/// Two key lists sorted alike with the same keys are equal.
proof fn lemma_keys_same(k1: Seq<(Seq<char>, Seq<char>)>, k2: Seq<(Seq<char>, Seq<char>)>)
    requires
        forall|a: int, b: int| 0 <= a < b < k1.len() ==> !key_lt(#[trigger] k1[b], #[trigger] k1[a]),
        forall|a: int, b: int| 0 <= a < b < k2.len() ==> !key_lt(#[trigger] k2[b], #[trigger] k2[a]),
        k1.to_multiset() == k2.to_multiset(),
    ensures
        k1 == k2,
    decreases k1.len(),
{
    broadcast use vstd::seq_lib::group_to_multiset_ensures;
    if k1.len() == 0 {
        assert(k2.to_multiset().len() == 0);
        assert(k1 =~= k2);
    } else {
        vstd::seq_lib::to_multiset_len(k1);
        vstd::seq_lib::to_multiset_len(k2);
        assert(k2.len() == k1.len());
        let l = k1.len() - 1;
        let m1 = k1[l];
        let m2 = k2[l];
        assert(k1.contains(m1));
        assert(k1.to_multiset().count(m1) > 0);
        assert(k2.contains(m1));
        assert(k2.to_multiset().count(m2) > 0);
        assert(k1.contains(m2));
        let i2 = choose|i: int| 0 <= i < k2.len() && k2[i] == m1;
        let i1 = choose|i: int| 0 <= i < k1.len() && k1[i] == m2;
        if i2 < l {
            assert(!key_lt(k2[l], k2[i2]));
        }
        if i1 < l {
            assert(!key_lt(k1[l], k1[i1]));
        }
        lemma_key_total(m1, m2);
        assert(m1 == m2);
        let d1 = k1.drop_last();
        let d2 = k2.drop_last();
        vstd::seq_lib::to_multiset_remove(k1, l);
        vstd::seq_lib::to_multiset_remove(k2, l);
        assert(k1.remove(l) =~= d1);
        assert(k2.remove(l) =~= d2);
        assert forall|a: int, b: int| 0 <= a < b < d1.len() implies !key_lt(#[trigger] d1[b], #[trigger] d1[a]) by {
            assert(d1[a] == k1[a] && d1[b] == k1[b]);
        }
        assert forall|a: int, b: int| 0 <= a < b < d2.len() implies !key_lt(#[trigger] d2[b], #[trigger] d2[a]) by {
            assert(d2[a] == k2[a] && d2[b] == k2[b]);
        }
        lemma_keys_same(d1, d2);
        assert(k1 =~= d1.push(m1));
        assert(k2 =~= d2.push(m2));
    }
}

/// What [`project`] gives: one cell per platform and python version (the
/// keys as multisets), sorted by key, each cell holding the packages of an
/// outcome of the walk in its environment.
pub open spec fn projection(
    g: Seq<GraphNode>,
    roots: Seq<usize>,
    groups: Seq<Seq<char>>,
    platforms: Seq<(String, Platform)>,
    vs: Seq<PythonVersion>,
    cs: Seq<ResolvedConfig>,
) -> bool {
    &&& cell_keys(cs).to_multiset() == product_keys(platforms.map_values(|p: (String, Platform)| p.0@), vs).to_multiset()
    &&& forall|a: int, b: int| 0 <= a < b < cs.len() ==> !key_lt(#[trigger] cell_keys(cs)[b], #[trigger] cell_keys(cs)[a])
    &&& forall|q: int| 0 <= q < cs.len() ==> #[trigger] cell_of(g, roots, groups, platforms, vs, cs[q])
}

/// When every marker only gains from extras, the projection is the same
/// on every run: two projections of one graph and config have the same
/// cells, in the same order, with the same packages.
pub proof fn law_project_deterministic(
    g: Seq<GraphNode>,
    roots: Seq<usize>,
    groups: Seq<Seq<char>>,
    platforms: Seq<(String, Platform)>,
    vs: Seq<PythonVersion>,
    c1: Seq<ResolvedConfig>,
    c2: Seq<ResolvedConfig>,
)
    requires
        projection(g, roots, groups, platforms, vs, c1),
        projection(g, roots, groups, platforms, vs, c2),
        crate::strmap::sorted_keys(platforms),
        names_distinct(g),
        g.len() <= usize::MAX,
        forall|q: int| 0 <= q < roots.len() ==> #[trigger] roots[q] < g.len(),
        forall|i: int, k: int|
            0 <= i < g.len() && 0 <= k < g[i].edges_out@.len() ==> (#[trigger] g[i].edges_out@[k]) < g.len(),
        forall|i: int| 0 <= i < g.len() ==> (#[trigger] g[i]).edges_out@.len() == deps_of(g, i).len(),
        forall|env: MarkerEnvModel| #[trigger] markers_monotone(g, env),
    ensures
        c1.len() == c2.len(),
        forall|q: int|
            0 <= q < c1.len() ==> (#[trigger] c1[q]).platform@ == c2[q].platform@ && c1[q].python_version@
                == c2[q].python_version@ && c1[q].packages@.len() == c2[q].packages@.len() && forall|p: int|
                0 <= p < c1[q].packages@.len() ==> same_package(#[trigger] c1[q].packages@[p], c2[q].packages@[p]),
{
    lemma_keys_same(cell_keys(c1), cell_keys(c2));
    assert(cell_keys(c1).len() == c1.len() && cell_keys(c2).len() == c2.len());
    assert forall|q: int| 0 <= q < c1.len() implies (#[trigger] c1[q]).platform@ == c2[q].platform@ && c1[q].python_version@
        == c2[q].python_version@ && c1[q].packages@.len() == c2[q].packages@.len() && forall|p: int|
        0 <= p < c1[q].packages@.len() ==> same_package(#[trigger] c1[q].packages@[p], c2[q].packages@[p]) by {
        assert(cell_keys(c1)[q] == cell_keys(c2)[q]);
        assert(cell_keys(c1)[q] == (c1[q].platform@, c1[q].python_version@));
        assert(cell_keys(c2)[q] == (c2[q].platform@, c2[q].python_version@));
        assert(cell_of(g, roots, groups, platforms, vs, c1[q]));
        assert(cell_of(g, roots, groups, platforms, vs, c2[q]));
        let (e1, v1) = choose|e: int, v: int|
            0 <= e < platforms.len() && 0 <= v < vs.len() && c1[q].platform@ == (#[trigger] platforms[e]).0@
                && c1[q].python_version@ == short_version(#[trigger] vs[v]) && cell_packages(
                g,
                roots,
                marker_env_spec(platforms[e].1, vs[v]),
                groups,
                c1[q].packages@,
            );
        let (e2, v2) = choose|e: int, v: int|
            0 <= e < platforms.len() && 0 <= v < vs.len() && c2[q].platform@ == (#[trigger] platforms[e]).0@
                && c2[q].python_version@ == short_version(#[trigger] vs[v]) && cell_packages(
                g,
                roots,
                marker_env_spec(platforms[e].1, vs[v]),
                groups,
                c2[q].packages@,
            );
        if e1 < e2 {
            assert(seq_lt(platforms[e1].0@, platforms[e2].0@));
            lemma_seq_lt_irreflexive(platforms[e1].0@);
        } else if e2 < e1 {
            assert(seq_lt(platforms[e2].0@, platforms[e1].0@));
            lemma_seq_lt_irreflexive(platforms[e2].0@);
        }
        let env = marker_env_spec(platforms[e1].1, vs[v1]);
        assert(marker_env_spec(platforms[e2].1, vs[v2]) == env);
        let a1 = choose|a: Seq<Option<Vec<String>>>| walk_outcome(g, roots, env, groups, a) && packages_for(g, env, a, c1[q].packages@);
        let a2 = choose|a: Seq<Option<Vec<String>>>| walk_outcome(g, roots, env, groups, a) && packages_for(g, env, a, c2[q].packages@);
        assert(markers_monotone(g, env));
        law_walk_unique(g, roots, env, groups, a1, a2);
        let nodes = Set::new(|i: int| 0 <= i < g.len() && a1[i] is Some);
        lemma_packages_project(g, env, a1, a1, c1[q].packages@);
        assert forall|i: int| 0 <= i < g.len() implies (#[trigger] a2[i] is Some) == (a1[i] is Some) by {
            assert(a1[i] is Some == a2[i] is Some);
        }
        lemma_packages_project(g, env, a2, a1, c2[q].packages@);
        lemma_projects_same(g, env, a1, a2, nodes, c1[q].packages@, c2[q].packages@);
    }
}

} // verus!
