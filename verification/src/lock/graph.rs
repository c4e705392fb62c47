//! Dependency graph built from a parsed lockfile: build, cycle detection.

use vstd::prelude::*;

use crate::error::LockfileError;
use crate::lock::types::{DepEdge, Lockfile, Package, Source};
use crate::strmap::{lookup, StrMap};
use crate::lock::cycles::{adj_view, cycle_reports, edges_in_range, find_cycles, nested, strs_le};
use crate::text::{push_str, seq_lt, str_eq, string_lt, strings_view};

pub use crate::lock::reach::{reachable_from, reachable_with_extras};
pub use crate::platform::edge_applies;

verus! {

/// One package of the graph and where its dependencies lead:
/// `edges_out[i]` is the node that `pkg.dependencies[i]` names.
#[derive(Debug)]
pub struct GraphNode<'a> {
    pub pkg: &'a Package,
    pub edges_out: Vec<usize>,
}

/// Packages as nodes (in lockfile order), each package's dependencies as
/// edges, and the first-party packages as roots.
#[derive(Debug)]
pub struct DepGraph<'a> {
    pub nodes: Vec<GraphNode<'a>>,
    /// Node of each package name.
    pub by_name: StrMap<usize>,
    pub roots: Vec<usize>,
}

/// The names of the packages, in order.
pub open spec fn names_of(ps: Seq<Package>) -> Seq<Seq<char>> {
    ps.map_values(|p: Package| p.name@)
}

/// The adjacency lists of a graph's nodes.
pub open spec fn adjacency(nodes: Seq<GraphNode>) -> Seq<Seq<usize>> {
    nodes.map_values(|n: GraphNode| n.edges_out@)
}

impl<'a> DepGraph<'a> {
    /// Every edge leads to a node, every node has one edge per dependency,
    /// and no two nodes share a package name.
    pub open spec fn wf(&self) -> bool {
        &&& forall|i: int, k: int|
            0 <= i < self.nodes@.len() && 0 <= k < self.nodes@[i].edges_out@.len() ==> (
            #[trigger] self.nodes@[i].edges_out@[k]) < self.nodes@.len()
        &&& forall|i: int|
            0 <= i < self.nodes@.len() ==> (#[trigger] self.nodes@[i]).edges_out@.len()
                == self.nodes@[i].pkg.dependencies@.len()
        &&& forall|i: int, j: int|
            0 <= i < j < self.nodes@.len() ==> (#[trigger] self.nodes@[i]).pkg.name@
                != (#[trigger] self.nodes@[j]).pkg.name@
    }
}

/// Index of the last package named `n`.
pub open spec fn last_named(names: Seq<Seq<char>>, n: Seq<char>) -> Option<int> {
    if exists|i: int| 0 <= i < names.len() && names[i] == n {
        Some(choose|i: int| 0 <= i < names.len() && names[i] == n && forall|j: int| i < j < names.len() ==> names[j] != n)
    } else {
        None
    }
}

/// `n` is the name of two or more packages.
pub open spec fn is_dup_name(names: Seq<Seq<char>>, n: Seq<char>) -> bool {
    exists|i: int, j: int| 0 <= i < j < names.len() && names[i] == n && names[j] == n
}

/// The versions of the packages named `n`, in order.
pub open spec fn versions_named(ps: Seq<Package>, n: Seq<char>) -> Seq<Seq<char>>
    decreases ps.len(),
{
    if ps.len() == 0 {
        Seq::empty()
    } else {
        let prev = versions_named(ps.drop_last(), n);
        if ps.last().name@ == n {
            prev.push(ps.last().version@)
        } else {
            prev
        }
    }
}

/// The smallest repeated name.
pub open spec fn smallest_dup(names: Seq<Seq<char>>) -> Seq<char> {
    choose|n: Seq<char>| is_dup_name(names, n) && forall|m: Seq<char>| is_dup_name(names, m) ==> !seq_lt(m, n)
}

/// Dependency `k` of package `i` names no package.
pub open spec fn unresolved_at(ps: Seq<Package>, i: int, k: int) -> bool {
    0 <= i < ps.len() && 0 <= k < ps[i].dependencies@.len() && !names_of(ps).contains(ps[i].dependencies@[k].name@)
}

/// `(i, k)` comes before `(i2, k2)` in package-then-dependency order.
pub open spec fn edge_before(i: int, k: int, i2: int, k2: int) -> bool {
    i < i2 || (i == i2 && k < k2)
}

/// The first unresolved dependency, in package-then-dependency order.
pub open spec fn first_unresolved(ps: Seq<Package>, i: int, k: int) -> bool {
    unresolved_at(ps, i, k) && forall|i2: int, k2: int| edge_before(i2, k2, i, k) ==> !unresolved_at(ps, i2, k2)
}

/// The roots: the first-party packages, in order.
pub open spec fn first_party_nodes(ps: Seq<Package>) -> Seq<usize>
    decreases ps.len(),
{
    if ps.len() == 0 {
        Seq::empty()
    } else {
        let prev = first_party_nodes(ps.drop_last());
        if ps.last().source is FirstParty {
            prev.push((ps.len() - 1) as usize)
        } else {
            prev
        }
    }
}

/// What [`build`] refuses, if anything: the smallest repeated name (with
/// the versions of its packages), else the first dependency naming no
/// package.
pub open spec fn build_error(ps: Seq<Package>, e: crate::error::LockfileError) -> bool {
    let names = names_of(ps);
    if exists|n: Seq<char>| is_dup_name(names, n) {
        e matches LockfileError::DuplicatePackageName { name, versions } && name@ == smallest_dup(names)
            && strings_view(versions@) == versions_named(ps, smallest_dup(names))
    } else {
        exists|i: int, k: int| #![trigger first_unresolved(ps, i, k)] first_unresolved(ps, i, k) && (e matches LockfileError::UnresolvedDep { from_pkg, dep }
            && from_pkg@ == ps[i].name@ && dep@ == ps[i].dependencies@[k].name@)
    }
}

/// Node `t` is the package that dependency `k` of package `i` names.
pub open spec fn edge_target(ps: Seq<Package>, i: int, k: int, t: int) -> bool {
    0 <= t < ps.len() && ps[t].name@ == ps[i].dependencies@[k].name@
}

/// `g` is the graph of `ps`.
pub open spec fn graph_of(ps: Seq<Package>, g: DepGraph) -> bool {
    &&& g.wf()
    &&& g.by_name.wf()
    &&& g.nodes@.len() == ps.len()
    &&& forall|i: int| 0 <= i < ps.len() ==> *(#[trigger] g.nodes@[i]).pkg == ps[i]
    &&& forall|i: int, k: int|
        0 <= i < ps.len() && 0 <= k < ps[i].dependencies@.len() ==> edge_target(
            ps,
            i,
            k,
            #[trigger] g.nodes@[i].edges_out@[k] as int,
        )
    &&& forall|n: Seq<char>| #[trigger] lookup(g.by_name.pairs(), n) == match last_named(names_of(ps), n) {
        Some(i) => Some(i as usize),
        None => None,
    }
    &&& g.roots@ == first_party_nodes(ps)
}

fn is_dup_at(ps: &Vec<Package>, i: usize) -> (r: bool)
    requires
        i < ps@.len(),
    ensures
        r == ((forall|j: int| 0 <= j < i ==> names_of(ps@)[j] != names_of(ps@)[i as int]) && exists|j: int|
            i < j < ps@.len() && names_of(ps@)[j] == names_of(ps@)[i as int]),
{
    let mut j: usize = 0;
    while j < i
        invariant
            j <= i < ps@.len(),
            forall|m: int| 0 <= m < j ==> names_of(ps@)[m] != names_of(ps@)[i as int],
        decreases i - j,
    {
        if str_eq(ps[j].name.as_str(), ps[i].name.as_str()) {
            assert(names_of(ps@)[j as int] == names_of(ps@)[i as int]);
            return false;
        }
        j += 1;
    }
    let n = ps.len();
    let mut k: usize = i + 1;
    while k < n
        invariant
            i < k <= n,
            n == ps@.len(),
            forall|m: int| 0 <= m < i ==> names_of(ps@)[m] != names_of(ps@)[i as int],
            forall|m: int| i < m < k ==> names_of(ps@)[m] != names_of(ps@)[i as int],
        decreases n - k,
    {
        if str_eq(ps[k].name.as_str(), ps[i].name.as_str()) {
            assert(names_of(ps@)[k as int] == names_of(ps@)[i as int]);
            return true;
        }
        k += 1;
    }
    false
}

proof fn lemma_first_occurrence(names: Seq<Seq<char>>, n: Seq<char>, i: int)
    requires
        0 <= i < names.len(),
        names[i] == n,
    ensures
        exists|f: int| 0 <= f <= i && names[f] == n && forall|j: int| 0 <= j < f ==> names[j] != n,
    decreases i,
{
    if exists|m: int| 0 <= m < i && names[m] == n {
        let m = choose|m: int| 0 <= m < i && names[m] == n;
        lemma_first_occurrence(names, n, m);
    } else {
        assert(forall|j: int| 0 <= j < i ==> names[j] != n);
    }
}

proof fn lemma_dup_has_first(names: Seq<Seq<char>>, n: Seq<char>)
    requires
        is_dup_name(names, n),
    ensures
        exists|f: int| 0 <= f < names.len() && names[f] == n && (forall|j: int| 0 <= j < f ==> names[j] != n)
            && exists|j: int| f < j < names.len() && names[j] == n,
{
    let (i, j) = choose|i: int, j: int| 0 <= i < j < names.len() && names[i] == n && names[j] == n;
    lemma_first_occurrence(names, n, i);
    let f = choose|f: int| 0 <= f <= i && names[f] == n && forall|m: int| 0 <= m < f ==> names[m] != n;
    assert(f < j && names[j] == n);
}

fn copy_versions_named(ps: &Vec<Package>, name: &String) -> (r: Vec<String>)
    ensures
        strings_view(r@) == versions_named(ps@, name@),
{
    let mut out: Vec<String> = Vec::new();
    let mut i: usize = 0;
    while i < ps.len()
        invariant
            i <= ps@.len(),
            strings_view(out@) == versions_named(ps@.subrange(0, i as int), name@),
        decreases ps@.len() - i,
    {
        assert(ps@.subrange(0, i + 1).drop_last() =~= ps@.subrange(0, i as int));
        if str_eq(ps[i].name.as_str(), name.as_str()) {
            out.push(ps[i].version.clone());
            assert(strings_view(out@) =~= versions_named(ps@.subrange(0, i as int), name@).push(ps@[i as int].version@));
        }
        i += 1;
    }
    assert(ps@.subrange(0, i as int) =~= ps@);
    out
}

/// Finds the smallest repeated name, if any.
fn find_smallest_dup(ps: &Vec<Package>) -> (r: Option<usize>)
    ensures
        match r {
            Some(f) => f < ps@.len() && is_dup_name(names_of(ps@), ps@[f as int].name@)
                && ps@[f as int].name@ == smallest_dup(names_of(ps@)),
            None => !exists|n: Seq<char>| is_dup_name(names_of(ps@), n),
        },
{
    let ghost names = names_of(ps@);
    let mut best: Option<usize> = None;
    let mut i: usize = 0;
    while i < ps.len()
        invariant
            i <= ps@.len(),
            names == names_of(ps@),
            best matches Some(f) ==> f < ps@.len() && is_dup_name(names, names[f as int]) && forall|g: int|
                0 <= g < i && (forall|j: int| 0 <= j < g ==> names[j] != names[g]) && is_dup_name(names, names[g])
                    ==> !seq_lt(names[g], names[f as int]),
            best is None ==> forall|g: int|
                0 <= g < i && (forall|j: int| 0 <= j < g ==> names[j] != names[g]) ==> !is_dup_name(names, names[g]),
        decreases ps@.len() - i,
    {
        let head = is_dup_at(ps, i);
        proof {
            assert(names[i as int] == ps@[i as int].name@);
            assert(forall|j: int| 0 <= j < ps@.len() ==> names[j] == ps@[j].name@);
            let first = forall|j: int| 0 <= j < i ==> names[j] != names[i as int];
            if head {
                let j = choose|j: int| i < j < ps@.len() && names[j] == names[i as int];
                assert(is_dup_name(names, names[i as int]));
            }
            if first && is_dup_name(names, names[i as int]) {
                let (a, b) = choose|a: int, b: int| 0 <= a < b < names.len() && names[a] == names[i as int] && names[b] == names[i as int];
                assert(a >= i);
                assert(i < b && names[b] == names[i as int]);
            }
            assert(head == (first && is_dup_name(names, names[i as int])));
        }
        if head {
            let replace = match best {
                None => true,
                Some(f) => string_lt(&ps[i].name, &ps[f].name),
            };
            proof {
                if let Some(f) = best {
                    if replace {
                        assert forall|g: int|
                            0 <= g < i + 1 && (forall|j: int| 0 <= j < g ==> names[j] != names[g]) && is_dup_name(names, names[g])
                                implies !seq_lt(names[g], names[i as int]) by {
                            if g < i {
                                crate::text::lemma_seq_lt_transitive(names[g], names[i as int], names[f as int]);
                            } else {
                                crate::text::lemma_seq_lt_irreflexive(names[g]);
                            }
                        }
                    } else {
                        assert forall|g: int|
                            0 <= g < i + 1 && (forall|j: int| 0 <= j < g ==> names[j] != names[g]) && is_dup_name(names, names[g])
                                implies !seq_lt(names[g], names[f as int]) by {
                            if g == i {
                                assert(!seq_lt(names[i as int], names[f as int]));
                            }
                        }
                    }
                } else {
                    assert forall|g: int|
                        0 <= g < i + 1 && (forall|j: int| 0 <= j < g ==> names[j] != names[g]) && is_dup_name(names, names[g])
                            implies !seq_lt(names[g], names[i as int]) by {
                        crate::text::lemma_seq_lt_irreflexive(names[g]);
                    }
                }
            }
            if replace {
                best = Some(i);
            }
        }
        i += 1;
    }
    proof {
        match best {
            Some(f) => {
                let n = names[f as int];
                assert forall|m: Seq<char>| is_dup_name(names, m) implies !seq_lt(m, n) by {
                    lemma_dup_has_first(names, m);
                    let g = choose|g: int| 0 <= g < names.len() && names[g] == m && (forall|j: int| 0 <= j < g ==> names[j] != m)
                        && exists|j: int| g < j < names.len() && names[j] == m;
                }
                let c = smallest_dup(names);
                assert(is_dup_name(names, n) && forall|m: Seq<char>| is_dup_name(names, m) ==> !seq_lt(m, n));
                assert(is_dup_name(names, c) && forall|m: Seq<char>| is_dup_name(names, m) ==> !seq_lt(m, c));
                crate::text::lemma_seq_lt_total(n, c);
            },
            None => {
                assert forall|m: Seq<char>| !is_dup_name(names, m) by {
                    if is_dup_name(names, m) {
                        lemma_dup_has_first(names, m);
                    }
                }
            },
        }
    }
    best
}

proof fn lemma_last_named_unique(names: Seq<Seq<char>>, n: Seq<char>, t: int)
    requires
        0 <= t < names.len(),
        names[t] == n,
        forall|i: int, j: int| 0 <= i < j < names.len() ==> names[i] != names[j],
    ensures
        last_named(names, n) == Some(t),
{
    let c = choose|i: int| 0 <= i < names.len() && names[i] == n && forall|j: int| i < j < names.len() ==> names[j] != n;
    if c != t {
        if c < t {
            assert(names[c] == names[t]);
        } else {
            assert(names[t] == names[c]);
        }
    }
}

/// Builds the graph: one node per package, in order; refuses a repeated
/// package name (the smallest one, with all its versions) and then a
/// dependency that names no package (the first one); roots are the
/// first-party packages.
pub fn build<'a>(lock: &'a Lockfile) -> (r: Result<DepGraph<'a>, LockfileError>)
    ensures
        match r {
            Ok(g) => !(exists|n: Seq<char>| is_dup_name(names_of(lock.packages@), n)) && !(exists|i: int, k: int|
                unresolved_at(lock.packages@, i, k)) && graph_of(lock.packages@, g),
            Err(e) => build_error(lock.packages@, e),
        },
        r matches Ok(g) ==> forall|i: int| 0 <= i < lock.packages@.len() ==> (g.roots@.contains(i as usize)
            <==> (#[trigger] lock.packages@[i]).source is FirstParty),
{
    let ps = &lock.packages;
    let ghost names = names_of(ps@);
    if let Some(f) = find_smallest_dup(ps) {
        let versions = copy_versions_named(ps, &ps[f].name);
        return Err(LockfileError::DuplicatePackageName { name: ps[f].name.clone(), versions });
    }
    proof {
        assert forall|a: int, b: int| 0 <= a < b < names.len() implies names[a] != names[b] by {
            if names[a] == names[b] {
                assert(is_dup_name(names, names[a]));
            }
        }
    }
    let mut by_name: StrMap<usize> = StrMap::new();
    let mut i: usize = 0;
    while i < ps.len()
        invariant
            i <= ps@.len(),
            names == names_of(ps@),
            by_name.wf(),
            forall|n: Seq<char>| match #[trigger] lookup(by_name.pairs(), n) {
                Some(t) => t < i && names[t as int] == n,
                None => forall|j: int| 0 <= j < i ==> names[j] != n,
            },
        decreases ps@.len() - i,
    {
        let ghost m0 = by_name;
        by_name.insert(ps[i].name.clone(), i);
        proof {
            assert forall|n: Seq<char>| match #[trigger] lookup(by_name.pairs(), n) {
                Some(t) => t < i + 1 && names[t as int] == n,
                None => forall|j: int| 0 <= j < i + 1 ==> names[j] != n,
            } by {
                assert(names[i as int] == ps@[i as int].name@);
                if n != ps@[i as int].name@ {
                    assert(lookup(by_name.pairs(), n) == lookup(m0.pairs(), n));
                }
            }
        }
        i += 1;
    }
    let mut nodes: Vec<GraphNode<'a>> = Vec::new();
    let mut i: usize = 0;
    while i < ps.len()
        invariant
            i <= ps@.len(),
            ps@ == lock.packages@,
            names == names_of(ps@),
            by_name.wf(),
            !(exists|n: Seq<char>| is_dup_name(names, n)),
            forall|a: int, b: int| 0 <= a < b < names.len() ==> names[a] != names[b],
            forall|n: Seq<char>| match #[trigger] lookup(by_name.pairs(), n) {
                Some(t) => t < ps@.len() && names[t as int] == n,
                None => forall|j: int| 0 <= j < ps@.len() ==> names[j] != n,
            },
            nodes@.len() == i,
            forall|a: int| 0 <= a < i ==> *(#[trigger] nodes@[a]).pkg == ps@[a],
            forall|a: int| 0 <= a < i ==> (#[trigger] nodes@[a]).edges_out@.len() == ps@[a].dependencies@.len(),
            forall|a: int, k: int|
                0 <= a < i && 0 <= k < ps@[a].dependencies@.len() ==> edge_target(ps@, a, k, #[trigger] nodes@[a].edges_out@[k] as int),
            forall|a: int, k: int| 0 <= a < i ==> !unresolved_at(ps@, a, k),
        decreases ps@.len() - i,
    {
        let pkg = &ps[i];
        let mut edges: Vec<usize> = Vec::new();
        let mut k: usize = 0;
        while k < pkg.dependencies.len()
            invariant
                i < ps@.len(),
                *pkg == ps@[i as int],
                ps@ == lock.packages@,
                names == names_of(ps@),
                !(exists|n: Seq<char>| is_dup_name(names, n)),
                by_name.wf(),
                k <= pkg.dependencies@.len(),
                forall|n: Seq<char>| match #[trigger] lookup(by_name.pairs(), n) {
                    Some(t) => t < ps@.len() && names[t as int] == n,
                    None => forall|j: int| 0 <= j < ps@.len() ==> names[j] != n,
                },
                edges@.len() == k,
                forall|m: int| 0 <= m < k ==> edge_target(ps@, i as int, m, #[trigger] edges@[m] as int),
                forall|a: int, m: int| 0 <= a < i ==> !unresolved_at(ps@, a, m),
                forall|m: int| 0 <= m < k ==> !unresolved_at(ps@, i as int, m),
            decreases pkg.dependencies@.len() - k,
        {
            let dep = &pkg.dependencies[k];
            match by_name.get(dep.name.as_str()) {
                Some(t) => {
                    let t = *t;
                    proof {
                        assert(names[t as int] == ps@[t as int].name@);
                        assert(names.contains(dep.name@));
                    }
                    edges.push(t);
                },
                None => {
                    proof {
                        assert(unresolved_at(ps@, i as int, k as int)) by {
                            if names.contains(dep.name@) {
                                let j = choose|j: int| 0 <= j < names.len() && names[j] == dep.name@;
                            }
                        }
                        assert forall|i2: int, k2: int| edge_before(i2, k2, i as int, k as int) implies !unresolved_at(ps@, i2, k2) by {
                        }
                        assert(first_unresolved(ps@, i as int, k as int));
                    }
                    let e = LockfileError::UnresolvedDep { from_pkg: pkg.name.clone(), dep: dep.name.clone() };
                    assert(first_unresolved(ps@, i as int, k as int) && (e matches LockfileError::UnresolvedDep { from_pkg, dep }
                        && from_pkg@ == ps@[i as int].name@ && dep@ == ps@[i as int].dependencies@[k as int].name@));
                    return Err(e);
                },
            }
            k += 1;
        }
        proof {
            assert forall|m: int| !unresolved_at(ps@, i as int, m) by {
                if 0 <= m < pkg.dependencies@.len() {
                }
            }
        }
        nodes.push(GraphNode { pkg, edges_out: edges });
        i += 1;
    }
    let mut roots: Vec<usize> = Vec::new();
    let mut i: usize = 0;
    while i < ps.len()
        invariant
            i <= ps@.len(),
            roots@ == first_party_nodes(ps@.subrange(0, i as int)),
        decreases ps@.len() - i,
    {
        assert(ps@.subrange(0, i + 1).drop_last() =~= ps@.subrange(0, i as int));
        if matches!(ps[i].source, Source::FirstParty { .. }) {
            roots.push(i);
        }
        i += 1;
    }
    assert(ps@.subrange(0, i as int) =~= ps@);
    let g = DepGraph { nodes, by_name, roots };
    proof {
        assert forall|a: int, k: int|
            0 <= a < g.nodes@.len() && 0 <= k < g.nodes@[a].edges_out@.len() implies (
            #[trigger] g.nodes@[a].edges_out@[k]) < g.nodes@.len() by {
            assert(edge_target(ps@, a, k, g.nodes@[a].edges_out@[k] as int));
        }
        assert forall|a: int, b: int| 0 <= a < b < g.nodes@.len() implies (#[trigger] g.nodes@[a]).pkg.name@
            != (#[trigger] g.nodes@[b]).pkg.name@ by {
            assert(names[a] == ps@[a].name@ && names[b] == ps@[b].name@);
        }
        assert forall|n: Seq<char>| #[trigger] lookup(g.by_name.pairs(), n) == match last_named(names_of(ps@), n) {
            Some(t) => Some(t as usize),
            None => None,
        } by {
            match lookup(g.by_name.pairs(), n) {
                Some(t) => {
                    lemma_last_named_unique(names, n, t as int);
                },
                None => {
                    assert(!exists|j: int| 0 <= j < names.len() && names[j] == n);
                },
            }
        }
        assert(!exists|n: Seq<char>| is_dup_name(names, n));
    }
    proof {
        law_roots_are_first_party(ps@);
    }
    Ok(g)
}

/// How a package is named in messages: `name@version`.
pub open spec fn display_spec(p: Package) -> Seq<char> {
    p.name@ + "@"@ + p.version@
}

/// `name@version` of a package.
pub fn display_string(p: &Package) -> (r: String)
    ensures
        r@ == display_spec(*p),
{
    let mut out = p.name.clone();
    push_str(&mut out, "@");
    push_str(&mut out, p.version.as_str());
    out
}

/// The display names of the graph's nodes.
pub open spec fn displays(nodes: Seq<GraphNode>) -> Seq<Seq<char>> {
    nodes.map_values(|n: GraphNode| display_spec(*n.pkg))
}

/// The index of the package that a dependency named `n` leads to.
pub open spec fn target_index(ps: Seq<Package>, n: Seq<char>) -> usize {
    match last_named(names_of(ps), n) {
        Some(t) => t as usize,
        None => 0,
    }
}

/// The dependency edges of a lockfile's packages, by index.
pub open spec fn lock_adjacency(ps: Seq<Package>) -> Seq<Seq<usize>> {
    Seq::new(
        ps.len(),
        |i: int| ps[i].dependencies@.map_values(|d: DepEdge| target_index(ps, d.name@)),
    )
}

/// The display names `name@version` of a lockfile's packages.
pub open spec fn lock_displays(ps: Seq<Package>) -> Seq<Seq<char>> {
    ps.map_values(|p: Package| display_spec(p))
}

/// The dependency cycles of a lockfile, one report each, as
/// [`detect_cycles`] finds them on its graph.
pub open spec fn lock_cycles(ps: Seq<Package>) -> Seq<Seq<Seq<char>>> {
    cycle_reports(lock_adjacency(ps), lock_displays(ps), ps.len() as int)
}

/// Where no two packages share a name, the graph built from a lockfile has
/// the lockfile's own edges and display names.
pub proof fn lemma_graph_is_lockfile(ps: Seq<Package>, g: DepGraph)
    requires
        graph_of(ps, g),
        !(exists|n: Seq<char>| is_dup_name(names_of(ps), n)),
    ensures
        adjacency(g.nodes@) == lock_adjacency(ps),
        displays(g.nodes@) == lock_displays(ps),
        cycle_reports(adjacency(g.nodes@), displays(g.nodes@), g.nodes@.len() as int) == lock_cycles(ps),
        lock_nodes(ps, g.nodes@),
        forall|q: int| 0 <= q < g.roots@.len() ==> #[trigger] g.roots@[q] < g.nodes@.len(),
{
    lemma_first_party_in_range(ps);
    let names = names_of(ps);
    assert forall|i: int| 0 <= i < ps.len() implies #[trigger] adjacency(g.nodes@)[i] == lock_adjacency(ps)[i] by {
        let row = ps[i].dependencies@.map_values(|d: DepEdge| target_index(ps, d.name@));
        assert forall|k: int| 0 <= k < row.len() implies #[trigger] g.nodes@[i].edges_out@[k] == row[k] by {
            let t = g.nodes@[i].edges_out@[k] as int;
            assert(edge_target(ps, i, k, t));
            let n = ps[i].dependencies@[k].name@;
            assert(names[t] == n);
            assert forall|j: int| t < j < names.len() implies names[j] != n by {
                if names[j] == n {
                    assert(is_dup_name(names, n));
                }
            }
            let w = last_named(names, n);
            assert(w is Some);
            let u = w->Some_0;
            assert(0 <= u < names.len() && names[u] == n);
            if u < t {
                assert(is_dup_name(names, n));
            } else if t < u {
                assert(is_dup_name(names, n));
            }
        }
        assert(g.nodes@[i].edges_out@.len() == ps[i].dependencies@.len());
        assert(g.nodes@[i].edges_out@ =~= row);
    }
    assert(adjacency(g.nodes@) =~= lock_adjacency(ps));
    assert(displays(g.nodes@) =~= lock_displays(ps));
    assert forall|i: int| 0 <= i < ps.len() implies #[trigger] g.nodes@[i].edges_out@ == lock_adjacency(ps)[i] by {
        assert(adjacency(g.nodes@)[i] == g.nodes@[i].edges_out@);
    }
}

/// The first-party nodes are packages of the lockfile.
pub proof fn lemma_first_party_in_range(ps: Seq<Package>)
    ensures
        forall|q: int| 0 <= q < first_party_nodes(ps).len() ==> #[trigger] first_party_nodes(ps)[q] < ps.len(),
    decreases ps.len(),
{
    if ps.len() > 0 {
        let prev = first_party_nodes(ps.drop_last());
        lemma_first_party_in_range(ps.drop_last());
        assert forall|q: int| 0 <= q < first_party_nodes(ps).len() implies #[trigger] first_party_nodes(ps)[q] < ps.len() by {
            if q < prev.len() {
                assert(first_party_nodes(ps)[q] == prev[q]);
                assert(prev[q] < ps.drop_last().len());
            }
        }
    }
}

/// `nodes` are the lockfile's packages in order, each with its dependency
/// edges.
pub open spec fn lock_nodes(ps: Seq<Package>, nodes: Seq<GraphNode>) -> bool {
    &&& nodes.len() == ps.len()
    &&& forall|i: int| 0 <= i < ps.len() ==> *(#[trigger] nodes[i]).pkg == ps[i] && nodes[i].edges_out@ == lock_adjacency(ps)[i]
}

/// Refuses a graph with dependency cycles, reporting each cycle once (see
/// [`find_cycles`]), sorted.
pub fn detect_cycles(graph: &DepGraph) -> (r: Result<(), LockfileError>)
    requires
        graph.wf(),
    ensures
        match r {
            Ok(_) => cycle_reports(adjacency(graph.nodes@), displays(graph.nodes@), graph.nodes@.len() as int).len() == 0,
            Err(LockfileError::Cycle(c)) => {
                &&& c@.len() > 0
                &&& forall|a: int, b: int| 0 <= a < b < c@.len() ==> strs_le(nested(c@)[a], nested(c@)[b])
                &&& nested(c@).to_multiset() == cycle_reports(
                    adjacency(graph.nodes@),
                    displays(graph.nodes@),
                    graph.nodes@.len() as int,
                ).to_multiset()
            },
            Err(_) => false,
        },
{
    let mut adj: Vec<Vec<usize>> = Vec::new();
    let mut disp: Vec<String> = Vec::new();
    let mut i: usize = 0;
    while i < graph.nodes.len()
        invariant
            i <= graph.nodes@.len(),
            graph.wf(),
            adj@.len() == i,
            disp@.len() == i,
            forall|k: int| 0 <= k < i ==> (#[trigger] adj@[k])@ == graph.nodes@[k].edges_out@,
            forall|k: int| 0 <= k < i ==> (#[trigger] disp@[k])@ == display_spec(*graph.nodes@[k].pkg),
        decreases graph.nodes@.len() - i,
    {
        let node = &graph.nodes[i];
        let mut e: Vec<usize> = Vec::new();
        let mut k: usize = 0;
        while k < node.edges_out.len()
            invariant
                k <= node.edges_out@.len(),
                e@ == node.edges_out@.subrange(0, k as int),
            decreases node.edges_out@.len() - k,
        {
            e.push(node.edges_out[k]);
            k += 1;
            assert(e@ =~= node.edges_out@.subrange(0, k as int));
        }
        assert(node.edges_out@.subrange(0, k as int) =~= node.edges_out@);
        adj.push(e);
        disp.push(display_string(node.pkg));
        i += 1;
    }
    proof {
        assert(adj_view(adj@) =~= adjacency(graph.nodes@));
        assert(strings_view(disp@) =~= displays(graph.nodes@));
        assert forall|a: int, k: int| 0 <= a < adj_view(adj@).len() && 0 <= k < adj_view(adj@)[a].len() implies (
            #[trigger] adj_view(adj@)[a][k]) < adj_view(adj@).len() by {
            assert(adj_view(adj@)[a] == graph.nodes@[a].edges_out@);
        }
    }
    let cycles = find_cycles(&adj, &disp);
    if cycles.len() == 0 {
        proof {
            let cr = cycle_reports(adjacency(graph.nodes@), displays(graph.nodes@), graph.nodes@.len() as int);
            assert(nested(cycles@) =~= Seq::<Seq<Seq<char>>>::empty());
            vstd::seq_lib::to_multiset_len(cr);
            vstd::seq_lib::to_multiset_len(nested(cycles@));
            assert(cr.to_multiset().len() == 0);
            assert(cr.len() == 0);
        }
        Ok(())
    } else {
        Err(LockfileError::Cycle(cycles))
    }
}


/// The graph's roots are exactly the first-party packages: index `i` is a
/// root when, and only when, package `i` comes from the project itself; and
/// each is listed once, in lockfile order.
pub proof fn law_roots_are_first_party(ps: Seq<Package>)
    requires
        ps.len() <= usize::MAX,
    ensures
        forall|i: int| 0 <= i < ps.len() ==> (first_party_nodes(ps).contains(i as usize) <==> (#[trigger] ps[i]).source is FirstParty),
        forall|q: int| 0 <= q < first_party_nodes(ps).len() ==> (#[trigger] first_party_nodes(ps)[q]) < ps.len(),
        forall|a: int, b: int| 0 <= a < b < first_party_nodes(ps).len() ==> #[trigger] first_party_nodes(ps)[a] < #[trigger] first_party_nodes(ps)[b],
    decreases ps.len(),
{
    lemma_first_party_in_range(ps);
    if ps.len() > 0 {
        let d = ps.drop_last();
        let prev = first_party_nodes(d);
        law_roots_are_first_party(d);
        let r = first_party_nodes(ps);
        let last = (ps.len() - 1) as usize;
        assert(ps.last() == ps[ps.len() - 1]);
        if ps[ps.len() - 1].source is FirstParty {
            assert(r == prev.push(last));
        } else {
            assert(r == prev);
        }
        assert forall|i: int| 0 <= i < ps.len() implies (r.contains(i as usize) <==> (#[trigger] ps[i]).source is FirstParty) by {
            if i < ps.len() - 1 {
                assert(d[i] == ps[i]);
                if prev.contains(i as usize) {
                    let q = choose|q: int| 0 <= q < prev.len() && prev[q] == i as usize;
                    assert(r[q] == i as usize);
                }
                if r.contains(i as usize) {
                    let q = choose|q: int| 0 <= q < r.len() && r[q] == i as usize;
                    if q < prev.len() {
                        assert(prev[q] == i as usize);
                    } else {
                        assert(r[q] == last);
                    }
                }
            } else {
                if ps[i].source is FirstParty {
                    assert(r[prev.len() as int] == last);
                } else {
                    if r.contains(i as usize) {
                        let q = choose|q: int| 0 <= q < r.len() && r[q] == i as usize;
                        assert(prev[q] < d.len());
                    }
                }
            }
        }
        assert forall|a: int, b: int| 0 <= a < b < r.len() implies #[trigger] r[a] < #[trigger] r[b] by {
            if b < prev.len() {
                assert(r[a] == prev[a] && r[b] == prev[b]);
            } else {
                assert(r[a] == prev[a]);
                assert(prev[a] < d.len());
            }
        }
    }
}

} // verus!
