//! Which packages a cell activates, and with which extras: the graph walked
//! from its roots along the edges whose markers hold, extras flowing from
//! the dependency groups to every node and along each edge to its target.

use vstd::prelude::*;

use crate::lock::cycles::{adj, lemma_reaches_self, lemma_walk_extend, reaches};
use crate::lock::graph::{adjacency, DepGraph, GraphNode};
use crate::lock::names::{normalized_name, valid_package_name};
use crate::lock::types::DepEdge;
use crate::platform::{edge_applies, marker_applies, normalize_extra, MarkerEnv, MarkerEnvModel};
use crate::strmap::{lookup, sorted_keys, StrMap};
use crate::text::{lemma_seq_lt_irreflexive, lemma_seq_lt_total, lemma_seq_lt_transitive, seq_lt, str_eq, string_lt, strings_view};

verus! {

/// `x` is the normalized form of one of the valid names in `xs`.
pub open spec fn names_extra(xs: Seq<Seq<char>>, x: Seq<char>) -> bool {
    exists|j: int| 0 <= j < xs.len() && valid_package_name(#[trigger] xs[j]) && normalized_name(xs[j]) == x
}

/// The extras a dependency edge requests include `x`.
pub open spec fn edge_extra(d: DepEdge, x: Seq<char>) -> bool {
    names_extra(strings_view(d.extra@), x)
}

/// The names of `u` whose flag is set, in order.
pub open spec fn flagged(u: Seq<Seq<char>>, bits: Seq<bool>) -> Seq<Seq<char>>
    decreases u.len(),
{
    if u.len() == 0 {
        Seq::empty()
    } else if bits[u.len() - 1] {
        flagged(u.drop_last(), bits).push(u.last())
    } else {
        flagged(u.drop_last(), bits)
    }
}

/// How many flags are unset.
pub open spec fn count_false(b: Seq<bool>) -> nat
    decreases b.len(),
{
    if b.len() == 0 {
        0
    } else {
        count_false(b.drop_last()) + if b.last() {
            0nat
        } else {
            1nat
        }
    }
}

/// How far an activation is from everything active with every extra.
pub open spec fn node_weight(a: Option<Vec<bool>>, n: nat) -> nat {
    match a {
        Some(b) => count_false(b@),
        None => n + 1,
    }
}

pub open spec fn weight(act: Seq<Option<Vec<bool>>>, n: nat) -> nat
    decreases act.len(),
{
    if act.len() == 0 {
        0
    } else {
        weight(act.drop_last(), n) + node_weight(act.last(), n)
    }
}

proof fn lemma_count_false_bound(b: Seq<bool>)
    ensures
        count_false(b) <= b.len(),
    decreases b.len(),
{
    if b.len() > 0 {
        lemma_count_false_bound(b.drop_last());
    }
}

proof fn lemma_count_false_mono(a: Seq<bool>, b: Seq<bool>)
    requires
        a.len() == b.len(),
        forall|k: int| 0 <= k < a.len() ==> a[k] ==> b[k],
    ensures
        count_false(b) <= count_false(a),
        (exists|k: int| 0 <= k < a.len() && !a[k] && b[k]) ==> count_false(b) < count_false(a),
    decreases a.len(),
{
    if a.len() > 0 {
        lemma_count_false_mono(a.drop_last(), b.drop_last());
        if exists|k: int| 0 <= k < a.len() && !a[k] && b[k] {
            let k = choose|k: int| 0 <= k < a.len() && !a[k] && b[k];
            if k < a.len() - 1 {
                assert(!a.drop_last()[k] && b.drop_last()[k]);
            }
        }
    }
}

proof fn lemma_weight_update(act: Seq<Option<Vec<bool>>>, n: nat, t: int, y: Option<Vec<bool>>)
    requires
        0 <= t < act.len(),
    ensures
        weight(act.update(t, y), n) + node_weight(act[t], n) == weight(act, n) + node_weight(y, n),
    decreases act.len(),
{
    let a2 = act.update(t, y);
    if t < act.len() - 1 {
        lemma_weight_update(act.drop_last(), n, t, y);
        assert(a2.drop_last() =~= act.drop_last().update(t, y));
    } else {
        assert(a2.drop_last() =~= act.drop_last());
    }
}

/// The names flagged are those whose flag is set.
proof fn lemma_flagged_contains(u: Seq<Seq<char>>, bits: Seq<bool>, x: Seq<char>)
    requires
        bits.len() >= u.len(),
    ensures
        flagged(u, bits).contains(x) <==> exists|k: int| 0 <= k < u.len() && bits[k] && u[k] == x,
    decreases u.len(),
{
    if u.len() > 0 {
        let d = u.drop_last();
        lemma_flagged_contains(d, bits, x);
        let f = flagged(d, bits);
        if bits[u.len() - 1] {
            let g = f.push(u.last());
            if g.contains(x) {
                let i = choose|i: int| 0 <= i < g.len() && g[i] == x;
                if i < f.len() {
                    assert(f[i] == x);
                    let k = choose|k: int| 0 <= k < d.len() && bits[k] && d[k] == x;
                    assert(u[k] == x);
                } else {
                    assert(u[u.len() - 1] == x);
                }
            }
            if exists|k: int| 0 <= k < u.len() && bits[k] && u[k] == x {
                let k = choose|k: int| 0 <= k < u.len() && bits[k] && u[k] == x;
                if k < u.len() - 1 {
                    assert(d[k] == x);
                    assert(f.contains(x));
                    let i = choose|i: int| 0 <= i < f.len() && f[i] == x;
                    assert(g[i] == x);
                } else {
                    assert(g[f.len() as int] == x);
                }
            }
        } else {
            if exists|k: int| 0 <= k < u.len() && bits[k] && u[k] == x {
                let k = choose|k: int| 0 <= k < u.len() && bits[k] && u[k] == x;
                assert(k < u.len() - 1);
                assert(d[k] == x);
            }
            if f.contains(x) {
                let k = choose|k: int| 0 <= k < d.len() && bits[k] && d[k] == x;
                assert(u[k] == x);
            }
        }
    }
}

/// The names of `u` whose flag is set.
fn flagged_names(u: &Vec<String>, bits: &Vec<bool>) -> (r: Vec<String>)
    requires
        bits@.len() == u@.len(),
    ensures
        strings_view(r@) == flagged(strings_view(u@), bits@),
{
    let ghost uv = strings_view(u@);
    let mut out: Vec<String> = Vec::new();
    let mut i: usize = 0;
    while i < u.len()
        invariant
            i <= u@.len(),
            bits@.len() == u@.len(),
            uv == strings_view(u@),
            strings_view(out@) == flagged(uv.subrange(0, i as int), bits@),
        decreases u@.len() - i,
    {
        proof {
            let t = uv.subrange(0, i + 1);
            assert(t.drop_last() =~= uv.subrange(0, i as int));
            assert(t.last() == u@[i as int]@);
        }
        if bits[i] {
            let ghost pre = out@;
            out.push(u[i].clone());
            assert(strings_view(out@) =~= strings_view(pre).push(u@[i as int]@));
        }
        i += 1;
    }
    assert(uv.subrange(0, i as int) =~= uv);
    out
}

/// The index of `x` in `u`, if it is there.
fn index_in(u: &Vec<String>, x: &str) -> (r: Option<usize>)
    ensures
        match r {
            Some(k) => k < u@.len() && u@[k as int]@ == x@,
            None => forall|k: int| 0 <= k < u@.len() ==> u@[k]@ != x@,
        },
{
    let mut i: usize = 0;
    while i < u.len()
        invariant
            i <= u@.len(),
            forall|k: int| 0 <= k < i ==> u@[k]@ != x@,
        decreases u@.len() - i,
    {
        if str_eq(u[i].as_str(), x) {
            return Some(i);
        }
        i += 1;
    }
    None
}


/// Each name comes before the next, so none repeats.
pub open spec fn strictly_sorted(s: Seq<Seq<char>>) -> bool {
    forall|a: int, b: int| 0 <= a < b < s.len() ==> seq_lt(#[trigger] s[a], #[trigger] s[b])
}

/// Adds `x` to a strictly sorted list of names, unless it is there already.
pub(crate) fn insert_unique(out: &mut Vec<String>, x: String)
    requires
        strictly_sorted(strings_view(old(out)@)),
    ensures
        strictly_sorted(strings_view(final(out)@)),
        forall|y: Seq<char>|
            #[trigger] strings_view(final(out)@).contains(y) <==> (strings_view(old(out)@).contains(y) || y == x@),
{
    let ghost o = strings_view(out@);
    let ghost xv = x@;
    let mut i: usize = 0;
    while i < out.len()
        invariant
            i <= out@.len(),
            o == strings_view(out@),
            xv == x@,
            forall|k: int| 0 <= k < i ==> seq_lt(#[trigger] o[k], xv),
        ensures
            i <= out@.len(),
            o == strings_view(out@),
            forall|k: int| 0 <= k < i ==> seq_lt(#[trigger] o[k], xv),
            i < out@.len() ==> !seq_lt(o[i as int], xv),
        decreases out@.len() - i,
    {
        assert(o[i as int] == out@[i as int]@);
        if !string_lt(&out[i], &x) {
            break;
        }
        i += 1;
    }
    if i < out.len() {
        assert(o[i as int] == out@[i as int]@);
        if str_eq(out[i].as_str(), x.as_str()) {
            assert(o.contains(xv));
            return;
        }
        proof {
            lemma_seq_lt_total(o[i as int], xv);
        }
    }
    out.insert(i, x);
    proof {
        let n = strings_view(out@);
        assert(n =~= o.insert(i as int, xv));
        assert forall|a: int, b: int| 0 <= a < b < n.len() implies seq_lt(#[trigger] n[a], #[trigger] n[b]) by {
            if b < i {
                assert(n[a] == o[a] && n[b] == o[b]);
            } else if b == i {
                assert(n[a] == o[a]);
            } else if a < i {
                assert(n[a] == o[a] && n[b] == o[b - 1]);
                if b - 1 > a {
                    assert(seq_lt(o[a], o[b - 1]));
                }
            } else if a == i {
                assert(n[b] == o[b - 1]);
                if b - 1 > i {
                    assert(seq_lt(o[i as int], o[b - 1]));
                    lemma_seq_lt_transitive(xv, o[i as int], o[b - 1]);
                }
            } else {
                assert(n[a] == o[a - 1] && n[b] == o[b - 1]);
            }
        }
        assert forall|y: Seq<char>| #[trigger] n.contains(y) <==> (o.contains(y) || y == xv) by {
            if n.contains(y) {
                let k = choose|k: int| 0 <= k < n.len() && n[k] == y;
                if k < i {
                    assert(o[k] == y);
                } else if k > i {
                    assert(o[k - 1] == y);
                }
            }
            if o.contains(y) {
                let k = choose|k: int| 0 <= k < o.len() && o[k] == y;
                if k < i {
                    assert(n[k] == y);
                } else {
                    assert(n[k + 1] == y);
                }
            }
            if y == xv {
                assert(n[i as int] == y);
            }
        }
    }
}

/// Adds the normalized form of each valid name of `names`.
fn add_extras(out: &mut Vec<String>, names: &Vec<String>)
    requires
        strictly_sorted(strings_view(old(out)@)),
    ensures
        strictly_sorted(strings_view(final(out)@)),
        forall|y: Seq<char>|
            #[trigger] strings_view(final(out)@).contains(y) <==> (strings_view(old(out)@).contains(y)
                || names_extra(strings_view(names@), y)),
{
    let ghost o = strings_view(out@);
    let ghost nv = strings_view(names@);
    let mut j: usize = 0;
    while j < names.len()
        invariant
            j <= names@.len(),
            nv == strings_view(names@),
            strictly_sorted(strings_view(out@)),
            forall|y: Seq<char>|
                #[trigger] strings_view(out@).contains(y) <==> (o.contains(y) || names_extra(nv.subrange(0, j as int), y)),
        decreases names@.len() - j,
    {
        let ghost pre = strings_view(out@);
        assert(nv[j as int] == names@[j as int]@);
        match normalize_extra(names[j].as_str()) {
            Some(n) => {
                insert_unique(out, n);
            },
            None => {},
        }
        proof {
            let sub = nv.subrange(0, j + 1);
            assert forall|y: Seq<char>| #[trigger] strings_view(out@).contains(y) <==> (o.contains(y)
                || names_extra(sub, y)) by {
                if names_extra(sub, y) {
                    let q = choose|q: int| 0 <= q < sub.len() && valid_package_name(#[trigger] sub[q]) && normalized_name(sub[q]) == y;
                    if q < j {
                        assert(nv.subrange(0, j as int)[q] == sub[q]);
                        assert(names_extra(nv.subrange(0, j as int), y));
                    }
                }
                if names_extra(nv.subrange(0, j as int), y) {
                    let q = choose|q: int| 0 <= q < j && valid_package_name(#[trigger] nv.subrange(0, j as int)[q]) && normalized_name(nv.subrange(0, j as int)[q]) == y;
                    assert(sub[q] == nv.subrange(0, j as int)[q]);
                }
                if valid_package_name(nv[j as int]) && normalized_name(nv[j as int]) == y {
                    assert(sub[j as int] == nv[j as int]);
                }
            }
        }
        j += 1;
    }
    assert(nv.subrange(0, j as int) =~= nv);
}

/// The dependency edges of node `i`.
pub open spec fn deps_of(g: Seq<GraphNode>, i: int) -> Seq<DepEdge> {
    g[i].pkg.dependencies@
}

/// Every extra the groups or an edge of the graph can activate, normalized,
/// sorted and without repeats.
fn extras_universe(graph: &DepGraph, groups: &Vec<String>) -> (u: Vec<String>)
    ensures
        strictly_sorted(strings_view(u@)),
        forall|x: Seq<char>| names_extra(strings_view(groups@), x) ==> #[trigger] strings_view(u@).contains(x),
        forall|i: int, k: int, x: Seq<char>|
            0 <= i < graph.nodes@.len() && 0 <= k < deps_of(graph.nodes@, i).len() && #[trigger] edge_extra(
                deps_of(graph.nodes@, i)[k],
                x,
            ) ==> strings_view(u@).contains(x),
{
    let ghost g = graph.nodes@;
    let mut u: Vec<String> = Vec::new();
    add_extras(&mut u, groups);
    let mut i: usize = 0;
    while i < graph.nodes.len()
        invariant
            i <= g.len(),
            g == graph.nodes@,
            strictly_sorted(strings_view(u@)),
            forall|x: Seq<char>| names_extra(strings_view(groups@), x) ==> #[trigger] strings_view(u@).contains(x),
            forall|i2: int, k: int, x: Seq<char>|
                0 <= i2 < i && 0 <= k < deps_of(g, i2).len() && #[trigger] edge_extra(deps_of(g, i2)[k], x)
                    ==> strings_view(u@).contains(x),
        decreases g.len() - i,
    {
        let deps = &graph.nodes[i].pkg.dependencies;
        let mut k: usize = 0;
        while k < deps.len()
            invariant
                i < g.len(),
                k <= deps@.len(),
                g == graph.nodes@,
                deps@ == deps_of(g, i as int),
                strictly_sorted(strings_view(u@)),
                forall|x: Seq<char>| names_extra(strings_view(groups@), x) ==> #[trigger] strings_view(u@).contains(x),
                forall|i2: int, k2: int, x: Seq<char>|
                    0 <= i2 < i && 0 <= k2 < deps_of(g, i2).len() && #[trigger] edge_extra(deps_of(g, i2)[k2], x)
                        ==> strings_view(u@).contains(x),
                forall|k2: int, x: Seq<char>|
                    0 <= k2 < k && #[trigger] edge_extra(deps_of(g, i as int)[k2], x) ==> strings_view(u@).contains(x),
            decreases deps@.len() - k,
        {
            add_extras(&mut u, &deps[k].extra);
            k += 1;
        }
        i += 1;
    }
    u
}

/// Flags over `u`: set where `names` names that extra.
fn extra_bits(u: &Vec<String>, names: &Vec<String>) -> (r: Vec<bool>)
    requires
        strictly_sorted(strings_view(u@)),
        forall|x: Seq<char>| names_extra(strings_view(names@), x) ==> #[trigger] strings_view(u@).contains(x),
    ensures
        r@.len() == u@.len(),
        forall|m: int| 0 <= m < u@.len() ==> #[trigger] r@[m] == names_extra(strings_view(names@), u@[m]@),
{
    let ghost uv = strings_view(u@);
    let ghost nv = strings_view(names@);
    let mut r: Vec<bool> = Vec::new();
    let mut m: usize = 0;
    while m < u.len()
        invariant
            m <= u@.len(),
            r@.len() == m,
            forall|q: int| 0 <= q < m ==> !#[trigger] r@[q],
        decreases u@.len() - m,
    {
        r.push(false);
        m += 1;
    }
    let mut j: usize = 0;
    while j < names.len()
        invariant
            j <= names@.len(),
            uv == strings_view(u@),
            nv == strings_view(names@),
            strictly_sorted(uv),
            forall|x: Seq<char>| names_extra(nv, x) ==> #[trigger] uv.contains(x),
            r@.len() == u@.len(),
            forall|q: int| 0 <= q < u@.len() ==> #[trigger] r@[q] == names_extra(nv.subrange(0, j as int), uv[q]),
        decreases names@.len() - j,
    {
        let ghost pre = r@;
        let ghost sub = nv.subrange(0, j + 1);
        assert(nv[j as int] == names@[j as int]@);
        let hit = normalize_extra(names[j].as_str());
        match &hit {
            Some(n) => {
                proof {
                    assert(names_extra(nv, n@));
                    assert(uv.contains(n@));
                }
                match index_in(u, n.as_str()) {
                    Some(q) => {
                        r.set(q, true);
                        proof {
                            assert forall|q2: int| 0 <= q2 < u@.len() implies #[trigger] r@[q2] == (pre[q2] || uv[q2] == n@) by {
                                assert(uv[q2] == u@[q2]@);
                                if q2 != q && uv[q2] == n@ {
                                    if q2 < q {
                                        assert(seq_lt(uv[q2], uv[q as int]));
                                    } else {
                                        assert(seq_lt(uv[q as int], uv[q2]));
                                    }
                                    lemma_seq_lt_irreflexive(n@);
                                }
                            }
                        }
                    },
                    None => {
                        proof {
                            let q = choose|q: int| 0 <= q < uv.len() && uv[q] == n@;
                            assert(u@[q]@ == n@);
                        }
                    },
                }
            },
            None => {},
        }
        proof {
            assert forall|q: int| 0 <= q < u@.len() implies #[trigger] r@[q] == names_extra(sub, uv[q]) by {
                assert(uv[q] == u@[q]@);
                if names_extra(sub, uv[q]) {
                    let p = choose|p: int| 0 <= p < sub.len() && valid_package_name(#[trigger] sub[p]) && normalized_name(sub[p]) == uv[q];
                    if p < j {
                        assert(nv.subrange(0, j as int)[p] == sub[p]);
                        assert(names_extra(nv.subrange(0, j as int), uv[q]));
                    }
                }
                if names_extra(nv.subrange(0, j as int), uv[q]) {
                    let p = choose|p: int| 0 <= p < j && valid_package_name(#[trigger] nv.subrange(0, j as int)[p]) && normalized_name(nv.subrange(0, j as int)[p]) == uv[q];
                    assert(sub[p] == nv.subrange(0, j as int)[p]);
                }
                if valid_package_name(nv[j as int]) && normalized_name(nv[j as int]) == uv[q] {
                    assert(sub[j as int] == nv[j as int]);
                }
            }
        }
        j += 1;
    }
    assert(nv.subrange(0, j as int) =~= nv);
    r
}

/// The marker text of an edge, if it has one.
pub open spec fn marker_text(d: DepEdge) -> Option<Seq<char>> {
    match d.marker {
        Some(m) => Some(m@),
        None => None,
    }
}

/// What an edge hands its target: the groups' extras and its own.
pub open spec fn passes(groups: Seq<Seq<char>>, d: DepEdge, x: Seq<char>) -> bool {
    names_extra(groups, x) || edge_extra(d, x)
}

/// The extras of activated node `i`.
pub open spec fn extras_at(r: Seq<Option<Vec<String>>>, i: int) -> Seq<Seq<char>> {
    strings_view(r[i].unwrap()@)
}

/// Every root is active with the groups' extras, and every edge whose marker
/// holds with its node's extras leads to an active node that has what the
/// edge hands it.
pub open spec fn activation_closed(
    g: Seq<GraphNode>,
    roots: Seq<usize>,
    env: MarkerEnvModel,
    groups: Seq<Seq<char>>,
    r: Seq<Option<Vec<String>>>,
) -> bool {
    &&& forall|q: int, x: Seq<char>|
        0 <= q < roots.len() ==> r[#[trigger] roots[q] as int] is Some && (names_extra(groups, x)
            ==> #[trigger] extras_at(r, roots[q] as int).contains(x))
    &&& forall|i: int, k: int|
        0 <= i < g.len() && r[i] is Some && 0 <= k < deps_of(g, i).len() && #[trigger] marker_applies(
            marker_text(deps_of(g, i)[k]),
            env,
            extras_at(r, i),
        ) ==> r[g[i].edges_out@[k] as int] is Some && forall|x: Seq<char>|
            passes(groups, deps_of(g, i)[k], x) ==> #[trigger] extras_at(r, g[i].edges_out@[k] as int).contains(x)
}

/// Every active node holds every extra the groups name.
pub open spec fn activation_grouped(groups: Seq<Seq<char>>, r: Seq<Option<Vec<String>>>) -> bool {
    forall|i: int, x: Seq<char>|
        0 <= i < r.len() && r[i] is Some && names_extra(groups, x) ==> #[trigger] extras_at(r, i).contains(x)
}

/// Edge `k` of active node `j` leads to `i`, and its marker held with some
/// of `j`'s extras (those it had when the edge was followed).
pub open spec fn fired_into(
    g: Seq<GraphNode>,
    env: MarkerEnvModel,
    r: Seq<Option<Vec<String>>>,
    j: int,
    k: int,
    i: int,
) -> bool {
    &&& 0 <= j < g.len()
    &&& r[j] is Some
    &&& 0 <= k < deps_of(g, j).len()
    &&& g[j].edges_out@[k] == i
    &&& exists|xs: Seq<Seq<char>>|
        #[trigger] marker_applies(marker_text(deps_of(g, j)[k]), env, xs) && strictly_sorted(xs) && forall|x: Seq<char>|
            xs.contains(x) ==> #[trigger] extras_at(r, j).contains(x)
}

/// Every active node is reached from a root, and is a root or the target of
/// an edge that fired; each of its extras comes from the groups or from an
/// edge into it that fired.
pub open spec fn activation_sound(
    g: Seq<GraphNode>,
    roots: Seq<usize>,
    env: MarkerEnvModel,
    groups: Seq<Seq<char>>,
    r: Seq<Option<Vec<String>>>,
) -> bool {
    &&& forall|i: int|
        0 <= i < r.len() && #[trigger] r[i] is Some ==> exists|q: int|
            0 <= q < roots.len() && reaches(adjacency(g), #[trigger] roots[q] as int, i)
    &&& forall|i: int|
        0 <= i < r.len() && #[trigger] r[i] is Some ==> roots.contains(i as usize) || exists|j: int, k: int|
            #[trigger] fired_into(g, env, r, j, k, i)
    &&& forall|i: int, x: Seq<char>|
        0 <= i < r.len() && r[i] is Some && #[trigger] extras_at(r, i).contains(x) ==> names_extra(groups, x)
            || exists|j: int, k: int| #[trigger] fired_into(g, env, r, j, k, i) && edge_extra(deps_of(g, j)[k], x)
    &&& forall|i: int| 0 <= i < r.len() && #[trigger] r[i] is Some ==> strictly_sorted(extras_at(r, i))
}

/// Edge `k` of active node `j` leads to `i`; `j` was active before time
/// `tau`, and the edge's marker held with extras `j` had before `tau`.
pub open spec fn fired_before(
    g: Seq<GraphNode>,
    env: MarkerEnvModel,
    r: Seq<Option<Vec<String>>>,
    tn: Seq<int>,
    tx: spec_fn(int, Seq<char>) -> int,
    j: int,
    k: int,
    i: int,
    tau: int,
) -> bool {
    &&& 0 <= j < g.len()
    &&& r[j] is Some
    &&& 0 <= k < deps_of(g, j).len()
    &&& g[j].edges_out@[k] == i
    &&& tn[j] < tau
    &&& exists|xs: Seq<Seq<char>>|
        #[trigger] marker_applies(marker_text(deps_of(g, j)[k]), env, xs) && strictly_sorted(xs) && forall|x: Seq<char>|
            xs.contains(x) ==> #[trigger] extras_at(r, j).contains(x) && tx(j, x) < tau
}

/// Times for the active nodes (`tn`) and for their extras (`tx`) under
/// which each node is a root or the target of an edge that fired before
/// it, and each extra (no earlier than its node) comes from the groups or
/// from an edge into its node that fired before it.
pub open spec fn derivation(
    g: Seq<GraphNode>,
    roots: Seq<usize>,
    env: MarkerEnvModel,
    groups: Seq<Seq<char>>,
    r: Seq<Option<Vec<String>>>,
    tn: Seq<int>,
    tx: spec_fn(int, Seq<char>) -> int,
) -> bool {
    &&& tn.len() == r.len()
    &&& forall|i: int|
        0 <= i < r.len() && #[trigger] r[i] is Some ==> 0 <= tn[i] && (roots.contains(i as usize) || exists|j: int, k: int|
            #[trigger] fired_before(g, env, r, tn, tx, j, k, i, tn[i]))
    &&& forall|i: int, x: Seq<char>|
        0 <= i < r.len() && r[i] is Some && #[trigger] extras_at(r, i).contains(x) ==> tn[i] <= tx(i, x) && (names_extra(
            groups,
            x,
        ) || exists|j: int, k: int|
            #[trigger] fired_before(g, env, r, tn, tx, j, k, i, tx(i, x)) && edge_extra(deps_of(g, j)[k], x))
}

/// The activation can be derived step by step from the roots.
pub open spec fn well_founded(
    g: Seq<GraphNode>,
    roots: Seq<usize>,
    env: MarkerEnvModel,
    groups: Seq<Seq<char>>,
    r: Seq<Option<Vec<String>>>,
) -> bool {
    exists|tn: Seq<int>, tx: spec_fn(int, Seq<char>) -> int| derivation(g, roots, env, groups, r, tn, tx)
}

/// The position of `x` in `u`.
spec fn uindex(u: Seq<Seq<char>>, x: Seq<char>) -> int {
    choose|m: int| 0 <= m < u.len() && u[m] == x
}

proof fn lemma_uindex(u: Seq<Seq<char>>, m: int)
    requires
        strictly_sorted(u),
        0 <= m < u.len(),
    ensures
        uindex(u, u[m]) == m,
{
    let m2 = uindex(u, u[m]);
    assert(0 <= m2 < u.len() && u[m2] == u[m]);
    if m2 < m {
        assert(seq_lt(u[m2], u[m]));
        lemma_seq_lt_irreflexive(u[m]);
    } else if m < m2 {
        assert(seq_lt(u[m], u[m2]));
        lemma_seq_lt_irreflexive(u[m]);
    }
}

spec fn bits(act: Seq<Option<Vec<bool>>>, i: int) -> Seq<bool> {
    act[i].unwrap()@
}

/// Edge `k` of node `i`, if its marker holds with the extras `b` flags,
/// leads to an active node flagged with what the edge hands it.
spec fn edge_closed(
    g: Seq<GraphNode>,
    env: MarkerEnvModel,
    u: Seq<Seq<char>>,
    groups: Seq<Seq<char>>,
    act: Seq<Option<Vec<bool>>>,
    i: int,
    k: int,
    b: Seq<bool>,
) -> bool {
    marker_applies(marker_text(deps_of(g, i)[k]), env, flagged(u, b)) ==> {
        let t = g[i].edges_out@[k] as int;
        &&& act[t] is Some
        &&& forall|m: int| 0 <= m < u.len() && passes(groups, deps_of(g, i)[k], u[m]) ==> #[trigger] bits(act, t)[m]
    }
}

/// Nodes stay active and keep their flags.
spec fn grows(a1: Seq<Option<Vec<bool>>>, a2: Seq<Option<Vec<bool>>>) -> bool {
    &&& a1.len() == a2.len()
    &&& forall|i: int|
        0 <= i < a1.len() && #[trigger] a1[i] is Some ==> a2[i] is Some && bits(a1, i).len() == bits(a2, i).len()
            && forall|m: int| 0 <= m < bits(a1, i).len() && #[trigger] bits(a1, i)[m] ==> bits(a2, i)[m]
}

/// Edge `k` of active node `j` leads to `i` and its marker held with some
/// of the extras `j` is flagged with.
spec fn fired_edge(
    g: Seq<GraphNode>,
    env: MarkerEnvModel,
    u: Seq<Seq<char>>,
    act: Seq<Option<Vec<bool>>>,
    j: int,
    k: int,
    i: int,
) -> bool {
    &&& 0 <= j < g.len()
    &&& act[j] is Some
    &&& 0 <= k < deps_of(g, j).len()
    &&& g[j].edges_out@[k] == i
    &&& exists|b: Seq<bool>|
        b.len() == u.len() && (forall|m: int| 0 <= m < u.len() && b[m] ==> #[trigger] bits(act, j)[m]) && marker_applies(
            marker_text(deps_of(g, j)[k]),
            env,
            #[trigger] flagged(u, b),
        )
}

spec fn fed(
    g: Seq<GraphNode>,
    env: MarkerEnvModel,
    groups: Seq<Seq<char>>,
    u: Seq<Seq<char>>,
    act: Seq<Option<Vec<bool>>>,
    i: int,
    m: int,
) -> bool {
    names_extra(groups, u[m]) || exists|j: int, k: int|
        #[trigger] fired_edge(g, env, u, act, j, k, i) && edge_extra(deps_of(g, j)[k], u[m])
}

spec fn inv_fired(
    g: Seq<GraphNode>,
    env: MarkerEnvModel,
    u: Seq<Seq<char>>,
    roots: Seq<usize>,
    act: Seq<Option<Vec<bool>>>,
) -> bool {
    forall|i: int|
        0 <= i < act.len() && #[trigger] act[i] is Some ==> roots.contains(i as usize) || exists|j: int, k: int|
            #[trigger] fired_edge(g, env, u, act, j, k, i)
}

proof fn lemma_grow_fired(
    g: Seq<GraphNode>,
    env: MarkerEnvModel,
    u: Seq<Seq<char>>,
    a1: Seq<Option<Vec<bool>>>,
    a2: Seq<Option<Vec<bool>>>,
    j: int,
    k: int,
    i: int,
)
    requires
        grows(a1, a2),
        a1.len() == g.len(),
        inv_lens(a1, u.len()),
        fired_edge(g, env, u, a1, j, k, i),
    ensures
        fired_edge(g, env, u, a2, j, k, i),
{
    let b = choose|b: Seq<bool>|
        b.len() == u.len() && (forall|m: int| 0 <= m < u.len() && b[m] ==> #[trigger] bits(a1, j)[m]) && marker_applies(
            marker_text(deps_of(g, j)[k]),
            env,
            #[trigger] flagged(u, b),
        );
    assert(a2[j] is Some);
    assert(bits(a1, j).len() == u.len());
    assert forall|m: int| 0 <= m < u.len() && b[m] implies #[trigger] bits(a2, j)[m] by {
        assert(bits(a1, j)[m]);
    }
}

spec fn inv_lens(act: Seq<Option<Vec<bool>>>, n: nat) -> bool {
    forall|i: int| 0 <= i < act.len() && #[trigger] act[i] is Some ==> bits(act, i).len() == n
}

spec fn inv_roots(roots: Seq<usize>, act: Seq<Option<Vec<bool>>>, gb: Seq<bool>) -> bool {
    forall|q: int|
        0 <= q < roots.len() ==> act[#[trigger] roots[q] as int] is Some && forall|m: int|
            0 <= m < gb.len() && gb[m] ==> #[trigger] bits(act, roots[q] as int)[m]
}

spec fn inv_groups(act: Seq<Option<Vec<bool>>>, gb: Seq<bool>) -> bool {
    forall|i: int, m: int|
        0 <= i < act.len() && act[i] is Some && 0 <= m < gb.len() && gb[m] ==> #[trigger] bits(act, i)[m]
}

proof fn lemma_groups_update(a1: Seq<Option<Vec<bool>>>, gb: Seq<bool>, t: int, nb: Vec<bool>)
    requires
        inv_groups(a1, gb),
        0 <= t < a1.len(),
        nb@.len() == gb.len(),
        forall|m: int| 0 <= m < gb.len() && gb[m] ==> #[trigger] nb@[m],
    ensures
        inv_groups(a1.update(t, Some(nb)), gb),
{
    let a2 = a1.update(t, Some(nb));
    assert forall|i: int, m: int| 0 <= i < a2.len() && a2[i] is Some && 0 <= m < gb.len() && gb[m] implies #[trigger] bits(a2, i)[m] by {
        if i == t {
            assert(bits(a2, i) == nb@);
        } else {
            assert(a2[i] == a1[i]);
            assert(bits(a1, i)[m]);
        }
    }
}

spec fn inv_reach(adjs: Seq<Seq<usize>>, roots: Seq<usize>, act: Seq<Option<Vec<bool>>>) -> bool {
    forall|i: int|
        0 <= i < act.len() && #[trigger] act[i] is Some ==> exists|q: int|
            0 <= q < roots.len() && reaches(adjs, #[trigger] roots[q] as int, i)
}

spec fn inv_fed(
    g: Seq<GraphNode>,
    env: MarkerEnvModel,
    groups: Seq<Seq<char>>,
    u: Seq<Seq<char>>,
    act: Seq<Option<Vec<bool>>>,
) -> bool {
    forall|i: int, m: int|
        0 <= i < act.len() && act[i] is Some && 0 <= m < bits(act, i).len() && #[trigger] bits(act, i)[m] ==> fed(
            g,
            env,
            groups,
            u,
            act,
            i,
            m,
        )
}

spec fn inv_closed(
    g: Seq<GraphNode>,
    env: MarkerEnvModel,
    u: Seq<Seq<char>>,
    groups: Seq<Seq<char>>,
    act: Seq<Option<Vec<bool>>>,
    stack: Seq<usize>,
    skip: int,
) -> bool {
    forall|i: int, k: int|
        0 <= i < act.len() && i != skip && act[i] is Some && !stack.contains(i as usize) && 0 <= k < deps_of(g, i).len()
            ==> #[trigger] edge_closed(g, env, u, groups, act, i, k, bits(act, i))
}

proof fn lemma_grow_closed(
    g: Seq<GraphNode>,
    env: MarkerEnvModel,
    u: Seq<Seq<char>>,
    groups: Seq<Seq<char>>,
    a1: Seq<Option<Vec<bool>>>,
    a2: Seq<Option<Vec<bool>>>,
    i: int,
    k: int,
    b: Seq<bool>,
)
    requires
        grows(a1, a2),
        inv_lens(a1, u.len()),
        0 <= g[i].edges_out@[k] < a1.len(),
        edge_closed(g, env, u, groups, a1, i, k, b),
    ensures
        edge_closed(g, env, u, groups, a2, i, k, b),
{
    if marker_applies(marker_text(deps_of(g, i)[k]), env, flagged(u, b)) {
        let t = g[i].edges_out@[k] as int;
        assert(a1[t] is Some);
        assert forall|m: int| 0 <= m < u.len() && passes(groups, deps_of(g, i)[k], u[m]) implies #[trigger] bits(a2, t)[m] by {
            assert(bits(a1, t)[m]);
        }
    }
}

proof fn lemma_grow_fed(
    g: Seq<GraphNode>,
    env: MarkerEnvModel,
    groups: Seq<Seq<char>>,
    u: Seq<Seq<char>>,
    a1: Seq<Option<Vec<bool>>>,
    a2: Seq<Option<Vec<bool>>>,
    i: int,
    m: int,
)
    requires
        grows(a1, a2),
        a1.len() == g.len(),
        inv_lens(a1, u.len()),
        fed(g, env, groups, u, a1, i, m),
    ensures
        fed(g, env, groups, u, a2, i, m),
{
    if !names_extra(groups, u[m]) {
        let (j, k) = choose|j: int, k: int| #[trigger] fired_edge(g, env, u, a1, j, k, i) && edge_extra(deps_of(g, j)[k], u[m]);
        lemma_grow_fired(g, env, u, a1, a2, j, k, i);
    }
}

proof fn lemma_fired_update(
    g: Seq<GraphNode>,
    env: MarkerEnvModel,
    u: Seq<Seq<char>>,
    roots: Seq<usize>,
    a1: Seq<Option<Vec<bool>>>,
    node: int,
    k: int,
    t: int,
    nb: Vec<bool>,
    snap: Seq<bool>,
)
    requires
        a1.len() == g.len(),
        0 <= node < g.len(),
        a1[node] is Some,
        0 <= k < deps_of(g, node).len(),
        g[node].edges_out@[k] == t,
        0 <= t < g.len(),
        inv_lens(a1, u.len()),
        inv_fired(g, env, u, roots, a1),
        snap.len() == u.len(),
        forall|m: int| 0 <= m < u.len() && snap[m] ==> #[trigger] bits(a1, node)[m],
        marker_applies(marker_text(deps_of(g, node)[k]), env, flagged(u, snap)),
        grows(a1, a1.update(t, Some(nb))),
    ensures
        fired_edge(g, env, u, a1.update(t, Some(nb)), node, k, t),
        inv_fired(g, env, u, roots, a1.update(t, Some(nb))),
{
    let a2 = a1.update(t, Some(nb));
    assert(fired_edge(g, env, u, a1, node, k, t));
    lemma_grow_fired(g, env, u, a1, a2, node, k, t);
    assert forall|i: int| 0 <= i < a2.len() && #[trigger] a2[i] is Some implies roots.contains(i as usize) || exists|j: int, k2: int|
        #[trigger] fired_edge(g, env, u, a2, j, k2, i) by {
        if i == t {
        } else {
            assert(a1[i] is Some);
            if !roots.contains(i as usize) {
                let (j, k2) = choose|j: int, k2: int| #[trigger] fired_edge(g, env, u, a1, j, k2, i);
                lemma_grow_fired(g, env, u, a1, a2, j, k2, i);
            }
        }
    }
}

/// Edge `k` of node `j` leads to `i`; `j` was active before time `tau`,
/// and the edge's marker held with extras `j` had before `tau`.
spec fn dfired(
    g: Seq<GraphNode>,
    env: MarkerEnvModel,
    u: Seq<Seq<char>>,
    act: Seq<Option<Vec<bool>>>,
    tn: Seq<int>,
    tb: Seq<Seq<int>>,
    j: int,
    k: int,
    i: int,
    tau: int,
) -> bool {
    &&& 0 <= j < g.len()
    &&& act[j] is Some
    &&& 0 <= k < deps_of(g, j).len()
    &&& g[j].edges_out@[k] == i
    &&& tn[j] < tau
    &&& exists|b: Seq<bool>|
        b.len() == u.len() && (forall|m: int| 0 <= m < u.len() && b[m] ==> #[trigger] bits(act, j)[m] && tb[j][m] < tau)
            && marker_applies(marker_text(deps_of(g, j)[k]), env, #[trigger] flagged(u, b))
}

/// Times: each active node and each of its flags got one, before `clock`,
/// a flag no earlier than its node.
spec fn stamped(act: Seq<Option<Vec<bool>>>, tn: Seq<int>, tb: Seq<Seq<int>>, n: nat, clock: int) -> bool {
    &&& tn.len() == act.len()
    &&& tb.len() == act.len()
    &&& forall|i: int| 0 <= i < act.len() ==> (#[trigger] tb[i]).len() == n
    &&& forall|i: int| 0 <= i < act.len() && #[trigger] act[i] is Some ==> 0 <= tn[i] < clock
    &&& forall|i: int, m: int|
        0 <= i < act.len() && act[i] is Some && 0 <= m < n && #[trigger] bits(act, i)[m] ==> tn[i] <= tb[i][m] < clock
}

/// Each active node is a root or was reached by an edge that fired before
/// it; each flag comes from the groups or from an edge that fired before it.
spec fn inv_derived(
    g: Seq<GraphNode>,
    env: MarkerEnvModel,
    u: Seq<Seq<char>>,
    groups: Seq<Seq<char>>,
    roots: Seq<usize>,
    act: Seq<Option<Vec<bool>>>,
    tn: Seq<int>,
    tb: Seq<Seq<int>>,
) -> bool {
    &&& forall|i: int|
        0 <= i < act.len() && #[trigger] act[i] is Some ==> roots.contains(i as usize) || exists|j: int, k: int|
            #[trigger] dfired(g, env, u, act, tn, tb, j, k, i, tn[i])
    &&& forall|i: int, m: int|
        0 <= i < act.len() && act[i] is Some && 0 <= m < u.len() && #[trigger] bits(act, i)[m] ==> names_extra(groups, u[m])
            || exists|j: int, k: int|
            #[trigger] dfired(g, env, u, act, tn, tb, j, k, i, tb[i][m]) && edge_extra(deps_of(g, j)[k], u[m])
}

/// Times kept for what was active and flagged.
spec fn keeps_times(
    a1: Seq<Option<Vec<bool>>>,
    tn: Seq<int>,
    tb: Seq<Seq<int>>,
    tn2: Seq<int>,
    tb2: Seq<Seq<int>>,
    n: nat,
) -> bool {
    &&& forall|i: int| 0 <= i < a1.len() && #[trigger] a1[i] is Some ==> tn2[i] == tn[i]
    &&& forall|i: int, m: int|
        0 <= i < a1.len() && a1[i] is Some && 0 <= m < n && #[trigger] bits(a1, i)[m] ==> tb2[i][m] == tb[i][m]
}

proof fn lemma_dfired_grow(
    g: Seq<GraphNode>,
    env: MarkerEnvModel,
    u: Seq<Seq<char>>,
    a1: Seq<Option<Vec<bool>>>,
    tn: Seq<int>,
    tb: Seq<Seq<int>>,
    a2: Seq<Option<Vec<bool>>>,
    tn2: Seq<int>,
    tb2: Seq<Seq<int>>,
    j: int,
    k: int,
    i: int,
    tau: int,
)
    requires
        dfired(g, env, u, a1, tn, tb, j, k, i, tau),
        grows(a1, a2),
        a1.len() == g.len(),
        inv_lens(a1, u.len()),
        keeps_times(a1, tn, tb, tn2, tb2, u.len()),
    ensures
        dfired(g, env, u, a2, tn2, tb2, j, k, i, tau),
{
    let b = choose|b: Seq<bool>|
        b.len() == u.len() && (forall|m: int| 0 <= m < u.len() && b[m] ==> #[trigger] bits(a1, j)[m] && tb[j][m] < tau)
            && marker_applies(marker_text(deps_of(g, j)[k]), env, #[trigger] flagged(u, b));
    assert(a2[j] is Some);
    assert(tn2[j] == tn[j]);
    assert(bits(a1, j).len() == u.len());
    assert forall|m: int| 0 <= m < u.len() && b[m] implies #[trigger] bits(a2, j)[m] && tb2[j][m] < tau by {
        assert(bits(a1, j)[m]);
        assert(tb2[j][m] == tb[j][m]);
    }
}

/// One step of the walk keeps the times and the derivations: `t` becomes
/// active (if it was not) and takes the flags `nb`, new ones at `clock`.
#[verifier::rlimit(50)]
#[verifier::spinoff_prover]
proof fn lemma_derived_update(
    g: Seq<GraphNode>,
    env: MarkerEnvModel,
    u: Seq<Seq<char>>,
    groups: Seq<Seq<char>>,
    roots: Seq<usize>,
    a1: Seq<Option<Vec<bool>>>,
    tn: Seq<int>,
    tb: Seq<Seq<int>>,
    clock: int,
    node: int,
    k: int,
    t: int,
    nb: Vec<bool>,
    snap: Seq<bool>,
    gb: Seq<bool>,
    eb: Seq<bool>,
) -> (r: (Seq<int>, Seq<Seq<int>>))
    requires
        a1.len() == g.len(),
        0 <= node < g.len(),
        a1[node] is Some,
        0 <= k < deps_of(g, node).len(),
        g[node].edges_out@[k] == t,
        0 <= t < g.len(),
        inv_lens(a1, u.len()),
        stamped(a1, tn, tb, u.len(), clock),
        inv_derived(g, env, u, groups, roots, a1, tn, tb),
        snap.len() == u.len(),
        forall|m: int| 0 <= m < u.len() && snap[m] ==> #[trigger] bits(a1, node)[m],
        marker_applies(marker_text(deps_of(g, node)[k]), env, flagged(u, snap)),
        nb@.len() == u.len(),
        gb.len() == u.len(),
        eb.len() == u.len(),
        forall|m: int| 0 <= m < u.len() ==> #[trigger] gb[m] == names_extra(groups, u[m]),
        forall|m: int| 0 <= m < u.len() ==> #[trigger] eb[m] == edge_extra(deps_of(g, node)[k], u[m]),
        forall|m: int|
            0 <= m < u.len() ==> #[trigger] nb@[m] == ((a1[t] is Some && bits(a1, t)[m]) || gb[m] || eb[m]),
        grows(a1, a1.update(t, Some(nb))),
    ensures
        stamped(a1.update(t, Some(nb)), r.0, r.1, u.len(), clock + 1),
        inv_derived(g, env, u, groups, roots, a1.update(t, Some(nb)), r.0, r.1),
        keeps_times(a1, tn, tb, r.0, r.1, u.len()),
{
    let a2 = a1.update(t, Some(nb));
    let was = a1[t] is Some;
    let tn2 = if was { tn } else { tn.update(t, clock) };
    let row = Seq::new(u.len(), |m: int| if was && bits(a1, t)[m] { tb[t][m] } else { clock });
    let tb2 = tb.update(t, row);
    assert(bits(a2, t) == nb@);
    assert(keeps_times(a1, tn, tb, tn2, tb2, u.len()));
    assert(stamped(a2, tn2, tb2, u.len(), clock + 1)) by {
        assert forall|i: int, m: int|
            0 <= i < a2.len() && a2[i] is Some && 0 <= m < u.len() && #[trigger] bits(a2, i)[m] implies tn2[i] <= tb2[i][m] < clock + 1 by {
            if i != t {
                assert(a2[i] == a1[i]);
                assert(bits(a1, i)[m]);
            } else if was && bits(a1, t)[m] {
            }
        }
    }
    // The edge fired at `clock`, after `node` and the flags it used.
    assert(dfired(g, env, u, a2, tn2, tb2, node, k, t, clock)) by {
        assert(a2[node] is Some);
        assert(tn2[node] == tn[node]);
        assert(bits(a1, node).len() == u.len());
        assert forall|m: int| 0 <= m < u.len() && snap[m] implies #[trigger] bits(a2, node)[m] && tb2[node][m] < clock by {
            assert(bits(a1, node)[m]);
            assert(tb2[node][m] == tb[node][m]);
        }
        assert(marker_applies(marker_text(deps_of(g, node)[k]), env, flagged(u, snap)));
    }
    assert forall|i: int| 0 <= i < a2.len() && #[trigger] a2[i] is Some implies roots.contains(i as usize) || exists|j: int, k2: int|
        #[trigger] dfired(g, env, u, a2, tn2, tb2, j, k2, i, tn2[i]) by {
        if i == t && !was {
            assert(tn2[i] == clock);
        } else {
            assert(a1[i] is Some);
            assert(tn2[i] == tn[i]);
            if !roots.contains(i as usize) {
                let (j, k2) = choose|j: int, k2: int| #[trigger] dfired(g, env, u, a1, tn, tb, j, k2, i, tn[i]);
                lemma_dfired_grow(g, env, u, a1, tn, tb, a2, tn2, tb2, j, k2, i, tn[i]);
            }
        }
    }
    assert forall|i: int, m: int|
        0 <= i < a2.len() && a2[i] is Some && 0 <= m < u.len() && #[trigger] bits(a2, i)[m] implies names_extra(groups, u[m])
            || exists|j: int, k2: int|
            #[trigger] dfired(g, env, u, a2, tn2, tb2, j, k2, i, tb2[i][m]) && edge_extra(deps_of(g, j)[k2], u[m]) by {
        if i == t && !(was && bits(a1, t)[m]) {
            assert(tb2[i][m] == clock);
            if !gb[m] {
                assert(eb[m]);
            }
        } else {
            assert(a1[i] is Some);
            assert(bits(a1, i)[m]);
            assert(tb2[i][m] == tb[i][m]);
            if !names_extra(groups, u[m]) {
                let (j, k2) = choose|j: int, k2: int|
                    #[trigger] dfired(g, env, u, a1, tn, tb, j, k2, i, tb[i][m]) && edge_extra(deps_of(g, j)[k2], u[m]);
                lemma_dfired_grow(g, env, u, a1, tn, tb, a2, tn2, tb2, j, k2, i, tb[i][m]);
            }
        }
    }
    (tn2, tb2)
}

/// Flags set where any of three flag lists is set, and whether `x` or `y`
/// sets one that `b` does not.
fn merge_bits(b: &Vec<bool>, x: &Vec<bool>, y: &Vec<bool>) -> (r: (Vec<bool>, bool))
    requires
        x@.len() == b@.len(),
        y@.len() == b@.len(),
    ensures
        r.0@.len() == b@.len(),
        forall|m: int| 0 <= m < b@.len() ==> #[trigger] r.0@[m] == (b@[m] || x@[m] || y@[m]),
        r.1 == exists|m: int| 0 <= m < b@.len() && !b@[m] && #[trigger] r.0@[m],
{
    let mut out: Vec<bool> = Vec::new();
    let mut changed = false;
    let mut m: usize = 0;
    while m < b.len()
        invariant
            m <= b@.len(),
            x@.len() == b@.len(),
            y@.len() == b@.len(),
            out@.len() == m,
            forall|q: int| 0 <= q < m ==> #[trigger] out@[q] == (b@[q] || x@[q] || y@[q]),
            changed == exists|q: int| 0 <= q < m && !b@[q] && #[trigger] out@[q],
        decreases b@.len() - m,
    {
        let v = b[m] || x[m] || y[m];
        let ghost pre = out@;
        let ghost was = changed;
        if v && !b[m] {
            changed = true;
        }
        out.push(v);
        proof {
            assert forall|q: int| 0 <= q < m implies #[trigger] out@[q] == pre[q] by {}
            if was {
                let q = choose|q: int| 0 <= q < m && !b@[q] && #[trigger] pre[q];
                assert(out@[q] == pre[q]);
            }
            if v && !b@[m as int] {
                assert(out@[m as int] == v);
            }
            if exists|q: int| 0 <= q < m + 1 && !b@[q] && #[trigger] out@[q] {
                let q = choose|q: int| 0 <= q < m + 1 && !b@[q] && #[trigger] out@[q];
                if q < m {
                    assert(pre[q]);
                }
            }
        }
        m += 1;
    }
    (out, changed)
}

/// `n` unset flags.
fn no_bits(n: usize) -> (r: Vec<bool>)
    ensures
        r@.len() == n,
        forall|m: int| 0 <= m < n ==> !#[trigger] r@[m],
{
    let mut out: Vec<bool> = Vec::new();
    let mut m: usize = 0;
    while m < n
        invariant
            m <= n,
            out@.len() == m,
            forall|q: int| 0 <= q < m ==> !#[trigger] out@[q],
        decreases n - m,
    {
        out.push(false);
        m += 1;
    }
    out
}

/// A sorted list keeps its order when some of its names are left out.
proof fn lemma_flagged_sorted(u: Seq<Seq<char>>, bits: Seq<bool>)
    requires
        strictly_sorted(u),
        bits.len() >= u.len(),
    ensures
        strictly_sorted(flagged(u, bits)),
    decreases u.len(),
{
    if u.len() > 0 {
        let d = u.drop_last();
        assert(strictly_sorted(d)) by {
            assert forall|a: int, b: int| 0 <= a < b < d.len() implies seq_lt(#[trigger] d[a], #[trigger] d[b]) by {
                assert(d[a] == u[a] && d[b] == u[b]);
            }
        }
        lemma_flagged_sorted(d, bits);
        if bits[u.len() - 1] {
            let f = flagged(d, bits);
            let h = f.push(u.last());
            assert forall|a: int, b: int| 0 <= a < b < h.len() implies seq_lt(#[trigger] h[a], #[trigger] h[b]) by {
                if b == h.len() - 1 {
                    lemma_flagged_contains(d, bits, f[a]);
                    assert(f.contains(f[a]));
                    let k = choose|k: int| 0 <= k < d.len() && bits[k] && d[k] == f[a];
                    assert(u[k] == f[a]);
                } else {
                    assert(h[a] == f[a] && h[b] == f[b]);
                }
            }
        }
    }
}

proof fn lemma_grows_update(a1: Seq<Option<Vec<bool>>>, un: nat, t: int, nb: Vec<bool>)
    requires
        0 <= t < a1.len(),
        inv_lens(a1, un),
        nb@.len() == un,
        a1[t] is Some ==> forall|m: int| 0 <= m < un && #[trigger] bits(a1, t)[m] ==> nb@[m],
    ensures
        grows(a1, a1.update(t, Some(nb))),
        inv_lens(a1.update(t, Some(nb)), un),
{
    let a2 = a1.update(t, Some(nb));
    assert forall|i: int| 0 <= i < a1.len() && #[trigger] a1[i] is Some implies a2[i] is Some && bits(a1, i).len() == bits(a2, i).len()
        && forall|m: int| 0 <= m < bits(a1, i).len() && #[trigger] bits(a1, i)[m] ==> bits(a2, i)[m] by {
        if i == t {
            assert(bits(a2, i) == nb@);
        } else {
            assert(a2[i] == a1[i]);
        }
    }
}

proof fn lemma_grows_trans(a0: Seq<Option<Vec<bool>>>, a1: Seq<Option<Vec<bool>>>, a2: Seq<Option<Vec<bool>>>)
    requires
        grows(a0, a1),
        grows(a1, a2),
    ensures
        grows(a0, a2),
{
    assert forall|i: int| 0 <= i < a0.len() && #[trigger] a0[i] is Some implies a2[i] is Some && bits(a0, i).len() == bits(a2, i).len()
        && forall|m: int| 0 <= m < bits(a0, i).len() && #[trigger] bits(a0, i)[m] ==> bits(a2, i)[m] by {
        assert(a1[i] is Some);
        assert forall|m: int| 0 <= m < bits(a0, i).len() && #[trigger] bits(a0, i)[m] implies bits(a2, i)[m] by {
            assert(bits(a1, i)[m]);
        }
    }
}

proof fn lemma_closed_update(
    g: Seq<GraphNode>,
    env: MarkerEnvModel,
    u: Seq<Seq<char>>,
    groups: Seq<Seq<char>>,
    a1: Seq<Option<Vec<bool>>>,
    a2: Seq<Option<Vec<bool>>>,
    stack: Seq<usize>,
    node: int,
    t: usize,
)
    requires
        a1.len() == g.len(),
        forall|i: int, k: int|
            0 <= i < g.len() && 0 <= k < g[i].edges_out@.len() ==> (#[trigger] g[i].edges_out@[k]) < g.len(),
        forall|i: int| 0 <= i < g.len() ==> (#[trigger] g[i]).edges_out@.len() == deps_of(g, i).len(),
        inv_lens(a1, u.len()),
        inv_closed(g, env, u, groups, a1, stack, node),
        grows(a1, a2),
        forall|i: int| 0 <= i < a1.len() && i != t ==> a2[i] == a1[i],
    ensures
        inv_closed(g, env, u, groups, a2, stack.push(t), node),
{
    let s2 = stack.push(t);
    assert forall|i: int, k: int|
        0 <= i < a2.len() && i != node && a2[i] is Some && !s2.contains(i as usize) && 0 <= k < deps_of(g, i).len()
            implies #[trigger] edge_closed(g, env, u, groups, a2, i, k, bits(a2, i)) by {
        assert(i != t as int) by {
            if i == t as int {
                assert(s2[s2.len() - 1] == t);
            }
        }
        assert(!stack.contains(i as usize)) by {
            if stack.contains(i as usize) {
                let p = choose|p: int| 0 <= p < stack.len() && stack[p] == i as usize;
                assert(s2[p] == i as usize);
            }
        }
        assert(a2[i] == a1[i]);
        assert(edge_closed(g, env, u, groups, a1, i, k, bits(a1, i)));
        assert(g[i].edges_out@.len() == deps_of(g, i).len());
        lemma_grow_closed(g, env, u, groups, a1, a2, i, k, bits(a1, i));
    }
}

proof fn lemma_fed_update(
    g: Seq<GraphNode>,
    env: MarkerEnvModel,
    groups: Seq<Seq<char>>,
    u: Seq<Seq<char>>,
    gb: Seq<bool>,
    eb: Seq<bool>,
    a1: Seq<Option<Vec<bool>>>,
    node: int,
    k: int,
    t: int,
    nb: Vec<bool>,
)
    requires
        a1.len() == g.len(),
        0 <= node < g.len(),
        a1[node] is Some,
        0 <= k < deps_of(g, node).len(),
        g[node].edges_out@[k] == t,
        0 <= t < g.len(),
        inv_lens(a1, u.len()),
        inv_fed(g, env, groups, u, a1),
        fired_edge(g, env, u, a1.update(t, Some(nb)), node, k, t),
        nb@.len() == u.len(),
        gb.len() == u.len(),
        eb.len() == u.len(),
        forall|m: int| 0 <= m < u.len() ==> #[trigger] gb[m] == names_extra(groups, u[m]),
        forall|m: int| 0 <= m < u.len() ==> #[trigger] eb[m] == edge_extra(deps_of(g, node)[k], u[m]),
        forall|m: int|
            0 <= m < u.len() ==> #[trigger] nb@[m] == ((a1[t] is Some && bits(a1, t)[m]) || gb[m] || eb[m]),
        grows(a1, a1.update(t, Some(nb))),
    ensures
        inv_fed(g, env, groups, u, a1.update(t, Some(nb))),
{
    let a2 = a1.update(t, Some(nb));
    assert forall|i: int, m: int|
        0 <= i < a2.len() && a2[i] is Some && 0 <= m < bits(a2, i).len() && #[trigger] bits(a2, i)[m] implies fed(
        g,
        env,
        groups,
        u,
        a2,
        i,
        m,
    ) by {
        if i == t {
            assert(bits(a2, i) == nb@);
            if a1[t] is Some && bits(a1, t)[m] {
                lemma_grow_fed(g, env, groups, u, a1, a2, i, m);
            } else if gb[m] {
            } else {
                assert(eb[m]);
                assert(edge_extra(deps_of(g, node)[k], u[m]));
            }
        } else {
            assert(a2[i] == a1[i]);
            lemma_grow_fed(g, env, groups, u, a1, a2, i, m);
        }
    }
}

proof fn lemma_reach_update(
    adjs: Seq<Seq<usize>>,
    roots: Seq<usize>,
    a1: Seq<Option<Vec<bool>>>,
    node: int,
    t: int,
    nb: Vec<bool>,
)
    requires
        adjs.len() == a1.len(),
        0 <= node < a1.len(),
        a1[node] is Some,
        adj(adjs, node, t),
        inv_reach(adjs, roots, a1),
    ensures
        inv_reach(adjs, roots, a1.update(t, Some(nb))),
{
    let a2 = a1.update(t, Some(nb));
    assert forall|i: int| 0 <= i < a2.len() && #[trigger] a2[i] is Some implies exists|q: int|
        0 <= q < roots.len() && reaches(adjs, #[trigger] roots[q] as int, i) by {
        if i == t {
            let q = choose|q: int| 0 <= q < roots.len() && reaches(adjs, #[trigger] roots[q] as int, node);
            lemma_walk_extend(adjs, roots[q] as int, node, t);
        } else {
            assert(a1[i] is Some);
        }
    }
}

proof fn lemma_roots_grow(roots: Seq<usize>, a1: Seq<Option<Vec<bool>>>, a2: Seq<Option<Vec<bool>>>, gb: Seq<bool>)
    requires
        inv_roots(roots, a1, gb),
        grows(a1, a2),
        forall|q: int| 0 <= q < roots.len() ==> #[trigger] roots[q] < a1.len(),
        inv_lens(a1, gb.len()),
    ensures
        inv_roots(roots, a2, gb),
{
    assert forall|q: int| 0 <= q < roots.len() implies a2[#[trigger] roots[q] as int] is Some && forall|m: int|
        0 <= m < gb.len() && gb[m] ==> #[trigger] bits(a2, roots[q] as int)[m] by {
        let i = roots[q] as int;
        assert(a1[i] is Some);
        assert forall|m: int| 0 <= m < gb.len() && gb[m] implies #[trigger] bits(a2, i)[m] by {
            assert(bits(a1, i)[m]);
        }
    }
}

/// A fired edge of the walk's state, stated over the extras' names.
proof fn lemma_fired_into(
    g: Seq<GraphNode>,
    env: MarkerEnvModel,
    uv: Seq<Seq<char>>,
    act: Seq<Option<Vec<bool>>>,
    r: Seq<Option<Vec<String>>>,
    j: int,
    k: int,
    i: int,
)
    requires
        fired_edge(g, env, uv, act, j, k, i),
        strictly_sorted(uv),
        inv_lens(act, uv.len()),
        act.len() == g.len(),
        forall|i2: int|
            0 <= i2 < g.len() ==> (#[trigger] r[i2] is Some) == (act[i2] is Some) && (r[i2] is Some ==> strings_view(
                r[i2].unwrap()@,
            ) == flagged(uv, bits(act, i2))),
    ensures
        fired_into(g, env, r, j, k, i),
{
    let b = choose|b: Seq<bool>|
        b.len() == uv.len() && (forall|m: int| 0 <= m < uv.len() && b[m] ==> #[trigger] bits(act, j)[m]) && marker_applies(
            marker_text(deps_of(g, j)[k]),
            env,
            #[trigger] flagged(uv, b),
        );
    let xs = flagged(uv, b);
    assert(r[j] is Some);
    lemma_flagged_sorted(uv, b);
    assert forall|x: Seq<char>| xs.contains(x) implies #[trigger] extras_at(r, j).contains(x) by {
        lemma_flagged_contains(uv, b, x);
        let m = choose|m: int| 0 <= m < uv.len() && b[m] && uv[m] == x;
        assert(bits(act, j)[m]);
        lemma_flagged_contains(uv, bits(act, j), x);
    }
    assert(marker_applies(marker_text(deps_of(g, j)[k]), env, xs));
}

/// An edge that fired before `tau` in the walk's state, stated over the
/// extras' names.
proof fn lemma_fired_before(
    g: Seq<GraphNode>,
    env: MarkerEnvModel,
    uv: Seq<Seq<char>>,
    act: Seq<Option<Vec<bool>>>,
    r: Seq<Option<Vec<String>>>,
    tn: Seq<int>,
    tb: Seq<Seq<int>>,
    tx: spec_fn(int, Seq<char>) -> int,
    j: int,
    k: int,
    i: int,
    tau: int,
)
    requires
        dfired(g, env, uv, act, tn, tb, j, k, i, tau),
        strictly_sorted(uv),
        inv_lens(act, uv.len()),
        act.len() == g.len(),
        forall|i2: int, x: Seq<char>| #[trigger] tx(i2, x) == tb[i2][uindex(uv, x)],
        forall|i2: int|
            0 <= i2 < g.len() ==> (#[trigger] r[i2] is Some) == (act[i2] is Some) && (r[i2] is Some ==> strings_view(
                r[i2].unwrap()@,
            ) == flagged(uv, bits(act, i2))),
    ensures
        fired_before(g, env, r, tn, tx, j, k, i, tau),
{
    let b = choose|b: Seq<bool>|
        b.len() == uv.len() && (forall|m: int| 0 <= m < uv.len() && b[m] ==> #[trigger] bits(act, j)[m] && tb[j][m] < tau)
            && marker_applies(marker_text(deps_of(g, j)[k]), env, #[trigger] flagged(uv, b));
    let xs = flagged(uv, b);
    assert(r[j] is Some);
    lemma_flagged_sorted(uv, b);
    assert forall|x: Seq<char>| xs.contains(x) implies #[trigger] extras_at(r, j).contains(x) && tx(j, x) < tau by {
        lemma_flagged_contains(uv, b, x);
        let m = choose|m: int| 0 <= m < uv.len() && b[m] && uv[m] == x;
        assert(bits(act, j)[m]);
        lemma_flagged_contains(uv, bits(act, j), x);
        lemma_uindex(uv, m);
    }
    assert(marker_applies(marker_text(deps_of(g, j)[k]), env, xs));
}

/// The walk's stamped state gives a derivation of its outcome.
#[verifier::rlimit(50)]
#[verifier::spinoff_prover]
proof fn lemma_well_founded(
    g: Seq<GraphNode>,
    roots: Seq<usize>,
    env: MarkerEnvModel,
    gv: Seq<Seq<char>>,
    uv: Seq<Seq<char>>,
    act: Seq<Option<Vec<bool>>>,
    r: Seq<Option<Vec<String>>>,
    tn: Seq<int>,
    tb: Seq<Seq<int>>,
    clock: int,
)
    requires
        act.len() == g.len(),
        r.len() == g.len(),
        strictly_sorted(uv),
        inv_lens(act, uv.len()),
        stamped(act, tn, tb, uv.len(), clock),
        inv_derived(g, env, uv, gv, roots, act, tn, tb),
        forall|i2: int|
            0 <= i2 < g.len() ==> (#[trigger] r[i2] is Some) == (act[i2] is Some) && (r[i2] is Some ==> strings_view(
                r[i2].unwrap()@,
            ) == flagged(uv, bits(act, i2))),
    ensures
        well_founded(g, roots, env, gv, r),
{
    let tx = |i2: int, x: Seq<char>| tb[i2][uindex(uv, x)];
    assert forall|i: int| 0 <= i < r.len() && #[trigger] r[i] is Some implies 0 <= tn[i] && (roots.contains(i as usize) || exists|j: int, k: int|
        #[trigger] fired_before(g, env, r, tn, tx, j, k, i, tn[i])) by {
        assert(act[i] is Some);
        if !roots.contains(i as usize) {
            let (j, k) = choose|j: int, k: int| #[trigger] dfired(g, env, uv, act, tn, tb, j, k, i, tn[i]);
            lemma_fired_before(g, env, uv, act, r, tn, tb, tx, j, k, i, tn[i]);
        }
    }
    assert forall|i: int, x: Seq<char>| 0 <= i < r.len() && r[i] is Some && #[trigger] extras_at(r, i).contains(x) implies tn[i] <= tx(i, x) && (names_extra(
        gv,
        x,
    ) || exists|j: int, k: int|
        #[trigger] fired_before(g, env, r, tn, tx, j, k, i, tx(i, x)) && edge_extra(deps_of(g, j)[k], x)) by {
        assert(act[i] is Some);
        lemma_flagged_contains(uv, bits(act, i), x);
        let m = choose|m: int| 0 <= m < uv.len() && bits(act, i)[m] && uv[m] == x;
        lemma_uindex(uv, m);
        assert(tx(i, x) == tb[i][m]);
        if !names_extra(gv, x) {
            let (j, k) = choose|j: int, k: int|
                #[trigger] dfired(g, env, uv, act, tn, tb, j, k, i, tb[i][m]) && edge_extra(deps_of(g, j)[k], uv[m]);
            lemma_fired_before(g, env, uv, act, r, tn, tb, tx, j, k, i, tb[i][m]);
        }
    }
    assert(derivation(g, roots, env, gv, r, tn, tx));
}

/// What the walk's final state gives, stated over the extras' names.
#[verifier::rlimit(50)]
#[verifier::spinoff_prover]
proof fn lemma_report(
    g: Seq<GraphNode>,
    roots: Seq<usize>,
    env: MarkerEnvModel,
    gv: Seq<Seq<char>>,
    uv: Seq<Seq<char>>,
    gb: Seq<bool>,
    adjs: Seq<Seq<usize>>,
    act: Seq<Option<Vec<bool>>>,
    r: Seq<Option<Vec<String>>>,
)
    requires
        adjs == adjacency(g),
        act.len() == g.len(),
        r.len() == g.len(),
        strictly_sorted(uv),
        gb.len() == uv.len(),
        forall|m: int| 0 <= m < uv.len() ==> #[trigger] gb[m] == names_extra(gv, uv[m]),
        forall|x: Seq<char>| names_extra(gv, x) ==> #[trigger] uv.contains(x),
        forall|i2: int, k: int, x: Seq<char>|
            0 <= i2 < g.len() && 0 <= k < deps_of(g, i2).len() && #[trigger] edge_extra(deps_of(g, i2)[k], x)
                ==> uv.contains(x),
        forall|q: int| 0 <= q < roots.len() ==> #[trigger] roots[q] < g.len(),
        forall|i: int, k: int|
            0 <= i < g.len() && 0 <= k < g[i].edges_out@.len() ==> (#[trigger] g[i].edges_out@[k]) < g.len(),
        forall|i: int| 0 <= i < g.len() ==> (#[trigger] g[i]).edges_out@.len() == deps_of(g, i).len(),
        inv_lens(act, uv.len()),
        inv_roots(roots, act, gb),
        inv_groups(act, gb),
        inv_reach(adjs, roots, act),
        inv_fed(g, env, gv, uv, act),
        inv_fired(g, env, uv, roots, act),
        inv_closed(g, env, uv, gv, act, Seq::empty(), -1),
        forall|i2: int|
            0 <= i2 < g.len() ==> (#[trigger] r[i2] is Some) == (act[i2] is Some) && (r[i2] is Some ==> strings_view(
                r[i2].unwrap()@,
            ) == flagged(uv, bits(act, i2))),
    ensures
        activation_closed(g, roots, env, gv, r),
        activation_sound(g, roots, env, gv, r),
        activation_grouped(gv, r),
{
    assert forall|i: int, x: Seq<char>|
        0 <= i < r.len() && r[i] is Some && names_extra(gv, x) implies #[trigger] extras_at(r, i).contains(x) by {
        assert(act[i] is Some);
        assert(uv.contains(x));
        let m = choose|m: int| 0 <= m < uv.len() && uv[m] == x;
        assert(gb[m]);
        assert(bits(act, i)[m]);
        lemma_flagged_contains(uv, bits(act, i), x);
    }
    assert forall|i: int, x: Seq<char>|
        0 <= i < g.len() && act[i] is Some && (exists|m: int| 0 <= m < uv.len() && uv[m] == x && bits(act, i)[m])
            implies #[trigger] extras_at(r, i).contains(x) by {
        lemma_flagged_contains(uv, bits(act, i), x);
    }
    assert forall|q: int, x: Seq<char>| 0 <= q < roots.len() implies r[#[trigger] roots[q] as int] is Some && (names_extra(gv, x)
        ==> #[trigger] extras_at(r, roots[q] as int).contains(x)) by {
        let i = roots[q] as int;
        assert(act[i] is Some);
        if names_extra(gv, x) {
            assert(uv.contains(x));
            let m = choose|m: int| 0 <= m < uv.len() && uv[m] == x;
            assert(gb[m]);
            assert(bits(act, i)[m]);
        }
    }
    assert forall|i: int, k: int|
        0 <= i < g.len() && r[i] is Some && 0 <= k < deps_of(g, i).len() && #[trigger] marker_applies(
            marker_text(deps_of(g, i)[k]),
            env,
            extras_at(r, i),
        ) implies r[g[i].edges_out@[k] as int] is Some && forall|x: Seq<char>|
        passes(gv, deps_of(g, i)[k], x) ==> #[trigger] extras_at(r, g[i].edges_out@[k] as int).contains(x) by {
        assert(!Seq::<usize>::empty().contains(i as usize));
        assert(g[i].edges_out@.len() == deps_of(g, i).len());
        assert(edge_closed(g, env, uv, gv, act, i, k, bits(act, i)));
        let t = g[i].edges_out@[k] as int;
        assert(adjs[i] == g[i].edges_out@);
        assert(act[t] is Some);
        assert(r[t] is Some);
        assert(bits(act, t).len() == uv.len());
        assert forall|x: Seq<char>| passes(gv, deps_of(g, i)[k], x) implies #[trigger] extras_at(r, t).contains(x) by {
            assert(uv.contains(x));
            let m = choose|m: int| 0 <= m < uv.len() && uv[m] == x;
            assert(bits(act, t)[m]);
            lemma_flagged_contains(uv, bits(act, t), x);
        }
    }
    assert forall|i: int, x: Seq<char>|
        0 <= i < r.len() && r[i] is Some && #[trigger] extras_at(r, i).contains(x) implies names_extra(gv, x)
            || exists|j: int, k: int| #[trigger] fired_into(g, env, r, j, k, i) && edge_extra(deps_of(g, j)[k], x) by {
        lemma_flagged_contains(uv, bits(act, i), x);
        let m = choose|m: int| 0 <= m < uv.len() && bits(act, i)[m] && uv[m] == x;
        assert(fed(g, env, gv, uv, act, i, m));
        if !names_extra(gv, x) {
            let (j, k) = choose|j: int, k: int| #[trigger] fired_edge(g, env, uv, act, j, k, i) && edge_extra(deps_of(g, j)[k], uv[m]);
            lemma_fired_into(g, env, uv, act, r, j, k, i);
        }
    }
    assert forall|i: int| 0 <= i < r.len() && #[trigger] r[i] is Some implies roots.contains(i as usize) || exists|j: int, k: int|
        #[trigger] fired_into(g, env, r, j, k, i) by {
        assert(act[i] is Some);
        if !roots.contains(i as usize) {
            let (j, k) = choose|j: int, k: int| #[trigger] fired_edge(g, env, uv, act, j, k, i);
            lemma_fired_into(g, env, uv, act, r, j, k, i);
        }
    }
    assert forall|i: int| 0 <= i < r.len() && #[trigger] r[i] is Some implies strictly_sorted(extras_at(r, i)) by {
        lemma_flagged_sorted(uv, bits(act, i));
    }
    assert forall|i: int| 0 <= i < r.len() && #[trigger] r[i] is Some implies exists|q: int|
        0 <= q < roots.len() && reaches(adjacency(g), #[trigger] roots[q] as int, i) by {
        assert(act[i] is Some);
    }
}

/// Walks the graph from `roots`, last pushed first: each node taken off the
/// stack follows the edges whose markers hold with the extras it has at that
/// moment; a target becomes active, and takes the groups' extras and those
/// the edge names, and goes back on the stack when it is new or gains an
/// extra. The result holds, per node, `None` when it is not active and its
/// extras (normalized, sorted) when it is.
#[verifier::rlimit(100)]
#[verifier::spinoff_prover]
pub fn reachable_with_extras(
    graph: &DepGraph,
    roots: &Vec<usize>,
    env: &MarkerEnv,
    include_groups: &Vec<String>,
) -> (r: Vec<Option<Vec<String>>>)
    requires
        graph.wf(),
        forall|q: int| 0 <= q < roots@.len() ==> #[trigger] roots@[q] < graph.nodes@.len(),
    ensures
        r@.len() == graph.nodes@.len(),
        activation_closed(graph.nodes@, roots@, env@, strings_view(include_groups@), r@),
        activation_sound(graph.nodes@, roots@, env@, strings_view(include_groups@), r@),
        activation_grouped(strings_view(include_groups@), r@),
        well_founded(graph.nodes@, roots@, env@, strings_view(include_groups@), r@),
{
    let ghost g = graph.nodes@;
    let ghost gv = strings_view(include_groups@);
    let ghost adjs = adjacency(g);
    let u = extras_universe(graph, include_groups);
    let ghost uv = strings_view(u@);
    let ghost un = u@.len();
    let gbits = extra_bits(&u, include_groups);
    let n = graph.nodes.len();
    let mut act: Vec<Option<Vec<bool>>> = Vec::new();
    let mut i: usize = 0;
    while i < n
        invariant
            i <= n,
            act@.len() == i,
            forall|q: int| 0 <= q < i ==> #[trigger] act@[q] is None,
        decreases n - i,
    {
        act.push(None);
        i += 1;
    }
    let mut stack: Vec<usize> = Vec::new();
    let mut q: usize = 0;
    while q < roots.len()
        invariant
            q <= roots@.len(),
            n == g.len(),
            act@.len() == n,
            gbits@.len() == un,
            forall|q2: int| 0 <= q2 < roots@.len() ==> #[trigger] roots@[q2] < n,
            forall|i2: int|
                0 <= i2 < n && #[trigger] act@[i2] is Some ==> bits(act@, i2) == gbits@ && stack@.contains(i2 as usize)
                    && exists|q2: int| 0 <= q2 < q && #[trigger] roots@[q2] == i2,
            forall|q2: int| 0 <= q2 < q ==> act@[#[trigger] roots@[q2] as int] is Some,
            forall|p: int| 0 <= p < stack@.len() ==> #[trigger] stack@[p] < n && act@[stack@[p] as int] is Some,
        decreases roots@.len() - q,
    {
        let ro = roots[q];
        if act[ro].is_none() {
            let b = gbits.clone();
            assert(b@ =~= gbits@);
            let ghost a_pre = act@;
            let ghost s_pre = stack@;
            act.set(ro, Some(b));
            stack.push(ro);
            proof {
                assert(stack@[stack@.len() - 1] == ro);
                assert forall|i2: int| 0 <= i2 < n && #[trigger] act@[i2] is Some implies stack@.contains(i2 as usize) by {
                    if i2 != ro as int {
                        assert(a_pre[i2] is Some);
                        assert(s_pre.contains(i2 as usize));
                        let p = choose|p: int| 0 <= p < s_pre.len() && s_pre[p] == i2 as usize;
                        assert(stack@[p] == i2 as usize);
                    }
                }
            }
        }
        proof {
            assert forall|i2: int| 0 <= i2 < n && #[trigger] act@[i2] is Some implies exists|q2: int|
                0 <= q2 < q + 1 && #[trigger] roots@[q2] == i2 by {
                if i2 == ro as int {
                    assert(roots@[q as int] == i2);
                } else {
                    let q2 = choose|q2: int| 0 <= q2 < q && #[trigger] roots@[q2] == i2;
                    assert(roots@[q2] == i2);
                }
            }
        }
        q += 1;
    }
    proof {
        assert(inv_lens(act@, un));
        assert(inv_roots(roots@, act@, gbits@));
        assert(inv_groups(act@, gbits@));
        assert forall|i2: int| 0 <= i2 < act@.len() && #[trigger] act@[i2] is Some implies exists|q2: int|
            0 <= q2 < roots@.len() && reaches(adjs, #[trigger] roots@[q2] as int, i2) by {
            let q2 = choose|q2: int| 0 <= q2 < roots@.len() && #[trigger] roots@[q2] == i2;
            lemma_reaches_self(adjs, i2);
            assert(reaches(adjs, roots@[q2] as int, i2));
        }
        assert(inv_reach(adjs, roots@, act@));
        assert(inv_fed(g, env@, gv, uv, act@));
        assert(inv_fired(g, env@, uv, roots@, act@)) by {
            assert forall|i2: int| 0 <= i2 < act@.len() && #[trigger] act@[i2] is Some implies roots@.contains(i2 as usize) by {
                let q2 = choose|q2: int| 0 <= q2 < roots@.len() && #[trigger] roots@[q2] == i2;
                assert(roots@[q2] == i2 as usize);
            }
        }
        assert(inv_closed(g, env@, uv, gv, act@, stack@, -1));
    }
    let ghost mut tn: Seq<int> = Seq::new(n as nat, |i: int| 0int);
    let ghost mut tb: Seq<Seq<int>> = Seq::new(n as nat, |i: int| Seq::new(un, |m: int| 0int));
    let ghost mut clock: int = 1;
    proof {
        assert(stamped(act@, tn, tb, un, clock));
        assert forall|i2: int| 0 <= i2 < act@.len() && #[trigger] act@[i2] is Some implies roots@.contains(i2 as usize) || exists|j: int, k: int|
            #[trigger] dfired(g, env@, uv, act@, tn, tb, j, k, i2, tn[i2]) by {
            let q2 = choose|q2: int| 0 <= q2 < roots@.len() && #[trigger] roots@[q2] == i2;
            assert(roots@[q2] == i2 as usize);
        }
        assert(inv_derived(g, env@, uv, gv, roots@, act@, tn, tb));
    }
    while stack.len() > 0
        invariant
            n == g.len(),
            g == graph.nodes@,
            graph.wf(),
            adjs == adjacency(g),
            act@.len() == n,
            forall|q2: int| 0 <= q2 < roots@.len() ==> #[trigger] roots@[q2] < n,
            uv == strings_view(u@),
            un == u@.len(),
            gv == strings_view(include_groups@),
            strictly_sorted(uv),
            gbits@.len() == un,
            forall|m: int| 0 <= m < un ==> #[trigger] gbits@[m] == names_extra(gv, uv[m]),
            forall|i2: int, k: int, x: Seq<char>|
                0 <= i2 < g.len() && 0 <= k < deps_of(g, i2).len() && #[trigger] edge_extra(deps_of(g, i2)[k], x)
                    ==> uv.contains(x),
            inv_lens(act@, un),
            inv_roots(roots@, act@, gbits@),
            inv_groups(act@, gbits@),
            inv_reach(adjs, roots@, act@),
            inv_fed(g, env@, gv, uv, act@),
            inv_fired(g, env@, uv, roots@, act@),
            stamped(act@, tn, tb, un, clock),
            inv_derived(g, env@, uv, gv, roots@, act@, tn, tb),
            inv_closed(g, env@, uv, gv, act@, stack@, -1),
            forall|p: int| 0 <= p < stack@.len() ==> #[trigger] stack@[p] < n && act@[stack@[p] as int] is Some,
        decreases weight(act@, un), stack@.len(),
    {
        let ghost s_in = stack@;
        let node = stack.pop().unwrap();
        let ghost s0 = stack@;
        let ghost a0 = act@;
        let ghost w0 = weight(act@, un);
        proof {
            assert(s_in == s0.push(node));
            assert(s_in[s_in.len() - 1] == node);
            assert forall|i2: int, k: int|
                0 <= i2 < act@.len() && i2 != node as int && act@[i2] is Some && !s0.contains(i2 as usize) && 0 <= k
                    < deps_of(g, i2).len() implies #[trigger] edge_closed(g, env@, uv, gv, act@, i2, k, bits(act@, i2)) by {
                if s_in.contains(i2 as usize) {
                    let p = choose|p: int| 0 <= p < s_in.len() && s_in[p] == i2 as usize;
                    assert(s0[p] == i2 as usize);
                }
            }
        }
        let snap: Vec<bool> = match &act[node] {
            Some(b) => b.clone(),
            None => no_bits(0),
        };
        assert(snap@ =~= bits(a0, node as int));
        let names = flagged_names(&u, &snap);
        let deps = &graph.nodes[node].pkg.dependencies;
        let edges = &graph.nodes[node].edges_out;
        let mut k: usize = 0;
        while k < deps.len()
            invariant
                n == g.len(),
                g == graph.nodes@,
                graph.wf(),
                adjs == adjacency(g),
                act@.len() == n,
                forall|q2: int| 0 <= q2 < roots@.len() ==> #[trigger] roots@[q2] < n,
                uv == strings_view(u@),
                un == u@.len(),
                gv == strings_view(include_groups@),
                strictly_sorted(uv),
                gbits@.len() == un,
                forall|m: int| 0 <= m < un ==> #[trigger] gbits@[m] == names_extra(gv, uv[m]),
                forall|i2: int, k2: int, x: Seq<char>|
                    0 <= i2 < g.len() && 0 <= k2 < deps_of(g, i2).len() && #[trigger] edge_extra(deps_of(g, i2)[k2], x)
                        ==> uv.contains(x),
                node < n,
                a0.len() == n,
                a0[node as int] is Some,
                snap@ == bits(a0, node as int),
                strings_view(names@) == flagged(uv, snap@),
                deps@ == deps_of(g, node as int),
                edges@ == g[node as int].edges_out@,
                edges@.len() == deps@.len(),
                k <= deps@.len(),
                inv_lens(a0, un),
                grows(a0, act@),
                inv_lens(act@, un),
                inv_roots(roots@, act@, gbits@),
                inv_groups(act@, gbits@),
                inv_reach(adjs, roots@, act@),
                inv_fed(g, env@, gv, uv, act@),
            inv_fired(g, env@, uv, roots@, act@),
            stamped(act@, tn, tb, un, clock),
            inv_derived(g, env@, uv, gv, roots@, act@, tn, tb),
                inv_closed(g, env@, uv, gv, act@, stack@, node as int),
                bits(act@, node as int) == snap@ || stack@.contains(node),
                forall|k2: int| 0 <= k2 < k ==> #[trigger] edge_closed(g, env@, uv, gv, act@, node as int, k2, snap@),
                forall|p: int| 0 <= p < stack@.len() ==> #[trigger] stack@[p] < n && act@[stack@[p] as int] is Some,
                weight(act@, un) <= w0,
                weight(act@, un) == w0 ==> stack@.len() == s0.len(),
            decreases deps@.len() - k,
        {
            let ghost a1 = act@;
            let ghost st1 = stack@;
            let d = &deps[k];
            let t = edges[k];
            let marker = match &d.marker {
                Some(m) => Some(m.as_str()),
                None => None,
            };
            assert(t < n);
            if edge_applies(marker, env, &names) {
                assert(marker_applies(marker_text(deps_of(g, node as int)[k as int]), env@, flagged(uv, snap@)));
                proof {
                    assert(*d == deps_of(g, node as int)[k as int]);
                    assert forall|x: Seq<char>| names_extra(strings_view(d.extra@), x) implies #[trigger] strings_view(u@).contains(x) by {
                        assert(edge_extra(deps_of(g, node as int)[k as int], x));
                    }
                }
                let ebits = extra_bits(&u, &d.extra);
                let newly = act[t].is_none();
                let (nb, changed) = match &act[t] {
                    Some(b) => merge_bits(b, &gbits, &ebits),
                    None => {
                        let z = no_bits(u.len());
                        merge_bits(&z, &gbits, &ebits)
                    },
                };
                if newly || changed {
                    proof {
                        lemma_grows_update(a1, un, t as int, nb);
                    }
                    act.set(t, Some(nb));
                    stack.push(t);
                    proof {
                        let a2 = act@;
                        assert(a2 == a1.update(t as int, Some(nb)));
                        lemma_grows_trans(a0, a1, a2);
                        lemma_closed_update(g, env@, uv, gv, a1, a2, st1, node as int, t);
                        assert forall|m: int| 0 <= m < uv.len() && snap@[m] implies #[trigger] bits(a1, node as int)[m] by {
                            assert(bits(a0, node as int)[m]);
                        }
                        lemma_fired_update(g, env@, uv, roots@, a1, node as int, k as int, t as int, nb, snap@);
                        lemma_fed_update(g, env@, gv, uv, gbits@, ebits@, a1, node as int, k as int, t as int, nb);
                        let (tn2, tb2) = lemma_derived_update(
                            g, env@, uv, gv, roots@, a1, tn, tb, clock, node as int, k as int, t as int, nb, snap@, gbits@, ebits@,
                        );
                        tn = tn2;
                        tb = tb2;
                        clock = clock + 1;
                        assert(adjs[node as int] == edges@);
                        assert(adjs[node as int][k as int] == t);
                        lemma_reach_update(adjs, roots@, a1, node as int, t as int, nb);
                        lemma_roots_grow(roots@, a1, a2, gbits@);
                        lemma_groups_update(a1, gbits@, t as int, nb);
                        assert forall|k2: int| 0 <= k2 < k implies #[trigger] edge_closed(g, env@, uv, gv, a2, node as int, k2, snap@) by {
                            assert(edge_closed(g, env@, uv, gv, a1, node as int, k2, snap@));
                            lemma_grow_closed(g, env@, uv, gv, a1, a2, node as int, k2, snap@);
                        }
                        assert(bits(a2, t as int) == nb@);
                        assert(edge_closed(g, env@, uv, gv, a2, node as int, k as int, snap@));
                        if t == node {
                            assert(stack@[stack@.len() - 1] == node);
                        } else if !st1.contains(node) {
                            assert(bits(a2, node as int) == bits(a1, node as int));
                        } else {
                            let p = choose|p: int| 0 <= p < st1.len() && st1[p] == node;
                            assert(stack@[p] == node);
                        }
                        lemma_weight_update(a1, un, t as int, Some(nb));
                        if newly {
                            lemma_count_false_bound(nb@);
                        } else {
                            lemma_count_false_mono(bits(a1, t as int), nb@);
                        }
                        assert(stack@[stack@.len() - 1] == t);
                    }
                } else {
                    proof {
                        assert(a1[t as int] is Some);
                        assert forall|m: int| 0 <= m < uv.len() && passes(gv, deps_of(g, node as int)[k as int], uv[m]) implies #[trigger] bits(a1, t as int)[m] by {
                            assert(nb@[m]);
                        }
                        assert(edge_closed(g, env@, uv, gv, a1, node as int, k as int, snap@));
                    }
                }
            }
            k += 1;
        }
        proof {
            assert forall|i2: int, k2: int|
                0 <= i2 < act@.len() && act@[i2] is Some && !stack@.contains(i2 as usize) && 0 <= k2 < deps_of(g, i2).len()
                    implies #[trigger] edge_closed(g, env@, uv, gv, act@, i2, k2, bits(act@, i2)) by {
                if i2 == node as int {
                    assert(bits(act@, node as int) == snap@);
                }
            }
        }
    }
    let mut r: Vec<Option<Vec<String>>> = Vec::new();
    let mut j: usize = 0;
    while j < n
        invariant
            j <= n,
            act@.len() == n,
            r@.len() == j,
            un == u@.len(),
            uv == strings_view(u@),
            inv_lens(act@, un),
            forall|i2: int|
                0 <= i2 < j ==> (#[trigger] r@[i2] is Some) == (act@[i2] is Some) && (r@[i2] is Some ==> strings_view(
                    r@[i2].unwrap()@,
                ) == flagged(uv, bits(act@, i2))),
        decreases n - j,
    {
        match &act[j] {
            Some(b) => {
                r.push(Some(flagged_names(&u, b)));
            },
            None => {
                r.push(None);
            },
        }
        j += 1;
    }
    proof {
        lemma_report(g, roots@, env@, gv, uv, gbits@, adjs, act@, r@);
        lemma_well_founded(g, roots@, env@, gv, uv, act@, r@, tn, tb, clock);
    }
    r
}

/// Each edge marker of the graph that holds with some extras also holds
/// with more (extras taken as sorted lists without repeats).
pub open spec fn markers_monotone(g: Seq<GraphNode>, env: MarkerEnvModel) -> bool {
    forall|j: int, k: int, xs: Seq<Seq<char>>, ys: Seq<Seq<char>>|
        #![trigger marker_applies(marker_text(deps_of(g, j)[k]), env, xs), marker_applies(marker_text(deps_of(g, j)[k]), env, ys)]
        0 <= j < g.len() && 0 <= k < deps_of(g, j).len() && strictly_sorted(xs) && strictly_sorted(ys) && (forall|x: Seq<char>|
            xs.contains(x) ==> ys.contains(x)) && marker_applies(marker_text(deps_of(g, j)[k]), env, xs)
            ==> marker_applies(marker_text(deps_of(g, j)[k]), env, ys)
}

/// Activation `r` is contained in `a`: each node active in `r` is active in
/// `a`, with at least its extras.
pub open spec fn within(r: Seq<Option<Vec<String>>>, a: Seq<Option<Vec<String>>>) -> bool {
    forall|i: int|
        0 <= i < r.len() && #[trigger] r[i] is Some ==> a[i] is Some && forall|x: Seq<char>|
            extras_at(r, i).contains(x) ==> #[trigger] extras_at(a, i).contains(x)
}

/// Every activation with extras sorted and without repeats.
pub open spec fn sorted_extras(a: Seq<Option<Vec<String>>>) -> bool {
    forall|i: int| 0 <= i < a.len() && #[trigger] a[i] is Some ==> strictly_sorted(extras_at(a, i))
}

proof fn lemma_root_closed(
    g: Seq<GraphNode>,
    roots: Seq<usize>,
    env: MarkerEnvModel,
    groups: Seq<Seq<char>>,
    a: Seq<Option<Vec<String>>>,
    q: int,
    x: Seq<char>,
)
    requires
        activation_closed(g, roots, env, groups, a),
        0 <= q < roots.len(),
    ensures
        a[roots[q] as int] is Some,
        names_extra(groups, x) ==> extras_at(a, roots[q] as int).contains(x),
{
}

proof fn lemma_least_upto(
    g: Seq<GraphNode>,
    roots: Seq<usize>,
    env: MarkerEnvModel,
    groups: Seq<Seq<char>>,
    r: Seq<Option<Vec<String>>>,
    a: Seq<Option<Vec<String>>>,
    tn: Seq<int>,
    tx: spec_fn(int, Seq<char>) -> int,
    tau: int,
)
    requires
        r.len() == g.len(),
        a.len() == g.len(),
        tau >= 0,
        derivation(g, roots, env, groups, r, tn, tx),
        activation_closed(g, roots, env, groups, a),
        sorted_extras(a),
        sorted_extras(r),
        markers_monotone(g, env),
        g.len() <= usize::MAX,
        forall|q: int| 0 <= q < roots.len() ==> #[trigger] roots[q] < g.len(),
        forall|i: int, k: int|
            0 <= i < g.len() && 0 <= k < g[i].edges_out@.len() ==> (#[trigger] g[i].edges_out@[k]) < g.len(),
        forall|i: int| 0 <= i < g.len() ==> (#[trigger] g[i]).edges_out@.len() == deps_of(g, i).len(),
    ensures
        forall|i: int|
            0 <= i < r.len() && r[i] is Some && #[trigger] tn[i] <= tau ==> a[i] is Some && forall|x: Seq<char>|
                names_extra(groups, x) ==> #[trigger] extras_at(a, i).contains(x),
        forall|i: int, x: Seq<char>|
            0 <= i < r.len() && r[i] is Some && extras_at(r, i).contains(x) && #[trigger] tx(i, x) <= tau ==> extras_at(
                a,
                i,
            ).contains(x),
    decreases tau,
{
    if tau > 0 {
        lemma_least_upto(g, roots, env, groups, r, a, tn, tx, tau - 1);
    }
    // An edge that fired before `tau` in `r` fires in `a`.
    assert forall|j: int, k: int, i: int| #[trigger] fired_before(g, env, r, tn, tx, j, k, i, tau) implies a[i] is Some
        && forall|x: Seq<char>| passes(groups, deps_of(g, j)[k], x) ==> #[trigger] extras_at(a, i).contains(x) by {
        let xs = choose|xs: Seq<Seq<char>>|
            #[trigger] marker_applies(marker_text(deps_of(g, j)[k]), env, xs) && strictly_sorted(xs) && forall|x: Seq<char>|
                xs.contains(x) ==> #[trigger] extras_at(r, j).contains(x) && tx(j, x) < tau;
        assert(tau > 0) by {
            assert(0 <= tn[j]);
        }
        assert(tn[j] <= tau - 1);
        assert(a[j] is Some);
        let ys = extras_at(a, j);
        assert forall|x: Seq<char>| xs.contains(x) implies ys.contains(x) by {
            assert(extras_at(r, j).contains(x) && tx(j, x) < tau);
            assert(tx(j, x) <= tau - 1);
        }
        assert(marker_applies(marker_text(deps_of(g, j)[k]), env, ys));
        assert(g[j].edges_out@.len() == deps_of(g, j).len());
    }
    assert forall|i: int|
        0 <= i < r.len() && r[i] is Some && #[trigger] tn[i] <= tau implies a[i] is Some && forall|x: Seq<char>|
            names_extra(groups, x) ==> #[trigger] extras_at(a, i).contains(x) by {
        if tn[i] < tau {
        } else if roots.contains(i as usize) {
            let q = choose|q: int| 0 <= q < roots.len() && roots[q] == i as usize;
            assert(roots[q] as int == i);
            assert forall|x: Seq<char>| names_extra(groups, x) implies #[trigger] extras_at(a, i).contains(x) by {
                lemma_root_closed(g, roots, env, groups, a, q, x);
            }
            lemma_root_closed(g, roots, env, groups, a, q, Seq::empty());
        } else {
            let (j, k) = choose|j: int, k: int| #[trigger] fired_before(g, env, r, tn, tx, j, k, i, tn[i]);
            assert forall|x: Seq<char>| names_extra(groups, x) implies #[trigger] extras_at(a, i).contains(x) by {
                assert(passes(groups, deps_of(g, j)[k], x));
            }
        }
    }
    assert forall|i: int, x: Seq<char>|
        0 <= i < r.len() && r[i] is Some && extras_at(r, i).contains(x) && #[trigger] tx(i, x) <= tau implies extras_at(
            a,
            i,
        ).contains(x) by {
        if tx(i, x) < tau {
        } else if names_extra(groups, x) {
            assert(tn[i] <= tau);
        } else {
            let (j, k) = choose|j: int, k: int|
                #[trigger] fired_before(g, env, r, tn, tx, j, k, i, tx(i, x)) && edge_extra(deps_of(g, j)[k], x);
        }
    }
}

/// The walk's outcome is the least closed activation when markers only
/// gain from extras: every activation `a` that is closed (roots active
/// with the groups' extras, each firing edge handing its target what it
/// passes) contains it.
pub proof fn law_walk_is_least(
    g: Seq<GraphNode>,
    roots: Seq<usize>,
    env: MarkerEnvModel,
    groups: Seq<Seq<char>>,
    r: Seq<Option<Vec<String>>>,
    a: Seq<Option<Vec<String>>>,
)
    requires
        walk_outcome(g, roots, env, groups, r),
        a.len() == g.len(),
        activation_closed(g, roots, env, groups, a),
        sorted_extras(a),
        markers_monotone(g, env),
        g.len() <= usize::MAX,
        forall|q: int| 0 <= q < roots.len() ==> #[trigger] roots[q] < g.len(),
        forall|i: int, k: int|
            0 <= i < g.len() && 0 <= k < g[i].edges_out@.len() ==> (#[trigger] g[i].edges_out@[k]) < g.len(),
        forall|i: int| 0 <= i < g.len() ==> (#[trigger] g[i]).edges_out@.len() == deps_of(g, i).len(),
    ensures
        within(r, a),
{
    let (tn, tx) = choose|tn: Seq<int>, tx: spec_fn(int, Seq<char>) -> int| derivation(g, roots, env, groups, r, tn, tx);
    assert forall|i: int| 0 <= i < r.len() && #[trigger] r[i] is Some implies a[i] is Some && forall|x: Seq<char>|
        extras_at(r, i).contains(x) ==> #[trigger] extras_at(a, i).contains(x) by {
        lemma_least_upto(g, roots, env, groups, r, a, tn, tx, tn[i]);
        assert(tn[i] <= tn[i]);
        assert forall|x: Seq<char>| extras_at(r, i).contains(x) implies #[trigger] extras_at(a, i).contains(x) by {
            lemma_least_upto(g, roots, env, groups, r, a, tn, tx, tx(i, x));
        }
    }
}

/// Two lists without repeats, each sorted, holding the same names, are equal.
pub proof fn lemma_sorted_same(xs: Seq<Seq<char>>, ys: Seq<Seq<char>>)
    requires
        strictly_sorted(xs),
        strictly_sorted(ys),
        forall|x: Seq<char>| xs.contains(x) <==> ys.contains(x),
    ensures
        xs == ys,
    decreases xs.len() + ys.len(),
{
    if xs.len() == 0 {
        if ys.len() > 0 {
            assert(ys.contains(ys[0]));
        }
        assert(xs =~= ys);
    } else if ys.len() == 0 {
        assert(xs.contains(xs[0]));
    } else {
        let a = xs.last();
        let b = ys.last();
        assert(xs.contains(a));
        assert(ys.contains(b));
        let ia = choose|i: int| 0 <= i < ys.len() && ys[i] == a;
        let ib = choose|i: int| 0 <= i < xs.len() && xs[i] == b;
        if ia < ys.len() - 1 {
            assert(seq_lt(ys[ia], ys[ys.len() - 1]));
            if ib < xs.len() - 1 {
                assert(seq_lt(xs[ib], xs[xs.len() - 1]));
                crate::text::lemma_seq_lt_asymmetric(a, b);
            } else {
                lemma_seq_lt_irreflexive(a);
            }
        } else if ib < xs.len() - 1 {
            assert(seq_lt(xs[ib], xs[xs.len() - 1]));
            lemma_seq_lt_irreflexive(a);
        }
        assert(a == b);
        let xd = xs.drop_last();
        let yd = ys.drop_last();
        assert(strictly_sorted(xd)) by {
            assert forall|p: int, q: int| 0 <= p < q < xd.len() implies seq_lt(#[trigger] xd[p], #[trigger] xd[q]) by {
                assert(xd[p] == xs[p] && xd[q] == xs[q]);
            }
        }
        assert(strictly_sorted(yd)) by {
            assert forall|p: int, q: int| 0 <= p < q < yd.len() implies seq_lt(#[trigger] yd[p], #[trigger] yd[q]) by {
                assert(yd[p] == ys[p] && yd[q] == ys[q]);
            }
        }
        assert forall|x: Seq<char>| xd.contains(x) <==> yd.contains(x) by {
            if xd.contains(x) {
                let p = choose|p: int| 0 <= p < xd.len() && xd[p] == x;
                assert(seq_lt(xs[p], xs[xs.len() - 1]));
                assert(ys.contains(x));
                let q = choose|q: int| 0 <= q < ys.len() && ys[q] == x;
                if q == ys.len() - 1 {
                    lemma_seq_lt_irreflexive(x);
                }
                assert(yd[q] == x);
            }
            if yd.contains(x) {
                let p = choose|p: int| 0 <= p < yd.len() && yd[p] == x;
                assert(seq_lt(ys[p], ys[ys.len() - 1]));
                assert(xs.contains(x));
                let q = choose|q: int| 0 <= q < xs.len() && xs[q] == x;
                if q == xs.len() - 1 {
                    lemma_seq_lt_irreflexive(x);
                }
                assert(xd[q] == x);
            }
        }
        lemma_sorted_same(xd, yd);
        assert(xs =~= xd.push(a));
        assert(ys =~= yd.push(b));
    }
}

/// When markers only gain from extras, the walk has one outcome: any two
/// outcomes activate the same nodes with the same extras.
pub proof fn law_walk_unique(
    g: Seq<GraphNode>,
    roots: Seq<usize>,
    env: MarkerEnvModel,
    groups: Seq<Seq<char>>,
    r1: Seq<Option<Vec<String>>>,
    r2: Seq<Option<Vec<String>>>,
)
    requires
        walk_outcome(g, roots, env, groups, r1),
        walk_outcome(g, roots, env, groups, r2),
        markers_monotone(g, env),
        g.len() <= usize::MAX,
        forall|q: int| 0 <= q < roots.len() ==> #[trigger] roots[q] < g.len(),
        forall|i: int, k: int|
            0 <= i < g.len() && 0 <= k < g[i].edges_out@.len() ==> (#[trigger] g[i].edges_out@[k]) < g.len(),
        forall|i: int| 0 <= i < g.len() ==> (#[trigger] g[i]).edges_out@.len() == deps_of(g, i).len(),
    ensures
        forall|i: int| 0 <= i < g.len() ==> (#[trigger] r1[i] is Some) == (r2[i] is Some),
        forall|i: int| 0 <= i < g.len() && #[trigger] r1[i] is Some ==> extras_at(r1, i) == extras_at(r2, i),
{
    law_walk_is_least(g, roots, env, groups, r1, r2);
    law_walk_is_least(g, roots, env, groups, r2, r1);
    assert forall|i: int| 0 <= i < g.len() && #[trigger] r1[i] is Some implies extras_at(r1, i) == extras_at(r2, i) by {
        assert(r2[i] is Some);
        lemma_sorted_same(extras_at(r1, i), extras_at(r2, i));
    }
    assert forall|i: int| 0 <= i < g.len() implies (#[trigger] r1[i] is Some) == (r2[i] is Some) by {
        if r2[i] is Some {
            assert(r1[i] is Some);
        }
    }
}

/// The indices of the active nodes among the first `n`, ascending.
pub open spec fn active_nodes(r: Seq<Option<Vec<String>>>, n: int) -> Seq<usize>
    decreases n,
{
    if n <= 0 {
        Seq::empty()
    } else if r[n - 1] is Some {
        active_nodes(r, n - 1).push((n - 1) as usize)
    } else {
        active_nodes(r, n - 1)
    }
}

/// `r` is an outcome of the walk: one entry per node, closed and sound.
pub open spec fn walk_outcome(
    g: Seq<GraphNode>,
    roots: Seq<usize>,
    env: MarkerEnvModel,
    groups: Seq<Seq<char>>,
    r: Seq<Option<Vec<String>>>,
) -> bool {
    &&& r.len() == g.len()
    &&& activation_closed(g, roots, env, groups, r)
    &&& activation_sound(g, roots, env, groups, r)
    &&& activation_grouped(groups, r)
    &&& well_founded(g, roots, env, groups, r)
}

/// The nodes that [`reachable_with_extras`] activates, ascending.
pub fn reachable_from(graph: &DepGraph, roots: &Vec<usize>, env: &MarkerEnv, include_groups: &Vec<String>) -> (r: Vec<usize>)
    requires
        graph.wf(),
        forall|q: int| 0 <= q < roots@.len() ==> #[trigger] roots@[q] < graph.nodes@.len(),
    ensures
        exists|a: Seq<Option<Vec<String>>>|
            walk_outcome(graph.nodes@, roots@, env@, strings_view(include_groups@), a) && r@ == active_nodes(
                a,
                a.len() as int,
            ),
{
    let act = reachable_with_extras(graph, roots, env, include_groups);
    let mut out: Vec<usize> = Vec::new();
    let mut i: usize = 0;
    while i < act.len()
        invariant
            i <= act@.len(),
            out@ == active_nodes(act@, i as int),
        decreases act@.len() - i,
    {
        if act[i].is_some() {
            out.push(i);
        }
        i += 1;
    }
    assert(walk_outcome(graph.nodes@, roots@, env@, strings_view(include_groups@), act@));
    out
}

} // verus!
