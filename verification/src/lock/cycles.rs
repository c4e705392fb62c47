//! Dependency cycles: strongly connected components found by mutual
//! reachability, each cycle reported as a walk from its smallest member.

use vstd::prelude::*;

use crate::text::{
    lemma_seq_lt_asymmetric, lemma_seq_lt_irreflexive, lemma_seq_lt_total, lemma_seq_lt_transitive,
    seq_lt, string_lt, strings_view,
};

verus! {

/// An edge from `a` to `b`.
pub open spec fn adj(g: Seq<Seq<usize>>, a: int, b: int) -> bool {
    0 <= a < g.len() && 0 <= b < g.len() && g[a].contains(b as usize)
}

/// Every edge leads to a node.
pub open spec fn edges_in_range(g: Seq<Seq<usize>>) -> bool {
    forall|a: int, k: int| 0 <= a < g.len() && 0 <= k < g[a].len() ==> (#[trigger] g[a][k]) < g.len()
}

/// `p` is a walk along edges (a single node is a walk).
pub open spec fn is_walk(g: Seq<Seq<usize>>, p: Seq<int>) -> bool {
    &&& p.len() >= 1
    &&& forall|i: int| 0 <= i < p.len() ==> 0 <= #[trigger] p[i] < g.len()
    &&& forall|i: int| 0 <= i < p.len() - 1 ==> adj(g, #[trigger] p[i], p[i + 1])
}

/// Some walk leads from `a` to `b`.
#[verifier::opaque]
pub open spec fn reaches(g: Seq<Seq<usize>>, a: int, b: int) -> bool {
    exists|p: Seq<int>| #[trigger] is_walk(g, p) && p[0] == a && p.last() == b
}

pub proof fn lemma_walk_extend(g: Seq<Seq<usize>>, a: int, x: int, y: int)
    requires
        reaches(g, a, x),
        adj(g, x, y),
    ensures
        reaches(g, a, y),
{
    reveal(reaches);
    let p = choose|p: Seq<int>| #[trigger] is_walk(g, p) && p[0] == a && p.last() == x;
    let q = p.push(y);
    assert(q[0] == a);
    assert forall|i: int| 0 <= i < q.len() - 1 implies adj(g, #[trigger] q[i], q[i + 1]) by {
        if i < p.len() - 1 {
            assert(q[i] == p[i] && q[i + 1] == p[i + 1]);
        }
    }
    assert(is_walk(g, q));
}

pub proof fn lemma_reaches_self(g: Seq<Seq<usize>>, a: int)
    requires
        0 <= a < g.len(),
    ensures
        reaches(g, a, a),
{
    reveal(reaches);
    assert(is_walk(g, seq![a]));
}

/// A set (as flags) that holds `a` and is closed under edges holds every
/// node `a` reaches.
proof fn lemma_closed_holds_reached(g: Seq<Seq<usize>>, s: Seq<bool>, a: int, b: int)
    requires
        s.len() == g.len(),
        0 <= a < g.len(),
        s[a],
        forall|x: int, y: int| 0 <= x < g.len() && s[x] && #[trigger] adj(g, x, y) ==> s[y],
        reaches(g, a, b),
    ensures
        s[b],
{
    reveal(reaches);
    let p = choose|p: Seq<int>| #[trigger] is_walk(g, p) && p[0] == a && p.last() == b;
    lemma_walk_in_closed(g, s, p, p.len() - 1);
}

proof fn lemma_walk_in_closed(g: Seq<Seq<usize>>, s: Seq<bool>, p: Seq<int>, i: int)
    requires
        s.len() == g.len(),
        is_walk(g, p),
        0 <= i < p.len(),
        s[p[0]],
        forall|x: int, y: int| 0 <= x < g.len() && s[x] && #[trigger] adj(g, x, y) ==> s[y],
    ensures
        s[p[i]],
    decreases i,
{
    if i > 0 {
        lemma_walk_in_closed(g, s, p, i - 1);
        assert(adj(g, p[i - 1], p[i]));
    }
}

/// The adjacency lists as sequences.
pub open spec fn adj_view(g: Seq<Vec<usize>>) -> Seq<Seq<usize>> {
    g.map_values(|e: Vec<usize>| e@)
}

/// The nodes `v` reaches (itself included), as flags.
pub fn reach_set(g: &Vec<Vec<usize>>, v: usize) -> (r: Vec<bool>)
    requires
        v < g@.len(),
        edges_in_range(adj_view(g@)),
    ensures
        r@.len() == g@.len(),
        forall|u: int| 0 <= u < g@.len() ==> (r@[u] <==> reaches(adj_view(g@), v as int, u)),
{
    let ghost gv = adj_view(g@);
    let n = g.len();
    let mut visited: Vec<bool> = Vec::new();
    let mut i: usize = 0;
    while i < n
        invariant
            i <= n,
            n == g@.len(),
            visited@.len() == i,
            forall|u: int| 0 <= u < i ==> !visited@[u],
        decreases n - i,
    {
        visited.push(false);
        i += 1;
    }
    visited.set(v, true);
    let ghost mut vs: Set<int> = Set::empty().insert(v as int);
    let mut stack: Vec<usize> = Vec::new();
    stack.push(v);
    proof {
        lemma_reaches_self(gv, v as int);
        vstd::set_lib::lemma_int_range(0, n as int);
        assert(vs.finite());
        assert(stack@[0] == v);
        assert forall|x: int, y: int|
            0 <= x < n && visited@[x] && !stack@.contains(x as usize) && #[trigger] adj(gv, x, y) implies visited@[y] by {
            if x != v as int {
                assert(!visited@[x]);
            } else {
                assert(stack@.contains(v));
            }
        }
    }
    while stack.len() > 0
        invariant
            n == g@.len(),
            gv == adj_view(g@),
            edges_in_range(gv),
            v < n,
            visited@.len() == n,
            visited@[v as int],
            vs.finite(),
            forall|u: int| #[trigger] vs.contains(u) <==> (0 <= u < n && visited@[u]),
            forall|u: int| 0 <= u < n && #[trigger] visited@[u] ==> reaches(gv, v as int, u),
            forall|k: int| 0 <= k < stack@.len() ==> (#[trigger] stack@[k]) < n && visited@[stack@[k] as int],
            forall|x: int, y: int|
                0 <= x < n && visited@[x] && !stack@.contains(x as usize) && #[trigger] adj(gv, x, y) ==> visited@[y],
        decreases n - vs.len(), stack@.len(),
    {
        proof {
            vstd::set_lib::lemma_int_range(0, n as int);
            vstd::set_lib::lemma_len_subset(vs, vstd::set_lib::set_int_range(0, n as int));
        }
        let ghost st_full = stack@;
        let x = stack.pop().unwrap();
        let ghost vs0 = vs;
        let ghost st0 = stack@;
        proof {
            assert(st_full == st0.push(x));
            assert forall|a: int, y: int|
                0 <= a < n && a != x && visited@[a] && !stack@.contains(a as usize) && #[trigger] adj(gv, a, y) implies visited@[y] by {
                if st_full.contains(a as usize) {
                    let m = choose|m: int| 0 <= m < st_full.len() && st_full[m] == a as usize;
                    if m < st0.len() {
                        assert(st0[m] == a as usize);
                    }
                }
            }
        }
        let mut k: usize = 0;
        while k < g[x].len()
            invariant
                n == g@.len(),
                gv == adj_view(g@),
                edges_in_range(gv),
                x < n,
                v < n,
                visited@.len() == n,
                visited@[v as int],
                visited@[x as int],
                k <= g@[x as int]@.len(),
                vs.finite(),
                vs0.subset_of(vs),
                vs == vs0 ==> stack@ == st0,
                vs.len() >= vs0.len(),
                forall|u: int| #[trigger] vs.contains(u) <==> (0 <= u < n && visited@[u]),
                forall|u: int| 0 <= u < n && #[trigger] visited@[u] ==> reaches(gv, v as int, u),
                forall|m: int| 0 <= m < stack@.len() ==> (#[trigger] stack@[m]) < n && visited@[stack@[m] as int],
                forall|a: int, y: int|
                    0 <= a < n && a != x && visited@[a] && !stack@.contains(a as usize) && #[trigger] adj(gv, a, y) ==> visited@[y],
                forall|j: int| 0 <= j < k ==> visited@[g@[x as int]@[j] as int],
            decreases g@[x as int]@.len() - k,
        {
            let y = g[x][k];
            assert(gv[x as int][k as int] == y);
            if !visited[y] {
                proof {
                    lemma_walk_extend(gv, v as int, x as int, y as int);
                    assert(!vs.contains(y as int));
                }
                let ghost vis_pre = visited@;
                let ghost st_pre = stack@;
                visited.set(y, true);
                stack.push(y);
                proof {
                    let old_vs = vs;
                    vs = vs.insert(y as int);
                    assert(vs.len() == old_vs.len() + 1);
                    assert forall|a: int, z: int|
                        0 <= a < n && a != x && visited@[a] && !stack@.contains(a as usize) && #[trigger] adj(gv, a, z) implies visited@[z] by {
                        if a != y as int {
                            assert(vis_pre[a]);
                            if st_pre.contains(a as usize) {
                                let m = choose|m: int| 0 <= m < st_pre.len() && st_pre[m] == a as usize;
                                assert(stack@[m] == a as usize);
                            }
                            assert(vis_pre[z]);
                        } else {
                            assert(stack@[stack@.len() - 1] == y);
                        }
                    }
                }
            }
            k += 1;
        }
        proof {
            assert forall|a: int, y: int|
                0 <= a < n && visited@[a] && !stack@.contains(a as usize) && #[trigger] adj(gv, a, y) implies visited@[y] by {
                if a == x {
                    let j = choose|j: int| 0 <= j < gv[a].len() && gv[a][j] == y as usize;
                    assert(g@[x as int]@[j] == y as usize);
                }
            }
            vstd::set_lib::lemma_int_range(0, n as int);
            vstd::set_lib::lemma_len_subset(vs, vstd::set_lib::set_int_range(0, n as int));
            if vs.len() == vs0.len() {
                assert(vs =~= vs0) by {
                    vstd::set_lib::lemma_len_subset(vs0, vs);
                    if !(vs =~= vs0) {
                        let w = choose|w: int| vs.contains(w) && !vs0.contains(w);
                        vstd::set_lib::lemma_len_subset(vs0, vs.remove(w));
                    }
                }
            }
        }
    }
    proof {
        assert forall|u: int| 0 <= u < n implies (visited@[u] <==> reaches(gv, v as int, u)) by {
            if reaches(gv, v as int, u) {
                lemma_closed_holds_reached(gv, visited@, v as int, u);
            }
        }
    }
    visited
}

/// `a` and `b` reach each other.
pub open spec fn same_scc(g: Seq<Seq<usize>>, a: int, b: int) -> bool {
    reaches(g, a, b) && reaches(g, b, a)
}

/// `v`'s component is a cycle: it has another member, or `v` depends on
/// itself.
pub open spec fn is_cyclic(g: Seq<Seq<usize>>, v: int) -> bool {
    (exists|u: int| 0 <= u < g.len() && u != v && #[trigger] same_scc(g, v, u)) || adj(g, v, v)
}

/// `v` starts its cycle's report: the member with the smallest display name.
pub open spec fn is_start(g: Seq<Seq<usize>>, d: Seq<Seq<char>>, v: int) -> bool {
    &&& 0 <= v < g.len()
    &&& is_cyclic(g, v)
    &&& forall|u: int| 0 <= u < g.len() && u != v && #[trigger] same_scc(g, v, u) ==> seq_lt(d[v], d[u])
}

/// The first successor of `x`, from edge `k` on, that is in `start`'s
/// component and not yet on `path`.
pub open spec fn fresh_succ(g: Seq<Seq<usize>>, start: int, path: Seq<int>, x: int, k: int) -> Option<int>
    decreases g[x].len() - k,
{
    if k < 0 || k >= g[x].len() {
        None
    } else {
        let t = g[x][k] as int;
        if same_scc(g, start, t) && !path.contains(t) {
            Some(t)
        } else {
            fresh_succ(g, start, path, x, k + 1)
        }
    }
}

/// Extends `path` greedily (at most `fuel` steps) along fresh successors.
pub open spec fn greedy(g: Seq<Seq<usize>>, start: int, path: Seq<int>, fuel: nat) -> Seq<int>
    decreases fuel,
{
    if fuel == 0 {
        path
    } else {
        match fresh_succ(g, start, path, path.last(), 0) {
            Some(t) => greedy(g, start, path.push(t), (fuel - 1) as nat),
            None => path,
        }
    }
}

/// The reported walk of the cycle that `start` starts.
pub open spec fn cycle_walk(g: Seq<Seq<usize>>, start: int) -> Seq<int> {
    greedy(g, start, seq![start], g.len() as nat)
}

/// A walk as display names.
pub open spec fn render_walk(d: Seq<Seq<char>>, p: Seq<int>) -> Seq<Seq<char>> {
    p.map_values(|i: int| d[i])
}

/// The reports of the cycles whose starts are among the first `n` nodes,
/// in node order.
pub open spec fn cycle_reports(g: Seq<Seq<usize>>, d: Seq<Seq<char>>, n: int) -> Seq<Seq<Seq<char>>>
    decreases n,
{
    if n <= 0 {
        Seq::empty()
    } else {
        let prev = cycle_reports(g, d, n - 1);
        if is_start(g, d, n - 1) {
            prev.push(render_walk(d, cycle_walk(g, n - 1)))
        } else {
            prev
        }
    }
}

/// Lexicographic order on lists of names, as `Vec<String>` orders.
pub open spec fn strs_lt(a: Seq<Seq<char>>, b: Seq<Seq<char>>) -> bool
    decreases a.len(),
{
    if b.len() == 0 {
        false
    } else if a.len() == 0 {
        true
    } else if a[0] != b[0] {
        seq_lt(a[0], b[0])
    } else {
        strs_lt(a.drop_first(), b.drop_first())
    }
}

pub open spec fn strs_le(a: Seq<Seq<char>>, b: Seq<Seq<char>>) -> bool {
    !strs_lt(b, a)
}

pub proof fn lemma_strs_lt_irreflexive(a: Seq<Seq<char>>)
    ensures
        !strs_lt(a, a),
    decreases a.len(),
{
    if a.len() > 0 {
        lemma_strs_lt_irreflexive(a.drop_first());
    }
}

pub proof fn lemma_strs_lt_transitive(a: Seq<Seq<char>>, b: Seq<Seq<char>>, c: Seq<Seq<char>>)
    ensures
        strs_lt(a, b) && strs_lt(b, c) ==> strs_lt(a, c),
    decreases a.len(),
{
    if a.len() > 0 && b.len() > 0 && c.len() > 0 {
        lemma_seq_lt_transitive(a[0], b[0], c[0]);
        lemma_seq_lt_asymmetric(a[0], b[0]);
        lemma_seq_lt_asymmetric(b[0], c[0]);
        lemma_strs_lt_transitive(a.drop_first(), b.drop_first(), c.drop_first());
    }
}

pub proof fn lemma_strs_lt_total(a: Seq<Seq<char>>, b: Seq<Seq<char>>)
    ensures
        a != b ==> strs_lt(a, b) || strs_lt(b, a),
    decreases a.len(),
{
    if a.len() > 0 && b.len() > 0 {
        lemma_seq_lt_total(a[0], b[0]);
        lemma_strs_lt_total(a.drop_first(), b.drop_first());
        if a[0] == b[0] && a.drop_first() == b.drop_first() {
            assert(a =~= seq![a[0]] + a.drop_first());
            assert(b =~= seq![b[0]] + b.drop_first());
        }
    } else if a.len() == 0 && b.len() == 0 {
        assert(a =~= b);
    }
}

/// Order on lists of strings.
pub fn strings_lt(a: &Vec<String>, b: &Vec<String>) -> (r: bool)
    ensures
        r == strs_lt(strings_view(a@), strings_view(b@)),
{
    let ghost av = strings_view(a@);
    let ghost bv = strings_view(b@);
    let mut i: usize = 0;
    assert(av.skip(0) =~= av);
    assert(bv.skip(0) =~= bv);
    while i < a.len() && i < b.len()
        invariant
            av == strings_view(a@),
            bv == strings_view(b@),
            i <= a@.len(),
            i <= b@.len(),
            strs_lt(av, bv) == strs_lt(av.skip(i as int), bv.skip(i as int)),
        decreases a@.len() - i,
    {
        assert(av.skip(i as int)[0] == a@[i as int]@);
        assert(bv.skip(i as int)[0] == b@[i as int]@);
        if !crate::text::str_eq(a[i].as_str(), b[i].as_str()) {
            return string_lt(&a[i], &b[i]);
        }
        assert(av.skip(i as int).drop_first() =~= av.skip(i + 1));
        assert(bv.skip(i as int).drop_first() =~= bv.skip(i + 1));
        i += 1;
    }
    i < b.len()
}

pub open spec fn nested(v: Seq<Vec<String>>) -> Seq<Seq<Seq<char>>> {
    v.map_values(|x: Vec<String>| strings_view(x@))
}

/// Inserts `x` into a list sorted by [`strs_le`], after any equal items.
fn insert_sorted(out: &mut Vec<Vec<String>>, x: Vec<String>)
    requires
        forall|a: int, b: int| 0 <= a < b < old(out)@.len() ==> strs_le(nested(old(out)@)[a], nested(old(out)@)[b]),
    ensures
        forall|a: int, b: int| 0 <= a < b < final(out)@.len() ==> strs_le(nested(final(out)@)[a], nested(final(out)@)[b]),
        nested(final(out)@).to_multiset() == nested(old(out)@).to_multiset().insert(strings_view(x@)),
{
    let ghost o = nested(out@);
    let ghost xv = strings_view(x@);
    let mut i: usize = 0;
    while i < out.len()
        invariant
            i <= out@.len(),
            o == nested(out@),
            xv == strings_view(x@),
            forall|a: int, b: int| 0 <= a < b < o.len() ==> strs_le(o[a], o[b]),
            forall|k: int| 0 <= k < i ==> strs_le(#[trigger] o[k], xv),
        ensures
            i <= out@.len(),
            o == nested(out@),
            forall|k: int| 0 <= k < i ==> strs_le(#[trigger] o[k], xv),
            i < out@.len() ==> strs_lt(xv, o[i as int]),
        decreases out@.len() - i,
    {
        assert(o[i as int] == strings_view(out@[i as int]@));
        if strings_lt(&x, &out[i]) {
            break;
        }
        i += 1;
    }
    proof {
        if i < o.len() {
            assert(o[i as int] == strings_view(out@[i as int]@));
        }
    }
    out.insert(i, x);
    proof {
        let n = nested(out@);
        assert(n =~= o.insert(i as int, xv));
        vstd::seq_lib::to_multiset_insert(o, i as int, xv);
        assert forall|a: int, b: int| 0 <= a < b < n.len() implies strs_le(n[a], n[b]) by {
            if b < i {
                assert(n[a] == o[a] && n[b] == o[b]);
            } else if b == i {
                assert(n[a] == o[a]);
            } else if a < i {
                assert(n[a] == o[a] && n[b] == o[b - 1]);
            } else if a == i {
                assert(n[b] == o[b - 1]);
                lemma_strs_lt_irreflexive(xv);
                if strs_lt(o[b - 1], xv) {
                    if b - 1 > i {
                        assert(strs_le(o[i as int], o[b - 1]));
                        lemma_strs_lt_transitive(o[b - 1], xv, o[i as int]);
                    }
                    lemma_strs_lt_transitive(o[b - 1], xv, o[b - 1]);
                    lemma_strs_lt_irreflexive(o[b - 1]);
                }
            } else {
                assert(n[a] == o[a - 1] && n[b] == o[b - 1]);
            }
        }
    }
}

/// Node indices as integers.
pub open spec fn ints(p: Seq<usize>) -> Seq<int> {
    p.map_values(|x: usize| x as int)
}

/// Reachability from every node: `r[a][b]` iff `a` reaches `b`.
pub open spec fn reach_table(g: Seq<Seq<usize>>, r: Seq<Vec<bool>>) -> bool {
    &&& r.len() == g.len()
    &&& forall|a: int| 0 <= a < g.len() ==> (#[trigger] r[a])@.len() == g.len()
    &&& forall|a: int, b: int| 0 <= a < g.len() && 0 <= b < g.len() ==> (r[a]@[b] <==> reaches(g, a, b))
}

fn reach_all(g: &Vec<Vec<usize>>) -> (r: Vec<Vec<bool>>)
    requires
        edges_in_range(adj_view(g@)),
    ensures
        reach_table(adj_view(g@), r@),
{
    let mut out: Vec<Vec<bool>> = Vec::new();
    let mut a: usize = 0;
    while a < g.len()
        invariant
            a <= g@.len(),
            edges_in_range(adj_view(g@)),
            out@.len() == a,
            forall|x: int| 0 <= x < a ==> (#[trigger] out@[x])@.len() == g@.len(),
            forall|x: int, b: int| 0 <= x < a && 0 <= b < g@.len() ==> (out@[x]@[b] <==> reaches(adj_view(g@), x, b)),
        decreases g@.len() - a,
    {
        out.push(reach_set(g, a));
        a += 1;
    }
    out
}

fn in_scc(r: &Vec<Vec<bool>>, a: usize, b: usize, Ghost(g): Ghost<Seq<Seq<usize>>>) -> (res: bool)
    requires
        reach_table(g, r@),
        a < g.len(),
        b < g.len(),
    ensures
        res == same_scc(g, a as int, b as int),
{
    r[a][b] && r[b][a]
}

fn has_edge(g: &Vec<Vec<usize>>, a: usize, b: usize) -> (res: bool)
    requires
        a < g@.len(),
        b < g@.len(),
    ensures
        res == adj(adj_view(g@), a as int, b as int),
{
    let mut k: usize = 0;
    while k < g[a].len()
        invariant
            a < g@.len(),
            b < g@.len(),
            k <= g@[a as int]@.len(),
            forall|m: int| 0 <= m < k ==> g@[a as int]@[m] != b,
        decreases g@[a as int]@.len() - k,
    {
        if g[a][k] == b {
            assert(adj_view(g@)[a as int][k as int] == b);
            return true;
        }
        k += 1;
    }
    proof {
        if adj(adj_view(g@), a as int, b as int) {
            let m = choose|m: int| 0 <= m < adj_view(g@)[a as int].len() && adj_view(g@)[a as int][m] == b;
            assert(g@[a as int]@[m] == b);
        }
    }
    false
}

fn check_start(g: &Vec<Vec<usize>>, r: &Vec<Vec<bool>>, d: &Vec<String>, v: usize) -> (res: bool)
    requires
        reach_table(adj_view(g@), r@),
        d@.len() == g@.len(),
        v < g@.len(),
    ensures
        res == is_start(adj_view(g@), strings_view(d@), v as int),
{
    let ghost gv = adj_view(g@);
    let ghost dv = strings_view(d@);
    let n = g.len();
    let mut cyclic = has_edge(g, v, v);
    let mut u: usize = 0;
    while u < n
        invariant
            n == g@.len(),
            gv == adj_view(g@),
            reach_table(gv, r@),
            v < n,
            u <= n,
            cyclic == (adj(gv, v as int, v as int) || exists|w: int| 0 <= w < u && w != v && #[trigger] same_scc(gv, v as int, w)),
        decreases n - u,
    {
        if u != v && in_scc(r, v, u, Ghost(gv)) {
            cyclic = true;
        }
        u += 1;
    }
    if !cyclic {
        return false;
    }
    let mut u: usize = 0;
    while u < n
        invariant
            n == g@.len(),
            gv == adj_view(g@),
            dv == strings_view(d@),
            d@.len() == n,
            reach_table(gv, r@),
            v < n,
            u <= n,
            is_cyclic(gv, v as int),
            forall|w: int| 0 <= w < u && w != v && #[trigger] same_scc(gv, v as int, w) ==> seq_lt(dv[v as int], dv[w]),
        decreases n - u,
    {
        if u != v && in_scc(r, v, u, Ghost(gv)) && !string_lt(&d[v], &d[u]) {
            assert(dv[v as int] == d@[v as int]@ && dv[u as int] == d@[u as int]@);
            return false;
        }
        proof {
            assert(dv[v as int] == d@[v as int]@ && dv[u as int] == d@[u as int]@);
        }
        u += 1;
    }
    true
}

fn cycle_walk_exec(g: &Vec<Vec<usize>>, r: &Vec<Vec<bool>>, start: usize) -> (p: Vec<usize>)
    requires
        reach_table(adj_view(g@), r@),
        edges_in_range(adj_view(g@)),
        start < g@.len(),
    ensures
        ints(p@) == cycle_walk(adj_view(g@), start as int),
        forall|i: int| 0 <= i < p@.len() ==> (#[trigger] p@[i]) < g@.len(),
{
    let ghost gv = adj_view(g@);
    let n = g.len();
    let mut in_path: Vec<bool> = Vec::new();
    let mut i: usize = 0;
    while i < n
        invariant
            i <= n,
            n == g@.len(),
            in_path@.len() == i,
            forall|u: int| 0 <= u < i ==> !in_path@[u],
        decreases n - i,
    {
        in_path.push(false);
        i += 1;
    }
    in_path.set(start, true);
    let mut path: Vec<usize> = Vec::new();
    path.push(start);
    let mut fuel: usize = n;
    proof {
        assert(ints(path@) =~= seq![start as int]);
        assert forall|u: int| 0 <= u < n implies (in_path@[u] <==> ints(path@).contains(u)) by {
            if u == start as int {
                assert(ints(path@)[0] == u);
            }
        }
    }
    loop
        invariant
            n == g@.len(),
            gv == adj_view(g@),
            reach_table(gv, r@),
            edges_in_range(gv),
            start < n,
            path@.len() >= 1,
            in_path@.len() == n,
            forall|k: int| 0 <= k < path@.len() ==> (#[trigger] path@[k]) < n,
            forall|u: int| 0 <= u < n ==> (in_path@[u] <==> ints(path@).contains(u)),
            greedy(gv, start as int, seq![start as int], n as nat) == greedy(gv, start as int, ints(path@), fuel as nat),
        ensures
            ints(path@) == cycle_walk(gv, start as int),
            forall|k: int| 0 <= k < path@.len() ==> (#[trigger] path@[k]) < n,
        decreases fuel,
    {
        if fuel == 0 {
            break;
        }
        let cur = path[path.len() - 1];
        let ghost pv = ints(path@);
        assert(pv.last() == cur as int);
        let mut found: Option<usize> = None;
        let mut k: usize = 0;
        while k < g[cur].len() && found.is_none()
            invariant
                n == g@.len(),
                gv == adj_view(g@),
                reach_table(gv, r@),
                edges_in_range(gv),
                cur < n,
                start < n,
                in_path@.len() == n,
                forall|u: int| 0 <= u < n ==> (in_path@[u] <==> pv.contains(u)),
                k <= g@[cur as int]@.len(),
                found is None ==> fresh_succ(gv, start as int, pv, cur as int, 0) == fresh_succ(gv, start as int, pv, cur as int, k as int),
                found matches Some(t) ==> fresh_succ(gv, start as int, pv, cur as int, 0) == Some(t as int) && t < n,
            decreases (g@[cur as int]@.len() - k) * 2 + (if found is None { 1int } else { 0int }),
        {
            let t = g[cur][k];
            assert(gv[cur as int][k as int] == t);
            if in_scc(r, start, t, Ghost(gv)) && !in_path[t] {
                assert(!pv.contains(t as int));
                assert(fresh_succ(gv, start as int, pv, cur as int, k as int) == Some(t as int));
                found = Some(t);
            } else {
                assert(fresh_succ(gv, start as int, pv, cur as int, k as int) == fresh_succ(gv, start as int, pv, cur as int, k + 1));
                k += 1;
            }
        }
        match found {
            None => {
                assert(fresh_succ(gv, start as int, pv, cur as int, 0) is None);
                break;
            },
            Some(t) => {
                path.push(t);
                in_path.set(t, true);
                proof {
                    assert(ints(path@) =~= pv.push(t as int));
                    assert forall|u: int| 0 <= u < n implies (in_path@[u] <==> ints(path@).contains(u)) by {
                        if u == t as int {
                            assert(ints(path@)[pv.len() as int] == u);
                        } else {
                            if ints(path@).contains(u) {
                                let m = choose|m: int| 0 <= m < ints(path@).len() && ints(path@)[m] == u;
                                assert(pv[m] == u);
                            }
                            if pv.contains(u) {
                                let m = choose|m: int| 0 <= m < pv.len() && pv[m] == u;
                                assert(ints(path@)[m] == u);
                            }
                        }
                    }
                }
                fuel -= 1;
            },
        }
    }
    path
}

fn render_path(d: &Vec<String>, p: &Vec<usize>) -> (r: Vec<String>)
    requires
        forall|i: int| 0 <= i < p@.len() ==> (#[trigger] p@[i]) < d@.len(),
    ensures
        strings_view(r@) == render_walk(strings_view(d@), ints(p@)),
{
    let mut out: Vec<String> = Vec::new();
    let mut i: usize = 0;
    while i < p.len()
        invariant
            i <= p@.len(),
            forall|k: int| 0 <= k < p@.len() ==> (#[trigger] p@[k]) < d@.len(),
            out@.len() == i,
            strings_view(out@) == render_walk(strings_view(d@), ints(p@)).subrange(0, i as int),
        decreases p@.len() - i,
    {
        assert(render_walk(strings_view(d@), ints(p@))[i as int] == d@[p@[i as int] as int]@);
        let item = d[p[i]].clone();
        assert(item@ == d@[p@[i as int] as int]@);
        out.push(item);
        assert(strings_view(out@)[i as int] == item@);
        i += 1;
        assert(strings_view(out@) =~= render_walk(strings_view(d@), ints(p@)).subrange(0, i as int));
    }
    assert(render_walk(strings_view(d@), ints(p@)).subrange(0, i as int) =~= render_walk(strings_view(d@), ints(p@)));
    out
}

/// The dependency cycles as display names: one walk per cyclic component,
/// from its smallest member along the first edges to members not yet on
/// the walk; sorted.
pub fn find_cycles(g: &Vec<Vec<usize>>, d: &Vec<String>) -> (r: Vec<Vec<String>>)
    requires
        edges_in_range(adj_view(g@)),
        d@.len() == g@.len(),
    ensures
        forall|a: int, b: int| 0 <= a < b < r@.len() ==> strs_le(nested(r@)[a], nested(r@)[b]),
        nested(r@).to_multiset() == cycle_reports(adj_view(g@), strings_view(d@), g@.len() as int).to_multiset(),
{
    let ghost gv = adj_view(g@);
    let ghost dv = strings_view(d@);
    let r = reach_all(g);
    let mut out: Vec<Vec<String>> = Vec::new();
    let mut v: usize = 0;
    proof {
        assert(nested(out@) =~= Seq::<Seq<Seq<char>>>::empty());
    }
    while v < g.len()
        invariant
            v <= g@.len(),
            gv == adj_view(g@),
            dv == strings_view(d@),
            d@.len() == g@.len(),
            edges_in_range(gv),
            reach_table(gv, r@),
            forall|a: int, b: int| 0 <= a < b < out@.len() ==> strs_le(nested(out@)[a], nested(out@)[b]),
            nested(out@).to_multiset() == cycle_reports(gv, dv, v as int).to_multiset(),
        decreases g@.len() - v,
    {
        if check_start(g, &r, d, v) {
            let p = cycle_walk_exec(g, &r, v);
            let names = render_path(d, &p);
            insert_sorted(&mut out, names);
            proof {
                let prev = cycle_reports(gv, dv, v as int);
                vstd::seq_lib::to_multiset_build(prev, render_walk(dv, cycle_walk(gv, v as int)));
            }
        }
        v += 1;
    }
    out
}

proof fn lemma_reaches_trans(g: Seq<Seq<usize>>, a: int, b: int, c: int)
    requires
        reaches(g, a, b),
        reaches(g, b, c),
    ensures
        reaches(g, a, c),
{
    reveal(reaches);
    let p = choose|p: Seq<int>| #[trigger] is_walk(g, p) && p[0] == a && p.last() == b;
    let q = choose|q: Seq<int>| #[trigger] is_walk(g, q) && q[0] == b && q.last() == c;
    let w = p + q.drop_first();
    assert forall|i: int| 0 <= i < w.len() implies 0 <= #[trigger] w[i] < g.len() by {
        if i >= p.len() {
            assert(w[i] == q[i - p.len() + 1]);
        }
    }
    assert forall|i: int| 0 <= i < w.len() - 1 implies adj(g, #[trigger] w[i], w[i + 1]) by {
        if i < p.len() - 1 {
            assert(w[i] == p[i] && w[i + 1] == p[i + 1]);
        } else if i == p.len() - 1 {
            assert(w[i] == b && w[i + 1] == q[1]);
            assert(adj(g, q[0], q[1]));
        } else {
            assert(w[i] == q[i - p.len() + 1] && w[i + 1] == q[i - p.len() + 2]);
            assert(adj(g, q[i - p.len() + 1], q[i - p.len() + 2]));
        }
    }
    assert(is_walk(g, w));
    if q.len() == 1 {
        assert(w =~= p);
    } else {
        assert(w.last() == q.last());
    }
}

/// No two nodes share a display name.
pub open spec fn distinct_names(d: Seq<Seq<char>>) -> bool {
    forall|i: int, j: int| 0 <= i < j < d.len() ==> d[i] != d[j]
}

proof fn lemma_min_member(d: Seq<Seq<char>>, mem: spec_fn(int) -> bool, k: int)
    requires
        0 <= k <= d.len(),
        distinct_names(d),
        exists|u: int| 0 <= u < k && #[trigger] mem(u),
    ensures
        exists|m: int| #![trigger d[m]] 0 <= m < k && mem(m) && forall|u: int|
            0 <= u < k && u != m && #[trigger] mem(u) ==> seq_lt(d[m], d[u]),
    decreases k,
{
    if exists|u: int| 0 <= u < k - 1 && #[trigger] mem(u) {
        lemma_min_member(d, mem, k - 1);
        let m = choose|m: int| #![trigger d[m]] 0 <= m < k - 1 && mem(m) && forall|u: int|
            0 <= u < k - 1 && u != m && #[trigger] mem(u) ==> seq_lt(d[m], d[u]);
        let top = k - 1;
        if mem(top) && seq_lt(d[top], d[m]) {
            assert forall|u: int| 0 <= u < k && u != top && #[trigger] mem(u) implies seq_lt(d[top], d[u]) by {
                if u != m {
                    lemma_seq_lt_transitive(d[top], d[m], d[u]);
                }
            }
            assert(d[top] == d[top]);
        } else {
            assert forall|u: int| 0 <= u < k && u != m && #[trigger] mem(u) implies seq_lt(d[m], d[u]) by {
                if u == top {
                    lemma_seq_lt_total(d[m], d[u]);
                }
            }
            assert(d[m] == d[m]);
        }
    } else {
        let top = k - 1;
        assert(mem(top));
        assert forall|u: int| 0 <= u < k && u != top && #[trigger] mem(u) implies seq_lt(d[top], d[u]) by {
        }
        assert(d[top] == d[top]);
    }
}

proof fn lemma_reports_empty_iff(g: Seq<Seq<usize>>, d: Seq<Seq<char>>, n: int)
    requires
        0 <= n <= g.len(),
    ensures
        cycle_reports(g, d, n).len() == 0 <==> forall|v: int| 0 <= v < n ==> !is_start(g, d, v),
    decreases n,
{
    if n > 0 {
        lemma_reports_empty_iff(g, d, n - 1);
    }
}

proof fn lemma_start_of_min(g: Seq<Seq<usize>>, d: Seq<Seq<char>>, v: int, m: int)
    requires
        d.len() == g.len(),
        0 <= v < g.len(),
        0 <= m < g.len(),
        is_cyclic(g, v),
        same_scc(g, v, m),
        forall|u: int| 0 <= u < g.len() && u != m && #[trigger] same_scc(g, v, u) ==> seq_lt(d[m], d[u]),
    ensures
        is_start(g, d, m),
{
    assert forall|u: int| 0 <= u < g.len() && u != m && #[trigger] same_scc(g, m, u) implies seq_lt(d[m], d[u]) by {
        lemma_reaches_trans(g, v, m, u);
        lemma_reaches_trans(g, u, m, v);
        assert(same_scc(g, v, u));
    }
    if m != v {
        assert(same_scc(g, m, v));
    }
}

proof fn lemma_cyclic_has_start(g: Seq<Seq<usize>>, d: Seq<Seq<char>>, v: int)
    requires
        d.len() == g.len(),
        distinct_names(d),
        0 <= v < g.len(),
        is_cyclic(g, v),
    ensures
        exists|s: int| 0 <= s < g.len() && #[trigger] is_start(g, d, s),
{
    lemma_reaches_self(g, v);
    let mem = |u: int| same_scc(g, v, u);
    assert(mem(v));
    let k = g.len() as int;
    lemma_min_member(d, mem, k);
    let m = choose|m: int| #![trigger d[m]] 0 <= m < k && mem(m) && forall|u: int|
        0 <= u < k && u != m && #[trigger] mem(u) ==> seq_lt(d[m], d[u]);
    assert forall|u: int| 0 <= u < g.len() && u != m && #[trigger] same_scc(g, v, u) implies seq_lt(d[m], d[u]) by {
        assert(mem(u));
    }
    lemma_start_of_min(g, d, v, m);
}

/// With distinct display names, cycles are reported exactly when some
/// package lies on a dependency cycle.
pub proof fn law_reports_iff_cycle(g: Seq<Seq<usize>>, d: Seq<Seq<char>>)
    requires
        d.len() == g.len(),
        distinct_names(d),
    ensures
        cycle_reports(g, d, g.len() as int).len() > 0 <==> exists|v: int| 0 <= v < g.len() && is_cyclic(g, v),
{
    lemma_reports_empty_iff(g, d, g.len() as int);
    if exists|v: int| 0 <= v < g.len() && is_cyclic(g, v) {
        let v = choose|v: int| 0 <= v < g.len() && is_cyclic(g, v);
        lemma_cyclic_has_start(g, d, v);
    }
}

} // verus!
