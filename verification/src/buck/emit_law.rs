//! The emitter's input is determined by its arguments: two results that
//! both meet the emitter's contract for the same arguments are the same.

use vstd::prelude::*;

use crate::buck::emit::{
    cell_raw_deps, config_names, dep_cell, deps_ok, emitted, fields_ok, files_view, first_fixup, first_name,
    first_post_error, formats_deps, has_pair, last_deps, lemma_has_pair_last, lemma_pair_lt_irreflexive,
    lemma_pair_lt_total, lemma_pair_lt_transitive, list_at, lists_pair, lock_ok, names_view, outcomes, packages_ok,
    pair_lt, post_error, seq_le, sources_of, wheel_at, EmitDeps, EmitError, EmitErrorModel, EmitInput, EmitPackage,
    EmitRecord, OverlayFiles,
};
use crate::config::{Config, Tree};
use crate::error::{lockfile_error_message, nested_view, LockfileError};
use crate::lock::graph::{build_error, edge_before, first_unresolved, is_dup_name, lock_cycles, names_of, unresolved_at};
use crate::lock::resolved::ResolvedView;
use crate::lock::types::{Lockfile, Package};
use crate::sdist::manifest::Manifest;
use crate::wheel::compat::CompatibleTags;
use vstd::relations::{antisymmetric, reflexive, sorted_by, strongly_connected, total_ordering, transitive};
use crate::lock::cycles::{nested, lemma_strs_lt_irreflexive, lemma_strs_lt_total, lemma_strs_lt_transitive, strs_le};
use crate::fixup::layer::{map_get, opt_strs, ResolvedFixup};
use crate::strmap::{lemma_unique_key, lookup, StrMap};
use crate::text::{lemma_seq_lt_asymmetric, lemma_seq_lt_irreflexive, lemma_seq_lt_total, lemma_seq_lt_transitive, seq_lt, strings_view};

verus! {

/// Two sequences, each strictly increasing under the strict total order
/// `lt`, with the same elements, are the same sequence.
pub proof fn lemma_strictly_sorted_unique<A>(x: Seq<A>, y: Seq<A>, lt: spec_fn(A, A) -> bool)
    requires
        forall|a: A| !#[trigger] lt(a, a),
        forall|a: A, b: A, c: A| #[trigger] lt(a, b) && #[trigger] lt(b, c) ==> lt(a, c),
        forall|a: A, b: A| a != b ==> #[trigger] lt(a, b) || lt(b, a),
        forall|i: int, j: int| 0 <= i < j < x.len() ==> lt(#[trigger] x[i], #[trigger] x[j]),
        forall|i: int, j: int| 0 <= i < j < y.len() ==> lt(#[trigger] y[i], #[trigger] y[j]),
        forall|e: A| x.contains(e) <==> y.contains(e),
    ensures
        x == y,
    decreases x.len(),
{
    if x.len() == 0 {
        if y.len() > 0 {
            assert(y.contains(y[0]));
        }
        assert(x =~= y);
    } else {
        assert(x.contains(x[0]));
        assert(y.contains(x[0]));
        let j = choose|j: int| 0 <= j < y.len() && y[j] == x[0];
        assert(y.contains(y[0]));
        let i = choose|i: int| 0 <= i < x.len() && x[i] == y[0];
        if j > 0 {
            assert(lt(y[0], y[j]));
            if i > 0 {
                assert(lt(x[0], x[i]));
                assert(lt(x[0], x[0]));
            } else {
                assert(lt(x[0], x[0]));
            }
        }
        assert(y[0] == x[0]);
        let xt = x.drop_first();
        let yt = y.drop_first();
        assert forall|e: A| xt.contains(e) <==> yt.contains(e) by {
            if xt.contains(e) {
                let a = choose|a: int| 0 <= a < xt.len() && xt[a] == e;
                assert(x[a + 1] == e);
                assert(lt(x[0], x[a + 1]));
                assert(x.contains(e));
                let b = choose|b: int| 0 <= b < y.len() && y[b] == e;
                if b == 0 {
                    assert(lt(e, e));
                }
                assert(yt[b - 1] == e);
            }
            if yt.contains(e) {
                let a = choose|a: int| 0 <= a < yt.len() && yt[a] == e;
                assert(y[a + 1] == e);
                assert(lt(y[0], y[a + 1]));
                assert(y.contains(e));
                let b = choose|b: int| 0 <= b < x.len() && x[b] == e;
                if b == 0 {
                    assert(lt(e, e));
                }
                assert(xt[b - 1] == e);
            }
        }
        assert forall|p: int, q: int| 0 <= p < q < xt.len() implies lt(#[trigger] xt[p], #[trigger] xt[q]) by {
            assert(xt[p] == x[p + 1] && xt[q] == x[q + 1]);
        }
        assert forall|p: int, q: int| 0 <= p < q < yt.len() implies lt(#[trigger] yt[p], #[trigger] yt[q]) by {
            assert(yt[p] == y[p + 1] && yt[q] == y[q + 1]);
        }
        lemma_strictly_sorted_unique(xt, yt, lt);
        assert(x =~= seq![x[0]] + xt);
        assert(y =~= seq![y[0]] + yt);
    }
}

/// `seq_lt` is a strict total order.
pub proof fn lemma_seq_lt_order()
    ensures
        forall|a: Seq<char>| !#[trigger] seq_lt(a, a),
        forall|a: Seq<char>, b: Seq<char>, c: Seq<char>| #[trigger] seq_lt(a, b) && #[trigger] seq_lt(b, c) ==> seq_lt(a, c),
        forall|a: Seq<char>, b: Seq<char>| a != b ==> #[trigger] seq_lt(a, b) || seq_lt(b, a),
{
    assert forall|a: Seq<char>| !#[trigger] seq_lt(a, a) by {
        lemma_seq_lt_irreflexive(a);
    }
    assert forall|a: Seq<char>, b: Seq<char>, c: Seq<char>| #[trigger] seq_lt(a, b) && #[trigger] seq_lt(b, c) implies seq_lt(a, c) by {
        lemma_seq_lt_transitive(a, b, c);
    }
    assert forall|a: Seq<char>, b: Seq<char>| a != b implies #[trigger] seq_lt(a, b) || seq_lt(b, a) by {
        lemma_seq_lt_total(a, b);
    }
}

/// Two formatted dep lists of the same raw deps are the same list.
pub proof fn lemma_formats_unique(raw: Seq<Seq<char>>, r1: Seq<Seq<char>>, r2: Seq<Seq<char>>)
    requires
        formats_deps(raw, r1),
        formats_deps(raw, r2),
    ensures
        r1 == r2,
{
    lemma_seq_lt_order();
    let lt = |a: Seq<char>, b: Seq<char>| seq_lt(a, b);
    assert forall|i: int, j: int| 0 <= i < j < r1.len() implies lt(#[trigger] r1[i], #[trigger] r1[j]) by {}
    assert forall|i: int, j: int| 0 <= i < j < r2.len() implies lt(#[trigger] r2[i], #[trigger] r2[j]) by {}
    lemma_strictly_sorted_unique(r1, r2, lt);
}


/// Two dep lists say the same: one list each with the same names, or a list
/// per cell each with the same lists under the same cells.
pub open spec fn same_deps(d1: EmitDeps, d2: EmitDeps) -> bool {
    match (d1, d2) {
        (EmitDeps::Uniform(u1), EmitDeps::Uniform(u2)) => strings_view(u1@) == strings_view(u2@),
        (EmitDeps::PerCell(m1), EmitDeps::PerCell(m2)) => forall|k: Seq<char>| #[trigger] list_at(m1, k) == list_at(m2, k),
        _ => false,
    }
}

proof fn lemma_per_cell_entry(m: StrMap<Vec<String>>, i: int)
    requires
        m.wf(),
        0 <= i < m.pairs().len(),
    ensures
        lookup(m.pairs(), m.pairs()[i].0@) == Some(m.pairs()[i].1),
{
    m.lemma_sorted();
    lemma_unique_key(m.pairs(), i);
}

proof fn lemma_uniform_not_per_cell(
    u: Vec<String>,
    m: StrMap<Vec<String>>,
    rs: Seq<EmitRecord>,
    n: Seq<char>,
    v: Seq<char>,
    cells: Seq<Seq<char>>,
)
    ensures
        !(deps_ok(EmitDeps::Uniform(u), rs, n, v, cells) && deps_ok(EmitDeps::PerCell(m), rs, n, v, cells)),
{
    if deps_ok(EmitDeps::Uniform(u), rs, n, v, cells) && deps_ok(EmitDeps::PerCell(m), rs, n, v, cells) {
        let (i, j) = choose|i: int, j: int|
            0 <= i < m.pairs().len() && 0 <= j < m.pairs().len() && strings_view(#[trigger] m.pairs()[i].1@)
                != strings_view(#[trigger] m.pairs()[j].1@);
        lemma_per_cell_entry(m, i);
        lemma_per_cell_entry(m, j);
        let ki = m.pairs()[i].0@;
        let kj = m.pairs()[j].0@;
        assert(lookup(m.pairs(), ki) is Some);
        assert(lookup(m.pairs(), kj) is Some);
        assert(dep_cell(rs, n, v, cells, ki));
        assert(dep_cell(rs, n, v, cells, kj));
        lemma_formats_unique(cell_raw_deps(rs, n, v, ki), strings_view(u@), strings_view(m.pairs()[i].1@));
        lemma_formats_unique(cell_raw_deps(rs, n, v, kj), strings_view(u@), strings_view(m.pairs()[j].1@));
    }
}

/// Dep lists that both meet the contract for the same records say the same.
pub proof fn lemma_deps_unique(
    d1: EmitDeps,
    d2: EmitDeps,
    rs: Seq<EmitRecord>,
    n: Seq<char>,
    v: Seq<char>,
    cells: Seq<Seq<char>>,
)
    requires
        has_pair(rs, n, v),
        deps_ok(d1, rs, n, v, cells),
        deps_ok(d2, rs, n, v, cells),
    ensures
        same_deps(d1, d2),
{
    lemma_has_pair_last(rs, n, v);
    let k0 = choose|k: Seq<char>| #[trigger] last_deps(rs, n, v, k) is Some;
    match (d1, d2) {
        (EmitDeps::Uniform(u1), EmitDeps::Uniform(u2)) => {
            assert(dep_cell(rs, n, v, cells, k0));
            lemma_formats_unique(cell_raw_deps(rs, n, v, k0), strings_view(u1@), strings_view(u2@));
        },
        (EmitDeps::PerCell(m1), EmitDeps::PerCell(m2)) => {
            assert forall|k: Seq<char>| #[trigger] list_at(m1, k) == list_at(m2, k) by {
                if dep_cell(rs, n, v, cells, k) {
                    assert(lookup(m1.pairs(), k) is Some);
                    assert(lookup(m2.pairs(), k) is Some);
                    lemma_formats_unique(
                        cell_raw_deps(rs, n, v, k),
                        strings_view(lookup(m1.pairs(), k)->0@),
                        strings_view(lookup(m2.pairs(), k)->0@),
                    );
                } else {
                    assert(lookup(m1.pairs(), k) is None);
                    assert(lookup(m2.pairs(), k) is None);
                }
            }
        },
        (EmitDeps::Uniform(u), EmitDeps::PerCell(m)) => {
            lemma_uniform_not_per_cell(u, m, rs, n, v, cells);
        },
        (EmitDeps::PerCell(m), EmitDeps::Uniform(u)) => {
            lemma_uniform_not_per_cell(u, m, rs, n, v, cells);
        },
    }
}


/// Two emitted packages say the same.
pub open spec fn same_package(p: EmitPackage, q: EmitPackage) -> bool {
    &&& p.name@ == q.name@
    &&& p.version@ == q.version@
    &&& same_deps(p.deps, q.deps)
    &&& forall|k: Seq<char>| #[trigger] wheel_at(p.wheels, k) == wheel_at(q.wheels, k)
    &&& strings_view(p.entry_points@) == strings_view(q.entry_points@)
    &&& opt_strs(p.visibility) == opt_strs(q.visibility)
    &&& strings_view(p.labels@) == strings_view(q.labels@)
    &&& forall|k: Seq<char>| #[trigger] map_get(p.runtime_env, k) == map_get(q.runtime_env, k)
    &&& match (p.overlay, q.overlay) {
        (Some(a), Some(b)) => files_view(a.files@) == files_view(b.files@),
        (None, None) => true,
        _ => false,
    }
}

/// The (name, version) of each package.
pub open spec fn package_keys(ps: Seq<EmitPackage>) -> Seq<(Seq<char>, Seq<char>)> {
    ps.map_values(|p: EmitPackage| (p.name@, p.version@))
}

proof fn lemma_pair_order()
    ensures
        ({
            let lt = |x: (Seq<char>, Seq<char>), y: (Seq<char>, Seq<char>)| pair_lt(x.0, x.1, y.0, y.1);
            &&& forall|a: (Seq<char>, Seq<char>)| !#[trigger] lt(a, a)
            &&& forall|a: (Seq<char>, Seq<char>), b: (Seq<char>, Seq<char>), c: (Seq<char>, Seq<char>)|
                #[trigger] lt(a, b) && #[trigger] lt(b, c) ==> lt(a, c)
            &&& forall|a: (Seq<char>, Seq<char>), b: (Seq<char>, Seq<char>)| a != b ==> #[trigger] lt(a, b) || lt(b, a)
        }),
{
    let lt = |x: (Seq<char>, Seq<char>), y: (Seq<char>, Seq<char>)| pair_lt(x.0, x.1, y.0, y.1);
    assert forall|a: (Seq<char>, Seq<char>)| !#[trigger] lt(a, a) by {
        lemma_pair_lt_irreflexive(a.0, a.1);
    }
    assert forall|a: (Seq<char>, Seq<char>), b: (Seq<char>, Seq<char>), c: (Seq<char>, Seq<char>)|
        #[trigger] lt(a, b) && #[trigger] lt(b, c) implies lt(a, c) by {
        lemma_pair_lt_transitive(a.0, a.1, b.0, b.1, c.0, c.1);
    }
    assert forall|a: (Seq<char>, Seq<char>), b: (Seq<char>, Seq<char>)| a != b implies #[trigger] lt(a, b) || lt(b, a) by {
        lemma_pair_lt_total(a.0, a.1, b.0, b.1);
    }
}

/// Two package lists that both meet the contract for the same records say
/// the same, package by package.
pub proof fn lemma_packages_unique(
    ps1: Seq<EmitPackage>,
    ps2: Seq<EmitPackage>,
    rs: Seq<EmitRecord>,
    cells: Seq<Seq<char>>,
    f: StrMap<StrMap<ResolvedFixup>>,
    first: Option<Seq<char>>,
    overlays: StrMap<OverlayFiles>,
)
    requires
        packages_ok(ps1, rs, cells, f, first, overlays),
        packages_ok(ps2, rs, cells, f, first, overlays),
    ensures
        ps1.len() == ps2.len(),
        forall|a: int| 0 <= a < ps1.len() ==> same_package(#[trigger] ps1[a], ps2[a]),
{
    let k1 = package_keys(ps1);
    let k2 = package_keys(ps2);
    let lt = |x: (Seq<char>, Seq<char>), y: (Seq<char>, Seq<char>)| pair_lt(x.0, x.1, y.0, y.1);
    lemma_pair_order();
    assert forall|i: int, j: int| 0 <= i < j < k1.len() implies lt(#[trigger] k1[i], #[trigger] k1[j]) by {
        assert(pair_lt(ps1[i].name@, ps1[i].version@, ps1[j].name@, ps1[j].version@));
    }
    assert forall|i: int, j: int| 0 <= i < j < k2.len() implies lt(#[trigger] k2[i], #[trigger] k2[j]) by {
        assert(pair_lt(ps2[i].name@, ps2[i].version@, ps2[j].name@, ps2[j].version@));
    }
    assert forall|e: (Seq<char>, Seq<char>)| k1.contains(e) <==> k2.contains(e) by {
        if k1.contains(e) {
            let a = choose|a: int| 0 <= a < k1.len() && k1[a] == e;
            assert(has_pair(rs, ps1[a].name@, ps1[a].version@));
            let i = choose|i: int| 0 <= i < rs.len() && #[trigger] rs[i].name == e.0 && rs[i].version == e.1;
            assert(lists_pair(ps2, rs[i].name, rs[i].version));
            let b = choose|b: int| 0 <= b < ps2.len() && #[trigger] ps2[b].name@ == e.0 && ps2[b].version@ == e.1;
            assert(k2[b] == e);
        }
        if k2.contains(e) {
            let a = choose|a: int| 0 <= a < k2.len() && k2[a] == e;
            assert(has_pair(rs, ps2[a].name@, ps2[a].version@));
            let i = choose|i: int| 0 <= i < rs.len() && #[trigger] rs[i].name == e.0 && rs[i].version == e.1;
            assert(lists_pair(ps1, rs[i].name, rs[i].version));
            let b = choose|b: int| 0 <= b < ps1.len() && #[trigger] ps1[b].name@ == e.0 && ps1[b].version@ == e.1;
            assert(k1[b] == e);
        }
    }
    lemma_strictly_sorted_unique(k1, k2, lt);
    assert forall|a: int| 0 <= a < ps1.len() implies same_package(#[trigger] ps1[a], ps2[a]) by {
        assert(k1[a] == k2[a]);
        let p = ps1[a];
        let q = ps2[a];
        assert(has_pair(rs, p.name@, p.version@));
        assert(deps_ok(p.deps, rs, p.name@, p.version@, cells));
        assert(deps_ok(q.deps, rs, q.name@, q.version@, cells));
        lemma_deps_unique(p.deps, q.deps, rs, p.name@, p.version@, cells);
        assert forall|k: Seq<char>| #[trigger] wheel_at(p.wheels, k) == wheel_at(q.wheels, k) by {
            assert(wheel_at(ps1[a].wheels, k) == crate::buck::emit::last_wheel(rs, p.name@, p.version@, k));
            assert(wheel_at(ps2[a].wheels, k) == crate::buck::emit::last_wheel(rs, q.name@, q.version@, k));
        }
        assert(fields_ok(p, first_fixup(f, p.name@, first), overlays));
        assert(fields_ok(q, first_fixup(f, q.name@, first), overlays));
        assert forall|k: Seq<char>| #[trigger] map_get(p.runtime_env, k) == map_get(q.runtime_env, k) by {}
    }
}


proof fn lemma_seq_le_order()
    ensures
        total_ordering(|a: Seq<char>, b: Seq<char>| seq_le(a, b)),
{
    let leq = |a: Seq<char>, b: Seq<char>| seq_le(a, b);
    lemma_seq_lt_order();
    assert forall|a: Seq<char>, b: Seq<char>| #[trigger] leq(a, b) && #[trigger] leq(b, a) implies a == b by {
        lemma_seq_lt_asymmetric(a, b);
    }
    assert forall|a: Seq<char>, b: Seq<char>, c: Seq<char>| #[trigger] leq(a, b) && #[trigger] leq(b, c) implies leq(a, c) by {
        lemma_seq_lt_transitive(a, b, c);
    }
    assert forall|a: Seq<char>, b: Seq<char>| #[trigger] leq(a, b) || #[trigger] leq(b, a) by {
        lemma_seq_lt_total(a, b);
    }
    assert(reflexive(leq));
    assert(antisymmetric(leq));
    assert(transitive(leq));
    assert(strongly_connected(leq));
}

proof fn lemma_strs_le_order()
    ensures
        total_ordering(|a: Seq<Seq<char>>, b: Seq<Seq<char>>| strs_le(a, b)),
{
    let leq = |a: Seq<Seq<char>>, b: Seq<Seq<char>>| strs_le(a, b);
    assert forall|a: Seq<Seq<char>>| #[trigger] leq(a, a) by {
        lemma_strs_lt_irreflexive(a);
    }
    assert forall|a: Seq<Seq<char>>, b: Seq<Seq<char>>| #[trigger] leq(a, b) && #[trigger] leq(b, a) implies a == b by {
        lemma_strs_lt_total(a, b);
    }
    assert forall|a: Seq<Seq<char>>, b: Seq<Seq<char>>, c: Seq<Seq<char>>| #[trigger] leq(a, b) && #[trigger] leq(b, c)
        implies leq(a, c) by {
        lemma_strs_lt_total(a, b);
        lemma_strs_lt_total(b, c);
        lemma_strs_lt_transitive(a, b, c);
        lemma_strs_lt_transitive(c, a, b);
        lemma_strs_lt_transitive(b, c, a);
        lemma_strs_lt_irreflexive(a);
        lemma_strs_lt_irreflexive(b);
    }
    assert forall|a: Seq<Seq<char>>, b: Seq<Seq<char>>| #[trigger] leq(a, b) || #[trigger] leq(b, a) by {
        lemma_strs_lt_total(a, b);
        lemma_strs_lt_transitive(a, b, a);
        lemma_strs_lt_irreflexive(a);
    }
    assert(reflexive(leq));
    assert(antisymmetric(leq));
    assert(transitive(leq));
    assert(strongly_connected(leq));
}

/// A lockfile refused by its graph gives one message, whichever refusal
/// meets the contract.
proof fn lemma_build_error_unique(ps: Seq<Package>, e1: LockfileError, e2: LockfileError)
    requires
        build_error(ps, e1),
        build_error(ps, e2),
    ensures
        lockfile_error_message(e1) == lockfile_error_message(e2),
        !lock_ok(ps),
{
    let names = names_of(ps);
    if exists|n: Seq<char>| is_dup_name(names, n) {
    } else {
        let (i, k) = choose|i: int, k: int| #![trigger first_unresolved(ps, i, k)] first_unresolved(ps, i, k) && (e1 matches LockfileError::UnresolvedDep { from_pkg, dep }
            && from_pkg@ == ps[i].name@ && dep@ == ps[i].dependencies@[k].name@);
        let (i2, k2) = choose|i: int, k: int| #![trigger first_unresolved(ps, i, k)] first_unresolved(ps, i, k) && (e2 matches LockfileError::UnresolvedDep { from_pkg, dep }
            && from_pkg@ == ps[i].name@ && dep@ == ps[i].dependencies@[k].name@);
        if edge_before(i, k, i2, k2) {
            assert(!unresolved_at(ps, i, k));
        } else if edge_before(i2, k2, i, k) {
            assert(!unresolved_at(ps, i2, k2));
        }
        assert(i == i2 && k == k2);
    }
}

/// Two cycle reports of the same lockfile, each sorted and listing exactly
/// its cycles, give one message.
proof fn lemma_cycles_unique(ps: Seq<Package>, c1: Vec<Vec<String>>, c2: Vec<Vec<String>>)
    requires
        forall|a: int, b: int| 0 <= a < b < c1@.len() ==> strs_le(nested(c1@)[a], nested(c1@)[b]),
        forall|a: int, b: int| 0 <= a < b < c2@.len() ==> strs_le(nested(c2@)[a], nested(c2@)[b]),
        nested(c1@).to_multiset() == lock_cycles(ps).to_multiset(),
        nested(c2@).to_multiset() == lock_cycles(ps).to_multiset(),
    ensures
        lockfile_error_message(LockfileError::Cycle(c1)) == lockfile_error_message(LockfileError::Cycle(c2)),
{
    let leq = |a: Seq<Seq<char>>, b: Seq<Seq<char>>| strs_le(a, b);
    lemma_strs_le_order();
    let x = nested(c1@);
    let y = nested(c2@);
    assert(sorted_by(x, leq));
    assert(sorted_by(y, leq));
    vstd::seq_lib::lemma_sorted_unique(x, y, leq);
    assert(nested_view(c1@) == x);
    assert(nested_view(c2@) == y);
}

proof fn lemma_cycle_report_nonempty(ps: Seq<Package>, c: Vec<Vec<String>>)
    requires
        c@.len() > 0,
        nested(c@).to_multiset() == lock_cycles(ps).to_multiset(),
    ensures
        lock_cycles(ps).len() > 0,
{
    nested(c@).to_multiset_ensures();
    lock_cycles(ps).to_multiset_ensures();
    assert(nested(c@).len() > 0);
}

proof fn lemma_first_post_error_unique(
    rs: Seq<EmitRecord>,
    f: StrMap<StrMap<ResolvedFixup>>,
    first: Option<Seq<char>>,
    overlays: StrMap<OverlayFiles>,
    e1: EmitErrorModel,
    e2: EmitErrorModel,
)
    requires
        first_post_error(rs, f, first, overlays, e1),
        first_post_error(rs, f, first, overlays, e2),
    ensures
        e1 == e2,
{
    let i = choose|i: int|
        0 <= i < rs.len() && post_error(#[trigger] rs[i].name, first_fixup(f, rs[i].name, first), overlays) == Some(e1)
            && forall|j: int|
            0 <= j < rs.len() && pair_lt(rs[j].name, rs[j].version, rs[i].name, rs[i].version) ==> post_error(
                #[trigger] rs[j].name,
                first_fixup(f, rs[j].name, first),
                overlays,
            ) is None;
    let i2 = choose|i: int|
        0 <= i < rs.len() && post_error(#[trigger] rs[i].name, first_fixup(f, rs[i].name, first), overlays) == Some(e2)
            && forall|j: int|
            0 <= j < rs.len() && pair_lt(rs[j].name, rs[j].version, rs[i].name, rs[i].version) ==> post_error(
                #[trigger] rs[j].name,
                first_fixup(f, rs[j].name, first),
                overlays,
            ) is None;
    if rs[i].name != rs[i2].name {
        lemma_seq_lt_total(rs[i].name, rs[i2].name);
        if seq_lt(rs[i].name, rs[i2].name) {
            assert(pair_lt(rs[i].name, rs[i].version, rs[i2].name, rs[i2].version));
        } else {
            assert(pair_lt(rs[i2].name, rs[i2].version, rs[i].name, rs[i].version));
        }
    }
}

proof fn lemma_ok_not_err(
    config: Config,
    tree: Tree,
    lockfile: Lockfile,
    view: ResolvedView,
    compat: Seq<CompatibleTags>,
    manifest: Option<Manifest>,
    fixups: StrMap<StrMap<ResolvedFixup>>,
    overlays: StrMap<OverlayFiles>,
    a: EmitInput,
    e: EmitError,
)
    ensures
        !(emitted(config, tree, lockfile, view, compat, manifest, fixups, overlays, Ok(a)) && emitted(
            config,
            tree,
            lockfile,
            view,
            compat,
            manifest,
            fixups,
            overlays,
            Err(e),
        )),
{
    if emitted(config, tree, lockfile, view, compat, manifest, fixups, overlays, Ok(a)) && emitted(
        config,
        tree,
        lockfile,
        view,
        compat,
        manifest,
        fixups,
        overlays,
        Err(e),
    ) {
        let ps = lockfile.packages@;
        let src = sources_of(config, view, compat, lockfile, manifest, fixups);
        let first = first_name(config_names(config.platforms.pairs(), tree.python_versions@));
        let n = view.configs@.len() as int;
        match e {
            EmitError::Lockfile(le) => {
                if build_error(ps, le) {
                    lemma_build_error_unique(ps, le, le);
                } else {
                    let c = le->Cycle_0;
                    lemma_cycle_report_nonempty(ps, c);
                }
            },
            _ => {
                let rs = outcomes(src, n)->Ok_0;
                assert(packages_ok(a.packages@, rs, names_view(a.configs@), fixups, first, overlays));
                assert(first_post_error(rs, fixups, first, overlays, e@));
                let i = choose|i: int|
                    0 <= i < rs.len() && post_error(#[trigger] rs[i].name, first_fixup(fixups, rs[i].name, first), overlays)
                        == Some(e@) && forall|j: int|
                        0 <= j < rs.len() && pair_lt(rs[j].name, rs[j].version, rs[i].name, rs[i].version) ==> post_error(
                            #[trigger] rs[j].name,
                            first_fixup(fixups, rs[j].name, first),
                            overlays,
                        ) is None;
                assert(post_error(rs[i].name, first_fixup(fixups, rs[i].name, first), overlays) is None);
            },
        }
    }
}

proof fn lemma_errors_unique(
    config: Config,
    tree: Tree,
    lockfile: Lockfile,
    view: ResolvedView,
    compat: Seq<CompatibleTags>,
    manifest: Option<Manifest>,
    fixups: StrMap<StrMap<ResolvedFixup>>,
    overlays: StrMap<OverlayFiles>,
    e1: EmitError,
    e2: EmitError,
)
    requires
        emitted(config, tree, lockfile, view, compat, manifest, fixups, overlays, Err(e1)),
        emitted(config, tree, lockfile, view, compat, manifest, fixups, overlays, Err(e2)),
    ensures
        e1@ == e2@,
{
    let ps = lockfile.packages@;
    let src = sources_of(config, view, compat, lockfile, manifest, fixups);
    let first = first_name(config_names(config.platforms.pairs(), tree.python_versions@));
    let n = view.configs@.len() as int;
    match (e1, e2) {
        (EmitError::Lockfile(l1), EmitError::Lockfile(l2)) => {
            if build_error(ps, l1) && build_error(ps, l2) {
                lemma_build_error_unique(ps, l1, l2);
            } else if build_error(ps, l1) {
                lemma_build_error_unique(ps, l1, l1);
            } else if build_error(ps, l2) {
                lemma_build_error_unique(ps, l2, l2);
            } else {
                lemma_cycles_unique(ps, l1->Cycle_0, l2->Cycle_0);
            }
        },
        (EmitError::Lockfile(l1), _) => {
            if build_error(ps, l1) {
                lemma_build_error_unique(ps, l1, l1);
            } else {
                lemma_cycle_report_nonempty(ps, l1->Cycle_0);
            }
        },
        (_, EmitError::Lockfile(l2)) => {
            if build_error(ps, l2) {
                lemma_build_error_unique(ps, l2, l2);
            } else {
                lemma_cycle_report_nonempty(ps, l2->Cycle_0);
            }
        },
        _ => {
            if outcomes(src, n) is Ok {
                let rs = outcomes(src, n)->Ok_0;
                lemma_first_post_error_unique(rs, fixups, first, overlays, e1@, e2@);
            }
        },
    }
}

/// Two inputs the emitter might give say the same.
pub open spec fn same_input(a: EmitInput, b: EmitInput) -> bool {
    &&& a.tree@ == b.tree@
    &&& a.third_party_dir@ == b.third_party_dir@
    &&& names_view(a.configs@) == names_view(b.configs@)
    &&& a.packages@.len() == b.packages@.len()
    &&& forall|i: int| 0 <= i < a.packages@.len() ==> same_package(#[trigger] a.packages@[i], b.packages@[i])
}

/// The emitter is deterministic: for the same arguments, two results that
/// both meet its contract say the same (the same input, or errors with the
/// same content).
pub proof fn law_emit_deterministic(
    config: Config,
    tree: Tree,
    lockfile: Lockfile,
    view: ResolvedView,
    compat: Seq<CompatibleTags>,
    manifest: Option<Manifest>,
    fixups: StrMap<StrMap<ResolvedFixup>>,
    overlays: StrMap<OverlayFiles>,
    r1: Result<EmitInput, EmitError>,
    r2: Result<EmitInput, EmitError>,
)
    requires
        emitted(config, tree, lockfile, view, compat, manifest, fixups, overlays, r1),
        emitted(config, tree, lockfile, view, compat, manifest, fixups, overlays, r2),
    ensures
        match (r1, r2) {
            (Ok(a), Ok(b)) => same_input(a, b),
            (Err(a), Err(b)) => a@ == b@,
            _ => false,
        },
{
    let ps = lockfile.packages@;
    let src = sources_of(config, view, compat, lockfile, manifest, fixups);
    let first = first_name(config_names(config.platforms.pairs(), tree.python_versions@));
    let n = view.configs@.len() as int;
    lock_cycles(ps).to_multiset_ensures();
    match (r1, r2) {
        (Ok(a), Ok(b)) => {
            let rs = outcomes(src, n)->Ok_0;
            let leq = |x: Seq<char>, y: Seq<char>| seq_le(x, y);
            lemma_seq_le_order();
            assert(sorted_by(names_view(a.configs@), leq));
            assert(sorted_by(names_view(b.configs@), leq));
            vstd::seq_lib::lemma_sorted_unique(names_view(a.configs@), names_view(b.configs@), leq);
            lemma_packages_unique(a.packages@, b.packages@, rs, names_view(a.configs@), fixups, first, overlays);
        },
        (Ok(a), Err(e)) => {
            lemma_ok_not_err(config, tree, lockfile, view, compat, manifest, fixups, overlays, a, e);
        },
        (Err(e), Ok(a)) => {
            lemma_ok_not_err(config, tree, lockfile, view, compat, manifest, fixups, overlays, a, e);
        },
        (Err(e1), Err(e2)) => {
            lemma_errors_unique(config, tree, lockfile, view, compat, manifest, fixups, overlays, e1, e2);
        },
    }
}

} // verus!
