//! The wheel chosen for each (package, version, platform, python version)
//! cell of a tree, as the `debug pick-wheels` report lists it.

use vstd::prelude::*;

use crate::cli::PickWheelsArgs;
use crate::lock::resolved::{ResolvedConfig, ResolvedView};
use crate::lock::types::{Lockfile, Package, Wheel};
use crate::text::{lemma_seq_lt_asymmetric, lemma_seq_lt_transitive, seq_lt, str_eq, string_lt, strings_view};
use crate::wheel::compat::CompatibleTags;
use crate::wheel::select::{is_pick, pick_wheel, ranked, wheel_tags, wheels_model, PickResult};
use crate::wheel::tag::{render_tag, tag_text, TagModel};

verus! {

/// The wheel a cell picked.
#[derive(Debug, Clone)]
pub struct WheelOutput {
    pub filename: String,
    pub url: String,
    pub hash: String,
}

/// What the pick gave for one cell.
#[derive(Debug, Clone)]
pub enum SelectionOutcome {
    Picked { wheel: WheelOutput, matched_tag: String, rank: usize, wheels_considered: usize },
    NoWheel { wheels_considered: usize, wheels: Vec<String> },
}

/// One (package, version, platform, python version) cell and its pick.
#[derive(Debug, Clone)]
pub struct Selection {
    pub package: String,
    pub version: String,
    pub platform: String,
    pub python_version: String,
    pub outcome: SelectionOutcome,
}

/// The report for one tree.
#[derive(Debug)]
pub struct Output {
    pub schema_version: u32,
    pub tree: String,
    pub selections: Vec<Selection>,
}

/// An optional filter lets `s` through.
pub open spec fn filter_ok(f: Option<String>, s: Seq<char>) -> bool {
    match f {
        Some(x) => x@ == s,
        None => true,
    }
}

pub open spec fn same_release(p: Package, n: Seq<char>, v: Seq<char>) -> bool {
    p.name@ == n && p.version@ == v
}

/// `j` is the last lockfile entry with name `n` and version `v`.
pub open spec fn last_release(ps: Seq<Package>, n: Seq<char>, v: Seq<char>, j: int) -> bool {
    &&& 0 <= j < ps.len()
    &&& same_release(ps[j], n, v)
    &&& forall|j2: int| j < j2 < ps.len() ==> !#[trigger] same_release(ps[j2], n, v)
}

/// `ws` are the wheels the lockfile lists for release `n`/`v` (its last
/// entry under that name and version).
pub open spec fn release_wheels(ps: Seq<Package>, n: Seq<char>, v: Seq<char>, ws: Seq<Wheel>) -> bool {
    exists|j: int| #[trigger] last_release(ps, n, v, j) && ps[j].wheels@ == ws
}

/// Package `pi` of cell `ci` passes the filters and has wheels to pick from.
pub open spec fn chosen(args: PickWheelsArgs, view: Seq<ResolvedConfig>, ps: Seq<Package>, ci: int, pi: int) -> bool {
    &&& 0 <= ci < view.len()
    &&& 0 <= pi < view[ci].packages@.len()
    &&& filter_ok(args.platform, view[ci].platform@)
    &&& filter_ok(args.python, view[ci].python_version@)
    &&& filter_ok(args.package, view[ci].packages@[pi].name@)
    &&& exists|ws: Seq<Wheel>|
        #[trigger] release_wheels(ps, view[ci].packages@[pi].name@, view[ci].packages@[pi].version@, ws) && ws.len() > 0
}

/// The chosen packages among the first `m` of cell `ci`, in order.
pub open spec fn chosen_in(args: PickWheelsArgs, view: Seq<ResolvedConfig>, ps: Seq<Package>, ci: int, m: int) -> Seq<(int, int)>
    decreases m,
{
    if m <= 0 {
        Seq::empty()
    } else if chosen(args, view, ps, ci, m - 1) {
        chosen_in(args, view, ps, ci, m - 1).push((ci, m - 1))
    } else {
        chosen_in(args, view, ps, ci, m - 1)
    }
}

/// The chosen (cell, package) pairs of the first `n` cells, in order.
pub open spec fn chosen_pairs(args: PickWheelsArgs, view: Seq<ResolvedConfig>, ps: Seq<Package>, n: int) -> Seq<(int, int)>
    decreases n,
{
    if n <= 0 {
        Seq::empty()
    } else {
        chosen_pairs(args, view, ps, n - 1) + chosen_in(args, view, ps, n - 1, view[n - 1].packages@.len() as int)
    }
}

/// `wheel` is the pick among `ws` with rank `rank`, matched by the tag
/// rendered as `matched_tag`.
pub open spec fn picked_ok(wheel: WheelOutput, matched_tag: Seq<char>, rank: int, ws: Seq<Wheel>, compat: Seq<TagModel>) -> bool {
    exists|p: int, k: int|
        #[trigger] is_pick(compat, wheels_model(ws), p, k, rank) && wheel.filename@ == ws[p].filename@
            && wheel.url@ == ws[p].url@ && wheel.hash@ == ws[p].hash@ && matched_tag == tag_text(
            wheel_tags(ws[p].filename@)[k],
        )
}

/// `o` is what picking among `ws` with the compatible tags `compat` gives.
pub open spec fn outcome_of(o: SelectionOutcome, ws: Seq<Wheel>, compat: Seq<TagModel>) -> bool {
    match o {
        SelectionOutcome::Picked { wheel, matched_tag, rank, wheels_considered } => {
            &&& wheels_considered == ws.len()
            &&& picked_ok(wheel, matched_tag@, rank as int, ws, compat)
        },
        SelectionOutcome::NoWheel { wheels_considered, wheels } => {
            &&& wheels_considered == ws.len()
            &&& strings_view(wheels@) == ws.map_values(|w: Wheel| w.filename@)
            &&& forall|q: int, k: int, r: int| !ranked(compat, wheels_model(ws), q, k, r)
        },
    }
}

/// `s` reports package `pi` of cell `ci`.
pub open spec fn selection_of(
    view: Seq<ResolvedConfig>,
    ps: Seq<Package>,
    compat: Seq<CompatibleTags>,
    ci: int,
    pi: int,
    s: Selection,
) -> bool {
    &&& s.package@ == view[ci].packages@[pi].name@
    &&& s.version@ == view[ci].packages@[pi].version@
    &&& s.platform@ == view[ci].platform@
    &&& s.python_version@ == view[ci].python_version@
    &&& exists|ws: Seq<Wheel>|
        #[trigger] release_wheels(ps, view[ci].packages@[pi].name@, view[ci].packages@[pi].version@, ws) && outcome_of(
            s.outcome,
            ws,
            compat[ci]@,
        )
}

/// The order of the report: package, version, platform, python version.
pub open spec fn sel_key(s: Selection) -> (Seq<char>, Seq<char>, Seq<char>, Seq<char>) {
    (s.package@, s.version@, s.platform@, s.python_version@)
}

pub open spec fn key_lt(a: (Seq<char>, Seq<char>, Seq<char>, Seq<char>), b: (Seq<char>, Seq<char>, Seq<char>, Seq<char>)) -> bool {
    ||| seq_lt(a.0, b.0)
    ||| a.0 == b.0 && seq_lt(a.1, b.1)
    ||| a.0 == b.0 && a.1 == b.1 && seq_lt(a.2, b.2)
    ||| a.0 == b.0 && a.1 == b.1 && a.2 == b.2 && seq_lt(a.3, b.3)
}

/// `r` reports each chosen pair once, in report order.
pub open spec fn selections_for(
    args: PickWheelsArgs,
    view: Seq<ResolvedConfig>,
    ps: Seq<Package>,
    compat: Seq<CompatibleTags>,
    r: Seq<Selection>,
) -> bool {
    &&& forall|a: int, b: int| 0 <= a < b < r.len() ==> !key_lt(sel_key(#[trigger] r[b]), sel_key(#[trigger] r[a]))
    &&& exists|src: Seq<(int, int)>|
        #![trigger src.to_multiset()]
        src.len() == r.len() && src.to_multiset() == chosen_pairs(args, view, ps, view.len() as int).to_multiset()
            && forall|q: int| 0 <= q < r.len() ==> selection_of(view, ps, compat, src[q].0, src[q].1, #[trigger] r[q])
}

proof fn lemma_key_lt(
    a: (Seq<char>, Seq<char>, Seq<char>, Seq<char>),
    b: (Seq<char>, Seq<char>, Seq<char>, Seq<char>),
    c: (Seq<char>, Seq<char>, Seq<char>, Seq<char>),
)
    ensures
        key_lt(a, b) && key_lt(b, c) ==> key_lt(a, c),
        !(key_lt(a, b) && key_lt(b, a)),
{
    lemma_seq_lt_transitive(a.0, b.0, c.0);
    lemma_seq_lt_transitive(a.1, b.1, c.1);
    lemma_seq_lt_transitive(a.2, b.2, c.2);
    lemma_seq_lt_transitive(a.3, b.3, c.3);
    lemma_seq_lt_asymmetric(a.0, b.0);
    lemma_seq_lt_asymmetric(a.1, b.1);
    lemma_seq_lt_asymmetric(a.2, b.2);
    lemma_seq_lt_asymmetric(a.3, b.3);
}

proof fn lemma_last_release_unique(ps: Seq<Package>, n: Seq<char>, v: Seq<char>, j: int, j2: int)
    requires
        last_release(ps, n, v, j),
        last_release(ps, n, v, j2),
    ensures
        j == j2,
{
    if j < j2 {
        assert(same_release(ps[j2], n, v));
    } else if j2 < j {
        assert(same_release(ps[j], n, v));
    }
}

/// The last lockfile entry with name `n` and version `v`.
fn last_release_of(ps: &Vec<Package>, n: &str, v: &str) -> (r: Option<usize>)
    ensures
        match r {
            Some(j) => last_release(ps@, n@, v@, j as int),
            None => forall|j: int| 0 <= j < ps@.len() ==> !#[trigger] same_release(ps@[j], n@, v@),
        },
{
    let mut i: usize = ps.len();
    while i > 0
        invariant
            i <= ps@.len(),
            forall|j: int| i <= j < ps@.len() ==> !#[trigger] same_release(ps@[j], n@, v@),
        decreases i,
    {
        i -= 1;
        if str_eq(ps[i].name.as_str(), n) && str_eq(ps[i].version.as_str(), v) {
            return Some(i);
        }
    }
    None
}

/// Inserts `s` after every selection whose key is not above its own.
fn insert_selection(out: &mut Vec<Selection>, s: Selection) -> (pos: usize)
    requires
        forall|a: int, b: int| 0 <= a < b < old(out)@.len() ==> !key_lt(sel_key(#[trigger] old(out)@[b]), sel_key(#[trigger] old(out)@[a])),
    ensures
        pos <= old(out)@.len(),
        final(out)@ == old(out)@.insert(pos as int, s),
        forall|a: int, b: int| 0 <= a < b < final(out)@.len() ==> !key_lt(sel_key(#[trigger] final(out)@[b]), sel_key(#[trigger] final(out)@[a])),
{
    let ghost o = out@;
    let ghost ks = sel_key(s);
    let mut i: usize = 0;
    while i < out.len()
        invariant
            i <= out@.len(),
            o == out@,
            ks == sel_key(s),
            forall|a: int| 0 <= a < i ==> !key_lt(ks, sel_key(#[trigger] o[a])),
        ensures
            i <= out@.len(),
            o == out@,
            forall|a: int| 0 <= a < i ==> !key_lt(ks, sel_key(#[trigger] o[a])),
            i < out@.len() ==> key_lt(ks, sel_key(o[i as int])),
        decreases out@.len() - i,
    {
        let x = &out[i];
        let above = string_lt(&s.package, &x.package) || (str_eq(s.package.as_str(), x.package.as_str()) && (
        string_lt(&s.version, &x.version) || (str_eq(s.version.as_str(), x.version.as_str()) && (string_lt(
            &s.platform,
            &x.platform,
        ) || (str_eq(s.platform.as_str(), x.platform.as_str()) && string_lt(&s.python_version, &x.python_version))))));
        if above {
            break;
        }
        i += 1;
    }
    out.insert(i, s);
    proof {
        let n = out@;
        assert forall|a: int, b: int| 0 <= a < b < n.len() implies !key_lt(sel_key(#[trigger] n[b]), sel_key(#[trigger] n[a])) by {
            if b < i {
                assert(n[a] == o[a] && n[b] == o[b]);
            } else if b == i {
                assert(n[a] == o[a]);
            } else if a < i {
                assert(n[a] == o[a] && n[b] == o[b - 1]);
                if b - 1 > a {
                    assert(!key_lt(sel_key(o[b - 1]), sel_key(o[a])));
                }
            } else if a == i {
                assert(n[b] == o[b - 1]);
                lemma_key_lt(sel_key(o[b - 1]), ks, sel_key(o[i as int]));
                if b - 1 > i {
                    assert(!key_lt(sel_key(o[b - 1]), sel_key(o[i as int])));
                }
            } else {
                assert(n[a] == o[a - 1] && n[b] == o[b - 1]);
            }
        }
    }
    i
}

/// The filenames of `ws`, in order.
fn filenames(ws: &Vec<Wheel>) -> (r: Vec<String>)
    ensures
        strings_view(r@) == ws@.map_values(|w: Wheel| w.filename@),
{
    let mut out: Vec<String> = Vec::new();
    let mut i: usize = 0;
    while i < ws.len()
        invariant
            i <= ws@.len(),
            strings_view(out@) == ws@.subrange(0, i as int).map_values(|w: Wheel| w.filename@),
        decreases ws@.len() - i,
    {
        let ghost pre = out@;
        out.push(ws[i].filename.clone());
        assert(strings_view(out@) =~= strings_view(pre).push(ws@[i as int].filename@));
        assert(ws@.subrange(0, i + 1) =~= ws@.subrange(0, i as int).push(ws@[i as int]));
        assert(strings_view(out@) =~= ws@.subrange(0, i + 1).map_values(|w: Wheel| w.filename@));
        i += 1;
    }
    assert(ws@.subrange(0, i as int) =~= ws@);
    out
}

/// What picking among `ws` with `compat` gives (see [`outcome_of`]).
fn outcome_for(ws: &Vec<Wheel>, compat: &CompatibleTags) -> (o: SelectionOutcome)
    ensures
        outcome_of(o, ws@, compat@),
{
    let sl = ws.as_slice();
    assert(sl@ == ws@);
    match pick_wheel(sl, compat) {
        PickResult::Picked { wheel, matched_tag, rank } => {
            let w = WheelOutput { filename: wheel.filename.clone(), url: wheel.url.clone(), hash: wheel.hash.clone() };
            let t = render_tag(&matched_tag);
            let o = SelectionOutcome::Picked { wheel: w, matched_tag: t, rank, wheels_considered: ws.len() };
            proof {
                let (p, k) = choose|p: int, k: int|
                    #![trigger is_pick(compat@, wheels_model(sl@), p, k, rank as int)]
                    is_pick(compat@, wheels_model(sl@), p, k, rank as int) && *wheel == sl@[p]
                        && matched_tag@ == wheel_tags(sl@[p].filename@)[k];
                assert(is_pick(compat@, wheels_model(ws@), p, k, rank as int));
                assert(picked_ok(w, t@, rank as int, ws@, compat@));
            }
            o
        },
        PickResult::NoWheel => {
            SelectionOutcome::NoWheel { wheels_considered: ws.len(), wheels: filenames(ws) }
        },
    }
}

/// Whether an optional filter lets `s` through.
fn filter_passes(f: &Option<String>, s: &String) -> (r: bool)
    ensures
        r == filter_ok(*f, s@),
{
    match f {
        Some(x) => str_eq(x.as_str(), s.as_str()),
        None => true,
    }
}

/// The pick-wheels report of a tree: for each cell of `view` and each of its
/// packages that pass the filters of `args` and whose release lists wheels
/// in `lockfile`, the pick among those wheels with the cell's compatible
/// tags (`compat[i]` for cell `i`); sorted by package, version, platform and
/// python version.
pub fn build_tree_output(
    tree: &crate::config::Tree,
    lockfile: &Lockfile,
    view: &ResolvedView,
    compat: &Vec<CompatibleTags>,
    args: &PickWheelsArgs,
) -> (out: Output)
    requires
        compat@.len() == view.configs@.len(),
    ensures
        out.schema_version == 1,
        out.tree@ == tree.name@,
        selections_for(*args, view.configs@, lockfile.packages@, compat@, out.selections@),
{
    let ghost cs = view.configs@;
    let ghost ps = lockfile.packages@;
    let mut out: Vec<Selection> = Vec::new();
    let ghost mut src: Seq<(int, int)> = Seq::empty();
    let ghost mut made: Seq<(int, int)> = Seq::empty();
    let mut ci: usize = 0;
    while ci < view.configs.len()
        invariant
            cs == view.configs@,
            ps == lockfile.packages@,
            compat@.len() == cs.len(),
            ci <= cs.len(),
            made == chosen_pairs(*args, cs, ps, ci as int),
            src.len() == out@.len(),
            src.to_multiset() == made.to_multiset(),
            forall|q: int| 0 <= q < out@.len() ==> selection_of(cs, ps, compat@, src[q].0, src[q].1, #[trigger] out@[q]),
            forall|a: int, b: int| 0 <= a < b < out@.len() ==> !key_lt(sel_key(#[trigger] out@[b]), sel_key(#[trigger] out@[a])),
        decreases cs.len() - ci,
    {
        let c = &view.configs[ci];
        let ghost made0 = made;
        let mut pi: usize = 0;
        assert(made0 + chosen_in(*args, cs, ps, ci as int, 0) =~= made0);
        while pi < c.packages.len()
            invariant
                cs == view.configs@,
                ps == lockfile.packages@,
                compat@.len() == cs.len(),
                ci < cs.len(),
                *c == cs[ci as int],
                pi <= c.packages@.len(),
                made == made0 + chosen_in(*args, cs, ps, ci as int, pi as int),
                src.len() == out@.len(),
                src.to_multiset() == made.to_multiset(),
                forall|q: int| 0 <= q < out@.len() ==> selection_of(cs, ps, compat@, src[q].0, src[q].1, #[trigger] out@[q]),
                forall|a: int, b: int| 0 <= a < b < out@.len() ==> !key_lt(sel_key(#[trigger] out@[b]), sel_key(#[trigger] out@[a])),
            decreases c.packages@.len() - pi,
        {
            let pkg = &c.packages[pi];
            let ghost n = pkg.name@;
            let ghost v = pkg.version@;
            let pass = filter_passes(&args.platform, &c.platform) && filter_passes(&args.python, &c.python_version)
                && filter_passes(&args.package, &pkg.name);
            let mut took = false;
            if pass {
                match last_release_of(&lockfile.packages, pkg.name.as_str(), pkg.version.as_str()) {
                    Some(j) => {
                        let ws = &lockfile.packages[j].wheels;
                        if ws.len() > 0 {
                            let outcome = outcome_for(ws, &compat[ci]);
                            let sel = Selection {
                                package: pkg.name.clone(),
                                version: pkg.version.clone(),
                                platform: c.platform.clone(),
                                python_version: c.python_version.clone(),
                                outcome,
                            };
                            proof {
                                assert(release_wheels(ps, n, v, ws@));
                                assert(selection_of(cs, ps, compat@, ci as int, pi as int, sel));
                                assert(chosen(*args, cs, ps, ci as int, pi as int));
                            }
                            let ghost old_out = out@;
                            let ghost old_src = src;
                            let pos = insert_selection(&mut out, sel);
                            proof {
                                let x = (ci as int, pi as int);
                                vstd::seq_lib::to_multiset_insert(old_src, pos as int, x);
                                vstd::seq_lib::to_multiset_build(made, x);
                                src = old_src.insert(pos as int, x);
                                made = made.push(x);
                                assert forall|q: int| 0 <= q < out@.len() implies selection_of(cs, ps, compat@, src[q].0, src[q].1, #[trigger] out@[q]) by {
                                    if q < pos {
                                        assert(out@[q] == old_out[q] && src[q] == old_src[q]);
                                    } else if q > pos {
                                        assert(out@[q] == old_out[q - 1] && src[q] == old_src[q - 1]);
                                    }
                                }
                            }
                            took = true;
                        } else {
                            proof {
                                assert forall|ws2: Seq<Wheel>| #[trigger] release_wheels(ps, n, v, ws2) implies ws2.len() == 0 by {
                                    let j2 = choose|j2: int| #[trigger] last_release(ps, n, v, j2) && ps[j2].wheels@ == ws2;
                                    lemma_last_release_unique(ps, n, v, j as int, j2);
                                }
                            }
                        }
                    },
                    None => {
                        proof {
                            assert forall|ws2: Seq<Wheel>| !#[trigger] release_wheels(ps, n, v, ws2) by {
                                if release_wheels(ps, n, v, ws2) {
                                    let j2 = choose|j2: int| #[trigger] last_release(ps, n, v, j2) && ps[j2].wheels@ == ws2;
                                    assert(same_release(ps[j2], n, v));
                                }
                            }
                        }
                    },
                }
            }
            proof {
                assert(took == chosen(*args, cs, ps, ci as int, pi as int));
                if took {
                    assert(made =~= made0 + chosen_in(*args, cs, ps, ci as int, pi + 1));
                } else {
                    assert(chosen_in(*args, cs, ps, ci as int, pi + 1) == chosen_in(*args, cs, ps, ci as int, pi as int));
                }
            }
            pi += 1;
        }
        proof {
            assert(chosen_pairs(*args, cs, ps, ci + 1) == made0 + chosen_in(*args, cs, ps, ci as int, cs[ci as int].packages@.len() as int));
        }
        ci += 1;
    }
    let r = Output { schema_version: 1, tree: tree.name.clone(), selections: out };
    proof {
        assert(src.to_multiset() == chosen_pairs(*args, cs, ps, cs.len() as int).to_multiset());
    }
    r
}

} // verus!
