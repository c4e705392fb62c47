//! Wheel selection by min-rank lookup against a CompatibleTags list.

use vstd::prelude::*;

use crate::lock::types::{Wheel, WheelModel};
use crate::text::{lemma_seq_lt_asymmetric, lemma_seq_lt_irreflexive, lemma_seq_lt_total, lemma_seq_lt_transitive, seq_lt, string_lt};
use crate::wheel::compat::{rank_in, CompatibleTags};
use crate::wheel::tag::{parse_filename, parse_filename_spec, tags_model, Tag, TagModel};

verus! {

#[derive(Debug, Clone)]
pub enum PickResult<'a> {
    Picked { wheel: &'a Wheel, matched_tag: Tag, rank: usize },
    NoWheel,
}

/// The tags a wheel filename lists; none when the filename does not parse.
#[verifier::opaque]
pub open spec fn wheel_tags(f: Seq<char>) -> Seq<TagModel> {
    match parse_filename_spec(f) {
        Ok(t) => t,
        Err(_) => Seq::empty(),
    }
}

pub open spec fn wheels_model(w: Seq<Wheel>) -> Seq<WheelModel> {
    w.map_values(|x: Wheel| x@)
}

/// Tag `k` of wheel `q` has preference rank `r`.
#[verifier::opaque]
pub open spec fn ranked(compat: Seq<TagModel>, wheels: Seq<WheelModel>, q: int, k: int, r: int) -> bool {
    0 <= q < wheels.len() && 0 <= k < wheel_tags(wheels[q].filename).len() && rank_in(
        compat,
        wheel_tags(wheels[q].filename)[k],
    ) == Some(r)
}

/// Wheel `p` comes no later than wheel `q` in filename order (ties by position).
pub open spec fn sorts_before(wheels: Seq<WheelModel>, p: int, q: int) -> bool {
    seq_lt(wheels[p].filename, wheels[q].filename) || (wheels[p].filename == wheels[q].filename
        && p <= q)
}

/// Tag `k` of wheel `p`, of rank `r`, is the pick: `r` is the best rank any
/// wheel offers, `p` is the first wheel in filename order to offer it, and
/// `k` is the first of its tags with that rank.
pub open spec fn is_pick(compat: Seq<TagModel>, wheels: Seq<WheelModel>, p: int, k: int, r: int) -> bool {
    &&& ranked(compat, wheels, p, k, r)
    &&& forall|k2: int| 0 <= k2 < k ==> !ranked(compat, wheels, p, k2, r)
    &&& forall|q: int, k2: int, r2: int| ranked(compat, wheels, q, k2, r2) ==> r <= r2
    &&& forall|q: int, k2: int| ranked(compat, wheels, q, k2, r) ==> sorts_before(wheels, p, q)
}

pub open spec fn processed(q: int, k: int, i: int, j: int) -> bool {
    q < i || (q == i && k < j)
}

/// Scan state: `(br, bp, bk)` is the pick among the tags processed so far.
#[verifier::opaque]
pub open spec fn best_inv(
    cm: Seq<TagModel>,
    wm: Seq<WheelModel>,
    br: int,
    bp: int,
    bk: int,
    i: int,
    j: int,
) -> bool {
    &&& processed(bp, bk, i, j)
    &&& ranked(cm, wm, bp, bk, br)
    &&& forall|k2: int| 0 <= k2 < bk ==> !ranked(cm, wm, bp, k2, br)
    &&& forall|q: int, k2: int, r2: int|
        #![trigger ranked(cm, wm, q, k2, r2)]
        processed(q, k2, i, j) && ranked(cm, wm, q, k2, r2) ==> br <= r2
    &&& forall|q: int, k2: int|
        #![trigger ranked(cm, wm, q, k2, br)]
        processed(q, k2, i, j) && ranked(cm, wm, q, k2, br) ==> sorts_before(wm, bp, q)
}

/// Scan state: none of the tags processed so far is accepted.
#[verifier::opaque]
pub open spec fn none_inv(cm: Seq<TagModel>, wm: Seq<WheelModel>, i: int, j: int) -> bool {
    forall|q: int, k: int, r2: int|
        #![trigger ranked(cm, wm, q, k, r2)]
        processed(q, k, i, j) ==> !ranked(cm, wm, q, k, r2)
}

proof fn lemma_rank_unique(cm: Seq<TagModel>, wm: Seq<WheelModel>, q: int, k: int, r1: int, r2: int)
    requires
        ranked(cm, wm, q, k, r1),
        ranked(cm, wm, q, k, r2),
    ensures
        r1 == r2,
{
    reveal(ranked);
}

proof fn lemma_ranked_bounds(cm: Seq<TagModel>, wm: Seq<WheelModel>, q: int, k: int, r: int)
    requires
        ranked(cm, wm, q, k, r),
    ensures
        0 <= q < wm.len(),
        0 <= k < wheel_tags(wm[q].filename).len(),
{
    reveal(ranked);
}

proof fn lemma_best_unranked(
    cm: Seq<TagModel>,
    wm: Seq<WheelModel>,
    br: int,
    bp: int,
    bk: int,
    i: int,
    j: int,
)
    requires
        forall|r: int| !ranked(cm, wm, i, j, r),
        best_inv(cm, wm, br, bp, bk, i, j),
    ensures
        best_inv(cm, wm, br, bp, bk, i, j + 1),
{
    reveal(best_inv);
    assert forall|q: int, k2: int, r2: int|
        processed(q, k2, i, j + 1) && ranked(cm, wm, q, k2, r2) implies br <= r2 by {
        assert(processed(q, k2, i, j));
    }
    assert forall|q: int, k2: int|
        processed(q, k2, i, j + 1) && ranked(cm, wm, q, k2, br) implies sorts_before(wm, bp, q) by {
        assert(processed(q, k2, i, j));
    }
}

proof fn lemma_none_unranked(cm: Seq<TagModel>, wm: Seq<WheelModel>, i: int, j: int)
    requires
        forall|r: int| !ranked(cm, wm, i, j, r),
        none_inv(cm, wm, i, j),
    ensures
        none_inv(cm, wm, i, j + 1),
{
    reveal(none_inv);
    assert forall|q: int, k: int, r2: int| processed(q, k, i, j + 1) implies !ranked(
        cm,
        wm,
        q,
        k,
        r2,
    ) by {
        if !(q == i && k == j) {
            assert(processed(q, k, i, j));
        }
    }
}

proof fn lemma_step_first(cm: Seq<TagModel>, wm: Seq<WheelModel>, i: int, j: int, r: int)
    requires
        none_inv(cm, wm, i, j),
        ranked(cm, wm, i, j, r),
    ensures
        best_inv(cm, wm, r, i, j, i, j + 1),
{
    reveal(best_inv);
    reveal(none_inv);
    assert forall|k2: int| 0 <= k2 < j implies !ranked(cm, wm, i, k2, r) by {
        assert(processed(i, k2, i, j));
    }
    assert forall|q: int, k2: int, r2: int|
        processed(q, k2, i, j + 1) && ranked(cm, wm, q, k2, r2) implies r <= r2 by {
        if q == i && k2 == j {
            lemma_rank_unique(cm, wm, i, j, r, r2);
        } else {
            assert(processed(q, k2, i, j));
        }
    }
    assert forall|q: int, k2: int|
        processed(q, k2, i, j + 1) && ranked(cm, wm, q, k2, r) implies sorts_before(wm, i, q) by {
        if !(q == i && k2 == j) {
            assert(processed(q, k2, i, j));
        }
    }
}

proof fn lemma_step_improve(
    cm: Seq<TagModel>,
    wm: Seq<WheelModel>,
    br: int,
    bp: int,
    bk: int,
    i: int,
    j: int,
    r: int,
)
    requires
        best_inv(cm, wm, br, bp, bk, i, j),
        ranked(cm, wm, i, j, r),
        r < br || (r == br && seq_lt(wm[i].filename, wm[bp].filename)),
    ensures
        best_inv(cm, wm, r, i, j, i, j + 1),
{
    reveal(best_inv);
    let fi = wm[i].filename;
    let fp = wm[bp].filename;
    assert forall|k2: int| 0 <= k2 < j implies !ranked(cm, wm, i, k2, r) by {
        if ranked(cm, wm, i, k2, r) {
            assert(processed(i, k2, i, j));
            assert(br <= r);
            assert(sorts_before(wm, bp, i));
            lemma_seq_lt_asymmetric(fi, fp);
            lemma_seq_lt_irreflexive(fi);
        }
    }
    assert forall|q: int, k2: int, r2: int|
        processed(q, k2, i, j + 1) && ranked(cm, wm, q, k2, r2) implies r <= r2 by {
        if q == i && k2 == j {
            lemma_rank_unique(cm, wm, i, j, r, r2);
        } else {
            assert(processed(q, k2, i, j));
        }
    }
    assert forall|q: int, k2: int|
        processed(q, k2, i, j + 1) && ranked(cm, wm, q, k2, r) implies sorts_before(wm, i, q) by {
        if q == i {
            lemma_seq_lt_irreflexive(fi);
        } else {
            assert(processed(q, k2, i, j));
            assert(br <= r);
            assert(r == br);
            assert(sorts_before(wm, bp, q));
            lemma_seq_lt_transitive(fi, fp, wm[q].filename);
        }
    }
}

proof fn lemma_step_keep(
    cm: Seq<TagModel>,
    wm: Seq<WheelModel>,
    br: int,
    bp: int,
    bk: int,
    i: int,
    j: int,
    r: int,
)
    requires
        best_inv(cm, wm, br, bp, bk, i, j),
        ranked(cm, wm, i, j, r),
        !(r < br || (r == br && seq_lt(wm[i].filename, wm[bp].filename))),
    ensures
        best_inv(cm, wm, br, bp, bk, i, j + 1),
{
    reveal(best_inv);
    assert forall|q: int, k2: int, r2: int|
        processed(q, k2, i, j + 1) && ranked(cm, wm, q, k2, r2) implies br <= r2 by {
        if q == i && k2 == j {
            lemma_rank_unique(cm, wm, i, j, r, r2);
        } else {
            assert(processed(q, k2, i, j));
        }
    }
    assert forall|q: int, k2: int|
        processed(q, k2, i, j + 1) && ranked(cm, wm, q, k2, br) implies sorts_before(wm, bp, q) by {
        if q == i && k2 == j {
            lemma_rank_unique(cm, wm, i, j, r, br);
            lemma_seq_lt_total(wm[i].filename, wm[bp].filename);
        } else {
            assert(processed(q, k2, i, j));
        }
    }
}

proof fn lemma_best_next_wheel(
    cm: Seq<TagModel>,
    wm: Seq<WheelModel>,
    br: int,
    bp: int,
    bk: int,
    i: int,
    n: int,
)
    requires
        0 <= i < wm.len(),
        n == wheel_tags(wm[i].filename).len(),
        best_inv(cm, wm, br, bp, bk, i, n),
    ensures
        best_inv(cm, wm, br, bp, bk, i + 1, 0),
{
    reveal(best_inv);
    assert forall|q: int, k2: int, r2: int|
        processed(q, k2, i + 1, 0) && ranked(cm, wm, q, k2, r2) implies br <= r2 by {
        lemma_ranked_bounds(cm, wm, q, k2, r2);
        assert(processed(q, k2, i, n));
    }
    assert forall|q: int, k2: int|
        processed(q, k2, i + 1, 0) && ranked(cm, wm, q, k2, br) implies sorts_before(wm, bp, q) by {
        lemma_ranked_bounds(cm, wm, q, k2, br);
        assert(processed(q, k2, i, n));
    }
}

proof fn lemma_none_next_wheel(cm: Seq<TagModel>, wm: Seq<WheelModel>, i: int, n: int)
    requires
        0 <= i < wm.len(),
        n == wheel_tags(wm[i].filename).len(),
        none_inv(cm, wm, i, n),
    ensures
        none_inv(cm, wm, i + 1, 0),
{
    reveal(none_inv);
    assert forall|q: int, k: int, r2: int| processed(q, k, i + 1, 0) implies !ranked(
        cm,
        wm,
        q,
        k,
        r2,
    ) by {
        if ranked(cm, wm, q, k, r2) {
            lemma_ranked_bounds(cm, wm, q, k, r2);
            assert(processed(q, k, i, n));
        }
    }
}

proof fn lemma_best_done(cm: Seq<TagModel>, wm: Seq<WheelModel>, br: int, bp: int, bk: int)
    requires
        best_inv(cm, wm, br, bp, bk, wm.len() as int, 0),
    ensures
        is_pick(cm, wm, bp, bk, br),
{
    reveal(best_inv);
    assert forall|q: int, k2: int, r2: int| ranked(cm, wm, q, k2, r2) implies br <= r2 by {
        lemma_ranked_bounds(cm, wm, q, k2, r2);
        assert(processed(q, k2, wm.len() as int, 0));
    }
    assert forall|q: int, k2: int| ranked(cm, wm, q, k2, br) implies sorts_before(wm, bp, q) by {
        lemma_ranked_bounds(cm, wm, q, k2, br);
        assert(processed(q, k2, wm.len() as int, 0));
    }
}

proof fn lemma_none_done(cm: Seq<TagModel>, wm: Seq<WheelModel>)
    requires
        none_inv(cm, wm, wm.len() as int, 0),
    ensures
        forall|q: int, k: int, r2: int| !ranked(cm, wm, q, k, r2),
{
    reveal(none_inv);
    assert forall|q: int, k: int, r2: int| !ranked(cm, wm, q, k, r2) by {
        if ranked(cm, wm, q, k, r2) {
            lemma_ranked_bounds(cm, wm, q, k, r2);
            assert(processed(q, k, wm.len() as int, 0));
        }
    }
}

/// Picks the wheel whose best tag ranks highest; ties go to the smaller
/// filename, and then to the earlier wheel. Unparseable filenames are skipped.
pub fn pick_wheel<'a>(wheels: &'a [Wheel], compat: &CompatibleTags) -> (r: PickResult<'a>)
    ensures
        r is Picked ==> exists|p: int, k: int|
            #![trigger is_pick(compat@, wheels_model(wheels@), p, k, r->rank as int)]
            is_pick(compat@, wheels_model(wheels@), p, k, r->rank as int) && *r->wheel == wheels@[p]
                && r->matched_tag@ == wheel_tags(wheels@[p].filename@)[k],
        r is NoWheel ==> forall|q: int, k: int, r2: int|
            !ranked(compat@, wheels_model(wheels@), q, k, r2),
{
    let ghost wm = wheels_model(wheels@);
    let ghost cm = compat@;
    let mut best: Option<(usize, Tag, usize)> = None;
    let ghost mut best_k: int = 0;
    let mut i: usize = 0;
    proof {
        reveal(none_inv);
        assert forall|q: int, k: int, r2: int| processed(q, k, 0, 0) implies !ranked(
            cm,
            wm,
            q,
            k,
            r2,
        ) by {
            if ranked(cm, wm, q, k, r2) {
                lemma_ranked_bounds(cm, wm, q, k, r2);
            }
        }
    }
    while i < wheels.len()
        invariant
            i <= wheels@.len(),
            best matches Some((_, _, bp)) ==> bp < i,
            wm == wheels_model(wheels@),
            cm == compat@,
            best is None ==> none_inv(cm, wm, i as int, 0),
            best matches Some((br, bt, bp)) ==> best_inv(cm, wm, br as int, bp as int, best_k, i as int, 0)
                && bt@ == wheel_tags(wm[bp as int].filename)[best_k],
        decreases wheels@.len() - i,
    {
        let parsed = parse_filename(wheels[i].filename.as_str());
        let tags: Vec<Tag> = match parsed {
            Ok(w) => w.tags,
            Err(_) => Vec::new(),
        };
        assert(tags_model(tags@) =~= wheel_tags(wm[i as int].filename)) by {
            reveal(wheel_tags);
        }
        let mut j: usize = 0;
        while j < tags.len()
            invariant
                i < wheels@.len(),
                j <= tags@.len(),
                best matches Some((_, _, bp)) ==> bp <= i,
                wm == wheels_model(wheels@),
                cm == compat@,
                tags_model(tags@) == wheel_tags(wm[i as int].filename),
                best is None ==> none_inv(cm, wm, i as int, j as int),
                best matches Some((br, bt, bp)) ==> best_inv(cm, wm, br as int, bp as int, best_k, i as int, j as int)
                    && bt@ == wheel_tags(wm[bp as int].filename)[best_k],
            decreases tags@.len() - j,
        {
            let rank_opt = compat.rank_of(&tags[j]);
            assert(tags_model(tags@)[j as int] == tags@[j as int]@);
            assert(wm[i as int] == wheels@[i as int]@);
            match rank_opt {
                None => {
                    proof {
                        assert forall|r: int| !ranked(cm, wm, i as int, j as int, r) by {
                            reveal(ranked);
                        }
                        match best {
                            None => lemma_none_unranked(cm, wm, i as int, j as int),
                            Some((br, _, bp)) => lemma_best_unranked(
                                cm,
                                wm,
                                br as int,
                                bp as int,
                                best_k,
                                i as int,
                                j as int,
                            ),
                        }
                    }
                },
                Some(rank) => {
                    assert(ranked(cm, wm, i as int, j as int, rank as int)) by {
                        reveal(ranked);
                    }
                    let improves = match &best {
                        None => true,
                        Some((br, _, bp)) => rank < *br || (rank == *br && string_lt(
                            &wheels[i].filename,
                            &wheels[*bp].filename,
                        )),
                    };
                    proof {
                        match best {
                            None => {
                                lemma_step_first(cm, wm, i as int, j as int, rank as int);
                            },
                            Some((br, _, bp)) => {
                                assert(wm[i as int].filename == wheels@[i as int].filename@);
                                assert(wm[bp as int].filename == wheels@[bp as int].filename@);
                                if improves {
                                    lemma_step_improve(cm, wm, br as int, bp as int, best_k, i as int, j as int, rank as int);
                                } else {
                                    lemma_step_keep(cm, wm, br as int, bp as int, best_k, i as int, j as int, rank as int);
                                }
                            },
                        }
                    }
                    if improves {
                        best = Some((rank, tags[j].copy(), i));
                        proof {
                            best_k = j as int;
                        }
                    }
                },
            }
            j += 1;
        }
        proof {
            match best {
                None => lemma_none_next_wheel(cm, wm, i as int, tags@.len() as int),
                Some((br, _, bp)) => lemma_best_next_wheel(
                    cm,
                    wm,
                    br as int,
                    bp as int,
                    best_k,
                    i as int,
                    tags@.len() as int,
                ),
            }
        }
        i += 1;
    }
    match best {
        Some((rank, matched_tag, p)) => {
            proof {
                lemma_best_done(cm, wm, rank as int, p as int, best_k);
                assert(wm[p as int] == wheels@[p as int]@);
                assert(matched_tag@ == wheel_tags(wheels@[p as int].filename@)[best_k]);
            }
            let res = PickResult::Picked { wheel: &wheels[p], matched_tag, rank };
            assert(res->rank == rank);
            assert(*res->wheel == wheels@[p as int]);
            assert(res->matched_tag@ == wheel_tags(wheels@[p as int].filename@)[best_k]);
            res
        },
        None => {
            proof {
                lemma_none_done(cm, wm);
            }
            PickResult::NoWheel
        },
    }
}

/// No two wheels share a filename.
pub open spec fn distinct_filenames(w: Seq<WheelModel>) -> bool {
    forall|i: int, j: int| 0 <= i < j < w.len() ==> w[i].filename != w[j].filename
}

proof fn lemma_pick_at_most(cm: Seq<TagModel>, w1: Seq<WheelModel>, w2: Seq<WheelModel>, p1: int, k1: int, r1: int, p2: int, k2: int, r2: int)
    requires
        w1.to_multiset() == w2.to_multiset(),
        is_pick(cm, w1, p1, k1, r1),
        is_pick(cm, w2, p2, k2, r2),
    ensures
        r2 <= r1,
{
    reveal(ranked);
    vstd::seq_lib::to_multiset_contains(w1, w1[p1]);
    vstd::seq_lib::to_multiset_contains(w2, w1[p1]);
    assert(w1.contains(w1[p1]));
    let q = choose|q: int| 0 <= q < w2.len() && w2[q] == w1[p1];
    assert(ranked(cm, w2, q, k1, r1));
}

/// The pick does not depend on the order the wheels are listed in, so long
/// as no two share a filename: reordering the wheels picks the same wheel,
/// tag and rank.
pub proof fn law_pick_ignores_order(
    cm: Seq<TagModel>,
    w1: Seq<WheelModel>,
    w2: Seq<WheelModel>,
    p1: int,
    k1: int,
    r1: int,
    p2: int,
    k2: int,
    r2: int,
)
    requires
        w1.to_multiset() == w2.to_multiset(),
        distinct_filenames(w1),
        distinct_filenames(w2),
        is_pick(cm, w1, p1, k1, r1),
        is_pick(cm, w2, p2, k2, r2),
    ensures
        w1[p1] == w2[p2],
        k1 == k2,
        r1 == r2,
{
    reveal(ranked);
    lemma_pick_at_most(cm, w1, w2, p1, k1, r1, p2, k2, r2);
    lemma_pick_at_most(cm, w2, w1, p2, k2, r2, p1, k1, r1);
    vstd::seq_lib::to_multiset_contains(w1, w1[p1]);
    vstd::seq_lib::to_multiset_contains(w2, w1[p1]);
    vstd::seq_lib::to_multiset_contains(w2, w2[p2]);
    vstd::seq_lib::to_multiset_contains(w1, w2[p2]);
    assert(w1.contains(w1[p1]));
    assert(w2.contains(w2[p2]));
    let q2 = choose|q: int| 0 <= q < w2.len() && w2[q] == w1[p1];
    let q1 = choose|q: int| 0 <= q < w1.len() && w1[q] == w2[p2];
    assert(ranked(cm, w2, q2, k1, r1));
    assert(ranked(cm, w1, q1, k2, r2));
    assert(sorts_before(w2, p2, q2));
    assert(sorts_before(w1, p1, q1));
    let f1 = w1[p1].filename;
    let f2 = w2[p2].filename;
    if f1 != f2 {
        crate::text::lemma_seq_lt_total(f1, f2);
        crate::text::lemma_seq_lt_asymmetric(f1, f2);
        assert(seq_lt(f2, f1) || p2 <= q2);
        assert(seq_lt(f1, f2) || p1 <= q1);
    }
    assert(f1 == f2);
    if q1 != p1 {
        assert(w1[q1].filename == w1[p1].filename);
    }
    assert(w1[p1] == w2[p2]);
    if k1 < k2 {
        assert(ranked(cm, w2, p2, k1, r1));
    } else if k2 < k1 {
        assert(ranked(cm, w1, p1, k2, r2));
    }
}

/// The index of the picked wheel among `wheels`, if any wheel has a ranked tag.
pub open spec fn pick_index(compat: Seq<TagModel>, wheels: Seq<WheelModel>) -> Option<int> {
    if exists|p: int, k: int, r: int| #[trigger] is_pick(compat, wheels, p, k, r) {
        let t = choose|t: (int, int, int)| #[trigger] is_pick(compat, wheels, t.0, t.1, t.2);
        Some(t.0)
    } else {
        None
    }
}

/// At most one wheel is the pick.
pub proof fn lemma_pick_unique(
    cm: Seq<TagModel>,
    wm: Seq<WheelModel>,
    p1: int,
    k1: int,
    r1: int,
    p2: int,
    k2: int,
    r2: int,
)
    requires
        is_pick(cm, wm, p1, k1, r1),
        is_pick(cm, wm, p2, k2, r2),
    ensures
        p1 == p2,
{
    assert(r1 <= r2);
    assert(r2 <= r1);
    assert(ranked(cm, wm, p2, k2, r1));
    assert(ranked(cm, wm, p1, k1, r2));
    assert(sorts_before(wm, p1, p2));
    assert(sorts_before(wm, p2, p1));
    lemma_seq_lt_asymmetric(wm[p1].filename, wm[p2].filename);
    lemma_seq_lt_irreflexive(wm[p1].filename);
}

/// [`pick_wheel`] picks the wheel at [`pick_index`], or finds none when it is `None`.
pub proof fn lemma_pick_index(cm: Seq<TagModel>, wm: Seq<WheelModel>, p: int, k: int, r: int)
    requires
        is_pick(cm, wm, p, k, r),
    ensures
        pick_index(cm, wm) == Some(p),
{
    let w = (p, k, r);
    assert(is_pick(cm, wm, w.0, w.1, w.2));
    let t = choose|t: (int, int, int)| #[trigger] is_pick(cm, wm, t.0, t.1, t.2);
    lemma_pick_unique(cm, wm, p, k, r, t.0, t.1, t.2);
}

} // verus!
