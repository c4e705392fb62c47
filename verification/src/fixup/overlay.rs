//! The listing of a fixup's overlay directory: refused when empty, else in
//! path order. Walking the directory is the binary's work.

use vstd::prelude::*;

use crate::buck::emit::{lemma_pair_lt_irreflexive, lemma_pair_lt_total, lemma_pair_lt_transitive, pair_lt};
use crate::fixup::error::FixupError;
use crate::text::{owned, str_eq, string_lt};

verus! {

/// The pairs as character sequences.
pub open spec fn pairs_view(v: Seq<(String, String)>) -> Seq<(Seq<char>, Seq<char>)> {
    v.map_values(|p: (String, String)| (p.0@, p.1@))
}

/// Each pair sorts no later than every pair after it.
pub open spec fn pairs_sorted(s: Seq<(Seq<char>, Seq<char>)>) -> bool {
    forall|a: int, b: int| 0 <= a < b < s.len() ==> !pair_lt(#[trigger] s[b].0, s[b].1, #[trigger] s[a].0, s[a].1)
}

fn pair_less(x: &(String, String), y: &(String, String)) -> (r: bool)
    ensures
        r == pair_lt(x.0@, x.1@, y.0@, y.1@),
{
    string_lt(&x.0, &y.0) || (str_eq(x.0.as_str(), y.0.as_str()) && string_lt(&x.1, &y.1))
}

/// The files of an overlay, each as (path in the wheel, path from the
/// third-party directory): `OverlayEmpty` for the package and overlay path
/// when there are none, else the same files in path order.
pub fn overlay_listing(pkg: &str, overlay_rel: &str, files: &Vec<(String, String)>) -> (r: Result<
    Vec<(String, String)>,
    FixupError,
>)
    ensures
        match r {
            Ok(v) => {
                &&& files@.len() > 0
                &&& pairs_sorted(pairs_view(v@))
                &&& pairs_view(v@).to_multiset() == pairs_view(files@).to_multiset()
            },
            Err(e) => files@.len() == 0 && (e matches FixupError::OverlayEmpty { pkg: p, path } && p@ == pkg@
                && path@ == overlay_rel@),
        },
{
    if files.len() == 0 {
        return Err(FixupError::OverlayEmpty { pkg: owned(pkg), path: owned(overlay_rel) });
    }
    let mut out: Vec<(String, String)> = Vec::new();
    let mut i: usize = 0;
    assert(pairs_view(out@) =~= pairs_view(files@.subrange(0, 0)));
    while i < files.len()
        invariant
            i <= files@.len(),
            pairs_sorted(pairs_view(out@)),
            pairs_view(out@).to_multiset() == pairs_view(files@.subrange(0, i as int)).to_multiset(),
        decreases files@.len() - i,
    {
        let x = (owned(files[i].0.as_str()), owned(files[i].1.as_str()));
        let ghost xv = (x.0@, x.1@);
        let ghost o = pairs_view(out@);
        let mut k: usize = 0;
        while k < out.len()
            invariant
                k <= out@.len(),
                o == pairs_view(out@),
                xv == (x.0@, x.1@),
                forall|j: int| 0 <= j < k ==> !pair_lt(xv.0, xv.1, #[trigger] o[j].0, o[j].1),
            ensures
                k <= out@.len(),
                o == pairs_view(out@),
                forall|j: int| 0 <= j < k ==> !pair_lt(xv.0, xv.1, #[trigger] o[j].0, o[j].1),
                k < out@.len() ==> pair_lt(xv.0, xv.1, o[k as int].0, o[k as int].1),
            decreases out@.len() - k,
        {
            if pair_less(&x, &out[k]) {
                break;
            }
            k += 1;
        }
        out.insert(k, x);
        proof {
            let n = pairs_view(out@);
            assert(n =~= o.insert(k as int, xv));
            assert forall|a: int, b: int| 0 <= a < b < n.len() implies !pair_lt(#[trigger] n[b].0, n[b].1, #[trigger] n[a].0, n[a].1) by {
                if b < k {
                    assert(n[a] == o[a] && n[b] == o[b]);
                } else if b == k {
                    assert(n[a] == o[a]);
                    assert(n[b] == xv);
                    lemma_pair_lt_total(xv.0, xv.1, o[a].0, o[a].1);
                    lemma_pair_lt_irreflexive(xv.0, xv.1);
                } else if a == k {
                    assert(n[a] == xv);
                    assert(n[b] == o[b - 1]);
                    assert(pair_lt(xv.0, xv.1, o[k as int].0, o[k as int].1));
                    if pair_lt(o[b - 1].0, o[b - 1].1, xv.0, xv.1) {
                        if b - 1 > k {
                            assert(!pair_lt(o[b - 1].0, o[b - 1].1, o[k as int].0, o[k as int].1));
                            lemma_pair_lt_transitive(o[b - 1].0, o[b - 1].1, xv.0, xv.1, o[k as int].0, o[k as int].1);
                        } else {
                            lemma_pair_lt_transitive(xv.0, xv.1, o[k as int].0, o[k as int].1, xv.0, xv.1);
                            lemma_pair_lt_irreflexive(xv.0, xv.1);
                        }
                    }
                } else if a < k {
                    assert(n[a] == o[a] && n[b] == o[b - 1]);
                } else {
                    assert(n[a] == o[a - 1] && n[b] == o[b - 1]);
                }
            }
            o.to_multiset_ensures();
            vstd::seq_lib::to_multiset_insert(o, k as int, xv);
            let fs = pairs_view(files@.subrange(0, i as int));
            let fs2 = pairs_view(files@.subrange(0, i + 1));
            assert(fs2 =~= fs.push(xv));
            fs.to_multiset_ensures();
        }
        i += 1;
    }
    assert(files@.subrange(0, files@.len() as int) =~= files@);
    Ok(out)
}

} // verus!
