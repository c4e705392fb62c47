//! Merging fixup bodies into one `ResolvedFixup`: within a layer (the
//! top-level body, then each cfg section that applies) and across layers
//! (community first, then local).

use vstd::prelude::*;

use crate::buck::emit::{fixups_wf, names_view, ConfigName};
use crate::fixup::loader::FixupSet;
use crate::fixup::schema::{EntryPoints, EntryPointsModel, FixupBody, FixupConfig};
use crate::strmap::{lookup, StrMap};
use crate::text::{copy_strings, dedup_strings, extend_strings, str_eq, strings_view};

verus! {

/// The fixup that applies to one package in one cell.
#[derive(Debug)]
pub struct ResolvedFixup {
    pub extra_deps: Vec<String>,
    pub omit_deps: Vec<String>,
    pub replace_deps: StrMap<String>,
    pub prefer_wheel: Option<String>,
    pub exclude_wheels: Vec<String>,
    pub overlay: Option<String>,
    pub entry_points: Option<EntryPoints>,
    pub visibility: Option<Vec<String>>,
    pub labels: Vec<String>,
    pub runtime_env: StrMap<String>,
}

pub open spec fn opt_str(o: Option<String>) -> Option<Seq<char>> {
    match o {
        Some(s) => Some(s@),
        None => None,
    }
}

pub open spec fn opt_strs(o: Option<Vec<String>>) -> Option<Seq<Seq<char>>> {
    match o {
        Some(v) => Some(strings_view(v@)),
        None => None,
    }
}

pub open spec fn opt_ep(o: Option<EntryPoints>) -> Option<EntryPointsModel> {
    match o {
        Some(e) => Some(e@),
        None => None,
    }
}

/// The string stored under `k`.
pub open spec fn map_get(m: StrMap<String>, k: Seq<char>) -> Option<Seq<char>> {
    opt_str(lookup(m.pairs(), k))
}

/// `b` wins where set, else `a`.
pub open spec fn or_else<T>(b: Option<T>, a: Option<T>) -> Option<T> {
    match b {
        Some(x) => Some(x),
        None => a,
    }
}

impl ResolvedFixup {
    /// The fixup that changes nothing.
    pub fn default_fixup() -> (r: Self)
        ensures
            r.wf(),
            r.extra_deps@.len() == 0,
            r.omit_deps@.len() == 0,
            r.replace_deps.pairs().len() == 0,
            r.prefer_wheel is None,
            r.exclude_wheels@.len() == 0,
            r.overlay is None,
            r.entry_points is None,
            r.visibility is None,
            r.labels@.len() == 0,
            r.runtime_env.pairs().len() == 0,
    {
        ResolvedFixup {
            extra_deps: Vec::new(),
            omit_deps: Vec::new(),
            replace_deps: StrMap::new(),
            prefer_wheel: None,
            exclude_wheels: Vec::new(),
            overlay: None,
            entry_points: None,
            visibility: None,
            labels: Vec::new(),
            runtime_env: StrMap::new(),
        }
    }

    /// Both maps are well formed.
    pub open spec fn wf(&self) -> bool {
        self.replace_deps.wf() && self.runtime_env.wf()
    }
}

impl Default for ResolvedFixup {
    fn default() -> (r: Self)
        ensures
            r.wf(),
            r.extra_deps@.len() == 0,
            r.omit_deps@.len() == 0,
            r.replace_deps.pairs().len() == 0,
            r.prefer_wheel is None,
            r.exclude_wheels@.len() == 0,
            r.overlay is None,
            r.entry_points is None,
            r.visibility is None,
            r.labels@.len() == 0,
            r.runtime_env.pairs().len() == 0,
    {
        ResolvedFixup::default_fixup()
    }
}

/// Stores each of `b`'s entries in `a`; `b`'s value wins on a shared key.
pub fn extend_map(a: &mut StrMap<String>, b: &StrMap<String>)
    requires
        old(a).wf(),
        b.wf(),
    ensures
        final(a).wf(),
        forall|k: Seq<char>| #[trigger] map_get(*final(a), k) == or_else(map_get(*b, k), map_get(*old(a), k)),
{
    let ghost a0 = *a;
    let entries = b.entries();
    let mut i: usize = 0;
    while i < entries.len()
        invariant
            i <= entries@.len(),
            entries@ == b.pairs(),
            b.wf(),
            a.wf(),
            forall|k: Seq<char>|
                #[trigger] map_get(*a, k) == or_else(
                    opt_str(lookup(entries@.subrange(0, i as int), k)),
                    map_get(a0, k),
                ),
        decreases entries@.len() - i,
    {
        let (k, v) = &entries[i];
        let ghost a1 = *a;
        a.insert(k.clone(), v.clone());
        proof {
            b.lemma_sorted();
            let pre = entries@.subrange(0, i as int);
            let post = entries@.subrange(0, i + 1);
            crate::strmap::lemma_unique_key(entries@, i as int);
            assert forall|q: Seq<char>|
                #[trigger] map_get(*a, q) == or_else(opt_str(lookup(post, q)), map_get(a0, q)) by {
                if q == k@ {
                    assert(post[i as int].0@ == q);
                    assert(exists|j: int| 0 <= j < post.len() && post[j].0@ == q);
                    let j = choose|j: int| 0 <= j < post.len() && post[j].0@ == q;
                    assert(entries@[j] == post[j]);
                    assert(j == i);
                } else {
                    assert(map_get(*a, q) == map_get(a1, q));
                    if exists|j: int| 0 <= j < post.len() && post[j].0@ == q {
                        let j = choose|j: int| 0 <= j < post.len() && post[j].0@ == q;
                        assert(j < i);
                        assert(pre[j] == post[j]);
                        let j2 = choose|j2: int| 0 <= j2 < pre.len() && pre[j2].0@ == q;
                        crate::strmap::lemma_unique_key(entries@, j);
                        assert(pre[j2] == entries@[j2]);
                    } else {
                        if exists|j: int| 0 <= j < pre.len() && pre[j].0@ == q {
                            let j = choose|j: int| 0 <= j < pre.len() && pre[j].0@ == q;
                            assert(post[j] == pre[j]);
                        }
                    }
                }
            }
        }
        i += 1;
    }
    assert(entries@.subrange(0, i as int) =~= b.pairs());
}

fn copy_opt_string(o: &Option<String>) -> (r: Option<String>)
    ensures
        opt_str(r) == opt_str(*o),
{
    match o {
        Some(s) => Some(s.clone()),
        None => None,
    }
}

fn copy_opt_strings(o: &Option<Vec<String>>) -> (r: Option<Vec<String>>)
    ensures
        opt_strs(r) == opt_strs(*o),
{
    match o {
        Some(v) => Some(copy_strings(v)),
        None => None,
    }
}

fn copy_opt_ep(o: &Option<EntryPoints>) -> (r: Option<EntryPoints>)
    ensures
        opt_ep(r) == opt_ep(*o),
{
    match o {
        Some(e) => Some(e.copy()),
        None => None,
    }
}

/// Merges `rhs` into `lhs`. List fields accumulate (no dedupe: the
/// emitter dedupes after applying `omit_deps`). Scalar fields are
/// replaced when `rhs` sets them. Map fields extend, later keys winning.
pub fn merge_into(lhs: &mut ResolvedFixup, rhs: &FixupBody)
    requires
        old(lhs).wf(),
        rhs.replace_deps.wf(),
        rhs.runtime_env.wf(),
    ensures
        final(lhs).wf(),
        strings_view(final(lhs).extra_deps@) == strings_view(old(lhs).extra_deps@) + strings_view(rhs.extra_deps@),
        strings_view(final(lhs).omit_deps@) == strings_view(old(lhs).omit_deps@) + strings_view(rhs.omit_deps@),
        strings_view(final(lhs).exclude_wheels@) == strings_view(old(lhs).exclude_wheels@) + strings_view(rhs.exclude_wheels@),
        strings_view(final(lhs).labels@) == strings_view(old(lhs).labels@) + strings_view(rhs.labels@),
        opt_str(final(lhs).prefer_wheel) == or_else(opt_str(rhs.prefer_wheel), opt_str(old(lhs).prefer_wheel)),
        opt_str(final(lhs).overlay) == or_else(opt_str(rhs.overlay), opt_str(old(lhs).overlay)),
        opt_ep(final(lhs).entry_points) == or_else(opt_ep(rhs.entry_points), opt_ep(old(lhs).entry_points)),
        opt_strs(final(lhs).visibility) == or_else(opt_strs(rhs.visibility), opt_strs(old(lhs).visibility)),
        forall|k: Seq<char>| #[trigger] map_get(final(lhs).replace_deps, k) == or_else(
            map_get(rhs.replace_deps, k),
            map_get(old(lhs).replace_deps, k),
        ),
        forall|k: Seq<char>| #[trigger] map_get(final(lhs).runtime_env, k) == or_else(
            map_get(rhs.runtime_env, k),
            map_get(old(lhs).runtime_env, k),
        ),
{
    extend_strings(&mut lhs.extra_deps, &rhs.extra_deps);
    extend_strings(&mut lhs.omit_deps, &rhs.omit_deps);
    extend_map(&mut lhs.replace_deps, &rhs.replace_deps);
    if rhs.prefer_wheel.is_some() {
        lhs.prefer_wheel = copy_opt_string(&rhs.prefer_wheel);
    }
    extend_strings(&mut lhs.exclude_wheels, &rhs.exclude_wheels);
    if rhs.overlay.is_some() {
        lhs.overlay = copy_opt_string(&rhs.overlay);
    }
    if rhs.entry_points.is_some() {
        lhs.entry_points = copy_opt_ep(&rhs.entry_points);
    }
    if rhs.visibility.is_some() {
        lhs.visibility = copy_opt_strings(&rhs.visibility);
    }
    extend_strings(&mut lhs.labels, &rhs.labels);
    extend_map(&mut lhs.runtime_env, &rhs.runtime_env);
}

/// Concatenates two lists, keeping only the first occurrence of each string.
pub fn concat_dedup(a: Vec<String>, b: Vec<String>) -> (r: Vec<String>)
    ensures
        strings_view(r@) == dedup_strings(strings_view(a@) + strings_view(b@)),
{
    let mut all = a;
    extend_strings(&mut all, &b);
    let ghost av = strings_view(all@);
    let mut out: Vec<String> = Vec::new();
    let mut i: usize = 0;
    while i < all.len()
        invariant
            i <= all@.len(),
            av == strings_view(all@),
            strings_view(out@) == dedup_strings(av.subrange(0, i as int)),
        decreases all@.len() - i,
    {
        let s = &all[i];
        let mut seen = false;
        let mut j: usize = 0;
        while j < out.len()
            invariant
                j <= out@.len(),
                seen <==> exists|k: int| 0 <= k < j && out@[k]@ == s@,
            decreases out@.len() - j,
        {
            if str_eq(out[j].as_str(), s.as_str()) {
                seen = true;
            }
            j += 1;
        }
        proof {
            let ov = strings_view(out@);
            assert(av.subrange(0, i + 1).drop_last() =~= av.subrange(0, i as int));
            assert(av.subrange(0, i + 1).last() == s@);
            if seen {
                let k = choose|k: int| 0 <= k < j && out@[k]@ == s@;
                assert(ov[k] == s@);
            }
            if ov.contains(s@) {
                let k = choose|k: int| 0 <= k < ov.len() && ov[k] == s@;
                assert(out@[k]@ == s@);
            }
        }
        if !seen {
            out.push(s.clone());
            proof {
                assert(strings_view(out@) =~= dedup_strings(av.subrange(0, i as int)).push(s@));
            }
        }
        i += 1;
    }
    assert(av.subrange(0, i as int) =~= av);
    out
}

/// Merges the community layer's fixup with the local one: lists are the
/// community's then the local's, each string once, first occurrence kept;
/// maps take the local value on a shared key; a setting the local layer
/// leaves unset falls back to the community's.
pub fn merge_resolved(community: ResolvedFixup, local: ResolvedFixup) -> (r: ResolvedFixup)
    requires
        community.wf(),
        local.wf(),
    ensures
        r.wf(),
        strings_view(r.extra_deps@) == dedup_strings(strings_view(community.extra_deps@) + strings_view(local.extra_deps@)),
        strings_view(r.omit_deps@) == dedup_strings(strings_view(community.omit_deps@) + strings_view(local.omit_deps@)),
        strings_view(r.exclude_wheels@) == dedup_strings(strings_view(community.exclude_wheels@) + strings_view(local.exclude_wheels@)),
        strings_view(r.labels@) == dedup_strings(strings_view(community.labels@) + strings_view(local.labels@)),
        opt_str(r.prefer_wheel) == or_else(opt_str(local.prefer_wheel), opt_str(community.prefer_wheel)),
        opt_str(r.overlay) == or_else(opt_str(local.overlay), opt_str(community.overlay)),
        opt_ep(r.entry_points) == or_else(opt_ep(local.entry_points), opt_ep(community.entry_points)),
        opt_strs(r.visibility) == or_else(opt_strs(local.visibility), opt_strs(community.visibility)),
        forall|k: Seq<char>| #[trigger] map_get(r.replace_deps, k) == or_else(
            map_get(local.replace_deps, k),
            map_get(community.replace_deps, k),
        ),
        forall|k: Seq<char>| #[trigger] map_get(r.runtime_env, k) == or_else(
            map_get(local.runtime_env, k),
            map_get(community.runtime_env, k),
        ),
{
    let ResolvedFixup {
        extra_deps: c_extra,
        omit_deps: c_omit,
        replace_deps: mut c_replace,
        prefer_wheel: c_prefer,
        exclude_wheels: c_exclude,
        overlay: c_overlay,
        entry_points: c_entry,
        visibility: c_vis,
        labels: c_labels,
        runtime_env: mut c_env,
    } = community;
    let ResolvedFixup {
        extra_deps: l_extra,
        omit_deps: l_omit,
        replace_deps: l_replace,
        prefer_wheel: l_prefer,
        exclude_wheels: l_exclude,
        overlay: l_overlay,
        entry_points: l_entry,
        visibility: l_vis,
        labels: l_labels,
        runtime_env: l_env,
    } = local;
    extend_map(&mut c_replace, &l_replace);
    extend_map(&mut c_env, &l_env);
    ResolvedFixup {
        extra_deps: concat_dedup(c_extra, l_extra),
        omit_deps: concat_dedup(c_omit, l_omit),
        replace_deps: c_replace,
        prefer_wheel: match l_prefer {
            Some(p) => Some(p),
            None => c_prefer,
        },
        exclude_wheels: concat_dedup(c_exclude, l_exclude),
        overlay: match l_overlay {
            Some(o) => Some(o),
            None => c_overlay,
        },
        entry_points: match l_entry {
            Some(e) => Some(e),
            None => c_entry,
        },
        visibility: match l_vis {
            Some(v) => Some(v),
            None => c_vis,
        },
        labels: concat_dedup(c_labels, l_labels),
        runtime_env: c_env,
    }
}

/// The bodies that apply in a cell: the top-level body, then each cfg
/// section whose predicate holds there, in file order.
pub open spec fn applied_bodies(config: FixupConfig, applies: Seq<bool>) -> Seq<FixupBody>
    decreases applies.len(),
{
    if applies.len() == 0 {
        seq![config.top]
    } else {
        let prev = applied_bodies(config, applies.drop_last());
        let i = applies.len() - 1;
        if applies[i] {
            prev.push(config.cfg_sections@[i].1)
        } else {
            prev
        }
    }
}

/// A list field of the bodies, concatenated in order.
pub open spec fn cat_lists(bodies: Seq<FixupBody>, f: spec_fn(FixupBody) -> Seq<Seq<char>>) -> Seq<Seq<char>>
    decreases bodies.len(),
{
    if bodies.len() == 0 {
        Seq::empty()
    } else {
        cat_lists(bodies.drop_last(), f) + f(bodies.last())
    }
}

/// A setting of the bodies: the last one that sets it.
pub open spec fn last_set<T>(bodies: Seq<FixupBody>, f: spec_fn(FixupBody) -> Option<T>) -> Option<T>
    decreases bodies.len(),
{
    if bodies.len() == 0 {
        None
    } else {
        or_else(f(bodies.last()), last_set(bodies.drop_last(), f))
    }
}

/// A map field's value under `k`: from the last body whose map has `k`.
pub open spec fn last_map(bodies: Seq<FixupBody>, f: spec_fn(FixupBody) -> StrMap<String>, k: Seq<char>) -> Option<Seq<char>>
    decreases bodies.len(),
{
    if bodies.len() == 0 {
        None
    } else {
        or_else(map_get(f(bodies.last()), k), last_map(bodies.drop_last(), f, k))
    }
}

/// `r` is what merging `bodies` in order into an empty fixup gives.
pub open spec fn merged_from(r: ResolvedFixup, bodies: Seq<FixupBody>) -> bool {
    &&& r.wf()
    &&& strings_view(r.extra_deps@) == cat_lists(bodies, |b: FixupBody| strings_view(b.extra_deps@))
    &&& strings_view(r.omit_deps@) == cat_lists(bodies, |b: FixupBody| strings_view(b.omit_deps@))
    &&& strings_view(r.exclude_wheels@) == cat_lists(bodies, |b: FixupBody| strings_view(b.exclude_wheels@))
    &&& strings_view(r.labels@) == cat_lists(bodies, |b: FixupBody| strings_view(b.labels@))
    &&& opt_str(r.prefer_wheel) == last_set(bodies, |b: FixupBody| opt_str(b.prefer_wheel))
    &&& opt_str(r.overlay) == last_set(bodies, |b: FixupBody| opt_str(b.overlay))
    &&& opt_ep(r.entry_points) == last_set(bodies, |b: FixupBody| opt_ep(b.entry_points))
    &&& opt_strs(r.visibility) == last_set(bodies, |b: FixupBody| opt_strs(b.visibility))
    &&& forall|k: Seq<char>| #[trigger] map_get(r.replace_deps, k) == last_map(bodies, |b: FixupBody| b.replace_deps, k)
    &&& forall|k: Seq<char>| #[trigger] map_get(r.runtime_env, k) == last_map(bodies, |b: FixupBody| b.runtime_env, k)
}

/// Every body's maps are well formed.
pub open spec fn config_wf(config: FixupConfig) -> bool {
    &&& config.top.replace_deps.wf() && config.top.runtime_env.wf()
    &&& forall|i: int| 0 <= i < config.cfg_sections@.len() ==> (#[trigger] config.cfg_sections@[i]).1.replace_deps.wf()
        && config.cfg_sections@[i].1.runtime_env.wf()
}

proof fn lemma_merged_step(before: ResolvedFixup, after: ResolvedFixup, bodies: Seq<FixupBody>, b: FixupBody)
    requires
        merged_from(before, bodies),
        after.wf(),
        strings_view(after.extra_deps@) == strings_view(before.extra_deps@) + strings_view(b.extra_deps@),
        strings_view(after.omit_deps@) == strings_view(before.omit_deps@) + strings_view(b.omit_deps@),
        strings_view(after.exclude_wheels@) == strings_view(before.exclude_wheels@) + strings_view(b.exclude_wheels@),
        strings_view(after.labels@) == strings_view(before.labels@) + strings_view(b.labels@),
        opt_str(after.prefer_wheel) == or_else(opt_str(b.prefer_wheel), opt_str(before.prefer_wheel)),
        opt_str(after.overlay) == or_else(opt_str(b.overlay), opt_str(before.overlay)),
        opt_ep(after.entry_points) == or_else(opt_ep(b.entry_points), opt_ep(before.entry_points)),
        opt_strs(after.visibility) == or_else(opt_strs(b.visibility), opt_strs(before.visibility)),
        forall|k: Seq<char>| #[trigger] map_get(after.replace_deps, k) == or_else(
            map_get(b.replace_deps, k),
            map_get(before.replace_deps, k),
        ),
        forall|k: Seq<char>| #[trigger] map_get(after.runtime_env, k) == or_else(
            map_get(b.runtime_env, k),
            map_get(before.runtime_env, k),
        ),
    ensures
        merged_from(after, bodies.push(b)),
{
    let nb = bodies.push(b);
    assert(nb.drop_last() =~= bodies);
    assert(nb.last() == b);
    assert forall|k: Seq<char>| #[trigger] map_get(after.replace_deps, k) == last_map(nb, |x: FixupBody| x.replace_deps, k) by {
        assert(map_get(before.replace_deps, k) == last_map(bodies, |x: FixupBody| x.replace_deps, k));
    }
    assert forall|k: Seq<char>| #[trigger] map_get(after.runtime_env, k) == last_map(nb, |x: FixupBody| x.runtime_env, k) by {
        assert(map_get(before.runtime_env, k) == last_map(bodies, |x: FixupBody| x.runtime_env, k));
    }
}

/// Resolves a package's fixup for one cell: the top-level body, then each
/// cfg section that applies there (`applies[i]` for section `i`; a section
/// whose predicate does not parse does not apply), merged in file order.
pub fn resolve_for_cell(config: &FixupConfig, applies: &[bool]) -> (r: ResolvedFixup)
    requires
        config_wf(*config),
        applies@.len() == config.cfg_sections@.len(),
    ensures
        merged_from(r, applied_bodies(*config, applies@)),
{
    let mut out = ResolvedFixup::default_fixup();
    let ghost r0 = out;
    proof {
        let e: Seq<FixupBody> = Seq::empty();
        assert(strings_view(out.extra_deps@) =~= Seq::<Seq<char>>::empty());
        assert(strings_view(out.omit_deps@) =~= Seq::<Seq<char>>::empty());
        assert(strings_view(out.exclude_wheels@) =~= Seq::<Seq<char>>::empty());
        assert(strings_view(out.labels@) =~= Seq::<Seq<char>>::empty());
        assert forall|k: Seq<char>| #[trigger] map_get(out.replace_deps, k) == last_map(e, |b: FixupBody| b.replace_deps, k) by {
            assert(lookup(out.replace_deps.pairs(), k) is None);
        }
        assert forall|k: Seq<char>| #[trigger] map_get(out.runtime_env, k) == last_map(e, |b: FixupBody| b.runtime_env, k) by {
            assert(lookup(out.runtime_env.pairs(), k) is None);
        }
        assert(merged_from(out, e));
    }
    let ghost before = out;
    merge_into(&mut out, &config.top);
    proof {
        let e: Seq<FixupBody> = Seq::empty();
        lemma_merged_step(before, out, e, config.top);
        assert(e.push(config.top) =~= applied_bodies(*config, applies@.subrange(0, 0)));
    }
    let mut i: usize = 0;
    while i < config.cfg_sections.len()
        invariant
            i <= config.cfg_sections@.len(),
            applies@.len() == config.cfg_sections@.len(),
            config_wf(*config),
            merged_from(out, applied_bodies(*config, applies@.subrange(0, i as int))),
        decreases config.cfg_sections@.len() - i,
    {
        let ghost prev = applied_bodies(*config, applies@.subrange(0, i as int));
        assert(applies@.subrange(0, i + 1).drop_last() =~= applies@.subrange(0, i as int));
        if applies[i] {
            let ghost before = out;
            let body = &config.cfg_sections[i].1;
            assert(config.cfg_sections@[i as int].1.replace_deps.wf());
            merge_into(&mut out, body);
            proof {
                lemma_merged_step(before, out, prev, *body);
            }
        }
        i += 1;
    }
    assert(applies@.subrange(0, i as int) =~= applies@);
    out
}

/// The bodies a layer contributes: its fixup's applying bodies, or none.
pub open spec fn layer_bodies(cfg: Option<FixupConfig>, applies: Seq<bool>) -> Seq<FixupBody> {
    match cfg {
        Some(c) => applied_bodies(c, applies),
        None => Seq::empty(),
    }
}

/// `r` merges the community layer's `community` with the local layer's `local`
/// (see [`merge_resolved`]).
pub open spec fn merges(r: ResolvedFixup, community: ResolvedFixup, local: ResolvedFixup) -> bool {
    &&& r.wf()
    &&& strings_view(r.extra_deps@) == dedup_strings(strings_view(community.extra_deps@) + strings_view(local.extra_deps@))
    &&& strings_view(r.omit_deps@) == dedup_strings(strings_view(community.omit_deps@) + strings_view(local.omit_deps@))
    &&& strings_view(r.exclude_wheels@) == dedup_strings(strings_view(community.exclude_wheels@) + strings_view(local.exclude_wheels@))
    &&& strings_view(r.labels@) == dedup_strings(strings_view(community.labels@) + strings_view(local.labels@))
    &&& opt_str(r.prefer_wheel) == or_else(opt_str(local.prefer_wheel), opt_str(community.prefer_wheel))
    &&& opt_str(r.overlay) == or_else(opt_str(local.overlay), opt_str(community.overlay))
    &&& opt_ep(r.entry_points) == or_else(opt_ep(local.entry_points), opt_ep(community.entry_points))
    &&& opt_strs(r.visibility) == or_else(opt_strs(local.visibility), opt_strs(community.visibility))
    &&& forall|k: Seq<char>| #[trigger] map_get(r.replace_deps, k) == or_else(map_get(local.replace_deps, k), map_get(community.replace_deps, k))
    &&& forall|k: Seq<char>| #[trigger] map_get(r.runtime_env, k) == or_else(map_get(local.runtime_env, k), map_get(community.runtime_env, k))
}

/// The community and local fixups together.
#[derive(Debug)]
pub struct EffectiveFixups {
    pub community: FixupSet,
    pub local: FixupSet,
}

/// The local layer's fixup of `pkg`.
pub open spec fn local_fixup(e: EffectiveFixups, pkg: Seq<char>) -> Option<FixupConfig> {
    lookup(e.local.configs().pairs(), pkg)
}

/// The community layer's fixup of `pkg`, unless the local one sets
/// `replace_community`, which drops it.
pub open spec fn community_fixup(e: EffectiveFixups, pkg: Seq<char>) -> Option<FixupConfig> {
    match local_fixup(e, pkg) {
        Some(l) if l.replace_community => None,
        _ => lookup(e.community.configs().pairs(), pkg),
    }
}

impl EffectiveFixups {
    /// Both layers empty.
    pub fn empty() -> (r: Self)
        ensures
            r.community.wf() && r.local.wf(),
            r.community.configs().pairs().len() == 0,
            r.local.configs().pairs().len() == 0,
    {
        EffectiveFixups { community: FixupSet::empty(), local: FixupSet::empty() }
    }

    /// The fixup of `pkg` in one cell: each layer resolved on its own (the
    /// community layer not at all when the local fixup replaces it), then
    /// merged with the local layer winning. `community_applies` and
    /// `local_applies` say which cfg sections of each layer's fixup apply.
    pub fn resolve(&self, pkg: &str, community_applies: &[bool], local_applies: &[bool]) -> (r: ResolvedFixup)
        requires
            self.community.wf(),
            self.local.wf(),
            community_fixup(*self, pkg@) matches Some(c) ==> community_applies@.len() == c.cfg_sections@.len(),
            local_fixup(*self, pkg@) matches Some(l) ==> local_applies@.len() == l.cfg_sections@.len(),
        ensures
            exists|c: ResolvedFixup, l: ResolvedFixup|
                merged_from(c, layer_bodies(community_fixup(*self, pkg@), community_applies@)) && merged_from(
                    l,
                    layer_bodies(local_fixup(*self, pkg@), local_applies@),
                ) && merges(r, c, l),
    {
        let local_cfg = self.local.get(pkg);
        let community_cfg = match local_cfg {
            Some(c) => if c.replace_community {
                None
            } else {
                self.community.get(pkg)
            },
            None => self.community.get(pkg),
        };
        let c = match community_cfg {
            Some(cfg) => resolve_for_cell(cfg, community_applies),
            None => {
                let d = ResolvedFixup::default_fixup();
                proof {
                    lemma_default_merged(d);
                }
                d
            },
        };
        let l = match local_cfg {
            Some(cfg) => resolve_for_cell(cfg, local_applies),
            None => {
                let d = ResolvedFixup::default_fixup();
                proof {
                    lemma_default_merged(d);
                }
                d
            },
        };
        let ghost cg = c;
        let ghost lg = l;
        let r = merge_resolved(c, l);
        assert(merges(r, cg, lg));
        r
    }
}

proof fn lemma_default_merged(f: ResolvedFixup)
    requires
        f.wf(),
        f.extra_deps@.len() == 0,
        f.omit_deps@.len() == 0,
        f.replace_deps.pairs().len() == 0,
        f.prefer_wheel is None,
        f.exclude_wheels@.len() == 0,
        f.overlay is None,
        f.entry_points is None,
        f.visibility is None,
        f.labels@.len() == 0,
        f.runtime_env.pairs().len() == 0,
    ensures
        merged_from(f, Seq::empty()),
{
    let e: Seq<FixupBody> = Seq::empty();
    assert(strings_view(f.extra_deps@) =~= Seq::<Seq<char>>::empty());
    assert(strings_view(f.omit_deps@) =~= Seq::<Seq<char>>::empty());
    assert(strings_view(f.exclude_wheels@) =~= Seq::<Seq<char>>::empty());
    assert(strings_view(f.labels@) =~= Seq::<Seq<char>>::empty());
    assert forall|k: Seq<char>| #[trigger] map_get(f.replace_deps, k) == last_map(e, |b: FixupBody| b.replace_deps, k) by {
        assert(lookup(f.replace_deps.pairs(), k) is None);
    }
    assert forall|k: Seq<char>| #[trigger] map_get(f.runtime_env, k) == last_map(e, |b: FixupBody| b.runtime_env, k) by {
        assert(lookup(f.runtime_env.pairs(), k) is None);
    }
}


/// No cfg section of `cfg` applies: cfg predicates are not evaluated, so
/// only a fixup's top-level body takes effect.
pub open spec fn no_sections(cfg: Option<FixupConfig>) -> Seq<bool> {
    match cfg {
        Some(c) => Seq::new(c.cfg_sections@.len(), |i: int| false),
        None => Seq::empty(),
    }
}

/// `f` is what package `n` resolves to with no cfg section applying.
pub open spec fn resolved_plainly(e: EffectiveFixups, n: Seq<char>, f: ResolvedFixup) -> bool {
    exists|c: ResolvedFixup, l: ResolvedFixup|
        merged_from(c, layer_bodies(community_fixup(e, n), no_sections(community_fixup(e, n)))) && merged_from(
            l,
            layer_bodies(local_fixup(e, n), no_sections(local_fixup(e, n))),
        ) && merges(f, c, l)
}

fn no_section_flags(cfg: Option<&FixupConfig>) -> (r: Vec<bool>)
    ensures
        match cfg {
            Some(c) => r@ == Seq::new(c.cfg_sections@.len(), |i: int| false),
            None => r@.len() == 0,
        },
{
    let n = match cfg {
        Some(c) => c.cfg_sections.len(),
        None => 0,
    };
    let mut v: Vec<bool> = Vec::new();
    let mut i: usize = 0;
    while i < n
        invariant
            i <= n,
            v@ == Seq::new(i as nat, |j: int| false),
        decreases n - i,
    {
        v.push(false);
        i += 1;
        assert(v@ =~= Seq::new(i as nat, |j: int| false));
    }
    v
}

/// Every value of a well-formed map has a property that every looked-up
/// value has.
proof fn lemma_values_from_lookup<V>(m: StrMap<V>, p: spec_fn(V) -> bool)
    requires
        m.wf(),
        forall|k: Seq<char>| #[trigger] lookup(m.pairs(), k) is Some ==> p(lookup(m.pairs(), k)->Some_0),
    ensures
        forall|i: int| 0 <= i < m.pairs().len() ==> p(#[trigger] m.pairs()[i].1),
{
    m.lemma_sorted();
    assert forall|i: int| 0 <= i < m.pairs().len() implies p(#[trigger] m.pairs()[i].1) by {
        crate::strmap::lemma_unique_key(m.pairs(), i);
        assert(lookup(m.pairs(), m.pairs()[i].0@) is Some);
    }
}

impl EffectiveFixups {
    /// The fixup of `pkg` resolved for each cell, no cfg section applying.
    fn resolve_per_cell(&self, pkg: &str, cells: &Vec<ConfigName>) -> (r: StrMap<ResolvedFixup>)
        requires
            self.community.wf(),
            self.local.wf(),
        ensures
            r.wf(),
            forall|i: int| 0 <= i < r.pairs().len() ==> (#[trigger] r.pairs()[i]).1.wf(),
            forall|k: Seq<char>| #[trigger] lookup(r.pairs(), k) is Some <==> names_view(cells@).contains(k),
            forall|k: Seq<char>| #[trigger] lookup(r.pairs(), k) is Some ==> resolved_plainly(*self, pkg@, lookup(r.pairs(), k)->Some_0),
    {
        let local_cfg = self.local.get(pkg);
        let community_cfg = match local_cfg {
            Some(c) => if c.replace_community {
                None
            } else {
                self.community.get(pkg)
            },
            None => self.community.get(pkg),
        };
        let cflags = no_section_flags(community_cfg);
        let lflags = no_section_flags(local_cfg);
        assert(community_fixup(*self, pkg@) matches Some(c) ==> cflags@ =~= no_sections(community_fixup(*self, pkg@)));
        assert(local_fixup(*self, pkg@) matches Some(c) ==> lflags@ =~= no_sections(local_fixup(*self, pkg@)));
        assert(community_fixup(*self, pkg@) is None ==> cflags@ =~= no_sections(community_fixup(*self, pkg@)));
        assert(local_fixup(*self, pkg@) is None ==> lflags@ =~= no_sections(local_fixup(*self, pkg@)));
        let ghost cells_v = names_view(cells@);
        let mut out: StrMap<ResolvedFixup> = StrMap::new();
        let mut i: usize = 0;
        while i < cells.len()
            invariant
                i <= cells@.len(),
                cells_v == names_view(cells@),
                self.community.wf(),
                self.local.wf(),
                cflags@ == no_sections(community_fixup(*self, pkg@)),
                lflags@ == no_sections(local_fixup(*self, pkg@)),
                out.wf(),
                forall|k: Seq<char>| #[trigger] lookup(out.pairs(), k) is Some <==> cells_v.subrange(0, i as int).contains(k),
                forall|k: Seq<char>| #[trigger] lookup(out.pairs(), k) is Some ==> resolved_plainly(*self, pkg@, lookup(out.pairs(), k)->Some_0),
            decreases cells@.len() - i,
        {
            let f = self.resolve(pkg, cflags.as_slice(), lflags.as_slice());
            let ghost kc = cells@[i as int]@;
            assert(cells_v[i as int] == kc);
            out.insert(crate::text::owned(cells[i].as_str()), f);
            proof {
                let pre0 = cells_v.subrange(0, i as int);
                let pre1 = cells_v.subrange(0, i + 1);
                assert(pre1 =~= pre0.push(kc));
                assert forall|k: Seq<char>| #[trigger] lookup(out.pairs(), k) is Some <==> pre1.contains(k) by {
                    if pre1.contains(k) && k != kc {
                        let j = choose|j: int| 0 <= j < pre1.len() && #[trigger] pre1[j] == k;
                        assert(pre0[j] == k);
                    }
                    if pre0.contains(k) {
                        let j = choose|j: int| 0 <= j < pre0.len() && #[trigger] pre0[j] == k;
                        assert(pre1[j] == k);
                    }
                    if k == kc {
                        assert(pre1[i as int] == k);
                    }
                }
            }
            i += 1;
        }
        proof {
            assert(cells_v.subrange(0, cells@.len() as int) =~= cells_v);
            let p = |f: ResolvedFixup| f.wf();
            assert forall|k: Seq<char>| #[trigger] lookup(out.pairs(), k) is Some implies p(lookup(out.pairs(), k)->Some_0) by {
                let f = lookup(out.pairs(), k)->Some_0;
                assert(resolved_plainly(*self, pkg@, f));
            }
            lemma_values_from_lookup(out, p);
        }
        out
    }

    /// The fixup of every package that has one in either layer, resolved
    /// for each cell, no cfg section applying.
    pub fn resolve_all(&self, cells: &Vec<ConfigName>) -> (r: StrMap<StrMap<ResolvedFixup>>)
        requires
            self.community.wf(),
            self.local.wf(),
        ensures
            fixups_wf(r),
            forall|n: Seq<char>| #[trigger] lookup(r.pairs(), n) is Some <==> (lookup(self.community.configs().pairs(), n) is Some
                || lookup(self.local.configs().pairs(), n) is Some),
            forall|n: Seq<char>, k: Seq<char>| #[trigger] lookup(r.pairs(), n) is Some ==> (#[trigger] lookup(lookup(r.pairs(), n)->Some_0.pairs(), k) is Some
                <==> names_view(cells@).contains(k)),
            forall|n: Seq<char>, k: Seq<char>| #[trigger] lookup(r.pairs(), n) is Some && #[trigger] lookup(lookup(r.pairs(), n)->Some_0.pairs(), k) is Some
                ==> resolved_plainly(*self, n, lookup(lookup(r.pairs(), n)->Some_0.pairs(), k)->Some_0),
    {
        let ghost cp = self.community.configs().pairs();
        let ghost lp = self.local.configs().pairs();
        let mut out: StrMap<StrMap<ResolvedFixup>> = StrMap::new();
        let ces = self.community.iter();
        let mut i: usize = 0;
        while i < ces.len()
            invariant
                i <= ces@.len(),
                ces@ == cp,
                cp == self.community.configs().pairs(),
                lp == self.local.configs().pairs(),
                self.community.wf(),
                self.local.wf(),
                out.wf(),
                forall|n: Seq<char>| #[trigger] lookup(out.pairs(), n) is Some <==> exists|j: int| 0 <= j < i && cp[j].0@ == n,
                forall|n: Seq<char>| #[trigger] lookup(out.pairs(), n) is Some ==> per_cell_ok(*self, n, cells_names(cells), lookup(out.pairs(), n)->Some_0),
            decreases ces@.len() - i,
        {
            let m = self.resolve_per_cell(ces[i].0.as_str(), cells);
            let ghost kn = ces@[i as int].0@;
            out.insert(crate::text::owned(ces[i].0.as_str()), m);
            proof {
                assert forall|n: Seq<char>| #[trigger] lookup(out.pairs(), n) is Some <==> exists|j: int| 0 <= j < i + 1 && cp[j].0@ == n by {
                    if n == kn {
                        assert(cp[i as int].0@ == n);
                    } else if exists|j: int| 0 <= j < i + 1 && cp[j].0@ == n {
                        let j = choose|j: int| 0 <= j < i + 1 && cp[j].0@ == n;
                        assert(j < i);
                    }
                }
            }
            i += 1;
        }
        let les = self.local.iter();
        let mut i: usize = 0;
        while i < les.len()
            invariant
                i <= les@.len(),
                les@ == lp,
                cp == self.community.configs().pairs(),
                lp == self.local.configs().pairs(),
                self.community.wf(),
                self.local.wf(),
                out.wf(),
                forall|n: Seq<char>| #[trigger] lookup(out.pairs(), n) is Some <==> ((exists|j: int| 0 <= j < cp.len() && cp[j].0@ == n)
                    || exists|j: int| 0 <= j < i && lp[j].0@ == n),
                forall|n: Seq<char>| #[trigger] lookup(out.pairs(), n) is Some ==> per_cell_ok(*self, n, cells_names(cells), lookup(out.pairs(), n)->Some_0),
            decreases les@.len() - i,
        {
            let ghost kn = les@[i as int].0@;
            if out.get(les[i].0.as_str()).is_none() {
                let m = self.resolve_per_cell(les[i].0.as_str(), cells);
                out.insert(crate::text::owned(les[i].0.as_str()), m);
            }
            proof {
                assert forall|n: Seq<char>| #[trigger] lookup(out.pairs(), n) is Some <==> ((exists|j: int| 0 <= j < cp.len() && cp[j].0@ == n)
                    || exists|j: int| 0 <= j < i + 1 && lp[j].0@ == n) by {
                    if n == kn {
                        assert(lp[i as int].0@ == n);
                    } else if exists|j: int| 0 <= j < i + 1 && lp[j].0@ == n {
                        let j = choose|j: int| 0 <= j < i + 1 && lp[j].0@ == n;
                        assert(j < i);
                    }
                }
            }
            i += 1;
        }
        proof {
            let p = |m: StrMap<ResolvedFixup>| m.wf() && forall|j: int| 0 <= j < m.pairs().len() ==> (#[trigger] m.pairs()[j]).1.wf();
            assert forall|n: Seq<char>| #[trigger] lookup(out.pairs(), n) is Some implies p(lookup(out.pairs(), n)->Some_0) by {
                assert(per_cell_ok(*self, n, cells_names(cells), lookup(out.pairs(), n)->Some_0));
            }
            lemma_values_from_lookup(out, p);
        }
        out
    }
}

/// The names of the cells.
pub open spec fn cells_names(cells: &Vec<ConfigName>) -> Seq<Seq<char>> {
    names_view(cells@)
}

/// `m` holds package `n`'s fixup resolved under each cell of `cells`.
pub open spec fn per_cell_ok(e: EffectiveFixups, n: Seq<char>, cells: Seq<Seq<char>>, m: StrMap<ResolvedFixup>) -> bool {
    &&& m.wf()
    &&& forall|j: int| 0 <= j < m.pairs().len() ==> (#[trigger] m.pairs()[j]).1.wf()
    &&& forall|k: Seq<char>| #[trigger] lookup(m.pairs(), k) is Some <==> cells.contains(k)
    &&& forall|k: Seq<char>| #[trigger] lookup(m.pairs(), k) is Some ==> resolved_plainly(e, n, lookup(m.pairs(), k)->Some_0)
}

} // verus!
