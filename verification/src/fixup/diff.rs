//! Structural diff between two fixup sets, and its rendering.

use vstd::prelude::*;

use crate::fixup::layer::{opt_ep, opt_str, opt_strs};
use crate::fixup::loader::FixupSet;
use crate::fixup::schema::{EntryPoints, FixupBody, FixupConfig};
use crate::paths::{join_with, push_joined};
use crate::strmap::StrMap;
use crate::text::{push_str, seq_lt, str_eq, string_lt, strings_view};

verus! {

/// One difference between two fixup sets.
#[derive(Debug, PartialEq, Eq)]
pub enum DiffLine {
    /// A package only the new set has.
    Added(String),
    /// A package only the old set has.
    Removed(String),
    /// A package both have, with the fields that differ (canonical order).
    Modified(String, Vec<String>),
}

pub enum DiffLineModel {
    Added(Seq<char>),
    Removed(Seq<char>),
    Modified(Seq<char>, Seq<Seq<char>>),
}

impl View for DiffLine {
    type V = DiffLineModel;

    open spec fn view(&self) -> DiffLineModel {
        match self {
            DiffLine::Added(n) => DiffLineModel::Added(n@),
            DiffLine::Removed(n) => DiffLineModel::Removed(n@),
            DiffLine::Modified(n, f) => DiffLineModel::Modified(n@, strings_view(f@)),
        }
    }
}

pub open spec fn lines_view(v: Seq<DiffLine>) -> Seq<DiffLineModel> {
    v.map_values(|l: DiffLine| l@)
}

/// The entries of a string map, as text pairs.
pub open spec fn pairs_view(m: StrMap<String>) -> Seq<(Seq<char>, Seq<char>)> {
    m.pairs().map_values(|p: (String, String)| (p.0@, p.1@))
}

/// A fixup body, field by field, as text.
pub struct BodyModel {
    pub extra_deps: Seq<Seq<char>>,
    pub omit_deps: Seq<Seq<char>>,
    pub replace_deps: Seq<(Seq<char>, Seq<char>)>,
    pub prefer_wheel: Option<Seq<char>>,
    pub exclude_wheels: Seq<Seq<char>>,
    pub overlay: Option<Seq<char>>,
    pub entry_points: Option<crate::fixup::schema::EntryPointsModel>,
    pub visibility: Option<Seq<Seq<char>>>,
    pub labels: Seq<Seq<char>>,
    pub runtime_env: Seq<(Seq<char>, Seq<char>)>,
    pub sdist: bool,
}

pub open spec fn body_model(b: FixupBody) -> BodyModel {
    BodyModel {
        extra_deps: strings_view(b.extra_deps@),
        omit_deps: strings_view(b.omit_deps@),
        replace_deps: pairs_view(b.replace_deps),
        prefer_wheel: opt_str(b.prefer_wheel),
        exclude_wheels: strings_view(b.exclude_wheels@),
        overlay: opt_str(b.overlay),
        entry_points: opt_ep(b.entry_points),
        visibility: opt_strs(b.visibility),
        labels: strings_view(b.labels@),
        runtime_env: pairs_view(b.runtime_env),
        sdist: b.sdist is Some,
    }
}

pub open spec fn sections_model(s: Seq<(String, FixupBody)>) -> Seq<(Seq<char>, BodyModel)> {
    s.map_values(|p: (String, FixupBody)| (p.0@, body_model(p.1)))
}

/// `name` when `differs`, else nothing.
pub open spec fn field_if(differs: bool, name: Seq<char>) -> Seq<Seq<char>> {
    if differs {
        seq![name]
    } else {
        Seq::empty()
    }
}

/// The names of the fields that differ between two fixups, in canonical order.
pub open spec fn changed_fields(a: FixupConfig, b: FixupConfig) -> Seq<Seq<char>> {
    let x = body_model(a.top);
    let y = body_model(b.top);
    field_if(x.extra_deps != y.extra_deps, "extra_deps"@) + field_if(x.omit_deps != y.omit_deps, "omit_deps"@)
        + field_if(x.replace_deps != y.replace_deps, "replace_deps"@) + field_if(
        x.prefer_wheel != y.prefer_wheel,
        "prefer_wheel"@,
    ) + field_if(x.exclude_wheels != y.exclude_wheels, "exclude_wheels"@) + field_if(x.overlay != y.overlay, "overlay"@)
        + field_if(x.entry_points != y.entry_points, "entry_points"@) + field_if(
        x.visibility != y.visibility,
        "visibility"@,
    ) + field_if(x.labels != y.labels, "labels"@) + field_if(x.runtime_env != y.runtime_env, "runtime_env"@)
        + field_if(x.sdist != y.sdist, "sdist"@) + field_if(
        a.replace_community != b.replace_community,
        "replace_community"@,
    ) + field_if(sections_model(a.cfg_sections@) != sections_model(b.cfg_sections@), "cfg_sections"@)
}

/// The diff of two fixup lists sorted by package name: names only in the
/// old are removed, only in the new added, in both and different modified;
/// in name order.
pub open spec fn diff_spec(o: Seq<(String, FixupConfig)>, n: Seq<(String, FixupConfig)>) -> Seq<DiffLineModel>
    decreases o.len() + n.len(),
{
    if o.len() == 0 && n.len() == 0 {
        Seq::empty()
    } else if o.len() == 0 || (n.len() > 0 && seq_lt(n[0].0@, o[0].0@)) {
        seq![DiffLineModel::Added(n[0].0@)] + diff_spec(o, n.drop_first())
    } else if n.len() == 0 || seq_lt(o[0].0@, n[0].0@) {
        seq![DiffLineModel::Removed(o[0].0@)] + diff_spec(o.drop_first(), n)
    } else {
        let f = changed_fields(o[0].1, n[0].1);
        (if f.len() > 0 {
            seq![DiffLineModel::Modified(o[0].0@, f)]
        } else {
            Seq::empty()
        }) + diff_spec(o.drop_first(), n.drop_first())
    }
}

fn strs_eq(a: &Vec<String>, b: &Vec<String>) -> (r: bool)
    ensures
        r == (strings_view(a@) == strings_view(b@)),
{
    if a.len() != b.len() {
        assert(strings_view(a@).len() != strings_view(b@).len());
        return false;
    }
    let mut i: usize = 0;
    while i < a.len()
        invariant
            i <= a@.len(),
            a@.len() == b@.len(),
            forall|k: int| 0 <= k < i ==> a@[k]@ == b@[k]@,
        decreases a@.len() - i,
    {
        if !str_eq(a[i].as_str(), b[i].as_str()) {
            assert(strings_view(a@)[i as int] != strings_view(b@)[i as int]);
            return false;
        }
        i += 1;
    }
    assert(strings_view(a@) =~= strings_view(b@));
    true
}

fn opt_str_eq(a: &Option<String>, b: &Option<String>) -> (r: bool)
    ensures
        r == (opt_str(*a) == opt_str(*b)),
{
    match (a, b) {
        (Some(x), Some(y)) => str_eq(x.as_str(), y.as_str()),
        (None, None) => true,
        _ => false,
    }
}

fn opt_strs_eq(a: &Option<Vec<String>>, b: &Option<Vec<String>>) -> (r: bool)
    ensures
        r == (opt_strs(*a) == opt_strs(*b)),
{
    match (a, b) {
        (Some(x), Some(y)) => strs_eq(x, y),
        (None, None) => true,
        _ => false,
    }
}

fn opt_ep_eq(a: &Option<EntryPoints>, b: &Option<EntryPoints>) -> (r: bool)
    ensures
        r == (opt_ep(*a) == opt_ep(*b)),
{
    match (a, b) {
        (Some(EntryPoints::Auto(x)), Some(EntryPoints::Auto(y))) => *x == *y,
        (Some(EntryPoints::Named(x)), Some(EntryPoints::Named(y))) => strs_eq(x, y),
        (None, None) => true,
        _ => false,
    }
}

fn map_eq(a: &StrMap<String>, b: &StrMap<String>) -> (r: bool)
    ensures
        r == (pairs_view(*a) == pairs_view(*b)),
{
    let x = a.entries();
    let y = b.entries();
    if x.len() != y.len() {
        assert(pairs_view(*a).len() != pairs_view(*b).len());
        return false;
    }
    let mut i: usize = 0;
    while i < x.len()
        invariant
            i <= x@.len(),
            x@ == a.pairs(),
            y@ == b.pairs(),
            x@.len() == y@.len(),
            forall|k: int| 0 <= k < i ==> x@[k].0@ == y@[k].0@ && x@[k].1@ == y@[k].1@,
        decreases x@.len() - i,
    {
        if !str_eq(x[i].0.as_str(), y[i].0.as_str()) || !str_eq(x[i].1.as_str(), y[i].1.as_str()) {
            assert(pairs_view(*a)[i as int] != pairs_view(*b)[i as int]);
            return false;
        }
        i += 1;
    }
    assert(pairs_view(*a) =~= pairs_view(*b));
    true
}

fn body_eq(a: &FixupBody, b: &FixupBody) -> (r: bool)
    ensures
        r == (body_model(*a) == body_model(*b)),
{
    strs_eq(&a.extra_deps, &b.extra_deps) && strs_eq(&a.omit_deps, &b.omit_deps) && map_eq(
        &a.replace_deps,
        &b.replace_deps,
    ) && opt_str_eq(&a.prefer_wheel, &b.prefer_wheel) && strs_eq(&a.exclude_wheels, &b.exclude_wheels)
        && opt_str_eq(&a.overlay, &b.overlay) && opt_ep_eq(&a.entry_points, &b.entry_points) && opt_strs_eq(
        &a.visibility,
        &b.visibility,
    ) && strs_eq(&a.labels, &b.labels) && map_eq(&a.runtime_env, &b.runtime_env) && (a.sdist.is_some()
        == b.sdist.is_some())
}

fn sections_eq(a: &Vec<(String, FixupBody)>, b: &Vec<(String, FixupBody)>) -> (r: bool)
    ensures
        r == (sections_model(a@) == sections_model(b@)),
{
    if a.len() != b.len() {
        assert(sections_model(a@).len() != sections_model(b@).len());
        return false;
    }
    let mut i: usize = 0;
    while i < a.len()
        invariant
            i <= a@.len(),
            a@.len() == b@.len(),
            forall|k: int| 0 <= k < i ==> #[trigger] sections_model(a@)[k] == sections_model(b@)[k],
        decreases a@.len() - i,
    {
        if !str_eq(a[i].0.as_str(), b[i].0.as_str()) || !body_eq(&a[i].1, &b[i].1) {
            assert(sections_model(a@)[i as int] != sections_model(b@)[i as int]);
            return false;
        }
        i += 1;
    }
    assert(sections_model(a@) =~= sections_model(b@));
    true
}

fn push_field(out: &mut Vec<String>, differs: bool, name: &str)
    ensures
        strings_view(final(out)@) == strings_view(old(out)@) + field_if(differs, name@),
{
    let ghost pre = strings_view(out@);
    if differs {
        out.push(name.to_string());
        assert(strings_view(out@) =~= pre + field_if(differs, name@));
    } else {
        assert(strings_view(out@) =~= pre + field_if(differs, name@));
    }
}

/// The names of the fields that differ between two fixups, in canonical order.
pub fn modified_fields(a: &FixupConfig, b: &FixupConfig) -> (r: Vec<String>)
    ensures
        strings_view(r@) == changed_fields(*a, *b),
{
    let mut f: Vec<String> = Vec::new();
    let ghost e = strings_view(f@);
    assert(e =~= Seq::<Seq<char>>::empty());
    push_field(&mut f, !strs_eq(&a.top.extra_deps, &b.top.extra_deps), "extra_deps");
    push_field(&mut f, !strs_eq(&a.top.omit_deps, &b.top.omit_deps), "omit_deps");
    push_field(&mut f, !map_eq(&a.top.replace_deps, &b.top.replace_deps), "replace_deps");
    push_field(&mut f, !opt_str_eq(&a.top.prefer_wheel, &b.top.prefer_wheel), "prefer_wheel");
    push_field(&mut f, !strs_eq(&a.top.exclude_wheels, &b.top.exclude_wheels), "exclude_wheels");
    push_field(&mut f, !opt_str_eq(&a.top.overlay, &b.top.overlay), "overlay");
    push_field(&mut f, !opt_ep_eq(&a.top.entry_points, &b.top.entry_points), "entry_points");
    push_field(&mut f, !opt_strs_eq(&a.top.visibility, &b.top.visibility), "visibility");
    push_field(&mut f, !strs_eq(&a.top.labels, &b.top.labels), "labels");
    push_field(&mut f, !map_eq(&a.top.runtime_env, &b.top.runtime_env), "runtime_env");
    push_field(&mut f, a.top.sdist.is_some() != b.top.sdist.is_some(), "sdist");
    push_field(&mut f, a.replace_community != b.replace_community, "replace_community");
    push_field(&mut f, !sections_eq(&a.cfg_sections, &b.cfg_sections), "cfg_sections");
    assert(strings_view(f@) =~= changed_fields(*a, *b));
    f
}

/// The differences between two fixup sets, in package-name order.
pub fn diff_fixup_sets(old: &FixupSet, new: &FixupSet) -> (r: Vec<DiffLine>)
    requires
        old.wf(),
        new.wf(),
    ensures
        lines_view(r@) == diff_spec(old.configs().pairs(), new.configs().pairs()),
{
    let o = old.iter();
    let n = new.iter();
    let mut out: Vec<DiffLine> = Vec::new();
    let mut i: usize = 0;
    let mut j: usize = 0;
    proof {
        assert(o@.skip(0) =~= o@);
        assert(n@.skip(0) =~= n@);
        assert(lines_view(out@) + diff_spec(o@.skip(0), n@.skip(0)) =~= diff_spec(o@, n@));
    }
    while i < o.len() || j < n.len()
        invariant
            i <= o@.len(),
            j <= n@.len(),
            o@ == old.configs().pairs(),
            n@ == new.configs().pairs(),
            lines_view(out@) + diff_spec(o@.skip(i as int), n@.skip(j as int)) == diff_spec(o@, n@),
        decreases o@.len() - i + n@.len() - j,
    {
        let ghost os = o@.skip(i as int);
        let ghost ns = n@.skip(j as int);
        let ghost pre = lines_view(out@);
        let added = i >= o.len() || (j < n.len() && string_lt(&n[j].0, &o[i].0));
        if added {
            out.push(DiffLine::Added(n[j].0.clone()));
            proof {
                assert(ns[0] == n@[j as int]);
                assert(ns.drop_first() =~= n@.skip(j + 1));
                assert(lines_view(out@) =~= pre.push(DiffLineModel::Added(n@[j as int].0@)));
            }
            j += 1;
        } else if j >= n.len() || string_lt(&o[i].0, &n[j].0) {
            out.push(DiffLine::Removed(o[i].0.clone()));
            proof {
                assert(os[0] == o@[i as int]);
                assert(os.drop_first() =~= o@.skip(i + 1));
                assert(lines_view(out@) =~= pre.push(DiffLineModel::Removed(o@[i as int].0@)));
            }
            i += 1;
        } else {
            let fields = modified_fields(&o[i].1, &n[j].1);
            proof {
                assert(os[0] == o@[i as int]);
                assert(ns[0] == n@[j as int]);
                assert(os.drop_first() =~= o@.skip(i + 1));
                assert(ns.drop_first() =~= n@.skip(j + 1));
                crate::text::lemma_seq_lt_total(o@[i as int].0@, n@[j as int].0@);
            }
            if fields.len() > 0 {
                let ghost fv = strings_view(fields@);
                out.push(DiffLine::Modified(o[i].0.clone(), fields));
                proof {
                    assert(lines_view(out@) =~= pre.push(DiffLineModel::Modified(o@[i as int].0@, fv)));
                }
            }
            i += 1;
            j += 1;
        }
        proof {
            assert(lines_view(out@) + diff_spec(o@.skip(i as int), n@.skip(j as int)) =~= diff_spec(o@, n@));
        }
    }
    proof {
        assert(o@.skip(i as int) =~= Seq::<(String, FixupConfig)>::empty());
        assert(n@.skip(j as int) =~= Seq::<(String, FixupConfig)>::empty());
        assert(lines_view(out@) =~= diff_spec(o@, n@));
    }
    out
}

/// How one diff line is shown.
pub open spec fn line_text(l: DiffLineModel) -> Seq<char> {
    match l {
        DiffLineModel::Added(n) => "+ "@ + n + "\n"@,
        DiffLineModel::Removed(n) => "- "@ + n + "\n"@,
        DiffLineModel::Modified(n, f) => "~ "@ + n + " ("@ + join_with(f, ", "@) + ")\n"@,
    }
}

/// The lines shown one after another (empty for no lines).
pub open spec fn diff_text(ls: Seq<DiffLineModel>) -> Seq<char>
    decreases ls.len(),
{
    if ls.len() == 0 {
        Seq::empty()
    } else {
        diff_text(ls.drop_last()) + line_text(ls.last())
    }
}

/// The diff as shown to the user: one newline-terminated line per difference.
pub fn render_diff(lines: &[DiffLine]) -> (r: String)
    ensures
        r@ == diff_text(lines_view(lines@)),
{
    let ghost lv = lines_view(lines@);
    let mut out = String::new();
    let mut i: usize = 0;
    while i < lines.len()
        invariant
            i <= lines@.len(),
            lv == lines_view(lines@),
            out@ == diff_text(lv.subrange(0, i as int)),
        decreases lines@.len() - i,
    {
        match &lines[i] {
            DiffLine::Added(n) => {
                push_str(&mut out, "+ ");
                push_str(&mut out, n.as_str());
                push_str(&mut out, "\n");
            },
            DiffLine::Removed(n) => {
                push_str(&mut out, "- ");
                push_str(&mut out, n.as_str());
                push_str(&mut out, "\n");
            },
            DiffLine::Modified(n, fields) => {
                push_str(&mut out, "~ ");
                push_str(&mut out, n.as_str());
                push_str(&mut out, " (");
                push_joined(&mut out, fields, ", ");
                push_str(&mut out, ")\n");
            },
        }
        proof {
            let t = lv.subrange(0, i + 1);
            assert(t.drop_last() =~= lv.subrange(0, i as int));
            assert(t.last() == lines@[i as int]@);
        }
        i += 1;
    }
    assert(lv.subrange(0, i as int) =~= lv);
    out
}

} // verus!
