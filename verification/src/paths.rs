//! Relative and absolute paths as `std::path::Path` reads them: a sequence of
//! components, compared and ordered component by component.
//!
//! A component is kept as its text: `/` for the root, `.` for a leading
//! current-directory component, `..` for a parent, and the name otherwise.
//! Since a name is never empty and never one of those three, equal texts
//! mean equal components.

use vstd::prelude::*;

use crate::text::{
    chars_eq, chars_lt, chars_of, lemma_seq_lt_asymmetric, lemma_seq_lt_irreflexive,
    lemma_seq_lt_total, lemma_seq_lt_transitive, push_all, push_char, seq_lt, split_chars,
    split_seq,
};

verus! {

/// The views of a list of character vectors.
pub open spec fn vecs_view(v: Seq<Vec<char>>) -> Seq<Seq<char>> {
    v.map_values(|x: Vec<char>| x@)
}

/// The components among `/`-separated segments: empty segments and `.`
/// drop out, but for a `.` first segment of a relative path (`cur_ok`).
pub open spec fn keep_components(segs: Seq<Seq<char>>, cur_ok: bool) -> Seq<Seq<char>>
    decreases segs.len(),
{
    if segs.len() == 0 {
        Seq::empty()
    } else {
        let rest = keep_components(segs.drop_first(), false);
        if segs[0].len() == 0 || (segs[0] == seq!['.'] && !cur_ok) {
            rest
        } else {
            seq![segs[0]] + rest
        }
    }
}

/// The components of the path `s`.
pub open spec fn path_components(s: Seq<char>) -> Seq<Seq<char>> {
    if s.len() > 0 && s[0] == '/' {
        seq![seq!['/']] + keep_components(split_seq(s, '/'), false)
    } else {
        keep_components(split_seq(s, '/'), true)
    }
}

/// Splits a path into its components.
pub fn components(s: &str) -> (r: Vec<Vec<char>>)
    ensures
        vecs_view(r@) == path_components(s@),
{
    let cs = chars_of(s);
    let segs = split_chars(cs.as_slice(), '/');
    let ghost sv = vecs_view(segs@);
    assert(sv =~= split_seq(s@, '/'));
    let rooted = cs.len() > 0 && cs[0] == '/';
    let mut out: Vec<Vec<char>> = Vec::new();
    if rooted {
        let mut root: Vec<char> = Vec::new();
        root.push('/');
        out.push(root);
    }
    let mut cur_ok = !rooted;
    let ghost start = vecs_view(out@);
    let mut i: usize = 0;
    assert(sv.skip(0) =~= sv);
    while i < segs.len()
        invariant
            i <= segs@.len(),
            sv == vecs_view(segs@),
            i > 0 ==> !cur_ok,
            vecs_view(out@) + keep_components(sv.skip(i as int), cur_ok) == (if rooted {
                seq![seq!['/']] + keep_components(sv, false)
            } else {
                keep_components(sv, true)
            }),
        decreases segs@.len() - i,
    {
        let seg = &segs[i];
        let ghost rest = sv.skip(i as int);
        assert(rest[0] == seg@);
        assert(rest.drop_first() =~= sv.skip(i + 1));
        let is_dot = seg.len() == 1 && seg[0] == '.';
        assert(is_dot == (seg@ == seq!['.'])) by {
            if seg@ == seq!['.'] {
                assert(seg@[0] == '.');
            }
            if is_dot {
                assert(seg@ =~= seq!['.']);
            }
        }
        if !(seg.len() == 0 || (is_dot && !cur_ok)) {
            let copy = seg.clone();
            assert(copy@ == seg@);
            out.push(copy);
            assert(vecs_view(out@) =~= vecs_view(out@.drop_last()).push(seg@));
        }
        cur_ok = false;
        i += 1;
        assert(vecs_view(out@) + keep_components(sv.skip(i as int), cur_ok) =~= (if rooted {
            seq![seq!['/']] + keep_components(sv, false)
        } else {
            keep_components(sv, true)
        }));
    }
    assert(sv.skip(i as int) =~= Seq::<Seq<char>>::empty());
    assert(vecs_view(out@) =~= vecs_view(out@) + keep_components(sv.skip(i as int), cur_ok));
    proof {
        if rooted {
            assert(s@.len() > 0 && s@[0] == '/');
        }
    }
    out
}

/// Length of the longest common prefix of two component lists.
pub open spec fn common_len(a: Seq<Seq<char>>, b: Seq<Seq<char>>) -> nat
    decreases a.len(),
{
    if a.len() == 0 || b.len() == 0 || a[0] != b[0] {
        0
    } else {
        1 + common_len(a.drop_first(), b.drop_first())
    }
}

pub proof fn lemma_common_len_bound(a: Seq<Seq<char>>, b: Seq<Seq<char>>)
    ensures
        common_len(a, b) <= a.len(),
        common_len(a, b) <= b.len(),
    decreases a.len(),
{
    if !(a.len() == 0 || b.len() == 0 || a[0] != b[0]) {
        lemma_common_len_bound(a.drop_first(), b.drop_first());
    }
}

/// The longest common prefix of two component lists.
pub open spec fn common_prefix(a: Seq<Seq<char>>, b: Seq<Seq<char>>) -> Seq<Seq<char>> {
    a.subrange(0, common_len(a, b) as int)
}

/// Keeps the components `a` has in common with `b`, as
/// `iter().zip().take_while(eq).count()` and `truncate` do.
pub fn keep_common(a: &mut Vec<Vec<char>>, b: &Vec<Vec<char>>)
    ensures
        vecs_view(final(a)@) == common_prefix(vecs_view(old(a)@), vecs_view(b@)),
{
    let ghost av = vecs_view(a@);
    let ghost bv = vecs_view(b@);
    proof {
        lemma_common_len_bound(av, bv);
    }
    let mut i: usize = 0;
    assert(av.skip(0) =~= av);
    assert(bv.skip(0) =~= bv);
    while i < a.len() && i < b.len() && chars_eq(a[i].as_slice(), b[i].as_slice())
        invariant
            av == vecs_view(a@),
            bv == vecs_view(b@),
            i <= a@.len(),
            i <= b@.len(),
            common_len(av, bv) == i + common_len(av.skip(i as int), bv.skip(i as int)),
        decreases a@.len() - i,
    {
        assert(av.skip(i as int)[0] == a@[i as int]@);
        assert(bv.skip(i as int)[0] == b@[i as int]@);
        assert(av.skip(i as int).drop_first() =~= av.skip(i + 1));
        assert(bv.skip(i as int).drop_first() =~= bv.skip(i + 1));
        i += 1;
    }
    proof {
        if i < a@.len() && i < b@.len() {
            assert(av.skip(i as int)[0] == a@[i as int]@);
            assert(bv.skip(i as int)[0] == b@[i as int]@);
        }
    }
    a.truncate(i);
    assert(vecs_view(a@) =~= av.subrange(0, i as int));
}

/// Components joined with `/`.
pub open spec fn join_slash(c: Seq<Seq<char>>) -> Seq<char>
    decreases c.len(),
{
    if c.len() == 0 {
        Seq::empty()
    } else if c.len() == 1 {
        c[0]
    } else {
        join_slash(c.drop_last()) + seq!['/'] + c.last()
    }
}

/// The path that `PathBuf::from_iter` builds from components.
pub open spec fn render_components(c: Seq<Seq<char>>) -> Seq<char> {
    if c.len() > 0 && c[0] == seq!['/'] {
        seq!['/'] + join_slash(c.drop_first())
    } else {
        join_slash(c)
    }
}

fn join_slash_exec(c: &[Vec<char>], start: usize, out: &mut String)
    requires
        start <= c@.len(),
    ensures
        final(out)@ == old(out)@ + join_slash(vecs_view(c@).skip(start as int)),
{
    let ghost v = vecs_view(c@).skip(start as int);
    let ghost o0 = out@;
    let mut i: usize = start;
    assert(vecs_view(c@).skip(start as int).subrange(0, 0) =~= Seq::<Seq<char>>::empty());
    while i < c.len()
        invariant
            start <= i <= c@.len(),
            v == vecs_view(c@).skip(start as int),
            out@ == o0 + join_slash(v.subrange(0, i - start)),
        decreases c@.len() - i,
    {
        assert(v.subrange(0, i + 1 - start).drop_last() =~= v.subrange(0, i - start));
        assert(v[i - start] == c@[i as int]@);
        if i > start {
            push_char(out, '/');
        }
        push_all(out, c[i].as_slice());
        i += 1;
        assert(out@ =~= o0 + join_slash(v.subrange(0, i - start)));
    }
    assert(v.subrange(0, c@.len() - start) =~= v);
}

/// Builds the path text from components, as `PathBuf::from_iter` does.
pub fn render(c: &Vec<Vec<char>>) -> (r: String)
    ensures
        r@ == render_components(vecs_view(c@)),
{
    let mut out = String::new();
    if c.len() > 0 && c[0].len() == 1 && c[0][0] == '/' {
        assert(c@[0]@ =~= seq!['/']);
        push_char(&mut out, '/');
        join_slash_exec(c.as_slice(), 1, &mut out);
        assert(vecs_view(c@).skip(1) =~= vecs_view(c@).drop_first());
    } else {
        proof {
            if c@.len() > 0 && vecs_view(c@)[0] == seq!['/'] {
                assert(c@[0]@[0] == '/');
            }
        }
        join_slash_exec(c.as_slice(), 0, &mut out);
        assert(vecs_view(c@).skip(0) =~= vecs_view(c@));
    }
    out
}

/// Components order by kind (root, current, parent, name), names by text.
pub open spec fn comp_rank(c: Seq<char>) -> int {
    if c == seq!['/'] {
        1
    } else if c == seq!['.'] {
        2
    } else if c == seq!['.', '.'] {
        3
    } else {
        4
    }
}

pub open spec fn comp_lt(a: Seq<char>, b: Seq<char>) -> bool {
    comp_rank(a) < comp_rank(b) || (comp_rank(a) == 4 && comp_rank(b) == 4 && seq_lt(a, b))
}

/// Path order: component lists compared lexicographically.
pub open spec fn path_lt(a: Seq<Seq<char>>, b: Seq<Seq<char>>) -> bool
    decreases a.len(),
{
    if b.len() == 0 {
        false
    } else if a.len() == 0 {
        true
    } else if a[0] != b[0] {
        comp_lt(a[0], b[0])
    } else {
        path_lt(a.drop_first(), b.drop_first())
    }
}

pub proof fn lemma_path_lt_irreflexive(a: Seq<Seq<char>>)
    ensures
        !path_lt(a, a),
    decreases a.len(),
{
    if a.len() > 0 {
        lemma_path_lt_irreflexive(a.drop_first());
    }
}

pub proof fn lemma_comp_lt_transitive(a: Seq<char>, b: Seq<char>, c: Seq<char>)
    ensures
        comp_lt(a, b) && comp_lt(b, c) ==> comp_lt(a, c),
{
    lemma_seq_lt_transitive(a, b, c);
}

pub proof fn lemma_comp_lt_total(a: Seq<char>, b: Seq<char>)
    ensures
        a != b ==> comp_lt(a, b) || comp_lt(b, a),
{
    lemma_seq_lt_total(a, b);
}

pub proof fn lemma_comp_lt_asymmetric(a: Seq<char>, b: Seq<char>)
    ensures
        comp_lt(a, b) ==> !comp_lt(b, a),
{
    lemma_seq_lt_asymmetric(a, b);
}

pub proof fn lemma_path_lt_transitive(a: Seq<Seq<char>>, b: Seq<Seq<char>>, c: Seq<Seq<char>>)
    ensures
        path_lt(a, b) && path_lt(b, c) ==> path_lt(a, c),
    decreases a.len(),
{
    if a.len() > 0 && b.len() > 0 && c.len() > 0 {
        lemma_comp_lt_transitive(a[0], b[0], c[0]);
        lemma_comp_lt_asymmetric(a[0], b[0]);
        lemma_comp_lt_asymmetric(b[0], c[0]);
        lemma_path_lt_transitive(a.drop_first(), b.drop_first(), c.drop_first());
    }
}

pub proof fn lemma_path_lt_total(a: Seq<Seq<char>>, b: Seq<Seq<char>>)
    ensures
        a != b ==> path_lt(a, b) || path_lt(b, a),
    decreases a.len(),
{
    if a.len() > 0 && b.len() > 0 {
        lemma_comp_lt_total(a[0], b[0]);
        lemma_path_lt_total(a.drop_first(), b.drop_first());
        if a[0] == b[0] && a.drop_first() == b.drop_first() {
            assert(a =~= seq![a[0]] + a.drop_first());
            assert(b =~= seq![b[0]] + b.drop_first());
        }
    } else if a.len() == 0 && b.len() == 0 {
        assert(a =~= b);
    }
}

fn comp_rank_exec(c: &[char]) -> (r: u8)
    ensures
        r as int == comp_rank(c@),
{
    if c.len() == 1 && c[0] == '/' {
        assert(c@ =~= seq!['/']);
        1
    } else if c.len() == 1 && c[0] == '.' {
        assert(c@ =~= seq!['.']);
        proof {
            if c@ == seq!['/'] {
                assert(c@[0] == '/');
            }
        }
        2
    } else if c.len() == 2 && c[0] == '.' && c[1] == '.' {
        assert(c@ =~= seq!['.', '.']);
        3
    } else {
        proof {
            if c@ == seq!['/'] || c@ == seq!['.'] {
                assert(c@[0] == c@[0]);
            }
            if c@ == seq!['.', '.'] {
                assert(c@[1] == '.');
            }
        }
        4
    }
}

/// Path order on component lists.
pub fn path_less(a: &Vec<Vec<char>>, b: &Vec<Vec<char>>) -> (r: bool)
    ensures
        r == path_lt(vecs_view(a@), vecs_view(b@)),
{
    let ghost av = vecs_view(a@);
    let ghost bv = vecs_view(b@);
    let mut i: usize = 0;
    assert(av.skip(0) =~= av);
    assert(bv.skip(0) =~= bv);
    while i < a.len() && i < b.len()
        invariant
            av == vecs_view(a@),
            bv == vecs_view(b@),
            i <= a@.len(),
            i <= b@.len(),
            path_lt(av, bv) == path_lt(av.skip(i as int), bv.skip(i as int)),
        decreases a@.len() - i,
    {
        assert(av.skip(i as int)[0] == a@[i as int]@);
        assert(bv.skip(i as int)[0] == b@[i as int]@);
        if !chars_eq(a[i].as_slice(), b[i].as_slice()) {
            let ra = comp_rank_exec(a[i].as_slice());
            let rb = comp_rank_exec(b[i].as_slice());
            return ra < rb || (ra == 4 && rb == 4 && chars_lt(a[i].as_slice(), b[i].as_slice()));
        }
        assert(av.skip(i as int).drop_first() =~= av.skip(i + 1));
        assert(bv.skip(i as int).drop_first() =~= bv.skip(i + 1));
        i += 1;
    }
    i < b.len()
}

/// Pieces joined with a separator.
pub open spec fn join_with(c: Seq<Seq<char>>, sep: Seq<char>) -> Seq<char>
    decreases c.len(),
{
    if c.len() == 0 {
        Seq::empty()
    } else if c.len() == 1 {
        c[0]
    } else {
        join_with(c.drop_last(), sep) + sep + c.last()
    }
}

/// Appends the pieces of `items` joined with `sep`.
pub fn push_joined(out: &mut String, items: &Vec<String>, sep: &str)
    ensures
        final(out)@ == old(out)@ + join_with(crate::text::strings_view(items@), sep@),
{
    let ghost o0 = out@;
    let ghost iv = crate::text::strings_view(items@);
    let mut i: usize = 0;
    while i < items.len()
        invariant
            i <= items@.len(),
            iv == crate::text::strings_view(items@),
            out@ == o0 + join_with(iv.subrange(0, i as int), sep@),
        decreases items@.len() - i,
    {
        let ghost pre = out@;
        if i > 0 {
            crate::text::push_str(out, sep);
        }
        crate::text::push_str(out, items[i].as_str());
        proof {
            let t = iv.subrange(0, i + 1);
            assert(t.drop_last() =~= iv.subrange(0, i as int));
            assert(t.last() == items@[i as int]@);
            if i == 0 {
                assert(t.len() == 1);
                assert(join_with(iv.subrange(0, i as int), sep@) =~= Seq::<char>::empty());
            }
        }
        i += 1;
        assert(out@ =~= o0 + join_with(iv.subrange(0, i as int), sep@));
    }
    assert(iv.subrange(0, i as int) =~= iv);
}

} // verus!
