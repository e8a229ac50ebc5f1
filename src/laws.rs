//! Laws of normalization, proved over the spec model of `path`: a
//! normalized path is its own normal form, and it is never empty.

use vstd::prelude::*;

use crate::path::{
    ComponentView, classify, classify_all, is_rooted, lemma_reduced_no_cur_dir, normalized,
    parsed, reduced, rendered, segments, sep_after, starts_with_cur_dir, step, text,
};

verus! {

/// A name that a path segment can carry: not empty, not `.` or `..`, and
/// free of separators.
pub open spec fn good_name(n: Seq<char>) -> bool {
    n.len() > 0 && n != seq!['.'] && n != seq!['.', '.'] && !n.contains('/')
}

/// What a path is split into: a root or a current-directory marker only in
/// first place, no prefix, and good names only.
pub open spec fn is_parsed_form(cs: Seq<ComponentView>) -> bool {
    forall|i: int|
        0 <= i < cs.len() ==> match #[trigger] cs[i] {
            ComponentView::Prefix(_) => false,
            ComponentView::RootDir => i == 0,
            ComponentView::CurDir => i == 0,
            ComponentView::ParentDir => true,
            ComponentView::Normal(n) => good_name(n),
        }
}

/// A component that may stand after the start of a normal form.
pub open spec fn is_body(c: ComponentView) -> bool {
    match c {
        ComponentView::ParentDir => true,
        ComponentView::Normal(n) => good_name(n),
        _ => false,
    }
}

/// What a reduction of a split path leaves: a root only in first place,
/// parent references only at the start of a relative path, then names.
pub open spec fn is_normal_form(st: Seq<ComponentView>) -> bool {
    &&& forall|i: int|
        0 <= i < st.len() ==> (#[trigger] st[i] is RootDir && i == 0) || is_body(st[i])
    &&& forall|i: int, j: int|
        0 <= i < j < st.len() && #[trigger] st[j] is ParentDir ==> #[trigger] st[i] is ParentDir
}

proof fn lemma_segments_free_of_separators(s: Seq<char>)
    ensures
        forall|k: int| 0 <= k < segments(s).len() ==> !(#[trigger] segments(s)[k]).contains('/'),
    decreases s.len(),
{
    if s.len() > 0 {
        let prev = segments(s.drop_last());
        lemma_segments_free_of_separators(s.drop_last());
        crate::path::lemma_segments_nonempty(s.drop_last());
        if s.last() != '/' {
            let t = prev.last().push(s.last());
            assert forall|k: int| 0 <= k < segments(s).len() implies !(#[trigger] segments(
                s,
            )[k]).contains('/') by {
                if k == prev.len() - 1 {
                    if t.contains('/') {
                        let x = choose|x: int| 0 <= x < t.len() && t[x] == '/';
                        if x < prev.last().len() {
                            assert(prev.last()[x] == '/');
                        }
                    }
                } else {
                    assert(segments(s)[k] == prev[k]);
                }
            }
        } else {
            assert forall|k: int| 0 <= k < segments(s).len() implies !(#[trigger] segments(
                s,
            )[k]).contains('/') by {
                if k < prev.len() {
                    assert(segments(s)[k] == prev[k]);
                }
            }
        }
    }
}

proof fn lemma_classify_all_append(a: Seq<Seq<char>>, b: Seq<Seq<char>>)
    ensures
        classify_all(a + b) == classify_all(a) + classify_all(b),
    decreases b.len(),
{
    if b.len() == 0 {
        assert(a + b =~= a);
        assert(classify_all(a) + classify_all(b) =~= classify_all(a));
    } else {
        lemma_classify_all_append(a, b.drop_last());
        assert((a + b).drop_last() =~= a + b.drop_last());
        assert((a + b).last() == b.last());
        assert(classify_all(a + b) =~= classify_all(a) + classify_all(b));
    }
}

proof fn lemma_classify_all_parsed_form(segs: Seq<Seq<char>>)
    requires
        forall|k: int| 0 <= k < segs.len() ==> !(#[trigger] segs[k]).contains('/'),
    ensures
        forall|i: int|
            0 <= i < classify_all(segs).len() ==> is_body(#[trigger] classify_all(segs)[i]),
    decreases segs.len(),
{
    if segs.len() > 0 {
        let prev = segs.drop_last();
        assert forall|k: int| 0 <= k < prev.len() implies !(#[trigger] prev[k]).contains('/') by {
            assert(prev[k] == segs[k]);
        }
        lemma_classify_all_parsed_form(prev);
        let l = segs.last();
        assert(!l.contains('/'));
        let a = classify_all(prev);
        let r = classify_all(segs);
        assert forall|i: int| 0 <= i < r.len() implies is_body(#[trigger] r[i]) by {
            if i < a.len() {
                assert(r[i] == a[i]);
            }
        }
    }
}

proof fn lemma_parsed_form(s: Seq<char>)
    ensures
        is_parsed_form(parsed(s)),
{
    lemma_segments_free_of_separators(s);
    lemma_classify_all_parsed_form(segments(s));
    let head = parsed(s).len() - classify_all(segments(s)).len();
    assert(head <= 1) by {
        if is_rooted(s) {
            assert(!starts_with_cur_dir(s));
        }
    }
    let cs = parsed(s);
    assert forall|i: int| 0 <= i < cs.len() implies match #[trigger] cs[i] {
        ComponentView::Prefix(_) => false,
        ComponentView::RootDir => i == 0,
        ComponentView::CurDir => i == 0,
        ComponentView::ParentDir => true,
        ComponentView::Normal(n) => good_name(n),
    } by {
        if i >= head {
            assert(cs[i] == classify_all(segments(s))[i - head]);
        }
    }
}

proof fn lemma_reduced_normal_form(cs: Seq<ComponentView>)
    requires
        is_parsed_form(cs),
    ensures
        is_normal_form(reduced(cs)),
    decreases cs.len(),
{
    if cs.len() > 0 {
        let prev = cs.drop_last();
        assert(is_parsed_form(prev)) by {
            assert forall|i: int| 0 <= i < prev.len() implies match #[trigger] prev[i] {
                ComponentView::Prefix(_) => false,
                ComponentView::RootDir => i == 0,
                ComponentView::CurDir => i == 0,
                ComponentView::ParentDir => true,
                ComponentView::Normal(n) => good_name(n),
            } by {
                assert(prev[i] == cs[i]);
            }
        }
        lemma_reduced_normal_form(prev);
        let st = reduced(prev);
        let c = cs.last();
        assert(match cs[cs.len() - 1] {
            ComponentView::Prefix(_) => false,
            ComponentView::RootDir => cs.len() - 1 == 0,
            ComponentView::CurDir => cs.len() - 1 == 0,
            ComponentView::ParentDir => true,
            ComponentView::Normal(n) => good_name(n),
        });
        let r = step(st, c);
        if c is RootDir {
            assert(prev.len() == 0);
            assert(st =~= Seq::<ComponentView>::empty());
        }
        if c is ParentDir && st.len() > 0 && st.last() is ParentDir {
            assert forall|i: int| 0 <= i < r.len() - 1 implies #[trigger] r[i] is ParentDir by {
                assert(st[i] is ParentDir);
            }
        }
        assert(is_normal_form(r)) by {
            assert forall|i: int| 0 <= i < r.len() implies (#[trigger] r[i] is RootDir && i == 0)
                || is_body(r[i]) by {
                if i < st.len() {
                    assert(r[i] == st[i]);
                }
            }
            assert forall|i: int, j: int|
                0 <= i < j < r.len() && #[trigger] r[j] is ParentDir implies #[trigger] r[i] is ParentDir by {
                if j < st.len() {
                    assert(r[j] == st[j] && r[i] == st[i]);
                }
            }
        }
    }
}

proof fn lemma_reduced_fixes_normal_form(st: Seq<ComponentView>)
    requires
        is_normal_form(st),
    ensures
        reduced(st) == st,
    decreases st.len(),
{
    if st.len() > 0 {
        let prev = st.drop_last();
        assert(is_normal_form(prev)) by {
            assert forall|i: int| 0 <= i < prev.len() implies (#[trigger] prev[i] is RootDir && i
                == 0) || is_body(prev[i]) by {
                assert(prev[i] == st[i]);
            }
            assert forall|i: int, j: int|
                0 <= i < j < prev.len() && #[trigger] prev[j] is ParentDir implies #[trigger] prev[i] is ParentDir by {
                assert(prev[i] == st[i] && prev[j] == st[j]);
            }
        }
        lemma_reduced_fixes_normal_form(prev);
        let c = st.last();
        assert((st[st.len() - 1] is RootDir && st.len() - 1 == 0) || is_body(st[st.len() - 1]));
        if c is ParentDir && prev.len() > 0 {
            assert(st[prev.len() - 1] is ParentDir);
        }
        assert(step(prev, c) =~= st);
    }
}

proof fn lemma_classify_all_single(seg: Seq<char>)
    ensures
        classify_all(seq![seg]) == classify(seg),
{
    let one = seq![seg];
    assert(one.drop_last() =~= Seq::<Seq<char>>::empty());
    assert(one.last() == seg);
    assert(classify_all(one.drop_last()) == Seq::<ComponentView>::empty());
    assert(classify_all(one) =~= classify(seg));
}

proof fn lemma_segments_plain(t: Seq<char>)
    requires
        !t.contains('/'),
    ensures
        segments(t) == seq![t],
    decreases t.len(),
{
    if t.len() > 0 {
        let p = t.drop_last();
        assert(!p.contains('/')) by {
            if p.contains('/') {
                let x = choose|x: int| 0 <= x < p.len() && p[x] == '/';
                assert(t[x] == '/');
            }
        }
        lemma_segments_plain(p);
        assert(t[t.len() - 1] != '/');
        assert(p.push(t.last()) =~= t);
        assert(segments(t) =~= seq![t]);
    } else {
        assert(t =~= Seq::<char>::empty());
    }
}

proof fn lemma_segments_sep(a: Seq<char>, b: Seq<char>)
    ensures
        segments(a + seq!['/'] + b) == segments(a) + segments(b),
    decreases b.len(),
{
    let w = a + seq!['/'] + b;
    crate::path::lemma_segments_nonempty(a);
    if b.len() == 0 {
        assert(w.drop_last() =~= a);
        assert(w.last() == '/');
        assert(segments(w) =~= segments(a) + segments(b));
    } else {
        let b2 = b.drop_last();
        lemma_segments_sep(a, b2);
        crate::path::lemma_segments_nonempty(b2);
        assert(w.drop_last() =~= a + seq!['/'] + b2);
        assert(w.last() == b.last());
        assert(segments(w) =~= segments(a) + segments(b));
    }
}

/// The texts of a sequence of components.
pub open spec fn texts(xs: Seq<ComponentView>) -> Seq<Seq<char>> {
    xs.map_values(|c: ComponentView| text(c))
}

proof fn lemma_segments_of_body(xs: Seq<ComponentView>)
    requires
        xs.len() > 0,
        forall|i: int| 0 <= i < xs.len() ==> is_body(#[trigger] xs[i]),
    ensures
        segments(rendered(xs)) == texts(xs),
        classify_all(texts(xs)) == xs,
    decreases xs.len(),
{
    let l = xs.last();
    assert(is_body(xs[xs.len() - 1]));
    assert(!text(l).contains('/')) by {
        if l is ParentDir {
            if text(l).contains('/') {
                let x = choose|x: int| 0 <= x < text(l).len() && text(l)[x] == '/';
                assert(seq!['.', '.'][x] == '.');
            }
        }
    }
    lemma_segments_plain(text(l));
    assert(classify(text(l)) == seq![l]) by {
        if l is ParentDir {
            assert(seq!['.', '.'].len() != seq!['.'].len());
        }
    }
    if xs.len() == 1 {
        assert(texts(xs) =~= seq![text(l)]);
        lemma_classify_all_single(text(l));
        assert(seq![l] =~= xs);
    } else {
        let p = xs.drop_last();
        assert forall|i: int| 0 <= i < p.len() implies is_body(#[trigger] p[i]) by {
            assert(p[i] == xs[i]);
        }
        lemma_segments_of_body(p);
        assert(is_body(p[p.len() - 1]));
        assert(sep_after(p.last()));
        assert(rendered(xs) == rendered(p) + seq!['/'] + text(l));
        lemma_segments_sep(rendered(p), text(l));
        assert(texts(xs) =~= texts(p) + seq![text(l)]);
        assert(texts(xs).drop_last() =~= texts(p));
        assert(classify_all(texts(xs)) =~= xs);
    }
}

proof fn lemma_rendered_after_root(xs: Seq<ComponentView>)
    requires
        xs.len() > 0,
    ensures
        rendered(seq![ComponentView::RootDir] + xs) == seq!['/'] + rendered(xs),
    decreases xs.len(),
{
    let w = seq![ComponentView::RootDir] + xs;
    if xs.len() == 1 {
        let r = seq![ComponentView::RootDir];
        assert(w.drop_last() =~= r);
        assert(w.last() == xs[0]);
        assert(r[0] == ComponentView::RootDir);
        assert(rendered(r) == seq!['/']);
        assert(rendered(xs) == text(xs[0]));
        assert(rendered(w) =~= seq!['/'] + rendered(xs));
    } else {
        lemma_rendered_after_root(xs.drop_last());
        assert(w.drop_last() =~= seq![ComponentView::RootDir] + xs.drop_last());
        assert(w.drop_last().last() == xs.drop_last().last());
        assert(rendered(w) =~= seq!['/'] + rendered(xs));
    }
}

proof fn lemma_first_segment(s: Seq<char>)
    ensures
        is_rooted(s) ==> segments(s)[0].len() == 0,
        starts_with_cur_dir(s) ==> segments(s)[0] == seq!['.'],
{
    if is_rooted(s) {
        let e = Seq::<char>::empty();
        assert(s =~= e + seq!['/'] + s.drop_first());
        lemma_segments_sep(e, s.drop_first());
    }
    if s == seq!['.'] {
        assert(!s.contains('/')) by {
            if s.contains('/') {
                let x = choose|x: int| 0 <= x < s.len() && s[x] == '/';
                assert(s[x] == '.');
            }
        }
        lemma_segments_plain(s);
    } else if s.len() >= 2 && s[0] == '.' && s[1] == '/' {
        let d = seq!['.'];
        assert(s =~= d + seq!['/'] + s.subrange(2, s.len() as int));
        lemma_segments_sep(d, s.subrange(2, s.len() as int));
        assert(!d.contains('/')) by {
            if d.contains('/') {
                let x = choose|x: int| 0 <= x < d.len() && d[x] == '/';
                assert(d[x] == '.');
            }
        }
        lemma_segments_plain(d);
    }
}

proof fn lemma_parsed_rendered(st: Seq<ComponentView>)
    requires
        st.len() > 0,
        is_normal_form(st),
    ensures
        parsed(rendered(st)) == st,
{
    if st[0] is RootDir {
        let xs = st.drop_first();
        assert(st =~= seq![ComponentView::RootDir] + xs);
        assert forall|i: int| 0 <= i < xs.len() implies is_body(#[trigger] xs[i]) by {
            assert(xs[i] == st[i + 1]);
        }
        if xs.len() == 0 {
            let s = rendered(st);
            assert(s == seq!['/']);
            let e = Seq::<char>::empty();
            assert(s =~= e + seq!['/'] + e);
            lemma_segments_sep(e, e);
            assert(segments(s) =~= seq![e, e]);
            assert(seq![e, e].drop_last() =~= seq![e]);
            assert(seq![e, e].last() == e);
            lemma_classify_all_single(e);
            assert(classify_all(segments(s)) =~= Seq::<ComponentView>::empty());
            assert(!starts_with_cur_dir(s));
            assert(parsed(s) =~= st);
        } else {
            lemma_rendered_after_root(xs);
            lemma_segments_of_body(xs);
            let e = Seq::<char>::empty();
            let s = rendered(st);
            assert(s =~= e + seq!['/'] + rendered(xs));
            lemma_segments_sep(e, rendered(xs));
            assert(segments(s) =~= seq![e] + texts(xs));
            lemma_classify_all_append(seq![e], texts(xs));
            lemma_classify_all_single(e);
            assert(classify_all(seq![e]) =~= Seq::<ComponentView>::empty());
            assert(is_rooted(s));
            assert(!starts_with_cur_dir(s));
            assert(parsed(s) =~= st);
        }
    } else {
        assert forall|i: int| 0 <= i < st.len() implies is_body(#[trigger] st[i]) by {
            assert((st[i] is RootDir && i == 0) || is_body(st[i]));
        }
        lemma_segments_of_body(st);
        let s = rendered(st);
        lemma_first_segment(s);
        assert(segments(s)[0] == text(st[0]));
        assert(is_body(st[0]));
        assert(text(st[0]).len() > 0);
        assert(text(st[0]) != seq!['.']) by {
            if st[0] is ParentDir {
                assert(seq!['.', '.'].len() != seq!['.'].len());
            }
        }
        assert(parsed(s) =~= st);
    }
}

/// Normalizing never yields the empty path.
pub proof fn lemma_normalized_nonempty(p: Seq<char>)
    ensures
        normalized(p).len() > 0,
{
    let st = reduced(parsed(p));
    lemma_parsed_form(p);
    lemma_reduced_normal_form(parsed(p));
    if st.len() > 0 {
        lemma_parsed_rendered(st);
        if rendered(st).len() == 0 {
            let e = Seq::<char>::empty();
            assert(rendered(st) =~= e);
            assert(segments(e) =~= seq![e]);
            lemma_classify_all_single(e);
            assert(parsed(e) =~= Seq::<ComponentView>::empty());
        }
    }
}

/// Normalizing is idempotent: a normalized path is its own normal form.
pub proof fn lemma_normalize_idempotent(p: Seq<char>)
    ensures
        normalized(normalized(p)) == normalized(p),
{
    let st = reduced(parsed(p));
    lemma_parsed_form(p);
    lemma_reduced_normal_form(parsed(p));
    if st.len() == 0 {
        let d = seq!['.'];
        assert(!d.contains('/')) by {
            if d.contains('/') {
                let x = choose|x: int| 0 <= x < d.len() && d[x] == '/';
                assert(d[x] == '.');
            }
        }
        lemma_segments_plain(d);
        lemma_classify_all_single(d);
        assert(classify_all(segments(d)) =~= Seq::<ComponentView>::empty());
        assert(parsed(d) =~= seq![ComponentView::CurDir]);
        let c = seq![ComponentView::CurDir];
        assert(c.drop_last() =~= Seq::<ComponentView>::empty());
        assert(c.last() == ComponentView::CurDir);
        assert(reduced(c.drop_last()) == Seq::<ComponentView>::empty());
        assert(reduced(parsed(d)) =~= Seq::<ComponentView>::empty());
    } else {
        lemma_parsed_rendered(st);
        lemma_reduced_fixes_normal_form(st);
    }
}

} // verus!
