use vstd::prelude::*;
use vstd::string::*;

verus! {

/// One classified unit of a path.
pub enum Component {
    /// A platform-specific root qualifier, such as a drive designator.
    Prefix(String),
    /// The root separator of an absolute path.
    RootDir,
    /// A reference to the current directory, `.`.
    CurDir,
    /// A reference to the parent directory, `..`.
    ParentDir,
    /// A named segment.
    Normal(String),
}

/// The mathematical value of a `Component`: its texts as character sequences.
pub enum ComponentView {
    Prefix(Seq<char>),
    RootDir,
    CurDir,
    ParentDir,
    Normal(Seq<char>),
}

impl View for Component {
    type V = ComponentView;

    open spec fn view(&self) -> ComponentView {
        match self {
            Component::Prefix(p) => ComponentView::Prefix(p@),
            Component::RootDir => ComponentView::RootDir,
            Component::CurDir => ComponentView::CurDir,
            Component::ParentDir => ComponentView::ParentDir,
            Component::Normal(n) => ComponentView::Normal(n@),
        }
    }
}

impl Component {
    /// A copy of this component.
    pub fn duplicate(&self) -> (r: Component)
        ensures
            r@ == self@,
    {
        match self {
            Component::Prefix(p) => Component::Prefix(p.clone()),
            Component::RootDir => Component::RootDir,
            Component::CurDir => Component::CurDir,
            Component::ParentDir => Component::ParentDir,
            Component::Normal(n) => Component::Normal(n.clone()),
        }
    }
}

/// The views of a sequence of components.
pub open spec fn views(cs: Seq<Component>) -> Seq<ComponentView> {
    cs.map_values(|c: Component| c@)
}

/// One step of the reduction: how the stack `st` changes on meeting `c`.
pub open spec fn step(st: Seq<ComponentView>, c: ComponentView) -> Seq<ComponentView> {
    match c {
        ComponentView::CurDir => st,
        ComponentView::ParentDir => {
            if st.len() == 0 {
                st.push(c)
            } else {
                match st.last() {
                    ComponentView::Prefix(_) => st.push(c),
                    ComponentView::RootDir => st,
                    ComponentView::CurDir => st,
                    ComponentView::ParentDir => st.push(c),
                    ComponentView::Normal(_) => st.drop_last(),
                }
            }
        },
        _ => st.push(c),
    }
}

/// The stack left after scanning `cs` from left to right.
pub open spec fn reduced(cs: Seq<ComponentView>) -> Seq<ComponentView>
    decreases cs.len(),
{
    if cs.len() == 0 {
        Seq::empty()
    } else {
        step(reduced(cs.drop_last()), cs.last())
    }
}

/// A current-directory marker never stays on the stack.
pub proof fn lemma_reduced_no_cur_dir(cs: Seq<ComponentView>)
    ensures
        forall|i: int| 0 <= i < reduced(cs).len() ==> !(#[trigger] reduced(cs)[i] is CurDir),
    decreases cs.len(),
{
    if cs.len() > 0 {
        lemma_reduced_no_cur_dir(cs.drop_last());
    }
}

/// Reduces a sequence of components with a stack, scanning left to right:
/// `.` is dropped, `..` cancels a preceding named segment, is absorbed by a
/// root and is kept after a prefix, after another `..` or at the start.
pub fn reduce(comps: &Vec<Component>) -> (r: Vec<Component>)
    ensures
        views(r@) == reduced(views(comps@)),
{
    let mut stack: Vec<Component> = Vec::new();
    let ghost cs = views(comps@);
    for i in 0..comps.len()
        invariant
            cs == views(comps@),
            views(stack@) == reduced(cs.take(i as int)),
    {
        proof {
            assert(cs.take(i + 1).drop_last() == cs.take(i as int));
            lemma_reduced_no_cur_dir(cs.take(i as int));
        }
        let ghost before = views(stack@);
        let c = &comps[i];
        match c {
            Component::CurDir => {},
            Component::ParentDir => {
                let n = stack.len();
                if n == 0 {
                    stack.push(Component::ParentDir);
                } else {
                    match &stack[n - 1] {
                        Component::Prefix(_) => {
                            stack.push(Component::ParentDir);
                        },
                        Component::RootDir => {},
                        Component::CurDir => {
                            // Unreachable: a `.` is never pushed, so the stack holds none.
                            proof {
                                assert(before[n - 1] is CurDir);
                                assert(false);
                            }
                        },
                        Component::ParentDir => {
                            stack.push(Component::ParentDir);
                        },
                        Component::Normal(_) => {
                            stack.pop();
                        },
                    }
                }
            },
            _ => {
                stack.push(c.duplicate());
            },
        }
        proof {
            assert(views(stack@) =~= step(before, cs[i as int]));
        }
    }
    proof {
        assert(cs.take(comps.len() as int) == cs);
    }
    stack
}

/// The texts between the `/` separators of `s`, empty ones included: a text
/// with `k` separators has `k + 1` segments.
pub open spec fn segments(s: Seq<char>) -> Seq<Seq<char>>
    decreases s.len(),
{
    if s.len() == 0 {
        seq![Seq::empty()]
    } else {
        let prev = segments(s.drop_last());
        if s.last() == '/' {
            prev.push(Seq::empty())
        } else {
            prev.update(prev.len() - 1, prev.last().push(s.last()))
        }
    }
}

pub proof fn lemma_segments_nonempty(s: Seq<char>)
    ensures
        segments(s).len() >= 1,
    decreases s.len(),
{
    if s.len() > 0 {
        lemma_segments_nonempty(s.drop_last());
    }
}

/// The component that one segment stands for: none for an empty segment or
/// for `.`, a parent reference for `..`, a named segment otherwise.
pub open spec fn classify(seg: Seq<char>) -> Seq<ComponentView> {
    if seg.len() == 0 || seg == seq!['.'] {
        Seq::empty()
    } else if seg == seq!['.', '.'] {
        seq![ComponentView::ParentDir]
    } else {
        seq![ComponentView::Normal(seg)]
    }
}

/// The components that a sequence of segments stands for, in order.
pub open spec fn classify_all(segs: Seq<Seq<char>>) -> Seq<ComponentView>
    decreases segs.len(),
{
    if segs.len() == 0 {
        Seq::empty()
    } else {
        classify_all(segs.drop_last()) + classify(segs.last())
    }
}

/// The path starts at the root.
pub open spec fn is_rooted(s: Seq<char>) -> bool {
    s.len() > 0 && s[0] == '/'
}

/// The path is `.` or starts with `./`: the one place where a `.` is kept.
pub open spec fn starts_with_cur_dir(s: Seq<char>) -> bool {
    s == seq!['.'] || (s.len() >= 2 && s[0] == '.' && s[1] == '/')
}

/// The components of a path: a root if it starts with `/`, a current-directory
/// marker if it is `.` or starts with `./`, then one component for each
/// segment that is neither empty nor `.`.
pub open spec fn parsed(s: Seq<char>) -> Seq<ComponentView> {
    (if is_rooted(s) {
        seq![ComponentView::RootDir]
    } else {
        Seq::empty()
    }) + (if starts_with_cur_dir(s) {
        seq![ComponentView::CurDir]
    } else {
        Seq::empty()
    }) + classify_all(segments(s))
}

/// Appends the component that the segment `path[start..end]` stands for.
fn push_segment(out: &mut Vec<Component>, path: &str, start: usize, end: usize)
    requires
        start <= end <= path@.len(),
    ensures
        views(final(out)@) == views(old(out)@) + classify(path@.subrange(start as int, end as int)),
{
    let ghost seg = path@.subrange(start as int, end as int);
    let ghost before = views(out@);
    let len = end - start;
    if len == 0 {
        assert(views(out@) =~= before + classify(seg));
        return;
    }
    let c0 = path.get_char(start);
    if len == 1 && c0 == '.' {
        assert(seg =~= seq!['.']);
        assert(views(out@) =~= before + classify(seg));
        return;
    }
    if len == 2 && c0 == '.' {
        let c1 = path.get_char(start + 1);
        if c1 == '.' {
            assert(seg =~= seq!['.', '.']);
            out.push(Component::ParentDir);
            assert(views(out@) =~= before + classify(seg));
            return;
        }
        assert(seg[1] != seq!['.', '.'][1]);
    }
    assert(seg != seq!['.']) by {
        assert(seq!['.'].len() == 1 && seq!['.'][0] == '.');
        assert(seg.len() == len);
        if len == 1 {
            assert(seg[0] == c0);
        }
    }
    let text = path.substring_char(start, end);
    out.push(Component::Normal(String::from_str(text)));
    assert(views(out@) =~= before + classify(seg));
}

/// Splits a `/`-separated path into its components. Repeated separators and
/// a trailing one are ignored, and so is every `.` segment but a leading one
/// of a relative path.
pub fn components(path: &str) -> (r: Vec<Component>)
    ensures
        views(r@) == parsed(path@),
{
    let ghost s = path@;
    let n = path.unicode_len();
    let mut out: Vec<Component> = Vec::new();
    if n > 0 && path.get_char(0) == '/' {
        out.push(Component::RootDir);
    } else if n == 1 && path.get_char(0) == '.' {
        assert(s =~= seq!['.']);
        out.push(Component::CurDir);
    } else if n >= 2 && path.get_char(0) == '.' && path.get_char(1) == '/' {
        out.push(Component::CurDir);
    }
    assert(!starts_with_cur_dir(s) ==> views(out@) =~= (if is_rooted(s) {
        seq![ComponentView::RootDir]
    } else {
        Seq::empty()
    })) by {
        if n == 1 && s =~= seq!['.'] {
            assert(s[0] == '.');
        }
    }
    let ghost header = views(out@);
    assert(header =~= (if is_rooted(s) {
        seq![ComponentView::RootDir]
    } else {
        Seq::empty()
    }) + (if starts_with_cur_dir(s) {
        seq![ComponentView::CurDir]
    } else {
        Seq::empty()
    }));
    let mut start: usize = 0;
    let mut i: usize = 0;
    proof {
        assert(s.take(0) =~= Seq::<char>::empty());
        assert(s.subrange(0, 0) =~= Seq::<char>::empty());
        assert(header + classify_all(segments(s.take(0)).drop_last()) =~= header);
    }
    while i < n
        invariant
            n == s.len(),
            s == path@,
            start <= i <= n,
            segments(s.take(i as int)).len() >= 1,
            segments(s.take(i as int)).last() == s.subrange(start as int, i as int),
            views(out@) == header + classify_all(segments(s.take(i as int)).drop_last()),
        decreases n - i,
    {
        let c = path.get_char(i);
        let ghost prev = segments(s.take(i as int));
        proof {
            assert(s.take(i + 1).drop_last() =~= s.take(i as int));
            assert(s.take(i + 1).last() == c);
        }
        if c == '/' {
            push_segment(&mut out, path, start, i);
            proof {
                let next = segments(s.take(i + 1));
                assert(next == prev.push(Seq::empty()));
                assert(next.drop_last() =~= prev);
                assert(prev =~= prev.drop_last().push(prev.last()));
                assert(classify_all(prev) == classify_all(prev.drop_last()) + classify(prev.last()));
                assert(views(out@) =~= header + classify_all(next.drop_last()));
                assert(s.subrange(i + 1, i + 1) =~= Seq::<char>::empty());
            }
            start = i + 1;
        } else {
            proof {
                let next = segments(s.take(i + 1));
                assert(next.drop_last() =~= prev.drop_last());
                assert(next.last() =~= s.subrange(start as int, i + 1));
            }
        }
        i = i + 1;
    }
    push_segment(&mut out, path, start, n);
    proof {
        let segs = segments(s);
        assert(s.take(n as int) =~= s);
        assert(classify_all(segs) == classify_all(segs.drop_last()) + classify(segs.last()));
        assert(views(out@) =~= header + classify_all(segs));
    }
    out
}

/// The text that a component is written as.
pub open spec fn text(c: ComponentView) -> Seq<char> {
    match c {
        ComponentView::Prefix(p) => p,
        ComponentView::RootDir => seq!['/'],
        ComponentView::CurDir => seq!['.'],
        ComponentView::ParentDir => seq!['.', '.'],
        ComponentView::Normal(n) => n,
    }
}

/// A separator is written after the component when another one follows:
/// not after a root, which is one already, nor after a prefix.
pub open spec fn sep_after(c: ComponentView) -> bool {
    !(c is RootDir || c is Prefix)
}

/// The path that a sequence of components is joined into.
pub open spec fn rendered(cs: Seq<ComponentView>) -> Seq<char>
    decreases cs.len(),
{
    if cs.len() == 0 {
        Seq::empty()
    } else if cs.len() == 1 {
        text(cs[0])
    } else {
        let prev = cs.drop_last();
        rendered(prev) + (if sep_after(prev.last()) {
            seq!['/']
        } else {
            Seq::empty()
        }) + text(cs.last())
    }
}

/// The normalized form of a path: its components reduced and joined again,
/// or `.` where nothing is left.
pub open spec fn normalized(s: Seq<char>) -> Seq<char> {
    let st = reduced(parsed(s));
    if st.len() == 0 {
        seq!['.']
    } else {
        rendered(st)
    }
}

impl Component {
    /// The text that this component is written as.
    pub fn as_text(&self) -> (r: &str)
        ensures
            r@ == text(self@),
    {
        match self {
            Component::Prefix(p) => p.as_str(),
            Component::RootDir => {
                proof {
                    reveal_strlit("/");
                }
                "/"
            },
            Component::CurDir => {
                proof {
                    reveal_strlit(".");
                }
                "."
            },
            Component::ParentDir => {
                proof {
                    reveal_strlit("..");
                }
                ".."
            },
            Component::Normal(n) => n.as_str(),
        }
    }

    /// Whether a separator is written after this component when another
    /// one follows.
    pub fn needs_separator(&self) -> (r: bool)
        ensures
            r == sep_after(self@),
    {
        match self {
            Component::RootDir | Component::Prefix(_) => false,
            _ => true,
        }
    }
}

/// Joins components into a path, with a `/` between two of them unless the
/// first is a root or a prefix.
pub fn render(comps: &Vec<Component>) -> (r: String)
    ensures
        r@ == rendered(views(comps@)),
{
    let ghost cs = views(comps@);
    let mut out = String::new();
    for i in 0..comps.len()
        invariant
            cs == views(comps@),
            out@ == rendered(cs.take(i as int)),
    {
        proof {
            assert(cs.take(i + 1).drop_last() =~= cs.take(i as int));
        }
        if i > 0 && comps[i - 1].needs_separator() {
            proof {
                reveal_strlit("/");
            }
            out.append("/");
        }
        out.append(comps[i].as_text());
        proof {
            if i == 0 {
                assert(out@ =~= rendered(cs.take(1)));
            } else {
                assert(out@ =~= rendered(cs.take(i + 1)));
            }
        }
    }
    proof {
        assert(cs.take(comps.len() as int) == cs);
    }
    out
}

/// The lexical normal form of a `/`-separated path: separators are
/// collapsed, `.` segments dropped and `..` segments resolved against the
/// named segments before them; the parent of the root is the root. Where
/// nothing is left the result is `.`, never the empty string.
pub fn normalize(path: &str) -> (r: String)
    ensures
        r@ == normalized(path@),
        r@.len() > 0,
{
    proof {
        crate::laws::lemma_normalized_nonempty(path@);
    }
    let comps = components(path);
    let stack = reduce(&comps);
    if stack.len() == 0 {
        proof {
            reveal_strlit(".");
        }
        return String::from_str(".");
    }
    render(&stack)
}

} // verus!
