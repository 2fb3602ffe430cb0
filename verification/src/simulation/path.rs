//! Paths as the simulated file system sees them: text, split into components
//! the way std splits a Unix path, so that two texts name the same path when
//! their components are equal.
use vstd::prelude::*;

verus! {

/// One component of a path.
#[derive(Debug)]
pub enum PathComponent {
    RootDir,
    CurDir,
    ParentDir,
    Normal(String),
}

/// A path component as a value.
pub enum ComponentView {
    RootDir,
    CurDir,
    ParentDir,
    Normal(Seq<char>),
}

impl View for PathComponent {
    type V = ComponentView;

    open spec fn view(&self) -> ComponentView {
        match self {
            PathComponent::RootDir => ComponentView::RootDir,
            PathComponent::CurDir => ComponentView::CurDir,
            PathComponent::ParentDir => ComponentView::ParentDir,
            PathComponent::Normal(s) => ComponentView::Normal(s@),
        }
    }
}

/// The components of a list of components, as values.
pub open spec fn components_view(v: Seq<PathComponent>) -> Seq<ComponentView> {
    v.map_values(|c: PathComponent| c@)
}

/// `s` cut at every `/`: `"a/b"` gives `["a", "b"]`, `""` gives `[""]`.
pub open spec fn split_at_slash(s: Seq<char>) -> Seq<Seq<char>>
    decreases s.len(),
{
    if s.len() == 0 {
        seq![Seq::<char>::empty()]
    } else {
        let init = split_at_slash(s.drop_last());
        if s.last() == '/' {
            init.push(Seq::<char>::empty())
        } else {
            init.update(init.len() - 1, init.last().push(s.last()))
        }
    }
}

/// The component a piece between slashes stands for: none for an empty piece
/// or `.`, the parent for `..`, else a name.
pub open spec fn segment_components(seg: Seq<char>) -> Seq<ComponentView> {
    if seg.len() == 0 || seg == seq!['.'] {
        Seq::<ComponentView>::empty()
    } else if seg == seq!['.', '.'] {
        seq![ComponentView::ParentDir]
    } else {
        seq![ComponentView::Normal(seg)]
    }
}

/// The components of a list of pieces, in order.
pub open spec fn segments_components(segs: Seq<Seq<char>>) -> Seq<ComponentView>
    decreases segs.len(),
{
    if segs.len() == 0 {
        Seq::<ComponentView>::empty()
    } else {
        segments_components(segs.drop_last()) + segment_components(segs.last())
    }
}

/// The path starts with `.` as a piece of its own.
pub open spec fn has_cur_dir_prefix(s: Seq<char>) -> bool {
    s.len() >= 1 && s[0] == '.' && (s.len() == 1 || s[1] == '/')
}

/// The components of a Unix path: the root for a leading `/`, the current
/// directory for a leading `.` piece, then the pieces between slashes, where
/// empty pieces and `.` are dropped.
pub open spec fn parse_path(s: Seq<char>) -> Seq<ComponentView> {
    if s.len() > 0 && s[0] == '/' {
        seq![ComponentView::RootDir] + segments_components(split_at_slash(s.drop_first()))
    } else if has_cur_dir_prefix(s) {
        seq![ComponentView::CurDir] + segments_components(split_at_slash(s.drop_first()))
    } else {
        segments_components(split_at_slash(s))
    }
}

/// The parent of a path: all but its last component, unless the path is empty
/// or ends at the root.
pub open spec fn parent_of(p: Seq<ComponentView>) -> Option<Seq<ComponentView>> {
    if p.len() == 0 || p.last() == ComponentView::RootDir {
        None
    } else {
        Some(p.drop_last())
    }
}

/// The text of a component.
pub open spec fn component_text(c: ComponentView) -> Seq<char> {
    match c {
        ComponentView::RootDir => seq!['/'],
        ComponentView::CurDir => seq!['.'],
        ComponentView::ParentDir => seq!['.', '.'],
        ComponentView::Normal(s) => s,
    }
}

/// `base` joined with `c`: an absolute `c` replaces `base`; otherwise a slash
/// goes between them unless `base` is empty or already ends with one.
pub open spec fn join_text(base: Seq<char>, c: Seq<char>) -> Seq<char> {
    if c.len() > 0 && c[0] == '/' {
        c
    } else if base.len() > 0 && base.last() != '/' {
        base + seq!['/'] + c
    } else {
        base + c
    }
}

/// `s` with every match of `pat` replaced by `rep`, matches taken from the left
/// without overlap; an empty `pat` matches before each character and at the end.
pub open spec fn replace_all(s: Seq<char>, pat: Seq<char>, rep: Seq<char>) -> Seq<char>
    decreases s.len(),
{
    if pat.len() == 0 {
        if s.len() == 0 {
            rep
        } else {
            rep + seq![s[0]] + replace_all(s.drop_first(), pat, rep)
        }
    } else if s.len() < pat.len() {
        s
    } else if s.take(pat.len() as int) == pat {
        rep + replace_all(s.skip(pat.len() as int), pat, rep)
    } else {
        seq![s[0]] + replace_all(s.drop_first(), pat, rep)
    }
}

impl PathComponent {
    /// A copy with the same view.
    pub fn duplicate(&self) -> (r: PathComponent)
        ensures
            r@ == self@,
    {
        match self {
            PathComponent::RootDir => PathComponent::RootDir,
            PathComponent::CurDir => PathComponent::CurDir,
            PathComponent::ParentDir => PathComponent::ParentDir,
            PathComponent::Normal(s) => PathComponent::Normal(s.clone()),
        }
    }

    /// Whether two components are equal.
    pub fn same_as(&self, other: &PathComponent) -> (r: bool)
        ensures
            r == (self@ == other@),
    {
        match (self, other) {
            (PathComponent::RootDir, PathComponent::RootDir) => true,
            (PathComponent::CurDir, PathComponent::CurDir) => true,
            (PathComponent::ParentDir, PathComponent::ParentDir) => true,
            (PathComponent::Normal(a), PathComponent::Normal(b)) => *a == *b,
            _ => false,
        }
    }

    /// The text of the component.
    pub fn text(&self) -> (s: String)
        ensures
            s@ == component_text(self@),
    {
        match self {
            PathComponent::RootDir => {
                proof {
                    reveal_strlit("/");
                }
                String::from_str("/")
            },
            PathComponent::CurDir => {
                proof {
                    reveal_strlit(".");
                }
                String::from_str(".")
            },
            PathComponent::ParentDir => {
                proof {
                    reveal_strlit("..");
                }
                String::from_str("..")
            },
            PathComponent::Normal(s) => s.clone(),
        }
    }
}

/// Whether two lists of components are equal.
pub fn same_components(a: &Vec<PathComponent>, b: &Vec<PathComponent>) -> (r: bool)
    ensures
        r == (components_view(a@) == components_view(b@)),
{
    if a.len() != b.len() {
        proof {
            assert(components_view(a@).len() != components_view(b@).len());
        }
        return false;
    }
    let mut i: usize = 0;
    while i < a.len()
        invariant
            a.len() == b.len(),
            i <= a.len(),
            forall|j: int| 0 <= j < i ==> components_view(a@)[j] == components_view(b@)[j],
        decreases a.len() - i,
    {
        if !a[i].same_as(&b[i]) {
            proof {
                assert(components_view(a@)[i as int] != components_view(b@)[i as int]);
            }
            return false;
        }
        i = i + 1;
    }
    proof {
        assert(components_view(a@) =~= components_view(b@));
    }
    true
}

/// A copy of a list of components.
pub fn copy_components(a: &Vec<PathComponent>) -> (r: Vec<PathComponent>)
    ensures
        components_view(r@) == components_view(a@),
{
    let mut r: Vec<PathComponent> = Vec::new();
    let mut i: usize = 0;
    while i < a.len()
        invariant
            i <= a.len(),
            components_view(r@) == components_view(a@).take(i as int),
        decreases a.len() - i,
    {
        r.push(a[i].duplicate());
        proof {
            assert(components_view(a@).take(i + 1) =~= components_view(a@).take(i as int).push(a@[i as int]@));
            assert(components_view(r@) =~= components_view(a@).take(i as int).push(a@[i as int]@));
        }
        i = i + 1;
    }
    proof {
        assert(components_view(a@).take(i as int) =~= components_view(a@));
    }
    r
}

/// The parent of a list of components, as `parent_of` says.
pub fn parent_components(p: &Vec<PathComponent>) -> (r: Option<Vec<PathComponent>>)
    ensures
        match r {
            Some(q) => parent_of(components_view(p@)) == Some(components_view(q@)),
            None => parent_of(components_view(p@)) is None,
        },
{
    let n = p.len();
    if n == 0 {
        return None;
    }
    if let PathComponent::RootDir = &p[n - 1] {
        return None;
    }
    let mut q = copy_components(p);
    q.pop();
    proof {
        assert(components_view(q@) =~= components_view(p@).drop_last());
    }
    Some(q)
}

/// The components that the piece `s` stands for, appended to `out`.
fn push_segment(out: &mut Vec<PathComponent>, seg: &str)
    ensures
        components_view(final(out)@) == components_view(old(out)@) + segment_components(seg@),
{
    let n = seg.unicode_len();
    if n == 0 || (n == 1 && seg.get_char(0) == '.') {
        proof {
            if n == 1 {
                assert(seg@ =~= seq!['.']);
            }
            assert(components_view(out@) =~= components_view(old(out)@) + segment_components(seg@));
        }
        return;
    }
    if n == 2 && seg.get_char(0) == '.' && seg.get_char(1) == '.' {
        out.push(PathComponent::ParentDir);
        proof {
            assert(seg@ =~= seq!['.', '.']);
            assert(components_view(out@) =~= components_view(old(out)@) + segment_components(seg@));
        }
        return;
    }
    proof {
        assert(seg@ != seq!['.']) by {
            if seg@ == seq!['.'] {
                assert(seg@[0] == '.');
            }
        }
        assert(seg@ != seq!['.', '.']) by {
            if seg@ == seq!['.', '.'] {
                assert(seg@[0] == '.' && seg@[1] == '.');
            }
        }
    }
    out.push(PathComponent::Normal(String::from_str(seg)));
    proof {
        assert(components_view(out@) =~= components_view(old(out)@) + segment_components(seg@));
    }
}

proof fn lemma_split_push(s: Seq<char>, c: char)
    ensures
        split_at_slash(s.push(c)) == (if c == '/' {
            split_at_slash(s).push(Seq::<char>::empty())
        } else {
            split_at_slash(s).update(
                split_at_slash(s).len() - 1,
                split_at_slash(s).last().push(c),
            )
        }),
{
    assert(s.push(c).drop_last() =~= s);
}

proof fn lemma_split_nonempty(s: Seq<char>)
    ensures
        split_at_slash(s).len() >= 1,
    decreases s.len(),
{
    if s.len() > 0 {
        lemma_split_nonempty(s.drop_last());
    }
}

/// The components of the path `s`, as `parse_path` says.
pub fn parse_components(s: &str) -> (r: Vec<PathComponent>)
    ensures
        components_view(r@) == parse_path(s@),
{
    let n = s.unicode_len();
    let mut out: Vec<PathComponent> = Vec::new();
    let start: usize;
    if n > 0 && s.get_char(0) == '/' {
        out.push(PathComponent::RootDir);
        start = 1;
    } else if n >= 1 && s.get_char(0) == '.' && (n == 1 || s.get_char(1) == '/') {
        out.push(PathComponent::CurDir);
        start = 1;
    } else {
        start = 0;
    }
    let ghost prefix = components_view(out@);
    let ghost body = s@.subrange(start as int, n as int);
    proof {
        assert(parse_path(s@) == prefix + segments_components(split_at_slash(body))) by {
            if start == 1 {
                assert(body =~= s@.drop_first());
            } else {
                assert(body =~= s@);
            }
        }
    }
    let mut seg_start: usize = start;
    let mut i: usize = start;
    while i < n
        invariant
            n == s@.len(),
            start <= seg_start <= i <= n,
            body == s@.subrange(start as int, n as int),
            split_at_slash(s@.subrange(start as int, i as int)).len() >= 1,
            components_view(out@) == prefix + segments_components(
                split_at_slash(s@.subrange(start as int, i as int)).drop_last(),
            ),
            split_at_slash(s@.subrange(start as int, i as int)).last() == s@.subrange(seg_start as int, i as int),
        decreases n - i,
    {
        let c = s.get_char(i);
        let ghost t = s@.subrange(start as int, i as int);
        proof {
            assert(s@.subrange(start as int, i + 1) =~= t.push(c));
            lemma_split_push(t, c);
            lemma_split_nonempty(t);
        }
        if c == '/' {
            let seg = s.substring_char(seg_start, i);
            push_segment(&mut out, seg);
            seg_start = i + 1;
            proof {
                let sp = split_at_slash(t);
                let sp2 = sp.push(Seq::<char>::empty());
                assert(sp2.drop_last() =~= sp);
                assert(sp =~= sp.drop_last().push(sp.last()));
                assert(segments_components(sp) == segments_components(sp.drop_last()) + segment_components(sp.last()));
                assert(components_view(out@) =~= prefix + segments_components(sp2.drop_last()));
                assert(s@.subrange(seg_start as int, i + 1) =~= Seq::<char>::empty());
            }
        } else {
            proof {
                let sp = split_at_slash(t);
                let sp2 = sp.update(sp.len() - 1, sp.last().push(c));
                assert(sp2.drop_last() =~= sp.drop_last());
                assert(s@.subrange(seg_start as int, i + 1) =~= s@.subrange(seg_start as int, i as int).push(c));
            }
        }
        i = i + 1;
    }
    let seg = s.substring_char(seg_start, n);
    push_segment(&mut out, seg);
    proof {
        let sp = split_at_slash(body);
        assert(s@.subrange(start as int, i as int) =~= body);
        assert(sp =~= sp.drop_last().push(sp.last()));
        assert(segments_components(sp) == segments_components(sp.drop_last()) + segment_components(sp.last()));
        assert(components_view(out@) =~= prefix + segments_components(sp));
    }
    out
}

/// `base` joined with `c`, as `join_text` says.
pub fn join(base: &String, c: &String) -> (r: String)
    ensures
        r@ == join_text(base@, c@),
{
    let cn = c.as_str().unicode_len();
    let bn = base.as_str().unicode_len();
    if cn > 0 && c.as_str().get_char(0) == '/' {
        return c.clone();
    }
    let mut r = base.clone();
    if bn > 0 && base.as_str().get_char(bn - 1) != '/' {
        proof {
            reveal_strlit("/");
        }
        r.append("/");
    }
    r.append(c.as_str());
    proof {
        assert(r@ =~= join_text(base@, c@));
    }
    r
}

/// Whether `pat` occurs in `s` at position `at`.
fn occurs_at(s: &str, pat: &str, at: usize) -> (r: bool)
    requires
        at <= s@.len(),
    ensures
        r == (at + pat@.len() <= s@.len() && s@.subrange(at as int, at + pat@.len()) == pat@),
{
    let n = s.unicode_len();
    let m = pat.unicode_len();
    if m > n - at {
        return false;
    }
    let mut k: usize = 0;
    while k < m
        invariant
            n == s@.len(),
            m == pat@.len(),
            at + m <= n,
            k <= m,
            forall|j: int| 0 <= j < k ==> s@[at + j] == pat@[j],
        decreases m - k,
    {
        if s.get_char(at + k) != pat.get_char(k) {
            proof {
                assert(s@.subrange(at as int, at + m)[k as int] != pat@[k as int]);
            }
            return false;
        }
        k = k + 1;
    }
    proof {
        assert(s@.subrange(at as int, at + m) =~= pat@);
    }
    true
}

proof fn lemma_replace_all_suffix(s: Seq<char>, pat: Seq<char>, rep: Seq<char>, i: int)
    requires
        0 <= i < s.len(),
    ensures
        pat.len() == 0 ==> replace_all(s.skip(i), pat, rep) == rep + seq![s[i]] + replace_all(s.skip(i + 1), pat, rep),
        pat.len() > 0 && i + pat.len() <= s.len() && s.subrange(i, i + pat.len()) == pat
            ==> replace_all(s.skip(i), pat, rep) == rep + replace_all(s.skip(i + pat.len()), pat, rep),
        pat.len() > 0 && !(i + pat.len() <= s.len() && s.subrange(i, i + pat.len()) == pat)
            ==> replace_all(s.skip(i), pat, rep) == seq![s[i]] + replace_all(s.skip(i + 1), pat, rep),
{
    let t = s.skip(i);
    assert(t.drop_first() =~= s.skip(i + 1));
    assert(t[0] == s[i]);
    if pat.len() > 0 && i + pat.len() <= s.len() {
        assert(t.take(pat.len() as int) =~= s.subrange(i, i + pat.len()));
        assert(t.skip(pat.len() as int) =~= s.skip(i + pat.len()));
    }
}

/// `s` with every match of `pat` replaced by `rep`, as `replace_all` says.
pub fn replace(s: &str, pat: &str, rep: &str) -> (r: String)
    ensures
        r@ == replace_all(s@, pat@, rep@),
{
    let n = s.unicode_len();
    let m = pat.unicode_len();
    let mut out = String::new();
    let mut i: usize = 0;
    proof {
        assert(s@.skip(0) =~= s@);
        assert(out@ + replace_all(s@, pat@, rep@) =~= replace_all(s@, pat@, rep@));
    }
    while i < n
        invariant
            n == s@.len(),
            m == pat@.len(),
            i <= n,
            out@ + replace_all(s@.skip(i as int), pat@, rep@) == replace_all(s@, pat@, rep@),
        decreases n - i,
    {
        proof {
            lemma_replace_all_suffix(s@, pat@, rep@, i as int);
        }
        if m == 0 {
            out.append(rep);
            out.append(s.substring_char(i, i + 1));
            proof {
                assert(s@.subrange(i as int, i + 1) =~= seq![s@[i as int]]);
            }
            i = i + 1;
        } else if occurs_at(s, pat, i) {
            out.append(rep);
            i = i + m;
        } else {
            out.append(s.substring_char(i, i + 1));
            proof {
                assert(s@.subrange(i as int, i + 1) =~= seq![s@[i as int]]);
            }
            i = i + 1;
        }
        proof {
            assert(out@ + replace_all(s@.skip(i as int), pat@, rep@) == replace_all(s@, pat@, rep@));
        }
    }
    proof {
        assert(s@.skip(i as int) =~= Seq::<char>::empty());
    }
    let ghost before = out@;
    if m == 0 {
        out.append(rep);
    }
    proof {
        assert(out@ =~= before + replace_all(Seq::<char>::empty(), pat@, rep@));
    }
    out
}

} // verus!
