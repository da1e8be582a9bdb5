//! Filesystem-free path handling: splitting the text of a path into
//! components, collapsing `.` and `..`, and rendering components back into
//! text.
use vstd::prelude::*;

verus! {

/// One component of a path.
#[derive(Debug, PartialEq, Eq)]
pub enum Component {
    /// A platform prefix such as a drive specifier.
    Prefix(String),
    /// The root separator of an absolute path.
    RootDir,
    /// A `.` segment.
    CurDir,
    /// A `..` segment.
    ParentDir,
    /// Any other segment.
    Normal(String),
}

/// The mathematical model of a [`Component`].
pub enum Comp {
    Prefix(Seq<char>),
    Root,
    Cur,
    Parent,
    Normal(Seq<char>),
}

impl View for Component {
    type V = Comp;

    open spec fn view(&self) -> Comp {
        match self {
            Component::Prefix(p) => Comp::Prefix(p@),
            Component::RootDir => Comp::Root,
            Component::CurDir => Comp::Cur,
            Component::ParentDir => Comp::Parent,
            Component::Normal(n) => Comp::Normal(n@),
        }
    }
}

impl Component {
    /// A copy of this component with the same model.
    pub fn duplicate(&self) -> (r: Component)
        ensures
            r@ == self@,
    {
        match self {
            Component::Prefix(p) => Component::Prefix(p.clone()),
            Component::RootDir => Component::RootDir,
            Component::CurDir => Component::CurDir,
            Component::ParentDir => Component::ParentDir,
            Component::Normal(n) => Component::Normal(n.clone()),
        }
    }
}

/// The models of a sequence of components.
pub open spec fn comps_view(v: Seq<Component>) -> Seq<Comp> {
    v.map_values(|c: Component| c@)
}

/// Every component of `acc` is a platform prefix.
pub open spec fn all_prefix(acc: Seq<Comp>) -> bool {
    forall|i: int| 0 <= i < acc.len() ==> (#[trigger] acc[i]) is Prefix
}

/// Every component of `acc` is a platform prefix or a root.
pub open spec fn all_prefix_or_root(acc: Seq<Comp>) -> bool {
    forall|i: int| 0 <= i < acc.len() ==> (#[trigger] acc[i]) is Prefix || acc[i] is Root
}

/// One step of normalization: the accumulated output after reading `c`.
pub open spec fn step(acc: Seq<Comp>, c: Comp) -> Seq<Comp> {
    match c {
        Comp::Prefix(p) => seq![Comp::Prefix(p)],
        Comp::Root => if all_prefix(acc) {
            acc.push(Comp::Root)
        } else {
            seq![Comp::Root]
        },
        Comp::Cur => acc,
        Comp::Parent => if all_prefix_or_root(acc) {
            acc
        } else {
            acc.drop_last()
        },
        Comp::Normal(n) => acc.push(Comp::Normal(n)),
    }
}

/// Normalization of a component sequence, read left to right.
pub open spec fn normalize(cs: Seq<Comp>) -> Seq<Comp>
    decreases cs.len(),
{
    if cs.len() == 0 {
        seq![]
    } else {
        step(normalize(cs.drop_last()), cs.last())
    }
}

/// The shape of a normalized sequence: an optional prefix, then an optional
/// root, then ordinary segments only.
pub open spec fn is_normal_form(cs: Seq<Comp>) -> bool {
    forall|i: int|
        0 <= i < cs.len() ==> match #[trigger] cs[i] {
            Comp::Prefix(_) => i == 0,
            Comp::Root => i == 0 || (i == 1 && cs[0] is Prefix),
            Comp::Cur => false,
            Comp::Parent => false,
            Comp::Normal(_) => true,
        }
}

/// Normalizes a sequence of components: `.` is dropped, `..` removes the
/// last ordinary segment (never a prefix or root), a root restarts the path
/// after any prefix, and a prefix restarts it altogether.
pub fn normalize_components(cs: &Vec<Component>) -> (r: Vec<Component>)
    ensures
        comps_view(r@) == normalize(comps_view(cs@)),
{
    let mut acc: Vec<Component> = Vec::new();
    let mut i: usize = 0;
    while i < cs.len()
        invariant
            i <= cs.len(),
            comps_view(acc@) == normalize(comps_view(cs@.subrange(0, i as int))),
        decreases cs.len() - i,
    {
        let ghost before = comps_view(acc@);
        proof {
            let s = cs@.subrange(0, i as int + 1);
            assert(s.drop_last() =~= cs@.subrange(0, i as int));
            assert(comps_view(s).drop_last() =~= comps_view(s.drop_last()));
        }
        match &cs[i] {
            Component::Prefix(p) => {
                acc = Vec::new();
                acc.push(Component::Prefix(p.clone()));
                assert(comps_view(acc@) =~= seq![Comp::Prefix(p@)]);
            },
            Component::RootDir => {
                if only_prefixes(&acc) {
                    acc.push(Component::RootDir);
                    assert(comps_view(acc@) =~= before.push(Comp::Root));
                } else {
                    acc = Vec::new();
                    acc.push(Component::RootDir);
                    assert(comps_view(acc@) =~= seq![Comp::Root]);
                }
            },
            Component::CurDir => {},
            Component::ParentDir => {
                if !only_prefixes_or_root(&acc) {
                    acc.pop();
                    assert(comps_view(acc@) =~= before.drop_last());
                }
            },
            Component::Normal(n) => {
                acc.push(Component::Normal(n.clone()));
                assert(comps_view(acc@) =~= before.push(Comp::Normal(n@)));
            },
        }
        i = i + 1;
    }
    assert(cs@.subrange(0, cs.len() as int) =~= cs@);
    acc
}

/// Whether every component is a platform prefix.
fn only_prefixes(v: &Vec<Component>) -> (r: bool)
    ensures
        r == all_prefix(comps_view(v@)),
{
    let mut i: usize = 0;
    while i < v.len()
        invariant
            i <= v.len(),
            forall|j: int| 0 <= j < i ==> (#[trigger] comps_view(v@)[j]) is Prefix,
        decreases v.len() - i,
    {
        match &v[i] {
            Component::Prefix(_) => {},
            _ => {
                assert(!(comps_view(v@)[i as int] is Prefix));
                return false;
            },
        }
        i = i + 1;
    }
    true
}

/// Whether every component is a platform prefix or a root.
fn only_prefixes_or_root(v: &Vec<Component>) -> (r: bool)
    ensures
        r == all_prefix_or_root(comps_view(v@)),
{
    let mut i: usize = 0;
    while i < v.len()
        invariant
            i <= v.len(),
            forall|j: int|
                0 <= j < i ==> (#[trigger] comps_view(v@)[j]) is Prefix || comps_view(v@)[j] is Root,
        decreases v.len() - i,
    {
        match &v[i] {
            Component::Prefix(_) => {},
            Component::RootDir => {},
            _ => {
                assert(!(comps_view(v@)[i as int] is Prefix || comps_view(v@)[i as int] is Root));
                return false;
            },
        }
        i = i + 1;
    }
    true
}

/// A single step keeps the normal form.
proof fn lemma_step_normal_form(acc: Seq<Comp>, c: Comp)
    requires
        is_normal_form(acc),
    ensures
        is_normal_form(step(acc, c)),
{
    let r = step(acc, c);
    match c {
        Comp::Root => {
            if all_prefix(acc) {
                assert(acc.len() <= 1) by {
                    if acc.len() > 1 {
                        assert(acc[1] is Prefix);
                    }
                }
                assert forall|i: int| 0 <= i < r.len() implies match #[trigger] r[i] {
                    Comp::Prefix(_) => i == 0,
                    Comp::Root => i == 0 || (i == 1 && r[0] is Prefix),
                    Comp::Cur => false,
                    Comp::Parent => false,
                    Comp::Normal(_) => true,
                } by {
                    if i < acc.len() {
                        assert(r[i] == acc[i]);
                        assert(acc[i] is Prefix);
                    }
                }
            }
        },
        Comp::Parent => {
            if !all_prefix_or_root(acc) {
                assert forall|i: int| 0 <= i < r.len() implies match #[trigger] r[i] {
                    Comp::Prefix(_) => i == 0,
                    Comp::Root => i == 0 || (i == 1 && r[0] is Prefix),
                    Comp::Cur => false,
                    Comp::Parent => false,
                    Comp::Normal(_) => true,
                } by {
                    assert(r[i] == acc[i]);
                }
            }
        },
        Comp::Normal(n) => {
            assert forall|i: int| 0 <= i < r.len() implies match #[trigger] r[i] {
                Comp::Prefix(_) => i == 0,
                Comp::Root => i == 0 || (i == 1 && r[0] is Prefix),
                Comp::Cur => false,
                Comp::Parent => false,
                Comp::Normal(_) => true,
            } by {
                if i < acc.len() {
                    assert(r[i] == acc[i]);
                }
            }
        },
        _ => {},
    }
}

/// The result of normalization is in normal form.
pub proof fn lemma_normalize_normal_form(cs: Seq<Comp>)
    ensures
        is_normal_form(normalize(cs)),
    decreases cs.len(),
{
    if cs.len() > 0 {
        lemma_normalize_normal_form(cs.drop_last());
        lemma_step_normal_form(normalize(cs.drop_last()), cs.last());
    }
}

/// A sequence in normal form is left unchanged by normalization.
pub proof fn lemma_normal_form_fixed(cs: Seq<Comp>)
    requires
        is_normal_form(cs),
    ensures
        normalize(cs) == cs,
    decreases cs.len(),
{
    if cs.len() > 0 {
        let d = cs.drop_last();
        assert(is_normal_form(d)) by {
            assert forall|i: int| 0 <= i < d.len() implies match #[trigger] d[i] {
                Comp::Prefix(_) => i == 0,
                Comp::Root => i == 0 || (i == 1 && d[0] is Prefix),
                Comp::Cur => false,
                Comp::Parent => false,
                Comp::Normal(_) => true,
            } by {
                assert(d[i] == cs[i]);
            }
        }
        lemma_normal_form_fixed(d);
        let last = cs.last();
        let k = cs.len() - 1;
        assert(cs[k] == last);
        match last {
            Comp::Root => {
                assert(all_prefix(d)) by {
                    assert forall|i: int| 0 <= i < d.len() implies (#[trigger] d[i]) is Prefix by {
                        assert(d[i] == cs[i]);
                    }
                }
                assert(d.push(Comp::Root) =~= cs);
            },
            Comp::Prefix(p) => {
                assert(seq![Comp::Prefix(p)] =~= cs);
            },
            Comp::Normal(n) => {
                assert(d.push(Comp::Normal(n)) =~= cs);
            },
            _ => {},
        }
    }
}

/// Normalization never yields more components than it was given.
pub proof fn lemma_normalize_not_longer(cs: Seq<Comp>)
    ensures
        normalize(cs).len() <= cs.len(),
    decreases cs.len(),
{
    if cs.len() > 0 {
        lemma_normalize_not_longer(cs.drop_last());
    }
}

/// Normalizing twice gives the same as normalizing once.
pub proof fn lemma_normalize_idempotent(cs: Seq<Comp>)
    ensures
        normalize(normalize(cs)) == normalize(cs),
{
    lemma_normalize_normal_form(cs);
    lemma_normal_form_fixed(normalize(cs));
}

/// The component a single segment between separators stands for, if any:
/// an empty segment stands for none.
pub open spec fn classify(seg: Seq<char>) -> Seq<Comp> {
    if seg.len() == 0 {
        seq![]
    } else if seg == seq!['.'] {
        seq![Comp::Cur]
    } else if seg == seq!['.', '.'] {
        seq![Comp::Parent]
    } else {
        seq![Comp::Normal(seg)]
    }
}

/// Reads `s` left to right: the components of the segments already closed by
/// a separator, and the segment still open at the end.
pub open spec fn scan(s: Seq<char>) -> (Seq<Comp>, Seq<char>)
    decreases s.len(),
{
    if s.len() == 0 {
        (seq![], seq![])
    } else {
        let (cs, cur) = scan(s.drop_last());
        if s.last() == '/' {
            (cs + classify(cur), seq![])
        } else {
            (cs, cur.push(s.last()))
        }
    }
}

/// The root component that opens an absolute path, if `abs`.
pub open spec fn lead(abs: bool) -> Seq<Comp> {
    if abs {
        seq![Comp::Root]
    } else {
        seq![]
    }
}

/// Whether the text of a path starts at the root.
pub open spec fn text_is_absolute(s: Seq<char>) -> bool {
    s.len() > 0 && s[0] == '/'
}

/// The components of the text of a path: a root if it starts with `/`, then
/// one component for each non-empty segment between separators.
pub open spec fn parse(s: Seq<char>) -> Seq<Comp> {
    lead(text_is_absolute(s)) + scan(s).0 + classify(scan(s).1)
}

/// The text a component is written as.
pub open spec fn text_of(c: Comp) -> Seq<char> {
    match c {
        Comp::Prefix(p) => p,
        Comp::Root => seq!['/'],
        Comp::Cur => seq!['.'],
        Comp::Parent => seq!['.', '.'],
        Comp::Normal(n) => n,
    }
}

/// The text of a sequence of components: each component's text, with a
/// separator before it unless the text so far is empty or ends in one.
pub open spec fn render(cs: Seq<Comp>) -> Seq<char>
    decreases cs.len(),
{
    if cs.len() == 0 {
        seq![]
    } else {
        let prev = render(cs.drop_last());
        if prev.len() == 0 || prev.last() == '/' {
            prev + text_of(cs.last())
        } else {
            prev.push('/') + text_of(cs.last())
        }
    }
}

/// The normalized text of a path.
pub open spec fn normalize_text(s: Seq<char>) -> Seq<char> {
    render(normalize(parse(s)))
}

/// The components of a path's text.
pub fn components(path: &str) -> (r: Vec<Component>)
    ensures
        comps_view(r@) == parse(path@),
{
    let n = path.unicode_len();
    let mut acc: Vec<Component> = Vec::new();
    if n > 0 && path.get_char(0) == '/' {
        acc.push(Component::RootDir);
    }
    assert(comps_view(acc@) =~= lead(text_is_absolute(path@)));
    let mut start: usize = 0;
    let mut i: usize = 0;
    while i < n
        invariant
            n == path@.len(),
            start <= i <= n,
            comps_view(acc@) == lead(text_is_absolute(path@)) + scan(path@.subrange(0, i as int)).0,
            scan(path@.subrange(0, i as int)).1 == path@.subrange(start as int, i as int),
        decreases n - i,
    {
        let c = path.get_char(i);
        proof {
            let s = path@.subrange(0, i as int + 1);
            assert(s.drop_last() =~= path@.subrange(0, i as int));
            assert(s.last() == c);
        }
        if c == '/' {
            push_segment(path, start, i, &mut acc);
            start = i + 1;
            assert(path@.subrange(start as int, i as int + 1) =~= seq![]);
        } else {
            assert(path@.subrange(start as int, i as int + 1) =~= path@.subrange(
                start as int,
                i as int,
            ).push(c));
        }
        i = i + 1;
    }
    push_segment(path, start, n, &mut acc);
    assert(path@.subrange(0, n as int) =~= path@);
    acc
}

/// Appends the component that the segment `path[start..end]` stands for.
fn push_segment(path: &str, start: usize, end: usize, out: &mut Vec<Component>)
    requires
        start <= end <= path@.len(),
    ensures
        comps_view(final(out)@) == comps_view(old(out)@) + classify(
            path@.subrange(start as int, end as int),
        ),
{
    let ghost seg = path@.subrange(start as int, end as int);
    let ghost before = comps_view(out@);
    let len = end - start;
    if len == 0 {
        assert(comps_view(out@) =~= before + classify(seg));
        return ;
    }
    let first = path.get_char(start);
    if len == 1 && first == '.' {
        out.push(Component::CurDir);
        assert(seg =~= seq!['.']);
        assert(comps_view(out@) =~= before + classify(seg));
        return ;
    }
    if len == 2 && first == '.' && path.get_char(start + 1) == '.' {
        out.push(Component::ParentDir);
        assert(seg =~= seq!['.', '.']);
        assert(comps_view(out@) =~= before + classify(seg));
        return ;
    }
    proof {
        if len == 1 {
            assert(seg[0] != '.');
            assert(seg != seq!['.', '.']);
        }
        if len == 2 {
            assert(seg[0] != '.' || seg[1] != '.');
            assert(seg != seq!['.']);
            assert(seg != seq!['.', '.']);
        }
    }
    let name = String::from_str(path.substring_char(start, end));
    out.push(Component::Normal(name));
    assert(comps_view(out@) =~= before + classify(seg));
}

/// The text of a sequence of components.
pub fn render_components(cs: &Vec<Component>) -> (r: String)
    ensures
        r@ == render(comps_view(cs@)),
{
    let mut out = String::new();
    let mut open: bool = true;
    let mut i: usize = 0;
    proof {
        reveal_strlit("/");
        reveal_strlit(".");
        reveal_strlit("..");
    }
    while i < cs.len()
        invariant
            i <= cs.len(),
            out@ == render(comps_view(cs@.subrange(0, i as int))),
            open == (out@.len() == 0 || out@.last() == '/'),
            "/"@ == seq!['/'],
            "."@ == seq!['.'],
            ".."@ == seq!['.', '.'],
        decreases cs.len() - i,
    {
        proof {
            let s = cs@.subrange(0, i as int + 1);
            assert(s.drop_last() =~= cs@.subrange(0, i as int));
            assert(comps_view(s).drop_last() =~= comps_view(s.drop_last()));
        }
        let ghost prev = out@;
        if !open {
            out.append("/");
        }
        let ghost mid = out@;
        let text: &str = match &cs[i] {
            Component::Prefix(p) => p.as_str(),
            Component::RootDir => "/",
            Component::CurDir => ".",
            Component::ParentDir => "..",
            Component::Normal(n) => n.as_str(),
        };
        assert(text@ == text_of(cs@[i as int]@));
        out.append(text);
        let tl = text.unicode_len();
        if tl > 0 {
            open = text.get_char(tl - 1) == '/';
            assert(out@.last() == text@.last());
        } else {
            open = true;
            assert(out@ =~= mid);
        }
        i = i + 1;
    }
    assert(cs@.subrange(0, cs.len() as int) =~= cs@);
    out
}

/// Removes `.` and `..` from the text of a path, without touching the
/// filesystem: the text of its normalized components.
pub fn dedot(path: &str) -> (r: String)
    ensures
        r@ == normalize_text(path@),
{
    let cs = components(path);
    let n = normalize_components(&cs);
    render_components(&n)
}

/// No character of `n` is a separator.
pub open spec fn no_sep(n: Seq<char>) -> bool {
    forall|i: int| 0 <= i < n.len() ==> n[i] != '/'
}

/// A segment that stands for an ordinary component.
pub open spec fn proper_name(n: Seq<char>) -> bool {
    n.len() > 0 && no_sep(n) && n != seq!['.'] && n != seq!['.', '.']
}

/// A component that a non-empty segment can stand for.
pub open spec fn plain(c: Comp) -> bool {
    c is Cur || c is Parent || (c is Normal && proper_name(c->Normal_0))
}

/// An optional root at the front, then ordinary components with proper names.
pub open spec fn is_clean(d: Seq<Comp>) -> bool {
    forall|i: int|
        0 <= i < d.len() ==> ((#[trigger] d[i]) is Root && i == 0) || (d[i] is Normal
            && proper_name(d[i]->Normal_0))
}

/// Whether a sequence of components starts at the root (after any prefix).
pub open spec fn is_absolute(d: Seq<Comp>) -> bool {
    (d.len() > 0 && d[0] is Root) || (d.len() > 1 && d[0] is Prefix && d[1] is Root)
}

/// The components after a leading root.
pub open spec fn strip_root(d: Seq<Comp>) -> Seq<Comp> {
    if d.len() > 0 && d[0] is Root {
        d.drop_first()
    } else {
        d
    }
}

proof fn lemma_classify_plain(seg: Seq<char>)
    requires
        no_sep(seg),
    ensures
        forall|i: int| 0 <= i < classify(seg).len() ==> plain(#[trigger] classify(seg)[i]),
{
}

proof fn lemma_scan_plain(s: Seq<char>)
    ensures
        forall|i: int| 0 <= i < scan(s).0.len() ==> plain(#[trigger] scan(s).0[i]),
        no_sep(scan(s).1),
    decreases s.len(),
{
    if s.len() > 0 {
        lemma_scan_plain(s.drop_last());
        let (cs, cur) = scan(s.drop_last());
        lemma_classify_plain(cur);
        if s.last() == '/' {
            let r = cs + classify(cur);
            assert forall|i: int| 0 <= i < r.len() implies plain(#[trigger] r[i]) by {
                if i < cs.len() {
                    assert(r[i] == cs[i]);
                } else {
                    assert(r[i] == classify(cur)[i - cs.len()]);
                }
            }
        } else {
            assert forall|i: int| 0 <= i < cur.push(s.last()).len() implies cur.push(
                s.last(),
            )[i] != '/' by {
                if i < cur.len() {
                    assert(cur.push(s.last())[i] == cur[i]);
                }
            }
        }
    }
}

/// Normalizing an optional root followed by plain components gives a clean
/// sequence that is absolute exactly when the root was there.
proof fn lemma_normalize_lead(abs: bool, rest: Seq<Comp>)
    requires
        forall|i: int| 0 <= i < rest.len() ==> plain(#[trigger] rest[i]),
    ensures
        is_clean(normalize(lead(abs) + rest)),
        abs ==> normalize(lead(abs) + rest).len() > 0 && normalize(lead(abs) + rest)[0] is Root,
        !abs ==> forall|i: int|
            0 <= i < normalize(lead(abs) + rest).len() ==> (#[trigger] normalize(
                lead(abs) + rest,
            )[i]) is Normal,
    decreases rest.len(),
{
    let cs = lead(abs) + rest;
    if rest.len() == 0 {
        assert(cs =~= lead(abs));
        if abs {
            assert(cs.drop_last() =~= seq![]);
            assert(normalize(cs.drop_last()) =~= seq![]);
            assert(cs.last() == Comp::Root);
            assert(all_prefix(Seq::<Comp>::empty()));
            assert(normalize(cs) =~= seq![Comp::Root]);
        }
    } else {
        let r0 = rest.drop_last();
        assert(cs.drop_last() =~= lead(abs) + r0);
        lemma_normalize_lead(abs, r0);
        let acc = normalize(lead(abs) + r0);
        let c = rest.last();
        assert(cs.last() == c);
        assert(plain(rest[rest.len() - 1]));
        let n = step(acc, c);
        assert(normalize(cs) == n);
        match c {
            Comp::Parent => {
                if !all_prefix_or_root(acc) {
                    if abs {
                        assert(acc.len() >= 2) by {
                            if acc.len() == 1 {
                                assert(all_prefix_or_root(acc));
                            }
                        }
                    }
                    assert forall|i: int| 0 <= i < n.len() implies (#[trigger] n[i] is Root
                        && i == 0) || (n[i] is Normal && proper_name(n[i]->Normal_0)) by {
                        assert(n[i] == acc[i]);
                    }
                    if !abs {
                        assert forall|i: int| 0 <= i < n.len() implies (#[trigger] n[i]) is Normal by {
                            assert(n[i] == acc[i]);
                        }
                    }
                }
            },
            Comp::Normal(_) => {
                assert forall|i: int| 0 <= i < n.len() implies (#[trigger] n[i] is Root && i
                    == 0) || (n[i] is Normal && proper_name(n[i]->Normal_0)) by {
                    if i < acc.len() {
                        assert(n[i] == acc[i]);
                    }
                }
                if !abs {
                    assert forall|i: int| 0 <= i < n.len() implies (#[trigger] n[i]) is Normal by {
                        if i < acc.len() {
                            assert(n[i] == acc[i]);
                        }
                    }
                }
            },
            _ => {},
        }
    }
}

/// The components of a path's text, split as a root and plain components.
proof fn lemma_parse_shape(s: Seq<char>)
    ensures
        parse(s) == lead(text_is_absolute(s)) + (scan(s).0 + classify(scan(s).1)),
        forall|i: int|
            0 <= i < (scan(s).0 + classify(scan(s).1)).len() ==> plain(
                #[trigger] (scan(s).0 + classify(scan(s).1))[i],
            ),
{
    let (cs, cur) = scan(s);
    lemma_scan_plain(s);
    lemma_classify_plain(cur);
    let rest = cs + classify(cur);
    assert(parse(s) =~= lead(text_is_absolute(s)) + rest);
    assert forall|i: int| 0 <= i < rest.len() implies plain(#[trigger] rest[i]) by {
        if i < cs.len() {
            assert(rest[i] == cs[i]);
        } else {
            assert(rest[i] == classify(cur)[i - cs.len()]);
        }
    }
}

/// The normalized components of a path's text are clean, and absolute
/// exactly when the text starts at the root.
pub proof fn lemma_normalized_parse(s: Seq<char>)
    ensures
        is_clean(normalize(parse(s))),
        is_normal_form(normalize(parse(s))),
        is_absolute(normalize(parse(s))) == text_is_absolute(s),
{
    lemma_parse_shape(s);
    let abs = text_is_absolute(s);
    lemma_normalize_lead(abs, scan(s).0 + classify(scan(s).1));
    lemma_normalize_normal_form(parse(s));
    let n = normalize(parse(s));
    if !abs && n.len() > 0 {
        assert(n[0] is Normal);
    }
}

/// Appending separator-free text only extends the open segment.
proof fn lemma_scan_append(x: Seq<char>, n: Seq<char>)
    requires
        no_sep(n),
    ensures
        scan(x + n) == (scan(x).0, scan(x).1 + n),
    decreases n.len(),
{
    if n.len() == 0 {
        assert(x + n =~= x);
        assert(scan(x).1 + n =~= scan(x).1);
    } else {
        let m = n.drop_last();
        lemma_scan_append(x, m);
        assert((x + n).drop_last() =~= x + m);
        assert((x + n).last() == n[n.len() - 1]);
        assert((scan(x).1 + m).push(n.last()) =~= scan(x).1 + n);
    }
}

/// What reading the text of a clean sequence yields.
proof fn lemma_scan_render(d: Seq<Comp>)
    requires
        is_clean(d),
    ensures
        (render(d).len() == 0) == (d.len() == 0),
        d.len() > 0 ==> (render(d)[0] == '/') == (d[0] is Root),
        render(d).len() > 0 ==> (render(d).last() == '/') == (strip_root(d).len() == 0),
        scan(render(d)) == if strip_root(d).len() == 0 {
            (Seq::<Comp>::empty(), Seq::<char>::empty())
        } else {
            (strip_root(d).drop_last(), strip_root(d).last()->Normal_0)
        },
    decreases d.len(),
{
    if d.len() > 0 {
        let d0 = d.drop_last();
        assert(is_clean(d0)) by {
            assert forall|i: int| 0 <= i < d0.len() implies ((#[trigger] d0[i]) is Root && i
                == 0) || (d0[i] is Normal && proper_name(d0[i]->Normal_0)) by {
                assert(d0[i] == d[i]);
            }
        }
        lemma_scan_render(d0);
        let prev = render(d0);
        let x = d.last();
        assert(x == d[d.len() - 1]);
        let r = render(d);
        if x is Root {
            assert(d.len() == 1);
            assert(prev =~= seq![]);
            assert(r =~= seq!['/']);
            assert(strip_root(d) =~= seq![]);
            assert(r.drop_last() =~= seq![]);
        } else {
            let name = x->Normal_0;
            assert(proper_name(name));
            let t0 = strip_root(d0);
            let t = strip_root(d);
            if d0.len() > 0 {
                assert(d0[0] == d[0]);
                assert(t =~= t0.push(x));
            } else {
                assert(t =~= seq![x]);
            }
            if t0.len() == 0 {
                assert(r == prev + name);
                lemma_scan_append(prev, name);
                if d0.len() == 0 {
                    assert(prev =~= seq![]);
                    assert(scan(prev) == (Seq::<Comp>::empty(), Seq::<char>::empty()));
                    assert(r =~= name);
                }
                assert(scan(prev).1 + name =~= name);
                assert(t.drop_last() =~= seq![]);
            } else {
                assert(r == prev.push('/') + name);
                let p1 = prev.push('/');
                assert(p1.drop_last() =~= prev);
                let (cs, cur) = scan(prev);
                assert(cur == t0.last()->Normal_0);
                assert(t0[t0.len() - 1] == d0[d0.len() - 1]);
                assert(classify(cur) =~= seq![t0.last()]);
                assert(scan(p1) == (cs + classify(cur), Seq::<char>::empty()));
                assert(cs + classify(cur) =~= t0);
                lemma_scan_append(p1, name);
                assert(Seq::<char>::empty() + name =~= name);
                assert(t.drop_last() =~= t0);
                assert(r[0] == prev[0]);
            }
            assert(r.last() == name.last());
        }
    }
}

/// Reading the text of a clean sequence gives the sequence back.
pub proof fn lemma_parse_render(d: Seq<Comp>)
    requires
        is_clean(d),
    ensures
        parse(render(d)) == d,
{
    lemma_scan_render(d);
    let r = render(d);
    let t = strip_root(d);
    if t.len() == 0 {
        assert(classify(Seq::<char>::empty()) =~= seq![]);
        if d.len() > 0 {
            assert(d =~= seq![Comp::Root]);
        } else {
            assert(d =~= seq![]);
        }
        assert(parse(r) =~= d);
    } else {
        let name = t.last()->Normal_0;
        assert(t.last() == t[t.len() - 1]);
        assert(classify(name) =~= seq![t.last()]);
        if d[0] is Root {
            assert(d =~= seq![Comp::Root] + t);
        } else {
            assert(d =~= t);
        }
        assert(parse(r) =~= d);
    }
}

/// Removing dots twice gives the same text as removing them once.
pub proof fn lemma_dedot_idempotent(s: Seq<char>)
    ensures
        normalize_text(normalize_text(s)) == normalize_text(s),
{
    let d = normalize(parse(s));
    lemma_normalized_parse(s);
    lemma_parse_render(d);
    lemma_normal_form_fixed(d);
}

} // verus!
