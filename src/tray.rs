//! The containment decision and the sandbox handle that applies it.
use vstd::prelude::*;

use crate::error::Error;
use crate::path::{
    comps_view, components, dedot, is_absolute, lemma_normalized_parse, normalize,
    normalize_components, normalize_text, parse, render_components, text_is_absolute, Comp,
    Component,
};

verus! {

/// How a requested path stands with respect to a sandbox root.
#[derive(Clone, Copy, Debug, PartialEq, Eq, Structural)]
pub enum Decision {
    /// A relative path, resolved against the sandbox as working directory.
    Relative,
    /// An absolute path under the sandbox root.
    ContainedAbsolute,
    /// An absolute path outside the sandbox root.
    Rejected,
}

/// `base` is a component-wise prefix of `p`.
pub open spec fn is_component_prefix(base: Seq<Comp>, p: Seq<Comp>) -> bool {
    base.len() <= p.len() && p.subrange(0, base.len() as int) == base
}

/// The decision for the text `path` under the sandbox root with text `root`:
/// both are normalized first, and an absolute path must have the root's
/// components as a prefix.
pub open spec fn decide(root: Seq<char>, path: Seq<char>) -> Decision {
    let n = normalize(parse(path));
    if !is_absolute(n) {
        Decision::Relative
    } else if is_component_prefix(normalize(parse(root)), n) {
        Decision::ContainedAbsolute
    } else {
        Decision::Rejected
    }
}

/// A containment decision, with the normalized path it was made on.
#[derive(Debug)]
pub struct Containment {
    pub decision: Decision,
    pub path: String,
}

/// Decides whether `path` lies inside the sandbox rooted at `root`.
pub fn is_contained(root: &str, path: &str) -> (r: Containment)
    ensures
        r.decision == decide(root@, path@),
        r.path@ == normalize_text(path@),
{
    let base = normalize_components(&components(root));
    let n = normalize_components(&components(path));
    let text = render_components(&n);
    let decision = if !starts_at_root(&n) {
        Decision::Relative
    } else if has_prefix(&n, &base) {
        Decision::ContainedAbsolute
    } else {
        Decision::Rejected
    };
    Containment { decision, path: text }
}

/// Whether the components start at the root.
fn starts_at_root(n: &Vec<Component>) -> (r: bool)
    ensures
        r == is_absolute(comps_view(n@)),
{
    if n.len() > 0 {
        match &n[0] {
            Component::RootDir => true,
            Component::Prefix(_) => n.len() > 1 && matches!(n[1], Component::RootDir),
            _ => false,
        }
    } else {
        false
    }
}

/// Whether two components are the same.
fn same_component(a: &Component, b: &Component) -> (r: bool)
    ensures
        r == (a@ == b@),
{
    match (a, b) {
        (Component::Prefix(x), Component::Prefix(y)) => x.eq(y),
        (Component::RootDir, Component::RootDir) => true,
        (Component::CurDir, Component::CurDir) => true,
        (Component::ParentDir, Component::ParentDir) => true,
        (Component::Normal(x), Component::Normal(y)) => x.eq(y),
        _ => false,
    }
}

/// Whether `base` is a component-wise prefix of `p`.
fn has_prefix(p: &Vec<Component>, base: &Vec<Component>) -> (r: bool)
    ensures
        r == is_component_prefix(comps_view(base@), comps_view(p@)),
{
    if base.len() > p.len() {
        return false;
    }
    let mut i: usize = 0;
    while i < base.len()
        invariant
            base.len() <= p.len(),
            i <= base.len(),
            forall|j: int| 0 <= j < i ==> comps_view(p@)[j] == comps_view(base@)[j],
        decreases base.len() - i,
    {
        if !same_component(&p[i], &base[i]) {
            assert(comps_view(p@).subrange(0, base.len() as int)[i as int] != comps_view(
                base@,
            )[i as int]);
            return false;
        }
        i = i + 1;
    }
    assert(comps_view(p@).subrange(0, base.len() as int) =~= comps_view(base@));
    true
}

/// Every absolute path whose normalized form does not have the sandbox
/// root's components as a prefix is rejected.
pub proof fn lemma_outside_absolute_rejected(root: Seq<char>, path: Seq<char>)
    requires
        text_is_absolute(path),
        !is_component_prefix(normalize(parse(root)), normalize(parse(path))),
    ensures
        decide(root, path) == Decision::Rejected,
{
    lemma_normalized_parse(path);
}

/// Every relative path is classified as relative, whatever `..` segments it
/// holds: normalization never turns it into an absolute path.
pub proof fn lemma_relative_stays_relative(root: Seq<char>, path: Seq<char>)
    requires
        !text_is_absolute(path),
    ensures
        decide(root, path) == Decision::Relative,
{
    lemma_normalized_parse(path);
}

/// A text fit to be a sandbox root: absolute, and already normalized.
pub open spec fn is_root_text(s: Seq<char>) -> bool {
    text_is_absolute(s) && normalize_text(s) == s
}

/// Whether `s` is fit to be a sandbox root.
pub fn is_root_path(s: &str) -> (r: bool)
    ensures
        r == is_root_text(s@),
{
    let n = s.unicode_len();
    if n == 0 || s.get_char(0) != '/' {
        return false;
    }
    let normalized = dedot(s);
    let given = String::from_str(s);
    normalized.eq(&given)
}

/// The sandbox handle: the canonical absolute path of the sandbox directory
/// and the working directory that was current when the sandbox was entered.
#[derive(Debug)]
pub struct LitterTray {
    canonical_dir: String,
    saved_cwd: String,
}

impl LitterTray {
    /// The sandbox root is always an absolute, normalized path.
    #[verifier::type_invariant]
    spec fn inv(self) -> bool {
        is_root_text(self.canonical_dir@)
    }

    /// The text of the sandbox root.
    pub closed spec fn root(&self) -> Seq<char> {
        self.canonical_dir@
    }

    /// The text of the working directory to return to.
    pub closed spec fn prior(&self) -> Seq<char> {
        self.saved_cwd@
    }

    /// A handle for the sandbox at `canonical_dir`, entered from `saved_cwd`.
    pub fn new(canonical_dir: String, saved_cwd: String) -> (r: LitterTray)
        requires
            is_root_text(canonical_dir@),
        ensures
            r.root() == canonical_dir@,
            r.prior() == saved_cwd@,
    {
        LitterTray { canonical_dir, saved_cwd }
    }

    /// A handle for the sandbox at `canonical_dir`, entered from `saved_cwd`,
    /// if `canonical_dir` is an absolute, normalized path.
    pub fn try_new(canonical_dir: String, saved_cwd: String) -> (r: Option<LitterTray>)
        ensures
            r is Some <==> is_root_text(canonical_dir@),
            r matches Some(t) ==> t.root() == canonical_dir@ && t.prior() == saved_cwd@,
    {
        if is_root_path(canonical_dir.as_str()) {
            Some(LitterTray::new(canonical_dir, saved_cwd))
        } else {
            None
        }
    }

    /// The absolute path of the sandbox directory; it is already normalized.
    pub fn directory(&self) -> (r: &str)
        ensures
            r@ == self.root(),
            text_is_absolute(r@),
            normalize_text(r@) == r@,
    {
        proof {
            use_type_invariant(self);
        }
        self.canonical_dir.as_str()
    }

    /// The working directory that was current before the sandbox was entered.
    pub fn prior_working_directory(&self) -> (r: &str)
        ensures
            r@ == self.prior(),
    {
        self.saved_cwd.as_str()
    }

    /// The normalized form of `path` if it may be used inside the sandbox:
    /// relative paths always may, absolute ones only under the root.
    pub fn safe_path_within_tray(&self, path: &str) -> (r: Result<String, Error>)
        ensures
            match r {
                Ok(p) => decide(self.root(), path@) != Decision::Rejected && p@ == normalize_text(
                    path@,
                ),
                Err(Error::Uncontained(p)) => decide(self.root(), path@) == Decision::Rejected
                    && p@ == normalize_text(path@),
                Err(Error::Io(_)) => false,
            },
    {
        let c = is_contained(self.canonical_dir.as_str(), path);
        match c.decision {
            Decision::Rejected => Err(Error::Uncontained(c.path)),
            _ => Ok(c.path),
        }
    }
}

} // verus!
