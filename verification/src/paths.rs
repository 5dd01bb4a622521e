//! The path operations of the standard library that the copier relies on.
//!
//! Paths are carried as UTF-8 strings. Splitting a path into components,
//! joining a name onto a directory and testing whether one path lies under
//! another are done by `std::path`; their results are named here and the
//! library's logic is stated over those names.
use std::path::{Component, Path};
use vstd::prelude::*;

verus! {

/// One component of a path, as `std::path::Component` yields it.
#[derive(Debug)]
pub enum PathComponent {
    /// A Windows path prefix such as `C:`.
    Prefix,
    /// The root directory `/`.
    RootDir,
    /// A leading `.`.
    CurDir,
    /// A `..`.
    ParentDir,
    /// An ordinary name.
    Normal(String),
}

/// The mathematical value of a path component.
pub enum ComponentView {
    Prefix,
    RootDir,
    CurDir,
    ParentDir,
    Normal(Seq<char>),
}

impl View for PathComponent {
    type V = ComponentView;

    open spec fn view(&self) -> ComponentView {
        match self {
            PathComponent::Prefix => ComponentView::Prefix,
            PathComponent::RootDir => ComponentView::RootDir,
            PathComponent::CurDir => ComponentView::CurDir,
            PathComponent::ParentDir => ComponentView::ParentDir,
            PathComponent::Normal(name) => ComponentView::Normal(name@),
        }
    }
}

/// The views of a sequence of components.
pub open spec fn components_view(cs: Seq<PathComponent>) -> Seq<ComponentView> {
    cs.map_values(|c: PathComponent| c@)
}

/// The components that `Path::components` yields for a path.
pub uninterp spec fn std_components(path: Seq<char>) -> Seq<ComponentView>;

/// The path that `Path::join` builds from a base path and a pushed path.
pub uninterp spec fn std_join(base: Seq<char>, pushed: Seq<char>) -> Seq<char>;

/// Whether `Path::starts_with` finds `base` to be a prefix of `path`.
pub uninterp spec fn std_starts_with(path: Seq<char>, base: Seq<char>) -> bool;

/// The part of `path` after `base`, as `Path::strip_prefix` gives it, or `None` where
/// `base` is not a prefix of `path`.
pub uninterp spec fn std_strip_prefix(path: Seq<char>, base: Seq<char>) -> Option<Seq<char>>;

/// Calls `Path::components` and converts each component.
/// Claimed: the result is the sequence that the standard library yields for this path.
#[verifier::external_body]
pub(crate) fn path_components(path: &str) -> (res: Vec<PathComponent>)
    ensures
        components_view(res@) == std_components(path@),
{
    Path::new(path).components().map(|c| match c {
        Component::Prefix(_) => PathComponent::Prefix,
        Component::RootDir => PathComponent::RootDir,
        Component::CurDir => PathComponent::CurDir,
        Component::ParentDir => PathComponent::ParentDir,
        Component::Normal(name) => PathComponent::Normal(name.to_string_lossy().into_owned()),
    }).collect()
}

/// Calls `Path::join`.
/// Claimed: the result is the joined path that the standard library builds from these two
/// strings; since both are UTF-8, so is the result, and the conversion back loses nothing.
#[verifier::external_body]
pub(crate) fn join_path(base: &str, pushed: &str) -> (res: String)
    ensures
        res@ == std_join(base@, pushed@),
{
    Path::new(base).join(pushed).to_string_lossy().into_owned()
}

/// Whether the components `base` begin the components `path`.
pub open spec fn components_prefix(base: Seq<ComponentView>, path: Seq<ComponentView>) -> bool {
    base.len() <= path.len() && path.subrange(0, base.len() as int) == base
}

/// Where `a` begins `b` and `b` begins `c`, `a` begins `c`.
pub proof fn lemma_components_prefix_trans(
    a: Seq<ComponentView>,
    b: Seq<ComponentView>,
    c: Seq<ComponentView>,
)
    requires
        components_prefix(a, b),
        components_prefix(b, c),
    ensures
        components_prefix(a, c),
{
    assert forall|k: int| 0 <= k < a.len() implies c[k] == a[k] by {
        assert(c.subrange(0, b.len() as int)[k] == b[k]);
        assert(b.subrange(0, a.len() as int)[k] == a[k]);
    }
    assert(c.subrange(0, a.len() as int) =~= a);
}

/// Calls `Path::starts_with`.
/// Claimed: the result is the standard library's answer for these two strings, and, as its
/// documentation says that only whole components match, where it is `true` the
/// components of `base` begin those of `path`.
#[verifier::external_body]
pub(crate) fn path_starts_with(path: &str, base: &str) -> (res: bool)
    ensures
        res == std_starts_with(path@, base@),
        res ==> components_prefix(std_components(base@), std_components(path@)),
{
    Path::new(path).starts_with(base)
}

/// Calls `Path::strip_prefix`.
/// Claimed: the result is the standard library's answer for these two strings, its
/// error turned into `None`; the remainder of a UTF-8 path is UTF-8, so nothing is lost.
/// As its documentation says, it fails exactly where `Path::starts_with` is `false`.
#[verifier::external_body]
pub(crate) fn strip_prefix_path(path: &str, base: &str) -> (res: Option<String>)
    ensures
        res is None <==> !std_starts_with(path@, base@),
        match res {
            Some(rest) => std_strip_prefix(path@, base@) == Some(rest@),
            None => std_strip_prefix(path@, base@) is None,
        },
{
    Path::new(path).strip_prefix(base).ok().map(|rest| rest.to_string_lossy().into_owned())
}

} // verus!
