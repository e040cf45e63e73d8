//! Path operations, through `std::path` on the strings that name them.
//! Each name below stands for what `std::path` computes for the target
//! platform; the library only compares, joins and walks paths through them.
use vstd::prelude::*;
use std::path::{Component, Path, PathBuf};

verus! {

/// `Path::new(a) == Path::new(b)`: the two paths have equal components.
pub uninterp spec fn path_same(a: Seq<char>, b: Seq<char>) -> bool;

/// `Path::new(path).starts_with(base)`: `base`'s components are a prefix
/// of `path`'s.
pub uninterp spec fn path_has_base(path: Seq<char>, base: Seq<char>) -> bool;

/// `Path::new(base).join(rest)`, as text.
pub uninterp spec fn path_joined(base: Seq<char>, rest: Seq<char>) -> Seq<char>;

/// `Path::new(path).parent()`, as text.
pub uninterp spec fn path_parent_of(path: Seq<char>) -> Option<Seq<char>>;

/// `Path::new(path).components()`, each as its name when it is a normal
/// component and `None` otherwise (root, prefix, `.` or `..`).
pub uninterp spec fn path_component_names(path: Seq<char>) -> Seq<Option<Seq<char>>>;

/// `path` is `base`, a separator and more, where `base` starts with a
/// single `/` and does not end in `/`: its components then are `base`'s
/// followed by those of the rest.
pub open spec fn under_by_text(path: Seq<char>, base: Seq<char>) -> bool {
    &&& base.len() > 0
    &&& base[0] == '/'
    &&& (base.len() > 1 ==> base[1] != '/')
    &&& base.last() != '/'
    &&& base.is_prefix_of(path)
    &&& path.len() > base.len()
    &&& path[base.len() as int] == '/'
}

/// Calls `<Path as PartialEq>::eq`. Claims, besides, that a path equals
/// itself.
#[verifier::external_body]
pub(crate) fn path_eq(a: &str, b: &str) -> (r: bool)
    ensures
        r == path_same(a@, b@),
        a@ == b@ ==> r,
{
    Path::new(a) == Path::new(b)
}

/// Calls `Path::starts_with`. Claims, besides, that a path starts with
/// itself, and with any `base` it extends past a separator in the way
/// `under_by_text` describes.
#[verifier::external_body]
pub(crate) fn path_starts_with(path: &str, base: &str) -> (r: bool)
    ensures
        r == path_has_base(path@, base@),
        path@ == base@ ==> r,
        under_by_text(path@, base@) ==> r,
{
    Path::new(path).starts_with(base)
}

/// Calls `Path::join`, rendering the joined path as text.
#[verifier::external_body]
pub(crate) fn path_join(base: &str, rest: &str) -> (r: String)
    ensures
        r@ == path_joined(base@, rest@),
{
    PathBuf::from(base).join(rest).to_string_lossy().into_owned()
}

/// Calls `Path::parent`, rendering the parent as text.
#[verifier::external_body]
pub(crate) fn path_parent(path: &str) -> (r: Option<String>)
    ensures
        r is Some <==> path_parent_of(path@) is Some,
        r matches Some(p) ==> path_parent_of(path@) == Some(p@),
{
    Path::new(path).parent().map(|p| p.to_string_lossy().into_owned())
}

/// Calls `Path::components`, each normal component as its name.
#[verifier::external_body]
pub(crate) fn path_components(path: &str) -> (r: Vec<Option<String>>)
    ensures
        r@.map_values(|c: Option<String>| match c {
            Some(s) => Some(s@),
            None => None,
        }) == path_component_names(path@),
{
    Path::new(path).components().map(|c| match c {
        Component::Normal(name) => Some(name.to_string_lossy().into_owned()),
        _ => None,
    }).collect()
}

} // verus!
