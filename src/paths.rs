use vstd::prelude::*;

verus! {

/// The path that leads from directory `base` to `path`, as pathdiff computes
/// it from the two paths alone, without looking at the file system.
pub uninterp spec fn relative_path_from(path: Seq<char>, base: Seq<char>) -> Option<Seq<char>>;

/// The directory part of a path, as std's `Path::parent` reads it.
pub uninterp spec fn parent_of(path: Seq<char>) -> Option<Seq<char>>;

/// `rel` taken from directory `base`, as std's `Path::join` forms it.
pub uninterp spec fn joined(base: Seq<char>, rel: Seq<char>) -> Seq<char>;

/// Relies on std::path::Path::join: `rel` appended to `base` (or `rel`
/// itself where it is absolute). Text joined to text is text, so the lossy
/// conversion back loses nothing.
#[verifier::external_body]
pub(crate) fn join_path(base: &str, rel: &str) -> (r: String)
    ensures
        r@ == joined(base@, rel@),
{
    std::path::Path::new(base).join(rel).to_string_lossy().into_owned()
}

/// Relies on pathdiff::diff_paths: the relative path from `base` to `path`,
/// or none where there is none (as where `path` is relative and `base` is
/// absolute). Inputs that are text give text back.
#[verifier::external_body]
pub(crate) fn diff_paths(path: &str, base: &str) -> (r: Option<String>)
    ensures
        match r {
            Some(p) => relative_path_from(path@, base@) == Some(p@),
            None => relative_path_from(path@, base@) is None,
        },
{
    pathdiff::diff_paths(path, base).and_then(|p| p.to_str().map(|s| s.to_string()))
}

/// Relies on std::path::Path::parent: the path without its last component;
/// none for a path that ends in a root or prefix, and for the empty path.
#[verifier::external_body]
pub(crate) fn parent_dir(path: &str) -> (r: Option<String>)
    ensures
        match r {
            Some(p) => parent_of(path@) == Some(p@),
            None => parent_of(path@) is None,
        },
        path@.len() == 0 ==> r is None,
{
    std::path::Path::new(path).parent().and_then(|p| p.to_str()).map(|s| s.to_string())
}

} // verus!
