//! File-system paths as text, and the few operations of `std::path` that
//! the library uses on them. Paths are held as `String`s; the operations
//! are std's, for the platform the crate is built for.
use vstd::prelude::*;

verus! {

/// The path `std::path::Path::join` makes of `base` and `rel`.
pub uninterp spec fn joined_path(base: Seq<char>, rel: Seq<char>) -> Seq<char>;

/// The parent `std::path::Path::parent` gives of a path, if any.
pub uninterp spec fn parent_path(p: Seq<char>) -> Option<Seq<char>>;

/// The extension `std::path::Path::extension` gives of a path, if any.
pub uninterp spec fn path_extension(p: Seq<char>) -> Option<Seq<char>>;

/// std's `Path::join`: the result is a fixed function of the two paths
/// (named `joined_path`); the contract says nothing more of it.
#[verifier::external_body]
pub(crate) fn join_path(base: &str, rel: &str) -> (p: String)
    ensures
        p@ == joined_path(base@, rel@),
{
    std::path::Path::new(base).join(rel).to_string_lossy().into_owned()
}

/// std's `Path::parent`: the result is a fixed function of the path (named
/// `parent_path`); the contract says nothing more of it.
#[verifier::external_body]
pub(crate) fn parent_of(p: &str) -> (r: Option<String>)
    ensures
        match r {
            Some(q) => parent_path(p@) == Some(q@),
            None => parent_path(p@) is None,
        },
{
    match std::path::Path::new(p).parent() {
        Some(q) => Some(q.to_string_lossy().into_owned()),
        None => None,
    }
}

/// std's `Path::extension`: the result is a fixed function of the path
/// (named `path_extension`); the contract says nothing more of it.
#[verifier::external_body]
pub(crate) fn extension_of(p: &str) -> (r: Option<String>)
    ensures
        match r {
            Some(e) => path_extension(p@) == Some(e@),
            None => path_extension(p@) is None,
        },
{
    match std::path::Path::new(p).extension() {
        Some(e) => Some(e.to_string_lossy().into_owned()),
        None => None,
    }
}

} // verus!
