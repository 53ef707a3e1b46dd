//! Paths, held as text. What a path's parts are is what `std::path::Path`
//! says they are; these names stand for its answers.
use vstd::prelude::*;
use crate::text::opt_view;

verus! {

/// What `Path::extension` gives for a path: the part of its file name
/// after the last `.`, if the name has one that does not begin it.
pub uninterp spec fn extension_of(path: Seq<char>) -> Option<Seq<char>>;

/// What `Path::parent` gives for a path: the path without its last
/// component, or nothing for a root or an empty path.
pub uninterp spec fn parent_of(path: Seq<char>) -> Option<Seq<char>>;

/// What `Path::file_name` gives for a path: its last component, unless
/// that is `..`.
pub uninterp spec fn file_name_of(path: Seq<char>) -> Option<Seq<char>>;

/// Calls `Path::extension` on the path. Claimed: the result, as text, is
/// `extension_of` the path, a function of the path alone.
#[verifier::external_body]
pub fn path_extension(path: &str) -> (r: Option<String>)
    ensures
        opt_view(r) == extension_of(path@),
{
    std::path::Path::new(path).extension().and_then(|e| e.to_str()).map(|e| e.to_string())
}

/// Calls `Path::parent` on the path. Claimed: the result, as text, is
/// `parent_of` the path, a function of the path alone.
#[verifier::external_body]
pub fn path_parent(path: &str) -> (r: Option<String>)
    ensures
        opt_view(r) == parent_of(path@),
{
    std::path::Path::new(path).parent().and_then(|p| p.to_str()).map(|p| p.to_string())
}

/// Calls `Path::file_name` on the path. Claimed: the result, as text, is
/// `file_name_of` the path, a function of the path alone.
#[verifier::external_body]
pub fn path_file_name(path: &str) -> (r: Option<String>)
    ensures
        opt_view(r) == file_name_of(path@),
{
    std::path::Path::new(path).file_name().and_then(|n| n.to_str()).map(|n| n.to_string())
}

} // verus!
