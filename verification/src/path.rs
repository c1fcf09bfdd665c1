//! Paths, as the operating system gives them: they are carried through as
//! they are, whether or not they are valid Unicode.

use vstd::prelude::*;
use std::path::PathBuf;

verus! {

/// `std::path::PathBuf`. Nothing inside it is visible to the verifier.
#[verifier::external_type_specification]
#[verifier::external_body]
pub struct ExPathBuf(PathBuf);

/// What a path holds, in the characters that `Debug` shows for it: the path
/// between double quotes, with escapes for what would not print. This is
/// what a path stands for in contracts.
pub uninterp spec fn path_debug(path: PathBuf) -> Seq<char>;

/// `Debug` of `std::path::PathBuf`: the text that `{:?}` gives for `path`.
/// It depends on the path alone.
#[verifier::external_body]
pub(crate) fn show_path(path: &PathBuf) -> (shown: String)
    ensures
        shown@ == path_debug(*path),
{
    format!("{:?}", path)
}

/// `Clone` of `std::path::PathBuf`: a path equal to `path`.
#[verifier::external_body]
pub(crate) fn clone_path(path: &PathBuf) -> (copy: PathBuf)
    ensures
        copy == *path,
{
    path.clone()
}

} // verus!
