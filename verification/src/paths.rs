//! File-system paths as text. The parsing itself is the standard library's:
//! each function here hands a path to `std::path` and returns what it says,
//! which depends on the text of the path and on the path syntax of the
//! platform that the library is built for. Nothing in this module touches
//! the disk.

use vstd::prelude::*;

verus! {

/// What `Path::file_name` gives for `path`: its last component, if it has one.
pub uninterp spec fn path_file_name(path: Seq<char>) -> Option<Seq<char>>;

/// What `Path::file_stem` gives for `path`: the file name without its extension.
pub uninterp spec fn path_file_stem(path: Seq<char>) -> Option<Seq<char>>;

/// What `Path::extension` gives for `path`: the file name's part after its last dot.
pub uninterp spec fn path_extension(path: Seq<char>) -> Option<Seq<char>>;

/// What `Path::parent` gives for `path`: the path without its last component.
pub uninterp spec fn path_parent(path: Seq<char>) -> Option<Seq<char>>;

/// What `Path::join` gives for `base` and `rest`.
pub uninterp spec fn path_join(base: Seq<char>, rest: Seq<char>) -> Seq<char>;

/// What `Path::is_absolute` gives for `path`.
pub uninterp spec fn path_is_absolute(path: Seq<char>) -> bool;

/// The last component of `path`. Calls `Path::file_name`; the contract only
/// names its answer, which depends on the text of `path` alone.
#[verifier::external_body]
pub(crate) fn file_name(path: &str) -> (r: Option<String>)
    ensures
        r.deep_view() == path_file_name(path@),
{
    std::path::Path::new(path).file_name().map(|n| n.to_string_lossy().into_owned())
}

/// The file name of `path` without its extension. Calls `Path::file_stem`;
/// the contract only names its answer.
#[verifier::external_body]
pub(crate) fn file_stem(path: &str) -> (r: Option<String>)
    ensures
        r.deep_view() == path_file_stem(path@),
{
    std::path::Path::new(path).file_stem().map(|n| n.to_string_lossy().into_owned())
}

/// The extension of `path`. Calls `Path::extension`; the contract only names
/// its answer.
#[verifier::external_body]
pub(crate) fn extension(path: &str) -> (r: Option<String>)
    ensures
        r.deep_view() == path_extension(path@),
{
    std::path::Path::new(path).extension().map(|n| n.to_string_lossy().into_owned())
}

/// The directory part of `path`. Calls `Path::parent`; the contract only
/// names its answer.
#[verifier::external_body]
pub(crate) fn parent(path: &str) -> (r: Option<String>)
    ensures
        r.deep_view() == path_parent(path@),
{
    std::path::Path::new(path).parent().map(|n| n.to_string_lossy().into_owned())
}

/// `rest` appended to `base` as a path. Calls `Path::join`; the contract only
/// names its answer.
#[verifier::external_body]
pub(crate) fn join(base: &str, rest: &str) -> (r: String)
    ensures
        r@ == path_join(base@, rest@),
{
    std::path::Path::new(base).join(rest).to_string_lossy().into_owned()
}

/// Whether `path` is absolute. Calls `Path::is_absolute`; the contract only
/// names its answer.
#[verifier::external_body]
pub(crate) fn is_absolute(path: &str) -> (r: bool)
    ensures
        r == path_is_absolute(path@),
{
    std::path::Path::new(path).is_absolute()
}

} // verus!
