//! Path operations, carried out by `camino` on UTF-8 path text.
//!
//! Paths travel through the library as text. What a path means (its components, its parent,
//! its file name) is decided by `camino`, which follows `std::path`: each operation below is
//! a call into it whose result is named by a specification function of the path text.

use vstd::prelude::*;

verus! {

/// The parent that `camino::Utf8Path::parent` gives for a path.
pub uninterp spec fn parent_of(path: Seq<char>) -> Option<Seq<char>>;

/// The final component that `camino::Utf8Path::file_name` gives for a path.
pub uninterp spec fn file_name_of(path: Seq<char>) -> Option<Seq<char>>;

/// The stem that `camino::Utf8Path::file_stem` gives for a path.
pub uninterp spec fn file_stem_of(path: Seq<char>) -> Option<Seq<char>>;

/// The extension that `camino::Utf8Path::extension` gives for a path.
pub uninterp spec fn extension_of(path: Seq<char>) -> Option<Seq<char>>;

/// The path that `camino::Utf8Path::join` gives for a base and a path adjoined to it.
pub uninterp spec fn joined(base: Seq<char>, rest: Seq<char>) -> Seq<char>;

/// The remainder that `camino::Utf8Path::strip_prefix` gives for a path and a base.
pub uninterp spec fn stripped_prefix(path: Seq<char>, base: Seq<char>) -> Option<Seq<char>>;

/// The components that `camino::Utf8Path::components` yields for a path, each as text.
pub uninterp spec fn components_of(path: Seq<char>) -> Seq<Seq<char>>;

/// The path that `camino::Utf8PathBuf` collects from a list of components.
pub uninterp spec fn assembled(parts: Seq<Seq<char>>) -> Seq<char>;

/// The relative path that `pathdiff::diff_paths` gives from a base to a path.
pub uninterp spec fn relative_to(path: Seq<char>, base: Seq<char>) -> Option<Seq<char>>;

/// `a` comes before `b`, or is the same path, in the order that `camino` gives to
/// `Utf8Path`: the order of their components.
pub uninterp spec fn path_le(a: Seq<char>, b: Seq<char>) -> bool;

/// The text of an optional string.
pub open spec fn opt_text(s: Option<String>) -> Option<Seq<char>> {
    match s {
        Some(t) => Some(t@),
        None => None,
    }
}

/// Two path texts name the same path: they have the same components.
pub open spec fn same_path(a: Seq<char>, b: Seq<char>) -> bool {
    components_of(a) == components_of(b)
}

/// Calls `camino::Utf8Path::parent`: the path without its final component, if there is
/// one. The parent is part of the path it was taken from, so it is strictly shorter.
#[verifier::external_body]
pub(crate) fn path_parent(path: &str) -> (parent: Option<String>)
    ensures
        opt_text(parent) == parent_of(path@),
        parent matches Some(p) ==> p@.len() < path@.len(),
{
    camino::Utf8Path::new(path).parent().map(|p| p.as_str().to_string())
}

/// Calls `camino::Utf8Path::file_name`: the final component of the path, if there is one.
#[verifier::external_body]
pub(crate) fn path_file_name(path: &str) -> (name: Option<String>)
    ensures
        opt_text(name) == file_name_of(path@),
{
    camino::Utf8Path::new(path).file_name().map(|n| n.to_string())
}

/// Calls `camino::Utf8Path::file_stem`: the file name without its extension.
#[verifier::external_body]
pub(crate) fn path_file_stem(path: &str) -> (stem: Option<String>)
    ensures
        opt_text(stem) == file_stem_of(path@),
{
    camino::Utf8Path::new(path).file_stem().map(|n| n.to_string())
}

/// Calls `camino::Utf8Path::extension`: what follows the final dot of the file name.
#[verifier::external_body]
pub(crate) fn path_extension(path: &str) -> (ext: Option<String>)
    ensures
        opt_text(ext) == extension_of(path@),
{
    camino::Utf8Path::new(path).extension().map(|n| n.to_string())
}

/// Calls `camino::Utf8Path::join`: `base` with `rest` adjoined.
#[verifier::external_body]
pub(crate) fn path_join(base: &str, rest: &str) -> (out: String)
    ensures
        out@ == joined(base@, rest@),
{
    camino::Utf8Path::new(base).join(rest).into_string()
}

/// Calls `camino::Utf8Path::strip_prefix`: the path that, joined onto `base`, yields
/// `path`; nothing where `base` is not a prefix of `path`.
#[verifier::external_body]
pub(crate) fn path_strip_prefix(path: &str, base: &str) -> (rest: Option<String>)
    ensures
        opt_text(rest) == stripped_prefix(path@, base@),
{
    camino::Utf8Path::new(path).strip_prefix(base).ok().map(|p| p.as_str().to_string())
}

/// Calls `camino::Utf8Path::components` and takes the text of each component.
#[verifier::external_body]
pub(crate) fn path_components(path: &str) -> (parts: Vec<String>)
    ensures
        crate::text::texts(parts@) == components_of(path@),
{
    camino::Utf8Path::new(path).components().map(|c| c.as_str().to_string()).collect()
}

/// Collects components into a `camino::Utf8PathBuf`, which adjoins each to what came
/// before.
#[verifier::external_body]
pub(crate) fn path_from_parts(parts: &Vec<String>) -> (out: String)
    ensures
        out@ == assembled(crate::text::texts(parts@)),
{
    parts.iter().collect::<camino::Utf8PathBuf>().into_string()
}

/// Calls `pathdiff::diff_paths`: a relative path that leads from `base` to `path`, where
/// it can construct one.
#[verifier::external_body]
pub(crate) fn path_relative_to(path: &str, base: &str) -> (rest: Option<String>)
    ensures
        opt_text(rest) == relative_to(path@, base@),
{
    pathdiff::diff_paths(path, base).map(|p| p.to_string_lossy().into_owned())
}

/// Compares two paths with `<=` on `camino::Utf8Path`, which compares their components
/// in order. The order is total, and paths with the same components are level.
#[verifier::external_body]
pub(crate) fn path_precedes(a: &str, b: &str) -> (le: bool)
    ensures
        le == path_le(a@, b@),
        le || path_le(b@, a@),
        same_path(a@, b@) ==> le,
{
    camino::Utf8Path::new(a) <= camino::Utf8Path::new(b)
}

} // verus!
