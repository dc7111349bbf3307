//! Path predicates: which directories are scanned, which files are sources, which are tests.

use crate::paths::{extension_of, file_name_of, path_extension, path_file_name};
use crate::text::{has_prefix, has_suffix, str_eq, str_has_prefix, str_has_suffix};
use vstd::prelude::*;

verus! {

/// A directory of this name is never scanned: version-control metadata, virtual
/// environments, dependency and build caches.
pub open spec fn is_skipped_dir_name(name: Seq<char>) -> bool {
    ||| name == ".git"@
    ||| name == "target"@
    ||| name == ".tox"@
    ||| name == ".venv"@
    ||| name == "venv"@
    ||| name == "__pycache__"@
    ||| name == "node_modules"@
}

/// The scan enters `path`: its final component is not the name of a skipped directory.
pub open spec fn enters_dir(path: Seq<char>) -> bool {
    match file_name_of(path) {
        Some(name) => !is_skipped_dir_name(name),
        None => true,
    }
}

/// `path` has the source-file extension.
pub open spec fn is_python_path(path: Seq<char>) -> bool {
    extension_of(path) == Some("py"@)
}

/// A file of this name is a test file.
pub open spec fn is_test_name(name: Seq<char>) -> bool {
    has_prefix(name, "test_"@) || has_suffix(name, "_test.py"@)
}

/// The file name of `path`, or the empty text where it has none.
pub open spec fn file_name_or_empty(path: Seq<char>) -> Seq<char> {
    match file_name_of(path) {
        Some(name) => name,
        None => Seq::empty(),
    }
}

/// `path` names a test file.
pub open spec fn is_test_path(path: Seq<char>) -> bool {
    is_test_name(file_name_or_empty(path))
}

/// Whether a directory of this name is never scanned.
pub fn is_skipped_dir(name: &str) -> (skipped: bool)
    ensures
        skipped == is_skipped_dir_name(name@),
{
    str_eq(name, ".git") || str_eq(name, "target") || str_eq(name, ".tox") || str_eq(name, ".venv")
        || str_eq(name, "venv") || str_eq(name, "__pycache__") || str_eq(name, "node_modules")
}

/// Whether the scan should enter the directory `path`.
pub fn filter_dir(path: &str) -> (keep: bool)
    ensures
        keep == enters_dir(path@),
{
    match path_file_name(path) {
        Some(name) => !is_skipped_dir(name.as_str()),
        None => true,
    }
}

/// Whether `path` has the source-file extension.
pub fn is_python_file(path: &str) -> (py: bool)
    ensures
        py == is_python_path(path@),
{
    match path_extension(path) {
        Some(ext) => str_eq(ext.as_str(), "py"),
        None => false,
    }
}

/// Whether a file of this name is a test file: the name starts with `test_` or ends with
/// `_test.py`.
pub fn is_test_file_name(name: &str) -> (test: bool)
    ensures
        test == is_test_name(name@),
{
    str_has_prefix(name, "test_") || str_has_suffix(name, "_test.py")
}

/// Whether `path` names a test file: its file name starts with `test_` or ends with
/// `_test.py`.
pub fn is_test_file(path: &str) -> (test: bool)
    ensures
        test == is_test_path(path@),
{
    let name = match path_file_name(path) {
        Some(name) => name,
        None => String::new(),
    };
    is_test_file_name(name.as_str())
}

} // verus!
