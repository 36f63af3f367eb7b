//! Where a listed file stands: its path, taken from the manifest's own
//! directory when it is not absolute. How paths are written is a matter of
//! the platform that the program is built for, and is left to `std::path`.

use crate::profile;
use vstd::prelude::*;

verus! {

/// Whether a path is absolute, as `std::path::Path::is_absolute` tells.
pub uninterp spec fn absolute_path(path: Seq<char>) -> bool;

/// A path below a directory, as `std::path::Path::join` writes it.
pub uninterp spec fn joined_path(base: Seq<char>, path: Seq<char>) -> Seq<char>;

/// A path without its last component, as `std::path::Path::parent` tells;
/// nothing, for a root and for an empty path.
pub uninterp spec fn parent_path(path: Seq<char>) -> Option<Seq<char>>;

/// `std::path::Path::is_absolute`: whether a path is independent of the
/// current directory. It looks at the path alone, not at the disk.
#[verifier::external_body]
fn is_absolute(path: &str) -> (out: bool)
    ensures
        out == absolute_path(path@),
{
    std::path::Path::new(path).is_absolute()
}

/// `std::path::Path::join`: a path adjoined to another. It looks at the two
/// paths alone, not at the disk.
#[verifier::external_body]
fn join_path(base: &str, path: &str) -> (out: String)
    ensures
        out@ == joined_path(base@, path@),
{
    std::path::Path::new(base).join(path).to_string_lossy().into_owned()
}

/// `std::path::Path::parent`: the path without its last component, if there
/// is one. It looks at the path alone, not at the disk.
#[verifier::external_body]
fn parent(path: &str) -> (out: Option<String>)
    ensures
        profile::text_opt(out) == parent_path(path@),
{
    std::path::Path::new(path).parent().map(|p| p.to_string_lossy().into_owned())
}

/// The directory that a parent stands for: itself, or else the current one.
pub open spec fn base_of(parent: Option<Seq<char>>) -> Seq<char> {
    match parent {
        Some(dir) => dir,
        None => "."@,
    }
}

pub fn base_dir(parent: Option<String>) -> (out: String)
    ensures
        out@ == base_of(profile::text_opt(parent)),
{
    match parent {
        Some(dir) => dir,
        None => ".".to_owned(),
    }
}

/// The path itself if it is absolute, else the joined one.
pub open spec fn either_path(path: Seq<char>, absolute: bool, joined: Seq<char>) -> Seq<char> {
    if absolute {
        path
    } else {
        joined
    }
}

pub fn pick_path(path: &str, absolute: bool, joined: String) -> (out: String)
    ensures
        out@ == either_path(path@, absolute, joined@),
{
    if absolute {
        path.to_owned()
    } else {
        joined
    }
}

/// A path that is absolute, or else below a directory.
pub open spec fn resolved_path(base: Seq<char>, path: Seq<char>) -> Seq<char> {
    either_path(path, absolute_path(path), joined_path(base, path))
}

/// Resolve a path against a directory when it is not absolute.
pub fn resolve(base: &str, path: &str) -> (out: String)
    ensures
        out@ == resolved_path(base@, path@),
{
    pick_path(path, is_absolute(path), join_path(base, path))
}

/// The directory of a file.
pub open spec fn directory_path(file: Seq<char>) -> Seq<char> {
    base_of(parent_path(file))
}

/// The directory of a file; the current one, where its path names none.
pub fn directory(file: &str) -> (out: String)
    ensures
        out@ == directory_path(file@),
{
    base_dir(parent(file))
}

/// A path is taken as it is where it is absolute, and otherwise below the
/// directory of the file that lists it, or below the current one where that
/// file's path names none.
pub proof fn lemma_resolved(base: Seq<char>, path: Seq<char>, file: Seq<char>)
    ensures
        absolute_path(path) ==> resolved_path(base, path) == path,
        !absolute_path(path) ==> resolved_path(base, path) == joined_path(base, path),
        parent_path(file) matches Some(dir) ==> directory_path(file) == dir,
        parent_path(file) is None ==> directory_path(file) == "."@,
{
}

} // verus!
