//! The path resolver: from a start path, as the caller wrote it, to the
//! directory whose listing holds the start entry.
//!
//! Paths are text. Joining, normalising and taking the parent are done by
//! `std::path` and by the `path_absolutize` crate; what they return is named
//! here, not defined, and the functions of this module say how those results
//! are put together.

use path_absolutize::Absolutize;
use std::path::Path;
use vstd::prelude::*;

verus! {

/// `std::io::Error`, carried through as an opaque value.
#[verifier::external_type_specification]
#[verifier::external_body]
pub struct ExIoError(std::io::Error);

/// Why a start path could not be resolved.
#[derive(Clone, Copy, Debug, PartialEq, Eq)]
pub enum ResolveError {
    /// The current working directory is not known, or is not an absolute path.
    Environment,
    /// The path could not be normalised.
    PathNormalization,
    /// The path has no parent: it is the root of the filesystem, which cannot
    /// be walked.
    NoParent,
}

/// Whether a path starts at the root of the filesystem.
pub open spec fn is_rooted(path: Seq<char>) -> bool {
    path.len() > 0 && path[0] == '/'
}

/// The path that `std::path::Path::join` makes of `base` and `path`.
pub uninterp spec fn joined_path(base: Seq<char>, path: Seq<char>) -> Seq<char>;

/// The path that `path_absolutize::Absolutize::absolutize_from` makes of
/// `path`, seen from the directory `cwd`: absolute, without `.` and `..`
/// segments and without redundant separators. `None` where it reports an
/// error.
pub uninterp spec fn absolutized_path(path: Seq<char>, cwd: Seq<char>) -> Option<Seq<char>>;

/// The path that `std::path::Path::parent` gives for `path`: the path without
/// its final component, or `None` where it ends in the root.
pub uninterp spec fn parent_path(path: Seq<char>) -> Option<Seq<char>>;

/// Calls `std::path::Path::join` on `base` with `path`. The contract only
/// names the result.
#[verifier::external_body]
fn path_join(base: &str, path: &str) -> (joined: String)
    ensures
        joined@ == joined_path(base@, path@),
{
    Path::new(base).join(path).to_string_lossy().into_owned()
}

/// Calls `path_absolutize::Absolutize::absolutize_from` on `path` with `cwd`.
/// The contract only names the result, success or failure. A `cwd` that
/// starts at the root is asked for because the call can panic on a relative
/// one, when `..` segments climb above it.
#[verifier::external_body]
fn path_absolutize(path: &str, cwd: &str) -> (r: Result<String, std::io::Error>)
    requires
        is_rooted(cwd@),
    ensures
        match r {
            Ok(absolute) => absolutized_path(path@, cwd@) == Some(absolute@),
            Err(_) => absolutized_path(path@, cwd@) is None,
        },
{
    match Path::new(path).absolutize_from(cwd) {
        Ok(absolute) => Ok(absolute.to_string_lossy().into_owned()),
        Err(error) => Err(error),
    }
}

/// Calls `std::path::Path::parent` on `path`. The contract only names the
/// result.
#[verifier::external_body]
fn path_parent(path: &str) -> (r: Option<String>)
    ensures
        match r {
            Some(parent) => parent_path(path@) == Some(parent@),
            None => parent_path(path@) is None,
        },
{
    match Path::new(path).parent() {
        Some(parent) => Some(parent.to_string_lossy().into_owned()),
        None => None,
    }
}

/// The clean, absolute form of `path` for a process whose working directory
/// is `cwd`, or the reason why there is none.
pub open spec fn absolute_of(cwd: Option<Seq<char>>, path: Seq<char>) -> Result<
    Seq<char>,
    ResolveError,
> {
    match cwd {
        None => Err(ResolveError::Environment),
        Some(base) => if !is_rooted(base) {
            Err(ResolveError::Environment)
        } else {
            match absolutized_path(joined_path(base, path), base) {
                Some(absolute) => Ok(absolute),
                None => Err(ResolveError::PathNormalization),
            }
        },
    }
}

/// The directory whose listing holds the entry at `start`, or the reason why
/// there is none.
pub open spec fn enclosing_of(cwd: Option<Seq<char>>, start: Seq<char>) -> Result<
    Seq<char>,
    ResolveError,
> {
    match absolute_of(cwd, start) {
        Err(error) => Err(error),
        Ok(absolute) => match parent_path(absolute) {
            Some(parent) => Ok(parent),
            None => Err(ResolveError::NoParent),
        },
    }
}

/// The view of an optional path.
pub open spec fn path_view(path: Option<&str>) -> Option<Seq<char>> {
    match path {
        Some(text) => Some(text@),
        None => None,
    }
}

/// What the resolver makes of the outcome of normalising a path: the path, or
/// `PathNormalization` for any error.
pub fn normalized(outcome: Result<String, std::io::Error>) -> (r: Result<String, ResolveError>)
    ensures
        match outcome {
            Ok(absolute) => r == Ok::<String, ResolveError>(absolute),
            Err(_) => r == Err::<String, ResolveError>(ResolveError::PathNormalization),
        },
{
    match outcome {
        Ok(absolute) => Ok(absolute),
        Err(_) => Err(ResolveError::PathNormalization),
    }
}

/// What the resolver makes of the parent of a start path: the parent, or
/// `NoParent` where there is none.
pub fn required_parent(parent: Option<String>) -> (r: Result<String, ResolveError>)
    ensures
        match parent {
            Some(directory) => r == Ok::<String, ResolveError>(directory),
            None => r == Err::<String, ResolveError>(ResolveError::NoParent),
        },
{
    match parent {
        Some(directory) => Ok(directory),
        None => Err(ResolveError::NoParent),
    }
}

/// Returns the clean, absolute form of `path`.
///
/// `cwd` is the working directory of the process, `None` where it could not
/// be determined. `path` is joined to it, so that an absolute `path` stands
/// for itself, and the result is normalised: no `.`, no `..`, no redundant
/// separator. Nothing is looked up on the filesystem.
pub fn absolute_path(cwd: Option<&str>, path: &str) -> (r: Result<String, ResolveError>)
    ensures
        match r {
            Ok(absolute) => absolute_of(path_view(cwd), path@) == Ok::<
                Seq<char>,
                ResolveError,
            >(absolute@),
            Err(error) => absolute_of(path_view(cwd), path@) == Err::<Seq<char>, ResolveError>(
                error,
            ),
        },
{
    match cwd {
        None => Err(ResolveError::Environment),
        Some(base) => {
            if base.is_empty() || base.get_char(0) != '/' {
                return Err(ResolveError::Environment);
            }
            // join the working directory with `path` to get the full path
            let abs_path = path_join(base, path);
            // remove extra `/`, `.` and `..`
            normalized(path_absolutize(abs_path.as_str(), base))
        },
    }
}

/// Returns `path` without its final component, or `None` if `path` has no
/// parent.
pub fn parent_of(path: &str) -> (r: Option<String>)
    ensures
        match r {
            Some(parent) => parent_path(path@) == Some(parent@),
            None => parent_path(path@) is None,
        },
{
    path_parent(path)
}

/// Returns the directory that has to be listed to find the entry at `start`:
/// the parent of the absolute form of `start`.
///
/// A start path without a parent is refused with `NoParent`: the root of the
/// filesystem is no child of any directory, so no listing holds an entry for
/// it and it cannot be walked.
pub fn enclosing_directory(cwd: Option<&str>, start: &str) -> (r: Result<String, ResolveError>)
    ensures
        match r {
            Ok(directory) => enclosing_of(path_view(cwd), start@) == Ok::<
                Seq<char>,
                ResolveError,
            >(directory@),
            Err(error) => enclosing_of(path_view(cwd), start@) == Err::<Seq<char>, ResolveError>(
                error,
            ),
        },
{
    match absolute_path(cwd, start) {
        Err(error) => Err(error),
        Ok(absolute) => required_parent(parent_of(absolute.as_str())),
    }
}

} // verus!
