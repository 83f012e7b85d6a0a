//! Resolving the start path. These tests run `std::path` and the
//! `path_absolutize` crate for real.

use tree_walker::resolve::{normalized, required_parent};
use tree_walker::{absolute_path, enclosing_directory, parent_of, ResolveError};

fn ok(path: &str) -> Result<String, ResolveError> {
    Ok(String::from(path))
}

#[test]
fn relative_path_is_joined_to_the_working_directory() {
    assert_eq!(absolute_path(Some("/home/user"), "notes.txt"), ok("/home/user/notes.txt"));
    assert_eq!(absolute_path(Some("/home/user"), "a/b/c"), ok("/home/user/a/b/c"));
    assert_eq!(absolute_path(Some("/"), "etc"), ok("/etc"));
}

#[test]
fn absolute_path_stands_for_itself() {
    assert_eq!(absolute_path(Some("/home/user"), "/var/log"), ok("/var/log"));
    assert_eq!(absolute_path(Some("/home/user"), "/"), ok("/"));
}

#[test]
fn dots_are_resolved_lexically() {
    assert_eq!(absolute_path(Some("/home/user"), "./a/./b"), ok("/home/user/a/b"));
    assert_eq!(absolute_path(Some("/home/user"), "a/../b"), ok("/home/user/b"));
    assert_eq!(absolute_path(Some("/home/user"), "../other"), ok("/home/other"));
    assert_eq!(absolute_path(Some("/home/user"), "."), ok("/home/user"));
    assert_eq!(absolute_path(Some("/home/user"), ".."), ok("/home"));
    assert_eq!(absolute_path(Some("/home"), "/path/to/./123/../456"), ok("/path/to/456"));
    assert_eq!(absolute_path(Some("/home"), "/a/./b"), ok("/a/b"));
}

#[test]
fn redundant_separators_are_removed() {
    assert_eq!(absolute_path(Some("/home/user"), "a//b///c/"), ok("/home/user/a/b/c"));
    assert_eq!(absolute_path(Some("/home"), "//x//y"), ok("/x/y"));
}

#[test]
fn parent_of_the_root_is_the_root() {
    assert_eq!(absolute_path(Some("/"), ".."), ok("/"));
    assert_eq!(absolute_path(Some("/home"), "../../.."), ok("/"));
    assert_eq!(absolute_path(Some("/home"), "/../x"), ok("/x"));
}

#[test]
fn empty_path_is_the_working_directory() {
    assert_eq!(absolute_path(Some("/home/user"), ""), ok("/home/user"));
}

#[test]
fn path_need_not_exist() {
    assert_eq!(
        absolute_path(Some("/no/such/dir"), "nor/../this"),
        ok("/no/such/dir/this")
    );
}

#[test]
fn unknown_working_directory_is_an_environment_error() {
    assert_eq!(absolute_path(None, "notes.txt"), Err(ResolveError::Environment));
    assert_eq!(absolute_path(None, "/absolute"), Err(ResolveError::Environment));
}

#[test]
fn relative_working_directory_is_an_environment_error() {
    assert_eq!(absolute_path(Some("home/user"), "notes.txt"), Err(ResolveError::Environment));
    assert_eq!(absolute_path(Some(""), "notes.txt"), Err(ResolveError::Environment));
    assert_eq!(absolute_path(Some("."), "../../.."), Err(ResolveError::Environment));
}

#[test]
fn failed_normalization_is_reported_as_such() {
    let error = std::io::Error::from(std::io::ErrorKind::InvalidInput);
    assert_eq!(normalized(Err(error)), Err(ResolveError::PathNormalization));
    assert_eq!(normalized(Ok(String::from("/a/b"))), ok("/a/b"));
}

#[test]
fn parent_drops_the_final_component() {
    assert_eq!(parent_of("/a/b"), Some(String::from("/a")));
    assert_eq!(parent_of("/a/b/c.txt"), Some(String::from("/a/b")));
    assert_eq!(parent_of("/a"), Some(String::from("/")));
}

#[test]
fn root_has_no_parent() {
    assert_eq!(parent_of("/"), None);
    assert_eq!(parent_of(""), None);
}

#[test]
fn missing_parent_is_reported_as_such() {
    assert_eq!(required_parent(None), Err(ResolveError::NoParent));
    assert_eq!(required_parent(Some(String::from("/a"))), ok("/a"));
}

#[test]
fn enclosing_directory_is_the_parent_of_the_absolute_start() {
    assert_eq!(enclosing_directory(Some("/home/user"), "docs/notes.txt"), ok("/home/user/docs"));
    assert_eq!(enclosing_directory(Some("/home/user"), "docs"), ok("/home/user"));
    assert_eq!(enclosing_directory(Some("/home/user"), "."), ok("/home"));
    assert_eq!(enclosing_directory(Some("/home/user"), "../other/x/.."), ok("/home"));
    assert_eq!(enclosing_directory(Some("/home/user"), "/srv"), ok("/"));
}

#[test]
fn filesystem_root_cannot_be_walked() {
    assert_eq!(enclosing_directory(Some("/"), "/"), Err(ResolveError::NoParent));
    assert_eq!(enclosing_directory(Some("/home/user"), "/"), Err(ResolveError::NoParent));
    assert_eq!(enclosing_directory(Some("/"), "."), Err(ResolveError::NoParent));
    assert_eq!(enclosing_directory(Some("/home"), ".."), Err(ResolveError::NoParent));
}

#[test]
fn enclosing_directory_needs_a_working_directory() {
    assert_eq!(enclosing_directory(None, "docs"), Err(ResolveError::Environment));
    assert_eq!(enclosing_directory(Some("relative"), "docs"), Err(ResolveError::Environment));
}
