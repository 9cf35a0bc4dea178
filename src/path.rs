//! Checks on the paths that a run is asked to read and write.
use vstd::prelude::*;

use crate::text::{contains, contains_spec};

verus! {

/// Why a path was refused.
#[derive(Debug, Clone, Copy, PartialEq, Eq, Structural)]
pub enum PathError {
    /// The path is empty.
    Empty,
    /// The path holds a NUL character.
    NulCharacter,
    /// The path could leave the working directory.
    Unsafe,
}

/// What `Path::starts_with` gives: `base` is a whole-component prefix of `p`.
pub uninterp spec fn path_starts_with_of(p: Seq<char>, base: Seq<char>) -> bool;

/// Relies on `std::path::Path::starts_with`, which compares whole
/// components.
#[verifier::external_body]
fn path_starts_with(path: &str, base: &str) -> (r: bool)
    ensures
        r == path_starts_with_of(path@, base@),
{
    std::path::Path::new(path).starts_with(base)
}

/// The path holds one of the patterns that could lead out of the working
/// directory or be expanded by a shell.
pub open spec fn has_forbidden_pattern(s: Seq<char>) -> bool {
    ||| contains_spec(s, ".."@)
    ||| contains_spec(s, "~"@)
    ||| contains_spec(s, "//"@)
    ||| contains_spec(s, "\\"@)
    ||| contains_spec(s, "%"@)
    ||| contains_spec(s, "$"@)
    ||| contains_spec(s, "{"@)
    ||| contains_spec(s, "}"@)
    ||| contains_spec(s, "<"@)
    ||| contains_spec(s, ">"@)
    ||| contains_spec(s, "|"@)
    ||| contains_spec(s, "\""@)
}

/// A path is safe when it holds no forbidden pattern and lies inside the
/// working directory `current_dir`.
pub fn is_safe_path(path: &str, current_dir: &str) -> (r: bool)
    ensures
        r == (!has_forbidden_pattern(path@) && path_starts_with_of(path@, current_dir@)),
{
    if contains(path, "..") || contains(path, "~") || contains(path, "//") || contains(path, "\\")
        || contains(path, "%") || contains(path, "$") || contains(path, "{") || contains(path, "}")
        || contains(path, "<") || contains(path, ">") || contains(path, "|") || contains(path, "\"") {
        return false;
    }
    path_starts_with(path, current_dir)
}

/// The checks on a path's text, in order: not empty, no NUL character,
/// safe with respect to the working directory `current_dir`.
pub fn check_path_text(path_str: &str, current_dir: &str) -> (r: Result<(), PathError>)
    ensures
        path_str@.len() == 0 ==> r == Err::<(), PathError>(PathError::Empty),
        path_str@.len() > 0 && contains_spec(path_str@, "\0"@) ==> r == Err::<(), PathError>(
            PathError::NulCharacter,
        ),
        path_str@.len() > 0 && !contains_spec(path_str@, "\0"@) ==> (r is Ok <==> (
        !has_forbidden_pattern(path_str@) && path_starts_with_of(path_str@, current_dir@))),
        r is Err && path_str@.len() > 0 && !contains_spec(path_str@, "\0"@) ==> r == Err::<
            (),
            PathError,
        >(PathError::Unsafe),
{
    if path_str.is_empty() {
        return Err(PathError::Empty);
    }
    if contains(path_str, "\0") {
        return Err(PathError::NulCharacter);
    }
    if !is_safe_path(path_str, current_dir) {
        return Err(PathError::Unsafe);
    }
    Ok(())
}

} // verus!
