//! Checks on the repository layout and on paths handed to `add`.
use vstd::prelude::*;
use crate::error::RvcsError;

verus! {

/// What `ensure_repo_exists` answers for a layout in which the root marker
/// and the objects directory exist or not.
pub open spec fn repo_check(root_exists: bool, objects_exist: bool) -> Result<(), RvcsError> {
    if !root_exists {
        Err(RvcsError::RepositoryMissing)
    } else if !objects_exist {
        Err(RvcsError::RepositoryCorrupted)
    } else {
        Ok(())
    }
}

/// Accepts a repository whose root marker and objects directory both exist.
pub fn ensure_repo_exists(root_exists: bool, objects_exist: bool) -> (r: Result<(), RvcsError>)
    ensures
        r == repo_check(root_exists, objects_exist),
{
    if !root_exists {
        return Err(RvcsError::RepositoryMissing);
    }
    if !objects_exist {
        return Err(RvcsError::RepositoryCorrupted);
    }
    Ok(())
}

/// Accepts a path for staging only when it exists and is not a directory.
pub fn check_add_target(exists: bool, is_dir: bool) -> (r: Result<(), RvcsError>)
    ensures
        !exists ==> r == Err::<(), RvcsError>(RvcsError::PathNotFound),
        exists && is_dir ==> r == Err::<(), RvcsError>(RvcsError::PathIsDirectory),
        exists && !is_dir ==> r == Ok::<(), RvcsError>(()),
{
    if !exists {
        Err(RvcsError::PathNotFound)
    } else if is_dir {
        Err(RvcsError::PathIsDirectory)
    } else {
        Ok(())
    }
}

/// `c` with a backslash turned into a forward slash.
pub open spec fn slash(c: char) -> char {
    if c == '\\' {
        '/'
    } else {
        c
    }
}

/// The index key of a path: every backslash becomes a forward slash.
pub open spec fn normalized(p: Seq<char>) -> Seq<char> {
    p.map_values(|c: char| slash(c))
}

/// The index key of `p`: the same characters, with `\` written as `/`.
pub fn normalize_path(p: &str) -> (r: String)
    ensures
        r@ == normalized(p@),
{
    let n = p.unicode_len();
    let mut out = String::new();
    let mut i: usize = 0;
    while i < n
        invariant
            n == p@.len(),
            i <= n,
            out@ == normalized(p@.subrange(0, i as int)),
        decreases n - i,
    {
        let c = p.get_char(i);
        if c == '\\' {
            let s = "/";
            proof {
                reveal_strlit("/");
            }
            out.append(s);
        } else {
            out.append(p.substring_char(i, i + 1));
        }
        assert(normalized(p@.subrange(0, i + 1)) =~= normalized(p@.subrange(0, i as int)).push(
            slash(c),
        ));
        i = i + 1;
    }
    assert(p@.subrange(0, n as int) =~= p@);
    out
}

} // verus!
