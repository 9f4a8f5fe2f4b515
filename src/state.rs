//! Naming for state files that are replaced atomically.
//!
//! A state file is replaced by writing the new content to a sibling file
//! whose name is the state file's name with `.tmp` added, then renaming that
//! sibling onto the state file.
use vstd::prelude::*;

verus! {

/// The path of the sibling file that new content of `path` is written to
/// before it replaces `path`.
pub open spec fn temp_path_of(path: Seq<char>) -> Seq<char> {
    path + seq!['.', 't', 'm', 'p']
}

/// The temporary sibling of the state file at `path`: in the same directory,
/// under a name that differs from the state file's.
pub fn temp_path(path: &str) -> (r: String)
    ensures
        r@ == temp_path_of(path@),
        r@ != path@,
{
    let mut r = path.to_string();
    proof {
        reveal_strlit(".tmp");
    }
    r.append(".tmp");
    assert(r@ =~= temp_path_of(path@));
    assert(r@.len() != path@.len());
    r
}

} // verus!
