use vstd::prelude::*;

pub use crate::history::FileEntry;
pub use crate::utils::Config;

use crate::history::{updated, ranked_substring, substring_match_of, update_history, History};

verus! {

/// Records one opening of `path`, the canonical form of the file that was
/// opened, where `exists` tells that it exists on disk; a path that does not
/// exist leaves the history as it was.
pub fn update_database(db: &mut History, path: &str, exists: bool)
    ensures
        final(db)@ == updated(old(db)@, path@, exists),
        final(db).wf(),
{
    update_history(db, path, exists);
}

/// Resolves `query` by substring alone: the best entry still on disk
/// (`live[i]` for the `i`-th) whose file stem or file name contains the
/// query, or else the query itself.
pub fn find_best_match(db: &History, query: &str, live: &Vec<bool>) -> (r: Option<String>)
    requires
        live@.len() == db@.len(),
    ensures
        r matches Some(p) && p@ == ranked_substring(db@, query@, live@),
{
    Some(substring_match_of(db, query, live))
}

} // verus!
