//! Commit identity, as handed in by the version-control collaborator.
//!
//! Reading the repository itself is outside work; the library only holds
//! the plain values a commit is identified by.

use vstd::prelude::*;

verus! {

/// One commit: where it lives, its short and full hashes, its timestamp
/// (decimal seconds since the epoch) and its summary line.
pub struct Commit {
    pub repo: String,
    pub hash: String,
    pub full_hash: String,
    pub date: String,
    pub summary: Option<String>,
}

impl Commit {
    /// Bundles the parts of a commit's identity.
    pub fn new(
        repo: String,
        hash: String,
        full_hash: String,
        date: String,
        summary: Option<String>,
    ) -> (r: Commit)
        ensures
            r.repo == repo,
            r.hash == hash,
            r.full_hash == full_hash,
            r.date == date,
            r.summary == summary,
    {
        Commit { repo, hash, full_hash, date, summary }
    }
}

} // verus!
