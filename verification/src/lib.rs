//! Scoring of version-control commit hashes, poker style: rare symbol
//! patterns in a hexadecimal hash earn points in proportion to their
//! mathematical rarity, and a ledger of best-ever scores is kept per
//! repository.

use vstd::prelude::*;

pub mod bignat;
pub mod errors;
pub mod git;
pub mod highscores;
pub mod lotto;
pub mod text;

verus! {

/// A commit hash is scored only when it is non-empty and drawn from the
/// sixteen-symbol hexadecimal alphabet.
pub open spec fn is_hex_symbol(c: char) -> bool {
    ('0' <= c && c <= '9') || ('a' <= c && c <= 'f')
}

/// The inputs the scoring engine is defined over.
pub open spec fn valid_hash(s: Seq<char>) -> bool {
    s.len() > 0 && forall|i: int| 0 <= i < s.len() ==> is_hex_symbol(s[i])
}

} // verus!
