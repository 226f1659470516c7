//! What an exported solve result records: its configuration, and which nodes a small
//! save keeps.
use vstd::prelude::*;
use crate::game::Street;

verus! {

/// What was solved: the board, pot and stacks, the street, and the algorithm used.
#[derive(Debug)]
pub struct SolveConfig {
    pub board: String,
    pub pot: i32,
    pub stacks: [i32; 2],
    pub street: String,
    pub algorithm: String,
}

/// A small save keeps the nodes of the solved street `primary`, and the first nodes of
/// the next street: those whose parent is on `primary`.
pub open spec fn spec_small_save_keeps(primary: Street, street: Street, parent_street: Option<Street>) -> bool {
    street == primary || (parent_street == Some(primary) && primary.spec_next() == Some(street))
}

/// Whether a small save of a solve of `primary` keeps a node on `street` whose parent
/// node is on `parent_street` (`None` at the root).
pub fn small_save_keeps(primary: Street, street: Street, parent_street: Option<Street>) -> (b: bool)
    ensures
        b == spec_small_save_keeps(primary, street, parent_street),
{
    if street == primary {
        return true;
    }
    match (parent_street, primary.next()) {
        (Some(p), Some(n)) => p == primary && street == n,
        _ => false,
    }
}

} // verus!
