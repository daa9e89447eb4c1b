use vstd::prelude::*;

use crate::tir::block::Block;

verus! {

/// The failures the intermediate representation reports to its callers.
#[derive(Debug, Clone, Copy, PartialEq, Eq, Structural)]
pub enum TirError {
    /// The named block's instruction sequence does not end in a terminator.
    BlockNotTerminated(Block),
    /// Control-flow graph construction was asked for on a function with no
    /// blocks.
    EmptyFunctionBody,
}

} // verus!
