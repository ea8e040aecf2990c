//! The errors of the engine.
use vstd::prelude::*;

verus! {

/// Why an operation was refused.
#[derive(Clone, Copy, Debug, PartialEq, Eq, Structural)]
pub enum Error {
    /// The transfer length or the symbol size is not acceptable.
    Config,
    /// The data does not fit into one source block.
    Capacity,
    /// The packet does not have the length of a header and one symbol.
    MalformedPacket,
    /// The packet belongs to another source block than the one it was given to.
    BlockMismatch,
    /// The constraint system of the block has no unique solution.
    Singular,
}

} // verus!
