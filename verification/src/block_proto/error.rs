//! Why a block message is refused.

use crate::wire::DecodeFault;
use bincode::error::EncodeError;
use vstd::prelude::*;

verus! {

/// Why a block message is refused, or could not be made.
#[derive(Debug)]
pub enum Error {
    /// A message does not fit.
    Encode(EncodeError),
    /// The bytes are not a message.
    Decode(DecodeFault),
    /// Slices of no blocks have no block.
    ZeroBlocksPerSlice,
    /// A block names a place that its slice does not have.
    BlockOutsideSlice { block_in_slice: u16, blocks_per_slice: u32 },
}

} // verus!
