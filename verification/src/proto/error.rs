//! Why a datagram is refused.

use crate::wire::DecodeFault;
use bincode::error::EncodeError;
use vstd::prelude::*;

verus! {

/// Why a datagram is refused, or could not be made.
#[derive(Debug)]
pub enum Error {
    /// A message does not fit.
    Encode(EncodeError),
    /// The bytes are not a message.
    Decode(DecodeFault),
    /// A datagram of that many bytes is too short to carry a shard.
    FrameTooShort(usize),
    /// A datagram with that tag is neither a shard nor a control message.
    UnknownTag(u8),
    /// A shard header sets reserved flags.
    ReservedFlags(u8),
    /// A shard is not as long as a block.
    PayloadSize { got: usize, expected: usize },
    /// A shard names a slot that its slice does not have.
    SlotOutsideSlice { slot: u16, slots: u16 },
    /// A shard names more parity than the transfer allows.
    ParityWiderThanTransfer { named: u8, allowed: u8 },
    /// A parity shard names a slot beyond the parity that it names.
    ParityOutsideSlice { slot: u16, named: u8 },
}

} // verus!
