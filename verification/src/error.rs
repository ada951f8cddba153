//! Why a transfer fails.

use crate::codec::CodecError;
use crate::proto::error::Error;
use vstd::prelude::*;

verus! {

/// Why a transfer fails, as far as the network and the files are not to blame.
#[derive(Debug)]
pub enum ProtoError {
    /// A datagram breaks the protocol.
    Protocol(Error),
    /// No codec serves the transfer.
    Fec(CodecError),
    /// Something did not happen in time.
    Timeout(String),
    /// Nothing takes outbound shards any more.
    EgressClosed,
    /// The sender went silent.
    SenderSilent { held: u32, total: Option<u32> },
    /// The sender announced another size than was received.
    ByteCountMismatch { expected: u64, received: u64 },
    /// The sender no longer waits for this receiver.
    Evicted(String),
    /// Nothing takes received blocks any more.
    SinkClosed,
    /// Not every receiver completed the transfer.
    TransferIncomplete { complete: usize, participants: usize },
    /// Nobody joined.
    NoParticipants,
}

} // verus!
