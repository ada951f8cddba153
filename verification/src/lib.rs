//! Reliable multicast file transfer.

pub mod block_proto;
pub mod buffers;
pub mod codec;
pub mod error;
pub mod nonzero;
pub mod proto;
pub mod receiver;
pub mod report;
pub mod sender;
pub mod shards;
pub mod spelling;
pub mod state;
pub mod time;
pub mod transport;
pub mod wire;

pub use time::SILENCE_TIMEOUT;
pub use transport::{Incoming, Losing};
use vstd::prelude::*;

verus! {

/// How many bytes a block has, unless said otherwise.
pub const DEFAULT_BLOCK_SIZE: u32 = 1452;

} // verus!
