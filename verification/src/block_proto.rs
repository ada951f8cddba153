//! Messages that carry a transfer block by block, without shard frames.

pub mod error;
pub mod message;
pub mod payload;

pub use error::Error;
pub use message::{Message, MAX_DATAGRAM_SIZE};
pub use payload::{Complete, Data, Done, Hello, Nack, Parity, Payload, Stats};
