//! What sender and receivers say to each other.

pub mod error;
pub mod frame;
pub mod message;
pub mod payload;

pub use error::Error;
pub use frame::{Frame, FrameBatch, CONTROL_TAG, FRAME_TAG, HEADER_SIZE};
pub use message::{Message, MAX_CONTROL_SIZE};
pub use payload::{Done, Evicted, Hello, Nak, Stats};
