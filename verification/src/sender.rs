//! The sending side of a transfer.

pub mod group;
pub mod pacer;
pub mod sending;
pub mod slicer;
