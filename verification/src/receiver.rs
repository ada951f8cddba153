//! The receiving side of a transfer.

pub mod assembler;
pub mod counter;
pub mod naks;
pub mod reorderer;
pub mod session;

use crate::spelling::Elapsed;
use vstd::prelude::*;

verus! {

/// How a transfer went, seen from a receiver. The duration is in nanoseconds.
#[derive(Clone, Copy, Debug, PartialEq)]
pub struct TransferSummary {
    pub total_bytes: u64,
    pub total_blocks: u64,
    pub received: u64,
    pub expected: u64,
    pub duplicates: u64,
    pub late: u64,
    pub naks_sent: u64,
    pub duration: u64,
}

impl TransferSummary {
    /// How long the transfer took.
    pub fn took(&self) -> (text: String)
        ensures
            text@ == Elapsed(self.duration).spelled(),
    {
        Elapsed(self.duration).text()
    }
}

} // verus!
