//! What control messages carry.

use crate::nonzero::{NonZeroU16, NonZeroU32};
use vstd::prelude::*;

verus! {

/// Announces a transfer to the group.
#[derive(Debug, Clone, PartialEq)]
pub struct Hello {
    pub transfer_id: u64,
    pub block_size: NonZeroU32,
    pub blocks_per_slice: NonZeroU16,
    pub parity_per_slice: u8,
    pub max_live_slices: NonZeroU16,
    pub total_bytes: Option<u64>,
}

/// What an announcement says.
#[verifier::ext_equal]
pub struct HelloView {
    pub transfer_id: u64,
    pub block_size: u32,
    pub blocks_per_slice: u16,
    pub parity_per_slice: u8,
    pub max_live_slices: u16,
    pub total_bytes: Option<u64>,
}

impl View for Hello {
    type V = HelloView;

    open spec fn view(&self) -> HelloView {
        HelloView {
            transfer_id: self.transfer_id,
            block_size: self.block_size@,
            blocks_per_slice: self.blocks_per_slice@,
            parity_per_slice: self.parity_per_slice,
            max_live_slices: self.max_live_slices@,
            total_bytes: self.total_bytes,
        }
    }
}

/// Tells the sender how far a receiver is.
#[derive(Debug, Clone, PartialEq)]
pub struct Stats {
    pub transfer_id: u64,
    pub receiver_id: u64,
    pub total_received: u64,
    pub total_expected: u64,
    pub next_needed_slice: u32,
    pub sink_stall_ms: u32,
}

/// Asks the sender for shards of a slice.
#[derive(Debug, Clone, PartialEq)]
pub struct Nak {
    pub transfer_id: u64,
    pub receiver_id: u64,
    pub slice_no: u32,
    pub missing: Vec<u16>,
}

/// What a request asks for.
#[verifier::ext_equal]
pub struct NakView {
    pub transfer_id: u64,
    pub receiver_id: u64,
    pub slice_no: u32,
    pub missing: Seq<u16>,
}

impl View for Nak {
    type V = NakView;

    open spec fn view(&self) -> NakView {
        NakView {
            transfer_id: self.transfer_id,
            receiver_id: self.receiver_id,
            slice_no: self.slice_no,
            missing: self.missing@,
        }
    }
}

/// Tells a receiver that the sender no longer waits for it.
#[derive(Debug, Clone, PartialEq)]
pub struct Evicted {
    pub transfer_id: u64,
    pub target: u64,
    pub reason: String,
}

/// What an eviction says.
#[verifier::ext_equal]
pub struct EvictedView {
    pub transfer_id: u64,
    pub target: u64,
    pub reason: Seq<char>,
}

impl View for Evicted {
    type V = EvictedView;

    open spec fn view(&self) -> EvictedView {
        EvictedView {
            transfer_id: self.transfer_id,
            target: self.target,
            reason: self.reason@,
        }
    }
}

/// Tells the group that everything was sent, and how much that was.
#[derive(Debug, Clone, PartialEq)]
pub struct Done {
    pub transfer_id: u64,
    pub total_bytes: u64,
    pub total_blocks: u64,
}

} // verus!
