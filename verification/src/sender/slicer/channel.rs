//! What passes between the slicer and what sends for it.

use crate::buffers;
use bytes::Bytes;
use vstd::prelude::*;

verus! {

/// What the slicer hands out to be sent.
pub enum Outbound {
    /// A shard of a slice.
    Shard { slice_no: u32, slot: u16, slice_parity: u8, emit_floor: u32, payload: Bytes },
    /// Everything was handed out once.
    Eof { total_bytes: u64, total_blocks: u64 },
}

/// What is handed out to be sent.
#[verifier::ext_equal]
pub enum OutboundView {
    Shard { slice_no: u32, slot: u16, slice_parity: u8, emit_floor: u32, payload: Seq<u8> },
    Eof { total_bytes: u64, total_blocks: u64 },
}

impl View for Outbound {
    type V = OutboundView;

    open spec fn view(&self) -> OutboundView {
        match self {
            Outbound::Shard {
                slice_no,
                slot,
                slice_parity,
                emit_floor,
                payload,
            } => OutboundView::Shard {
                slice_no: *slice_no,
                slot: *slot,
                slice_parity: *slice_parity,
                emit_floor: *emit_floor,
                payload: buffers::held(*payload),
            },
            Outbound::Eof { total_bytes, total_blocks } => OutboundView::Eof {
                total_bytes: *total_bytes,
                total_blocks: *total_blocks,
            },
        }
    }
}

/// What each item of a list hands out.
pub open spec fn outbound_views(outbound: Seq<Outbound>) -> Seq<OutboundView> {
    Seq::new(outbound.len(), |i: int| outbound[i]@)
}

/// Whether every shard that is handed out has the size of a block.
pub open spec fn all_full(outbound: Seq<OutboundView>, block_size: nat) -> bool {
    forall|i: int|
        0 <= i < outbound.len() ==> ((#[trigger] outbound[i]) matches OutboundView::Shard {
            payload,
            ..
        } ==> payload.len() == block_size)
}

/// What the receivers want of the slicer.
pub enum Feedback {
    /// No slice below this one is needed any more.
    Needed(u32),
    /// Slices started from now on carry this many parity shards.
    Cover(u8),
    /// Shards of a slice are to be handed out again.
    Resend { slice_no: u32, blocks: Vec<u16> },
    /// The transfer is over.
    Done,
}

/// What is wanted of the slicer.
#[verifier::ext_equal]
pub enum FeedbackView {
    Needed(u32),
    Cover(u8),
    Resend { slice_no: u32, blocks: Seq<u16> },
    Done,
}

impl View for Feedback {
    type V = FeedbackView;

    open spec fn view(&self) -> FeedbackView {
        match self {
            Feedback::Needed(first_needed) => FeedbackView::Needed(*first_needed),
            Feedback::Cover(parity) => FeedbackView::Cover(*parity),
            Feedback::Resend { slice_no, blocks } => FeedbackView::Resend {
                slice_no: *slice_no,
                blocks: blocks@,
            },
            Feedback::Done => FeedbackView::Done,
        }
    }
}

} // verus!
