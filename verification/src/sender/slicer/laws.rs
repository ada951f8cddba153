//! What a slicer hands out, told by what it took in.

use crate::sender::slicer::channel::{FeedbackView, OutboundView};
use crate::sender::slicer::window;
use crate::sender::slicer::SlicerView;
use crate::shards;
use vstd::prelude::*;

verus! {

/// Whether items are the parity shards of a slice, each in its slot behind the blocks.
pub open spec fn is_parity_of(
    outbound: Seq<OutboundView>,
    parity: Seq<Seq<u8>>,
    slice_no: u32,
    blocks_per_slice: nat,
    emit_floor: u32,
) -> bool {
    &&& outbound.len() == parity.len()
    &&& forall|i: int|
        #![trigger outbound[i]]
        0 <= i < outbound.len() ==> (outbound[i] matches OutboundView::Shard {
            slice_no: named,
            slot,
            slice_parity,
            emit_floor: floor,
            payload,
        } && named == slice_no && slot == blocks_per_slice + i && slice_parity == parity.len()
            && floor == emit_floor && payload == parity[i])
}

/// Every block is handed out as soon as it is taken in, filled up with zeros, under the
/// number that follows the one before; and where it is the last of its slice, the parity
/// of the slice follows, with nothing in between and nothing after.
pub proof fn every_block_is_handed_out_at_once(slicer: SlicerView, block: Seq<u8>, i: int)
    requires
        slicer.valid(),
        slicer.countable(block.len()),
        block.len() <= slicer.window.block_size,
        0 <= i < slicer.window.block_size,
        slicer.window.blocks_per_slice + slicer.window.max_parity <= u16::MAX,
    ensures
        ({
            let w = slicer.window;
            let k = w.blocks_per_slice as int;
            let out = slicer.pushing(block);
            let data = w.current.data.push(shards::padded_block(block, w.block_size));
            let parity = shards::slice_parity_shards(
                data,
                w.current.parity_width,
                w.blocks_per_slice,
                w.block_size,
            );
            &&& out.len() >= 1
            &&& out[0] matches OutboundView::Shard {
                slice_no,
                slot,
                slice_parity,
                emit_floor,
                payload,
            } && {
                &&& slice_no * k + slot == w.position()
                &&& slot < k
                &&& slice_parity == w.current.parity_width
                &&& emit_floor == slice_no
                &&& payload.len() == w.block_size
                &&& payload[i] == if i < block.len() {
                    block[i]
                } else {
                    0u8
                }
            }
            &&& (w.position() + 1) % k != 0 ==> out.len() == 1
            &&& (w.position() + 1) % k == 0 && parity.len() == w.current.parity_width
                ==> is_parity_of(
                out.skip(1),
                parity,
                w.current.slice_no,
                w.blocks_per_slice,
                w.current.slice_no,
            )
        }),
{
    let w = slicer.window;
    let k = w.blocks_per_slice as int;
    let no = w.current.slice_no as int;
    let filled = w.current.data.len() as int + 1;
    let out = slicer.pushing(block);
    assert(w.position() + 1 == no * k + filled);
    if filled == k {
        assert((no * k + k) == (no + 1) * k) by (nonlinear_arith);
        vstd::arithmetic::div_mod::lemma_fundamental_div_mod_converse(
            no * k + k,
            k,
            no + 1,
            0,
        );
        assert(out.skip(1) =~= slicer.appended(block).sealing());
    } else {
        vstd::arithmetic::div_mod::lemma_fundamental_div_mod_converse(
            no * k + filled,
            k,
            no,
            filled,
        );
    }
}

/// Sealing a slice that has a block hands out its parity, whether or not it is full, and
/// starts the next one with the parity that is wanted then; sealing one that has none does
/// nothing.
pub proof fn sealing_hands_out_the_parity(slicer: SlicerView)
    requires
        slicer.valid(),
        slicer.window.current.slice_no < u32::MAX,
        slicer.window.blocks_per_slice + slicer.window.max_parity <= u16::MAX,
    ensures
        ({
            let w = slicer.window;
            let after = slicer.sealed();
            let parity = shards::slice_parity_shards(
                w.current.data,
                w.current.parity_width,
                w.blocks_per_slice,
                w.block_size,
            );
            &&& w.current.data.len() == 0 ==> slicer.sealing().len() == 0 && after == slicer
            &&& w.current.data.len() > 0 && parity.len() == w.current.parity_width ==> is_parity_of(
                slicer.sealing(),
                parity,
                w.current.slice_no,
                w.blocks_per_slice,
                w.current.slice_no,
            )
            &&& w.current.data.len() > 0 ==> {
                &&& after.window.current.slice_no == w.current.slice_no + 1
                &&& after.window.current.data.len() == 0
                &&& after.window.current.parity_width == w.wanted_parity
                &&& after.emit_floor == w.current.slice_no + 1
                &&& after.window.live.len() == w.live.len() + 1
                &&& after.window.live.last().data == w.current.data
                &&& after.window.live.last().parity == parity
                &&& after.total_bytes == slicer.total_bytes
                &&& after.total_blocks == slicer.total_blocks
            }
        }),
{
}

/// Every block counts once, with its bytes, and moves the place of the next block by one.
pub proof fn every_block_counts_once(slicer: SlicerView, block: Seq<u8>)
    requires
        slicer.valid(),
        slicer.countable(block.len()),
    ensures
        ({
            let after = slicer.pushed(block);
            &&& after.total_bytes == slicer.total_bytes + block.len()
            &&& after.total_blocks == slicer.total_blocks + 1
            &&& after.window.position() == slicer.window.position() + 1
            &&& after.window.wanted_parity == slicer.window.wanted_parity
            &&& after.drained == slicer.drained
        }),
{
    let w = slicer.window;
    let padded = shards::padded_block(block, w.block_size);
    window::pushing_numbers_blocks_in_order(w, padded);
    assert(slicer.pushed(block).window == w.pushed(padded));
}

/// What receivers want changes only what it is about: what they do not need any more is
/// let go, how much parity they want is heeded as far as the transfer allows from the next
/// slice on, and nothing is handed out but what is asked for.
pub proof fn what_is_wanted_is_heeded(slicer: SlicerView, feedback: FeedbackView, slice_no: u32)
    requires
        slicer.valid(),
    ensures
        ({
            let before = slicer.window;
            let after = slicer.after(feedback);
            &&& !(feedback is Resend) ==> slicer.answering(feedback).len() == 0
            &&& feedback matches FeedbackView::Needed(first_needed) ==> {
                &&& after.window.slice(slice_no) is Some <==> before.slice(slice_no) is Some && (
                slice_no >= first_needed || slice_no == before.current.slice_no)
                &&& after.window.slice(slice_no) is Some ==> after.window.slice(slice_no)
                    == before.slice(slice_no)
                &&& after.window.wanted_parity == before.wanted_parity
            }
            &&& feedback matches FeedbackView::Cover(wanted) ==> {
                &&& after.window.wanted_parity <= wanted && after.window.wanted_parity
                    <= before.max_parity
                &&& after.window.wanted_parity == wanted || after.window.wanted_parity
                    == before.max_parity
                &&& after.window.current == before.current
                &&& after.window.live == before.live
                &&& before.current.data.len() > 0 ==> after.window.sealed().current.parity_width
                    == after.window.wanted_parity
            }
            &&& feedback is Resend || feedback is Done ==> after == slicer
            &&& after.emit_floor == slicer.emit_floor
            &&& after.total_bytes == slicer.total_bytes
            &&& after.total_blocks == slicer.total_blocks
        }),
{
}

} // verus!
