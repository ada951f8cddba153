//! Cutting the input into slices and keeping them until every receiver has them.

pub mod blocks;
pub mod channel;
pub mod history;
pub mod laws;
pub mod window;

use crate::buffers;
use crate::codec;
use crate::codec::CodecError;
use crate::nonzero::{NonZeroU16, NonZeroU32, NonZeroUsize};
use crate::sender::slicer::channel::{Feedback, FeedbackView, Outbound, OutboundView};
use crate::sender::slicer::window::{Sealed, SliceView, Window, WindowView};
use crate::shards;
use bytes::Bytes;
use vstd::prelude::*;

verus! {

/// The state of a slicer: the slices that it holds, the first slice that was not
/// handed out with all of its parity, and how much it took in.
#[verifier::ext_equal]
pub struct SlicerView {
    pub window: WindowView,
    pub emit_floor: u32,
    pub total_bytes: u64,
    pub total_blocks: u64,
    pub drained: bool,
}

/// The parity shards of a slice, as they are handed out.
pub open spec fn parity_outbound(
    slice_no: u32,
    blocks_per_slice: nat,
    emit_floor: u32,
    parity: Seq<Seq<u8>>,
) -> Seq<OutboundView> {
    Seq::new(
        parity.len(),
        |i: int|
            OutboundView::Shard {
                slice_no,
                slot: (blocks_per_slice + i) as u16,
                slice_parity: parity.len() as u8,
                emit_floor,
                payload: parity[i],
            },
    )
}

impl SlicerView {
    /// What holds of every slicer.
    pub open spec fn valid(self) -> bool {
        &&& self.window.valid()
        &&& 0 < self.window.block_size <= u32::MAX
        &&& shards::all_sized(self.window.current.data, self.window.block_size)
        &&& forall|i: int|
            0 <= i < self.window.live.len() ==> shards::all_sized(
                (#[trigger] self.window.live[i]).data,
                self.window.block_size,
            )
        &&& self.emit_floor == self.window.current.slice_no
    }

    /// Whether another block can be taken in: no count overflows.
    pub open spec fn countable(self, len: nat) -> bool {
        &&& self.total_bytes + len <= u64::MAX
        &&& self.total_blocks < u64::MAX
        &&& self.window.current.slice_no < u32::MAX
    }

    /// What sealing the current slice hands out.
    pub open spec fn sealing(self) -> Seq<OutboundView> {
        let current = self.window.current;
        if current.data.len() == 0 {
            Seq::empty()
        } else {
            parity_outbound(
                current.slice_no,
                self.window.blocks_per_slice,
                self.emit_floor,
                shards::slice_parity_shards(
                    current.data,
                    current.parity_width,
                    self.window.blocks_per_slice,
                    self.window.block_size,
                ),
            )
        }
    }

    /// The state after the current slice is sealed.
    pub open spec fn sealed(self) -> SlicerView {
        if self.window.current.data.len() == 0 {
            self
        } else {
            SlicerView {
                window: self.window.sealed(),
                emit_floor: (self.window.current.slice_no + 1) as u32,
                ..self
            }
        }
    }

    /// The state after a block was counted and stored, with its slice not sealed.
    pub open spec fn appended(self, block: Seq<u8>) -> SlicerView {
        SlicerView {
            window: self.window.appended(
                shards::padded_block(block, self.window.block_size),
            ),
            total_bytes: (self.total_bytes + block.len()) as u64,
            total_blocks: (self.total_blocks + 1) as u64,
            ..self
        }
    }

    /// Whether one more block fills the current slice.
    pub open spec fn fills(self) -> bool {
        self.window.current.data.len() + 1 == self.window.blocks_per_slice
    }

    /// The state after a block was taken in.
    pub open spec fn pushed(self, block: Seq<u8>) -> SlicerView {
        if self.fills() {
            self.appended(block).sealed()
        } else {
            self.appended(block)
        }
    }

    /// What taking in a block hands out: the block, filled up to its full size, and
    /// the parity of its slice where it fills it.
    pub open spec fn pushing(self, block: Seq<u8>) -> Seq<OutboundView> {
        let current = self.window.current;
        seq![
            OutboundView::Shard {
                slice_no: current.slice_no,
                slot: current.data.len() as u16,
                slice_parity: current.parity_width as u8,
                emit_floor: self.emit_floor,
                payload: shards::padded_block(block, self.window.block_size),
            },
        ] + if self.fills() {
            self.appended(block).sealing()
        } else {
            Seq::empty()
        }
    }

    /// Those of the first `upto` slots of a slice that are handed out again: the
    /// ones that the window holds.
    pub open spec fn resending(
        self,
        slice_no: u32,
        slots: Seq<u16>,
        upto: int,
    ) -> Seq<OutboundView>
        decreases upto,
    {
        if upto <= 0 {
            Seq::empty()
        } else {
            let before = self.resending(slice_no, slots, upto - 1);
            match (self.window.slice(slice_no), self.window.shard(slice_no, slots[upto - 1])) {
                (Some(slice), Some(payload)) => before.push(
                    OutboundView::Shard {
                        slice_no,
                        slot: slots[upto - 1],
                        slice_parity: slice.parity_width as u8,
                        emit_floor: self.emit_floor,
                        payload,
                    },
                ),
                _ => before,
            }
        }
    }

    /// The state after something was wanted.
    pub open spec fn after(self, feedback: FeedbackView) -> SlicerView {
        match feedback {
            FeedbackView::Needed(first_needed) => SlicerView {
                window: self.window.retained(first_needed),
                ..self
            },
            FeedbackView::Cover(parity) => SlicerView {
                window: self.window.covering(parity),
                ..self
            },
            FeedbackView::Resend { slice_no, blocks } => self,
            FeedbackView::Done => self,
        }
    }

    /// The blocks that a transfer of those bytes is cut into.
    pub open spec fn blocks_of(self, bytes: Seq<u8>) -> Seq<Seq<u8>> {
        shards::source_blocks(bytes, self.window.block_size)
    }

    /// Whether what is handed out belongs to a transfer of those bytes.
    pub open spec fn fits(self, outbound: OutboundView, bytes: Seq<u8>) -> bool {
        match outbound {
            OutboundView::Shard {
                slice_no,
                slot,
                slice_parity,
                emit_floor,
                payload,
            } => shards::source_shard(
                self.blocks_of(bytes),
                self.window.blocks_per_slice,
                self.window.block_size,
                slice_parity as nat,
                slice_no as int,
                slot as int,
            ) == Some(payload),
            OutboundView::Eof { total_bytes, total_blocks } => {
                &&& total_bytes == bytes.len()
                &&& total_blocks == self.blocks_of(bytes).len()
            },
        }
    }

    /// Whether everything that is handed out belongs to a transfer of those bytes.
    pub open spec fn all_fit(self, outbound: Seq<OutboundView>, bytes: Seq<u8>) -> bool {
        forall|i: int| 0 <= i < outbound.len() ==> self.fits(#[trigger] outbound[i], bytes)
    }

    /// Whether the slicer took in the first blocks of those bytes, all of them by
    /// the time that the input ended, and holds nothing else.
    pub open spec fn on_course(self, bytes: Seq<u8>) -> bool {
        let source = self.blocks_of(bytes);
        let k = self.window.blocks_per_slice;
        &&& self.total_blocks <= source.len()
        &&& self.total_bytes == if self.total_blocks * self.window.block_size <= bytes.len() {
            self.total_blocks * self.window.block_size
        } else {
            bytes.len() as int
        }
        &&& !self.drained ==> self.window.position() == self.total_blocks
        &&& self.drained ==> self.total_blocks == source.len() && self.window.current.data.len()
            == 0
        &&& self.window.current.data.is_prefix_of(
            shards::slice_data(source, k, self.window.current.slice_no as int),
        )
        &&& forall|i: int|
            0 <= i < self.window.live.len() ==> (#[trigger] self.window.live[i]).data
                == shards::slice_data(source, k, self.window.live[i].slice_no as int)
    }

    /// What is handed out when something is wanted.
    pub open spec fn answering(self, feedback: FeedbackView) -> Seq<OutboundView> {
        match feedback {
            FeedbackView::Resend { slice_no, blocks } => self.resending(
                slice_no,
                blocks,
                blocks.len() as int,
            ),
            _ => Seq::empty(),
        }
    }
}

/// Cuts the input into slices, keeps them as long as they may be wanted again, and
/// hands out what is to be sent.
pub struct Slicer {
    window: Window,
    block_size: usize,
    blocks_per_slice: u16,
    emit_floor: u32,
    total_bytes: u64,
    total_blocks: u64,
    drained: bool,
}

impl View for Slicer {
    type V = SlicerView;

    closed spec fn view(&self) -> SlicerView {
        SlicerView {
            window: self.window@,
            emit_floor: self.emit_floor,
            total_bytes: self.total_bytes,
            total_blocks: self.total_blocks,
            drained: self.drained,
        }
    }
}

impl Slicer {
    /// What holds of every slicer.
    pub closed spec fn wf(self) -> bool {
        &&& self@.valid()
        &&& self.window.wf()
        &&& self.block_size == self.window@.block_size
        &&& self.blocks_per_slice == self.window@.blocks_per_slice
    }

    /// A well-formed slicer is in a state that a slicer can be in.
    pub proof fn is_valid(self)
        requires
            self.wf(),
        ensures
            self@.valid(),
    {
    }

    /// A slicer that took in nothing. It fails where parity is wanted that no codec
    /// can make.
    pub fn new(
        block_size: NonZeroU32,
        blocks_per_slice: NonZeroU16,
        parity_per_slice: u8,
        max_live_slices: NonZeroUsize,
    ) -> (result: Result<Slicer, CodecError>)
        ensures
            result is Ok <==> parity_per_slice == 0 || codec::supported(
                blocks_per_slice@ as nat,
                parity_per_slice as nat,
                block_size@ as nat,
            ),
            result matches Err(error) ==> error == codec::refusal(
                blocks_per_slice@ as usize,
                parity_per_slice as usize,
                block_size@ as usize,
            ),
            result matches Ok(slicer) ==> {
                &&& slicer.wf()
                &&& slicer@ == (SlicerView {
                    window: WindowView {
                        block_size: block_size@ as nat,
                        blocks_per_slice: blocks_per_slice@ as nat,
                        max_parity: parity_per_slice as nat,
                        wanted_parity: parity_per_slice as nat,
                        max_live_slices: max_live_slices@ as nat,
                        live: Seq::empty(),
                        current: SliceView::empty(0, parity_per_slice as nat),
                    },
                    emit_floor: 0,
                    total_bytes: 0,
                    total_blocks: 0,
                    drained: false,
                })
            },
    {
        let block_size: usize = block_size.get() as usize;
        match Window::new(block_size, blocks_per_slice, parity_per_slice, max_live_slices) {
            Ok(window) => {
                proof {
                    window.is_valid();
                }
                Ok(
                    Slicer {
                        window,
                        block_size,
                        blocks_per_slice: blocks_per_slice.get(),
                        emit_floor: 0,
                        total_bytes: 0,
                        total_blocks: 0,
                        drained: false,
                    },
                )
            },
            Err(error) => Err(error),
        }
    }

    /// Whether input is taken in: it has not ended, and there is room for slices.
    pub fn accepts_input(&self) -> (accepts: bool)
        ensures
            accepts == (!self@.drained && self@.window.live.len() < self@.window.max_live_slices),
    {
        !self.drained && !self.window.is_full()
    }

    /// Whether a block of that many bytes can still be counted.
    pub fn can_count(&self, len: usize) -> (can: bool)
        ensures
            can == self@.countable(len as nat),
    {
        len as u64 <= u64::MAX - self.total_bytes && self.total_blocks < u64::MAX
            && self.window.can_number()
    }

    /// Takes in the next block of the input.
    pub fn push(&mut self, block: Bytes) -> (outbound: Vec<Outbound>)
        requires
            old(self).wf(),
            buffers::held(block).len() <= old(self)@.window.block_size,
            old(self)@.countable(buffers::held(block).len()),
        ensures
            final(self).wf(),
            final(self)@ == old(self)@.pushed(buffers::held(block)),
            channel::outbound_views(outbound@) == old(self)@.pushing(buffers::held(block)),
            channel::all_full(channel::outbound_views(outbound@), old(self)@.window.block_size),
    {
        let ghost before = self@;
        let ghost held = buffers::held(block);
        self.total_bytes = self.total_bytes + buffers::buffer_len(&block) as u64;
        self.total_blocks += 1;
        let payload = self.padded(block);
        let slice_parity: u8 = self.window.current_parity();
        proof {
            let appended = before.window.appended(buffers::held(payload)).current.data;
            assert forall|i: int| 0 <= i < appended.len() implies (#[trigger] appended[i]).len()
                == before.window.block_size by {
                if i < appended.len() - 1 {
                    assert(appended[i] == before.window.current.data[i]);
                }
            }
        }
        let pushed = self.window.push(buffers::buffer_clone(&payload));
        let mut outbound: Vec<Outbound> = Vec::new();
        outbound.push(
            Outbound::Shard {
                slice_no: pushed.slice_no,
                slot: pushed.block_in_slice,
                slice_parity,
                emit_floor: self.emit_floor,
                payload,
            },
        );
        let ghost first = outbound@;
        proof {
            self.window.is_valid();
            if before.window.max_parity > 0 {
                codec::supported_counts_fit(
                    before.window.blocks_per_slice,
                    before.window.max_parity,
                    before.window.block_size,
                );
            }
        }
        if let Some(sealed) = pushed.sealed {
            self.queue_parity(sealed, &mut outbound);
            assert(before.appended(held).window.current.data.len() > 0);
        }
        assert(channel::outbound_views(first) =~= before.pushing(held).take(1));
        assert(channel::outbound_views(outbound@) =~= before.pushing(held));
        proof {
            if before.fills() {
                lemma_sealing_is_full(before.appended(held), self@.window);
            }
        }
        outbound
    }

    /// Takes note that the input has ended.
    pub fn finish(&mut self) -> (outbound: Vec<Outbound>)
        requires
            old(self).wf(),
            old(self)@.window.current.slice_no < u32::MAX,
        ensures
            final(self).wf(),
            final(self)@ == (SlicerView { drained: true, ..old(self)@.sealed() }),
            channel::outbound_views(outbound@) == old(self)@.sealing().push(
                OutboundView::Eof {
                    total_bytes: old(self)@.total_bytes,
                    total_blocks: old(self)@.total_blocks,
                },
            ),
            channel::all_full(channel::outbound_views(outbound@), old(self)@.window.block_size),
    {
        let ghost before = self@;
        self.drained = true;
        let mut outbound: Vec<Outbound> = Vec::new();
        let sealed = self.window.seal();
        proof {
            self.window.is_valid();
            if before.window.max_parity > 0 {
                codec::supported_counts_fit(
                    before.window.blocks_per_slice,
                    before.window.max_parity,
                    before.window.block_size,
                );
            }
        }
        if let Some(sealed) = sealed {
            self.queue_parity(sealed, &mut outbound);
        }
        assert(channel::outbound_views(outbound@) =~= before.sealing());
        proof {
            lemma_sealing_is_full(before, self@.window);
        }
        let ghost queued = outbound@;
        outbound.push(
            Outbound::Eof { total_bytes: self.total_bytes, total_blocks: self.total_blocks },
        );
        assert(channel::outbound_views(outbound@) =~= channel::outbound_views(queued).push(
            OutboundView::Eof {
                total_bytes: before.total_bytes,
                total_blocks: before.total_blocks,
            },
        ));
        outbound
    }

    /// Does what is wanted, and says what to send and whether the transfer is over.
    pub fn on_feedback(&mut self, feedback: Feedback) -> (result: (Vec<Outbound>, bool))
        requires
            old(self).wf(),
        ensures
            final(self).wf(),
            final(self)@ == old(self)@.after(feedback@),
            channel::outbound_views(result.0@) == old(self)@.answering(feedback@),
            channel::all_full(channel::outbound_views(result.0@), old(self)@.window.block_size),
            result.1 == (feedback is Done),
    {
        let mut outbound: Vec<Outbound> = Vec::new();
        assert(channel::outbound_views(outbound@) =~= Seq::<OutboundView>::empty());
        match feedback {
            Feedback::Needed(first_needed) => {
                self.window.retain_from(first_needed);
                proof {
                    self.window.is_valid();
                }
                (outbound, false)
            },
            Feedback::Cover(parity) => {
                self.window.cover(parity);
                proof {
                    self.window.is_valid();
                }
                (outbound, false)
            },
            Feedback::Resend { slice_no, blocks } => {
                self.resend(slice_no, &blocks, &mut outbound);
                proof {
                    lemma_resending_is_full(self@, slice_no, blocks@, blocks@.len() as int);
                }
                (outbound, false)
            },
            Feedback::Done => (outbound, true),
        }
    }

    fn padded(&self, block: Bytes) -> (full: Bytes)
        requires
            buffers::held(block).len() <= self.block_size,
        ensures
            buffers::held(full) == shards::padded_block(
                buffers::held(block),
                self.block_size as nat,
            ),
    {
        let len: usize = buffers::buffer_len(&block);
        if len == self.block_size {
            assert(shards::padded_block(buffers::held(block), self.block_size as nat)
                =~= buffers::held(block));
            return block;
        }
        let bytes = buffers::buffer_slice(&block);
        let mut full: Vec<u8> = vstd::slice::slice_to_vec(bytes);
        full.resize(self.block_size, 0);
        assert(full@ =~= shards::padded_block(buffers::held(block), self.block_size as nat));
        buffers::buffer_of(full)
    }

    fn queue_parity(&mut self, sealed: Sealed, outbound: &mut Vec<Outbound>)
        requires
            sealed.slice_no < u32::MAX,
            old(self).blocks_per_slice + sealed.parity@.len() <= 65536,
            sealed.parity@.len() <= u8::MAX,
        ensures
            *final(self) == (Slicer { emit_floor: (sealed.slice_no + 1) as u32, ..*old(self) }),
            channel::outbound_views(final(outbound)@) == channel::outbound_views(old(outbound)@)
                + parity_outbound(
                sealed.slice_no,
                old(self).blocks_per_slice as nat,
                old(self).emit_floor,
                buffers::contents(sealed.parity@),
            ),
    {
        let slice_no: u32 = sealed.slice_no;
        let slice_parity: u8 = sealed.parity.len() as u8;
        let ghost parity = buffers::contents(sealed.parity@);
        let ghost wanted = parity_outbound(
            slice_no,
            self.blocks_per_slice as nat,
            self.emit_floor,
            parity,
        );
        let ghost before = outbound@;
        let mut index: usize = 0;
        while index < sealed.parity.len()
            invariant
                index <= sealed.parity@.len() <= u8::MAX,
                self == old(self),
                self.blocks_per_slice + sealed.parity@.len() <= 65536,
                slice_no == sealed.slice_no,
                slice_parity == sealed.parity@.len(),
                parity == buffers::contents(sealed.parity@),
                wanted == parity_outbound(
                    slice_no,
                    self.blocks_per_slice as nat,
                    self.emit_floor,
                    parity,
                ),
                channel::outbound_views(outbound@) == channel::outbound_views(before)
                    + wanted.take(index as int),
                before == old(outbound)@,
            decreases sealed.parity@.len() - index,
        {
            let ghost queued = outbound@;
            let slot: u16 = self.blocks_per_slice + index as u16;
            outbound.push(
                Outbound::Shard {
                    slice_no,
                    slot,
                    slice_parity,
                    emit_floor: self.emit_floor,
                    payload: buffers::buffer_clone(&sealed.parity[index]),
                },
            );
            proof {
                assert(outbound@.last()@ == wanted[index as int]);
                assert(channel::outbound_views(outbound@) =~= channel::outbound_views(queued).push(
                    wanted[index as int],
                ));
                assert(wanted.take(index + 1) =~= wanted.take(index as int).push(
                    wanted[index as int],
                ));
                assert(channel::outbound_views(outbound@) =~= channel::outbound_views(before)
                    + wanted.take(index + 1));
            }
            index += 1;
        }
        assert(wanted.take(wanted.len() as int) =~= wanted);
        self.emit_floor = slice_no + 1;
    }

    fn resend(&self, slice_no: u32, slots: &Vec<u16>, outbound: &mut Vec<Outbound>)
        requires
            self.wf(),
            old(outbound)@.len() == 0,
        ensures
            channel::outbound_views(final(outbound)@) == self@.resending(
                slice_no,
                slots@,
                slots@.len() as int,
            ),
    {
        let mut at: usize = 0;
        assert(channel::outbound_views(outbound@) =~= Seq::<OutboundView>::empty());
        while at < slots.len()
            invariant
                self.wf(),
                at <= slots@.len(),
                channel::outbound_views(outbound@) == self@.resending(slice_no, slots@, at as int),
            decreases slots@.len() - at,
        {
            let slot: u16 = slots[at];
            let ghost queued = outbound@;
            match (self.window.slice_parity(slice_no), self.window.shard(slice_no, slot)) {
                (Some(slice_parity), Some(payload)) => {
                    outbound.push(
                        Outbound::Shard {
                            slice_no,
                            slot,
                            slice_parity,
                            emit_floor: self.emit_floor,
                            payload: buffers::buffer_clone(payload),
                        },
                    );
                    assert(channel::outbound_views(outbound@) =~= channel::outbound_views(
                        queued,
                    ).push(outbound@.last()@));
                },
                _ => {},
            }
            at += 1;
        }
    }
}

proof fn lemma_sealing_is_full(slicer: SlicerView, after: WindowView)
    requires
        after == slicer.window.sealed(),
        after.valid(),
    ensures
        channel::all_full(slicer.sealing(), slicer.window.block_size),
{
    if slicer.window.current.data.len() > 0 {
        let last = after.live.last();
        assert(last == after.live[after.live.len() - 1]);
        let out = slicer.sealing();
        assert forall|i: int| 0 <= i < out.len() implies (
        #[trigger] out[i] matches OutboundView::Shard { payload, .. } ==> payload.len()
            == slicer.window.block_size) by {
            assert(last.parity[i].len() == slicer.window.block_size);
        }
    }
}

proof fn lemma_resending_is_full(slicer: SlicerView, slice_no: u32, slots: Seq<u16>, upto: int)
    requires
        slicer.valid(),
        0 <= upto <= slots.len(),
    ensures
        channel::all_full(slicer.resending(slice_no, slots, upto), slicer.window.block_size),
    decreases upto,
{
    if upto > 0 {
        lemma_resending_is_full(slicer, slice_no, slots, upto - 1);
        let w = slicer.window;
        let oldest = w.current.slice_no - w.live.len();
        if oldest <= slice_no < w.current.slice_no {
            assert(shards::all_sized(w.live[slice_no - oldest].data, w.block_size));
            assert(shards::all_sized(w.live[slice_no - oldest].parity, w.block_size));
        }
    }
}

/// What a block hands out carries the emit floor from before it, which is its own
/// slice: the floor only moves past a slice once all of its parity is handed out.
pub proof fn the_emit_floor_follows_the_parity(slicer: SlicerView, block: Seq<u8>, i: int)
    requires
        slicer.valid(),
        slicer.countable(block.len()),
        0 <= i < slicer.pushing(block).len(),
    ensures
        slicer.pushing(block)[i] matches OutboundView::Shard { slice_no, emit_floor, .. }
            && emit_floor == slicer.emit_floor && emit_floor == slice_no,
        slicer.fills() ==> slicer.pushed(block).emit_floor == slicer.window.current.slice_no + 1,
        !slicer.fills() ==> slicer.pushed(block).emit_floor == slicer.emit_floor,
{
}

/// A slicer that took in nothing is on course to whatever is sent.
pub proof fn a_new_slicer_is_on_course(slicer: SlicerView, bytes: Seq<u8>)
    requires
        slicer.valid(),
        slicer.window.live.len() == 0,
        slicer.window.current.slice_no == 0,
        slicer.window.current.data.len() == 0,
        slicer.total_bytes == 0,
        slicer.total_blocks == 0,
        !slicer.drained,
    ensures
        slicer.on_course(bytes),
{
    let k = slicer.window.blocks_per_slice;
    let size = slicer.window.block_size;
    assert(0 * k == 0 && 0 * size == 0) by (nonlinear_arith);
}

/// A slicer stays on course with each block of the transfer, and the block and the
/// parity that it hands out then belong to the transfer.
pub proof fn taking_in_the_next_block_stays_on_course(slicer: SlicerView, bytes: Seq<u8>)
    requires
        slicer.valid(),
        slicer.on_course(bytes),
        !slicer.drained,
        slicer.total_blocks < slicer.blocks_of(bytes).len(),
        bytes.len() <= u64::MAX,
        slicer.window.current.slice_no < u32::MAX,
        slicer.pushed(next_of(slicer, bytes)).window.valid(),
    ensures
        slicer.pushed(next_of(slicer, bytes)).on_course(bytes),
        slicer.all_fit(slicer.pushing(next_of(slicer, bytes)), bytes),
{
    let w = slicer.window;
    let k = w.blocks_per_slice;
    let size = w.block_size;
    let source = slicer.blocks_of(bytes);
    let n = slicer.total_blocks as int;
    let no = w.current.slice_no as int;
    let block = next_of(slicer, bytes);
    let payload = shards::padded_block(block, size);
    let part = shards::slice_data(source, k, no);
    shards::source_blocks_are_sized(bytes, size);
    shards::slice_data_size(source, k, no);
    window::pushing_numbers_blocks_in_order(w, payload);
    assert(0 <= no * k) by (nonlinear_arith)
        requires
            0 <= no,
    ;
    assert((no + 1) * k == no * k + k) by (nonlinear_arith);
    assert(0 <= n * size < bytes.len());
    assert((n + 1) * size == n * size + size) by (nonlinear_arith);
    assert(n <= n * size) by (nonlinear_arith)
        requires
            0 <= n,
            1 <= size,
    ;
    assert(payload == source[n]);
    assert(part[w.current.data.len() as int] == source[n]);
    let data = w.current.data.push(payload);
    assert(data =~= part.take(data.len() as int));
    assert(data.is_prefix_of(part));
    let after = slicer.pushed(block);
    let out = slicer.pushing(block);
    assert(after.window == w.pushed(payload));
    assert(after.total_bytes == if (n + 1) * size <= bytes.len() {
        (n + 1) * size
    } else {
        bytes.len() as int
    });
    assert(after.window.position() == after.total_blocks);
    if slicer.fills() {
        assert(data =~= part);
        shards::slice_data_size(source, k, no + 1);
        lemma_sealing_fits(slicer.appended(block), bytes);
        assert forall|i: int| 0 <= i < out.len() implies slicer.fits(#[trigger] out[i], bytes) by {
            if i > 0 {
                assert(out[i] == slicer.appended(block).sealing()[i - 1]);
                assert(slicer.appended(block).fits(
                    slicer.appended(block).sealing()[i - 1],
                    bytes,
                ));
            }
        }
        assert(after.window.live.last().data == part);
        assert forall|i: int| 0 <= i < after.window.live.len() implies (
        #[trigger] after.window.live[i]).data == shards::slice_data(
            source,
            k,
            after.window.live[i].slice_no as int,
        ) by {
            if i < w.live.len() {
                assert(after.window.live[i] == w.live[i]);
            }
        }
    }
}

/// The block that a slicer on course takes in next.
pub open spec fn next_of(slicer: SlicerView, bytes: Seq<u8>) -> Seq<u8> {
    bytes.subrange(
        slicer.total_blocks * slicer.window.block_size,
        shards::block_end(bytes, slicer.window.block_size, slicer.total_blocks as int),
    )
}

proof fn lemma_sealing_fits(slicer: SlicerView, bytes: Seq<u8>)
    requires
        slicer.window.current.data == shards::slice_data(
            slicer.blocks_of(bytes),
            slicer.window.blocks_per_slice,
            slicer.window.current.slice_no as int,
        ),
        slicer.window.current.data.len() > 0,
        slicer.window.current.data.len() <= slicer.window.blocks_per_slice,
        slicer.window.sealed().valid(),
        slicer.window.block_size <= u32::MAX,
    ensures
        slicer.all_fit(slicer.sealing(), bytes),
{
    let w = slicer.window;
    let k = w.blocks_per_slice;
    let sealed = w.sealed();
    let last = sealed.live.last();
    assert(last == sealed.live[sealed.live.len() - 1]);
    if w.max_parity > 0 {
        codec::supported_counts_fit(k, w.max_parity, w.block_size);
    }
    let out = slicer.sealing();
    assert forall|i: int| 0 <= i < out.len() implies slicer.fits(#[trigger] out[i], bytes) by {
        assert(last.parity.len() == w.current.parity_width);
    }
}

/// When the input ends after the last block of the transfer, the slicer stays on
/// course, and the parity and the totals that it hands out then are those of the
/// transfer.
pub proof fn finishing_stays_on_course(slicer: SlicerView, bytes: Seq<u8>)
    requires
        slicer.valid(),
        slicer.on_course(bytes),
        !slicer.drained,
        slicer.total_blocks == slicer.blocks_of(bytes).len(),
        slicer.window.current.slice_no < u32::MAX,
        slicer.window.sealed().valid(),
    ensures
        (SlicerView { drained: true, ..slicer.sealed() }).on_course(bytes),
        slicer.all_fit(
            slicer.sealing().push(
                OutboundView::Eof {
                    total_bytes: slicer.total_bytes,
                    total_blocks: slicer.total_blocks,
                },
            ),
            bytes,
        ),
{
    let w = slicer.window;
    let k = w.blocks_per_slice;
    let no = w.current.slice_no as int;
    let source = slicer.blocks_of(bytes);
    let part = shards::slice_data(source, k, no);
    shards::source_blocks_are_sized(bytes, w.block_size);
    shards::slice_data_size(source, k, no);
    shards::slice_data_size(source, k, no + 1);
    let out = slicer.sealing();
    if w.current.data.len() > 0 {
        assert(0 <= no * k) by (nonlinear_arith)
            requires
                0 <= no,
        ;
        assert(w.current.data =~= part);
        lemma_sealing_fits(slicer, bytes);
        let live = w.sealed().live;
        assert forall|i: int| 0 <= i < live.len() implies (#[trigger] live[i]).data
            == shards::slice_data(source, k, live[i].slice_no as int) by {
            if i < w.live.len() {
                assert(live[i] == w.live[i]);
            }
        }
    }
    let eof = OutboundView::Eof {
        total_bytes: slicer.total_bytes,
        total_blocks: slicer.total_blocks,
    };
    assert(slicer.fits(eof, bytes));
    assert forall|i: int| 0 <= i < out.push(eof).len() implies slicer.fits(
        #[trigger] out.push(eof)[i],
        bytes,
    ) by {
        if i < out.len() {
            assert(out.push(eof)[i] == out[i]);
        }
    }
}

proof fn lemma_resending_fits(
    slicer: SlicerView,
    bytes: Seq<u8>,
    slice_no: u32,
    slots: Seq<u16>,
    upto: int,
)
    requires
        slicer.valid(),
        slicer.on_course(bytes),
        0 <= upto <= slots.len(),
    ensures
        slicer.all_fit(slicer.resending(slice_no, slots, upto), bytes),
    decreases upto,
{
    if upto > 0 {
        lemma_resending_fits(slicer, bytes, slice_no, slots, upto - 1);
        let w = slicer.window;
        let before = slicer.resending(slice_no, slots, upto - 1);
        let now = slicer.resending(slice_no, slots, upto);
        if now.len() > before.len() {
            let oldest = w.current.slice_no - w.live.len();
            if slice_no < w.current.slice_no {
                assert(w.live[slice_no - oldest].slice_no == slice_no);
            } else {
                assert(w.current.data[slots[upto - 1] as int] == shards::slice_data(
                    slicer.blocks_of(bytes),
                    w.blocks_per_slice,
                    slice_no as int,
                )[slots[upto - 1] as int]);
            }
            assert(slicer.fits(now.last(), bytes));
            assert forall|i: int| 0 <= i < now.len() implies slicer.fits(
                #[trigger] now[i],
                bytes,
            ) by {
                if i < before.len() {
                    assert(now[i] == before[i]);
                }
            }
        }
    }
}

/// Whatever receivers want, the slicer stays on course, and what it hands out again
/// belongs to the transfer.
pub proof fn what_is_wanted_stays_on_course(
    slicer: SlicerView,
    bytes: Seq<u8>,
    feedback: FeedbackView,
)
    requires
        slicer.valid(),
        slicer.on_course(bytes),
    ensures
        slicer.after(feedback).on_course(bytes),
        slicer.all_fit(slicer.answering(feedback), bytes),
{
    match feedback {
        FeedbackView::Resend { slice_no, blocks } => {
            lemma_resending_fits(slicer, bytes, slice_no, blocks, blocks.len() as int);
        },
        FeedbackView::Needed(first_needed) => {
            let dropped = slicer.window.count_below(first_needed);
            let after = slicer.after(feedback);
            assert forall|i: int| 0 <= i < after.window.live.len() implies (
            #[trigger] after.window.live[i]).data == shards::slice_data(
                slicer.blocks_of(bytes),
                slicer.window.blocks_per_slice,
                after.window.live[i].slice_no as int,
            ) by {
                assert(after.window.live[i] == slicer.window.live[i + dropped]);
            }
        },
        _ => {},
    }
}

/// The slots of the shards that are handed out.
pub open spec fn slots_of(outbound: Seq<OutboundView>) -> Seq<u16> {
    Seq::new(outbound.len(), |i: int| outbound[i]->slot)
}

proof fn lemma_resending(slicer: SlicerView, slice_no: u32, slots: Seq<u16>, upto: int)
    requires
        0 <= upto <= slots.len(),
    ensures
        ({
            let again = slicer.resending(slice_no, slots, upto);
            &&& slots_of(again) == slots.take(upto).filter(
                |slot: u16| slicer.window.shard(slice_no, slot) is Some,
            )
            &&& forall|i: int|
                0 <= i < again.len() ==> ((#[trigger] again[i]) matches OutboundView::Shard {
                    slice_no: slice,
                    slot,
                    slice_parity,
                    emit_floor,
                    payload,
                } && slice == slice_no && emit_floor == slicer.emit_floor && Some(payload)
                    == slicer.window.shard(slice_no, slot) && (slicer.window.slice(
                    slice_no,
                ) matches Some(held) && slice_parity == held.parity_width as u8))
        }),
    decreases upto,
{
    reveal(Seq::filter);
    let held = |slot: u16| slicer.window.shard(slice_no, slot) is Some;
    let again = slicer.resending(slice_no, slots, upto);
    if upto == 0 {
        assert(slots.take(0) =~= Seq::<u16>::empty());
        assert(slots_of(again) =~= slots.take(0).filter(held));
    } else {
        lemma_resending(slicer, slice_no, slots, upto - 1);
        let before = slicer.resending(slice_no, slots, upto - 1);
        assert(slots.take(upto).drop_last() =~= slots.take(upto - 1));
        assert(slots.take(upto).last() == slots[upto - 1]);
        if held(slots[upto - 1]) {
            assert(slots_of(again) =~= slots_of(before).push(slots[upto - 1]));
        } else {
            assert(slots_of(again) =~= slots_of(before));
        }
    }
}

/// What is wanted again is handed out again: every shard that was asked for and that the
/// window holds, as often as it was asked for and in that order, as the window holds it;
/// and nothing else. Nothing of it changes the slicer.
pub proof fn everything_that_is_held_is_sent_again(
    slicer: SlicerView,
    slice_no: u32,
    slots: Seq<u16>,
)
    ensures
        ({
            let wanted = FeedbackView::Resend { slice_no, blocks: slots };
            let again = slicer.answering(wanted);
            &&& slicer.after(wanted) == slicer
            &&& slots_of(again) == slots.filter(
                |slot: u16| slicer.window.shard(slice_no, slot) is Some,
            )
            &&& forall|i: int|
                0 <= i < again.len() ==> ((#[trigger] again[i]) matches OutboundView::Shard {
                    slice_no: slice,
                    slot,
                    slice_parity,
                    emit_floor,
                    payload,
                } && slice == slice_no && emit_floor == slicer.emit_floor && Some(payload)
                    == slicer.window.shard(slice_no, slot) && (slicer.window.slice(
                    slice_no,
                ) matches Some(held) && slice_parity == held.parity_width as u8))
        }),
{
    lemma_resending(slicer, slice_no, slots, slots.len() as int);
    assert(slots.take(slots.len() as int) =~= slots);
}

} // verus!
