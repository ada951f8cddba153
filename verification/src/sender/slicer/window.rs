//! The slices that a sender still holds.

use crate::buffers;
use crate::codec;
use crate::codec::CodecError;
use crate::nonzero::{NonZeroU16, NonZeroUsize};
use crate::shards;
use bytes::Bytes;
use reed_solomon_simd::ReedSolomonEncoder;
use std::collections::VecDeque;
use vstd::prelude::*;

verus! {

/// What a slice holds: the data blocks that were pushed into it and, once it is
/// sealed, its parity shards.
#[verifier::ext_equal]
pub struct SliceView {
    pub slice_no: u32,
    pub parity_width: nat,
    pub data: Seq<Seq<u8>>,
    pub parity: Seq<Seq<u8>>,
}

impl SliceView {
    /// A slice that no block was pushed into.
    pub open spec fn empty(slice_no: u32, parity_width: nat) -> SliceView {
        SliceView { slice_no, parity_width, data: Seq::empty(), parity: Seq::empty() }
    }
}

/// What a window holds: the sealed slices that are still live, oldest first, and
/// the slice that blocks are pushed into.
#[verifier::ext_equal]
pub struct WindowView {
    pub block_size: nat,
    pub blocks_per_slice: nat,
    pub max_parity: nat,
    pub wanted_parity: nat,
    pub max_live_slices: nat,
    pub live: Seq<SliceView>,
    pub current: SliceView,
}

impl WindowView {
    /// What holds of every window.
    pub open spec fn valid(self) -> bool {
        &&& 0 < self.blocks_per_slice <= u16::MAX
        &&& self.max_parity <= u8::MAX
        &&& self.wanted_parity <= self.max_parity
        &&& 0 < self.max_live_slices
        &&& self.max_parity > 0 ==> codec::supported(
            self.blocks_per_slice,
            self.max_parity,
            self.block_size,
        )
        &&& self.current.data.len() < self.blocks_per_slice
        &&& self.current.parity.len() == 0
        &&& self.current.parity_width <= self.max_parity
        &&& self.live.len() <= self.current.slice_no
        &&& forall|i: int|
            #![trigger self.live[i]]
            0 <= i < self.live.len() ==> {
                &&& self.live[i].slice_no == self.current.slice_no - self.live.len() + i
                &&& self.live[i].parity_width <= self.max_parity
                &&& 0 < self.live[i].data.len() <= self.blocks_per_slice
                &&& self.live[i].parity.len() == self.live[i].parity_width
                &&& shards::all_sized(self.live[i].parity, self.block_size)
                &&& self.live[i].parity == shards::slice_parity_shards(
                    self.live[i].data,
                    self.live[i].parity_width,
                    self.blocks_per_slice,
                    self.block_size,
                )
            }
    }

    /// How many blocks were pushed, were every sealed slice full.
    pub open spec fn position(self) -> int {
        self.current.slice_no * self.blocks_per_slice + self.current.data.len()
    }

    /// The slice of that number, if the window holds it.
    pub open spec fn slice(self, slice_no: u32) -> Option<SliceView> {
        let oldest = self.current.slice_no - self.live.len();
        if slice_no == self.current.slice_no {
            Some(self.current)
        } else if oldest <= slice_no < self.current.slice_no {
            Some(self.live[slice_no - oldest])
        } else {
            None
        }
    }

    /// The shard at a slot of a slice, if the window holds it: data blocks stand
    /// in the first slots, parity shards follow.
    pub open spec fn shard(self, slice_no: u32, slot: u16) -> Option<Seq<u8>> {
        match self.slice(slice_no) {
            Some(slice) => if slot < slice.data.len() && slot < self.blocks_per_slice {
                Some(slice.data[slot as int])
            } else if self.blocks_per_slice <= slot < self.blocks_per_slice + slice.parity.len() {
                Some(slice.parity[slot - self.blocks_per_slice])
            } else {
                None
            },
            None => None,
        }
    }

    /// Whether the slice that blocks are pushed into can be sealed: its number
    /// has a successor, and the blocks that its parity is made of have the size
    /// of a block.
    pub open spec fn sealable(self) -> bool {
        &&& self.current.slice_no < u32::MAX
        &&& self.current.parity_width > 0 ==> shards::all_sized(self.current.data, self.block_size)
    }

    /// The window after its current slice is sealed.
    pub open spec fn sealed(self) -> WindowView {
        if self.current.data.len() == 0 {
            self
        } else {
            let parity = shards::slice_parity_shards(
                self.current.data,
                self.current.parity_width,
                self.blocks_per_slice,
                self.block_size,
            );
            WindowView {
                live: self.live.push(SliceView { parity, ..self.current }),
                current: SliceView::empty(
                    (self.current.slice_no + 1) as u32,
                    self.wanted_parity,
                ),
                ..self
            }
        }
    }

    /// The window with one more block in its current slice, not sealed.
    pub open spec fn appended(self, payload: Seq<u8>) -> WindowView {
        WindowView {
            current: SliceView { data: self.current.data.push(payload), ..self.current },
            ..self
        }
    }

    /// The window after a block is pushed: a slice is sealed as soon as it is full.
    pub open spec fn pushed(self, payload: Seq<u8>) -> WindowView {
        if self.appended(payload).current.data.len() == self.blocks_per_slice {
            self.appended(payload).sealed()
        } else {
            self.appended(payload)
        }
    }

    /// The window after that much parity was wanted of the slices started from now on.
    pub open spec fn covering(self, wanted: u8) -> WindowView {
        WindowView {
            wanted_parity: if wanted as nat <= self.max_parity {
                wanted as nat
            } else {
                self.max_parity
            },
            ..self
        }
    }

    /// How many sealed slices have a number below `first_needed`.
    pub open spec fn count_below(self, first_needed: u32) -> int {
        let oldest = self.current.slice_no - self.live.len();
        if first_needed <= oldest {
            0
        } else if first_needed >= self.current.slice_no {
            self.live.len() as int
        } else {
            first_needed - oldest
        }
    }

    /// The window after the sealed slices below `first_needed` are let go.
    pub open spec fn retained(self, first_needed: u32) -> WindowView {
        WindowView { live: self.live.skip(self.count_below(first_needed)), ..self }
    }
}

struct Slice {
    slice_no: u32,
    parity_width: usize,
    data: Vec<Bytes>,
    parity: Vec<Bytes>,
}

impl View for Slice {
    type V = SliceView;

    closed spec fn view(&self) -> SliceView {
        SliceView {
            slice_no: self.slice_no,
            parity_width: self.parity_width as nat,
            data: buffers::contents(self.data@),
            parity: buffers::contents(self.parity@),
        }
    }
}

impl Slice {
    fn empty(slice_no: u32, parity_width: usize) -> (slice: Slice)
        ensures
            slice@ == SliceView::empty(slice_no, parity_width as nat),
    {
        Slice { slice_no, parity_width, data: Vec::new(), parity: Vec::new() }
    }
}

/// A slice that was just sealed, with its parity shards.
pub struct Sealed {
    pub slice_no: u32,
    pub parity: Vec<Bytes>,
}

/// Where a block went, with the slice that it completed, if any.
pub struct Pushed {
    pub slice_no: u32,
    pub block_in_slice: u16,
    pub sealed: Option<Sealed>,
}

/// What sealing the current slice of `before` reports.
pub open spec fn reports_seal(before: WindowView, sealed: Option<Sealed>) -> bool {
    match sealed {
        Some(sealed) => {
            &&& before.current.data.len() > 0
            &&& sealed.slice_no == before.current.slice_no
            &&& buffers::contents(sealed.parity@) == shards::slice_parity_shards(
                before.current.data,
                before.current.parity_width,
                before.blocks_per_slice,
                before.block_size,
            )
            &&& sealed.parity@.len() == before.current.parity_width
            &&& forall|i: int|
                0 <= i < sealed.parity@.len() ==> buffers::held(#[trigger] sealed.parity@[i]).len()
                    == before.block_size
        },
        None => before.current.data.len() == 0,
    }
}

/// The slices that a sender still holds: those that are sealed and that some
/// receiver may still ask for, and the one that blocks are pushed into.
pub struct Window {
    block_size: usize,
    blocks_per_slice: usize,
    max_parity: usize,
    wanted_parity: usize,
    max_live_slices: usize,
    codec: Option<ReedSolomonEncoder>,
    codec_width: usize,
    live: VecDeque<Slice>,
    current: Slice,
}

impl View for Window {
    type V = WindowView;

    closed spec fn view(&self) -> WindowView {
        WindowView {
            block_size: self.block_size as nat,
            blocks_per_slice: self.blocks_per_slice as nat,
            max_parity: self.max_parity as nat,
            wanted_parity: self.wanted_parity as nat,
            max_live_slices: self.max_live_slices as nat,
            live: Seq::new(self.live@.len(), |i: int| self.live@[i]@),
            current: self.current@,
        }
    }
}

impl Window {
    /// What holds of every window between calls.
    pub closed spec fn wf(self) -> bool {
        &&& self@.valid()
        &&& self.codec_ready()
    }

    /// A well-formed window holds what a window can hold.
    pub proof fn is_valid(self)
        requires
            self.wf(),
        ensures
            self@.valid(),
    {
    }

    spec fn codec_ready(self) -> bool {
        if self.max_parity == 0 {
            self.codec is None
        } else {
            &&& self.codec is Some
            &&& self.block_size <= u32::MAX
            &&& 0 < self.codec_width <= self.max_parity
            &&& codec::encoder_shape(self.codec->0) == (
                self.blocks_per_slice as nat,
                self.codec_width as nat,
                self.block_size as nat,
            )
            &&& codec::encoder_shards(self.codec->0) == Seq::<Seq<u8>>::empty()
        }
    }

    /// An empty window. It fails where parity is wanted that no codec can make.
    pub fn new(
        block_size: usize,
        blocks_per_slice: NonZeroU16,
        max_parity: u8,
        max_live_slices: NonZeroUsize,
    ) -> (result: Result<Window, CodecError>)
        requires
            block_size <= u32::MAX,
        ensures
            result is Ok <==> max_parity == 0 || codec::supported(
                blocks_per_slice@ as nat,
                max_parity as nat,
                block_size as nat,
            ),
            result matches Err(error) ==> error == codec::refusal(
                blocks_per_slice@ as usize,
                max_parity as usize,
                block_size,
            ),
            result matches Ok(window) ==> {
                &&& window.wf()
                &&& window@ == (WindowView {
                    block_size: block_size as nat,
                    blocks_per_slice: blocks_per_slice@ as nat,
                    max_parity: max_parity as nat,
                    wanted_parity: max_parity as nat,
                    max_live_slices: max_live_slices@ as nat,
                    live: Seq::empty(),
                    current: SliceView::empty(0, max_parity as nat),
                })
            },
    {
        let blocks_per_slice: usize = blocks_per_slice.get() as usize;
        let max_parity: usize = max_parity as usize;
        let codec = if max_parity == 0 {
            None
        } else {
            match codec::make_encoder(blocks_per_slice, max_parity, block_size) {
                Ok(codec) => Some(codec),
                Err(error) => return Err(error),
            }
        };

        let window = Window {
            block_size,
            blocks_per_slice,
            max_parity,
            wanted_parity: max_parity,
            max_live_slices: max_live_slices.get(),
            codec,
            codec_width: max_parity,
            live: VecDeque::new(),
            current: Slice::empty(0, max_parity),
        };
        assert(window@.live =~= Seq::<SliceView>::empty());
        Ok(window)
    }

    /// Sets the parity that slices started from now on carry.
    pub fn cover(&mut self, wanted: u8)
        requires
            old(self).wf(),
        ensures
            final(self).wf(),
            final(self)@ == old(self)@.covering(wanted),
    {
        let wanted: usize = wanted as usize;
        self.wanted_parity = if wanted <= self.max_parity {
            wanted
        } else {
            self.max_parity
        };
        assert(self@.live =~= old(self)@.live);
    }

    /// The parity that the current slice will carry.
    pub fn current_parity(&self) -> (width: u8)
        requires
            self.wf(),
        ensures
            width == self@.current.parity_width,
    {
        self.current.parity_width as u8
    }

    /// The parity of a slice, if the window holds it.
    pub fn slice_parity(&self, slice_no: u32) -> (width: Option<u8>)
        requires
            self.wf(),
        ensures
            width == match self@.slice(slice_no) {
                Some(slice) => Some(slice.parity_width as u8),
                None => None,
            },
    {
        match self.slice(slice_no) {
            Some(slice) => Some(slice.parity_width as u8),
            None => None,
        }
    }

    /// Whether as many sealed slices are live as may be.
    pub fn is_full(&self) -> (full: bool)
        ensures
            full == (self@.live.len() >= self@.max_live_slices),
    {
        self.live.len() >= self.max_live_slices
    }

    /// Whether there is a number for the slice after the current one.
    pub fn can_number(&self) -> (can: bool)
        ensures
            can == (self@.current.slice_no < u32::MAX),
    {
        self.current.slice_no < u32::MAX
    }

    /// Pushes a block into the current slice, and seals the slice if that fills it.
    pub fn push(&mut self, payload: Bytes) -> (pushed: Pushed)
        requires
            old(self).wf(),
            old(self)@.appended(buffers::held(payload)).current.data.len()
                == old(self)@.blocks_per_slice ==> old(self)@.appended(
                buffers::held(payload),
            ).sealable(),
        ensures
            final(self).wf(),
            final(self)@ == old(self)@.pushed(buffers::held(payload)),
            pushed.slice_no == old(self)@.current.slice_no,
            pushed.block_in_slice == old(self)@.current.data.len(),
            if old(self)@.current.data.len() + 1 == old(self)@.blocks_per_slice {
                pushed.sealed is Some && reports_seal(
                    old(self)@.appended(buffers::held(payload)),
                    pushed.sealed,
                )
            } else {
                pushed.sealed is None
            },
    {
        let slice_no: u32 = self.current.slice_no;
        let block_in_slice: u16 = self.current.data.len() as u16;
        self.current.data.push(payload);
        assert(self@.current.data =~= old(self)@.current.data.push(buffers::held(payload)));
        assert(self@.live =~= old(self)@.live);
        assert(self@ == old(self)@.appended(buffers::held(payload)));

        let sealed = if self.current.data.len() == self.blocks_per_slice {
            self.seal_current()
        } else {
            None
        };

        Pushed { slice_no, block_in_slice, sealed }
    }

    /// Seals the current slice, unless it is empty, and starts the next.
    pub fn seal(&mut self) -> (sealed: Option<Sealed>)
        requires
            old(self).wf(),
            old(self)@.current.data.len() > 0 ==> old(self)@.sealable(),
        ensures
            final(self).wf(),
            final(self)@ == old(self)@.sealed(),
            reports_seal(old(self)@, sealed),
    {
        self.seal_current()
    }

    /// Whether everything but the size of the current slice is as between calls.
    spec fn wf_but_full(self) -> bool {
        &&& self.codec_ready()
        &&& self@.current.data.len() <= self@.blocks_per_slice
        &&& (WindowView { current: SliceView { data: Seq::empty(), ..self@.current }, ..self@ }).valid()
    }

    fn seal_current(&mut self) -> (sealed: Option<Sealed>)
        requires
            old(self).wf_but_full(),
            old(self)@.current.data.len() > 0 ==> old(self)@.sealable(),
        ensures
            final(self).wf(),
            final(self)@ == old(self)@.sealed(),
            reports_seal(old(self)@, sealed),
    {
        if self.current.data.len() == 0 {
            assert(self@.current.data =~= Seq::<Seq<u8>>::empty());
            return None;
        }
        let parity = self.encode_parity();
        assert(shards::all_sized(buffers::contents(parity@), self@.block_size));
        let slice_no: u32 = self.current.slice_no;
        let kept = buffers::buffers_clone(&parity);
        self.current.parity = kept;
        let mut next = Slice::empty(slice_no + 1, self.wanted_parity);
        std::mem::swap(&mut self.current, &mut next);
        self.live.push_back(next);
        assert(self@.live =~= old(self)@.sealed().live);
        assert(self@ == old(self)@.sealed());

        Some(Sealed { slice_no, parity })
    }

    /// Lets go of the sealed slices below `first_needed`.
    pub fn retain_from(&mut self, first_needed: u32)
        requires
            old(self).wf(),
        ensures
            final(self).wf(),
            final(self)@ == old(self)@.retained(first_needed),
    {
        let ghost before = self@;
        let ghost mut dropped: int = 0;
        assert(before.live.skip(0) =~= before.live);
        while self.live.len() > 0 && self.live[0].slice_no < first_needed
            invariant
                before.valid(),
                self.wf(),
                0 <= dropped <= before.count_below(first_needed),
                self@ == (WindowView { live: before.live.skip(dropped), ..before }),
            decreases self.live@.len(),
        {
            let ghost live = self.live@;
            let ghost shown = self@.live;
            assert(shown[0] == live[0]@);
            let gone = self.live.pop_front();
            proof {
                dropped = dropped + 1;
            }
            assert(self.live@ =~= live.skip(1));
            assert(self@.live =~= shown.skip(1));
            assert(shown.skip(1) =~= before.live.skip(dropped));
        }
        proof {
            if self.live@.len() > 0 {
                assert(self@.live[0] == self.live@[0]@);
            }
        }
    }

    /// The shard at a slot of a slice, if the window holds it.
    pub fn shard(&self, slice_no: u32, slot: u16) -> (shard: Option<&Bytes>)
        requires
            self.wf(),
        ensures
            match shard {
                Some(shard) => self@.shard(slice_no, slot) == Some(buffers::held(*shard)),
                None => self@.shard(slice_no, slot) is None,
            },
    {
        let slice = match self.slice(slice_no) {
            Some(slice) => slice,
            None => return None,
        };

        let slot: usize = slot as usize;
        if slot < self.blocks_per_slice {
            if slot < slice.data.len() {
                Some(&slice.data[slot])
            } else {
                None
            }
        } else if slot - self.blocks_per_slice < slice.parity.len() {
            Some(&slice.parity[slot - self.blocks_per_slice])
        } else {
            None
        }
    }

    fn slice(&self, slice_no: u32) -> (slice: Option<&Slice>)
        requires
            self.wf(),
        ensures
            match slice {
                Some(slice) => self@.slice(slice_no) == Some(slice@),
                None => self@.slice(slice_no) is None,
            },
    {
        if self.current.slice_no == slice_no {
            return Some(&self.current);
        }
        let mut at: usize = 0;
        while at < self.live.len()
            invariant
                self.wf(),
                at <= self.live@.len(),
                self.current.slice_no != slice_no,
                forall|i: int| 0 <= i < at ==> (#[trigger] self@.live[i]).slice_no != slice_no,
            decreases self.live@.len() - at,
        {
            assert(self@.live[at as int] == self.live@[at as int]@);
            if self.live[at].slice_no == slice_no {
                return Some(&self.live[at]);
            }
            at += 1;
        }
        proof {
            let oldest = self@.current.slice_no - self@.live.len();
            if oldest <= slice_no < self@.current.slice_no {
                assert(self@.live[slice_no - oldest].slice_no == slice_no);
            }
        }
        None
    }

    fn encode_parity(&mut self) -> (parity: Vec<Bytes>)
        requires
            old(self).wf_but_full(),
            old(self)@.current.parity_width > 0 ==> shards::all_sized(
                old(self)@.current.data,
                old(self)@.block_size,
            ),
        ensures
            final(self).codec_ready(),
            final(self)@ == old(self)@,
            final(self).live == old(self).live,
            final(self).current == old(self).current,
            buffers::contents(parity@) == shards::slice_parity_shards(
                old(self)@.current.data,
                old(self)@.current.parity_width,
                old(self)@.blocks_per_slice,
                old(self)@.block_size,
            ),
            parity@.len() == old(self)@.current.parity_width,
            forall|i: int|
                0 <= i < parity@.len() ==> buffers::held(#[trigger] parity@[i]).len() == old(
                    self,
                )@.block_size,
    {
        let width: usize = self.current.parity_width;
        if width == 0 {
            let parity: Vec<Bytes> = Vec::new();
            assert(buffers::contents(parity@) =~= Seq::<Seq<u8>>::empty());
            return parity;
        }
        let blocks_per_slice: usize = self.blocks_per_slice;
        let block_size: usize = self.block_size;
        let absent: Vec<u8> = vec![0u8; block_size];
        let mut codec = match self.codec.take() {
            Some(codec) => codec,
            None => vstd::pervasive::unreached(),
        };
        if self.codec_width != width {
            proof {
                codec::narrower_is_supported(
                    blocks_per_slice as nat,
                    self.max_parity as nat,
                    width as nat,
                    block_size as nat,
                );
            }
            let reset = codec::encoder_reset(&mut codec, blocks_per_slice, width, block_size);
            self.codec_width = width;
        }
        let ghost padded = shards::padded_slice(
            self@.current.data,
            blocks_per_slice as nat,
            block_size as nat,
        );
        let mut slot: usize = 0;
        while slot < blocks_per_slice
            invariant
                slot <= blocks_per_slice,
                absent@ == Seq::new(block_size as nat, |i: int| 0u8),
                padded == shards::padded_slice(
                    self@.current.data,
                    blocks_per_slice as nat,
                    block_size as nat,
                ),
                shards::all_sized(self@.current.data, block_size as nat),
                codec::encoder_shape(codec) == (
                    blocks_per_slice as nat,
                    width as nat,
                    block_size as nat,
                ),
                codec::encoder_shards(codec) == padded.take(slot as int),
            decreases blocks_per_slice - slot,
        {
            let block: &[u8] = if slot < self.current.data.len() {
                assert(self@.current.data[slot as int].len() == block_size);
                buffers::buffer_slice(&self.current.data[slot])
            } else {
                absent.as_slice()
            };
            assert(block@ == padded[slot as int]);
            let added = codec::encoder_add(&mut codec, block);
            slot += 1;
            assert(padded.take(slot - 1).push(padded[slot - 1]) =~= padded.take(slot as int));
        }
        assert(padded.take(slot as int) =~= padded);

        let encoded = match codec::encoder_encode(&mut codec) {
            Some(encoded) => encoded,
            None => vstd::pervasive::unreached(),
        };
        self.codec = Some(codec);
        let ghost shown = codec::shard_contents(encoded@);
        assert(shards::all_sized(shown, block_size as nat)) by {
            assert forall|i: int| 0 <= i < shown.len() implies (#[trigger] shown[i]).len()
                == block_size by {
                assert(encoded@[i]@.len() == block_size);
            }
        }
        let parity = codec::into_buffers(encoded);
        assert forall|i: int| 0 <= i < parity@.len() implies buffers::held(
            #[trigger] parity@[i],
        ).len() == block_size by {
            assert(buffers::contents(parity@)[i] == shown[i]);
        }
        parity
    }
}

/// Blocks are numbered in the order in which they are pushed: each gets the
/// number after the one before, split into a slice and a slot of that slice.
pub proof fn pushing_numbers_blocks_in_order(window: WindowView, payload: Seq<u8>)
    requires
        window.valid(),
        window.current.slice_no < u32::MAX,
    ensures
        window.pushed(payload).position() == window.position() + 1,
        window.current.slice_no == window.position() / window.blocks_per_slice as int,
        window.current.data.len() == window.position() % window.blocks_per_slice as int,
{
    let k = window.blocks_per_slice as int;
    let no = window.current.slice_no as int;
    let slot = window.current.data.len() as int;
    vstd::arithmetic::div_mod::lemma_fundamental_div_mod_converse(no * k + slot, k, no, slot);
    assert((no + 1) * k == no * k + k) by (nonlinear_arith);
}

/// A pushed block is held under the number it was given, and everything that
/// was held stays held.
pub proof fn a_pushed_block_is_held(
    window: WindowView,
    payload: Seq<u8>,
    slice_no: u32,
    slot: u16,
)
    requires
        window.valid(),
        window.current.slice_no < u32::MAX,
    ensures
        window.pushed(payload).shard(
            window.current.slice_no,
            window.current.data.len() as u16,
        ) == Some(payload),
        window.shard(slice_no, slot) is Some ==> window.pushed(payload).shard(slice_no, slot)
            == window.shard(slice_no, slot),
{
    let after = window.pushed(payload);
    let appended = window.appended(payload);
    if appended.current.data.len() == window.blocks_per_slice {
        assert(after.live.last().data == appended.current.data);
        assert(after.slice(window.current.slice_no) == Some(after.live.last()));
    }
}

/// What happens to a window while it is filled.
pub enum FillView {
    /// A block is pushed.
    Push(Seq<u8>),
    /// That much parity is wanted of the slices started from now on.
    Cover(u8),
}

/// The blocks that are pushed.
pub open spec fn pushes(fills: Seq<FillView>) -> Seq<Seq<u8>>
    decreases fills.len(),
{
    if fills.len() == 0 {
        Seq::empty()
    } else {
        match fills.last() {
            FillView::Push(payload) => pushes(fills.drop_last()).push(payload),
            FillView::Cover(_) => pushes(fills.drop_last()),
        }
    }
}

impl WindowView {
    /// The window after all of that happened, one after another.
    pub open spec fn filled(self, fills: Seq<FillView>) -> WindowView
        decreases fills.len(),
    {
        if fills.len() == 0 {
            self
        } else {
            let before = self.filled(fills.drop_last());
            match fills.last() {
                FillView::Push(payload) => before.pushed(payload),
                FillView::Cover(wanted) => before.covering(wanted),
            }
        }
    }

    /// Whether all of that may happen, one after another: there is always a number
    /// for the next slice, and the window holds what a window can hold.
    pub open spec fn takes_all(self, fills: Seq<FillView>) -> bool
        decreases fills.len(),
    {
        &&& self.filled(fills).valid()
        &&& self.filled(fills).current.slice_no < u32::MAX
        &&& fills.len() > 0 ==> self.takes_all(fills.drop_last())
    }
}

/// As long as blocks are only pushed into a new window, whatever parity is wanted in
/// between: the next one goes to the slice and the slot that its number divides into,
/// it completes its slice where the number after it divides evenly, and every block so
/// far is held where it went.
pub proof fn blocks_are_held_where_their_numbers_tell(
    window: WindowView,
    fills: Seq<FillView>,
    at: int,
)
    requires
        window.live.len() == 0,
        window.current.slice_no == 0,
        window.current.data.len() == 0,
        window.takes_all(fills),
    ensures
        ({
            let k = window.blocks_per_slice as int;
            let n = pushes(fills).len() as int;
            let now = window.filled(fills);
            &&& now.blocks_per_slice == window.blocks_per_slice
            &&& now.current.slice_no == n / k
            &&& now.current.data.len() == n % k
            &&& now.current.data.len() + 1 == now.blocks_per_slice <==> (n + 1) % k == 0
            &&& 0 <= at < n ==> now.shard((at / k) as u32, (at % k) as u16) == Some(
                pushes(fills)[at],
            )
        }),
    decreases fills.len(),
{
    let k = window.blocks_per_slice as int;
    let n = pushes(fills).len() as int;
    let now = window.filled(fills);
    lemma_filling_keeps_position(window, fills);
    let no = now.current.slice_no as int;
    let slot = now.current.data.len() as int;
    vstd::arithmetic::div_mod::lemma_fundamental_div_mod_converse(n, k, no, slot);
    if slot + 1 == k {
        assert((no + 1) * k == no * k + k) by (nonlinear_arith);
        vstd::arithmetic::div_mod::lemma_fundamental_div_mod_converse(n + 1, k, no + 1, 0);
    } else {
        vstd::arithmetic::div_mod::lemma_fundamental_div_mod_converse(n + 1, k, no, slot + 1);
    }
    if 0 <= at < n {
        let earlier = fills.drop_last();
        let before = window.filled(earlier);
        reveal_with_fuel(WindowView::takes_all, 2);
        blocks_are_held_where_their_numbers_tell(window, earlier, at);
        if let FillView::Push(payload) = fills.last() {
            a_pushed_block_is_held(before, payload, (at / k) as u32, (at % k) as u16);
        }
    }
}

proof fn lemma_filling_keeps_position(window: WindowView, fills: Seq<FillView>)
    requires
        window.current.slice_no == 0,
        window.current.data.len() == 0,
        window.takes_all(fills),
    ensures
        window.filled(fills).position() == pushes(fills).len(),
        window.filled(fills).blocks_per_slice == window.blocks_per_slice,
    decreases fills.len(),
{
    if fills.len() > 0 {
        let earlier = fills.drop_last();
        lemma_filling_keeps_position(window, earlier);
        if let FillView::Push(payload) = fills.last() {
            pushing_numbers_blocks_in_order(window.filled(earlier), payload);
        }
    } else {
        assert(0 * window.blocks_per_slice == 0);
    }
}

/// Sealing a slice keeps every shard that was held.
pub proof fn sealing_keeps_what_is_held(window: WindowView, slice_no: u32, slot: u16)
    requires
        window.valid(),
        window.sealable(),
        window.shard(slice_no, slot) is Some,
    ensures
        window.sealed().shard(slice_no, slot) == window.shard(slice_no, slot),
{
    if window.current.data.len() > 0 {
        let after = window.sealed();
        assert(after.slice(window.current.slice_no) == Some(after.live.last()));
    }
}

/// Letting go of what no receiver needs keeps every slice from `first_needed`
/// on, and drops every sealed slice below it.
pub proof fn letting_go_keeps_what_is_needed(
    window: WindowView,
    first_needed: u32,
    slice_no: u32,
    slot: u16,
)
    requires
        window.valid(),
    ensures
        slice_no >= first_needed ==> window.retained(first_needed).shard(slice_no, slot)
            == window.shard(slice_no, slot),
        slice_no < first_needed && slice_no != window.current.slice_no ==> window.retained(
            first_needed,
        ).slice(slice_no) is None,
{
}

/// As long as blocks are only pushed while the window is not full, no more slices
/// are live than may be.
pub proof fn no_more_slices_are_live_than_may_be(window: WindowView, payload: Seq<u8>)
    requires
        window.valid(),
        window.live.len() < window.max_live_slices,
    ensures
        window.pushed(payload).live.len() <= window.max_live_slices,
        window.sealed().live.len() <= window.max_live_slices,
{
}

/// The parity of a slice is fixed when the slice is started: neither pushing nor
/// sealing changes it, and a slice that is started carries what is wanted then.
pub proof fn parity_width_is_fixed_at_the_start(
    window: WindowView,
    payload: Seq<u8>,
    slice_no: u32,
)
    requires
        window.valid(),
        window.current.slice_no < u32::MAX,
    ensures
        window.slice(slice_no) matches Some(slice) ==> {
            &&& window.pushed(payload).slice(slice_no) matches Some(later)
            &&& later.parity_width == slice.parity_width
        },
        window.slice(slice_no) matches Some(slice) ==> {
            &&& window.sealed().slice(slice_no) matches Some(later)
            &&& later.parity_width == slice.parity_width
        },
        window.current.data.len() > 0 ==> window.sealed().current.parity_width
            == window.wanted_parity,
{
    let after = window.sealed();
    if window.current.data.len() > 0 {
        assert(after.slice(window.current.slice_no) == Some(after.live.last()));
    }
    let appended = window.appended(payload);
    if appended.current.data.len() == window.blocks_per_slice {
        let after = window.pushed(payload);
        assert(after.slice(window.current.slice_no) == Some(after.live.last()));
    }
}

/// Whether a window was filled with the blocks of `source`, in order: each sealed
/// slice holds the data of its slice, the current one what follows.
pub open spec fn follows(window: WindowView, source: Seq<Seq<u8>>) -> bool {
    let k = window.blocks_per_slice;
    &&& window.position() == source.len()
    &&& window.current.data == source.subrange(
        window.current.slice_no * k,
        source.len() as int,
    )
    &&& forall|i: int|
        0 <= i < window.live.len() ==> (#[trigger] window.live[i]).data == shards::slice_data(
            source,
            k,
            window.live[i].slice_no as int,
        )
}

/// Pushing the next block of a transfer into a window that was filled with the
/// blocks before it fills it with that block too.
pub proof fn pushing_follows_the_source(
    window: WindowView,
    source: Seq<Seq<u8>>,
    payload: Seq<u8>,
)
    requires
        window.valid(),
        window.current.slice_no < u32::MAX,
        follows(window, source),
    ensures
        follows(window.pushed(payload), source.push(payload)),
{
    let k = window.blocks_per_slice;
    let no = window.current.slice_no as int;
    let after = window.pushed(payload);
    let longer = source.push(payload);
    pushing_numbers_blocks_in_order(window, payload);
    assert(0 <= no * k) by (nonlinear_arith)
        requires
            0 <= no,
    ;
    assert((no + 1) * k == no * k + k) by (nonlinear_arith);
    assert forall|i: int| 0 <= i < window.live.len() implies (#[trigger] window.live[i]).data
        == shards::slice_data(longer, k, window.live[i].slice_no as int) by {
        let at = window.live[i].slice_no as int;
        assert((at + 1) * k <= no * k) by (nonlinear_arith)
            requires
                at + 1 <= no,
        ;
        assert(at * k <= (at + 1) * k) by (nonlinear_arith);
        assert(0 <= at * k) by (nonlinear_arith)
            requires
                0 <= at,
        ;
        assert(shards::slice_data(longer, k, at) =~= shards::slice_data(source, k, at));
    }
    let data = window.current.data.push(payload);
    assert(data =~= longer.subrange(no * k, longer.len() as int));
    if data.len() == k {
        assert(shards::slice_data(longer, k, no) =~= data);
        assert(after.current.data =~= longer.subrange((no + 1) * k, longer.len() as int));
    }
}

/// Every shard that a window holds of a sealed slice is the shard of the transfer
/// at that slot, and every shard of such a slice is held. That goes for the last
/// slice too once it is sealed, full or not.
pub proof fn a_window_holds_the_shards_of_its_source(
    window: WindowView,
    source: Seq<Seq<u8>>,
    slice_no: u32,
    slot: u16,
)
    requires
        window.valid(),
        window.sealable(),
        window.sealed().valid(),
        follows(window, source),
        slice_no < window.sealed().current.slice_no,
    ensures
        window.sealed().slice(slice_no) matches Some(slice) ==> window.sealed().shard(slice_no, slot)
            == shards::source_shard(
            source,
            window.blocks_per_slice,
            window.block_size,
            slice.parity_width,
            slice_no as int,
            slot as int,
        ),
{
    let k = window.blocks_per_slice;
    let no = window.current.slice_no as int;
    let after = window.sealed();
    assert(0 <= no * k) by (nonlinear_arith)
        requires
            0 <= no,
    ;
    assert((no + 1) * k == no * k + k) by (nonlinear_arith);
    if slice_no == no {
        assert(after.slice(slice_no) == Some(after.live.last()));
        assert(shards::slice_data(source, k, no) =~= window.current.data);
        assert(after.live.last().parity == shards::slice_parity_shards(
            window.current.data,
            window.current.parity_width,
            k,
            window.block_size,
        ));
    }
}

} // verus!
