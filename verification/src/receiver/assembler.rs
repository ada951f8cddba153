//! Putting slices back together from the shards that arrive.

pub mod laws;

use crate::buffers;
use crate::codec;
use crate::codec::CodecError;
use crate::nonzero::NonZeroU16;
use crate::shards;
use bytes::Bytes;
use reed_solomon_simd::ReedSolomonDecoder;
use std::collections::BTreeMap;
use vstd::prelude::*;

verus! {

/// What is held of a slice: a shard or nothing for each slot, and the parity
/// that its shards named, zero while none did.
#[verifier::ext_equal]
pub struct SliceView {
    pub slots: Seq<Option<Seq<u8>>>,
    pub parity_width: u8,
}

/// How many of the first `upto` slots hold a shard.
pub open spec fn held_count(slots: Seq<Option<Seq<u8>>>, upto: int) -> nat
    decreases upto,
{
    if upto <= 0 {
        0
    } else {
        held_count(slots, upto - 1) + if slots[upto - 1] is Some {
            1nat
        } else {
            0nat
        }
    }
}

/// Those of the first `upto` slots that hold no shard, in ascending order.
pub open spec fn missing_slots(slots: Seq<Option<Seq<u8>>>, upto: int) -> Seq<u16>
    decreases upto,
{
    if upto <= 0 {
        Seq::empty()
    } else if slots[upto - 1] is None {
        missing_slots(slots, upto - 1).push((upto - 1) as u16)
    } else {
        missing_slots(slots, upto - 1)
    }
}

/// The shards of the first `upto` slots that a decoder is given to restore the
/// first `target` data blocks: those that are held, and zero blocks for the data
/// slots that a short slice leaves empty.
pub open spec fn given_shards(
    slots: Seq<Option<Seq<u8>>>,
    target: int,
    blocks_per_slice: int,
    block_size: nat,
    upto: int,
) -> Map<int, Seq<u8>> {
    Map::new(
        |slot: int|
            0 <= slot < upto && (slots[slot] is Some || target <= slot < blocks_per_slice),
        |slot: int|
            match slots[slot] {
                Some(shard) => shard,
                None => Seq::new(block_size, |i: int| 0u8),
            },
    )
}

impl SliceView {
    /// A slice of which nothing is held.
    pub open spec fn empty(total_slots: nat) -> SliceView {
        SliceView { slots: Seq::new(total_slots, |i: int| None), parity_width: 0 }
    }

    /// Whether a shard is taken: there is such a slot, it is free, and the shard
    /// names no other parity than the shards before it.
    pub open spec fn accepts(self, slot: u16, parity_width: u8) -> bool {
        &&& slot < self.slots.len()
        &&& self.slots[slot as int] is None
        &&& parity_width == 0 || self.parity_width == 0 || self.parity_width == parity_width
    }

    /// The slice after a shard was offered.
    pub open spec fn inserted(self, slot: u16, parity_width: u8, payload: Seq<u8>) -> SliceView {
        if self.accepts(slot, parity_width) {
            SliceView {
                slots: self.slots.update(slot as int, Some(payload)),
                parity_width: if parity_width > 0 {
                    parity_width
                } else {
                    self.parity_width
                },
            }
        } else {
            self
        }
    }

    /// Whether every shard that is held has the size of a block.
    pub open spec fn sized(self, block_size: nat) -> bool {
        forall|slot: int|
            0 <= slot < self.slots.len() && (#[trigger] self.slots[slot]) is Some
                ==> self.slots[slot]->0.len() == block_size
    }

    /// Whether each of the first `target` data blocks is held.
    pub open spec fn data_present(self, target: int) -> bool {
        forall|slot: int| 0 <= slot < target ==> (#[trigger] self.slots[slot]) is Some
    }

    /// The lowest missing data blocks, as many of them as the slice is short of
    /// shards.
    pub open spec fn wanted(self, target: int) -> Seq<u16> {
        let missing = missing_slots(self.slots, target);
        let shortfall = target - held_count(self.slots, self.slots.len() as int);
        if shortfall <= 0 {
            Seq::empty()
        } else if shortfall < missing.len() {
            missing.take(shortfall)
        } else {
            missing
        }
    }

    /// Whether the first `target` data blocks can be had: they are all held, or
    /// the shards that are held make up a code word of the parity they named.
    pub open spec fn recoverable(
        self,
        target: int,
        blocks_per_slice: int,
        block_size: nat,
    ) -> bool {
        let upto = self.slots.len() as int;
        self.data_present(target) || {
            &&& codec::supported(blocks_per_slice as nat, self.parity_width as nat, block_size)
            &&& forall|slot: int|
                0 <= slot < upto && (#[trigger] self.slots[slot]) is Some ==> {
                    &&& slot < blocks_per_slice + self.parity_width
                    &&& self.slots[slot]->0.len() == block_size
                }
            &&& given_shards(
                self.slots,
                target,
                blocks_per_slice,
                block_size,
                upto,
            ).dom().len() >= blocks_per_slice
        }
    }

    /// Whether the shards that are held belong to the code word of the data shards
    /// `data`, of which those from `target` on are padding.
    pub open spec fn belongs_to(
        self,
        data: Seq<Seq<u8>>,
        target: int,
        blocks_per_slice: int,
        block_size: nat,
    ) -> bool {
        &&& data.len() == blocks_per_slice
        &&& shards::all_sized(data, block_size)
        &&& codec::of_code_word(
            given_shards(
                self.slots,
                target,
                blocks_per_slice,
                block_size,
                self.slots.len() as int,
            ),
            data,
            self.parity_width as nat,
        )
    }

    /// Whether every shard that is held is one that the blocks `data` of a slice make:
    /// one of those blocks, or one of the parity shards that were made over them, filled
    /// up to a full slice, at the width that the shards name.
    pub open spec fn is_made_of(
        self,
        data: Seq<Seq<u8>>,
        blocks_per_slice: nat,
        block_size: nat,
    ) -> bool {
        let width = self.parity_width as nat;
        let parity = shards::slice_parity_shards(data, width, blocks_per_slice, block_size);
        &&& shards::all_sized(data, block_size)
        &&& forall|slot: int|
            0 <= slot < self.slots.len() && (#[trigger] self.slots[slot]) is Some ==> {
                &&& slot < data.len() || blocks_per_slice <= slot < blocks_per_slice + width
                &&& self.slots[slot]->0.len() == block_size
                &&& self.slots[slot]->0 == if slot < data.len() {
                    data[slot]
                } else {
                    parity[slot - blocks_per_slice]
                }
            }
    }

    /// The first `target` data blocks, those that are not held restored from the
    /// shards that are.
    pub open spec fn recovered(
        self,
        target: int,
        blocks_per_slice: int,
        block_size: nat,
    ) -> Seq<Seq<u8>> {
        Seq::new(
            target as nat,
            |slot: int|
                match self.slots[slot] {
                    Some(shard) => shard,
                    None => codec::restored_shard(
                        blocks_per_slice as nat,
                        self.parity_width as nat,
                        given_shards(
                            self.slots,
                            target,
                            blocks_per_slice,
                            block_size,
                            self.slots.len() as int,
                        ),
                        slot,
                    ),
                },
        )
    }
}

/// What an assembler holds: the slices that it has shards of, the first slice
/// that was not handed over, and the size of the transfer once it is known.
#[verifier::ext_equal]
pub struct AssemblerView {
    pub block_size: nat,
    pub blocks_per_slice: u16,
    pub parity_per_slice: u8,
    pub max_live_slices: u32,
    pub slices: Map<u32, SliceView>,
    pub next_needed: u32,
    pub total_blocks: Option<u64>,
}

impl AssemblerView {
    /// What holds of every assembler.
    pub open spec fn valid(self) -> bool {
        &&& self.blocks_per_slice > 0
        &&& 0 < self.max_live_slices <= u16::MAX
        &&& self.parity_per_slice > 0 ==> codec::supported(
            self.blocks_per_slice as nat,
            self.parity_per_slice as nat,
            self.block_size,
        )
        &&& self.slices.dom().finite()
        &&& forall|slice_no: u32| #[trigger]
            self.slices.dom().contains(slice_no) ==> {
                &&& self.next_needed <= slice_no < self.next_needed + self.max_live_slices
                &&& slice_no < u32::MAX
                &&& self.slices[slice_no].slots.len() == self.total_slots() <= u16::MAX
            }
    }

    /// Whether every shard that is held has the size of a block.
    pub open spec fn shards_sized(self) -> bool {
        forall|slice_no: u32| #[trigger]
            self.slices.dom().contains(slice_no) ==> self.slices[slice_no].sized(self.block_size)
    }

    /// How many slots a slice has.
    pub open spec fn total_slots(self) -> int {
        self.blocks_per_slice + self.parity_per_slice
    }

    /// Whether the window of slices and the slots of a slice can be counted in
    /// the integers they are counted in.
    pub open spec fn countable(self) -> bool {
        &&& self.next_needed + self.max_live_slices <= u32::MAX
        &&& self.total_slots() <= u16::MAX
    }

    /// How many slices the transfer has, once its size is known.
    pub open spec fn total_slices(self) -> Option<u32> {
        match self.total_blocks {
            Some(total) => Some(shards::slice_count(total, self.blocks_per_slice)),
            None => None,
        }
    }

    /// How many blocks the slice holds. Every slice is full but the last, whose
    /// size only the size of the transfer tells.
    pub open spec fn target(self, slice_no: u32) -> int {
        match self.total_blocks {
            None => self.blocks_per_slice as int,
            Some(total) => {
                let rest = total - slice_no * self.blocks_per_slice;
                if rest < 0 {
                    0
                } else if rest < self.blocks_per_slice {
                    rest
                } else {
                    self.blocks_per_slice as int
                }
            },
        }
    }

    /// Whether the slice may be buffered: it was not handed over and is not too
    /// far ahead.
    pub open spec fn in_window(self, slice_no: u32) -> bool {
        self.next_needed <= slice_no < self.next_needed + self.max_live_slices
    }

    /// What is held of a slice.
    pub open spec fn slice(self, slice_no: u32) -> SliceView {
        if self.slices.dom().contains(slice_no) {
            self.slices[slice_no]
        } else {
            SliceView::empty(self.total_slots() as nat)
        }
    }

    /// The assembler after a shard was offered.
    pub open spec fn inserted(
        self,
        slice_no: u32,
        slot: u16,
        parity_width: u8,
        payload: Seq<u8>,
    ) -> AssemblerView {
        if self.in_window(slice_no) {
            AssemblerView {
                slices: self.slices.insert(
                    slice_no,
                    self.slice(slice_no).inserted(slot, parity_width, payload),
                ),
                ..self
            }
        } else {
            self
        }
    }

    /// Whether the size of a slice is settled: the size of the transfer is known,
    /// a later slice was seen, or the slice is full as it is.
    pub open spec fn can_write(self, slice_no: u32) -> bool {
        ||| self.total_blocks is Some
        ||| exists|seen: u32| #[trigger] self.slices.dom().contains(seen) && seen > slice_no
        ||| self.slices.dom().contains(slice_no) && self.slices[slice_no].data_present(
            self.blocks_per_slice as int,
        )
    }

    /// Whether as many shards of a slice are held as it has blocks.
    pub open spec fn is_complete(self, slice_no: u32) -> bool {
        &&& self.slices.dom().contains(slice_no)
        &&& held_count(
            self.slices[slice_no].slots,
            self.slices[slice_no].slots.len() as int,
        ) >= self.target(slice_no)
    }

    /// Whether the first slice that was not handed over can be.
    pub open spec fn ready(self) -> bool {
        self.can_write(self.next_needed) && self.is_complete(self.next_needed)
    }

    /// The blocks of the first slice that was not handed over.
    pub open spec fn next_blocks(self) -> Seq<Seq<u8>> {
        self.slices[self.next_needed].recovered(
            self.target(self.next_needed),
            self.blocks_per_slice as int,
            self.block_size,
        )
    }

    /// The assembler after its first slice was handed over.
    pub open spec fn advanced(self) -> AssemblerView {
        AssemblerView {
            slices: self.slices.remove(self.next_needed),
            next_needed: (self.next_needed + 1) as u32,
            ..self
        }
    }

    /// Whether the blocks of every slice that can be handed over can be had.
    pub open spec fn takeable(self) -> bool
        decreases self.slices.dom().len(),
        when self.slices.dom().finite()
    {
        self.ready() ==> {
            &&& self.slices[self.next_needed].recoverable(
                self.target(self.next_needed),
                self.blocks_per_slice as int,
                self.block_size,
            )
            &&& self.advanced().takeable()
        }
    }

    /// The blocks that can be handed over, in order.
    pub open spec fn taken(self) -> Seq<Seq<u8>>
        decreases self.slices.dom().len(),
        when self.slices.dom().finite()
    {
        if self.ready() {
            self.next_blocks() + self.advanced().taken()
        } else {
            Seq::empty()
        }
    }

    /// The assembler after it handed over what it could.
    pub open spec fn after_taking(self) -> AssemblerView
        decreases self.slices.dom().len(),
        when self.slices.dom().finite()
    {
        if self.ready() {
            self.advanced().after_taking()
        } else {
            self
        }
    }

    /// The slices below `upto` that are short of shards, each with the shards to
    /// ask for.
    pub open spec fn gaps_below(self, upto: int) -> Seq<(u32, Seq<u16>)>
        decreases upto - self.next_needed,
    {
        if upto <= self.next_needed {
            Seq::empty()
        } else {
            let slice_no = (upto - 1) as u32;
            let before = self.gaps_below(upto - 1);
            if self.is_complete(slice_no) {
                before
            } else if self.slices.dom().contains(slice_no) {
                before.push((slice_no, self.slices[slice_no].wanted(self.target(slice_no))))
            } else {
                before.push(
                    (
                        slice_no,
                        Seq::new(self.target(slice_no) as nat, |slot: int| slot as u16),
                    ),
                )
            }
        }
    }

    /// The gaps below the end of the transfer, or below `emit_floor` while the
    /// end is not known.
    pub open spec fn gaps(self, emit_floor: u32) -> Seq<(u32, Seq<u16>)> {
        match self.total_slices() {
            Some(total_slices) => self.gaps_below(total_slices as int),
            None => self.gaps_below(emit_floor as int),
        }
    }
}

/// Whether everything that an assembler holds belongs to the transfer `source`:
/// each slice is one of the transfer's, carries no more parity than the transfer
/// allows, and holds in each of its slots the shard of that slot; and the size of
/// the transfer, where it is known, is that of `source`.
pub open spec fn genuine(assembler: AssemblerView, source: Seq<Seq<u8>>) -> bool {
    let k = assembler.blocks_per_slice as nat;
    &&& shards::all_sized(source, assembler.block_size)
    &&& assembler.total_blocks matches Some(total) ==> total == source.len()
    &&& forall|slice_no: u32| #[trigger]
        assembler.slices.dom().contains(slice_no) ==> {
            &&& slice_no * k < source.len()
            &&& assembler.slices[slice_no].parity_width <= assembler.parity_per_slice
            &&& genuine_slots(
                assembler.slices[slice_no],
                k,
                assembler.block_size,
                source,
                slice_no as int,
            )
        }
}

/// Whether each slot of a slice holds the shard of that slot, which has the size
/// of a block, or nothing.
pub open spec fn genuine_slots(
    slice: SliceView,
    blocks_per_slice: nat,
    block_size: nat,
    source: Seq<Seq<u8>>,
    slice_no: int,
) -> bool {
    forall|slot: int|
        0 <= slot < slice.slots.len() && (#[trigger] slice.slots[slot]) is Some ==> {
            &&& slice.slots[slot]->0.len() == block_size
            &&& slice.slots[slot] == shards::source_shard(
                source,
                blocks_per_slice,
                block_size,
                slice.parity_width as nat,
                slice_no,
                slot,
            )
        }
}

/// An assembler that holds only what belongs to the transfer still does after a
/// shard of the transfer was offered to it.
pub proof fn genuine_shards_keep_it_genuine(
    assembler: AssemblerView,
    source: Seq<Seq<u8>>,
    slice_no: u32,
    slot: u16,
    parity_width: u8,
    payload: Seq<u8>,
)
    requires
        assembler.valid(),
        genuine(assembler, source),
        parity_width <= assembler.parity_per_slice,
        payload.len() == assembler.block_size,
        shards::source_shard(
            source,
            assembler.blocks_per_slice as nat,
            assembler.block_size,
            parity_width as nat,
            slice_no as int,
            slot as int,
        ) == Some(payload),
    ensures
        genuine(assembler.inserted(slice_no, slot, parity_width, payload), source),
{
    let k = assembler.blocks_per_slice as nat;
    shards::slice_data_size(source, k, slice_no as int);
    let before = assembler.slice(slice_no);
    let after = before.inserted(slot, parity_width, payload);
    assert(genuine_slots(before, k, assembler.block_size, source, slice_no as int));
    assert(genuine_slots(after, k, assembler.block_size, source, slice_no as int)) by {
        assert forall|at: int|
            0 <= at < after.slots.len() && (#[trigger] after.slots[at]) is Some implies after.slots[at]
            == shards::source_shard(
            source,
            k,
            assembler.block_size,
            after.parity_width as nat,
            slice_no as int,
            at,
        ) by {
            if at != slot || !before.accepts(slot, parity_width) {
                assert(after.slots[at] == before.slots[at]);
            }
        }
    }
}

proof fn lemma_advanced_genuine(assembler: AssemblerView, source: Seq<Seq<u8>>)
    requires
        assembler.valid(),
        genuine(assembler, source),
        assembler.ready(),
    ensures
        assembler.advanced().valid(),
        genuine(assembler.advanced(), source),
        assembler.advanced().slices.dom().len() < assembler.slices.dom().len(),
{
    let after = assembler.advanced();
    assert forall|slice_no: u32| #[trigger] after.slices.dom().contains(slice_no) implies {
        &&& assembler.slices.dom().contains(slice_no)
        &&& slice_no != assembler.next_needed
    } by {}
}

/// A slice that can be handed over has the size that it is handed over with.
proof fn lemma_settled(assembler: AssemblerView, source: Seq<Seq<u8>>)
    requires
        assembler.valid(),
        genuine(assembler, source),
        assembler.ready(),
    ensures
        shards::slice_data(
            source,
            assembler.blocks_per_slice as nat,
            assembler.next_needed as int,
        ).len() == assembler.target(assembler.next_needed),
        0 < assembler.target(assembler.next_needed),
{
    let k = assembler.blocks_per_slice as nat;
    let no = assembler.next_needed;
    shards::slice_data_size(source, k, no as int);
    assert(assembler.slices.dom().contains(no));
    if assembler.total_blocks is None {
        if exists|seen: u32| #[trigger] assembler.slices.dom().contains(seen) && seen > no {
            let seen = choose|seen: u32| #[trigger]
                assembler.slices.dom().contains(seen) && seen > no;
            assert(no * k + k <= seen * k) by (nonlinear_arith)
                requires
                    no + 1 <= seen,
            ;
        } else {
            assert(assembler.slices[no].slots[k - 1] is Some);
        }
    }
}

/// The shards that the decoder is given for a slice whose shards its blocks make belong
/// to one code word, that of those blocks.
proof fn lemma_given_is_code_word(
    slice: SliceView,
    data: Seq<Seq<u8>>,
    blocks_per_slice: nat,
    block_size: nat,
)
    requires
        slice.is_made_of(data, blocks_per_slice, block_size),
        data.len() <= blocks_per_slice,
    ensures
        ({
            let padded = shards::padded_slice(data, blocks_per_slice, block_size);
            &&& slice.belongs_to(padded, data.len() as int, blocks_per_slice as int, block_size)
            &&& padded.take(data.len() as int) == data
        }),
{
    let padded = shards::padded_slice(data, blocks_per_slice, block_size);
    let target = data.len() as int;
    let given = given_shards(
        slice.slots,
        target,
        blocks_per_slice as int,
        block_size,
        slice.slots.len() as int,
    );
    assert(padded.take(target) =~= data);
    assert forall|at: int| #[trigger] given.dom().contains(at) implies {
        &&& 0 <= at < padded.len() + slice.parity_width
        &&& given[at] == if at < padded.len() {
            padded[at]
        } else {
            codec::recovery_shards(padded, slice.parity_width as nat)[at - padded.len()]
        }
    } by {
        if slice.slots[at] is None {
            assert(given[at] == padded[at]);
        }
    }
}

/// The decoder is given what is held and the padding of a short slice.
proof fn lemma_given_count(
    slots: Seq<Option<Seq<u8>>>,
    target: int,
    blocks_per_slice: int,
    block_size: nat,
    upto: int,
)
    requires
        0 <= target <= blocks_per_slice,
        0 <= upto <= slots.len(),
        forall|slot: int| target <= slot < blocks_per_slice ==> (#[trigger] slots[slot]) is None,
    ensures
        given_shards(slots, target, blocks_per_slice, block_size, upto).dom().finite(),
        given_shards(slots, target, blocks_per_slice, block_size, upto).dom().len() == held_count(
            slots,
            upto,
        ) + if upto <= target {
            0
        } else if upto <= blocks_per_slice {
            upto - target
        } else {
            blocks_per_slice - target
        },
    decreases upto,
{
    let now = given_shards(slots, target, blocks_per_slice, block_size, upto).dom();
    if upto == 0 {
        assert(now =~= Set::<int>::empty());
    } else {
        lemma_given_count(slots, target, blocks_per_slice, block_size, upto - 1);
        let before = given_shards(slots, target, blocks_per_slice, block_size, upto - 1).dom();
        if slots[upto - 1] is Some || target <= upto - 1 < blocks_per_slice {
            assert(now =~= before.insert(upto - 1));
        } else {
            assert(now =~= before);
        }
    }
}

/// As many of the shards of a slice as it has blocks restore it, whichever they are and
/// whatever the width of its parity.
pub proof fn enough_shards_restore_a_slice(
    slice: SliceView,
    data: Seq<Seq<u8>>,
    blocks_per_slice: nat,
    parity_per_slice: nat,
    block_size: nat,
)
    requires
        data.len() <= blocks_per_slice,
        parity_per_slice > 0 ==> codec::supported(blocks_per_slice, parity_per_slice, block_size),
        slice.parity_width <= parity_per_slice,
        slice.slots.len() == blocks_per_slice + parity_per_slice,
        slice.is_made_of(data, blocks_per_slice, block_size),
        held_count(slice.slots, slice.slots.len() as int) >= data.len(),
    ensures
        slice.recoverable(data.len() as int, blocks_per_slice as int, block_size),
        ({
            let padded = shards::padded_slice(data, blocks_per_slice, block_size);
            &&& slice.belongs_to(padded, data.len() as int, blocks_per_slice as int, block_size)
            &&& padded.take(data.len() as int) == data
        }),
{
    let k = blocks_per_slice as int;
    let target = data.len() as int;
    let upto = slice.slots.len() as int;
    lemma_given_is_code_word(slice, data, blocks_per_slice, block_size);
    if !slice.data_present(target) {
        lemma_given_count(slice.slots, target, k, block_size, upto);
        if slice.parity_width == 0 {
            // Without parity every shard that is held is a data block, so that as
            // many as the slice has blocks are all of them.
            lemma_held_count_tail(slice.slots, target, upto);
            lemma_held_count_full(slice.slots, target);
            assert(false);
        }
        codec::narrower_is_supported(
            blocks_per_slice,
            parity_per_slice,
            slice.parity_width as nat,
            block_size,
        );
    }
}

proof fn lemma_genuine_recoverable(assembler: AssemblerView, source: Seq<Seq<u8>>)
    requires
        assembler.valid(),
        genuine(assembler, source),
        assembler.ready(),
    ensures
        ({
            let k = assembler.blocks_per_slice as nat;
            let no = assembler.next_needed;
            let slice = assembler.slices[no];
            let part = shards::slice_data(source, k, no as int);
            let data = shards::padded_slice(part, k, assembler.block_size);
            &&& slice.recoverable(assembler.target(no), k as int, assembler.block_size)
            &&& slice.belongs_to(data, assembler.target(no), k as int, assembler.block_size)
            &&& data.take(assembler.target(no)) == part
        }),
{
    let k = assembler.blocks_per_slice as nat;
    let no = assembler.next_needed;
    let slice = assembler.slices[no];
    let part = shards::slice_data(source, k, no as int);
    lemma_settled(assembler, source);
    shards::slice_data_size(source, k, no as int);
    assert(assembler.slices.dom().contains(no));
    assert(genuine_slots(slice, k, assembler.block_size, source, no as int));
    assert(slice.is_made_of(part, k, assembler.block_size)) by {
        let parity = shards::slice_parity_shards(
            part,
            slice.parity_width as nat,
            k,
            assembler.block_size,
        );
        assert forall|slot: int|
            0 <= slot < slice.slots.len() && (#[trigger] slice.slots[slot]) is Some implies {
            &&& slot < part.len() || k <= slot < k + slice.parity_width
            &&& slice.slots[slot]->0.len() == assembler.block_size
            &&& slice.slots[slot]->0 == if slot < part.len() {
                part[slot]
            } else {
                parity[slot - k]
            }
        } by {
            assert(slice.slots[slot] == shards::source_shard(
                source,
                k,
                assembler.block_size,
                slice.parity_width as nat,
                no as int,
                slot,
            ));
        }
    }
    enough_shards_restore_a_slice(
        slice,
        part,
        k,
        assembler.parity_per_slice as nat,
        assembler.block_size,
    );
}

proof fn lemma_held_count_tail(slots: Seq<Option<Seq<u8>>>, from: int, upto: int)
    requires
        0 <= from <= upto,
        forall|slot: int| from <= slot < upto ==> (#[trigger] slots[slot]) is None,
    ensures
        held_count(slots, upto) == held_count(slots, from),
    decreases upto,
{
    if from < upto {
        lemma_held_count_tail(slots, from, upto - 1);
    }
}

proof fn lemma_held_count_full(slots: Seq<Option<Seq<u8>>>, upto: int)
    requires
        0 <= upto,
        held_count(slots, upto) >= upto,
    ensures
        forall|slot: int| 0 <= slot < upto ==> (#[trigger] slots[slot]) is Some,
    decreases upto,
{
    if upto > 0 {
        lemma_held_count_bounds(slots, upto - 1);
        lemma_held_count_full(slots, upto - 1);
    }
}

/// Whatever shards of a transfer arrive, in whatever order: what can be handed
/// over of them can be had.
pub proof fn genuine_shards_are_takeable(assembler: AssemblerView, source: Seq<Seq<u8>>)
    requires
        assembler.valid(),
        genuine(assembler, source),
    ensures
        assembler.takeable(),
    decreases assembler.slices.dom().len(),
{
    if assembler.ready() {
        lemma_genuine_recoverable(assembler, source);
        lemma_advanced_genuine(assembler, source);
        genuine_shards_are_takeable(assembler.advanced(), source);
    }
}

pub(crate) proof fn lemma_missing_slots(slots: Seq<Option<Seq<u8>>>, upto: int)
    requires
        0 <= upto <= slots.len() <= u16::MAX,
    ensures
        missing_slots(slots, upto).len() + held_count(slots, upto) == upto,
        held_count(slots, upto) <= held_count(slots, slots.len() as int),
        forall|i: int|
            0 <= i < missing_slots(slots, upto).len() ==> (#[trigger] missing_slots(slots, upto)[i])
                < upto && slots[missing_slots(slots, upto)[i] as int] is None,
        forall|i: int, j: int|
            0 <= i < j < missing_slots(slots, upto).len() ==> missing_slots(slots, upto)[i]
                < missing_slots(slots, upto)[j],
    decreases upto,
{
    if upto > 0 {
        lemma_missing_slots(slots, upto - 1);
        let before = missing_slots(slots, upto - 1);
        let now = missing_slots(slots, upto);
        assert forall|i: int| 0 <= i < now.len() implies (#[trigger] now[i]) < upto
            && slots[now[i] as int] is None by {
            if i < before.len() {
                assert(now[i] == before[i]);
            }
        }
    }
    lemma_held_count_grows(slots, upto, slots.len() as int);
}

pub(crate) proof fn lemma_held_count_grows(slots: Seq<Option<Seq<u8>>>, from: int, upto: int)
    requires
        from <= upto,
    ensures
        held_count(slots, from) <= held_count(slots, upto),
    decreases upto - from,
{
    if from < upto {
        lemma_held_count_grows(slots, from, upto - 1);
    }
}

/// Of a slice, exactly as many shards are asked for as it is short of, each once,
/// and none that is held: once they arrive, the slice is complete.
pub proof fn what_is_asked_for_completes_a_slice(slice: SliceView, target: int)
    requires
        0 <= target <= slice.slots.len() <= u16::MAX,
    ensures
        ({
            let held = held_count(slice.slots, slice.slots.len() as int);
            let wanted = slice.wanted(target);
            &&& held < target ==> held + wanted.len() == target
            &&& held >= target ==> wanted.len() == 0
            &&& forall|i: int|
                0 <= i < wanted.len() ==> (#[trigger] wanted[i]) < target
                    && slice.slots[wanted[i] as int] is None
            &&& forall|i: int, j: int| 0 <= i < j < wanted.len() ==> wanted[i] < wanted[j]
        }),
{
    lemma_missing_slots(slice.slots, target);
}

/// There are no more gaps than slices.
pub proof fn gaps_are_counted(assembler: AssemblerView, emit_floor: u32)
    ensures
        assembler.gaps(emit_floor).len() <= u32::MAX,
{
    let floor = match assembler.total_slices() {
        Some(total) => total,
        None => emit_floor,
    };
    lemma_gaps_below(assembler, floor as int);
}

proof fn lemma_gaps_below(assembler: AssemblerView, upto: int)
    ensures
        upto <= assembler.next_needed ==> assembler.gaps_below(upto).len() == 0,
        upto >= assembler.next_needed ==> assembler.gaps_below(upto).len() <= upto
            - assembler.next_needed,
    decreases upto - assembler.next_needed,
{
    if upto > assembler.next_needed {
        lemma_gaps_below(assembler, upto - 1);
    }
}

proof fn lemma_window_is_counted(first: u32, count: nat)
    ensures
        Set::new(|slice_no: u32| first <= slice_no < first + count).finite(),
        Set::new(|slice_no: u32| first <= slice_no < first + count).len() <= count,
    decreases count,
{
    let now = Set::new(|slice_no: u32| first <= slice_no < first + count);
    if count == 0 {
        assert(now =~= Set::<u32>::empty());
    } else {
        let fewer = (count - 1) as nat;
        let before = Set::new(|slice_no: u32| first <= slice_no < first + fewer);
        lemma_window_is_counted(first, fewer);
        if first + fewer <= u32::MAX {
            assert(now =~= before.insert((first + fewer) as u32));
        } else {
            assert(now =~= before);
        }
    }
}

/// No more slices are held than the transfer keeps live, whatever arrives.
pub proof fn no_more_is_held_than_is_live(assembler: AssemblerView)
    requires
        assembler.valid(),
    ensures
        assembler.slices.dom().len() <= assembler.max_live_slices,
{
    let live = Set::new(
        |slice_no: u32|
            assembler.next_needed <= slice_no < assembler.next_needed
                + assembler.max_live_slices as nat,
    );
    lemma_window_is_counted(assembler.next_needed, assembler.max_live_slices as nat);
    assert(assembler.slices.dom().subset_of(live));
    vstd::set_lib::lemma_len_subset(assembler.slices.dom(), live);
}

/// No more blocks can be handed over than the slices that are held have.
pub proof fn taken_is_bounded(assembler: AssemblerView)
    requires
        assembler.valid(),
    ensures
        assembler.taken().len() <= assembler.slices.dom().len() * assembler.blocks_per_slice,
        assembler.after_taking().slices.dom().len() <= assembler.slices.dom().len(),
        assembler.next_needed <= assembler.after_taking().next_needed,
        assembler.after_taking().valid(),
        assembler.after_taking() == (AssemblerView {
            slices: assembler.after_taking().slices,
            next_needed: assembler.after_taking().next_needed,
            ..assembler
        }),
    decreases assembler.slices.dom().len(),
{
    let k = assembler.blocks_per_slice as int;
    let n = assembler.slices.dom().len() as int;
    if assembler.ready() {
        let after = assembler.advanced();
        assert(assembler.slices.dom().contains(assembler.next_needed));
        assert forall|slice_no: u32| #[trigger] after.slices.dom().contains(slice_no) implies {
            &&& assembler.slices.dom().contains(slice_no)
            &&& slice_no != assembler.next_needed
        } by {}
        taken_is_bounded(after);
        assert((n - 1) * k + k == n * k) by (nonlinear_arith);
    } else {
        assert(0 <= n * k) by (nonlinear_arith)
            requires
                0 <= n,
                0 <= k,
        ;
    }
}

proof fn lemma_held_count_bounds(slots: Seq<Option<Seq<u8>>>, upto: int)
    requires
        0 <= upto,
    ensures
        held_count(slots, upto) <= upto,
    decreases upto,
{
    if upto > 0 {
        lemma_held_count_bounds(slots, upto - 1);
    }
}

proof fn lemma_held_count_update(
    slots: Seq<Option<Seq<u8>>>,
    at: int,
    payload: Seq<u8>,
    upto: int,
)
    requires
        0 <= at < slots.len(),
        slots[at] is None,
        0 <= upto <= slots.len(),
    ensures
        held_count(slots.update(at, Some(payload)), upto) == held_count(slots, upto) + if at < upto {
            1nat
        } else {
            0nat
        },
    decreases upto,
{
    if upto > 0 {
        lemma_held_count_update(slots, at, payload, upto - 1);
    }
}

proof fn lemma_held_count_none(slots: Seq<Option<Seq<u8>>>, upto: int)
    requires
        forall|i: int| 0 <= i < upto ==> slots[i] is None,
    ensures
        held_count(slots, upto) == 0,
    decreases upto,
{
    if upto > 0 {
        lemma_held_count_none(slots, upto - 1);
    }
}

/// The shards of one slice.
pub struct Slice {
    slots: Vec<Option<Bytes>>,
    received: u16,
    parity_width: u8,
}

/// The bytes that each slot holds.
spec fn slot_contents(slots: Seq<Option<Bytes>>) -> Seq<Option<Seq<u8>>> {
    Seq::new(
        slots.len(),
        |i: int|
            match slots[i] {
                Some(payload) => Some(buffers::held(payload)),
                None => None,
            },
    )
}

impl View for Slice {
    type V = SliceView;

    closed spec fn view(&self) -> SliceView {
        SliceView { slots: slot_contents(self.slots@), parity_width: self.parity_width }
    }
}

impl Slice {
    /// What holds of every slice.
    pub closed spec fn wf(self) -> bool {
        &&& self.slots@.len() <= u16::MAX
        &&& self.received == held_count(self@.slots, self@.slots.len() as int)
    }

    /// A slice of which nothing is held.
    pub fn empty(total_slots: u16) -> (slice: Slice)
        ensures
            slice.wf(),
            slice@ == SliceView::empty(total_slots as nat),
    {
        let mut slots: Vec<Option<Bytes>> = Vec::new();
        while slots.len() < total_slots as usize
            invariant
                slots@.len() <= total_slots,
                forall|i: int| 0 <= i < slots@.len() ==> (#[trigger] slots@[i]) is None,
            decreases total_slots - slots@.len(),
        {
            slots.push(None);
        }
        let slice = Slice { slots, received: 0, parity_width: 0 };
        proof {
            lemma_held_count_none(slice@.slots, slice@.slots.len() as int);
        }
        slice
    }

    /// A slice is put together with the parity its shards name, so a shard that
    /// names another is refused rather than stored beside them.
    pub fn insert(&mut self, slot: u16, parity_width: u8, payload: Bytes) -> (stored: bool)
        requires
            old(self).wf(),
        ensures
            final(self).wf(),
            stored == old(self)@.accepts(slot, parity_width),
            final(self)@ == old(self)@.inserted(slot, parity_width, buffers::held(payload)),
    {
        let at: usize = slot as usize;
        if at >= self.slots.len() {
            return false;
        }
        if self.slots[at].is_some() {
            return false;
        }
        if parity_width > 0 && self.parity_width > 0 && self.parity_width != parity_width {
            return false;
        }
        proof {
            lemma_held_count_update(
                self@.slots,
                slot as int,
                buffers::held(payload),
                self@.slots.len() as int,
            );
            lemma_held_count_bounds(
                self@.slots.update(slot as int, Some(buffers::held(payload))),
                self@.slots.len() as int,
            );
        }
        self.slots.set(at, Some(payload));
        assert(self@.slots =~= old(self)@.slots.update(slot as int, Some(buffers::held(payload))));
        self.received += 1;
        if parity_width > 0 {
            self.parity_width = parity_width;
        }
        true
    }

    fn data_present(&self, target: u16) -> (present: bool)
        requires
            target <= self@.slots.len(),
        ensures
            present == self@.data_present(target as int),
    {
        let mut slot: usize = 0;
        while slot < target as usize
            invariant
                slot <= target <= self.slots@.len(),
                forall|i: int| 0 <= i < slot ==> (#[trigger] self@.slots[i]) is Some,
            decreases target - slot,
        {
            if self.slots[slot].is_none() {
                assert(self@.slots[slot as int] is None);
                return false;
            }
            slot += 1;
        }
        true
    }

    /// The lowest missing data blocks, no more than the slice is short of.
    fn wanted(&self, target: u16) -> (wanted: Vec<u16>)
        requires
            self.wf(),
            target <= self@.slots.len(),
        ensures
            wanted@ == self@.wanted(target as int),
    {
        let shortfall: usize = (target as usize).saturating_sub(self.received as usize);
        let mut wanted: Vec<u16> = Vec::new();
        let mut slot: usize = 0;
        let ghost missing = missing_slots(self@.slots, target as int);
        while slot < target as usize && wanted.len() < shortfall
            invariant
                slot <= target <= self.slots@.len(),
                self.slots@.len() <= u16::MAX,
                wanted@ == missing_slots(self@.slots, slot as int),
                wanted@.len() <= shortfall,
            decreases target - slot,
        {
            if self.slots[slot].is_none() {
                wanted.push(slot as u16);
            }
            slot += 1;
        }
        proof {
            lemma_missing_slots_prefix(self@.slots, slot as int, target as int);
            assert(wanted@ =~= self@.wanted(target as int));
        }
        wanted
    }
}

proof fn lemma_missing_slots_prefix(slots: Seq<Option<Seq<u8>>>, from: int, upto: int)
    requires
        0 <= from <= upto,
    ensures
        missing_slots(slots, from).len() <= missing_slots(slots, upto).len(),
        missing_slots(slots, upto).take(missing_slots(slots, from).len() as int) == missing_slots(
            slots,
            from,
        ),
    decreases upto,
{
    if from < upto {
        lemma_missing_slots_prefix(slots, from, upto - 1);
        let shorter = missing_slots(slots, upto - 1);
        let n = missing_slots(slots, from).len() as int;
        assert(missing_slots(slots, upto).take(n) =~= shorter.take(n));
    } else {
        assert(missing_slots(slots, upto).take(missing_slots(slots, upto).len() as int)
            =~= missing_slots(slots, upto));
    }
}

/// The shards of a transfer, put back together slice by slice.
pub struct Assembler {
    block_size: usize,
    blocks_per_slice: u16,
    parity_per_slice: u8,
    max_live_slices: u32,
    codec: Option<ReedSolomonDecoder>,
    codec_width: u8,
    slices: BTreeMap<u32, Slice>,
    next_needed: u32,
    total_blocks: Option<u64>,
}

impl View for Assembler {
    type V = AssemblerView;

    closed spec fn view(&self) -> AssemblerView {
        AssemblerView {
            block_size: self.block_size as nat,
            blocks_per_slice: self.blocks_per_slice,
            parity_per_slice: self.parity_per_slice,
            max_live_slices: self.max_live_slices,
            slices: self.slices@.map_values(|slice: Slice| slice@),
            next_needed: self.next_needed,
            total_blocks: self.total_blocks,
        }
    }
}

impl Assembler {
    /// What holds of every assembler between calls.
    pub closed spec fn wf(self) -> bool {
        &&& self@.valid()
        &&& self.block_size <= u32::MAX
        &&& forall|slice_no: u32| #[trigger]
            self.slices@.dom().contains(slice_no) ==> self.slices@[slice_no].wf()
        &&& self.codec matches Some(codec) ==> {
            &&& codec::decoder_shape(codec) == (
                self.blocks_per_slice as nat,
                self.codec_width as nat,
                self.block_size as nat,
            )
            &&& codec::decoder_shards(codec) == Map::<int, Seq<u8>>::empty()
        }
    }

    /// A well-formed assembler holds what an assembler can hold.
    pub proof fn is_valid(self)
        requires
            self.wf(),
        ensures
            self@.valid(),
            self@.block_size <= u32::MAX,
    {
    }

    /// An assembler that holds nothing. The decoder for the widest parity that
    /// the transfer allows is made at once, so that a transfer that no codec can
    /// serve is refused here.
    pub fn new(
        block_size: usize,
        blocks_per_slice: NonZeroU16,
        parity_per_slice: u8,
        max_live_slices: NonZeroU16,
    ) -> (result: Result<Assembler, CodecError>)
        requires
            block_size <= u32::MAX,
        ensures
            result is Ok <==> parity_per_slice == 0 || codec::supported(
                blocks_per_slice@ as nat,
                parity_per_slice as nat,
                block_size as nat,
            ),
            result matches Err(error) ==> error == codec::refusal(
                blocks_per_slice@ as usize,
                parity_per_slice as usize,
                block_size,
            ),
            result matches Ok(assembler) ==> {
                &&& assembler.wf()
                &&& assembler@ == (AssemblerView {
                    block_size: block_size as nat,
                    blocks_per_slice: blocks_per_slice@,
                    parity_per_slice,
                    max_live_slices: max_live_slices@ as u32,
                    slices: Map::empty(),
                    next_needed: 0,
                    total_blocks: None,
                })
            },
    {
        let codec = if parity_per_slice == 0 {
            None
        } else {
            match codec::make_decoder(
                blocks_per_slice.get() as usize,
                parity_per_slice as usize,
                block_size,
            ) {
                Ok(codec) => Some(codec),
                Err(error) => return Err(error),
            }
        };

        let assembler = Assembler {
            block_size,
            blocks_per_slice: blocks_per_slice.get(),
            parity_per_slice,
            max_live_slices: max_live_slices.get() as u32,
            codec,
            codec_width: parity_per_slice,
            slices: BTreeMap::new(),
            next_needed: 0,
            total_blocks: None,
        };
        assert(assembler@.slices =~= Map::<u32, SliceView>::empty());
        Ok(assembler)
    }

    /// Whether the window of slices and the slots of a slice can be counted.
    pub fn can_count(&self) -> (can: bool)
        ensures
            can == self@.countable(),
    {
        let slots: u32 = self.blocks_per_slice as u32 + self.parity_per_slice as u32;
        let end: u64 = self.next_needed as u64 + self.max_live_slices as u64;
        end <= 0xffff_ffff && slots <= 0xffff
    }

    /// How many slots a slice has.
    pub fn total_slots(&self) -> (slots: u16)
        requires
            self@.total_slots() <= u16::MAX,
        ensures
            slots == self@.total_slots(),
    {
        self.blocks_per_slice + self.parity_per_slice as u16
    }

    /// How many slices something is held of.
    pub fn live_slices(&self) -> (count: usize)
        ensures
            count == self@.slices.dom().len(),
    {
        assert(self@.slices.dom() =~= self.slices@.dom());
        self.slices.len()
    }

    /// The first slice that was not handed over.
    pub fn next_needed(&self) -> (slice_no: u32)
        ensures
            slice_no == self@.next_needed,
    {
        self.next_needed
    }

    /// How many slices the transfer has, once its size is known.
    pub fn total_slices(&self) -> (total: Option<u32>)
        requires
            self.wf(),
        ensures
            total == self@.total_slices(),
    {
        match self.total_blocks {
            Some(total) => Some(shards::slices_of(total, self.blocks_per_slice)),
            None => None,
        }
    }

    /// Whether every slice was handed over.
    pub fn is_finished(&self) -> (finished: bool)
        requires
            self.wf(),
        ensures
            finished == (self@.total_slices() matches Some(total) && self@.next_needed >= total),
    {
        match self.total_slices() {
            Some(total_slices) => self.next_needed >= total_slices,
            None => false,
        }
    }

    /// Takes note of the size of the transfer.
    pub fn on_done(&mut self, total_blocks: u64)
        requires
            old(self).wf(),
        ensures
            final(self).wf(),
            final(self)@ == (AssemblerView { total_blocks: Some(total_blocks), ..old(self)@ }),
    {
        self.total_blocks = Some(total_blocks);
    }

    /// Stores a shard, and says whether it was stored. Shards of slices that were
    /// handed over, shards too far ahead and shards that are held already are
    /// refused. Data blocks stand in the first slots, parity shards follow.
    pub fn insert(
        &mut self,
        slice_no: u32,
        slot: u16,
        parity_width: u8,
        payload: Bytes,
    ) -> (stored: bool)
        requires
            old(self).wf(),
            slice_no >= old(self)@.next_needed ==> old(self)@.countable(),
        ensures
            final(self).wf(),
            stored == (old(self)@.in_window(slice_no) && old(self)@.slice(slice_no).accepts(
                slot,
                parity_width,
            )),
            final(self)@ == old(self)@.inserted(
                slice_no,
                slot,
                parity_width,
                buffers::held(payload),
            ),
    {
        if slice_no < self.next_needed || slice_no >= self.next_needed + self.max_live_slices {
            return false;
        }
        let total_slots: u16 = self.total_slots();
        let mut slice = match self.slices.remove(&slice_no) {
            Some(slice) => slice,
            None => Slice::empty(total_slots),
        };
        assert(slice@ == old(self)@.slice(slice_no));
        let stored = slice.insert(slot, parity_width, payload);
        self.slices.insert(slice_no, slice);
        assert(self@.slices =~= old(self)@.inserted(
            slice_no,
            slot,
            parity_width,
            buffers::held(payload),
        ).slices);
        stored
    }

    /// A slice that has to be restored may only be handed over once its true size
    /// is settled. With enough parity a short last slice reaches the shard count
    /// of a full one, and restoring it as such would invent a block that the
    /// transfer never had. A slice that holds all of its data blocks is never in
    /// doubt.
    fn can_write(&self, slice_no: u32) -> (settled: bool)
        requires
            self.wf(),
        ensures
            settled == self@.can_write(slice_no),
    {
        if self.total_blocks.is_some() {
            return true;
        }
        if self.seen_above(slice_no) {
            return true;
        }
        match self.slices.get(&slice_no) {
            Some(slice) => {
                assert(self@.slices.dom().contains(slice_no));
                assert(self@.slices[slice_no] == slice@);
                slice.data_present(self.blocks_per_slice)
            },
            None => false,
        }
    }

    fn seen_above(&self, slice_no: u32) -> (seen: bool)
        ensures
            seen == exists|above: u32| #[trigger]
                self@.slices.dom().contains(above) && above > slice_no,
    {
        let mut found = false;
        for seen in iter: self.slices.keys()
            invariant
                iter.seq().unref().to_set() == self.slices@.dom(),
                found ==> exists|above: u32| #[trigger]
                    self@.slices.dom().contains(above) && above > slice_no,
                !found ==> forall|i: int|
                    0 <= i < iter.index() ==> #[trigger] iter.seq().unref()[i] <= slice_no,
        {
            assert(iter.seq().unref().to_set().contains(iter.seq().unref()[iter.index()]));
            if *seen > slice_no {
                assert(self@.slices.dom().contains(*seen));
                found = true;
            }
        }
        found
    }
}

impl Assembler {
    /// Whether as many shards of a slice are held as it has blocks: that is enough
    /// to restore its data.
    fn is_complete(&self, slice_no: u32) -> (complete: bool)
        requires
            self.wf(),
        ensures
            complete == self@.is_complete(slice_no),
    {
        match self.slices.get(&slice_no) {
            Some(slice) => {
                assert(self@.slices[slice_no] == slice@);
                slice.received >= self.target(slice_no)
            },
            None => false,
        }
    }

    /// How many blocks a slice holds.
    fn target(&self, slice_no: u32) -> (target: u16)
        ensures
            target == self@.target(slice_no),
            target <= self@.blocks_per_slice,
    {
        let total_blocks: u64 = match self.total_blocks {
            Some(total_blocks) => total_blocks,
            None => return self.blocks_per_slice,
        };
        assert(slice_no * self.blocks_per_slice <= 0xffff_ffff * 0xffff) by (nonlinear_arith)
            requires
                slice_no <= 0xffff_ffff,
                self.blocks_per_slice <= 0xffff,
        ;
        let below: u64 = slice_no as u64 * self.blocks_per_slice as u64;
        if total_blocks < below {
            0
        } else if total_blocks - below < self.blocks_per_slice as u64 {
            (total_blocks - below) as u16
        } else {
            self.blocks_per_slice
        }
    }

    /// The decoder for a parity. Parity shards depend on how many of them a slice
    /// was given, so a decoder only serves slices of one parity.
    fn decoder_for(&mut self, parity_width: u8) -> (decoder: ReedSolomonDecoder)
        requires
            old(self).wf(),
            codec::supported(
                old(self)@.blocks_per_slice as nat,
                parity_width as nat,
                old(self)@.block_size,
            ),
        ensures
            final(self).wf(),
            final(self)@ == old(self)@,
            final(self).codec is None,
            final(self).codec_width == parity_width,
            codec::decoder_shape(decoder) == (
                old(self)@.blocks_per_slice as nat,
                parity_width as nat,
                old(self)@.block_size,
            ),
            codec::decoder_shards(decoder) == Map::<int, Seq<u8>>::empty(),
    {
        let kept = self.codec.take();
        assert(self@.slices =~= old(self)@.slices);
        match kept {
            Some(decoder) if self.codec_width == parity_width => decoder,
            _ => {
                self.codec_width = parity_width;
                assert(self@.slices =~= old(self)@.slices);
                match codec::make_decoder(
                    self.blocks_per_slice as usize,
                    parity_width as usize,
                    self.block_size,
                ) {
                    Ok(decoder) => decoder,
                    Err(_) => vstd::pervasive::unreached(),
                }
            },
        }
    }

    /// Restores the data blocks of a slice from the shards of it that are held,
    /// whichever they are. Nothing that the assembler holds changes.
    pub fn recover(&mut self, slice: Slice, target: u16) -> (blocks: Vec<Bytes>)
        requires
            old(self).wf(),
            slice.wf(),
            target <= old(self)@.blocks_per_slice,
            slice@.slots.len() == old(self)@.total_slots(),
            slice@.recoverable(
                target as int,
                old(self)@.blocks_per_slice as int,
                old(self)@.block_size,
            ),
        ensures
            final(self).wf(),
            final(self)@ == old(self)@,
            buffers::contents(blocks@) == slice@.recovered(
                target as int,
                old(self)@.blocks_per_slice as int,
                old(self)@.block_size,
            ),
            forall|data: Seq<Seq<u8>>| #[trigger]
                slice@.belongs_to(
                    data,
                    target as int,
                    old(self)@.blocks_per_slice as int,
                    old(self)@.block_size,
                ) ==> buffers::contents(blocks@) == data.take(target as int),
            forall|data: Seq<Seq<u8>>| #[trigger]
                slice@.is_made_of(
                    data,
                    old(self)@.blocks_per_slice as nat,
                    old(self)@.block_size,
                ) && data.len() == target ==> buffers::contents(blocks@) == data,
            slice@.sized(old(self)@.block_size) ==> shards::all_sized(
                buffers::contents(blocks@),
                old(self)@.block_size,
            ),
            blocks@.len() == target,
    {
        let present = slice.data_present(target);
        let mut restored: Vec<(usize, Vec<u8>)> = Vec::new();
        if !present {
            restored = self.restore(&slice, target);
        }
        let ghost shown = slice@;
        let ghost k = self@.blocks_per_slice as int;
        let ghost size = self@.block_size;
        let ghost given = given_shards(shown.slots, target as int, k, size, shown.slots.len() as int);
        let mut slots = slice.slots;
        let mut blocks: Vec<Bytes> = Vec::new();
        let mut slot: usize = 0;
        let mut used: usize = 0;
        let count: usize = restored.len();
        while slot < target as usize
            invariant
                slot <= target <= slots@.len(),
                restored@.len() == count,
                target <= k,
                slots@.len() == shown.slots.len(),
                given == given_shards(shown.slots, target as int, k, size, shown.slots.len() as int),
                blocks@.len() == slot,
                used <= restored@.len(),
                present == shown.data_present(target as int),
                forall|i: int| slot <= i < slots@.len() ==> slot_contents(slots@)[i] == shown.slots[i],
                forall|i: int|
                    #![trigger blocks@[i]]
                    0 <= i < slot ==> buffers::held(blocks@[i]) == shown.recovered(
                        target as int,
                        k,
                        size,
                    )[i],
                !present ==> codec::lists_missing(restored@, k as nat, given),
                !present ==> forall|i: int|
                    #![trigger restored@[i]]
                    used <= i < restored@.len() ==> restored@[i].1@.len() == size
                        && restored@[i].1@ == codec::restored_shard(
                        k as nat,
                        shown.parity_width as nat,
                        given,
                        restored@[i].0 as int,
                    ),
                shown.sized(size) ==> forall|i: int|
                    0 <= i < slot ==> buffers::held(#[trigger] blocks@[i]).len() == size,
                !present ==> forall|i: int|
                    #![trigger restored@[i]]
                    0 <= i < restored@.len() ==> (i < used <==> restored@[i].0 < slot),
            decreases target - slot,
        {
            let mut held: Option<Bytes> = None;
            assert(slot_contents(slots@)[slot as int] == shown.slots[slot as int]);
            std::mem::swap(&mut held, &mut slots[slot]);
            match held {
                Some(payload) => {
                    proof {
                        if !present && used < restored@.len() {
                            assert(given.dom().contains(slot as int));
                            assert(restored@[used as int].0 != slot);
                        }
                    }
                    blocks.push(payload);
                },
                None => {
                    assert(!shown.data_present(target as int));
                    proof {
                        assert(!given.dom().contains(slot as int));
                        let at = choose|i: int|
                            0 <= i < restored@.len() && (#[trigger] restored@[i]).0 == slot;
                        assert(restored@[at].0 == slot);
                        assert(at >= used);
                        if at > used {
                            assert(restored@[used as int].0 < restored@[at].0);
                        }
                    }
                    let ghost before = restored@;
                    let mut shard: Vec<u8> = Vec::new();
                    std::mem::swap(&mut shard, &mut restored[used].1);
                    blocks.push(buffers::buffer_of(shard));
                    assert(forall|i: int|
                        0 <= i < restored@.len() ==> (#[trigger] restored@[i]).0 == before[i].0);
                    assert forall|index: int| 0 <= index < k && !#[trigger] given.dom().contains(
                        index,
                    ) implies exists|i: int|
                        0 <= i < restored@.len() && (#[trigger] restored@[i]).0 == index by {
                        let i = choose|i: int|
                            0 <= i < before.len() && (#[trigger] before[i]).0 == index;
                        assert(restored@[i].0 == index);
                    }
                    used += 1;
                },
            }
            slot += 1;
        }
        proof {
            let recovered = shown.recovered(target as int, k, size);
            assert(buffers::contents(blocks@) =~= recovered);
            assert forall|data: Seq<Seq<u8>>| #[trigger]
                shown.belongs_to(data, target as int, k, size) implies recovered =~= data.take(
                target as int,
            ) by {
                assert forall|i: int| 0 <= i < target implies recovered[i] == data[i] by {
                    if shown.slots[i] is Some {
                        assert(given.dom().contains(i));
                    } else {
                        assert(!given.dom().contains(i));
                    }
                }
            }
            assert forall|data: Seq<Seq<u8>>| #[trigger]
                shown.is_made_of(data, k as nat, size) && data.len() == target implies recovered
                == data by {
                lemma_given_is_code_word(shown, data, k as nat, size);
                let padded = shards::padded_slice(data, k as nat, size);
                assert(shown.belongs_to(padded, target as int, k, size));
                assert(recovered =~= padded.take(target as int));
            }
        }
        blocks
    }

    /// The data blocks that a slice lacks, restored from the shards that it holds.
    fn restore(&mut self, slice: &Slice, target: u16) -> (restored: Vec<(usize, Vec<u8>)>)
        requires
            old(self).wf(),
            target <= old(self)@.blocks_per_slice,
            slice@.slots.len() == old(self)@.total_slots(),
            slice@.slots.len() <= u16::MAX,
            slice@.recoverable(
                target as int,
                old(self)@.blocks_per_slice as int,
                old(self)@.block_size,
            ),
            !slice@.data_present(target as int),
        ensures
            final(self).wf(),
            final(self)@ == old(self)@,
            ({
                let k = old(self)@.blocks_per_slice as int;
                let given = given_shards(
                    slice@.slots,
                    target as int,
                    k,
                    old(self)@.block_size,
                    slice@.slots.len() as int,
                );
                &&& codec::lists_missing(restored@, k as nat, given)
                &&& forall|i: int|
                    #![trigger restored@[i]]
                    0 <= i < restored@.len() ==> restored@[i].1@.len() == old(self)@.block_size
                        && restored@[i].1@ == codec::restored_shard(
                        k as nat,
                        slice@.parity_width as nat,
                        given,
                        restored@[i].0 as int,
                    )
                &&& forall|data: Seq<Seq<u8>>, index: int|
                    slice@.belongs_to(data, target as int, k, old(self)@.block_size) && 0 <= index < k
                        && !given.dom().contains(index) ==> #[trigger] codec::restored_shard(
                        k as nat,
                        slice@.parity_width as nat,
                        given,
                        index,
                    ) == #[trigger] data[index]
            }),
    {
        let blocks_per_slice: usize = self.blocks_per_slice as usize;
        let block_size: usize = self.block_size;
        let absent: Vec<u8> = vec![0u8; block_size];
        let mut codec = self.decoder_for(slice.parity_width);
        let ghost k = blocks_per_slice as int;
        let ghost size = block_size as nat;
        let mut slot: usize = 0;
        assert(given_shards(slice@.slots, target as int, k, size, 0) =~= Map::<int, Seq<u8>>::empty());
        while slot < slice.slots.len()
            invariant
                slot <= slice.slots@.len() <= u16::MAX,
                target <= blocks_per_slice <= slice.slots@.len(),
                k == blocks_per_slice,
                size == block_size,
                absent@ == Seq::new(size, |i: int| 0u8),
                codec::decoder_shape(codec) == (k as nat, slice@.parity_width as nat, size),
                codec::decoder_shards(codec) == given_shards(
                    slice@.slots,
                    target as int,
                    k,
                    size,
                    slot as int,
                ),
                forall|i: int|
                    0 <= i < slice@.slots.len() && (#[trigger] slice@.slots[i]) is Some ==> {
                        &&& i < k + slice@.parity_width
                        &&& slice@.slots[i]->0.len() == size
                    },
            decreases slice.slots@.len() - slot,
        {
            let ghost shards = codec::decoder_shards(codec);
            let ghost next = given_shards(slice@.slots, target as int, k, size, slot + 1);
            match &slice.slots[slot] {
                Some(payload) => {
                    assert(slice@.slots[slot as int] == Some(buffers::held(*payload)));
                    let shard = buffers::buffer_slice(payload);
                    if slot < blocks_per_slice {
                        let added = codec::decoder_add_original(&mut codec, slot, shard);
                    } else {
                        let added = codec::decoder_add_recovery(
                            &mut codec,
                            slot - blocks_per_slice,
                            shard,
                        );
                    }
                    assert(next =~= shards.insert(slot as int, buffers::held(*payload)));
                },
                None => {
                    assert(slice@.slots[slot as int] is None);
                    if target as usize <= slot && slot < blocks_per_slice {
                        let added = codec::decoder_add_original(
                            &mut codec,
                            slot,
                            absent.as_slice(),
                        );
                        assert(next =~= shards.insert(slot as int, absent@));
                    } else {
                        assert(next =~= shards);
                    }
                },
            }
            slot += 1;
        }
        let restored = match codec::decoder_decode(&mut codec) {
            Some(restored) => restored,
            None => vstd::pervasive::unreached(),
        };
        self.codec = Some(codec);
        assert(self@.slices =~= old(self)@.slices);
        proof {
            let upto = slice@.slots.len() as int;
            let given = given_shards(slice@.slots, target as int, k, size, upto);
            assert forall|data: Seq<Seq<u8>>, index: int|
                slice@.belongs_to(data, target as int, k, size) && 0 <= index < k
                    && !given.dom().contains(index) implies #[trigger] codec::restored_shard(
                k as nat,
                slice@.parity_width as nat,
                given,
                index,
            ) == #[trigger] data[index] by {
                let i = choose|i: int|
                    0 <= i < restored@.len() && (#[trigger] restored@[i]).0 == index;
                assert(restored@[i].0 == index);
                assert(codec::of_code_word(given, data, slice@.parity_width as nat));
            }
        }
        restored
    }

    /// Hands over every block that can now be written, in order, and moves on past
    /// the slices it took them from, restoring the missing data of any slice that
    /// holds enough parity.
    pub fn take_ready(&mut self) -> (ready: Vec<Bytes>)
        requires
            old(self).wf(),
            old(self)@.takeable(),
        ensures
            final(self).wf(),
            final(self)@ == old(self)@.after_taking(),
            buffers::contents(ready@) == old(self)@.taken(),
            old(self)@.shards_sized() ==> final(self)@.shards_sized() && shards::all_sized(
                buffers::contents(ready@),
                old(self)@.block_size,
            ),
            forall|source: Seq<Seq<u8>>| #[trigger]
                genuine(old(self)@, source) ==> {
                    &&& genuine(final(self)@, source)
                    &&& buffers::contents(ready@) == source.subrange(
                        shards::slice_start(
                            source,
                            old(self)@.blocks_per_slice as nat,
                            old(self)@.next_needed as int,
                        ),
                        shards::slice_start(
                            source,
                            old(self)@.blocks_per_slice as nat,
                            final(self)@.next_needed as int,
                        ),
                    )
                },
    {
        let mut ready: Vec<Bytes> = Vec::new();
        assert(buffers::contents(ready@) + self@.taken() =~= self@.taken());
        proof {
            assert forall|source: Seq<Seq<u8>>| #[trigger] genuine(self@, source) implies handed_over(
                self@,
                source,
                self@.next_needed as int,
                buffers::contents(ready@),
            ) by {
                let k = self@.blocks_per_slice as nat;
                let start = shards::slice_start(source, k, self@.next_needed as int);
                shards::slice_data_size(source, k, self@.next_needed as int);
                assert(buffers::contents(ready@) =~= source.subrange(start, start));
            }
        }
        while self.can_write(self.next_needed) && self.is_complete(self.next_needed)
            invariant
                self.wf(),
                self@.takeable(),
                old(self)@.after_taking() == self@.after_taking(),
                old(self)@.taken() == buffers::contents(ready@) + self@.taken(),
                self@.blocks_per_slice == old(self)@.blocks_per_slice,
                self@.block_size == old(self)@.block_size,
                old(self)@.shards_sized() ==> self@.shards_sized() && shards::all_sized(
                    buffers::contents(ready@),
                    self@.block_size,
                ),
                old(self)@.next_needed <= self@.next_needed,
                forall|source: Seq<Seq<u8>>| #[trigger]
                    genuine(old(self)@, source) ==> genuine(self@, source) && handed_over(
                        self@,
                        source,
                        old(self)@.next_needed as int,
                        buffers::contents(ready@),
                    ),
            decreases self@.slices.dom().len(),
        {
            let ghost before = self@;
            let target: u16 = self.target(self.next_needed);
            let slice = match self.slices.remove(&self.next_needed) {
                Some(slice) => slice,
                None => vstd::pervasive::unreached(),
            };
            assert(self@.slices =~= before.slices.remove(before.next_needed));
            let ghost sofar = ready@;
            let mut blocks = self.recover(slice, target);
            let ghost more = blocks@;
            ready.append(&mut blocks);
            self.next_needed += 1;
            assert(self@.slices =~= before.advanced().slices);
            assert(self@ == before.advanced());
            assert(buffers::contents(ready@) =~= buffers::contents(sofar) + buffers::contents(more));
            assert((buffers::contents(sofar) + buffers::contents(more)) + self@.taken()
                =~= buffers::contents(sofar) + (buffers::contents(more) + self@.taken()));
            proof {
                if old(self)@.shards_sized() {
                    assert(before.slices.dom().contains(before.next_needed));
                    assert(slice@.sized(before.block_size));
                    assert forall|s: u32| #[trigger] self@.slices.dom().contains(s) implies {
                        &&& before.slices.dom().contains(s)
                        &&& self@.slices[s] == before.slices[s]
                    } by {}
                    let all = buffers::contents(ready@);
                    assert forall|i: int| 0 <= i < all.len() implies (#[trigger] all[i]).len()
                        == before.block_size by {
                        if i < sofar.len() {
                            assert(all[i] == buffers::contents(sofar)[i]);
                        } else {
                            assert(all[i] == buffers::contents(more)[i - sofar.len()]);
                        }
                    }
                }
                assert forall|source: Seq<Seq<u8>>| #[trigger]
                    genuine(old(self)@, source) implies genuine(self@, source) && handed_over(
                    self@,
                    source,
                    old(self)@.next_needed as int,
                    buffers::contents(ready@),
                ) by {
                    let k = before.blocks_per_slice as nat;
                    let no = before.next_needed as int;
                    lemma_advanced_genuine(before, source);
                    lemma_genuine_recoverable(before, source);
                    let part = shards::slice_data(source, k, no);
                    let data = shards::padded_slice(part, k, before.block_size);
                    assert(slice@.belongs_to(data, target as int, k as int, before.block_size));
                    assert(buffers::contents(more) == part);
                    shards::slice_data_size(source, k, no);
                    lemma_slice_start_ordered(source, k, old(self)@.next_needed as int, no);
                    assert(buffers::contents(ready@) =~= source.subrange(
                        shards::slice_start(source, k, old(self)@.next_needed as int),
                        shards::slice_start(source, k, no + 1),
                    ));
                }
            }
        }
        assert(buffers::contents(ready@) + self@.taken() =~= buffers::contents(ready@));
        ready
    }
}

/// What is asked for of each slice of a list.
pub open spec fn gap_contents(gaps: Seq<(u32, Vec<u16>)>) -> Seq<(u32, Seq<u16>)> {
    Seq::new(gaps.len(), |i: int| (gaps[i].0, gaps[i].1@))
}

impl Assembler {
    /// The slices below the end of the transfer, or below `emit_floor` while the
    /// end is not known, that are still short of shards, each with the shards
    /// that it needs.
    pub fn gaps(&self, emit_floor: u32) -> (gaps: Vec<(u32, Vec<u16>)>)
        requires
            self.wf(),
        ensures
            gap_contents(gaps@) == self@.gaps(emit_floor),
    {
        let floor: u32 = match self.total_slices() {
            Some(total_slices) => total_slices,
            None => emit_floor,
        };
        let mut gaps: Vec<(u32, Vec<u16>)> = Vec::new();
        let mut slice_no: u32 = self.next_needed;
        assert(gap_contents(gaps@) =~= self@.gaps_below(slice_no as int));
        while slice_no < floor
            invariant
                self.wf(),
                self.next_needed <= slice_no,
                slice_no <= floor || slice_no == self.next_needed,
                gap_contents(gaps@) == self@.gaps_below(slice_no as int),
            decreases floor - slice_no,
        {
            if !self.is_complete(slice_no) {
                let target: u16 = self.target(slice_no);
                let missing: Vec<u16> = match self.slices.get(&slice_no) {
                    Some(slice) => {
                        assert(self@.slices[slice_no] == slice@);
                        slice.wanted(target)
                    },
                    None => all_slots(target),
                };
                let ghost before = gaps@;
                gaps.push((slice_no, missing));
                assert(gap_contents(gaps@) =~= gap_contents(before).push((slice_no, missing@)));
            }
            slice_no += 1;
        }
        assert(self@.gaps_below(slice_no as int) =~= self@.gaps_below(floor as int));
        gaps
    }

    /// Whether the blocks of every slice that can be handed over can be had. They
    /// cannot where a slice holds shards that do not belong together.
    pub fn is_takeable(&self) -> (takeable: bool)
        requires
            self.wf(),
        ensures
            takeable == self@.takeable(),
    {
        let mut slice_no: u32 = self.next_needed;
        let ghost mut ahead = self@;
        while self.can_write(slice_no) && self.is_complete(slice_no)
            invariant
                self.wf(),
                self.next_needed <= slice_no,
                slice_no == ahead.next_needed,
                ahead.slices.dom().finite(),
                ahead.block_size == self@.block_size,
                ahead.blocks_per_slice == self@.blocks_per_slice,
                ahead.total_blocks == self@.total_blocks,
                forall|s: u32| #[trigger]
                    ahead.slices.dom().contains(s) <==> self@.slices.dom().contains(s) && s >= slice_no,
                forall|s: u32| #[trigger]
                    ahead.slices.dom().contains(s) ==> ahead.slices[s] == self@.slices[s],
                self@.takeable() == ahead.takeable(),
            decreases u32::MAX - slice_no,
        {
            assert(ahead.slices.dom().contains(slice_no));
            assert(ahead.can_write(slice_no)) by {
                if self@.total_blocks is None && exists|seen: u32| #[trigger]
                    self@.slices.dom().contains(seen) && seen > slice_no {
                    let seen = choose|seen: u32| #[trigger]
                        self@.slices.dom().contains(seen) && seen > slice_no;
                    assert(ahead.slices.dom().contains(seen));
                }
            }
            assert(ahead.ready());
            let target: u16 = self.target(slice_no);
            match self.slices.get(&slice_no) {
                Some(slice) => {
                    assert(self@.slices[slice_no] == slice@);
                    if !self.is_recoverable(slice, target) {
                        return false;
                    }
                },
                None => {},
            }
            proof {
                ahead = ahead.advanced();
            }
            slice_no += 1;
        }
        proof {
            if ahead.ready() {
                assert(self@.slices.dom().contains(slice_no));
                if ahead.total_blocks is None && exists|seen: u32| #[trigger]
                    ahead.slices.dom().contains(seen) && seen > slice_no {
                    let seen = choose|seen: u32| #[trigger]
                        ahead.slices.dom().contains(seen) && seen > slice_no;
                    assert(self@.slices.dom().contains(seen));
                }
                assert(self@.can_write(slice_no));
                assert(false);
            }
        }
        true
    }

    /// Whether the data blocks of a slice can be restored from the shards of it that
    /// are held.
    pub fn is_recoverable(&self, slice: &Slice, target: u16) -> (recoverable: bool)
        requires
            self.wf(),
            target <= self@.blocks_per_slice,
            slice@.slots.len() == self@.total_slots(),
        ensures
            recoverable == slice@.recoverable(
                target as int,
                self@.blocks_per_slice as int,
                self@.block_size,
            ),
    {
        if slice.data_present(target) {
            return true;
        }
        let blocks_per_slice: usize = self.blocks_per_slice as usize;
        let block_size: usize = self.block_size;
        if block_size == 0 || block_size % 2 != 0 || !codec::counts_supported(
            blocks_per_slice,
            slice.parity_width as usize,
        ) {
            return false;
        }
        let ghost k = blocks_per_slice as int;
        let ghost size = block_size as nat;
        let ghost upto = slice@.slots.len() as int;
        let limit: usize = blocks_per_slice + slice.parity_width as usize;
        let mut given: usize = 0;
        let mut slot: usize = 0;
        assert(given_shards(slice@.slots, target as int, k, size, 0).dom() =~= Set::<int>::empty());
        while slot < slice.slots.len()
            invariant
                slot <= slice.slots@.len(),
                k == blocks_per_slice == self.blocks_per_slice,
                size == block_size == self.block_size,
                limit == k + slice@.parity_width,
                !slice@.data_present(target as int),
                given <= slot,
                given_shards(slice@.slots, target as int, k, size, slot as int).dom().finite(),
                given == given_shards(
                    slice@.slots,
                    target as int,
                    k,
                    size,
                    slot as int,
                ).dom().len(),
                forall|i: int|
                    0 <= i < slot && (#[trigger] slice@.slots[i]) is Some ==> {
                        &&& i < k + slice@.parity_width
                        &&& slice@.slots[i]->0.len() == size
                    },
            decreases slice.slots@.len() - slot,
        {
            let ghost before = given_shards(
                slice@.slots,
                target as int,
                k,
                size,
                slot as int,
            ).dom();
            let ghost after = given_shards(slice@.slots, target as int, k, size, slot + 1).dom();
            match &slice.slots[slot] {
                Some(payload) => {
                    assert(slice@.slots[slot as int] == Some(buffers::held(*payload)));
                    if slot >= limit || buffers::buffer_len(payload) != block_size {
                        return false;
                    }
                    assert(after =~= before.insert(slot as int));
                    given += 1;
                },
                None => {
                    assert(slice@.slots[slot as int] is None);
                    if target as usize <= slot && slot < blocks_per_slice {
                        assert(after =~= before.insert(slot as int));
                        given += 1;
                    } else {
                        assert(after =~= before);
                    }
                },
            }
            slot += 1;
        }
        given >= blocks_per_slice
    }
}

fn all_slots(target: u16) -> (slots: Vec<u16>)
    ensures
        slots@ == Seq::new(target as nat, |slot: int| slot as u16),
{
    let mut slots: Vec<u16> = Vec::new();
    let mut slot: u16 = 0;
    while slot < target
        invariant
            slot <= target,
            slots@ == Seq::new(slot as nat, |slot: int| slot as u16),
        decreases target - slot,
    {
        slots.push(slot);
        slot += 1;
        assert(slots@ =~= Seq::new(slot as nat, |slot: int| slot as u16));
    }
    slots
}

/// Whether `blocks` are those of `source` from the slice `from` on, up to the
/// first slice that was not handed over.
spec fn handed_over(
    assembler: AssemblerView,
    source: Seq<Seq<u8>>,
    from: int,
    blocks: Seq<Seq<u8>>,
) -> bool {
    let k = assembler.blocks_per_slice as nat;
    blocks == source.subrange(
        shards::slice_start(source, k, from),
        shards::slice_start(source, k, assembler.next_needed as int),
    )
}

proof fn lemma_slice_start_ordered(
    source: Seq<Seq<u8>>,
    blocks_per_slice: nat,
    from: int,
    upto: int,
)
    requires
        0 <= from <= upto,
    ensures
        0 <= shards::slice_start(source, blocks_per_slice, from) <= shards::slice_start(
            source,
            blocks_per_slice,
            upto,
        ) <= source.len(),
{
    assert(0 <= from * blocks_per_slice <= upto * blocks_per_slice) by (nonlinear_arith)
        requires
            0 <= from <= upto,
    ;
}

} // verus!
