//! What an assembler does, told by what it holds before and after.

use crate::receiver::assembler;
use crate::receiver::assembler::{AssemblerView, SliceView};
use crate::shards;
use vstd::prelude::*;

verus! {

/// The slots of a slice that hold a shard.
pub open spec fn held_slots(slice: SliceView) -> Set<int> {
    Set::new(|slot: int| 0 <= slot < slice.slots.len() && slice.slots[slot] is Some)
}

proof fn lemma_held_slots(slots: Seq<Option<Seq<u8>>>, upto: int)
    requires
        0 <= upto <= slots.len(),
    ensures
        Set::new(|slot: int| 0 <= slot < upto && slots[slot] is Some).finite(),
        Set::new(|slot: int| 0 <= slot < upto && slots[slot] is Some).len()
            == assembler::held_count(slots, upto),
    decreases upto,
{
    let now = Set::new(|slot: int| 0 <= slot < upto && slots[slot] is Some);
    if upto == 0 {
        assert(now =~= Set::<int>::empty());
    } else {
        lemma_held_slots(slots, upto - 1);
        let before = Set::new(|slot: int| 0 <= slot < upto - 1 && slots[slot] is Some);
        if slots[upto - 1] is Some {
            assert(now =~= before.insert(upto - 1));
        } else {
            assert(now =~= before);
        }
    }
}

/// What is held of a slice is counted: as many shards as there are slots that hold one.
pub proof fn held_shards_are_counted(slice: SliceView)
    ensures
        held_slots(slice).finite(),
        held_slots(slice).len() == assembler::held_count(slice.slots, slice.slots.len() as int),
{
    let slots = slice.slots;
    lemma_held_slots(slots, slots.len() as int);
    assert(held_slots(slice) =~= Set::new(
        |slot: int| 0 <= slot < slots.len() && slots[slot] is Some,
    ));
}

/// The numbers of the blocks of a slice, as far as the size of the transfer is known.
pub open spec fn is_block_of(assembler: AssemblerView, slice_no: int, block: int) -> bool {
    &&& slice_no * assembler.blocks_per_slice <= block < (slice_no + 1)
        * assembler.blocks_per_slice
    &&& assembler.total_blocks matches Some(total) ==> block < total
}

/// A slice has as many blocks as have their number in it and below the end of the
/// transfer.
pub proof fn a_slice_has_the_blocks_with_its_numbers(
    assembler: AssemblerView,
    slice_no: u32,
    block: int,
)
    requires
        assembler.valid(),
    ensures
        0 <= assembler.target(slice_no) <= assembler.blocks_per_slice,
        is_block_of(assembler, slice_no as int, block) <==> slice_no * assembler.blocks_per_slice
            <= block < slice_no * assembler.blocks_per_slice + assembler.target(slice_no),
{
    let k = assembler.blocks_per_slice as int;
    assert((slice_no + 1) * k == slice_no * k + k) by (nonlinear_arith);
}

/// Whether a slice can be put together and is not in doubt: it holds as many shards as
/// it has blocks; and the end of the transfer is known, or something of a later slice
/// arrived, or every one of its data blocks did.
pub open spec fn is_due(assembler: AssemblerView, slice_no: u32) -> bool {
    let k = assembler.blocks_per_slice as int;
    &&& assembler.slices.dom().contains(slice_no)
    &&& match assembler.total_blocks {
        None => {
            &&& held_slots(assembler.slices[slice_no]).len() >= k
            &&& (exists|later: u32| #[trigger]
                assembler.slices.dom().contains(later) && later > slice_no) || (forall|slot: int|
                0 <= slot < k ==> (#[trigger] assembler.slices[slice_no].slots[slot]) is Some)
        },
        Some(total) => held_slots(assembler.slices[slice_no]).len() >= k || slice_no * k
            + held_slots(assembler.slices[slice_no]).len() >= total,
    }
}

proof fn lemma_due_is_ready(assembler: AssemblerView)
    requires
        assembler.valid(),
    ensures
        assembler.ready() <==> is_due(assembler, assembler.next_needed),
{
    if assembler.slices.dom().contains(assembler.next_needed) {
        held_shards_are_counted(assembler.slices[assembler.next_needed]);
    }
}

/// Taking what is ready goes exactly as far as it can: past every slice, one after
/// another from the first that is needed, that can be put together and is not in doubt,
/// up to the first that cannot or is. What is held of that one and of the later ones
/// stays.
pub proof fn taking_goes_as_far_as_it_can(assembler: AssemblerView)
    requires
        assembler.valid(),
    ensures
        ({
            let after = assembler.after_taking();
            &&& assembler.next_needed <= after.next_needed
            &&& forall|slice_no: u32|
                assembler.next_needed <= slice_no < after.next_needed ==> #[trigger] is_due(
                    assembler,
                    slice_no,
                )
            &&& !is_due(assembler, after.next_needed)
            &&& after.total_blocks == assembler.total_blocks
            &&& forall|slice_no: u32| #[trigger]
                after.slices.dom().contains(slice_no) <==> assembler.slices.dom().contains(slice_no)
                    && slice_no >= after.next_needed
            &&& forall|slice_no: u32| #[trigger]
                after.slices.dom().contains(slice_no) ==> after.slices[slice_no]
                    == assembler.slices[slice_no]
        }),
    decreases assembler.slices.dom().len(),
{
    lemma_due_is_ready(assembler);
    if assembler.ready() {
        let next = assembler.advanced();
        let no = assembler.next_needed;
        assert(assembler.slices.dom().contains(no));
        assert forall|slice_no: u32| #[trigger] next.slices.dom().contains(slice_no) implies {
            &&& assembler.slices.dom().contains(slice_no)
            &&& slice_no != no
        } by {}
        assert(next.valid());
        taking_goes_as_far_as_it_can(next);
        let after = assembler.after_taking();
        assert forall|slice_no: u32| slice_no > no implies #[trigger] is_due(next, slice_no)
            == is_due(assembler, slice_no) by {
            assert(next.slices.dom().contains(slice_no) <==> assembler.slices.dom().contains(
                slice_no,
            ));
            if exists|later: u32| #[trigger]
                assembler.slices.dom().contains(later) && later > slice_no {
                let later = choose|later: u32| #[trigger]
                    assembler.slices.dom().contains(later) && later > slice_no;
                assert(next.slices.dom().contains(later));
            }
        }
        assert forall|slice_no: u32| no <= slice_no < after.next_needed implies #[trigger] is_due(
            assembler,
            slice_no,
        ) by {
            if slice_no > no {
                assert(is_due(next, slice_no));
            }
        }
        assert(!is_due(next, after.next_needed));
    }
}

/// A slice of which as many shards are held as a full slice has blocks is handed over,
/// and with it every slice before it, as soon as something of a later slice arrived:
/// no loss that parity makes good holds a transfer up until its end.
pub proof fn a_repaired_slice_does_not_wait_for_the_end(assembler: AssemblerView, later: u32)
    requires
        assembler.valid(),
        assembler.slices.dom().contains(assembler.next_needed),
        held_slots(assembler.slices[assembler.next_needed]).len() >= assembler.blocks_per_slice,
        assembler.slices.dom().contains(later),
        later > assembler.next_needed,
    ensures
        assembler.after_taking().next_needed > assembler.next_needed,
{
    taking_goes_as_far_as_it_can(assembler);
    assert(is_due(assembler, assembler.next_needed));
}

/// Once the end is known, a slice of which as many shards are held as it has blocks is
/// handed over.
pub proof fn with_the_end_known_nothing_complete_waits(assembler: AssemblerView, total: u64)
    requires
        assembler.valid(),
        assembler.total_blocks == Some(total),
        assembler.slices.dom().contains(assembler.next_needed),
        assembler.next_needed * assembler.blocks_per_slice + held_slots(
            assembler.slices[assembler.next_needed],
        ).len() >= total,
    ensures
        assembler.after_taking().next_needed > assembler.next_needed,
{
    taking_goes_as_far_as_it_can(assembler);
    assert(is_due(assembler, assembler.next_needed));
}

/// Nothing that may be a short last slice is handed over by guess: without the end, a
/// slice with a data block missing and nothing seen behind it stays.
pub proof fn a_slice_in_doubt_waits(assembler: AssemblerView, missing: int)
    requires
        assembler.valid(),
        assembler.total_blocks is None,
        forall|seen: u32| #[trigger]
            assembler.slices.dom().contains(seen) ==> seen <= assembler.next_needed,
        0 <= missing < assembler.blocks_per_slice,
        assembler.slices.dom().contains(assembler.next_needed)
            ==> assembler.slices[assembler.next_needed].slots[missing] is None,
    ensures
        assembler.after_taking() == assembler,
        assembler.taken() == Seq::<Seq<u8>>::empty(),
{
    taking_goes_as_far_as_it_can(assembler);
    lemma_due_is_ready(assembler);
}

/// Taking hands over as many blocks as have their number in the slices that it goes
/// past.
pub proof fn taking_hands_over_every_block_it_passes(assembler: AssemblerView)
    requires
        assembler.valid(),
    ensures
        assembler.total_blocks is None ==> assembler.taken().len() == (
        assembler.after_taking().next_needed - assembler.next_needed)
            * assembler.blocks_per_slice,
        assembler.total_blocks matches Some(total) ==> {
            let k = assembler.blocks_per_slice;
            let from = assembler.next_needed * k;
            let upto = assembler.after_taking().next_needed * k;
            &&& upto <= total ==> assembler.taken().len() == upto - from
            &&& from <= total < upto ==> assembler.taken().len() == total - from
            &&& total < from ==> assembler.taken().len() == 0
        },
    decreases assembler.slices.dom().len(),
{
    let k = assembler.blocks_per_slice as int;
    let no = assembler.next_needed as int;
    assembler::taken_is_bounded(assembler);
    if assembler.ready() {
        let next = assembler.advanced();
        assert(assembler.slices.dom().contains(assembler.next_needed));
        assert forall|slice_no: u32| #[trigger] next.slices.dom().contains(slice_no) implies {
            &&& assembler.slices.dom().contains(slice_no)
            &&& slice_no != assembler.next_needed
        } by {}
        assert(next.valid());
        taking_hands_over_every_block_it_passes(next);
        assembler::taken_is_bounded(next);
        let end = assembler.after_taking().next_needed as int;
        assert((no + 1) * k == no * k + k) by (nonlinear_arith);
        assert((end - no) * k == (end - (no + 1)) * k + k) by (nonlinear_arith);
        assert((no + 1) * k <= end * k) by (nonlinear_arith)
            requires
                no + 1 <= end,
                0 < k,
        ;
    } else {
        assert((no - no) * k == 0) by (nonlinear_arith);
    }
}

/// Offering a shard touches no other slot and no other slice. It is stored exactly
/// where its slice is not handed over and not too far ahead, its slot is there and
/// free, and it names no other parity than what is held of its slice names.
pub proof fn a_shard_goes_to_its_slot(
    assembler: AssemblerView,
    slice_no: u32,
    slot: u16,
    parity_width: u8,
    payload: Seq<u8>,
)
    requires
        assembler.valid(),
        assembler.countable(),
    ensures
        ({
            let after = assembler.inserted(slice_no, slot, parity_width, payload);
            let slots = assembler.blocks_per_slice + assembler.parity_per_slice;
            let near = assembler.next_needed <= slice_no && slice_no - assembler.next_needed
                < assembler.max_live_slices;
            let known = assembler.slices.dom().contains(slice_no);
            let free = slot < slots && (known ==> {
                &&& assembler.slices[slice_no].slots[slot as int] is None
                &&& assembler.slices[slice_no].parity_width == 0 || parity_width == 0
                    || assembler.slices[slice_no].parity_width == parity_width
            });
            &&& after == (AssemblerView { slices: after.slices, ..assembler })
            &&& forall|other: u32|
                other != slice_no ==> {
                    &&& #[trigger] after.slices.dom().contains(other)
                        <==> assembler.slices.dom().contains(other)
                    &&& after.slices[other] == assembler.slices[other]
                }
            &&& !near ==> after == assembler
            &&& near ==> after.slices.dom().contains(slice_no) && after.slices[slice_no].slots.len()
                == slots
            &&& near && free ==> after.slices[slice_no].slots[slot as int] == Some(payload)
            &&& near && known && !free ==> after.slices[slice_no] == assembler.slices[slice_no]
            &&& near ==> forall|at: int|
                0 <= at < slots && !(free && at == slot) ==> #[trigger] after.slices[slice_no].slots[at]
                    == if known {
                    assembler.slices[slice_no].slots[at]
                } else {
                    None
                }
            &&& near && free ==> after.slices[slice_no].parity_width == if parity_width > 0 {
                parity_width
            } else if known {
                assembler.slices[slice_no].parity_width
            } else {
                0
            }
        }),
{
    let after = assembler.inserted(slice_no, slot, parity_width, payload);
    assert(after.slices.dom().contains(slice_no) || !assembler.in_window(slice_no));
    if !assembler.in_window(slice_no) {
        assert(after == assembler);
    }
}

/// Whether what is asked for of a slice is right: as many of its blocks as it is short
/// of shards, none that is held, and the lowest of those that are missing.
pub open spec fn asks_for_the_shortfall(
    held: Set<int>,
    size: int,
    asked: Seq<u16>,
) -> bool {
    &&& asked.len() == size - held.len()
    &&& forall|i: int|
        0 <= i < asked.len() ==> 0 <= (#[trigger] asked[i]) < size && !held.contains(
            asked[i] as int,
        )
    &&& forall|i: int, j: int| 0 <= i < j < asked.len() ==> asked[i] < asked[j]
    &&& forall|i: int, slot: int|
        #![trigger asked[i], held.contains(slot)]
        0 <= i < asked.len() && 0 <= slot < asked[i] && !held.contains(slot) ==> asked.contains(
            slot as u16,
        )
}

/// How many blocks a slice has, as far as the size of the transfer is known.
pub open spec fn blocks_in(assembler: AssemblerView, slice_no: u32) -> int {
    let k = assembler.blocks_per_slice as int;
    match assembler.total_blocks {
        None => k,
        Some(total) => vstd::math::min(k, vstd::math::clip(total - slice_no * k) as int),
    }
}

/// The slots that are held of a slice, none where nothing of it arrived.
pub open spec fn held_of(assembler: AssemblerView, slice_no: u32) -> Set<int> {
    if assembler.slices.dom().contains(slice_no) {
        held_slots(assembler.slices[slice_no])
    } else {
        Set::empty()
    }
}

/// Whether a slice lies below what repairs are asked for: the end of the transfer, or,
/// while that is not known, the floor below which everything was sent.
pub open spec fn is_sent(assembler: AssemblerView, emit_floor: u32, slice_no: u32) -> bool {
    match assembler.total_blocks {
        Some(total) => slice_no * assembler.blocks_per_slice < total,
        None => slice_no < emit_floor,
    }
}

proof fn lemma_missing_is_all(slots: Seq<Option<Seq<u8>>>, upto: int, slot: int)
    requires
        0 <= slot < upto <= slots.len() <= u16::MAX,
        slots[slot] is None,
    ensures
        assembler::missing_slots(slots, upto).contains(slot as u16),
    decreases upto,
{
    let now = assembler::missing_slots(slots, upto);
    if slot == upto - 1 {
        assert(now[now.len() - 1] == slot);
    } else {
        lemma_missing_is_all(slots, upto - 1, slot);
        let before = assembler::missing_slots(slots, upto - 1);
        let i = choose|i: int| 0 <= i < before.len() && before[i] == slot as u16;
        assert(now[i] == slot as u16);
    }
}

proof fn lemma_wanted_is_the_shortfall(slice: SliceView, size: int)
    requires
        0 <= size <= slice.slots.len() <= u16::MAX,
        held_slots(slice).len() < size,
    ensures
        asks_for_the_shortfall(held_slots(slice), size, slice.wanted(size)),
{
    held_shards_are_counted(slice);
    assembler::what_is_asked_for_completes_a_slice(slice, size);
    let held = held_slots(slice);
    let asked = slice.wanted(size);
    let missing = assembler::missing_slots(slice.slots, size);
    assembler::lemma_missing_slots(slice.slots, size);
    assert forall|i: int| 0 <= i < asked.len() implies asked[i] == #[trigger] missing[i] by {}
    assert forall|i: int, slot: int|
        #![trigger asked[i], held.contains(slot)]
        0 <= i < asked.len() && 0 <= slot < asked[i] && !held.contains(
            slot,
        ) implies asked.contains(slot as u16) by {
        lemma_missing_is_all(slice.slots, size, slot);
        let j = choose|j: int| 0 <= j < missing.len() && missing[j] == slot as u16;
        if j >= i {
            assert(asked[i] == missing[i]);
            assert(missing[i] <= missing[j]);
        }
        assert(asked[j] == missing[j]);
    }
}

proof fn lemma_gaps_below(assembler: AssemblerView, upto: int)
    requires
        assembler.valid(),
        assembler.total_slots() <= u16::MAX,
        0 <= upto <= u32::MAX,
        forall|slice_no: u32| slice_no < upto ==> #[trigger] blocks_in(assembler, slice_no) > 0,
    ensures
        ({
            let gaps = assembler.gaps_below(upto);
            &&& forall|i: int|
                #![trigger gaps[i]]
                0 <= i < gaps.len() ==> {
                    &&& assembler.next_needed <= gaps[i].0 < upto
                    &&& held_of(assembler, gaps[i].0).len() < blocks_in(assembler, gaps[i].0)
                    &&& asks_for_the_shortfall(
                        held_of(assembler, gaps[i].0),
                        blocks_in(assembler, gaps[i].0),
                        gaps[i].1,
                    )
                }
            &&& forall|i: int, j: int| 0 <= i < j < gaps.len() ==> gaps[i].0 < gaps[j].0
            &&& forall|slice_no: u32|
                #![trigger held_of(assembler, slice_no)]
                assembler.next_needed <= slice_no < upto && held_of(assembler, slice_no).len()
                    < blocks_in(assembler, slice_no) ==> exists|i: int|
                    0 <= i < gaps.len() && (#[trigger] gaps[i]).0 == slice_no
        }),
    decreases upto,
{
    let gaps = assembler.gaps_below(upto);
    if upto > assembler.next_needed {
        lemma_gaps_below(assembler, upto - 1);
        let before = assembler.gaps_below(upto - 1);
        let no = (upto - 1) as u32;
        let size = blocks_in(assembler, no);
        assert(assembler.target(no) == size);
        assert(0 <= size <= assembler.blocks_per_slice);
        if assembler.slices.dom().contains(no) {
            held_shards_are_counted(assembler.slices[no]);
            if held_of(assembler, no).len() < size {
                lemma_wanted_is_the_shortfall(assembler.slices[no], size);
            }
        } else if size > 0 {
            let all = Seq::new(size as nat, |slot: int| slot as u16);
            assert(asks_for_the_shortfall(Set::<int>::empty(), size, all)) by {
                assert forall|i: int, slot: int|
                    #![trigger all[i], Set::<int>::empty().contains(slot)]
                    0 <= i < all.len() && 0 <= slot < all[i] implies all.contains(slot as u16) by {
                    assert(all[slot] == slot as u16);
                }
            }
        }
        assert(gaps.len() > before.len() ==> gaps.last().0 == no);
        assert forall|i: int|
            #![trigger gaps[i]]
            0 <= i < gaps.len() implies {
            &&& assembler.next_needed <= gaps[i].0 < upto
            &&& held_of(assembler, gaps[i].0).len() < blocks_in(assembler, gaps[i].0)
            &&& asks_for_the_shortfall(
                held_of(assembler, gaps[i].0),
                blocks_in(assembler, gaps[i].0),
                gaps[i].1,
            )
        } by {
            if i < before.len() {
                assert(gaps[i] == before[i]);
            }
        }
        assert forall|slice_no: u32|
            #![trigger held_of(assembler, slice_no)]
            assembler.next_needed <= slice_no < upto && held_of(assembler, slice_no).len()
                < blocks_in(assembler, slice_no) implies exists|i: int|
            0 <= i < gaps.len() && (#[trigger] gaps[i]).0 == slice_no by {
            if slice_no < upto - 1 {
                let i = choose|i: int| 0 <= i < before.len() && (#[trigger] before[i]).0 == slice_no;
                assert(gaps[i] == before[i]);
            } else {
                assert(gaps[gaps.len() - 1].0 == slice_no);
            }
        }
    }
}

/// Repairs are asked for of exactly those slices that were sent, are still needed and
/// hold fewer shards than they have blocks, each once and in order; and of each, for as
/// many of its lowest missing blocks as it is short of.
pub proof fn gaps_ask_for_what_is_short(assembler: AssemblerView, emit_floor: u32, slice_no: u32)
    requires
        assembler.valid(),
        assembler.total_slots() <= u16::MAX,
        assembler.total_blocks matches Some(total) ==> total <= u32::MAX
            * assembler.blocks_per_slice,
    ensures
        ({
            let gaps = assembler.gaps(emit_floor);
            &&& (exists|i: int| 0 <= i < gaps.len() && (#[trigger] gaps[i]).0 == slice_no) <==> {
                &&& slice_no >= assembler.next_needed
                &&& is_sent(assembler, emit_floor, slice_no)
                &&& held_of(assembler, slice_no).len() < blocks_in(assembler, slice_no)
            }
            &&& forall|i: int|
                0 <= i < gaps.len() && (#[trigger] gaps[i]).0 == slice_no ==> asks_for_the_shortfall(
                    held_of(assembler, slice_no),
                    blocks_in(assembler, slice_no),
                    gaps[i].1,
                )
            &&& forall|i: int, j: int| 0 <= i < j < gaps.len() ==> gaps[i].0 < gaps[j].0
        }),
{
    let floor = match assembler.total_slices() {
        Some(total) => total,
        None => emit_floor,
    };
    assert forall|other: u32| other < floor implies #[trigger] blocks_in(assembler, other) > 0 by {
        if let Some(total) = assembler.total_blocks {
            slices_are_counted(total, assembler.blocks_per_slice, other);
        }
    }
    lemma_gaps_below(assembler, floor as int);
    if let Some(total) = assembler.total_blocks {
        slices_are_counted(total, assembler.blocks_per_slice, slice_no);
    }
    let held = held_of(assembler, slice_no);
    let gaps = assembler.gaps(emit_floor);
    assert(gaps == assembler.gaps_below(floor as int));
    assert(is_sent(assembler, emit_floor, slice_no) <==> slice_no < floor);
    if exists|i: int| 0 <= i < gaps.len() && (#[trigger] gaps[i]).0 == slice_no {
        let i = choose|i: int| 0 <= i < gaps.len() && (#[trigger] gaps[i]).0 == slice_no;
        assert(gaps[i].0 < floor);
    }
    if slice_no >= assembler.next_needed && slice_no < floor && held.len() < blocks_in(
        assembler,
        slice_no,
    ) {
        assert(exists|i: int| 0 <= i < gaps.len() && (#[trigger] gaps[i]).0 == slice_no);
    }
}

/// The slices of a transfer are those that some block has its number in.
pub proof fn slices_are_counted(total_blocks: u64, blocks_per_slice: u16, slice_no: u32)
    requires
        blocks_per_slice > 0,
        total_blocks <= u32::MAX * blocks_per_slice,
    ensures
        slice_no < shards::slice_count(total_blocks, blocks_per_slice) <==> slice_no
            * blocks_per_slice < total_blocks,
{
    let total = total_blocks as int;
    let k = blocks_per_slice as int;
    let count = (total + k - 1) / k;
    let rest = (total + k - 1) % k;
    vstd::arithmetic::div_mod::lemma_fundamental_div_mod(total + k - 1, k);
    assert(0 <= count <= u32::MAX) by (nonlinear_arith)
        requires
            0 <= total <= u32::MAX * k,
            0 < k,
            total + k - 1 == k * count + rest,
            0 <= rest < k,
    ;
    assert(slice_no < count <==> slice_no * k < total) by (nonlinear_arith)
        requires
            0 < k,
            total + k - 1 == k * count + rest,
            0 <= rest < k,
    ;
    vstd::arithmetic::div_mod::lemma_small_mod(count as nat, 0x1_0000_0000);
}

} // verus!
