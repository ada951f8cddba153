//! What the shards of a transfer hold.
//!
//! A transfer is a sequence of blocks of one size. It is cut into slices of
//! `blocks_per_slice` blocks, of which only the last may be shorter. The slots of
//! a slice hold its data blocks first and its parity shards after them.

use crate::codec;
use vstd::prelude::*;

verus! {

/// Whether every block has the size of a block.
pub open spec fn all_sized(data: Seq<Seq<u8>>, block_size: nat) -> bool {
    forall|i: int| 0 <= i < data.len() ==> (#[trigger] data[i]).len() == block_size
}

/// The data blocks of a slice, filled up with zero blocks where it is short.
pub open spec fn padded_slice(
    data: Seq<Seq<u8>>,
    blocks_per_slice: nat,
    block_size: nat,
) -> Seq<Seq<u8>> {
    Seq::new(
        blocks_per_slice,
        |slot: int|
            if slot < data.len() {
                data[slot]
            } else {
                Seq::new(block_size, |i: int| 0u8)
            },
    )
}

/// The parity shards of a slice.
pub open spec fn slice_parity_shards(
    data: Seq<Seq<u8>>,
    parity_width: nat,
    blocks_per_slice: nat,
    block_size: nat,
) -> Seq<Seq<u8>> {
    if parity_width == 0 {
        Seq::empty()
    } else {
        codec::recovery_shards(padded_slice(data, blocks_per_slice, block_size), parity_width)
    }
}

/// The number of the first block of a slice, or the number of blocks where the
/// transfer ends before it.
pub open spec fn slice_start(source: Seq<Seq<u8>>, blocks_per_slice: nat, slice_no: int) -> int {
    if slice_no * blocks_per_slice <= source.len() {
        slice_no * blocks_per_slice
    } else {
        source.len() as int
    }
}

/// The data blocks of a slice.
pub open spec fn slice_data(
    source: Seq<Seq<u8>>,
    blocks_per_slice: nat,
    slice_no: int,
) -> Seq<Seq<u8>> {
    source.subrange(
        slice_start(source, blocks_per_slice, slice_no),
        slice_start(source, blocks_per_slice, slice_no + 1),
    )
}

/// The shard at a slot of a slice that carries `parity_width` parity shards.
pub open spec fn source_shard(
    source: Seq<Seq<u8>>,
    blocks_per_slice: nat,
    block_size: nat,
    parity_width: nat,
    slice_no: int,
    slot: int,
) -> Option<Seq<u8>> {
    let data = slice_data(source, blocks_per_slice, slice_no);
    if data.len() == 0 {
        None
    } else if slot < data.len() {
        Some(data[slot])
    } else if blocks_per_slice <= slot < blocks_per_slice + parity_width {
        Some(
            slice_parity_shards(data, parity_width, blocks_per_slice, block_size)[slot
                - blocks_per_slice],
        )
    } else {
        None
    }
}

/// A slice that exists holds as many blocks as are left, up to a full slice.
pub proof fn slice_data_size(source: Seq<Seq<u8>>, blocks_per_slice: nat, slice_no: int)
    requires
        0 < blocks_per_slice,
        0 <= slice_no,
    ensures
        0 <= slice_start(source, blocks_per_slice, slice_no) <= slice_start(
            source,
            blocks_per_slice,
            slice_no + 1,
        ) <= source.len(),
        slice_data(source, blocks_per_slice, slice_no).len() == ({
            let left = source.len() - slice_no * blocks_per_slice;
            if left < 0 {
                0
            } else if left < blocks_per_slice {
                left
            } else {
                blocks_per_slice as int
            }
        }),
{
    assert((slice_no + 1) * blocks_per_slice == slice_no * blocks_per_slice + blocks_per_slice)
        by (nonlinear_arith);
    assert(0 <= slice_no * blocks_per_slice) by (nonlinear_arith)
        requires
            0 <= slice_no,
            0 < blocks_per_slice,
    ;
}

/// A block of at most `block_size` bytes, filled up with zeros.
pub open spec fn padded_block(payload: Seq<u8>, block_size: nat) -> Seq<u8> {
    payload + Seq::new((block_size - payload.len()) as nat, |i: int| 0u8)
}

/// Where the block of that number ends in a run of bytes.
pub open spec fn block_end(bytes: Seq<u8>, block_size: nat, block_no: int) -> int {
    if (block_no + 1) * block_size <= bytes.len() {
        (block_no + 1) * block_size
    } else {
        bytes.len() as int
    }
}

/// How many blocks a run of bytes takes.
pub open spec fn block_count(bytes: Seq<u8>, block_size: nat) -> nat {
    ((bytes.len() + block_size - 1) / block_size as int) as nat
}

/// The blocks of a run of bytes, the last filled up with zeros.
pub open spec fn source_blocks(bytes: Seq<u8>, block_size: nat) -> Seq<Seq<u8>> {
    Seq::new(
        block_count(bytes, block_size),
        |block_no: int|
            padded_block(
                bytes.subrange(block_no * block_size, block_end(bytes, block_size, block_no)),
                block_size,
            ),
    )
}

/// Every block of a run of bytes starts within it and has the size of a block.
pub proof fn source_blocks_are_sized(bytes: Seq<u8>, block_size: nat)
    requires
        0 < block_size,
    ensures
        all_sized(source_blocks(bytes, block_size), block_size),
        forall|block_no: int|
            0 <= block_no < block_count(bytes, block_size) ==> 0 <= #[trigger] (block_no
                * block_size) < bytes.len(),
        bytes.len() <= block_count(bytes, block_size) * block_size,
{
    let count = block_count(bytes, block_size) as int;
    let len = bytes.len() as int;
    let size = block_size as int;
    vstd::arithmetic::div_mod::lemma_fundamental_div_mod(len + size - 1, size);
    assert(len <= count * size) by (nonlinear_arith)
        requires
            count == (len + size - 1) / size,
            len + size - 1 == size * ((len + size - 1) / size) + (len + size - 1) % size,
            (len + size - 1) % size < size,
            0 < size,
    ;
    assert forall|block_no: int| 0 <= block_no < count implies 0 <= #[trigger] (block_no
        * block_size) < bytes.len() && block_no * block_size + block_size == (block_no + 1)
        * block_size by {
        assert(0 <= block_no * size < len) by (nonlinear_arith)
            requires
                0 <= block_no < count,
                count == (len + size - 1) / size,
                len + size - 1 == size * ((len + size - 1) / size) + (len + size - 1) % size,
                0 <= (len + size - 1) % size,
                0 < size,
        ;
        assert(block_no * size + size == (block_no + 1) * size) by (nonlinear_arith);
    }
    let blocks = source_blocks(bytes, block_size);
    assert forall|i: int| 0 <= i < blocks.len() implies (#[trigger] blocks[i]).len()
        == block_size by {
        assert(0 <= i * block_size < bytes.len());
        assert(i * size + size == (i + 1) * size) by (nonlinear_arith);
    }
}

/// How many slices a transfer of that many blocks has, the last perhaps short. The
/// count is kept in 32 bits.
pub open spec fn slice_count(total_blocks: u64, blocks_per_slice: u16) -> u32 {
    ((total_blocks + blocks_per_slice - 1) / blocks_per_slice as int % 0x1_0000_0000) as u32
}

/// How many slices a transfer of that many blocks has.
pub fn slices_of(total_blocks: u64, blocks_per_slice: u16) -> (slices: u32)
    requires
        blocks_per_slice > 0,
    ensures
        slices == slice_count(total_blocks, blocks_per_slice),
{
    let per_slice: u64 = blocks_per_slice as u64;
    let full: u64 = total_blocks / per_slice;
    let rest: u64 = total_blocks % per_slice;
    proof {
        lemma_ceiling(total_blocks as int, per_slice as int);
        if rest > 0 {
            assert(full < u64::MAX) by (nonlinear_arith)
                requires
                    full == total_blocks / per_slice,
                    rest == total_blocks % per_slice,
                    rest > 0,
                    per_slice > 0,
            ;
        }
    }
    let slices: u64 = if rest > 0 {
        full + 1
    } else {
        full
    };
    assert(slices as u32 == slices % 0x1_0000_0000) by (bit_vector);
    #[verifier::truncate]
    (slices as u32)
}

/// The slices of a transfer have room for all of its blocks, as long as they can be
/// counted in 32 bits.
pub proof fn slices_cover_the_blocks(total_blocks: u64, blocks_per_slice: u16)
    requires
        blocks_per_slice > 0,
        total_blocks <= u32::MAX * blocks_per_slice,
    ensures
        total_blocks <= slice_count(total_blocks, blocks_per_slice) * blocks_per_slice,
{
    let total = total_blocks as int;
    let per_slice = blocks_per_slice as int;
    let count = (total + per_slice - 1) / per_slice;
    vstd::arithmetic::div_mod::lemma_fundamental_div_mod(total + per_slice - 1, per_slice);
    assert(0 <= count <= u32::MAX && total <= count * per_slice) by (nonlinear_arith)
        requires
            0 <= total <= u32::MAX * per_slice,
            0 < per_slice,
            total + per_slice - 1 == per_slice * count + (total + per_slice - 1) % per_slice,
            0 <= (total + per_slice - 1) % per_slice < per_slice,
    ;
}

proof fn lemma_ceiling(total: int, per_slice: int)
    requires
        0 <= total,
        0 < per_slice,
    ensures
        (total + per_slice - 1) / per_slice == total / per_slice + if total % per_slice > 0 {
            1int
        } else {
            0int
        },
{
    let full = total / per_slice;
    let rest = total % per_slice;
    vstd::arithmetic::div_mod::lemma_fundamental_div_mod(total, per_slice);
    if rest > 0 {
        assert(total + per_slice - 1 == (full + 1) * per_slice + (rest - 1)) by (nonlinear_arith)
            requires
                total == per_slice * full + rest,
        ;
        vstd::arithmetic::div_mod::lemma_fundamental_div_mod_converse(
            total + per_slice - 1,
            per_slice,
            full + 1,
            rest - 1,
        );
    } else {
        assert(total + per_slice - 1 == full * per_slice + (per_slice - 1)) by (nonlinear_arith)
            requires
                total == per_slice * full,
        ;
        vstd::arithmetic::div_mod::lemma_fundamental_div_mod_converse(
            total + per_slice - 1,
            per_slice,
            full,
            per_slice - 1,
        );
    }
}

/// A block that is filled up starts with what it holds and ends with zeros.
pub proof fn filling_up_adds_zeros(payload: Seq<u8>, block_size: nat, i: int)
    requires
        payload.len() <= block_size,
        0 <= i < block_size,
    ensures
        padded_block(payload, block_size).len() == block_size,
        padded_block(payload, block_size)[i] == if i < payload.len() {
            payload[i]
        } else {
            0u8
        },
{
}

/// The bytes of a transfer stand in its blocks one after another, nothing is left out, no
/// block is without a byte, and behind the last byte stand zeros.
pub proof fn bytes_stand_where_their_numbers_tell(
    bytes: Seq<u8>,
    block_size: nat,
    block_no: int,
    offset: int,
)
    requires
        0 < block_size,
        0 <= block_no,
        0 <= offset < block_size,
    ensures
        block_no < source_blocks(bytes, block_size).len() <==> block_no * block_size < bytes.len(),
        block_no < source_blocks(bytes, block_size).len() ==> source_blocks(
            bytes,
            block_size,
        )[block_no][offset] == if block_no * block_size + offset < bytes.len() {
            bytes[block_no * block_size + offset]
        } else {
            0u8
        },
{
    source_blocks_are_sized(bytes, block_size);
    let size = block_size as int;
    let count = block_count(bytes, block_size) as int;
    assert((block_no + 1) * size == block_no * size + size) by (nonlinear_arith);
    if block_no < count {
        assert(0 <= block_no * block_size < bytes.len());
    } else {
        assert(block_no * size >= count * size) by (nonlinear_arith)
            requires
                block_no >= count,
                0 < size,
        ;
    }
}

/// The data blocks of a slice are the blocks with the numbers of that slice, each in the
/// slot that is left of its number, and no slot behind them holds one.
pub proof fn blocks_stand_where_their_numbers_tell(
    source: Seq<Seq<u8>>,
    blocks_per_slice: nat,
    block_size: nat,
    parity_width: nat,
    block_no: int,
)
    requires
        0 < blocks_per_slice,
        0 <= block_no,
    ensures
        ({
            let k = blocks_per_slice as int;
            let shard = source_shard(
                source,
                blocks_per_slice,
                block_size,
                parity_width,
                block_no / k,
                block_no % k,
            );
            &&& block_no < source.len() ==> shard == Some(source[block_no])
            &&& block_no >= source.len() ==> shard is None
        }),
{
    let k = blocks_per_slice as int;
    let slice_no = block_no / k;
    vstd::arithmetic::div_mod::lemma_fundamental_div_mod(block_no, k);
    vstd::arithmetic::div_mod::lemma_div_pos_is_pos(block_no, k);
    slice_data_size(source, blocks_per_slice, slice_no);
    assert(k * slice_no == slice_no * k) by (nonlinear_arith);
}

/// What the parity of a slice is made of: its blocks, and zeros in place of those that it
/// does not have.
pub proof fn parity_is_made_of_the_blocks_and_zeros(
    data: Seq<Seq<u8>>,
    blocks_per_slice: nat,
    block_size: nat,
    slot: int,
    offset: int,
)
    requires
        data.len() <= blocks_per_slice,
        0 <= slot < blocks_per_slice,
        0 <= offset < block_size,
    ensures
        ({
            let filled = padded_slice(data, blocks_per_slice, block_size);
            &&& filled.len() == blocks_per_slice
            &&& slot < data.len() ==> filled[slot] == data[slot]
            &&& slot >= data.len() ==> filled[slot].len() == block_size && filled[slot][offset] == 0
        }),
{
}

} // verus!
