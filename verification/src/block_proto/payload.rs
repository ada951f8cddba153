//! What block messages carry.

use crate::block_proto::error::Error;
use crate::buffers;
use bytes::Bytes;
use vstd::prelude::*;
use vstd::std_specs::convert::FromSpecImpl;

verus! {

/// The bytes of a block.
#[derive(Debug, PartialEq)]
pub struct Payload(pub Bytes);

impl Clone for Payload {
    fn clone(&self) -> (twin: Payload)
        ensures
            buffers::held(twin.0) == buffers::held(self.0),
    {
        Payload(buffers::buffer_clone(&self.0))
    }
}

impl From<Bytes> for Payload {
    fn from(bytes: Bytes) -> (payload: Payload) {
        Payload(bytes)
    }
}

impl FromSpecImpl<Bytes> for Payload {
    open spec fn obeys_from_spec() -> bool {
        true
    }

    open spec fn from_spec(bytes: Bytes) -> Payload {
        Payload(bytes)
    }
}

/// Announces a transfer to the group.
#[derive(Debug, Clone, PartialEq)]
pub struct Hello {
    pub transfer_id: u64,
    pub blocks_per_slice: u32,
}

/// One block of data.
#[derive(Debug, Clone, PartialEq)]
pub struct Data {
    pub transfer_id: u64,
    pub slice_no: u32,
    pub block_in_slice: u16,
    pub payload: Payload,
}

/// One block of parity.
#[derive(Debug, Clone, PartialEq)]
pub struct Parity {
    pub transfer_id: u64,
    pub slice_no: u32,
    pub parity_index: u16,
    pub payload: Payload,
}

/// What a block of data or parity says: the transfer, the slice, the place in it
/// and the bytes.
#[verifier::ext_equal]
pub struct BlockView {
    pub transfer_id: u64,
    pub slice_no: u32,
    pub index: u16,
    pub payload: Seq<u8>,
}

impl View for Data {
    type V = BlockView;

    open spec fn view(&self) -> BlockView {
        BlockView {
            transfer_id: self.transfer_id,
            slice_no: self.slice_no,
            index: self.block_in_slice,
            payload: buffers::held(self.payload.0),
        }
    }
}

impl View for Parity {
    type V = BlockView;

    open spec fn view(&self) -> BlockView {
        BlockView {
            transfer_id: self.transfer_id,
            slice_no: self.slice_no,
            index: self.parity_index,
            payload: buffers::held(self.payload.0),
        }
    }
}

impl Data {
    /// The slice that a block belongs to.
    pub fn slice_no(block_no: u32, blocks_per_slice: u32) -> (slice_no: u32)
        requires
            blocks_per_slice > 0,
        ensures
            slice_no == block_no / blocks_per_slice,
    {
        block_no / blocks_per_slice
    }

    /// The place of a block in its slice, kept in 16 bits.
    pub fn block_in_slice(block_no: u32, blocks_per_slice: u32) -> (block_in_slice: u16)
        requires
            blocks_per_slice > 0,
        ensures
            block_in_slice == block_no % blocks_per_slice % 0x1_0000,
    {
        let place: u32 = block_no % blocks_per_slice;
        assert(place as u16 == place % 0x1_0000) by (bit_vector);
        #[verifier::truncate]
        (place as u16)
    }

    /// The number of the block in the transfer.
    pub fn block_no(&self, blocks_per_slice: u32) -> (result: Result<u64, Error>)
        ensures
            if blocks_per_slice == 0 {
                result matches Err(Error::ZeroBlocksPerSlice)
            } else if self.block_in_slice >= blocks_per_slice {
                result matches Err(
                    Error::BlockOutsideSlice { block_in_slice, blocks_per_slice: named },
                ) && block_in_slice == self.block_in_slice && named == blocks_per_slice
            } else {
                result matches Ok(block_no) && block_no == self.slice_no * blocks_per_slice
                    + self.block_in_slice
            },
    {
        if blocks_per_slice == 0 {
            return Err(Error::ZeroBlocksPerSlice);
        }
        if self.block_in_slice as u32 >= blocks_per_slice {
            return Err(
                Error::BlockOutsideSlice { block_in_slice: self.block_in_slice, blocks_per_slice },
            );
        }
        assert(self.slice_no * blocks_per_slice <= 0xffff_ffff * 0xffff_ffff) by (nonlinear_arith)
            requires
                self.slice_no <= 0xffff_ffff,
                blocks_per_slice <= 0xffff_ffff,
        ;
        Ok(self.slice_no as u64 * blocks_per_slice as u64 + self.block_in_slice as u64)
    }
}

/// The number of a block is what its slice and its place in the slice say, as long
/// as a place fits in 16 bits.
pub proof fn block_no_inverts_slice_coordinates(block_no: u32, blocks_per_slice: u32)
    requires
        0 < blocks_per_slice <= 0x1_0000,
    ensures
        block_no % blocks_per_slice % 0x1_0000 < blocks_per_slice,
        (block_no / blocks_per_slice) * blocks_per_slice + block_no % blocks_per_slice % 0x1_0000
            == block_no,
{
    vstd::arithmetic::div_mod::lemma_fundamental_div_mod(block_no as int, blocks_per_slice as int);
    let slice_no = block_no as int / blocks_per_slice as int;
    assert(slice_no * blocks_per_slice == blocks_per_slice * slice_no) by (nonlinear_arith);
}

/// Tells the sender how far a receiver is. `completed_through` is the highest
/// slice that it holds in full, with every slice below it.
#[derive(Debug, Clone, PartialEq)]
pub struct Stats {
    pub transfer_id: u64,
    pub receiver_id: u64,
    pub blocks_received: u64,
    pub blocks_expected: u64,
    pub completed_through: Option<u32>,
}

/// Asks the sender for blocks of a slice.
#[derive(Debug, Clone, PartialEq)]
pub struct Nack {
    pub transfer_id: u64,
    pub receiver_id: u64,
    pub slice_no: u32,
    pub missing: Vec<u16>,
}

/// What a request asks for.
#[verifier::ext_equal]
pub struct NackView {
    pub transfer_id: u64,
    pub receiver_id: u64,
    pub slice_no: u32,
    pub missing: Seq<u16>,
}

impl View for Nack {
    type V = NackView;

    open spec fn view(&self) -> NackView {
        NackView {
            transfer_id: self.transfer_id,
            receiver_id: self.receiver_id,
            slice_no: self.slice_no,
            missing: self.missing@,
        }
    }
}

/// Tells the sender that a receiver holds the whole transfer.
#[derive(Debug, Clone, PartialEq)]
pub struct Complete {
    pub transfer_id: u64,
    pub receiver_id: u64,
}

/// Tells the group that everything was sent, and how much that was.
#[derive(Debug, Clone, PartialEq)]
pub struct Done {
    pub transfer_id: u64,
    pub total_bytes: u64,
    pub total_blocks: u64,
}

} // verus!
