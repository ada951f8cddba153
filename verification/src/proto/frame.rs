//! Shards on the wire.

use crate::buffers;
use crate::proto::error::Error;
use crate::wire;
use bytes::Bytes;
use vstd::prelude::*;

verus! {

/// How many bytes stand before the payload of a shard.
pub const HEADER_SIZE: usize = 20;

/// The first byte of a shard.
pub const FRAME_TAG: u8 = 0x10;

/// The first byte of a control message.
pub const CONTROL_TAG: u8 = 0x1f;

/// The most bytes that one datagram takes.
pub const MAX_IP_DATAGRAM: usize = 65535;

/// The most segments that the kernel cuts one datagram into.
pub const UDP_MAX_SEGMENTS: usize = 128;

/// A shard with what its header says.
#[derive(Debug, PartialEq)]
pub struct Frame {
    pub slot: u16,
    pub slice_parity: u8,
    pub transfer_id: u32,
    pub seq: u32,
    pub slice_no: u32,
    pub emit_floor: u32,
    pub payload: Bytes,
}

/// What a shard and its header say.
#[verifier::ext_equal]
pub struct FrameView {
    pub slot: u16,
    pub slice_parity: u8,
    pub transfer_id: u32,
    pub seq: u32,
    pub slice_no: u32,
    pub emit_floor: u32,
    pub payload: Seq<u8>,
}

impl View for Frame {
    type V = FrameView;

    open spec fn view(&self) -> FrameView {
        FrameView {
            slot: self.slot,
            slice_parity: self.slice_parity,
            transfer_id: self.transfer_id,
            seq: self.seq,
            slice_no: self.slice_no,
            emit_floor: self.emit_floor,
            payload: buffers::held(self.payload),
        }
    }
}

impl FrameView {
    /// The header of a shard.
    pub open spec fn header(self) -> Seq<u8> {
        seq![FRAME_TAG, self.slice_parity] + wire::le_u16(self.slot) + wire::le_u32(
            self.transfer_id,
        ) + wire::le_u32(self.seq) + wire::le_u32(self.slice_no) + wire::le_u32(self.emit_floor)
    }

    /// The datagram of a shard.
    pub open spec fn bytes(self) -> Seq<u8> {
        self.header() + self.payload
    }
}

/// The shard of a datagram that is long enough and has the tag of one.
pub open spec fn read_frame(bytes: Seq<u8>) -> FrameView {
    FrameView {
        slot: wire::of_le_u16(bytes.subrange(2, 4)),
        slice_parity: bytes[1],
        transfer_id: wire::of_le_u32(bytes.subrange(4, 8)),
        seq: wire::of_le_u32(bytes.subrange(8, 12)),
        slice_no: wire::of_le_u32(bytes.subrange(12, 16)),
        emit_floor: wire::of_le_u32(bytes.subrange(16, 20)),
        payload: bytes.skip(HEADER_SIZE as int),
    }
}

/// Every header takes the same number of bytes, whatever it says.
pub proof fn headers_have_one_width(frame: FrameView)
    ensures
        frame.header().len() == HEADER_SIZE,
        frame.bytes().len() == HEADER_SIZE + frame.payload.len(),
        frame.header()[0] == FRAME_TAG,
{
}

/// Every shard reads back from its datagram as what was written.
pub proof fn frames_read_back(frame: FrameView)
    ensures
        read_frame(frame.bytes()) == frame,
        frame.bytes()[0] == FRAME_TAG,
{
    let bytes = frame.bytes();
    wire::le_u16_inverts(frame.slot);
    wire::le_u32_inverts(frame.transfer_id);
    wire::le_u32_inverts(frame.seq);
    wire::le_u32_inverts(frame.slice_no);
    wire::le_u32_inverts(frame.emit_floor);
    assert(bytes.subrange(2, 4) =~= wire::le_u16(frame.slot));
    assert(bytes.subrange(4, 8) =~= wire::le_u32(frame.transfer_id));
    assert(bytes.subrange(8, 12) =~= wire::le_u32(frame.seq));
    assert(bytes.subrange(12, 16) =~= wire::le_u32(frame.slice_no));
    assert(bytes.subrange(16, 20) =~= wire::le_u32(frame.emit_floor));
    assert(bytes.skip(20) =~= frame.payload);
}

/// A shard and a control message never start with the same byte.
pub proof fn no_datagram_is_both(frame: FrameView, message: crate::proto::message::MessageView)
    ensures
        frame.bytes()[0] != message.bytes()[0],
{
}

fn put_u32(header: &mut [u8; HEADER_SIZE], at: usize, value: u32)
    requires
        at + 4 <= HEADER_SIZE,
    ensures
        final(header)@ == old(header)@.take(at as int) + wire::le_u32(value) + old(header)@.skip(
            at + 4,
        ),
{
    header[at] = (value % 256) as u8;
    header[at + 1] = (value / 256 % 256) as u8;
    header[at + 2] = (value / 0x1_0000 % 256) as u8;
    header[at + 3] = (value / 0x100_0000) as u8;
    assert(header@ =~= old(header)@.take(at as int) + wire::le_u32(value) + old(header)@.skip(
        at + 4,
    ));
}

fn u32_of(bytes: &[u8], at: usize) -> (value: u32)
    requires
        at + 4 <= bytes@.len(),
    ensures
        value == wire::of_le_u32(bytes@.subrange(at as int, at + 4)),
{
    bytes[at] as u32 + 256 * bytes[at + 1] as u32 + 0x1_0000 * bytes[at + 2] as u32 + 0x100_0000
        * bytes[at + 3] as u32
}

impl Frame {
    /// The header of the shard.
    pub fn header(&self) -> (header: [u8; HEADER_SIZE])
        ensures
            header@ == self@.header(),
    {
        let mut header: [u8; HEADER_SIZE] = [0u8; HEADER_SIZE];
        header[0] = FRAME_TAG;
        header[1] = self.slice_parity;
        header[2] = (self.slot % 256) as u8;
        header[3] = (self.slot / 256) as u8;
        put_u32(&mut header, 4, self.transfer_id);
        put_u32(&mut header, 8, self.seq);
        put_u32(&mut header, 12, self.slice_no);
        put_u32(&mut header, 16, self.emit_floor);
        assert(header@ =~= self@.header());
        header
    }

    /// The shard of a datagram.
    pub fn parse(datagram: Bytes) -> (result: Result<Frame, Error>)
        ensures
            ({
                let bytes = buffers::held(datagram);
                if bytes.len() <= HEADER_SIZE {
                    result matches Err(Error::FrameTooShort(len)) && len == bytes.len()
                } else if bytes[0] != FRAME_TAG {
                    result matches Err(Error::UnknownTag(tag)) && tag == bytes[0]
                } else {
                    result matches Ok(frame) && frame@ == read_frame(bytes)
                }
            }),
    {
        let len: usize = buffers::buffer_len(&datagram);
        if len <= HEADER_SIZE {
            return Err(Error::FrameTooShort(len));
        }
        let bytes = buffers::buffer_slice(&datagram);
        let tag: u8 = bytes[0];
        if tag != FRAME_TAG {
            return Err(Error::UnknownTag(tag));
        }
        let frame = Frame {
            slot: bytes[2] as u16 + 256 * bytes[3] as u16,
            slice_parity: bytes[1],
            transfer_id: u32_of(bytes, 4),
            seq: u32_of(bytes, 8),
            slice_no: u32_of(bytes, 12),
            emit_floor: u32_of(bytes, 16),
            payload: buffers::buffer_part(&datagram, HEADER_SIZE, len),
        };
        Ok(frame)
    }
}

/// How many segments of that size one datagram takes.
pub open spec fn segments_in_datagram(segment_size: int) -> int {
    let fitting = MAX_IP_DATAGRAM as int / segment_size;
    if fitting < 1 {
        1
    } else if fitting > UDP_MAX_SEGMENTS {
        UDP_MAX_SEGMENTS as int
    } else {
        fitting
    }
}

/// How many segments of that size one datagram takes: at least one, and no more
/// than the kernel cuts it into.
pub fn segments_per_datagram(segment_size: usize) -> (segments: usize)
    requires
        segment_size > 0,
    ensures
        segments == segments_in_datagram(segment_size as int),
{
    let fitting: usize = MAX_IP_DATAGRAM / segment_size;
    if fitting < 1 {
        1
    } else if fitting > UDP_MAX_SEGMENTS {
        UDP_MAX_SEGMENTS
    } else {
        fitting
    }
}

/// What a batch holds: the bytes it stages segments in, how many it staged, and
/// how many it takes.
#[verifier::ext_equal]
pub struct BatchView {
    pub staging: Seq<u8>,
    pub segment_size: nat,
    pub segments: nat,
    pub capacity: nat,
    pub limit: nat,
}

impl BatchView {
    /// What holds of every batch.
    pub open spec fn valid(self) -> bool {
        &&& HEADER_SIZE <= self.segment_size
        &&& self.staging.len() == self.capacity * self.segment_size
        &&& 1 <= self.limit <= self.capacity <= UDP_MAX_SEGMENTS
        &&& self.segments <= self.capacity
    }

    /// Where the next segment starts.
    pub open spec fn end(self) -> int {
        self.segments * self.segment_size as int
    }

    /// The segments that were staged, one after another.
    pub open spec fn filled(self) -> Seq<u8> {
        self.staging.take(self.end())
    }

    /// The batch after a shard is staged.
    pub open spec fn pushed(self, frame: FrameView) -> BatchView {
        BatchView {
            staging: self.staging.take(self.end()) + frame.bytes() + self.staging.skip(
                self.end() + frame.bytes().len(),
            ),
            segments: self.segments + 1,
            ..self
        }
    }

    /// The segment at an index.
    pub open spec fn segment(self, index: int) -> Seq<u8> {
        self.staging.subrange(
            index * self.segment_size,
            index * self.segment_size + self.segment_size,
        )
    }
}

/// Shards of one size, staged to leave as one datagram that is cut into segments.
pub struct FrameBatch {
    staging: Vec<u8>,
    segment_size: usize,
    segments: usize,
    limit: usize,
}

impl View for FrameBatch {
    type V = BatchView;

    closed spec fn view(&self) -> BatchView {
        BatchView {
            staging: self.staging@,
            segment_size: self.segment_size as nat,
            segments: self.segments as nat,
            capacity: (self.staging@.len() / self.segment_size as nat) as nat,
            limit: self.limit as nat,
        }
    }
}

impl FrameBatch {
    /// What holds of every batch.
    pub closed spec fn wf(self) -> bool {
        self@.valid()
    }

    /// A well-formed batch holds what a batch can hold.
    pub proof fn is_valid(self)
        requires
            self.wf(),
        ensures
            self@.valid(),
    {
    }

    /// An empty batch that takes as many shards as one datagram does, up to
    /// `max_segments`.
    pub fn new(block_size: usize, max_segments: usize) -> (batch: FrameBatch)
        requires
            block_size <= usize::MAX - HEADER_SIZE,
        ensures
            batch.wf(),
            batch@.segment_size == HEADER_SIZE + block_size,
            batch@.segments == 0,
            batch@.capacity == ({
                let most = if max_segments < 1 {
                    1int
                } else {
                    max_segments as int
                };
                let fitting = segments_in_datagram(HEADER_SIZE + block_size);
                if fitting <= most {
                    fitting
                } else {
                    most
                }
            }),
            batch@.limit == batch@.capacity,
            batch@.staging == Seq::new(
                (batch@.capacity * batch@.segment_size) as nat,
                |i: int| 0u8,
            ),
    {
        let segment_size: usize = HEADER_SIZE + block_size;
        let fitting: usize = segments_per_datagram(segment_size);
        let most: usize = if max_segments < 1 {
            1
        } else {
            max_segments
        };
        let capacity: usize = if fitting <= most {
            fitting
        } else {
            most
        };
        proof {
            let whole = MAX_IP_DATAGRAM as int / segment_size as int;
            vstd::arithmetic::div_mod::lemma_fundamental_div_mod(
                MAX_IP_DATAGRAM as int,
                segment_size as int,
            );
            if whole < 1 {
                assert(capacity == 1);
                assert(capacity * segment_size == segment_size) by (nonlinear_arith)
                    requires
                        capacity == 1,
                ;
            } else {
                assert(capacity * segment_size <= segment_size * whole) by (nonlinear_arith)
                    requires
                        capacity <= whole,
                        segment_size > 0,
                ;
            }
            lemma_capacity(capacity as int, segment_size as int);
        }
        FrameBatch {
            staging: vec![0u8; capacity * segment_size],
            segment_size,
            segments: 0,
            limit: capacity,
        }
    }

    /// How many bytes each shard takes.
    pub fn segment_size(&self) -> (size: usize)
        ensures
            size == self@.segment_size,
    {
        self.segment_size
    }

    /// How many shards the batch has room for.
    pub fn capacity(&self) -> (capacity: usize)
        requires
            self.wf(),
        ensures
            capacity == self@.capacity,
    {
        self.staging.len() / self.segment_size
    }

    /// Sets how many shards fill the batch, within what it has room for.
    pub fn narrow_to(&mut self, segments: usize)
        requires
            old(self).wf(),
        ensures
            final(self).wf(),
            final(self)@ == (BatchView {
                limit: if segments < 1 {
                    1
                } else if segments > old(self)@.capacity {
                    old(self)@.capacity
                } else {
                    segments as nat
                },
                ..old(self)@
            }),
    {
        let capacity: usize = self.capacity();
        self.limit = if segments < 1 {
            1
        } else if segments > capacity {
            capacity
        } else {
            segments
        };
    }

    /// Whether nothing is staged.
    pub fn is_empty(&self) -> (empty: bool)
        ensures
            empty == (self@.segments == 0),
    {
        self.segments == 0
    }

    /// Whether as many shards are staged as fill the batch.
    pub fn is_full(&self) -> (full: bool)
        ensures
            full == (self@.segments >= self@.limit),
    {
        self.segments >= self.limit
    }

    /// Stages a shard.
    pub fn push(&mut self, frame: &Frame)
        requires
            old(self).wf(),
            old(self)@.segments < old(self)@.capacity,
            HEADER_SIZE + buffers::held(frame.payload).len() <= old(self)@.segment_size,
        ensures
            final(self).wf(),
            final(self)@ == old(self)@.pushed(frame@),
    {
        proof {
            lemma_segment_fits(
                self@.segments as int,
                self@.capacity as int,
                self@.segment_size as int,
            );
        }
        assert(self.staging.len() == self.staging@.len());
        let at: usize = self.segments * self.segment_size;
        let header = frame.header();
        let payload = buffers::buffer_slice(&frame.payload);
        copy_into(&mut self.staging, at, header.as_slice());
        let ghost middle = self.staging@;
        copy_into(&mut self.staging, at + HEADER_SIZE, payload);
        self.segments += 1;
        proof {
            headers_have_one_width(frame@);
            assert(self.staging@ =~= old(self)@.pushed(frame@).staging);
        }
    }

    /// The shards that are staged, one after another.
    pub fn filled(&self) -> (filled: &[u8])
        requires
            self.wf(),
        ensures
            filled@ == self@.filled(),
    {
        proof {
            assert(self@.end() <= self@.staging.len()) by (nonlinear_arith)
                requires
                    self@.segments <= self@.capacity,
                    self@.end() == self@.segments * self@.segment_size,
                    self@.staging.len() == self@.capacity * self@.segment_size,
            ;
        }
        assert(self.staging.len() == self.staging@.len());
        let end: usize = self.segments * self.segment_size;
        let filled = vstd::slice::slice_subrange(self.staging.as_slice(), 0, end);
        assert(filled@ =~= self@.filled());
        filled
    }

    /// Lets go of the shards that are staged.
    pub fn clear(&mut self)
        requires
            old(self).wf(),
        ensures
            final(self).wf(),
            final(self)@ == (BatchView { segments: 0, ..old(self)@ }),
    {
        self.segments = 0;
    }
}

fn copy_into(target: &mut Vec<u8>, at: usize, source: &[u8])
    requires
        at + source@.len() <= old(target)@.len(),
    ensures
        final(target)@ == old(target)@.take(at as int) + source@ + old(target)@.skip(
            at + source@.len(),
        ),
{
    let ghost before = target@;
    let mut done: usize = 0;
    assert(target.len() == target@.len());
    while done < source.len()
        invariant
            done <= source@.len(),
            before == old(target)@,
            at + source@.len() <= before.len(),
            target@.len() == before.len() <= usize::MAX,
            forall|i: int|
                0 <= i < before.len() ==> target@[i] == if at <= i < at + done {
                    source@[i - at]
                } else {
                    before[i]
                },
        decreases source@.len() - done,
    {
        target[at + done] = source[done];
        done += 1;
    }
    assert(target@ =~= before.take(at as int) + source@ + before.skip(at + source@.len()));
}

proof fn lemma_capacity(capacity: int, segment_size: int)
    requires
        0 <= capacity,
        0 < segment_size,
    ensures
        (capacity * segment_size) / segment_size == capacity,
{
    vstd::arithmetic::div_mod::lemma_div_multiples_vanish(capacity, segment_size);
    assert(capacity * segment_size == segment_size * capacity) by (nonlinear_arith);
}

proof fn lemma_segment_fits(index: int, capacity: int, segment_size: int)
    requires
        0 <= index < capacity,
        0 <= segment_size,
    ensures
        0 <= index * segment_size,
        index * segment_size + segment_size <= capacity * segment_size,
{
    assert(0 <= index * segment_size) by (nonlinear_arith)
        requires
            0 <= index,
            0 <= segment_size,
    ;
    assert((index + 1) * segment_size <= capacity * segment_size) by (nonlinear_arith)
        requires
            index + 1 <= capacity,
            0 <= segment_size,
    ;
    assert((index + 1) * segment_size == index * segment_size + segment_size) by (nonlinear_arith);
}

/// Shards that fill their segments stand at a fixed stride: the one that is staged
/// is the segment at the next index, and those before it stay as they were.
pub proof fn segments_stand_at_a_fixed_stride(batch: BatchView, frame: FrameView, index: int)
    requires
        batch.valid(),
        batch.segments < batch.capacity,
        HEADER_SIZE + frame.payload.len() == batch.segment_size,
    ensures
        batch.pushed(frame).segment(batch.segments as int) == frame.bytes(),
        read_frame(batch.pushed(frame).segment(batch.segments as int)) == frame,
        0 <= index < batch.segments ==> batch.pushed(frame).segment(index) == batch.segment(index),
{
    headers_have_one_width(frame);
    frames_read_back(frame);
    lemma_segment_fits(batch.segments as int, batch.capacity as int, batch.segment_size as int);
    let after = batch.pushed(frame);
    assert(after.segment(batch.segments as int) =~= frame.bytes());
    if 0 <= index < batch.segments {
        lemma_segment_fits(index, batch.segments as int, batch.segment_size as int);
        assert(after.segment(index) =~= batch.segment(index));
    }
}

/// Where each part of a header stands, the lowest byte of each number first.
pub proof fn parts_of_a_header_stand_in_order(frame: FrameView)
    ensures
        ({
            let bytes = frame.bytes();
            &&& bytes.len() == 20 + frame.payload.len()
            &&& bytes[0] == FRAME_TAG
            &&& bytes[1] == frame.slice_parity
            &&& bytes[2] + 0x100 * bytes[3] == frame.slot
            &&& bytes[4] + 0x100 * bytes[5] + 0x1_0000 * bytes[6] + 0x100_0000 * bytes[7]
                == frame.transfer_id
            &&& bytes[8] + 0x100 * bytes[9] + 0x1_0000 * bytes[10] + 0x100_0000 * bytes[11]
                == frame.seq
            &&& bytes[12] + 0x100 * bytes[13] + 0x1_0000 * bytes[14] + 0x100_0000 * bytes[15]
                == frame.slice_no
            &&& bytes[16] + 0x100 * bytes[17] + 0x1_0000 * bytes[18] + 0x100_0000 * bytes[19]
                == frame.emit_floor
            &&& bytes.skip(20) == frame.payload
        }),
{
    frames_read_back(frame);
    headers_have_one_width(frame);
    let bytes = frame.bytes();
    assert(read_frame(bytes).slot == wire::of_le_u16(bytes.subrange(2, 4)));
    assert(read_frame(bytes).transfer_id == wire::of_le_u32(bytes.subrange(4, 8)));
    assert(read_frame(bytes).seq == wire::of_le_u32(bytes.subrange(8, 12)));
    assert(read_frame(bytes).slice_no == wire::of_le_u32(bytes.subrange(12, 16)));
    assert(read_frame(bytes).emit_floor == wire::of_le_u32(bytes.subrange(16, 20)));
    assert(bytes.skip(20) =~= frame.payload);
}

/// One datagram takes as many segments as fit into it, but at least one, and no more than
/// the kernel cuts it into.
pub proof fn as_many_segments_go_as_fit(segment_size: int)
    requires
        segment_size > 0,
    ensures
        ({
            let segments = segments_in_datagram(segment_size);
            &&& 1 <= segments <= UDP_MAX_SEGMENTS
            &&& segments > 1 ==> segments * segment_size <= MAX_IP_DATAGRAM
            &&& segments < UDP_MAX_SEGMENTS ==> (segments + 1) * segment_size > MAX_IP_DATAGRAM
        }),
{
    let fitting = MAX_IP_DATAGRAM as int / segment_size;
    vstd::arithmetic::div_mod::lemma_fundamental_div_mod(MAX_IP_DATAGRAM as int, segment_size);
    let rest = MAX_IP_DATAGRAM as int % segment_size;
    let segments = segments_in_datagram(segment_size);
    assert(segments <= fitting ==> segments * segment_size <= MAX_IP_DATAGRAM) by (nonlinear_arith)
        requires
            MAX_IP_DATAGRAM as int == segment_size * fitting + rest,
            0 <= rest < segment_size,
    ;
    assert(segments >= fitting ==> (segments + 1) * segment_size > MAX_IP_DATAGRAM)
        by (nonlinear_arith)
        requires
            MAX_IP_DATAGRAM as int == segment_size * fitting + rest,
            0 <= rest < segment_size,
    ;
}

} // verus!
