//! Telling apart what arrives.

use crate::buffers;
use crate::proto::error::Error;
use crate::proto::frame;
use crate::proto::frame::{BatchView, Frame, FrameView, CONTROL_TAG, FRAME_TAG, HEADER_SIZE};
use crate::proto::message;
use crate::proto::message::{Message, MessageView};
use crate::wire;
use bytes::Bytes;
use vstd::prelude::*;

verus! {

/// What a datagram carries.
#[derive(Debug)]
pub enum Incoming {
    /// A shard.
    Shard(Frame),
    /// A control message.
    Control(Message),
}

/// What a datagram says.
#[verifier::ext_equal]
pub enum IncomingView {
    Shard(FrameView),
    Control(MessageView),
}

impl View for Incoming {
    type V = IncomingView;

    open spec fn view(&self) -> IncomingView {
        match self {
            Incoming::Shard(frame) => IncomingView::Shard(frame@),
            Incoming::Control(message) => IncomingView::Control(message@),
        }
    }
}

impl IncomingView {
    /// Whether a datagram belongs to a transfer. Shards name only the low 32 bits
    /// of the transfer.
    pub open spec fn belongs_to(self, transfer_id: u64) -> bool {
        match self {
            IncomingView::Shard(frame) => frame.transfer_id == transfer_id % 0x1_0000_0000,
            IncomingView::Control(message) => message.transfer_id() == transfer_id,
        }
    }
}

/// What a datagram says, if it is one.
pub open spec fn read_incoming(bytes: Seq<u8>) -> Option<IncomingView> {
    if bytes.len() == 0 {
        None
    } else if bytes[0] == CONTROL_TAG {
        match message::read_message(bytes.skip(1)) {
            Ok(message) => Some(IncomingView::Control(message)),
            Err(_) => None,
        }
    } else if bytes[0] == FRAME_TAG && bytes.len() > HEADER_SIZE {
        Some(IncomingView::Shard(frame::read_frame(bytes)))
    } else {
        None
    }
}

/// Why a datagram is none.
pub open spec fn refuses_incoming(bytes: Seq<u8>, error: Error) -> bool {
    if bytes.len() == 0 {
        error matches Error::FrameTooShort(len) && len == 0
    } else if bytes[0] == CONTROL_TAG {
        error matches Error::Decode(fault) && message::read_message(bytes.skip(1)) matches Err(why) && why == fault@
    } else if bytes.len() <= HEADER_SIZE {
        error matches Error::FrameTooShort(len) && len == bytes.len()
    } else {
        error matches Error::UnknownTag(tag) && tag == bytes[0]
    }
}

impl Incoming {
    /// Whether the datagram belongs to a transfer.
    pub fn belongs_to(&self, transfer_id: u64) -> (belongs: bool)
        ensures
            belongs == self@.belongs_to(transfer_id),
    {
        match self {
            Incoming::Shard(frame) => {
                assert(transfer_id as u32 == transfer_id % 0x1_0000_0000) by (bit_vector);
                let low: u32 =
                    #[verifier::truncate]
                    (transfer_id as u32);
                frame.transfer_id == low
            },
            Incoming::Control(message) => message.transfer_id() == transfer_id,
        }
    }

    /// The control message of the datagram, if it is one of the transfer, or of any
    /// transfer where none is named.
    pub fn control_of(self, transfer: Option<u64>) -> (message: Option<Message>)
        ensures
            match message {
                Some(message) => self == Incoming::Control(message) && (transfer matches Some(id)
                    ==> message@.transfer_id() == id),
                None => self matches Incoming::Control(message) ==> (transfer matches Some(id)
                    && message@.transfer_id() != id),
            },
    {
        match self {
            Incoming::Control(message) => match transfer {
                Some(id) => if message.transfer_id() == id {
                    Some(message)
                } else {
                    None
                },
                None => Some(message),
            },
            Incoming::Shard(_) => None,
        }
    }
}

/// What a datagram carries.
pub fn classify(datagram: Bytes) -> (result: Result<Incoming, Error>)
    ensures
        match result {
            Ok(incoming) => read_incoming(buffers::held(datagram)) == Some(incoming@),
            Err(error) => read_incoming(buffers::held(datagram)) is None && refuses_incoming(
                buffers::held(datagram),
                error,
            ),
        },
{
    let bytes = buffers::buffer_slice(&datagram);
    if bytes.len() == 0 {
        return Err(Error::FrameTooShort(0));
    }
    if bytes[0] == CONTROL_TAG {
        match Message::decode(bytes) {
            Ok(message) => Ok(Incoming::Control(message)),
            Err(error) => Err(error),
        }
    } else {
        match Frame::parse(datagram) {
            Ok(frame) => Ok(Incoming::Shard(frame)),
            Err(error) => Err(error),
        }
    }
}

/// A rule that says which datagrams to pretend never arrived.
pub struct Losing<F>(pub Option<F>);

impl<F> Default for Losing<F> {
    fn default() -> (losing: Losing<F>)
        ensures
            losing.0 is None,
    {
        Losing(None)
    }
}

impl<F: Fn(&Incoming) -> bool> Losing<F> {
    /// Loses every datagram that the rule holds of.
    pub fn every(rule: F) -> (losing: Losing<F>)
        ensures
            losing.0 == Some(rule),
    {
        Losing(Some(rule))
    }

    /// Whether the rule can be asked about any datagram.
    pub open spec fn askable(self) -> bool {
        self.0 matches Some(rule) ==> forall|incoming: Incoming| #[trigger]
            call_requires(rule, (&incoming,))
    }

    /// Whether `lost` is what the rule may say of a datagram.
    pub open spec fn decides(self, incoming: Incoming, lost: bool) -> bool {
        match self.0 {
            Some(rule) => call_ensures(rule, (&incoming,), lost),
            None => !lost,
        }
    }

    /// Whether to pretend that a datagram never arrived.
    pub fn swallows(&self, incoming: &Incoming) -> (lost: bool)
        requires
            self.askable(),
        ensures
            self.decides(*incoming, lost),
    {
        match &self.0 {
            Some(rule) => rule(incoming),
            None => false,
        }
    }
}

/// The datagram at an index of those that were read in one piece, each `stride`
/// bytes long but for the last.
pub open spec fn segment(read: Seq<u8>, stride: int, index: int) -> Seq<u8> {
    let end = (index + 1) * stride;
    read.subrange(
        index * stride,
        if end <= read.len() {
            end
        } else {
            read.len() as int
        },
    )
}

/// Whether there is a datagram at an index.
pub open spec fn has_segment(read: Seq<u8>, stride: int, index: int) -> bool {
    index * stride < read.len()
}

/// Those datagrams that belong to a transfer and are not lost.
pub open spec fn kept(
    arrived: Seq<Incoming>,
    lost: Seq<bool>,
    transfer_id: u64,
    upto: int,
) -> Seq<Incoming>
    decreases upto,
{
    if upto <= 0 {
        Seq::empty()
    } else {
        let before = kept(arrived, lost, transfer_id, upto - 1);
        if arrived[upto - 1]@.belongs_to(transfer_id) && !lost[upto - 1] {
            before.push(arrived[upto - 1])
        } else {
            before
        }
    }
}

/// How far apart the datagrams of one piece stand.
pub open spec fn stride_of(len: nat, stride: Option<usize>) -> int {
    match stride {
        Some(stride) => if stride <= len {
            stride as int
        } else {
            len as int
        },
        None => len as int,
    }
}

/// Whether `arrived` are the first datagrams of what was read, `lost` is what the
/// rule says of each that belongs to the transfer, and `out` gained those that
/// belong to it and are not lost.
pub open spec fn sifted<F: Fn(&Incoming) -> bool>(
    losing: Losing<F>,
    read: Seq<u8>,
    stride: int,
    transfer_id: u64,
    arrived: Seq<Incoming>,
    lost: Seq<bool>,
    before: Seq<Incoming>,
    out: Seq<Incoming>,
) -> bool {
    &&& lost.len() == arrived.len()
    &&& forall|i: int|
        #![trigger arrived[i]]
        0 <= i < arrived.len() ==> {
            &&& has_segment(read, stride, i)
            &&& read_incoming(segment(read, stride, i)) == Some(arrived[i]@)
            &&& arrived[i]@.belongs_to(transfer_id) ==> losing.decides(arrived[i], lost[i])
        }
    &&& out == before + kept(arrived, lost, transfer_id, arrived.len() as int)
}

/// Whether taking apart what was read ends after that many datagrams: they were
/// all, or the next is none.
pub open spec fn stops_at(
    read: Seq<u8>,
    stride: int,
    count: int,
    result: Result<(), Error>,
) -> bool {
    match result {
        Ok(_) => !has_segment(read, stride, count),
        Err(error) => {
            &&& has_segment(read, stride, count)
            &&& read_incoming(segment(read, stride, count)) is None
            &&& refuses_incoming(segment(read, stride, count), error)
        },
    }
}

/// Takes apart what was read in one piece, and keeps the datagrams that belong to
/// the transfer and are not lost. It stops at the first that is none.
#[verifier::rlimit(60)]
pub fn split_read<F: Fn(&Incoming) -> bool>(
    read: Bytes,
    stride: Option<usize>,
    transfer_id: u64,
    losing: &Losing<F>,
    out: &mut Vec<Incoming>,
) -> (result: Result<(), Error>)
    requires
        0 < buffers::held(read).len() <= isize::MAX,
        stride != Some(0usize),
        losing.askable(),
    ensures
        exists|arrived: Seq<Incoming>, lost: Seq<bool>| #[trigger]
            sifted(
                *losing,
                buffers::held(read),
                stride_of(buffers::held(read).len(), stride),
                transfer_id,
                arrived,
                lost,
                old(out)@,
                final(out)@,
            ) && stops_at(
                buffers::held(read),
                stride_of(buffers::held(read).len(), stride),
                arrived.len() as int,
                result,
            ),
{
    let len: usize = buffers::buffer_len(&read);
    let step: usize = match stride {
        Some(stride) => if stride <= len {
            stride
        } else {
            len
        },
        None => len,
    };
    let ghost bytes = buffers::held(read);
    let ghost mut arrived: Seq<Incoming> = Seq::empty();
    let ghost mut lost: Seq<bool> = Seq::empty();
    let mut at: usize = 0;
    assert(out@ + kept(arrived, lost, transfer_id, 0) =~= out@);
    while at < len
        invariant
            len == bytes.len() <= isize::MAX,
            bytes == buffers::held(read),
            0 < step <= len,
            step == stride_of(bytes.len(), stride),
            losing.askable(),
            at == arrived.len() * step,
            at <= len + step,
            sifted(*losing, bytes, step as int, transfer_id, arrived, lost, old(out)@, out@),
        decreases len + step - at,
    {
        let ghost index = arrived.len() as int;
        let end: usize = if step <= len - at {
            at + step
        } else {
            len
        };
        proof {
            assert((index + 1) * step == index * step + step) by (nonlinear_arith);
            assert(segment(bytes, step as int, index) == bytes.subrange(at as int, end as int));
        }
        let incoming = match classify(buffers::buffer_part(&read, at, end)) {
            Ok(incoming) => incoming,
            Err(error) => return Err(error),
        };
        let belongs = incoming.belongs_to(transfer_id);
        let swallowed = if belongs {
            losing.swallows(&incoming)
        } else {
            false
        };
        proof {
            lemma_sifted_on(
                *losing,
                bytes,
                step as int,
                transfer_id,
                arrived,
                lost,
                old(out)@,
                out@,
                incoming,
                swallowed,
            );
            arrived = arrived.push(incoming);
            lost = lost.push(swallowed);
        }
        if belongs && !swallowed {
            out.push(incoming);
        }
        at = at + step;
    }
    Ok(())
}

proof fn lemma_sifted_on<F: Fn(&Incoming) -> bool>(
    losing: Losing<F>,
    read: Seq<u8>,
    stride: int,
    transfer_id: u64,
    arrived: Seq<Incoming>,
    lost: Seq<bool>,
    before: Seq<Incoming>,
    out: Seq<Incoming>,
    incoming: Incoming,
    swallowed: bool,
)
    requires
        sifted(losing, read, stride, transfer_id, arrived, lost, before, out),
        has_segment(read, stride, arrived.len() as int),
        read_incoming(segment(read, stride, arrived.len() as int)) == Some(incoming@),
        incoming@.belongs_to(transfer_id) ==> losing.decides(incoming, swallowed),
    ensures
        sifted(
            losing,
            read,
            stride,
            transfer_id,
            arrived.push(incoming),
            lost.push(swallowed),
            before,
            if incoming@.belongs_to(transfer_id) && !swallowed {
                out.push(incoming)
            } else {
                out
            },
        ),
{
    let longer = arrived.push(incoming);
    let more = lost.push(swallowed);
    let index = arrived.len() as int;
    lemma_kept_prefix(arrived, lost, longer, more, transfer_id, index);
    let after = if incoming@.belongs_to(transfer_id) && !swallowed {
        out.push(incoming)
    } else {
        out
    };
    assert(after =~= before + kept(longer, more, transfer_id, longer.len() as int));
    assert forall|i: int|
        #![trigger longer[i]]
        #![trigger has_segment(read, stride, i)]
        0 <= i < longer.len() implies {
        &&& has_segment(read, stride, i)
        &&& read_incoming(segment(read, stride, i)) == Some(longer[i]@)
        &&& longer[i]@.belongs_to(transfer_id) ==> losing.decides(longer[i], more[i])
    } by {
        if i < index {
            assert(longer[i] == arrived[i]);
            assert(more[i] == lost[i]);
        }
    }
}

proof fn lemma_kept_prefix(
    arrived: Seq<Incoming>,
    lost: Seq<bool>,
    longer: Seq<Incoming>,
    more: Seq<bool>,
    transfer_id: u64,
    upto: int,
)
    requires
        0 <= upto <= arrived.len() <= longer.len(),
        arrived.len() == lost.len(),
        longer.len() == more.len(),
        forall|i: int| 0 <= i < arrived.len() ==> longer[i] == arrived[i] && more[i] == lost[i],
    ensures
        kept(longer, more, transfer_id, upto) == kept(arrived, lost, transfer_id, upto),
    decreases upto,
{
    if upto > 0 {
        lemma_kept_prefix(arrived, lost, longer, more, transfer_id, upto - 1);
    }
}

/// A shard arrives as it was sent.
pub proof fn a_shard_arrives_as_it_was_sent(frame: FrameView)
    requires
        frame.payload.len() > 0,
    ensures
        read_incoming(frame.bytes()) == Some(IncomingView::Shard(frame)),
{
    frame::headers_have_one_width(frame);
    frame::frames_read_back(frame);
}

/// A control message arrives as it was sent.
pub proof fn a_message_arrives_as_it_was_sent(message: MessageView)
    requires
        message.sound(),
    ensures
        read_incoming(message.bytes()) == Some(IncomingView::Control(message)),
{
    message::messages_read_back(message, Seq::empty());
}

/// A batch that is read in one piece comes apart into the segments that were staged.
pub proof fn a_batch_comes_apart_into_its_segments(batch: BatchView, index: int)
    requires
        batch.valid(),
        0 <= index < batch.segments,
    ensures
        has_segment(batch.filled(), batch.segment_size as int, index),
        segment(batch.filled(), batch.segment_size as int, index) == batch.segment(index),
        !has_segment(batch.filled(), batch.segment_size as int, batch.segments as int),
{
    let size = batch.segment_size as int;
    let count = batch.segments as int;
    let capacity = batch.capacity as int;
    assert(0 <= index * size && (index + 1) * size == index * size + size && (index + 1) * size
        <= count * size && count * size <= capacity * size) by (nonlinear_arith)
        requires
            0 <= index < count <= capacity,
            0 <= size,
    ;
    assert(segment(batch.filled(), size, index) =~= batch.segment(index));
}

/// A shard belongs to the transfers whose number ends in the 32 bits that it names, and a
/// control message to the one that it names.
pub proof fn what_belongs_is_told_by_its_number(arrival: IncomingView, high: u32, low: u32)
    ensures
        arrival matches IncomingView::Shard(frame) ==> (arrival.belongs_to(
            (high * 0x1_0000_0000 + low) as u64,
        ) <==> frame.transfer_id == low),
        arrival matches IncomingView::Control(message) ==> (arrival.belongs_to(
            (high * 0x1_0000_0000 + low) as u64,
        ) <==> message.transfer_id() == high * 0x1_0000_0000 + low),
{
}

proof fn lemma_le_u16(bytes: Seq<u8>)
    requires
        bytes.len() == 2,
    ensures
        wire::le_u16(wire::of_le_u16(bytes)) == bytes,
{
    assert(wire::le_u16(wire::of_le_u16(bytes)) =~= bytes);
}

proof fn lemma_le_u32(bytes: Seq<u8>)
    requires
        bytes.len() == 4,
    ensures
        wire::le_u32(wire::of_le_u32(bytes)) == bytes,
{
    let (a, b, c, d) = (bytes[0], bytes[1], bytes[2], bytes[3]);
    let value = wire::of_le_u32(bytes);
    assert(value == a + 256 * b + 0x1_0000 * c + 0x100_0000 * d);
    assert(value % 256 == a && value / 256 % 256 == b && value / 0x1_0000 % 256 == c && value
        / 0x100_0000 == d) by (bit_vector)
        requires
            value == a + 256 * b + 0x1_0000 * c + 0x100_0000 * d,
    ;
    assert(wire::le_u32(value) =~= bytes);
}

proof fn lemma_parts_make_up_a_header(bytes: Seq<u8>)
    requires
        bytes.len() >= HEADER_SIZE,
    ensures
        seq![bytes[0], bytes[1]] + bytes.subrange(2, 4) + bytes.subrange(4, 8) + bytes.subrange(
            8,
            12,
        ) + bytes.subrange(12, 16) + bytes.subrange(16, 20) + bytes.skip(HEADER_SIZE as int)
            == bytes,
{
    assert(seq![bytes[0], bytes[1]] =~= bytes.subrange(0, 2));
    assert(bytes.subrange(0, 2) + bytes.subrange(2, 4) =~= bytes.subrange(0, 4));
    assert(bytes.subrange(0, 4) + bytes.subrange(4, 8) =~= bytes.subrange(0, 8));
    assert(bytes.subrange(0, 8) + bytes.subrange(8, 12) =~= bytes.subrange(0, 12));
    assert(bytes.subrange(0, 12) + bytes.subrange(12, 16) =~= bytes.subrange(0, 16));
    assert(bytes.subrange(0, 16) + bytes.subrange(16, 20) =~= bytes.subrange(0, 20));
    assert(bytes.subrange(0, 20) + bytes.skip(20) =~= bytes);
}

/// Only the datagram of a shard reads as that shard.
pub proof fn only_its_datagram_reads_as_a_shard(bytes: Seq<u8>)
    ensures
        read_incoming(bytes) matches Some(IncomingView::Shard(frame)) ==> frame.bytes() == bytes
            && frame.payload.len() > 0,
{
    if bytes.len() > HEADER_SIZE && bytes[0] == FRAME_TAG {
        lemma_le_u16(bytes.subrange(2, 4));
        lemma_le_u32(bytes.subrange(4, 8));
        lemma_le_u32(bytes.subrange(8, 12));
        lemma_le_u32(bytes.subrange(12, 16));
        lemma_le_u32(bytes.subrange(16, 20));
        lemma_parts_make_up_a_header(bytes);
    }
}

/// The datagrams that are read in one piece make it up: every byte stands in the one at its
/// place, none is empty, none is longer than the stride, and only the last is shorter.
pub proof fn what_is_read_comes_apart_without_loss(read: Seq<u8>, stride: int, at: int)
    requires
        0 < stride,
        0 <= at < read.len(),
    ensures
        ({
            let index = at / stride;
            &&& has_segment(read, stride, index)
            &&& 0 <= at % stride < segment(read, stride, index).len() <= stride
            &&& segment(read, stride, index)[at % stride] == read[at]
            &&& has_segment(read, stride, index + 1) ==> segment(read, stride, index).len() == stride
        }),
{
    let index = at / stride;
    vstd::arithmetic::div_mod::lemma_fundamental_div_mod(at, stride);
    vstd::arithmetic::div_mod::lemma_div_pos_is_pos(at, stride);
    assert(stride * index == index * stride && (index + 1) * stride == index * stride + stride && 0
        <= index * stride) by (nonlinear_arith)
        requires
            0 <= index,
            0 < stride,
    ;
}

/// The places of those datagrams that belong to a transfer and are not lost.
pub open spec fn places_kept(
    arrived: Seq<Incoming>,
    lost: Seq<bool>,
    transfer_id: u64,
    upto: int,
) -> Seq<int> {
    Seq::new(upto as nat, |i: int| i).filter(
        |i: int| arrived[i]@.belongs_to(transfer_id) && !lost[i],
    )
}

/// Of what arrives exactly that is kept which belongs to the transfer and is not lost, in
/// the order in which it arrived.
pub proof fn what_belongs_and_is_not_lost_is_kept(
    arrived: Seq<Incoming>,
    lost: Seq<bool>,
    transfer_id: u64,
    upto: int,
)
    requires
        0 <= upto <= arrived.len(),
        lost.len() == arrived.len(),
    ensures
        kept(arrived, lost, transfer_id, upto) == places_kept(
            arrived,
            lost,
            transfer_id,
            upto,
        ).map_values(|i: int| arrived[i]),
    decreases upto,
{
    reveal(Seq::filter);
    let places = Seq::new(upto as nat, |i: int| i);
    if upto > 0 {
        what_belongs_and_is_not_lost_is_kept(arrived, lost, transfer_id, upto - 1);
        assert(places.drop_last() =~= Seq::new((upto - 1) as nat, |i: int| i));
        assert(places.last() == upto - 1);
    }
    assert(kept(arrived, lost, transfer_id, upto) =~= places_kept(
        arrived,
        lost,
        transfer_id,
        upto,
    ).map_values(|i: int| arrived[i]));
}

/// What is read in one piece is one datagram, unless its parts are told to be shorter.
pub proof fn a_piece_is_one_datagram_unless_told_otherwise(len: nat, stride: Option<usize>)
    ensures
        stride is None ==> stride_of(len, stride) == len,
        stride matches Some(told) ==> {
            &&& stride_of(len, stride) <= told && stride_of(len, stride) <= len
            &&& stride_of(len, stride) == told || stride_of(len, stride) == len
        },
{
}

} // verus!
