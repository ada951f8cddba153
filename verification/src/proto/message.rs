//! Control messages.

use crate::nonzero::{NonZeroU16, NonZeroU32};
use crate::proto::error::Error;
use crate::proto::frame::CONTROL_TAG;
use crate::proto::payload::{
    Done, Evicted, EvictedView, Hello, HelloView, Nak, NakView, Stats,
};
use crate::wire;
use crate::wire::{DecodeFault, FaultView, Field, FieldView};
use vstd::prelude::*;

verus! {

/// The most bytes that a control message takes.
pub const MAX_CONTROL_SIZE: usize = 2048;

/// A control message.
#[derive(Debug, Clone, PartialEq)]
pub enum Message {
    /// From the sender to the group.
    Hello(Hello),
    /// From a receiver to the sender: it joined the group.
    Join { transfer_id: u64, receiver_id: u64 },
    /// From a receiver to the sender: it left the group.
    Leave { transfer_id: u64, receiver_id: u64 },
    /// From a receiver to the sender.
    Stats(Stats),
    /// From a receiver to the sender.
    Nak(Nak),
    /// From the sender to the group.
    Evicted(Evicted),
    /// From the sender to the group.
    Done(Done),
}

/// What a control message says.
#[verifier::ext_equal]
pub enum MessageView {
    Hello(HelloView),
    Join { transfer_id: u64, receiver_id: u64 },
    Leave { transfer_id: u64, receiver_id: u64 },
    Stats(Stats),
    Nak(NakView),
    Evicted(EvictedView),
    Done(Done),
}

impl View for Message {
    type V = MessageView;

    open spec fn view(&self) -> MessageView {
        match self {
            Message::Hello(hello) => MessageView::Hello(hello@),
            Message::Join { transfer_id, receiver_id } => MessageView::Join {
                transfer_id: *transfer_id,
                receiver_id: *receiver_id,
            },
            Message::Leave { transfer_id, receiver_id } => MessageView::Leave {
                transfer_id: *transfer_id,
                receiver_id: *receiver_id,
            },
            Message::Stats(stats) => MessageView::Stats(*stats),
            Message::Nak(nak) => MessageView::Nak(nak@),
            Message::Evicted(evicted) => MessageView::Evicted(evicted@),
            Message::Done(done) => MessageView::Done(*done),
        }
    }
}

impl MessageView {
    /// The transfer that a message belongs to.
    pub open spec fn transfer_id(self) -> u64 {
        match self {
            MessageView::Hello(hello) => hello.transfer_id,
            MessageView::Join { transfer_id, receiver_id } => transfer_id,
            MessageView::Leave { transfer_id, receiver_id } => transfer_id,
            MessageView::Stats(stats) => stats.transfer_id,
            MessageView::Nak(nak) => nak.transfer_id,
            MessageView::Evicted(evicted) => evicted.transfer_id,
            MessageView::Done(done) => done.transfer_id,
        }
    }

    /// The fields of a message: the number of its kind, and what it carries.
    pub open spec fn fields(self) -> Seq<FieldView> {
        match self {
            MessageView::Hello(hello) => seq![
                FieldView::Uint(0),
                FieldView::Uint(hello.transfer_id),
                FieldView::Uint(hello.block_size as u64),
                FieldView::Uint(hello.blocks_per_slice as u64),
                FieldView::Byte(hello.parity_per_slice),
                FieldView::Uint(hello.max_live_slices as u64),
            ] + wire::optional_fields(hello.total_bytes),
            MessageView::Join { transfer_id, receiver_id } => seq![
                FieldView::Uint(1),
                FieldView::Uint(transfer_id),
                FieldView::Uint(receiver_id),
            ],
            MessageView::Leave { transfer_id, receiver_id } => seq![
                FieldView::Uint(2),
                FieldView::Uint(transfer_id),
                FieldView::Uint(receiver_id),
            ],
            MessageView::Stats(stats) => seq![
                FieldView::Uint(3),
                FieldView::Uint(stats.transfer_id),
                FieldView::Uint(stats.receiver_id),
                FieldView::Uint(stats.total_received),
                FieldView::Uint(stats.total_expected),
                FieldView::Uint(stats.next_needed_slice as u64),
                FieldView::Uint(stats.sink_stall_ms as u64),
            ],
            MessageView::Nak(nak) => seq![
                FieldView::Uint(4),
                FieldView::Uint(nak.transfer_id),
                FieldView::Uint(nak.receiver_id),
                FieldView::Uint(nak.slice_no as u64),
                FieldView::Uint(nak.missing.len() as u64),
            ] + wire::item_fields(nak.missing),
            MessageView::Evicted(evicted) => seq![
                FieldView::Uint(5),
                FieldView::Uint(evicted.transfer_id),
                FieldView::Uint(evicted.target),
                FieldView::Run(vstd::utf8::encode_utf8(evicted.reason)),
            ],
            MessageView::Done(done) => seq![
                FieldView::Uint(6),
                FieldView::Uint(done.transfer_id),
                FieldView::Uint(done.total_bytes),
                FieldView::Uint(done.total_blocks),
            ],
        }
    }

    /// The datagram of a message.
    pub open spec fn bytes(self) -> Seq<u8> {
        seq![CONTROL_TAG] + wire::fields_bytes(self.fields())
    }

    /// Whether the integers that are never zero are not, and the lengths can be
    /// counted.
    pub open spec fn sound(self) -> bool {
        match self {
            MessageView::Hello(hello) => {
                &&& hello.block_size != 0
                &&& hello.blocks_per_slice != 0
                &&& hello.max_live_slices != 0
            },
            MessageView::Nak(nak) => nak.missing.len() <= u64::MAX,
            MessageView::Evicted(evicted) => vstd::utf8::encode_utf8(evicted.reason).len()
                <= u64::MAX,
            _ => true,
        }
    }
}

/// Two integers of 64 bits that start a run of bytes, and what follows them.
pub open spec fn read_pair(bytes: Seq<u8>) -> Result<(u64, u64, Seq<u8>), FaultView> {
    match wire::read_uint(bytes, 8) {
        Ok((first, rest)) => match wire::read_uint(rest, 8) {
            Ok((second, rest)) => Ok((first, second, rest)),
            Err(fault) => Err(fault),
        },
        Err(fault) => Err(fault),
    }
}

/// The announcement that starts a run of bytes, and what follows it.
pub open spec fn read_hello(bytes: Seq<u8>) -> Result<(HelloView, Seq<u8>), FaultView> {
    match wire::read_uint(bytes, 8) {
        Ok((transfer_id, rest)) => match wire::read_nonzero(rest, 4) {
            Ok((block_size, rest)) => match wire::read_nonzero(rest, 2) {
                Ok((blocks_per_slice, rest)) => match wire::read_byte(rest) {
                    Ok((parity_per_slice, rest)) => match wire::read_nonzero(rest, 2) {
                        Ok((max_live_slices, rest)) => match wire::read_optional(rest, 8) {
                            Ok((total_bytes, rest)) => Ok(
                                (
                                    HelloView {
                                        transfer_id,
                                        block_size: block_size as u32,
                                        blocks_per_slice: blocks_per_slice as u16,
                                        parity_per_slice,
                                        max_live_slices: max_live_slices as u16,
                                        total_bytes,
                                    },
                                    rest,
                                ),
                            ),
                            Err(fault) => Err(fault),
                        },
                        Err(fault) => Err(fault),
                    },
                    Err(fault) => Err(fault),
                },
                Err(fault) => Err(fault),
            },
            Err(fault) => Err(fault),
        },
        Err(fault) => Err(fault),
    }
}

/// The report that starts a run of bytes, and what follows it.
pub open spec fn read_stats(bytes: Seq<u8>) -> Result<(Stats, Seq<u8>), FaultView> {
    match read_pair(bytes) {
        Ok((transfer_id, receiver_id, rest)) => match read_pair(rest) {
            Ok((total_received, total_expected, rest)) => match wire::read_uint(rest, 4) {
                Ok((next_needed_slice, rest)) => match wire::read_uint(rest, 4) {
                    Ok((sink_stall_ms, rest)) => Ok(
                        (
                            Stats {
                                transfer_id,
                                receiver_id,
                                total_received,
                                total_expected,
                                next_needed_slice: next_needed_slice as u32,
                                sink_stall_ms: sink_stall_ms as u32,
                            },
                            rest,
                        ),
                    ),
                    Err(fault) => Err(fault),
                },
                Err(fault) => Err(fault),
            },
            Err(fault) => Err(fault),
        },
        Err(fault) => Err(fault),
    }
}

/// The request that starts a run of bytes, and what follows it.
pub open spec fn read_nak(bytes: Seq<u8>) -> Result<(NakView, Seq<u8>), FaultView> {
    match read_pair(bytes) {
        Ok((transfer_id, receiver_id, rest)) => match wire::read_uint(rest, 4) {
            Ok((slice_no, rest)) => match wire::read_list(rest) {
                Ok((missing, rest)) => Ok(
                    (
                        NakView { transfer_id, receiver_id, slice_no: slice_no as u32, missing },
                        rest,
                    ),
                ),
                Err(fault) => Err(fault),
            },
            Err(fault) => Err(fault),
        },
        Err(fault) => Err(fault),
    }
}

/// The eviction that starts a run of bytes, and what follows it.
pub open spec fn read_evicted(bytes: Seq<u8>) -> Result<(EvictedView, Seq<u8>), FaultView> {
    match read_pair(bytes) {
        Ok((transfer_id, target, rest)) => match wire::read_text(rest) {
            Ok((reason, rest)) => Ok((EvictedView { transfer_id, target, reason }, rest)),
            Err(fault) => Err(fault),
        },
        Err(fault) => Err(fault),
    }
}

/// The end of a transfer that starts a run of bytes, and what follows it.
pub open spec fn read_done(bytes: Seq<u8>) -> Result<(Done, Seq<u8>), FaultView> {
    match read_pair(bytes) {
        Ok((transfer_id, total_bytes, rest)) => match wire::read_uint(rest, 8) {
            Ok((total_blocks, rest)) => Ok(
                (Done { transfer_id, total_bytes, total_blocks }, rest),
            ),
            Err(fault) => Err(fault),
        },
        Err(fault) => Err(fault),
    }
}

/// The message that starts a run of bytes. What follows it is passed over.
pub open spec fn read_message(bytes: Seq<u8>) -> Result<MessageView, FaultView> {
    match wire::read_uint(bytes, 4) {
        Ok((kind, rest)) => if kind == 0 {
            match read_hello(rest) {
                Ok((hello, _)) => Ok(MessageView::Hello(hello)),
                Err(fault) => Err(fault),
            }
        } else if kind == 1 {
            match read_pair(rest) {
                Ok((transfer_id, receiver_id, _)) => Ok(
                    MessageView::Join { transfer_id, receiver_id },
                ),
                Err(fault) => Err(fault),
            }
        } else if kind == 2 {
            match read_pair(rest) {
                Ok((transfer_id, receiver_id, _)) => Ok(
                    MessageView::Leave { transfer_id, receiver_id },
                ),
                Err(fault) => Err(fault),
            }
        } else if kind == 3 {
            match read_stats(rest) {
                Ok((stats, _)) => Ok(MessageView::Stats(stats)),
                Err(fault) => Err(fault),
            }
        } else if kind == 4 {
            match read_nak(rest) {
                Ok((nak, _)) => Ok(MessageView::Nak(nak)),
                Err(fault) => Err(fault),
            }
        } else if kind == 5 {
            match read_evicted(rest) {
                Ok((evicted, _)) => Ok(MessageView::Evicted(evicted)),
                Err(fault) => Err(fault),
            }
        } else if kind == 6 {
            match read_done(rest) {
                Ok((done, _)) => Ok(MessageView::Done(done)),
                Err(fault) => Err(fault),
            }
        } else {
            Err(FaultView::Kind(kind as u32))
        },
        Err(fault) => Err(fault),
    }
}

proof fn lemma_pair_first(fields: Seq<FieldView>, first: u64, second: u64, rest: Seq<u8>)
    requires
        fields.len() >= 2,
        fields[0] == FieldView::Uint(first),
        fields[1] == FieldView::Uint(second),
    ensures
        read_pair(wire::fields_bytes(fields) + rest) == Ok::<_, FaultView>(
            (first, second, wire::fields_bytes(fields.skip(2)) + rest),
        ),
{
    wire::uint_first(fields, first, 8, rest);
    wire::uint_first(fields.skip(1), second, 8, rest);
    assert(fields.skip(1).skip(1) =~= fields.skip(2));
}

/// Every message reads back from its datagram as what it said, whatever follows.
pub proof fn messages_read_back(message: MessageView, rest: Seq<u8>)
    requires
        message.sound(),
    ensures
        read_message(wire::fields_bytes(message.fields()) + rest) == Ok::<_, FaultView>(message),
        message.bytes()[0] == CONTROL_TAG,
        read_message(message.bytes().skip(1)) == Ok::<_, FaultView>(message),
{
    lemma_reads_back(message, rest);
    lemma_reads_back(message, Seq::empty());
    let body = wire::fields_bytes(message.fields());
    assert(body + Seq::<u8>::empty() =~= body);
    assert(message.bytes().skip(1) =~= body);
}

proof fn lemma_hello_reads_back(hello: HelloView, fields: Seq<FieldView>, rest: Seq<u8>)
    requires
        MessageView::Hello(hello).sound(),
        fields == MessageView::Hello(hello).fields().skip(1),
    ensures
        read_hello(wire::fields_bytes(fields) + rest) == Ok::<_, FaultView>((hello, rest)),
{
    wire::uint_first(fields, hello.transfer_id, 8, rest);
    let fields = fields.skip(1);
    wire::uint_first(fields, hello.block_size as u64, 4, rest);
    let fields = fields.skip(1);
    wire::uint_first(fields, hello.blocks_per_slice as u64, 2, rest);
    let fields = fields.skip(1);
    wire::byte_first(fields, hello.parity_per_slice, rest);
    let fields = fields.skip(1);
    wire::uint_first(fields, hello.max_live_slices as u64, 2, rest);
    let fields = fields.skip(1);
    assert(fields =~= wire::optional_fields(hello.total_bytes));
    wire::optional_reads_back(hello.total_bytes, 8, rest);
}

proof fn lemma_stats_reads_back(stats: Stats, fields: Seq<FieldView>, rest: Seq<u8>)
    requires
        fields == MessageView::Stats(stats).fields().skip(1),
    ensures
        read_stats(wire::fields_bytes(fields) + rest) matches Ok((read, _)) && read == stats,
{
    lemma_pair_first(fields, stats.transfer_id, stats.receiver_id, rest);
    let fields = fields.skip(2);
    lemma_pair_first(fields, stats.total_received, stats.total_expected, rest);
    let fields = fields.skip(2);
    wire::uint_first(fields, stats.next_needed_slice as u64, 4, rest);
    let fields = fields.skip(1);
    wire::uint_first(fields, stats.sink_stall_ms as u64, 4, rest);
}

proof fn lemma_nak_reads_back(nak: NakView, fields: Seq<FieldView>, rest: Seq<u8>)
    requires
        MessageView::Nak(nak).sound(),
        fields == MessageView::Nak(nak).fields().skip(1),
    ensures
        read_nak(wire::fields_bytes(fields) + rest) == Ok::<_, FaultView>((nak, rest)),
{
    lemma_pair_first(fields, nak.transfer_id, nak.receiver_id, rest);
    let fields = fields.skip(2);
    wire::uint_first(fields, nak.slice_no as u64, 4, rest);
    let fields = fields.skip(1);
    assert(fields =~= seq![FieldView::Uint(nak.missing.len() as u64)] + wire::item_fields(
        nak.missing,
    ));
    wire::list_reads_back(nak.missing, rest);
}

proof fn lemma_evicted_reads_back(evicted: EvictedView, fields: Seq<FieldView>, rest: Seq<u8>)
    requires
        MessageView::Evicted(evicted).sound(),
        fields == MessageView::Evicted(evicted).fields().skip(1),
    ensures
        read_evicted(wire::fields_bytes(fields) + rest) == Ok::<_, FaultView>((evicted, rest)),
{
    lemma_pair_first(fields, evicted.transfer_id, evicted.target, rest);
    wire::text_first(fields.skip(2), evicted.reason, rest);
}

proof fn lemma_done_reads_back(done: Done, fields: Seq<FieldView>, rest: Seq<u8>)
    requires
        fields == MessageView::Done(done).fields().skip(1),
    ensures
        read_done(wire::fields_bytes(fields) + rest) matches Ok((read, _)) && read == done,
{
    lemma_pair_first(fields, done.transfer_id, done.total_bytes, rest);
    let fields = fields.skip(2);
    wire::uint_first(fields, done.total_blocks, 8, rest);
}

proof fn lemma_kind_first(message: MessageView, kind: u64, rest: Seq<u8>)
    requires
        message.fields().len() > 0,
        message.fields()[0] == FieldView::Uint(kind),
        kind <= 6,
    ensures
        wire::read_uint(wire::fields_bytes(message.fields()) + rest, 4) == Ok::<_, FaultView>(
            (kind, wire::fields_bytes(message.fields().skip(1)) + rest),
        ),
{
    wire::uint_first(message.fields(), kind, 4, rest);
}

#[verifier::spinoff_prover]
#[verifier::rlimit(80)]
proof fn lemma_reads_back(message: MessageView, rest: Seq<u8>)
    requires
        message.sound(),
    ensures
        read_message(wire::fields_bytes(message.fields()) + rest) == Ok::<_, FaultView>(message),
{
    let fields = message.fields().skip(1);
    match message {
        MessageView::Hello(hello) => {
            lemma_kind_first(message, 0, rest);
            lemma_hello_reads_back(hello, fields, rest);
        },
        MessageView::Join { transfer_id, receiver_id } => {
            lemma_kind_first(message, 1, rest);
            lemma_pair_first(fields, transfer_id, receiver_id, rest);
        },
        MessageView::Leave { transfer_id, receiver_id } => {
            lemma_kind_first(message, 2, rest);
            lemma_pair_first(fields, transfer_id, receiver_id, rest);
        },
        MessageView::Stats(stats) => {
            lemma_kind_first(message, 3, rest);
            lemma_stats_reads_back(stats, fields, rest);
        },
        MessageView::Nak(nak) => {
            lemma_kind_first(message, 4, rest);
            lemma_nak_reads_back(nak, fields, rest);
        },
        MessageView::Evicted(evicted) => {
            lemma_kind_first(message, 5, rest);
            lemma_evicted_reads_back(evicted, fields, rest);
        },
        MessageView::Done(done) => {
            lemma_kind_first(message, 6, rest);
            lemma_done_reads_back(done, fields, rest);
        },
    }
}

fn pair_at(bytes: &[u8], at: usize) -> (result: Result<(u64, u64, usize), DecodeFault>)
    requires
        at <= bytes@.len(),
    ensures
        match result {
            Ok((first, second, end)) => end <= bytes@.len() && read_pair(bytes@.skip(at as int))
                == Ok::<_, FaultView>((first, second, bytes@.skip(end as int))),
            Err(fault) => read_pair(bytes@.skip(at as int)) matches Err(why) && why == fault@,
        },
{
    let (first, at): (u64, usize) = wire::u64_at(bytes, at)?;
    let (second, at): (u64, usize) = wire::u64_at(bytes, at)?;
    Ok((first, second, at))
}

fn hello_at(bytes: &[u8], at: usize) -> (result: Result<Hello, DecodeFault>)
    requires
        at <= bytes@.len(),
    ensures
        match result {
            Ok(hello) => read_hello(bytes@.skip(at as int)) matches Ok((read, _)) && hello@ == read,
            Err(fault) => read_hello(bytes@.skip(at as int)) matches Err(why) && why == fault@,
        },
{
    let (transfer_id, at): (u64, usize) = wire::u64_at(bytes, at)?;
    let (block_size, at): (u32, usize) = wire::u32_at(bytes, at)?;
    let block_size = match NonZeroU32::new(block_size) {
        Some(block_size) => block_size,
        None => return Err(DecodeFault::Zero),
    };
    let (blocks_per_slice, at): (u16, usize) = wire::u16_at(bytes, at)?;
    let blocks_per_slice = match NonZeroU16::new(blocks_per_slice) {
        Some(blocks_per_slice) => blocks_per_slice,
        None => return Err(DecodeFault::Zero),
    };
    let (parity_per_slice, at): (u8, usize) = wire::byte_at(bytes, at)?;
    let (max_live_slices, at): (u16, usize) = wire::u16_at(bytes, at)?;
    let max_live_slices = match NonZeroU16::new(max_live_slices) {
        Some(max_live_slices) => max_live_slices,
        None => return Err(DecodeFault::Zero),
    };
    let (total_bytes, _): (Option<u64>, usize) = wire::optional_u64_at(bytes, at)?;
    Ok(
        Hello {
            transfer_id,
            block_size,
            blocks_per_slice,
            parity_per_slice,
            max_live_slices,
            total_bytes,
        },
    )
}

fn stats_at(bytes: &[u8], at: usize) -> (result: Result<Stats, DecodeFault>)
    requires
        at <= bytes@.len(),
    ensures
        match result {
            Ok(stats) => read_stats(bytes@.skip(at as int)) matches Ok((read, _)) && stats == read,
            Err(fault) => read_stats(bytes@.skip(at as int)) matches Err(why) && why == fault@,
        },
{
    let (transfer_id, receiver_id, at): (u64, u64, usize) = pair_at(bytes, at)?;
    let (total_received, total_expected, at): (u64, u64, usize) = pair_at(bytes, at)?;
    let (next_needed_slice, at): (u32, usize) = wire::u32_at(bytes, at)?;
    let (sink_stall_ms, _): (u32, usize) = wire::u32_at(bytes, at)?;
    Ok(
        Stats {
            transfer_id,
            receiver_id,
            total_received,
            total_expected,
            next_needed_slice,
            sink_stall_ms,
        },
    )
}

fn nak_at(bytes: &[u8], at: usize) -> (result: Result<Nak, DecodeFault>)
    requires
        at <= bytes@.len(),
    ensures
        match result {
            Ok(nak) => read_nak(bytes@.skip(at as int)) matches Ok((read, _)) && nak@ == read,
            Err(fault) => read_nak(bytes@.skip(at as int)) matches Err(why) && why == fault@,
        },
{
    let (transfer_id, receiver_id, at): (u64, u64, usize) = pair_at(bytes, at)?;
    let (slice_no, at): (u32, usize) = wire::u32_at(bytes, at)?;
    let (missing, _): (Vec<u16>, usize) = wire::list_at(bytes, at)?;
    Ok(Nak { transfer_id, receiver_id, slice_no, missing })
}

fn evicted_at(bytes: &[u8], at: usize) -> (result: Result<Evicted, DecodeFault>)
    requires
        at <= bytes@.len(),
    ensures
        match result {
            Ok(evicted) => read_evicted(bytes@.skip(at as int)) matches Ok((read, _)) && evicted@
                == read,
            Err(fault) => read_evicted(bytes@.skip(at as int)) matches Err(why) && why == fault@,
        },
{
    let (transfer_id, target, at): (u64, u64, usize) = pair_at(bytes, at)?;
    let (reason, _): (String, usize) = wire::text_at(bytes, at)?;
    Ok(Evicted { transfer_id, target, reason })
}

fn done_at(bytes: &[u8], at: usize) -> (result: Result<Done, DecodeFault>)
    requires
        at <= bytes@.len(),
    ensures
        match result {
            Ok(done) => read_done(bytes@.skip(at as int)) matches Ok((read, _)) && done == read,
            Err(fault) => read_done(bytes@.skip(at as int)) matches Err(why) && why == fault@,
        },
{
    let (transfer_id, total_bytes, at): (u64, u64, usize) = pair_at(bytes, at)?;
    let (total_blocks, _): (u64, usize) = wire::u64_at(bytes, at)?;
    Ok(Done { transfer_id, total_bytes, total_blocks })
}

fn message_at(bytes: &[u8], at: usize) -> (result: Result<Message, DecodeFault>)
    requires
        at <= bytes@.len(),
    ensures
        match result {
            Ok(message) => read_message(bytes@.skip(at as int)) == Ok::<_, FaultView>(message@),
            Err(fault) => read_message(bytes@.skip(at as int)) matches Err(why) && why == fault@,
        },
{
    let (kind, at): (u32, usize) = wire::u32_at(bytes, at)?;
    match kind {
        0 => Ok(Message::Hello(hello_at(bytes, at)?)),
        1 => {
            let (transfer_id, receiver_id, _): (u64, u64, usize) = pair_at(bytes, at)?;
            Ok(Message::Join { transfer_id, receiver_id })
        },
        2 => {
            let (transfer_id, receiver_id, _): (u64, u64, usize) = pair_at(bytes, at)?;
            Ok(Message::Leave { transfer_id, receiver_id })
        },
        3 => Ok(Message::Stats(stats_at(bytes, at)?)),
        4 => Ok(Message::Nak(nak_at(bytes, at)?)),
        5 => Ok(Message::Evicted(evicted_at(bytes, at)?)),
        6 => Ok(Message::Done(done_at(bytes, at)?)),
        kind => Err(DecodeFault::Kind(kind)),
    }
}

impl Message {
    /// The transfer that the message belongs to.
    pub fn transfer_id(&self) -> (id: u64)
        ensures
            id == self@.transfer_id(),
    {
        match self {
            Message::Hello(hello) => hello.transfer_id,
            Message::Join { transfer_id, .. } => *transfer_id,
            Message::Leave { transfer_id, .. } => *transfer_id,
            Message::Stats(stats) => stats.transfer_id,
            Message::Nak(nak) => nak.transfer_id,
            Message::Evicted(evicted) => evicted.transfer_id,
            Message::Done(done) => done.transfer_id,
        }
    }

    fn fields(&self) -> (fields: Vec<Field>)
        ensures
            wire::field_views(fields@) == self@.fields(),
            self@.sound(),
    {
        let fields = match self {
            Message::Hello(hello) => {
                let mut fields = vec![
                    Field::Uint(0),
                    Field::Uint(hello.transfer_id),
                    Field::Uint(hello.block_size.get() as u64),
                    Field::Uint(hello.blocks_per_slice.get() as u64),
                    Field::Byte(hello.parity_per_slice),
                    Field::Uint(hello.max_live_slices.get() as u64),
                ];
                match hello.total_bytes {
                    Some(total_bytes) => {
                        fields.push(Field::Byte(1));
                        fields.push(Field::Uint(total_bytes));
                    },
                    None => {
                        fields.push(Field::Byte(0));
                    },
                }
                fields
            },
            Message::Join { transfer_id, receiver_id } => vec![
                Field::Uint(1),
                Field::Uint(*transfer_id),
                Field::Uint(*receiver_id),
            ],
            Message::Leave { transfer_id, receiver_id } => vec![
                Field::Uint(2),
                Field::Uint(*transfer_id),
                Field::Uint(*receiver_id),
            ],
            Message::Stats(stats) => vec![
                Field::Uint(3),
                Field::Uint(stats.transfer_id),
                Field::Uint(stats.receiver_id),
                Field::Uint(stats.total_received),
                Field::Uint(stats.total_expected),
                Field::Uint(stats.next_needed_slice as u64),
                Field::Uint(stats.sink_stall_ms as u64),
            ],
            Message::Nak(nak) => {
                let mut fields = vec![
                    Field::Uint(4),
                    Field::Uint(nak.transfer_id),
                    Field::Uint(nak.receiver_id),
                    Field::Uint(nak.slice_no as u64),
                    Field::Uint(nak.missing.len() as u64),
                ];
                wire::push_items(&mut fields, &nak.missing);
                fields
            },
            Message::Evicted(evicted) => {
                let reason = evicted.reason.as_str().as_bytes();
                assert(reason.len() == reason@.len());
                vec![
                    Field::Uint(5),
                    Field::Uint(evicted.transfer_id),
                    Field::Uint(evicted.target),
                    Field::Run(reason),
                ]
            },
            Message::Done(done) => vec![
                Field::Uint(6),
                Field::Uint(done.transfer_id),
                Field::Uint(done.total_bytes),
                Field::Uint(done.total_blocks),
            ],
        };
        assert(wire::field_views(fields@) =~= self@.fields());
        fields
    }

    /// Writes the datagram of the message to the front of a buffer, and says how
    /// long it is.
    pub fn encode_into(&self, buf: &mut [u8]) -> (result: Result<usize, Error>)
        requires
            old(buf)@.len() > 0,
        ensures
            result is Ok <==> self@.bytes().len() <= old(buf)@.len(),
            result matches Ok(len) ==> len == self@.bytes().len() && final(buf)@ == self@.bytes()
                + old(buf)@.skip(len as int),
            result matches Err(error) ==> error is Encode && final(buf)@.len() == old(buf)@.len()
                && final(buf)@[0] == CONTROL_TAG,
            self@.sound(),
    {
        buf[0] = CONTROL_TAG;
        let fields = self.fields();
        let ghost tagged = buf@;
        match wire::put_fields(buf, 1, &fields) {
            Ok(end) => {
                proof {
                    reveal(wire::written_at);
                    assert(buf@ =~= self@.bytes() + old(buf)@.skip(end as int));
                }
                Ok(end)
            },
            Err(error) => {
                proof {
                    reveal(wire::kept_up_to);
                    assert(buf@[0] == buf@.take(1)[0]);
                    assert(tagged.take(1)[0] == CONTROL_TAG);
                }
                Err(Error::Encode(error))
            },
        }
    }

    /// The datagram of the message, unless it is too long for one. It reads back as
    /// the message.
    pub fn encode(&self) -> (result: Result<Vec<u8>, Error>)
        ensures
            result is Ok <==> self@.bytes().len() <= MAX_CONTROL_SIZE,
            result matches Ok(bytes) ==> bytes@ == self@.bytes() && read_message(bytes@.skip(1))
                == Ok::<_, FaultView>(self@),
            result matches Err(error) ==> error is Encode,
    {
        let mut buf: Vec<u8> = vec![0u8; MAX_CONTROL_SIZE];
        let len: usize = self.encode_into(buf.as_mut_slice())?;
        buf.truncate(len);
        assert(buf@ =~= self@.bytes());
        proof {
            messages_read_back(self@, Seq::empty());
        }
        Ok(buf)
    }

    /// The message of a datagram.
    pub fn decode(bytes: &[u8]) -> (result: Result<Message, Error>)
        ensures
            if bytes@.len() == 0 {
                result matches Err(Error::FrameTooShort(len)) && len == 0
            } else if bytes@[0] != CONTROL_TAG {
                result matches Err(Error::UnknownTag(tag)) && tag == bytes@[0]
            } else {
                match result {
                    Ok(message) => read_message(bytes@.skip(1)) == Ok::<_, FaultView>(message@),
                    Err(error) => error matches Error::Decode(fault) && read_message(
                        bytes@.skip(1),
                    ) matches Err(why) && why == fault@,
                }
            },
    {
        if bytes.len() == 0 {
            return Err(Error::FrameTooShort(0));
        }
        let tag: u8 = bytes[0];
        if tag != CONTROL_TAG {
            return Err(Error::UnknownTag(tag));
        }
        match message_at(bytes, 1) {
            Ok(message) => Ok(message),
            Err(fault) => Err(Error::Decode(fault)),
        }
    }
}

/// Every control message starts with the tag of one and the number of its kind, and names
/// the transfer that it is about.
pub proof fn every_message_says_what_it_is(message: MessageView)
    ensures
        message.bytes().len() >= 2,
        message.bytes()[0] == CONTROL_TAG,
        message.bytes()[1] == match message {
            MessageView::Hello(_) => 0int,
            MessageView::Join { .. } => 1,
            MessageView::Leave { .. } => 2,
            MessageView::Stats(_) => 3,
            MessageView::Nak(_) => 4,
            MessageView::Evicted(_) => 5,
            MessageView::Done(_) => 6,
        },
        message.fields()[1] == FieldView::Uint(message.transfer_id()),
{
}

} // verus!
