//! Block messages.

use crate::block_proto::error::Error;
use crate::block_proto::payload::{
    BlockView, Data, Done, Hello, Nack, NackView, Parity, Payload, Stats,
};
use crate::buffers;
use crate::wire;
use crate::wire::{DecodeFault, FaultView, Field, FieldView};
use vstd::prelude::*;

verus! {

/// The most bytes that a datagram takes.
pub const MAX_DATAGRAM_SIZE: usize = 2048;

/// A block message.
#[derive(Debug, Clone, PartialEq)]
pub enum Message {
    /// From the sender to the group.
    Hello(Hello),
    /// From a receiver to the sender: it joined the group of that transfer.
    Join(u64),
    /// From a receiver to the sender: it left the group of that transfer.
    Leave(u64),
    /// From the sender to the group.
    Data(Data),
    /// From the sender to the group.
    Parity(Parity),
    /// From a receiver to the sender.
    Stats(Stats),
    /// From a receiver to the sender.
    Nack(Nack),
    /// From the sender to the group.
    Done(Done),
}

/// What a block message says.
#[verifier::ext_equal]
pub enum MessageView {
    Hello(Hello),
    Join(u64),
    Leave(u64),
    Data(BlockView),
    Parity(BlockView),
    Stats(Stats),
    Nack(NackView),
    Done(Done),
}

impl View for Message {
    type V = MessageView;

    open spec fn view(&self) -> MessageView {
        match self {
            Message::Hello(hello) => MessageView::Hello(*hello),
            Message::Join(transfer_id) => MessageView::Join(*transfer_id),
            Message::Leave(transfer_id) => MessageView::Leave(*transfer_id),
            Message::Data(data) => MessageView::Data(data@),
            Message::Parity(parity) => MessageView::Parity(parity@),
            Message::Stats(stats) => MessageView::Stats(*stats),
            Message::Nack(nack) => MessageView::Nack(nack@),
            Message::Done(done) => MessageView::Done(*done),
        }
    }
}

/// The fields of a block behind the number of its kind.
pub open spec fn block_fields(block: BlockView) -> Seq<FieldView> {
    seq![
        FieldView::Uint(block.transfer_id),
        FieldView::Uint(block.slice_no as u64),
        FieldView::Uint(block.index as u64),
        FieldView::Run(block.payload),
    ]
}

impl MessageView {
    /// The transfer that a message belongs to.
    pub open spec fn transfer_id(self) -> u64 {
        match self {
            MessageView::Hello(hello) => hello.transfer_id,
            MessageView::Join(transfer_id) => transfer_id,
            MessageView::Leave(transfer_id) => transfer_id,
            MessageView::Data(block) => block.transfer_id,
            MessageView::Parity(block) => block.transfer_id,
            MessageView::Stats(stats) => stats.transfer_id,
            MessageView::Nack(nack) => nack.transfer_id,
            MessageView::Done(done) => done.transfer_id,
        }
    }

    /// The number of the kind of a message.
    pub open spec fn kind(self) -> u64 {
        match self {
            MessageView::Hello(_) => 0,
            MessageView::Join(_) => 1,
            MessageView::Leave(_) => 2,
            MessageView::Data(_) => 3,
            MessageView::Parity(_) => 4,
            MessageView::Stats(_) => 5,
            MessageView::Nack(_) => 6,
            MessageView::Done(_) => 7,
        }
    }

    /// The fields of a message behind the number of its kind.
    pub open spec fn content(self) -> Seq<FieldView> {
        match self {
            MessageView::Hello(hello) => seq![
                FieldView::Uint(hello.transfer_id),
                FieldView::Uint(hello.blocks_per_slice as u64),
            ],
            MessageView::Join(transfer_id) => seq![FieldView::Uint(transfer_id)],
            MessageView::Leave(transfer_id) => seq![FieldView::Uint(transfer_id)],
            MessageView::Data(block) => block_fields(block),
            MessageView::Parity(block) => block_fields(block),
            MessageView::Stats(stats) => seq![
                FieldView::Uint(stats.transfer_id),
                FieldView::Uint(stats.receiver_id),
                FieldView::Uint(stats.blocks_received),
                FieldView::Uint(stats.blocks_expected),
            ] + wire::optional_fields(
                match stats.completed_through {
                    Some(slice_no) => Some(slice_no as u64),
                    None => None,
                },
            ),
            MessageView::Nack(nack) => seq![
                FieldView::Uint(nack.transfer_id),
                FieldView::Uint(nack.receiver_id),
                FieldView::Uint(nack.slice_no as u64),
                FieldView::Uint(nack.missing.len() as u64),
            ] + wire::item_fields(nack.missing),
            MessageView::Done(done) => seq![
                FieldView::Uint(done.transfer_id),
                FieldView::Uint(done.total_bytes),
                FieldView::Uint(done.total_blocks),
            ],
        }
    }

    /// The fields of a message: the number of its kind, and what it carries.
    pub open spec fn fields(self) -> Seq<FieldView> {
        seq![FieldView::Uint(self.kind())] + self.content()
    }

    /// The datagram of a message.
    pub open spec fn bytes(self) -> Seq<u8> {
        wire::fields_bytes(self.fields())
    }

    /// Whether the lengths in a message can be counted.
    pub open spec fn sound(self) -> bool {
        match self {
            MessageView::Data(block) => block.payload.len() <= u64::MAX,
            MessageView::Parity(block) => block.payload.len() <= u64::MAX,
            MessageView::Nack(nack) => nack.missing.len() <= u64::MAX,
            _ => true,
        }
    }
}

/// The announcement that starts a run of bytes.
pub open spec fn read_hello(bytes: Seq<u8>) -> Result<Hello, FaultView> {
    match wire::read_uint(bytes, 8) {
        Ok((transfer_id, rest)) => match wire::read_uint(rest, 4) {
            Ok((blocks_per_slice, _)) => Ok(
                Hello { transfer_id, blocks_per_slice: blocks_per_slice as u32 },
            ),
            Err(fault) => Err(fault),
        },
        Err(fault) => Err(fault),
    }
}

/// The block that starts a run of bytes.
pub open spec fn read_block(bytes: Seq<u8>) -> Result<BlockView, FaultView> {
    match wire::read_uint(bytes, 8) {
        Ok((transfer_id, rest)) => match wire::read_uint(rest, 4) {
            Ok((slice_no, rest)) => match wire::read_uint(rest, 2) {
                Ok((index, rest)) => match wire::read_run(rest) {
                    Ok((payload, _)) => Ok(
                        BlockView {
                            transfer_id,
                            slice_no: slice_no as u32,
                            index: index as u16,
                            payload,
                        },
                    ),
                    Err(fault) => Err(fault),
                },
                Err(fault) => Err(fault),
            },
            Err(fault) => Err(fault),
        },
        Err(fault) => Err(fault),
    }
}

/// The report that starts a run of bytes.
pub open spec fn read_stats(bytes: Seq<u8>) -> Result<Stats, FaultView> {
    match wire::read_uint(bytes, 8) {
        Ok((transfer_id, rest)) => match wire::read_uint(rest, 8) {
            Ok((receiver_id, rest)) => match wire::read_uint(rest, 8) {
                Ok((blocks_received, rest)) => match wire::read_uint(rest, 8) {
                    Ok((blocks_expected, rest)) => match wire::read_optional(rest, 4) {
                        Ok((completed_through, _)) => Ok(
                            Stats {
                                transfer_id,
                                receiver_id,
                                blocks_received,
                                blocks_expected,
                                completed_through: match completed_through {
                                    Some(slice_no) => Some(slice_no as u32),
                                    None => None,
                                },
                            },
                        ),
                        Err(fault) => Err(fault),
                    },
                    Err(fault) => Err(fault),
                },
                Err(fault) => Err(fault),
            },
            Err(fault) => Err(fault),
        },
        Err(fault) => Err(fault),
    }
}

/// The request that starts a run of bytes.
pub open spec fn read_nack(bytes: Seq<u8>) -> Result<NackView, FaultView> {
    match wire::read_uint(bytes, 8) {
        Ok((transfer_id, rest)) => match wire::read_uint(rest, 8) {
            Ok((receiver_id, rest)) => match wire::read_uint(rest, 4) {
                Ok((slice_no, rest)) => match wire::read_list(rest) {
                    Ok((missing, _)) => Ok(
                        NackView { transfer_id, receiver_id, slice_no: slice_no as u32, missing },
                    ),
                    Err(fault) => Err(fault),
                },
                Err(fault) => Err(fault),
            },
            Err(fault) => Err(fault),
        },
        Err(fault) => Err(fault),
    }
}

/// The end of a transfer that starts a run of bytes.
pub open spec fn read_done(bytes: Seq<u8>) -> Result<Done, FaultView> {
    match wire::read_uint(bytes, 8) {
        Ok((transfer_id, rest)) => match wire::read_uint(rest, 8) {
            Ok((total_bytes, rest)) => match wire::read_uint(rest, 8) {
                Ok((total_blocks, _)) => Ok(Done { transfer_id, total_bytes, total_blocks }),
                Err(fault) => Err(fault),
            },
            Err(fault) => Err(fault),
        },
        Err(fault) => Err(fault),
    }
}

/// The message of that kind whose content starts a run of bytes.
pub open spec fn read_content(kind: u64, bytes: Seq<u8>) -> Result<MessageView, FaultView> {
    if kind == 0 {
        match read_hello(bytes) {
            Ok(hello) => Ok(MessageView::Hello(hello)),
            Err(fault) => Err(fault),
        }
    } else if kind == 1 {
        match wire::read_uint(bytes, 8) {
            Ok((transfer_id, _)) => Ok(MessageView::Join(transfer_id)),
            Err(fault) => Err(fault),
        }
    } else if kind == 2 {
        match wire::read_uint(bytes, 8) {
            Ok((transfer_id, _)) => Ok(MessageView::Leave(transfer_id)),
            Err(fault) => Err(fault),
        }
    } else if kind == 3 {
        match read_block(bytes) {
            Ok(block) => Ok(MessageView::Data(block)),
            Err(fault) => Err(fault),
        }
    } else if kind == 4 {
        match read_block(bytes) {
            Ok(block) => Ok(MessageView::Parity(block)),
            Err(fault) => Err(fault),
        }
    } else if kind == 5 {
        match read_stats(bytes) {
            Ok(stats) => Ok(MessageView::Stats(stats)),
            Err(fault) => Err(fault),
        }
    } else if kind == 6 {
        match read_nack(bytes) {
            Ok(nack) => Ok(MessageView::Nack(nack)),
            Err(fault) => Err(fault),
        }
    } else if kind == 7 {
        match read_done(bytes) {
            Ok(done) => Ok(MessageView::Done(done)),
            Err(fault) => Err(fault),
        }
    } else {
        Err(FaultView::Kind(kind as u32))
    }
}

/// The message that starts a run of bytes. What follows it is passed over.
pub open spec fn read_message(bytes: Seq<u8>) -> Result<MessageView, FaultView> {
    match wire::read_uint(bytes, 4) {
        Ok((kind, rest)) => read_content(kind, rest),
        Err(fault) => Err(fault),
    }
}

proof fn lemma_block_reads_back(block: BlockView, rest: Seq<u8>)
    requires
        block.payload.len() <= u64::MAX,
    ensures
        read_block(wire::fields_bytes(block_fields(block)) + rest) == Ok::<_, FaultView>(block),
{
    let fields = block_fields(block);
    wire::uint_first(fields, block.transfer_id, 8, rest);
    let fields = fields.skip(1);
    wire::uint_first(fields, block.slice_no as u64, 4, rest);
    let fields = fields.skip(1);
    wire::uint_first(fields, block.index as u64, 2, rest);
    let fields = fields.skip(1);
    let run = FieldView::Run(block.payload);
    reveal_with_fuel(wire::fields_bytes, 2);
    assert(fields[0] == run);
    assert(fields.skip(1) =~= Seq::<FieldView>::empty());
    assert(wire::fields_bytes(fields) + rest =~= wire::field_bytes(run) + rest);
    wire::run_reads_back(block.payload, rest);
}

proof fn lemma_stats_reads_back(stats: Stats, rest: Seq<u8>)
    ensures
        read_stats(wire::fields_bytes(MessageView::Stats(stats).content()) + rest) == Ok::<_, FaultView>(stats),
{
    let fields = MessageView::Stats(stats).content();
    let through = match stats.completed_through {
        Some(slice_no) => Some(slice_no as u64),
        None => None,
    };
    wire::uint_first(fields, stats.transfer_id, 8, rest);
    let fields = fields.skip(1);
    wire::uint_first(fields, stats.receiver_id, 8, rest);
    let fields = fields.skip(1);
    wire::uint_first(fields, stats.blocks_received, 8, rest);
    let fields = fields.skip(1);
    wire::uint_first(fields, stats.blocks_expected, 8, rest);
    let fields = fields.skip(1);
    assert(fields =~= wire::optional_fields(through));
    wire::optional_reads_back(through, 4, rest);
}

proof fn lemma_nack_reads_back(nack: NackView, rest: Seq<u8>)
    requires
        nack.missing.len() <= u64::MAX,
    ensures
        read_nack(wire::fields_bytes(MessageView::Nack(nack).content()) + rest) == Ok::<_, FaultView>(nack),
{
    let fields = MessageView::Nack(nack).content();
    wire::uint_first(fields, nack.transfer_id, 8, rest);
    let fields = fields.skip(1);
    wire::uint_first(fields, nack.receiver_id, 8, rest);
    let fields = fields.skip(1);
    wire::uint_first(fields, nack.slice_no as u64, 4, rest);
    let fields = fields.skip(1);
    assert(fields =~= seq![FieldView::Uint(nack.missing.len() as u64)] + wire::item_fields(
        nack.missing,
    ));
    wire::list_reads_back(nack.missing, rest);
}

proof fn lemma_done_reads_back(done: Done, rest: Seq<u8>)
    ensures
        read_done(wire::fields_bytes(MessageView::Done(done).content()) + rest) == Ok::<_, FaultView>(done),
{
    let fields = MessageView::Done(done).content();
    wire::uint_first(fields, done.transfer_id, 8, rest);
    let fields = fields.skip(1);
    wire::uint_first(fields, done.total_bytes, 8, rest);
    let fields = fields.skip(1);
    wire::uint_first(fields, done.total_blocks, 8, rest);
}

proof fn lemma_hello_reads_back(hello: Hello, rest: Seq<u8>)
    ensures
        read_hello(wire::fields_bytes(MessageView::Hello(hello).content()) + rest) == Ok::<_, FaultView>(hello),
{
    let fields = MessageView::Hello(hello).content();
    wire::uint_first(fields, hello.transfer_id, 8, rest);
    let fields = fields.skip(1);
    wire::uint_first(fields, hello.blocks_per_slice as u64, 4, rest);
}

#[verifier::spinoff_prover]
#[verifier::rlimit(50)]
proof fn lemma_content_reads_back(message: MessageView, rest: Seq<u8>)
    requires
        message.sound(),
    ensures
        read_content(message.kind(), wire::fields_bytes(message.content()) + rest) == Ok::<_, FaultView>(message),
{
    match message {
        MessageView::Hello(hello) => lemma_hello_reads_back(hello, rest),
        MessageView::Join(transfer_id) => wire::uint_first(message.content(), transfer_id, 8, rest),
        MessageView::Leave(transfer_id) => wire::uint_first(message.content(), transfer_id, 8, rest),
        MessageView::Data(block) => lemma_block_reads_back(block, rest),
        MessageView::Parity(block) => lemma_block_reads_back(block, rest),
        MessageView::Stats(stats) => lemma_stats_reads_back(stats, rest),
        MessageView::Nack(nack) => lemma_nack_reads_back(nack, rest),
        MessageView::Done(done) => lemma_done_reads_back(done, rest),
    }
}

/// Every message reads back from its datagram as what it said, whatever follows.
pub proof fn block_messages_read_back(message: MessageView, rest: Seq<u8>)
    requires
        message.sound(),
    ensures
        read_message(message.bytes() + rest) == Ok::<_, FaultView>(message),
{
    wire::uint_first(message.fields(), message.kind(), 4, rest);
    assert(message.fields().skip(1) =~= message.content());
    lemma_content_reads_back(message, rest);
}

fn hello_at(bytes: &[u8], at: usize) -> (result: Result<Hello, DecodeFault>)
    requires
        at <= bytes@.len(),
    ensures
        match result {
            Ok(hello) => read_hello(bytes@.skip(at as int)) == Ok::<_, FaultView>(hello),
            Err(fault) => read_hello(bytes@.skip(at as int)) matches Err(why) && why == fault@,
        },
{
    let (transfer_id, at): (u64, usize) = wire::u64_at(bytes, at)?;
    let (blocks_per_slice, _): (u32, usize) = wire::u32_at(bytes, at)?;
    Ok(Hello { transfer_id, blocks_per_slice })
}

fn data_at(bytes: &[u8], at: usize) -> (result: Result<Data, DecodeFault>)
    requires
        at <= bytes@.len(),
    ensures
        match result {
            Ok(data) => read_block(bytes@.skip(at as int)) == Ok::<_, FaultView>(data@),
            Err(fault) => read_block(bytes@.skip(at as int)) matches Err(why) && why == fault@,
        },
{
    let (transfer_id, at): (u64, usize) = wire::u64_at(bytes, at)?;
    let (slice_no, at): (u32, usize) = wire::u32_at(bytes, at)?;
    let (block_in_slice, at): (u16, usize) = wire::u16_at(bytes, at)?;
    let (run, _): (Vec<u8>, usize) = wire::run_at(bytes, at)?;
    Ok(Data { transfer_id, slice_no, block_in_slice, payload: Payload(buffers::buffer_of(run)) })
}

fn stats_at(bytes: &[u8], at: usize) -> (result: Result<Stats, DecodeFault>)
    requires
        at <= bytes@.len(),
    ensures
        match result {
            Ok(stats) => read_stats(bytes@.skip(at as int)) == Ok::<_, FaultView>(stats),
            Err(fault) => read_stats(bytes@.skip(at as int)) matches Err(why) && why == fault@,
        },
{
    let (transfer_id, at): (u64, usize) = wire::u64_at(bytes, at)?;
    let (receiver_id, at): (u64, usize) = wire::u64_at(bytes, at)?;
    let (blocks_received, at): (u64, usize) = wire::u64_at(bytes, at)?;
    let (blocks_expected, at): (u64, usize) = wire::u64_at(bytes, at)?;
    let (completed_through, _): (Option<u32>, usize) = wire::optional_u32_at(bytes, at)?;
    Ok(Stats { transfer_id, receiver_id, blocks_received, blocks_expected, completed_through })
}

fn nack_at(bytes: &[u8], at: usize) -> (result: Result<Nack, DecodeFault>)
    requires
        at <= bytes@.len(),
    ensures
        match result {
            Ok(nack) => read_nack(bytes@.skip(at as int)) == Ok::<_, FaultView>(nack@),
            Err(fault) => read_nack(bytes@.skip(at as int)) matches Err(why) && why == fault@,
        },
{
    let (transfer_id, at): (u64, usize) = wire::u64_at(bytes, at)?;
    let (receiver_id, at): (u64, usize) = wire::u64_at(bytes, at)?;
    let (slice_no, at): (u32, usize) = wire::u32_at(bytes, at)?;
    let (missing, _): (Vec<u16>, usize) = wire::list_at(bytes, at)?;
    Ok(Nack { transfer_id, receiver_id, slice_no, missing })
}

fn done_at(bytes: &[u8], at: usize) -> (result: Result<Done, DecodeFault>)
    requires
        at <= bytes@.len(),
    ensures
        match result {
            Ok(done) => read_done(bytes@.skip(at as int)) == Ok::<_, FaultView>(done),
            Err(fault) => read_done(bytes@.skip(at as int)) matches Err(why) && why == fault@,
        },
{
    let (transfer_id, at): (u64, usize) = wire::u64_at(bytes, at)?;
    let (total_bytes, at): (u64, usize) = wire::u64_at(bytes, at)?;
    let (total_blocks, _): (u64, usize) = wire::u64_at(bytes, at)?;
    Ok(Done { transfer_id, total_bytes, total_blocks })
}

fn message_at(bytes: &[u8]) -> (result: Result<Message, DecodeFault>)
    ensures
        match result {
            Ok(message) => read_message(bytes@) == Ok::<_, FaultView>(message@),
            Err(fault) => read_message(bytes@) matches Err(why) && why == fault@,
        },
{
    assert(bytes@.skip(0) =~= bytes@);
    let (kind, at): (u32, usize) = wire::u32_at(bytes, 0)?;
    match kind {
        0 => Ok(Message::Hello(hello_at(bytes, at)?)),
        1 => {
            let (transfer_id, _): (u64, usize) = wire::u64_at(bytes, at)?;
            Ok(Message::Join(transfer_id))
        },
        2 => {
            let (transfer_id, _): (u64, usize) = wire::u64_at(bytes, at)?;
            Ok(Message::Leave(transfer_id))
        },
        3 => Ok(Message::Data(data_at(bytes, at)?)),
        4 => {
            let data = data_at(bytes, at)?;
            Ok(
                Message::Parity(
                    Parity {
                        transfer_id: data.transfer_id,
                        slice_no: data.slice_no,
                        parity_index: data.block_in_slice,
                        payload: data.payload,
                    },
                ),
            )
        },
        5 => Ok(Message::Stats(stats_at(bytes, at)?)),
        6 => Ok(Message::Nack(nack_at(bytes, at)?)),
        7 => Ok(Message::Done(done_at(bytes, at)?)),
        kind => Err(DecodeFault::Kind(kind)),
    }
}

impl Message {
    /// The transfer that the message belongs to.
    pub fn transfer_id(&self) -> (id: u64)
        ensures
            id == self@.transfer_id(),
    {
        match self {
            Message::Hello(hello) => hello.transfer_id,
            Message::Join(transfer_id) => *transfer_id,
            Message::Leave(transfer_id) => *transfer_id,
            Message::Data(data) => data.transfer_id,
            Message::Parity(parity) => parity.transfer_id,
            Message::Stats(stats) => stats.transfer_id,
            Message::Nack(nack) => nack.transfer_id,
            Message::Done(done) => done.transfer_id,
        }
    }

    fn fields(&self) -> (fields: Vec<Field>)
        ensures
            wire::field_views(fields@) == self@.fields(),
            self@.sound(),
    {
        let fields = match self {
            Message::Hello(hello) => vec![
                Field::Uint(0),
                Field::Uint(hello.transfer_id),
                Field::Uint(hello.blocks_per_slice as u64),
            ],
            Message::Join(transfer_id) => vec![Field::Uint(1), Field::Uint(*transfer_id)],
            Message::Leave(transfer_id) => vec![Field::Uint(2), Field::Uint(*transfer_id)],
            Message::Data(data) => {
                let payload = buffers::buffer_slice(&data.payload.0);
                assert(payload.len() == payload@.len());
                vec![
                    Field::Uint(3),
                    Field::Uint(data.transfer_id),
                    Field::Uint(data.slice_no as u64),
                    Field::Uint(data.block_in_slice as u64),
                    Field::Run(payload),
                ]
            },
            Message::Parity(parity) => {
                let payload = buffers::buffer_slice(&parity.payload.0);
                assert(payload.len() == payload@.len());
                vec![
                    Field::Uint(4),
                    Field::Uint(parity.transfer_id),
                    Field::Uint(parity.slice_no as u64),
                    Field::Uint(parity.parity_index as u64),
                    Field::Run(payload),
                ]
            },
            Message::Stats(stats) => {
                let mut fields = vec![
                    Field::Uint(5),
                    Field::Uint(stats.transfer_id),
                    Field::Uint(stats.receiver_id),
                    Field::Uint(stats.blocks_received),
                    Field::Uint(stats.blocks_expected),
                ];
                match stats.completed_through {
                    Some(slice_no) => {
                        fields.push(Field::Byte(1));
                        fields.push(Field::Uint(slice_no as u64));
                    },
                    None => {
                        fields.push(Field::Byte(0));
                    },
                }
                fields
            },
            Message::Nack(nack) => {
                let mut fields = vec![
                    Field::Uint(6),
                    Field::Uint(nack.transfer_id),
                    Field::Uint(nack.receiver_id),
                    Field::Uint(nack.slice_no as u64),
                    Field::Uint(nack.missing.len() as u64),
                ];
                wire::push_items(&mut fields, &nack.missing);
                fields
            },
            Message::Done(done) => vec![
                Field::Uint(7),
                Field::Uint(done.transfer_id),
                Field::Uint(done.total_bytes),
                Field::Uint(done.total_blocks),
            ],
        };
        assert(wire::field_views(fields@) =~= self@.fields());
        fields
    }

    /// The datagram of the message. It reads back as the message.
    pub fn encode(&self) -> (result: Result<Vec<u8>, Error>)
        requires
            self@.bytes().len() <= isize::MAX,
        ensures
            result matches Ok(bytes) && bytes@ == self@.bytes() && read_message(bytes@) == Ok::<_, FaultView>(
                self@,
            ),
    {
        let fields = self.fields();
        let len: usize = wire::fields_len(&fields);
        let mut buf: Vec<u8> = vec![0u8; len];
        match wire::put_fields(buf.as_mut_slice(), 0, &fields) {
            Ok(_) => {
                proof {
                    reveal(wire::written_at);
                    assert(buf@ =~= self@.bytes());
                    block_messages_read_back(self@, Seq::empty());
                    assert(self@.bytes() + Seq::<u8>::empty() =~= self@.bytes());
                }
                Ok(buf)
            },
            Err(error) => Err(Error::Encode(error)),
        }
    }

    /// The message of a datagram.
    pub fn decode(bytes: &[u8]) -> (result: Result<Message, Error>)
        ensures
            match result {
                Ok(message) => read_message(bytes@) == Ok::<_, FaultView>(message@),
                Err(error) => error matches Error::Decode(fault) && read_message(bytes@) matches Err(why) && why == fault@,
            },
    {
        match message_at(bytes) {
            Ok(message) => Ok(message),
            Err(fault) => Err(Error::Decode(fault)),
        }
    }
}

/// Every message starts with the number of its kind, and names the transfer that it is
/// about.
pub proof fn every_block_message_says_what_it_is(message: MessageView)
    ensures
        message.bytes().len() >= 1,
        message.bytes()[0] == match message {
            MessageView::Hello(_) => 0int,
            MessageView::Join(_) => 1,
            MessageView::Leave(_) => 2,
            MessageView::Data(_) => 3,
            MessageView::Parity(_) => 4,
            MessageView::Stats(_) => 5,
            MessageView::Nack(_) => 6,
            MessageView::Done(_) => 7,
        },
        message.fields()[1] == FieldView::Uint(message.transfer_id()),
{
}

} // verus!
