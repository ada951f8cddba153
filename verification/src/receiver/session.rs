//! What a receiver does with what arrives.

pub mod history;
pub mod laws;

use crate::buffers;
use crate::codec;
use crate::error::ProtoError;
use crate::proto::error::Error;
use crate::proto::frame::{Frame, FrameView};
use crate::proto::message::{Message, MessageView};
use crate::proto::payload::{Done, Hello, HelloView, Nak, NakView, Stats};
use crate::receiver::assembler;
use crate::receiver::assembler::{Assembler, AssemblerView};
use crate::receiver::naks::{Naks, NaksView};
use crate::receiver::TransferSummary;
use crate::shards;
use crate::state::ReceiveState;
use crate::time;
use crate::time::SILENCE_TIMEOUT;
use crate::transport::{Incoming, IncomingView};
use bytes::Bytes;
use std::collections::VecDeque;
use vstd::prelude::*;

verus! {

/// The part of a block that lies within the transfer, once its size is known.
pub open spec fn within(block: Seq<u8>, total_bytes: Option<u64>, written: int) -> Seq<u8> {
    match total_bytes {
        Some(total) => {
            let room = if total >= written {
                total - written
            } else {
                0
            };
            if block.len() <= room {
                block
            } else {
                block.take(room)
            }
        },
        None => block,
    }
}

/// What is left of the first `upto` blocks within the transfer, blocks of which
/// nothing is left aside, and how many bytes are written with them.
pub open spec fn clipped(
    blocks: Seq<Seq<u8>>,
    total_bytes: Option<u64>,
    written: int,
    upto: int,
) -> (Seq<Seq<u8>>, int)
    decreases upto,
{
    if upto <= 0 {
        (Seq::empty(), written)
    } else {
        let (before, sofar) = clipped(blocks, total_bytes, written, upto - 1);
        let block = within(blocks[upto - 1], total_bytes, sofar);
        if block.len() > 0 {
            (before.push(block), sofar + block.len())
        } else {
            (before, sofar)
        }
    }
}

/// The bytes of blocks, one after another.
pub open spec fn joined(blocks: Seq<Seq<u8>>) -> Seq<u8>
    decreases blocks.len(),
{
    if blocks.len() == 0 {
        Seq::empty()
    } else {
        joined(blocks.drop_last()) + blocks.last()
    }
}

/// The state of a session.
#[verifier::ext_equal]
pub struct SessionView {
    pub transfer_id: u64,
    pub receiver_id: u64,
    pub assembler: AssemblerView,
    pub naks: NaksView,
    pub pending: Seq<Seq<u8>>,
    pub emit_floor: u32,
    pub received: u64,
    pub highest_seq: Option<u32>,
    pub duplicates: u64,
    pub late: u64,
    pub total_bytes: Option<u64>,
    pub announced_bytes: Option<u64>,
    pub written_bytes: u64,
    pub bytes_at_last_report: u64,
    pub last_report: u64,
    pub blocks_written: u64,
    pub sink_stall: u64,
    pub last_handover: u64,
    pub last_packet: u64,
    pub started: u64,
}

/// The session that an announcement starts.
pub open spec fn opened(receiver_id: u64, hello: HelloView, now: u64) -> SessionView {
    SessionView {
        transfer_id: hello.transfer_id,
        receiver_id,
        assembler: AssemblerView {
            block_size: hello.block_size as nat,
            blocks_per_slice: hello.blocks_per_slice,
            parity_per_slice: hello.parity_per_slice,
            max_live_slices: hello.max_live_slices as u32,
            slices: Map::empty(),
            next_needed: 0,
            total_blocks: None,
        },
        naks: NaksView { sent: Map::empty(), total: 0 },
        pending: Seq::empty(),
        emit_floor: 0,
        received: 0,
        highest_seq: None,
        duplicates: 0,
        late: 0,
        total_bytes: None,
        announced_bytes: hello.total_bytes,
        written_bytes: 0,
        bytes_at_last_report: 0,
        last_report: now,
        blocks_written: 0,
        sink_stall: 0,
        last_handover: now,
        last_packet: now,
        started: now,
    }
}

impl SessionView {
    /// What holds of every session.
    pub open spec fn valid(self) -> bool {
        &&& self.assembler.valid()
        &&& self.assembler.shards_sized()
        &&& self.late + self.duplicates <= self.received
        &&& self.blocks_written + self.pending.len() <= self.written_bytes
        &&& joined(self.pending).len() <= self.written_bytes
        &&& self.bytes_at_last_report <= self.written_bytes
        &&& forall|i: int| 0 <= i < self.pending.len() ==> (#[trigger] self.pending[i]).len() > 0
    }

    /// Whether requests can still be counted.
    pub open spec fn can_ask(self) -> bool {
        self.naks.total + u32::MAX <= u64::MAX
    }

    /// Whether what arrives can be counted: the slots that a shard is held against,
    /// the shard, its slice where it is not over, and the requests that it sets off.
    pub open spec fn countable(self, arrival: IncomingView) -> bool {
        match arrival {
            IncomingView::Shard(frame) => {
                &&& self.assembler.total_slots() <= u16::MAX
                &&& self.refusal(frame) is None ==> {
                    &&& self.received < u64::MAX
                    &&& frame.slice_no >= self.assembler.next_needed ==> self.assembler.countable()
                    &&& frame.emit_floor > self.emit_floor ==> self.can_ask()
                }
            },
            IncomingView::Control(MessageView::Done(_)) => self.can_ask(),
            IncomingView::Control(_) => true,
        }
    }

    /// Why a shard is refused, if it is.
    pub open spec fn refusal(self, frame: FrameView) -> Option<Error> {
        let k = self.assembler.blocks_per_slice;
        let m = self.assembler.parity_per_slice;
        if frame.slot >= k + m {
            Some(Error::SlotOutsideSlice { slot: frame.slot, slots: (k + m) as u16 })
        } else if frame.slice_parity > m {
            Some(Error::ParityWiderThanTransfer { named: frame.slice_parity, allowed: m })
        } else if frame.slot >= k && frame.slot - k >= frame.slice_parity {
            Some(Error::ParityOutsideSlice { slot: frame.slot, named: frame.slice_parity })
        } else if frame.payload.len() != self.assembler.block_size {
            Some(
                Error::PayloadSize {
                    got: frame.payload.len() as usize,
                    expected: self.assembler.block_size as usize,
                },
            )
        } else {
            None
        }
    }

    /// Whether a shard is stored.
    pub open spec fn stores(self, frame: FrameView) -> bool {
        self.assembler.in_window(frame.slice_no) && self.assembler.slice(frame.slice_no).accepts(
            frame.slot,
            frame.slice_parity,
        )
    }

    /// The session after a shard was counted and stored.
    pub open spec fn with_shard(self, frame: FrameView) -> SessionView {
        let late = !self.stores(frame) && frame.slice_no < self.assembler.next_needed;
        let duplicate = !self.stores(frame) && frame.slice_no >= self.assembler.next_needed;
        SessionView {
            received: (self.received + 1) as u64,
            highest_seq: match self.highest_seq {
                Some(highest) => if highest >= frame.seq {
                    Some(highest)
                } else {
                    Some(frame.seq)
                },
                None => Some(frame.seq),
            },
            emit_floor: if self.emit_floor >= frame.emit_floor {
                self.emit_floor
            } else {
                frame.emit_floor
            },
            assembler: self.assembler.inserted(
                frame.slice_no,
                frame.slot,
                frame.slice_parity,
                frame.payload,
            ),
            late: if late {
                (self.late + 1) as u64
            } else {
                self.late
            },
            duplicates: if duplicate {
                (self.duplicates + 1) as u64
            } else {
                self.duplicates
            },
            ..self
        }
    }

    /// The session after the end of the transfer was announced.
    pub open spec fn with_end(self, done: Done) -> SessionView {
        SessionView {
            total_bytes: Some(done.total_bytes),
            assembler: AssemblerView { total_blocks: Some(done.total_blocks), ..self.assembler },
            ..self
        }
    }

    /// The requests for repairs that are due.
    pub open spec fn requests(self, now: u64) -> Seq<MessageView> {
        let due = self.naks.due(self.assembler.gaps(self.emit_floor), now);
        Seq::new(
            due.len(),
            |i: int|
                MessageView::Nak(
                    NakView {
                        transfer_id: self.transfer_id,
                        receiver_id: self.receiver_id,
                        slice_no: due[i].0,
                        missing: due[i].1,
                    },
                ),
        )
    }

    /// The session after those requests were made.
    pub open spec fn asking(self, now: u64) -> SessionView {
        SessionView {
            naks: self.naks.asked(self.assembler.gaps(self.emit_floor), now),
            ..self
        }
    }

    /// What is answered to what arrives, or why the session ends.
    pub open spec fn answers(
        self,
        arrival: IncomingView,
        now: u64,
        result: Result<Seq<MessageView>, ProtoError>,
    ) -> bool {
        match arrival {
            IncomingView::Shard(frame) => match self.refusal(frame) {
                Some(error) => result == Err::<Seq<MessageView>, ProtoError>(
                    ProtoError::Protocol(error),
                ),
                None => result == Ok::<Seq<MessageView>, ProtoError>(
                    if frame.emit_floor > self.emit_floor {
                        self.with_shard(frame).requests(now)
                    } else {
                        Seq::empty()
                    },
                ),
            },
            IncomingView::Control(MessageView::Done(done)) => result == Ok::<
                Seq<MessageView>,
                ProtoError,
            >(self.with_end(done).requests(now)),
            IncomingView::Control(MessageView::Hello(_)) => result == Ok::<
                Seq<MessageView>,
                ProtoError,
            >(
                if self.received == 0 {
                    seq![
                        MessageView::Join {
                            transfer_id: self.transfer_id,
                            receiver_id: self.receiver_id,
                        },
                    ]
                } else {
                    Seq::empty()
                },
            ),
            IncomingView::Control(MessageView::Evicted(evicted)) => if evicted.target
                == self.receiver_id {
                result matches Err(ProtoError::Evicted(reason)) && reason@ == evicted.reason
            } else {
                result == Ok::<Seq<MessageView>, ProtoError>(Seq::empty())
            },
            IncomingView::Control(_) => result == Ok::<Seq<MessageView>, ProtoError>(Seq::empty()),
        }
    }

    /// The session after what arrived was dealt with.
    pub open spec fn after(self, arrival: IncomingView, now: u64) -> SessionView {
        match arrival {
            IncomingView::Shard(frame) => if self.refusal(frame) is Some {
                self
            } else if frame.emit_floor > self.emit_floor {
                self.with_shard(frame).asking(now)
            } else {
                self.with_shard(frame)
            },
            IncomingView::Control(MessageView::Done(done)) => self.with_end(done).asking(now),
            IncomingView::Control(_) => self,
        }
    }

    /// Whether the bytes that are handed over next can be counted.
    pub open spec fn roomy(self) -> bool {
        self.written_bytes + self.assembler.slices.dom().len() * self.assembler.blocks_per_slice
            * self.assembler.block_size <= u64::MAX
    }

    /// The session when it looks at what the sink takes: where nothing waited, the
    /// blocks that can be handed over do.
    pub open spec fn refilled(self, now: u64) -> SessionView {
        if self.pending.len() > 0 {
            let stall = self.sink_stall + time::since(self.last_handover, now);
            SessionView {
                sink_stall: if stall <= u64::MAX {
                    stall as u64
                } else {
                    u64::MAX
                },
                last_handover: now,
                ..self
            }
        } else {
            let taken = self.assembler.taken();
            let (blocks, written) = clipped(
                taken,
                self.total_bytes,
                self.written_bytes as int,
                taken.len() as int,
            );
            SessionView {
                assembler: self.assembler.after_taking(),
                pending: blocks,
                written_bytes: written as u64,
                last_handover: now,
                ..self
            }
        }
    }

    /// How many blocks leave when the sink takes that many.
    pub open spec fn leaving(self, room: usize) -> int {
        if self.pending.len() <= room {
            self.pending.len() as int
        } else {
            room as int
        }
    }

    /// The session after that many blocks left.
    pub open spec fn with_blocks_gone(self, count: int) -> SessionView {
        SessionView {
            pending: self.pending.skip(count),
            blocks_written: (self.blocks_written + count) as u64,
            naks: self.naks.remembering_from(self.assembler.next_needed),
            ..self
        }
    }

    /// Whether `blocks` and `after` are what handing over to a sink that takes that
    /// many blocks leads to.
    pub open spec fn hands_over(
        self,
        now: u64,
        room: usize,
        blocks: Seq<Seq<u8>>,
        after: SessionView,
    ) -> bool {
        let full = self.refilled(now);
        &&& blocks == full.pending.take(full.leaving(room))
        &&& after == full.with_blocks_gone(full.leaving(room))
        &&& after.gone() == self.gone() + joined(blocks).len()
    }

    /// The session after the sink turned out to be closed: the block that was offered
    /// to it is lost.
    pub open spec fn with_block_lost(self) -> SessionView {
        SessionView { pending: self.pending.skip(1), ..self }
    }

    /// How many shards the sender sent, as far as their numbers tell.
    pub open spec fn expected(self) -> u64 {
        match self.highest_seq {
            Some(highest) => (highest + 1) as u64,
            None => 0,
        }
    }

    /// The report to the sender.
    pub open spec fn stats(self) -> Stats {
        let stall_ms = self.sink_stall / 1_000_000;
        Stats {
            transfer_id: self.transfer_id,
            receiver_id: self.receiver_id,
            total_received: self.received,
            total_expected: self.expected(),
            next_needed_slice: self.assembler.next_needed,
            sink_stall_ms: if stall_ms <= u32::MAX {
                stall_ms as u32
            } else {
                u32::MAX
            },
        }
    }

    /// The blocks that a transfer of those bytes is cut into.
    pub open spec fn blocks_of(self, bytes: Seq<u8>) -> Seq<Seq<u8>> {
        shards::source_blocks(bytes, self.assembler.block_size)
    }

    /// Where a slice starts in the bytes of a transfer, or where they end.
    pub open spec fn position(self, bytes: Seq<u8>, slice_no: u32) -> int {
        let first = shards::slice_start(
            self.blocks_of(bytes),
            self.assembler.blocks_per_slice as nat,
            slice_no as int,
        );
        if first * self.assembler.block_size <= bytes.len() {
            first * self.assembler.block_size
        } else {
            bytes.len() as int
        }
    }

    /// How many bytes left.
    pub open spec fn gone(self) -> int {
        self.written_bytes - joined(self.pending).len()
    }

    /// Whether the session is on its way to the bytes of a transfer: what it holds
    /// belongs to them, the slices before the first that it needs are written, and
    /// what waits for the sink is the end of what is written.
    pub open spec fn on_course(self, bytes: Seq<u8>) -> bool {
        &&& 0 < self.assembler.block_size
        &&& bytes.len() <= u64::MAX
        &&& assembler::genuine(self.assembler, self.blocks_of(bytes))
        &&& self.total_bytes matches Some(total) ==> total == bytes.len()
        &&& self.assembler.total_blocks is Some ==> self.total_bytes is Some
        &&& self.written_bytes == self.position(bytes, self.assembler.next_needed)
        &&& 0 <= self.gone()
        &&& joined(self.pending) == bytes.subrange(self.gone(), self.written_bytes as int)
    }

    /// Whether what arrives belongs to a transfer of those bytes.
    pub open spec fn fits(self, arrival: IncomingView, bytes: Seq<u8>) -> bool {
        match arrival {
            IncomingView::Shard(frame) => shards::source_shard(
                self.blocks_of(bytes),
                self.assembler.blocks_per_slice as nat,
                self.assembler.block_size,
                frame.slice_parity as nat,
                frame.slice_no as int,
                frame.slot as int,
            ) == Some(frame.payload),
            IncomingView::Control(MessageView::Done(done)) => {
                &&& done.total_bytes == bytes.len()
                &&& done.total_blocks == self.blocks_of(bytes).len()
            },
            IncomingView::Control(_) => true,
        }
    }

    /// Whether it is settled where the blocks end that are handed over next: the
    /// size of the transfer is known, or they do not reach the last block where
    /// that is a short one.
    pub open spec fn settled(self, bytes: Seq<u8>) -> bool {
        ||| self.pending.len() > 0
        ||| self.total_bytes is Some
        ||| shards::slice_start(
            self.blocks_of(bytes),
            self.assembler.blocks_per_slice as nat,
            self.assembler.after_taking().next_needed as int,
        ) * self.assembler.block_size <= bytes.len()
    }

    /// Whether every slice was handed over.
    pub open spec fn assembled(self) -> bool {
        self.assembler.total_slices() matches Some(total) && self.assembler.next_needed >= total
    }
}

/// What each message of a list says.
pub open spec fn message_views(messages: Seq<Message>) -> Seq<MessageView> {
    Seq::new(messages.len(), |i: int| messages[i]@)
}

/// What is answered, as far as it is not why the session ends.
pub open spec fn answered(result: Result<Vec<Message>, ProtoError>) -> Result<
    Seq<MessageView>,
    ProtoError,
> {
    match result {
        Ok(messages) => Ok(message_views(messages@)),
        Err(error) => Err(error),
    }
}

/// Answers an announcement, if that is what a message is: the receiver joins.
pub fn join(message: Message, receiver_id: u64) -> (joined: Option<(Hello, Message)>)
    ensures
        match message@ {
            MessageView::Hello(announced) => joined matches Some((hello, answer)) && hello@
                == announced && answer@ == (MessageView::Join {
                transfer_id: announced.transfer_id,
                receiver_id,
            }),
            _ => joined is None,
        },
{
    match message {
        Message::Hello(hello) => {
            let answer = Message::Join { transfer_id: hello.transfer_id, receiver_id };
            Some((hello, answer))
        },
        _ => None,
    }
}

/// Why a receiver gives up when nothing is announced.
pub fn nothing_announced() -> (error: ProtoError)
    ensures
        error matches ProtoError::Timeout(text) && text@
            == "Timed out listening for hello message"@,
{
    ProtoError::Timeout("Timed out listening for hello message".to_string())
}

/// A receiver's side of one transfer.
pub struct Session {
    transfer_id: u64,
    receiver_id: u64,
    block_size: usize,
    blocks_per_slice: u16,
    parity_per_slice: u8,
    assembler: Assembler,
    naks: Naks,
    pending: VecDeque<Bytes>,
    emit_floor: u32,
    received: u64,
    highest_seq: Option<u32>,
    duplicates: u64,
    late: u64,
    total_bytes: Option<u64>,
    announced_bytes: Option<u64>,
    written_bytes: u64,
    bytes_at_last_report: u64,
    last_report: u64,
    blocks_written: u64,
    sink_stall: u64,
    last_handover: u64,
    last_packet: u64,
    started: u64,
}

impl View for Session {
    type V = SessionView;

    closed spec fn view(&self) -> SessionView {
        SessionView {
            transfer_id: self.transfer_id,
            receiver_id: self.receiver_id,
            assembler: self.assembler@,
            naks: self.naks@,
            pending: buffers::contents(self.pending@),
            emit_floor: self.emit_floor,
            received: self.received,
            highest_seq: self.highest_seq,
            duplicates: self.duplicates,
            late: self.late,
            total_bytes: self.total_bytes,
            announced_bytes: self.announced_bytes,
            written_bytes: self.written_bytes,
            bytes_at_last_report: self.bytes_at_last_report,
            last_report: self.last_report,
            blocks_written: self.blocks_written,
            sink_stall: self.sink_stall,
            last_handover: self.last_handover,
            last_packet: self.last_packet,
            started: self.started,
        }
    }
}

impl Session {
    /// What holds of every session.
    pub closed spec fn wf(self) -> bool {
        &&& self@.valid()
        &&& self.shaped()
    }

    /// A well-formed session is in a state that a session can be in.
    pub proof fn is_valid(self)
        requires
            self.wf(),
        ensures
            self@.valid(),
    {
    }

    spec fn shaped(self) -> bool {
        &&& self.assembler.wf()
        &&& self.block_size == self.assembler@.block_size
        &&& self.blocks_per_slice == self.assembler@.blocks_per_slice
        &&& self.parity_per_slice == self.assembler@.parity_per_slice
    }

    /// The session that an announcement starts, unless no codec serves it.
    pub fn new(receiver_id: u64, hello: &Hello, now: u64) -> (result: Result<Session, ProtoError>)
        ensures
            result is Ok <==> hello.parity_per_slice == 0 || codec::supported(
                hello.blocks_per_slice@ as nat,
                hello.parity_per_slice as nat,
                hello.block_size@ as nat,
            ),
            result matches Ok(session) ==> session.wf() && session@ == opened(
                receiver_id,
                hello@,
                now,
            ),
            result matches Err(error) ==> error == ProtoError::Fec(
                codec::refusal(
                    hello.blocks_per_slice@ as usize,
                    hello.parity_per_slice as usize,
                    hello.block_size@ as usize,
                ),
            ),
    {
        let block_size: usize = hello.block_size.get() as usize;
        let assembler = match Assembler::new(
            block_size,
            hello.blocks_per_slice,
            hello.parity_per_slice,
            hello.max_live_slices,
        ) {
            Ok(assembler) => assembler,
            Err(error) => return Err(ProtoError::Fec(error)),
        };

        let session = Session {
            transfer_id: hello.transfer_id,
            receiver_id,
            block_size,
            blocks_per_slice: hello.blocks_per_slice.get(),
            parity_per_slice: hello.parity_per_slice,
            assembler,
            naks: Naks::default(),
            pending: VecDeque::new(),
            emit_floor: 0,
            received: 0,
            highest_seq: None,
            duplicates: 0,
            late: 0,
            total_bytes: None,
            announced_bytes: hello.total_bytes,
            written_bytes: 0,
            bytes_at_last_report: 0,
            last_report: now,
            blocks_written: 0,
            sink_stall: 0,
            last_handover: now,
            last_packet: now,
            started: now,
        };
        proof {
            session.assembler.is_valid();
            assert(session@.pending =~= Seq::<Seq<u8>>::empty());
        }
        Ok(session)
    }

    /// Takes note that something arrived.
    pub fn heard(&mut self, now: u64)
        requires
            old(self).wf(),
        ensures
            final(self).wf(),
            final(self)@ == (SessionView { last_packet: now, ..old(self)@ }),
    {
        self.last_packet = now;
    }

    /// How much longer the sender may be silent.
    pub fn silence(&self, now: u64) -> (left: u64)
        ensures
            left == if time::since(self@.last_packet, now) <= SILENCE_TIMEOUT {
                (SILENCE_TIMEOUT - time::since(self@.last_packet, now)) as u64
            } else {
                0
            },
    {
        SILENCE_TIMEOUT.saturating_sub(time::elapsed(self.last_packet, now))
    }

    /// Whether every slice was put together and handed over.
    pub fn is_assembled(&self) -> (assembled: bool)
        requires
            self.wf(),
        ensures
            assembled == self@.assembled(),
    {
        self.assembler.is_finished()
    }

    /// Whether blocks wait for the sink.
    pub fn is_waiting(&self) -> (waiting: bool)
        ensures
            waiting == (self@.pending.len() > 0),
    {
        self.pending.len() > 0
    }

    /// Whether the session is over: every block left.
    pub fn is_over(&self) -> (over: bool)
        requires
            self.wf(),
        ensures
            over == (self@.assembled() && self@.pending.len() == 0),
    {
        self.is_assembled() && !self.is_waiting()
    }

    /// Whether requests can still be counted.
    pub fn can_ask(&self) -> (can: bool)
        ensures
            can == self@.can_ask(),
    {
        self.naks.total() <= u64::MAX - 0xffff_ffff
    }

    /// Whether what arrives can be counted.
    pub fn can_count(&self, arrival: &Incoming) -> (can: bool)
        requires
            self.wf(),
        ensures
            can == self@.countable(arrival@),
    {
        match arrival {
            Incoming::Shard(frame) => {
                if self.blocks_per_slice as u32 + self.parity_per_slice as u32 > 0xffff {
                    return false;
                }
                match self.check_shard(frame) {
                    Ok(_) => self.received < u64::MAX && (frame.slice_no
                        < self.assembler.next_needed() || self.assembler.can_count()) && (
                    frame.emit_floor <= self.emit_floor || self.can_ask()),
                    Err(_) => true,
                }
            },
            Incoming::Control(Message::Done(_)) => self.can_ask(),
            Incoming::Control(_) => true,
        }
    }

    /// Deals with what arrived, and says what to answer the sender.
    pub fn on_arrival(&mut self, arrival: Incoming, now: u64) -> (result: Result<
        Vec<Message>,
        ProtoError,
    >)
        requires
            old(self).wf(),
            old(self)@.countable(arrival@),
        ensures
            final(self).wf(),
            final(self)@ == old(self)@.after(arrival@, now),
            old(self)@.answers(arrival@, now, answered(result)),
    {
        match arrival {
            Incoming::Shard(frame) => self.on_shard(frame, now),
            Incoming::Control(message) => match message {
                Message::Done(done) => Ok(self.on_done(done, now)),
                Message::Hello(_) => {
                    let mut answers: Vec<Message> = Vec::new();
                    if self.received == 0 {
                        answers.push(
                            Message::Join {
                                transfer_id: self.transfer_id,
                                receiver_id: self.receiver_id,
                            },
                        );
                        assert(message_views(answers@) =~= seq![
                            MessageView::Join {
                                transfer_id: self.transfer_id,
                                receiver_id: self.receiver_id,
                            },
                        ]);
                    } else {
                        assert(message_views(answers@) =~= Seq::<MessageView>::empty());
                    }
                    Ok(answers)
                },
                Message::Evicted(evicted) => {
                    if evicted.target == self.receiver_id {
                        return Err(ProtoError::Evicted(evicted.reason));
                    }
                    Ok(no_answer())
                },
                _ => Ok(no_answer()),
            },
        }
    }

    fn on_shard(&mut self, frame: Frame, now: u64) -> (result: Result<Vec<Message>, ProtoError>)
        requires
            old(self).wf(),
            old(self)@.countable(IncomingView::Shard(frame@)),
        ensures
            final(self).wf(),
            final(self)@ == old(self)@.after(IncomingView::Shard(frame@), now),
            old(self)@.answers(IncomingView::Shard(frame@), now, answered(result)),
    {
        match self.check_shard(&frame) {
            Ok(_) => {},
            Err(error) => return Err(ProtoError::Protocol(error)),
        }
        self.received += 1;
        let highest: u32 = match self.highest_seq {
            Some(highest) => if highest >= frame.seq {
                highest
            } else {
                frame.seq
            },
            None => frame.seq,
        };
        self.highest_seq = Some(highest);

        let floor_advanced = frame.emit_floor > self.emit_floor;
        if floor_advanced {
            self.emit_floor = frame.emit_floor;
        }
        let ghost before = self.assembler@;
        if !self.assembler.insert(frame.slice_no, frame.slot, frame.slice_parity, frame.payload) {
            self.refused(frame.slice_no);
        }
        proof {
            let after = self.assembler@;
            assert forall|slice_no: u32| #[trigger]
                after.slices.dom().contains(slice_no) implies after.slices[slice_no].sized(
                after.block_size,
            ) by {
                if before.slices.dom().contains(slice_no) {
                    assert(before.slices[slice_no].sized(before.block_size));
                }
            }
            assert(self@ == old(self)@.with_shard(frame@));
        }
        if floor_advanced {
            return Ok(self.request_gaps(now));
        }
        Ok(no_answer())
    }

    /// Says why a shard is refused, if it is.
    pub fn check_shard(&self, frame: &Frame) -> (result: Result<(), Error>)
        requires
            self.wf(),
            self@.assembler.total_slots() <= u16::MAX,
        ensures
            match result {
                Ok(_) => self@.refusal(frame@) is None,
                Err(error) => self@.refusal(frame@) == Some(error),
            },
    {
        let slots: u16 = self.assembler.total_slots();
        if frame.slot >= slots {
            return Err(Error::SlotOutsideSlice { slot: frame.slot, slots });
        }
        if frame.slice_parity > self.parity_per_slice {
            return Err(
                Error::ParityWiderThanTransfer {
                    named: frame.slice_parity,
                    allowed: self.parity_per_slice,
                },
            );
        }
        if frame.slot >= self.blocks_per_slice && frame.slot - self.blocks_per_slice
            >= frame.slice_parity as u16 {
            return Err(
                Error::ParityOutsideSlice { slot: frame.slot, named: frame.slice_parity },
            );
        }
        let len: usize = buffers::buffer_len(&frame.payload);
        if len != self.block_size {
            return Err(Error::PayloadSize { got: len, expected: self.block_size });
        }
        Ok(())
    }

    fn refused(&mut self, slice_no: u32)
        requires
            old(self).shaped(),
            old(self).late + old(self).duplicates < old(self).received,
        ensures
            final(self).shaped(),
            final(self)@ == if slice_no < old(self)@.assembler.next_needed {
                SessionView { late: (old(self)@.late + 1) as u64, ..old(self)@ }
            } else {
                SessionView { duplicates: (old(self)@.duplicates + 1) as u64, ..old(self)@ }
            },
    {
        if slice_no < self.assembler.next_needed() {
            self.late += 1;
        } else {
            self.duplicates += 1;
        }
    }

    fn on_done(&mut self, done: Done, now: u64) -> (requests: Vec<Message>)
        requires
            old(self).wf(),
            old(self)@.can_ask(),
        ensures
            final(self).wf(),
            final(self)@ == old(self)@.with_end(done).asking(now),
            message_views(requests@) == old(self)@.with_end(done).requests(now),
    {
        self.total_bytes = Some(done.total_bytes);
        self.assembler.on_done(done.total_blocks);
        assert(self@ == old(self)@.with_end(done));
        self.request_gaps(now)
    }

    /// The requests for repairs that are due, which count as made.
    pub fn request_gaps(&mut self, now: u64) -> (requests: Vec<Message>)
        requires
            old(self).wf(),
            old(self)@.can_ask(),
        ensures
            final(self).wf(),
            final(self)@ == old(self)@.asking(now),
            message_views(requests@) == old(self)@.requests(now),
    {
        let gaps = self.assembler.gaps(self.emit_floor);
        proof {
            assembler::gaps_are_counted(self@.assembler, self@.emit_floor);
            assert(assembler::gap_contents(gaps@).len() == gaps@.len());
        }
        let ghost all = assembler::gap_contents(gaps@);
        let mut due = self.naks.due(gaps, now);
        let ghost asked = assembler::gap_contents(due@);
        let ghost wanted = old(self)@.requests(now);
        assert(asked.len() == due@.len());
        let mut requests: Vec<Message> = Vec::new();
        let mut at: usize = 0;
        while at < due.len()
            invariant
                at <= due@.len(),
                requests@.len() == at,
                due@.len() == asked.len() == wanted.len(),
                self.transfer_id == old(self).transfer_id,
                self.receiver_id == old(self).receiver_id,
                wanted == old(self)@.requests(now),
                asked == old(self)@.naks.due(old(self)@.assembler.gaps(old(self)@.emit_floor), now),
                forall|i: int| at <= i < due@.len() ==> assembler::gap_contents(due@)[i] == asked[i],
                forall|i: int| 0 <= i < at ==> (#[trigger] requests@[i])@ == wanted[i],
            decreases due@.len() - at,
        {
            assert(assembler::gap_contents(due@)[at as int] == asked[at as int]);
            let slice_no: u32 = due[at].0;
            let mut missing: Vec<u16> = Vec::new();
            std::mem::swap(&mut missing, &mut due[at].1);
            requests.push(
                Message::Nak(
                    Nak {
                        transfer_id: self.transfer_id,
                        receiver_id: self.receiver_id,
                        slice_no,
                        missing,
                    },
                ),
            );
            at += 1;
        }
        assert(message_views(requests@) =~= wanted);
        requests
    }

    /// Whether blocks can be handed over: the slices that are ready can be put
    /// together, and what they hold can be counted.
    pub fn can_hand_over(&self) -> (can: bool)
        requires
            self.wf(),
        ensures
            can == (self@.pending.len() > 0 || (self@.assembler.takeable() && self@.roomy())),
    {
        if self.pending.len() > 0 {
            return true;
        }
        let live: u128 = self.assembler.live_slices() as u128;
        let per_slice: u128 = self.blocks_per_slice as u128;
        let size: u128 = self.block_size as u128;
        proof {
            self.assembler.is_valid();
            let n = live as int;
            let k = per_slice as int;
            let b = size as int;
            assert(n * k <= 0xffff_ffff_ffff_ffff * 0xffff) by (nonlinear_arith)
                requires
                    0 <= n <= 0xffff_ffff_ffff_ffff,
                    0 <= k <= 0xffff,
            ;
            assert(0 <= n * k) by (nonlinear_arith)
                requires
                    0 <= n,
                    0 <= k,
            ;
            assert(n * k * b <= 0xffff_ffff_ffff_ffff * 0xffff * 0xffff_ffff) by (nonlinear_arith)
                requires
                    0 <= n * k <= 0xffff_ffff_ffff_ffff * 0xffff,
                    0 <= b <= 0xffff_ffff,
            ;
        }
        let blocks: u128 = live * per_slice;
        let bytes: u128 = blocks * size;
        self.written_bytes as u128 + bytes <= u64::MAX as u128 && self.assembler.is_takeable()
    }

    /// Hands the sink as many blocks as it takes, given how many that is, or that
    /// it is closed. Blocks are only put together while none wait.
    pub fn hand_over(&mut self, now: u64, room: Option<usize>) -> (result: Result<
        Vec<Bytes>,
        ProtoError,
    >)
        requires
            old(self).wf(),
            old(self)@.pending.len() > 0 || (old(self)@.assembler.takeable() && old(
                self,
            )@.roomy()),
        ensures
            final(self).wf(),
            match result {
                Ok(blocks) => {
                    &&& room is Some || old(self)@.refilled(now).pending.len() == 0
                    &&& old(self)@.hands_over(
                        now,
                        match room {
                            Some(room) => room,
                            None => 0,
                        },
                        buffers::contents(blocks@),
                        final(self)@,
                    )
                },
                Err(error) => {
                    &&& error is SinkClosed
                    &&& room is None && old(self)@.refilled(now).pending.len() > 0
                    &&& final(self)@ == old(self)@.refilled(now).with_block_lost()
                },
            },
            forall|bytes: Seq<u8>| #[trigger]
                old(self)@.on_course(bytes) && old(self)@.settled(bytes) ==> {
                    &&& final(self)@.on_course(bytes)
                    &&& result matches Ok(blocks) ==> joined(buffers::contents(blocks@))
                        == bytes.subrange(old(self)@.gone(), final(self)@.gone())
                },
    {
        if self.pending.len() > 0 {
            let span: u64 = time::elapsed(self.last_handover, now);
            self.sink_stall = self.sink_stall.saturating_add(span);
        } else {
            self.refill();
        }
        self.last_handover = now;
        let ghost full = self@;
        assert(full == old(self)@.refilled(now));
        proof {
            assert forall|bytes: Seq<u8>| #[trigger]
                old(self)@.on_course(bytes) && old(self)@.settled(bytes) implies full.on_course(
                bytes,
            ) && full.gone() == old(self)@.gone() by {
                if old(self)@.pending.len() == 0 {
                    lemma_refilled_on_course(old(self)@, bytes, now);
                }
            }
        }
        let waiting: usize = self.pending.len();
        let count: usize = match room {
            Some(room) => if waiting <= room {
                waiting
            } else {
                room
            },
            None => {
                if waiting > 0 {
                    let ghost held = self.pending@;
                    let lost = self.pending.pop_front();
                    proof {
                        assert(self.pending@ =~= held.skip(1));
                        assert(self@.pending =~= full.pending.skip(1));
                        lemma_joined_in_two(full.pending, 1);
                        assert forall|bytes: Seq<u8>| #[trigger]
                            old(self)@.on_course(bytes) && old(self)@.settled(
                                bytes,
                            ) implies self@.on_course(bytes) by {
                            lemma_blocks_gone_on_course(full, bytes, 1);
                        }
                    }
                    return Err(ProtoError::SinkClosed);
                }
                0
            },
        };
        let mut blocks: Vec<Bytes> = Vec::new();
        assert(full.pending.skip(0) =~= full.pending);
        assert(buffers::contents(blocks@) =~= full.pending.take(0));
        while blocks.len() < count
            invariant
                blocks@.len() <= count <= full.pending.len(),
                self.shaped(),
                full.valid(),
                buffers::contents(blocks@) == full.pending.take(blocks@.len() as int),
                self@ == (SessionView {
                    pending: full.pending.skip(blocks@.len() as int),
                    blocks_written: (full.blocks_written + blocks@.len()) as u64,
                    ..full
                }),
                self.assembler == old(self).assembler || old(self)@.pending.len() == 0,
            decreases count - blocks@.len(),
        {
            let ghost shown = self@.pending;
            let ghost gone = blocks@;
            let ghost held = self.pending@;
            assert(shown.len() == held.len());
            let block = match self.pending.pop_front() {
                Some(block) => block,
                None => vstd::pervasive::unreached(),
            };
            assert(self.pending@ =~= held.skip(1));
            assert(shown[0] == buffers::held(block));
            blocks.push(block);
            self.blocks_written += 1;
            assert(self@.pending =~= shown.skip(1));
            assert(shown.skip(1) =~= full.pending.skip(blocks@.len() as int));
            assert(buffers::contents(blocks@) =~= buffers::contents(gone).push(
                buffers::held(block),
            ));
            assert(full.pending.take(blocks@.len() as int) =~= full.pending.take(
                gone.len() as int,
            ).push(full.pending[gone.len() as int]));
        }
        self.naks.forget_below(self.assembler.next_needed());
        proof {
            lemma_joined_in_two(full.pending, count as int);
            assert forall|bytes: Seq<u8>| #[trigger]
                old(self)@.on_course(bytes) && old(self)@.settled(bytes) implies {
                &&& self@.on_course(bytes)
                &&& joined(buffers::contents(blocks@)) == bytes.subrange(
                    old(self)@.gone(),
                    self@.gone(),
                )
            } by {
                assert(full.on_course(bytes));
                lemma_blocks_gone_on_course(full, bytes, count as int);
            }
        }
        Ok(blocks)
    }

    /// Puts together what is ready.
    fn refill(&mut self)
        requires
            old(self).wf(),
            old(self)@.pending.len() == 0,
            old(self)@.assembler.takeable(),
            old(self)@.roomy(),
        ensures
            final(self).wf(),
            final(self)@ == (SessionView {
                last_handover: old(self)@.last_handover,
                ..old(self)@.refilled(0)
            }),
            final(self)@.gone() == old(self)@.gone(),
            forall|source: Seq<Seq<u8>>| #[trigger]
                assembler::genuine(old(self)@.assembler, source) ==> assembler::genuine(
                    final(self)@.assembler,
                    source,
                ) && old(self)@.assembler.taken() == source.subrange(
                    shards::slice_start(
                        source,
                        old(self)@.assembler.blocks_per_slice as nat,
                        old(self)@.assembler.next_needed as int,
                    ),
                    shards::slice_start(
                        source,
                        old(self)@.assembler.blocks_per_slice as nat,
                        final(self)@.assembler.next_needed as int,
                    ),
                ),
    {
        let ghost before = self@;
        let ready = self.assembler.take_ready();
        let ghost taken = before.assembler.taken();
        let ghost k = before.assembler.blocks_per_slice as int;
        let ghost size = before.assembler.block_size as int;
        let ghost live = before.assembler.slices.dom().len() as int;
        proof {
            assembler::taken_is_bounded(before.assembler);
            self.assembler.is_valid();
            assert(buffers::contents(ready@).len() == ready@.len());
            assert(taken.len() * size <= live * k * size) by (nonlinear_arith)
                requires
                    0 <= taken.len() <= live * k,
                    0 <= size,
            ;
            assert(self@.pending =~= Seq::<Seq<u8>>::empty());
        }
        let mut at: usize = 0;
        while at < ready.len()
            invariant
                at <= ready@.len(),
                taken.len() == ready@.len(),
                taken == buffers::contents(ready@),
                shards::all_sized(taken, size as nat),
                0 <= size,
                before.written_bytes + taken.len() * size <= u64::MAX,
                self.written_bytes <= before.written_bytes + at * size,
                before.written_bytes <= self.written_bytes,
                self.shaped(),
                before.valid(),
                before.pending.len() == 0,
                self@.valid(),
                ({
                    let (blocks, written) = clipped(
                        taken,
                        before.total_bytes,
                        before.written_bytes as int,
                        at as int,
                    );
                    self@ == (SessionView {
                        assembler: before.assembler.after_taking(),
                        pending: blocks,
                        written_bytes: written as u64,
                        ..before
                    })
                }),
                clipped(taken, before.total_bytes, before.written_bytes as int, at as int).1
                    == self.written_bytes,
            decreases ready@.len() - at,
        {
            proof {
                assert(taken[at as int].len() == size);
                assert((at + 1) * size == at * size + size) by (nonlinear_arith);
                assert((at + 1) * size <= taken.len() * size) by (nonlinear_arith)
                    requires
                        at + 1 <= taken.len(),
                        0 <= size,
                ;
            }
            let ghost shown = self@.pending;
            let block = self.within_total(&ready[at]);
            if buffers::buffer_len(&block) > 0 {
                self.pending.push_back(block);
                assert(self@.pending =~= shown.push(buffers::held(block)));
                assert(self@.pending.drop_last() =~= shown);
            }
            at += 1;
        }
        proof {
            lemma_clipped_counts(
                taken,
                before.total_bytes,
                before.written_bytes as int,
                taken.len() as int,
            );
            assert(before.pending =~= Seq::<Seq<u8>>::empty());
        }
    }

    fn within_total(&mut self, block: &Bytes) -> (kept: Bytes)
        requires
            old(self).shaped(),
            old(self).written_bytes + buffers::held(*block).len() <= u64::MAX,
        ensures
            final(self).shaped(),
            buffers::held(kept) == within(
                buffers::held(*block),
                old(self)@.total_bytes,
                old(self)@.written_bytes as int,
            ),
            final(self)@ == (SessionView {
                written_bytes: (old(self)@.written_bytes + buffers::held(kept).len()) as u64,
                ..old(self)@
            }),
    {
        let len: usize = buffers::buffer_len(block);
        let kept = match self.total_bytes {
            Some(total_bytes) => {
                let room: u64 = total_bytes.saturating_sub(self.written_bytes);
                let end: usize = if len as u64 <= room {
                    len
                } else {
                    room as usize
                };
                let kept = buffers::buffer_part(block, 0, end);
                assert(buffers::held(kept) =~= within(
                    buffers::held(*block),
                    self.total_bytes,
                    self.written_bytes as int,
                ));
                kept
            },
            None => buffers::buffer_clone(block),
        };
        self.written_bytes = self.written_bytes + buffers::buffer_len(&kept) as u64;
        kept
    }

    /// The report to the sender. The time that the sink stalled counts from here on.
    pub fn stats(&mut self) -> (message: Message)
        requires
            old(self).wf(),
        ensures
            final(self).wf(),
            message@ == MessageView::Stats(old(self)@.stats()),
            final(self)@ == (SessionView { sink_stall: 0, ..old(self)@ }),
    {
        let stall_ms: u64 = self.sink_stall / 1_000_000;
        self.sink_stall = 0;
        Message::Stats(
            Stats {
                transfer_id: self.transfer_id,
                receiver_id: self.receiver_id,
                total_received: self.received,
                total_expected: self.expected(),
                next_needed_slice: self.assembler.next_needed(),
                sink_stall_ms: if stall_ms <= 0xffff_ffff {
                    stall_ms as u32
                } else {
                    0xffff_ffff
                },
            },
        )
    }

    fn expected(&self) -> (expected: u64)
        ensures
            expected == self@.expected(),
    {
        match self.highest_seq {
            Some(highest) => highest as u64 + 1,
            None => 0,
        }
    }

    /// How far the session is, with how many bytes were written since the last
    /// report and how long ago that was.
    pub fn report_progress(&mut self, now: u64) -> (report: (ReceiveState, u64, u64))
        requires
            old(self).wf(),
        ensures
            final(self).wf(),
            report.0 == (ReceiveState {
                transfer_id: old(self)@.transfer_id,
                announced_bytes: match old(self)@.total_bytes {
                    Some(total) => Some(total),
                    None => old(self)@.announced_bytes,
                },
                received_bytes: old(self)@.written_bytes,
                next_needed_slice: old(self)@.assembler.next_needed,
                duplicates: old(self)@.duplicates,
                naks: old(self)@.naks.total,
                elapsed: time::since(old(self)@.started, now),
            }),
            report.1 == old(self)@.written_bytes - old(self)@.bytes_at_last_report,
            report.2 == time::since(old(self)@.last_report, now),
            final(self)@ == (SessionView {
                last_report: now,
                bytes_at_last_report: old(self)@.written_bytes,
                ..old(self)@
            }),
    {
        let since_last: u64 = time::elapsed(self.last_report, now);
        self.last_report = now;
        let written: u64 = self.written_bytes - self.bytes_at_last_report;
        self.bytes_at_last_report = self.written_bytes;
        let state = ReceiveState {
            transfer_id: self.transfer_id,
            announced_bytes: match self.total_bytes {
                Some(total) => Some(total),
                None => self.announced_bytes,
            },
            received_bytes: self.written_bytes,
            next_needed_slice: self.assembler.next_needed(),
            duplicates: self.duplicates,
            naks: self.naks.total(),
            elapsed: time::elapsed(self.started, now),
        };
        (state, written, since_last)
    }

    /// Why the session ends when the sender was silent for too long.
    pub fn went_silent(&self) -> (error: ProtoError)
        requires
            self.wf(),
        ensures
            error == (ProtoError::SenderSilent {
                held: self@.assembler.next_needed,
                total: self@.assembler.total_slices(),
            }),
    {
        ProtoError::SenderSilent {
            held: self.assembler.next_needed(),
            total: self.assembler.total_slices(),
        }
    }

    /// Whether as many bytes were written as the sender announced.
    pub fn check_byte_total(&self) -> (result: Result<(), ProtoError>)
        ensures
            match result {
                Ok(_) => self@.total_bytes matches Some(expected) ==> expected
                    == self@.written_bytes,
                Err(error) => self@.total_bytes matches Some(expected) && expected
                    != self@.written_bytes && error == (ProtoError::ByteCountMismatch {
                    expected,
                    received: self@.written_bytes,
                }),
            },
    {
        match self.total_bytes {
            Some(expected) if expected != self.written_bytes => Err(
                ProtoError::ByteCountMismatch { expected, received: self.written_bytes },
            ),
            _ => Ok(()),
        }
    }

    /// The message that the receiver leaves with.
    pub fn farewell(&self) -> (message: Message)
        ensures
            message@ == (MessageView::Leave {
                transfer_id: self@.transfer_id,
                receiver_id: self@.receiver_id,
            }),
    {
        Message::Leave { transfer_id: self.transfer_id, receiver_id: self.receiver_id }
    }

    /// How the transfer went.
    pub fn summary(&self, now: u64) -> (summary: TransferSummary)
        ensures
            summary == (TransferSummary {
                total_bytes: self@.written_bytes,
                total_blocks: self@.blocks_written,
                received: self@.received,
                expected: self@.expected(),
                duplicates: self@.duplicates,
                late: self@.late,
                naks_sent: self@.naks.total,
                duration: time::since(self@.started, now),
            }),
    {
        TransferSummary {
            total_bytes: self.written_bytes,
            total_blocks: self.blocks_written,
            received: self.received,
            expected: self.expected(),
            duplicates: self.duplicates,
            late: self.late,
            naks_sent: self.naks.total(),
            duration: time::elapsed(self.started, now),
        }
    }
}

fn no_answer() -> (answers: Vec<Message>)
    ensures
        message_views(answers@) == Seq::<MessageView>::empty(),
{
    let answers: Vec<Message> = Vec::new();
    assert(message_views(answers@) =~= Seq::<MessageView>::empty());
    answers
}

/// The bytes that leave are those of the transfer: the blocks of a run of bytes,
/// cut where the transfer ends, joined up again. That takes the size of the
/// transfer to be known before the block that it ends in is cut.
pub proof fn what_leaves_is_what_was_sent(
    bytes: Seq<u8>,
    block_size: nat,
    from: int,
    upto: int,
    total_bytes: Option<u64>,
)
    requires
        0 < block_size,
        bytes.len() <= u64::MAX,
        0 <= from <= upto <= shards::block_count(bytes, block_size),
        total_bytes == Some(bytes.len() as u64) || (total_bytes is None && upto * block_size
            <= bytes.len()),
    ensures
        ({
            let blocks = shards::source_blocks(bytes, block_size).subrange(from, upto);
            let start = from * block_size;
            let end = if upto * block_size <= bytes.len() {
                upto * block_size
            } else {
                bytes.len() as int
            };
            let (left, written) = clipped(blocks, total_bytes, start, upto - from);
            &&& 0 <= start
            &&& from == upto || start <= end
            &&& from == upto || written == end
            &&& from == upto || joined(left) == bytes.subrange(start, end)
            &&& from == upto ==> joined(left) == Seq::<u8>::empty() && written == start
        }),
{
    assert(0 <= from * block_size) by (nonlinear_arith)
        requires
            0 <= from,
    ;
    lemma_clipped_upto(bytes, block_size, from, upto, upto - from, total_bytes);
}

proof fn lemma_clipped_upto(
    bytes: Seq<u8>,
    block_size: nat,
    from: int,
    upto: int,
    count: int,
    total_bytes: Option<u64>,
)
    requires
        0 < block_size,
        bytes.len() <= u64::MAX,
        0 <= from <= upto <= shards::block_count(bytes, block_size),
        0 <= count <= upto - from,
        total_bytes == Some(bytes.len() as u64) || (total_bytes is None && upto * block_size
            <= bytes.len()),
    ensures
        ({
            let blocks = shards::source_blocks(bytes, block_size).subrange(from, upto);
            let start = from * block_size;
            let end = if (from + count) * block_size <= bytes.len() {
                (from + count) * block_size
            } else {
                bytes.len() as int
            };
            let (left, written) = clipped(blocks, total_bytes, start, count);
            &&& count == 0 ==> joined(left) == Seq::<u8>::empty() && written == start
            &&& count > 0 ==> 0 <= start <= end && written == end && joined(left)
                == bytes.subrange(start, end)
        }),
    decreases count,
{
    let all = shards::source_blocks(bytes, block_size);
    let blocks = all.subrange(from, upto);
    let start = from * block_size;
    if count > 0 {
        let at = from + count - 1;
        lemma_clipped_upto(bytes, block_size, from, upto, count - 1, total_bytes);
        shards::source_blocks_are_sized(bytes, block_size);
        assert(0 <= at * block_size < bytes.len());
        assert(0 <= from * block_size < bytes.len());
        assert((at + 1) * block_size == at * block_size + block_size) by (nonlinear_arith);
        assert(from * block_size <= at * block_size) by (nonlinear_arith)
            requires
                from <= at,
        ;
        assert((at + 1) * block_size <= upto * block_size) by (nonlinear_arith)
            requires
                at + 1 <= upto,
        ;
        let (before, sofar) = clipped(blocks, total_bytes, start, count - 1);
        assert(sofar == at * block_size);
        let block = blocks[count - 1];
        assert(block == all[at]);
        assert(block.len() == block_size);
        let end = if (at + 1) * block_size <= bytes.len() {
            (at + 1) * block_size
        } else {
            bytes.len() as int
        };
        let cut = within(block, total_bytes, sofar);
        assert(cut =~= bytes.subrange(at * block_size, end));
        assert(before.push(cut).drop_last() =~= before);
        assert(joined(before.push(cut)) == joined(before) + cut);
        if count == 1 {
            assert(joined(before) + cut =~= cut);
        }
        assert(joined(before) + cut =~= bytes.subrange(start, end));
    }
}

proof fn lemma_slice_start_grows(
    source: Seq<Seq<u8>>,
    blocks_per_slice: nat,
    earlier: int,
    later: int,
)
    requires
        0 <= earlier <= later,
    ensures
        0 <= shards::slice_start(source, blocks_per_slice, earlier) <= shards::slice_start(
            source,
            blocks_per_slice,
            later,
        ) <= source.len(),
{
    assert(0 <= earlier * blocks_per_slice <= later * blocks_per_slice) by (nonlinear_arith)
        requires
            0 <= earlier <= later,
            0 <= blocks_per_slice,
    ;
}

proof fn lemma_joined_in_two(blocks: Seq<Seq<u8>>, count: int)
    requires
        0 <= count <= blocks.len(),
    ensures
        joined(blocks) == joined(blocks.take(count)) + joined(blocks.skip(count)),
    decreases blocks.len(),
{
    if count == blocks.len() {
        assert(blocks.take(count) =~= blocks);
        assert(joined(blocks) =~= joined(blocks) + joined(blocks.skip(count)));
    } else {
        let shorter = blocks.drop_last();
        lemma_joined_in_two(shorter, count);
        assert(shorter.take(count) =~= blocks.take(count));
        assert(shorter.skip(count) =~= blocks.skip(count).drop_last());
        assert(joined(blocks) =~= joined(blocks.take(count)) + joined(blocks.skip(count)));
    }
}

proof fn lemma_clipped_counts(
    blocks: Seq<Seq<u8>>,
    total_bytes: Option<u64>,
    written: int,
    upto: int,
)
    ensures
        clipped(blocks, total_bytes, written, upto).1 == written + joined(
            clipped(blocks, total_bytes, written, upto).0,
        ).len(),
    decreases upto,
{
    if upto > 0 {
        lemma_clipped_counts(blocks, total_bytes, written, upto - 1);
        let (before, sofar) = clipped(blocks, total_bytes, written, upto - 1);
        let block = within(blocks[upto - 1], total_bytes, sofar);
        assert(before.push(block).drop_last() =~= before);
    }
}

/// Handing blocks over keeps a session on course, given that they are those of the
/// transfer.
proof fn lemma_refilled_on_course(session: SessionView, bytes: Seq<u8>, now: u64)
    requires
        session.valid(),
        session.on_course(bytes),
        session.settled(bytes),
        session.pending.len() == 0,
        assembler::genuine(session.assembler.after_taking(), session.blocks_of(bytes)),
        session.assembler.taken() == session.blocks_of(bytes).subrange(
            shards::slice_start(
                session.blocks_of(bytes),
                session.assembler.blocks_per_slice as nat,
                session.assembler.next_needed as int,
            ),
            shards::slice_start(
                session.blocks_of(bytes),
                session.assembler.blocks_per_slice as nat,
                session.assembler.after_taking().next_needed as int,
            ),
        ),
    ensures
        session.refilled(now).on_course(bytes),
        session.refilled(now).gone() == session.gone(),
{
    let size = session.assembler.block_size;
    let source = session.blocks_of(bytes);
    let k = session.assembler.blocks_per_slice as nat;
    let after = session.assembler.after_taking();
    let from = shards::slice_start(source, k, session.assembler.next_needed as int);
    let upto = shards::slice_start(source, k, after.next_needed as int);
    assembler::taken_is_bounded(session.assembler);
    lemma_slice_start_grows(
        source,
        k,
        session.assembler.next_needed as int,
        after.next_needed as int,
    );
    shards::source_blocks_are_sized(bytes, size);
    what_leaves_is_what_was_sent(bytes, size, from, upto, session.total_bytes);
    assert(session.pending =~= Seq::<Seq<u8>>::empty());
    let full = session.refilled(now);
    if from < upto {
        assert(from * size < bytes.len());
        assert(full.gone() == session.gone());
    } else {
        assert(session.assembler.taken() =~= Seq::<Seq<u8>>::empty());
        assert(full.pending =~= Seq::<Seq<u8>>::empty());
    }
}

proof fn lemma_blocks_gone_on_course(session: SessionView, bytes: Seq<u8>, count: int)
    requires
        session.on_course(bytes),
        0 <= count <= session.pending.len(),
    ensures
        session.with_blocks_gone(count).on_course(bytes),
        joined(session.pending.take(count)) == bytes.subrange(
            session.gone(),
            session.with_blocks_gone(count).gone(),
        ),
{
    let all = joined(session.pending);
    let left = joined(session.pending.take(count));
    let rest = joined(session.pending.skip(count));
    let after = session.with_blocks_gone(count);
    lemma_joined_in_two(session.pending, count);
    assert(all.len() == left.len() + rest.len());
    assert(left =~= all.take(left.len() as int));
    assert(rest =~= all.skip(left.len() as int));
    assert(left =~= bytes.subrange(session.gone(), after.gone()));
    assert(rest =~= bytes.subrange(after.gone(), session.written_bytes as int));
}

/// A session that starts is on course to whatever is sent.
pub proof fn a_new_session_is_on_course(
    receiver_id: u64,
    hello: HelloView,
    now: u64,
    bytes: Seq<u8>,
)
    requires
        hello.block_size > 0,
        bytes.len() <= u64::MAX,
    ensures
        opened(receiver_id, hello, now).on_course(bytes),
        opened(receiver_id, hello, now).gone() == 0,
{
    let session = opened(receiver_id, hello, now);
    shards::source_blocks_are_sized(bytes, session.assembler.block_size);
    assert(joined(session.pending) =~= bytes.subrange(0, 0));
    let k = session.assembler.blocks_per_slice as nat;
    let size = session.assembler.block_size;
    assert(0 * k == 0 && 0 * size == 0) by (nonlinear_arith);
    assert(shards::slice_start(session.blocks_of(bytes), k, 0) == 0);
}

/// A session stays on course whatever arrives of the transfer, in whatever order
/// and however often.
pub proof fn arrivals_keep_a_session_on_course(
    session: SessionView,
    bytes: Seq<u8>,
    arrival: IncomingView,
    now: u64,
)
    requires
        session.valid(),
        session.on_course(bytes),
        session.fits(arrival, bytes),
    ensures
        session.after(arrival, now).on_course(bytes),
        session.after(arrival, now).gone() == session.gone(),
{
    if let IncomingView::Shard(frame) = arrival {
        if session.refusal(frame) is None {
            assembler::genuine_shards_keep_it_genuine(
                session.assembler,
                session.blocks_of(bytes),
                frame.slice_no,
                frame.slot,
                frame.slice_parity,
                frame.payload,
            );
        }
    }
}

/// Neither an arrival nor a hand-over takes a session back: the slices that were
/// handed over stay so, and what was counted stays counted.
pub proof fn a_session_never_goes_back(session: SessionView, arrival: IncomingView, now: u64)
    requires
        session.valid(),
        session.countable(arrival),
    ensures
        ({
            let after = session.after(arrival, now);
            &&& after.assembler.next_needed == session.assembler.next_needed
            &&& after.received >= session.received
            &&& after.emit_floor >= session.emit_floor
            &&& after.pending == session.pending
            &&& after.written_bytes == session.written_bytes
        }),
        session.assembler.next_needed <= session.refilled(now).assembler.next_needed,
{
    assembler::taken_is_bounded(session.assembler);
}

/// A session on course can always hand over what is ready, and one that is over
/// handed over every byte of the transfer.
pub proof fn a_session_that_is_over_handed_over_everything(session: SessionView, bytes: Seq<u8>)
    requires
        session.valid(),
        session.on_course(bytes),
        session.blocks_of(bytes).len() <= u32::MAX * session.assembler.blocks_per_slice,
    ensures
        session.assembler.takeable(),
        session.assembled() && session.pending.len() == 0 ==> session.gone()
            == session.written_bytes == bytes.len(),
{
    let source = session.blocks_of(bytes);
    let k = session.assembler.blocks_per_slice;
    let size = session.assembler.block_size;
    assembler::genuine_shards_are_takeable(session.assembler, source);
    if session.assembled() && session.pending.len() == 0 {
        let total = session.assembler.total_blocks->0;
        shards::slices_cover_the_blocks(total, k);
        let slices = shards::slice_count(total, k);
        assert(total <= session.assembler.next_needed * k) by (nonlinear_arith)
            requires
                total <= slices * k,
                slices <= session.assembler.next_needed,
        ;
        assert(shards::slice_start(source, k as nat, session.assembler.next_needed as int)
            == source.len());
        shards::source_blocks_are_sized(bytes, size);
        assert(session.pending =~= Seq::<Seq<u8>>::empty());
    }
}

/// No more bytes leave than the transfer has, once its size is known.
pub proof fn no_more_leaves_than_was_announced(
    blocks: Seq<Seq<u8>>,
    total_bytes: u64,
    written: int,
    upto: int,
)
    requires
        0 <= written <= total_bytes,
        0 <= upto <= blocks.len(),
    ensures
        written <= clipped(blocks, Some(total_bytes), written, upto).1 <= total_bytes,
    decreases upto,
{
    if upto > 0 {
        no_more_leaves_than_was_announced(blocks, total_bytes, written, upto - 1);
    }
}

} // verus!
