//! What the sender does with what is to be sent and with what it hears.

pub mod laws;

use crate::error::ProtoError;
use crate::nonzero::{NonZeroU16, NonZeroU32};
use crate::proto::frame;
use crate::proto::frame::{BatchView, Frame, FrameBatch, FrameView, HEADER_SIZE};
use crate::proto::message::{Message, MessageView};
use crate::proto::payload::{Done, Evicted, EvictedView, Hello, HelloView, Stats};
use crate::receiver::session::SessionView;
use crate::sender::group;
use crate::sender::group::{Group, GroupView};
use crate::sender::slicer::channel::{Feedback, FeedbackView, Outbound, OutboundView};
use crate::sender::slicer::SlicerView;
use crate::shards;
use crate::spelling;
use crate::state::{Bottleneck, LimitingFactor, TransferState};
use crate::time;
use crate::time::SILENCE_TIMEOUT;
use crate::transport::IncomingView;
use vstd::prelude::*;

verus! {

/// How many blocks a slice has, unless said otherwise.
pub const DEFAULT_BLOCKS_PER_SLICE: u16 = 32;

/// How many slices are kept, unless said otherwise.
pub const DEFAULT_MAX_LIVE_SLICES: u16 = 2048;

/// How many parity shards a slice may carry, unless said otherwise.
pub const DEFAULT_PARITY_PER_SLICE: u8 = 8;

/// How often the sender takes stock, in nanoseconds.
pub const TICK_INTERVAL: u64 = 200_000_000;

/// How long the sender may wait for input without that being what holds it back,
/// in nanoseconds.
pub const SOURCE_WAIT_FLOOR: u64 = 25_000_000;

/// How long a sink may stall without that being what holds the transfer back, in
/// milliseconds.
pub const SINK_STALL_FLOOR: u32 = 25;

/// How a transfer is sent. Times are in nanoseconds.
#[derive(Clone, Copy, Debug)]
pub struct Plan {
    pub block_size: NonZeroU32,
    pub blocks_per_slice: NonZeroU16,
    pub max_live_slices: NonZeroU16,
    pub parity_per_slice: u8,
    pub max_batch_segments: usize,
    pub min_receivers: usize,
    pub max_wait: u64,
}

impl Plan {
    /// The announcement of a transfer.
    pub open spec fn announces(self, transfer_id: u64, total_bytes: Option<u64>) -> HelloView {
        HelloView {
            transfer_id,
            block_size: self.block_size@,
            blocks_per_slice: self.blocks_per_slice@,
            parity_per_slice: self.parity_per_slice,
            max_live_slices: self.max_live_slices@,
            total_bytes,
        }
    }

    /// The announcement of a transfer.
    pub fn hello(&self, transfer_id: u64, total_bytes: Option<u64>) -> (message: Message)
        ensures
            message@ == MessageView::Hello(self.announces(transfer_id, total_bytes)),
    {
        Message::Hello(
            Hello {
                transfer_id,
                block_size: self.block_size,
                blocks_per_slice: self.blocks_per_slice,
                parity_per_slice: self.parity_per_slice,
                max_live_slices: self.max_live_slices,
                total_bytes,
            },
        )
    }
}

/// The time before a transfer starts, while receivers join.
pub struct Gathering {
    group: Group,
    min_receivers: usize,
    deadline: u64,
}

impl Gathering {
    /// The receivers that joined.
    pub closed spec fn joined(self) -> GroupView {
        self.group@
    }

    /// How many receivers are waited for.
    pub closed spec fn wanted(self) -> usize {
        self.min_receivers
    }

    /// Until when receivers are waited for.
    pub closed spec fn until(self) -> u64 {
        self.deadline
    }

    /// Starts to wait for receivers.
    pub fn new(min_receivers: usize, max_wait: u64, now: u64) -> (gathering: Gathering)
        ensures
            gathering.joined() == (GroupView {
                participants: Map::empty(),
                needed_from: 0,
                total_slices: None,
                emitted: 0,
                suppressed: Map::empty(),
            }),
            gathering.wanted() == min_receivers,
            gathering.until() == if now + max_wait <= u64::MAX {
                (now + max_wait) as u64
            } else {
                u64::MAX
            },
    {
        Gathering {
            group: Group::default(),
            min_receivers,
            deadline: now.saturating_add(max_wait),
        }
    }

    /// Takes in who joins and lets go who leaves, and says whether that changed who
    /// is there.
    pub fn on_control(&mut self, message: &Message) -> (changed: bool)
        ensures
            final(self).wanted() == old(self).wanted(),
            final(self).until() == old(self).until(),
            match message@ {
                MessageView::Join { transfer_id, receiver_id } => {
                    &&& changed == !old(self).joined().participants.dom().contains(receiver_id)
                    &&& final(self).joined() == (GroupView {
                        participants: old(self).joined().participants.insert(
                            receiver_id,
                            crate::sender::group::newcomer(),
                        ),
                        ..old(self).joined()
                    })
                },
                MessageView::Leave { transfer_id, receiver_id } => {
                    &&& changed == old(self).joined().participants.dom().contains(receiver_id)
                    &&& final(self).joined() == (GroupView {
                        participants: old(self).joined().participants.remove(receiver_id),
                        ..old(self).joined()
                    })
                },
                _ => !changed && final(self).joined() == old(self).joined(),
            },
    {
        match message {
            Message::Join { receiver_id, .. } => self.group.join(*receiver_id),
            Message::Leave { receiver_id, .. } => self.group.leave(*receiver_id),
            _ => false,
        }
    }

    /// Whether as many receivers joined as are waited for.
    pub fn has_enough(&self) -> (enough: bool)
        ensures
            enough == (self.joined().participants.dom().len() >= self.wanted()),
    {
        self.group.len() >= self.min_receivers
    }

    /// How much longer receivers are waited for.
    pub fn time_left(&self, now: u64) -> (left: u64)
        ensures
            left == time::since(now, self.until()),
    {
        time::elapsed(now, self.deadline)
    }

    /// The receivers that joined.
    pub fn into_group(self) -> (group: Group)
        ensures
            group@ == self.joined(),
    {
        self.group
    }
}

/// The state of a sender.
#[verifier::ext_equal]
pub struct SendingView {
    pub transfer_id: u64,
    pub plan: Plan,
    pub announced_bytes: Option<u64>,
    pub group: GroupView,
    pub participants_at_start: nat,
    pub batch: BatchView,
    pub seq: u32,
    pub total_bytes: u64,
    pub total_blocks: u64,
    pub draining: bool,
    pub covering: u8,
    pub drain_deadline: Option<u64>,
    pub blocks_sent: u64,
    pub blocks_at_last_tick: u64,
    pub last_tick: u64,
    pub started: u64,
    pub slices_emitted: u32,
    pub source_wait: u64,
}

/// What there is to send after something was to be sent.
pub enum Emission {
    /// Nothing yet.
    Nothing,
    /// The batch, which is full.
    Batch,
    /// The batch, and after it a message to the group.
    BatchThen(Message),
}

/// What a message to the sender leads to: something that is wanted of the slicer,
/// and a report that the rate follows.
pub struct Heard {
    pub feedback: Option<Feedback>,
    pub report: Option<Stats>,
}

/// What taking stock finds: messages to the group, how many blocks were sent since
/// the last time, and how long ago that was.
pub struct Tick {
    pub messages: Vec<Message>,
    pub sent: u64,
    pub span: u64,
}

/// Why a receiver is let go.
pub open spec fn eviction_reason(stuck_at: u32) -> Seq<char> {
    "silent for 10s while stuck at slice "@ + spelling::decimal(stuck_at as nat)
}

/// The message to each receiver that is let go.
pub open spec fn evictions(transfer_id: u64, gone: Seq<(u64, u32)>) -> Seq<MessageView> {
    Seq::new(
        gone.len(),
        |i: int|
            MessageView::Evicted(
                EvictedView {
                    transfer_id,
                    target: gone[i].0,
                    reason: eviction_reason(gone[i].1),
                },
            ),
    )
}

impl SendingView {
    /// What holds of every sender.
    pub open spec fn valid(self) -> bool {
        &&& self.batch.valid()
        &&& self.batch.segment_size == HEADER_SIZE + self.plan.block_size@
        &&& self.blocks_at_last_tick <= self.blocks_sent
        &&& self.plan.blocks_per_slice@ > 0
        &&& self.draining ==> self.group.total_slices == Some(
            shards::slice_count(self.total_blocks, self.plan.blocks_per_slice@),
        )
    }

    /// The end of the transfer, as the group is told.
    pub open spec fn done(self) -> MessageView {
        MessageView::Done(
            Done {
                transfer_id: self.transfer_id,
                total_bytes: self.total_bytes,
                total_blocks: self.total_blocks,
            },
        )
    }

    /// The shard that is sent.
    pub open spec fn frame(self, outbound: OutboundView) -> FrameView
        recommends
            outbound is Shard,
    {
        FrameView {
            slot: outbound->slot,
            slice_parity: outbound->slice_parity,
            transfer_id: (self.transfer_id % 0x1_0000_0000) as u32,
            seq: self.seq,
            slice_no: outbound->slice_no,
            emit_floor: outbound->emit_floor,
            payload: outbound->payload,
        }
    }

    /// The state after something to be sent was taken in.
    pub open spec fn with_outbound(self, outbound: OutboundView, now: u64) -> SendingView {
        match outbound {
            OutboundView::Shard { slice_no, slot, slice_parity, emit_floor, payload } => SendingView {
                batch: self.batch.pushed(self.frame(outbound)),
                seq: ((self.seq + 1) % 0x1_0000_0000) as u32,
                blocks_sent: if slot < self.plan.blocks_per_slice@ {
                    (self.blocks_sent + 1) as u64
                } else {
                    self.blocks_sent
                },
                slices_emitted: if self.slices_emitted >= emit_floor {
                    self.slices_emitted
                } else {
                    emit_floor
                },
                group: self.group.with_emitted(emit_floor),
                ..self
            },
            OutboundView::Eof { total_bytes, total_blocks } => SendingView {
                total_bytes,
                total_blocks,
                group: GroupView {
                    total_slices: Some(
                        shards::slice_count(total_blocks, self.plan.blocks_per_slice@),
                    ),
                    ..self.group
                },
                draining: true,
                drain_deadline: Some(
                    if now + self.plan.max_wait <= u64::MAX {
                        (now + self.plan.max_wait) as u64
                    } else {
                        u64::MAX
                    },
                ),
                ..self
            },
        }
    }

    /// Whether the transfer is over, and how.
    pub open spec fn outcome(self) -> Option<Result<(), ProtoError>> {
        if self.group.participants.dom().len() == 0 {
            Some(Err(ProtoError::NoParticipants))
        } else if self.draining && self.group.all_complete() {
            Some(Ok(()))
        } else {
            None
        }
    }

    /// What the group is told when the sender takes stock, given who is let go:
    /// each of those, the end while the transfer drains, and the announcement while
    /// nothing is sent.
    pub open spec fn announcements(self, gone: Seq<(u64, u32)>) -> Seq<MessageView> {
        let told = evictions(self.transfer_id, gone);
        if self.draining {
            told.push(self.done())
        } else if self.blocks_sent == self.blocks_at_last_tick {
            told.push(
                MessageView::Hello(self.plan.announces(self.transfer_id, self.announced_bytes)),
            )
        } else {
            told
        }
    }

    /// The state after the sender took stock.
    pub open spec fn ticked(self, now: u64) -> SendingView {
        SendingView {
            group: self.group.without_silent(now, SILENCE_TIMEOUT),
            blocks_at_last_tick: self.blocks_sent,
            last_tick: now,
            ..self
        }
    }

    /// Whether `heard` and `after` are what a message to the sender leads to.
    pub open spec fn hears(
        self,
        message: MessageView,
        now: u64,
        heard: Heard,
        after: SendingView,
    ) -> bool {
        match message {
            MessageView::Stats(stats) => {
                if self.group.participants.dom().contains(stats.receiver_id) {
                    let seen = self.group.seen(stats.receiver_id, now);
                    &&& heard.report == Some(stats)
                    &&& after == (SendingView { group: after.group, ..self })
                    &&& match heard.feedback {
                        Some(feedback) => feedback@ is Needed && seen.takes_report(
                            stats,
                            Some(feedback@->Needed_0),
                            after.group,
                        ),
                        None => seen.takes_report(stats, None, after.group),
                    }
                } else {
                    heard.report is None && heard.feedback is None && after == self
                }
            },
            MessageView::Nak(nak) => {
                let served = self.group.served(nak, now);
                &&& heard.report is None
                &&& match heard.feedback {
                    Some(feedback) => served.len() > 0 && feedback@ == (FeedbackView::Resend {
                        slice_no: nak.slice_no,
                        blocks: served,
                    }),
                    None => served.len() == 0,
                }
                &&& after == (SendingView { group: self.group.after_request(nak, now), ..self })
            },
            MessageView::Leave { transfer_id, receiver_id } => {
                &&& heard.report is None
                &&& heard.feedback is None
                &&& after == (SendingView {
                    group: GroupView {
                        participants: self.group.participants.remove(receiver_id),
                        ..self.group
                    },
                    ..self
                })
            },
            _ => heard.report is None && heard.feedback is None && after == self,
        }
    }
}

/// The sender of one transfer.
pub struct Sending {
    transfer_id: u64,
    plan: Plan,
    announced_bytes: Option<u64>,
    group: Group,
    participants_at_start: usize,
    batch: FrameBatch,
    seq: u32,
    total_bytes: u64,
    total_blocks: u64,
    draining: bool,
    covering: u8,
    drain_deadline: Option<u64>,
    blocks_sent: u64,
    blocks_at_last_tick: u64,
    last_tick: u64,
    started: u64,
    slices_emitted: u32,
    source_wait: u64,
}

impl View for Sending {
    type V = SendingView;

    closed spec fn view(&self) -> SendingView {
        SendingView {
            transfer_id: self.transfer_id,
            plan: self.plan,
            announced_bytes: self.announced_bytes,
            group: self.group@,
            participants_at_start: self.participants_at_start as nat,
            batch: self.batch@,
            seq: self.seq,
            total_bytes: self.total_bytes,
            total_blocks: self.total_blocks,
            draining: self.draining,
            covering: self.covering,
            drain_deadline: self.drain_deadline,
            blocks_sent: self.blocks_sent,
            blocks_at_last_tick: self.blocks_at_last_tick,
            last_tick: self.last_tick,
            started: self.started,
            slices_emitted: self.slices_emitted,
            source_wait: self.source_wait,
        }
    }
}

impl Sending {
    /// What holds of every sender.
    pub closed spec fn wf(self) -> bool {
        &&& self@.valid()
        &&& self.batch.wf()
    }

    /// A well-formed sender is in a state that a sender can be in.
    pub proof fn is_valid(self)
        requires
            self.wf(),
        ensures
            self@.valid(),
    {
    }

    /// Starts to send to the receivers that joined, unless there are none.
    pub fn new(
        plan: &Plan,
        transfer_id: u64,
        announced_bytes: Option<u64>,
        group: Group,
        now: u64,
    ) -> (result: Result<Sending, ProtoError>)
        requires
            plan.block_size@ <= usize::MAX - HEADER_SIZE,
        ensures
            match result {
                Ok(sending) => {
                    &&& group@.participants.dom().len() > 0
                    &&& sending.wf()
                    &&& sending@ == (SendingView {
                        transfer_id,
                        plan: *plan,
                        announced_bytes,
                        group: group@.all_seen(now),
                        participants_at_start: group@.participants.dom().len(),
                        batch: sending@.batch,
                        seq: 0,
                        total_bytes: 0,
                        total_blocks: 0,
                        draining: false,
                        covering: plan.parity_per_slice,
                        drain_deadline: None,
                        blocks_sent: 0,
                        blocks_at_last_tick: 0,
                        last_tick: now,
                        started: now,
                        slices_emitted: 0,
                        source_wait: 0,
                    })
                    &&& sending@.batch.segments == 0
                    &&& sending@.batch.limit == sending@.batch.capacity
                    &&& sending@.batch.capacity == ({
                        let most = if plan.max_batch_segments < 1 {
                            1int
                        } else {
                            plan.max_batch_segments as int
                        };
                        let fitting = frame::segments_in_datagram(HEADER_SIZE + plan.block_size@);
                        if fitting <= most {
                            fitting
                        } else {
                            most
                        }
                    })
                    &&& sending@.batch.staging == Seq::new(
                        (sending@.batch.capacity * sending@.batch.segment_size) as nat,
                        |i: int| 0u8,
                    )
                },
                Err(error) => error is NoParticipants && group@.participants.dom().len() == 0,
            },
    {
        let mut group = group;
        let participants_at_start: usize = group.len();
        if participants_at_start == 0 {
            return Err(ProtoError::NoParticipants);
        }
        group.mark_all_seen(now);
        let batch = FrameBatch::new(plan.block_size.get() as usize, plan.max_batch_segments);
        let per_slice: u16 = plan.blocks_per_slice.get();
        proof {
            batch.is_valid();
        }
        Ok(
            Sending {
                transfer_id,
                plan: *plan,
                announced_bytes,
                group,
                participants_at_start,
                batch,
                seq: 0,
                total_bytes: 0,
                total_blocks: 0,
                draining: false,
                covering: plan.parity_per_slice,
                drain_deadline: None,
                blocks_sent: 0,
                blocks_at_last_tick: 0,
                last_tick: now,
                started: now,
                slices_emitted: 0,
                source_wait: 0,
            },
        )
    }

    /// Whether the transfer is over, and how.
    pub fn outcome(&self) -> (outcome: Option<Result<(), ProtoError>>)
        ensures
            outcome == self@.outcome(),
    {
        if self.group.len() == 0 {
            return Some(Err(ProtoError::NoParticipants));
        }
        if self.draining && self.group.all_complete() {
            return Some(Ok(()));
        }
        None
    }

    /// How much longer the receivers have to complete, once everything was sent.
    pub fn drain_left(&self, now: u64) -> (left: Option<u64>)
        ensures
            left == match self@.drain_deadline {
                Some(deadline) => Some(time::since(now, deadline)),
                None => None,
            },
    {
        match self.drain_deadline {
            Some(deadline) => Some(time::elapsed(now, deadline)),
            None => None,
        }
    }

    /// How many shards leave at once at most.
    pub fn drain_limit(&self) -> (limit: usize)
        requires
            self.wf(),
        ensures
            limit == self@.batch.capacity,
    {
        self.batch.capacity()
    }

    /// Whether another shard has room in the batch, and can be counted.
    pub fn has_room(&self) -> (room: bool)
        ensures
            room == (self@.batch.segments < self@.batch.limit && self@.blocks_sent < u64::MAX),
    {
        !self.batch.is_full() && self.blocks_sent < u64::MAX
    }

    /// Sets how many shards fill the batch.
    pub fn narrow_to(&mut self, segments: usize)
        requires
            old(self).wf(),
        ensures
            final(self).wf(),
            final(self)@ == (SendingView {
                batch: BatchView {
                    limit: if segments < 1 {
                        1
                    } else if segments > old(self)@.batch.capacity {
                        old(self)@.batch.capacity
                    } else {
                        segments as nat
                    },
                    ..old(self)@.batch
                },
                ..old(self)@
            }),
    {
        self.batch.narrow_to(segments);
        proof {
            self.batch.is_valid();
        }
    }

    /// The shards in the batch, one after another.
    pub fn filled(&self) -> (filled: &[u8])
        requires
            self.wf(),
        ensures
            filled@ == self@.batch.filled(),
    {
        self.batch.filled()
    }

    /// How many bytes each of them takes.
    pub fn segment_size(&self) -> (size: usize)
        ensures
            size == self@.batch.segment_size,
    {
        self.batch.segment_size()
    }

    /// Takes note that the batch was sent.
    pub fn batch_sent(&mut self)
        requires
            old(self).wf(),
        ensures
            final(self).wf(),
            final(self)@ == (SendingView {
                batch: BatchView { segments: 0, ..old(self)@.batch },
                ..old(self)@
            }),
    {
        self.batch.clear();
        proof {
            self.batch.is_valid();
        }
    }

    /// Takes in what is to be sent, and says what there is to send: the batch once
    /// it is full, and with the end of the input the batch and the end.
    pub fn on_outbound(&mut self, outbound: Outbound, now: u64) -> (emission: Emission)
        requires
            old(self).wf(),
            old(self)@.batch.segments < old(self)@.batch.limit,
            old(self)@.blocks_sent < u64::MAX,
            outbound@ matches OutboundView::Shard { payload, .. } ==> payload.len() <= old(
                self,
            )@.plan.block_size@,
        ensures
            final(self).wf(),
            final(self)@ == old(self)@.with_outbound(outbound@, now),
            match outbound@ {
                OutboundView::Shard { .. } => if final(self)@.batch.segments
                    >= final(self)@.batch.limit {
                    emission is Batch
                } else {
                    emission is Nothing
                },
                OutboundView::Eof { .. } => emission matches Emission::BatchThen(message)
                    && message@ == final(self)@.done(),
            },
    {
        let ghost before = self@;
        match outbound {
            Outbound::Shard { slice_no, slot, slice_parity, emit_floor, payload } => {
                let transfer_id: u32 = (self.transfer_id % 0x1_0000_0000) as u32;
                let frame = Frame {
                    slot,
                    slice_parity,
                    transfer_id,
                    seq: self.seq,
                    slice_no,
                    emit_floor,
                    payload,
                };
                proof {
                    self.batch.is_valid();
                    assert(frame@ == before.frame(outbound@));
                }
                self.batch.push(&frame);
                self.seq = if self.seq == 0xffff_ffff {
                    0
                } else {
                    self.seq + 1
                };
                if slot < self.plan.blocks_per_slice.get() {
                    self.blocks_sent += 1;
                }
                if emit_floor > self.slices_emitted {
                    self.slices_emitted = emit_floor;
                }
                self.group.on_emitted(emit_floor);
                proof {
                    self.batch.is_valid();
                }
                if self.batch.is_full() {
                    Emission::Batch
                } else {
                    Emission::Nothing
                }
            },
            Outbound::Eof { total_bytes, total_blocks } => {
                self.total_bytes = total_bytes;
                self.total_blocks = total_blocks;
                self.group.on_eof(
                    shards::slices_of(total_blocks, self.plan.blocks_per_slice.get()),
                );
                self.draining = true;
                self.drain_deadline = Some(now.saturating_add(self.plan.max_wait));
                Emission::BatchThen(self.done())
            },
        }
    }

    fn done(&self) -> (message: Message)
        ensures
            message@ == self@.done(),
    {
        Message::Done(
            Done {
                transfer_id: self.transfer_id,
                total_bytes: self.total_bytes,
                total_blocks: self.total_blocks,
            },
        )
    }

    /// Takes stock: lets go who was silent for too long, and says what to tell the
    /// group.
    pub fn on_tick(&mut self, now: u64) -> (tick: Tick)
        requires
            old(self).wf(),
        ensures
            final(self).wf(),
            final(self)@ == old(self)@.ticked(now),
            tick.sent == old(self)@.blocks_sent - old(self)@.blocks_at_last_tick,
            tick.span == time::since(old(self)@.last_tick, now),
            exists|gone: Seq<(u64, u32)>| #[trigger]
                old(self)@.group.lists_silent(now, SILENCE_TIMEOUT, gone)
                    && crate::receiver::session::message_views(tick.messages@)
                    == old(self)@.announcements(gone),
    {
        let ghost before = self@;
        let gone = self.group.reap_silent(now, SILENCE_TIMEOUT);
        let mut messages: Vec<Message> = Vec::new();
        let ghost told = evictions(self.transfer_id, gone@);
        let mut at: usize = 0;
        while at < gone.len()
            invariant
                at <= gone@.len(),
                messages@.len() == at,
                told == evictions(self.transfer_id, gone@),
                forall|i: int| 0 <= i < at ==> (#[trigger] messages@[i])@ == told[i],
            decreases gone@.len() - at,
        {
            let target: u64 = gone[at].0;
            let stuck_at: u32 = gone[at].1;
            messages.push(
                Message::Evicted(
                    Evicted {
                        transfer_id: self.transfer_id,
                        target,
                        reason: reason_text(stuck_at),
                    },
                ),
            );
            at += 1;
        }
        let ghost evicted = messages@;
        assert(crate::receiver::session::message_views(messages@) =~= told);
        let sent: u64 = self.blocks_sent - self.blocks_at_last_tick;
        if self.draining {
            messages.push(self.done());
        } else if sent == 0 {
            messages.push(self.plan.hello(self.transfer_id, self.announced_bytes));
        }
        proof {
            if self.draining || sent == 0 {
                assert(crate::receiver::session::message_views(messages@)
                    =~= crate::receiver::session::message_views(evicted).push(messages@.last()@));
            }
            assert(crate::receiver::session::message_views(messages@) == before.announcements(
                gone@,
            ));
        }
        let span: u64 = time::elapsed(self.last_tick, now);
        self.blocks_at_last_tick = self.blocks_sent;
        self.last_tick = now;
        Tick { messages, sent, span }
    }

    /// Sets how many parity shards slices carry, and says what is wanted of the
    /// slicer if that changes.
    pub fn cover(&mut self, wanted: u8) -> (feedback: Option<Feedback>)
        requires
            old(self).wf(),
        ensures
            final(self).wf(),
            final(self)@ == (SendingView { covering: wanted, ..old(self)@ }),
            match feedback {
                Some(feedback) => wanted != old(self)@.covering && feedback@
                    == FeedbackView::Cover(wanted),
                None => wanted == old(self)@.covering,
            },
    {
        if wanted == self.covering {
            return None;
        }
        self.covering = wanted;
        Some(Feedback::Cover(wanted))
    }

    /// Takes in a message from a receiver.
    pub fn on_control(&mut self, message: Message, now: u64) -> (heard: Heard)
        requires
            old(self).wf(),
        ensures
            final(self).wf(),
            old(self)@.hears(message@, now, heard, final(self)@),
    {
        match message {
            Message::Stats(stats) => {
                if !self.group.contains(stats.receiver_id) {
                    return Heard { feedback: None, report: None };
                }
                self.group.mark_seen(stats.receiver_id, now);
                let feedback = match self.group.on_stats(&stats) {
                    Some(needed_from) => Some(Feedback::Needed(needed_from)),
                    None => None,
                };
                Heard { feedback, report: Some(stats) }
            },
            Message::Nak(nak) => {
                let blocks = self.group.on_nak(&nak, now);
                proof {
                    group::lemma_serving_keeps_progress(
                        old(self)@.group,
                        nak.slice_no,
                        nak.missing@,
                        now,
                        nak.missing@.len() as int,
                    );
                }
                let feedback = if blocks.len() > 0 {
                    Some(Feedback::Resend { slice_no: nak.slice_no, blocks })
                } else {
                    None
                };
                Heard { feedback, report: None }
            },
            Message::Leave { receiver_id, .. } => {
                self.group.leave(receiver_id);
                Heard { feedback: None, report: None }
            },
            _ => Heard { feedback: None, report: None },
        }
    }

    /// Why the transfer fails when the receivers did not complete in time.
    pub fn expired(&self) -> (error: ProtoError)
        ensures
            error matches ProtoError::TransferIncomplete { complete, participants } && complete
                == self@.group.participants.dom().filter(
                |receiver_id: u64| self@.group.is_complete(receiver_id),
            ).len() && participants == self@.participants_at_start,
    {
        let ghost group = self.group@;
        let complete: usize = self.group.complete_count();
        assert(group.participants.dom().filter(
            |receiver_id: u64| group.is_complete(receiver_id),
        ) =~= self@.group.participants.dom().filter(
            |receiver_id: u64| self@.group.is_complete(receiver_id),
        ));
        ProtoError::TransferIncomplete { complete, participants: self.participants_at_start }
    }

    /// Takes note of how long there was nothing to send.
    pub fn waited(&mut self, span: u64)
        requires
            old(self).wf(),
        ensures
            final(self).wf(),
            final(self)@ == (SendingView {
                source_wait: if old(self)@.source_wait + span <= u64::MAX {
                    (old(self)@.source_wait + span) as u64
                } else {
                    u64::MAX
                },
                ..old(self)@
            }),
    {
        self.source_wait = self.source_wait.saturating_add(span);
    }

    /// What is known when the question is what holds the transfer back. The time
    /// without anything to send counts from here on.
    pub fn bottleneck(
        &mut self,
        worst_demand: Option<u64>,
        demand_exceeds: bool,
        at_ceiling: bool,
        allowance_unused: bool,
        credit_unused: bool,
    ) -> (bottleneck: Bottleneck)
        requires
            old(self).wf(),
        ensures
            final(self).wf(),
            final(self)@ == (SendingView { source_wait: 0, ..old(self)@ }),
            bottleneck == (Bottleneck {
                slowest: bottleneck.slowest,
                worst_demand,
                demand_exceeds,
                max_live_slices: old(self)@.plan.max_live_slices@ as u32,
                at_ceiling,
                source_wait: time::since(SOURCE_WAIT_FLOOR, old(self)@.source_wait),
                worst_sink_stall: bottleneck.worst_sink_stall,
                sink_stall_threshold: SINK_STALL_FLOOR,
                allowance_unused,
                credit_unused,
                draining: old(self)@.draining,
            }),
            match bottleneck.slowest {
                Some((receiver_id, behind)) => {
                    &&& old(self)@.group.participants.dom().contains(receiver_id)
                    &&& behind == old(self)@.group.behind(receiver_id)
                    &&& forall|other: u64| #[trigger]
                        old(self)@.group.participants.dom().contains(other) ==> old(
                            self,
                        )@.group.behind(other) <= behind
                },
                None => old(self)@.group.participants.dom().len() == 0,
            },
            match bottleneck.worst_sink_stall {
                Some((receiver_id, stall_ms)) => {
                    &&& old(self)@.group.participants.dom().contains(receiver_id)
                    &&& stall_ms == old(self)@.group.participants[receiver_id].sink_stall_ms
                    &&& forall|other: u64| #[trigger]
                        old(self)@.group.participants.dom().contains(other) ==> old(
                            self,
                        )@.group.participants[other].sink_stall_ms <= stall_ms
                },
                None => old(self)@.group.participants.dom().len() == 0,
            },
    {
        let source_wait: u64 = time::elapsed(SOURCE_WAIT_FLOOR, self.source_wait);
        self.source_wait = 0;
        Bottleneck {
            slowest: self.group.slowest_participant(),
            worst_demand,
            demand_exceeds,
            max_live_slices: self.plan.max_live_slices.get() as u32,
            at_ceiling,
            source_wait,
            worst_sink_stall: self.group.worst_sink_stall(),
            sink_stall_threshold: SINK_STALL_FLOOR,
            allowance_unused,
            credit_unused,
            draining: self.draining,
        }
    }

    /// How far the transfer is.
    pub fn progress(&self, limiting: LimitingFactor, now: u64) -> (state: TransferState)
        ensures
            state == (TransferState {
                transfer_id: self@.transfer_id,
                block_size: self@.plan.block_size@,
                blocks_sent: self@.blocks_sent,
                slices_emitted: self@.slices_emitted,
                parity_shards: self@.covering,
                total_blocks: if self@.draining {
                    Some(self@.total_blocks)
                } else {
                    None
                },
                announced_bytes: self@.announced_bytes,
                draining: self@.draining,
                limiting,
                receivers: state.receivers,
                elapsed: time::since(self@.started, now),
            }),
            state.receivers@.len() == self@.group.participants.dom().len(),
            forall|i: int|
                #![trigger state.receivers@[i]]
                0 <= i < state.receivers@.len() ==> self@.group.participants.dom().contains(
                    state.receivers@[i].receiver_id,
                ) && state.receivers@[i] == self@.group.row(state.receivers@[i].receiver_id),
            forall|i: int, j: int|
                0 <= i < j < state.receivers@.len() ==> state.receivers@[i].receiver_id
                    != state.receivers@[j].receiver_id,
    {
        TransferState {
            transfer_id: self.transfer_id,
            block_size: self.plan.block_size.get(),
            blocks_sent: self.blocks_sent,
            slices_emitted: self.slices_emitted,
            parity_shards: self.covering,
            total_blocks: if self.draining {
                Some(self.total_blocks)
            } else {
                None
            },
            announced_bytes: self.announced_bytes,
            draining: self.draining,
            limiting,
            receivers: self.group.rows(),
            elapsed: time::elapsed(self.started, now),
        }
    }
}

fn reason_text(stuck_at: u32) -> (text: String)
    ensures
        text@ == eviction_reason(stuck_at),
{
    let mut out: Vec<u8> = Vec::new();
    proof {
        reveal_strlit("silent for 10s while stuck at slice ");
    }
    assert(spelling::ascii_chars(out@) =~= Seq::<char>::empty());
    spelling::push_text(&mut out, "silent for 10s while stuck at slice ");
    assert(spelling::ascii_chars(out@) =~= "silent for 10s while stuck at slice "@);
    spelling::push_decimal(&mut out, stuck_at as u64);
    spelling::ascii_text(out)
}

/// What the slicer hands out of a transfer, and is sent, fits every receiver that the
/// transfer was announced to: the datagram of a shard reads back as a shard of the
/// transfer, and the end announces the size of the transfer.
pub proof fn what_is_sent_fits_the_receivers(
    slicer: SlicerView,
    sending: SendingView,
    session: SessionView,
    outbound: OutboundView,
    bytes: Seq<u8>,
    now: u64,
)
    requires
        session.assembler.block_size == slicer.window.block_size,
        session.assembler.blocks_per_slice == slicer.window.blocks_per_slice,
        slicer.fits(outbound, bytes),
    ensures
        outbound is Shard ==> session.fits(
            IncomingView::Shard(frame::read_frame(sending.frame(outbound).bytes())),
            bytes,
        ),
        outbound is Eof ==> session.fits(
            IncomingView::Control(sending.with_outbound(outbound, now).done()),
            bytes,
        ),
{
    if outbound is Shard {
        frame::frames_read_back(sending.frame(outbound));
    }
}

/// A transfer succeeds only when its input has ended and every receiver that is
/// still there has every slice of it, and with that every block, as far as the slices
/// can be numbered.
pub proof fn success_means_that_everyone_has_everything(sending: SendingView, receiver_id: u64)
    requires
        sending.valid(),
        sending.outcome() == Some(Ok::<(), ProtoError>(())),
        sending.group.participants.dom().contains(receiver_id),
    ensures
        sending.draining,
        sending.group.participants[receiver_id].next_needed >= shards::slice_count(
            sending.total_blocks,
            sending.plan.blocks_per_slice@,
        ),
        sending.total_blocks <= u32::MAX * sending.plan.blocks_per_slice@ ==> sending.total_blocks
            <= sending.group.participants[receiver_id].next_needed
            * sending.plan.blocks_per_slice@,
{
    assert(sending.group.is_complete(receiver_id));
    let k = sending.plan.blocks_per_slice@;
    let total = sending.total_blocks;
    let slices = shards::slice_count(total, k);
    let next_needed = sending.group.participants[receiver_id].next_needed;
    if total <= u32::MAX * k {
        shards::slices_cover_the_blocks(total, k);
        assert(total <= next_needed * k) by (nonlinear_arith)
            requires
                total <= slices * k,
                slices <= next_needed,
        ;
    }
}

/// Who is not in the group reports and asks in vain.
pub proof fn strangers_change_nothing(
    sending: SendingView,
    message: MessageView,
    now: u64,
    heard: Heard,
    after: SendingView,
)
    requires
        sending.hears(message, now, heard, after),
        message matches MessageView::Stats(stats)
            ==> !sending.group.participants.dom().contains(stats.receiver_id),
        message matches MessageView::Nak(nak)
            ==> !sending.group.participants.dom().contains(nak.receiver_id),
        message matches MessageView::Leave { receiver_id, .. }
            ==> !sending.group.participants.dom().contains(receiver_id),
    ensures
        after == sending,
        heard.feedback is None,
        heard.report is None,
{
    if let MessageView::Leave { receiver_id, .. } = message {
        assert(sending.group.participants.remove(receiver_id) =~= sending.group.participants);
    }
}

/// Whether the pacer made shards wait: it let as many go as it had leave for, that
/// was no more than leaves at once, and more were there.
pub fn held_back(credit: usize, limit: usize, taken: usize, more: bool) -> (held: bool)
    ensures
        held == (credit <= limit && taken == credit && more),
{
    credit <= limit && taken == credit && more
}

} // verus!
