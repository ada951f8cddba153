//! What a session does with what arrives, told by what it knows before and after.

use crate::error::ProtoError;
use crate::proto::error::Error;
use crate::proto::frame::FrameView;
use crate::proto::message::MessageView;
use crate::proto::payload::HelloView;
use crate::receiver::assembler::laws as assembling;
use crate::receiver::assembler::AssemblerView;
use crate::receiver::naks;
use crate::receiver::session;
use crate::receiver::session::SessionView;
use crate::shards;
use crate::time;
use crate::time::RENAK_INTERVAL;
use crate::transport::IncomingView;
use vstd::prelude::*;

verus! {

/// Whether a shard can belong to the transfer: it is as long as a block, names no more
/// parity than the transfer allows, and is a data block of its slice or one of the parity
/// shards that it names.
pub open spec fn can_belong(session: SessionView, frame: FrameView) -> bool {
    let k = session.assembler.blocks_per_slice;
    let m = session.assembler.parity_per_slice;
    &&& frame.payload.len() == session.assembler.block_size
    &&& frame.slice_parity <= m
    &&& frame.slot < k + frame.slice_parity
}

/// A shard is refused exactly where it cannot belong to the transfer, and then changes
/// nothing and ends the session with what is wrong with it.
pub proof fn only_what_cannot_belong_is_refused(session: SessionView, frame: FrameView, now: u64)
    requires
        session.assembler.total_slots() <= u16::MAX,
    ensures
        session.refusal(frame) is None <==> can_belong(session, frame),
        !can_belong(session, frame) ==> session.after(IncomingView::Shard(frame), now) == session,
        session.refusal(frame) matches Some(error) ==> {
            let k = session.assembler.blocks_per_slice;
            let m = session.assembler.parity_per_slice;
            &&& forall|result: Result<Seq<MessageView>, ProtoError>| #[trigger]
                session.answers(IncomingView::Shard(frame), now, result) ==> result == Err::<
                    Seq<MessageView>,
                    ProtoError,
                >(ProtoError::Protocol(error))
            &&& error is SlotOutsideSlice <==> frame.slot >= k + m
            &&& error matches Error::SlotOutsideSlice { slot, slots } ==> slot == frame.slot
                && slots == k + m
            &&& error matches Error::ParityWiderThanTransfer { named, allowed } ==> named
                == frame.slice_parity && allowed == m && named > allowed
            &&& error matches Error::ParityOutsideSlice { slot, named } ==> slot == frame.slot
                && named == frame.slice_parity && slot >= k + named
            &&& error is PayloadSize ==> frame.payload.len() != session.assembler.block_size
        },
{
}

/// No shard of the transfer is refused.
pub proof fn no_shard_of_the_transfer_is_refused(
    session: SessionView,
    frame: FrameView,
    bytes: Seq<u8>,
)
    requires
        session.valid(),
        session.assembler.total_slots() <= u16::MAX,
        session.fits(IncomingView::Shard(frame), bytes),
        frame.slice_parity <= session.assembler.parity_per_slice,
        frame.payload.len() == session.assembler.block_size,
    ensures
        session.refusal(frame) is None,
{
    let k = session.assembler.blocks_per_slice as nat;
    shards::slice_data_size(session.blocks_of(bytes), k, frame.slice_no as int);
}

/// Every shard that is not refused is counted once: as received, and besides as stored,
/// as late where its slice was handed over, or as a duplicate. The highest number and
/// the highest floor that were seen are kept, and nothing else changes.
pub proof fn every_shard_is_counted_once(session: SessionView, frame: FrameView)
    requires
        session.valid(),
        session.assembler.countable(),
        session.received < u64::MAX,
        can_belong(session, frame),
    ensures
        ({
            let after = session.with_shard(frame);
            let known = session.assembler.slices.dom().contains(frame.slice_no);
            let near = session.assembler.next_needed <= frame.slice_no && frame.slice_no
                - session.assembler.next_needed < session.assembler.max_live_slices;
            let held = session.assembler.slices[frame.slice_no];
            let free = known ==> held.slots[frame.slot as int] is None && (held.parity_width == 0
                || frame.slice_parity == 0 || held.parity_width == frame.slice_parity);
            let stored = near && free;
            let late = frame.slice_no < session.assembler.next_needed;
            &&& after.received == session.received + 1
            &&& after.late == session.late + if late {
                1int
            } else {
                0int
            }
            &&& after.duplicates == session.duplicates + if !late && !stored {
                1int
            } else {
                0int
            }
            &&& stored ==> after.assembler.slices.dom().contains(frame.slice_no)
                && after.assembler.slices[frame.slice_no].slots[frame.slot as int] == Some(
                frame.payload,
            )
            &&& after.highest_seq matches Some(highest) && highest >= frame.seq && (highest
                == frame.seq || session.highest_seq == Some(highest))
            &&& session.highest_seq matches Some(before) ==> after.highest_seq->0 >= before
            &&& after.emit_floor >= frame.emit_floor && after.emit_floor >= session.emit_floor
            &&& after.emit_floor == frame.emit_floor || after.emit_floor == session.emit_floor
            &&& after == (SessionView {
                received: after.received,
                late: after.late,
                duplicates: after.duplicates,
                highest_seq: after.highest_seq,
                emit_floor: after.emit_floor,
                assembler: after.assembler,
                ..session
            })
            &&& after.assembler.next_needed == session.assembler.next_needed
        }),
{
    assembling::a_shard_goes_to_its_slot(
        session.assembler,
        frame.slice_no,
        frame.slot,
        frame.slice_parity,
        frame.payload,
    );
}

/// What each arrival is answered with: a shard that moves the floor, and the end, with
/// the requests that are due then; the announcement, as long as nothing arrived, with
/// joining again; an eviction of this receiver with its end; and everything else with
/// nothing.
pub proof fn arrivals_are_answered(
    session: SessionView,
    arrival: IncomingView,
    now: u64,
    result: Result<Seq<MessageView>, ProtoError>,
)
    requires
        session.assembler.total_slots() <= u16::MAX,
        session.answers(arrival, now, result),
    ensures
        arrival matches IncomingView::Shard(frame) ==> (can_belong(session, frame) ==> result
            == Ok::<_, ProtoError>(
            if frame.emit_floor > session.emit_floor {
                session.with_shard(frame).requests(now)
            } else {
                Seq::empty()
            },
        )),
        arrival matches IncomingView::Control(message) ==> match message {
            MessageView::Done(done) => result == Ok::<_, ProtoError>(
                session.with_end(done).requests(now),
            ),
            MessageView::Hello(_) => result matches Ok(answers) && if session.received == 0 {
                answers.len() == 1 && answers[0] == (MessageView::Join {
                    transfer_id: session.transfer_id,
                    receiver_id: session.receiver_id,
                })
            } else {
                answers.len() == 0
            },
            MessageView::Evicted(evicted) => if evicted.target == session.receiver_id {
                result matches Err(ProtoError::Evicted(reason)) && reason@ == evicted.reason
            } else {
                result matches Ok(answers) && answers.len() == 0
            },
            _ => result matches Ok(answers) && answers.len() == 0,
        },
{
    if let IncomingView::Shard(frame) = arrival {
        only_what_cannot_belong_is_refused(session, frame, now);
    }
}

/// What each arrival changes: the end what is known of the size and the requests that
/// were made, a shard what is counted and held and the requests, and nothing else
/// anything.
pub proof fn arrivals_change_what_they_are_about(
    session: SessionView,
    arrival: IncomingView,
    now: u64,
)
    requires
        session.assembler.total_slots() <= u16::MAX,
    ensures
        arrival matches IncomingView::Control(message) ==> {
            let after = session.after(arrival, now);
            match message {
                MessageView::Done(done) => {
                    &&& after.total_bytes == Some(done.total_bytes)
                    &&& after.assembler == (AssemblerView {
                        total_blocks: Some(done.total_blocks),
                        ..session.assembler
                    })
                    &&& after == (SessionView {
                        total_bytes: after.total_bytes,
                        assembler: after.assembler,
                        naks: after.naks,
                        ..session
                    })
                },
                _ => after == session,
            }
        },
        arrival matches IncomingView::Shard(frame) ==> (can_belong(session, frame) ==> {
            let after = session.after(arrival, now);
            let counted = session.with_shard(frame);
            &&& after == (SessionView { naks: after.naks, ..counted })
            &&& frame.emit_floor <= session.emit_floor ==> after.naks == session.naks
        }),
{
    if let IncomingView::Shard(frame) = arrival {
        only_what_cannot_belong_is_refused(session, frame, now);
    }
}

/// Whether a slice is asked about by requests, and for what.
pub open spec fn asks_about(requests: Seq<MessageView>, slice_no: u32) -> bool {
    exists|i: int|
        0 <= i < requests.len() && ((#[trigger] requests[i]) matches MessageView::Nak(nak)
            && nak.slice_no == slice_no)
}

proof fn lemma_filtered(
    gaps: Seq<(u32, Seq<u16>)>,
    keep: spec_fn((u32, Seq<u16>)) -> bool,
    gap: (u32, Seq<u16>),
)
    ensures
        gaps.filter(keep).contains(gap) <==> gaps.contains(gap) && keep(gap),
    decreases gaps.len(),
{
    reveal(Seq::filter);
    if gaps.len() > 0 {
        let shorter = gaps.drop_last();
        lemma_filtered(shorter, keep, gap);
        let kept = shorter.filter(keep);
        assert(gaps.contains(gap) <==> shorter.contains(gap) || gaps.last() == gap) by {
            if shorter.contains(gap) {
                let i = choose|i: int| 0 <= i < shorter.len() && shorter[i] == gap;
                assert(gaps[i] == gap);
            }
            if gaps.contains(gap) {
                let i = choose|i: int| 0 <= i < gaps.len() && gaps[i] == gap;
                if i < shorter.len() {
                    assert(shorter[i] == gap);
                }
            }
            assert(gaps[gaps.len() - 1] == gaps.last());
        }
        let longer = kept.push(gaps.last());
        assert(longer.contains(gap) <==> kept.contains(gap) || gaps.last() == gap) by {
            if kept.contains(gap) {
                let i = choose|i: int| 0 <= i < kept.len() && kept[i] == gap;
                assert(longer[i] == gap);
            }
            assert(longer[kept.len() as int] == gaps.last());
        }
    }
}

/// A slice is asked about exactly where it was sent and is still needed, holds fewer
/// shards than it has blocks, and was not asked about within the repeat interval; and
/// then for as many of its lowest missing blocks as it is short of, by this receiver of
/// this transfer.
pub proof fn what_is_short_is_asked_for(session: SessionView, now: u64, slice_no: u32)
    requires
        session.assembler.valid(),
        session.assembler.total_slots() <= u16::MAX,
        session.assembler.total_blocks matches Some(total) ==> total <= u32::MAX
            * session.assembler.blocks_per_slice,
    ensures
        ({
            let requests = session.requests(now);
            let assembler = session.assembler;
            &&& asks_about(requests, slice_no) <==> {
                &&& slice_no >= assembler.next_needed
                &&& assembling::is_sent(assembler, session.emit_floor, slice_no)
                &&& assembling::held_of(assembler, slice_no).len() < assembling::blocks_in(
                    assembler,
                    slice_no,
                )
                &&& session.naks.sent.dom().contains(slice_no) ==> time::since(
                    session.naks.sent[slice_no],
                    now,
                ) >= RENAK_INTERVAL
            }
            &&& forall|i: int|
                #![trigger requests[i]]
                0 <= i < requests.len() ==> (requests[i] matches MessageView::Nak(nak)
                    && nak.transfer_id == session.transfer_id && nak.receiver_id
                    == session.receiver_id && (nak.slice_no == slice_no
                    ==> assembling::asks_for_the_shortfall(
                    assembling::held_of(assembler, slice_no),
                    assembling::blocks_in(assembler, slice_no),
                    nak.missing,
                )))
        }),
{
    let assembler = session.assembler;
    let requests = session.requests(now);
    let gaps = assembler.gaps(session.emit_floor);
    let keep = |gap: (u32, Seq<u16>)| gap.1.len() > 0 && session.naks.is_due(gap.0, now);
    let due = session.naks.due(gaps, now);
    assert(due == gaps.filter(keep));
    assembling::gaps_ask_for_what_is_short(assembler, session.emit_floor, slice_no);
    assert forall|i: int|
        #![trigger requests[i]]
        0 <= i < requests.len() implies (requests[i] matches MessageView::Nak(nak)
        && nak.transfer_id == session.transfer_id && nak.receiver_id == session.receiver_id && (
    nak.slice_no == slice_no ==> assembling::asks_for_the_shortfall(
        assembling::held_of(assembler, slice_no),
        assembling::blocks_in(assembler, slice_no),
        nak.missing,
    ))) by {
        assert(due.contains(due[i]));
        lemma_filtered(gaps, keep, due[i]);
        let j = choose|j: int| 0 <= j < gaps.len() && gaps[j] == due[i];
        assert(gaps[j].0 == due[i].0);
    }
    if asks_about(requests, slice_no) {
        let i = choose|i: int|
            0 <= i < requests.len() && ((#[trigger] requests[i]) matches MessageView::Nak(nak)
                && nak.slice_no == slice_no);
        assert(due.contains(due[i]));
        lemma_filtered(gaps, keep, due[i]);
        let j = choose|j: int| 0 <= j < gaps.len() && gaps[j] == due[i];
        assert(gaps[j].0 == slice_no);
    }
    if exists|i: int| 0 <= i < gaps.len() && (#[trigger] gaps[i]).0 == slice_no {
        let i = choose|i: int| 0 <= i < gaps.len() && (#[trigger] gaps[i]).0 == slice_no;
        assert(gaps[i].1.len() > 0);
        assert(gaps.contains(gaps[i]));
        lemma_filtered(gaps, keep, gaps[i]);
        if session.naks.is_due(slice_no, now) {
            let j = choose|j: int| 0 <= j < due.len() && due[j] == gaps[i];
            assert(requests[j] matches MessageView::Nak(nak) && nak.slice_no == slice_no);
            assert(asks_about(requests, slice_no));
        }
    }
}

/// Blocks leave in the order in which they wait, as many as the sink takes, and the rest
/// goes on waiting; where blocks wait already, no others are put together, and the time
/// that they waited counts as stalled.
pub proof fn blocks_leave_in_order(
    session: SessionView,
    now: u64,
    room: usize,
    blocks: Seq<Seq<u8>>,
    after: SessionView,
)
    requires
        session.hands_over(now, room, blocks, after),
    ensures
        blocks.len() <= room,
        after.pending.len() > 0 ==> blocks.len() == room,
        blocks + after.pending == session.refilled(now).pending,
        session.pending.len() > 0 ==> {
            &&& blocks + after.pending == session.pending
            &&& after.assembler == session.assembler
            &&& after.written_bytes == session.written_bytes
            &&& session.sink_stall + time::since(session.last_handover, now) <= u64::MAX
                ==> after.sink_stall == session.sink_stall + time::since(
                session.last_handover,
                now,
            )
        },
        session.pending.len() == 0 ==> after.sink_stall == session.sink_stall && after.assembler
            == session.assembler.after_taking(),
        session.blocks_written + blocks.len() <= u64::MAX ==> after.blocks_written
            == session.blocks_written + blocks.len(),
        after.last_handover == now,
        after.received == session.received,
        after.total_bytes == session.total_bytes,
        forall|slice_no: u32| #[trigger]
            after.naks.sent.dom().contains(slice_no) <==> session.naks.sent.dom().contains(slice_no)
                && slice_no >= after.assembler.next_needed,
        after.naks.total == session.naks.total,
{
    let full = session.refilled(now);
    assert(blocks + after.pending =~= full.pending);
}

/// Of each block that is put together, what lies within the transfer is kept, and only
/// blocks of which nothing does are passed over: what waits then is as much as was put
/// together, or as is left of the transfer.
pub proof fn what_is_put_together_waits(
    blocks: Seq<Seq<u8>>,
    total_bytes: Option<u64>,
    written: u64,
    upto: int,
)
    requires
        0 <= upto <= blocks.len(),
        total_bytes matches Some(total) ==> written <= total,
    ensures
        ({
            let (left, count) = session::clipped(blocks, total_bytes, written as int, upto);
            let all = session::joined(blocks.take(upto));
            let room = match total_bytes {
                Some(total) => total - written,
                None => all.len() as int,
            };
            &&& session::joined(left) == all.take(vstd::math::min(room, all.len() as int))
            &&& count == written + session::joined(left).len()
        }),
    decreases upto,
{
    let (left, count) = session::clipped(blocks, total_bytes, written as int, upto);
    let all = session::joined(blocks.take(upto));
    if upto == 0 {
        assert(blocks.take(0) =~= Seq::<Seq<u8>>::empty());
        assert(session::joined(left) =~= all.take(0));
    } else {
        what_is_put_together_waits(blocks, total_bytes, written, upto - 1);
        let (before, sofar) = session::clipped(blocks, total_bytes, written as int, upto - 1);
        let earlier = session::joined(blocks.take(upto - 1));
        assert(blocks.take(upto).drop_last() =~= blocks.take(upto - 1));
        assert(all == earlier + blocks[upto - 1]);
        let block = session::within(blocks[upto - 1], total_bytes, sofar);
        assert(before.push(block).drop_last() =~= before);
        let room = match total_bytes {
            Some(total) => total - written,
            None => all.len() as int,
        };
        assert(session::joined(before) + block =~= all.take(
            vstd::math::min(room, all.len() as int),
        ));
        if block.len() == 0 {
            assert(session::joined(before) + block =~= session::joined(before));
        }
    }
}

/// A session knows every block of the transfer to be handed over exactly when the end is
/// known and no block has its number behind the slices that were handed over.
pub proof fn a_session_is_assembled_when_no_block_is_left(session: SessionView)
    requires
        session.valid(),
        session.assembler.total_blocks matches Some(total) ==> total <= u32::MAX
            * session.assembler.blocks_per_slice,
    ensures
        session.assembled() <==> (session.assembler.total_blocks matches Some(total) && total
            <= session.assembler.next_needed * session.assembler.blocks_per_slice),
{
    if let Some(total) = session.assembler.total_blocks {
        assembling::slices_are_counted(
            total,
            session.assembler.blocks_per_slice,
            session.assembler.next_needed,
        );
    }
}

/// A report tells what was received, what was sent as far as the numbers of shards tell,
/// what is needed first, and for how long the sink stalled.
pub proof fn a_report_tells_what_is_known(session: SessionView)
    ensures
        ({
            let stats = session.stats();
            &&& stats.transfer_id == session.transfer_id
            &&& stats.receiver_id == session.receiver_id
            &&& stats.total_received == session.received
            &&& stats.next_needed_slice == session.assembler.next_needed
            &&& session.highest_seq is None ==> stats.total_expected == 0
            &&& session.highest_seq matches Some(highest) ==> stats.total_expected == highest + 1
            &&& session.sink_stall < 1_000_000 * 0x1_0000_0000 ==> stats.sink_stall_ms
                * 1_000_000 <= session.sink_stall < (stats.sink_stall_ms + 1) * 1_000_000
            &&& session.sink_stall >= 1_000_000 * 0x1_0000_0000 ==> stats.sink_stall_ms == u32::MAX
        }),
{
}

proof fn lemma_stamped(sent: Map<u32, u64>, due: Seq<(u32, Seq<u16>)>, now: u64, slice_no: u32)
    ensures
        ({
            let after = naks::stamped(sent, due, now);
            let listed = exists|i: int| 0 <= i < due.len() && (#[trigger] due[i]).0 == slice_no;
            &&& after.dom().contains(slice_no) <==> sent.dom().contains(slice_no) || listed
            &&& listed ==> after[slice_no] == now
            &&& !listed && sent.dom().contains(slice_no) ==> after[slice_no] == sent[slice_no]
        }),
    decreases due.len(),
{
    if due.len() > 0 {
        let earlier = due.drop_last();
        lemma_stamped(sent, earlier, now, slice_no);
        assert(due.last() == due[due.len() - 1]);
        if exists|i: int| 0 <= i < earlier.len() && (#[trigger] earlier[i]).0 == slice_no {
            let i = choose|i: int| 0 <= i < earlier.len() && (#[trigger] earlier[i]).0 == slice_no;
            assert(due[i].0 == slice_no);
        }
        if exists|i: int| 0 <= i < due.len() && (#[trigger] due[i]).0 == slice_no {
            let i = choose|i: int| 0 <= i < due.len() && (#[trigger] due[i]).0 == slice_no;
            if i < earlier.len() {
                assert(earlier[i].0 == slice_no);
            }
        }
    }
}

/// Whenever requests are made, each slice that one of them asks about is noted to be asked
/// about at that time, every other slice stays as it was, and the requests are counted.
pub proof fn requests_are_noted(session: SessionView, now: u64, slice_no: u32)
    requires
        session.naks.total + session.requests(now).len() <= u64::MAX,
    ensures
        ({
            let before = session.naks;
            let after = session.asking(now).naks;
            let asked = asks_about(session.requests(now), slice_no);
            &&& after.total == before.total + session.requests(now).len()
            &&& after.sent.dom().contains(slice_no) <==> before.sent.dom().contains(slice_no)
                || asked
            &&& asked ==> after.sent[slice_no] == now
            &&& !asked && before.sent.dom().contains(slice_no) ==> after.sent[slice_no]
                == before.sent[slice_no]
            &&& session.asking(now) == (SessionView { naks: after, ..session })
        }),
{
    let due = session.naks.due(session.assembler.gaps(session.emit_floor), now);
    let requests = session.requests(now);
    lemma_stamped(session.naks.sent, due, now, slice_no);
    if exists|i: int| 0 <= i < due.len() && (#[trigger] due[i]).0 == slice_no {
        let i = choose|i: int| 0 <= i < due.len() && (#[trigger] due[i]).0 == slice_no;
        assert(requests[i] matches MessageView::Nak(nak) && nak.slice_no == slice_no);
    }
    if asks_about(requests, slice_no) {
        let i = choose|i: int|
            0 <= i < requests.len() && ((#[trigger] requests[i]) matches MessageView::Nak(nak)
                && nak.slice_no == slice_no);
        assert(due[i].0 == slice_no);
    }
}

/// What an arrival is answered with is noted: the session is then the one that took it in
/// and made those requests.
pub proof fn what_is_answered_is_noted(session: SessionView, arrival: IncomingView, now: u64)
    requires
        session.assembler.total_slots() <= u16::MAX,
    ensures
        arrival matches IncomingView::Control(MessageView::Done(done)) ==> session.after(
            arrival,
            now,
        ) == session.with_end(done).asking(now),
        arrival matches IncomingView::Shard(frame) ==> (can_belong(session, frame)
            && frame.emit_floor > session.emit_floor ==> session.after(arrival, now)
            == session.with_shard(frame).asking(now)),
{
    if let IncomingView::Shard(frame) = arrival {
        only_what_cannot_belong_is_refused(session, frame, now);
    }
}

/// Where no block waits, every byte that can be taken leaves or waits then, in order, up to
/// the end of the transfer where that is known, and is counted as written.
pub proof fn what_can_be_taken_leaves_or_waits(
    session: SessionView,
    now: u64,
    room: usize,
    blocks: Seq<Seq<u8>>,
    after: SessionView,
)
    requires
        session.hands_over(now, room, blocks, after),
        session.pending.len() == 0,
        session.total_bytes matches Some(total) ==> session.written_bytes <= total,
        session.written_bytes + session::joined(session.assembler.taken()).len() <= u64::MAX,
    ensures
        ({
            let all = session::joined(session.assembler.taken());
            let fitting = match session.total_bytes {
                Some(total) => vstd::math::min(
                    total - session.written_bytes,
                    all.len() as int,
                ),
                None => all.len() as int,
            };
            &&& session::joined(blocks + after.pending) == all.take(fitting)
            &&& after.written_bytes == session.written_bytes + fitting
        }),
{
    let taken = session.assembler.taken();
    blocks_leave_in_order(session, now, room, blocks, after);
    what_is_put_together_waits(
        taken,
        session.total_bytes,
        session.written_bytes,
        taken.len() as int,
    );
    assert(taken.take(taken.len() as int) =~= taken);
}

/// A session starts with what was announced, and with nothing that arrived.
pub proof fn a_session_starts_with_what_was_announced(
    receiver_id: u64,
    hello: HelloView,
    now: u64,
    slice_no: u32,
)
    ensures
        ({
            let session = session::opened(receiver_id, hello, now);
            &&& session.transfer_id == hello.transfer_id
            &&& session.receiver_id == receiver_id
            &&& session.assembler.block_size == hello.block_size
            &&& session.assembler.blocks_per_slice == hello.blocks_per_slice
            &&& session.assembler.parity_per_slice == hello.parity_per_slice
            &&& session.assembler.max_live_slices == hello.max_live_slices
            &&& session.announced_bytes == hello.total_bytes
            &&& session.total_bytes is None && session.assembler.total_blocks is None
            &&& !session.assembler.slices.dom().contains(slice_no)
            &&& !session.naks.sent.dom().contains(slice_no)
            &&& session.stats().total_received == 0 && session.stats().total_expected == 0
            &&& session.stats().next_needed_slice == 0 && session.stats().sink_stall_ms == 0
            &&& session.pending.len() == 0 && session.written_bytes == 0
            &&& session.late == 0 && session.duplicates == 0 && session.emit_floor == 0
            &&& session.last_packet == now && session.started == now && session.last_handover
                == now
            &&& !session.assembled()
        }),
{
}

/// A closed sink loses the block that was offered to it and no other.
pub proof fn a_closed_sink_loses_one_block(session: SessionView)
    requires
        session.pending.len() > 0,
    ensures
        seq![session.pending[0]] + session.with_block_lost().pending == session.pending,
        session.with_block_lost() == (SessionView {
            pending: session.with_block_lost().pending,
            ..session
        }),
{
    assert(seq![session.pending[0]] + session.with_block_lost().pending =~= session.pending);
}

} // verus!
