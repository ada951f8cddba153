//! What a sender does, told by what it knows before and after.

use crate::proto::frame;
use crate::proto::message::MessageView;
use crate::receiver::assembler::laws as assembling;
use crate::sender::group;
use crate::sender::group::GroupView;
use crate::sender::sending;
use crate::sender::sending::{Heard, SendingView};
use crate::sender::slicer::channel::{FeedbackView, OutboundView};
use crate::spelling;
use crate::time;
use crate::time::SILENCE_TIMEOUT;
use vstd::prelude::*;

verus! {

/// A transfer fails exactly where nobody is left, and succeeds exactly where its input has
/// ended and nobody who is left needs a slice that has a block.
pub proof fn a_transfer_ends_when_nobody_needs_a_block(sending: SendingView)
    requires
        sending.valid(),
        sending.group.participants.dom().finite(),
        sending.total_blocks <= u32::MAX * sending.plan.blocks_per_slice@,
    ensures
        ({
            let receivers = sending.group.participants;
            let k = sending.plan.blocks_per_slice@;
            &&& receivers.dom() == Set::<u64>::empty() <==> (sending.outcome() matches Some(Err(why))
                && why is NoParticipants)
            &&& sending.outcome() matches Some(Err(why)) ==> why is NoParticipants
            &&& receivers.dom() != Set::<u64>::empty() && sending.draining && (forall|id: u64|
                #[trigger]
                receivers.dom().contains(id) ==> receivers[id].next_needed * k
                    >= sending.total_blocks) <==> (sending.outcome() matches Some(Ok(_)))
        }),
{
    let receivers = sending.group.participants;
    let k = sending.plan.blocks_per_slice@;
    if receivers.dom().len() == 0 {
        assert(receivers.dom() =~= Set::<u64>::empty());
    } else {
        assert(receivers.dom() != Set::<u64>::empty());
    }
    if sending.draining {
        assert forall|id: u64| #[trigger] receivers.dom().contains(id) implies (
        sending.group.is_complete(id) <==> receivers[id].next_needed * k
            >= sending.total_blocks) by {
            assembling::slices_are_counted(sending.total_blocks, k, receivers[id].next_needed);
        }
    }
}

/// A shard that is handed out is staged as the next segment, which reads back as that
/// shard under the number of this transfer and the next number in order, and what was
/// staged before stays.
pub proof fn a_shard_is_staged_as_it_was_handed_out(
    sending: SendingView,
    outbound: OutboundView,
    now: u64,
    index: int,
)
    requires
        sending.valid(),
        sending.batch.segments < sending.batch.capacity,
        outbound matches OutboundView::Shard { payload, .. } && payload.len()
            == sending.plan.block_size@,
    ensures
        ({
            let after = sending.with_outbound(outbound, now);
            let staged = frame::read_frame(after.batch.segment(sending.batch.segments as int));
            &&& after.batch.segments == sending.batch.segments + 1
            &&& staged.slice_no == outbound->slice_no
            &&& staged.slot == outbound->slot
            &&& staged.slice_parity == outbound->slice_parity
            &&& staged.emit_floor == outbound->emit_floor
            &&& staged.payload == outbound->payload
            &&& staged.transfer_id == sending.transfer_id % 0x1_0000_0000
            &&& staged.seq == sending.seq
            &&& 0 <= index < sending.batch.segments ==> after.batch.segment(index)
                == sending.batch.segment(index)
        }),
{
    let framed = sending.frame(outbound);
    frame::segments_stand_at_a_fixed_stride(sending.batch, framed, index);
    let after = sending.with_outbound(outbound, now);
    assert(after.batch == sending.batch.pushed(framed));
    let staged = frame::read_frame(after.batch.segment(sending.batch.segments as int));
    assert(staged == framed);
}

/// Every shard that is handed out takes the next number, counts as a block exactly where
/// it is one, and tells how far slices were handed out; nothing else changes but what is
/// staged.
pub proof fn every_shard_takes_the_next_number(
    sending: SendingView,
    outbound: OutboundView,
    now: u64,
)
    requires
        sending.blocks_sent < u64::MAX,
        outbound is Shard,
    ensures
        ({
            let after = sending.with_outbound(outbound, now);
            &&& sending.seq < u32::MAX ==> after.seq == sending.seq + 1
            &&& sending.seq == u32::MAX ==> after.seq == 0
            &&& after.blocks_sent == sending.blocks_sent + if outbound->slot
                < sending.plan.blocks_per_slice@ {
                1int
            } else {
                0int
            }
            &&& after.slices_emitted >= outbound->emit_floor && after.slices_emitted
                >= sending.slices_emitted
            &&& after.slices_emitted == outbound->emit_floor || after.slices_emitted
                == sending.slices_emitted
            &&& after.group.emitted >= outbound->emit_floor && after.group.emitted
                >= sending.group.emitted
            &&& after.group.emitted == outbound->emit_floor || after.group.emitted
                == sending.group.emitted
            &&& after == (SendingView {
                batch: after.batch,
                seq: after.seq,
                blocks_sent: after.blocks_sent,
                slices_emitted: after.slices_emitted,
                group: GroupView { emitted: after.group.emitted, ..sending.group },
                ..sending
            })
        }),
{
}

/// The sender that handed out items one after another, each at its time.
pub open spec fn after_outbounds(
    sending: SendingView,
    outbounds: Seq<OutboundView>,
    now: Seq<u64>,
) -> SendingView
    decreases outbounds.len(),
{
    if outbounds.len() == 0 {
        sending
    } else {
        after_outbounds(sending, outbounds.drop_last(), now).with_outbound(
            outbounds.last(),
            now[outbounds.len() - 1],
        )
    }
}

/// The items that are shards.
pub open spec fn shards_of(outbounds: Seq<OutboundView>) -> Seq<OutboundView> {
    outbounds.filter(|outbound: OutboundView| outbound is Shard)
}

/// The items that are blocks.
pub open spec fn blocks_of(outbounds: Seq<OutboundView>, blocks_per_slice: u16) -> Seq<
    OutboundView,
> {
    outbounds.filter(
        |outbound: OutboundView| outbound is Shard && outbound->slot < blocks_per_slice,
    )
}

proof fn lemma_counts(outbounds: Seq<OutboundView>, blocks_per_slice: u16)
    ensures
        outbounds.len() == 0 ==> shards_of(outbounds).len() == 0 && blocks_of(
            outbounds,
            blocks_per_slice,
        ).len() == 0,
        outbounds.len() > 0 ==> {
            let earlier = outbounds.drop_last();
            let last = outbounds.last();
            &&& shards_of(outbounds).len() == shards_of(earlier).len() + if last is Shard {
                1int
            } else {
                0int
            }
            &&& blocks_of(outbounds, blocks_per_slice).len() == blocks_of(
                earlier,
                blocks_per_slice,
            ).len() + if last is Shard && last->slot < blocks_per_slice {
                1int
            } else {
                0int
            }
        },
{
    reveal(Seq::filter);
}

proof fn lemma_one_more(before: SendingView, outbound: OutboundView, now: u64)
    requires
        before.blocks_sent < u64::MAX,
    ensures
        ({
            let after = before.with_outbound(outbound, now);
            let counts = outbound is Shard;
            &&& after.seq == if counts {
                (before.seq + 1) % 0x1_0000_0000
            } else {
                before.seq as int
            }
            &&& after.blocks_sent == before.blocks_sent + if counts && outbound->slot
                < before.plan.blocks_per_slice@ {
                1int
            } else {
                0int
            }
            &&& after.plan == before.plan
            &&& after.transfer_id == before.transfer_id
        }),
{
}

proof fn lemma_wraps(start: u32, count: nat, seq: u32)
    requires
        seq == (start + count) % 0x1_0000_0000,
    ensures
        (seq + 1) % 0x1_0000_0000 == (start + (count + 1)) % 0x1_0000_0000,
{
}

/// However many items are handed out, the numbers of shards count them without a gap, and
/// the blocks among them are counted.
pub proof fn shards_are_numbered_without_a_gap(
    sending: SendingView,
    outbounds: Seq<OutboundView>,
    now: Seq<u64>,
)
    requires
        sending.blocks_sent + outbounds.len() <= u64::MAX,
    ensures
        ({
            let after = after_outbounds(sending, outbounds, now);
            let k = sending.plan.blocks_per_slice@;
            &&& after.seq == (sending.seq + shards_of(outbounds).len()) % 0x1_0000_0000
            &&& after.blocks_sent == sending.blocks_sent + blocks_of(outbounds, k).len()
            &&& blocks_of(outbounds, k).len() <= outbounds.len()
            &&& after.plan == sending.plan
            &&& after.transfer_id == sending.transfer_id
        }),
    decreases outbounds.len(),
{
    lemma_counts(outbounds, sending.plan.blocks_per_slice@);
    if outbounds.len() > 0 {
        let earlier = outbounds.drop_last();
        shards_are_numbered_without_a_gap(sending, earlier, now);
        let before = after_outbounds(sending, earlier, now);
        lemma_one_more(before, outbounds.last(), now[outbounds.len() - 1]);
        lemma_wraps(sending.seq, shards_of(earlier).len(), before.seq);
    }
}

/// However many items are handed out, how far slices were handed out is the highest that
/// any shard says.
pub proof fn the_highest_floor_is_kept(
    sending: SendingView,
    outbounds: Seq<OutboundView>,
    now: Seq<u64>,
)
    ensures
        ({
            let after = after_outbounds(sending, outbounds, now);
            &&& after.slices_emitted >= sending.slices_emitted
            &&& forall|i: int|
                0 <= i < outbounds.len() && (#[trigger] outbounds[i]) is Shard
                    ==> after.slices_emitted >= outbounds[i]->emit_floor
            &&& after.slices_emitted == sending.slices_emitted || exists|i: int|
                0 <= i < outbounds.len() && (#[trigger] outbounds[i]) is Shard
                    && after.slices_emitted == outbounds[i]->emit_floor
        }),
    decreases outbounds.len(),
{
    if outbounds.len() > 0 {
        let earlier = outbounds.drop_last();
        the_highest_floor_is_kept(sending, earlier, now);
        let before = after_outbounds(sending, earlier, now);
        let after = after_outbounds(sending, outbounds, now);
        let last = outbounds.last();
        assert(last == outbounds[outbounds.len() - 1]);
        assert(after == before.with_outbound(last, now[outbounds.len() - 1]));
        assert(after.slices_emitted == if last is Shard && last->emit_floor
            > before.slices_emitted {
            last->emit_floor
        } else {
            before.slices_emitted
        });
        assert forall|i: int|
            0 <= i < outbounds.len() && (#[trigger] outbounds[i]) is Shard implies
            after.slices_emitted >= outbounds[i]->emit_floor by {
            if i < earlier.len() {
                assert(earlier[i] == outbounds[i]);
            }
        }
        if after.slices_emitted != sending.slices_emitted && after.slices_emitted
            == before.slices_emitted {
            let i = choose|i: int|
                0 <= i < earlier.len() && (#[trigger] earlier[i]) is Shard
                    && before.slices_emitted == earlier[i]->emit_floor;
            assert(outbounds[i] == earlier[i]);
        }
    }
}

/// The end that is handed out is what the group is told of, makes the transfer drain, and
/// gives whoever is left as long as the plan says, as far as time can be told.
pub proof fn the_end_makes_a_transfer_drain(
    sending: SendingView,
    total_bytes: u64,
    total_blocks: u64,
    now: u64,
    slice_no: u32,
)
    requires
        sending.valid(),
        total_blocks <= u32::MAX * sending.plan.blocks_per_slice@,
    ensures
        ({
            let after = sending.with_outbound(OutboundView::Eof { total_bytes, total_blocks }, now);
            &&& after.draining
            &&& after.drain_deadline matches Some(deadline) && (now + sending.plan.max_wait
                <= u64::MAX ==> deadline == now + sending.plan.max_wait) && (now
                + sending.plan.max_wait > u64::MAX ==> deadline == u64::MAX)
            &&& after.done() matches MessageView::Done(done) && done.transfer_id
                == sending.transfer_id && done.total_bytes == total_bytes && done.total_blocks
                == total_blocks
            &&& after.group.total_slices matches Some(slices) && (slice_no < slices <==> slice_no
                * sending.plan.blocks_per_slice@ < total_blocks)
            &&& after.group.participants == sending.group.participants
            &&& after.seq == sending.seq
            &&& after.batch == sending.batch
            &&& after.blocks_sent == sending.blocks_sent
        }),
{
    assembling::slices_are_counted(total_blocks, sending.plan.blocks_per_slice@, slice_no);
}

/// When the sender takes stock, each receiver that is let go is told so in turn; then,
/// once the input has ended, the group is told the end; before, where no block was sent
/// since the last time, it is told the announcement; and otherwise nothing.
pub proof fn the_group_is_told_what_it_may_have_missed(
    sending: SendingView,
    gone: Seq<(u64, u32)>,
)
    ensures
        ({
            let told = sending.announcements(gone);
            let idle = sending.blocks_sent == sending.blocks_at_last_tick;
            &&& told.len() == gone.len() + if sending.draining || idle {
                1int
            } else {
                0int
            }
            &&& forall|i: int|
                #![trigger told[i]]
                0 <= i < gone.len() ==> (told[i] matches MessageView::Evicted(evicted)
                    && evicted.target == gone[i].0 && evicted.transfer_id == sending.transfer_id
                    && evicted.reason == sending::eviction_reason(gone[i].1))
            &&& sending.draining ==> (told.last() matches MessageView::Done(done)
                && done.transfer_id == sending.transfer_id && done.total_bytes
                == sending.total_bytes && done.total_blocks == sending.total_blocks)
            &&& !sending.draining && idle ==> (told.last() matches MessageView::Hello(hello)
                && hello.transfer_id == sending.transfer_id && hello.block_size
                == sending.plan.block_size@ && hello.blocks_per_slice
                == sending.plan.blocks_per_slice@ && hello.parity_per_slice
                == sending.plan.parity_per_slice && hello.max_live_slices
                == sending.plan.max_live_slices@ && hello.total_bytes == sending.announced_bytes)
        }),
{
}

/// The reason that a receiver is told names the time after which it is let go, in
/// seconds, and the slice that it needed first.
pub proof fn the_reason_names_the_time_and_the_slice(stuck_at: u32)
    ensures
        sending::eviction_reason(stuck_at) == "silent for "@ + spelling::decimal(
            (SILENCE_TIMEOUT / 1_000_000_000) as nat,
        ) + "s while stuck at slice "@ + spelling::decimal(stuck_at as nat),
{
    reveal_strlit("silent for ");
    reveal_strlit("s while stuck at slice ");
    reveal_strlit("silent for 10s while stuck at slice ");
    reveal_with_fuel(spelling::decimal, 3);
    assert(SILENCE_TIMEOUT / 1_000_000_000 == 10);
    assert(spelling::decimal(10) =~= seq!['1', '0']);
    assert("silent for 10s while stuck at slice "@ =~= "silent for "@ + seq!['1', '0']
        + "s while stuck at slice "@);
}

/// When the sender takes stock, exactly those receivers stay that were heard of within the
/// time after which one is let go, and what is known of them stays; what was sent by then
/// is what the next time counts from.
pub proof fn taking_stock_keeps_whoever_was_heard_of(
    sending: SendingView,
    now: u64,
    receiver_id: u64,
)
    ensures
        ({
            let before = sending.group.participants;
            let after = sending.ticked(now);
            &&& after.group.participants.dom().contains(receiver_id) <==> before.dom().contains(
                receiver_id,
            ) && now - before[receiver_id].last_seen < SILENCE_TIMEOUT
            &&& after.group.participants.dom().contains(receiver_id)
                ==> after.group.participants[receiver_id] == before[receiver_id]
            &&& after.blocks_at_last_tick == sending.blocks_sent
            &&& after.last_tick == now
            &&& after == (SendingView {
                group: GroupView { participants: after.group.participants, ..sending.group },
                blocks_at_last_tick: after.blocks_at_last_tick,
                last_tick: after.last_tick,
                ..sending
            })
        }),
{
}

/// A report of a receiver of the group is what the rate follows; it is noted, and the
/// receiver heard of; and the slicer is told what nobody needs any more exactly where the
/// least that any receiver needs is more than it was told before.
pub proof fn a_report_is_noted_and_passed_on(
    sending: SendingView,
    message: MessageView,
    now: u64,
    heard: Heard,
    after: SendingView,
    other: u64,
)
    requires
        sending.hears(message, now, heard, after),
        message matches MessageView::Stats(stats) && sending.group.participants.dom().contains(
            stats.receiver_id,
        ),
    ensures
        message matches MessageView::Stats(stats) && {
            let receivers = after.group.participants;
            let known = receivers[stats.receiver_id];
            &&& heard.report == Some(stats)
            &&& receivers.dom() == sending.group.participants.dom()
            &&& known.next_needed == stats.next_needed_slice
            &&& known.sink_stall_ms == stats.sink_stall_ms
            &&& known.last_seen == now
            &&& known.naks == sending.group.participants[stats.receiver_id].naks
            &&& other != stats.receiver_id && receivers.dom().contains(other) ==> receivers[other]
                == sending.group.participants[other]
            &&& heard.feedback matches Some(feedback) ==> {
                &&& feedback@ matches FeedbackView::Needed(least) && least
                    > sending.group.needed_from && after.group.needed_from == least && (
                receivers.dom().contains(other) ==> least <= receivers[other].next_needed) && (
                exists|id: u64| #[trigger]
                    receivers.dom().contains(id) && receivers[id].next_needed == least)
            }
            &&& heard.feedback is None ==> after.group.needed_from == sending.group.needed_from
                && (exists|id: u64| #[trigger]
                receivers.dom().contains(id) && receivers[id].next_needed
                    <= sending.group.needed_from)
        },
{
    if let MessageView::Stats(stats) = message {
        let seen = sending.group.seen(stats.receiver_id, now);
        let receivers = after.group.participants;
        assert(receivers.dom() =~= sending.group.participants.dom());
        let noted = seen.reported(stats);
        assert(noted.participants.dom() =~= receivers.dom());
        assert(receivers.dom().contains(stats.receiver_id));
        assert(noted.participants.dom() != Set::<u64>::empty());
        if heard.feedback is None {
            let least = choose|slice_no: u32| #[trigger]
                noted.is_slowest(slice_no) && slice_no <= seen.needed_from;
            assert(noted.is_slowest(least));
            let id = choose|id: u64| #[trigger]
                noted.participants.dom().contains(id) && noted.participants[id].next_needed == least;
            assert(receivers.dom().contains(id));
        } else {
            let least = heard.feedback->0@->Needed_0;
            assert(noted.is_slowest(least));
            let id = choose|id: u64| #[trigger]
                noted.participants.dom().contains(id) && noted.participants[id].next_needed == least;
            assert(receivers.dom().contains(id));
            if receivers.dom().contains(other) {
                assert(noted.participants.dom().contains(other));
            }
        }
    }
}

/// A request of a receiver of the group makes the slicer hand out again what it asks for
/// and is not held off, and nothing else reaches the slicer.
pub proof fn a_request_is_passed_on(
    sending: SendingView,
    message: MessageView,
    now: u64,
    heard: Heard,
    after: SendingView,
)
    requires
        sending.hears(message, now, heard, after),
        message matches MessageView::Nak(nak) && nak.missing.no_duplicates(),
    ensures
        message matches MessageView::Nak(nak) && {
            let wanted = group::laws::free(
                sending.group.suppressed,
                nak.slice_no,
                nak.missing,
                now,
            );
            let heeded = sending.group.participants.dom().contains(nak.receiver_id)
                && nak.slice_no >= sending.group.needed_from && wanted.len() > 0;
            &&& heeded <==> heard.feedback is Some
            &&& heeded ==> heard.feedback->0@ == (FeedbackView::Resend {
                slice_no: nak.slice_no,
                blocks: wanted,
            })
            &&& heard.report is None
            &&& after.group.participants.dom() == sending.group.participants.dom()
            &&& after == (SendingView { group: after.group, ..sending })
        },
{
    if let MessageView::Nak(nak) = message {
        group::laws::a_request_is_served_in_order(sending.group, nak, now);
        group::laws::every_request_counts(sending.group, nak, now, nak.receiver_id);
    }
}

/// Who leaves is gone from the group, with everyone else kept, and no message but a
/// report, a request and a leaving changes anything.
pub proof fn who_leaves_is_gone(
    sending: SendingView,
    message: MessageView,
    now: u64,
    heard: Heard,
    after: SendingView,
    other: u64,
)
    requires
        sending.hears(message, now, heard, after),
        !(message is Stats),
        !(message is Nak),
    ensures
        heard.report is None,
        heard.feedback is None,
        message matches MessageView::Leave { receiver_id, .. } ==> {
            &&& after.group.participants.dom().contains(other) <==> sending.group.participants.dom().contains(
                other,
            ) && other != receiver_id
            &&& after.group.participants.dom().contains(other)
                ==> after.group.participants[other] == sending.group.participants[other]
            &&& after == (SendingView {
                group: GroupView { participants: after.group.participants, ..sending.group },
                ..sending
            })
        },
        !(message is Leave) ==> after == sending,
{
}

} // verus!
