use bytes::Bytes;
use scuttlecast::error::ProtoError;
use scuttlecast::nonzero::{NonZeroU16, NonZeroU32};
use scuttlecast::proto::{Done, Frame, Message, Nak, Stats, HEADER_SIZE};
use scuttlecast::sender::pacer::{Demand, RatePolicy, RateStep};
use scuttlecast::sender::sending::{
    held_back, Emission, Gathering, Plan, Sending, DEFAULT_BLOCKS_PER_SLICE,
    DEFAULT_MAX_LIVE_SLICES, SINK_STALL_FLOOR, SOURCE_WAIT_FLOOR, TICK_INTERVAL,
};
use scuttlecast::sender::slicer::channel::{Feedback, Outbound};
use scuttlecast::state::LimitingFactor;
use scuttlecast::time::STATS_INTERVAL;
use scuttlecast::SILENCE_TIMEOUT;

const BLOCK_SIZE: usize = scuttlecast::DEFAULT_BLOCK_SIZE as usize;
const TRANSFER_ID: u64 = 0x1_0000_0007;

#[test]
fn the_default_window_and_report_interval_clear_a_multi_gigabit_link() {
    let window = DEFAULT_MAX_LIVE_SLICES as f64
        * DEFAULT_BLOCKS_PER_SLICE as f64
        * BLOCK_SIZE as f64;
    let ceiling = window / (STATS_INTERVAL as f64 / 1e9);

    assert!(
        ceiling > 6.25e8,
        "the defaults cap throughput at {:.2} Gbps",
        ceiling * 8.0 / 1e9
    );
}

#[test]
fn floors_are_parts_of_the_intervals() {
    assert_eq!(SOURCE_WAIT_FLOOR, TICK_INTERVAL / 8);
    assert_eq!(SINK_STALL_FLOOR as u64 * 1_000_000, STATS_INTERVAL / 4);
}

fn plan() -> Plan {
    Plan {
        block_size: NonZeroU32::new(8).expect("block size"),
        blocks_per_slice: NonZeroU16::new(2).expect("blocks per slice"),
        max_live_slices: NonZeroU16::new(4).expect("max live slices"),
        parity_per_slice: 1,
        max_batch_segments: 2,
        min_receivers: 2,
        max_wait: 1000,
    }
}

fn joined(receiver_id: u64) -> Message {
    Message::Join {
        transfer_id: TRANSFER_ID,
        receiver_id,
    }
}

fn sending(receiver_ids: &[u64]) -> Sending {
    let mut gathering = Gathering::new(1, 1000, 0);
    for receiver_id in receiver_ids {
        gathering.on_control(&joined(*receiver_id));
    }
    Sending::new(&plan(), TRANSFER_ID, Some(20), gathering.into_group(), 0).expect("receivers")
}

fn shard(slice_no: u32, slot: u16, emit_floor: u32) -> Outbound {
    Outbound::Shard {
        slice_no,
        slot,
        slice_parity: 1,
        emit_floor,
        payload: Bytes::from(vec![slot as u8; 8]),
    }
}

fn eof() -> Outbound {
    Outbound::Eof {
        total_bytes: 20,
        total_blocks: 3,
    }
}

fn stats(receiver_id: u64, next_needed_slice: u32) -> Message {
    Message::Stats(Stats {
        transfer_id: TRANSFER_ID,
        receiver_id,
        total_received: 0,
        total_expected: 0,
        next_needed_slice,
        sink_stall_ms: 30,
    })
}

fn nak(receiver_id: u64, slice_no: u32, missing: Vec<u16>) -> Message {
    Message::Nak(Nak {
        transfer_id: TRANSFER_ID,
        receiver_id,
        slice_no,
        missing,
    })
}

#[test]
fn gathers_until_enough_receivers_joined() {
    let mut gathering = Gathering::new(2, 1000, 500);

    assert!(gathering.on_control(&joined(1)));
    assert!(!gathering.on_control(&joined(1)));
    assert!(!gathering.has_enough());
    assert!(gathering.on_control(&joined(2)));
    assert!(gathering.has_enough());

    let leave = Message::Leave {
        transfer_id: TRANSFER_ID,
        receiver_id: 1,
    };
    assert!(gathering.on_control(&leave));
    assert!(!gathering.on_control(&leave));
    assert!(!gathering.on_control(&stats(2, 0)));
    assert!(!gathering.has_enough());

    assert_eq!(gathering.time_left(600), 900);
    assert_eq!(gathering.time_left(5000), 0);
    assert_eq!(gathering.into_group().len(), 1);
}

#[test]
fn nothing_is_sent_to_nobody() {
    let nobody = Gathering::new(1, 1000, 0).into_group();

    assert!(matches!(
        Sending::new(&plan(), TRANSFER_ID, None, nobody, 0),
        Err(ProtoError::NoParticipants)
    ));
}

#[test]
fn announces_what_was_planned() {
    match plan().hello(7, Some(9)) {
        Message::Hello(hello) => {
            assert_eq!(hello.transfer_id, 7);
            assert_eq!(hello.block_size.get(), 8);
            assert_eq!(hello.blocks_per_slice.get(), 2);
            assert_eq!(hello.parity_per_slice, 1);
            assert_eq!(hello.max_live_slices.get(), 4);
            assert_eq!(hello.total_bytes, Some(9));
        }
        other => panic!("expected an announcement, got {other:?}"),
    }
}

#[test]
fn shards_leave_in_batches_numbered_in_order() {
    let mut sending = sending(&[1]);
    assert_eq!(sending.drain_limit(), 2);
    let stride = sending.segment_size();
    assert_eq!(stride, HEADER_SIZE + 8);

    assert!(matches!(
        sending.on_outbound(shard(0, 0, 0), 0),
        Emission::Nothing
    ));
    assert!(sending.has_room());
    assert!(matches!(
        sending.on_outbound(shard(0, 1, 0), 0),
        Emission::Batch
    ));
    assert!(!sending.has_room());

    let filled = Bytes::copy_from_slice(sending.filled());
    for index in 0..2usize {
        let at = index * stride;
        let frame = Frame::parse(filled.slice(at..at + stride)).expect("parses");
        assert_eq!(frame.seq, index as u32);
        assert_eq!(frame.transfer_id, 7);
        assert_eq!(frame.slot, index as u16);
        assert_eq!(frame.slice_parity, 1);
    }
    sending.batch_sent();
    assert!(sending.filled().is_empty());

    sending.on_outbound(shard(0, 2, 0), 0);
    let frame = Frame::parse(Bytes::copy_from_slice(sending.filled())).expect("parses");
    assert_eq!(frame.seq, 2);
}

#[test]
fn a_narrowed_batch_leaves_sooner() {
    let mut sending = sending(&[1]);
    sending.narrow_to(1);

    assert!(matches!(
        sending.on_outbound(shard(0, 0, 0), 0),
        Emission::Batch
    ));
}

#[test]
fn the_end_of_the_input_is_announced_behind_the_batch() {
    let mut sending = sending(&[1]);
    assert_eq!(sending.drain_left(0), None);
    sending.on_outbound(shard(0, 0, 0), 0);

    match sending.on_outbound(eof(), 10) {
        Emission::BatchThen(Message::Done(done)) => assert_eq!(
            done,
            Done {
                transfer_id: TRANSFER_ID,
                total_bytes: 20,
                total_blocks: 3
            }
        ),
        _ => panic!("expected the end"),
    }
    assert_eq!(sending.filled().len(), HEADER_SIZE + 8);
    assert_eq!(sending.drain_left(110), Some(900));
    assert_eq!(sending.drain_left(2000), Some(0));
}

#[test]
fn a_transfer_is_over_when_everyone_has_everything() {
    let mut sending = sending(&[1, 2]);
    assert!(sending.outcome().is_none());
    sending.on_control(stats(1, 2), 0);
    sending.on_outbound(eof(), 0);

    assert!(sending.outcome().is_none());
    assert!(matches!(
        sending.expired(),
        ProtoError::TransferIncomplete {
            complete: 1,
            participants: 2
        }
    ));

    sending.on_control(stats(2, 2), 0);

    assert!(matches!(sending.outcome(), Some(Ok(()))));
}

#[test]
fn a_transfer_that_everyone_left_fails() {
    let mut sending = sending(&[1]);

    sending.on_control(
        Message::Leave {
            transfer_id: TRANSFER_ID,
            receiver_id: 1,
        },
        0,
    );

    assert!(matches!(
        sending.outcome(),
        Some(Err(ProtoError::NoParticipants))
    ));
}

#[test]
fn reports_move_the_window_and_requests_are_resent() {
    let mut sending = sending(&[1]);

    let heard = sending.on_control(stats(1, 3), 0);
    assert!(matches!(heard.feedback, Some(Feedback::Needed(3))));
    assert_eq!(heard.report.expect("a report").receiver_id, 1);

    let heard = sending.on_control(nak(1, 3, vec![0, 2]), 0);
    assert!(heard.report.is_none());
    match heard.feedback {
        Some(Feedback::Resend { slice_no, blocks }) => {
            assert_eq!((slice_no, blocks), (3, vec![0, 2]));
        }
        _ => panic!("expected a resend"),
    }
    assert!(sending.on_control(nak(1, 3, vec![0, 2]), 0).feedback.is_none());
}

#[test]
fn strangers_are_not_heard() {
    let mut sending = sending(&[1]);

    let heard = sending.on_control(stats(9, 3), 0);
    assert!(heard.feedback.is_none());
    assert!(heard.report.is_none());
    assert!(sending.on_control(nak(9, 3, vec![0]), 0).feedback.is_none());
}

#[test]
fn an_idle_tick_announces_the_transfer_again() {
    let mut sending = sending(&[1]);

    let tick = sending.on_tick(TICK_INTERVAL);
    assert_eq!(tick.messages, vec![plan().hello(TRANSFER_ID, Some(20))]);
    assert_eq!((tick.sent, tick.span), (0, TICK_INTERVAL));

    sending.on_outbound(shard(0, 0, 0), 0);
    let tick = sending.on_tick(2 * TICK_INTERVAL);
    assert!(tick.messages.is_empty());
    assert_eq!(tick.sent, 1);

    sending.on_outbound(eof(), 0);
    let tick = sending.on_tick(3 * TICK_INTERVAL);
    assert!(matches!(tick.messages[..], [Message::Done(_)]));
}

#[test]
fn the_silent_are_evicted_with_the_reason() {
    let mut sending = sending(&[1, 2]);
    sending.on_control(stats(1, 40), SILENCE_TIMEOUT);
    sending.on_outbound(shard(0, 0, 0), 0);

    let tick = sending.on_tick(SILENCE_TIMEOUT);

    match &tick.messages[..] {
        [Message::Evicted(evicted)] => {
            assert_eq!(evicted.target, 2);
            assert_eq!(evicted.reason, "silent for 10s while stuck at slice 0");
        }
        other => panic!("expected one eviction, got {other:?}"),
    }

    let tick = sending.on_tick(2 * SILENCE_TIMEOUT);
    match &tick.messages[0] {
        Message::Evicted(evicted) => {
            assert_eq!(evicted.target, 1);
            assert_eq!(evicted.reason, "silent for 10s while stuck at slice 40");
        }
        other => panic!("expected an eviction, got {other:?}"),
    }
    assert!(matches!(
        sending.outcome(),
        Some(Err(ProtoError::NoParticipants))
    ));
}

#[test]
fn coverage_is_only_passed_on_when_it_changes() {
    let mut sending = sending(&[1]);

    assert!(sending.cover(1).is_none());
    assert!(matches!(sending.cover(0), Some(Feedback::Cover(0))));
    assert!(sending.cover(0).is_none());
}

#[test]
fn the_bottleneck_sums_up_the_tick() {
    let mut sending = sending(&[1]);
    sending.on_control(stats(1, 1), 0);
    sending.on_outbound(shard(4, 0, 4), 0);
    sending.waited(SOURCE_WAIT_FLOOR);
    sending.waited(3_000_000);

    let bottleneck = sending.bottleneck(Some(1), true, false, false, true);
    assert_eq!(bottleneck.slowest, Some((1, 3)));
    assert_eq!(bottleneck.worst_sink_stall, Some((1, 30)));
    assert_eq!(bottleneck.source_wait, 3_000_000);
    assert_eq!(bottleneck.max_live_slices, 4);
    assert_eq!(bottleneck.sink_stall_threshold, 25);
    assert_eq!(
        bottleneck.attribute(),
        LimitingFactor::RateLimited { worst: 1 }
    );

    let bottleneck = sending.bottleneck(None, false, true, true, true);
    assert_eq!(bottleneck.source_wait, 0);
    assert_eq!(
        bottleneck.attribute(),
        LimitingFactor::SinkStalled {
            receiver: 1,
            stall_ms: 30
        }
    );
}

#[test]
fn progress_counts_data_and_not_parity() {
    let mut sending = sending(&[1]);
    sending.on_outbound(shard(0, 1, 0), 0);
    sending.batch_sent();
    sending.on_outbound(shard(0, 2, 0), 0);
    sending.batch_sent();
    sending.on_outbound(shard(1, 0, 1), 0);
    sending.cover(0);

    let state = sending.progress(LimitingFactor::Unconstrained, 60);
    assert_eq!(state.transfer_id, TRANSFER_ID);
    assert_eq!(state.blocks_sent, 2);
    assert_eq!(state.slices_emitted, 1);
    assert_eq!(state.parity_shards, 0);
    assert_eq!(state.total_blocks, None);
    assert_eq!(state.announced_bytes, Some(20));
    assert_eq!(state.receivers.len(), 1);
    assert_eq!(state.receivers[0].slices_behind, 1);
    assert_eq!(state.elapsed, 60);

    sending.on_outbound(eof(), 0);
    let state = sending.progress(LimitingFactor::Unconstrained, 60);
    assert!(state.draining);
    assert_eq!(state.total_blocks, Some(3));
}

#[test]
fn shards_are_held_back_only_by_spent_credit() {
    assert!(held_back(3, 5, 3, true));
    assert!(!held_back(3, 5, 3, false));
    assert!(!held_back(3, 5, 2, true));
    assert!(!held_back(7, 5, 5, true));
}

#[test]
fn the_rate_doubles_back_and_recovers_after_good_ticks() {
    let mut policy = RatePolicy::default();

    assert_eq!(policy.tick(Demand::Unknown, true, true), RateStep::Hold);
    assert_eq!(policy.tick(Demand::Healthy, true, true), RateStep::Grow);
    assert_eq!(policy.tick(Demand::Healthy, false, true), RateStep::Settle);
    assert_eq!(
        policy.tick(Demand::Excessive { slowing_helps: true }, false, true),
        RateStep::Reduce
    );
    assert_eq!(
        policy.tick(
            Demand::Excessive {
                slowing_helps: false
            },
            true,
            false
        ),
        RateStep::Endure
    );
    assert_eq!(policy.tick(Demand::Healthy, true, false), RateStep::Settle);
    assert_eq!(policy.tick(Demand::Healthy, true, false), RateStep::Settle);
    assert_eq!(policy.tick(Demand::Healthy, true, false), RateStep::Grow);
}

#[test]
fn a_batch_takes_what_the_plan_and_a_datagram_allow() {
    assert_eq!(sending(&[1]).drain_limit(), 2);
}
