use bytes::Bytes;
use scuttlecast::error::ProtoError;
use scuttlecast::nonzero::{NonZeroU16, NonZeroU32};
use scuttlecast::proto::{Done, Error, Evicted, Frame, Hello, Message};
use scuttlecast::receiver::session::{join, nothing_announced, Session};
use scuttlecast::receiver::TransferSummary;
use scuttlecast::time::RENAK_INTERVAL;
use scuttlecast::transport::classify;
use scuttlecast::wire::DecodeFault;
use scuttlecast::{Incoming, SILENCE_TIMEOUT};

const BLOCK_SIZE: usize = scuttlecast::DEFAULT_BLOCK_SIZE as usize;

fn hello(transfer_id: u64, blocks: u16) -> Hello {
    Hello {
        transfer_id,
        block_size: NonZeroU32::new(scuttlecast::DEFAULT_BLOCK_SIZE).expect("block size"),
        blocks_per_slice: NonZeroU16::new(blocks).expect("nonzero blocks per slice"),
        parity_per_slice: 0,
        max_live_slices: NonZeroU16::new(8).expect("nonzero live slices"),
        total_bytes: None,
    }
}

fn session(blocks: u16) -> Session {
    Session::new(5, &hello(1, blocks), 0).expect("session")
}

fn shard(slice_no: u32, slot: u16, seq: u32, emit_floor: u32) -> Incoming {
    Incoming::Shard(Frame {
        slot,
        slice_parity: 0,
        transfer_id: 1,
        seq,
        slice_no,
        emit_floor,
        payload: Bytes::from(vec![slot as u8 + 1; BLOCK_SIZE]),
    })
}

fn done(total_bytes: u64, total_blocks: u64) -> Incoming {
    Incoming::Control(Message::Done(Done {
        transfer_id: 1,
        total_bytes,
        total_blocks,
    }))
}

#[test]
fn rejects_a_slot_outside_its_slice() {
    let mut session = Session::new(5, &hello(1, 32), 0).expect("session");

    let result = session.on_arrival(
        Incoming::Shard(Frame {
            slot: 32,
            slice_parity: 0,
            transfer_id: 1,
            seq: 0,
            slice_no: 0,
            emit_floor: 0,
            payload: Bytes::from(vec![1; 10]),
        }),
        0,
    );

    assert!(
        matches!(
            result,
            Err(ProtoError::Protocol(Error::SlotOutsideSlice { slot: 32, slots })) if slots == 32
        ),
        "got {result:?}"
    );
}

#[test]
fn rejects_a_parity_width_the_transfer_never_allowed() {
    let mut session = Session::new(5, &hello(3, 32), 0).expect("session");

    let result = session.on_arrival(
        Incoming::Shard(Frame {
            slot: 0,
            slice_parity: u8::MAX,
            transfer_id: 3,
            seq: 0,
            slice_no: 0,
            emit_floor: 0,
            payload: Bytes::from(vec![1; BLOCK_SIZE]),
        }),
        0,
    );

    assert!(
        matches!(
            result,
            Err(ProtoError::Protocol(Error::ParityWiderThanTransfer {
                named: u8::MAX,
                allowed: 0
            }))
        ),
        "got {result:?}"
    );
}

#[test]
fn rejects_a_parity_slot_outside_the_width_it_names() {
    let mut announcement = hello(4, 32);
    announcement.parity_per_slice = 8;
    let mut session = Session::new(5, &announcement, 0).expect("session");

    let result = session.on_arrival(
        Incoming::Shard(Frame {
            slot: 35,
            slice_parity: 1,
            transfer_id: 4,
            seq: 0,
            slice_no: 0,
            emit_floor: 0,
            payload: Bytes::from(vec![1; BLOCK_SIZE]),
        }),
        0,
    );

    assert!(
        matches!(
            result,
            Err(ProtoError::Protocol(Error::ParityOutsideSlice {
                slot: 35,
                named: 1
            }))
        ),
        "got {result:?}"
    );
}

#[test]
fn rejects_a_hello_claiming_zero_blocks_per_slice() {
    let mut bytes = Message::Hello(hello(2, 1)).encode().expect("encode");
    let blocks_per_slice_byte = bytes.len() - 4;
    assert_eq!(
        bytes[blocks_per_slice_byte..],
        [1, 0, 8, 0],
        "blocks_per_slice, parity_per_slice, max_live_slices and total_bytes trail the message"
    );
    bytes[blocks_per_slice_byte] = 0;

    let result = Message::decode(&bytes);

    assert!(matches!(result, Err(Error::Decode(_))), "got {result:?}");

    let result = classify(Bytes::from(bytes)).map(|_| ());

    assert!(
        matches!(result, Err(Error::Decode(DecodeFault::Zero))),
        "got {result:?}"
    );
}

#[test]
fn rejects_a_shard_that_is_no_block_long() {
    let mut session = session(2);

    let result = session.on_arrival(
        Incoming::Shard(Frame {
            slot: 0,
            slice_parity: 0,
            transfer_id: 1,
            seq: 0,
            slice_no: 0,
            emit_floor: 0,
            payload: Bytes::from_static(b"short"),
        }),
        0,
    );

    assert!(matches!(
        result,
        Err(ProtoError::Protocol(Error::PayloadSize {
            got: 5,
            expected: BLOCK_SIZE
        }))
    ));
}

#[test]
fn an_announcement_no_codec_serves_is_refused() {
    let mut announcement = hello(1, u16::MAX);
    announcement.parity_per_slice = u8::MAX;

    assert!(matches!(
        Session::new(5, &announcement, 0),
        Err(ProtoError::Fec(_))
    ));
}

#[test]
fn only_an_announcement_is_joined() {
    let (hello, answer) = join(Message::Hello(hello(9, 2)), 5).expect("an announcement");

    assert_eq!(hello.transfer_id, 9);
    assert_eq!(
        answer,
        Message::Join {
            transfer_id: 9,
            receiver_id: 5
        }
    );
    assert!(join(answer, 5).is_none());
    assert!(matches!(
        nothing_announced(),
        ProtoError::Timeout(text) if text == "Timed out listening for hello message"
    ));
}

#[test]
fn joins_again_until_something_arrives() {
    let mut session = session(2);
    let announcement = || Incoming::Control(Message::Hello(hello(1, 2)));

    assert_eq!(
        session.on_arrival(announcement(), 0).expect("answers"),
        vec![Message::Join {
            transfer_id: 1,
            receiver_id: 5
        }]
    );

    session.on_arrival(shard(0, 0, 0, 0), 0).expect("shard");

    assert!(session
        .on_arrival(announcement(), 0)
        .expect("answers")
        .is_empty());
}

#[test]
fn only_its_own_eviction_ends_a_session() {
    let mut session = session(2);
    let eviction = |target: u64| {
        Incoming::Control(Message::Evicted(Evicted {
            transfer_id: 1,
            target,
            reason: "too slow".to_string(),
        }))
    };

    assert!(session.on_arrival(eviction(6), 0).is_ok());
    assert!(matches!(
        session.on_arrival(eviction(5), 0),
        Err(ProtoError::Evicted(reason)) if reason == "too slow"
    ));
}

#[test]
fn asks_for_gaps_when_the_emit_floor_moves() {
    let mut session = session(2);
    assert!(session
        .on_arrival(shard(0, 0, 0, 0), 0)
        .expect("shard")
        .is_empty());

    let asked = session.on_arrival(shard(1, 0, 2, 1), 7).expect("shard");

    match &asked[..] {
        [Message::Nak(nak)] => {
            assert_eq!((nak.transfer_id, nak.receiver_id), (1, 5));
            assert_eq!(nak.slice_no, 0);
            assert_eq!(nak.missing, vec![1]);
        }
        other => panic!("expected one request, got {other:?}"),
    }
    assert!(session.request_gaps(7 + RENAK_INTERVAL - 1).is_empty());
    assert_eq!(session.request_gaps(7 + RENAK_INTERVAL).len(), 1);
}

#[test]
fn the_end_bounds_what_is_asked_for() {
    let mut session = session(2);

    let asked = session
        .on_arrival(done(3 * BLOCK_SIZE as u64, 3), 0)
        .expect("end");

    assert_eq!(asked.len(), 2);
    match &asked[1] {
        Message::Nak(nak) => assert_eq!((nak.slice_no, nak.missing.clone()), (1, vec![0])),
        other => panic!("expected a request, got {other:?}"),
    }
}

#[test]
fn counts_duplicates_and_latecomers_apart() {
    let mut session = session(1);
    session.on_arrival(shard(1, 0, 1, 0), 0).expect("shard");
    session.on_arrival(shard(1, 0, 2, 0), 0).expect("shard");
    session.on_arrival(shard(0, 0, 0, 0), 0).expect("shard");
    assert!(session.can_hand_over());
    assert_eq!(session.hand_over(0, Some(9)).expect("sink").len(), 2);
    session.on_arrival(shard(0, 0, 3, 0), 0).expect("shard");

    assert_eq!(
        session.summary(61_000_000_000),
        TransferSummary {
            total_bytes: 2 * BLOCK_SIZE as u64,
            total_blocks: 2,
            received: 4,
            expected: 4,
            duplicates: 1,
            late: 1,
            naks_sent: 0,
            duration: 61_000_000_000,
        }
    );
    assert_eq!(session.summary(61_000_000_000).took(), "1m01s");
}

#[test]
fn blocks_wait_while_the_sink_has_no_room() {
    let mut session = session(2);
    session.on_arrival(shard(0, 0, 0, 0), 0).expect("shard");
    session.on_arrival(shard(0, 1, 1, 0), 0).expect("shard");

    assert!(session.hand_over(5_000_000, Some(0)).expect("sink").is_empty());
    assert!(session.is_waiting());
    assert_eq!(session.hand_over(9_000_000, Some(1)).expect("sink").len(), 1);
    assert_eq!(session.hand_over(10_000_000, Some(9)).expect("sink").len(), 1);
    assert!(!session.is_waiting());

    match session.stats() {
        Message::Stats(stats) => {
            assert_eq!(stats.sink_stall_ms, 5);
            assert_eq!(stats.total_received, 2);
            assert_eq!(stats.total_expected, 2);
            assert_eq!(stats.next_needed_slice, 1);
        }
        other => panic!("expected a report, got {other:?}"),
    }
    match session.stats() {
        Message::Stats(stats) => assert_eq!(stats.sink_stall_ms, 0),
        other => panic!("expected a report, got {other:?}"),
    }
}

#[test]
fn a_closed_sink_ends_the_session_once_there_is_something_for_it() {
    let mut session = session(1);
    assert!(session.hand_over(0, None).expect("nothing to hand over").is_empty());

    session.on_arrival(shard(0, 0, 0, 0), 0).expect("shard");

    assert!(matches!(
        session.hand_over(0, None),
        Err(ProtoError::SinkClosed)
    ));
}

#[test]
fn the_block_offered_to_a_closed_sink_is_lost() {
    let mut session = session(3);
    for slot in 0..3 {
        session
            .on_arrival(shard(0, slot, slot as u32, 0), 0)
            .expect("shard");
    }

    assert!(session.hand_over(0, None).is_err());
    assert_eq!(
        session.hand_over(0, Some(9)).expect("sink"),
        vec![
            Bytes::from(vec![2; BLOCK_SIZE]),
            Bytes::from(vec![3; BLOCK_SIZE])
        ]
    );
    assert_eq!(session.summary(0).total_blocks, 2);
}

#[test]
fn what_left_and_what_waits_is_what_was_written() {
    let mut session = session(3);
    for slot in 0..3 {
        session
            .on_arrival(shard(0, slot, slot as u32, 0), 0)
            .expect("shard");
    }
    session
        .on_arrival(done(2 * BLOCK_SIZE as u64 + 5, 3), 0)
        .expect("end");

    let mut left = 0;
    for waiting in [2 * BLOCK_SIZE + 5 - BLOCK_SIZE, 5, 0] {
        for block in session.hand_over(0, Some(1)).expect("sink") {
            left += block.len();
        }
        assert_eq!(left + waiting, session.summary(0).total_bytes as usize);
    }
}

#[test]
fn the_last_block_is_cut_where_the_transfer_ends() {
    let mut session = session(2);
    session
        .on_arrival(done(BLOCK_SIZE as u64 + 10, 2), 0)
        .expect("end");
    session.on_arrival(shard(0, 0, 0, 0), 0).expect("shard");
    session.on_arrival(shard(0, 1, 1, 0), 0).expect("shard");

    let blocks = session.hand_over(0, Some(9)).expect("sink");

    assert_eq!(blocks[0], Bytes::from(vec![1; BLOCK_SIZE]));
    assert_eq!(blocks[1], Bytes::from(vec![2; 10]));
    assert!(session.is_assembled());
    assert!(session.is_over());
    assert!(session.check_byte_total().is_ok());
}

#[test]
fn silence_is_counted_from_the_last_arrival() {
    let mut session = session(2);

    assert_eq!(session.silence(0), SILENCE_TIMEOUT);
    session.heard(100);
    assert_eq!(session.silence(101), SILENCE_TIMEOUT - 1);
    assert_eq!(session.silence(u64::MAX), 0);

    assert!(matches!(
        session.went_silent(),
        ProtoError::SenderSilent {
            held: 0,
            total: None
        }
    ));
    session.on_arrival(done(1, 5), 0).expect("end");
    assert!(matches!(
        session.went_silent(),
        ProtoError::SenderSilent {
            held: 0,
            total: Some(3)
        }
    ));
}

#[test]
fn progress_is_reported_since_the_last_report() {
    let mut session = session(1);
    session.on_arrival(shard(0, 0, 0, 0), 0).expect("shard");
    session.hand_over(0, Some(9)).expect("sink");

    let (state, written, span) = session.report_progress(500);
    assert_eq!(state.received_bytes, BLOCK_SIZE as u64);
    assert_eq!(state.next_needed_slice, 1);
    assert_eq!(state.announced_bytes, None);
    assert_eq!((written, span), (BLOCK_SIZE as u64, 500));

    session.on_arrival(done(BLOCK_SIZE as u64, 1), 0).expect("end");
    let (state, written, span) = session.report_progress(700);
    assert_eq!(state.announced_bytes, Some(BLOCK_SIZE as u64));
    assert_eq!((written, span), (0, 200));
}

#[test]
fn leaves_by_name() {
    assert_eq!(
        session(1).farewell(),
        Message::Leave {
            transfer_id: 1,
            receiver_id: 5
        }
    );
}

#[test]
fn control_messages_are_taken_where_slots_cannot_be_counted() {
    let announced = Hello {
        block_size: NonZeroU32::new(2).expect("block size"),
        parity_per_slice: 128,
        ..hello(1, 65_408)
    };
    let mut session = Session::new(5, &announced, 0).expect("session");

    assert!(!session.can_count(&shard(0, 0, 0, 0)));
    let again = Incoming::Control(Message::Hello(announced));
    assert!(session.can_count(&again));
    let answers = session.on_arrival(again, 0).expect("arrival");
    assert!(matches!(
        answers.as_slice(),
        [Message::Join {
            transfer_id: 1,
            receiver_id: 5,
        }]
    ));
}

#[test]
fn what_arrives_in_the_usual_course_can_be_counted() {
    let session = session(2);

    assert!(session.can_count(&shard(0, 0, 0, 0)));
    assert!(session.can_count(&shard(0, 9, 0, 0)));
    assert!(session.can_count(&done(0, 0)));
    assert!(session.can_count(&Incoming::Control(Message::Hello(hello(1, 2)))));
}
