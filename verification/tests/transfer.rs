//! Whole transfers over a network in memory, with a clock that only these tests move.

use std::cell::{Cell, RefCell};
use std::collections::{HashMap, VecDeque};

use bytes::{Bytes, BytesMut};
use scuttlecast::error::ProtoError;
use scuttlecast::nonzero::{NonZeroU16, NonZeroU32, NonZeroUsize};
use scuttlecast::proto::{Done, Frame, Hello, Message};
use scuttlecast::receiver::session::{join, Session};
use scuttlecast::receiver::TransferSummary;
use scuttlecast::sender::sending::{Emission, Gathering, Plan, Sending, TICK_INTERVAL};
use scuttlecast::sender::slicer::blocks::next_block;
use scuttlecast::sender::slicer::channel::Outbound;
use scuttlecast::sender::slicer::Slicer;
use scuttlecast::time::{RENAK_INTERVAL, STATS_INTERVAL};
use scuttlecast::transport::{classify, split_read};
use scuttlecast::{Incoming, Losing, SILENCE_TIMEOUT};

const BLOCK_SIZE: usize = scuttlecast::DEFAULT_BLOCK_SIZE as usize;
const BLOCKS_PER_SLICE: usize = 32;
const TRANSFER_ID: u64 = 0x1234_5678_9abc_def0;
const STEP: u64 = 10_000_000;
const SHARDS_PER_STEP: usize = 100;

type Rule = Box<dyn Fn(&Incoming) -> bool>;

fn payload(len: usize) -> Vec<u8> {
    let mut state = 0x2545_f491_4f6c_dd1du64;
    (0..len)
        .map(|_| {
            state ^= state << 13;
            state ^= state >> 7;
            state ^= state << 17;
            (state >> 33) as u8
        })
        .collect()
}

fn plan() -> Plan {
    Plan {
        block_size: NonZeroU32::new(scuttlecast::DEFAULT_BLOCK_SIZE).expect("block size"),
        blocks_per_slice: NonZeroU16::new(32).expect("blocks per slice"),
        max_live_slices: NonZeroU16::new(2048).expect("max live slices"),
        parity_per_slice: 8,
        max_batch_segments: usize::MAX,
        min_receivers: 1,
        max_wait: 60_000_000_000,
    }
}

fn nothing_lost() -> Rule {
    Box::new(|_: &Incoming| false)
}

fn every_nth_block(step: u32, offset: u32) -> Rule {
    Box::new(move |incoming: &Incoming| match incoming {
        Incoming::Shard(frame) => frame.seq % step == offset,
        Incoming::Control(_) => false,
    })
}

/// Swallows each shard of a slice a fixed number of times, so that recovery needs
/// as many repairs.
fn slice_swallowed(slice_no: u32, times: usize) -> Rule {
    let swallowed: RefCell<HashMap<u16, usize>> = RefCell::new(HashMap::new());

    Box::new(move |incoming: &Incoming| match incoming {
        Incoming::Shard(frame) if frame.slice_no == slice_no => {
            let mut swallowed = swallowed.borrow_mut();
            let seen = swallowed.entry(frame.slot).or_default();
            *seen += 1;
            *seen <= times
        }
        _ => false,
    })
}

fn first_ends(count: usize) -> Rule {
    let seen = Cell::new(0usize);

    Box::new(move |incoming: &Incoming| {
        if !matches!(incoming, Incoming::Control(Message::Done(_))) {
            return false;
        }
        seen.set(seen.get() + 1);
        seen.get() <= count
    })
}

struct Participant {
    session: Session,
    losing: Losing<Rule>,
    inbox: VecDeque<(Vec<u8>, Option<usize>)>,
    room: usize,
    stalled_until: u64,
    written: Vec<u8>,
    summary: Option<TransferSummary>,
}

impl Participant {
    fn join(receiver_id: u64, hello: &Hello, rule: Rule) -> Participant {
        Participant {
            session: Session::new(receiver_id, hello, 0).expect("session"),
            losing: Losing::every(rule),
            inbox: VecDeque::new(),
            room: 256,
            stalled_until: 0,
            written: Vec::new(),
            summary: None,
        }
    }

    /// One turn of a receiver: what arrived, what is due, what the sink takes.
    fn turn(&mut self, now: u64) -> Vec<Message> {
        let mut answers = Vec::new();
        if self.summary.is_some() {
            return answers;
        }
        assert!(
            self.session.is_assembled() || self.session.silence(now) > 0,
            "the sender went silent"
        );
        while let Some((read, stride)) = self.inbox.pop_front() {
            let mut arrived = Vec::new();
            split_read(
                Bytes::from(read),
                stride,
                TRANSFER_ID,
                &self.losing,
                &mut arrived,
            )
            .expect("datagrams");
            if !arrived.is_empty() {
                self.session.heard(now);
            }
            for arrival in arrived {
                answers.extend(self.session.on_arrival(arrival, now).expect("arrival"));
            }
        }
        if now % STATS_INTERVAL == 0 {
            answers.push(self.session.stats());
            self.session.report_progress(now);
        }
        if now % RENAK_INTERVAL == 0 {
            answers.extend(self.session.request_gaps(now));
        }
        let room = if now < self.stalled_until { 0 } else { self.room };
        assert!(self.session.can_hand_over());
        for block in self.session.hand_over(now, Some(room)).expect("sink") {
            self.written.extend_from_slice(&block);
        }
        if self.session.is_over() {
            self.session.check_byte_total().expect("byte total");
            answers.push(self.session.stats());
            answers.push(self.session.farewell());
            self.summary = Some(self.session.summary(now));
        }
        answers
    }
}

fn broadcast(participants: &mut [Participant], read: &[u8], stride: Option<usize>) {
    if read.is_empty() {
        return;
    }
    for participant in participants {
        participant.inbox.push_back((read.to_vec(), stride));
    }
}

fn announce(participants: &mut [Participant], message: &Message) {
    broadcast(participants, &message.encode().expect("encodes"), None);
}

fn flush(sending: &mut Sending, participants: &mut [Participant]) {
    let stride = sending.segment_size();
    broadcast(participants, sending.filled(), Some(stride));
    sending.batch_sent();
}

fn gather(plan: &Plan, rules: Vec<Rule>) -> (Gathering, Vec<Participant>) {
    let datagram = plan
        .hello(TRANSFER_ID, None)
        .encode()
        .expect("announcement");
    let mut gathering = Gathering::new(rules.len(), plan.max_wait, 0);
    let mut participants = Vec::new();

    for (index, rule) in rules.into_iter().enumerate() {
        assert!(!gathering.has_enough());
        let heard = classify(Bytes::from(datagram.clone())).expect("announcement");
        let message = heard.control_of(None).expect("a control message");
        let (hello, answer) = join(message, index as u64 + 1).expect("an announcement");
        assert!(gathering.on_control(&answer));
        participants.push(Participant::join(index as u64 + 1, &hello, rule));
    }
    assert!(gathering.has_enough());

    (gathering, participants)
}

/// Sends the bytes and gives back what each receiver wrote, and how it went.
fn run(
    bytes: &[u8],
    plan: Plan,
    rules: Vec<Rule>,
    prepare: impl Fn(&mut Participant),
) -> Vec<(Vec<u8>, TransferSummary)> {
    let (gathering, mut participants) = gather(&plan, rules);
    for participant in &mut participants {
        prepare(participant);
    }

    let mut sending =
        Sending::new(&plan, TRANSFER_ID, None, gathering.into_group(), 0).expect("receivers");
    let mut slicer = Slicer::new(
        plan.block_size,
        plan.blocks_per_slice,
        plan.parity_per_slice,
        NonZeroUsize::new(plan.max_live_slices.get() as usize).expect("max live slices"),
    )
    .expect("slicer");
    let mut slab = BytesMut::from(bytes);
    let mut ended = false;
    let mut queue: VecDeque<Outbound> = VecDeque::new();
    let mut outcome = sending.outcome();
    let mut now = 0u64;

    while outcome.is_none() {
        now += STEP;
        while !ended && slicer.accepts_input() {
            match next_block(&mut slab, plan.block_size.get() as usize, true) {
                Some(block) => queue.extend(slicer.push(block)),
                None => {
                    ended = true;
                    queue.extend(slicer.finish());
                }
            }
        }

        for _ in 0..SHARDS_PER_STEP {
            let Some(outbound) = queue.pop_front() else {
                break;
            };
            assert!(sending.has_room());
            match sending.on_outbound(outbound, now) {
                Emission::Nothing => {}
                Emission::Batch => flush(&mut sending, &mut participants),
                Emission::BatchThen(message) => {
                    flush(&mut sending, &mut participants);
                    announce(&mut participants, &message);
                }
            }
        }
        flush(&mut sending, &mut participants);

        if now % TICK_INTERVAL == 0 {
            let tick = sending.on_tick(now);
            for message in &tick.messages {
                announce(&mut participants, message);
            }
        }
        assert_ne!(sending.drain_left(now), Some(0), "the transfer took too long");

        let answers: Vec<Message> = participants
            .iter_mut()
            .flat_map(|participant| participant.turn(now))
            .collect();
        for answer in answers {
            let datagram = Bytes::from(answer.encode().expect("encodes"));
            let heard = classify(datagram).expect("a datagram");
            let message = heard
                .control_of(Some(TRANSFER_ID))
                .expect("a message of the transfer");
            if let Some(feedback) = sending.on_control(message, now).feedback {
                let (outbound, over) = slicer.on_feedback(feedback);
                assert!(!over);
                queue.extend(outbound);
            }
            outcome = sending.outcome();
            if outcome.is_some() {
                break;
            }
        }
    }
    assert!(matches!(outcome, Some(Ok(()))), "{outcome:?}");
    while participants.iter().any(|participant| participant.summary.is_none()) {
        now += STEP;
        for participant in &mut participants {
            participant.turn(now);
        }
    }

    participants
        .into_iter()
        .map(|participant| {
            let summary = participant.summary.expect("the receiver finished");
            (participant.written, summary)
        })
        .collect()
}

fn transfer_with_loss(bytes: &[u8], rules: Vec<Rule>) -> Vec<Vec<u8>> {
    run(bytes, plan(), rules, |_| {})
        .into_iter()
        .map(|(written, _)| written)
        .collect()
}

fn transfer_to_file(bytes: &[u8]) -> Vec<u8> {
    transfer_with_loss(bytes, vec![nothing_lost()]).remove(0)
}

#[test]
fn transfers_empty_file() {
    let sent = payload(0);
    let received = transfer_to_file(&sent);
    assert!(received.is_empty());
}

#[test]
fn transfers_single_byte() {
    let sent = payload(1);
    let received = transfer_to_file(&sent);
    assert_eq!(received, sent);
}

#[test]
fn transfers_less_than_one_block() {
    let sent = payload(100);
    let received = transfer_to_file(&sent);
    assert_eq!(received, sent);
}

#[test]
fn transfers_one_byte_short_of_a_block() {
    let sent = payload(BLOCK_SIZE - 1);
    let received = transfer_to_file(&sent);
    assert_eq!(received, sent);
}

#[test]
fn transfers_exactly_one_block() {
    let sent = payload(BLOCK_SIZE);
    let received = transfer_to_file(&sent);
    assert_eq!(received, sent);
}

#[test]
fn transfers_exact_multiple_of_block_size() {
    let sent = payload(3 * BLOCK_SIZE);
    let received = transfer_to_file(&sent);
    assert_eq!(received, sent);
}

#[test]
fn transfers_exact_multiple_plus_one_byte() {
    let sent = payload(3 * BLOCK_SIZE + 1);
    let received = transfer_to_file(&sent);
    assert_eq!(received, sent);
}

#[test]
fn transfers_spanning_multiple_slices() {
    let sent = payload(40 * BLOCK_SIZE);
    let received = transfer_to_file(&sent);
    assert_eq!(received, sent);
}

#[test]
fn transfers_a_final_slice_parity_alone_could_fill() {
    let sent = payload(62 * BLOCK_SIZE + 500);
    let received = transfer_to_file(&sent);
    assert_eq!(received.len(), sent.len());
    assert_eq!(received, sent);
}

#[test]
fn both_receivers_get_the_whole_payload() {
    let sent = payload(5 * BLOCK_SIZE);
    let received = transfer_with_loss(&sent, vec![nothing_lost(), nothing_lost()]);
    assert_eq!(received, vec![sent.clone(), sent]);
}

#[test]
fn three_receivers_get_identical_payloads() {
    let sent = payload(10 * BLOCK_SIZE);
    let received = transfer_with_loss(
        &sent,
        vec![nothing_lost(), nothing_lost(), nothing_lost()],
    );
    assert_eq!(received, vec![sent.clone(), sent.clone(), sent]);
}

#[test]
fn streams_partial_final_block() {
    let sent = payload(3 * BLOCK_SIZE + 17);
    assert_eq!(transfer_to_file(&sent), sent);
}

#[test]
fn streams_more_blocks_than_the_channel_holds() {
    let sent = payload(512 * BLOCK_SIZE);
    let received = run(&sent, plan(), vec![nothing_lost()], |participant| {
        participant.room = 3;
    });
    assert_eq!(received[0].0, sent);
}

#[test]
fn survives_a_consumer_that_stops_reading_past_the_silence_timeout() {
    let sent = payload(1024 * BLOCK_SIZE);
    let windowed = Plan {
        max_live_slices: NonZeroU16::new(9).expect("nonzero window"),
        ..plan()
    };
    let received = run(&sent, windowed, vec![nothing_lost()], |participant| {
        participant.stalled_until = SILENCE_TIMEOUT + 3_000_000_000;
    });
    assert_eq!(received[0].0, sent);
}

#[test]
fn rejects_a_transfer_whose_done_overstates_the_byte_count() {
    let nonzero = |n: u16| NonZeroU16::new(n).expect("nonzero");
    let hello = Hello {
        transfer_id: 7,
        block_size: NonZeroU32::new(100).expect("nonzero"),
        blocks_per_slice: nonzero(32),
        parity_per_slice: 0,
        max_live_slices: nonzero(8),
        total_bytes: None,
    };
    let mut session = Session::new(1, &hello, 0).expect("session");

    session
        .on_arrival(
            Incoming::Shard(Frame {
                slot: 0,
                slice_parity: 0,
                transfer_id: 7,
                seq: 0,
                slice_no: 0,
                emit_floor: 0,
                payload: Bytes::from(vec![1; 100]),
            }),
            0,
        )
        .expect("shard");
    session
        .on_arrival(
            Incoming::Control(Message::Done(Done {
                transfer_id: 7,
                total_bytes: 999_999,
                total_blocks: 1,
            })),
            0,
        )
        .expect("end");
    session.hand_over(0, Some(256)).expect("sink");
    assert!(session.is_over());

    match session.check_byte_total() {
        Err(ProtoError::ByteCountMismatch { expected, received }) => {
            assert_eq!(expected, 999_999);
            assert_eq!(received, 100);
        }
        other => panic!("expected a byte count mismatch, got {other:?}"),
    }
}

#[test]
fn repairs_a_receiver_losing_a_fifth_of_the_blocks() {
    let sent = payload(3 * BLOCKS_PER_SLICE * BLOCK_SIZE);

    let received = transfer_with_loss(&sent, vec![every_nth_block(5, 0)]);

    assert_eq!(received, vec![sent]);
}

#[test]
fn repairs_three_receivers_losing_different_blocks() {
    let sent = payload(2 * BLOCKS_PER_SLICE * BLOCK_SIZE + 11);

    let received = transfer_with_loss(
        &sent,
        vec![
            every_nth_block(4, 0),
            every_nth_block(4, 1),
            every_nth_block(4, 2),
        ],
    );

    assert_eq!(received, vec![sent.clone(), sent.clone(), sent]);
}

#[test]
fn repairs_the_tail_when_the_repair_is_lost_too() {
    let sent = payload(2 * BLOCKS_PER_SLICE * BLOCK_SIZE + 7);

    let received = transfer_with_loss(&sent, vec![slice_swallowed(2, 2)]);

    assert_eq!(received, vec![sent]);
}

#[test]
fn finishes_when_the_first_announcements_of_the_end_are_lost() {
    let sent = payload(BLOCKS_PER_SLICE * BLOCK_SIZE + 3);

    let received = transfer_with_loss(&sent, vec![first_ends(3)]);

    assert_eq!(received, vec![sent]);
}

#[test]
fn repairs_a_gap_that_stalled_the_senders_window() {
    let sent = payload(6 * BLOCKS_PER_SLICE * BLOCK_SIZE);
    let windowed = Plan {
        max_live_slices: NonZeroU16::new(2).expect("nonzero window"),
        ..plan()
    };

    let received = run(&sent, windowed, vec![slice_swallowed(0, 2)], |_| {});

    assert_eq!(received[0].0, sent);
}

#[test]
fn serves_one_repair_for_a_loss_every_receiver_suffered() {
    let sent = payload(2 * BLOCKS_PER_SLICE * BLOCK_SIZE);
    let without_parity = Plan {
        parity_per_slice: 0,
        ..plan()
    };

    let received = run(
        &sent,
        without_parity,
        vec![
            every_nth_block(8, 0),
            every_nth_block(8, 0),
            every_nth_block(8, 0),
        ],
        |_| {},
    );

    for (_, summary) in received {
        assert_eq!(
            summary.duplicates, 0,
            "the same loss was repaired more than once: {summary:?}"
        );
        assert!(summary.naks_sent > 0, "nothing was repaired: {summary:?}");
    }
}

#[test]
fn recovers_from_parity_without_asking_for_anything() {
    let sent = payload(3 * BLOCKS_PER_SLICE * BLOCK_SIZE);

    let received = run(
        &sent,
        plan(),
        (0..3).map(|index| every_nth_block(8, index)).collect(),
        |_| {},
    );

    for (written, summary) in received {
        assert_eq!(
            summary.naks_sent, 0,
            "parity should have covered the loss: {summary:?}"
        );
        assert!(
            summary.received < summary.expected,
            "nothing was lost: {summary:?}"
        );
        assert_eq!(written, sent);
    }
}

#[test]
fn repeated_multi_megabyte_transfers() {
    let sent = payload(4 * 1024 * 1024);

    for round in 0..3 {
        let received = transfer_to_file(&sent);
        assert_eq!(received, sent, "round {round}");
    }
}

#[test]
fn multi_slice_transfer_to_three_receivers() {
    let sent = payload(40 * BLOCK_SIZE);
    let received = transfer_with_loss(
        &sent,
        vec![nothing_lost(), nothing_lost(), nothing_lost()],
    );
    assert_eq!(received, vec![sent.clone(), sent.clone(), sent]);
}

#[test]
fn multi_megabyte_transfer_to_three_receivers() {
    let sent = payload(4 * 1024 * 1024);
    let received = transfer_with_loss(
        &sent,
        vec![nothing_lost(), nothing_lost(), nothing_lost()],
    );
    assert_eq!(received, vec![sent.clone(), sent.clone(), sent]);
}

#[test]
fn repeated_multi_slice_transfers() {
    let sent = payload(40 * BLOCK_SIZE);

    for round in 0..5 {
        let received = transfer_to_file(&sent);
        assert_eq!(received.len(), sent.len(), "round {round} length");
        assert_eq!(received, sent, "round {round} contents");
    }
}

#[test]
fn streams_payload_to_a_channel() {
    let sent = payload(8 * BLOCK_SIZE);
    assert_eq!(transfer_to_file(&sent), sent);
}

#[test]
fn a_transfer_survives_datagrams_that_arrive_twice_and_in_reverse() {
    let sent = payload(70 * BLOCK_SIZE + 9);
    let plan = plan();
    let hello = match plan.hello(TRANSFER_ID, None) {
        Message::Hello(hello) => hello,
        other => panic!("expected an announcement, got {other:?}"),
    };
    let mut slicer = Slicer::new(
        plan.block_size,
        plan.blocks_per_slice,
        plan.parity_per_slice,
        NonZeroUsize::new(2048).expect("max live slices"),
    )
    .expect("slicer");
    let mut outbound = Vec::new();
    for block in sent.chunks(BLOCK_SIZE) {
        assert!(slicer.can_count(block.len()));
        outbound.extend(slicer.push(Bytes::copy_from_slice(block)));
    }
    outbound.extend(slicer.finish());

    let mut session = Session::new(1, &hello, 0).expect("session");
    let mut written = Vec::new();
    for _ in 0..2 {
        for message in outbound.iter().rev() {
            let arrival = match message {
                Outbound::Shard {
                    slice_no,
                    slot,
                    slice_parity,
                    emit_floor,
                    payload,
                } => Incoming::Shard(Frame {
                    slot: *slot,
                    slice_parity: *slice_parity,
                    transfer_id: TRANSFER_ID as u32,
                    seq: 0,
                    slice_no: *slice_no,
                    emit_floor: *emit_floor,
                    payload: payload.clone(),
                }),
                Outbound::Eof {
                    total_bytes,
                    total_blocks,
                } => Incoming::Control(Message::Done(Done {
                    transfer_id: TRANSFER_ID,
                    total_bytes: *total_bytes,
                    total_blocks: *total_blocks,
                })),
            };
            assert!(session.can_count(&arrival));
            session.on_arrival(arrival, 0).expect("arrival");
            assert!(session.can_hand_over());
            for block in session.hand_over(0, Some(256)).expect("sink") {
                written.extend_from_slice(&block);
            }
        }
    }

    assert!(session.is_over());
    assert!(session.check_byte_total().is_ok());
    assert_eq!(written, sent);
}
