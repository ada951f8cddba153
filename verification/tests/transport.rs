use bytes::Bytes;
use scuttlecast::proto::{Done, Error, Frame, Message, CONTROL_TAG, HEADER_SIZE};
use scuttlecast::transport::{classify, split_read};
use scuttlecast::{Incoming, Losing};

fn shard(transfer_id: u32, seq: u32) -> Vec<u8> {
    let frame = Frame {
        slot: 1,
        slice_parity: 0,
        transfer_id,
        seq,
        slice_no: 2,
        emit_floor: 0,
        payload: Bytes::from_static(b"payload."),
    };
    [&frame.header()[..], &frame.payload[..]].concat()
}

fn done(transfer_id: u64) -> Vec<u8> {
    Message::Done(Done {
        transfer_id,
        total_bytes: 1,
        total_blocks: 1,
    })
    .encode()
    .expect("encodes")
}

fn sequence_numbers(arrived: &[Incoming]) -> Vec<u32> {
    arrived
        .iter()
        .map(|incoming| match incoming {
            Incoming::Shard(frame) => frame.seq,
            Incoming::Control(_) => panic!("expected shards"),
        })
        .collect()
}

fn nothing_lost() -> Losing<fn(&Incoming) -> bool> {
    Losing::default()
}

#[test]
fn tells_shards_from_control_messages() {
    assert!(matches!(
        classify(Bytes::from(shard(1, 0))),
        Ok(Incoming::Shard(_))
    ));
    assert!(matches!(
        classify(Bytes::from(done(1))),
        Ok(Incoming::Control(Message::Done(_)))
    ));
}

#[test]
fn says_why_a_datagram_is_refused() {
    assert!(matches!(
        classify(Bytes::new()),
        Err(Error::FrameTooShort(0))
    ));
    assert!(matches!(
        classify(Bytes::from(vec![0x10; HEADER_SIZE])),
        Err(Error::FrameTooShort(HEADER_SIZE))
    ));
    assert!(matches!(
        classify(Bytes::from(vec![0x77; HEADER_SIZE + 1])),
        Err(Error::UnknownTag(0x77))
    ));
    assert!(matches!(
        classify(Bytes::from(vec![CONTROL_TAG])),
        Err(Error::Decode(_))
    ));
}

#[test]
fn a_shard_belongs_to_every_transfer_with_its_low_bits() {
    let incoming = classify(Bytes::from(shard(7, 0))).expect("a shard");

    assert!(incoming.belongs_to(7));
    assert!(incoming.belongs_to(0x1_0000_0007));
    assert!(!incoming.belongs_to(8));

    let control = classify(Bytes::from(done(7))).expect("a message");
    assert!(control.belongs_to(7));
    assert!(!control.belongs_to(0x1_0000_0007));
}

#[test]
fn only_control_messages_of_the_transfer_are_heard() {
    let message = || classify(Bytes::from(done(7))).expect("a message");

    assert!(message().control_of(None).is_some());
    assert!(message().control_of(Some(7)).is_some());
    assert!(message().control_of(Some(8)).is_none());
    assert!(classify(Bytes::from(shard(7, 0)))
        .expect("a shard")
        .control_of(None)
        .is_none());
}

#[test]
fn a_read_is_cut_at_its_stride() {
    let read: Vec<u8> = [shard(7, 0), shard(9, 1), shard(7, 2)].concat();
    let stride = shard(7, 0).len();
    let mut out = Vec::new();

    split_read(
        Bytes::from(read),
        Some(stride),
        7,
        &nothing_lost(),
        &mut out,
    )
    .expect("reads");

    assert_eq!(sequence_numbers(&out), vec![0, 2]);
}

#[test]
fn a_read_without_a_stride_is_one_datagram() {
    let mut out = Vec::new();

    split_read(Bytes::from(shard(7, 5)), None, 7, &nothing_lost(), &mut out).expect("reads");
    split_read(
        Bytes::from(shard(7, 6)),
        Some(65000),
        7,
        &nothing_lost(),
        &mut out,
    )
    .expect("reads");

    assert_eq!(sequence_numbers(&out), vec![5, 6]);
}

#[test]
fn a_rule_swallows_what_it_holds_of() {
    let losing = Losing::every(|incoming: &Incoming| match incoming {
        Incoming::Shard(frame) => frame.seq % 2 == 0,
        Incoming::Control(_) => false,
    });
    let read: Vec<u8> = (0..5).flat_map(|seq| shard(7, seq)).collect();
    let stride = shard(7, 0).len();
    let mut out = Vec::new();

    split_read(Bytes::from(read), Some(stride), 7, &losing, &mut out).expect("reads");

    assert_eq!(sequence_numbers(&out), vec![1, 3]);
    assert!(losing.swallows(&classify(Bytes::from(shard(7, 4))).expect("a shard")));
    assert!(!nothing_lost().swallows(&classify(Bytes::from(shard(7, 4))).expect("a shard")));
}

#[test]
fn a_broken_datagram_in_a_read_is_an_error() {
    let mut read = [shard(7, 0), shard(7, 1)].concat();
    let stride = shard(7, 0).len();
    read[stride] = 0x55;
    let mut out = Vec::new();

    let result = split_read(
        Bytes::from(read),
        Some(stride),
        7,
        &nothing_lost(),
        &mut out,
    );

    assert!(matches!(result, Err(Error::UnknownTag(0x55))));
}
