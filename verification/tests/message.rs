use scuttlecast::nonzero::{NonZeroU16, NonZeroU32};
use scuttlecast::proto::{
    Done, Error, Evicted, Hello, Message, Nak, Stats, CONTROL_TAG, FRAME_TAG, MAX_CONTROL_SIZE,
};
use scuttlecast::wire::DecodeFault;

fn hello(total_bytes: Option<u64>) -> Hello {
    Hello {
        transfer_id: 0x0102_0304_0506_0708,
        block_size: NonZeroU32::new(1452).expect("block size"),
        blocks_per_slice: NonZeroU16::new(32).expect("blocks per slice"),
        parity_per_slice: 8,
        max_live_slices: NonZeroU16::new(2048).expect("max live slices"),
        total_bytes,
    }
}

fn messages() -> Vec<Message> {
    vec![
        Message::Hello(hello(None)),
        Message::Hello(hello(Some(250))),
        Message::Hello(hello(Some(251))),
        Message::Hello(hello(Some(u64::MAX))),
        Message::Join {
            transfer_id: 65535,
            receiver_id: 65536,
        },
        Message::Leave {
            transfer_id: u32::MAX as u64,
            receiver_id: u32::MAX as u64 + 1,
        },
        Message::Stats(Stats {
            transfer_id: 0,
            receiver_id: u64::MAX,
            total_received: 300,
            total_expected: 70_000,
            next_needed_slice: u32::MAX,
            sink_stall_ms: 1000,
        }),
        Message::Nak(Nak {
            transfer_id: 1,
            receiver_id: 2,
            slice_no: 3,
            missing: vec![0, 250, 251, 65535],
        }),
        Message::Nak(Nak {
            transfer_id: 1,
            receiver_id: 2,
            slice_no: 3,
            missing: Vec::new(),
        }),
        Message::Evicted(Evicted {
            transfer_id: 1,
            target: 2,
            reason: "fiel zur\u{fc}ck \u{1f980}".to_string(),
        }),
        Message::Done(Done {
            transfer_id: 1,
            total_bytes: 4 << 30,
            total_blocks: 3_000_000,
        }),
    ]
}

#[test]
fn refuses_to_read_a_shard_as_a_control_message() {
    assert!(
        matches!(Message::decode(&[FRAME_TAG, 0, 0, 0]), Err(Error::UnknownTag(tag)) if tag == FRAME_TAG)
    );
}

#[test]
fn refuses_an_empty_datagram() {
    assert!(matches!(Message::decode(&[]), Err(Error::FrameTooShort(0))));
}

#[test]
fn every_message_reads_back() {
    for message in messages() {
        let datagram = message.encode().expect("encodes");

        assert_eq!(datagram[0], CONTROL_TAG);
        assert_eq!(Message::decode(&datagram).expect("decodes"), message);
        assert_eq!(
            Message::decode(&datagram).expect("decodes").transfer_id(),
            message.transfer_id()
        );
    }
}

#[test]
fn what_follows_a_message_is_ignored() {
    let mut datagram = messages()[0].encode().expect("encodes");
    datagram.extend_from_slice(b"rest");

    assert_eq!(Message::decode(&datagram).expect("decodes"), messages()[0]);
}

#[test]
fn a_message_cut_short_is_refused() {
    for message in messages() {
        let datagram = message.encode().expect("encodes");
        for len in 1..datagram.len() {
            assert!(
                matches!(Message::decode(&datagram[..len]), Err(Error::Decode(_))),
                "{message:?} cut to {len}"
            );
        }
    }
}

#[test]
fn integers_take_as_few_bytes_as_bincode_gives_them() {
    let join = Message::Join {
        transfer_id: 250,
        receiver_id: 251,
    };

    assert_eq!(
        join.encode().expect("encodes"),
        vec![CONTROL_TAG, 1, 250, 251, 251, 0]
    );
    let leave = Message::Leave {
        transfer_id: 0x1_0000,
        receiver_id: 0x1_0000_0000,
    };
    assert_eq!(
        leave.encode().expect("encodes"),
        vec![CONTROL_TAG, 2, 252, 0, 0, 1, 0, 253, 0, 0, 0, 0, 1, 0, 0, 0]
    );
}

#[test]
fn a_kind_nobody_knows_is_refused() {
    assert!(matches!(
        Message::decode(&[CONTROL_TAG, 7]),
        Err(Error::Decode(DecodeFault::Kind(7)))
    ));
}

#[test]
fn an_announcement_of_empty_blocks_is_refused() {
    let mut datagram = Message::Hello(Hello {
        transfer_id: 1,
        block_size: NonZeroU32::new(1).expect("block size"),
        ..hello(None)
    })
    .encode()
    .expect("encodes");
    assert_eq!(datagram[3], 1);
    datagram[3] = 0;

    assert!(matches!(
        Message::decode(&datagram),
        Err(Error::Decode(DecodeFault::Zero))
    ));
}

#[test]
fn a_presence_that_is_neither_is_refused() {
    let mut datagram = Message::Hello(hello(None)).encode().expect("encodes");
    *datagram.last_mut().expect("a last byte") = 2;

    assert!(matches!(
        Message::decode(&datagram),
        Err(Error::Decode(DecodeFault::Presence(2)))
    ));
}

#[test]
fn text_that_is_none_is_refused() {
    let mut datagram = Message::Evicted(Evicted {
        transfer_id: 1,
        target: 2,
        reason: "ab".to_string(),
    })
    .encode()
    .expect("encodes");
    *datagram.last_mut().expect("a last byte") = 0xff;

    assert!(matches!(
        Message::decode(&datagram),
        Err(Error::Decode(DecodeFault::Text))
    ));
}

#[test]
fn a_list_longer_than_the_datagram_is_refused() {
    let bytes = [CONTROL_TAG, 4, 1, 2, 3, 253, 255, 255, 255, 255, 255, 255, 255, 255];

    assert!(matches!(Message::decode(&bytes), Err(Error::Decode(_))));
}

#[test]
fn an_integer_too_wide_for_its_field_is_refused() {
    let bytes = [CONTROL_TAG, 4, 1, 2, 253, 0, 0, 0, 0, 0, 0, 0, 1, 0];

    assert!(matches!(
        Message::decode(&bytes),
        Err(Error::Decode(DecodeFault::Field(_)))
    ));
}

#[test]
fn a_message_too_long_for_a_datagram_is_refused() {
    let nak = |shards: usize| {
        Message::Nak(Nak {
            transfer_id: 1,
            receiver_id: 2,
            slice_no: 3,
            missing: vec![0; shards],
        })
    };

    let fitting = MAX_CONTROL_SIZE - 8;
    assert_eq!(
        nak(fitting).encode().expect("encodes").len(),
        MAX_CONTROL_SIZE
    );
    assert!(matches!(
        nak(fitting + 1).encode(),
        Err(Error::Encode(_))
    ));
}

#[test]
fn encoding_into_a_buffer_leaves_its_rest_alone() {
    let mut buf = [0xaau8; 64];
    let message = Message::Join {
        transfer_id: 5,
        receiver_id: 6,
    };

    let len = message.encode_into(&mut buf).expect("encodes");

    assert_eq!(buf[..len], message.encode().expect("encodes")[..]);
    assert!(buf[len..].iter().all(|byte| *byte == 0xaa));
}

#[test]
fn what_is_cut_short_is_told_apart() {
    let reason = [CONTROL_TAG, 5, 1, 2, 5, b'g', b'o'];
    assert!(matches!(
        Message::decode(&reason),
        Err(Error::Decode(DecodeFault::Truncated))
    ));

    let marker = [CONTROL_TAG, 1, 1, 251, 0];
    assert!(matches!(
        Message::decode(&marker),
        Err(Error::Decode(DecodeFault::Field(_)))
    ));

    // A zero is found before what is missing behind it.
    let hello = [CONTROL_TAG, 0, 1, 0];
    assert!(matches!(
        Message::decode(&hello),
        Err(Error::Decode(DecodeFault::Zero))
    ));
}
