use bytes::Bytes;
use scuttlecast::block_proto::{
    Data, Done, Error, Hello, Message, Nack, Parity, Payload, Stats,
};
use scuttlecast::wire::DecodeFault;

fn data(slice_no: u32, block_in_slice: u16) -> Data {
    Data {
        transfer_id: 0,
        slice_no,
        block_in_slice,
        payload: Payload::from(Bytes::new()),
    }
}

#[test]
fn largest_coordinates_do_not_overflow() {
    let blocks_per_slice = u16::MAX as u32;
    let block_in_slice = u16::MAX - 1;
    let expected = u32::MAX as u64 * blocks_per_slice as u64 + block_in_slice as u64;

    assert_eq!(
        data(u32::MAX, block_in_slice)
            .block_no(blocks_per_slice)
            .unwrap(),
        expected
    );
}

#[test]
fn rejects_zero_blocks_per_slice() {
    assert!(matches!(
        data(0, 0).block_no(0),
        Err(Error::ZeroBlocksPerSlice)
    ));
}

#[test]
fn rejects_block_index_outside_its_slice() {
    assert!(matches!(
        data(0, 32).block_no(32),
        Err(Error::BlockOutsideSlice {
            block_in_slice: 32,
            blocks_per_slice: 32
        })
    ));
}

#[test]
fn a_block_number_comes_back_from_its_coordinates() {
    for block_no in [0u32, 1, 31, 32, 33, 1_000_000, u32::MAX] {
        for blocks_per_slice in [1u32, 2, 32, u16::MAX as u32] {
            let data = data(
                Data::slice_no(block_no, blocks_per_slice),
                Data::block_in_slice(block_no, blocks_per_slice),
            );

            assert_eq!(data.block_no(blocks_per_slice).unwrap(), block_no as u64);
        }
    }
}

fn messages() -> Vec<Message> {
    vec![
        Message::Hello(Hello {
            transfer_id: 7,
            blocks_per_slice: 32,
        }),
        Message::Join(251),
        Message::Leave(u64::MAX),
        Message::Data(Data {
            transfer_id: 7,
            slice_no: 300,
            block_in_slice: 5,
            payload: Payload::from(Bytes::from_static(b"payload")),
        }),
        Message::Parity(Parity {
            transfer_id: 7,
            slice_no: 300,
            parity_index: 1,
            payload: Payload::from(Bytes::from(vec![9; 300])),
        }),
        Message::Stats(Stats {
            transfer_id: 7,
            receiver_id: 8,
            blocks_received: 9,
            blocks_expected: 10,
            completed_through: Some(70_000),
        }),
        Message::Stats(Stats {
            transfer_id: 7,
            receiver_id: 8,
            blocks_received: 9,
            blocks_expected: 10,
            completed_through: None,
        }),
        Message::Nack(Nack {
            transfer_id: 7,
            receiver_id: 8,
            slice_no: 9,
            missing: vec![1, 2, 300],
        }),
        Message::Done(Done {
            transfer_id: 7,
            total_bytes: 1 << 40,
            total_blocks: 1 << 30,
        }),
    ]
}

#[test]
fn every_block_message_reads_back() {
    for message in messages() {
        let datagram = message.encode().expect("encodes");

        assert_eq!(Message::decode(&datagram).expect("decodes"), message);
    }
}

#[test]
fn block_messages_name_their_transfer() {
    assert_eq!(messages()[0].transfer_id(), 7);
    assert_eq!(messages()[1].transfer_id(), 251);
    assert_eq!(messages()[8].transfer_id(), 7);
}

#[test]
fn block_messages_cut_short_are_refused() {
    for message in messages() {
        let datagram = message.encode().expect("encodes");
        for len in 0..datagram.len() {
            assert!(matches!(
                Message::decode(&datagram[..len]),
                Err(Error::Decode(_))
            ));
        }
    }
    assert!(matches!(
        Message::decode(&[8]),
        Err(Error::Decode(DecodeFault::Kind(8)))
    ));
}

#[test]
fn a_payload_is_written_with_its_length_before_it() {
    let datagram = messages()[3].encode().expect("encodes");

    assert_eq!(
        datagram,
        [&[3u8, 7, 251, 44, 1, 5, 7][..], &b"payload"[..]].concat()
    );
    assert_eq!(
        messages()[3].clone().encode().expect("encodes"),
        datagram
    );
}
