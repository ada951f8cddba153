use bytes::Bytes;
use scuttlecast::proto::frame::segments_per_datagram;
use scuttlecast::proto::{Error, Frame, FrameBatch, CONTROL_TAG, FRAME_TAG, HEADER_SIZE};

const UNCAPPED: usize = usize::MAX;

fn frame(slot: u16, payload: Bytes) -> Frame {
    Frame {
        slot,
        slice_parity: 8,
        transfer_id: 0xdead_beef,
        seq: 0x0102_0304,
        slice_no: 9,
        emit_floor: 8,
        payload,
    }
}

fn datagram_of(frame: &Frame) -> Bytes {
    let mut datagram = vec![0u8; HEADER_SIZE + frame.payload.len()];
    datagram[..HEADER_SIZE].copy_from_slice(&frame.header());
    datagram[HEADER_SIZE..].copy_from_slice(&frame.payload);
    Bytes::from(datagram)
}

#[test]
fn rejects_a_datagram_carrying_no_payload() {
    assert!(matches!(
        Frame::parse(datagram_of(&frame(0, Bytes::new()))),
        Err(Error::FrameTooShort(HEADER_SIZE))
    ));
}

#[test]
fn rejects_a_control_datagram() {
    let mut datagram = vec![0u8; HEADER_SIZE + 4];
    datagram[0] = CONTROL_TAG;

    assert!(
        matches!(Frame::parse(Bytes::from(datagram)), Err(Error::UnknownTag(tag)) if tag == CONTROL_TAG)
    );
}

#[test]
fn a_shard_names_the_parity_its_slice_carries() {
    let staged = datagram_of(&frame(3, Bytes::from_static(b"payload")));

    assert_eq!(Frame::parse(staged).expect("parses").slice_parity, 8);
}

#[test]
fn a_batch_fills_the_largest_datagram_the_kernel_takes() {
    assert_eq!(segments_per_datagram(HEADER_SIZE + 1452), 44);
    assert_eq!(segments_per_datagram(HEADER_SIZE + 8952), 7);
    assert_eq!(segments_per_datagram(HEADER_SIZE + 100), 128);
    assert_eq!(segments_per_datagram(70_000), 1);
}

#[test]
fn staged_segments_parse_back_at_a_fixed_stride() {
    let mut batch = FrameBatch::new(8, UNCAPPED);
    let stride = batch.segment_size();

    for slot in 0..3u16 {
        batch.push(&frame(slot, Bytes::from(vec![slot as u8; 8])));
    }

    assert_eq!(batch.filled().len(), 3 * stride);

    let filled = Bytes::copy_from_slice(batch.filled());
    for slot in 0..3u16 {
        let at = slot as usize * stride;
        let parsed = Frame::parse(filled.slice(at..at + stride)).expect("parses");

        assert_eq!(parsed.slot, slot);
        assert_eq!(&parsed.payload[..], &[slot as u8; 8]);
    }
}

#[test]
fn a_batch_honours_a_lower_segment_cap() {
    assert_eq!(FrameBatch::new(1452, 8).capacity(), 8);
    assert_eq!(FrameBatch::new(1452, 0).capacity(), 1);
    assert_eq!(FrameBatch::new(1452, UNCAPPED).capacity(), 44);
}

#[test]
fn clearing_reuses_the_staging_buffer() {
    let mut batch = FrameBatch::new(4, UNCAPPED);
    while !batch.is_full() {
        batch.push(&frame(0, Bytes::from_static(b"abcd")));
    }

    batch.clear();

    assert!(batch.is_empty());
    assert_eq!(batch.capacity(), FrameBatch::new(4, UNCAPPED).capacity());
}

#[test]
fn a_narrowed_batch_is_full_sooner() {
    let mut batch = FrameBatch::new(4, UNCAPPED);
    batch.narrow_to(2);

    batch.push(&frame(0, Bytes::from_static(b"abcd")));
    assert!(!batch.is_full());
    batch.push(&frame(1, Bytes::from_static(b"abcd")));
    assert!(batch.is_full());

    batch.narrow_to(0);
    batch.clear();
    batch.push(&frame(0, Bytes::from_static(b"abcd")));
    assert!(batch.is_full());
    assert_eq!(batch.capacity(), 128);
}

#[test]
fn roundtrips_through_a_datagram() {
    for n in [0u32, 1, 255, 256, 0x1234_5678, u32::MAX] {
        let original = Frame {
            slot: n as u16,
            slice_parity: n as u8,
            transfer_id: n,
            seq: !n,
            slice_no: n.rotate_left(7),
            emit_floor: n / 3,
            payload: Bytes::from(vec![n as u8; 1 + n as usize % 63]),
        };

        let datagram = datagram_of(&original);

        assert_eq!(datagram.len(), HEADER_SIZE + original.payload.len());
        assert_eq!(Frame::parse(datagram).expect("parses"), original);
    }
}

#[test]
fn a_header_spells_its_fields_out_in_little_endian() {
    let header = frame(0x0302, Bytes::from_static(b"x")).header();

    assert_eq!(
        header,
        [
            FRAME_TAG, 8, 0x02, 0x03, 0xef, 0xbe, 0xad, 0xde, 0x04, 0x03, 0x02, 0x01, 9, 0, 0, 0,
            8, 0, 0, 0
        ]
    );
}
