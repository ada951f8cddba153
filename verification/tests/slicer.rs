use bytes::Bytes;
use scuttlecast::nonzero::{NonZeroU16, NonZeroU32, NonZeroUsize};
use scuttlecast::sender::slicer::channel::{Feedback, Outbound};
use scuttlecast::sender::slicer::Slicer;

const BLOCK_SIZE: usize = scuttlecast::DEFAULT_BLOCK_SIZE as usize;

#[derive(Debug, PartialEq)]
enum Resent {
    Block(u32, u16),
    Parity(u32, u16),
}

fn fec_slicer(blocks_per_slice: u16, parity_per_slice: u8, max_live_slices: usize) -> Slicer {
    Slicer::new(
        NonZeroU32::new(scuttlecast::DEFAULT_BLOCK_SIZE).expect("block size"),
        NonZeroU16::new(blocks_per_slice).expect("blocks per slice"),
        parity_per_slice,
        NonZeroUsize::new(max_live_slices).expect("max live slices"),
    )
    .expect("slicer")
}

fn drive(slicer: &mut Slicer, input: &[u8]) -> Vec<Outbound> {
    let mut seen = Vec::new();
    for block in input.chunks(BLOCK_SIZE) {
        assert!(slicer.accepts_input());
        seen.extend(slicer.push(Bytes::copy_from_slice(block)));
    }
    seen.extend(slicer.finish());
    assert!(!slicer.accepts_input());
    seen
}

fn run(input: &[u8], blocks_per_slice: u16) -> Vec<Outbound> {
    fec_run(input, blocks_per_slice, 0)
}

fn fec_run(input: &[u8], blocks_per_slice: u16, parity_per_slice: u8) -> Vec<Outbound> {
    drive(
        &mut fec_slicer(blocks_per_slice, parity_per_slice, 32),
        input,
    )
}

/// Makes the requests once the whole input has been sent, and collects the shards
/// that are sent afterwards.
fn resent_shards(
    input: &[u8],
    blocks_per_slice: u16,
    parity_per_slice: u8,
    requests: Vec<Feedback>,
) -> Vec<Resent> {
    let mut slicer = fec_slicer(blocks_per_slice, parity_per_slice, 32);
    drive(&mut slicer, input);

    let mut resent = Vec::new();
    for request in requests {
        let (outbound, over) = slicer.on_feedback(request);
        assert!(!over);
        for message in outbound {
            match message {
                Outbound::Shard { slice_no, slot, .. } if slot < blocks_per_slice => {
                    resent.push(Resent::Block(slice_no, slot));
                }
                Outbound::Shard { slice_no, slot, .. } => {
                    resent.push(Resent::Parity(slice_no, slot - blocks_per_slice));
                }
                Outbound::Eof { .. } => panic!("the end was sent before"),
            }
        }
    }
    resent
}

fn resent_blocks(input: &[u8], blocks_per_slice: u16, requests: Vec<Feedback>) -> Vec<(u32, u16)> {
    resent_shards(input, blocks_per_slice, 0, requests)
        .into_iter()
        .map(|shard| match shard {
            Resent::Block(slice_no, block_in_slice) => (slice_no, block_in_slice),
            Resent::Parity(slice_no, parity_index) => (slice_no, parity_index),
        })
        .collect()
}

fn totals(messages: &[Outbound]) -> (u64, u64) {
    match messages.last() {
        Some(Outbound::Eof {
            total_bytes,
            total_blocks,
        }) => (*total_bytes, *total_blocks),
        _ => panic!("expected the last message to be Eof"),
    }
}

fn coordinates(messages: &[Outbound], blocks_per_slice: u16) -> Vec<(u32, u16)> {
    messages
        .iter()
        .filter_map(|message| match message {
            Outbound::Shard { slice_no, slot, .. } if *slot < blocks_per_slice => {
                Some((*slice_no, *slot))
            }
            _ => None,
        })
        .collect()
}

fn parity(messages: &[Outbound], blocks_per_slice: u16) -> Vec<(u32, u16)> {
    messages
        .iter()
        .filter_map(|message| match message {
            Outbound::Shard { slice_no, slot, .. } if *slot >= blocks_per_slice => {
                Some((*slice_no, *slot - blocks_per_slice))
            }
            _ => None,
        })
        .collect()
}

fn floor_of(messages: &[Outbound], slice: u32, slot: u16) -> u32 {
    messages
        .iter()
        .find_map(|message| match message {
            Outbound::Shard {
                slice_no,
                slot: at,
                emit_floor,
                ..
            } if *slice_no == slice && *at == slot => Some(*emit_floor),
            _ => None,
        })
        .expect("shard present")
}

#[test]
fn reports_eof_when_the_last_slice_lands_exactly_full() {
    let messages = run(&vec![7u8; 4 * BLOCK_SIZE], 2);

    assert_eq!(totals(&messages), (4 * BLOCK_SIZE as u64, 4));
    assert_eq!(
        coordinates(&messages, 2),
        vec![(0, 0), (0, 1), (1, 0), (1, 1)]
    );
}

#[test]
fn reports_eof_for_a_partial_final_slice() {
    let messages = run(&vec![7u8; 3 * BLOCK_SIZE + 17], 2);

    assert_eq!(totals(&messages), (3 * BLOCK_SIZE as u64 + 17, 4));
}

#[test]
fn a_partial_final_block_goes_out_padded_to_full_width() {
    let messages = run(&vec![7u8; 3 * BLOCK_SIZE + 17], 2);

    let widths: Vec<usize> = messages
        .iter()
        .filter_map(|message| match message {
            Outbound::Shard { payload, .. } => Some(payload.len()),
            Outbound::Eof { .. } => None,
        })
        .collect();

    assert_eq!(widths, vec![BLOCK_SIZE; 4]);
    assert_eq!(totals(&messages), (3 * BLOCK_SIZE as u64 + 17, 4));
}

#[test]
fn reports_eof_for_empty_input() {
    let messages = run(&[], 2);

    assert!(coordinates(&messages, 2).is_empty());
    assert_eq!(totals(&messages), (0, 0));
}

#[test]
fn resends_requested_blocks_and_ignores_the_rest() {
    let resent = resent_blocks(
        &vec![7u8; 2 * BLOCK_SIZE],
        2,
        vec![Feedback::Resend {
            slice_no: 0,
            blocks: vec![1, 9],
        }],
    );

    assert_eq!(resent, vec![(0, 1)]);
}

#[test]
fn resends_blocks_of_a_short_final_slice() {
    let resent = resent_blocks(
        &vec![7u8; 3 * BLOCK_SIZE],
        2,
        vec![Feedback::Resend {
            slice_no: 1,
            blocks: vec![0],
        }],
    );

    assert_eq!(resent, vec![(1, 0)]);
}

#[test]
fn a_slice_nobody_needs_is_no_longer_resent() {
    let resent = resent_blocks(
        &vec![7u8; 2 * BLOCK_SIZE],
        2,
        vec![
            Feedback::Needed(1),
            Feedback::Resend {
                slice_no: 0,
                blocks: vec![0],
            },
        ],
    );

    assert!(resent.is_empty(), "{resent:?}");
}

#[test]
fn queues_a_parity_shard_per_configured_shard_after_a_slice() {
    let messages = fec_run(&vec![7u8; 2 * BLOCK_SIZE], 2, 3);

    assert_eq!(parity(&messages, 2), vec![(0, 0), (0, 1), (0, 2)]);
}

#[test]
fn a_zero_parity_transfer_queues_no_parity() {
    let messages = fec_run(&vec![7u8; 2 * BLOCK_SIZE], 2, 0);

    assert!(parity(&messages, 2).is_empty());
}

#[test]
fn the_emit_floor_advances_only_after_a_slices_parity() {
    let messages = fec_run(&vec![7u8; 3 * BLOCK_SIZE], 2, 1);

    assert_eq!(floor_of(&messages, 0, 1), 0);
    assert_eq!(floor_of(&messages, 0, 2), 0);
    assert_eq!(floor_of(&messages, 1, 0), 1);
}

#[test]
fn resends_a_parity_shard_by_its_slot() {
    let resent = resent_shards(
        &vec![7u8; 2 * BLOCK_SIZE],
        2,
        2,
        vec![Feedback::Resend {
            slice_no: 0,
            blocks: vec![3, 0],
        }],
    );

    assert_eq!(resent, vec![Resent::Parity(0, 1), Resent::Block(0, 0)]);
}

#[test]
fn input_waits_while_the_window_is_full() {
    let mut slicer = fec_slicer(1, 0, 2);

    slicer.push(Bytes::from(vec![1; BLOCK_SIZE]));
    assert!(slicer.accepts_input());
    slicer.push(Bytes::from(vec![2; BLOCK_SIZE]));
    assert!(!slicer.accepts_input());

    slicer.on_feedback(Feedback::Needed(1));

    assert!(slicer.accepts_input());
}

#[test]
fn a_padded_block_keeps_its_bytes_and_ends_in_zeros() {
    let messages = run(&[7, 8, 9], 2);

    match &messages[0] {
        Outbound::Shard { payload, .. } => {
            assert_eq!(&payload[..3], &[7, 8, 9]);
            assert!(payload[3..].iter().all(|byte| *byte == 0));
        }
        Outbound::Eof { .. } => panic!("expected a shard"),
    }
}

#[test]
fn the_end_of_the_transfer_ends_the_slicer() {
    let mut slicer = fec_slicer(2, 0, 32);

    let (outbound, over) = slicer.on_feedback(Feedback::Done);

    assert!(outbound.is_empty());
    assert!(over);
}

#[test]
fn coverage_changes_with_the_next_slice() {
    let mut slicer = fec_slicer(1, 3, 32);
    slicer.on_feedback(Feedback::Cover(1));

    assert_eq!(slicer.push(Bytes::from(vec![1; BLOCK_SIZE])).len(), 1 + 3);
    assert_eq!(slicer.push(Bytes::from(vec![1; BLOCK_SIZE])).len(), 1 + 1);
}

#[test]
fn the_floor_never_falls_and_starts_with_the_slice() {
    let mut slicer = fec_slicer(2, 1, 32);
    let mut messages = Vec::new();
    for byte in 0..5u8 {
        messages.extend(slicer.push(Bytes::from(vec![byte; BLOCK_SIZE])));
        messages.extend(
            slicer
                .on_feedback(Feedback::Resend {
                    slice_no: 0,
                    blocks: vec![0, 2],
                })
                .0,
        );
    }
    messages.extend(slicer.finish());

    let mut seen: Vec<(u32, u16)> = Vec::new();
    let mut floor = 0;
    for message in &messages {
        if let Outbound::Shard {
            slice_no,
            slot,
            emit_floor,
            payload,
            ..
        } = message
        {
            assert_eq!(payload.len(), BLOCK_SIZE);
            assert!(*emit_floor >= floor);
            floor = *emit_floor;
            for slice in 0..*emit_floor {
                for at in 0..3 {
                    assert!(seen.contains(&(slice, at)), "{slice} {at}");
                }
            }
            if !seen.contains(&(*slice_no, *slot)) {
                assert_eq!(*emit_floor, *slice_no);
                seen.push((*slice_no, *slot));
            }
        }
    }
    assert_eq!(seen.len(), 8);
}
