use bytes::Bytes;
use reed_solomon_simd::ReedSolomonEncoder;
use scuttlecast::codec::CodecError;
use scuttlecast::nonzero::NonZeroU16;
use scuttlecast::receiver::assembler::{Assembler, Slice};

const BLOCK_SIZE: usize = scuttlecast::DEFAULT_BLOCK_SIZE as usize;

fn assembler(blocks_per_slice: u16, max_live_slices: u16) -> Assembler {
    fec_assembler(blocks_per_slice, 0, max_live_slices)
}

fn fec_assembler(
    blocks_per_slice: u16,
    parity_per_slice: u8,
    max_live_slices: u16,
) -> Assembler {
    Assembler::new(
        BLOCK_SIZE,
        NonZeroU16::new(blocks_per_slice).expect("blocks per slice"),
        parity_per_slice,
        NonZeroU16::new(max_live_slices).expect("max live slices"),
    )
    .expect("valid shard counts")
}

fn block(n: u8) -> Bytes {
    Bytes::from(vec![n])
}

fn fill(assembler: &mut Assembler, slice_no: u32, blocks: u16) {
    for block_in_slice in 0..blocks {
        assembler.insert(slice_no, block_in_slice, 0, block(block_in_slice as u8));
    }
}

fn shard(byte: u8) -> Vec<u8> {
    vec![byte; BLOCK_SIZE]
}

fn padded(bytes: &[u8]) -> Vec<u8> {
    let mut shard = vec![0u8; BLOCK_SIZE];
    shard[..bytes.len()].copy_from_slice(bytes);
    shard
}

fn parity_for(
    blocks_per_slice: usize,
    parity_per_slice: usize,
    data: &[Vec<u8>],
) -> Vec<Vec<u8>> {
    let mut codec =
        ReedSolomonEncoder::new(blocks_per_slice, parity_per_slice, BLOCK_SIZE).expect("codec");
    for shard in data {
        codec.add_original_shard(shard).expect("add shard");
    }

    let encoded = codec.encode().expect("encode");
    encoded.recovery_iter().map(<[u8]>::to_vec).collect()
}

#[test]
fn holds_a_slice_until_every_block_arrives() {
    let mut assembler = assembler(2, 8);

    assembler.insert(0, 1, 0, block(1));
    assert!(assembler.take_ready().is_empty());

    assembler.insert(0, 0, 0, block(0));

    assert_eq!(assembler.take_ready(), vec![block(0), block(1)]);
    assert_eq!(assembler.next_needed(), 1);
}

#[test]
fn holds_a_complete_slice_until_the_ones_below_it_are_done() {
    let mut assembler = assembler(2, 8);

    fill(&mut assembler, 1, 2);
    assert!(assembler.take_ready().is_empty());

    fill(&mut assembler, 0, 2);

    assert_eq!(assembler.take_ready().len(), 4);
    assert_eq!(assembler.next_needed(), 2);
}

#[test]
fn refuses_a_duplicate_block() {
    let mut assembler = assembler(2, 8);

    assert!(assembler.insert(0, 0, 0, block(0)));
    assert!(!assembler.insert(0, 0, 0, block(9)));
}

#[test]
fn keeps_the_block_it_stored_first() {
    let mut assembler = assembler(1, 8);

    assembler.insert(0, 0, 0, block(1));
    assembler.insert(0, 0, 0, block(2));

    assert_eq!(assembler.take_ready(), vec![block(1)]);
}

#[test]
fn refuses_blocks_of_slices_already_written_out() {
    let mut assembler = assembler(1, 8);
    fill(&mut assembler, 0, 1);
    assembler.take_ready();

    assert!(!assembler.insert(0, 0, 0, block(0)));
}

#[test]
fn refuses_blocks_too_far_ahead_to_buffer() {
    let mut assembler = assembler(2, 4);

    assert!(assembler.insert(3, 0, 0, block(0)));
    assert!(!assembler.insert(4, 0, 0, block(0)));
}

#[test]
fn refuses_a_block_outside_its_slice() {
    let mut assembler = assembler(2, 8);

    assert!(!assembler.insert(0, 2, 0, block(0)));
}

#[test]
fn a_short_final_slice_completes_once_done_reports_the_total() {
    let mut assembler = assembler(4, 8);
    fill(&mut assembler, 0, 4);
    fill(&mut assembler, 1, 2);
    assert_eq!(assembler.take_ready().len(), 4);

    assembler.on_done(6);

    assert_eq!(assembler.take_ready().len(), 2);
    assert!(assembler.is_finished());
}

#[test]
fn a_full_final_slice_needs_no_help_from_done() {
    let mut assembler = assembler(2, 8);
    fill(&mut assembler, 0, 2);

    assert_eq!(assembler.take_ready().len(), 2);
    assert!(!assembler.is_finished());

    assembler.on_done(2);

    assert!(assembler.is_finished());
}

#[test]
fn an_empty_transfer_is_finished_the_moment_done_arrives() {
    let mut assembler = assembler(2, 8);

    assembler.on_done(0);

    assert!(assembler.is_finished());
    assert!(assembler.take_ready().is_empty());
}

#[test]
fn reports_the_blocks_a_partial_slice_is_missing() {
    let mut assembler = assembler(4, 8);
    assembler.insert(0, 1, 0, block(1));

    assert_eq!(assembler.gaps(1), vec![(0, vec![0, 2, 3])]);
}

#[test]
fn reports_a_slice_nothing_arrived_for_as_wholly_missing() {
    let assembler = assembler(2, 8);

    assert_eq!(assembler.gaps(1), vec![(0, vec![0, 1])]);
}

#[test]
fn asks_for_nothing_above_the_emit_floor() {
    let assembler = assembler(2, 8);

    assert!(assembler.gaps(0).is_empty());
}

#[test]
fn asks_for_nothing_once_a_slice_is_whole() {
    let mut assembler = assembler(2, 8);
    fill(&mut assembler, 0, 2);

    assert!(assembler.gaps(1).is_empty());
}

#[test]
fn asks_for_the_final_slice_once_done_bounds_the_transfer() {
    let mut assembler = assembler(4, 8);
    fill(&mut assembler, 0, 4);
    assembler.take_ready();
    assembler.on_done(6);

    assert_eq!(assembler.gaps(1), vec![(1, vec![0, 1])]);
}

#[test]
fn asks_only_for_the_short_tail_of_the_final_slice() {
    let mut assembler = assembler(4, 8);
    fill(&mut assembler, 0, 4);
    assembler.take_ready();
    assembler.insert(1, 0, 0, block(0));
    assembler.on_done(6);

    assert_eq!(assembler.gaps(1), vec![(1, vec![1])]);
}

#[test]
fn reconstructs_a_missing_data_block_from_parity() {
    let data: Vec<Vec<u8>> = (0..3).map(shard).collect();
    let parity = parity_for(3, 2, &data);

    let mut assembler = fec_assembler(3, 2, 8);
    assembler.on_done(3);
    assembler.insert(0, 0, 0, Bytes::from(data[0].clone()));
    assembler.insert(0, 2, 0, Bytes::from(data[2].clone()));
    assembler.insert(0, 3, 2, Bytes::from(parity[0].clone()));
    let ready = assembler.take_ready();

    assert_eq!(
        ready,
        vec![
            Bytes::from(data[0].clone()),
            Bytes::from(data[1].clone()),
            Bytes::from(data[2].clone()),
        ]
    );
}

#[test]
fn refuses_a_shard_naming_a_different_parity_width() {
    let data: Vec<Vec<u8>> = (0..3).map(shard).collect();
    let parity = parity_for(3, 2, &data);

    let mut assembler = fec_assembler(3, 2, 8);
    assembler.on_done(3);

    assert!(assembler.insert(0, 0, 2, Bytes::from(data[0].clone())));
    assert!(!assembler.insert(0, 2, 1, Bytes::from(data[2].clone())));
    assert!(assembler.insert(0, 2, 2, Bytes::from(data[2].clone())));
    assert!(assembler.insert(0, 3, 2, Bytes::from(parity[0].clone())));

    let expected: Vec<Bytes> = data.iter().map(|b| Bytes::from(b.clone())).collect();
    assert_eq!(assembler.take_ready(), expected);
}

/// Recovery shards depend on how many of them a slice was encoded with,
/// so a slice sealed at one width has to be reconstructed against that
/// width and not against whatever the transfer allowed at its widest.
#[test]
fn reconstructs_slices_sealed_at_different_parity_widths() {
    let data: Vec<Vec<u8>> = (0..3).map(shard).collect();
    let wide = parity_for(3, 4, &data);
    let narrow = parity_for(3, 1, &data);

    let mut assembler = fec_assembler(3, 4, 8);
    assembler.on_done(6);

    for (slice_no, parity, width) in [(0, &wide, 4u8), (1, &narrow, 1u8)] {
        assembler.insert(slice_no, 0, width, Bytes::from(data[0].clone()));
        assembler.insert(slice_no, 2, width, Bytes::from(data[2].clone()));
        assembler.insert(slice_no, 3, width, Bytes::from(parity[0].clone()));
    }

    let ready = assembler.take_ready();
    let expected: Vec<Bytes> = data
        .iter()
        .chain(data.iter())
        .map(|block| Bytes::from(block.clone()))
        .collect();

    assert_eq!(ready, expected);
}

#[test]
fn a_slice_missing_more_than_the_parity_budget_is_not_recoverable() {
    let data: Vec<Vec<u8>> = (0..3).map(shard).collect();

    let mut assembler = fec_assembler(3, 2, 8);
    assembler.insert(0, 0, 0, Bytes::from(data[0].clone()));
    assembler.insert(0, 1, 0, Bytes::from(data[1].clone()));

    assert!(assembler.take_ready().is_empty());
}

#[test]
fn asks_only_for_the_shortfall_to_reach_recovery() {
    let mut assembler = fec_assembler(3, 2, 8);
    assembler.insert(0, 0, 0, block(0));
    assembler.insert(0, 1, 0, block(1));

    assert_eq!(assembler.gaps(1), vec![(0, vec![2])]);
}

#[test]
fn reconstructs_a_short_final_slice() {
    let block4 = shard(4);
    let block5 = vec![9u8; 500];
    let encode_data = vec![
        block4.clone(),
        padded(&block5),
        vec![0u8; BLOCK_SIZE],
        vec![0u8; BLOCK_SIZE],
    ];
    let parity = parity_for(4, 2, &encode_data);

    let mut assembler = fec_assembler(4, 2, 8);
    for slot in 0..4 {
        assembler.insert(0, slot, 0, Bytes::from(shard(slot as u8)));
    }
    assert_eq!(assembler.take_ready().len(), 4);

    assembler.on_done(6);
    assembler.insert(1, 0, 0, Bytes::from(block4.clone()));
    assembler.insert(1, 4, 2, Bytes::from(parity[0].clone()));

    let ready = assembler.take_ready();

    assert_eq!(ready.len(), 2);
    assert_eq!(ready[0], Bytes::from(block4));
    assert_eq!(ready[1], Bytes::from(padded(&block5)));
    assert!(assembler.is_finished());
}

#[test]
fn zero_parity_still_needs_every_data_block() {
    let mut assembler = fec_assembler(2, 0, 8);

    assembler.insert(0, 1, 0, block(1));
    assert!(assembler.take_ready().is_empty());

    assembler.insert(0, 0, 0, block(0));
    assert_eq!(assembler.take_ready(), vec![block(0), block(1)]);
}

#[test]
fn a_reconstructable_slice_waits_until_its_size_is_settled() {
    let data: Vec<Vec<u8>> = (0..3).map(shard).collect();
    let parity = parity_for(3, 2, &data);
    let mut assembler = fec_assembler(3, 2, 8);

    assembler.insert(0, 0, 0, Bytes::from(data[0].clone()));
    assembler.insert(0, 2, 0, Bytes::from(data[2].clone()));
    assembler.insert(0, 3, 2, Bytes::from(parity[0].clone()));

    assert!(assembler.take_ready().is_empty());

    assembler.on_done(3);

    assert_eq!(assembler.take_ready().len(), 3);
}

#[test]
fn a_slice_with_a_successor_is_written_without_waiting_for_done() {
    let mut assembler = fec_assembler(4, 2, 8);
    for slot in 0..4 {
        assembler.insert(0, slot, 0, block(slot as u8));
    }
    assembler.insert(1, 0, 0, block(9));

    assert_eq!(assembler.take_ready().len(), 4);
}

#[test]
fn parity_cannot_conjure_a_block_the_final_slice_never_held() {
    let data: Vec<Vec<u8>> = (0..3).map(shard).collect();
    let parity = parity_for(3, 2, &data);
    let mut assembler = fec_assembler(3, 2, 8);

    assembler.insert(0, 0, 0, Bytes::from(data[0].clone()));
    assembler.insert(0, 1, 0, Bytes::from(data[1].clone()));
    assembler.insert(0, 3, 2, Bytes::from(parity[0].clone()));
    assert!(assembler.take_ready().is_empty());

    assembler.on_done(2);

    assert_eq!(
        assembler.take_ready(),
        vec![Bytes::from(data[0].clone()), Bytes::from(data[1].clone())]
    );
}

#[test]
fn refuses_a_shard_budget_no_codec_serves() {
    let count = |n: u16| NonZeroU16::new(n).expect("nonzero");

    assert_eq!(
        Assembler::new(BLOCK_SIZE, count(u16::MAX), u8::MAX, count(8)).err(),
        Some(CodecError::UnsupportedShardCount {
            original_count: u16::MAX as usize,
            recovery_count: u8::MAX as usize
        })
    );
    assert_eq!(
        Assembler::new(1451, count(4), 2, count(8)).err(),
        Some(CodecError::InvalidShardSize { shard_bytes: 1451 })
    );
    assert!(Assembler::new(1451, count(4), 0, count(8)).is_ok());
}

#[test]
fn shards_that_make_no_code_word_are_not_taken() {
    let mut assembler = fec_assembler(3, 2, 8);
    assembler.on_done(3);
    assert!(assembler.is_takeable());

    assembler.insert(0, 0, 2, block(0));
    assembler.insert(0, 1, 2, block(1));
    assert!(assembler.is_takeable());
    assembler.insert(0, 3, 2, block(3));

    assert!(!assembler.is_takeable());
}

#[test]
fn restores_every_mixture_of_as_many_shards_as_a_slice_has_blocks() {
    let data: Vec<Vec<u8>> = (1..4).map(shard).collect();
    let parity = parity_for(3, 2, &data);
    let all: Vec<Vec<u8>> = data.iter().chain(parity.iter()).cloned().collect();
    let expected: Vec<Bytes> = data.iter().map(|block| Bytes::from(block.clone())).collect();

    for held in 0u8..32 {
        if held.count_ones() != 3 {
            continue;
        }
        let mut assembler = fec_assembler(3, 2, 8);
        assembler.on_done(3);
        for slot in 0..5u16 {
            if held & (1 << slot) != 0 {
                assembler.insert(0, slot, 2, Bytes::from(all[slot as usize].clone()));
            }
        }

        assert!(assembler.is_takeable());
        assert_eq!(assembler.take_ready(), expected, "from {held:05b}");
    }
}

#[test]
fn counts_slots_slices_and_what_is_live() {
    let mut assembler = fec_assembler(3, 2, 8);

    assert_eq!(assembler.total_slots(), 5);
    assert_eq!(assembler.live_slices(), 0);
    assert_eq!(assembler.total_slices(), None);

    assembler.insert(1, 0, 2, Bytes::from(shard(0)));
    assembler.on_done(7);

    assert_eq!(assembler.live_slices(), 1);
    assert_eq!(assembler.total_slices(), Some(3));
}

#[test]
fn a_short_slice_is_restored_from_any_of_its_shards() {
    let data: Vec<Vec<u8>> = vec![shard(3), shard(9)];
    let full = vec![data[0].clone(), data[1].clone(), shard(0)];
    let expected: Vec<Bytes> = data.iter().map(|block| Bytes::from(block.clone())).collect();
    let mut assembler = fec_assembler(3, 2, 8);

    for width in [2u8, 1, 2] {
        let parity = parity_for(3, width as usize, &full);
        let mut shards: Vec<(u16, &Vec<u8>)> = vec![(0, &data[0]), (1, &data[1])];
        for (index, shard) in parity.iter().enumerate() {
            shards.push((3 + index as u16, shard));
        }
        for first in 0..shards.len() {
            for second in 0..first {
                let mut slice = Slice::empty(5);
                for at in [first, second] {
                    let (slot, payload) = shards[at];
                    assert!(slice.insert(slot, width, Bytes::from(payload.clone())));
                }
                assert!(assembler.is_recoverable(&slice, 2));
                assert_eq!(assembler.recover(slice, 2), expected);
            }
        }
    }
    assert_eq!(assembler.next_needed(), 0);
}
