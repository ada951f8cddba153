use bytes::Bytes;
use reed_solomon_simd::ReedSolomonEncoder;
use scuttlecast::nonzero::{NonZeroU16, NonZeroUsize};
use scuttlecast::sender::slicer::window::{Pushed, Sealed, Window};

const BLOCK_SIZE: usize = scuttlecast::DEFAULT_BLOCK_SIZE as usize;

fn window(blocks_per_slice: u16, max_live_slices: usize) -> Window {
    fec_window(blocks_per_slice, 0, max_live_slices)
}

fn fec_window(blocks_per_slice: u16, parity_per_slice: u8, max_live_slices: usize) -> Window {
    Window::new(
        BLOCK_SIZE,
        NonZeroU16::new(blocks_per_slice).expect("blocks per slice"),
        parity_per_slice,
        NonZeroUsize::new(max_live_slices).expect("max live slices"),
    )
    .expect("window")
}

fn push(window: &mut Window, count: usize) -> Vec<(u32, u16)> {
    (0..count)
        .map(|n| {
            let Pushed {
                slice_no,
                block_in_slice,
                ..
            } = window.push(Bytes::from(vec![n as u8]));
            (slice_no, block_in_slice)
        })
        .collect()
}

fn full_block(byte: u8) -> Bytes {
    Bytes::from(vec![byte; BLOCK_SIZE])
}

#[test]
fn numbers_blocks_within_their_slice() {
    let mut window = window(2, 8);

    assert_eq!(
        push(&mut window, 5),
        vec![(0, 0), (0, 1), (1, 0), (1, 1), (2, 0)]
    );
}

#[test]
fn fills_up_once_max_live_slices_are_sealed() {
    let mut window = window(2, 2);
    assert!(!window.is_full());

    push(&mut window, 3);
    assert!(!window.is_full());

    push(&mut window, 1);

    assert!(window.is_full());
}

#[test]
fn a_partial_slice_does_not_count_against_the_limit() {
    let mut window = window(4, 1);

    push(&mut window, 3);

    assert!(!window.is_full());
}

#[test]
fn serves_blocks_of_the_slice_still_being_filled() {
    let mut window = window(4, 8);

    push(&mut window, 2);

    assert_eq!(window.shard(0, 1), Some(&Bytes::from(vec![1])));
}

#[test]
fn serves_blocks_of_sealed_slices() {
    let mut window = window(2, 8);

    push(&mut window, 4);

    assert_eq!(window.shard(0, 0), Some(&Bytes::from(vec![0])));
    assert_eq!(window.shard(1, 1), Some(&Bytes::from(vec![3])));
}

#[test]
fn has_no_block_beyond_a_slice() {
    let mut window = window(2, 8);

    push(&mut window, 2);

    assert_eq!(window.shard(0, 2), None);
    assert_eq!(window.shard(7, 0), None);
}

#[test]
fn retaining_drops_every_slice_below_the_one_needed() {
    let mut window = window(2, 8);
    push(&mut window, 6);

    window.retain_from(2);

    assert_eq!(window.shard(0, 0), None);
    assert_eq!(window.shard(1, 0), None);
    assert_eq!(window.shard(2, 0), Some(&Bytes::from(vec![4])));
}

#[test]
fn retaining_frees_room_for_more_slices() {
    let mut window = window(2, 2);
    push(&mut window, 4);
    assert!(window.is_full());

    window.retain_from(1);

    assert!(!window.is_full());
}

#[test]
fn sealing_a_short_final_slice_keeps_it_servable() {
    let mut window = window(4, 8);
    push(&mut window, 2);

    window.seal();

    assert_eq!(window.shard(0, 1), Some(&Bytes::from(vec![1])));
}

#[test]
fn sealing_an_empty_slice_does_nothing() {
    let mut window = window(2, 1);

    window.seal();
    window.seal();

    assert!(!window.is_full());
    assert_eq!(push(&mut window, 1), vec![(0, 0)]);
}

#[test]
fn a_full_slice_produces_a_parity_shard_per_configured_shard() {
    let mut window = fec_window(2, 3, 8);
    window.push(full_block(1));
    let sealed = window.push(full_block(2)).sealed.expect("sealed");

    assert_eq!(sealed.slice_no, 0);
    assert_eq!(sealed.parity.len(), 3);
    assert!(sealed.parity.iter().all(|shard| shard.len() == BLOCK_SIZE));
}

#[test]
fn serves_parity_shards_by_their_slot() {
    let mut window = fec_window(2, 2, 8);
    window.push(full_block(5));
    let sealed = window.push(full_block(6)).sealed.expect("sealed");

    assert_eq!(window.shard(0, 2), Some(&sealed.parity[0]));
    assert_eq!(window.shard(0, 3), Some(&sealed.parity[1]));
}

#[test]
fn a_slice_short_of_blocks_still_produces_full_length_parity() {
    let mut window = fec_window(4, 2, 8);
    window.push(full_block(1));
    window.push(full_block(2));

    let sealed = window.seal().expect("sealed");

    assert_eq!(sealed.parity.len(), 2);
    assert!(sealed.parity.iter().all(|shard| shard.len() == BLOCK_SIZE));
}

#[test]
fn rejects_a_shard_budget_the_codec_cannot_serve() {
    let result = Window::new(
        BLOCK_SIZE,
        NonZeroU16::new(u16::MAX).expect("blocks per slice"),
        u8::MAX,
        NonZeroUsize::new(8).expect("max live slices"),
    );

    assert!(result.is_err());
}

#[test]
fn zero_parity_produces_no_parity() {
    let mut window = fec_window(2, 0, 8);
    window.push(full_block(7));
    let sealed = window.push(full_block(8)).sealed.expect("sealed");

    assert!(sealed.parity.is_empty());
    assert_eq!(window.shard(0, 2), None);
}

fn seal_two_slices(window: &mut Window) -> (Sealed, Sealed) {
    window.push(full_block(1));
    let first = window.push(full_block(2)).sealed.expect("first sealed");
    window.push(full_block(3));
    let second = window.push(full_block(4)).sealed.expect("second sealed");

    (first, second)
}

#[test]
fn covering_less_takes_effect_on_the_slice_after_the_one_being_filled() {
    let mut window = fec_window(2, 4, 8);
    window.cover(1);

    let (first, second) = seal_two_slices(&mut window);

    assert_eq!(first.parity.len(), 4);
    assert_eq!(second.parity.len(), 1);
}

#[test]
fn covering_more_than_the_transfer_announced_is_capped() {
    let mut window = fec_window(2, 2, 8);
    window.cover(50);

    let (_, second) = seal_two_slices(&mut window);

    assert_eq!(second.parity.len(), 2);
}

#[test]
fn covering_nothing_stops_parity_without_disturbing_the_slices() {
    let mut window = fec_window(2, 2, 8);
    window.cover(0);

    let (first, second) = seal_two_slices(&mut window);

    assert_eq!(first.parity.len(), 2);
    assert!(second.parity.is_empty());
    assert_eq!(window.shard(0, 0), Some(&full_block(1)));
}

#[test]
fn every_shard_of_a_slice_names_the_width_the_slice_was_created_with() {
    let mut window = fec_window(2, 4, 8);
    window.cover(1);

    assert_eq!(window.current_parity(), 4);
    seal_two_slices(&mut window);

    assert_eq!(window.slice_parity(0), Some(4));
    assert_eq!(window.slice_parity(1), Some(1));
    assert_eq!(window.slice_parity(9), None);
}

#[test]
fn parity_is_what_the_codec_makes_of_the_slice() {
    let mut window = fec_window(3, 2, 8);
    window.push(full_block(5));
    window.push(full_block(6));
    let sealed = window.seal().expect("sealed");

    let mut codec = ReedSolomonEncoder::new(3, 2, BLOCK_SIZE).expect("codec");
    for byte in [5u8, 6, 0] {
        codec
            .add_original_shard(vec![byte; BLOCK_SIZE])
            .expect("add shard");
    }
    let encoded = codec.encode().expect("encode");
    let expected: Vec<Bytes> = encoded
        .recovery_iter()
        .map(Bytes::copy_from_slice)
        .collect();

    assert_eq!(sealed.parity, expected);
}

#[test]
fn the_codec_serves_widths_that_go_up_and_down() {
    let mut window = fec_window(1, 4, 16);
    let mut widths = Vec::new();

    for wanted in [1u8, 3, 0, 4, 2] {
        window.cover(wanted);
        let sealed = window.push(full_block(wanted)).sealed.expect("sealed");
        widths.push(sealed.parity.len());
    }

    assert_eq!(widths, vec![4, 1, 3, 0, 4]);
}

#[test]
fn blocks_are_served_where_their_numbers_tell() {
    let mut window = fec_window(3, 2, 8);
    for n in 0..10u8 {
        let pushed = window.push(full_block(n));
        assert_eq!(pushed.slice_no, n as u32 / 3);
        assert_eq!(pushed.block_in_slice, n as u16 % 3);
        assert_eq!(pushed.sealed.is_some(), (n + 1) % 3 == 0);
        if let Some(sealed) = pushed.sealed {
            assert_eq!(sealed.slice_no, n as u32 / 3);
            assert_eq!(sealed.parity.len(), 2);
            assert!(sealed.parity.iter().all(|shard| shard.len() == BLOCK_SIZE));
        }
        for m in 0..=n {
            assert_eq!(
                window.shard(m as u32 / 3, m as u16 % 3),
                Some(&full_block(m))
            );
        }
    }
}

#[test]
fn wanting_other_parity_moves_no_block() {
    let mut window = fec_window(2, 3, 8);
    for n in 0..6u8 {
        window.cover(n % 4);
        let pushed = window.push(full_block(n));
        assert_eq!(pushed.slice_no, n as u32 / 2);
        assert_eq!(pushed.block_in_slice, n as u16 % 2);
        assert_eq!(pushed.sealed.is_some(), (n + 1) % 2 == 0);
    }
    for n in 0..6u8 {
        assert_eq!(
            window.shard(n as u32 / 2, n as u16 % 2),
            Some(&full_block(n))
        );
    }
}
