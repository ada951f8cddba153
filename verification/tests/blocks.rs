use bytes::{Bytes, BytesMut};
use scuttlecast::sender::slicer::blocks::next_block;

/// Feeds what each read gives, and cuts off what can be cut after each.
fn collect(reads: &[&[u8]], block_size: usize) -> Vec<Vec<u8>> {
    let mut slab = BytesMut::new();
    let mut blocks = Vec::new();
    for read in reads {
        slab.extend_from_slice(read);
        while let Some(block) = next_block(&mut slab, block_size, false) {
            blocks.push(block.to_vec());
        }
    }
    while let Some(block) = next_block(&mut slab, block_size, true) {
        blocks.push(block.to_vec());
    }
    blocks
}

#[test]
fn empty_input_yields_no_blocks() {
    assert!(collect(&[], 4).is_empty());
}

#[test]
fn short_input_yields_one_partial_block() {
    assert_eq!(collect(&[&[1, 2, 3]], 4), vec![vec![1, 2, 3]]);
}

#[test]
fn exact_multiple_yields_no_trailing_empty_block() {
    assert_eq!(
        collect(&[&[1, 2, 3, 4, 5, 6]], 3),
        vec![vec![1, 2, 3], vec![4, 5, 6]]
    );
}

#[test]
fn one_byte_past_a_block_yields_a_single_byte_block() {
    assert_eq!(collect(&[&[1, 2, 3, 4]], 3), vec![vec![1, 2, 3], vec![4]]);
}

#[test]
fn fills_blocks_across_short_reads() {
    assert_eq!(
        collect(&[&[1], &[2], &[3], &[4], &[5]], 3),
        vec![vec![1, 2, 3], vec![4, 5]]
    );
}

#[test]
fn what_is_not_cut_off_stays() {
    let mut slab = BytesMut::from(&[1u8, 2, 3, 4][..]);

    assert_eq!(
        next_block(&mut slab, 3, false),
        Some(Bytes::from_static(&[1, 2, 3]))
    );
    assert_eq!(next_block(&mut slab, 3, false), None);
    assert_eq!(&slab[..], &[4]);
}

#[test]
fn how_reads_are_sized_makes_no_difference() {
    let whole: &[u8] = &[1, 2, 3, 4, 5, 6, 7, 8];
    let expected = vec![vec![1, 2, 3], vec![4, 5, 6], vec![7, 8]];

    assert_eq!(collect(&[whole], 3), expected);
    assert_eq!(collect(&[&whole[..2], &whole[2..7], &whole[7..]], 3), expected);
    assert_eq!(collect(&[&whole[..6], &whole[6..]], 3), expected);
}

#[test]
fn without_an_end_only_whole_blocks_are_cut() {
    let mut slab = BytesMut::new();
    let mut blocks = Vec::new();
    for read in [&[1u8, 2][..], &[3, 4, 5, 6, 7]] {
        slab.extend_from_slice(read);
        while let Some(block) = next_block(&mut slab, 3, false) {
            blocks.push(block.to_vec());
        }
    }

    assert_eq!(blocks, vec![vec![1, 2, 3], vec![4, 5, 6]]);
}
