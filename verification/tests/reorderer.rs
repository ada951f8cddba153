use bytes::Bytes;
use scuttlecast::receiver::reorderer::Reorderer;

fn block(n: u8) -> Bytes {
    Bytes::from(vec![n])
}

#[test]
fn emits_blocks_arriving_in_order() {
    let mut reorderer = Reorderer::new();

    assert_eq!(reorderer.on_block(0, block(1)), vec![block(1)]);
    assert_eq!(reorderer.on_block(1, block(2)), vec![block(2)]);
}

#[test]
fn holds_blocks_until_the_gap_is_filled() {
    let mut reorderer = Reorderer::new();

    assert!(reorderer.on_block(2, block(3)).is_empty());
    assert!(reorderer.on_block(1, block(2)).is_empty());

    assert_eq!(
        reorderer.on_block(0, block(1)),
        vec![block(1), block(2), block(3)]
    );
}

#[test]
fn ignores_blocks_already_emitted() {
    let mut reorderer = Reorderer::new();

    assert_eq!(reorderer.on_block(0, block(1)), vec![block(1)]);

    assert!(reorderer.on_block(0, block(99)).is_empty());
}

#[test]
fn later_duplicate_overwrites_pending_block() {
    let mut reorderer = Reorderer::new();

    reorderer.on_block(1, block(2));
    reorderer.on_block(1, block(2));

    assert_eq!(reorderer.on_block(0, block(1)), vec![block(1), block(2)]);
    assert!(reorderer.flush().is_empty());
}

#[test]
fn flush_drops_blocks_stranded_behind_a_missing_one() {
    let mut reorderer = Reorderer::new();

    reorderer.on_block(1, block(2));
    reorderer.on_block(2, block(3));

    assert!(reorderer.flush().is_empty());
}

#[test]
fn the_last_of_several_pending_blocks_is_the_one_emitted() {
    let mut reorderer = Reorderer::new();

    reorderer.on_block(1, block(2));
    reorderer.on_block(1, block(7));

    assert_eq!(reorderer.on_block(0, block(1)), vec![block(1), block(7)]);
}

#[test]
fn the_last_block_of_all_only_waits() {
    let mut reorderer = Reorderer::new();

    assert!(reorderer.can_take(u64::MAX));
    assert!(reorderer.on_block(u64::MAX, block(9)).is_empty());
    assert_eq!(reorderer.on_block(0, block(1)), vec![block(1)]);
}

#[test]
fn each_block_leaves_once_whatever_is_passed() {
    let mut reorderer = Reorderer::new();
    let mut left = Vec::new();
    for (block_no, n) in [(2, 1), (0, 2), (4, 3), (2, 4), (0, 5), (1, 6), (2, 7), (3, 8)] {
        assert!(reorderer.can_take(block_no));
        left.extend(reorderer.on_block(block_no, block(n)));
    }

    assert_eq!(
        left,
        vec![block(2), block(6), block(4), block(8), block(3)]
    );
}
