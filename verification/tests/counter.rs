use scuttlecast::receiver::counter::BlockCounter;

#[test]
fn counts_each_block_once() {
    let mut counter = BlockCounter::default();

    assert!(counter.insert(3));
    assert!(!counter.insert(3));
    assert!(counter.insert(64));

    assert_eq!(counter.number_of_blocks_seen(), 2);
    assert!(counter.contains(3));
    assert!(counter.contains(64));
    assert!(!counter.contains(63));
    assert!(!counter.contains(1_000_000));
}

#[test]
fn remembers_the_highest_block() {
    let mut counter = BlockCounter::default();
    assert_eq!(counter.highest_block_seen(), None);

    counter.insert(200);
    counter.insert(7);

    assert_eq!(counter.highest_block_seen(), Some(200));
}

#[test]
fn counts_what_it_took_note_of_in_any_order() {
    let mut counter = BlockCounter::default();
    let mut taken: Vec<u64> = Vec::new();
    for block in [9, 3, 130, 3, 9, 0, 64, 130] {
        assert_eq!(counter.insert(block), !taken.contains(&block));
        taken.push(block);
    }

    assert_eq!(counter.number_of_blocks_seen(), 5);
    assert_eq!(counter.highest_block_seen(), Some(130));
    for block in 0..200 {
        assert_eq!(counter.contains(block), taken.contains(&block));
    }
}
