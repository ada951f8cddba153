use scuttlecast::proto::{Nak, Stats};
use scuttlecast::sender::group::Group;
use scuttlecast::time::HOLDOFF;

const NOW: u64 = 1_000_000_000;

fn group(receiver_ids: &[u64]) -> Group {
    let mut group = Group::default();
    for &receiver_id in receiver_ids {
        group.join(receiver_id);
    }
    group
}

fn stats(receiver_id: u64, next_needed_slice: u32) -> Stats {
    Stats {
        transfer_id: 1,
        receiver_id,
        total_received: 0,
        total_expected: 0,
        next_needed_slice,
        sink_stall_ms: 0,
    }
}

fn nak(receiver_id: u64, slice_no: u32, missing: Vec<u16>) -> Nak {
    Nak {
        transfer_id: 1,
        receiver_id,
        slice_no,
        missing,
    }
}

#[test]
fn joining_twice_is_not_a_new_participant() {
    let mut group = Group::default();

    assert!(group.join(7));
    assert!(!group.join(7));
    assert_eq!(group.len(), 1);
}

#[test]
fn leaving_reports_whether_it_removed_anyone() {
    let mut group = group(&[7]);

    assert!(group.leave(7));
    assert!(!group.leave(7));
    assert!(!group.contains(7));
}

#[test]
fn the_group_needs_whatever_its_slowest_member_needs() {
    let mut group = group(&[7, 8]);

    assert_eq!(group.on_stats(&stats(7, 4)), None);
    assert_eq!(group.on_stats(&stats(8, 1)), Some(1));
}

#[test]
fn a_silent_member_holds_the_group_back() {
    let mut group = group(&[7, 8]);

    assert_eq!(group.on_stats(&stats(7, 4)), None);
    assert_eq!(group.on_stats(&stats(8, 0)), None);
}

#[test]
fn a_member_falling_behind_does_not_move_the_group_back() {
    let mut group = group(&[7]);
    assert_eq!(group.on_stats(&stats(7, 4)), Some(4));

    assert_eq!(group.on_stats(&stats(7, 2)), None);
}

#[test]
fn a_departing_member_stops_holding_the_group_back() {
    let mut group = group(&[7, 8]);
    group.on_stats(&stats(7, 4));
    group.on_stats(&stats(8, 0));

    group.leave(8);

    assert_eq!(group.on_stats(&stats(7, 4)), Some(4));
}

#[test]
fn stats_from_a_stranger_are_ignored() {
    let mut group = group(&[7]);

    assert_eq!(group.on_stats(&stats(99, 4)), None);
    assert_eq!(group.on_stats(&stats(7, 1)), Some(1));
}

#[test]
fn an_empty_group_is_not_complete() {
    assert!(!Group::default().all_complete());
}

#[test]
fn nobody_is_complete_before_the_transfer_has_an_end() {
    let mut group = group(&[7]);

    group.on_stats(&stats(7, 9));

    assert!(!group.all_complete());
}

#[test]
fn the_group_is_complete_once_every_member_reaches_the_end() {
    let mut group = group(&[7, 8]);
    group.on_eof(4);

    group.on_stats(&stats(7, 4));
    assert!(!group.all_complete());

    group.on_stats(&stats(8, 4));
    assert!(group.all_complete());
}

#[test]
fn a_member_short_of_the_end_leaves_the_group_incomplete() {
    let mut group = group(&[7]);
    group.on_eof(4);

    group.on_stats(&stats(7, 3));

    assert!(!group.all_complete());
}

#[test]
fn requests_are_served_once_per_suppression_window() {
    let mut group = group(&[7]);
    let now = NOW;

    assert_eq!(group.on_nak(&nak(7, 3, vec![1, 2]), now), vec![1, 2]);
    assert_eq!(group.on_nak(&nak(7, 3, vec![1, 2]), now), Vec::<u16>::new());
    assert_eq!(
        group.on_nak(&nak(7, 3, vec![1, 2]), now + HOLDOFF),
        vec![1, 2]
    );
}

#[test]
fn a_repeated_block_within_one_request_is_served_once() {
    let mut group = group(&[7]);

    assert_eq!(group.on_nak(&nak(7, 3, vec![1, 1]), NOW), vec![1]);
}

#[test]
fn requests_for_slices_nobody_needs_are_dropped() {
    let mut group = group(&[7]);
    group.on_stats(&stats(7, 4));

    assert_eq!(group.on_nak(&nak(7, 3, vec![0]), NOW), Vec::<u16>::new());
    assert_eq!(group.on_nak(&nak(7, 4, vec![0]), NOW), vec![0]);
}

#[test]
fn requests_from_a_stranger_are_dropped() {
    let mut group = group(&[7]);

    assert_eq!(group.on_nak(&nak(99, 3, vec![0]), NOW), Vec::<u16>::new());
}

#[test]
fn advancing_past_a_slice_forgets_its_suppressed_blocks() {
    let mut group = group(&[7]);
    let now = NOW;
    group.on_nak(&nak(7, 3, vec![0]), now);
    group.on_nak(&nak(7, 4, vec![0]), now);

    group.on_stats(&stats(7, 4));

    assert_eq!(group.suppressed_len(), 1);
    assert_eq!(group.on_nak(&nak(7, 4, vec![0]), now), Vec::<u16>::new());
}

#[test]
fn shards_of_different_slices_do_not_hold_each_other_off() {
    let mut group = group(&[7, 8]);

    assert_eq!(group.on_nak(&nak(7, 3, vec![1]), NOW), vec![1]);
    assert_eq!(group.on_nak(&nak(7, 4, vec![1]), NOW), vec![1]);
    assert_eq!(group.on_nak(&nak(8, 3, vec![1]), NOW), Vec::<u16>::new());
    assert_eq!(
        group.on_nak(&nak(8, 3, vec![1]), NOW + HOLDOFF - 1),
        Vec::<u16>::new()
    );
}

#[test]
fn silent_members_are_let_go_with_the_slice_they_needed() {
    let mut group = group(&[7, 8]);
    group.mark_all_seen(NOW);
    group.on_stats(&stats(7, 3));
    group.mark_seen(8, NOW + 50);

    assert_eq!(group.reap_silent(NOW + 99, 100), Vec::new());
    assert_eq!(group.reap_silent(NOW + 100, 100), vec![(7, 3)]);
    assert!(!group.contains(7));
    assert!(group.contains(8));
    assert_eq!(group.reap_silent(NOW + 150, 100), vec![(8, 0)]);
    assert_eq!(group.len(), 0);
}

#[test]
fn the_furthest_behind_and_the_longest_stalled_are_found() {
    let mut group = group(&[7, 8]);
    assert_eq!(Group::default().slowest_participant(), None);
    assert_eq!(Group::default().worst_sink_stall(), None);

    group.on_emitted(9);
    group.on_emitted(5);
    group.on_stats(&stats(7, 6));
    group.on_stats(&Stats {
        sink_stall_ms: 40,
        ..stats(8, 10)
    });

    assert_eq!(group.slowest_participant(), Some((7, 3)));
    assert_eq!(group.worst_sink_stall(), Some((8, 40)));
}

#[test]
fn rows_tell_what_is_known_of_every_member() {
    let mut group = group(&[7, 8]);
    group.on_emitted(9);
    group.on_stats(&stats(7, 6));
    group.on_nak(&nak(7, 6, vec![0]), NOW);
    group.on_nak(&nak(7, 0, vec![0]), NOW);

    let mut rows = group.rows();
    rows.sort_by_key(|row| row.receiver_id);

    assert_eq!(rows.len(), 2);
    assert_eq!(rows[0].receiver_id, 7);
    assert_eq!(rows[0].next_needed_slice, 6);
    assert_eq!(rows[0].slices_behind, 3);
    assert_eq!(rows[0].naks, 2);
    assert_eq!(rows[1].slices_behind, 9);
}

#[test]
fn completion_is_counted_by_member() {
    let mut group = group(&[7, 8, 9]);
    assert_eq!(group.complete_count(), 0);
    group.on_eof(2);

    group.on_stats(&stats(7, 2));
    group.on_stats(&stats(8, 5));

    assert_eq!(group.complete_count(), 2);
}

#[test]
fn answers_to_reports_only_rise() {
    let mut group = group(&[1, 2]);

    assert_eq!(group.on_stats(&stats(1, 5)), None);
    assert_eq!(group.on_stats(&stats(2, 3)), Some(3));
    assert_eq!(group.on_stats(&stats(2, 1)), None);
    assert_eq!(group.on_stats(&stats(2, 3)), None);
    assert!(group.leave(2));
    assert_eq!(group.on_stats(&stats(2, 9)), None);
    assert_eq!(group.on_stats(&stats(1, 5)), Some(5));
    assert!(group.join(2));
    assert_eq!(group.on_stats(&stats(1, 8)), None);
    assert_eq!(group.on_stats(&stats(2, 7)), Some(7));
}

#[test]
fn servings_of_a_shard_are_apart_until_its_slice_is_passed() {
    let mut group = group(&[1]);

    assert_eq!(group.on_nak(&nak(1, 4, vec![0, 1]), 0), vec![0, 1]);
    assert_eq!(group.on_nak(&nak(1, 4, vec![1, 2]), HOLDOFF - 1), vec![2]);
    assert_eq!(group.on_nak(&nak(1, 4, vec![1, 2]), HOLDOFF), vec![1]);
    assert_eq!(group.on_stats(&stats(1, 5)), Some(5));
    assert!(group.on_nak(&nak(1, 4, vec![1]), 9 * HOLDOFF).is_empty());
}

#[test]
fn whoever_joins_late_keeps_the_group_from_being_complete() {
    let mut group = group(&[1]);
    group.on_eof(3);
    group.on_stats(&stats(1, 3));
    assert!(group.all_complete());

    group.join(2);
    assert!(!group.all_complete());
    group.on_stats(&stats(2, 3));
    assert!(group.all_complete());
}
