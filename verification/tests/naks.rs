use scuttlecast::receiver::naks::Naks;
use scuttlecast::time::RENAK_INTERVAL;

const NOW: u64 = 1_000_000_000;

fn gaps() -> Vec<(u32, Vec<u16>)> {
    vec![(3, vec![1, 2])]
}

#[test]
fn asks_for_a_slice_it_has_not_asked_about() {
    let mut naks = Naks::default();

    assert_eq!(naks.due(gaps(), NOW), gaps());
}

#[test]
fn does_not_ask_twice_within_the_repeat_interval() {
    let mut naks = Naks::default();
    let now = NOW;
    naks.due(gaps(), now);

    assert!(naks.due(gaps(), now).is_empty());
}

#[test]
fn asks_again_once_the_repeat_interval_passes() {
    let mut naks = Naks::default();
    let now = NOW;
    naks.due(gaps(), now);

    assert_eq!(naks.due(gaps(), now + RENAK_INTERVAL), gaps());
}

#[test]
fn ignores_a_slice_with_nothing_missing() {
    let mut naks = Naks::default();

    assert!(naks.due(vec![(3, Vec::new())], NOW).is_empty());
}

#[test]
fn asks_again_after_a_slice_is_written_out_and_forgotten() {
    let mut naks = Naks::default();
    let now = NOW;
    naks.due(gaps(), now);

    naks.forget_below(4);

    assert_eq!(naks.due(gaps(), now), gaps());
}

#[test]
fn counts_every_request_it_makes() {
    let mut naks = Naks::default();
    let now = NOW;

    naks.due(vec![(3, vec![1]), (4, vec![0])], now);
    naks.due(gaps(), now);

    assert_eq!(naks.total(), 2);
}

#[test]
fn asks_about_each_slice_by_its_own_interval() {
    let mut naks = Naks::default();
    naks.due(gaps(), NOW);

    let both = vec![(3, vec![1]), (4, vec![0])];

    assert_eq!(
        naks.due(both, NOW + RENAK_INTERVAL - 1),
        vec![(4, vec![0])]
    );
}

#[test]
fn forgetting_makes_only_the_slices_below_due() {
    let mut naks = Naks::default();
    let both = vec![(3, vec![1]), (4, vec![0])];
    assert_eq!(naks.due(both.clone(), NOW), both);

    naks.forget_below(4);

    assert_eq!(naks.due(both, NOW + 1), vec![(3, vec![1])]);
    assert_eq!(naks.total(), 3);
}
