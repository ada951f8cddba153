use scuttlecast::state::{
    Bottleneck, LimitingFactor, ReceiveState, ReceiverState, TransferState,
};

const DEMAND_THRESHOLD: f64 = 0.005;

fn exceeds(demand: f64) -> bool {
    demand > DEMAND_THRESHOLD
}

fn unused(allowed_rate: f64, achieved_rate: f64) -> bool {
    achieved_rate < allowed_rate * 0.8
}

fn healthy() -> Bottleneck {
    Bottleneck {
        slowest: Some((7, 3)),
        worst_demand: Some(7),
        demand_exceeds: exceeds(0.0),
        max_live_slices: 512,
        at_ceiling: false,
        source_wait: 0,
        worst_sink_stall: Some((7, 0)),
        sink_stall_threshold: 25,
        allowance_unused: unused(1000.0, 1000.0),
        credit_unused: true,
        draining: false,
    }
}

#[test]
fn an_allowance_the_sender_cannot_use_is_the_senders_own_limit() {
    let bottleneck = Bottleneck {
        allowance_unused: unused(1000.0, 300.0),
        ..healthy()
    };

    assert_eq!(bottleneck.attribute(), LimitingFactor::SenderBound);
}

#[test]
fn a_receiver_that_cannot_write_outranks_the_senders_own_socket() {
    let bottleneck = Bottleneck {
        allowance_unused: unused(1000.0, 300.0),
        worst_sink_stall: Some((9, 60)),
        ..healthy()
    };

    assert_eq!(
        bottleneck.attribute(),
        LimitingFactor::SinkStalled {
            receiver: 9,
            stall_ms: 60
        }
    );
}

#[test]
fn a_sink_pausing_briefly_between_writes_is_not_a_limit() {
    let bottleneck = Bottleneck {
        worst_sink_stall: Some((9, 24)),
        ..healthy()
    };

    assert_eq!(bottleneck.attribute(), LimitingFactor::Unconstrained);
}

#[test]
fn repairs_outrank_a_stalled_sink() {
    let bottleneck = Bottleneck {
        worst_demand: Some(9),
        demand_exceeds: exceeds(0.2),
        worst_sink_stall: Some((9, 60)),
        ..healthy()
    };

    assert_eq!(
        bottleneck.attribute(),
        LimitingFactor::RateLimited { worst: 9 }
    );
}

#[test]
fn an_allowance_nearly_used_up_is_not_a_limit() {
    let bottleneck = Bottleneck {
        allowance_unused: unused(1000.0, 900.0),
        ..healthy()
    };

    assert_eq!(bottleneck.attribute(), LimitingFactor::Unconstrained);
}

#[test]
fn an_allowance_the_pacer_itself_used_up_is_not_the_senders_limit() {
    let bottleneck = Bottleneck {
        allowance_unused: unused(1000.0, 300.0),
        credit_unused: false,
        ..healthy()
    };

    assert_eq!(bottleneck.attribute(), LimitingFactor::Unconstrained);
}

#[test]
fn a_healthy_transfer_is_unconstrained() {
    assert_eq!(healthy().attribute(), LimitingFactor::Unconstrained);
}

#[test]
fn a_receiver_a_whole_window_behind_holds_the_window() {
    let bottleneck = Bottleneck {
        slowest: Some((7, 512)),
        ..healthy()
    };

    assert_eq!(
        bottleneck.attribute(),
        LimitingFactor::WindowStalled {
            blocked_by: 7,
            slices_behind: 512
        }
    );
}

#[test]
fn loss_past_the_threshold_names_the_worst_receiver() {
    let bottleneck = Bottleneck {
        worst_demand: Some(8),
        demand_exceeds: exceeds(0.2),
        ..healthy()
    };

    assert_eq!(
        bottleneck.attribute(),
        LimitingFactor::RateLimited { worst: 8 }
    );
}

#[test]
fn loss_below_the_threshold_is_not_the_limit() {
    let bottleneck = Bottleneck {
        worst_demand: Some(8),
        demand_exceeds: exceeds(0.001),
        ..healthy()
    };

    assert_eq!(bottleneck.attribute(), LimitingFactor::Unconstrained);
}

#[test]
fn a_stalled_window_outranks_loss() {
    let bottleneck = Bottleneck {
        slowest: Some((7, 600)),
        worst_demand: Some(8),
        demand_exceeds: exceeds(0.2),
        ..healthy()
    };

    assert!(matches!(
        bottleneck.attribute(),
        LimitingFactor::WindowStalled { .. }
    ));
}

#[test]
fn waiting_on_the_input_is_reported_in_milliseconds() {
    let bottleneck = Bottleneck {
        source_wait: 40_000_000,
        ..healthy()
    };

    assert_eq!(
        bottleneck.attribute(),
        LimitingFactor::SourceStarved { read_wait_ms: 40 }
    );
}

#[test]
fn draining_never_looks_like_a_starved_input() {
    let bottleneck = Bottleneck {
        source_wait: 40_000_000,
        draining: true,
        ..healthy()
    };

    assert_eq!(bottleneck.attribute(), LimitingFactor::Unconstrained);
}

#[test]
fn a_configured_ceiling_is_reported_when_nothing_else_binds() {
    let bottleneck = Bottleneck {
        at_ceiling: true,
        ..healthy()
    };

    assert_eq!(bottleneck.attribute(), LimitingFactor::AtConfiguredMax);
}

#[test]
fn a_wait_too_long_to_count_is_reported_as_the_longest() {
    let bottleneck = Bottleneck {
        source_wait: u64::MAX,
        ..healthy()
    };

    assert_eq!(
        bottleneck.attribute(),
        LimitingFactor::SourceStarved {
            read_wait_ms: u32::MAX
        }
    );
}

fn receiver(receiver_id: u64, slices_behind: u32) -> ReceiverState {
    ReceiverState {
        receiver_id,
        next_needed_slice: 0,
        slices_behind,
        naks: 0,
        sink_stall_ms: 0,
    }
}

#[test]
fn the_last_of_those_furthest_behind_is_the_slowest() {
    let mut state = TransferState::default();
    assert!(state.slowest().is_none());

    state.receivers = vec![receiver(1, 2), receiver(2, 5), receiver(3, 5), receiver(4, 1)];

    assert_eq!(state.slowest().map(|slowest| slowest.receiver_id), Some(3));
}

#[test]
fn what_is_left_is_known_once_the_size_is() {
    let mut state = TransferState {
        block_size: 100,
        blocks_sent: 3,
        elapsed: 61_000_000_000,
        ..TransferState::default()
    };
    assert_eq!(state.bytes_sent(), 300);
    assert_eq!(state.bytes_left(), None);
    assert_eq!(state.running_for(), "1m01s");

    state.announced_bytes = Some(1000);
    assert_eq!(state.bytes_left(), Some(700));

    state.announced_bytes = Some(250);
    assert_eq!(state.bytes_left(), Some(0));
}

#[test]
fn a_receiver_counts_down_from_what_was_announced() {
    let mut state = ReceiveState::default();
    assert_eq!(state.bytes_left(), None);
    assert_eq!(state.running_for(), "0m00s");

    state.announced_bytes = Some(1000);
    state.received_bytes = 999;

    assert_eq!(state.bytes_left(), Some(1));
}

#[test]
fn what_holds_a_transfer_back_is_spelled_out() {
    assert_eq!(LimitingFactor::Unconstrained.text(), "unconstrained");
    assert_eq!(
        LimitingFactor::AtConfiguredMax.text(),
        "at configured maximum"
    );
    assert_eq!(
        LimitingFactor::RateLimited { worst: 12 }.text(),
        "rate limited by 12"
    );
    assert_eq!(
        LimitingFactor::WindowStalled {
            blocked_by: u64::MAX,
            slices_behind: 40
        }
        .text(),
        "window held by 18446744073709551615, 40 slices behind"
    );
    assert_eq!(
        LimitingFactor::SourceStarved { read_wait_ms: 0 }.text(),
        "input starved, waited 0ms"
    );
    assert_eq!(
        LimitingFactor::SinkStalled {
            receiver: 7,
            stall_ms: 101
        }
        .text(),
        "sink of 7 stalled, 101ms of the last tick spent waiting to write"
    );
    assert_eq!(LimitingFactor::SenderBound.text(), "sender bound");
}
