//! How far a transfer is, and what holds it back.

use crate::spelling;
use crate::spelling::Elapsed;
use vstd::prelude::*;

verus! {

/// What holds a transfer back.
#[derive(Clone, Copy, Debug, PartialEq, Eq, Structural)]
pub enum LimitingFactor {
    /// Nothing does.
    Unconstrained,
    /// It goes as fast as it may.
    AtConfiguredMax,
    /// A receiver needs too many repairs.
    RateLimited { worst: u64 },
    /// A receiver is a whole window behind.
    WindowStalled { blocked_by: u64, slices_behind: u32 },
    /// The input does not keep up.
    SourceStarved { read_wait_ms: u32 },
    /// A receiver cannot write what it gets.
    SinkStalled { receiver: u64, stall_ms: u32 },
    /// The sender does not use what it is allowed.
    SenderBound,
}

impl Default for LimitingFactor {
    fn default() -> (factor: LimitingFactor)
        ensures
            factor == LimitingFactor::Unconstrained,
    {
        LimitingFactor::Unconstrained
    }
}

impl LimitingFactor {
    /// What holds the transfer back, in words. Shares and rates are not part of it.
    pub open spec fn spelled(self) -> Seq<char> {
        match self {
            LimitingFactor::Unconstrained => "unconstrained"@,
            LimitingFactor::AtConfiguredMax => "at configured maximum"@,
            LimitingFactor::RateLimited { worst } => "rate limited by "@ + spelling::decimal(
                worst as nat,
            ),
            LimitingFactor::WindowStalled { blocked_by, slices_behind } => "window held by "@
                + spelling::decimal(blocked_by as nat) + ", "@ + spelling::decimal(
                slices_behind as nat,
            ) + " slices behind"@,
            LimitingFactor::SourceStarved { read_wait_ms } => "input starved, waited "@
                + spelling::decimal(read_wait_ms as nat) + "ms"@,
            LimitingFactor::SinkStalled { receiver, stall_ms } => "sink of "@
                + spelling::decimal(receiver as nat) + " stalled, "@ + spelling::decimal(
                stall_ms as nat,
            ) + "ms of the last tick spent waiting to write"@,
            LimitingFactor::SenderBound => "sender bound"@,
        }
    }

    /// What holds the transfer back, in words. Shares and rates are not part of it.
    pub fn text(&self) -> (text: String)
        ensures
            text@ == self.spelled(),
    {
        let mut out: Vec<u8> = Vec::new();
        assert(spelling::ascii_chars(out@) =~= Seq::<char>::empty());
        match self {
            LimitingFactor::Unconstrained => {
                proof {
                    reveal_strlit("unconstrained");
                }
                spelling::push_text(&mut out, "unconstrained");
            },
            LimitingFactor::AtConfiguredMax => {
                proof {
                    reveal_strlit("at configured maximum");
                }
                spelling::push_text(&mut out, "at configured maximum");
            },
            LimitingFactor::RateLimited { worst } => {
                proof {
                    reveal_strlit("rate limited by ");
                }
                spelling::push_text(&mut out, "rate limited by ");
                spelling::push_decimal(&mut out, *worst);
            },
            LimitingFactor::WindowStalled { blocked_by, slices_behind } => {
                proof {
                    reveal_strlit("window held by ");
                    reveal_strlit(", ");
                    reveal_strlit(" slices behind");
                }
                spelling::push_text(&mut out, "window held by ");
                spelling::push_decimal(&mut out, *blocked_by);
                spelling::push_text(&mut out, ", ");
                spelling::push_decimal(&mut out, *slices_behind as u64);
                spelling::push_text(&mut out, " slices behind");
            },
            LimitingFactor::SourceStarved { read_wait_ms } => {
                proof {
                    reveal_strlit("input starved, waited ");
                    reveal_strlit("ms");
                }
                spelling::push_text(&mut out, "input starved, waited ");
                spelling::push_decimal(&mut out, *read_wait_ms as u64);
                spelling::push_text(&mut out, "ms");
            },
            LimitingFactor::SinkStalled { receiver, stall_ms } => {
                proof {
                    reveal_strlit("sink of ");
                    reveal_strlit(" stalled, ");
                    reveal_strlit("ms of the last tick spent waiting to write");
                }
                spelling::push_text(&mut out, "sink of ");
                spelling::push_decimal(&mut out, *receiver);
                spelling::push_text(&mut out, " stalled, ");
                spelling::push_decimal(&mut out, *stall_ms as u64);
                spelling::push_text(
                    &mut out,
                    "ms of the last tick spent waiting to write",
                );
            },
            LimitingFactor::SenderBound => {
                proof {
                    reveal_strlit("sender bound");
                }
                spelling::push_text(&mut out, "sender bound");
            },
        }
        assert(spelling::ascii_chars(out@) =~= self.spelled());
        spelling::ascii_text(out)
    }
}

/// What is known of a transfer when the question is what holds it back.
///
/// Rates and shares are compared before: `demand_exceeds` says whether the repairs
/// that the worst receiver needs are over the threshold, `allowance_unused` whether
/// clearly less is sent than is allowed.
#[derive(Clone, Copy, Debug, PartialEq)]
pub struct Bottleneck {
    /// The receiver that is furthest behind, and by how many slices.
    pub slowest: Option<(u64, u32)>,
    /// The receiver that needs the most repairs.
    pub worst_demand: Option<u64>,
    /// Whether it needs too many.
    pub demand_exceeds: bool,
    /// How many slices the window holds.
    pub max_live_slices: u32,
    /// Whether the rate is as high as it may be.
    pub at_ceiling: bool,
    /// How long the sender waited for input, in nanoseconds.
    pub source_wait: u64,
    /// The receiver whose sink stalled for longest, and how long in milliseconds.
    pub worst_sink_stall: Option<(u64, u32)>,
    /// How long a sink may stall, in milliseconds.
    pub sink_stall_threshold: u32,
    /// Whether clearly less is sent than is allowed.
    pub allowance_unused: bool,
    /// Whether the sender had leave to send that it did not use.
    pub credit_unused: bool,
    /// Whether the input has ended.
    pub draining: bool,
}

impl Bottleneck {
    /// Whether a receiver is a whole window behind.
    pub open spec fn window_is_held(self) -> bool {
        self.slowest matches Some((_, behind)) && behind >= self.max_live_slices
    }

    /// Whether a receiver needs too many repairs.
    pub open spec fn repairs_limit(self) -> bool {
        self.worst_demand is Some && self.demand_exceeds
    }

    /// Whether the input does not keep up.
    pub open spec fn input_lags(self) -> bool {
        !self.draining && self.source_wait > 0
    }

    /// Whether a sink stalls for too long.
    pub open spec fn sink_lags(self) -> bool {
        self.worst_sink_stall matches Some((_, stall_ms)) && stall_ms >= self.sink_stall_threshold
    }

    /// A span of time in whole milliseconds, as far as they fit in 32 bits.
    pub open spec fn milliseconds(span: u64) -> u32 {
        if span / 1_000_000 <= u32::MAX {
            (span / 1_000_000) as u32
        } else {
            u32::MAX
        }
    }

    /// Names what holds the transfer back: a window that cannot move comes before
    /// repairs, repairs before the input, the input before a sink, a sink before the
    /// ceiling, and the ceiling before the sender itself.
    pub fn attribute(&self) -> (factor: LimitingFactor)
        ensures
            self.window_is_held() ==> (self.slowest matches Some((blocked_by, slices_behind))
                && factor == (LimitingFactor::WindowStalled { blocked_by, slices_behind })),
            !self.window_is_held() && self.repairs_limit() ==> factor
                == (LimitingFactor::RateLimited { worst: self.worst_demand->0 }),
            !self.window_is_held() && !self.repairs_limit() && self.input_lags() ==> factor
                == (LimitingFactor::SourceStarved {
                read_wait_ms: Bottleneck::milliseconds(self.source_wait),
            }),
            !self.window_is_held() && !self.repairs_limit() && !self.input_lags()
                && self.sink_lags() ==> (self.worst_sink_stall matches Some((receiver, stall_ms))
                && factor == (LimitingFactor::SinkStalled { receiver, stall_ms })),
            !self.window_is_held() && !self.repairs_limit() && !self.input_lags()
                && !self.sink_lags() ==> factor == if self.at_ceiling {
                LimitingFactor::AtConfiguredMax
            } else if self.credit_unused && self.allowance_unused {
                LimitingFactor::SenderBound
            } else {
                LimitingFactor::Unconstrained
            },
    {
        if let Some((blocked_by, slices_behind)) = self.slowest {
            if slices_behind >= self.max_live_slices {
                return LimitingFactor::WindowStalled { blocked_by, slices_behind };
            }
        }
        if let Some(worst) = self.worst_demand {
            if self.demand_exceeds {
                return LimitingFactor::RateLimited { worst };
            }
        }
        if !self.draining && self.source_wait > 0 {
            let milliseconds: u64 = self.source_wait / 1_000_000;
            return LimitingFactor::SourceStarved {
                read_wait_ms: if milliseconds <= 0xffff_ffff {
                    milliseconds as u32
                } else {
                    0xffff_ffff
                },
            };
        }
        if let Some((receiver, stall_ms)) = self.worst_sink_stall {
            if stall_ms >= self.sink_stall_threshold {
                return LimitingFactor::SinkStalled { receiver, stall_ms };
            }
        }
        if self.at_ceiling {
            return LimitingFactor::AtConfiguredMax;
        }
        if self.credit_unused && self.allowance_unused {
            return LimitingFactor::SenderBound;
        }
        LimitingFactor::Unconstrained
    }
}

/// How far one of the receivers is, seen from the sender.
#[derive(Clone, Copy, Debug, PartialEq)]
pub struct ReceiverState {
    pub receiver_id: u64,
    pub next_needed_slice: u32,
    pub slices_behind: u32,
    pub naks: u64,
    pub sink_stall_ms: u32,
}

/// How many bytes are left of what was announced.
pub open spec fn left_of(announced_bytes: Option<u64>, done: u64) -> Option<u64> {
    match announced_bytes {
        Some(announced) => if announced >= done {
            Some((announced - done) as u64)
        } else {
            Some(0)
        },
        None => None,
    }
}

fn bytes_left(announced_bytes: Option<u64>, done: u64) -> (left: Option<u64>)
    ensures
        left == left_of(announced_bytes, done),
{
    match announced_bytes {
        Some(announced) => Some(announced.saturating_sub(done)),
        None => None,
    }
}

/// How far a transfer is, seen from the sender. Times are in nanoseconds.
#[derive(Debug, PartialEq)]
pub struct TransferState {
    pub transfer_id: u64,
    pub block_size: u32,
    pub blocks_sent: u64,
    pub slices_emitted: u32,
    pub parity_shards: u8,
    pub total_blocks: Option<u64>,
    pub announced_bytes: Option<u64>,
    pub draining: bool,
    pub limiting: LimitingFactor,
    pub receivers: Vec<ReceiverState>,
    pub elapsed: u64,
}

impl Default for TransferState {
    fn default() -> (state: TransferState)
        ensures
            state.transfer_id == 0,
            state.block_size == 0,
            state.blocks_sent == 0,
            state.slices_emitted == 0,
            state.parity_shards == 0,
            state.total_blocks is None,
            state.announced_bytes is None,
            !state.draining,
            state.limiting == LimitingFactor::Unconstrained,
            state.receivers@.len() == 0,
            state.elapsed == 0,
    {
        TransferState {
            transfer_id: 0,
            block_size: 0,
            blocks_sent: 0,
            slices_emitted: 0,
            parity_shards: 0,
            total_blocks: None,
            announced_bytes: None,
            draining: false,
            limiting: LimitingFactor::Unconstrained,
            receivers: Vec::new(),
            elapsed: 0,
        }
    }
}

impl TransferState {
    /// How many bytes of data were sent.
    pub fn bytes_sent(&self) -> (bytes: u64)
        requires
            self.blocks_sent * self.block_size <= u64::MAX,
        ensures
            bytes == self.blocks_sent * self.block_size,
    {
        self.blocks_sent * self.block_size as u64
    }

    /// How many bytes are left to send, if it is known how many there are.
    pub fn bytes_left(&self) -> (left: Option<u64>)
        requires
            self.blocks_sent * self.block_size <= u64::MAX,
        ensures
            left == left_of(
                self.announced_bytes,
                (self.blocks_sent * self.block_size) as u64,
            ),
    {
        bytes_left(self.announced_bytes, self.bytes_sent())
    }

    /// How long the transfer runs.
    pub fn running_for(&self) -> (text: String)
        ensures
            text@ == Elapsed(self.elapsed).spelled(),
    {
        Elapsed(self.elapsed).text()
    }

    /// The receiver that is furthest behind, the last listed of several.
    pub fn slowest(&self) -> (slowest: Option<&ReceiverState>)
        ensures
            match slowest {
                Some(slowest) => exists|at: int|
                    {
                        &&& 0 <= at < self.receivers@.len()
                        &&& #[trigger] self.receivers@[at] == *slowest
                        &&& forall|i: int|
                            0 <= i < self.receivers@.len() ==> (#[trigger] self.receivers@[i]).slices_behind
                                <= slowest.slices_behind
                        &&& forall|i: int|
                            at < i < self.receivers@.len() ==> (#[trigger] self.receivers@[i]).slices_behind
                                < slowest.slices_behind
                    },
                None => self.receivers@.len() == 0,
            },
    {
        if self.receivers.len() == 0 {
            return None;
        }
        let mut most: usize = 0;
        let mut at: usize = 1;
        while at < self.receivers.len()
            invariant
                most < at <= self.receivers@.len(),
                forall|i: int|
                    0 <= i < at ==> (#[trigger] self.receivers@[i]).slices_behind
                        <= self.receivers@[most as int].slices_behind,
                forall|i: int|
                    most < i < at ==> (#[trigger] self.receivers@[i]).slices_behind
                        < self.receivers@[most as int].slices_behind,
            decreases self.receivers@.len() - at,
        {
            if self.receivers[at].slices_behind >= self.receivers[most].slices_behind {
                most = at;
            }
            at += 1;
        }
        Some(&self.receivers[most])
    }
}

/// How far a transfer is, seen from a receiver. Times are in nanoseconds.
#[derive(Clone, Copy, Debug, PartialEq)]
pub struct ReceiveState {
    pub transfer_id: u64,
    pub announced_bytes: Option<u64>,
    pub received_bytes: u64,
    pub next_needed_slice: u32,
    pub duplicates: u64,
    pub naks: u64,
    pub elapsed: u64,
}

impl Default for ReceiveState {
    fn default() -> (state: ReceiveState)
        ensures
            state == (ReceiveState {
                transfer_id: 0,
                announced_bytes: None,
                received_bytes: 0,
                next_needed_slice: 0,
                duplicates: 0,
                naks: 0,
                elapsed: 0,
            }),
    {
        ReceiveState {
            transfer_id: 0,
            announced_bytes: None,
            received_bytes: 0,
            next_needed_slice: 0,
            duplicates: 0,
            naks: 0,
            elapsed: 0,
        }
    }
}

impl ReceiveState {
    /// How many bytes are left to receive, if it is known how many there are.
    pub fn bytes_left(&self) -> (left: Option<u64>)
        ensures
            left == left_of(self.announced_bytes, self.received_bytes),
    {
        bytes_left(self.announced_bytes, self.received_bytes)
    }

    /// How long the transfer runs.
    pub fn running_for(&self) -> (text: String)
        ensures
            text@ == Elapsed(self.elapsed).spelled(),
    {
        Elapsed(self.elapsed).text()
    }
}

/// What is done and what is left make up what was announced, until more is done than was
/// announced and nothing is left.
pub proof fn done_and_left_make_up_what_was_announced(announced_bytes: Option<u64>, done: u64)
    ensures
        left_of(announced_bytes, done) is Some <==> announced_bytes is Some,
        announced_bytes matches Some(announced) ==> (left_of(announced_bytes, done) matches Some(left)
            && (done <= announced ==> done + left == announced) && (done >= announced ==> left == 0)),
{
}

/// Whole milliseconds are as many as have passed, as far as they can be told.
pub proof fn milliseconds_are_those_that_have_passed(span: u64)
    ensures
        ({
            let milliseconds = Bottleneck::milliseconds(span);
            &&& milliseconds * 1_000_000 <= span
            &&& milliseconds < u32::MAX ==> span < (milliseconds + 1) * 1_000_000
        }),
{
}

/// A window is held from the slice on that makes a receiver a whole window behind, and a
/// sink lags from the time on that it may not stall for; before neither does.
pub proof fn limits_are_reached_at_once(bottleneck: Bottleneck)
    ensures
        bottleneck.window_is_held() <==> (bottleneck.slowest matches Some((_, behind)) && !(behind
            < bottleneck.max_live_slices)),
        bottleneck.sink_lags() <==> (bottleneck.worst_sink_stall matches Some((_, stall_ms)) && !(
        stall_ms < bottleneck.sink_stall_threshold)),
        bottleneck.draining ==> !bottleneck.input_lags(),
        bottleneck.source_wait == 0 ==> !bottleneck.input_lags(),
        !bottleneck.draining && bottleneck.source_wait >= 1 ==> bottleneck.input_lags(),
        bottleneck.repairs_limit() <==> !(bottleneck.worst_demand is None)
            && bottleneck.demand_exceeds,
{
}

} // verus!
