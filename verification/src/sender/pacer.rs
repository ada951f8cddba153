//! When the sender changes its rate.

use vstd::prelude::*;

verus! {

/// How many good ticks in a row it takes before the rate grows again after it was
/// reduced.
pub const GOOD_TICKS_NEEDED: u32 = 3;

/// What a tick finds of the repairs that receivers need.
#[derive(Clone, Copy, Debug, PartialEq, Eq, Structural)]
pub enum Demand {
    /// No receiver reported lately.
    Unknown,
    /// The worst needs no more repairs than a healthy transfer does.
    Healthy,
    /// The worst needs more. Sending slower may help, or it did not last time.
    Excessive { slowing_helps: bool },
}

/// What becomes of the rate.
#[derive(Clone, Copy, Debug, PartialEq, Eq, Structural)]
pub enum RateStep {
    /// It stays, and what was known of the demand stays known.
    Hold,
    /// It stays although repairs are excessive, and their extent is remembered.
    Endure,
    /// It is reduced, and the extent of the repairs is remembered.
    Reduce,
    /// It stays, and repairs are no longer excessive.
    Settle,
    /// It grows, and repairs are no longer excessive.
    Grow,
}

/// One good tick more, as far as they are counted.
pub open spec fn counted(good_ticks: u32) -> u32 {
    if good_ticks < u32::MAX {
        (good_ticks + 1) as u32
    } else {
        good_ticks
    }
}

/// What a tick makes of the rate, and how many good ticks there are then, given how
/// many there were.
pub open spec fn rate_step(
    demand: Demand,
    rate_limited: bool,
    in_slow_start: bool,
    good_ticks: u32,
) -> (RateStep, u32) {
    match demand {
        Demand::Unknown => (RateStep::Hold, good_ticks),
        Demand::Excessive { slowing_helps } => if slowing_helps {
            (RateStep::Reduce, 0)
        } else {
            (RateStep::Endure, good_ticks)
        },
        Demand::Healthy => if !rate_limited {
            (RateStep::Settle, good_ticks)
        } else if in_slow_start || counted(good_ticks) >= GOOD_TICKS_NEEDED {
            (RateStep::Grow, counted(good_ticks))
        } else {
            (RateStep::Settle, counted(good_ticks))
        },
    }
}

/// Decides when the rate changes. By how much is not its business.
pub struct RatePolicy {
    good_ticks: u32,
}

impl View for RatePolicy {
    type V = u32;

    closed spec fn view(&self) -> u32 {
        self.good_ticks
    }
}

impl Default for RatePolicy {
    fn default() -> (policy: RatePolicy)
        ensures
            policy@ == 0,
    {
        RatePolicy { good_ticks: 0 }
    }
}

impl RatePolicy {
    /// Decides what becomes of the rate: excessive repairs reduce it as long as that
    /// helps; without them it grows while it is what holds the sender back, at once
    /// in slow start and after some good ticks otherwise.
    pub fn tick(&mut self, demand: Demand, rate_limited: bool, in_slow_start: bool) -> (step:
        RateStep)
        ensures
            (step, final(self)@) == rate_step(
                demand,
                rate_limited,
                in_slow_start,
                old(self)@,
            ),
    {
        match demand {
            Demand::Unknown => RateStep::Hold,
            Demand::Excessive { slowing_helps } => {
                if slowing_helps {
                    self.good_ticks = 0;
                    RateStep::Reduce
                } else {
                    RateStep::Endure
                }
            },
            Demand::Healthy => {
                if !rate_limited {
                    return RateStep::Settle;
                }
                self.good_ticks = self.good_ticks.saturating_add(1);
                if in_slow_start || self.good_ticks >= GOOD_TICKS_NEEDED {
                    RateStep::Grow
                } else {
                    RateStep::Settle
                }
            },
        }
    }
}

/// The rate never grows on a tick that found excessive repairs or no report, nor
/// while something else than the rate holds the sender back; and it is never
/// reduced but on excessive repairs.
pub proof fn the_rate_follows_the_demand(
    demand: Demand,
    rate_limited: bool,
    in_slow_start: bool,
    good_ticks: u32,
)
    ensures
        (rate_step(demand, rate_limited, in_slow_start, good_ticks).0 is Grow) ==> demand is Healthy
            && rate_limited,
        (rate_step(demand, rate_limited, in_slow_start, good_ticks).0 is Reduce) <==> demand
            == (Demand::Excessive { slowing_helps: true }),
{
}

/// What a tick finds.
pub struct TickView {
    pub demand: Demand,
    pub rate_limited: bool,
    pub in_slow_start: bool,
}

/// How many good ticks a new policy counted after those ticks.
pub open spec fn good_ticks_after(ticks: Seq<TickView>) -> u32
    decreases ticks.len(),
{
    if ticks.len() == 0 {
        0
    } else {
        let tick = ticks.last();
        rate_step(
            tick.demand,
            tick.rate_limited,
            tick.in_slow_start,
            good_ticks_after(ticks.drop_last()),
        ).1
    }
}

/// What the last of those ticks made of the rate.
pub open spec fn last_step(ticks: Seq<TickView>) -> RateStep {
    let tick = ticks.last();
    rate_step(
        tick.demand,
        tick.rate_limited,
        tick.in_slow_start,
        good_ticks_after(ticks.drop_last()),
    ).0
}

/// Whether a tick is a good one: repairs are healthy, and it is the rate that holds the
/// sender back.
pub open spec fn is_good(tick: TickView) -> bool {
    tick.demand == Demand::Healthy && tick.rate_limited
}

/// Whether a tick reduces the rate: repairs are excessive, and sending slower may help.
pub open spec fn reduces(tick: TickView) -> bool {
    tick.demand == (Demand::Excessive { slowing_helps: true })
}

/// Whether that many ticks at least were good since the last that reduced the rate.
pub open spec fn enough_good(ticks: Seq<TickView>, count: nat) -> bool {
    exists|from: int|
        #![trigger ticks.skip(from)]
        0 <= from <= ticks.len() && (forall|i: int|
            from <= i < ticks.len() ==> !reduces(#[trigger] ticks[i])) && ticks.skip(from).filter(
            |tick: TickView| is_good(tick),
        ).len() >= count
}

proof fn lemma_good_ticks(ticks: Seq<TickView>, from: int)
    requires
        0 <= from <= ticks.len(),
        forall|i: int| from <= i < ticks.len() ==> !reduces(#[trigger] ticks[i]),
    ensures
        ({
            let good = ticks.skip(from).filter(|tick: TickView| is_good(tick)).len();
            let counted = good_ticks_after(ticks);
            &&& counted >= good || counted == u32::MAX
            &&& from == 0 || reduces(ticks[from - 1]) ==> counted <= good
        }),
    decreases ticks.len(),
{
    reveal(Seq::filter);
    let f = |tick: TickView| is_good(tick);
    if from == ticks.len() {
        assert(ticks.skip(from) =~= Seq::<TickView>::empty());
        assert(ticks.skip(from).filter(f).len() == 0);
    } else {
        let earlier = ticks.drop_last();
        lemma_good_ticks(earlier, from);
        assert(ticks.skip(from).drop_last() =~= earlier.skip(from));
        assert(ticks.skip(from).last() == ticks.last());
        assert(!reduces(ticks[ticks.len() - 1]));
    }
}

proof fn lemma_since_last_reduction(ticks: Seq<TickView>) -> (from: int)
    ensures
        0 <= from <= ticks.len(),
        forall|i: int| from <= i < ticks.len() ==> !reduces(#[trigger] ticks[i]),
        from == 0 || reduces(ticks[from - 1]),
    decreases ticks.len(),
{
    if ticks.len() == 0 || reduces(ticks.last()) {
        ticks.len() as int
    } else {
        let from = lemma_since_last_reduction(ticks.drop_last());
        assert(from > 0 ==> ticks.drop_last()[from - 1] == ticks[from - 1]);
        assert forall|i: int| from <= i < ticks.len() implies !reduces(#[trigger] ticks[i]) by {
            if i < ticks.len() - 1 {
                assert(ticks.drop_last()[i] == ticks[i]);
            }
        }
        from
    }
}

/// Whatever ticks came before, a tick makes the rate grow exactly where repairs are
/// healthy, the rate is what holds the sender back, and the transfer is in slow start or
/// three good ticks came since the rate was last reduced, this one among them. On every
/// other healthy tick the rate stays. Excessive repairs reduce it exactly where that may
/// help, and are endured otherwise; without reports it is held.
pub proof fn the_rate_grows_when_it_is_due(ticks: Seq<TickView>)
    requires
        ticks.len() > 0,
    ensures
        ({
            let tick = ticks.last();
            let step = last_step(ticks);
            &&& step == RateStep::Grow <==> is_good(tick) && (tick.in_slow_start || enough_good(
                ticks,
                3,
            ))
            &&& step == RateStep::Settle <==> tick.demand == Demand::Healthy && step
                != RateStep::Grow
            &&& step == RateStep::Reduce <==> reduces(tick)
            &&& step == RateStep::Endure <==> tick.demand == (Demand::Excessive {
                slowing_helps: false,
            })
            &&& step == RateStep::Hold <==> tick.demand == Demand::Unknown
        }),
{
    let tick = ticks.last();
    if is_good(tick) {
        let from = lemma_since_last_reduction(ticks);
        lemma_good_ticks(ticks, from);
        let good = ticks.skip(from).filter(|tick: TickView| is_good(tick)).len();
        if good >= 3 {
            assert(enough_good(ticks, 3));
        }
        if enough_good(ticks, 3) {
            let other = choose|other: int|
                #![trigger ticks.skip(other)]
                0 <= other <= ticks.len() && (forall|i: int|
                    other <= i < ticks.len() ==> !reduces(#[trigger] ticks[i])) && ticks.skip(
                    other,
                ).filter(|tick: TickView| is_good(tick)).len() >= 3;
            lemma_good_ticks(ticks, other);
        }
    }
}

} // verus!
