//! Which gaps to ask the sender about.

use crate::receiver::assembler;
use crate::time;
use crate::time::RENAK_INTERVAL;
use std::collections::HashMap;
use vstd::prelude::*;

verus! {

broadcast use vstd::std_specs::hash::group_hash_axioms;

/// When each slice was last asked about, and how many requests were made.
#[verifier::ext_equal]
pub struct NaksView {
    pub sent: Map<u32, u64>,
    pub total: u64,
}

impl NaksView {
    /// Whether a slice is worth asking about: it was never asked about, or so long
    /// ago that the answer was probably lost too.
    pub open spec fn is_due(self, slice_no: u32, now: u64) -> bool {
        self.sent.dom().contains(slice_no) ==> time::since(self.sent[slice_no], now)
            >= RENAK_INTERVAL
    }

    /// Those gaps that something is missing from and that are worth asking about.
    pub open spec fn due(self, gaps: Seq<(u32, Seq<u16>)>, now: u64) -> Seq<(u32, Seq<u16>)> {
        gaps.filter(|gap: (u32, Seq<u16>)| gap.1.len() > 0 && self.is_due(gap.0, now))
    }

    /// The state after asking about the gaps that are due.
    pub open spec fn asked(self, gaps: Seq<(u32, Seq<u16>)>, now: u64) -> NaksView {
        NaksView {
            sent: stamped(self.sent, self.due(gaps, now), now),
            total: (self.total + self.due(gaps, now).len()) as u64,
        }
    }

    /// The state after the slices below `next_needed` are forgotten.
    pub open spec fn remembering_from(self, next_needed: u32) -> NaksView {
        NaksView {
            sent: self.sent.remove_keys(
                self.sent.dom().filter(|slice_no: u32| slice_no < next_needed),
            ),
            ..self
        }
    }
}

/// When each slice was last asked about, after all of `due` were.
pub open spec fn stamped(
    sent: Map<u32, u64>,
    due: Seq<(u32, Seq<u16>)>,
    now: u64,
) -> Map<u32, u64>
    decreases due.len(),
{
    if due.len() == 0 {
        sent
    } else {
        stamped(sent, due.drop_last(), now).insert(due.last().0, now)
    }
}

/// The requests for repairs that were made.
pub struct Naks {
    sent: HashMap<u32, u64>,
    total: u64,
}

impl View for Naks {
    type V = NaksView;

    closed spec fn view(&self) -> NaksView {
        NaksView { sent: self.sent@, total: self.total }
    }
}

impl Default for Naks {
    fn default() -> (naks: Naks)
        ensures
            naks@ == (NaksView { sent: Map::empty(), total: 0 }),
    {
        Naks { sent: HashMap::new(), total: 0 }
    }
}

impl Naks {
    /// How many requests were made.
    pub fn total(&self) -> (total: u64)
        ensures
            total == self@.total,
    {
        self.total
    }

    /// Keeps the gaps that are worth asking about, and takes note that they are
    /// asked about now.
    pub fn due(&mut self, gaps: Vec<(u32, Vec<u16>)>, now: u64) -> (due: Vec<(u32, Vec<u16>)>)
        requires
            old(self)@.total + gaps@.len() <= u64::MAX,
        ensures
            final(self)@ == old(self)@.asked(assembler::gap_contents(gaps@), now),
            assembler::gap_contents(due@) == old(self)@.due(
                assembler::gap_contents(gaps@),
                now,
            ),
    {
        let ghost before = self@;
        let ghost all = assembler::gap_contents(gaps@);
        let ghost worth = |gap: (u32, Seq<u16>)| gap.1.len() > 0 && before.is_due(gap.0, now);
        let mut rest = gaps;
        let mut due: Vec<(u32, Vec<u16>)> = Vec::new();
        let mut at: usize = 0;
        proof {
            reveal(Seq::filter);
            assert(all.take(0) =~= Seq::<(u32, Seq<u16>)>::empty());
            assert(assembler::gap_contents(due@) =~= all.take(0).filter(worth));
        }
        while at < rest.len()
            invariant
                at <= rest@.len(),
                rest@.len() == all.len(),
                forall|i: int| at <= i < rest@.len() ==> assembler::gap_contents(rest@)[i] == all[i],
                before == self@,
                worth == (|gap: (u32, Seq<u16>)| gap.1.len() > 0 && before.is_due(gap.0, now)),
                assembler::gap_contents(due@) == all.take(at as int).filter(worth),
                due@.len() <= at,
            decreases rest@.len() - at,
        {
            let ghost listed = due@;
            proof {
                reveal(Seq::filter);
                assert(all.take(at + 1).drop_last() =~= all.take(at as int));
                assert(all.take(at + 1).last() == all[at as int]);
                assert(assembler::gap_contents(rest@)[at as int] == all[at as int]);
            }
            let slice_no: u32 = rest[at].0;
            let mut missing: Vec<u16> = Vec::new();
            std::mem::swap(&mut missing, &mut rest[at].1);
            if missing.len() > 0 && self.is_due(slice_no, now) {
                due.push((slice_no, missing));
                assert(assembler::gap_contents(due@) =~= assembler::gap_contents(listed).push(
                    all[at as int],
                ));
            }
            at += 1;
        }
        assert(all.take(all.len() as int) =~= all);
        let ghost asked = assembler::gap_contents(due@);
        let mut noted: usize = 0;
        assert(asked.take(0) =~= Seq::<(u32, Seq<u16>)>::empty());
        while noted < due.len()
            invariant
                noted <= due@.len(),
                asked == assembler::gap_contents(due@),
                self.total == before.total,
                self.sent@ == stamped(before.sent, asked.take(noted as int), now),
            decreases due@.len() - noted,
        {
            proof {
                assert(asked.take(noted + 1).drop_last() =~= asked.take(noted as int));
            }
            let slice_no: u32 = due[noted].0;
            self.sent.insert(slice_no, now);
            noted += 1;
        }
        assert(asked.take(asked.len() as int) =~= asked);
        self.total = self.total + due.len() as u64;
        due
    }

    /// Forgets the requests for slices below `next_needed`.
    pub fn forget_below(&mut self, next_needed: u32)
        ensures
            final(self)@ == old(self)@.remembering_from(next_needed),
    {
        let ghost before = self.sent@;
        let stale = self.below(next_needed);
        let mut at: usize = 0;
        while at < stale.len()
            invariant
                at <= stale@.len(),
                self.total == old(self).total,
                before == old(self).sent@,
                forall|i: int| 0 <= i < stale@.len() ==> #[trigger] stale@[i] < next_needed,
                forall|s: u32| #[trigger]
                    before.dom().contains(s) && s < next_needed ==> stale@.contains(s),
                forall|s: u32| #[trigger]
                    self.sent@.dom().contains(s) <==> before.dom().contains(s)
                        && !stale@.take(at as int).contains(s),
                forall|s: u32| #[trigger]
                    self.sent@.dom().contains(s) ==> self.sent@[s] == before[s],
            decreases stale@.len() - at,
        {
            let slice_no: u32 = stale[at];
            self.sent.remove(&slice_no);
            proof {
                assert(stale@.take(at + 1) =~= stale@.take(at as int).push(slice_no));
                assert forall|s: u32| #[trigger] self.sent@.dom().contains(s) <==> before.dom().contains(
                    s,
                ) && !stale@.take(at + 1).contains(s) by {
                    let shorter = stale@.take(at as int);
                    let longer = stale@.take(at + 1);
                    if longer.contains(s) && s != slice_no {
                        let i = choose|i: int| 0 <= i < longer.len() && longer[i] == s;
                        assert(shorter[i] == s);
                    }
                    if shorter.contains(s) {
                        let i = choose|i: int| 0 <= i < shorter.len() && shorter[i] == s;
                        assert(longer[i] == s);
                    }
                    assert(longer[at as int] == slice_no);
                }
            }
            at += 1;
        }
        proof {
            assert(stale@.take(stale@.len() as int) =~= stale@);
            assert(self@.sent =~= old(self)@.remembering_from(next_needed).sent) by {
                assert forall|s: u32| stale@.contains(s) implies s < next_needed by {
                    let i = choose|i: int| 0 <= i < stale@.len() && stale@[i] == s;
                    assert(stale@[i] < next_needed);
                }
            }
        }
    }

    fn below(&self, next_needed: u32) -> (stale: Vec<u32>)
        ensures
            forall|i: int| 0 <= i < stale@.len() ==> #[trigger] stale@[i] < next_needed,
            forall|s: u32| #[trigger]
                self.sent@.dom().contains(s) && s < next_needed ==> stale@.contains(s),
    {
        let mut stale: Vec<u32> = Vec::new();
        for slice_no in iter: self.sent.keys()
            invariant
                iter.seq().unref().to_set() == self.sent@.dom(),
                forall|i: int| 0 <= i < stale@.len() ==> #[trigger] stale@[i] < next_needed,
                forall|i: int|
                    0 <= i < iter.index() && #[trigger] iter.seq().unref()[i] < next_needed
                        ==> stale@.contains(iter.seq().unref()[i]),
        {
            let ghost before = stale@;
            if *slice_no < next_needed {
                stale.push(*slice_no);
                assert(stale@[before.len() as int] == *slice_no);
                assert forall|s: u32| before.contains(s) implies stale@.contains(s) by {
                    let i = choose|i: int| 0 <= i < before.len() && before[i] == s;
                    assert(stale@[i] == s);
                }
            }
        }
        stale
    }

    fn is_due(&self, slice_no: u32, now: u64) -> (due: bool)
        ensures
            due == self@.is_due(slice_no, now),
    {
        match self.sent.get(&slice_no) {
            Some(sent) => time::elapsed(*sent, now) >= RENAK_INTERVAL,
            None => true,
        }
    }
}

proof fn lemma_stamped(
    sent: Map<u32, u64>,
    due: Seq<(u32, Seq<u16>)>,
    now: u64,
    slice_no: u32,
)
    ensures
        stamped(sent, due, now).dom().contains(slice_no) <==> sent.dom().contains(slice_no)
            || exists|i: int| 0 <= i < due.len() && (#[trigger] due[i]).0 == slice_no,
        (exists|i: int| 0 <= i < due.len() && (#[trigger] due[i]).0 == slice_no) ==> stamped(
            sent,
            due,
            now,
        )[slice_no] == now,
        !(exists|i: int| 0 <= i < due.len() && (#[trigger] due[i]).0 == slice_no) ==> stamped(
            sent,
            due,
            now,
        )[slice_no] == sent[slice_no],
    decreases due.len(),
{
    if due.len() > 0 {
        let shorter = due.drop_last();
        lemma_stamped(sent, shorter, now, slice_no);
        assert(due[due.len() - 1] == due.last());
        assert forall|i: int| 0 <= i < shorter.len() implies shorter[i] == #[trigger] due[i] by {}
        if exists|i: int| 0 <= i < shorter.len() && (#[trigger] shorter[i]).0 == slice_no {
            let i = choose|i: int| 0 <= i < shorter.len() && (#[trigger] shorter[i]).0 == slice_no;
            assert(due[i].0 == slice_no);
        }
        if exists|i: int| 0 <= i < due.len() && (#[trigger] due[i]).0 == slice_no {
            let i = choose|i: int| 0 <= i < due.len() && (#[trigger] due[i]).0 == slice_no;
            if i < shorter.len() {
                assert(shorter[i].0 == slice_no);
            }
        }
    }
}

/// A slice that was asked about is not asked about again until the repeat interval
/// has passed, unless it is forgotten, and then it is.
pub proof fn asking_is_not_repeated_within_the_interval(
    naks: NaksView,
    gaps: Seq<(u32, Seq<u16>)>,
    now: u64,
    later: u64,
    asked: int,
)
    requires
        0 <= asked < naks.due(gaps, now).len(),
    ensures
        naks.asked(gaps, now).is_due(naks.due(gaps, now)[asked].0, later) <==> time::since(
            now,
            later,
        ) >= RENAK_INTERVAL,
        naks.asked(gaps, now).remembering_from((naks.due(gaps, now)[asked].0 + 1) as u32).is_due(
            naks.due(gaps, now)[asked].0,
            later,
        ) || naks.due(gaps, now)[asked].0 == u32::MAX,
{
    let due = naks.due(gaps, now);
    lemma_stamped(naks.sent, due, now, due[asked].0);
    assert(due[asked].0 == due[asked].0);
}

/// What happens to the requests for repairs.
pub enum StepView {
    /// Gaps are looked at, and those that are due are asked about.
    Ask { gaps: Seq<(u32, Seq<u16>)>, now: u64 },
    /// The slices below one are forgotten.
    Forget(u32),
}

impl NaksView {
    /// The state after it happened.
    pub open spec fn stepped(self, step: StepView) -> NaksView {
        match step {
            StepView::Ask { gaps, now } => self.asked(gaps, now),
            StepView::Forget(next_needed) => self.remembering_from(next_needed),
        }
    }

    /// The gaps that are asked about then.
    pub open spec fn asking(self, step: StepView) -> Seq<(u32, Seq<u16>)> {
        match step {
            StepView::Ask { gaps, now } => self.due(gaps, now),
            StepView::Forget(_) => Seq::empty(),
        }
    }
}

/// The state after all of that happened, one after another, where no request had been
/// made.
pub open spec fn after_all(steps: Seq<StepView>) -> NaksView
    decreases steps.len(),
{
    if steps.len() == 0 {
        NaksView { sent: Map::empty(), total: 0 }
    } else {
        after_all(steps.drop_last()).stepped(steps.last())
    }
}

/// How many gaps were asked about by then.
pub open spec fn requests_made(steps: Seq<StepView>) -> nat
    decreases steps.len(),
{
    if steps.len() == 0 {
        0
    } else {
        requests_made(steps.drop_last()) + after_all(steps.drop_last()).asking(steps.last()).len()
    }
}

/// Whether a slice is among gaps.
pub open spec fn is_among(gaps: Seq<(u32, Seq<u16>)>, slice_no: u32) -> bool {
    exists|i: int| 0 <= i < gaps.len() && (#[trigger] gaps[i]).0 == slice_no
}

/// When a slice was last asked about, unless it was forgotten since.
pub open spec fn last_asked(steps: Seq<StepView>, slice_no: u32) -> Option<u64>
    decreases steps.len(),
{
    if steps.len() == 0 {
        None
    } else {
        match steps.last() {
            StepView::Ask { gaps, now } => if is_among(
                after_all(steps.drop_last()).due(gaps, now),
                slice_no,
            ) {
                Some(now)
            } else {
                last_asked(steps.drop_last(), slice_no)
            },
            StepView::Forget(next_needed) => if slice_no < next_needed {
                None
            } else {
                last_asked(steps.drop_last(), slice_no)
            },
        }
    }
}

/// Whatever happened, the gaps that are asked about are those that something is
/// missing from and that were not asked about since they were last forgotten, or
/// last so long ago that the repeat interval has passed. They stay as they are and
/// in order, and the requests are counted.
pub proof fn gaps_are_asked_about_when_they_are_due(
    steps: Seq<StepView>,
    gaps: Seq<(u32, Seq<u16>)>,
    now: u64,
)
    requires
        requests_made(steps) <= u64::MAX,
    ensures
        after_all(steps).due(gaps, now) == gaps.filter(
            |gap: (u32, Seq<u16>)|
                gap.1.len() > 0 && (last_asked(steps, gap.0) matches Some(asked) ==> time::since(
                    asked,
                    now,
                ) >= RENAK_INTERVAL),
        ),
        after_all(steps).total == requests_made(steps),
{
    lemma_last_asked(steps);
    let naks = after_all(steps);
    let due = |gap: (u32, Seq<u16>)| gap.1.len() > 0 && naks.is_due(gap.0, now);
    let told = |gap: (u32, Seq<u16>)|
        gap.1.len() > 0 && (last_asked(steps, gap.0) matches Some(asked) ==> time::since(
            asked,
            now,
        ) >= RENAK_INTERVAL);
    assert forall|gap: (u32, Seq<u16>)| #[trigger] due(gap) == told(gap) by {
        assert(naks.sent.dom().contains(gap.0) <==> last_asked(steps, gap.0) is Some);
    }
    assert(due =~= told);
}

proof fn lemma_last_asked(steps: Seq<StepView>)
    requires
        requests_made(steps) <= u64::MAX,
    ensures
        after_all(steps).total == requests_made(steps),
        forall|slice_no: u32|
            #![trigger after_all(steps).sent.dom().contains(slice_no)]
            #![trigger last_asked(steps, slice_no)]
            last_asked(steps, slice_no) == if after_all(steps).sent.dom().contains(slice_no) {
                Some(after_all(steps).sent[slice_no])
            } else {
                None
            },
    decreases steps.len(),
{
    if steps.len() > 0 {
        let earlier = steps.drop_last();
        lemma_last_asked(earlier);
        let before = after_all(earlier);
        let now = after_all(steps);
        assert forall|slice_no: u32|
            #![trigger after_all(steps).sent.dom().contains(slice_no)]
            last_asked(steps, slice_no) == if now.sent.dom().contains(slice_no) {
                Some(now.sent[slice_no])
            } else {
                None
            } by {
            assert(before.sent.dom().contains(slice_no) <==> last_asked(earlier, slice_no) is Some);
            if let StepView::Ask { gaps, now: at } = steps.last() {
                lemma_stamped(before.sent, before.due(gaps, at), at, slice_no);
            }
        }
    }
}

} // verus!
