//! What a group is told over its life, and what it says to that.

use crate::proto::payload::{NakView, Stats};
use crate::sender::group;
use crate::sender::group::GroupView;
use crate::time;
use crate::time::HOLDOFF;
use vstd::prelude::*;

verus! {

/// What a group is told, with what it says to a report.
pub enum StepView {
    /// A receiver joins.
    Join(u64),
    /// A receiver leaves.
    Leave(u64),
    /// The receivers that were silent for that long are let go.
    Silent { now: u64, limit: u64 },
    /// A receiver reports.
    Report { stats: Stats, needed_from: Option<u32> },
    /// A receiver asks for shards.
    Request { nak: NakView, now: u64 },
    /// A receiver was heard of.
    Seen { receiver_id: u64, now: u64 },
    /// Every receiver is taken to be heard of.
    AllSeen(u64),
    /// The number of slices is known.
    Eof(u32),
    /// Slices were handed out.
    Emitted(u32),
}

/// A group that was told nothing.
pub open spec fn new_group() -> GroupView {
    GroupView {
        participants: Map::empty(),
        needed_from: 0,
        total_slices: None,
        emitted: 0,
        suppressed: Map::empty(),
    }
}

impl GroupView {
    /// Whether that is what the group comes to.
    pub open spec fn leads_to(self, step: StepView, after: GroupView) -> bool {
        match step {
            StepView::Join(receiver_id) => after == (GroupView {
                participants: self.participants.insert(receiver_id, group::newcomer()),
                ..self
            }),
            StepView::Leave(receiver_id) => after == (GroupView {
                participants: self.participants.remove(receiver_id),
                ..self
            }),
            StepView::Silent { now, limit } => after == self.without_silent(now, limit),
            StepView::Report { stats, needed_from } => self.takes_report(
                stats,
                needed_from,
                after,
            ),
            StepView::Request { nak, now } => after == self.after_request(nak, now),
            StepView::Seen { receiver_id, now } => after == self.seen(receiver_id, now),
            StepView::AllSeen(now) => after == self.all_seen(now),
            StepView::Eof(total_slices) => after == (GroupView {
                total_slices: Some(total_slices),
                ..self
            }),
            StepView::Emitted(emit_floor) => after == self.with_emitted(emit_floor),
        }
    }
}

/// Whether a new group comes to be each of `groups` in turn, one step after another.
pub open spec fn is_life(groups: Seq<GroupView>, steps: Seq<StepView>) -> bool {
    &&& groups.len() == steps.len() + 1
    &&& groups[0] == new_group()
    &&& forall|i: int|
        #![trigger steps[i]]
        0 <= i < steps.len() ==> groups[i].leads_to(steps[i], groups[i + 1])
}

/// The last slice that a report was answered with in the first `upto` steps, or
/// the first slice of all.
pub open spec fn last_answer(steps: Seq<StepView>, upto: int) -> u32
    decreases upto,
{
    if upto <= 0 {
        0
    } else {
        match steps[upto - 1] {
            StepView::Report { stats, needed_from: Some(slice_no) } => slice_no,
            _ => last_answer(steps, upto - 1),
        }
    }
}

/// How many slices the group was told last that there are, in the first `upto` steps.
pub open spec fn last_end(steps: Seq<StepView>, upto: int) -> Option<u32>
    decreases upto,
{
    if upto <= 0 {
        None
    } else {
        match steps[upto - 1] {
            StepView::Eof(total_slices) => Some(total_slices),
            _ => last_end(steps, upto - 1),
        }
    }
}

/// The slice that a receiver reported last to need first, in the first `upto` steps
/// and since it joined: the first of all where it did not report yet, and none where
/// it is not of the group.
pub open spec fn last_report(
    groups: Seq<GroupView>,
    steps: Seq<StepView>,
    upto: int,
    receiver_id: u64,
) -> Option<u32>
    decreases upto,
{
    if upto <= 0 {
        None
    } else {
        let before = last_report(groups, steps, upto - 1, receiver_id);
        match steps[upto - 1] {
            StepView::Join(id) => if id == receiver_id {
                Some(0)
            } else {
                before
            },
            StepView::Leave(id) => if id == receiver_id {
                None
            } else {
                before
            },
            StepView::Silent { now, limit } => if groups[upto - 1].is_silent(
                receiver_id,
                now,
                limit,
            ) {
                None
            } else {
                before
            },
            StepView::Report { stats, .. } => if stats.receiver_id == receiver_id && before is Some {
                Some(stats.next_needed_slice)
            } else {
                before
            },
            _ => before,
        }
    }
}

/// Whether that is the least that any receiver reported last to need first.
pub open spec fn is_least(
    groups: Seq<GroupView>,
    steps: Seq<StepView>,
    upto: int,
    slice_no: u32,
) -> bool {
    &&& exists|id: u64| #[trigger] last_report(groups, steps, upto, id) == Some(slice_no)
    &&& forall|id: u64|
        #[trigger] last_report(groups, steps, upto, id) matches Some(other) ==> slice_no <= other
}

/// A group knows of each receiver what it reported last, and of the end what it was
/// told last, and needs what it said last.
pub proof fn a_group_knows_what_it_was_told(
    groups: Seq<GroupView>,
    steps: Seq<StepView>,
    upto: int,
)
    requires
        is_life(groups, steps),
        0 <= upto <= steps.len(),
    ensures
        groups[upto].needed_from == last_answer(steps, upto),
        groups[upto].total_slices == last_end(steps, upto),
        groups[upto].participants.dom().finite(),
        forall|id: u64|
            #![trigger groups[upto].participants.dom().contains(id)]
            #![trigger last_report(groups, steps, upto, id)]
            last_report(groups, steps, upto, id) == if groups[upto].participants.dom().contains(
                id,
            ) {
                Some(groups[upto].participants[id].next_needed)
            } else {
                None
            },
    decreases upto,
{
    if upto > 0 {
        a_group_knows_what_it_was_told(groups, steps, upto - 1);
        let before = groups[upto - 1];
        let after = groups[upto];
        let step = steps[upto - 1];
        assert(before.leads_to(step, after));
        match step {
            StepView::Request { nak, now } => {
                group::lemma_serving_keeps_progress(
                    before,
                    nak.slice_no,
                    nak.missing,
                    now,
                    nak.missing.len() as int,
                );
            },
            StepView::Silent { now, limit } => {
                assert(after.participants.dom().subset_of(before.participants.dom()));
                vstd::set_lib::lemma_set_subset_finite(
                    before.participants.dom(),
                    after.participants.dom(),
                );
            },
            StepView::AllSeen(now) => {
                assert(after.participants.dom() =~= before.participants.dom());
            },
            _ => {},
        }
        assert forall|id: u64|
            #![trigger groups[upto].participants.dom().contains(id)]
            last_report(groups, steps, upto, id) == if after.participants.dom().contains(id) {
                Some(after.participants[id].next_needed)
            } else {
                None
            } by {
            assert(last_report(groups, steps, upto - 1, id)
                == if before.participants.dom().contains(id) {
                Some(before.participants[id].next_needed)
            } else {
                None
            });
        }
    }
}

/// A group is complete exactly when someone is in it, the end is known, and the last
/// report of everyone in it reaches the end.
pub proof fn a_group_is_complete_when_every_report_reaches_the_end(
    groups: Seq<GroupView>,
    steps: Seq<StepView>,
    at: int,
)
    requires
        is_life(groups, steps),
        0 <= at <= steps.len(),
    ensures
        groups[at].all_complete() <==> {
            &&& exists|id: u64| #[trigger] last_report(groups, steps, at, id) is Some
            &&& last_end(steps, at) is Some
            &&& forall|id: u64|
                #[trigger] last_report(groups, steps, at, id) matches Some(next_needed)
                    ==> next_needed >= last_end(steps, at)->0
        },
{
    a_group_knows_what_it_was_told(groups, steps, at);
    let group = groups[at];
    let members = group.participants.dom();
    if exists|id: u64| #[trigger] last_report(groups, steps, at, id) is Some {
        let id = choose|id: u64| #[trigger] last_report(groups, steps, at, id) is Some;
        assert(members.contains(id));
        if members.len() == 0 {
            assert(members =~= Set::<u64>::empty());
        }
        if group.all_complete() {
            assert(group.is_complete(id));
            assert forall|other: u64|
                #[trigger] last_report(groups, steps, at, other) is Some implies last_report(
                groups,
                steps,
                at,
                other,
            )->0 >= last_end(steps, at)->0 by {
                assert(members.contains(other));
                assert(group.is_complete(other));
            }
        } else if last_end(steps, at) is Some {
            let behind = choose|other: u64| #[trigger]
                members.contains(other) && !group.is_complete(other);
            assert(last_report(groups, steps, at, behind) is Some);
        }
    } else {
        if members.len() > 0 {
            let id = members.choose();
            assert(members.contains(id));
            assert(last_report(groups, steps, at, id) is Some);
        }
    }
}

/// When a shard was last sent again, in the first `upto` steps, unless its slice was
/// passed since: nobody needs it any more.
pub open spec fn last_served(
    groups: Seq<GroupView>,
    steps: Seq<StepView>,
    upto: int,
    slice_no: u32,
    slot: u16,
) -> Option<u64>
    decreases upto,
{
    if upto <= 0 {
        None
    } else {
        let before = last_served(groups, steps, upto - 1, slice_no, slot);
        match steps[upto - 1] {
            StepView::Request { nak, now } => if nak.slice_no == slice_no && groups[upto
                - 1].served(nak, now).contains(slot) {
                Some(now)
            } else {
                before
            },
            StepView::Report { stats, needed_from: Some(needed_from) } => if slice_no
                < needed_from {
                None
            } else {
                before
            },
            _ => before,
        }
    }
}

/// What looking at a request does to one shard: it is served where it was asked for
/// and not held off, and only then is it stamped.
proof fn lemma_serving(
    group: GroupView,
    slice_no: u32,
    missing: Seq<u16>,
    now: u64,
    upto: int,
    slice: u32,
    slot: u16,
)
    requires
        0 <= upto <= missing.len(),
    ensures
        ({
            let (after, served) = group.serving(slice_no, missing, now, upto);
            let shard = group::shard_no(slice, slot);
            &&& served.no_duplicates()
            &&& served.contains(slot) <==> missing.take(upto).contains(slot) && !group.is_held_off(
                slice_no,
                slot,
                now,
            )
            &&& slice == slice_no && served.contains(slot) ==> after.suppressed.dom().contains(
                shard,
            ) && after.suppressed[shard] == now
            &&& !(slice == slice_no && served.contains(slot)) ==> {
                &&& after.suppressed.dom().contains(shard) <==> group.suppressed.dom().contains(
                    shard,
                )
                &&& after.suppressed[shard] == group.suppressed[shard]
            }
        }),
    decreases upto,
{
    let shard = group::shard_no(slice, slot);
    if upto > 0 {
        let last = missing[upto - 1];
        lemma_serving(group, slice_no, missing, now, upto - 1, slice, slot);
        lemma_serving(group, slice_no, missing, now, upto - 1, slice_no, slot);
        lemma_serving(group, slice_no, missing, now, upto - 1, slice_no, last);
        let (before, served) = group.serving(slice_no, missing, now, upto - 1);
        group::shard_numbers_are_unique(slice, slot, slice_no, last);
        let shorter = missing.take(upto - 1);
        assert(missing.take(upto) =~= shorter.push(last));
        assert(shorter.push(last).contains(slot) <==> shorter.contains(slot) || slot == last) by {
            if shorter.contains(slot) {
                let i = choose|i: int| 0 <= i < shorter.len() && shorter[i] == slot;
                assert(shorter.push(last)[i] == slot);
            }
            assert(shorter.push(last)[upto - 1] == last);
        }
        let longer = served.push(last);
        assert(longer.contains(slot) <==> served.contains(slot) || slot == last) by {
            if served.contains(slot) {
                let i = choose|i: int| 0 <= i < served.len() && served[i] == slot;
                assert(longer[i] == slot);
            }
            assert(longer[served.len() as int] == last);
        }
    } else {
        assert(missing.take(0) =~= Seq::<u16>::empty());
    }
}

/// A group remembers of each shard when it was last sent again.
proof fn lemma_last_served(
    groups: Seq<GroupView>,
    steps: Seq<StepView>,
    upto: int,
    slice_no: u32,
    slot: u16,
)
    requires
        is_life(groups, steps),
        0 <= upto <= steps.len(),
    ensures
        last_served(groups, steps, upto, slice_no, slot)
            == if groups[upto].suppressed.dom().contains(group::shard_no(slice_no, slot)) {
            Some(groups[upto].suppressed[group::shard_no(slice_no, slot)])
        } else {
            None
        },
    decreases upto,
{
    if upto > 0 {
        lemma_last_served(groups, steps, upto - 1, slice_no, slot);
        let before = groups[upto - 1];
        let after = groups[upto];
        let step = steps[upto - 1];
        assert(before.leads_to(step, after));
        group::shard_numbers_are_unique(slice_no, slot, slice_no, slot);
        match step {
            StepView::Request { nak, now } => {
                lemma_serving(
                    before,
                    nak.slice_no,
                    nak.missing,
                    now,
                    nak.missing.len() as int,
                    slice_no,
                    slot,
                );
            },
            _ => {},
        }
    }
}

/// Over the life of a group a request is served where it comes from a receiver of the
/// group and is about a slice that is still needed: of the shards that it asks for
/// those are sent again, each once, that were not sent again since their slice was
/// last passed, or so long ago that the hold-off has passed.
pub proof fn a_request_is_served_where_it_is_needed(
    groups: Seq<GroupView>,
    steps: Seq<StepView>,
    at: int,
    slot: u16,
)
    requires
        is_life(groups, steps),
        0 <= at < steps.len(),
        steps[at] is Request,
    ensures
        steps[at] matches StepView::Request { nak, now } && {
            let served = groups[at].served(nak, now);
            &&& served.no_duplicates()
            &&& served.contains(slot) <==> {
                &&& last_report(groups, steps, at, nak.receiver_id) is Some
                &&& nak.slice_no >= last_answer(steps, at)
                &&& nak.missing.contains(slot)
                &&& last_served(groups, steps, at, nak.slice_no, slot) matches Some(sent)
                    ==> time::since(sent, now) >= HOLDOFF
            }
        },
{
    a_group_knows_what_it_was_told(groups, steps, at);
    if let StepView::Request { nak, now } = steps[at] {
        let group = groups[at];
        lemma_last_served(groups, steps, at, nak.slice_no, slot);
        lemma_serving(
            group,
            nak.slice_no,
            nak.missing,
            now,
            nak.missing.len() as int,
            nak.slice_no,
            slot,
        );
        assert(nak.missing.take(nak.missing.len() as int) =~= nak.missing);
        assert(last_report(groups, steps, at, nak.receiver_id) is Some
            <==> group.participants.dom().contains(nak.receiver_id));
    }
}

/// Whether what the group needs moves past a slice in the steps from one to another.
pub open spec fn is_passed(steps: Seq<StepView>, from: int, upto: int, slice_no: u32) -> bool {
    exists|i: int|
        from <= i < upto && ((#[trigger] steps[i]) matches StepView::Report {
            needed_from: Some(needed_from),
            ..
        } && slice_no < needed_from)
}

/// Whether a shard is sent again at a step.
pub open spec fn serves(
    groups: Seq<GroupView>,
    steps: Seq<StepView>,
    at: int,
    slice_no: u32,
    slot: u16,
) -> bool {
    steps[at] matches StepView::Request { nak, now } && nak.slice_no == slice_no
        && groups[at].served(nak, now).contains(slot)
}

proof fn lemma_served_since(
    groups: Seq<GroupView>,
    steps: Seq<StepView>,
    earlier: int,
    later: int,
    slice_no: u32,
    slot: u16,
) -> (last: int)
    requires
        0 <= earlier < later <= steps.len(),
        serves(groups, steps, earlier, slice_no, slot),
        !is_passed(steps, earlier, later, slice_no),
    ensures
        earlier <= last < later,
        serves(groups, steps, last, slice_no, slot),
        last_served(groups, steps, later, slice_no, slot) == Some(steps[last]->Request_now),
    decreases later,
{
    if serves(groups, steps, later - 1, slice_no, slot) {
        later - 1
    } else {
        assert(!is_passed(steps, earlier, later - 1, slice_no)) by {
            if is_passed(steps, earlier, later - 1, slice_no) {
                let i = choose|i: int|
                    earlier <= i < later - 1 && ((#[trigger] steps[i]) matches StepView::Report {
                        needed_from: Some(needed_from),
                        ..
                    } && slice_no < needed_from);
                assert(earlier <= i < later);
            }
        }
        let last = lemma_served_since(groups, steps, earlier, later - 1, slice_no, slot);
        assert(!(steps[later - 1] matches StepView::Report { needed_from: Some(needed_from), .. }
            && slice_no < needed_from));
        last
    }
}

/// Whether time does not go back from one request to a later one.
pub open spec fn time_goes_on(steps: Seq<StepView>) -> bool {
    forall|i: int, j: int|
        #![trigger steps[i], steps[j]]
        0 <= i <= j < steps.len() && steps[i] is Request && steps[j] is Request
            ==> steps[i]->Request_now <= steps[j]->Request_now
}

/// Whenever a shard is sent again twice, its slice not passed in between, that is at
/// least the hold-off apart.
pub proof fn servings_are_apart(
    groups: Seq<GroupView>,
    steps: Seq<StepView>,
    earlier: int,
    later: int,
    slice_no: u32,
    slot: u16,
)
    requires
        is_life(groups, steps),
        0 <= earlier < later < steps.len(),
        serves(groups, steps, earlier, slice_no, slot),
        serves(groups, steps, later, slice_no, slot),
        time_goes_on(steps),
        !is_passed(steps, earlier, later, slice_no),
    ensures
        steps[later]->Request_now - steps[earlier]->Request_now >= HOLDOFF,
{
    let last = lemma_served_since(groups, steps, earlier, later, slice_no, slot);
    a_request_is_served_where_it_is_needed(groups, steps, later, slot);
}

/// A report from a receiver of the group is answered with the least slice that any
/// receiver reported last to need first, this report among them, where that is more
/// than was answered before, and with nothing otherwise. One from a stranger is
/// answered with nothing and changes nothing.
pub proof fn a_report_is_answered_with_what_the_slowest_needs(
    groups: Seq<GroupView>,
    steps: Seq<StepView>,
    at: int,
)
    requires
        is_life(groups, steps),
        0 <= at < steps.len(),
        steps[at] is Report,
    ensures
        steps[at] matches StepView::Report { stats, needed_from } && if last_report(
            groups,
            steps,
            at,
            stats.receiver_id,
        ) is Some {
            exists|least: u32| #[trigger]
                is_least(groups, steps, at + 1, least) && needed_from == if least > last_answer(
                    steps,
                    at,
                ) {
                    Some(least)
                } else {
                    None
                }
        } else {
            needed_from is None && groups[at + 1] == groups[at]
        },
{
    a_group_knows_what_it_was_told(groups, steps, at);
    a_group_knows_what_it_was_told(groups, steps, at + 1);
    let before = groups[at];
    let after = groups[at + 1];
    assert(before.leads_to(steps[at], after));
    if let StepView::Report { stats, needed_from } = steps[at] {
        assert(last_report(groups, steps, at, stats.receiver_id) is Some
            <==> before.participants.dom().contains(stats.receiver_id));
        if before.participants.dom().contains(stats.receiver_id) {
            let reported = before.reported(stats);
            assert(reported.participants.dom().contains(stats.receiver_id));
            let least = match needed_from {
                Some(slice_no) => slice_no,
                None => choose|slice_no: u32| #[trigger]
                    reported.is_slowest(slice_no) && slice_no <= before.needed_from,
            };
            assert(reported.is_slowest(least));
            assert(after.participants == reported.participants);
            let id = choose|id: u64| #[trigger]
                reported.participants.dom().contains(id)
                    && reported.participants[id].next_needed == least;
            assert(after.participants.dom().contains(id));
            assert(last_report(groups, steps, at + 1, id) == Some(least));
            assert forall|id: u64|
                #[trigger] last_report(groups, steps, at + 1, id) is Some implies least
                <= last_report(groups, steps, at + 1, id)->0 by {
                assert(after.participants.dom().contains(id));
                assert(reported.participants.dom().contains(id));
            }
            assert(is_least(groups, steps, at + 1, least));
        }
    }
}

proof fn lemma_answers_rise(
    groups: Seq<GroupView>,
    steps: Seq<StepView>,
    earlier: int,
    later: int,
)
    requires
        is_life(groups, steps),
        0 <= earlier <= later <= steps.len(),
    ensures
        last_answer(steps, earlier) <= last_answer(steps, later),
    decreases later,
{
    if earlier < later {
        lemma_answers_rise(groups, steps, earlier, later - 1);
        a_group_knows_what_it_was_told(groups, steps, later - 1);
        assert(groups[later - 1].leads_to(steps[later - 1], groups[later]));
    }
}

/// Over the life of a group its answers to reports only rise.
pub proof fn answers_only_rise(
    groups: Seq<GroupView>,
    steps: Seq<StepView>,
    earlier: int,
    later: int,
)
    requires
        is_life(groups, steps),
        0 <= earlier < later < steps.len(),
    ensures
        steps[earlier] matches StepView::Report { needed_from: Some(first), .. } ==> (steps[later]
            matches StepView::Report { needed_from: Some(second), .. } ==> first < second),
{
    assert(groups[later].leads_to(steps[later], groups[later + 1]));
    a_group_knows_what_it_was_told(groups, steps, later);
    lemma_answers_rise(groups, steps, earlier + 1, later);
}

/// When a receiver of the group was last heard of, in the first `upto` steps: at the
/// start of time where it was not heard of since it joined, and never where it is not of
/// the group.
pub open spec fn last_heard(
    groups: Seq<GroupView>,
    steps: Seq<StepView>,
    upto: int,
    receiver_id: u64,
) -> Option<u64>
    decreases upto,
{
    if upto <= 0 {
        None
    } else {
        let before = last_heard(groups, steps, upto - 1, receiver_id);
        match steps[upto - 1] {
            StepView::Join(id) => if id == receiver_id {
                Some(0)
            } else {
                before
            },
            StepView::Leave(id) => if id == receiver_id {
                None
            } else {
                before
            },
            StepView::Silent { now, limit } => match before {
                Some(heard) => if now >= heard + limit || limit == 0 {
                    None
                } else {
                    before
                },
                None => None,
            },
            StepView::Seen { receiver_id: id, now } => if id == receiver_id && before is Some {
                Some(now)
            } else {
                before
            },
            StepView::AllSeen(now) => if before is Some {
                Some(now)
            } else {
                None
            },
            _ => before,
        }
    }
}

/// A group is whoever joined and neither left nor was silent for as long as was allowed,
/// whatever else happened, and knows of each when it was last heard of.
pub proof fn a_group_keeps_whoever_is_heard_of(
    groups: Seq<GroupView>,
    steps: Seq<StepView>,
    upto: int,
    receiver_id: u64,
)
    requires
        is_life(groups, steps),
        0 <= upto <= steps.len(),
    ensures
        last_heard(groups, steps, upto, receiver_id)
            == if groups[upto].participants.dom().contains(receiver_id) {
            Some(groups[upto].participants[receiver_id].last_seen)
        } else {
            None
        },
    decreases upto,
{
    if upto > 0 {
        a_group_keeps_whoever_is_heard_of(groups, steps, upto - 1, receiver_id);
        let before = groups[upto - 1];
        let after = groups[upto];
        let step = steps[upto - 1];
        assert(before.leads_to(step, after));
        if let StepView::Request { nak, now } = step {
            group::lemma_serving_keeps_progress(
                before,
                nak.slice_no,
                nak.missing,
                now,
                nak.missing.len() as int,
            );
        }
    }
}

/// Letting the silent go: whoever was last heard of as long ago as is allowed, or
/// longer, is let go, and nobody else; of those who stay everything stays known; and
/// those who are let go are told of, each once, with the slice that each needed first.
pub proof fn exactly_the_silent_are_let_go(
    group: GroupView,
    now: u64,
    limit: u64,
    gone: Seq<(u64, u32)>,
    receiver_id: u64,
)
    requires
        group.lists_silent(now, limit, gone),
    ensures
        ({
            let after = group.without_silent(now, limit);
            let there = group.participants.dom().contains(receiver_id);
            let silent = there && (limit == 0 || now
                >= group.participants[receiver_id].last_seen + limit);
            &&& after.participants.dom().contains(receiver_id) <==> there && !silent
            &&& there && !silent ==> after.participants[receiver_id]
                == group.participants[receiver_id]
            &&& after == (GroupView { participants: after.participants, ..group })
            &&& silent <==> exists|i: int| 0 <= i < gone.len() && (#[trigger] gone[i]).0 == receiver_id
            &&& forall|i: int|
                0 <= i < gone.len() && (#[trigger] gone[i]).0 == receiver_id ==> gone[i].1
                    == group.participants[receiver_id].next_needed
            &&& forall|i: int, j: int| 0 <= i < j < gone.len() ==> gone[i].0 != gone[j].0
        }),
{
    let there = group.participants.dom().contains(receiver_id);
    let silent = there && (limit == 0 || now >= group.participants[receiver_id].last_seen + limit);
    assert(group.is_silent(receiver_id, now, limit) <==> silent);
}

} // verus!
