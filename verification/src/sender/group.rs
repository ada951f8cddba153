//! The receivers of a transfer, and what they still need.

pub mod history;
pub mod laws;

use crate::proto::payload::{Nak, NakView, Stats};
use crate::sender::group::history::StepView;
use crate::state::ReceiverState;
use crate::time;
use crate::time::HOLDOFF;
use std::collections::HashMap;
use vstd::prelude::*;

verus! {

broadcast use vstd::std_specs::hash::group_hash_axioms;

/// What is known of a receiver: the first slice that it needs, when it was last
/// heard of, how long its sink stalled, and how often it asked for repairs.
#[derive(Clone, Copy, Debug, PartialEq, Eq, Structural)]
pub struct Participant {
    pub next_needed: u32,
    pub last_seen: u64,
    pub sink_stall_ms: u32,
    pub naks: u64,
}

impl Default for Participant {
    fn default() -> (participant: Participant)
        ensures
            participant == newcomer(),
    {
        Participant { next_needed: 0, last_seen: 0, sink_stall_ms: 0, naks: 0 }
    }
}

/// What is known of a receiver that just joined.
pub open spec fn newcomer() -> Participant {
    Participant { next_needed: 0, last_seen: 0, sink_stall_ms: 0, naks: 0 }
}

/// The number of a shard among all shards of a transfer.
pub open spec fn shard_no(slice_no: u32, slot: u16) -> u64 {
    (slice_no * 0x1_0000 + slot) as u64
}

/// The state of a group: what is known of each receiver, the first slice that any
/// needs, how many slices there are, how many were handed out, and when each shard
/// was last sent again.
#[verifier::ext_equal]
pub struct GroupView {
    pub participants: Map<u64, Participant>,
    pub needed_from: u32,
    pub total_slices: Option<u32>,
    pub emitted: u32,
    pub suppressed: Map<u64, u64>,
}

impl GroupView {
    /// Whether a receiver has everything.
    pub open spec fn is_complete(self, receiver_id: u64) -> bool {
        &&& self.participants.dom().contains(receiver_id)
        &&& self.total_slices matches Some(total) && self.participants[receiver_id].next_needed
            >= total
    }

    /// Whether there are receivers and every one has everything.
    pub open spec fn all_complete(self) -> bool {
        &&& self.participants.dom().len() > 0
        &&& forall|receiver_id: u64| #[trigger]
            self.participants.dom().contains(receiver_id) ==> self.is_complete(receiver_id)
    }

    /// Whether the slowest receiver needs that slice first. Where there is no
    /// receiver, nothing more is needed than before.
    pub open spec fn is_slowest(self, slice_no: u32) -> bool {
        if self.participants.dom() == Set::<u64>::empty() {
            slice_no == self.needed_from
        } else {
            &&& exists|receiver_id: u64| #[trigger]
                self.participants.dom().contains(receiver_id)
                    && self.participants[receiver_id].next_needed == slice_no
            &&& forall|receiver_id: u64| #[trigger]
                self.participants.dom().contains(receiver_id) ==> slice_no
                    <= self.participants[receiver_id].next_needed
        }
    }

    /// The state after a receiver reported.
    pub open spec fn reported(self, stats: Stats) -> GroupView {
        let before = self.participants[stats.receiver_id];
        GroupView {
            participants: self.participants.insert(
                stats.receiver_id,
                Participant {
                    next_needed: stats.next_needed_slice,
                    sink_stall_ms: stats.sink_stall_ms,
                    ..before
                },
            ),
            ..self
        }
    }

    /// The state after the first slice that is needed moved.
    pub open spec fn advanced(self, needed_from: u32) -> GroupView {
        GroupView {
            needed_from,
            suppressed: self.suppressed.remove_keys(
                self.suppressed.dom().filter(|shard: u64| shard / 0x1_0000 < needed_from),
            ),
            ..self
        }
    }

    /// Whether a shard was sent again so lately that it is not sent once more.
    pub open spec fn is_held_off(self, slice_no: u32, slot: u16, now: u64) -> bool {
        let shard = shard_no(slice_no, slot);
        self.suppressed.dom().contains(shard) && time::since(self.suppressed[shard], now) < HOLDOFF
    }

    /// The state after the first `upto` shards of a request were looked at, and
    /// those that are sent again.
    pub open spec fn serving(
        self,
        slice_no: u32,
        missing: Seq<u16>,
        now: u64,
        upto: int,
    ) -> (GroupView, Seq<u16>)
        decreases upto,
    {
        if upto <= 0 {
            (self, Seq::empty())
        } else {
            let (group, wanted) = self.serving(slice_no, missing, now, upto - 1);
            let slot = missing[upto - 1];
            if group.is_held_off(slice_no, slot, now) {
                (group, wanted)
            } else {
                (
                    GroupView {
                        suppressed: group.suppressed.insert(shard_no(slice_no, slot), now),
                        ..group
                    },
                    wanted.push(slot),
                )
            }
        }
    }

    /// Whether a request is looked at: it comes from a receiver of the group, and
    /// is about a slice that is still needed.
    pub open spec fn heeds(self, nak: NakView) -> bool {
        self.participants.dom().contains(nak.receiver_id) && nak.slice_no >= self.needed_from
    }

    /// The state after a request was counted.
    pub open spec fn asked_by(self, receiver_id: u64) -> GroupView {
        let before = self.participants[receiver_id];
        GroupView {
            participants: self.participants.insert(
                receiver_id,
                Participant {
                    naks: if before.naks < u64::MAX {
                        (before.naks + 1) as u64
                    } else {
                        u64::MAX
                    },
                    ..before
                },
            ),
            ..self
        }
    }

    /// How many slices a receiver is behind what was handed out.
    pub open spec fn behind(self, receiver_id: u64) -> u32 {
        let next_needed = self.participants[receiver_id].next_needed;
        if self.emitted >= next_needed {
            (self.emitted - next_needed) as u32
        } else {
            0
        }
    }

    /// Whether a receiver of the group was silent for that long.
    pub open spec fn is_silent(self, receiver_id: u64, now: u64, limit: u64) -> bool {
        &&& self.participants.dom().contains(receiver_id)
        &&& time::since(self.participants[receiver_id].last_seen, now) >= limit
    }

    /// Whether `needed_from` and `after` are what a report leads to. One from a
    /// stranger leads to nothing; one from a receiver of the group is noted, and
    /// where the slowest receiver now needs a later slice than before, that slice is
    /// what the group needs from.
    pub open spec fn takes_report(
        self,
        stats: Stats,
        needed_from: Option<u32>,
        after: GroupView,
    ) -> bool {
        if !self.participants.dom().contains(stats.receiver_id) {
            needed_from is None && after == self
        } else {
            match needed_from {
                Some(slice_no) => {
                    &&& self.reported(stats).is_slowest(slice_no)
                    &&& slice_no > self.needed_from
                    &&& after == self.reported(stats).advanced(slice_no)
                },
                None => {
                    &&& exists|slice_no: u32| #[trigger]
                        self.reported(stats).is_slowest(slice_no) && slice_no <= self.needed_from
                    &&& after == self.reported(stats)
                },
            }
        }
    }

    /// The shards of a request that are sent again.
    pub open spec fn served(self, nak: NakView, now: u64) -> Seq<u16> {
        if self.heeds(nak) {
            self.serving(nak.slice_no, nak.missing, now, nak.missing.len() as int).1
        } else {
            Seq::empty()
        }
    }

    /// The state after a request was looked at.
    pub open spec fn after_request(self, nak: NakView, now: u64) -> GroupView {
        if self.heeds(nak) {
            self.serving(nak.slice_no, nak.missing, now, nak.missing.len() as int).0.asked_by(
                nak.receiver_id,
            )
        } else if self.participants.dom().contains(nak.receiver_id) {
            self.asked_by(nak.receiver_id)
        } else {
            self
        }
    }

    /// The state after a receiver was heard of.
    pub open spec fn seen(self, receiver_id: u64, now: u64) -> GroupView {
        if self.participants.dom().contains(receiver_id) {
            GroupView {
                participants: self.participants.insert(
                    receiver_id,
                    Participant { last_seen: now, ..self.participants[receiver_id] },
                ),
                ..self
            }
        } else {
            self
        }
    }

    /// The state after every receiver was taken to be heard of.
    pub open spec fn all_seen(self, now: u64) -> GroupView {
        GroupView {
            participants: self.participants.map_values(
                |participant: Participant| Participant { last_seen: now, ..participant },
            ),
            ..self
        }
    }

    /// Whether `gone` are the receivers that were silent for that long, each once
    /// and with the slice that it needed first.
    pub open spec fn lists_silent(self, now: u64, limit: u64, gone: Seq<(u64, u32)>) -> bool {
        &&& forall|i: int|
            #![trigger gone[i]]
            0 <= i < gone.len() ==> self.is_silent(gone[i].0, now, limit) && gone[i].1
                == self.participants[gone[i].0].next_needed
        &&& forall|i: int, j: int| 0 <= i < j < gone.len() ==> gone[i].0 != gone[j].0
        &&& forall|receiver_id: u64| #[trigger]
            self.is_silent(receiver_id, now, limit) ==> exists|i: int|
                0 <= i < gone.len() && (#[trigger] gone[i]).0 == receiver_id
    }

    /// The state after the receivers that were silent for that long were let go.
    pub open spec fn without_silent(self, now: u64, limit: u64) -> GroupView {
        GroupView {
            participants: self.participants.remove_keys(
                self.participants.dom().filter(
                    |receiver_id: u64| self.is_silent(receiver_id, now, limit),
                ),
            ),
            ..self
        }
    }

    /// The state after more slices were handed out.
    pub open spec fn with_emitted(self, emit_floor: u32) -> GroupView {
        GroupView {
            emitted: if self.emitted >= emit_floor {
                self.emitted
            } else {
                emit_floor
            },
            ..self
        }
    }

    /// What there is to say of a receiver.
    pub open spec fn row(self, receiver_id: u64) -> ReceiverState {
        let participant = self.participants[receiver_id];
        ReceiverState {
            receiver_id,
            next_needed_slice: participant.next_needed,
            slices_behind: self.behind(receiver_id),
            naks: participant.naks,
            sink_stall_ms: participant.sink_stall_ms,
        }
    }
}

/// The receivers of a transfer.
pub struct Group {
    participants: HashMap<u64, Participant>,
    needed_from: u32,
    total_slices: Option<u32>,
    emitted: u32,
    suppressed: HashMap<u64, u64>,
}

impl View for Group {
    type V = GroupView;

    closed spec fn view(&self) -> GroupView {
        GroupView {
            participants: self.participants@,
            needed_from: self.needed_from,
            total_slices: self.total_slices,
            emitted: self.emitted,
            suppressed: self.suppressed@,
        }
    }
}

impl Default for Group {
    fn default() -> (group: Group)
        ensures
            group@ == (GroupView {
                participants: Map::empty(),
                needed_from: 0,
                total_slices: None,
                emitted: 0,
                suppressed: Map::empty(),
            }),
    {
        Group {
            participants: HashMap::new(),
            needed_from: 0,
            total_slices: None,
            emitted: 0,
            suppressed: HashMap::new(),
        }
    }
}

impl Group {
    /// There are only so many receivers, and only so many shards that were sent again.
    pub proof fn is_finite(self)
        ensures
            self@.participants.dom().finite(),
            self@.suppressed.dom().finite(),
    {
    }

    /// Takes a receiver in, and says whether it is new. Nothing that was known of it
    /// stays known.
    pub fn join(&mut self, receiver_id: u64) -> (new: bool)
        ensures
            new == !old(self)@.participants.dom().contains(receiver_id),
            old(self)@.leads_to(StepView::Join(receiver_id), final(self)@),
            final(self)@ == (GroupView {
                participants: old(self)@.participants.insert(receiver_id, newcomer()),
                ..old(self)@
            }),
    {
        let before = self.participants.insert(receiver_id, Participant::default());
        before.is_none()
    }

    /// Lets a receiver go, and says whether it was there.
    pub fn leave(&mut self, receiver_id: u64) -> (left: bool)
        ensures
            left == old(self)@.participants.dom().contains(receiver_id),
            old(self)@.leads_to(StepView::Leave(receiver_id), final(self)@),
            final(self)@ == (GroupView {
                participants: old(self)@.participants.remove(receiver_id),
                ..old(self)@
            }),
    {
        let gone = self.participants.remove(&receiver_id);
        assert(gone is None ==> old(self)@.participants.remove(receiver_id)
            =~= old(self)@.participants);
        gone.is_some()
    }

    /// Whether a receiver is in the group.
    pub fn contains(&self, receiver_id: u64) -> (there: bool)
        ensures
            there == self@.participants.dom().contains(receiver_id),
    {
        self.participants.contains_key(&receiver_id)
    }

    /// How many receivers there are.
    pub fn len(&self) -> (len: usize)
        ensures
            len == self@.participants.dom().len(),
    {
        self.participants.len()
    }

    /// How many shards were sent again and are still needed.
    pub fn suppressed_len(&self) -> (len: usize)
        ensures
            len == self@.suppressed.dom().len(),
    {
        self.suppressed.len()
    }

    fn ids(&self) -> (ids: Vec<u64>)
        ensures
            ids@.no_duplicates(),
            ids@.to_set() == self@.participants.dom(),
            ids@.len() == self@.participants.dom().len(),
    {
        let mut ids: Vec<u64> = Vec::new();
        for id in iter: self.participants.keys()
            invariant
                iter.seq().unref().to_set() == self.participants@.dom(),
                iter.seq().no_duplicates(),
                iter.seq().len() == self.participants@.dom().len(),
                ids@.len() == iter.index(),
                ids@ == iter.seq().unref().take(iter.index()),
                iter.index() == iter.seq().len() ==> ids@ =~= iter.seq().unref(),
        {
            proof {
                let all = iter.seq().unref();
                assert(all.take(iter.index() + 1) =~= all.take(iter.index()).push(
                    all[iter.index()],
                ));
            }
            ids.push(*id);
        }
        ids
    }

    /// Whether there are receivers and every one has everything.
    pub fn all_complete(&self) -> (complete: bool)
        ensures
            complete == self@.all_complete(),
    {
        if self.participants.len() == 0 {
            return false;
        }
        let ids = self.ids();
        let mut at: usize = 0;
        while at < ids.len()
            invariant
                at <= ids@.len(),
                ids@.to_set() == self@.participants.dom(),
                forall|i: int| 0 <= i < at ==> self@.is_complete(#[trigger] ids@[i]),
            decreases ids@.len() - at,
        {
            if !self.is_complete(ids[at]) {
                assert(ids@.to_set().contains(ids@[at as int]));
                return false;
            }
            at += 1;
        }
        proof {
            assert forall|receiver_id: u64| #[trigger]
                self@.participants.dom().contains(receiver_id) implies self@.is_complete(
                receiver_id,
            ) by {
                assert(ids@.to_set().contains(receiver_id));
                let i = choose|i: int| 0 <= i < ids@.len() && ids@[i] == receiver_id;
                assert(self@.is_complete(ids@[i]));
            }
        }
        true
    }

    /// How many receivers have everything.
    pub fn complete_count(&self) -> (count: usize)
        ensures
            count == self@.participants.dom().filter(
                |receiver_id: u64| self@.is_complete(receiver_id),
            ).len(),
    {
        let ids = self.ids();
        let ghost complete = |receiver_id: u64| self@.is_complete(receiver_id);
        let ghost mut found: Set<u64> = Set::empty();
        let mut count: usize = 0;
        let mut at: usize = 0;
        while at < ids.len()
            invariant
                at <= ids@.len(),
                count <= at,
                ids@.no_duplicates(),
                found.finite(),
                found.len() == count,
                forall|id: u64|
                    found.contains(id) <==> ids@.take(at as int).contains(id) && self@.is_complete(id),
            decreases ids@.len() - at,
        {
            let id: u64 = ids[at];
            proof {
                assert(ids@.take(at + 1) =~= ids@.take(at as int).push(id));
                assert forall|other: u64| ids@.take(at + 1).contains(other) <==> ids@.take(
                    at as int,
                ).contains(other) || other == id by {
                    let shorter = ids@.take(at as int);
                    let longer = ids@.take(at + 1);
                    if shorter.contains(other) {
                        let i = choose|i: int| 0 <= i < shorter.len() && shorter[i] == other;
                        assert(longer[i] == other);
                    }
                    assert(longer[at as int] == id);
                    if longer.contains(other) && other != id {
                        let i = choose|i: int| 0 <= i < longer.len() && longer[i] == other;
                        assert(shorter[i] == other);
                    }
                }
                if ids@.take(at as int).contains(id) {
                    let i = choose|i: int| 0 <= i < at && ids@.take(at as int)[i] == id;
                    assert(ids@[i] == ids@[at as int]);
                }
            }
            if self.is_complete(id) {
                count += 1;
                proof {
                    found = found.insert(id);
                }
            }
            at += 1;
        }
        proof {
            assert(ids@.take(ids@.len() as int) =~= ids@);
            assert(found =~= self@.participants.dom().filter(complete)) by {
                assert forall|id: u64| found.contains(id) <==> self@.participants.dom().filter(
                    complete,
                ).contains(id) by {
                    if self@.participants.dom().contains(id) {
                        assert(ids@.to_set().contains(id));
                    }
                }
            }
        }
        count
    }

    /// Takes note of how many slices there are, which is what tells whether a
    /// receiver has everything.
    pub fn on_eof(&mut self, total_slices: u32)
        ensures
            final(self)@ == (GroupView { total_slices: Some(total_slices), ..old(self)@ }),
            old(self)@.leads_to(StepView::Eof(total_slices), final(self)@),
    {
        self.total_slices = Some(total_slices);
    }

    /// Takes note of how many slices were handed out.
    pub fn on_emitted(&mut self, emit_floor: u32)
        ensures
            final(self)@ == old(self)@.with_emitted(emit_floor),
    {
        if emit_floor > self.emitted {
            self.emitted = emit_floor;
        }
    }

    /// Takes note of a report, and says which slice the group needs first if that
    /// moved on. It never moves back.
    pub fn on_stats(&mut self, stats: &Stats) -> (needed_from: Option<u32>)
        ensures
            old(self)@.takes_report(*stats, needed_from, final(self)@),
            old(self)@.needed_from <= final(self)@.needed_from,
    {
        let mut participant: Participant = match self.participants.get(&stats.receiver_id) {
            Some(participant) => *participant,
            None => return None,
        };
        participant.next_needed = stats.next_needed_slice;
        participant.sink_stall_ms = stats.sink_stall_ms;
        self.participants.insert(stats.receiver_id, participant);
        self.advance()
    }

    fn advance(&mut self) -> (needed_from: Option<u32>)
        ensures
            match needed_from {
                Some(slice_no) => {
                    &&& old(self)@.is_slowest(slice_no)
                    &&& slice_no > old(self)@.needed_from
                    &&& final(self)@ == old(self)@.advanced(slice_no)
                },
                None => {
                    &&& exists|slice_no: u32| #[trigger]
                        old(self)@.is_slowest(slice_no) && slice_no <= old(self)@.needed_from
                    &&& final(self)@ == old(self)@
                },
            },
    {
        let needed_from: u32 = self.slowest();
        if needed_from <= self.needed_from {
            return None;
        }
        self.needed_from = needed_from;
        self.forget_below(needed_from);
        Some(needed_from)
    }

    fn slowest(&self) -> (slice_no: u32)
        ensures
            self@.is_slowest(slice_no),
    {
        let ids = self.ids();
        if ids.len() == 0 {
            assert(self@.participants.dom() =~= Set::<u64>::empty());
            return self.needed_from;
        }
        assert(ids@.to_set().contains(ids@[0]));
        let mut least: Option<u32> = None;
        let mut at: usize = 0;
        while at < ids.len()
            invariant
                at <= ids@.len(),
                ids@.to_set() == self@.participants.dom(),
                least is None <==> at == 0,
                least matches Some(slice_no) ==> {
                    &&& exists|id: u64| #[trigger]
                        self@.participants.dom().contains(id) && self@.participants[id].next_needed
                            == slice_no
                    &&& forall|i: int|
                        0 <= i < at ==> slice_no <= self@.participants[#[trigger] ids@[i]].next_needed
                },
            decreases ids@.len() - at,
        {
            let id: u64 = ids[at];
            assert(ids@.to_set().contains(id));
            let next_needed: u32 = match self.participants.get(&id) {
                Some(participant) => participant.next_needed,
                None => vstd::pervasive::unreached(),
            };
            assert(self@.participants.dom().contains(id) && self@.participants[id].next_needed
                == next_needed);
            match least {
                Some(slice_no) if slice_no <= next_needed => {},
                _ => {
                    least = Some(next_needed);
                },
            }
            at += 1;
        }
        proof {
            assert forall|id: u64| #[trigger] self@.participants.dom().contains(id) implies least->0
                <= self@.participants[id].next_needed by {
                assert(ids@.to_set().contains(id));
                let i = choose|i: int| 0 <= i < ids@.len() && ids@[i] == id;
                assert(least->0 <= self@.participants[ids@[i]].next_needed);
            }
        }
        match least {
            Some(slice_no) => slice_no,
            None => vstd::pervasive::unreached(),
        }
    }

    fn forget_below(&mut self, needed_from: u32)
        ensures
            final(self)@ == (GroupView {
                suppressed: old(self)@.suppressed.remove_keys(
                    old(self)@.suppressed.dom().filter(
                        |shard: u64| shard / 0x1_0000 < needed_from,
                    ),
                ),
                ..old(self)@
            }),
    {
        let ghost before = self.suppressed@;
        let stale = self.stale(needed_from);
        let mut at: usize = 0;
        while at < stale.len()
            invariant
                at <= stale@.len(),
                self.participants == old(self).participants,
                self.needed_from == old(self).needed_from,
                self.total_slices == old(self).total_slices,
                self.emitted == old(self).emitted,
                before == old(self).suppressed@,
                forall|i: int| 0 <= i < stale@.len() ==> #[trigger] stale@[i] / 0x1_0000 < needed_from,
                forall|s: u64| #[trigger]
                    before.dom().contains(s) && s / 0x1_0000 < needed_from ==> stale@.contains(s),
                forall|s: u64| #[trigger]
                    self.suppressed@.dom().contains(s) <==> before.dom().contains(s)
                        && !stale@.take(at as int).contains(s),
                forall|s: u64| #[trigger]
                    self.suppressed@.dom().contains(s) ==> self.suppressed@[s] == before[s],
            decreases stale@.len() - at,
        {
            let shard: u64 = stale[at];
            self.suppressed.remove(&shard);
            proof {
                assert(stale@.take(at + 1) =~= stale@.take(at as int).push(shard));
                assert forall|s: u64| #[trigger]
                    self.suppressed@.dom().contains(s) <==> before.dom().contains(s)
                        && !stale@.take(at + 1).contains(s) by {
                    let shorter = stale@.take(at as int);
                    let longer = stale@.take(at + 1);
                    if longer.contains(s) && s != shard {
                        let i = choose|i: int| 0 <= i < longer.len() && longer[i] == s;
                        assert(shorter[i] == s);
                    }
                    if shorter.contains(s) {
                        let i = choose|i: int| 0 <= i < shorter.len() && shorter[i] == s;
                        assert(longer[i] == s);
                    }
                    assert(longer[at as int] == shard);
                }
            }
            at += 1;
        }
        proof {
            assert(stale@.take(stale@.len() as int) =~= stale@);
            let gone = before.dom().filter(|shard: u64| shard / 0x1_0000 < needed_from);
            assert(self@.suppressed =~= before.remove_keys(gone)) by {
                assert forall|s: u64| stale@.contains(s) implies s / 0x1_0000 < needed_from by {
                    let i = choose|i: int| 0 <= i < stale@.len() && stale@[i] == s;
                    assert(stale@[i] / 0x1_0000 < needed_from);
                }
            }
        }
    }

    fn stale(&self, needed_from: u32) -> (stale: Vec<u64>)
        ensures
            forall|i: int| 0 <= i < stale@.len() ==> #[trigger] stale@[i] / 0x1_0000 < needed_from,
            forall|s: u64| #[trigger]
                self.suppressed@.dom().contains(s) && s / 0x1_0000 < needed_from ==> stale@.contains(
                    s,
                ),
    {
        let mut stale: Vec<u64> = Vec::new();
        for shard in iter: self.suppressed.keys()
            invariant
                iter.seq().unref().to_set() == self.suppressed@.dom(),
                forall|i: int| 0 <= i < stale@.len() ==> #[trigger] stale@[i] / 0x1_0000 < needed_from,
                forall|i: int|
                    0 <= i < iter.index() && #[trigger] iter.seq().unref()[i] / 0x1_0000 < needed_from
                        ==> stale@.contains(iter.seq().unref()[i]),
        {
            let ghost before = stale@;
            if *shard / 0x1_0000 < needed_from as u64 {
                stale.push(*shard);
                assert(stale@[before.len() as int] == *shard);
                assert forall|s: u64| before.contains(s) implies stale@.contains(s) by {
                    let i = choose|i: int| 0 <= i < before.len() && before[i] == s;
                    assert(stale@[i] == s);
                }
            }
        }
        stale
    }

    fn is_complete(&self, receiver_id: u64) -> (complete: bool)
        ensures
            complete == self@.is_complete(receiver_id),
    {
        let total_slices: u32 = match self.total_slices {
            Some(total_slices) => total_slices,
            None => return false,
        };
        match self.participants.get(&receiver_id) {
            Some(participant) => participant.next_needed >= total_slices,
            None => false,
        }
    }

    /// Takes note of a request, and says which shards are worth sending again.
    pub fn on_nak(&mut self, nak: &Nak, now: u64) -> (wanted: Vec<u16>)
        ensures
            wanted@ == old(self)@.served(nak@, now),
            final(self)@ == old(self)@.after_request(nak@, now),
    {
        let mut wanted: Vec<u16> = Vec::new();
        let mut participant: Participant = match self.participants.get(&nak.receiver_id) {
            Some(participant) => *participant,
            None => return wanted,
        };
        participant.naks = participant.naks.saturating_add(1);
        if nak.slice_no >= self.needed_from {
            let mut at: usize = 0;
            while at < nak.missing.len()
                invariant
                    at <= nak.missing@.len(),
                    (self@, wanted@) == old(self)@.serving(
                        nak.slice_no,
                        nak.missing@,
                        now,
                        at as int,
                    ),
                    self.participants == old(self).participants,
                decreases nak.missing@.len() - at,
            {
                let slot: u16 = nak.missing[at];
                if self.suppress(nak.slice_no, slot, now) {
                    wanted.push(slot);
                }
                at += 1;
            }
        }
        self.participants.insert(nak.receiver_id, participant);
        wanted
    }

    /// Takes note that a shard is sent again, and says whether it is: not where it
    /// just was.
    fn suppress(&mut self, slice_no: u32, slot: u16, now: u64) -> (served: bool)
        ensures
            served == !old(self)@.is_held_off(slice_no, slot, now),
            final(self)@ == if served {
                GroupView {
                    suppressed: old(self)@.suppressed.insert(shard_no(slice_no, slot), now),
                    ..old(self)@
                }
            } else {
                old(self)@
            },
            final(self).participants == old(self).participants,
    {
        let shard: u64 = slice_no as u64 * 0x1_0000 + slot as u64;
        let held_off = match self.suppressed.get(&shard) {
            Some(sent) => time::elapsed(*sent, now) < HOLDOFF,
            None => false,
        };
        if !held_off {
            self.suppressed.insert(shard, now);
        }
        !held_off
    }

    /// Takes note that a receiver was heard of.
    pub fn mark_seen(&mut self, receiver_id: u64, now: u64)
        ensures
            final(self)@ == old(self)@.seen(receiver_id, now),
    {
        if let Some(participant) = self.participants.get(&receiver_id) {
            let mut participant: Participant = *participant;
            participant.last_seen = now;
            self.participants.insert(receiver_id, participant);
        }
    }

    /// Takes every receiver to be heard of now.
    pub fn mark_all_seen(&mut self, now: u64)
        ensures
            final(self)@ == old(self)@.all_seen(now),
    {
        let ids = self.ids();
        let mut at: usize = 0;
        while at < ids.len()
            invariant
                at <= ids@.len(),
                ids@.no_duplicates(),
                ids@.to_set() == old(self)@.participants.dom(),
                self@.participants.dom() == old(self)@.participants.dom(),
                self@ == (GroupView { participants: self@.participants, ..old(self)@ }),
                forall|i: int|
                    0 <= i < at ==> self@.participants[#[trigger] ids@[i]] == (Participant {
                        last_seen: now,
                        ..old(self)@.participants[ids@[i]]
                    }),
                forall|i: int|
                    at <= i < ids@.len() ==> self@.participants[#[trigger] ids@[i]]
                        == old(self)@.participants[ids@[i]],
            decreases ids@.len() - at,
        {
            let id: u64 = ids[at];
            assert(ids@.to_set().contains(id));
            self.mark_seen(id, now);
            assert(self@.participants.dom() =~= old(self)@.participants.dom());
            at += 1;
        }
        proof {
            assert forall|id: u64| #[trigger]
                old(self)@.participants.dom().contains(id) implies self@.participants[id] == (
            Participant { last_seen: now, ..old(self)@.participants[id] }) by {
                assert(ids@.to_set().contains(id));
                let i = choose|i: int| 0 <= i < ids@.len() && ids@[i] == id;
                assert(self@.participants[ids@[i]] == (Participant {
                    last_seen: now,
                    ..old(self)@.participants[ids@[i]]
                }));
            }
            assert(self@.participants =~= old(self)@.all_seen(now).participants);
        }
    }

    /// Lets the receivers go that were silent for that long, and says which, and
    /// which slice each needed first.
    pub fn reap_silent(&mut self, now: u64, limit: u64) -> (gone: Vec<(u64, u32)>)
        ensures
            old(self)@.lists_silent(now, limit, gone@),
            final(self)@ == old(self)@.without_silent(now, limit),
    {
        let ids = self.ids();
        let ghost before = self@;
        let mut gone: Vec<(u64, u32)> = Vec::new();
        let mut at: usize = 0;
        while at < ids.len()
            invariant
                at <= ids@.len(),
                before == old(self)@,
                ids@.no_duplicates(),
                ids@.to_set() == before.participants.dom(),
                self@ == (GroupView { participants: self@.participants, ..before }),
                forall|i: int|
                    #![trigger gone@[i]]
                    0 <= i < gone@.len() ==> before.is_silent(gone@[i].0, now, limit)
                        && gone@[i].1 == before.participants[gone@[i].0].next_needed && ids@.take(
                        at as int,
                    ).contains(gone@[i].0),
                forall|i: int, j: int| 0 <= i < j < gone@.len() ==> gone@[i].0 != gone@[j].0,
                forall|i: int|
                    0 <= i < at && before.is_silent(#[trigger] ids@[i], now, limit) ==> exists|j: int|
                        0 <= j < gone@.len() && (#[trigger] gone@[j]).0 == ids@[i],
                forall|id: u64| #[trigger]
                    self@.participants.dom().contains(id) <==> before.participants.dom().contains(id)
                        && !(ids@.take(at as int).contains(id) && before.is_silent(id, now, limit)),
                forall|id: u64| #[trigger]
                    self@.participants.dom().contains(id) ==> self@.participants[id]
                        == before.participants[id],
            decreases ids@.len() - at,
        {
            let id: u64 = ids[at];
            let ghost shorter = ids@.take(at as int);
            let ghost longer = ids@.take(at + 1);
            let ghost listed = gone@;
            proof {
                assert(ids@.to_set().contains(id));
                assert(longer =~= shorter.push(id));
                assert(longer[at as int] == id);
                assert forall|other: u64| shorter.contains(other) implies longer.contains(other) by {
                    let i = choose|i: int| 0 <= i < shorter.len() && shorter[i] == other;
                    assert(longer[i] == other);
                }
                assert forall|other: u64| longer.contains(other) && other != id implies shorter.contains(
                    other,
                ) by {
                    let i = choose|i: int| 0 <= i < longer.len() && longer[i] == other;
                    assert(shorter[i] == other);
                }
                if shorter.contains(id) {
                    let i = choose|i: int| 0 <= i < shorter.len() && shorter[i] == id;
                    assert(ids@[i] == ids@[at as int]);
                }
            }
            let participant: Participant = match self.participants.get(&id) {
                Some(participant) => *participant,
                None => vstd::pervasive::unreached(),
            };
            if time::elapsed(participant.last_seen, now) >= limit {
                self.participants.remove(&id);
                gone.push((id, participant.next_needed));
                assert(gone@[listed.len() as int].0 == id);
            }
            proof {
                assert forall|i: int|
                    0 <= i < at + 1 && before.is_silent(#[trigger] ids@[i], now, limit) implies exists|
                    j: int,
                |
                    0 <= j < gone@.len() && (#[trigger] gone@[j]).0 == ids@[i] by {
                    if i < at {
                        let j = choose|j: int|
                            0 <= j < listed.len() && (#[trigger] listed[j]).0 == ids@[i];
                        assert(gone@[j].0 == ids@[i]);
                    } else {
                        assert(gone@[listed.len() as int].0 == id);
                    }
                }
            }
            at += 1;
        }
        proof {
            assert(ids@.take(ids@.len() as int) =~= ids@);
            assert forall|id: u64| #[trigger] before.is_silent(id, now, limit) implies exists|i: int|
                0 <= i < gone@.len() && (#[trigger] gone@[i]).0 == id by {
                assert(ids@.to_set().contains(id));
                let i = choose|i: int| 0 <= i < ids@.len() && ids@[i] == id;
                assert(before.is_silent(ids@[i], now, limit));
            }
            let silent = before.participants.dom().filter(
                |receiver_id: u64| before.is_silent(receiver_id, now, limit),
            );
            assert(self@.participants =~= before.participants.remove_keys(silent)) by {
                assert forall|id: u64| before.participants.dom().contains(id) implies ids@.contains(
                    id,
                ) by {
                    assert(ids@.to_set().contains(id));
                }
            }
        }
        gone
    }

    fn behind(&self, receiver_id: u64) -> (behind: u32)
        requires
            self@.participants.dom().contains(receiver_id),
        ensures
            behind == self@.behind(receiver_id),
    {
        match self.participants.get(&receiver_id) {
            Some(participant) => self.emitted.saturating_sub(participant.next_needed),
            None => vstd::pervasive::unreached(),
        }
    }

    /// The receiver that is furthest behind, and how many slices that is. Which of
    /// several that are equally far behind is not said.
    pub fn slowest_participant(&self) -> (slowest: Option<(u64, u32)>)
        ensures
            match slowest {
                Some((receiver_id, behind)) => {
                    &&& self@.participants.dom().contains(receiver_id)
                    &&& behind == self@.behind(receiver_id)
                    &&& forall|other: u64| #[trigger]
                        self@.participants.dom().contains(other) ==> self@.behind(other) <= behind
                },
                None => self@.participants.dom().len() == 0,
            },
    {
        let ids = self.ids();
        let mut slowest: Option<(u64, u32)> = None;
        let mut at: usize = 0;
        while at < ids.len()
            invariant
                at <= ids@.len(),
                ids@.to_set() == self@.participants.dom(),
                slowest is None <==> at == 0,
                slowest matches Some((id, behind)) ==> {
                    &&& self@.participants.dom().contains(id)
                    &&& behind == self@.behind(id)
                    &&& forall|i: int| 0 <= i < at ==> self@.behind(#[trigger] ids@[i]) <= behind
                },
            decreases ids@.len() - at,
        {
            let id: u64 = ids[at];
            assert(ids@.to_set().contains(id));
            let behind: u32 = self.behind(id);
            match slowest {
                Some((_, most)) if most >= behind => {},
                _ => {
                    slowest = Some((id, behind));
                },
            }
            at += 1;
        }
        proof {
            if let Some((id, behind)) = slowest {
                assert forall|other: u64| #[trigger]
                    self@.participants.dom().contains(other) implies self@.behind(other)
                    <= behind by {
                    assert(ids@.to_set().contains(other));
                    let i = choose|i: int| 0 <= i < ids@.len() && ids@[i] == other;
                    assert(self@.behind(ids@[i]) <= behind);
                }
            }
        }
        slowest
    }

    /// The receiver whose sink stalled for longest, and how long that was. Which of
    /// several that stalled equally long is not said.
    pub fn worst_sink_stall(&self) -> (worst: Option<(u64, u32)>)
        ensures
            match worst {
                Some((receiver_id, stall_ms)) => {
                    &&& self@.participants.dom().contains(receiver_id)
                    &&& stall_ms == self@.participants[receiver_id].sink_stall_ms
                    &&& forall|other: u64| #[trigger]
                        self@.participants.dom().contains(other)
                            ==> self@.participants[other].sink_stall_ms <= stall_ms
                },
                None => self@.participants.dom().len() == 0,
            },
    {
        let ids = self.ids();
        let mut worst: Option<(u64, u32)> = None;
        let mut at: usize = 0;
        while at < ids.len()
            invariant
                at <= ids@.len(),
                ids@.to_set() == self@.participants.dom(),
                worst is None <==> at == 0,
                worst matches Some((id, stall_ms)) ==> {
                    &&& self@.participants.dom().contains(id)
                    &&& stall_ms == self@.participants[id].sink_stall_ms
                    &&& forall|i: int|
                        0 <= i < at ==> self@.participants[#[trigger] ids@[i]].sink_stall_ms
                            <= stall_ms
                },
            decreases ids@.len() - at,
        {
            let id: u64 = ids[at];
            assert(ids@.to_set().contains(id));
            let stall_ms: u32 = match self.participants.get(&id) {
                Some(participant) => participant.sink_stall_ms,
                None => vstd::pervasive::unreached(),
            };
            match worst {
                Some((_, most)) if most >= stall_ms => {},
                _ => {
                    worst = Some((id, stall_ms));
                },
            }
            at += 1;
        }
        proof {
            if let Some((id, stall_ms)) = worst {
                assert forall|other: u64| #[trigger]
                    self@.participants.dom().contains(other) implies self@.participants[other].sink_stall_ms
                    <= stall_ms by {
                    assert(ids@.to_set().contains(other));
                    let i = choose|i: int| 0 <= i < ids@.len() && ids@[i] == other;
                    assert(self@.participants[ids@[i]].sink_stall_ms <= stall_ms);
                }
            }
        }
        worst
    }

    /// What there is to say of each receiver, in no particular order.
    pub fn rows(&self) -> (rows: Vec<ReceiverState>)
        ensures
            rows@.len() == self@.participants.dom().len(),
            forall|i: int|
                #![trigger rows@[i]]
                0 <= i < rows@.len() ==> self@.participants.dom().contains(rows@[i].receiver_id)
                    && rows@[i] == self@.row(rows@[i].receiver_id),
            forall|i: int, j: int|
                0 <= i < j < rows@.len() ==> rows@[i].receiver_id != rows@[j].receiver_id,
    {
        let ids = self.ids();
        let mut rows: Vec<ReceiverState> = Vec::new();
        let mut at: usize = 0;
        while at < ids.len()
            invariant
                at <= ids@.len(),
                ids@.no_duplicates(),
                ids@.to_set() == self@.participants.dom(),
                rows@.len() == at,
                forall|i: int|
                    #![trigger rows@[i]]
                    0 <= i < at ==> rows@[i] == self@.row(ids@[i])
                        && self@.participants.dom().contains(ids@[i]),
            decreases ids@.len() - at,
        {
            let id: u64 = ids[at];
            assert(ids@.to_set().contains(id));
            let participant: Participant = match self.participants.get(&id) {
                Some(participant) => *participant,
                None => vstd::pervasive::unreached(),
            };
            rows.push(
                ReceiverState {
                    receiver_id: id,
                    next_needed_slice: participant.next_needed,
                    slices_behind: self.behind(id),
                    naks: participant.naks,
                    sink_stall_ms: participant.sink_stall_ms,
                },
            );
            at += 1;
        }
        rows
    }
}

/// Two shards have the same number only if they are the same.
pub proof fn shard_numbers_are_unique(a: u32, i: u16, b: u32, j: u16)
    ensures
        shard_no(a, i) == shard_no(b, j) ==> a == b && i == j,
        shard_no(a, i) / 0x1_0000 == a,
{
}

pub(crate) proof fn lemma_serving_keeps_progress(
    group: GroupView,
    slice_no: u32,
    missing: Seq<u16>,
    now: u64,
    upto: int,
)
    ensures
        ({
            let after = group.serving(slice_no, missing, now, upto).0;
            after == (GroupView { suppressed: after.suppressed, ..group })
        }),
    decreases upto,
{
    if upto > 0 {
        lemma_serving_keeps_progress(group, slice_no, missing, now, upto - 1);
    }
}

proof fn lemma_served_is_stamped(
    group: GroupView,
    slice_no: u32,
    missing: Seq<u16>,
    now: u64,
    upto: int,
    slot: u16,
)
    requires
        0 <= upto <= missing.len(),
    ensures
        group.serving(slice_no, missing, now, upto).1.contains(slot) ==> {
            let after = group.serving(slice_no, missing, now, upto).0;
            &&& after.suppressed.dom().contains(shard_no(slice_no, slot))
            &&& after.suppressed[shard_no(slice_no, slot)] == now
        },
    decreases upto,
{
    if upto > 0 {
        lemma_served_is_stamped(group, slice_no, missing, now, upto - 1, slot);
        let (before, wanted) = group.serving(slice_no, missing, now, upto - 1);
        let last = missing[upto - 1];
        shard_numbers_are_unique(slice_no, slot, slice_no, last);
        if !before.is_held_off(slice_no, last, now) && slot != last {
            let longer = wanted.push(last);
            if longer.contains(slot) {
                let i = choose|i: int| 0 <= i < longer.len() && longer[i] == slot;
                assert(wanted[i] == slot);
            }
        }
    }
}

/// A shard that was sent again is held off until the hold-off has passed, whoever
/// asks for it: at that time, and not before, it is sent again.
pub proof fn a_served_shard_is_held_off(
    group: GroupView,
    slice_no: u32,
    missing: Seq<u16>,
    now: u64,
    later: u64,
    slot: u16,
)
    requires
        group.serving(slice_no, missing, now, missing.len() as int).1.contains(slot),
    ensures
        group.serving(slice_no, missing, now, missing.len() as int).0.is_held_off(
            slice_no,
            slot,
            later,
        ) <==> time::since(now, later) < HOLDOFF,
{
    lemma_served_is_stamped(group, slice_no, missing, now, missing.len() as int, slot);
}

/// Once the group needs nothing below a slice, nothing below it is remembered.
pub proof fn what_is_not_needed_is_forgotten(group: GroupView, needed_from: u32, shard: u64)
    ensures
        group.advanced(needed_from).suppressed.dom().contains(shard) <==> group.suppressed.dom().contains(
            shard,
        ) && shard / 0x1_0000 >= needed_from,
{
}

} // verus!
