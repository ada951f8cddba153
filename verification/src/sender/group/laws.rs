//! What a group answers, told by what it knows of its receivers.

use crate::proto::payload::NakView;
use crate::sender::group;
use crate::sender::group::GroupView;
use crate::time::HOLDOFF;
use vstd::prelude::*;

verus! {

/// The shards of a request that were not sent again within the hold-off, in the order in
/// which they are asked for.
pub open spec fn free(
    suppressed: Map<u64, u64>,
    slice_no: u32,
    missing: Seq<u16>,
    now: u64,
) -> Seq<u16> {
    missing.filter(
        |slot: u16|
            {
                let shard = (slice_no * 0x1_0000 + slot) as u64;
                suppressed.dom().contains(shard) ==> now - suppressed[shard] >= HOLDOFF
            },
    )
}

proof fn lemma_free(group: GroupView, slice_no: u32, missing: Seq<u16>, now: u64, upto: int)
    requires
        0 <= upto <= missing.len(),
        missing.no_duplicates(),
    ensures
        ({
            let (after, wanted) = group.serving(slice_no, missing, now, upto);
            &&& wanted == free(group.suppressed, slice_no, missing.take(upto), now)
            &&& forall|slot: u16|
                !missing.take(upto).contains(slot) ==> {
                    let shard = #[trigger] group::shard_no(slice_no, slot);
                    &&& after.suppressed.dom().contains(shard)
                        <==> group.suppressed.dom().contains(shard)
                    &&& after.suppressed[shard] == group.suppressed[shard]
                }
        }),
    decreases upto,
{
    reveal(Seq::filter);
    if upto > 0 {
        lemma_free(group, slice_no, missing, now, upto - 1);
        let shorter = missing.take(upto);
        assert(shorter.drop_last() =~= missing.take(upto - 1));
        let slot = missing[upto - 1];
        assert(shorter.last() == slot);
        let (before, wanted) = group.serving(slice_no, missing, now, upto - 1);
        let shard = group::shard_no(slice_no, slot);
        assert(!missing.take(upto - 1).contains(slot));
        let after = group.serving(slice_no, missing, now, upto).0;
        assert forall|other: u16| !shorter.contains(other) implies {
            let kept = #[trigger] group::shard_no(slice_no, other);
            &&& after.suppressed.dom().contains(kept) <==> group.suppressed.dom().contains(kept)
            &&& after.suppressed[kept] == group.suppressed[kept]
        } by {
            let earlier = missing.take(upto - 1);
            if earlier.contains(other) {
                let i = choose|i: int| 0 <= i < upto - 1 && earlier[i] == other;
                assert(shorter[i] == other);
            }
            assert(shorter[upto - 1] == slot);
            group::shard_numbers_are_unique(slice_no, other, slice_no, slot);
        }
    }
}

/// A request of a receiver of the group, about a slice that is still needed, is served
/// with what it asks for, in that order, but for what was sent again within the
/// hold-off; every other request is served with nothing.
pub proof fn a_request_is_served_in_order(group: GroupView, nak: NakView, now: u64)
    requires
        nak.missing.no_duplicates(),
    ensures
        group.served(nak, now) == if group.participants.dom().contains(nak.receiver_id)
            && nak.slice_no >= group.needed_from {
            free(group.suppressed, nak.slice_no, nak.missing, now)
        } else {
            Seq::empty()
        },
{
    lemma_free(group, nak.slice_no, nak.missing, now, nak.missing.len() as int);
    assert(nak.missing.take(nak.missing.len() as int) =~= nak.missing);
}

/// Every request of a receiver of the group counts, whether or not it is served, and
/// changes nothing else that is known of any receiver.
pub proof fn every_request_counts(group: GroupView, nak: NakView, now: u64, receiver_id: u64)
    ensures
        ({
            let after = group.after_request(nak, now);
            let asks = nak.receiver_id == receiver_id;
            &&& after.participants.dom() == group.participants.dom()
            &&& after.needed_from == group.needed_from
            &&& after.total_slices == group.total_slices
            &&& after.emitted == group.emitted
            &&& group.participants.dom().contains(receiver_id) ==> {
                let known = group.participants[receiver_id];
                let now_known = after.participants[receiver_id];
                &&& now_known.next_needed == known.next_needed
                &&& now_known.last_seen == known.last_seen
                &&& now_known.sink_stall_ms == known.sink_stall_ms
                &&& known.naks < u64::MAX ==> now_known.naks == known.naks + if asks {
                    1int
                } else {
                    0int
                }
                &&& known.naks == u64::MAX ==> now_known.naks == known.naks
            }
        }),
{
    group::lemma_serving_keeps_progress(
        group,
        nak.slice_no,
        nak.missing,
        now,
        nak.missing.len() as int,
    );
    assert(group.after_request(nak, now).participants.dom() =~= group.participants.dom());
}

/// A row says of a receiver what it last reported, how often it asked, and how many
/// slices it needs of those that were handed out: none, where it needs what is to come.
pub proof fn a_row_tells_what_is_known(group: GroupView, receiver_id: u64)
    ensures
        ({
            let row = group.row(receiver_id);
            let known = group.participants[receiver_id];
            &&& row.receiver_id == receiver_id
            &&& row.next_needed_slice == known.next_needed
            &&& row.naks == known.naks
            &&& row.sink_stall_ms == known.sink_stall_ms
            &&& known.next_needed <= group.emitted ==> known.next_needed + row.slices_behind
                == group.emitted
            &&& known.next_needed >= group.emitted ==> row.slices_behind == 0
        }),
{
}

/// A receiver is complete exactly where the end is known and it needs no slice before it,
/// and a group exactly where it has a receiver and all of them are.
pub proof fn completeness_is_told_by_the_reports(group: GroupView, receiver_id: u64)
    requires
        group.participants.dom().finite(),
        group.participants.dom().contains(receiver_id),
    ensures
        group.is_complete(receiver_id) <==> (group.total_slices matches Some(total)
            && group.participants[receiver_id].next_needed >= total),
        group.all_complete() <==> (group.total_slices matches Some(total) && forall|other: u64|
            #[trigger]
            group.participants.dom().contains(other) ==> group.participants[other].next_needed
                >= total),
{
    if let Some(total) = group.total_slices {
        if forall|other: u64| #[trigger]
            group.participants.dom().contains(other) ==> group.participants[other].next_needed
                >= total {
            assert forall|other: u64| #[trigger] group.participants.dom().contains(other) implies
                group.is_complete(other) by {}
            assert(group.participants.dom().len() > 0);
        }
        if group.all_complete() {
            assert forall|other: u64| #[trigger] group.participants.dom().contains(other) implies
                group.participants[other].next_needed >= total by {
                assert(group.is_complete(other));
            }
        }
    } else {
        assert(!group.is_complete(receiver_id));
    }
}

/// A group that hears of all its receivers forgets nothing else of them.
pub proof fn hearing_of_all_changes_only_when(group: GroupView, now: u64, receiver_id: u64)
    requires
        group.participants.dom().contains(receiver_id),
    ensures
        ({
            let after = group.all_seen(now);
            let known = group.participants[receiver_id];
            &&& after.participants.dom() == group.participants.dom()
            &&& after.participants[receiver_id].last_seen == now
            &&& after.participants[receiver_id].next_needed == known.next_needed
            &&& after.participants[receiver_id].naks == known.naks
            &&& after.participants[receiver_id].sink_stall_ms == known.sink_stall_ms
            &&& after == (GroupView { participants: after.participants, ..group })
        }),
{
    assert(group.all_seen(now).participants.dom() =~= group.participants.dom());
}

} // verus!
