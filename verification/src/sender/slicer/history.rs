//! What a slicer hands out over its life.

use crate::codec;
use crate::sender::slicer::channel::{FeedbackView, OutboundView};
use crate::sender::slicer::window::SliceView;
use crate::sender::slicer::SlicerView;
use vstd::prelude::*;

verus! {

/// What happens to a slicer.
pub enum StepView {
    /// A block of the input is taken in.
    Block(Seq<u8>),
    /// The input ends.
    End,
    /// Something is wanted.
    Wanted(FeedbackView),
}

impl SlicerView {
    /// Whether that may happen to the slicer.
    pub open spec fn takes(self, step: StepView) -> bool {
        match step {
            StepView::Block(block) => block.len() <= self.window.block_size && self.countable(
                block.len(),
            ),
            StepView::End => self.window.current.slice_no < u32::MAX,
            StepView::Wanted(_) => true,
        }
    }

    /// The state after it happened.
    pub open spec fn stepped(self, step: StepView) -> SlicerView {
        match step {
            StepView::Block(block) => self.pushed(block),
            StepView::End => SlicerView { drained: true, ..self.sealed() },
            StepView::Wanted(feedback) => self.after(feedback),
        }
    }

    /// What is handed out then.
    pub open spec fn saying(self, step: StepView) -> Seq<OutboundView> {
        match step {
            StepView::Block(block) => self.pushing(block),
            StepView::End => self.sealing().push(
                OutboundView::Eof {
                    total_bytes: self.total_bytes,
                    total_blocks: self.total_blocks,
                },
            ),
            StepView::Wanted(feedback) => self.answering(feedback),
        }
    }

    /// Whether the slicer took in nothing yet.
    pub open spec fn is_new(self) -> bool {
        &&& self.valid()
        &&& self.window.live.len() == 0
        &&& self.window.current.slice_no == 0
        &&& self.window.current.data.len() == 0
    }

    /// The state after all of that happened, one after another.
    pub open spec fn after_all(self, steps: Seq<StepView>) -> SlicerView
        decreases steps.len(),
    {
        if steps.len() == 0 {
            self
        } else {
            self.after_all(steps.drop_last()).stepped(steps.last())
        }
    }

    /// Everything that was handed out by then.
    pub open spec fn said(self, steps: Seq<StepView>) -> Seq<OutboundView>
        decreases steps.len(),
    {
        if steps.len() == 0 {
            Seq::empty()
        } else {
            self.said(steps.drop_last()) + self.after_all(steps.drop_last()).saying(steps.last())
        }
    }

    /// The slices that were sealed by then, let go or not.
    pub open spec fn completed(self, steps: Seq<StepView>) -> Seq<SliceView>
        decreases steps.len(),
    {
        if steps.len() == 0 {
            Seq::empty()
        } else {
            let before = self.after_all(steps.drop_last());
            let now = self.after_all(steps);
            if now.window.current.slice_no == before.window.current.slice_no {
                self.completed(steps.drop_last())
            } else {
                self.completed(steps.drop_last()).push(now.window.live.last())
            }
        }
    }

    /// Whether all of that may happen, one after another, the slicer staying in a
    /// state that a slicer can be in.
    pub open spec fn takes_all(self, steps: Seq<StepView>) -> bool
        decreases steps.len(),
    {
        &&& self.after_all(steps).valid()
        &&& steps.len() > 0 ==> {
            &&& self.takes_all(steps.drop_last())
            &&& self.after_all(steps.drop_last()).takes(steps.last())
        }
    }
}

/// Whether that is the shard at a slot of a slice.
pub open spec fn is_shard(outbound: OutboundView, slice: int, at: int) -> bool {
    outbound matches OutboundView::Shard { slice_no, slot, .. } && slice_no == slice && slot == at
}

/// Whether the shard at a slot of a slice is among the first `upto` of what was
/// handed out.
pub open spec fn is_among(said: Seq<OutboundView>, upto: int, slice: int, at: int) -> bool {
    exists|j: int| 0 <= j < upto && is_shard(#[trigger] said[j], slice, at)
}

/// Whether a slice has a shard at that slot.
pub open spec fn has_slot(slice: SliceView, blocks_per_slice: nat, at: int) -> bool {
    0 <= at < slice.data.len() || blocks_per_slice <= at < blocks_per_slice + slice.parity_width
}

/// The emit floor that a shard carries.
pub open spec fn floor_of(outbound: OutboundView) -> Option<u32> {
    match outbound {
        OutboundView::Shard { emit_floor, .. } => Some(emit_floor),
        OutboundView::Eof { .. } => None,
    }
}

/// Whether what is handed out at `i` carries a floor that it may: one that nothing
/// before it exceeds and below which everything is out already, and, where the
/// shard leaves for the first time, its own slice.
pub open spec fn floor_holds(
    said: Seq<OutboundView>,
    completed: Seq<SliceView>,
    blocks_per_slice: nat,
    i: int,
) -> bool {
    said[i] matches OutboundView::Shard { slice_no, slot, emit_floor, .. } ==> {
        &&& emit_floor <= completed.len()
        &&& forall|j: int|
            0 <= j < i ==> (floor_of(#[trigger] said[j]) matches Some(earlier) ==> earlier
                <= emit_floor)
        &&& forall|slice: int, at: int|
            0 <= slice < emit_floor && #[trigger] has_slot(completed[slice], blocks_per_slice, at)
                ==> is_among(said, i, slice, at)
        &&& !is_among(said, i, slice_no as int, slot as int) ==> emit_floor == slice_no
    }
}

spec fn settled(start: SlicerView, steps: Seq<StepView>) -> bool {
    let now = start.after_all(steps);
    let said = start.said(steps);
    let completed = start.completed(steps);
    let k = start.window.blocks_per_slice;
    &&& now.window.blocks_per_slice == k
    &&& completed.len() == now.window.current.slice_no
    &&& forall|i: int|
        #![trigger now.window.live[i]]
        0 <= i < now.window.live.len() ==> now.window.live[i]
            == completed[now.window.live[i].slice_no as int]
    &&& forall|i: int| 0 <= i < said.len() ==> floor_holds(said, completed, k, i)
    &&& forall|slice: int, at: int|
        0 <= slice < completed.len() && #[trigger] has_slot(completed[slice], k, at) ==> is_among(
            said,
            said.len() as int,
            slice,
            at,
        )
    &&& forall|at: int|
        0 <= at < now.window.current.data.len() ==> #[trigger] is_among(
            said,
            said.len() as int,
            now.window.current.slice_no as int,
            at,
        )
}

/// Over the life of a slicer the emit floor never falls, a shard carries a floor
/// only after every data and every parity shard of every slice below it, and a
/// shard that leaves for the first time carries its own slice.
pub proof fn the_floor_tells_what_is_out(start: SlicerView, steps: Seq<StepView>, i: int)
    requires
        start.is_new(),
        start.takes_all(steps),
        0 <= i < start.said(steps).len(),
    ensures
        start.completed(steps).len() == start.after_all(steps).window.current.slice_no,
        floor_holds(
            start.said(steps),
            start.completed(steps),
            start.window.blocks_per_slice,
            i,
        ),
{
    lemma_settled(start, steps);
}

proof fn lemma_among_grows(
    said: Seq<OutboundView>,
    more: Seq<OutboundView>,
    upto: int,
    wide: int,
    slice: int,
    at: int,
)
    requires
        0 <= upto <= said.len(),
        upto <= wide,
        is_among(said, upto, slice, at),
    ensures
        is_among(said + more, wide, slice, at),
{
    let j = choose|j: int| 0 <= j < upto && is_shard(#[trigger] said[j], slice, at);
    assert((said + more)[j] == said[j]);
}

/// Whether a slicer may hand that out: with its floor, and for the first time only
/// as part of the current slice.
spec fn comes_from(slicer: SlicerView, outbound: OutboundView) -> bool {
    outbound matches OutboundView::Shard { slice_no, slot, emit_floor, .. } ==> {
        let window = slicer.window;
        let oldest = window.current.slice_no - window.live.len();
        &&& emit_floor == slicer.emit_floor
        &&& slice_no == window.current.slice_no || (oldest <= slice_no < window.current.slice_no
            && has_slot(
            window.live[slice_no - oldest],
            window.blocks_per_slice,
            slot as int,
        ))
    }
}

proof fn lemma_resent_comes_from(slicer: SlicerView, slice_no: u32, slots: Seq<u16>, upto: int)
    requires
        slicer.valid(),
        0 <= upto <= slots.len(),
    ensures
        forall|x: int|
            0 <= x < slicer.resending(slice_no, slots, upto).len() ==> comes_from(
                slicer,
                #[trigger] slicer.resending(slice_no, slots, upto)[x],
            ),
    decreases upto,
{
    if upto > 0 {
        lemma_resent_comes_from(slicer, slice_no, slots, upto - 1);
        let before = slicer.resending(slice_no, slots, upto - 1);
        let now = slicer.resending(slice_no, slots, upto);
        let w = slicer.window;
        let oldest = w.current.slice_no - w.live.len();
        if oldest <= slice_no < w.current.slice_no {
            assert(w.live[slice_no - oldest].parity.len() == w.live[slice_no
                - oldest].parity_width);
        }
        assert forall|x: int| 0 <= x < now.len() implies comes_from(slicer, #[trigger] now[x]) by {
            if x < before.len() {
                assert(now[x] == before[x]);
            }
        }
    }
}

proof fn lemma_said_comes_from(slicer: SlicerView, step: StepView)
    requires
        slicer.valid(),
        slicer.takes(step),
    ensures
        forall|x: int|
            0 <= x < slicer.saying(step).len() ==> comes_from(
                slicer,
                #[trigger] slicer.saying(step)[x],
            ),
{
    match step {
        StepView::Wanted(FeedbackView::Resend { slice_no, blocks }) => {
            lemma_resent_comes_from(slicer, slice_no, blocks, blocks.len() as int);
        },
        _ => {},
    }
}

/// A step that seals a slice hands out the shards of that slice that were not out.
proof fn lemma_sealing_says_the_rest(slicer: SlicerView, step: StepView, at: int)
    requires
        slicer.valid(),
        slicer.takes(step),
        slicer.stepped(step).valid(),
        slicer.stepped(step).window.current.slice_no != slicer.window.current.slice_no,
        has_slot(
            slicer.stepped(step).window.live.last(),
            slicer.window.blocks_per_slice,
            at,
        ),
    ensures
        at < slicer.window.current.data.len() || is_among(
            slicer.saying(step),
            slicer.saying(step).len() as int,
            slicer.window.current.slice_no as int,
            at,
        ),
{
    let w = slicer.window;
    let k = w.blocks_per_slice;
    let no = w.current.slice_no as int;
    let out = slicer.saying(step);
    let now = slicer.stepped(step);
    let last = now.window.live.last();
    assert(last == now.window.live[now.window.live.len() - 1]);
    if w.max_parity > 0 {
        codec::supported_counts_fit(k, w.max_parity, w.block_size);
    }
    let skipped = if step is Block {
        1int
    } else {
        0int
    };
    if at >= k {
        let j = skipped + (at - k);
        assert(last.parity.len() == w.current.parity_width);
        assert(is_shard(out[j], no, at));
    } else if at >= w.current.data.len() {
        assert(is_shard(out[0], no, at));
    }
}

#[verifier::spinoff_prover]
#[verifier::rlimit(60)]
proof fn lemma_step_settles(start: SlicerView, steps: Seq<StepView>)
    requires
        steps.len() > 0,
        start.takes_all(steps),
        settled(start, steps.drop_last()),
    ensures
        settled(start, steps),
{
    let step = steps.last();
    let before = start.after_all(steps.drop_last());
    let now = start.after_all(steps);
    let old_said = start.said(steps.drop_last());
    let out = before.saying(step);
    let said = start.said(steps);
    let old_completed = start.completed(steps.drop_last());
    let completed = start.completed(steps);
    let k = start.window.blocks_per_slice;
    let end = old_said.len() as int;
    assert(said == old_said + out);
    assert(start.takes_all(steps.drop_last()));
    assert(before.valid() && now.valid());
    lemma_said_comes_from(before, step);
    assert forall|i: int| 0 <= i < said.len() implies floor_holds(said, completed, k, i) by {
        if i < end {
            lemma_old_floor_holds(old_said, out, old_completed, completed, k, i);
        } else {
            lemma_new_floor_holds(before, old_said, out, old_completed, completed, i - end);
        }
    }
    let sealed = now.window.current.slice_no != before.window.current.slice_no;
    assert forall|slice: int, at: int|
        0 <= slice < completed.len() && #[trigger] has_slot(completed[slice], k, at) implies is_among(
        said,
        said.len() as int,
        slice,
        at,
    ) by {
        if slice < old_completed.len() {
            assert(completed[slice] == old_completed[slice]);
            lemma_among_grows(old_said, out, end, said.len() as int, slice, at);
        } else {
            lemma_sealing_says_the_rest(before, step, at);
            if 0 <= at < before.window.current.data.len() {
                assert(is_among(old_said, end, slice, at));
                lemma_among_grows(old_said, out, end, said.len() as int, slice, at);
            } else {
                let j = choose|j: int|
                    0 <= j < out.len() && is_shard(#[trigger] out[j], slice, at);
                assert(said[end + j] == out[j]);
            }
        }
    }
    assert forall|at: int| 0 <= at < now.window.current.data.len() implies #[trigger] is_among(
        said,
        said.len() as int,
        now.window.current.slice_no as int,
        at,
    ) by {
        let no = now.window.current.slice_no as int;
        if at < before.window.current.data.len() {
            assert(is_among(old_said, end, no, at));
            lemma_among_grows(old_said, out, end, said.len() as int, no, at);
        } else {
            assert(is_shard(out[0], no, at));
            assert(said[end] == out[0]);
        }
    }
    assert forall|i: int|
        #![trigger now.window.live[i]]
        0 <= i < now.window.live.len() implies now.window.live[i]
        == completed[now.window.live[i].slice_no as int] by {
        match step {
            StepView::Wanted(FeedbackView::Needed(first_needed)) => {
                let dropped = before.window.count_below(first_needed);
                assert(now.window.live[i] == before.window.live[i + dropped]);
            },
            _ => {
                if i < before.window.live.len() {
                    assert(now.window.live[i] == before.window.live[i]);
                }
            },
        }
    }
}

proof fn lemma_old_floor_holds(
    old_said: Seq<OutboundView>,
    out: Seq<OutboundView>,
    old_completed: Seq<SliceView>,
    completed: Seq<SliceView>,
    k: nat,
    i: int,
)
    requires
        0 <= i < old_said.len(),
        old_completed.is_prefix_of(completed),
        floor_holds(old_said, old_completed, k, i),
    ensures
        floor_holds(old_said + out, completed, k, i),
{
    let said = old_said + out;
    assert(said[i] == old_said[i]);
    if let OutboundView::Shard { slice_no, slot, emit_floor, .. } = said[i] {
        assert forall|j: int| 0 <= j < i implies (floor_of(#[trigger] said[j]) matches Some(
            earlier,
        ) ==> earlier <= emit_floor) by {
            assert(said[j] == old_said[j]);
        }
        assert forall|slice: int, at: int|
            0 <= slice < emit_floor && #[trigger] has_slot(completed[slice], k, at) implies is_among(
            said,
            i,
            slice,
            at,
        ) by {
            assert(completed[slice] == old_completed[slice]);
            lemma_among_grows(old_said, out, i, i, slice, at);
        }
        if is_among(old_said, i, slice_no as int, slot as int) {
            lemma_among_grows(old_said, out, i, i, slice_no as int, slot as int);
        }
    }
}

proof fn lemma_new_floor_holds(
    before: SlicerView,
    old_said: Seq<OutboundView>,
    out: Seq<OutboundView>,
    old_completed: Seq<SliceView>,
    completed: Seq<SliceView>,
    x: int,
)
    requires
        0 <= x < out.len(),
        before.valid(),
        old_completed.is_prefix_of(completed),
        old_completed.len() == before.window.current.slice_no,
        forall|i: int|
            #![trigger before.window.live[i]]
            0 <= i < before.window.live.len() ==> before.window.live[i]
                == old_completed[before.window.live[i].slice_no as int],
        forall|i: int|
            0 <= i < old_said.len() ==> floor_holds(
                old_said,
                old_completed,
                before.window.blocks_per_slice,
                i,
            ),
        forall|slice: int, at: int|
            0 <= slice < old_completed.len() && #[trigger] has_slot(
                old_completed[slice],
                before.window.blocks_per_slice,
                at,
            ) ==> is_among(old_said, old_said.len() as int, slice, at),
        forall|y: int| 0 <= y < out.len() ==> comes_from(before, #[trigger] out[y]),
    ensures
        floor_holds(
            old_said + out,
            completed,
            before.window.blocks_per_slice,
            old_said.len() + x,
        ),
{
    let said = old_said + out;
    let end = old_said.len() as int;
    let i = end + x;
    let k = before.window.blocks_per_slice;
    assert(said[i] == out[x]);
    assert(comes_from(before, out[x]));
    if let OutboundView::Shard { slice_no, slot, emit_floor, .. } = said[i] {
        assert forall|j: int| 0 <= j < i implies (floor_of(#[trigger] said[j]) matches Some(
            earlier,
        ) ==> earlier <= emit_floor) by {
            if j < end {
                assert(said[j] == old_said[j]);
                assert(floor_holds(old_said, old_completed, k, j));
            } else {
                assert(said[j] == out[j - end]);
                assert(comes_from(before, out[j - end]));
            }
        }
        assert forall|slice: int, at: int|
            0 <= slice < emit_floor && #[trigger] has_slot(completed[slice], k, at) implies is_among(
            said,
            i,
            slice,
            at,
        ) by {
            assert(completed[slice] == old_completed[slice]);
            lemma_among_grows(old_said, out, end, i, slice, at);
        }
        if slice_no != emit_floor {
            let w = before.window;
            let oldest = w.current.slice_no - w.live.len();
            let held = w.live[slice_no - oldest];
            assert(held.slice_no == slice_no);
            assert(has_slot(old_completed[slice_no as int], k, slot as int));
            lemma_among_grows(old_said, out, end, i, slice_no as int, slot as int);
        }
    }
}

proof fn lemma_settled(start: SlicerView, steps: Seq<StepView>)
    requires
        start.is_new(),
        start.takes_all(steps),
    ensures
        settled(start, steps),
    decreases steps.len(),
{
    if steps.len() > 0 {
        lemma_settled(start, steps.drop_last());
        lemma_step_settles(start, steps);
    }
}

} // verus!
