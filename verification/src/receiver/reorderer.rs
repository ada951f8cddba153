//! Putting blocks back in order.

use crate::buffers;
use bytes::Bytes;
use std::collections::BTreeMap;
use vstd::prelude::*;

verus! {

/// The block that is due next, and the blocks that wait for those before them.
#[verifier::ext_equal]
pub struct ReordererView {
    pub next_block: u64,
    pub pending: Map<u64, Seq<u8>>,
}

impl ReordererView {
    /// What holds of every reorderer.
    pub open spec fn valid(self) -> bool {
        &&& self.pending.dom().finite()
        &&& forall|block_no: u64| #[trigger]
            self.pending.dom().contains(block_no) ==> self.next_block <= block_no
        &&& self.has_gap()
    }

    /// Whether some block from the one that is due next on is not waiting, so that
    /// there is a number for the block that is due after what is handed over.
    pub open spec fn has_gap(self) -> bool {
        exists|block_no: u64|
            self.next_block <= block_no && !#[trigger] self.pending.dom().contains(block_no)
    }

    /// The state after a block arrived: one that was handed over already is
    /// ignored, one that still waits is replaced.
    pub open spec fn arrived(self, block_no: u64, payload: Seq<u8>) -> ReordererView {
        if block_no < self.next_block {
            self
        } else {
            ReordererView { pending: self.pending.insert(block_no, payload), ..self }
        }
    }

    /// The state after the block that is due next was handed over.
    pub open spec fn advanced(self) -> ReordererView {
        ReordererView {
            next_block: (self.next_block + 1) as u64,
            pending: self.pending.remove(self.next_block),
        }
    }

    /// The state after a block was taken in and what is then in order was handed over.
    pub open spec fn stepped(self, block_no: u64, payload: Seq<u8>) -> ReordererView {
        if block_no < self.next_block {
            self
        } else {
            self.arrived(block_no, payload).flushed()
        }
    }

    /// What is handed over when a block is taken in.
    pub open spec fn handing(self, block_no: u64, payload: Seq<u8>) -> Seq<Seq<u8>> {
        if block_no < self.next_block {
            Seq::empty()
        } else {
            self.arrived(block_no, payload).in_order()
        }
    }

    /// The blocks that are handed over: all that follow each other from the one
    /// that is due next.
    pub open spec fn in_order(self) -> Seq<Seq<u8>>
        decreases self.pending.dom().len(),
        when self.pending.dom().finite()
    {
        if self.pending.dom().contains(self.next_block) {
            seq![self.pending[self.next_block]] + self.advanced().in_order()
        } else {
            Seq::empty()
        }
    }

    /// The state after those blocks were handed over.
    pub open spec fn flushed(self) -> ReordererView
        decreases self.pending.dom().len(),
        when self.pending.dom().finite()
    {
        if self.pending.dom().contains(self.next_block) {
            self.advanced().flushed()
        } else {
            self
        }
    }
}

/// Blocks that are handed over in the order of their numbers.
pub struct Reorderer {
    next_block: u64,
    pending: BTreeMap<u64, Bytes>,
}

impl View for Reorderer {
    type V = ReordererView;

    closed spec fn view(&self) -> ReordererView {
        ReordererView {
            next_block: self.next_block,
            pending: self.pending@.map_values(|payload: Bytes| buffers::held(payload)),
        }
    }
}

impl Reorderer {
    /// What holds of every reorderer.
    pub closed spec fn wf(self) -> bool {
        self@.valid()
    }

    /// A well-formed reorderer is in a state that a reorderer can be in.
    pub proof fn is_valid(self)
        requires
            self.wf(),
        ensures
            self@.valid(),
    {
    }

    /// A reorderer that waits for the first block.
    pub fn new() -> (reorderer: Reorderer)
        ensures
            reorderer.wf(),
            reorderer@ == (ReordererView { next_block: 0, pending: Map::empty() }),
    {
        let reorderer = Reorderer { next_block: 0, pending: BTreeMap::new() };
        assert(reorderer@.pending =~= Map::<u64, Seq<u8>>::empty());
        assert(!reorderer@.pending.dom().contains(0));
        reorderer
    }

    /// Whether a block can be taken in: there is a number for the block that is due
    /// after it.
    pub fn can_take(&self, block_no: u64) -> (can: bool)
        requires
            self.wf(),
        ensures
            forall|payload: Seq<u8>| can == (#[trigger] self@.arrived(block_no, payload)).has_gap(),
    {
        let waiting: usize = self.pending.len();
        assert(self@.pending.dom() =~= self.pending@.dom());
        proof {
            assert forall|payload: Seq<u8>| (#[trigger] self@.arrived(
                block_no,
                payload,
            )).has_gap() == (block_no < self.next_block || self.pending@.dom().contains(block_no)
                || self.pending@.dom().len() < u64::MAX - self.next_block) by {
                let arrived = self@.arrived(block_no, payload);
                lemma_all_wait(arrived.pending.dom(), self.next_block);
                lemma_all_wait(self@.pending.dom(), self.next_block);
                if self.pending@.dom().contains(block_no) {
                    assert(arrived.pending.dom() =~= self@.pending.dom());
                }
            }
        }
        block_no < self.next_block || self.pending.contains_key(&block_no) || (waiting as u64)
            < u64::MAX - self.next_block
    }

    /// Takes a block in, and hands over what is then in order.
    pub fn on_block(&mut self, block_no: u64, payload: Bytes) -> (blocks: Vec<Bytes>)
        requires
            old(self).wf(),
            old(self)@.arrived(block_no, buffers::held(payload)).has_gap(),
        ensures
            final(self).wf(),
            final(self)@ == old(self)@.stepped(block_no, buffers::held(payload)),
            buffers::contents(blocks@) == old(self)@.handing(block_no, buffers::held(payload)),
    {
        if block_no < self.next_block {
            let blocks: Vec<Bytes> = Vec::new();
            assert(buffers::contents(blocks@) =~= Seq::<Seq<u8>>::empty());
            return blocks;
        }
        self.pending.insert(block_no, payload);
        assert(self@.pending =~= old(self)@.arrived(block_no, buffers::held(payload)).pending);
        self.flush()
    }

    /// Hands over what is in order.
    pub fn flush(&mut self) -> (blocks: Vec<Bytes>)
        requires
            old(self).wf(),
        ensures
            final(self).wf(),
            buffers::contents(blocks@) == old(self)@.in_order(),
            final(self)@ == old(self)@.flushed(),
    {
        let mut blocks: Vec<Bytes> = Vec::new();
        assert(buffers::contents(blocks@) + self@.in_order() =~= self@.in_order());
        loop
            invariant
                self.wf(),
                old(self)@.flushed() == self@.flushed(),
                old(self)@.in_order() == buffers::contents(blocks@) + self@.in_order(),
            ensures
                !self@.pending.dom().contains(self@.next_block),
            decreases self@.pending.dom().len(),
        {
            let ghost before = self@;
            let ghost sofar = blocks@;
            match self.pending.remove(&self.next_block) {
                Some(payload) => {
                    assert(before.pending.dom().contains(before.next_block));
                    blocks.push(payload);
                    let ghost gap = choose|gap: u64|
                        before.next_block <= gap && !#[trigger] before.pending.dom().contains(gap);
                    self.next_block += 1;
                    assert(self@.pending =~= before.advanced().pending);
                    assert(!self@.pending.dom().contains(gap));
                    assert(buffers::contents(blocks@) =~= buffers::contents(sofar).push(
                        buffers::held(payload),
                    ));
                    assert(buffers::contents(sofar) + (seq![buffers::held(payload)]
                        + self@.in_order()) =~= buffers::contents(blocks@) + self@.in_order());
                },
                None => {
                    assert(self@.pending =~= before.pending);
                    break ;
                },
            }
        }
        assert(buffers::contents(blocks@) + self@.in_order() =~= buffers::contents(blocks@));
        blocks
    }
}

/// Blocks from one number on all wait exactly where as many wait as there are.
proof fn lemma_all_wait(waiting: Set<u64>, from: u64)
    requires
        waiting.finite(),
        forall|block_no: u64| #[trigger] waiting.contains(block_no) ==> from <= block_no,
    ensures
        waiting.len() <= u64::MAX - from + 1,
        waiting.len() == u64::MAX - from + 1 <==> forall|block_no: u64|
            from <= block_no ==> #[trigger] waiting.contains(block_no),
    decreases u64::MAX - from,
{
    let others = waiting.remove(from);
    if !waiting.contains(from) {
        assert(others =~= waiting);
    }
    if from == u64::MAX {
        assert(others =~= Set::<u64>::empty());
    } else {
        let next = (from + 1) as u64;
        lemma_all_wait(others, next);
        if forall|block_no: u64| from <= block_no ==> #[trigger] waiting.contains(block_no) {
            assert forall|block_no: u64| next <= block_no implies #[trigger] others.contains(
                block_no,
            ) by {
                assert(waiting.contains(block_no));
            }
            assert(waiting.contains(from));
        }
        if waiting.len() == u64::MAX - from + 1 {
            assert forall|block_no: u64| from <= block_no implies #[trigger] waiting.contains(
                block_no,
            ) by {
                if block_no != from {
                    assert(others.contains(block_no));
                }
            }
        }
    }
}

/// Whatever order the blocks of a transfer arrive in, they are handed over in the
/// order of the transfer, each once: what is handed over is what follows what was
/// handed over before, and what waits still belongs to the transfer.
pub proof fn blocks_leave_in_the_order_of_the_source(
    reorderer: ReordererView,
    source: Seq<Seq<u8>>,
)
    requires
        reorderer.valid(),
        reorderer.next_block <= source.len(),
        forall|block_no: u64| #[trigger]
            reorderer.pending.dom().contains(block_no) ==> block_no < source.len()
                && reorderer.pending[block_no] == source[block_no as int],
    ensures
        reorderer.next_block <= reorderer.flushed().next_block <= source.len(),
        reorderer.in_order() == source.subrange(
            reorderer.next_block as int,
            reorderer.flushed().next_block as int,
        ),
        !reorderer.flushed().pending.dom().contains(reorderer.flushed().next_block),
        forall|block_no: u64| #[trigger]
            reorderer.flushed().pending.dom().contains(block_no) ==> reorderer.pending.dom().contains(
                block_no,
            ) && block_no >= reorderer.flushed().next_block,
    decreases reorderer.pending.dom().len(),
{
    if reorderer.pending.dom().contains(reorderer.next_block) {
        let next = reorderer.advanced();
        blocks_leave_in_the_order_of_the_source(next, source);
        assert(seq![reorderer.pending[reorderer.next_block]] + next.in_order() =~= source.subrange(
            reorderer.next_block as int,
            reorderer.flushed().next_block as int,
        ));
    } else {
        assert(source.subrange(reorderer.next_block as int, reorderer.next_block as int)
            =~= Seq::<Seq<u8>>::empty());
    }
}

/// What handing over does: it takes the blocks that wait one after another from the
/// one that is due next, up to the first that does not wait, and leaves the rest.
proof fn lemma_handed_over(reorderer: ReordererView)
    requires
        reorderer.valid(),
    ensures
        reorderer.flushed().valid(),
        reorderer.next_block <= reorderer.flushed().next_block,
        reorderer.in_order().len() == reorderer.flushed().next_block - reorderer.next_block,
        forall|block_no: u64|
            reorderer.next_block <= block_no < reorderer.flushed().next_block ==> {
                &&& #[trigger] reorderer.pending.dom().contains(block_no)
                &&& reorderer.in_order()[block_no - reorderer.next_block]
                    == reorderer.pending[block_no]
            },
        !reorderer.flushed().pending.dom().contains(reorderer.flushed().next_block),
        forall|block_no: u64| #[trigger]
            reorderer.flushed().pending.dom().contains(block_no) <==> reorderer.pending.dom().contains(
                block_no,
            ) && reorderer.flushed().next_block <= block_no,
        forall|block_no: u64| #[trigger]
            reorderer.flushed().pending.dom().contains(block_no)
                ==> reorderer.flushed().pending[block_no] == reorderer.pending[block_no],
    decreases reorderer.pending.dom().len(),
{
    if reorderer.pending.dom().contains(reorderer.next_block) {
        let next = reorderer.advanced();
        let gap = choose|gap: u64|
            reorderer.next_block <= gap && !#[trigger] reorderer.pending.dom().contains(gap);
        assert(!next.pending.dom().contains(gap));
        lemma_handed_over(next);
        let end = reorderer.flushed().next_block;
        assert forall|block_no: u64| reorderer.next_block <= block_no < end implies {
            &&& #[trigger] reorderer.pending.dom().contains(block_no)
            &&& reorderer.in_order()[block_no - reorderer.next_block]
                == reorderer.pending[block_no]
        } by {
            if block_no > reorderer.next_block {
                assert(next.pending.dom().contains(block_no));
            }
        }
    }
}

/// The state after blocks were passed to a new reorderer, one after another.
pub open spec fn after_all(calls: Seq<(u64, Seq<u8>)>) -> ReordererView
    decreases calls.len(),
{
    if calls.len() == 0 {
        ReordererView { next_block: 0, pending: Map::empty() }
    } else {
        after_all(calls.drop_last()).stepped(calls.last().0, calls.last().1)
    }
}

/// Everything that was handed over by then.
pub open spec fn handed_over(calls: Seq<(u64, Seq<u8>)>) -> Seq<Seq<u8>>
    decreases calls.len(),
{
    if calls.len() == 0 {
        Seq::empty()
    } else {
        handed_over(calls.drop_last()) + after_all(calls.drop_last()).handing(
            calls.last().0,
            calls.last().1,
        )
    }
}

/// Whether there was always a number for the block that was due next.
pub open spec fn numbered(calls: Seq<(u64, Seq<u8>)>) -> bool
    decreases calls.len(),
{
    calls.len() > 0 ==> {
        &&& numbered(calls.drop_last())
        &&& after_all(calls.drop_last()).arrived(calls.last().0, calls.last().1).has_gap()
    }
}

/// Whether a block was passed.
pub open spec fn was_passed(calls: Seq<(u64, Seq<u8>)>, block_no: u64) -> bool {
    exists|i: int| 0 <= i < calls.len() && (#[trigger] calls[i]).0 == block_no
}

/// The last payload that was passed for a block while it was not handed over yet.
pub open spec fn last_passed(calls: Seq<(u64, Seq<u8>)>, block_no: u64) -> Option<Seq<u8>>
    decreases calls.len(),
{
    if calls.len() == 0 {
        None
    } else if calls.last().0 == block_no && after_all(calls.drop_last()).next_block <= block_no {
        Some(calls.last().1)
    } else {
        last_passed(calls.drop_last(), block_no)
    }
}

/// Whatever blocks are passed, in whatever order and however often: what was handed
/// over is one payload for each block below the lowest that was not passed, in
/// order, and it is the last that was passed for the block while it still waited.
/// The blocks above that one wait, with the last payload passed for them.
pub proof fn each_block_is_handed_over_once_and_in_order(calls: Seq<(u64, Seq<u8>)>)
    requires
        numbered(calls),
    ensures
        after_all(calls).valid(),
        handed_over(calls).len() == after_all(calls).next_block,
        !was_passed(calls, after_all(calls).next_block),
        forall|block_no: u64|
            block_no < after_all(calls).next_block ==> {
                &&& #[trigger] was_passed(calls, block_no)
                &&& last_passed(calls, block_no) == Some(handed_over(calls)[block_no as int])
            },
        forall|block_no: u64|
            block_no > after_all(calls).next_block ==> {
                &&& #[trigger] after_all(calls).pending.dom().contains(block_no) <==> was_passed(
                    calls,
                    block_no,
                )
                &&& after_all(calls).pending.dom().contains(block_no) ==> last_passed(
                    calls,
                    block_no,
                ) == Some(after_all(calls).pending[block_no])
            },
        !after_all(calls).pending.dom().contains(after_all(calls).next_block),
    decreases calls.len(),
{
    let now = after_all(calls);
    let out = handed_over(calls);
    if calls.len() == 0 {
        assert(!now.pending.dom().contains(0));
    } else {
        let earlier = calls.drop_last();
        let before = after_all(earlier);
        let (block, payload) = calls.last();
        each_block_is_handed_over_once_and_in_order(earlier);
        lemma_passed(calls);
        if block < before.next_block {
            assert(out =~= handed_over(earlier));
        } else {
            let arrived = before.arrived(block, payload);
            assert(arrived.valid());
            lemma_handed_over(arrived);
            assert forall|block_no: u64| block_no < now.next_block implies {
                &&& #[trigger] was_passed(calls, block_no)
                &&& last_passed(calls, block_no) == Some(out[block_no as int])
            } by {
                if block_no < before.next_block {
                    assert(was_passed(earlier, block_no));
                    assert(out[block_no as int] == handed_over(earlier)[block_no as int]);
                } else {
                    assert(arrived.pending.dom().contains(block_no));
                    assert(out[block_no as int] == arrived.in_order()[block_no
                        - before.next_block]);
                    if block_no != block {
                        assert(before.pending.dom().contains(block_no));
                    }
                }
            }
            assert forall|block_no: u64| block_no > now.next_block implies {
                &&& #[trigger] now.pending.dom().contains(block_no) <==> was_passed(
                    calls,
                    block_no,
                )
                &&& now.pending.dom().contains(block_no) ==> last_passed(calls, block_no) == Some(
                    now.pending[block_no],
                )
            } by {
                assert(now.pending.dom().contains(block_no) <==> arrived.pending.dom().contains(
                    block_no,
                ));
                assert(before.pending.dom().contains(block_no) <==> was_passed(earlier, block_no));
            }
            assert(!arrived.pending.dom().contains(now.next_block));
            if now.next_block > before.next_block {
                assert(before.pending.dom().contains(now.next_block) <==> was_passed(
                    earlier,
                    now.next_block,
                ));
            }
        }
    }
}

proof fn lemma_passed(calls: Seq<(u64, Seq<u8>)>)
    requires
        calls.len() > 0,
    ensures
        forall|block_no: u64| #[trigger]
            was_passed(calls, block_no) <==> was_passed(calls.drop_last(), block_no)
                || calls.last().0 == block_no,
{
    let earlier = calls.drop_last();
    assert forall|block_no: u64| #[trigger] was_passed(calls, block_no) <==> was_passed(
        earlier,
        block_no,
    ) || calls.last().0 == block_no by {
        if was_passed(earlier, block_no) {
            let i = choose|i: int| 0 <= i < earlier.len() && (#[trigger] earlier[i]).0 == block_no;
            assert(calls[i] == earlier[i]);
        }
        if was_passed(calls, block_no) {
            let i = choose|i: int| 0 <= i < calls.len() && (#[trigger] calls[i]).0 == block_no;
            if i < earlier.len() {
                assert(earlier[i] == calls[i]);
            }
        }
        assert(calls[calls.len() - 1] == calls.last());
    }
}

} // verus!
