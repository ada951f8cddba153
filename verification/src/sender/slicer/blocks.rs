//! Cutting the input into blocks.

use crate::buffers;
use crate::shards;
use bytes::{Bytes, BytesMut};
use vstd::prelude::*;

verus! {

/// The next block that is cut off the front of what was read: a whole one, or, once
/// the input has ended, whatever is left. There is none while more has to be read,
/// and none when the input has ended with nothing left.
pub open spec fn front(slab: Seq<u8>, block_size: nat, ended: bool) -> Option<Seq<u8>> {
    if slab.len() >= block_size {
        Some(slab.take(block_size as int))
    } else if ended && slab.len() > 0 {
        Some(slab)
    } else {
        None
    }
}

/// Cuts the next block off the front of what was read, once there is enough for a
/// whole one or the input has ended. There is none while more has to be read, and
/// none left when the input has ended with nothing read.
pub fn next_block(slab: &mut BytesMut, block_size: usize, ended: bool) -> (block: Option<Bytes>)
    requires
        block_size > 0,
    ensures
        ({
            let before = buffers::staged(*old(slab));
            let after = buffers::staged(*final(slab));
            match block {
                Some(block) => {
                    &&& front(before, block_size as nat, ended) == Some(buffers::held(block))
                    &&& after == before.skip(buffers::held(block).len() as int)
                },
                None => {
                    &&& front(before, block_size as nat, ended) is None
                    &&& after == before
                },
            }
        }),
{
    let len: usize = buffers::staged_len(slab);
    if len >= block_size {
        let block = buffers::staged_freeze(buffers::staged_split(slab, block_size));
        assert(buffers::held(block) =~= buffers::staged(*old(slab)).take(block_size as int));
        assert(buffers::staged(*slab) =~= buffers::staged(*old(slab)).skip(block_size as int));
        Some(block)
    } else if ended && len > 0 {
        let block = buffers::staged_freeze(buffers::staged_split(slab, len));
        assert(buffers::held(block) =~= buffers::staged(*old(slab)));
        assert(buffers::staged(*slab) =~= buffers::staged(*old(slab)).skip(len as int));
        Some(block)
    } else {
        None
    }
}

/// The blocks that a run of bytes is cut into: whole ones, and what is left.
pub open spec fn cut(bytes: Seq<u8>, block_size: nat) -> Seq<Seq<u8>>
    decreases bytes.len(),
{
    if bytes.len() == 0 || block_size == 0 {
        Seq::empty()
    } else if bytes.len() <= block_size {
        seq![bytes]
    } else {
        seq![bytes.take(block_size as int)] + cut(bytes.skip(block_size as int), block_size)
    }
}

/// Cutting loses nothing: the blocks joined up are the input. Every block but the
/// last is whole, and none is empty.
pub proof fn cutting_loses_nothing(bytes: Seq<u8>, block_size: nat)
    requires
        0 < block_size,
    ensures
        cut(bytes, block_size).flatten() == bytes,
        forall|i: int|
            0 <= i < cut(bytes, block_size).len() ==> 0 < (#[trigger] cut(bytes, block_size)[i]).len()
                <= block_size,
        forall|i: int|
            0 <= i < cut(bytes, block_size).len() - 1 ==> (#[trigger] cut(bytes, block_size)[i]).len()
                == block_size,
        bytes.len() == 0 ==> cut(bytes, block_size).len() == 0,
    decreases bytes.len(),
{
    let blocks = cut(bytes, block_size);
    if bytes.len() == 0 {
        assert(blocks.flatten() =~= bytes);
    } else if bytes.len() <= block_size {
        blocks.lemma_flatten_one_element();
        assert(blocks.flatten() == bytes);
    } else {
        let first = bytes.take(block_size as int);
        let rest = bytes.skip(block_size as int);
        let others = cut(rest, block_size);
        cutting_loses_nothing(rest, block_size);
        assert(blocks.first() == first);
        assert(blocks.drop_first() =~= others);
        assert(blocks.flatten() =~= first + others.flatten());
        assert(first + rest =~= bytes);
        assert forall|i: int| 0 <= i < blocks.len() implies 0 < (#[trigger] blocks[i]).len()
            <= block_size by {
            if i > 0 {
                assert(blocks[i] == others[i - 1]);
            }
        }
        assert forall|i: int| 0 <= i < blocks.len() - 1 implies (#[trigger] blocks[i]).len()
            == block_size by {
            if i > 0 {
                assert(blocks[i] == others[i - 1]);
            }
        }
    }
}

/// What happens while the input is cut.
pub enum IntakeView {
    /// Bytes are read, however many.
    Read(Seq<u8>),
    /// The input ends.
    End,
    /// The next block is cut off, if there is one.
    Cut,
}

/// The state of cutting: what was read by now, what of it is still to be cut,
/// whether the input ended, and the blocks that were cut.
#[verifier::ext_equal]
pub struct CuttingView {
    pub read: Seq<u8>,
    pub slab: Seq<u8>,
    pub ended: bool,
    pub blocks: Seq<Seq<u8>>,
}

impl CuttingView {
    /// Nothing was read yet.
    pub open spec fn start() -> CuttingView {
        CuttingView { read: Seq::empty(), slab: Seq::empty(), ended: false, blocks: Seq::empty() }
    }

    /// The state after something happened. Nothing is read after the end.
    pub open spec fn stepped(self, block_size: nat, step: IntakeView) -> CuttingView {
        match step {
            IntakeView::Read(bytes) => if self.ended {
                self
            } else {
                CuttingView { read: self.read + bytes, slab: self.slab + bytes, ..self }
            },
            IntakeView::End => CuttingView { ended: true, ..self },
            IntakeView::Cut => match front(self.slab, block_size, self.ended) {
                Some(block) => CuttingView {
                    slab: self.slab.skip(block.len() as int),
                    blocks: self.blocks.push(block),
                    ..self
                },
                None => self,
            },
        }
    }

    /// The state after all of that happened, one after another.
    pub open spec fn after(block_size: nat, steps: Seq<IntakeView>) -> CuttingView
        decreases steps.len(),
    {
        if steps.len() == 0 {
            CuttingView::start()
        } else {
            CuttingView::after(block_size, steps.drop_last()).stepped(block_size, steps.last())
        }
    }
}

/// The first `count` whole blocks of a run of bytes.
pub open spec fn whole_blocks(bytes: Seq<u8>, block_size: nat, count: nat) -> Seq<Seq<u8>> {
    Seq::new(count, |i: int| bytes.subrange(i * block_size, (i + 1) * block_size))
}

/// How the input was read makes no difference: once it has ended and nothing is left
/// to cut, the blocks are those that all of it is cut into in one piece. As long as
/// it has not ended, as where reading fails, they are its whole blocks once nothing
/// is left to cut, and never anything else.
pub proof fn how_the_input_is_read_makes_no_difference(block_size: nat, steps: Seq<IntakeView>)
    requires
        0 < block_size,
    ensures
        ({
            let cutting = CuttingView::after(block_size, steps);
            &&& cutting.blocks + cut(cutting.slab, block_size) == cut(cutting.read, block_size)
            &&& front(cutting.slab, block_size, cutting.ended) is None && cutting.ended
                ==> cutting.blocks == cut(cutting.read, block_size)
            &&& front(cutting.slab, block_size, cutting.ended) is None && !cutting.ended
                ==> cutting.blocks == whole_blocks(
                cutting.read,
                block_size,
                cutting.read.len() / block_size,
            )
            &&& !cutting.ended ==> cutting.blocks == whole_blocks(
                cutting.read,
                block_size,
                cutting.blocks.len(),
            )
        }),
{
    lemma_cutting(block_size, steps);
    let cutting = CuttingView::after(block_size, steps);
    let n = cutting.blocks.len();
    if cutting.slab.len() == 0 {
        assert(cutting.blocks + cut(cutting.slab, block_size) =~= cutting.blocks);
    }
    if !cutting.ended && cutting.slab.len() < block_size {
        vstd::arithmetic::div_mod::lemma_fundamental_div_mod_converse(
            cutting.read.len() as int,
            block_size as int,
            n as int,
            cutting.slab.len() as int,
        );
    }
}

/// What was cut and what is left to cut make up what was read: whole blocks and what
/// follows them, or, after the last and short block, everything.
spec fn adds_up(cutting: CuttingView, block_size: nat) -> bool {
    let n = cutting.blocks.len();
    ||| {
        &&& n * block_size <= cutting.read.len()
        &&& cutting.blocks == whole_blocks(cutting.read, block_size, n)
        &&& cutting.slab == cutting.read.skip((n * block_size) as int)
    }
    ||| {
        &&& cutting.ended
        &&& cutting.slab.len() == 0
        &&& cutting.blocks == cut(cutting.read, block_size)
    }
}

proof fn lemma_cutting(block_size: nat, steps: Seq<IntakeView>)
    requires
        0 < block_size,
    ensures
        adds_up(CuttingView::after(block_size, steps), block_size),
        ({
            let cutting = CuttingView::after(block_size, steps);
            cutting.blocks + cut(cutting.slab, block_size) == cut(cutting.read, block_size)
        }),
    decreases steps.len(),
{
    let now = CuttingView::after(block_size, steps);
    let n = now.blocks.len();
    if steps.len() == 0 {
        assert(0 * block_size == 0);
        assert(now.blocks =~= whole_blocks(now.read, block_size, 0));
        assert(now.slab =~= now.read.skip(0));
        lemma_cut_behind(now.read, block_size, n);
    } else {
        lemma_cutting(block_size, steps.drop_last());
        let before = CuttingView::after(block_size, steps.drop_last());
        let m = before.blocks.len();
        let step = steps.last();
        if m * block_size <= before.read.len() && before.blocks == whole_blocks(
            before.read,
            block_size,
            m,
        ) && before.slab == before.read.skip((m * block_size) as int) {
            lemma_step_adds_up(before, block_size, step);
        }
        if now.slab.len() == 0 && now.blocks == cut(now.read, block_size) {
            assert(now.blocks + cut(now.slab, block_size) =~= now.blocks);
        } else {
            lemma_cut_behind(now.read, block_size, n);
        }
    }
}

proof fn lemma_step_adds_up(before: CuttingView, block_size: nat, step: IntakeView)
    requires
        0 < block_size,
        before.blocks.len() * block_size <= before.read.len(),
        before.blocks == whole_blocks(before.read, block_size, before.blocks.len()),
        before.slab == before.read.skip((before.blocks.len() * block_size) as int),
    ensures
        adds_up(before.stepped(block_size, step), block_size),
{
    let now = before.stepped(block_size, step);
    let m = before.blocks.len();
    assert((m + 1) * block_size == m * block_size + block_size) by (nonlinear_arith);
    match step {
        IntakeView::Read(bytes) => {
            assert(now.slab =~= now.read.skip((m * block_size) as int));
            assert forall|i: int| 0 <= i < m implies #[trigger] now.blocks[i] == whole_blocks(
                now.read,
                block_size,
                m,
            )[i] by {
                assert(0 <= i * block_size && (i + 1) * block_size <= m * block_size
                    && i * block_size <= (i + 1) * block_size) by (nonlinear_arith)
                    requires
                        0 <= i,
                        i + 1 <= m,
                ;
                assert(now.read.subrange(i * block_size, (i + 1) * block_size)
                    =~= before.read.subrange(i * block_size, (i + 1) * block_size));
            }
            assert(now.blocks =~= whole_blocks(now.read, block_size, m));
        },
        IntakeView::End => {},
        IntakeView::Cut => {
            if before.slab.len() >= block_size {
                assert(before.slab.take(block_size as int) =~= before.read.subrange(
                    (m * block_size) as int,
                    ((m + 1) * block_size) as int,
                ));
                assert(now.blocks =~= whole_blocks(now.read, block_size, m + 1));
                assert(now.slab =~= now.read.skip(((m + 1) * block_size) as int));
            } else if before.ended && before.slab.len() > 0 {
                lemma_cut_behind(before.read, block_size, m);
                assert(cut(before.slab, block_size) =~= seq![before.slab]);
                assert(now.blocks =~= before.blocks + cut(before.slab, block_size));
            }
        },
    }
}

/// Cutting goes on behind whole blocks as if they had not been there.
proof fn lemma_cut_behind(bytes: Seq<u8>, block_size: nat, count: nat)
    requires
        0 < block_size,
        count * block_size <= bytes.len(),
    ensures
        whole_blocks(bytes, block_size, count) + cut(
            bytes.skip((count * block_size) as int),
            block_size,
        ) == cut(bytes, block_size),
    decreases count,
{
    let whole = whole_blocks(bytes, block_size, count);
    if count == 0 {
        assert(0 * block_size == 0);
        assert(bytes.skip(0) =~= bytes);
        assert(whole + cut(bytes, block_size) =~= cut(bytes, block_size));
    } else {
        let less = (count - 1) as nat;
        let at = (less * block_size) as int;
        assert(count * block_size == less * block_size + block_size) by (nonlinear_arith)
            requires
                count == less + 1,
        ;
        lemma_cut_behind(bytes, block_size, less);
        let rest = bytes.skip(at);
        let block = rest.take(block_size as int);
        assert(rest.skip(block_size as int) =~= bytes.skip((count * block_size) as int));
        if rest.len() == block_size {
            assert(block =~= rest);
            assert(rest.skip(block_size as int) =~= Seq::<u8>::empty());
        }
        assert(cut(rest, block_size) =~= seq![block] + cut(
            rest.skip(block_size as int),
            block_size,
        ));
        assert(block =~= bytes.subrange(at, (count * block_size) as int));
        assert(whole =~= whole_blocks(bytes, block_size, less).push(block));
        assert(whole_blocks(bytes, block_size, less) + (seq![block] + cut(
            rest.skip(block_size as int),
            block_size,
        )) =~= whole + cut(rest.skip(block_size as int), block_size));
    }
}

/// The blocks that the input is cut into follow one another in it, and, each filled
/// up to its full size, are the blocks of the transfer.
pub proof fn cut_blocks_are_those_of_the_transfer(bytes: Seq<u8>, block_size: nat)
    requires
        0 < block_size,
    ensures
        cut(bytes, block_size).len() == shards::block_count(bytes, block_size),
        forall|i: int|
            0 <= i < cut(bytes, block_size).len() ==> shards::padded_block(
                #[trigger] cut(bytes, block_size)[i],
                block_size,
            ) == shards::source_blocks(bytes, block_size)[i] && cut(bytes, block_size)[i]
                == bytes.subrange(
                i * block_size,
                shards::block_end(bytes, block_size, i),
            ),
    decreases bytes.len(),
{
    let blocks = cut(bytes, block_size);
    let len = bytes.len() as int;
    let size = block_size as int;
    if len == 0 {
        vstd::arithmetic::div_mod::lemma_small_mod((size - 1) as nat, block_size);
        vstd::arithmetic::div_mod::lemma_basic_div(size - 1, size);
    } else if len <= size {
        vstd::arithmetic::div_mod::lemma_fundamental_div_mod_converse(
            len + size - 1,
            size,
            1,
            len - 1,
        );
        assert(bytes.subrange(0, len) =~= bytes);
        assert(shards::block_end(bytes, block_size, 0) == len);
        assert(0 * size == 0);
        assert forall|i: int| 0 <= i < blocks.len() implies #[trigger] blocks[i]
            == bytes.subrange(i * block_size, shards::block_end(bytes, block_size, i)) by {
            assert(i == 0);
        }
        assert(shards::source_blocks(bytes, block_size)[0] == shards::padded_block(
            bytes,
            block_size,
        ));
    } else {
        let rest = bytes.skip(size);
        let others = cut(rest, block_size);
        cut_blocks_are_those_of_the_transfer(rest, block_size);
        vstd::arithmetic::div_mod::lemma_div_plus_one(len - size + size - 1, size);
        assert(shards::block_count(bytes, block_size) == shards::block_count(rest, block_size) + 1);
        assert forall|i: int| 0 <= i < blocks.len() implies shards::padded_block(
            #[trigger] blocks[i],
            block_size,
        ) == shards::source_blocks(bytes, block_size)[i] && blocks[i] == bytes.subrange(
            i * block_size,
            shards::block_end(bytes, block_size, i),
        ) by {
            assert(shards::source_blocks(bytes, block_size)[i] == shards::padded_block(
                bytes.subrange(i * block_size, shards::block_end(bytes, block_size, i)),
                block_size,
            ));
            if i == 0 {
                assert(bytes.subrange(0, size) =~= bytes.take(size));
                assert(shards::block_end(bytes, block_size, 0) == size);
            } else {
                assert(blocks[i] == others[i - 1]);
                assert(shards::padded_block(others[i - 1], block_size) == shards::source_blocks(
                    rest,
                    block_size,
                )[i - 1]);
                assert(shards::source_blocks(rest, block_size)[i - 1] == shards::padded_block(
                    rest.subrange(
                        (i - 1) * block_size,
                        shards::block_end(rest, block_size, i - 1),
                    ),
                    block_size,
                ));
                assert((i - 1) * size + size == i * size) by (nonlinear_arith);
                assert((i + 1) * size == i * size + size) by (nonlinear_arith);
                assert(0 <= (i - 1) * size) by (nonlinear_arith)
                    requires
                        1 <= i,
                        0 < size,
                ;
                shards::source_blocks_are_sized(rest, block_size);
                assert(0 <= (i - 1) * block_size < rest.len());
                assert(rest.subrange(
                    (i - 1) * size,
                    shards::block_end(rest, block_size, i - 1),
                ) =~= bytes.subrange(i * size, shards::block_end(bytes, block_size, i)));
            }
        }
    }
}

} // verus!
