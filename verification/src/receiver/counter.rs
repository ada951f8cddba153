//! Counting the blocks that were seen.

use vstd::prelude::*;

verus! {

/// The bit of a block in the word that holds it.
pub open spec fn bit(word: u64, place: u64) -> bool {
    word & (1u64 << place) != 0
}

/// The blocks that were seen, a bit for each.
#[derive(Debug)]
pub struct BlockCounter {
    words: Vec<u64>,
    highest_block_seen: Option<u64>,
    blocks_seen: u64,
}

impl View for BlockCounter {
    type V = Set<u64>;

    closed spec fn view(&self) -> Set<u64> {
        Set::new(|block: u64| marked(self.words@, block))
    }
}

/// Whether the bit of a block is set.
spec fn marked(words: Seq<u64>, block: u64) -> bool {
    block / 64 < words.len() && bit(words[(block / 64) as int], block % 64)
}

impl Default for BlockCounter {
    fn default() -> (counter: BlockCounter)
        ensures
            counter.wf(),
            counter@ == Set::<u64>::empty(),
    {
        let counter = BlockCounter {
            words: Vec::new(),
            highest_block_seen: None,
            blocks_seen: 0,
        };
        assert(counter@ =~= Set::<u64>::empty());
        counter
    }
}

impl BlockCounter {
    /// What holds of every counter.
    pub closed spec fn wf(self) -> bool {
        &&& self@.finite()
        &&& self.blocks_seen == self@.len()
        &&& match self.highest_block_seen {
            Some(highest) => self@.contains(highest) && forall|block: u64| #[trigger]
                self@.contains(block) ==> block <= highest,
            None => self@ == Set::<u64>::empty(),
        }
    }

    /// Takes note of a block, and says whether it is new.
    pub fn insert(&mut self, block_number: u64) -> (new: bool)
        requires
            old(self).wf(),
            old(self)@.len() < u64::MAX,
            8 * (block_number / 64 + 1) <= isize::MAX,
        ensures
            final(self).wf(),
            new == !old(self)@.contains(block_number),
            final(self)@ == old(self)@.insert(block_number),
    {
        if self.contains(block_number) {
            assert(old(self)@.insert(block_number) =~= old(self)@);
            return false;
        }
        let ghost before = self.words@;
        let word_idx: usize = (block_number / 64) as usize;
        let place: u64 = block_number % 64;
        if word_idx >= self.words.len() {
            self.words.resize(word_idx + 1, 0);
        }
        let ghost grown = self.words@;
        let word: u64 = self.words[word_idx];
        self.words.set(word_idx, word | (1u64 << place));
        self.blocks_seen += 1;
        let higher = match self.highest_block_seen {
            Some(highest) => highest < block_number,
            None => true,
        };
        if higher {
            self.highest_block_seen = Some(block_number);
        }
        proof {
            assert(0u64 & (1u64 << 0) == 0) by (bit_vector);
            assert forall|block: u64| marked(self.words@, block) <==> marked(before, block) || block
                == block_number by {
                let at = block % 64;
                if block / 64 == block_number / 64 {
                    assert(block != block_number ==> at != place);
                    assert(at < 64 && place < 64);
                    assert(((word | (1u64 << place)) & (1u64 << at) != 0) <==> (word & (1u64 << at)
                        != 0 || at == place)) by (bit_vector)
                        requires
                            at < 64,
                            place < 64,
                    ;
                    if block / 64 >= before.len() {
                        assert(word == 0);
                        assert(0u64 & (1u64 << at) == 0) by (bit_vector);
                    }
                } else if block / 64 >= before.len() && block / 64 < self.words@.len() {
                    assert(self.words@[(block / 64) as int] == 0);
                    assert(0u64 & (1u64 << at) == 0) by (bit_vector);
                }
            }
            assert(self@ =~= old(self)@.insert(block_number));
        }
        true
    }

    /// Whether a block was seen.
    pub fn contains(&self, block_number: u64) -> (seen: bool)
        requires
            block_number / 64 <= usize::MAX,
        ensures
            seen == self@.contains(block_number),
    {
        let word_idx: usize = (block_number / 64) as usize;
        if word_idx < self.words.len() {
            let place: u64 = block_number % 64;
            self.words[word_idx] & (1u64 << place) != 0
        } else {
            false
        }
    }

    /// The highest block that was seen.
    pub fn highest_block_seen(&self) -> (highest: Option<u64>)
        requires
            self.wf(),
        ensures
            match highest {
                Some(highest) => self@.contains(highest) && forall|block: u64| #[trigger]
                    self@.contains(block) ==> block <= highest,
                None => self@ == Set::<u64>::empty(),
            },
    {
        self.highest_block_seen
    }

    /// How many different blocks were seen.
    pub fn number_of_blocks_seen(&self) -> (count: u64)
        requires
            self.wf(),
        ensures
            count == self@.len(),
    {
        self.blocks_seen
    }
}

/// What a new counter holds after it took note of blocks, one after another.
pub open spec fn counted(blocks: Seq<u64>) -> Set<u64>
    decreases blocks.len(),
{
    if blocks.len() == 0 {
        Set::empty()
    } else {
        counted(blocks.drop_last()).insert(blocks.last())
    }
}

/// Whatever blocks a counter took note of, in whatever order and however often: it
/// holds exactly those, so that another is new where it was not among them, counts
/// it then and only then, and the highest is the highest among them.
pub proof fn each_block_counts_once(blocks: Seq<u64>, next: u64)
    ensures
        counted(blocks).finite(),
        counted(blocks) == blocks.to_set(),
        counted(blocks).contains(next) <==> blocks.contains(next),
        counted(blocks.push(next)) == counted(blocks).insert(next),
        counted(blocks.push(next)).len() == counted(blocks).len() + if blocks.contains(next) {
            0nat
        } else {
            1nat
        },
        forall|highest: u64|
            (counted(blocks).contains(highest) && forall|block: u64| #[trigger]
                counted(blocks).contains(block) ==> block <= highest) <==> (
            #[trigger] blocks.contains(highest) && forall|i: int|
                0 <= i < blocks.len() ==> #[trigger] blocks[i] <= highest),
{
    lemma_counted(blocks);
    assert(blocks.push(next).drop_last() =~= blocks);
    assert forall|highest: u64|
        (counted(blocks).contains(highest) && forall|block: u64| #[trigger]
            counted(blocks).contains(block) ==> block <= highest) <==> (
        #[trigger] blocks.contains(highest) && forall|i: int|
            0 <= i < blocks.len() ==> #[trigger] blocks[i] <= highest) by {
        assert(counted(blocks).contains(highest) <==> blocks.contains(highest));
        if forall|block: u64| #[trigger] counted(blocks).contains(block) ==> block <= highest {
            assert forall|i: int| 0 <= i < blocks.len() implies #[trigger] blocks[i] <= highest by {
                assert(blocks.contains(blocks[i]));
                assert(counted(blocks).contains(blocks[i]));
            }
        }
    }
}

proof fn lemma_counted(blocks: Seq<u64>)
    ensures
        counted(blocks).finite(),
        counted(blocks) == blocks.to_set(),
    decreases blocks.len(),
{
    if blocks.len() == 0 {
        assert(counted(blocks) =~= blocks.to_set());
    } else {
        let earlier = blocks.drop_last();
        lemma_counted(earlier);
        assert forall|block: u64| counted(blocks).contains(block) <==> blocks.to_set().contains(
            block,
        ) by {
            if earlier.contains(block) {
                let i = choose|i: int| 0 <= i < earlier.len() && earlier[i] == block;
                assert(blocks[i] == block);
            }
            if blocks.contains(block) {
                let i = choose|i: int| 0 <= i < blocks.len() && blocks[i] == block;
                if i < earlier.len() {
                    assert(earlier[i] == block);
                }
            }
            assert(blocks[blocks.len() - 1] == blocks.last());
            assert(earlier.to_set().contains(block) <==> earlier.contains(block));
        }
        assert(counted(blocks) =~= blocks.to_set());
    }
}

} // verus!
