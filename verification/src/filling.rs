//! One block's worth of records, and how much of it is used.

use vstd::prelude::*;

use crate::address::RecordAddr;
use crate::block::{
    decode, encode, law_a_record_survives_the_round_trip, record_bytes, record_of, stamp_of, stamped,
    Block, RECORDS_PER_BLOCK, RECORD_BYTES,
};
use crate::ledger::{ApplyIndex, HoldData, TxId};

verus! {

/// The record at a place of a block's bytes.
pub open spec fn record_at(bytes: Seq<u8>, index: int) -> (TxId, HoldData) {
    record_of(bytes.subrange(index * 80, index * 80 + 80))
}

/// A block that records are put into one after another.
pub struct Filling {
    pub bytes: Box<Block>,
    pub filled: usize,
    /// The log position of the batch whose effect put the first record here.
    pub began_at: ApplyIndex,
}

impl Filling {
    pub open spec fn wf(&self) -> bool {
        self.filled <= RECORDS_PER_BLOCK
    }

    /// The records on the block, in the order they were put there.
    pub open spec fn records(&self) -> Seq<(TxId, HoldData)> {
        Seq::new(self.filled as nat, |i: int| record_at(self.bytes@, i))
    }

    pub fn new() -> (block: Self)
        ensures
            block.wf(),
            block.filled == 0,
            block.bytes@ == Seq::new(4096, |i: int| 0u8),
            block.began_at == ApplyIndex(0),
    {
        Filling { bytes: Block::zeroed(), filled: 0, began_at: ApplyIndex(0) }
    }

    pub fn full(&self) -> (full: bool)
        ensures
            full == (self.filled == RECORDS_PER_BLOCK),
    {
        self.filled == RECORDS_PER_BLOCK
    }

    /// Puts a record after the others. The first says when the block began.
    pub fn put_at(&mut self, key: TxId, hold: &HoldData, at: ApplyIndex) -> (index: usize)
        requires
            old(self).wf(),
            old(self).filled < RECORDS_PER_BLOCK,
        ensures
            final(self).wf(),
            index == old(self).filled,
            final(self).filled == old(self).filled + 1,
            final(self).records() == old(self).records().push((key, *hold)),
            final(self).began_at == if old(self).filled == 0 {
                at
            } else {
                old(self).began_at
            },
    {
        if self.filled == 0 {
            self.began_at = at;
        }
        self.put(key, hold)
    }

    fn put(&mut self, key: TxId, hold: &HoldData) -> (index: usize)
        requires
            old(self).wf(),
            old(self).filled < RECORDS_PER_BLOCK,
        ensures
            final(self).wf(),
            index == old(self).filled,
            final(self).filled == old(self).filled + 1,
            final(self).records() == old(self).records().push((key, *hold)),
            final(self).began_at == old(self).began_at,
    {
        let at: usize = self.filled * RECORD_BYTES;
        let mut record: [u8; 80] = [0u8; 80];
        encode(key, hold, &mut record);
        self.bytes.write(at, record.as_slice());
        self.filled = self.filled + 1;
        proof {
            law_a_record_survives_the_round_trip(key, *hold);
            let before = old(self).bytes@;
            let after = self.bytes@;
            assert(after.subrange(at as int, at + 80) =~= record_bytes(key, *hold));
            assert forall|i: int| 0 <= i < old(self).filled implies record_at(after, i)
                == record_at(before, i) by {
                assert(after.subrange(i * 80, i * 80 + 80) =~= before.subrange(i * 80, i * 80 + 80));
            }
            assert(self.records() =~= old(self).records().push((key, *hold)));
        }
        self.filled - 1
    }

    /// The record at a place of the block, if one has been put there.
    pub fn get(&self, index: usize, addr: RecordAddr) -> (found: Option<(TxId, HoldData)>)
        requires
            self.wf(),
        ensures
            found == if index < self.filled {
                Some(self.records()[index as int])
            } else {
                None
            },
    {
        if index >= self.filled {
            return None;
        }
        Some(read_record(&self.bytes, index, addr))
    }

    /// Seals the bytes, which will not change again.
    pub fn stamp(&mut self)
        requires
            old(self).wf(),
        ensures
            final(self).wf(),
            final(self).filled == old(self).filled,
            final(self).began_at == old(self).began_at,
            final(self).bytes@ == stamp_of(old(self).bytes@),
            stamped(final(self).bytes@),
            final(self).records() == old(self).records(),
    {
        self.bytes.stamp();
        proof {
            let before = old(self).bytes@;
            let after = self.bytes@;
            assert forall|i: int| 0 <= i < 51 implies record_at(after, i) == record_at(before, i) by {
                assert(after.subrange(i * 80, i * 80 + 80) =~= before.subrange(i * 80, i * 80 + 80));
            }
            assert(self.records() =~= old(self).records());
        }
    }
}

/// Reads the record at a place of a block.
pub fn read_record(block: &Block, index: usize, addr: RecordAddr) -> (record: (TxId, HoldData))
    requires
        index < RECORDS_PER_BLOCK,
    ensures
        record == record_at(block@, index as int),
{
    let at: usize = index * RECORD_BYTES;
    decode(&block.as_bytes()[at..at + RECORD_BYTES], addr)
}

/// The blocks one day wrote: where its first went and how many followed. Empty until the day seals
/// its first block, which is also the state a freed day goes back to.
#[derive(Clone, Copy, Debug, PartialEq, Eq, Structural)]
pub struct BlockRange {
    pub first: u64,
    pub blocks: u64,
}

impl Default for BlockRange {
    fn default() -> (range: Self)
        ensures
            range == (BlockRange { first: 0, blocks: 0 }),
    {
        BlockRange { first: 0, blocks: 0 }
    }
}

impl BlockRange {
    /// The range with one more block.
    pub open spec fn noted(self, block: u64) -> BlockRange {
        BlockRange {
            first: if self.blocks == 0 {
                block
            } else {
                self.first
            },
            blocks: (self.blocks + 1) as u64,
        }
    }

    pub fn note(&mut self, block: u64)
        requires
            old(self).blocks < u64::MAX,
        ensures
            *final(self) == old(self).noted(block),
    {
        if self.blocks == 0 {
            self.first = block;
        }
        self.blocks = self.blocks + 1;
    }

    pub open spec fn block_spec(self, at: u64) -> Option<u64> {
        if at < self.blocks {
            Some((self.first + at) as u64)
        } else {
            None
        }
    }

    /// The number of the block at a place of the day.
    pub fn block_at(&self, at: u64) -> (block: Option<u64>)
        requires
            self.first + self.blocks <= u64::MAX,
        ensures
            block == self.block_spec(at),
    {
        if at < self.blocks {
            Some(self.first + at)
        } else {
            None
        }
    }
}

/// The range of a day once these blocks have been noted, in their order.
pub open spec fn noted_all(range: BlockRange, blocks: Seq<u64>) -> BlockRange
    decreases blocks.len(),
{
    if blocks.len() == 0 {
        range
    } else {
        noted_all(range, blocks.drop_last()).noted(blocks.last())
    }
}

/// A day's range is the blocks noted, whatever their number: as many as were, the first of them first, and
/// each at its place. A day's blocks follow one another, as block numbers are given out.
pub proof fn law_a_range_is_the_blocks_noted(blocks: Seq<u64>)
    requires
        blocks.len() <= u64::MAX,
        forall|i: int| 0 <= i < blocks.len() ==> #[trigger] blocks[i] == blocks[0] + i,
    ensures
        noted_all(BlockRange { first: 0, blocks: 0 }, blocks).blocks == blocks.len(),
        blocks.len() > 0 ==> noted_all(BlockRange { first: 0, blocks: 0 }, blocks).first == blocks[0],
        forall|at: u64|
            at < blocks.len() ==> #[trigger] noted_all(
                BlockRange { first: 0, blocks: 0 },
                blocks,
            ).block_spec(at) == Some(blocks[at as int]),
        forall|at: u64|
            at >= blocks.len() ==> #[trigger] noted_all(
                BlockRange { first: 0, blocks: 0 },
                blocks,
            ).block_spec(at) is None,
    decreases blocks.len(),
{
    if blocks.len() > 0 {
        let rest = blocks.drop_last();
        assert forall|i: int| 0 <= i < rest.len() implies #[trigger] rest[i] == rest[0] + i by {
            assert(rest[i] == blocks[i]);
        }
        law_a_range_is_the_blocks_noted(rest);
    }
}

} // verus!
