//! The blocks in memory: the writeback buffer of recent records, the block being packed for the store,
//! and the blocks closed and kept readable.

use std::collections::VecDeque;

use vstd::prelude::*;

use crate::address::{law_address_parts, RecordAddr, BLOCK_VALUES, BUFFER_SEGMENT};
use crate::block::{stamp_of, stamped, RECORDS_PER_BLOCK};
use crate::filling::Filling;
use crate::ledger::{ApplyIndex, HoldData, TxId};

verus! {

/// A record, and where it is.
pub type Placed = (TxId, HoldData, RecordAddr);

/// Which of the blocks in memory answered.
#[derive(Clone, Copy, Debug, PartialEq, Eq, Structural)]
pub enum Tier {
    /// The writeback buffer, or the block being packed.
    Buffer,
    /// A block closed and kept.
    Resident,
    /// None of them: only the store may have it.
    Nowhere,
}

/// Two addresses name one place: the segment of a stored record is a label, and the block's number
/// alone says where it is.
pub open spec fn same_place(one: RecordAddr, other: RecordAddr) -> bool {
    one.is_buffered() == other.is_buffered() && one.block() == other.block() && one.index()
        == other.index()
}

/// One more record is in the buffer: on its last block, or on another behind it where that one is full. A
/// block's first record says when the block began.
pub open spec fn buffered_more(was: Seq<Filling>, now: Seq<Filling>, at: ApplyIndex) -> bool {
    let last = was[was.len() - 1];
    &&& last.filled == RECORDS_PER_BLOCK ==> {
        &&& now.len() == was.len() + 1
        &&& now.drop_last() == was
        &&& now.last().filled == 1
        &&& now.last().began_at == at
    }
    &&& last.filled < RECORDS_PER_BLOCK ==> {
        &&& now.len() == was.len()
        &&& now.drop_last() == was.drop_last()
        &&& now.last().filled == last.filled + 1
        &&& now.last().began_at == if last.filled == 0 {
            at
        } else {
            last.began_at
        }
    }
}

/// The blocks in memory.
pub struct Tiers {
    /// Recent blocks, oldest first; the last is the one being filled. Not on the store yet.
    pub buffer: VecDeque<Filling>,
    /// Ordinal of the oldest buffered block, so an address stays unique after blocks are carried away.
    pub oldest: u64,
    /// Survivors accumulate here, so that a store block is packed rather than one per compaction.
    pub open: Filling,
    /// Blocks closed and kept, oldest first.
    pub resident: VecDeque<Filling>,
    /// Block number of the oldest of them.
    pub oldest_resident: u64,
    /// Block number of the one being packed.
    pub next_block: u64,
    /// Blocks dropped, whose buffers the next seal reuses.
    pub spare: Vec<Filling>,
}

impl Tiers {
    /// Blocks closed or being packed and still in memory, held at the largest a word can carry.
    pub open spec fn in_memory(&self) -> usize {
        let open = if self.open.filled > 0 {
            1int
        } else {
            0
        };
        if self.resident@.len() + open <= usize::MAX {
            (self.resident@.len() + open) as usize
        } else {
            usize::MAX
        }
    }

    pub open spec fn wf(&self) -> bool {
        &&& self.buffer@.len() >= 1
        &&& self.oldest + self.buffer@.len() <= BLOCK_VALUES
        &&& forall|i: int| 0 <= i < self.buffer@.len() ==> (#[trigger] self.buffer@[i]).wf()
        &&& forall|i: int|
            0 <= i < self.buffer@.len() - 1 ==> (#[trigger] self.buffer@[i]).filled
                == RECORDS_PER_BLOCK
        &&& self.open.wf()
        &&& forall|i: int| 0 <= i < self.resident@.len() ==> (#[trigger] self.resident@[i]).wf()
        &&& forall|i: int|
            0 <= i < self.resident@.len() ==> stamped((#[trigger] self.resident@[i]).bytes@)
        &&& forall|i: int| 0 <= i < self.spare@.len() ==> (#[trigger] self.spare@[i]).wf()
        &&& self.oldest_resident + self.resident@.len() == self.next_block
        &&& self.next_block < BLOCK_VALUES
    }

    /// The block number has room in its field for one more record in the buffer.
    pub open spec fn room_to_append(&self) -> bool {
        self.oldest + self.buffer@.len() < BLOCK_VALUES
    }

    /// The block number has room in its field for this many more blocks.
    pub open spec fn room_to_seal(&self, blocks: int) -> bool {
        self.next_block + blocks < BLOCK_VALUES
    }

    /// The block that an address names, if it is in memory.
    pub open spec fn block_of(&self, addr: RecordAddr) -> Option<Filling> {
        if addr.is_buffered() {
            if self.oldest <= addr.block() < self.oldest + self.buffer@.len() {
                Some(self.buffer@[addr.block() - self.oldest])
            } else {
                None
            }
        } else if addr.block() == self.next_block {
            Some(self.open)
        } else if self.oldest_resident <= addr.block() < self.next_block {
            Some(self.resident@[addr.block() - self.oldest_resident])
        } else {
            None
        }
    }

    /// The record at an address, if it is in memory.
    pub open spec fn record(&self, addr: RecordAddr) -> Option<(TxId, HoldData)> {
        match self.block_of(addr) {
            Some(block) => if addr.index() < block.filled {
                Some(block.records()[addr.index() as int])
            } else {
                None
            },
            None => None,
        }
    }

    /// Where the next record appended goes.
    pub open spec fn next_append(&self) -> RecordAddr {
        let last = self.buffer@[self.buffer@.len() - 1];
        if last.filled == RECORDS_PER_BLOCK {
            RecordAddr::buffered((self.oldest + self.buffer@.len()) as u64, 0)
        } else {
            RecordAddr::buffered((self.oldest + self.buffer@.len() - 1) as u64, last.filled as u8)
        }
    }

    pub fn new() -> (tiers: Self)
        ensures
            tiers.wf(),
            tiers.buffer@.len() == 1,
            tiers.buffer@[0].filled == 0,
            tiers.oldest == 0,
            tiers.open.filled == 0,
            tiers.resident@.len() == 0,
            tiers.oldest_resident == 0,
            tiers.next_block == 0,
            forall|addr: RecordAddr| tiers.record(addr) is None,
    {
        let mut buffer: VecDeque<Filling> = VecDeque::new();
        buffer.push_back(Filling::new());
        Tiers {
            buffer,
            oldest: 0,
            open: Filling::new(),
            resident: VecDeque::new(),
            oldest_resident: 0,
            next_block: 0,
            spare: Vec::new(),
        }
    }

    /// Writes a record into the buffer and answers where it went.
    pub fn append(&mut self, key: TxId, hold: &HoldData, at: ApplyIndex) -> (addr: RecordAddr)
        requires
            old(self).wf(),
            old(self).room_to_append(),
        ensures
            final(self).wf(),
            addr == old(self).next_append(),
            addr.fits(),
            addr.is_buffered(),
            addr.index() < RECORDS_PER_BLOCK,
            old(self).record(addr) is None,
            final(self).record(addr) == Some((key, *hold)),
            forall|a: RecordAddr|
                !same_place(a, addr) ==> #[trigger] final(self).record(a) == old(self).record(a),
            final(self).open == old(self).open,
            final(self).resident == old(self).resident,
            final(self).oldest_resident == old(self).oldest_resident,
            final(self).next_block == old(self).next_block,
            final(self).oldest == old(self).oldest,
            final(self).spare == old(self).spare,
            buffered_more(old(self).buffer@, final(self).buffer@, at),
    {
        let length: usize = self.buffer.len();
        let mut filling: Filling = if self.buffer[length - 1].full() {
            Filling::new()
        } else {
            match self.buffer.pop_back() {
                Some(last) => last,
                None => Filling::new(),
            }
        };
        let ghost kept = self.buffer@;
        let ordinal: u64 = self.oldest + self.buffer.len() as u64;
        let index: usize = filling.put_at(key, hold, at);
        self.buffer.push_back(filling);
        let addr = RecordAddr::buffered(ordinal, index as u8);
        proof {
            law_address_parts(BUFFER_SEGMENT, ordinal, index as u8);
            assert(self.buffer@.drop_last() =~= kept);
            if old(self).buffer@[length - 1].filled < RECORDS_PER_BLOCK {
                assert(kept =~= old(self).buffer@.drop_last());
            }
            assert(addr.block() == ordinal && addr.index() == index && addr.is_buffered());
            assert forall|a: RecordAddr| !same_place(a, addr) implies #[trigger] self.record(a) == old(
                self,
            ).record(a) by {
                if a.is_buffered() && a.block() == ordinal && old(self).buffer@[length - 1].filled
                    < RECORDS_PER_BLOCK {
                    let was = old(self).buffer@[length - 1];
                    assert(self.buffer@[ordinal - self.oldest] == filling);
                    assert(filling.records() == was.records().push((key, *hold)));
                }
            }
        }
        addr
    }

    /// Puts a survivor into the block being packed, and answers its place there.
    pub fn put(&mut self, key: TxId, hold: &HoldData, from: ApplyIndex) -> (index: usize)
        requires
            old(self).wf(),
            old(self).open.filled < RECORDS_PER_BLOCK,
        ensures
            final(self).wf(),
            index == old(self).open.filled,
            final(self).buffer == old(self).buffer,
            final(self).oldest == old(self).oldest,
            final(self).resident == old(self).resident,
            final(self).oldest_resident == old(self).oldest_resident,
            final(self).next_block == old(self).next_block,
            final(self).spare == old(self).spare,
            final(self).open.filled == index + 1,
            final(self).open.began_at == if index == 0 {
                from
            } else {
                old(self).open.began_at
            },
            forall|a: RecordAddr| #[trigger]
                final(self).record(a) == if !a.is_buffered() && a.block() == old(self).next_block
                    && a.index() == index {
                    Some((key, *hold))
                } else {
                    old(self).record(a)
                },
    {
        self.open.put_at(key, hold, from)
    }

    /// Closes the block being packed: its bytes are stamped, it is kept with the closed ones, and
    /// another takes its place.
    pub fn seal(&mut self)
        requires
            old(self).wf(),
            old(self).room_to_seal(1),
        ensures
            final(self).wf(),
            final(self).buffer == old(self).buffer,
            final(self).oldest == old(self).oldest,
            final(self).oldest_resident == old(self).oldest_resident,
            final(self).next_block == old(self).next_block + 1,
            final(self).open.filled == 0,
            final(self).resident@.len() == old(self).resident@.len() + 1,
            final(self).resident@.drop_last() == old(self).resident@,
            final(self).resident@.last().bytes@ == stamp_of(old(self).open.bytes@),
            final(self).resident@.last().filled == old(self).open.filled,
            final(self).resident@.last().began_at == old(self).open.began_at,
            forall|a: RecordAddr| #[trigger] final(self).record(a) == old(self).record(a),
    {
        let mut fresh: Filling = match self.spare.pop() {
            Some(spare) => spare,
            None => Filling::new(),
        };
        fresh.filled = 0;
        self.open.stamp();
        let ghost stamped_open = self.open;
        core::mem::swap(&mut self.open, &mut fresh);
        self.resident.push_back(fresh);
        self.next_block = self.next_block + 1;
        assert(self.resident@.drop_last() =~= old(self).resident@);
        assert forall|a: RecordAddr| #[trigger] self.record(a) == old(self).record(a) by {
            if !a.is_buffered() && a.block() == old(self).next_block {
                assert(self.resident@[a.block() - self.oldest_resident] == stamped_open);
            }
        }
    }

    /// The records of the oldest buffered block, for the caller to sort into survivors and casualties.
    pub fn oldest_block(&self) -> (records: Vec<Placed>)
        requires
            self.wf(),
        ensures
            records@.len() == self.buffer@[0].filled,
            forall|i: int|
                0 <= i < records@.len() ==> {
                    let (key, hold, addr) = #[trigger] records@[i];
                    &&& addr == RecordAddr::buffered(self.oldest, i as u8)
                    &&& addr.fits()
                    &&& (key, hold) == self.buffer@[0].records()[i]
                    &&& self.record(addr) == Some((key, hold))
                },
    {
        let mut records: Vec<Placed> = Vec::new();
        let block = &self.buffer[0];
        let mut index: usize = 0;
        while index < block.filled
            invariant
                self.wf(),
                *block == self.buffer@[0],
                block.filled <= 51,
                index <= block.filled,
                records@.len() == index,
                forall|i: int|
                    0 <= i < records@.len() ==> {
                        let (key, hold, addr) = #[trigger] records@[i];
                        &&& addr == RecordAddr::buffered(self.oldest, i as u8)
                        &&& addr.fits()
                        &&& (key, hold) == self.buffer@[0].records()[i]
                        &&& self.record(addr) == Some((key, hold))
                    },
            decreases block.filled - index,
        {
            let addr = RecordAddr::buffered(self.oldest, index as u8);
            proof {
                law_address_parts(BUFFER_SEGMENT, self.oldest, index as u8);
            }
            assert(addr.block() == self.oldest && addr.index() == index && addr.is_buffered());
            match block.get(index, addr) {
                Some((key, hold)) => records.push((key, hold, addr)),
                None => {},
            }
            index += 1;
        }
        records
    }

    /// Drops the oldest buffered block, unless it is the only one. True when it did.
    pub fn drop_oldest(&mut self) -> (dropped: bool)
        requires
            old(self).wf(),
        ensures
            final(self).wf(),
            dropped == (old(self).buffer@.len() > 1),
            !dropped ==> *final(self) == *old(self),
            final(self).open == old(self).open,
            final(self).resident == old(self).resident,
            final(self).oldest_resident == old(self).oldest_resident,
            final(self).next_block == old(self).next_block,
            final(self).spare == old(self).spare,
            final(self).oldest == old(self).oldest + if dropped {
                1int
            } else {
                0
            },
            final(self).buffer@ == if dropped {
                old(self).buffer@.drop_first()
            } else {
                old(self).buffer@
            },
            forall|a: RecordAddr|
                !(dropped && a.is_buffered() && a.block() == old(self).oldest)
                    ==> #[trigger] final(self).record(a) == old(self).record(a),
    {
        if self.buffer.len() > 1 {
            self.buffer.pop_front();
            self.oldest = self.oldest + 1;
            assert(self.buffer@ =~= old(self).buffer@.drop_first());
            return true;
        }
        false
    }

    /// Lets the oldest closed block leave memory, and answers how many records went with it.
    pub fn evict(&mut self) -> (left: usize)
        requires
            old(self).wf(),
            old(self).resident@.len() > 0,
        ensures
            final(self).wf(),
            left == old(self).resident@[0].filled,
            final(self).buffer == old(self).buffer,
            final(self).oldest == old(self).oldest,
            final(self).open == old(self).open,
            final(self).next_block == old(self).next_block,
            final(self).oldest_resident == old(self).oldest_resident + 1,
            final(self).resident@ == old(self).resident@.drop_first(),
            forall|a: RecordAddr|
                !(!a.is_buffered() && a.block() == old(self).oldest_resident)
                    ==> #[trigger] final(self).record(a) == old(self).record(a),
    {
        let mut left: usize = 0;
        match self.resident.pop_front() {
            Some(block) => {
                let mut dropped = block;
                left = dropped.filled;
                dropped.filled = 0;
                self.spare.push(dropped);
            },
            None => {},
        }
        self.oldest_resident = self.oldest_resident + 1;
        assert(self.resident@ =~= old(self).resident@.drop_first());
        left
    }

    /// The record at an address if it is in memory, and which of the blocks in memory answered.
    pub fn get(&self, addr: RecordAddr) -> (found: (Option<(TxId, HoldData)>, Tier))
        requires
            self.wf(),
        ensures
            found.0 == self.record(addr),
            found.1 == if addr.is_buffered() || addr.block() == self.next_block {
                Tier::Buffer
            } else if self.oldest_resident <= addr.block() < self.next_block {
                Tier::Resident
            } else {
                Tier::Nowhere
            },
    {
        let index: usize = addr.index() as usize;
        let block: u64 = addr.block();
        if addr.is_buffered() {
            if block < self.oldest || block - self.oldest >= self.buffer.len() as u64 {
                return (None, Tier::Buffer);
            }
            let slot: usize = (block - self.oldest) as usize;
            return (self.buffer[slot].get(index, addr), Tier::Buffer);
        }
        if block == self.next_block {
            return (self.open.get(index, addr), Tier::Buffer);
        }
        if block < self.oldest_resident || block - self.oldest_resident >= self.resident.len() as u64 {
            return (None, Tier::Nowhere);
        }
        let slot: usize = (block - self.oldest_resident) as usize;
        (self.resident[slot].get(index, addr), Tier::Resident)
    }
}

} // verus!
