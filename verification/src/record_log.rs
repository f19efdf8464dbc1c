//! The records: a writeback buffer of recent blocks, the blocks carried out of it that are still worth
//! keeping in memory, and behind both the store. Append-only throughout: a hold whose remainder changed
//! is written again at a new address, so a store address never moves.

use std::collections::{HashMap, VecDeque};

use vstd::prelude::*;
use vstd::std_specs::hash::group_hash_axioms;

use crate::address::{
    law_a_handle_has_one_owner, law_address_parts, IoOwner, ObjectId, RecordAddr, BLOCK_VALUES, OWNER_WEIGHT, SEGMENTS, SEGMENT_VALUES,
};
use crate::block::{stamp_of, stamped, Block, RECORDS_PER_BLOCK};
use crate::filling::{read_record, record_at, BlockRange, Filling};
use crate::journal::{first_asked, owed_in_range, with_block, Journal};
use crate::ledger::{ApplyIndex, HoldData, TxId};
use crate::memory_store::MemoryStore;
use crate::owed::{
    awaits, freed_behind, lemma_opens_block, lemma_opens_free, lemma_opens_none, lemma_opens_pop, opens_first, owes, Owed,
    Unwritten,
};
use crate::stats::{add_count, plus, VolumeStats};
use crate::store::{
    answered_with, asks_elsewhere, is_answer, lemma_answered_more, lemma_answered_none, polled_out, Asked,
    Call, DurableStore, Reply, StoreFault, Written,
};
use crate::tiers::{buffered_more, same_place, Placed, Tier, Tiers};
use crate::traffic::{same_work, LogTraffic};

verus! {

broadcast use group_hash_axioms;

/// Blocks the buffer may hold when nobody asks for another number.
pub const DEFAULT_FLUSH_BLOCKS: usize = 1024;

/// Blocks kept in memory when nobody asks for another number. Larger than the flush window, because
/// that is the whole point of there being two.
pub const DEFAULT_RESIDENT_BLOCKS: usize = 4096;

/// What asking for one of a day's blocks did.
#[derive(Clone, Copy, Debug, PartialEq, Eq, Structural)]
pub enum Walked {
    /// Visited now, from memory.
    Visited,
    /// Submitted. The completion carries the block, through `harvest`.
    Asked,
    /// The volume would not take another read, so nothing was asked and nothing moves this round.
    Busy,
    /// The day has no block there, which is how a walk knows it has reached the end.
    End,
}

/// A record: its key, and the hold.
pub type Record = (TxId, HoldData);

/// The records: what is in memory, what is on the store, and what is on its way there.
pub struct RecordLog<S: DurableStore> {
    store: S,
    tiers: Tiers,
    journal: Journal,
    /// Blocks the buffer may hold before its oldest is compacted out: the flush window.
    flush_blocks: usize,
    /// Closed blocks kept in memory: the residency window.
    resident_blocks: usize,
    /// Completions this log did not ask for, waiting for the owner that did.
    foreign: VecDeque<(u64, Result<(), StoreFault>)>,
    segment: u8,
    /// The blocks each day wrote, so that expiry can read a day's own records.
    days: Vec<BlockRange>,
    /// Read into, so a lookup allocates nothing.
    scratch: Box<Block>,
    /// Reads asked of the store and not yet answered, by handle.
    fetching: HashMap<u64, RecordAddr>,
    /// The expiry sweep's block reads, by handle: which day's block each is for.
    sweeping: HashMap<u64, (u8, u64)>,
    sweep_handles: u64,
    counts: LogTraffic,
    fault_owed: bool,
    /// The blocks this log has closed, and those it found on the store when it began: the segment each
    /// belongs to, and its bytes.
    sealed: Ghost<Map<u64, (u8, Seq<u8>)>>,
}

/// What an answer of the store's to a write, a barrier or a removal settles.
pub ghost struct Accounts {
    /// What the store has taken and not yet answered for.
    pub submitted: Seq<(u64, Owed)>,
    pub barrier: Option<u64>,
    pub after_barrier: Option<(u64, ApplyIndex)>,
    pub unsynced: Option<(u64, ApplyIndex)>,
    /// The blocks whose write was answered for, and those of them that were answered with a fault.
    pub answered: Set<u64>,
    pub failed: Set<u64>,
    /// The blocks the barrier in flight covers, and those that one answered well has covered.
    pub under: Set<u64>,
    pub covered: Set<u64>,
    pub counts: LogTraffic,
    pub fault: bool,
    /// Answers waiting for the owner that asked.
    pub strangers: Seq<(u64, Result<(), StoreFault>)>,
}

/// Answers of the store's let nothing leave memory.
proof fn lemma_counts_settled(accounts: Accounts, answers: Seq<(u64, Result<(), StoreFault>)>)
    ensures
        accounts.settled(answers).counts.left_memory == accounts.counts.left_memory,
    decreases answers.len(),
{
    if answers.len() > 0 {
        lemma_counts_settled(accounts, answers.drop_last());
    }
}

/// A count of the records that have left memory, once so many blocks more have.
pub open spec fn left_with(count: u64, blocks: Seq<Filling>, gone: nat) -> u64
    decreases gone,
{
    if gone == 0 {
        count
    } else {
        plus(left_with(count, blocks, (gone - 1) as nat), blocks[gone - 1].filled as u64)
    }
}

/// The counts, with one more fault of the store's where there was one.
pub open spec fn faulted_in(counts: LogTraffic, faulted: bool) -> LogTraffic {
    if faulted {
        LogTraffic { store_faults: plus(counts.store_faults, 1), ..counts }
    } else {
        counts
    }
}

impl Accounts {
    /// With one more answer taken. One that somebody else asked for waits for its owner; one to the barrier
    /// in flight makes durable what it covers, if it is a good one; one to anything else answers for it.
    pub open spec fn settled_by(self, answer: (u64, Result<(), StoreFault>)) -> Accounts {
        let (handle, outcome) = answer;
        if !IoOwner::Blocks.owns(handle) {
            Accounts { strangers: self.strangers.push(answer), ..self }
        } else if self.barrier == Some(handle) {
            Accounts {
                barrier: None,
                after_barrier: None,
                unsynced: if outcome is Ok {
                    self.after_barrier
                } else {
                    self.unsynced
                },
                covered: if outcome is Ok {
                    self.covered.union(self.under)
                } else {
                    self.covered
                },
                counts: faulted_in(self.counts, outcome is Err),
                fault: self.fault || outcome is Err,
                ..self
            }
        } else {
            match first_asked(self.submitted, handle) {
                Some(at) => Accounts {
                    submitted: self.submitted.remove(at),
                    answered: with_block(self.answered, self.submitted[at].1),
                    failed: if outcome is Ok {
                        self.failed
                    } else {
                        with_block(self.failed, self.submitted[at].1)
                    },
                    counts: faulted_in(self.counts, outcome is Err),
                    fault: self.fault || outcome is Err,
                    ..self
                },
                None => self,
            }
        }
    }

    /// With these answers taken, in their order.
    pub open spec fn settled(self, answers: Seq<(u64, Result<(), StoreFault>)>) -> Accounts
        decreases answers.len(),
    {
        if answers.len() == 0 {
            self
        } else {
            self.settled(answers.drop_last()).settled_by(answers.last())
        }
    }
}

/// A block of a segment's object has the bytes that were sealed under its number.
pub open spec fn agrees(
    sealed: Map<u64, (u8, Seq<u8>)>,
    object: ObjectId,
    offset: u64,
    bytes: Seq<u8>,
) -> bool {
    object.0 < 64 ==> offset % 4096 == 0 && sealed.contains_key(offset / 4096) && sealed[offset / 4096]
        == (object.0, bytes)
}

impl<S: DurableStore> RecordLog<S> {
    /// The store under the log.
    pub closed spec fn disk(&self) -> S {
        self.store
    }

    /// The blocks in memory.
    pub closed spec fn held(&self) -> Tiers {
        self.tiers
    }

    /// What is owed to the store, taken by it and durable on it.
    pub closed spec fn books(&self) -> Journal {
        self.journal
    }

    /// The blocks each segment's day wrote.
    pub closed spec fn days(&self) -> Seq<BlockRange> {
        self.days@
    }

    /// The segment records are being written into.
    pub closed spec fn spec_segment(&self) -> u8 {
        self.segment
    }

    pub closed spec fn counts(&self) -> LogTraffic {
        self.counts
    }

    /// A fault is owed to whoever can act on it.
    pub closed spec fn fault(&self) -> bool {
        self.fault_owed
    }

    /// The reads asked for, by handle.
    pub closed spec fn fetches(&self) -> Map<u64, RecordAddr> {
        self.fetching@
    }

    /// The sweep's block reads, by handle.
    pub closed spec fn sweeps(&self) -> Map<u64, (u8, u64)> {
        self.sweeping@
    }

    /// How many reads the sweep has asked for.
    pub closed spec fn sweep_reads(&self) -> u64 {
        self.sweep_handles
    }

    /// Completions waiting for the owner that asked.
    pub closed spec fn strangers(&self) -> Seq<(u64, Result<(), StoreFault>)> {
        self.foreign@
    }

    /// What the store's answers settle.
    pub open spec fn accounts(&self) -> Accounts {
        Accounts {
            submitted: self.books().submitted@,
            barrier: self.books().barrier,
            after_barrier: self.books().after_barrier,
            unsynced: self.books().unsynced,
            answered: self.books().answered@,
            failed: self.books().failed@,
            under: self.books().under@,
            covered: self.books().covered@,
            counts: self.counts(),
            fault: self.fault(),
            strangers: self.strangers(),
        }
    }

    /// The store was polled until it had no more answers, and each was taken as it came.
    pub open spec fn takes_answers(&self, after: &Self, any: bool, now: u64) -> bool {
        exists|answers: Seq<(u64, Result<(), StoreFault>)>| #[trigger]
            polled_out(self.disk(), now, answers, after.disk()) && any == (answers.len() > 0)
                && after.accounts() == (Accounts {
                counts: LogTraffic {
                    left_memory: after.counts().left_memory,
                    ..self.accounts().settled(answers).counts
                },
                ..self.accounts().settled(answers)
            })
    }

    /// The oldest blocks in memory have left it, and their records are counted as gone from there.
    pub open spec fn lets_go(&self, after: &Self) -> bool {
        let gone = after.held().oldest_resident - self.held().oldest_resident;
        &&& 0 <= gone <= self.held().resident@.len()
        &&& after.held().resident@ == self.held().resident@.skip(gone)
        &&& after.counts().left_memory == left_with(
            self.counts().left_memory,
            self.held().resident@,
            gone as nat,
        )
    }

    /// The blocks closed: the segment each belongs to, and its bytes.
    pub closed spec fn sealed(&self) -> Map<u64, (u8, Seq<u8>)> {
        self.sealed@
    }

    pub closed spec fn spec_windows(&self) -> (usize, usize) {
        (self.flush_blocks, self.resident_blocks)
    }

    /// The bytes the store last answered with.
    pub closed spec fn brought(&self) -> Seq<u8> {
        self.scratch@
    }

    spec fn base_wf(&self) -> bool {
        &&& self.base_but_days()
        &&& forall|s: int|
            0 <= s < SEGMENT_VALUES ==> (#[trigger] self.days@[s]).first + self.days@[s].blocks
                <= self.tiers.next_block
        &&& opens_first(self.journal.pending@, self.days@)
    }

    spec fn base_but_days(&self) -> bool {
        &&& self.store.wf()
        &&& self.tiers.wf()
        &&& self.journal.wf(self.tiers.oldest_resident, self.tiers.next_block)
        &&& self.flush_blocks >= 1
        &&& self.segment < SEGMENTS
        &&& self.days@.len() == SEGMENT_VALUES
        &&& forall|s: int|
            0 <= s < SEGMENT_VALUES ==> (#[trigger] self.days@[s]).first < BLOCK_VALUES
                && self.days@[s].blocks <= BLOCK_VALUES && (self.days@[s].blocks == 0
                ==> self.days@[s].first == 0)
        &&& self.sweep_handles < OWNER_WEIGHT
    }

    #[verifier::opaque]
    spec fn sealed_wf(&self) -> bool {
        &&& forall|b: u64| #[trigger]
            self.sealed@.contains_key(b) ==> b < self.tiers.next_block
        &&& forall|b: u64|
            self.tiers.oldest_resident <= b < self.tiers.next_block
                ==> #[trigger] self.sealed@.contains_key(b)
        &&& forall|b: u64|
            self.tiers.oldest_resident <= b < self.tiers.next_block ==> (#[trigger] self.sealed@[b]).1
                == self.tiers.resident@[b - self.tiers.oldest_resident].bytes@
        &&& forall|i: int|
            0 <= i < self.journal.pending@.len() ==> match #[trigger] self.journal.pending@[i] {
                Owed::Block(unwritten) => self.sealed@[unwritten.block].0 == unwritten.segment,
                Owed::Free(_) => true,
            }
        &&& forall|h: u64| #[trigger]
            self.sweeping@.contains_key(h) ==> self.sweeping@[h].0 < SEGMENTS && self.sweeping@[h].1
                < self.tiers.oldest_resident && IoOwner::Sweep.owns(h)
        &&& forall|h: u64| #[trigger] self.fetching@.contains_key(h) ==> !IoOwner::Sweep.owns(h)
    }

    /// The log's own books agree with each other: what is closed and in memory is what was sealed, what
    /// has left memory has been answered for, and what counts as durable was covered by a barrier.
    pub closed spec fn wf(&self) -> bool {
        self.base_wf() && self.sealed_wf()
    }

    /// What the store may answer with is what was sealed.
    #[verifier::opaque]
    pub closed spec fn sound(&self) -> bool {
        &&& forall|w: Written| #[trigger]
            self.store.written().contains(w) ==> agrees(self.sealed@, w.0, w.1, w.2)
        &&& forall|w: Written| #[trigger]
            self.store.pledged().contains(w) ==> agrees(self.sealed@, w.0, w.1, w.2)
        &&& forall|p: Asked| #[trigger]
            self.store.asked().contains(p) ==> {
                &&& self.fetching@.contains_key(p.0) ==> p.1.0 == self.fetching@[p.0].segment() && p.2
                    == self.fetching@[p.0].block_offset()
                &&& self.sweeping@.contains_key(p.0) ==> p.1.0 == self.sweeping@[p.0].0 && p.2
                    == self.sweeping@[p.0].1 * 4096
                &&& IoOwner::Sweep.owns(p.0) ==> p.0 <= IoOwner::Sweep.handle(self.sweep_handles)
            }
    }

    /// The record is at the address: in memory, or on a block that was sealed with it.
    #[verifier::opaque]
    pub closed spec fn holds(&self, addr: RecordAddr, record: Record) -> bool {
        &&& addr.fits()
        &&& addr.index() < RECORDS_PER_BLOCK
        &&& if addr.is_buffered() {
            self.tiers.record(addr) == Some(record)
        } else if addr.block() == self.tiers.next_block {
            addr.segment() == self.segment && self.tiers.record(addr) == Some(record)
        } else {
            &&& self.sealed@.contains_key(addr.block())
            &&& self.sealed@[addr.block()].0 == addr.segment()
            &&& record_at(self.sealed@[addr.block()].1, addr.index() as int) == record
            &&& addr.block() >= self.tiers.oldest_resident ==> addr.index()
                < self.tiers.resident@[addr.block() - self.tiers.oldest_resident].filled
        }
    }

    /// Every record that was at an address still is.
    pub open spec fn keeps(&self, before: &Self) -> bool {
        forall|addr: RecordAddr, record: Record|
            before.holds(addr, record) ==> #[trigger] self.holds(addr, record)
    }

    /// The record at an address, if it is in memory.
    pub open spec fn in_memory(&self, addr: RecordAddr) -> Option<Record> {
        self.held().record(addr)
    }

    /// The record on a sealed block at an address.
    pub open spec fn at_rest(&self, addr: RecordAddr) -> Option<Record> {
        if addr.index() < RECORDS_PER_BLOCK && self.sealed().contains_key(addr.block())
            && self.sealed()[addr.block()].0 == addr.segment() {
            Some(record_at(self.sealed()[addr.block()].1, addr.index() as int))
        } else {
            None
        }
    }

    /// A record at an address is in memory there, or at rest there.
    pub proof fn lemma_holds(&self, addr: RecordAddr, record: Record)
        requires
            self.wf(),
            self.holds(addr, record),
        ensures
            addr.fits(),
            addr.index() < RECORDS_PER_BLOCK,
            self.in_memory(addr) == Some(record) || (self.in_memory(addr) is None && self.at_rest(addr)
                == Some(record) && addr.block() < self.held().oldest_resident),
            addr.is_buffered() ==> self.in_memory(addr) == Some(record),
    {
        reveal(RecordLog::holds);
        reveal(RecordLog::sealed_wf);
        if !addr.is_buffered() && addr.block() != self.tiers.next_block {
            if addr.block() >= self.tiers.oldest_resident {
                let i = addr.block() - self.tiers.oldest_resident;
                assert(self.sealed@[addr.block()].1 == self.tiers.resident@[i].bytes@);
            }
        }
    }

    /// A record on a sealed block that has left memory is at its address.
    pub proof fn lemma_rest_holds(&self, addr: RecordAddr, record: Record)
        requires
            self.wf(),
            addr.fits(),
            !addr.is_buffered(),
            addr.block() < self.held().oldest_resident,
            self.at_rest(addr) == Some(record),
        ensures
            self.holds(addr, record),
    {
        reveal(RecordLog::holds);
        reveal(RecordLog::sealed_wf);
    }

    /// A record at an address is the one at rest there, where one is.
    pub proof fn lemma_rest_is_held(&self, addr: RecordAddr, record: Record)
        requires
            self.wf(),
            !addr.is_buffered(),
            self.holds(addr, record),
            self.at_rest(addr) is Some,
        ensures
            self.at_rest(addr) == Some(record),
    {
        reveal(RecordLog::holds);
        reveal(RecordLog::sealed_wf);
    }

    /// An address holds one record.
    pub proof fn lemma_holds_one(&self, addr: RecordAddr, one: Record, other: Record)
        requires
            self.holds(addr, one),
            self.holds(addr, other),
        ensures
            one == other,
    {
        reveal(RecordLog::holds);
    }

    /// Every record of the oldest buffered block is in memory.
    pub proof fn lemma_oldest(&self, i: int)
        requires
            self.wf(),
            0 <= i < self.held().buffer@[0].filled,
        ensures
            self.in_memory(RecordAddr::buffered(self.held().oldest, i as u8)) is Some,
    {
        law_address_parts(63, self.tiers.oldest, i as u8);
    }

    /// The block being packed holds no more than a block does.
    pub proof fn lemma_open_bound(&self)
        requires
            self.wf(),
        ensures
            self.held().open.filled <= RECORDS_PER_BLOCK,
            self.held().buffer@.len() >= 1,
            self.held().oldest + self.held().buffer@.len() <= BLOCK_VALUES,
            self.held().next_block < BLOCK_VALUES,
            self.held().buffer@[0].filled <= RECORDS_PER_BLOCK,
            self.held().buffer@.len() > 1 ==> self.held().buffer@[0].filled == RECORDS_PER_BLOCK,
            self.spec_windows().0 >= 1,
            self.spec_segment() < SEGMENTS,
            self.days().len() == SEGMENT_VALUES,
    {
    }

    /// A closed block in memory holds no more than a block does.
    pub proof fn lemma_resident_filled(&self, block: u64)
        requires
            self.wf(),
            self.held().oldest_resident <= block < self.held().next_block,
        ensures
            self.held().resident@.len() == self.held().next_block - self.held().oldest_resident,
            self.held().resident@[block - self.held().oldest_resident].filled <= RECORDS_PER_BLOCK,
            self.held().next_block < BLOCK_VALUES,
    {
        assert(self.held().resident@[block - self.held().oldest_resident].wf());
    }

    /// A day's blocks are ones already numbered.
    pub proof fn lemma_day(&self, segment: int)
        requires
            self.wf(),
            0 <= segment < SEGMENT_VALUES,
        ensures
            self.days()[segment].first + self.days()[segment].blocks <= self.held().next_block,
            self.held().next_block < BLOCK_VALUES,
    {
        assert(self.days@[segment].first + self.days@[segment].blocks <= self.tiers.next_block);
    }

    /// A day that wrote no block has the empty range.
    pub proof fn lemma_empty_day(&self, segment: int)
        requires
            self.wf(),
            0 <= segment < SEGMENT_VALUES,
            self.days()[segment].blocks == 0,
        ensures
            self.days()[segment] == (BlockRange { first: 0, blocks: 0 }),
    {
    }

    /// There is room in the block field for one more record in the buffer.
    pub open spec fn room_to_append(&self) -> bool {
        self.held().room_to_append()
    }

    /// There is room in the block field for this many more blocks.
    pub open spec fn room_to_seal(&self, blocks: int) -> bool {
        self.held().room_to_seal(blocks)
    }

    /// Nothing has been recorded: no block has anything on it, nothing is owed to the store or asked of it,
    /// the windows are as asked for, and there is room to append a record, to keep one and to close a block.
    pub open spec fn is_fresh(&self, flush_blocks: usize, resident_blocks: usize) -> bool {
        &&& self.spec_windows() == (
            if flush_blocks == 0 {
                1
            } else {
                flush_blocks
            },
            resident_blocks,
        )
        &&& self.held().buffer@.len() == 1
        &&& self.held().buffer@[0].filled == 0
        &&& self.held().oldest == 0
        &&& self.held().open.filled == 0
        &&& self.held().resident@.len() == 0
        &&& self.held().oldest_resident == 0
        &&& self.held().next_block == 0
        &&& self.books().pending@.len() == 0
        &&& self.books().submitted@.len() == 0
        &&& self.books().barrier is None
        &&& self.books().after_barrier is None
        &&& self.books().unsynced is None
        &&& self.books().handles == 0
        &&& self.books().start@ == 0
        &&& self.books().taken@ == Set::<u64>::empty()
        &&& self.books().answered@ == Set::<u64>::empty()
        &&& self.books().under@ == Set::<u64>::empty()
        &&& self.books().covered@ == Set::<u64>::empty()
        &&& self.books().failed@ == Set::<u64>::empty()
        &&& self.sealed() == Map::<u64, (u8, Seq<u8>)>::empty()
        &&& self.spec_segment() == 0
        &&& self.days() == Seq::new(64, |s: int| BlockRange { first: 0, blocks: 0 })
        &&& self.counts() == LogTraffic::none()
        &&& !self.fault()
        &&& self.fetches() == Map::<u64, RecordAddr>::empty()
        &&& self.sweeps() == Map::<u64, (u8, u64)>::empty()
        &&& self.strangers().len() == 0
        &&& self.room_to_append()
        &&& self.room_to_seal(2)
    }

    /// A log over a store, with nothing in memory. The windows are in blocks; the buffer has at least
    /// one.
    pub fn new(store: S, flush_blocks: usize, resident_blocks: usize) -> (log: Self)
        requires
            store.wf(),
        ensures
            log.wf(),
            log.disk() == store,
            log.is_fresh(flush_blocks, resident_blocks),
            store.written() == Set::<Written>::empty() && store.pledged() == Set::<Written>::empty()
                && store.asked() == Set::<Asked>::empty()
                ==> log.sound(),
    {
        let mut days: Vec<BlockRange> = Vec::new();
        while days.len() < SEGMENT_VALUES
            invariant
                days@.len() <= SEGMENT_VALUES,
                forall|s: int|
                    0 <= s < days@.len() ==> #[trigger] days@[s] == (BlockRange {
                        first: 0,
                        blocks: 0,
                    }),
            decreases SEGMENT_VALUES - days@.len(),
        {
            days.push(BlockRange::default());
        }
        let log = RecordLog {
            store,
            tiers: Tiers::new(),
            journal: Journal::new(),
            flush_blocks: if flush_blocks == 0 {
                1
            } else {
                flush_blocks
            },
            resident_blocks,
            foreign: VecDeque::new(),
            segment: 0,
            days,
            scratch: Block::zeroed(),
            fetching: HashMap::new(),
            sweeping: HashMap::new(),
            sweep_handles: 0,
            counts: LogTraffic::default(),
            fault_owed: false,
            sealed: Ghost(Map::empty()),
        };
        proof {
            reveal(RecordLog::sealed_wf);
            reveal(RecordLog::sound);
            lemma_opens_none(log.days@);
            assert(log.journal.pending@ =~= Seq::<Owed>::empty());
            assert(log.days() =~= Seq::new(64, |s: int| BlockRange { first: 0, blocks: 0 }));
            assert(log.fetches() =~= Map::<u64, RecordAddr>::empty());
            assert(log.sweeps() =~= Map::<u64, (u8, u64)>::empty());
        }
        log
    }

    /// Writes a record into the buffer and answers where it went. The address is provisional until the
    /// block is compacted.
    pub fn append(&mut self, key: TxId, hold: &HoldData, at: ApplyIndex) -> (addr: RecordAddr)
        requires
            old(self).wf(),
            old(self).room_to_append(),
        ensures
            final(self).wf(),
            addr == old(self).held().next_append(),
            addr.fits(),
            addr.is_buffered(),
            old(self).in_memory(addr) is None,
            final(self).in_memory(addr) == Some((key, *hold)),
            forall|other: RecordAddr| #[trigger]
                old(self).in_memory(other) is Some ==> final(self).in_memory(other) == old(self).in_memory(
                    other,
                ),
            final(self).brought() == old(self).brought(),
            final(self).holds(addr, (key, *hold)),
            final(self).keeps(old(self)),
            old(self).sound() ==> final(self).sound(),
            final(self).counts() == (LogTraffic {
                appended: plus(old(self).counts().appended, 1),
                ..old(self).counts()
            }),
            final(self).held().open == old(self).held().open,
            final(self).held().resident == old(self).held().resident,
            final(self).held().oldest_resident == old(self).held().oldest_resident,
            final(self).held().next_block == old(self).held().next_block,
            final(self).held().oldest == old(self).held().oldest,
            buffered_more(old(self).held().buffer@, final(self).held().buffer@, at),
            old(self).held().buffer@.len() <= final(self).held().buffer@.len() <= old(self).held().buffer@.len() + 1,
            old(self).began_in_order() && old(self).began_by(at) ==> final(self).began_in_order()
                && final(self).began_by(at),
            final(self).stamps_stay(old(self)),
            final(self).disk() == old(self).disk(),
            final(self).books() == old(self).books(),
            final(self).days() == old(self).days(),
            final(self).spec_segment() == old(self).spec_segment(),
            final(self).fault() == old(self).fault(),
            final(self).fetches() == old(self).fetches(),
            final(self).sweeps() == old(self).sweeps(),
            final(self).strangers() == old(self).strangers(),
            final(self).sealed() == old(self).sealed(),
            final(self).spec_windows() == old(self).spec_windows(),
    {
        let addr = self.tiers.append(key, hold, at);
        self.counts.appended = add_count(self.counts.appended, 1);
        proof {
            reveal(RecordLog::sealed_wf);
            reveal(RecordLog::holds);
            assert(old(self).sound() ==> self.sound()) by {
                reveal(RecordLog::sound);
            }
            assert forall|a: RecordAddr, r: Record| old(self).holds(a, r) implies #[trigger] self.holds(
                a,
                r,
            ) by {
                if same_place(a, addr) {
                    assert(old(self).tiers.record(a) == old(self).tiers.record(addr));
                } else {
                    assert(self.tiers.record(a) == old(self).tiers.record(a));
                }
            }
            self.lemma_append_in_order(old(self), at);
            assert(self.stamps_stay(old(self))) by {
                reveal(RecordLog::stamps_stay);
                let was = old(self).tiers.buffer@;
                let now = self.tiers.buffer@;
                let last = was[was.len() - 1];
                assert forall|i: int| 0 <= i < was.len() && (#[trigger] was[i]).filled > 0 implies now[i].began_at
                    == was[i].began_at by {
                    if last.filled == RECORDS_PER_BLOCK {
                        assert(now.drop_last()[i] == now[i]);
                    } else if i < was.len() - 1 {
                        assert(now.drop_last()[i] == now[i]);
                        assert(was.drop_last()[i] == was[i]);
                    } else {
                        assert(now[i] == now.last());
                    }
                }
            }
        }
        addr
    }

    /// The blocks that are not durable began in order, oldest first: those closed and not yet durable,
    /// the one being packed, then the buffer's.
    #[verifier::opaque]
    pub open spec fn began_in_order(&self) -> bool {
        &&& forall|i: int, j: int|
            0 <= i < j < self.held().buffer@.len() && (#[trigger] self.held().buffer@[j]).filled > 0
                ==> (#[trigger] self.held().buffer@[i]).began_at.0 <= self.held().buffer@[j].began_at.0
        &&& self.held().open.filled > 0 && self.held().buffer@[0].filled > 0
            ==> self.held().open.began_at.0 <= self.held().buffer@[0].began_at.0
        &&& self.books().unsynced matches Some((first, began)) ==> self.began_after(first, began)
        &&& self.books().after_barrier matches Some((first, began)) ==> self.began_after(first, began)
        &&& match (self.books().unsynced, self.books().after_barrier) {
            (Some((_, one)), Some((_, other))) => one.0 <= other.0,
            _ => true,
        }
    }

    /// Where a record that is not durable is, the position that the oldest record it is kept with came at.
    pub open spec fn stamp(&self, addr: RecordAddr) -> ApplyIndex {
        if addr.is_buffered() {
            self.held().buffer@[addr.block() - self.held().oldest].began_at
        } else if addr.block() == self.held().next_block {
            self.held().open.began_at
        } else {
            match (self.books().unsynced, self.books().after_barrier) {
                (_, Some((first, began))) if first <= addr.block() => began,
                (Some((_, began)), _) => began,
                _ => ApplyIndex(0),
            }
        }
    }

    /// What was durable is, and no other record is kept with anything later than it was.
    #[verifier::opaque]
    pub open spec fn stamps_stay(&self, before: &Self) -> bool {
        forall|addr: RecordAddr, record: Record|
            #![trigger before.holds(addr, record), self.spec_is_durable(addr)]
            before.holds(addr, record) && !is_gone(*self, addr) && !self.spec_is_durable(addr)
                ==> !before.spec_is_durable(addr) && self.stamp(addr).0 <= before.stamp(addr).0
    }

    /// What is in memory and what is owed say what every record is kept with.
    pub proof fn lemma_stamps_same(&self, before: &Self)
        requires
            self.held().buffer == before.held().buffer,
            self.held().oldest == before.held().oldest,
            self.held().open == before.held().open,
            self.held().next_block == before.held().next_block,
            self.books().unsynced == before.books().unsynced,
            self.books().after_barrier == before.books().after_barrier,
        ensures
            self.stamps_stay(before),
    {
        reveal(RecordLog::stamps_stay);
    }

    pub proof fn lemma_stamps_through(&self, between: &Self, before: &Self)
        requires
            self.stamps_stay(between),
            between.stamps_stay(before),
            stays(*self, *between),
            stays(*between, *before),
        ensures
            self.stamps_stay(before),
    {
        reveal(RecordLog::stamps_stay);
        assert forall|addr: RecordAddr, record: Record|
            #![trigger before.holds(addr, record), self.spec_is_durable(addr)]
            before.holds(addr, record) && !is_gone(*self, addr) && !self.spec_is_durable(
                addr,
            ) implies !before.spec_is_durable(addr) && self.stamp(addr).0 <= before.stamp(addr).0 by {
            assert(between.holds(addr, record));
            assert(self.stamp(addr).0 <= between.stamp(addr).0);
            assert(between.stamp(addr).0 <= before.stamp(addr).0);
        }
    }

    /// A record is kept with nothing that came after the last position there is.
    pub proof fn lemma_stamp_by(&self, addr: RecordAddr, record: Record, at: ApplyIndex)
        requires
            self.wf(),
            self.began_by(at),
            self.holds(addr, record),
            !self.spec_is_durable(addr),
        ensures
            self.stamp(addr).0 <= at.0,
    {
        reveal(RecordLog::began_by);
        reveal(RecordLog::holds);
        if addr.is_buffered() {
            let i = addr.block() - self.held().oldest;
            assert(self.held().buffer@[i].filled > 0);
        }
    }

    pub proof fn lemma_stamp_stays(&self, before: &Self, addr: RecordAddr, was: Record, record: Record)
        requires
            self.wf(),
            self.stamps_stay(before),
            before.holds(addr, was),
            self.holds(addr, record),
            !self.spec_is_durable(addr),
        ensures
            !before.spec_is_durable(addr),
            self.stamp(addr).0 <= before.stamp(addr).0,
    {
        reveal(RecordLog::stamps_stay);
        self.lemma_holds(addr, record);
        assert(!is_gone(*self, addr));
    }

    /// A record that is not durable is kept with nothing older than what coverage stops before.
    pub proof fn lemma_stamp_is_not_covered(&self, addr: RecordAddr, record: Record, applied: ApplyIndex)
        requires
            self.wf(),
            self.began_in_order(),
            self.holds(addr, record),
            !self.spec_is_durable(addr),
        ensures
            self.covered_through(applied).0 < self.stamp(addr).0 || self.covered_through(applied).0 == 0,
    {
        reveal(RecordLog::began_in_order);
        reveal(RecordLog::holds);
        reveal(RecordLog::sealed_wf);
        if addr.is_buffered() {
            let i = addr.block() - self.held().oldest;
            assert(self.held().buffer@[i].filled > 0);
            if i > 0 {
                assert(self.held().buffer@[0].filled == RECORDS_PER_BLOCK);
                assert(self.held().buffer@[0].began_at.0 <= self.held().buffer@[i].began_at.0);
            }
        }
    }

    /// Every block from this one on that is still in memory, the one being packed and the buffer's began
    /// at or after a position.
    pub open spec fn began_after(&self, first: u64, began: ApplyIndex) -> bool {
        &&& self.held().open.filled > 0 ==> began.0 <= self.held().open.began_at.0
        &&& self.held().buffer@[0].filled > 0 ==> began.0 <= self.held().buffer@[0].began_at.0
        &&& forall|i: int|
            0 <= i < self.held().resident@.len() && first <= self.held().oldest_resident + i
                ==> began.0 <= (#[trigger] self.held().resident@[i]).began_at.0
    }

    /// Nothing in memory began after this position.
    #[verifier::opaque]
    pub open spec fn began_by(&self, at: ApplyIndex) -> bool {
        &&& forall|i: int|
            0 <= i < self.held().buffer@.len() && (#[trigger] self.held().buffer@[i]).filled > 0
                ==> self.held().buffer@[i].began_at.0 <= at.0
        &&& self.held().open.filled > 0 ==> self.held().open.began_at.0 <= at.0
        &&& self.books().unsynced matches Some((_, began)) ==> began.0 <= at.0
        &&& self.books().after_barrier matches Some((_, began)) ==> began.0 <= at.0
    }

    /// What is in memory and what is owed say when things began.
    pub proof fn lemma_began_same(&self, before: &Self)
        requires
            self.held() == before.held(),
            self.books().unsynced == before.books().unsynced,
            self.books().after_barrier == before.books().after_barrier,
        ensures
            self.began_in_order() == before.began_in_order(),
            forall|at: ApplyIndex| #[trigger] self.began_by(at) == before.began_by(at),
    {
        reveal(RecordLog::began_in_order);
        reveal(RecordLog::began_by);
    }

    /// What began by a position began by every later one.
    pub proof fn lemma_began_later(&self, at: ApplyIndex, later: ApplyIndex)
        requires
            self.began_by(at),
            at.0 <= later.0,
        ensures
            self.began_by(later),
    {
        reveal(RecordLog::began_by);
    }

    proof fn lemma_append_in_order(&self, before: &Self, at: ApplyIndex)
        requires
            before.wf(),
            self.wf(),
            self.held().open == before.held().open,
            self.held().resident == before.held().resident,
            self.held().oldest_resident == before.held().oldest_resident,
            self.books() == before.books(),
            ({
                let last = before.held().buffer@[before.held().buffer@.len() - 1];
                let now = self.held().buffer@;
                let was = before.held().buffer@;
                &&& last.filled == RECORDS_PER_BLOCK ==> {
                    &&& now.len() == was.len() + 1
                    &&& now.drop_last() == was
                    &&& now.last().began_at == at
                }
                &&& last.filled < RECORDS_PER_BLOCK ==> {
                    &&& now.len() == was.len()
                    &&& now.drop_last() == was.drop_last()
                    &&& now.last().began_at == if last.filled == 0 {
                        at
                    } else {
                        last.began_at
                    }
                }
            }),
        ensures
            before.began_in_order() && before.began_by(at) ==> self.began_in_order()
                && self.began_by(at),
    {
        reveal(RecordLog::began_in_order);
        reveal(RecordLog::began_by);
        let now = self.held().buffer@;
        let was = before.held().buffer@;
        let last = was[was.len() - 1];
        if before.began_in_order() && before.began_by(at) {
            assert forall|i: int| 0 <= i < now.len() - 1 implies #[trigger] now[i] == was[i] by {
                assert(now.drop_last()[i] == now[i]);
                if last.filled < RECORDS_PER_BLOCK {
                    assert(was.drop_last()[i] == was[i]);
                }
            }
            assert(now[now.len() - 1] == now.last());
            assert forall|i: int| 0 <= i < now.len() && (#[trigger] now[i]).filled > 0 implies now[i].began_at.0
                <= at.0 by {
                if i == now.len() - 1 && last.filled < RECORDS_PER_BLOCK && last.filled > 0 {
                    assert(was[i].filled > 0);
                } else if i < now.len() - 1 {
                    assert(was[i].filled > 0);
                }
            }
            assert forall|i: int, j: int|
                0 <= i < j < now.len() && (#[trigger] now[j]).filled > 0 implies (
            #[trigger] now[i]).began_at.0 <= now[j].began_at.0 by {
                assert(was[i].filled == RECORDS_PER_BLOCK);
                assert(was[i].began_at.0 <= at.0);
                if j < now.len() - 1 {
                    assert(was[j].filled > 0);
                } else if last.filled < RECORDS_PER_BLOCK && last.filled > 0 {
                    assert(was[j].filled > 0);
                }
            }
            if was.len() == 1 && last.filled < RECORDS_PER_BLOCK {
                assert(now[0] == now.last());
            } else {
                assert(now[0] == was[0]);
            }
        }
    }
}

/// The address is in the buffer, of a block that has left it. Such an address is not given out again.
pub open spec fn is_gone<S: DurableStore>(log: RecordLog<S>, addr: RecordAddr) -> bool {
    addr.is_buffered() && addr.block() < log.held().oldest
}

/// Every record is where it was, but for those of blocks that have left the buffer.
pub open spec fn stays<S: DurableStore>(log: RecordLog<S>, before: RecordLog<S>) -> bool {
    &&& before.held().oldest <= log.held().oldest
    &&& forall|addr: RecordAddr, record: Record|
        before.holds(addr, record) && !is_gone(log, addr) ==> #[trigger] log.holds(addr, record)
}

impl<S: DurableStore> RecordLog<S> {
    /// Every record that was at an address still is, but for those of one buffered block.
    pub open spec fn keeps_but(&self, before: &Self, ordinal: u64) -> bool {
        forall|addr: RecordAddr, record: Record|
            before.holds(addr, record) && !(addr.is_buffered() && addr.block() == ordinal)
                ==> #[trigger] self.holds(addr, record)
    }

    /// What closing the block being packed does to what is owed, to the day's range and to the blocks in
    /// memory. The write of the block opens its day's object exactly when the day had no block yet.
    pub open spec fn closes(&self, after: &Self) -> bool {
        let block = self.held().next_block;
        let segment = self.spec_segment();
        let had = self.days()[segment as int];
        let began_at = self.held().open.began_at;
        &&& after.books() == (Journal {
            pending: after.books().pending,
            unsynced: if self.books().barrier is None && self.books().unsynced is None {
                Some((block, began_at))
            } else {
                self.books().unsynced
            },
            after_barrier: if self.books().barrier is Some && self.books().after_barrier is None {
                Some((block, began_at))
            } else {
                self.books().after_barrier
            },
            ..self.books()
        })
        &&& after.books().pending@ == self.books().pending@.push(
            Owed::Block(Unwritten { block, segment, opening: had.blocks == 0 }),
        )
        &&& after.days() == self.days().update(segment as int, had.noted(block))
        &&& after.sealed() == self.sealed().insert(block, (segment, stamp_of(self.held().open.bytes@)))
        &&& after.held().next_block == block + 1
        &&& after.held().resident@.len() == self.held().resident@.len() + 1
        &&& after.held().resident@.drop_last() == self.held().resident@
        &&& after.held().resident@.last().bytes@ == stamp_of(self.held().open.bytes@)
        &&& after.held().resident@.last().filled == self.held().open.filled
        &&& after.held().resident@.last().began_at == began_at
    }

    /// Some blocks of the open day have been closed since, and nothing else has been done about what is
    /// owed: their writes are owed behind the rest, in their order, and the first opens its day's object
    /// exactly when the day had no block yet.
    #[verifier::opaque]
    pub open spec fn closed_since(&self, before: &Self) -> bool {
        let owed = before.books().pending@;
        let more = self.books().pending@.len() - owed.len();
        let block = before.held().next_block;
        let segment = before.spec_segment();
        let had = before.days()[segment as int];
        &&& more >= 0
        &&& self.held().next_block == block + more
        &&& self.spec_segment() == segment
        &&& self.books() == (Journal {
            pending: self.books().pending,
            unsynced: self.books().unsynced,
            after_barrier: self.books().after_barrier,
            ..before.books()
        })
        &&& before.books().unsynced is Some ==> self.books().unsynced == before.books().unsynced
        &&& before.books().after_barrier is Some ==> self.books().after_barrier
            == before.books().after_barrier
        &&& forall|i: int| 0 <= i < owed.len() ==> #[trigger] self.books().pending@[i] == owed[i]
        &&& forall|i: int|
            owed.len() <= i < self.books().pending@.len() ==> #[trigger] self.books().pending@[i]
                == Owed::Block(
                Unwritten {
                    block: (block + (i - owed.len())) as u64,
                    segment,
                    opening: i == owed.len() && had.blocks == 0,
                },
            )
        &&& self.days() == before.days().update(
            segment as int,
            BlockRange {
                first: if had.blocks == 0 && more > 0 {
                    block
                } else {
                    had.first
                },
                blocks: (had.blocks + more) as u64,
            },
        )
    }

    pub proof fn lemma_closed_none(&self, before: &Self)
        requires
            before.wf(),
            before.closes_none(self),
            self.spec_segment() == before.spec_segment(),
        ensures
            self.closed_since(before),
    {
        reveal(RecordLog::closed_since);
        let segment = before.segment as int;
        assert(self.days() =~= before.days().update(segment, before.days()[segment]));
    }

    pub proof fn lemma_closed_one(&self, before: &Self)
        requires
            before.wf(),
            before.closes(self),
            self.spec_segment() == before.spec_segment(),
        ensures
            self.closed_since(before),
    {
        reveal(RecordLog::closed_since);
    }

    pub proof fn lemma_closed_through(&self, between: &Self, before: &Self)
        requires
            before.wf(),
            between.wf(),
            self.closed_since(between),
            between.closed_since(before),
        ensures
            self.closed_since(before),
    {
        reveal(RecordLog::closed_since);
        let owed = before.books().pending@;
        let middle = between.books().pending@;
        let segment = before.segment as int;
        assert(between.days@[segment].first + between.days@[segment].blocks <= between.tiers.next_block);
        assert forall|i: int| 0 <= i < owed.len() implies #[trigger] self.books().pending@[i]
            == owed[i] by {
            assert(self.books().pending@[i] == middle[i]);
            assert(middle[i] == owed[i]);
        }
        assert forall|i: int| owed.len() <= i < self.books().pending@.len() implies
            #[trigger] self.books().pending@[i] == Owed::Block(
            Unwritten {
                block: (before.held().next_block + (i - owed.len())) as u64,
                segment: before.spec_segment(),
                opening: i == owed.len() && before.days()[segment].blocks == 0,
            },
        ) by {
            if i < middle.len() {
                assert(self.books().pending@[i] == middle[i]);
            }
        }
        let more = self.books().pending@.len() - owed.len();
        let had = before.days()[segment];
        assert(self.days() =~= before.days().update(
            segment,
            BlockRange {
                first: if had.blocks == 0 && more > 0 {
                    before.held().next_block
                } else {
                    had.first
                },
                blocks: (had.blocks + more) as u64,
            },
        ));
    }

    /// What opening a day closes: the block being packed, where the day has another segment and there is
    /// anything on the block.
    pub open spec fn opens_day(&self, after: &Self, day: u64) -> bool {
        if day % SEGMENTS != self.spec_segment() && self.held().open.filled > 0 {
            self.closes(after)
        } else {
            self.closes_none(after)
        }
    }

    /// The days once a day has been opened.
    pub open spec fn days_once_open(&self, day: u64) -> Seq<BlockRange> {
        let segment = self.spec_segment() as int;
        if day % SEGMENTS != segment && self.held().open.filled > 0 {
            self.days().update(segment, self.days()[segment].noted(self.held().next_block))
        } else {
            self.days()
        }
    }

    /// Nothing was closed.
    pub open spec fn closes_none(&self, after: &Self) -> bool {
        &&& after.books() == self.books()
        &&& after.days() == self.days()
        &&& after.sealed() == self.sealed()
        &&& after.held().next_block == self.held().next_block
        &&& after.held().resident == self.held().resident
    }

    /// Closes the block being packed. It does not write it: the block is kept in memory and its write is
    /// owed. A block not in memory has been answered for, which holds only because closing is what keeps
    /// a block there.
    fn seal_block(&mut self)
        requires
            old(self).wf(),
            old(self).room_to_seal(1),
            old(self).held().open.filled > 0,
        ensures
            final(self).wf(),
            final(self).keeps(old(self)),
            old(self).sound() ==> final(self).sound(),
            final(self).held().buffer == old(self).held().buffer,
            final(self).held().oldest == old(self).held().oldest,
            final(self).held().oldest_resident == old(self).held().oldest_resident,
            final(self).held().open.filled == 0,
            forall|a: RecordAddr| #[trigger] final(self).in_memory(a) == old(self).in_memory(a),
            old(self).closes(final(self)),
            final(self).brought() == old(self).brought(),
            old(self).began_in_order() ==> final(self).began_in_order() && final(self).stamps_stay(
                old(self),
            ),
            forall|at: ApplyIndex| old(self).began_by(at) ==> #[trigger] final(self).began_by(at),
            final(self).disk() == old(self).disk(),
            final(self).spec_segment() == old(self).spec_segment(),
            final(self).counts() == old(self).counts(),
            final(self).fault() == old(self).fault(),
            final(self).fetches() == old(self).fetches(),
            final(self).sweeps() == old(self).sweeps(),
            final(self).strangers() == old(self).strangers(),
            final(self).spec_windows() == old(self).spec_windows(),
    {
        proof {
            reveal(RecordLog::sealed_wf);
        }
        let segment: u8 = self.segment;
        let block: u64 = self.tiers.next_block;
        let opening: bool = self.days[segment as usize].blocks == 0;
        self.journal.closed(
            block,
            self.tiers.open.began_at,
            segment,
            opening,
            self.tiers.oldest_resident,
        );
        let mut day: BlockRange = self.days[segment as usize];
        day.note(block);
        self.days[segment as usize] = day;
        self.tiers.seal();
        proof {
            lemma_opens_block(old(self).journal.pending@, old(self).days@, segment, block);
            let bytes = self.tiers.resident@.last().bytes@;
            self.sealed@ = self.sealed@.insert(block, (segment, bytes));
            let was = old(self);
            assert forall|b: u64|
                self.tiers.oldest_resident <= b < self.tiers.next_block implies (
            #[trigger] self.sealed@[b]).1 == self.tiers.resident@[b
                - self.tiers.oldest_resident].bytes@ by {
                if b < block {
                    assert(self.tiers.resident@.drop_last()[b - self.tiers.oldest_resident]
                        == was.tiers.resident@[b - self.tiers.oldest_resident]);
                }
            }
            assert forall|i: int| 0 <= i < self.journal.pending@.len() implies match #[trigger] self.journal.pending@[i] {
                Owed::Block(unwritten) => self.sealed@[unwritten.block].0 == unwritten.segment,
                Owed::Free(_) => true,
            } by {
                if i < was.journal.pending@.len() {
                    assert(self.journal.pending@[i] == was.journal.pending@[i]);
                    assert(owed_in_range(
                        was.journal.pending@[i],
                        was.tiers.oldest_resident,
                        was.tiers.next_block,
                    ));
                }
            }
            assert(was.sound() ==> self.sound()) by {
                reveal(RecordLog::sound);
                if was.sound() {
                    assert forall|w: Written| #[trigger]
                        self.store.written().contains(w) implies agrees(self.sealed@, w.0, w.1, w.2) by {
                        assert(agrees(was.sealed@, w.0, w.1, w.2));
                    }
                    assert forall|w: Written| #[trigger]
                        self.store.pledged().contains(w) implies agrees(self.sealed@, w.0, w.1, w.2) by {
                        assert(agrees(was.sealed@, w.0, w.1, w.2));
                    }
                }
            }
            assert forall|a: RecordAddr, r: Record| was.holds(a, r) implies #[trigger] self.holds(
                a,
                r,
            ) by {
                reveal(RecordLog::holds);
                assert(self.tiers.record(a) == was.tiers.record(a));
                if !a.is_buffered() {
                    if a.block() == block {
                        assert(self.sealed@[block] == (segment, bytes));
                        assert(self.tiers.resident@[block - self.tiers.oldest_resident]
                            == self.tiers.resident@.last());
                    } else if a.block() >= was.tiers.oldest_resident {
                        assert(self.tiers.resident@.drop_last()[a.block()
                            - was.tiers.oldest_resident] == was.tiers.resident@[a.block()
                            - was.tiers.oldest_resident]);
                    }
                }
            }
            reveal(RecordLog::began_by);
            assert(was.began_in_order() ==> self.stamps_stay(was)) by {
                reveal(RecordLog::began_in_order);
                reveal(RecordLog::stamps_stay);
                reveal(RecordLog::holds);
            }
            assert(was.began_in_order() ==> self.began_in_order()) by {
                reveal(RecordLog::began_in_order);
                assert forall|i: int| 0 <= i < was.tiers.resident@.len() implies #[trigger] self.tiers.resident@[i]
                    == was.tiers.resident@[i] by {
                    assert(self.tiers.resident@.drop_last()[i] == self.tiers.resident@[i]);
                }
                assert(self.tiers.resident@[was.tiers.resident@.len() as int]
                    == self.tiers.resident@.last());
            }
        }
    }

    /// Writes a survivor on towards the store and answers its lasting address. The block it lands in is
    /// closed once full, so survivors of several buffered blocks share one.
    pub fn keep(&mut self, key: TxId, hold: &HoldData, from: ApplyIndex) -> (addr: RecordAddr)
        requires
            old(self).wf(),
            old(self).held().open.filled == RECORDS_PER_BLOCK ==> old(self).room_to_seal(1),
        ensures
            final(self).wf(),
            addr.fits(),
            !addr.is_buffered(),
            addr == RecordAddr::new(
                old(self).spec_segment(),
                final(self).held().next_block,
                (final(self).held().open.filled - 1) as u8,
            ),
            final(self).holds(addr, (key, *hold)),
            final(self).in_memory(addr) == Some((key, *hold)),
            forall|r: Record| !old(self).holds(addr, r),
            final(self).keeps(old(self)),
            old(self).sound() ==> final(self).sound(),
            final(self).held().buffer == old(self).held().buffer,
            final(self).held().oldest == old(self).held().oldest,
            final(self).held().oldest_resident == old(self).held().oldest_resident,
            old(self).held().open.filled < RECORDS_PER_BLOCK ==> {
                &&& old(self).closes_none(final(self))
                &&& final(self).held().open.filled == old(self).held().open.filled + 1
                &&& final(self).held().open.began_at == if old(self).held().open.filled == 0 {
                    from
                } else {
                    old(self).held().open.began_at
                }
            },
            old(self).held().open.filled == RECORDS_PER_BLOCK ==> {
                &&& old(self).closes(final(self))
                &&& final(self).held().open.filled == 1
                &&& final(self).held().open.began_at == from
            },
            final(self).closed_since(old(self)),
            forall|other: RecordAddr| #[trigger]
                old(self).in_memory(other) is Some ==> final(self).in_memory(other) == old(self).in_memory(
                    other,
                ),
            final(self).brought() == old(self).brought(),
            final(self).counts() == (LogTraffic {
                carried_on: plus(old(self).counts().carried_on, 1),
                ..old(self).counts()
            }),
            old(self).began_in_order() && old(self).held().buffer@[0].filled > 0 && from == old(self).held().buffer@[0].began_at ==> final(self).began_in_order() && final(self).stamp(addr).0 <= from.0 && forall|at: ApplyIndex|
                old(self).began_by(at) ==> #[trigger] final(self).began_by(at),
            old(self).began_in_order() ==> final(self).stamps_stay(old(self)),
            final(self).disk() == old(self).disk(),
            final(self).spec_segment() == old(self).spec_segment(),
            final(self).fault() == old(self).fault(),
            final(self).fetches() == old(self).fetches(),
            final(self).sweeps() == old(self).sweeps(),
            final(self).strangers() == old(self).strangers(),
            final(self).spec_windows() == old(self).spec_windows(),
    {
        if self.tiers.open.full() {
            self.seal_block();
        }
        let ghost sealed_now = *self;
        let index: usize = self.tiers.put(key, hold, from);
        self.counts.carried_on = add_count(self.counts.carried_on, 1);
        let addr = RecordAddr::new(self.segment, self.tiers.next_block, index as u8);
        proof {
            let was = sealed_now;
            reveal(RecordLog::sealed_wf);
            reveal(RecordLog::began_in_order);
            reveal(RecordLog::began_by);
            law_address_parts(self.segment, self.tiers.next_block, index as u8);
            assert(was.sound() ==> self.sound()) by {
                reveal(RecordLog::sound);
            }
            reveal(RecordLog::holds);
            assert forall|a: RecordAddr, r: Record| was.holds(a, r) implies #[trigger] self.holds(
                a,
                r,
            ) by {
                assert(self.tiers.record(a) == if !a.is_buffered() && a.block() == was.tiers.next_block
                    && a.index() == index {
                    Some((key, *hold))
                } else {
                    was.tiers.record(a)
                });
            }
            assert forall|a: RecordAddr, r: Record| old(self).holds(a, r) implies #[trigger] self.holds(
                a,
                r,
            ) by {
                assert(was.holds(a, r));
            }
            if old(self).began_in_order() {
                assert(self.stamps_stay(&was)) by {
                    reveal(RecordLog::stamps_stay);
                }
                if old(self).tiers.open.filled == RECORDS_PER_BLOCK {
                    self.lemma_stamps_through(&was, old(self));
                }
            }
            assert forall|r: Record| !old(self).holds(addr, r) by {
                if old(self).holds(addr, r) {
                    assert(was.holds(addr, r));
                    assert(was.tiers.record(addr) is None);
                }
            }
            if old(self).tiers.open.filled == RECORDS_PER_BLOCK {
                self.lemma_closed_one(old(self));
            } else {
                self.lemma_closed_none(old(self));
            }
            assert forall|other: RecordAddr| #[trigger] old(self).in_memory(other) is Some implies self.in_memory(
                other,
            ) == old(self).in_memory(other) by {
                assert(was.in_memory(other) == old(self).in_memory(other));
                assert(self.tiers.record(other) == if !other.is_buffered() && other.block()
                    == was.tiers.next_block && other.index() == index {
                    Some((key, *hold))
                } else {
                    was.tiers.record(other)
                });
            }
        }
        addr
    }

    /// Moves to a new day. The block being packed is closed first: it was promised addresses in the old
    /// segment, and a block whose records straddled two segments could not be deleted by either. Block
    /// numbers keep counting across the boundary.
    pub fn open_day(&mut self, day: u64)
        requires
            old(self).wf(),
            old(self).room_to_seal(1),
        ensures
            final(self).wf(),
            final(self).keeps(old(self)),
            old(self).sound() ==> final(self).sound(),
            final(self).spec_segment() == day % SEGMENTS,
            final(self).held().buffer == old(self).held().buffer,
            final(self).held().oldest == old(self).held().oldest,
            final(self).held().oldest_resident == old(self).held().oldest_resident,
            old(self).opens_day(final(self), day),
            final(self).brought() == old(self).brought(),
            day % SEGMENTS != old(self).spec_segment() ==> final(self).held().open.filled == 0,
            day % SEGMENTS == old(self).spec_segment() ==> *final(self) == *old(self),
            forall|a: RecordAddr| #[trigger] final(self).in_memory(a) == old(self).in_memory(a),
            old(self).began_in_order() ==> final(self).began_in_order() && final(self).stamps_stay(
                old(self),
            ),
            forall|at: ApplyIndex| old(self).began_by(at) ==> #[trigger] final(self).began_by(at),
            final(self).disk() == old(self).disk(),
            final(self).counts() == old(self).counts(),
            final(self).fault() == old(self).fault(),
            final(self).fetches() == old(self).fetches(),
            final(self).sweeps() == old(self).sweeps(),
            final(self).strangers() == old(self).strangers(),
            final(self).spec_windows() == old(self).spec_windows(),
    {
        let segment: u8 = (day % SEGMENTS) as u8;
        proof {
            self.lemma_stamps_same(self);
        }
        if segment == self.segment {
            return;
        }
        if self.tiers.open.filled > 0 {
            self.seal_block();
        }
        let ghost was = *self;
        self.segment = segment;
        proof {
            self.lemma_stamps_same(&was);
            reveal(RecordLog::sealed_wf);
            reveal(RecordLog::began_in_order);
            reveal(RecordLog::began_by);
            assert(was.sound() ==> self.sound()) by {
                reveal(RecordLog::sound);
            }
            assert forall|a: RecordAddr, r: Record| was.holds(a, r) implies #[trigger] self.holds(
                a,
                r,
            ) by {
                reveal(RecordLog::holds);
                assert(self.tiers.record(a) == was.tiers.record(a));
            }
            assert forall|a: RecordAddr| #[trigger] self.in_memory(a) == old(self).in_memory(a) by {
                assert(was.in_memory(a) == old(self).in_memory(a));
            }
            assert forall|at: ApplyIndex| old(self).began_by(at) implies #[trigger] self.began_by(at) by {
                assert(was.began_by(at));
            }
            assert forall|a: RecordAddr, r: Record| old(self).holds(a, r) implies #[trigger] self.holds(
                a,
                r,
            ) by {
                assert(was.holds(a, r));
            }
            if old(self).began_in_order() {
                self.lemma_stamps_through(&was, old(self));
            }
        }
    }

    /// The records of the oldest buffered block, for the caller to sort into survivors and casualties.
    pub fn oldest_block(&self) -> (records: Vec<Placed>)
        requires
            self.wf(),
        ensures
            records@.len() == self.held().buffer@[0].filled,
            forall|i: int|
                0 <= i < records@.len() ==> {
                    let (key, hold, addr) = #[trigger] records@[i];
                    &&& addr == RecordAddr::buffered(self.held().oldest, i as u8)
                    &&& self.holds(addr, (key, hold))
                    &&& self.in_memory(addr) == Some((key, hold))
                },
    {
        let records = self.tiers.oldest_block();
        proof {
            reveal(RecordLog::holds);
            assert forall|i: int| 0 <= i < records@.len() implies self.holds(
                (#[trigger] records@[i]).2,
                (records@[i].0, records@[i].1),
            ) by {
                law_address_parts(63, self.tiers.oldest, i as u8);
            }
        }
        records
    }

    /// The position the oldest buffered block began at: a lower bound on the positions of its records.
    pub fn oldest_began_at(&self) -> (at: ApplyIndex)
        requires
            self.wf(),
        ensures
            at == self.held().buffer@[0].began_at,
    {
        self.tiers.buffer[0].began_at
    }

    /// Drops the oldest buffered block, unless it is the one being filled. Everything in it that
    /// mattered has been kept by now.
    pub fn drop_oldest(&mut self, died: usize)
        requires
            old(self).wf(),
        ensures
            final(self).wf(),
            final(self).keeps_but(old(self), old(self).held().oldest),
            old(self).sound() ==> final(self).sound(),
            old(self).held().buffer@.len() > 1 ==> {
                &&& final(self).held().buffer@ == old(self).held().buffer@.drop_first()
                &&& final(self).held().oldest == old(self).held().oldest + 1
                &&& final(self).counts() == (LogTraffic {
                    died_in_buffer: plus(old(self).counts().died_in_buffer, died as u64),
                    ..old(self).counts()
                })
            },
            old(self).held().buffer@.len() == 1 ==> *final(self) == *old(self),
            final(self).held().open == old(self).held().open,
            final(self).held().resident == old(self).held().resident,
            final(self).held().oldest_resident == old(self).held().oldest_resident,
            final(self).held().next_block == old(self).held().next_block,
            old(self).began_in_order() ==> final(self).began_in_order(),
            forall|at: ApplyIndex| old(self).began_by(at) ==> #[trigger] final(self).began_by(at),
            final(self).stamps_stay(old(self)),
            final(self).disk() == old(self).disk(),
            final(self).books() == old(self).books(),
            final(self).days() == old(self).days(),
            final(self).spec_segment() == old(self).spec_segment(),
            final(self).fault() == old(self).fault(),
            final(self).fetches() == old(self).fetches(),
            final(self).sweeps() == old(self).sweeps(),
            final(self).strangers() == old(self).strangers(),
            final(self).sealed() == old(self).sealed(),
            final(self).spec_windows() == old(self).spec_windows(),
    {
        if self.tiers.drop_oldest() {
            self.counts.died_in_buffer = add_count(self.counts.died_in_buffer, died as u64);
        }
        proof {
            let was = old(self);
            reveal(RecordLog::sealed_wf);
            reveal(RecordLog::began_in_order);
            reveal(RecordLog::began_by);
            assert(was.sound() ==> self.sound()) by {
                reveal(RecordLog::sound);
            }
            assert forall|a: RecordAddr, r: Record|
                was.holds(a, r) && !(a.is_buffered() && a.block()
                    == was.tiers.oldest) implies #[trigger] self.holds(a, r) by {
                reveal(RecordLog::holds);
                assert(self.tiers.record(a) == was.tiers.record(a));
            }
            assert(self.stamps_stay(was)) by {
                reveal(RecordLog::stamps_stay);
                reveal(RecordLog::holds);
            }
            if was.tiers.buffer@.len() > 1 {
                let now = self.tiers.buffer@;
                let had = was.tiers.buffer@;
                assert forall|i: int| 0 <= i < now.len() implies #[trigger] now[i] == had[i + 1] by {}
                assert(had[0].filled == RECORDS_PER_BLOCK);
                assert(was.began_in_order() ==> self.began_in_order()) by {
                    if was.began_in_order() {
                        assert(had[1].filled > 0 ==> had[0].began_at.0 <= had[1].began_at.0);
                        assert(now[0] == had[1]);
                    }
                }
            }
        }
    }

    /// Blocks the buffer is holding, the one being filled included.
    pub fn buffered_blocks(&self) -> (blocks: usize)
        ensures
            blocks == self.held().buffer@.len(),
    {
        self.tiers.buffer.len()
    }

    /// Whether the buffer is over its flush window and its oldest block is due to be compacted.
    pub fn over_window(&self) -> (over: bool)
        ensures
            over == (self.held().buffer@.len() > self.spec_windows().0),
    {
        self.tiers.buffer.len() > self.flush_blocks
    }

    /// The segment of the day that the records being written now belong to.
    pub fn segment(&self) -> (segment: u8)
        ensures
            segment == self.spec_segment(),
    {
        self.segment
    }

    /// Hands a day's blocks back, and answers how many. The caller decides when: only once nothing in the
    /// index points into that day. The removal is owed behind whatever this log still owes that day.
    pub fn free_segment(&mut self, segment: u8) -> (freed: u64)
        requires
            old(self).wf(),
            segment < SEGMENT_VALUES,
        ensures
            final(self).wf(),
            final(self).keeps(old(self)),
            old(self).sound() ==> final(self).sound(),
            freed == old(self).days()[segment as int].blocks,
            final(self).days() == old(self).days().update(
                segment as int,
                BlockRange { first: 0, blocks: 0 },
            ),
            final(self).books().pending@ == old(self).books().pending@.push(Owed::Free(segment)),
            final(self).books() == (Journal {
                pending: final(self).books().pending,
                ..old(self).books()
            }),
            final(self).brought() == old(self).brought(),
            final(self).counts() == (LogTraffic {
                freed: plus(old(self).counts().freed, freed),
                ..old(self).counts()
            }),
            final(self).disk() == old(self).disk(),
            final(self).held() == old(self).held(),
            final(self).spec_segment() == old(self).spec_segment(),
            final(self).fault() == old(self).fault(),
            final(self).fetches() == old(self).fetches(),
            final(self).sweeps() == old(self).sweeps(),
            final(self).strangers() == old(self).strangers(),
            final(self).sealed() == old(self).sealed(),
            final(self).spec_windows() == old(self).spec_windows(),
    {
        proof {
            reveal(RecordLog::sealed_wf);
        }
        let freed: u64 = self.days[segment as usize].blocks;
        self.journal.free(segment, self.tiers.oldest_resident, self.tiers.next_block);
        self.counts.freed = add_count(self.counts.freed, freed);
        self.days[segment as usize] = BlockRange::default();
        proof {
            lemma_opens_free(old(self).journal.pending@, old(self).days@, segment);
            let was = old(self);
            assert(was.sound() ==> self.sound()) by {
                reveal(RecordLog::sound);
            }
            assert forall|a: RecordAddr, r: Record| was.holds(a, r) implies #[trigger] self.holds(
                a,
                r,
            ) by {
                reveal(RecordLog::holds);
            }
        }
        freed
    }

    /// Whether a fault is owed to whoever can act on it, taken as it is read.
    pub fn take_fault(&mut self) -> (owed: bool)
        requires
            old(self).wf(),
        ensures
            final(self).wf(),
            final(self).keeps(old(self)),
            old(self).sound() ==> final(self).sound(),
            owed == old(self).fault(),
            !final(self).fault(),
            final(self).disk() == old(self).disk(),
            final(self).held() == old(self).held(),
            final(self).books() == old(self).books(),
            final(self).days() == old(self).days(),
            final(self).spec_segment() == old(self).spec_segment(),
            final(self).counts() == old(self).counts(),
            final(self).fetches() == old(self).fetches(),
            final(self).sweeps() == old(self).sweeps(),
            final(self).strangers() == old(self).strangers(),
            final(self).sealed() == old(self).sealed(),
            final(self).spec_windows() == old(self).spec_windows(),
    {
        let owed: bool = self.fault_owed;
        self.fault_owed = false;
        proof {
            self.lemma_same(old(self));
        }
        owed
    }

    /// The log is the same but for counters, the fault owed, the bytes last brought and the completions of
    /// others.
    proof fn lemma_same(&self, before: &Self)
        requires
            before.wf(),
            self.store == before.store,
            self.tiers == before.tiers,
            self.journal == before.journal,
            self.flush_blocks == before.flush_blocks,
            self.segment == before.segment,
            self.days == before.days,
            self.fetching == before.fetching,
            self.sweeping == before.sweeping,
            self.sweep_handles == before.sweep_handles,
            self.sealed == before.sealed,
        ensures
            self.wf(),
            self.keeps(before),
            before.sound() ==> self.sound(),
    {
        reveal(RecordLog::sealed_wf);
        reveal(RecordLog::sound);
        reveal(RecordLog::holds);
    }

    /// The log is the same but for those and a store that may answer with nothing more than before.
    proof fn lemma_same_but_store(&self, before: &Self)
        requires
            before.wf(),
            self.store.wf(),
            self.store.written().subset_of(before.store.written()),
            self.store.asked().subset_of(before.store.asked()),
            self.store.pledged().subset_of(before.store.pledged()),
            self.tiers == before.tiers,
            self.journal == before.journal,
            self.flush_blocks == before.flush_blocks,
            self.segment == before.segment,
            self.days == before.days,
            self.fetching == before.fetching,
            self.sweeping == before.sweeping,
            self.sweep_handles == before.sweep_handles,
            self.sealed == before.sealed,
        ensures
            self.wf(),
            self.keeps(before),
            before.sound() ==> self.sound(),
    {
        reveal(RecordLog::sealed_wf);
        reveal(RecordLog::sound);
        reveal(RecordLog::holds);
    }

    /// The log is the same but for those and a store that has answered a read.
    proof fn lemma_same_but_polled(&self, before: &Self)
        requires
            before.wf(),
            self.store.wf(),
            forall|w: Written| #[trigger]
                self.store.written().contains(w) ==> before.store.written().contains(w)
                    || before.store.pledged().contains(w),
            self.store.asked().subset_of(before.store.asked()),
            self.store.pledged().subset_of(before.store.pledged()),
            self.tiers == before.tiers,
            self.journal == before.journal,
            self.flush_blocks == before.flush_blocks,
            self.segment == before.segment,
            self.days == before.days,
            self.fetching == before.fetching,
            self.sweeping == before.sweeping,
            self.sweep_handles == before.sweep_handles,
            self.sealed == before.sealed,
        ensures
            self.wf(),
            self.keeps(before),
            before.sound() ==> self.sound(),
    {
        reveal(RecordLog::sealed_wf);
        reveal(RecordLog::sound);
        reveal(RecordLog::holds);
    }

    /// Device time the store's synchronous calls have cost since this was last asked.
    pub fn take_store_charge(&mut self) -> (charge: u64)
        requires
            old(self).wf(),
        ensures
            final(self).wf(),
            old(self).disk().did(Call::TakeCharge, Reply::Amount(charge), &final(self).disk()),
            final(self).keeps(old(self)),
            old(self).sound() ==> final(self).sound(),
            final(self).disk().truthful() == old(self).disk().truthful(),
            forall|h: u64| old(self).unasked(h) ==> #[trigger] final(self).unasked(h),
            final(self).held() == old(self).held(),
            final(self).books() == old(self).books(),
            final(self).days() == old(self).days(),
            final(self).spec_segment() == old(self).spec_segment(),
            final(self).counts() == old(self).counts(),
            final(self).fault() == old(self).fault(),
            final(self).fetches() == old(self).fetches(),
            final(self).sweeps() == old(self).sweeps(),
            final(self).strangers() == old(self).strangers(),
            final(self).sealed() == old(self).sealed(),
            final(self).spec_windows() == old(self).spec_windows(),
    {
        let charge: u64 = self.store.take_charge();
        proof {
            self.lemma_same_but_store(old(self));
            assert forall|h: u64| old(self).unasked(h) implies #[trigger] self.unasked(h) by {
                assert forall|p: Asked| #[trigger] self.disk().asked().contains(p) implies p.0 != h by {
                    assert(old(self).disk().asked().contains(p));
                }
            }
        }
        charge
    }

    /// Notes that the store refused, whatever it refused.
    fn note_fault(&mut self)
        requires
            old(self).wf(),
        ensures
            final(self).wf(),
            final(self).keeps(old(self)),
            old(self).sound() ==> final(self).sound(),
            final(self).fault(),
            final(self).counts() == (LogTraffic {
                store_faults: plus(old(self).counts().store_faults, 1),
                ..old(self).counts()
            }),
            final(self).brought() == old(self).brought(),
            final(self).sweep_handles == old(self).sweep_handles,
            final(self).disk() == old(self).disk(),
            final(self).held() == old(self).held(),
            final(self).books() == old(self).books(),
            final(self).days() == old(self).days(),
            final(self).spec_segment() == old(self).spec_segment(),
            final(self).fetches() == old(self).fetches(),
            final(self).sweeps() == old(self).sweeps(),
            final(self).strangers() == old(self).strangers(),
            final(self).sealed() == old(self).sealed(),
            final(self).spec_windows() == old(self).spec_windows(),
    {
        self.counts.store_faults = add_count(self.counts.store_faults, 1);
        self.fault_owed = true;
        proof {
            self.lemma_same(old(self));
        }
    }

    /// Whether what the store just brought is what was written. No path decodes anything when it says no.
    fn scratch_intact(&mut self) -> (intact: bool)
        requires
            old(self).wf(),
        ensures
            final(self).wf(),
            final(self).keeps(old(self)),
            old(self).sound() ==> final(self).sound(),
            intact == stamped(old(self).brought()),
            final(self).brought() == old(self).brought(),
            final(self).sweep_handles == old(self).sweep_handles,
            final(self).fault() == (old(self).fault() || !intact),
            final(self).counts() == if intact {
                old(self).counts()
            } else {
                LogTraffic {
                    store_corruptions: plus(old(self).counts().store_corruptions, 1),
                    ..old(self).counts()
                }
            },
            final(self).disk() == old(self).disk(),
            final(self).held() == old(self).held(),
            final(self).books() == old(self).books(),
            final(self).days() == old(self).days(),
            final(self).spec_segment() == old(self).spec_segment(),
            final(self).fetches() == old(self).fetches(),
            final(self).sweeps() == old(self).sweeps(),
            final(self).strangers() == old(self).strangers(),
            final(self).sealed() == old(self).sealed(),
            final(self).spec_windows() == old(self).spec_windows(),
    {
        if self.scratch.intact() {
            proof {
                self.lemma_same(old(self));
            }
            return true;
        }
        self.counts.store_corruptions = add_count(self.counts.store_corruptions, 1);
        self.fault_owed = true;
        proof {
            self.lemma_same(old(self));
        }
        false
    }
}

/// The record at an address, out of a block's bytes: none when the bytes are not the ones that were written,
/// or when no block has such a place.
pub open spec fn read_out(bytes: Seq<u8>, addr: RecordAddr) -> Option<Record> {
    if stamped(bytes) && addr.index() < RECORDS_PER_BLOCK {
        Some(record_at(bytes, addr.index() as int))
    } else {
        None
    }
}

/// A store's segments were measured one after another.
pub open spec fn measures<S: DurableStore>(stores: Seq<S>, lengths: Seq<u64>) -> bool {
    &&& stores.len() == lengths.len() + 1
    &&& forall|i: int|
        0 <= i < lengths.len() ==> stores[i].did(
            Call::BlocksIn { object: ObjectId::segment(i as u8) },
            Reply::Amount(#[trigger] lengths[i]),
            &stores[i + 1],
        )
}

/// These are the lengths that a store's segments were measured at.
pub open spec fn measured<S: DurableStore>(was: S, lengths: Seq<u64>, after: S) -> bool {
    exists|stores: Seq<S>| #[trigger]
        measures(stores, lengths) && stores[0] == was && stores.last() == after
}

proof fn lemma_measures_more<S: DurableStore>(
    stores: Seq<S>,
    lengths: Seq<u64>,
    length: u64,
    after: S,
)
    requires
        measures(stores, lengths),
        stores.last().did(
            Call::BlocksIn { object: ObjectId::segment(lengths.len() as u8) },
            Reply::Amount(length),
            &after,
        ),
    ensures
        measures(stores.push(after), lengths.push(length)),
{
    let more = stores.push(after);
    let all = lengths.push(length);
    assert forall|i: int| 0 <= i < all.len() implies more[i].did(
        Call::BlocksIn { object: ObjectId::segment(i as u8) },
        Reply::Amount(#[trigger] all[i]),
        &more[i + 1],
    ) by {
        assert(more[i] == stores[i]);
        if i < lengths.len() {
            assert(all[i] == lengths[i]);
            assert(more[i + 1] == stores[i + 1]);
        }
    }
}

/// The position before another: positions count from one, and zero covers nothing.
pub open spec fn before(at: ApplyIndex) -> ApplyIndex {
    ApplyIndex(
        if at.0 == 0 {
            0
        } else {
            (at.0 - 1) as u64
        },
    )
}

/// The records of a closed block that is in memory, each with its address.
pub open spec fn records_of(block: Filling, segment: u8, number: u64) -> Seq<Placed> {
    Seq::new(
        block.filled as nat,
        |i: int|
            (block.records()[i].0, block.records()[i].1, RecordAddr::new(segment, number, i as u8)),
    )
}

/// The records of a block's bytes, each with its address, as far as a place: a place whose key names
/// nothing holds none.
pub open spec fn records_in(bytes: Seq<u8>, segment: u8, number: u64, through: nat) -> Seq<Placed>
    decreases through,
{
    if through == 0 {
        Seq::empty()
    } else {
        let at = through - 1;
        let rest = records_in(bytes, segment, number, at as nat);
        let (key, hold) = record_at(bytes, at);
        if key.0 == 0 {
            rest
        } else {
            rest.push((key, hold, RecordAddr::new(segment, number, at as u8)))
        }
    }
}

impl<S: DurableStore> RecordLog<S> {
    /// The last position everything up to which is durable, given the position applied through. Three
    /// things can be short of durable, oldest first: a block closed and not yet durable, the block being
    /// packed, and the oldest block in the buffer. The answer is before the first one's own position.
    pub open spec fn covered_through(&self, applied_through: ApplyIndex) -> ApplyIndex {
        match self.books().unsynced {
            Some((_, began_at)) => before(began_at),
            None => if self.held().open.filled > 0 {
                before(self.held().open.began_at)
            } else if self.held().buffer@[0].filled > 0 {
                before(self.held().buffer@[0].began_at)
            } else {
                applied_through
            },
        }
    }

    /// The last position everything up to which has reached a durable block. Erring is one-sided: stopping
    /// too early costs replay a little, and stopping too late claims a record that is gone.
    pub fn durable_through(&self, applied_through: ApplyIndex) -> (through: ApplyIndex)
        requires
            self.wf(),
        ensures
            through == self.covered_through(applied_through),
    {
        match self.journal.unsynced {
            Some((_, began_at)) => ApplyIndex(began_at.raw().saturating_sub(1)),
            None => {
                if self.tiers.open.filled > 0 {
                    ApplyIndex(self.tiers.open.began_at.raw().saturating_sub(1))
                } else if self.tiers.buffer[0].filled > 0 {
                    ApplyIndex(self.tiers.buffer[0].began_at.raw().saturating_sub(1))
                } else {
                    applied_through
                }
            },
        }
    }

    /// The address names a record on a block a crash would still find.
    pub open spec fn spec_is_durable(&self, addr: RecordAddr) -> bool {
        !addr.is_buffered() && addr.block() < self.books().durable_bound(self.held().next_block)
    }

    /// Whether this address names a record on a block a crash would still find. False for a record in the
    /// buffer, for one in the block being packed, and for one on a block not yet made durable.
    pub fn is_durable(&self, addr: RecordAddr) -> (durable: bool)
        ensures
            durable == self.spec_is_durable(addr),
    {
        let durable_blocks: u64 = match self.journal.unsynced {
            Some((first, _)) => first,
            None => self.tiers.next_block,
        };
        !addr.is_buffered() && addr.block() < durable_blocks
    }

    /// Blocks this day wrote, which is also how many freeing it hands back.
    pub fn blocks_in_day(&self, segment: u8) -> (blocks: u64)
        requires
            self.wf(),
            segment < SEGMENT_VALUES,
        ensures
            blocks == self.days()[segment as int].blocks,
    {
        self.days[segment as usize].blocks
    }

    /// The record at an address if it is still in memory. `None` means only the store may have it.
    pub fn try_read(&mut self, addr: RecordAddr) -> (found: Option<Record>)
        requires
            old(self).wf(),
        ensures
            final(self).wf(),
            final(self).keeps(old(self)),
            old(self).sound() ==> final(self).sound(),
            found == old(self).in_memory(addr),
            final(self).brought() == old(self).brought(),
            final(self).counts() == if addr.is_buffered() || addr.block() == old(self).held().next_block {
                LogTraffic {
                    buffer_reads: plus(old(self).counts().buffer_reads, 1),
                    ..old(self).counts()
                }
            } else if old(self).held().oldest_resident <= addr.block() < old(self).held().next_block {
                LogTraffic {
                    resident_reads: plus(old(self).counts().resident_reads, 1),
                    ..old(self).counts()
                }
            } else {
                old(self).counts()
            },
            final(self).disk() == old(self).disk(),
            final(self).held() == old(self).held(),
            final(self).books() == old(self).books(),
            final(self).days() == old(self).days(),
            final(self).spec_segment() == old(self).spec_segment(),
            final(self).fault() == old(self).fault(),
            final(self).fetches() == old(self).fetches(),
            final(self).sweeps() == old(self).sweeps(),
            final(self).strangers() == old(self).strangers(),
            final(self).sealed() == old(self).sealed(),
            final(self).spec_windows() == old(self).spec_windows(),
    {
        let (found, tier) = self.tiers.get(addr);
        match tier {
            Tier::Buffer => {
                self.counts.buffer_reads = add_count(self.counts.buffer_reads, 1);
            },
            Tier::Resident => {
                self.counts.resident_reads = add_count(self.counts.resident_reads, 1);
            },
            Tier::Nowhere => {},
        }
        proof {
            self.lemma_same(old(self));
        }
        found
    }

    /// The block an address is on was read from the store, and its record taken from it if its bytes are the
    /// ones that were written. A read that failed, or whose block does not decode, owes a fault.
    pub open spec fn reads_store(&self, after: &Self, addr: RecordAddr, found: Option<Record>) -> bool {
        exists|read: Result<(), StoreFault>, bytes: Seq<u8>| #[trigger]
            self.disk().did(
                Call::ReadAt {
                    object: ObjectId::segment(addr.segment()),
                    offset: addr.block_offset(),
                    had: self.brought(),
                },
                Reply::Read(read, bytes),
                &after.disk(),
            ) && found == (if read is Ok {
                read_out(bytes, addr)
            } else {
                None
            }) && after.brought() == bytes && after.fault() == (self.fault() || found is None)
                && after.counts() == self.counts().store_read(read is Ok, stamped(bytes), found is None)
    }

    /// The record at an address was read, from memory or else from the store.
    pub open spec fn reads(&self, after: &Self, addr: RecordAddr, found: Option<Record>) -> bool {
        match self.in_memory(addr) {
            Some(record) => {
                &&& found == Some(record)
                &&& after.disk() == self.disk()
                &&& after.brought() == self.brought()
                &&& after.fault() == self.fault()
                &&& after.counts() == if addr.is_buffered() || addr.block() == self.held().next_block {
                    LogTraffic { buffer_reads: plus(self.counts().buffer_reads, 1), ..self.counts() }
                } else {
                    LogTraffic { resident_reads: plus(self.counts().resident_reads, 1), ..self.counts() }
                }
            },
            None => self.reads_through(after, addr, found),
        }
    }

    /// The record was not in memory: the look there is counted, and then the store was read.
    pub open spec fn reads_through(&self, after: &Self, addr: RecordAddr, found: Option<Record>) -> bool {
        exists|looked: RecordLog<S>|
            looked.disk() == self.disk() && looked.brought() == self.brought() && looked.fault()
                == self.fault() && looked.counts() == self.looked_for(addr) && #[trigger] looked.reads_store(
                after,
                addr,
                found,
            )
    }

    /// The counts once a record that is not in memory has been looked for there and is about to be read from
    /// the store.
    pub open spec fn looked_for(&self, addr: RecordAddr) -> LogTraffic {
        let counts = self.counts();
        LogTraffic {
            apply_store_reads: plus(counts.apply_store_reads, 1),
            buffer_reads: if addr.is_buffered() || addr.block() == self.held().next_block {
                plus(counts.buffer_reads, 1)
            } else {
                counts.buffer_reads
            },
            resident_reads: if !(addr.is_buffered() || addr.block() == self.held().next_block)
                && self.held().oldest_resident <= addr.block() < self.held().next_block {
                plus(counts.resident_reads, 1)
            } else {
                counts.resident_reads
            },
            ..counts
        }
    }

    /// The record at an address, wherever it lives, waiting for the store if it has to. Only the apply
    /// path uses this: it applies in order and cannot park a decision half way. `None` from the store owes
    /// a fault: a device that refused, a block that came back changed, or a place no block has.
    pub fn read(&mut self, addr: RecordAddr) -> (found: Option<Record>)
        requires
            old(self).wf(),
            addr.fits(),
        ensures
            final(self).wf(),
            final(self).keeps(old(self)),
            old(self).sound() ==> final(self).sound(),
            final(self).disk().truthful() == old(self).disk().truthful(),
            old(self).in_memory(addr) matches Some(record) ==> found == Some(record) && final(self).disk() == old(self).disk() && final(self).fault() == old(self).fault(),
            old(self).in_memory(addr) is None ==> (found is Some ==> final(self).fault() == old(self).fault()),
            old(self).in_memory(addr) is None && found is None ==> final(self).fault(),
            old(self).reads(final(self), addr, found),
            old(self).in_memory(addr) is None && old(self).sound() && old(self).disk().truthful() ==> (
            found matches Some(record) ==> old(self).at_rest(addr) == Some(record)),
            final(self).counts().apply_store_reads == if old(self).in_memory(addr) is Some {
                old(self).counts().apply_store_reads
            } else {
                plus(old(self).counts().apply_store_reads, 1)
            },
            same_work(final(self).counts(), old(self).counts()),
            forall|h: u64| old(self).unasked(h) ==> #[trigger] final(self).unasked(h),
            final(self).held() == old(self).held(),
            final(self).books() == old(self).books(),
            final(self).days() == old(self).days(),
            final(self).spec_segment() == old(self).spec_segment(),
            final(self).fetches() == old(self).fetches(),
            final(self).sweeps() == old(self).sweeps(),
            final(self).strangers() == old(self).strangers(),
            final(self).sealed() == old(self).sealed(),
            final(self).spec_windows() == old(self).spec_windows(),
    {
        match self.try_read(addr) {
            Some(found) => Some(found),
            None => {
                let ghost was = *self;
                self.counts.apply_store_reads = add_count(self.counts.apply_store_reads, 1);
                proof {
                    self.lemma_same(&was);
                }
                let ghost asked = *self;
                let found = self.read_from_store(addr);
                proof {
                    assert(asked.counts() == old(self).looked_for(addr));
                    assert(asked.reads_store(self, addr, found));
                    assert forall|a: RecordAddr, r: Record| old(self).holds(a, r) implies #[trigger] self.holds(
                        a,
                        r,
                    ) by {
                        assert(was.holds(a, r));
                        assert(asked.holds(a, r));
                    }
                    assert forall|h: u64| old(self).unasked(h) implies #[trigger] self.unasked(h) by {
                        assert(asked.unasked(h));
                    }
                }
                found
            },
        }
    }

    fn read_from_store(&mut self, addr: RecordAddr) -> (found: Option<Record>)
        requires
            old(self).wf(),
            addr.fits(),
        ensures
            final(self).wf(),
            old(self).reads_store(final(self), addr, found),
            final(self).keeps(old(self)),
            old(self).sound() ==> final(self).sound(),
            final(self).disk().truthful() == old(self).disk().truthful(),
            found is None ==> final(self).fault(),
            found is Some ==> final(self).fault() == old(self).fault(),
            old(self).sound() && old(self).disk().truthful() ==> (found matches Some(record) ==> old(self).at_rest(addr) == Some(record)),
            final(self).counts().apply_store_reads == old(self).counts().apply_store_reads,
            same_work(final(self).counts(), old(self).counts()),
            forall|h: u64| old(self).unasked(h) ==> #[trigger] final(self).unasked(h),
            final(self).held() == old(self).held(),
            final(self).books() == old(self).books(),
            final(self).days() == old(self).days(),
            final(self).spec_segment() == old(self).spec_segment(),
            final(self).fetches() == old(self).fetches(),
            final(self).sweeps() == old(self).sweeps(),
            final(self).strangers() == old(self).strangers(),
            final(self).sealed() == old(self).sealed(),
            final(self).spec_windows() == old(self).spec_windows(),
    {
        proof {
            crate::address::law_address_is_its_parts(addr);
        }
        self.counts.store_reads = add_count(self.counts.store_reads, 1);
        let object = ObjectId::segment(addr.segment());
        let read = self.store.read_at(object, addr.block_offset(), &mut self.scratch);
        let ghost bytes = self.brought();
        proof {
            self.lemma_same_but_store(old(self));
        }
        let ghost read_state = *self;
        proof {
            assert forall|h: u64| old(self).unasked(h) implies #[trigger] read_state.unasked(h) by {
                assert forall|p: Asked| #[trigger] read_state.disk().asked().contains(p) implies p.0 != h by {
                    assert(old(self).disk().asked().contains(p));
                }
            }
        }
        if read.is_err() {
            self.note_fault();
            proof {
                assert(old(self).disk().did(
                    Call::ReadAt { object, offset: addr.block_offset(), had: old(self).brought() },
                    Reply::Read(read, bytes),
                    &self.disk(),
                ));
                assert forall|h: u64| old(self).unasked(h) implies #[trigger] self.unasked(h) by {
                    assert(read_state.unasked(h));
                }
            }
            return None;
        }
        let found = self.decode_brought(addr);
        proof {
            assert(old(self).disk().did(
                Call::ReadAt { object, offset: addr.block_offset(), had: old(self).brought() },
                Reply::Read(read, bytes),
                &self.disk(),
            ));
            assert forall|h: u64| old(self).unasked(h) implies #[trigger] self.unasked(h) by {
                assert(read_state.unasked(h));
            }
            if old(self).sound() && old(self).disk().truthful() && found is Some {
                reveal(RecordLog::sound);
                assert(old(self).store.written().contains(
                    (object, addr.block_offset(), read_state.scratch@),
                ));
                assert(addr.block_offset() / 4096 == addr.block());
            }
        }
        found
    }

    /// The record at an address, out of the bytes the store brought: none when the bytes are not the ones
    /// that were written, or when no block has such a place, and then a fault is owed.
    fn decode_brought(&mut self, addr: RecordAddr) -> (found: Option<Record>)
        requires
            old(self).wf(),
        ensures
            final(self).wf(),
            final(self).keeps(old(self)),
            old(self).sound() ==> final(self).sound(),
            found == read_out(old(self).brought(), addr),
            found is None ==> final(self).fault(),
            found is Some ==> final(self).fault() == old(self).fault(),
            final(self).counts() == if !stamped(old(self).brought()) {
                LogTraffic {
                    store_corruptions: plus(old(self).counts().store_corruptions, 1),
                    ..old(self).counts()
                }
            } else if found is None {
                LogTraffic { store_faults: plus(old(self).counts().store_faults, 1), ..old(self).counts() }
            } else {
                old(self).counts()
            },
            final(self).brought() == old(self).brought(),
            final(self).disk() == old(self).disk(),
            final(self).held() == old(self).held(),
            final(self).books() == old(self).books(),
            final(self).days() == old(self).days(),
            final(self).spec_segment() == old(self).spec_segment(),
            final(self).fetches() == old(self).fetches(),
            final(self).sweeps() == old(self).sweeps(),
            final(self).strangers() == old(self).strangers(),
            final(self).sealed() == old(self).sealed(),
            final(self).spec_windows() == old(self).spec_windows(),
    {
        if !self.scratch_intact() {
            return None;
        }
        let ghost intact = *self;
        let index: usize = addr.index() as usize;
        if index >= RECORDS_PER_BLOCK {
            self.note_fault();
            proof {
                assert forall|a: RecordAddr, r: Record| old(self).holds(a, r) implies #[trigger] self.holds(
                    a,
                    r,
                ) by {
                    assert(intact.holds(a, r));
                }
            }
            return None;
        }
        Some(read_record(&self.scratch, index, addr))
    }

    /// No read under this handle is on its way.
    pub open spec fn unasked(&self, handle: u64) -> bool {
        !IoOwner::Sweep.owns(handle) && forall|p: Asked| #[trigger]
            self.disk().asked().contains(p) ==> p.0 != handle
    }

    /// Asks the store for the block this address is on. False is backpressure: the store will not take
    /// another read yet.
    pub fn fetch(&mut self, handle: u64, addr: RecordAddr, now: u64) -> (taken: bool)
        requires
            old(self).wf(),
            addr.fits(),
            !IoOwner::Sweep.owns(handle),
        ensures
            final(self).wf(),
            old(self).disk().did(
                Call::Submit {
                    handle,
                    object: ObjectId::segment(addr.segment()),
                    offset: addr.block_offset(),
                    now,
                },
                Reply::Flag(taken),
                &final(self).disk(),
            ),
            final(self).keeps(old(self)),
            old(self).sound() && old(self).unasked(handle) ==> final(self).sound(),
            final(self).disk().truthful() == old(self).disk().truthful(),
            final(self).fetches() == if taken {
                old(self).fetches().insert(handle, addr)
            } else {
                old(self).fetches()
            },
            forall|h: u64|
                (h != handle || !taken) && old(self).unasked(h) ==> #[trigger] final(self).unasked(h),
            final(self).held() == old(self).held(),
            final(self).books() == old(self).books(),
            final(self).days() == old(self).days(),
            final(self).spec_segment() == old(self).spec_segment(),
            final(self).counts() == old(self).counts(),
            final(self).fault() == old(self).fault(),
            final(self).sweeps() == old(self).sweeps(),
            final(self).strangers() == old(self).strangers(),
            final(self).sealed() == old(self).sealed(),
            final(self).spec_windows() == old(self).spec_windows(),
    {
        proof {
            crate::address::law_address_is_its_parts(addr);
        }
        let object = ObjectId::segment(addr.segment());
        let taken: bool = self.store.submit(handle, object, addr.block_offset(), now);
        if taken {
            self.fetching.insert(handle, addr);
        }
        proof {
            let was = old(self);
            assert(self.wf()) by {
                reveal(RecordLog::sealed_wf);
            }
            assert forall|a: RecordAddr, r: Record| was.holds(a, r) implies #[trigger] self.holds(
                a,
                r,
            ) by {
                reveal(RecordLog::holds);
            }
            if was.unasked(handle) {
                assert forall|p: Asked| #[trigger] was.store.asked().contains(p) implies p.0 != handle by {
                    assert(was.disk().asked().contains(p));
                }
                assert(!asks_elsewhere(was.store.asked(), handle, object, addr.block_offset()));
            }
            assert(was.sound() && was.unasked(handle) ==> self.sound()) by {
                reveal(RecordLog::sound);
                reveal(RecordLog::sealed_wf);
                if was.sound() && was.unasked(handle) {
                    assert forall|p: Asked| #[trigger] self.store.asked().contains(p) implies {
                        &&& self.fetching@.contains_key(p.0) ==> p.1.0 == self.fetching@[p.0].segment()
                            && p.2 == self.fetching@[p.0].block_offset()
                        &&& self.sweeping@.contains_key(p.0) ==> p.1.0 == self.sweeping@[p.0].0 && p.2
                            == self.sweeping@[p.0].1 * 4096
                        &&& IoOwner::Sweep.owns(p.0) ==> p.0 <= IoOwner::Sweep.handle(
                            self.sweep_handles,
                        )
                    } by {
                        if was.store.asked().contains(p) {
                            assert(was.disk().asked().contains(p));
                            assert(p.0 != handle);
                        }
                    }
                }
            }
            assert forall|h: u64| (h != handle || !taken) && was.unasked(h) implies #[trigger] self.unasked(h) by {
                assert forall|p: Asked| #[trigger] self.disk().asked().contains(p) implies p.0 != h by {
                    if was.store.asked().contains(p) {
                        assert(was.disk().asked().contains(p));
                    }
                }
            }
        }
        taken
    }
}

proof fn lemma_records_in(bytes: Seq<u8>, segment: u8, number: u64, through: nat, i: int)
    requires
        through <= 51,
        segment < 64,
        number < BLOCK_VALUES,
        0 <= i < records_in(bytes, segment, number, through).len(),
    ensures
        ({
            let (key, hold, addr) = records_in(bytes, segment, number, through)[i];
            &&& key.0 != 0
            &&& addr.segment() == segment && addr.block() == number && addr.index() < through
            &&& addr.fits()
            &&& (key, hold) == record_at(bytes, addr.index() as int)
        }),
    decreases through,
{
    if through > 0 {
        let at = (through - 1) as nat;
        let rest = records_in(bytes, segment, number, at);
        law_address_parts(segment, number, at as u8);
        if i < rest.len() {
            lemma_records_in(bytes, segment, number, at, i);
        }
    }
}
impl<S: DurableStore> RecordLog<S> {
    /// A day's block was asked of the store for the sweep, under the next of the sweep's own handles, while
    /// there are any.
    pub open spec fn asks_to_sweep(
        &self,
        after: &Self,
        segment: u8,
        block: u64,
        taken: bool,
        now: u64,
    ) -> bool {
        if self.sweep_reads() + 1 >= OWNER_WEIGHT {
            !taken && *after == *self
        } else {
            let handle = IoOwner::Sweep.handle((self.sweep_reads() + 1) as u64);
            &&& self.disk().did(
                Call::Submit {
                    handle,
                    object: ObjectId::segment(segment),
                    offset: (block * 4096) as u64,
                    now,
                },
                Reply::Flag(taken),
                &after.disk(),
            )
            &&& after.sweeps() == if taken {
                self.sweeps().insert(handle, (segment, block))
            } else {
                self.sweeps()
            }
            &&& after.sweep_reads() == if taken {
                self.sweep_reads() + 1
            } else {
                self.sweep_reads() as int
            }
        }
    }

    /// Every record of one of a day's blocks, by position within the day: pushed on `into` when the block
    /// is in memory, asked of the store when it is not. The address goes with each record, because a
    /// record is alive exactly when the index still points at it.
    pub fn walk_day_block(&mut self, segment: u8, at: u64, now: u64, into: &mut Vec<Placed>) -> (walked:
        Walked)
        requires
            old(self).wf(),
            segment < SEGMENTS,
        ensures
            final(self).wf(),
            final(self).keeps(old(self)),
            old(self).sound() ==> final(self).sound(),
            final(self).disk().truthful() == old(self).disk().truthful(),
            match old(self).days()[segment as int].block_spec(at) {
                None => walked == Walked::End && *final(self) == *old(self) && final(into)@ == old(into)@,
                Some(block) => if old(self).held().oldest_resident <= block < old(self).held().next_block {
                    &&& walked == Walked::Visited
                    &&& *final(self) == *old(self)
                    &&& final(into)@ == old(into)@ + records_of(
                        old(self).held().resident@[block - old(self).held().oldest_resident],
                        segment,
                        block,
                    )
                } else {
                    &&& walked == Walked::Asked || walked == Walked::Busy
                    &&& final(into)@ == old(into)@
                    &&& walked == Walked::Busy ==> final(self).sweeps() == old(self).sweeps()
                    &&& walked == Walked::Asked ==> exists|handle: u64|
                        IoOwner::Sweep.owns(handle) && #[trigger] old(self).sweeps().insert(
                            handle,
                            (segment, block),
                        ) == final(self).sweeps()
                    &&& old(self).asks_to_sweep(
                        final(self),
                        segment,
                        block,
                        walked == Walked::Asked,
                        now,
                    )
                },
            },
            forall|h: u64| old(self).unasked(h) ==> #[trigger] final(self).unasked(h),
            final(self).held() == old(self).held(),
            final(self).books() == old(self).books(),
            final(self).days() == old(self).days(),
            final(self).spec_segment() == old(self).spec_segment(),
            final(self).counts() == old(self).counts(),
            final(self).fault() == old(self).fault(),
            final(self).fetches() == old(self).fetches(),
            final(self).strangers() == old(self).strangers(),
            final(self).sealed() == old(self).sealed(),
            final(self).spec_windows() == old(self).spec_windows(),
    {
        let block: u64 = match self.days[segment as usize].block_at(at) {
            Some(block) => block,
            None => {
                proof {
                    self.lemma_same(old(self));
                }
                return Walked::End;
            },
        };
        let resident: usize = self.tiers.resident.len();
        if block >= self.tiers.oldest_resident && block - self.tiers.oldest_resident < resident as u64 {
            let slot: usize = (block - self.tiers.oldest_resident) as usize;
            let held = &self.tiers.resident[slot];
            let ghost all = records_of(*held, segment, block);
            let mut index: usize = 0;
            while index < held.filled
                invariant
                    index <= held.filled,
                    held.wf(),
                    all == records_of(*held, segment, block),
                    into@ =~= old(into)@ + all.subrange(0, index as int),
                decreases held.filled - index,
            {
                let addr = RecordAddr::new(segment, block, index as u8);
                match held.get(index, addr) {
                    Some((key, hold)) => into.push((key, hold, addr)),
                    None => {},
                }
                index += 1;
            }
            assert(all.subrange(0, index as int) =~= all);
            proof {
                self.lemma_same(old(self));
            }
            return Walked::Visited;
        }
        if self.sweep_handles + 1 >= OWNER_WEIGHT {
            proof {
                self.lemma_same(old(self));
            }
            return Walked::Busy;
        }
        let handle: u64 = IoOwner::Sweep.handle(self.sweep_handles + 1);
        proof {
            law_a_handle_has_one_owner(
                IoOwner::Sweep,
                IoOwner::Sweep,
                (self.sweep_handles + 1) as u64,
                self.sweep_handles,
            );
        }
        let taken: bool = self.store.submit(handle, ObjectId::segment(segment), block * 4096, now);
        if taken {
            self.sweep_handles = self.sweep_handles + 1;
            self.sweeping.insert(handle, (segment, block));
        }
        proof {
            let was = old(self);
            assert(self.wf()) by {
                reveal(RecordLog::sealed_wf);
            }
            assert forall|a: RecordAddr, r: Record| was.holds(a, r) implies #[trigger] self.holds(
                a,
                r,
            ) by {
                reveal(RecordLog::holds);
            }
            assert forall|h: u64| was.unasked(h) implies #[trigger] self.unasked(h) by {
                assert forall|p: Asked| #[trigger] self.disk().asked().contains(p) implies p.0 != h by {
                    if was.store.asked().contains(p) {
                        assert(was.disk().asked().contains(p));
                    }
                }
            }
            assert(was.sound() ==> self.sound()) by {
                reveal(RecordLog::sound);
                reveal(RecordLog::sealed_wf);
                if was.sound() {
                    assert forall|p: Asked| #[trigger] self.store.asked().contains(p) implies {
                        &&& self.fetching@.contains_key(p.0) ==> p.1.0 == self.fetching@[p.0].segment()
                            && p.2 == self.fetching@[p.0].block_offset()
                        &&& self.sweeping@.contains_key(p.0) ==> p.1.0 == self.sweeping@[p.0].0 && p.2
                            == self.sweeping@[p.0].1 * 4096
                        &&& IoOwner::Sweep.owns(p.0) ==> p.0 <= IoOwner::Sweep.handle(
                            self.sweep_handles,
                        )
                    } by {
                        if was.store.asked().contains(p) {
                            assert(p.0 != handle);
                        }
                    }
                }
            }
            if taken {
                assert(was.sweeps().insert(handle, (segment, block)) == self.sweeps());
            }
        }
        if taken {
            Walked::Asked
        } else {
            Walked::Busy
        }
    }

    /// Every record on the block the last completion brought back, for the sweep that asked for it.
    fn visit_brought(&self, segment: u8, block: u64, into: &mut Vec<Placed>)
        ensures
            final(into)@ == old(into)@ + records_in(self.brought(), segment, block, 51),
    {
        let mut index: usize = 0;
        while index < RECORDS_PER_BLOCK
            invariant
                index <= RECORDS_PER_BLOCK,
                into@ =~= old(into)@ + records_in(self.brought(), segment, block, index as nat),
            decreases RECORDS_PER_BLOCK - index,
        {
            let addr = RecordAddr::new(segment, block, index as u8);
            let (key, hold) = read_record(&self.scratch, index, addr);
            if key.raw() != 0 {
                into.push((key, hold, addr));
            }
            index += 1;
        }
    }

    /// A record that was on a sealed block when the sweep's read of it was answered.
    pub open spec fn is_swept(&self, one: Placed) -> bool {
        let (key, hold, addr) = one;
        &&& key.0 != 0
        &&& addr.fits()
        &&& !addr.is_buffered()
        &&& addr.block() < self.held().oldest_resident
        &&& self.at_rest(addr) == Some((key, hold))
    }

    /// What a poll of the store came to: nothing, a fault, or the block that a read was for.
    pub open spec fn comes_to(
        &self,
        after: &Self,
        polled: Option<Result<u64, StoreFault>>,
        bytes: Seq<u8>,
        done: Option<(u64, RecordAddr, TxId, HoldData)>,
        found: Seq<Placed>,
    ) -> bool {
        match polled {
            None => {
                &&& done is None
                &&& found.len() == 0
                &&& after.fetches() == self.fetches()
                &&& after.sweeps() == self.sweeps()
                &&& after.fault() == self.fault()
                &&& after.counts() == self.counts()
            },
            Some(Err(_)) => {
                &&& done is None
                &&& found.len() == 0
                &&& after.fetches() == self.fetches()
                &&& after.sweeps() == Map::<u64, (u8, u64)>::empty()
                &&& after.fault()
                &&& after.counts() == (LogTraffic {
                    store_faults: plus(self.counts().store_faults, 1),
                    ..self.counts()
                })
            },
            Some(Ok(handle)) => self.reads_block(after, handle, bytes, done, found),
        }
    }

    /// What a block brought under a handle came to: the record of the lookup that asked for it, the records
    /// that the sweep asked for, or nothing where its bytes are not the ones that were written.
    pub open spec fn reads_block(
        &self,
        after: &Self,
        handle: u64,
        bytes: Seq<u8>,
        done: Option<(u64, RecordAddr, TxId, HoldData)>,
        found: Seq<Placed>,
    ) -> bool {
        let intact = stamped(bytes);
        let swept = IoOwner::Sweep.owns(handle);
        let asked = self.fetches().contains_key(handle);
        let addr = self.fetches()[handle];
        let there = addr.index() < RECORDS_PER_BLOCK && addr.fits();
        let (key, hold) = record_at(bytes, addr.index() as int);
        &&& done == if intact && !swept && asked && there {
            Some((handle, addr, key, hold))
        } else {
            None
        }
        &&& found == if intact && swept && self.sweeps().contains_key(handle) {
            records_in(bytes, self.sweeps()[handle].0, self.sweeps()[handle].1, 51)
        } else {
            Seq::empty()
        }
        &&& after.fetches() == if intact && !swept {
            self.fetches().remove(handle)
        } else {
            self.fetches()
        }
        &&& after.sweeps() == if !intact || swept {
            self.sweeps().remove(handle)
        } else {
            self.sweeps()
        }
        &&& after.fault() == (self.fault() || !intact || (!swept && asked && !there))
        &&& after.counts() == if !intact {
            LogTraffic { store_corruptions: plus(self.counts().store_corruptions, 1), ..self.counts() }
        } else {
            LogTraffic {
                store_reads: plus(self.counts().store_reads, 1),
                store_faults: if !swept && asked && !there {
                    plus(self.counts().store_faults, 1)
                } else {
                    self.counts().store_faults
                },
                ..self.counts()
            }
        }
    }

    /// The store was polled for a read, and what it brought was taken.
    pub open spec fn polls(
        &self,
        after: &Self,
        now: u64,
        done: Option<(u64, RecordAddr, TxId, HoldData)>,
        found: Seq<Placed>,
    ) -> bool {
        exists|polled: Option<Result<u64, StoreFault>>, bytes: Seq<u8>| #[trigger]
            self.disk().did(
                Call::Poll { now, had: self.brought() },
                Reply::Polled(polled, bytes),
                &after.disk(),
            ) && self.comes_to(after, polled, bytes, done, found)
    }

    /// The next fetch finished by `now`. Completions may arrive in an order the reads were not asked in.
    /// A block the sweep asked for is visited on the way, its records pushed on `sweep`.
    pub fn harvest(&mut self, now: u64, sweep: &mut Vec<Placed>) -> (done: Option<
        (u64, RecordAddr, TxId, HoldData),
    >)
        requires
            old(self).wf(),
        ensures
            final(self).wf(),
            old(self).polls(final(self), now, done, final(sweep)@.skip(old(sweep)@.len() as int)),
            final(self).keeps(old(self)),
            old(self).sound() ==> final(self).sound(),
            final(self).disk().truthful() == old(self).disk().truthful(),
            done matches Some((handle, addr, key, hold)) ==> {
                &&& old(self).fetches().contains_key(handle)
                &&& old(self).fetches()[handle] == addr
                &&& final(self).fetches() == old(self).fetches().remove(handle)
                &&& final(sweep)@ == old(sweep)@
                &&& final(self).fault() == old(self).fault()
                &&& old(self).sound() && old(self).disk().truthful() ==> old(self).at_rest(addr) == Some(
                    (key, hold),
                )
            },
            forall|h: u64| old(self).unasked(h) ==> #[trigger] final(self).unasked(h),
            done is None && !final(self).fault() ==> final(self).fetches() == old(self).fetches(),
            old(self).fault() ==> final(self).fault(),
            old(sweep)@.is_prefix_of(final(sweep)@),
            old(self).sound() && old(self).disk().truthful() ==> forall|i: int|
                old(sweep)@.len() <= i < final(sweep)@.len() ==> old(self).is_swept(
                    #[trigger] final(sweep)@[i],
                ),
            final(self).held() == old(self).held(),
            final(self).books() == old(self).books(),
            final(self).days() == old(self).days(),
            final(self).spec_segment() == old(self).spec_segment(),
            final(self).strangers() == old(self).strangers(),
            final(self).sealed() == old(self).sealed(),
            final(self).spec_windows() == old(self).spec_windows(),
    {
        let answered = self.store.poll(now, &mut self.scratch);
        let ghost polled = *self;
        assert(old(self).disk().did(
            Call::Poll { now, had: old(self).brought() },
            Reply::Polled(answered, polled.brought()),
            &polled.disk(),
        ));
        proof {
            self.lemma_same_but_polled(old(self));
            assert forall|h: u64| old(self).unasked(h) implies #[trigger] self.unasked(h) by {
                assert forall|p: Asked| #[trigger] self.disk().asked().contains(p) implies p.0 != h by {
                    assert(old(self).disk().asked().contains(p));
                }
            }
            assert(sweep@ =~= old(sweep)@ + Seq::<Placed>::empty());
            assert(sweep@.skip(old(sweep)@.len() as int) =~= Seq::<Placed>::empty());
        }
        match answered {
            None => {
                assert(old(self).comes_to(self, answered, polled.brought(), None, Seq::empty()));
                None
            },
            Some(Err(_)) => {
                self.fault_on_poll();
                proof {
                    assert(old(self).comes_to(self, answered, polled.brought(), None, Seq::empty()));
                    assert(old(self).disk().did(
                        Call::Poll { now, had: old(self).brought() },
                        Reply::Polled(answered, polled.brought()),
                        &self.disk(),
                    ));
                    assert forall|h: u64| old(self).unasked(h) implies #[trigger] self.unasked(h) by {
                        assert(polled.unasked(h));
                    }
                    assert forall|a: RecordAddr, r: Record| old(self).holds(a, r) implies #[trigger] self.holds(
                        a,
                        r,
                    ) by {
                        assert(polled.holds(a, r));
                    }
                }
                None
            },
            Some(Ok(handle)) => {
                let done = self.take_brought(handle, sweep);
                proof {
                    assert forall|a: RecordAddr, r: Record| old(self).holds(a, r) implies #[trigger] self.holds(
                        a,
                        r,
                    ) by {
                        assert(polled.holds(a, r));
                    }
                    assert forall|h: u64| old(self).unasked(h) implies #[trigger] self.unasked(h) by {
                        assert(polled.unasked(h));
                    }
                    if old(self).sound() && old(self).disk().truthful() {
                        old(self).lemma_brought(handle, polled.brought());
                    }
                    if stamped(polled.brought()) && IoOwner::Sweep.owns(handle)
                        && old(self).sweeps().contains_key(handle) {
                        let (segment, block) = old(self).sweeps()[handle];
                        let placed = records_in(polled.brought(), segment, block, 51);
                        assert(sweep@ == old(sweep)@ + placed);
                        if old(self).sound() && old(self).disk().truthful() {
                            assert(segment < SEGMENTS && block < BLOCK_VALUES && block < old(self).tiers.oldest_resident) by {
                                reveal(RecordLog::sealed_wf);
                            }
                            assert forall|i: int|
                                old(sweep)@.len() <= i < sweep@.len() implies old(self).is_swept(
                                #[trigger] sweep@[i],
                            ) by {
                                lemma_records_in(
                                    polled.brought(),
                                    segment,
                                    block,
                                    51,
                                    i - old(sweep)@.len(),
                                );
                            }
                        }
                    } else {
                        assert(sweep@ =~= old(sweep)@ + Seq::<Placed>::empty());
                    }
                    assert(old(self).disk().did(
                        Call::Poll { now, had: old(self).brought() },
                        Reply::Polled(answered, polled.brought()),
                        &self.disk(),
                    ));
                    let found = sweep@.skip(old(sweep)@.len() as int);
                    assert(sweep@ =~= old(sweep)@ + found);
                    assert(old(self).comes_to(self, answered, polled.brought(), done, found));
                }
                done
            },
        }
    }

    /// Bytes that a truthful store answers a read with are those sealed where the read was for.
    proof fn lemma_brought(&self, handle: u64, bytes: Seq<u8>)
        requires
            self.wf(),
            self.sound(),
            is_answer(self.store.asked(), self.store.pledged(), handle, bytes),
        ensures
            self.fetching@.contains_key(handle) ==> forall|i: int|
                self.fetching@[handle].index() == i && i < RECORDS_PER_BLOCK
                    && self.fetching@[handle].fits() ==> self.at_rest(self.fetching@[handle]) == Some(
                    #[trigger] record_at(bytes, i),
                ),
            self.sweeping@.contains_key(handle) ==> {
                let (segment, block) = self.sweeping@[handle];
                &&& self.sealed@.contains_key(block)
                &&& self.sealed@[block] == (segment, bytes)
            },
    {
        reveal(RecordLog::sound);
        reveal(RecordLog::sealed_wf);
        let (object, offset) = choose|object: ObjectId, offset: u64| #[trigger]
            self.store.asked().contains((handle, object, offset)) && self.store.pledged().contains(
                (object, offset, bytes),
            );
        if self.fetching@.contains_key(handle) && self.fetching@[handle].fits() {
            let addr = self.fetching@[handle];
            crate::address::law_address_is_its_parts(addr);
            assert(addr.block_offset() / 4096 == addr.block());
        }
    }

    /// A read was answered with a fault: the lookup that asked will never be answered, and a fault is owed.
    fn fault_on_poll(&mut self)
        requires
            old(self).wf(),
        ensures
            final(self).wf(),
            final(self).keeps(old(self)),
            old(self).sound() ==> final(self).sound(),
            final(self).fault(),
            final(self).sweeps() == Map::<u64, (u8, u64)>::empty(),
            final(self).counts() == (LogTraffic {
                store_faults: plus(old(self).counts().store_faults, 1),
                ..old(self).counts()
            }),
            final(self).disk() == old(self).disk(),
            final(self).held() == old(self).held(),
            final(self).books() == old(self).books(),
            final(self).days() == old(self).days(),
            final(self).spec_segment() == old(self).spec_segment(),
            final(self).fetches() == old(self).fetches(),
            final(self).strangers() == old(self).strangers(),
            final(self).sealed() == old(self).sealed(),
            final(self).spec_windows() == old(self).spec_windows(),
    {
        self.note_fault();
        let ghost was = *self;
        self.sweeping.clear();
        proof {
            reveal(RecordLog::sealed_wf);
            assert(was.sound() ==> self.sound()) by {
                reveal(RecordLog::sound);
            }
            assert forall|a: RecordAddr, r: Record| old(self).holds(a, r) implies #[trigger] self.holds(
                a,
                r,
            ) by {
                reveal(RecordLog::holds);
                assert(was.holds(a, r));
            }
        }
    }

    /// What a read answered under this handle comes to: the record it was for, the sweep's records, or
    /// nothing when the bytes are not the ones that were written.
    fn take_brought(&mut self, handle: u64, sweep: &mut Vec<Placed>) -> (done: Option<
        (u64, RecordAddr, TxId, HoldData),
    >)
        requires
            old(self).wf(),
        ensures
            final(self).wf(),
            old(self).reads_block(
                final(self),
                handle,
                old(self).brought(),
                done,
                final(sweep)@.skip(old(sweep)@.len() as int),
            ),
            final(self).keeps(old(self)),
            old(self).sound() ==> final(self).sound(),
            final(self).brought() == old(self).brought(),
            old(self).fault() ==> final(self).fault(),
            ({
                let intact = stamped(old(self).brought());
                let swept = IoOwner::Sweep.owns(handle);
                let asked = old(self).fetches().contains_key(handle);
                let addr = old(self).fetches()[handle];
                let (key, hold) = record_at(old(self).brought(), addr.index() as int);
                &&& done == if intact && !swept && asked && addr.index() < RECORDS_PER_BLOCK
                    && addr.fits() {
                    Some((handle, addr, key, hold))
                } else {
                    None
                }
                &&& done is Some ==> final(self).fault() == old(self).fault()
                &&& !intact ==> final(self).fault()
                &&& done is None && !final(self).fault() ==> final(self).fetches() == old(self).fetches()
                &&& final(self).fetches() == if intact && !swept {
                    old(self).fetches().remove(handle)
                } else {
                    old(self).fetches()
                }
                &&& final(self).sweeps() == if !intact || swept {
                    old(self).sweeps().remove(handle)
                } else {
                    old(self).sweeps()
                }
                &&& final(sweep)@ == if intact && swept && old(self).sweeps().contains_key(handle) {
                    old(sweep)@ + records_in(
                        old(self).brought(),
                        old(self).sweeps()[handle].0,
                        old(self).sweeps()[handle].1,
                        51,
                    )
                } else {
                    old(sweep)@
                }
            }),
            final(self).disk() == old(self).disk(),
            final(self).held() == old(self).held(),
            final(self).books() == old(self).books(),
            final(self).days() == old(self).days(),
            final(self).spec_segment() == old(self).spec_segment(),
            final(self).strangers() == old(self).strangers(),
            final(self).sealed() == old(self).sealed(),
            final(self).spec_windows() == old(self).spec_windows(),
    {
        assert(sweep@.skip(old(sweep)@.len() as int) =~= Seq::<Placed>::empty());
        if !self.scratch_intact() {
            let ghost was = *self;
            self.sweeping.remove(&handle);
            proof {
                self.lemma_fewer(&was);
                self.lemma_keeps_through(&was, old(self));
                assert(self.sweeps() =~= old(self).sweeps().remove(handle));
            }
            return None;
        }
        let ghost intact = *self;
        self.counts.store_reads = add_count(self.counts.store_reads, 1);
        if IoOwner::Sweep.owns(handle) {
            let asked = self.sweeping.remove(&handle);
            proof {
                self.lemma_fewer(&intact);
                self.lemma_keeps_through(&intact, old(self));
                assert(self.sweeps() =~= old(self).sweeps().remove(handle));
            }
            match asked {
                Some((segment, block)) => {
                    self.visit_brought(segment, block, sweep);
                    assert(sweep@.skip(old(sweep)@.len() as int) =~= records_in(
                        self.brought(),
                        segment,
                        block,
                        51,
                    ));
                },
                None => {},
            }
            return None;
        }
        let asked = self.fetching.remove(&handle);
        proof {
            self.lemma_fewer(&intact);
            self.lemma_keeps_through(&intact, old(self));
            assert(self.fetches() =~= old(self).fetches().remove(handle));
        }
        let addr = match asked {
            Some(addr) => addr,
            None => {
                assert(self.fetches() =~= old(self).fetches());
                return None;
            },
        };
        let index: usize = addr.index() as usize;
        if index >= RECORDS_PER_BLOCK || addr.raw() >= 0x8000_0000_0000 {
            let ghost was = *self;
            self.note_fault();
            proof {
                self.lemma_keeps_through(&was, old(self));
            }
            return None;
        }
        let (key, hold) = read_record(&self.scratch, index, addr);
        Some((handle, addr, key, hold))
    }

    proof fn lemma_keeps_through(&self, between: &Self, before: &Self)
        requires
            self.keeps(between),
            between.keeps(before),
        ensures
            self.keeps(before),
    {
        assert forall|a: RecordAddr, r: Record| before.holds(a, r) implies #[trigger] self.holds(a, r) by {
            assert(between.holds(a, r));
        }
    }

    /// The log is the same but for counters, and with fewer reads on their way.
    proof fn lemma_fewer(&self, before: &Self)
        requires
            before.wf(),
            self.store == before.store,
            self.tiers == before.tiers,
            self.journal == before.journal,
            self.flush_blocks == before.flush_blocks,
            self.segment == before.segment,
            self.days == before.days,
            forall|h: u64| #[trigger]
                self.fetching@.contains_key(h) ==> before.fetching@.contains_key(h)
                    && self.fetching@[h] == before.fetching@[h],
            forall|h: u64| #[trigger]
                self.sweeping@.contains_key(h) ==> before.sweeping@.contains_key(h)
                    && self.sweeping@[h] == before.sweeping@[h],
            self.sweep_handles == before.sweep_handles,
            self.sealed == before.sealed,
        ensures
            self.wf(),
            self.keeps(before),
            before.sound() ==> self.sound(),
    {
        reveal(RecordLog::sealed_wf);
        reveal(RecordLog::sound);
        reveal(RecordLog::holds);
    }
}

impl<S: DurableStore> RecordLog<S> {
    /// How the store is asked for something owed.
    pub open spec fn offer_of(&self, owed: Owed, handle: u64, now: u64) -> Call {
        match owed {
            Owed::Block(unwritten) => Call::Write {
                handle,
                object: ObjectId::segment(unwritten.segment),
                offset: (unwritten.block * 4096) as u64,
                bytes: self.held().resident@[unwritten.block - self.held().oldest_resident].bytes@,
                creating: unwritten.opening,
                now,
            },
            Owed::Free(segment) => Call::Remove { handle, object: ObjectId::segment(segment), now },
        }
    }

    /// The oldest few of what is owed were offered to the store, in their order, and taken.
    pub open spec fn hands_over(&self, now: u64, stores: Seq<S>, taken: nat) -> bool {
        &&& taken <= self.books().pending@.len()
        &&& stores.len() == taken + 1
        &&& stores[0] == self.disk()
        &&& forall|i: int|
            0 <= i < taken ==> stores[i].did(
                self.offer_of(
                    #[trigger] self.books().pending@[i],
                    IoOwner::Blocks.handle((self.books().handles + 1 + i) as u64),
                    now,
                ),
                Reply::Flag(true),
                &stores[i + 1],
            )
    }

    /// Everything owed was offered to the store, oldest first, until it would not take one: so many it took.
    pub open spec fn issues(&self, now: u64, taken: nat, disk: S) -> bool {
        exists|stores: Seq<S>| #[trigger]
            self.hands_over(now, stores, taken) && if taken == self.books().pending@.len()
                || self.books().handles + taken + 1 >= OWNER_WEIGHT {
                disk == stores.last()
            } else {
                stores.last().did(
                    self.offer_of(
                        self.books().pending@[taken as int],
                        IoOwner::Blocks.handle((self.books().handles + 1 + taken) as u64),
                        now,
                    ),
                    Reply::Flag(false),
                    &disk,
                )
            }
    }

    /// What is owed and what is taken, once the store has taken so many of what was owed.
    pub open spec fn issued(&self, before: &Self, taken: nat) -> bool {
        let was = before.books();
        &&& taken <= was.pending@.len()
        &&& self.books().pending@ == was.pending@.subrange(taken as int, was.pending@.len() as int)
        &&& self.books().submitted@ == was.submitted@ + before.taken_over(taken)
    }

    /// The oldest few of what is owed, each with the handle it is taken under.
    pub open spec fn taken_over(&self, taken: nat) -> Seq<(u64, Owed)> {
        Seq::new(
            taken,
            |i: int|
                (
                    IoOwner::Blocks.handle((self.books().handles + 1 + i) as u64),
                    self.books().pending@[i],
                ),
        )
    }

    proof fn lemma_hands_over(&self, now: u64, stores: Seq<S>, taken: nat, disk: S)
        requires
            self.hands_over(now, stores, taken),
            taken < self.books().pending@.len(),
            stores.last().did(
                self.offer_of(
                    self.books().pending@[taken as int],
                    IoOwner::Blocks.handle((self.books().handles + 1 + taken) as u64),
                    now,
                ),
                Reply::Flag(true),
                &disk,
            ),
        ensures
            self.hands_over(now, stores.push(disk), taken + 1),
    {
        let more = stores.push(disk);
        assert forall|i: int| 0 <= i < taken + 1 implies more[i].did(
            self.offer_of(
                #[trigger] self.books().pending@[i],
                IoOwner::Blocks.handle((self.books().handles + 1 + i) as u64),
                now,
            ),
            Reply::Flag(true),
            &more[i + 1],
        ) by {
            assert(more[i] == stores[i]);
            if i < taken {
                assert(more[i + 1] == stores[i + 1]);
            }
        }
    }

    /// Issues everything owed, oldest first, and answers whether the store took any of it. In order,
    /// because writes to one segment are not interchangeable: a segment's first block is what brings it
    /// into being. What the store will not take stays owed and is offered again next round.
    pub fn submit_writes(&mut self, now: u64) -> (any: bool)
        requires
            old(self).wf(),
        ensures
            final(self).wf(),
            old(self).issues(
                now,
                (old(self).books().pending@.len() - final(self).books().pending@.len()) as nat,
                final(self).disk(),
            ),
            final(self).issued(
                old(self),
                (old(self).books().pending@.len() - final(self).books().pending@.len()) as nat,
            ),
            final(self).keeps(old(self)),
            old(self).sound() ==> final(self).sound(),
            final(self).disk().truthful() == old(self).disk().truthful(),
            final(self).books().pending@.len() <= old(self).books().pending@.len(),
            final(self).books().pending@ == old(self).books().pending@.subrange(
                old(self).books().pending@.len() - final(self).books().pending@.len(),
                old(self).books().pending@.len() as int,
            ),
            final(self).books().submitted@.len() + final(self).books().pending@.len() == old(self).books().submitted@.len() + old(self).books().pending@.len(),
            forall|i: int|
                0 <= i < old(self).books().submitted@.len() ==> #[trigger] final(self).books().submitted@[i] == old(self).books().submitted@[i],
            forall|i: int|
                old(self).books().submitted@.len() <= i < final(self).books().submitted@.len() ==> (
                #[trigger] final(self).books().submitted@[i]).1 == old(self).books().pending@[i - old(self).books().submitted@.len()],
            any == (final(self).books().pending@.len() < old(self).books().pending@.len()),
            final(self).books().barrier == old(self).books().barrier,
            final(self).books().after_barrier == old(self).books().after_barrier,
            final(self).books().unsynced == old(self).books().unsynced,
            final(self).books().start == old(self).books().start,
            final(self).books().answered == old(self).books().answered,
            final(self).books().covered == old(self).books().covered,
            final(self).books().handles == old(self).books().handles + old(self).books().pending@.len() - final(self).books().pending@.len(),
            forall|h: u64| old(self).unasked(h) ==> #[trigger] final(self).unasked(h),
            final(self).held() == old(self).held(),
            final(self).days() == old(self).days(),
            final(self).spec_segment() == old(self).spec_segment(),
            final(self).counts() == old(self).counts(),
            final(self).fault() == old(self).fault(),
            final(self).fetches() == old(self).fetches(),
            final(self).sweeps() == old(self).sweeps(),
            final(self).strangers() == old(self).strangers(),
            final(self).sealed() == old(self).sealed(),
            final(self).spec_windows() == old(self).spec_windows(),
    {
        let mut any: bool = false;
        let ghost total = self.journal.pending@.len();
        let ghost mut stores: Seq<S> = seq![self.store];
        proof {
            self.lemma_same(old(self));
            assert(old(self).hands_over(now, stores, 0));
            assert(self.journal.pending@ =~= self.journal.pending@.subrange(0, total as int));
            assert(self.journal.submitted@ =~= self.journal.submitted@ + old(self).taken_over(0));
        }
        while self.journal.pending.len() > 0 && self.journal.handles + 1 < OWNER_WEIGHT
            invariant
                self.wf(),
                self.keeps(old(self)),
                old(self).sound() ==> self.sound(),
                self.store.truthful() == old(self).store.truthful(),
                total == old(self).journal.pending@.len(),
                self.journal.pending@.len() <= total,
                self.journal.pending@ == old(self).journal.pending@.subrange(
                    total - self.journal.pending@.len(),
                    total as int,
                ),
                self.journal.submitted@.len() + self.journal.pending@.len() == old(self).journal.submitted@.len() + total,
                forall|i: int|
                    0 <= i < old(self).journal.submitted@.len()
                        ==> #[trigger] self.journal.submitted@[i] == old(self).journal.submitted@[i],
                forall|i: int|
                    old(self).journal.submitted@.len() <= i < self.journal.submitted@.len() ==> (
                    #[trigger] self.journal.submitted@[i]).1 == old(self).journal.pending@[i - old(self).journal.submitted@.len()],
                any == (self.journal.pending@.len() < total),
                self.journal.barrier == old(self).journal.barrier,
                self.journal.after_barrier == old(self).journal.after_barrier,
                self.journal.unsynced == old(self).journal.unsynced,
                self.journal.start == old(self).journal.start,
                self.journal.answered == old(self).journal.answered,
                self.journal.covered == old(self).journal.covered,
                self.journal.handles == old(self).journal.handles + total
                    - self.journal.pending@.len(),
                self.tiers == old(self).tiers,
                self.days@ == old(self).days@,
                self.segment == old(self).segment,
                self.counts == old(self).counts,
                self.fault_owed == old(self).fault_owed,
                self.fetching@ == old(self).fetching@,
                self.sweeping@ == old(self).sweeping@,
                self.foreign@ == old(self).foreign@,
                self.sealed == old(self).sealed,
                self.flush_blocks == old(self).flush_blocks,
                self.resident_blocks == old(self).resident_blocks,
                forall|h: u64| old(self).unasked(h) ==> #[trigger] self.unasked(h),
                old(self).hands_over(now, stores, (total - self.journal.pending@.len()) as nat),
                stores.last() == self.store,
                self.issued(old(self), (total - self.journal.pending@.len()) as nat),
            decreases self.journal.pending@.len(),
        {
            let ghost was = *self;
            let ghost at = (total - self.journal.pending@.len()) as nat;
            proof {
                was.lemma_owed_is_sealed();
                assert(was.journal.pending@[0] == old(self).journal.pending@[at as int]);
            }
            let taken: bool = self.submit_oldest(now);
            proof {
                self.lemma_keeps_through(&was, old(self));
                assert forall|h: u64| old(self).unasked(h) implies #[trigger] self.unasked(h) by {
                    assert(was.unasked(h));
                }
                assert(stores.last().did(
                    old(self).offer_of(
                        old(self).books().pending@[at as int],
                        IoOwner::Blocks.handle((old(self).books().handles + 1 + at) as u64),
                        now,
                    ),
                    Reply::Flag(taken),
                    &self.store,
                ));
                if taken {
                    old(self).lemma_hands_over(now, stores, at, self.store);
                    stores = stores.push(self.store);
                    assert(self.journal.pending@ =~= old(self).journal.pending@.subrange(
                        at as int + 1,
                        total as int,
                    ));
                    assert(self.journal.submitted@ =~= old(self).journal.submitted@ + old(
                        self,
                    ).taken_over(at + 1));
                } else {
                    assert(old(self).issues(now, at, self.disk()));
                }
            }
            if !taken {
                return any;
            }
            any = true;
        }
        assert(old(self).issues(
            now,
            (total - self.journal.pending@.len()) as nat,
            self.disk(),
        ));
        any
    }

    /// The oldest thing owed is a day, or a block in memory with the bytes that were sealed.
    proof fn lemma_owed_is_sealed(&self)
        requires
            self.wf(),
            self.journal.pending@.len() > 0,
        ensures
            match self.journal.pending@[0] {
                Owed::Block(unwritten) => {
                    &&& self.tiers.oldest_resident <= unwritten.block < self.tiers.next_block
                    &&& unwritten.segment < 64
                    &&& self.sealed@.contains_key(unwritten.block)
                    &&& self.sealed@[unwritten.block] == (
                        unwritten.segment,
                        self.tiers.resident@[unwritten.block - self.tiers.oldest_resident].bytes@,
                    )
                },
                Owed::Free(segment) => segment < 64,
            },
    {
        reveal(RecordLog::sealed_wf);
        assert(owed_in_range(
            self.journal.pending@[0],
            self.tiers.oldest_resident,
            self.tiers.next_block,
        ));
    }

    /// Offers the store the oldest thing owed. Nothing moves before the store has taken it.
    fn submit_oldest(&mut self, now: u64) -> (taken: bool)
        requires
            old(self).wf(),
            old(self).books().pending@.len() > 0,
            old(self).books().handles + 1 < OWNER_WEIGHT,
        ensures
            final(self).wf(),
            old(self).disk().did(
                old(self).offer_of(
                    old(self).books().pending@[0],
                    IoOwner::Blocks.handle((old(self).books().handles + 1) as u64),
                    now,
                ),
                Reply::Flag(taken),
                &final(self).disk(),
            ),
            final(self).keeps(old(self)),
            old(self).sound() ==> final(self).sound(),
            final(self).disk().truthful() == old(self).disk().truthful(),
            !taken ==> final(self).books() == old(self).books(),
            taken ==> {
                &&& final(self).books().pending@ == old(self).books().pending@.drop_first()
                &&& final(self).books().submitted@ == old(self).books().submitted@.push(
                    (
                        IoOwner::Blocks.handle((old(self).books().handles + 1) as u64),
                        old(self).books().pending@[0],
                    ),
                )
                &&& final(self).books().handles == old(self).books().handles + 1
            },
            final(self).books().barrier == old(self).books().barrier,
            final(self).books().after_barrier == old(self).books().after_barrier,
            final(self).books().unsynced == old(self).books().unsynced,
            final(self).books().start == old(self).books().start,
            final(self).books().answered == old(self).books().answered,
            final(self).books().covered == old(self).books().covered,
            forall|h: u64| old(self).unasked(h) ==> #[trigger] final(self).unasked(h),
            final(self).held() == old(self).held(),
            final(self).days() == old(self).days(),
            final(self).spec_segment() == old(self).spec_segment(),
            final(self).counts() == old(self).counts(),
            final(self).fault() == old(self).fault(),
            final(self).fetches() == old(self).fetches(),
            final(self).sweeps() == old(self).sweeps(),
            final(self).strangers() == old(self).strangers(),
            final(self).sealed() == old(self).sealed(),
            final(self).spec_windows() == old(self).spec_windows(),
    {
        proof {
            self.lemma_owed_is_sealed();
        }
        let handle: u64 = IoOwner::Blocks.handle(self.journal.handles + 1);
        let owed: Owed = self.journal.pending[0];
        let taken: bool = match owed {
            Owed::Block(unwritten) => {
                let resident: usize = self.tiers.resident.len();
                let slot: usize = (unwritten.block - self.tiers.oldest_resident) as usize;
                self.store.submit_write(
                    handle,
                    ObjectId::segment(unwritten.segment),
                    unwritten.block * 4096,
                    &self.tiers.resident[slot].bytes,
                    unwritten.opening,
                    now,
                )
            },
            Owed::Free(segment) => self.store.submit_remove(handle, ObjectId::segment(segment), now),
        };
        if taken {
            proof {
                lemma_opens_pop(self.journal.pending@, self.days@);
            }
            self.journal.took(self.tiers.oldest_resident, self.tiers.next_block);
        }
        proof {
            let was = old(self);
            assert(self.wf()) by {
                reveal(RecordLog::sealed_wf);
                if taken {
                    assert forall|i: int| 0 <= i < self.journal.pending@.len() implies match #[trigger] self.journal.pending@[i] {
                        Owed::Block(unwritten) => self.sealed@[unwritten.block].0
                            == unwritten.segment,
                        Owed::Free(_) => true,
                    } by {
                        assert(self.journal.pending@[i] == was.journal.pending@[i + 1]);
                    }
                }
            }
            assert forall|a: RecordAddr, r: Record| was.holds(a, r) implies #[trigger] self.holds(
                a,
                r,
            ) by {
                reveal(RecordLog::holds);
            }
            assert forall|h: u64| was.unasked(h) implies #[trigger] self.unasked(h) by {
                assert forall|p: Asked| #[trigger] self.disk().asked().contains(p) implies p.0 != h by {
                    assert(was.disk().asked().contains(p));
                }
            }
            assert(was.sound() ==> self.sound()) by {
                reveal(RecordLog::sound);
                if was.sound() {
                    assert forall|w: Written| #[trigger]
                        self.store.written().contains(w) implies agrees(self.sealed@, w.0, w.1, w.2) by {
                        if was.store.written().contains(w) {
                            assert(agrees(was.sealed@, w.0, w.1, w.2));
                        }
                    }
                    assert forall|w: Written| #[trigger]
                        self.store.pledged().contains(w) implies agrees(self.sealed@, w.0, w.1, w.2) by {
                        if was.store.pledged().contains(w) {
                            assert(agrees(was.sealed@, w.0, w.1, w.2));
                        }
                    }
                }
            }
        }
        taken
    }
}

impl<S: DurableStore> RecordLog<S> {
    /// Everything owed was offered to the store, and then, where something closed is not durable, no barrier
    /// is in flight and nothing is owed any more, a barrier.
    pub open spec fn syncs(&self, after: &Self, asked: bool, now: u64) -> bool {
        let taken = (self.books().pending@.len() - after.books().pending@.len()) as nat;
        let handle = IoOwner::Blocks.handle((self.books().handles + taken + 1) as u64);
        &&& after.issued(self, taken)
        &&& exists|between: S| #[trigger]
            self.issues(now, taken, between) && if self.books().unsynced is None
                || self.books().barrier is Some || after.books().pending@.len() > 0
                || self.books().handles + taken + 1 >= OWNER_WEIGHT {
                !asked && after.disk() == between
            } else {
                between.did(Call::Barrier { handle, now }, Reply::Flag(asked), &after.disk())
            }
        &&& after.books().barrier == if asked {
            Some(handle)
        } else {
            self.books().barrier
        }
        &&& after.books().handles == self.books().handles + taken + if asked {
            1int
        } else {
            0
        }
    }

    /// Asks the store to make durable everything closed since this was last asked, and answers whether a
    /// barrier went out. Everything closed is submitted before the barrier that claims to cover it: while
    /// anything is still owed, none goes out.
    pub fn sync(&mut self, now: u64) -> (asked: bool)
        requires
            old(self).wf(),
        ensures
            final(self).wf(),
            old(self).syncs(final(self), asked, now),
            final(self).keeps(old(self)),
            old(self).sound() ==> final(self).sound(),
            final(self).disk().truthful() == old(self).disk().truthful(),
            asked ==> {
                &&& old(self).books().unsynced is Some
                &&& old(self).books().barrier is None
                &&& final(self).books().barrier is Some
                &&& final(self).books().pending@.len() == 0
            },
            !asked ==> final(self).books().barrier == old(self).books().barrier,
            final(self).books().submitted@.len() + final(self).books().pending@.len() == old(self).books().submitted@.len() + old(self).books().pending@.len(),
            final(self).books().after_barrier == old(self).books().after_barrier,
            final(self).books().unsynced == old(self).books().unsynced,
            final(self).books().start == old(self).books().start,
            final(self).books().answered == old(self).books().answered,
            final(self).books().covered == old(self).books().covered,
            forall|h: u64| old(self).unasked(h) ==> #[trigger] final(self).unasked(h),
            old(self).began_in_order() ==> final(self).began_in_order(),
            forall|at: ApplyIndex| old(self).began_by(at) ==> #[trigger] final(self).began_by(at),
            final(self).held() == old(self).held(),
            final(self).days() == old(self).days(),
            final(self).spec_segment() == old(self).spec_segment(),
            final(self).counts() == old(self).counts(),
            final(self).fault() == old(self).fault(),
            final(self).fetches() == old(self).fetches(),
            final(self).sweeps() == old(self).sweeps(),
            final(self).strangers() == old(self).strangers(),
            final(self).sealed() == old(self).sealed(),
            final(self).spec_windows() == old(self).spec_windows(),
    {
        reveal(RecordLog::began_in_order);
        reveal(RecordLog::began_by);
        self.submit_writes(now);
        let ghost issued = *self;
        let ghost taken_over = (old(self).journal.pending@.len() - self.journal.pending@.len()) as nat;
        assert(old(self).issues(now, taken_over, issued.disk()));
        if self.journal.unsynced.is_none() || self.journal.barrier.is_some()
            || self.journal.pending.len() > 0 || self.journal.handles + 1 >= OWNER_WEIGHT {
            return false;
        }
        let handle: u64 = IoOwner::Blocks.handle(self.journal.handles + 1);
        let taken: bool = self.store.submit_barrier(handle, now);
        if taken {
            self.journal.took_barrier(self.tiers.oldest_resident, self.tiers.next_block);
        }
        proof {
            assert(self.wf()) by {
                reveal(RecordLog::sealed_wf);
            }
            assert(issued.sound() ==> self.sound()) by {
                reveal(RecordLog::sound);
            }
            assert forall|a: RecordAddr, r: Record| old(self).holds(a, r) implies #[trigger] self.holds(
                a,
                r,
            ) by {
                assert(issued.holds(a, r));
                reveal(RecordLog::holds);
            }
            assert forall|h: u64| old(self).unasked(h) implies #[trigger] self.unasked(h) by {
                assert(issued.unasked(h));
                assert forall|p: Asked| #[trigger] self.disk().asked().contains(p) implies p.0 != h by {
                    assert(issued.disk().asked().contains(p));
                }
            }
        }
        taken
    }

    /// Takes one answer of the store's to a write, a barrier or a removal. One that somebody else asked
    /// for is put where its owner will find it.
    pub fn take_answer(&mut self, handle: u64, outcome: Result<(), StoreFault>)
        requires
            old(self).wf(),
        ensures
            final(self).wf(),
            final(self).accounts() == old(self).accounts().settled_by((handle, outcome)),
            final(self).keeps(old(self)),
            old(self).sound() ==> final(self).sound(),
            !IoOwner::Blocks.owns(handle) ==> {
                &&& final(self).strangers() == old(self).strangers().push((handle, outcome))
                &&& final(self).books() == old(self).books()
                &&& final(self).fault() == old(self).fault()
                &&& final(self).counts() == old(self).counts()
            },
            IoOwner::Blocks.owns(handle) ==> {
                &&& final(self).strangers() == old(self).strangers()
                &&& old(self).books().barrier == Some(handle) ==> {
                    &&& final(self).fault() == (old(self).fault() || outcome is Err)
                    &&& final(self).books().barrier is None
                    &&& final(self).books().after_barrier is None
                    &&& final(self).books().submitted == old(self).books().submitted
                    &&& final(self).books().unsynced == if outcome is Ok {
                        old(self).books().after_barrier
                    } else {
                        old(self).books().unsynced
                    }
                }
                &&& old(self).books().barrier != Some(handle) ==> {
                    &&& final(self).books().barrier == old(self).books().barrier
                    &&& final(self).books().after_barrier == old(self).books().after_barrier
                    &&& final(self).books().unsynced == old(self).books().unsynced
                    &&& final(self).books().covered == old(self).books().covered
                    &&& match first_asked(old(self).books().submitted@, handle) {
                        Some(at) => final(self).fault() == (old(self).fault() || outcome is Err)
                            && final(self).books().submitted@ == old(self).books().submitted@.remove(at),
                        None => final(self).fault() == old(self).fault() && final(self).books().submitted == old(self).books().submitted,
                    }
                }
            },
            final(self).books().pending == old(self).books().pending,
            final(self).books().start == old(self).books().start,
            final(self).books().handles == old(self).books().handles,
            final(self).books().taken == old(self).books().taken,
            final(self).brought() == old(self).brought(),
            old(self).books().answered@.subset_of(final(self).books().answered@),
            old(self).books().covered@.subset_of(final(self).books().covered@),
            old(self).began_in_order() ==> final(self).began_in_order() && final(self).stamps_stay(
                old(self),
            ),
            forall|at: ApplyIndex| old(self).began_by(at) ==> #[trigger] final(self).began_by(at),
            final(self).disk() == old(self).disk(),
            final(self).held() == old(self).held(),
            final(self).days() == old(self).days(),
            final(self).spec_segment() == old(self).spec_segment(),
            final(self).fetches() == old(self).fetches(),
            final(self).sweeps() == old(self).sweeps(),
            final(self).sealed() == old(self).sealed(),
            final(self).spec_windows() == old(self).spec_windows(),
    {
        reveal(RecordLog::began_in_order);
        reveal(RecordLog::began_by);
        reveal(RecordLog::stamps_stay);
        reveal(RecordLog::holds);
        reveal(RecordLog::sealed_wf);
        if !IoOwner::Blocks.owns(handle) {
            self.foreign.push_back((handle, outcome));
            proof {
                self.lemma_same(old(self));
            }
            return;
        }
        let faulted: bool = self.journal.answered(
            handle,
            outcome.is_ok(),
            self.tiers.oldest_resident,
            self.tiers.next_block,
        );
        let ghost was = *self;
        proof {
            assert(self.wf()) by {
                reveal(RecordLog::sealed_wf);
            }
            assert(old(self).sound() ==> self.sound()) by {
                reveal(RecordLog::sound);
            }
            assert forall|a: RecordAddr, r: Record| old(self).holds(a, r) implies #[trigger] self.holds(
                a,
                r,
            ) by {
                reveal(RecordLog::holds);
            }
        }
        if faulted {
            self.note_fault();
            proof {
                self.lemma_keeps_through(&was, old(self));
            }
        }
    }

    /// Takes every write and barrier the store has answered, and lets the blocks answered for leave
    /// memory down to the residency window. Answers whether it took any.
    pub fn collect_writes(&mut self, now: u64) -> (any: bool)
        requires
            old(self).wf(),
        ensures
            final(self).wf(),
            old(self).takes_answers(final(self), any, now),
            final(self).keeps(old(self)),
            old(self).sound() ==> final(self).sound(),
            final(self).disk().truthful() == old(self).disk().truthful(),
            !any ==> final(self).books() == old(self).books() && final(self).strangers() == old(self).strangers() && final(self).fault() == old(self).fault(),
            old(self).fault() ==> final(self).fault(),
            final(self).books().pending == old(self).books().pending,
            final(self).books().start == old(self).books().start,
            final(self).books().handles == old(self).books().handles,
            final(self).books().taken == old(self).books().taken,
            old(self).books().answered@.subset_of(final(self).books().answered@),
            old(self).books().covered@.subset_of(final(self).books().covered@),
            final(self).brought() == old(self).brought(),
            old(self).lets_go(final(self)),
            final(self).held().buffer == old(self).held().buffer,
            final(self).held().oldest == old(self).held().oldest,
            final(self).held().open == old(self).held().open,
            final(self).held().next_block == old(self).held().next_block,
            final(self).held().oldest_resident >= old(self).held().oldest_resident,
            forall|a: RecordAddr|
                a.is_buffered() || a.block() >= final(self).held().oldest_resident
                    ==> #[trigger] final(self).in_memory(a) == old(self).in_memory(a),
            final(self).held().resident@.len() <= final(self).spec_windows().1 || owes(
                final(self).books().pending@,
                final(self).held().oldest_resident,
            ) || awaits(final(self).books().submitted@, final(self).held().oldest_resident),
            final(self).held().oldest_resident > old(self).held().oldest_resident ==> final(self).held().resident@.len() >= final(self).spec_windows().1,
            forall|h: u64| old(self).unasked(h) ==> #[trigger] final(self).unasked(h),
            old(self).began_in_order() ==> final(self).began_in_order() && final(self).stamps_stay(
                old(self),
            ),
            forall|at: ApplyIndex| old(self).began_by(at) ==> #[trigger] final(self).began_by(at),
            final(self).days() == old(self).days(),
            final(self).spec_segment() == old(self).spec_segment(),
            final(self).fetches() == old(self).fetches(),
            final(self).sweeps() == old(self).sweeps(),
            final(self).sealed() == old(self).sealed(),
            final(self).spec_windows() == old(self).spec_windows(),
    {
        let mut any: bool = false;
        // More answers than any store holds: the round ends when there are no more.
        let mut left: u64 = u64::MAX;
        let ghost mut answers: Seq<(u64, Result<(), StoreFault>)> = Seq::empty();
        proof {
            self.lemma_same(old(self));
            self.lemma_stamps_same(old(self));
            lemma_answered_none(self.store, now);
        }
        while left > 0
            invariant_except_break
                answers.len() + left == u64::MAX,
                answered_with(old(self).store, now, answers, self.store),
            invariant
                any == (answers.len() > 0),
                self.accounts() == old(self).accounts().settled(answers),
                self.wf(),
                self.keeps(old(self)),
                old(self).sound() ==> self.sound(),
                self.store.truthful() == old(self).store.truthful(),
                !any ==> self.journal == old(self).journal && self.foreign@ == old(self).foreign@
                    && self.fault_owed == old(self).fault_owed,
                old(self).fault_owed ==> self.fault_owed,
                self.journal.pending == old(self).journal.pending,
                self.journal.start == old(self).journal.start,
                self.journal.handles == old(self).journal.handles,
                self.journal.taken == old(self).journal.taken,
                self.scratch@ == old(self).scratch@,
                old(self).journal.answered@.subset_of(self.journal.answered@),
                old(self).journal.covered@.subset_of(self.journal.covered@),
                self.tiers == old(self).tiers,
                self.days@ == old(self).days@,
                self.segment == old(self).segment,
                self.fetching@ == old(self).fetching@,
                self.sweeping@ == old(self).sweeping@,
                self.sealed == old(self).sealed,
                self.flush_blocks == old(self).flush_blocks,
                self.resident_blocks == old(self).resident_blocks,
                forall|h: u64| old(self).unasked(h) ==> #[trigger] self.unasked(h),
                old(self).began_in_order() ==> self.began_in_order() && self.stamps_stay(old(self)),
                forall|at: ApplyIndex| old(self).began_by(at) ==> #[trigger] self.began_by(at),
            ensures
                polled_out(old(self).store, now, answers, self.store),
            decreases left,
        {
            let ghost was = *self;
            let answered = self.store.poll_written(now);
            let ghost polled = *self;
            proof {
                reveal(RecordLog::began_in_order);
                reveal(RecordLog::began_by);
                self.lemma_same_but_store(&was);
                self.lemma_keeps_through(&was, old(self));
                self.lemma_stamps_same(&was);
                if old(self).began_in_order() {
                    self.lemma_stamps_through(&was, old(self));
                }
                assert forall|h: u64| old(self).unasked(h) implies #[trigger] self.unasked(h) by {
                    assert(was.unasked(h));
                    assert forall|p: Asked| #[trigger] self.disk().asked().contains(p) implies p.0 != h by {
                        assert(was.disk().asked().contains(p));
                    }
                }
                assert forall|at: ApplyIndex| old(self).began_by(at) implies #[trigger] self.began_by(
                    at,
                ) by {
                    assert(was.began_by(at));
                }
            }
            let (handle, outcome) = match answered {
                Some(answer) => answer,
                None => {
                    break;
                },
            };
            any = true;
            self.take_answer(handle, outcome);
            proof {
                lemma_answered_more(
                    old(self).store,
                    now,
                    answers,
                    was.store,
                    (handle, outcome),
                    self.store,
                );
                let more = answers.push((handle, outcome));
                assert(more.drop_last() =~= answers);
                answers = more;
                self.lemma_keeps_through(&polled, old(self));
                if old(self).began_in_order() {
                    self.lemma_stamps_through(&polled, old(self));
                }
                assert forall|h: u64| old(self).unasked(h) implies #[trigger] self.unasked(h) by {
                    assert(polled.unasked(h));
                }
                assert forall|at: ApplyIndex| old(self).began_by(at) implies #[trigger] self.began_by(
                    at,
                ) by {
                    assert(polled.began_by(at));
                }
            }
            left = left - 1;
        }
        let ghost taken = *self;
        self.trim_residency();
        proof {
            lemma_counts_settled(old(self).accounts(), answers);
            assert(polled_out(old(self).disk(), now, answers, self.disk()));
            self.lemma_keeps_through(&taken, old(self));
            self.lemma_stamps_same(&taken);
            if old(self).began_in_order() {
                self.lemma_stamps_through(&taken, old(self));
            }
            assert forall|h: u64| old(self).unasked(h) implies #[trigger] self.unasked(h) by {
                assert(taken.unasked(h));
            }
            assert forall|at: ApplyIndex| old(self).began_by(at) implies #[trigger] self.began_by(at) by {
                assert(taken.began_by(at));
            }
        }
        any
    }

    /// Drops the oldest closed blocks back to the residency window, and stops at one whose write is
    /// outstanding: a block evicted before the device has been given it would send the next read of it to
    /// a device that does not have it.
    fn trim_residency(&mut self)
        requires
            old(self).wf(),
        ensures
            final(self).wf(),
            final(self).keeps(old(self)),
            old(self).sound() ==> final(self).sound(),
            final(self).held().buffer == old(self).held().buffer,
            final(self).held().oldest == old(self).held().oldest,
            final(self).held().open == old(self).held().open,
            final(self).held().next_block == old(self).held().next_block,
            final(self).held().oldest_resident >= old(self).held().oldest_resident,
            forall|a: RecordAddr|
                a.is_buffered() || a.block() >= final(self).held().oldest_resident
                    ==> #[trigger] final(self).in_memory(a) == old(self).in_memory(a),
            final(self).held().resident@.len() <= final(self).spec_windows().1 || owes(
                final(self).books().pending@,
                final(self).held().oldest_resident,
            ) || awaits(final(self).books().submitted@, final(self).held().oldest_resident),
            final(self).held().oldest_resident > old(self).held().oldest_resident ==> final(self).held().resident@.len() >= final(self).spec_windows().1,
            old(self).began_in_order() ==> final(self).began_in_order(),
            forall|at: ApplyIndex| old(self).began_by(at) ==> #[trigger] final(self).began_by(at),
            final(self).disk() == old(self).disk(),
            final(self).books() == old(self).books(),
            final(self).days() == old(self).days(),
            final(self).spec_segment() == old(self).spec_segment(),
            final(self).fault() == old(self).fault(),
            old(self).lets_go(final(self)),
            final(self).counts() == (LogTraffic {
                left_memory: final(self).counts().left_memory,
                ..old(self).counts()
            }),
            final(self).brought() == old(self).brought(),
            final(self).fetches() == old(self).fetches(),
            final(self).sweeps() == old(self).sweeps(),
            final(self).strangers() == old(self).strangers(),
            final(self).sealed() == old(self).sealed(),
            final(self).spec_windows() == old(self).spec_windows(),
    {
        proof {
            self.lemma_same(old(self));
            assert(self.tiers.resident@.skip(0) =~= self.tiers.resident@);
        }
        let mut stopped: bool = false;
        while !stopped && self.tiers.resident.len() > self.resident_blocks
            invariant
                stopped ==> owes(self.journal.pending@, self.tiers.oldest_resident) || awaits(
                    self.journal.submitted@,
                    self.tiers.oldest_resident,
                ),
                self.wf(),
                self.keeps(old(self)),
                old(self).sound() ==> self.sound(),
                self.tiers.buffer == old(self).tiers.buffer,
                self.tiers.oldest == old(self).tiers.oldest,
                self.tiers.open == old(self).tiers.open,
                self.tiers.next_block == old(self).tiers.next_block,
                self.tiers.oldest_resident >= old(self).tiers.oldest_resident,
                forall|a: RecordAddr|
                    a.is_buffered() || a.block() >= self.tiers.oldest_resident
                        ==> #[trigger] self.tiers.record(a) == old(self).tiers.record(a),
                self.tiers.oldest_resident > old(self).tiers.oldest_resident
                    ==> self.tiers.resident@.len() >= self.resident_blocks,
                self.store == old(self).store,
                self.journal == old(self).journal,
                self.days == old(self).days,
                self.segment == old(self).segment,
                self.fault_owed == old(self).fault_owed,
                self.fetching == old(self).fetching,
                self.sweeping == old(self).sweeping,
                self.foreign == old(self).foreign,
                self.sealed == old(self).sealed,
                self.flush_blocks == old(self).flush_blocks,
                self.resident_blocks == old(self).resident_blocks,
                self.scratch@ == old(self).scratch@,
                old(self).lets_go(self),
                self.counts == (LogTraffic { left_memory: self.counts.left_memory, ..old(self).counts }),
                old(self).began_in_order() ==> self.began_in_order(),
                forall|at: ApplyIndex| old(self).began_by(at) ==> #[trigger] self.began_by(at),
            decreases
                    self.tiers.resident@.len() + if stopped {
                        0int
                    } else {
                        1
                    },
        {
            let oldest: u64 = self.tiers.oldest_resident;
            if self.journal.holds(oldest) {
                stopped = true;
                continue ;
            }
            let ghost was = *self;
            proof {
                self.journal.lemma_may_leave(oldest, self.tiers.next_block);
            }
            let left: usize = self.tiers.evict();
            self.counts.left_memory = add_count(self.counts.left_memory, left as u64);
            proof {
                let gone = self.tiers.oldest_resident - old(self).tiers.oldest_resident;
                assert(was.tiers.resident@[0] == old(self).tiers.resident@[gone - 1]);
                assert(self.tiers.resident@ =~= old(self).tiers.resident@.skip(gone));
                reveal(RecordLog::began_in_order);
                reveal(RecordLog::began_by);
                assert(self.wf()) by {
                    reveal(RecordLog::sealed_wf);
                    assert forall|b: u64|
                        self.tiers.oldest_resident <= b < self.tiers.next_block implies (
                    #[trigger] self.sealed@[b]).1 == self.tiers.resident@[b
                        - self.tiers.oldest_resident].bytes@ by {
                        assert(self.tiers.resident@[b - self.tiers.oldest_resident]
                            == was.tiers.resident@[b - was.tiers.oldest_resident]);
                    }
                }
                assert(was.sound() ==> self.sound()) by {
                    reveal(RecordLog::sound);
                }
                assert forall|a: RecordAddr, r: Record| was.holds(a, r) implies #[trigger] self.holds(
                    a,
                    r,
                ) by {
                    reveal(RecordLog::holds);
                    reveal(RecordLog::sealed_wf);
                    if !a.is_buffered() && a.block() > oldest && a.block() < self.tiers.next_block {
                        assert(self.tiers.resident@[a.block() - self.tiers.oldest_resident]
                            == was.tiers.resident@[a.block() - was.tiers.oldest_resident]);
                    }
                    if a.is_buffered() || a.block() != oldest {
                        assert(self.tiers.record(a) == was.tiers.record(a));
                    }
                }
                self.lemma_keeps_through(&was, old(self));
                assert forall|i: int| 0 <= i < self.tiers.resident@.len() implies #[trigger] self.tiers.resident@[i]
                    == was.tiers.resident@[i + 1] by {}
                assert forall|a: RecordAddr|
                    a.is_buffered() || a.block()
                        >= self.tiers.oldest_resident implies #[trigger] self.tiers.record(a) == old(self).tiers.record(a) by {
                    assert(was.tiers.record(a) == old(self).tiers.record(a));
                }
                assert forall|at: ApplyIndex| old(self).began_by(at) implies #[trigger] self.began_by(
                    at,
                ) by {
                    assert(was.began_by(at));
                }
            }
        }
        proof {
            assert forall|a: RecordAddr|
                a.is_buffered() || a.block() >= self.held().oldest_resident
                    implies #[trigger] self.in_memory(a) == old(self).in_memory(a) by {
                assert(self.tiers.record(a) == old(self).tiers.record(a));
            }
        }
    }

    /// Blocks the sweep has asked for and not been given yet.
    pub fn sweeping_blocks(&self) -> (blocks: usize)
        ensures
            blocks == self.sweeps().len(),
    {
        self.sweeping.len()
    }

    /// What the log has done. The counts that are the index's and the calendar's are zero here.
    pub fn traffic(&self) -> (traffic: LogTraffic)
        ensures
            traffic == self.counts(),
    {
        self.counts
    }

    /// Records appended.
    pub fn appended(&self) -> (appended: u64)
        ensures
            appended == self.counts().appended,
    {
        self.counts.appended
    }

    /// The flush window and the residency window, in blocks.
    pub fn windows(&self) -> (windows: (usize, usize))
        ensures
            windows == self.spec_windows(),
    {
        (self.flush_blocks, self.resident_blocks)
    }

    /// Blocks not written yet, blocks closed or being packed and still in memory, and blocks in the store.
    pub fn blocks(&self) -> (blocks: (usize, usize, u64))
        requires
            self.wf(),
        ensures
            blocks.0 == self.held().buffer@.len(),
            blocks.1 == self.held().in_memory(),
            blocks.2 == stored_blocks(self.days(), 64),
    {
        let mut stored: u64 = 0;
        let mut segment: usize = 0;
        while segment < SEGMENT_VALUES
            invariant
                self.base_wf(),
                segment <= SEGMENT_VALUES,
                stored == stored_blocks(self.days@, segment as nat),
                stored <= segment * 0x10_0000_0000,
            decreases SEGMENT_VALUES - segment,
        {
            stored = stored + self.days[segment].blocks;
            segment += 1;
        }
        let open: usize = if self.tiers.open.filled > 0 {
            1
        } else {
            0
        };
        (self.tiers.buffer.len(), self.tiers.resident.len().saturating_add(open), stored)
    }

    /// The block number the next seal will take.
    pub fn next_block(&self) -> (block: u64)
        ensures
            block == self.held().next_block,
    {
        self.tiers.next_block
    }

    /// Whether the block numbers have room for one more record in the buffer.
    pub fn has_room_to_append(&self) -> (room: bool)
        requires
            self.wf(),
        ensures
            room == self.room_to_append(),
    {
        self.tiers.oldest + (self.tiers.buffer.len() as u64) < BLOCK_VALUES
    }

    /// Whether the block numbers have room for a round that closes a block for each buffered one.
    pub fn has_room_to_drain(&self) -> (room: bool)
        requires
            self.wf(),
        ensures
            room == self.room_to_seal(self.held().buffer@.len() as int + 1),
    {
        self.tiers.next_block + (self.tiers.buffer.len() as u64) + 1 < BLOCK_VALUES
    }

    /// Blocks closed or submitted and not yet answered for.
    pub fn writes_outstanding(&self) -> (writes: usize)
        ensures
            writes == self.books().outstanding(),
    {
        self.journal.pending.len().saturating_add(self.journal.submitted.len())
    }

    /// What the volume these blocks are on has done.
    pub fn volume_stats(&self) -> (stats: VolumeStats)
        requires
            self.wf(),
        ensures
            self.disk().counted() matches Some(counted) ==> stats == counted,
    {
        self.store.stats()
    }

    /// The next completion this log polled that belongs to somebody else.
    pub fn take_foreign(&mut self) -> (taken: Option<(u64, Result<(), StoreFault>)>)
        requires
            old(self).wf(),
        ensures
            final(self).wf(),
            final(self).keeps(old(self)),
            old(self).sound() ==> final(self).sound(),
            old(self).strangers().len() == 0 ==> taken is None && final(self).strangers() == old(self).strangers(),
            old(self).strangers().len() > 0 ==> taken == Some(old(self).strangers()[0])
                && final(self).strangers() == old(self).strangers().drop_first(),
            final(self).disk() == old(self).disk(),
            final(self).held() == old(self).held(),
            final(self).books() == old(self).books(),
            final(self).days() == old(self).days(),
            final(self).spec_segment() == old(self).spec_segment(),
            final(self).counts() == old(self).counts(),
            final(self).fault() == old(self).fault(),
            final(self).fetches() == old(self).fetches(),
            final(self).sweeps() == old(self).sweeps(),
            final(self).sealed() == old(self).sealed(),
            final(self).spec_windows() == old(self).spec_windows(),
    {
        let taken = self.foreign.pop_front();
        proof {
            self.lemma_same(old(self));
            if old(self).foreign@.len() > 0 {
                assert(self.foreign@ =~= old(self).foreign@.drop_first());
            }
        }
        taken
    }

    /// The volume these blocks are on, for whoever else is on it.
    pub fn volume(&mut self) -> (volume: &mut S)
        ensures
            *volume == old(self).disk(),
            final(self).disk() == *final(volume),
            old(self).wf() && final(volume).wf() && final(volume).written().subset_of(
                old(self).disk().written(),
            ) && final(volume).pledged().subset_of(old(self).disk().pledged())
                && final(volume).asked().subset_of(old(self).disk().asked()) ==> final(self).wf() && (
            old(self).sound() ==> final(self).sound()),
            final(self).held() == old(self).held(),
            final(self).books() == old(self).books(),
            final(self).days() == old(self).days(),
            final(self).spec_segment() == old(self).spec_segment(),
            final(self).counts() == old(self).counts(),
            final(self).fault() == old(self).fault(),
            final(self).fetches() == old(self).fetches(),
            final(self).sweeps() == old(self).sweeps(),
            final(self).strangers() == old(self).strangers(),
            final(self).sealed() == old(self).sealed(),
            final(self).spec_windows() == old(self).spec_windows(),
    {
        proof {
            reveal(RecordLog::sealed_wf);
            reveal(RecordLog::sound);
        }
        &mut self.store
    }
}

/// The blocks the first few segments' days wrote between them.
pub open spec fn stored_blocks(days: Seq<BlockRange>, n: nat) -> nat
    decreases n,
{
    if n == 0 {
        0
    } else {
        stored_blocks(days, (n - 1) as nat) + days[n - 1].blocks as nat
    }
}

/// The write of a block that is owed brings its day's object into being exactly when the block is its day's
/// first. Nothing is said of a day whose removal is owed behind it.
pub proof fn law_the_first_block_of_a_day_opens_it<S: DurableStore>(
    log: RecordLog<S>,
    i: int,
    unwritten: Unwritten,
)
    requires
        log.wf(),
        0 <= i < log.books().pending@.len(),
        log.books().pending@[i] == Owed::Block(unwritten),
        !freed_behind(log.books().pending@, i, unwritten.segment),
    ensures
        log.days()[unwritten.segment as int].blocks > 0,
        unwritten.opening == (log.days()[unwritten.segment as int].first == unwritten.block),
{
    reveal(opens_first);
}

/// A block of this life of the log that is not in memory has been written: its write is neither owed nor
/// under way, for the store took it and has answered for it. One that it answered with a fault is among the
/// failed.
pub proof fn law_a_block_not_in_memory_has_been_written<S: DurableStore>(
    log: RecordLog<S>,
    addr: RecordAddr,
)
    requires
        log.wf(),
        !addr.is_buffered(),
        log.books().start@ <= addr.block() < log.held().next_block,
        log.held().block_of(addr) is None,
    ensures
        log.books().answered@.contains(addr.block()),
        !owes(log.books().pending@, addr.block()),
        !awaits(log.books().submitted@, addr.block()),
{
    let block = addr.block();
    let oldest = log.tiers.oldest_resident;
    if owes(log.journal.pending@, block) {
        let i = choose|i: int|
            0 <= i < log.journal.pending@.len() && (#[trigger] log.journal.pending@[i]).is_block(block);
        assert(owed_in_range(log.journal.pending@[i], oldest, log.tiers.next_block));
    }
    if awaits(log.journal.submitted@, block) {
        let i = choose|i: int|
            0 <= i < log.journal.submitted@.len() && (#[trigger] log.journal.submitted@[i]).1.is_block(
                block,
            );
        assert(owed_in_range(log.journal.submitted@[i].1, oldest, log.tiers.next_block));
    }
}

/// A block of this life that counts as durable was taken by the store before a barrier that the store
/// then answered well.
pub proof fn law_a_durable_block_was_covered_by_a_barrier<S: DurableStore>(
    log: RecordLog<S>,
    addr: RecordAddr,
)
    requires
        log.wf(),
        log.spec_is_durable(addr),
        log.books().start@ <= addr.block(),
    ensures
        log.books().covered@.contains(addr.block()),
{
}

/// Coverage stops before everything that is not durable: whatever is in the buffer, in the block being
/// packed, or on a closed block in memory that is not durable began after the covered position.
pub proof fn law_coverage_stops_before_what_is_not_durable<S: DurableStore>(
    log: RecordLog<S>,
    applied: ApplyIndex,
)
    requires
        log.wf(),
        log.began_in_order(),
    ensures
        ({
            let through = log.covered_through(applied);
            &&& forall|i: int|
                0 <= i < log.held().buffer@.len() && (#[trigger] log.held().buffer@[i]).filled > 0
                    ==> through.0 < log.held().buffer@[i].began_at.0 || through.0 == 0
            &&& log.held().open.filled > 0 ==> through.0 < log.held().open.began_at.0 || through.0 == 0
            &&& forall|i: int|
                0 <= i < log.held().resident@.len() && log.books().durable_bound(
                    log.held().next_block,
                ) <= log.held().oldest_resident + i ==> through.0 < (
                #[trigger] log.held().resident@[i]).began_at.0 || through.0 == 0
        }),
{
    reveal(RecordLog::began_in_order);
    let buffer = log.held().buffer@;
    assert forall|i: int| 0 <= i < buffer.len() && (#[trigger] buffer[i]).filled > 0 implies buffer[0].filled
        > 0 && buffer[0].began_at.0 <= buffer[i].began_at.0 by {
        if i > 0 {
            assert(buffer[0].filled == RECORDS_PER_BLOCK);
        }
    }
}

/// A day that a restored index still points into: its segment, and the first and the last of the blocks
/// it points at.
pub type Span = (u8, u64, u64);

/// The blocks of the first span given for a segment.
pub open spec fn span_of(live: Seq<Span>, segment: int) -> Option<(u64, u64)>
    decreases live.len(),
{
    if live.len() == 0 {
        None
    } else if live[0].0 == segment {
        Some((live[0].1, live[0].2))
    } else {
        span_of(live.drop_first(), segment)
    }
}

/// The first few segments that have a file and no span.
pub open spec fn orphans_of(live: Seq<Span>, lengths: Seq<u64>, n: nat) -> Seq<u8>
    decreases n,
{
    if n == 0 {
        Seq::empty()
    } else {
        let rest = orphans_of(live, lengths, (n - 1) as nat);
        if span_of(live, n - 1) is None && lengths[n - 1] > 0 {
            rest.push((n - 1) as u8)
        } else {
            rest
        }
    }
}

/// The larger of two numbers.
pub open spec fn larger(one: u64, other: u64) -> u64 {
    if one < other {
        other
    } else {
        one
    }
}

/// The first block number past everything the first few segments have: a floor, the lengths of their
/// files, and the blocks of their spans.
pub open spec fn longest(floor: u64, live: Seq<Span>, lengths: Seq<u64>, n: nat) -> u64
    decreases n,
{
    if n == 0 {
        floor
    } else {
        let rest = larger(longest(floor, live, lengths, (n - 1) as nat), lengths[n - 1]);
        match span_of(live, n - 1) {
            Some((_, last)) => larger(rest, (last + 1) as u64),
            None => rest,
        }
    }
}

/// No read is on its way on the store, it answers with nothing that it no longer has, and each block number
/// has one block on it.
pub open spec fn settled<S: DurableStore>(store: S) -> bool {
    &&& store.asked() == Set::<Asked>::empty()
    &&& store.pledged() == Set::<Written>::empty()
    &&& store.written().subset_of(store.stored())
    &&& forall|w: Written| #[trigger]
        store.written().contains(w) && w.0.0 < 64 ==> w.1 % 4096 == 0 && w.1 / 4096 < BLOCK_VALUES - 1
    &&& forall|one: Written, other: Written| #[trigger]
        store.written().contains(one) && #[trigger] store.written().contains(other) && one.0.0 < 64
            && other.0.0 < 64 && one.1 == other.1 ==> one == other
}

/// The block on the store under a number: the segment it belongs to and its bytes.
pub open spec fn on_store(written: Set<Written>, block: u64, found: (u8, Seq<u8>)) -> bool {
    found.0 < 64 && written.contains((ObjectId(found.0), (block * 4096) as u64, found.1))
}

impl<S: DurableStore> RecordLog<S> {
    /// Nothing has been closed, packed or asked for: what the log has is what the volume has.
    pub open spec fn untouched(&self) -> bool {
        &&& self.held().buffer@.len() == 1
        &&& self.held().buffer@[0].filled == 0
        &&& self.held().resident@.len() == 0
        &&& self.held().open.filled == 0
        &&& self.books().pending@.len() == 0
        &&& self.books().submitted@.len() == 0
        &&& self.books().barrier is None
        &&& self.books().after_barrier is None
        &&& self.books().unsynced is None
        &&& self.fetches() == Map::<u64, RecordAddr>::empty()
        &&& self.sweeps() == Map::<u64, (u8, u64)>::empty()
    }

    /// Every record of a log that nothing was done with is on a durable block.
    pub proof fn lemma_untouched(&self, addr: RecordAddr, record: Record)
        requires
            self.wf(),
            self.untouched(),
            self.holds(addr, record),
        ensures
            self.spec_is_durable(addr),
    {
        reveal(RecordLog::holds);
        reveal(RecordLog::sealed_wf);
    }

    /// Every segment's file was measured; one that has blocks and no span is an orphan; and the next block is
    /// past everything that is there.
    pub open spec fn reconciles(&self, after: &Self, live: Seq<Span>, orphans: Seq<u8>) -> bool {
        exists|lengths: Seq<u64>| #[trigger]
            measured(self.disk(), lengths, after.disk()) && lengths.len() == 64 && orphans == orphans_of(
                live,
                lengths,
                64,
            ) && after.held().next_block == if longest(self.held().next_block, live, lengths, 64)
                < BLOCK_VALUES {
                longest(self.held().next_block, live, lengths, 64)
            } else {
                (BLOCK_VALUES - 1) as u64
            }
    }

    /// Puts this log back where a previous life left it, from the days a restored index still points into
    /// and from the volume itself. Answers the segments that have a file and nothing alive in them.
    ///
    /// Two sources, and neither could do it alone. The slots say which blocks still matter, so a day's
    /// range is the span they cover; what they cannot say is how far the blocks went, because a block
    /// whose records all died leaves nothing to find it by. The volume answers that. The next block is
    /// past both, so that no number is used for two blocks.
    pub fn reconcile(&mut self, live: &[Span]) -> (orphans: Vec<u8>)
        requires
            old(self).wf(),
            old(self).untouched(),
            forall|i: int|
                0 <= i < live@.len() ==> (#[trigger] live@[i]).1 <= live@[i].2 < BLOCK_VALUES - 1,
        ensures
            final(self).wf(),
            old(self).reconciles(final(self), live@, orphans@),
            forall|s: int|
                0 <= s < 64 ==> #[trigger] final(self).days()[s] == match span_of(live@, s) {
                    Some((first, last)) => BlockRange { first, blocks: (last - first + 1) as u64 },
                    None => old(self).days()[s],
                },
            final(self).held().oldest_resident == final(self).held().next_block,
            final(self).held().resident@.len() == 0,
            final(self).held().open.filled == 0,
            final(self).held().buffer == old(self).held().buffer,
            final(self).held().oldest == old(self).held().oldest,
            final(self).books().start@ == final(self).held().next_block,
            final(self).untouched(),
            final(self).disk().truthful() == old(self).disk().truthful(),
            old(self).disk().truthful() && settled(old(self).disk()) ==> final(self).sound(),
            old(self).disk().truthful() && settled(old(self).disk()) ==> forall|w: Written| #[trigger]
                final(self).disk().written().contains(w) ==> agrees(
                    final(self).sealed(),
                    w.0,
                    w.1,
                    w.2,
                ),
            final(self).spec_segment() == old(self).spec_segment(),
            final(self).counts() == old(self).counts(),
            final(self).fault() == old(self).fault(),
            final(self).fetches() == old(self).fetches(),
            final(self).sweeps() == old(self).sweeps(),
            final(self).strangers() == old(self).strangers(),
            final(self).spec_windows() == old(self).spec_windows(),
    {
        let mut lengths: Vec<u64> = Vec::new();
        let ghost mut stores: Seq<S> = seq![self.store];
        while lengths.len() < SEGMENT_VALUES
            invariant
                measures(stores, lengths@),
                stores[0] == old(self).store,
                stores.last() == self.store,
                lengths@.len() <= SEGMENT_VALUES,
                self.base_wf(),
                self.tiers == old(self).tiers,
                self.journal == old(self).journal,
                self.days == old(self).days,
                self.segment == old(self).segment,
                self.counts == old(self).counts,
                self.fault_owed == old(self).fault_owed,
                self.fetching == old(self).fetching,
                self.sweeping == old(self).sweeping,
                self.foreign == old(self).foreign,
                self.flush_blocks == old(self).flush_blocks,
                self.resident_blocks == old(self).resident_blocks,
                self.store.truthful() == old(self).store.truthful(),
                self.store.written().subset_of(old(self).store.written()),
                self.store.pledged().subset_of(old(self).store.pledged()),
                self.store.asked().subset_of(old(self).store.asked()),
                self.store.stored() == old(self).store.stored(),
                self.store.truthful() ==> forall|w: Written| #[trigger]
                    self.store.stored().contains(w) && w.0.0 < lengths@.len() ==> w.1 / 4096
                        < lengths@[w.0.0 as int],
            decreases SEGMENT_VALUES - lengths@.len(),
        {
            let object = ObjectId::segment(lengths.len() as u8);
            let blocks: u64 = self.store.blocks_in(object);
            let ghost before = lengths@;
            lengths.push(blocks);
            proof {
                lemma_measures_more(stores, before, blocks, self.store);
                stores = stores.push(self.store);
                assert forall|w: Written| #[trigger]
                    self.store.stored().contains(w) && w.0.0 < lengths@.len() && self.store.truthful() implies w.1
                    / 4096 < lengths@[w.0.0 as int] by {
                    if w.0.0 < before.len() {
                        assert(lengths@[w.0.0 as int] == before[w.0.0 as int]);
                    } else {
                        assert(w.0 == object);
                    }
                }
            }
        }
        let ghost asked = *self;
        assert(measured(old(self).disk(), lengths@, asked.disk()));
        let orphans = self.settle(live, &lengths);
        let ghost after = *self;
        proof {
            let written = self.store.written();
            let sealed = Map::new(
                |b: u64| b < self.tiers.next_block && exists|found: (u8, Seq<u8>)| #[trigger]
                    on_store(written, b, found),
                |b: u64| choose|found: (u8, Seq<u8>)| #[trigger] on_store(written, b, found),
            );
            self.sealed@ = sealed;
            assert(measured(old(self).disk(), lengths@, self.disk()));
            assert(asked.held().next_block == old(self).held().next_block);
            assert(self.held().next_block == after.held().next_block);
            assert forall|s: int| 0 <= s < 64 implies #[trigger] self.days()[s] == match span_of(live@, s) {
                Some((first, last)) => BlockRange { first, blocks: (last - first + 1) as u64 },
                None => old(self).days()[s],
            } by {
                assert(after.days()[s] == match span_of(live@, s) {
                    Some((first, last)) => BlockRange { first, blocks: (last - first + 1) as u64 },
                    None => asked.days()[s],
                });
            }
            assert(self.wf()) by {
                reveal(RecordLog::sealed_wf);
            }
            if old(self).store.truthful() && settled(old(self).store) {
                assert forall|w: Written| #[trigger] written.contains(w) implies agrees(
                    sealed,
                    w.0,
                    w.1,
                    w.2,
                ) by {
                    if w.0.0 < 64 {
                        let b = w.1 / 4096;
                        assert(w.1 / 4096 < lengths@[w.0.0 as int]);
                        lemma_longest(old(self).tiers.next_block, live@, lengths@, 64, w.0.0 as int);
                        assert(w.1 / 4096 < BLOCK_VALUES - 1);
                        assert(b * 4096 == w.1);
                        assert(on_store(written, b, (w.0.0, w.2)));
                        let found = choose|found: (u8, Seq<u8>)| #[trigger]
                            on_store(written, b, found);
                        let other: Written = (ObjectId(found.0), (b * 4096) as u64, found.1);
                        assert(written.contains(other));
                        assert(other == w);
                    }
                }
                assert(self.sound()) by {
                    reveal(RecordLog::sound);
                    assert(self.store.asked() =~= Set::<Asked>::empty());
                    assert(self.store.pledged() =~= Set::<Written>::empty());
                }
            }
        }
        orphans
    }

    /// What a restart's two sources come to: the spans give the days their ranges, and the lengths of the
    /// segments' files give the next block.
    fn settle(&mut self, live: &[Span], lengths: &Vec<u64>) -> (orphans: Vec<u8>)
        requires
            old(self).base_wf(),
            old(self).untouched(),
            lengths@.len() == 64,
            forall|i: int|
                0 <= i < live@.len() ==> (#[trigger] live@[i]).1 <= live@[i].2 < BLOCK_VALUES - 1,
        ensures
            final(self).base_wf(),
            orphans@ == orphans_of(live@, lengths@, 64),
            final(self).held().next_block == if longest(
                old(self).held().next_block,
                live@,
                lengths@,
                64,
            ) < BLOCK_VALUES {
                longest(old(self).held().next_block, live@, lengths@, 64)
            } else {
                (BLOCK_VALUES - 1) as u64
            },
            forall|s: int|
                0 <= s < 64 ==> #[trigger] final(self).days()[s] == match span_of(live@, s) {
                    Some((first, last)) => BlockRange { first, blocks: (last - first + 1) as u64 },
                    None => old(self).days()[s],
                },
            final(self).held().oldest_resident == final(self).held().next_block,
            final(self).held().resident@.len() == 0,
            final(self).held().open.filled == 0,
            final(self).held().buffer == old(self).held().buffer,
            final(self).held().oldest == old(self).held().oldest,
            final(self).books().start@ == final(self).held().next_block,
            final(self).untouched(),
            final(self).disk() == old(self).disk(),
            final(self).spec_segment() == old(self).spec_segment(),
            final(self).counts() == old(self).counts(),
            final(self).fault() == old(self).fault(),
            final(self).fetches() == old(self).fetches(),
            final(self).sweeps() == old(self).sweeps(),
            final(self).strangers() == old(self).strangers(),
            final(self).spec_windows() == old(self).spec_windows(),
    {
        let mut orphans: Vec<u8> = Vec::new();
        let mut next_block: u64 = self.tiers.next_block;
        let mut segment: usize = 0;
        while segment < SEGMENT_VALUES
            invariant
                segment <= 64,
                lengths@.len() == 64,
                self.base_but_days(),
                old(self).base_wf(),
                self.untouched(),
                forall|i: int|
                    0 <= i < live@.len() ==> (#[trigger] live@[i]).1 <= live@[i].2 < BLOCK_VALUES - 1,
                orphans@ == orphans_of(live@, lengths@, segment as nat),
                next_block == longest(old(self).tiers.next_block, live@, lengths@, segment as nat),
                next_block >= self.tiers.next_block,
                forall|s: int|
                    0 <= s < segment ==> (#[trigger] self.days@[s]).first + self.days@[s].blocks
                        <= next_block && self.days@[s].first + self.days@[s].blocks < BLOCK_VALUES,
                forall|s: int|
                    0 <= s < 64 ==> #[trigger] self.days@[s] == match span_of(live@, s) {
                        Some((first, last)) => if s < segment {
                            BlockRange { first, blocks: (last - first + 1) as u64 }
                        } else {
                            old(self).days@[s]
                        },
                        None => old(self).days@[s],
                    },
                self.store == old(self).store,
                self.tiers == old(self).tiers,
                self.journal == old(self).journal,
                self.segment == old(self).segment,
                self.counts == old(self).counts,
                self.fault_owed == old(self).fault_owed,
                self.fetching == old(self).fetching,
                self.sweeping == old(self).sweeping,
                self.foreign == old(self).foreign,
                self.flush_blocks == old(self).flush_blocks,
                self.resident_blocks == old(self).resident_blocks,
            decreases 64 - segment,
        {
            if lengths[segment] > next_block {
                next_block = lengths[segment];
            }
            match find_span(live, segment) {
                Some((first, last)) => {
                    self.days[segment] = BlockRange { first, blocks: last - first + 1 };
                    if last + 1 > next_block {
                        next_block = last + 1;
                    }
                },
                None => {
                    if lengths[segment] > 0 {
                        orphans.push(segment as u8);
                    }
                },
            }
            segment += 1;
        }
        if next_block >= BLOCK_VALUES {
            next_block = BLOCK_VALUES - 1;
        }
        proof {
            lemma_longest(old(self).tiers.next_block, live@, lengths@, 64, 0);
            lemma_opens_none(self.days@);
            assert(self.journal.pending@ =~= Seq::<Owed>::empty());
            assert forall|s: int| 0 <= s < 64 implies (#[trigger] self.days@[s]).first + self.days@[s].blocks
                <= next_block by {}
        }
        self.tiers.next_block = next_block;
        self.tiers.oldest_resident = next_block;
        self.journal.begin_at(next_block);
        orphans
    }
}

proof fn lemma_longest(floor: u64, live: Seq<Span>, lengths: Seq<u64>, n: nat, at: int)
    requires
        n <= lengths.len(),
        0 <= at < lengths.len(),
    ensures
        longest(floor, live, lengths, n) >= floor,
        at < n ==> longest(floor, live, lengths, n) >= lengths[at],
    decreases n,
{
    if n > 0 {
        lemma_longest(floor, live, lengths, (n - 1) as nat, at);
    }
}

fn find_span(live: &[Span], segment: usize) -> (span: Option<(u64, u64)>)
    requires
        segment < 64,
        forall|i: int| 0 <= i < live@.len() ==> (#[trigger] live@[i]).1 <= live@[i].2 < BLOCK_VALUES - 1,
    ensures
        span == span_of(live@, segment as int),
        span matches Some((first, last)) ==> first <= last < BLOCK_VALUES - 1,
{
    let mut at: usize = 0;
    assert(live@.subrange(0, live@.len() as int) =~= live@);
    while at < live.len()
        invariant
            at <= live@.len(),
            forall|i: int|
                0 <= i < live@.len() ==> (#[trigger] live@[i]).1 <= live@[i].2 < BLOCK_VALUES - 1,
            span_of(live@, segment as int) == span_of(
                live@.subrange(at as int, live@.len() as int),
                segment as int,
            ),
        decreases live@.len() - at,
    {
        let (day, first, last) = live[at];
        assert(live@.subrange(at as int, live@.len() as int)[0] == live@[at as int]);
        if day as usize == segment {
            return Some((first, last));
        }
        assert(live@.subrange(at as int, live@.len() as int).drop_first() =~= live@.subrange(
            at + 1,
            live@.len() as int,
        ));
        at += 1;
    }
    None
}

impl Default for RecordLog<MemoryStore> {
    fn default() -> (log: Self)
        ensures
            log.wf(),
            log.sound(),
            log.disk().is_blank(),
            log.is_fresh(DEFAULT_FLUSH_BLOCKS, DEFAULT_RESIDENT_BLOCKS),
    {
        let store = MemoryStore::default();
        proof {
            assert(store.pledged() =~= Set::<Written>::empty());
            assert(store.asked() =~= Set::<Asked>::empty());
        }
        RecordLog::new(store, DEFAULT_FLUSH_BLOCKS, DEFAULT_RESIDENT_BLOCKS)
    }
}

} // verus!
