//! What the pending engine keeps: every hold it was told to create, and the budget groups those holds
//! belong to. It writes down committed decisions and judges nothing, which is why a write that names a
//! hold the store does not have is dropped rather than refused.

use std::collections::{BTreeMap, HashMap, VecDeque};

use vstd::prelude::*;
use vstd::laws_cmp::group_laws_cmp;
use vstd::std_specs::btree::group_btree_axioms;
use vstd::std_specs::hash::group_hash_axioms;

use crate::address::{
    law_address_is_its_parts, law_address_parts, ObjectId, RecordAddr, BLOCK_VALUES, OWNER_WEIGHT, SEGMENTS,
};
use crate::index::{
    is_own, known_slot, law_a_removal_takes_one_key, law_a_repoint_moves_one_key,
    law_every_key_is_found, law_the_table_counts_its_keys, lemma_matching, lemma_pointing_first, matching, one_key_each, pointing,
    repointed, summed, within_reach, Candidates, DEFAULT_SLOTS, Found, HoldTable,
};
use crate::block::RECORDS_PER_BLOCK;
use crate::budget::{lists, BudgetState};
use crate::filling::BlockRange;
use crate::ledger::{Amount, ApplyIndex, BudgetGroup, HoldData, PendingEffect, Transfer, TxId};
use crate::memory_store::MemoryStore;
use crate::owed::{awaits, owes, Owed};
use crate::record_log::{
    agrees, is_gone, records_of, settled, span_of, stays, stored_blocks,
    DEFAULT_FLUSH_BLOCKS, DEFAULT_RESIDENT_BLOCKS, Record, RecordLog, Span, Walked,
};
use crate::slots::{
    address_of, addresses, clash, fingerprint, fingerprint_of, in_pair, in_segment, is_marked, is_mask, only_marked,
    lemma_clear, lemma_count_bound, lemma_count_none, lemma_word, named, occupied, seated, stands_for, whole, Placement, EMPTY,
};
use crate::snapshot::{carried_words, read_past, SnapshotWriter};
use crate::stats::{add_count, plus, VolumeStats};
use crate::store::{Asked, Call, DurableStore, Reply, Written};
use crate::tiers::Placed;
use crate::traffic::{same_work, LogTraffic};

verus! {

broadcast use {group_btree_axioms, group_hash_axioms, group_laws_cmp};

/// A hold the index could not take, on its way out of the engine. There is nowhere for it to go: the
/// table was sized for a declared maximum and that maximum has been passed.
#[derive(Clone, Copy, Debug, PartialEq, Eq, Structural)]
pub struct NotStored {
    pub hold: TxId,
}

/// Whether an effect is arriving for the first time or again.
#[derive(Clone, Copy, Debug, PartialEq, Eq, Structural)]
pub enum Arrival {
    First,
    /// Again, with the position the group totals already reflect.
    Again(ApplyIndex),
}

/// What starting a lookup did.
#[derive(Clone, Copy, Debug)]
pub enum Started {
    Answered(Option<HoldData>),
    Fetching,
    /// The store refuses another read: the caller keeps the command and asks again.
    Busy,
}

/// Where a lookup has got to: which key it is for, the addresses its fingerprint matched, and how many
/// of them have been ruled out.
struct Fetch {
    /// Who asked, as the caller named the lookup.
    handle: u64,
    key: TxId,
    candidates: Candidates,
    next: usize,
    /// A candidate was in the buffer when it was found and has been carried on since.
    moved: bool,
}

impl Fetch {
    spec fn wf(&self) -> bool {
        &&& self.candidates.wf()
        &&& self.next <= self.candidates.len
        &&& forall|i: int| 0 <= i < self.candidates.len ==> (#[trigger] self.candidates.addrs@[i]).fits()
    }

    /// The walk is waiting for the record of the candidate before its next.
    spec fn is_reading(&self) -> bool {
        self.next >= 1 && !self.candidates.addrs@[self.next - 1].is_buffered()
    }

    /// The walk as it stands with this candidate the next to be settled.
    spec fn from(&self, next: int) -> Walking {
        Walking {
            handle: self.handle,
            key: self.key,
            left: self.candidates.addrs@.subrange(next, self.candidates.len as int),
            moved: self.moved,
        }
    }
}

/// A lookup on its way: who asked and for which key, the candidates not settled yet, and whether one of
/// those settled had moved away before it was read.
pub ghost struct Walking {
    pub handle: u64,
    pub key: TxId,
    pub left: Seq<RecordAddr>,
    pub moved: bool,
}

/// What a step of a lookup's walk came to.
enum Walk {
    Answered(Option<HoldData>),
    Fetching,
    Busy(Fetch),
}

/// What a step of a walk did, as a caller sees it.
spec fn step_of(walk: Walk) -> Step {
    match walk {
        Walk::Answered(found) => Step::Answered(found),
        Walk::Fetching => Step::Waits,
        Walk::Busy(fetch) => Step::Held(fetch.from(fetch.next as int)),
    }
}

/// Where the expiry sweep has got to. Nothing here is durable: a sweep interrupted by a restart starts
/// again. The oldest day that is not finished is the only one worked on, so days cannot be skipped.
#[derive(Clone, Copy, Debug, PartialEq, Eq, Structural)]
pub struct Sweep {
    /// The oldest day whose holds are not all released. `None` until the engine has been told what day it
    /// is.
    pub day: Option<u64>,
    /// Which of the expiring day's blocks the walk has reached.
    pub at_block: u64,
}

/// The void releases the hold whose stored record is at an address.
pub open spec fn is_void_of<S: DurableStore>(
    log: RecordLog<S>,
    addr: RecordAddr,
    void: Transfer,
) -> bool {
    !addr.is_buffered() && exists|hold: HoldData| #[trigger]
        log.holds(addr, (void.pending_ref, hold)) && void == Transfer::expiry_void(
            void.pending_ref,
            hold,
        )
}

/// The pending engine over a store.
pub struct PendingEngine<S: DurableStore> {
    /// Where each hold is.
    index: HoldTable,
    /// What each hold is. Append-only, so a hold whose remainder changed is written again and the index
    /// repointed.
    records: RecordLog<S>,
    budgets: BTreeMap<u128, BudgetState>,
    /// Lookups waiting on the store, with the rest of their candidate walk, by the number of the read each
    /// is waiting for.
    fetches: HashMap<u64, Fetch>,
    /// Lookups whose next read the store would not take yet.
    stalled: VecDeque<Fetch>,
    /// The number of the last read asked of the store. Numbers are not used twice.
    reads: u64,
    /// The day whose records are being written.
    today: u64,
    /// Days a record may live, as the caller last declared it.
    lifetime_days: u64,
    sweep: Sweep,
    /// Blocks of expiring days the sweep has read.
    swept_blocks: u64,
    /// Expiry voids handed over and not yet landed, with the address each was built from.
    outstanding: Vec<(RecordAddr, Transfer)>,
    overflowed: u64,
    /// The log position of the last batch whose effects reached this engine.
    applied_through: ApplyIndex,
    /// Committed decisions applied.
    applied: u64,
    /// Buffered blocks compacted.
    drained: u64,
    /// Where each hold's record is.
    at: Ghost<Map<TxId, RecordAddr>>,
    /// What each hold is.
    held: Ghost<Map<TxId, HoldData>>,
    /// The position of the last decision about each key.
    decided: Ghost<Map<TxId, ApplyIndex>>,
}

/// What of the engine a write leaves alone: the day, the lifetime, the sweep, its count, the voids
/// outstanding and the lookups waiting.
pub ghost struct Calendar {
    pub today: u64,
    pub lifetime_days: u64,
    pub sweep: Sweep,
    pub swept_blocks: u64,
    pub outstanding: Seq<(RecordAddr, Transfer)>,
    pub drained: u64,
}

impl<S: DurableStore> PendingEngine<S> {
    pub closed spec fn table(&self) -> HoldTable {
        self.index
    }

    pub closed spec fn log(&self) -> RecordLog<S> {
        self.records
    }

    /// What each hold is, by its key. Group totals are not part of it: they ride along with an answer.
    pub closed spec fn holds(&self) -> Map<TxId, HoldData> {
        self.held@
    }

    /// Where each hold's record is.
    pub closed spec fn places(&self) -> Map<TxId, RecordAddr> {
        self.at@
    }

    /// The budget groups, by their number.
    pub closed spec fn groups(&self) -> Map<u128, BudgetState> {
        self.budgets@
    }

    /// The position of the last decision about each key that the engine was told one of.
    pub closed spec fn decisions(&self) -> Map<TxId, ApplyIndex> {
        self.decided@
    }

    pub closed spec fn spec_applied(&self) -> u64 {
        self.applied
    }

    pub closed spec fn spec_applied_through(&self) -> ApplyIndex {
        self.applied_through
    }

    pub closed spec fn spec_overflowed(&self) -> u64 {
        self.overflowed
    }

    pub closed spec fn calendar(&self) -> Calendar {
        Calendar {
            today: self.today,
            lifetime_days: self.lifetime_days,
            sweep: self.sweep,
            swept_blocks: self.swept_blocks,
            outstanding: self.outstanding@,
            drained: self.drained,
        }
    }

    /// The lookups waiting on the store, by the number of the read each is waiting for: the caller's handle
    /// and the key.
    pub closed spec fn waiting(&self) -> Map<u64, (u64, TxId)> {
        self.fetches@.map_values(|fetch: Fetch| (fetch.handle, fetch.key))
    }

    /// The lookups whose next read the store would not take yet: the caller's handle and the key.
    pub closed spec fn held_up(&self) -> Seq<(u64, TxId)> {
        self.stalled@.map_values(|fetch: Fetch| (fetch.handle, fetch.key))
    }

    /// The lookups waiting on the store, each with the candidates it has left, the one being read first.
    pub closed spec fn walks(&self) -> Map<u64, Walking> {
        self.fetches@.map_values(|fetch: Fetch| fetch.from(fetch.next - 1))
    }

    /// The lookups whose next read the store would not take yet, each with the candidates it has left.
    pub closed spec fn stalls(&self) -> Seq<Walking> {
        self.stalled@.map_values(|fetch: Fetch| fetch.from(fetch.next as int))
    }

    /// No read under a number not used yet is on its way.
    pub closed spec fn numbered(&self) -> bool {
        forall|h: u64| self.reads < h < OWNER_WEIGHT ==> #[trigger] self.records.unasked(h)
    }

    pub closed spec fn last_read(&self) -> u64 {
        self.reads
    }

    pub closed spec fn wf(&self) -> bool {
        &&& self.index.wf()
        &&& self.records.wf()
        &&& forall|h: u64| #[trigger]
            self.fetches@.contains_key(h) ==> self.fetches@[h].wf() && self.fetches@[h].is_reading()
        &&& forall|i: int| 0 <= i < self.stalled@.len() ==> (#[trigger] self.stalled@[i]).wf()
        &&& self.reads < OWNER_WEIGHT
    }

    /// The index stands for the places of the holds, no two holds share one, and each hold's record is at
    /// its place.
    #[verifier::opaque]
    pub closed spec fn good(&self) -> bool {
        &&& self.index.represents(self.at@)
        &&& one_key_each(self.at@)
        &&& self.at@.dom() == self.held@.dom()
        &&& forall|k: TxId| #[trigger]
            self.at@.contains_key(k) ==> self.records.holds(self.at@[k], (k, self.held@[k]))
    }

    /// The store answers with what it was given, what it may answer with is what was sealed, and no read
    /// under a number not used yet is on its way.
    pub open spec fn trusted(&self) -> bool {
        self.log().sound() && self.log().disk().truthful() && self.numbered()
    }

    /// The engine's holds are as they should be, and nothing has gone wrong since the last fault was
    /// taken.
    pub open spec fn healthy(&self) -> bool {
        self.good() && self.trusted() && !self.log().fault()
    }

    /// Every void outstanding was built from a record that is where it was found.
    #[verifier::opaque]
    pub closed spec fn grounded(&self) -> bool {
        forall|i: int|
            0 <= i < self.outstanding@.len() ==> is_void_of(
                self.records,
                (#[trigger] self.outstanding@[i]).0,
                self.outstanding@[i].1,
            )
    }

    /// The positions of the records short of durable are in order, none past the last applied.
    pub open spec fn in_order(&self) -> bool {
        self.log().began_in_order() && self.log().began_by(self.spec_applied_through())
    }

    /// A hold whose record is not durable was last decided about no earlier than the record is kept with.
    #[verifier::opaque]
    pub closed spec fn dated(&self) -> bool {
        forall|k: TxId| #[trigger]
            self.at@.contains_key(k) && !self.records.spec_is_durable(self.at@[k])
                ==> self.decided@.contains_key(k) && self.records.stamp(self.at@[k]).0
                <= self.decided@[k].0
    }

    /// The index alone cannot settle on a slot for this key.
    pub open spec fn unsettled(&self, key: TxId) -> bool {
        known_slot(self.table().words(), self.table().mask(), key) is None
    }

    /// A candidate of a lookup for this key has moved away, or its record is there and, where it is the
    /// key's, is what the key's hold now is.
    pub open spec fn stands(&self, addr: RecordAddr, key: TxId) -> bool {
        is_gone(self.log(), addr) || exists|record: Record| #[trigger]
            self.log().holds(addr, record) && (record.0 == key ==> self.holds().contains_key(key)
                && self.holds()[key] == record.1)
    }

    /// A candidate has moved away, or its record is what the key's hold now is.
    pub open spec fn leads_to(&self, addr: RecordAddr, key: TxId) -> bool {
        is_gone(self.log(), addr) || self.log().holds(addr, (key, self.holds()[key]))
    }

    /// A lookup will come to what its key's hold now is, and to nothing if there is none.
    pub open spec fn on_course(&self, walk: Walking) -> bool {
        &&& forall|i: int| 0 <= i < walk.left.len() ==> self.stands(#[trigger] walk.left[i], walk.key)
        &&& self.holds().contains_key(walk.key) ==> walk.moved || exists|i: int|
            0 <= i < walk.left.len() && self.leads_to(#[trigger] walk.left[i], walk.key)
    }

    /// The lookup waiting under this number is on course, and what it waits for is its next candidate.
    pub open spec fn reads_on_course(&self, number: u64) -> bool {
        let walk = self.walks()[number];
        &&& self.on_course(walk)
        &&& walk.left.len() > 0
        &&& self.log().fetches().contains_key(number)
        &&& self.log().fetches()[number] == walk.left[0]
    }

    /// Every lookup that was asked for under this handle and for this key is on course.
    pub open spec fn sure_of(&self, handle: u64, key: TxId) -> bool {
        &&& forall|number: u64| #[trigger]
            self.walks().contains_key(number) && self.walks()[number].handle == handle
                && self.walks()[number].key == key ==> self.reads_on_course(number)
        &&& forall|i: int|
            0 <= i < self.stalls().len() && (#[trigger] self.stalls()[i]).handle == handle
                && self.stalls()[i].key == key ==> self.on_course(self.stalls()[i])
    }

    /// No lookup was begun, carried on or answered, and every record is where it was or has left the
    /// buffer for good.
    pub open spec fn left_alone(&self, before: &Self) -> bool {
        &&& self.walks() == before.walks()
        &&& self.stalls() == before.stalls()
        &&& self.log().fetches() == before.log().fetches()
        &&& stays(self.log(), before.log())
    }

    proof fn lemma_mask(&self)
        requires
            self.wf(),
        ensures
            is_mask(self.index.mask()),
            self.index.words().len() == 4 * (self.index.mask() + 1),
    {
        self.index.lemma_size();
    }
}

/// A lookup on its way is disturbed by no decision about another hold, and by no drain, sweep or
/// snapshot: while its key's hold stays what it is, the lookup stays on course for it.
pub proof fn law_a_lookup_stays_on_course<S: DurableStore>(
    now: PendingEngine<S>,
    was: PendingEngine<S>,
    handle: u64,
    key: TxId,
)
    requires
        now.left_alone(&was),
        was.sure_of(handle, key),
        now.holds().contains_key(key) == was.holds().contains_key(key),
        was.holds().contains_key(key) ==> now.holds()[key] == was.holds()[key],
    ensures
        now.sure_of(handle, key),
{
    assert forall|number: u64| #[trigger]
        now.walks().contains_key(number) && now.walks()[number].handle == handle
            && now.walks()[number].key == key implies now.reads_on_course(number) by {
        assert(was.walks().contains_key(number) && was.reads_on_course(number));
        lemma_on_course(now, was, now.walks()[number]);
    }
    assert forall|i: int|
        0 <= i < now.stalls().len() && (#[trigger] now.stalls()[i]).handle == handle
            && now.stalls()[i].key == key implies now.on_course(now.stalls()[i]) by {
        assert(was.on_course(was.stalls()[i]));
        lemma_on_course(now, was, now.stalls()[i]);
    }
}

/// Lookups left alone twice are left alone.
pub proof fn lemma_left_alone<S: DurableStore>(
    now: PendingEngine<S>,
    between: PendingEngine<S>,
    was: PendingEngine<S>,
)
    requires
        now.left_alone(&between),
        between.left_alone(&was),
    ensures
        now.left_alone(&was),
{
}

proof fn lemma_on_course<S: DurableStore>(
    now: PendingEngine<S>,
    was: PendingEngine<S>,
    walk: Walking,
)
    requires
        stays(now.log(), was.log()),
        was.on_course(walk),
        now.holds().contains_key(walk.key) == was.holds().contains_key(walk.key),
        was.holds().contains_key(walk.key) ==> now.holds()[walk.key] == was.holds()[walk.key],
    ensures
        now.on_course(walk),
{
    let key = walk.key;
    assert forall|i: int| 0 <= i < walk.left.len() implies now.stands(#[trigger] walk.left[i], key) by {
        let addr = walk.left[i];
        assert(was.stands(addr, key));
        if !is_gone(now.log(), addr) {
            assert(!is_gone(was.log(), addr));
            let record = choose|record: Record| #[trigger]
                was.log().holds(addr, record) && (record.0 == key ==> was.holds().contains_key(key)
                    && was.holds()[key] == record.1);
            assert(now.log().holds(addr, record));
        }
    }
    if now.holds().contains_key(key) && !walk.moved {
        let i = choose|i: int|
            0 <= i < walk.left.len() && was.leads_to(#[trigger] walk.left[i], key);
        let addr = walk.left[i];
        if !is_gone(now.log(), addr) {
            assert(was.log().holds(addr, (key, was.holds()[key])));
            assert(now.log().holds(addr, (key, now.holds()[key])));
        }
        assert(now.leads_to(walk.left[i], key));
    }
}

/// The addresses the index gives for a key, in probe order.
pub open spec fn candidates_of(table: HoldTable, key: TxId) -> Seq<RecordAddr> {
    matching(table.words(), table.mask(), key).map_values(|slot: int| address_of(table.words()[slot]))
}

/// A record that was read is this key's.
pub open spec fn is_of(read: Option<Record>, key: TxId) -> bool {
    match read {
        Some((owner, _)) => owner == key,
        None => false,
    }
}

/// A search of a key's candidates: the log before each read and after the last, and what each read gave.
pub ghost struct Search<S: DurableStore> {
    pub logs: Seq<RecordLog<S>>,
    pub records: Seq<Option<Record>>,
}

impl<S: DurableStore> Search<S> {
    /// The candidates were read in probe order, from this log on, until one was the key's or there were no
    /// more.
    pub open spec fn of(self, table: HoldTable, log: RecordLog<S>, key: TxId) -> bool {
        let left = candidates_of(table, key);
        &&& self.logs.len() == self.records.len() + 1
        &&& self.records.len() <= left.len()
        &&& self.logs[0] == log
        &&& forall|i: int, j: int|
            #![trigger self.logs[i], self.logs[j]]
            0 <= i && j == i + 1 && j < self.logs.len() ==> self.logs[i].reads(
                &self.logs[j],
                left[i],
                self.records[i],
            ) && self.logs[j].held() == log.held()
        &&& forall|i: int| 0 <= i < self.records.len() - 1 ==> !is_of(#[trigger] self.records[i], key)
        &&& self.records.len() < left.len() ==> self.records.len() > 0 && is_of(self.records.last(), key)
    }

    /// What the search found: the slot, and the hold its record has.
    pub open spec fn found(self, table: HoldTable, key: TxId) -> Option<(int, HoldData)> {
        if self.records.len() > 0 {
            match self.records.last() {
                Some((owner, hold)) => if owner == key {
                    Some((matching(table.words(), table.mask(), key)[self.records.len() - 1], hold))
                } else {
                    None
                },
                None => None,
            }
        } else {
            None
        }
    }

    /// A read of the search came to nothing.
    pub open spec fn failed(self) -> bool {
        exists|i: int| 0 <= i < self.records.len() && #[trigger] self.records[i] is None
    }

    /// What was read is what the log has at the candidates' addresses.
    pub open spec fn honest(self, table: HoldTable, log: RecordLog<S>, key: TxId) -> bool {
        forall|i: int|
            0 <= i < self.records.len() ==> match #[trigger] self.records[i] {
                Some(record) => {
                    let addr = candidates_of(table, key)[i];
                    log.in_memory(addr) == Some(record) || (log.in_memory(addr) is None && log.at_rest(
                        addr,
                    ) == Some(record))
                },
                None => true,
            }
    }
}

/// A key's candidates were searched, and this is the log they left.
pub open spec fn searched<S: DurableStore>(
    table: HoldTable,
    was: RecordLog<S>,
    after: RecordLog<S>,
    key: TxId,
    search: Search<S>,
) -> bool {
    &&& search.of(table, was, key)
    &&& search.logs.last() == after
    &&& was.sound() && was.disk().truthful() ==> search.honest(table, was, key)
}

/// Every candidate of a key has its record in memory, so that no store is needed to tell them apart.
pub open spec fn recalls<S: DurableStore>(table: HoldTable, log: RecordLog<S>, key: TxId) -> bool {
    forall|i: int|
        0 <= i < candidates_of(table, key).len() ==> log.in_memory(#[trigger] candidates_of(table, key)[i])
            is Some
}

/// A search owes a fault exactly where one of its reads came to nothing.
pub proof fn lemma_search_faults<S: DurableStore>(
    table: HoldTable,
    was: RecordLog<S>,
    after: RecordLog<S>,
    key: TxId,
    search: Search<S>,
)
    requires
        searched(table, was, after, key, search),
    ensures
        after.fault() == (was.fault() || search.failed()),
        after.held() == was.held(),
        recalls(table, was, key) ==> !search.failed() && after.disk() == was.disk() && after.brought()
            == was.brought(),
{
    let left = candidates_of(table, key);
    lemma_search_prefix(table, was, key, search, search.records.len());
    if recalls(table, was, key) {
        assert forall|i: int| 0 <= i < search.records.len() implies #[trigger] search.records[i] is Some by {
            assert(search.logs[i].reads(&search.logs[i + 1], left[i], search.records[i]));
            assert(search.logs[i].held() == was.held()) by {
                if i > 0 {
                    assert(search.logs[i - 1].reads(
                        &search.logs[i],
                        left[i - 1],
                        search.records[i - 1],
                    ));
                }
            }
            assert(was.in_memory(left[i]) is Some);
        }
    }
}

proof fn lemma_search_prefix<S: DurableStore>(
    table: HoldTable,
    was: RecordLog<S>,
    key: TxId,
    search: Search<S>,
    n: nat,
)
    requires
        search.of(table, was, key),
        n <= search.records.len(),
    ensures
        search.logs[n as int].held() == was.held(),
        search.logs[n as int].fault() == (was.fault() || exists|i: int|
            0 <= i < n && #[trigger] search.records[i] is None),
        recalls(table, was, key) ==> search.logs[n as int].disk() == was.disk()
            && search.logs[n as int].brought() == was.brought(),
    decreases n,
{
    if n > 0 {
        let i = n - 1;
        let left = candidates_of(table, key);
        lemma_search_prefix(table, was, key, search, i as nat);
        assert(search.logs[i].reads(&search.logs[n as int], left[i], search.records[i]));
        if recalls(table, was, key) {
            assert(was.in_memory(left[i]) is Some);
        }
        if search.records[i] is None {
            assert(exists|i: int| 0 <= i < n && #[trigger] search.records[i] is None);
        } else if exists|j: int| 0 <= j < n && #[trigger] search.records[j] is None {
            let j = choose|j: int| 0 <= j < n && #[trigger] search.records[j] is None;
            assert(j < i);
        }
        if exists|j: int| 0 <= j < i && #[trigger] search.records[j] is None {
            let j = choose|j: int| 0 <= j < i && #[trigger] search.records[j] is None;
            assert(0 <= j < n && search.records[j] is None);
        }
    }
}

/// Only reads have been done on the log: its counts and what the store has spent may differ, and a fault
/// may have come to be owed.
pub open spec fn only_read<S: DurableStore>(log: RecordLog<S>, before: RecordLog<S>) -> bool {
    &&& log.wf()
    &&& log.keeps(&before)
    &&& before.sound() ==> log.sound()
    &&& log.disk().truthful() == before.disk().truthful()
    &&& before.fault() ==> log.fault()
    &&& log.held() == before.held()
    &&& log.books() == before.books()
    &&& log.days() == before.days()
    &&& log.spec_segment() == before.spec_segment()
    &&& log.fetches() == before.fetches()
    &&& log.sweeps() == before.sweeps()
    &&& log.strangers() == before.strangers()
    &&& log.sealed() == before.sealed()
    &&& log.spec_windows() == before.spec_windows()
    &&& same_work(log.counts(), before.counts())
    &&& forall|h: u64| before.unasked(h) ==> #[trigger] log.unasked(h)
}

impl<S: DurableStore> PendingEngine<S> {
    /// Everything but the log is the same.
    spec fn same_but_log(&self, before: &Self) -> bool {
        &&& self.index == before.index
        &&& self.budgets == before.budgets
        &&& self.fetches == before.fetches
        &&& self.stalled == before.stalled
        &&& self.reads == before.reads
        &&& self.calendar() == before.calendar()
        &&& self.overflowed == before.overflowed
        &&& self.applied_through == before.applied_through
        &&& self.applied == before.applied
        &&& self.at == before.at
        &&& self.held == before.held
        &&& self.decided == before.decided
    }

    proof fn lemma_good_kept(&self, before: &Self)
        requires
            self.index.words() == before.index.words(),
            self.index.mask() == before.index.mask(),
            self.at == before.at,
            self.held == before.held,
            self.records.keeps(&before.records),
        ensures
            before.good() ==> self.good(),
    {
        reveal(PendingEngine::good);
        if before.good() {
            assert forall|k: TxId| #[trigger] self.at@.contains_key(k) implies self.records.holds(
                self.at@[k],
                (k, self.held@[k]),
            ) by {
                assert(before.records.holds(before.at@[k], (k, before.held@[k])));
            }
        }
    }

    /// At most one key has a new place, and that in the buffer.
    spec fn replaced(&self, before: &Self, key: TxId) -> bool {
        forall|k: TxId| #[trigger]
            self.at@.contains_key(k) && !(k == key && self.at@[k].is_buffered()) ==> before.at@.contains_key(k)
                && self.at@[k] == before.at@[k]
    }

    /// The same places under a log that keeps every record with what it was kept with.
    proof fn lemma_dated_same(&self, before: &Self)
        requires
            self.at == before.at,
            self.decided == before.decided,
            self.records.held() == before.records.held(),
            self.records.books() == before.records.books(),
        ensures
            before.dated() ==> self.dated(),
    {
        reveal(PendingEngine::dated);
    }

    /// Holds that have kept their places stay dated, and one that has a new place in the buffer is dated by
    /// its decision.
    proof fn lemma_dated(&self, before: &Self, key: TxId)
        requires
            before.wf(),
            self.wf(),
            before.good(),
            self.good(),
            before.dated(),
            self.replaced(before, key),
            self.records.stamps_stay(&before.records),
            self.decided@ == before.decided@.insert(key, self.applied_through),
            self.in_order(),
        ensures
            self.dated(),
    {
        assert forall|k: TxId| #[trigger]
            self.at@.contains_key(k) && !self.records.spec_is_durable(
                self.at@[k],
            ) implies self.decided@.contains_key(k) && self.records.stamp(self.at@[k]).0
            <= self.decided@[k].0 by {
            let addr = self.at@[k];
            self.lemma_at(k);
            if k == key {
                self.records.lemma_stamp_by(addr, (k, self.held@[k]), self.applied_through);
            } else {
                before.lemma_at(k);
                self.records.lemma_stamp_stays(
                    &before.records,
                    addr,
                    (k, before.held@[k]),
                    (k, self.held@[k]),
                );
                assert(before.decided@.contains_key(k) && before.records.stamp(addr).0
                    <= before.decided@[k].0) by {
                    reveal(PendingEngine::dated);
                }
            }
        }
        reveal(PendingEngine::dated);
    }

    /// Holds that have kept their places stay dated.
    proof fn lemma_dated_still(&self, before: &Self)
        requires
            before.wf(),
            self.wf(),
            before.good(),
            self.good(),
            before.dated(),
            self.at == before.at,
            self.decided == before.decided,
            self.records.stamps_stay(&before.records),
        ensures
            self.dated(),
    {
        assert forall|k: TxId| #[trigger]
            self.at@.contains_key(k) && !self.records.spec_is_durable(
                self.at@[k],
            ) implies self.decided@.contains_key(k) && self.records.stamp(self.at@[k]).0
            <= self.decided@[k].0 by {
            let addr = self.at@[k];
            self.lemma_at(k);
            before.lemma_at(k);
            self.records.lemma_stamp_stays(
                &before.records,
                addr,
                (k, before.held@[k]),
                (k, self.held@[k]),
            );
            assert(before.decided@.contains_key(k) && before.records.stamp(addr).0
                <= before.decided@[k].0) by {
                reveal(PendingEngine::dated);
            }
        }
        reveal(PendingEngine::dated);
    }

    /// A hold's record is at its place.
    proof fn lemma_at(&self, key: TxId)
        requires
            self.good(),
            self.at@.contains_key(key),
        ensures
            self.records.holds(self.at@[key], (key, self.held@[key])),
    {
        reveal(PendingEngine::good);
    }

    /// What stays in the log keeps the outstanding voids grounded.
    proof fn lemma_grounded(&self, before: &Self)
        requires
            self.outstanding@ == before.outstanding@,
            forall|a: RecordAddr, r: Record|
                !a.is_buffered() && before.records.holds(a, r) ==> #[trigger] self.records.holds(a, r),
        ensures
            before.grounded() ==> self.grounded(),
    {
        reveal(PendingEngine::grounded);
        if before.grounded() {
            assert forall|i: int| 0 <= i < self.outstanding@.len() implies is_void_of(
                self.records,
                (#[trigger] self.outstanding@[i]).0,
                self.outstanding@[i].1,
            ) by {
                let (addr, void) = self.outstanding@[i];
                assert(is_void_of(before.records, addr, void));
                let hold = choose|hold: HoldData| #[trigger]
                    before.records.holds(addr, (void.pending_ref, hold)) && void
                        == Transfer::expiry_void(void.pending_ref, hold);
                assert(self.records.holds(addr, (void.pending_ref, hold)));
            }
        }
    }

    /// The record at a slot's address is that of the key the slot is for.
    proof fn lemma_slot_record(&self, at: int) -> (k: TxId)
        requires
            self.wf(),
            self.good(),
            0 <= at < self.index.words().len(),
            self.index.words()[at] != EMPTY,
        ensures
            self.at@.contains_key(k),
            self.held@.contains_key(k),
            self.at@[k] == address_of(self.index.words()[at]),
            self.records.holds(self.at@[k], (k, self.held@[k])),
    {
        reveal(PendingEngine::good);
        let words = self.index.words();
        let mask = self.index.mask();
        let words_of = choose|words_of: Map<TxId, u64>| #[trigger]
            named(words_of, mask) && whole(words, mask, words_of) && self.at@ == addresses(words_of);
        let k = lemma_clear(words, mask, words_of, at);
        assert(self.at@.contains_key(k));
        assert(self.held@.dom().contains(k));
        k
    }

    /// Reads the records of a key's candidates, in probe order, until one is the key's: the slot and the
    /// hold. Unlike the index alone this cannot mistake another key for this one.
    #[verifier::rlimit(60)]
    #[verifier::spinoff_prover]
    fn sure_slot(&mut self, key: TxId) -> (found: Option<(usize, HoldData)>)
        requires
            old(self).wf(),
        ensures
            final(self).wf(),
            final(self).same_but_log(old(self)),
            only_read(final(self).log(), old(self).log()),
            old(self).good() ==> final(self).good(),
            exists|search: Search<S>| #[trigger]
                searched(old(self).table(), old(self).log(), final(self).log(), key, search)
                    && search.found(old(self).table(), key) == seen(found),
            found matches Some((slot, _)) ==> within_reach(
                old(self).table().words(),
                old(self).table().mask(),
                key,
                slot as int,
            ),
            old(self).healthy() && !final(self).log().fault() ==> match found {
                Some((slot, hold)) => {
                    &&& old(self).holds().contains_key(key)
                    &&& old(self).places().contains_key(key)
                    &&& old(self).holds()[key] == hold
                    &&& is_own(
                        old(self).table().words(),
                        old(self).table().mask(),
                        old(self).places(),
                        key,
                        slot as int,
                    )
                },
                None => !old(self).holds().contains_key(key),
            },
    {
        proof {
            self.lemma_mask();
        }
        let candidates = self.index.candidates(key);
        let ghost words = self.index.words();
        let ghost mask = self.index.mask();
        let ghost places = matching(words, mask, key);
        let ghost left = candidates_of(self.index, key);
        let ghost mut search: Search<S> = Search { logs: seq![self.records], records: Seq::empty() };
        let mut n: usize = 0;
        while n < candidates.len()
            invariant
                left == candidates_of(old(self).index, key),
                left.len() == candidates.len,
                search.records.len() == n,
                search.logs.len() == n + 1,
                search.logs[0] == old(self).records,
                search.logs.last() == self.records,
                forall|i: int, j: int|
                    #![trigger search.logs[i], search.logs[j]]
                    0 <= i && j == i + 1 && j < search.logs.len() ==> search.logs[i].reads(
                        &search.logs[j],
                        left[i],
                        search.records[i],
                    ) && search.logs[j].held() == old(self).records.held(),
                forall|i: int| 0 <= i < search.records.len() ==> !is_of(#[trigger] search.records[i], key),
                old(self).records.sound() && old(self).records.disk().truthful() ==> search.honest(
                    old(self).index,
                    old(self).records,
                    key,
                ),
                n <= candidates.len,
                candidates.wf(),
                candidates.places() == places,
                places == matching(words, mask, key),
                words == old(self).index.words() && mask == old(self).index.mask(),
                is_mask(mask),
                words.len() == 4 * (mask + 1),
                forall|i: int|
                    0 <= i < candidates.len ==> #[trigger] candidates.addrs@[i] == address_of(
                        words[candidates.places()[i]],
                    ),
                self.wf(),
                self.same_but_log(old(self)),
                only_read(self.records, old(self).records),
                old(self).good() ==> self.good(),
                old(self).healthy() && !self.records.fault() ==> forall|j: int|
                    0 <= j < n ==> !(old(self).at@.contains_key(key) && address_of(
                        words[#[trigger] places[j]],
                    ) == old(self).at@[key]),
            decreases candidates.len - n,
        {
            let addr = candidates.address(n);
            let ghost slot = places[n as int];
            let ghost was = *self;
            proof {
                assert(places.contains(slot));
                lemma_matching(words, mask, key, slot);
                lemma_word(words[slot]);
                assert(addr == address_of(words[slot]));
            }
            let read = self.records.read(addr);
            let ghost begun = search;
            proof {
                assert(addr == left[n as int]);
                search = Search {
                    logs: begun.logs.push(self.records),
                    records: begun.records.push(read),
                };
                assert forall|i: int, j: int|
                    #![trigger search.logs[i], search.logs[j]]
                    0 <= i && j == i + 1 && j < search.logs.len() implies search.logs[i].reads(
                    &search.logs[j],
                    left[i],
                    search.records[i],
                ) && search.logs[j].held() == old(self).records.held() by {
                    assert(search.logs[i] == begun.logs[i]);
                    if j < begun.logs.len() {
                        assert(search.logs[j] == begun.logs[j]);
                        assert(search.records[i] == begun.records[i]);
                    }
                }
                assert(old(self).records.sound() && old(self).records.disk().truthful()
                    ==> search.honest(old(self).index, old(self).records, key)) by {
                    if old(self).records.sound() && old(self).records.disk().truthful() {
                        assert forall|i: int| 0 <= i < search.records.len() implies match #[trigger] search.records[i] {
                            Some(record) => {
                                let at = left[i];
                                old(self).records.in_memory(at) == Some(record) || (
                                old(self).records.in_memory(at) is None && old(self).records.at_rest(at)
                                    == Some(record))
                            },
                            None => true,
                        } by {
                            if i < n {
                                assert(search.records[i] == begun.records[i]);
                            }
                        }
                    }
                }
                self.lemma_good_kept(&was);
                if old(self).healthy() && !self.records.fault() {
                    let k = was.lemma_slot_record(slot);
                    was.records.lemma_holds(addr, (k, was.held@[k]));
                    assert(read == Some((k, was.held@[k])));
                    reveal(PendingEngine::good);
                }
            }
            match read {
                Some((owner, hold)) => {
                    if owner == key {
                        proof {
                            assert(search.records.last() == read);
                            assert forall|i: int|
                                0 <= i < search.records.len() - 1 implies !is_of(
                                #[trigger] search.records[i],
                                key,
                            ) by {
                                assert(search.records[i] == begun.records[i]);
                            }
                            assert(searched(
                                old(self).table(),
                                old(self).log(),
                                self.log(),
                                key,
                                search,
                            ));
                        }
                        return Some((candidates.slot(n), hold));
                    }
                },
                None => {},
            }
            proof {
                assert forall|i: int| 0 <= i < search.records.len() implies !is_of(
                    #[trigger] search.records[i],
                    key,
                ) by {
                    if i < n {
                        assert(search.records[i] == begun.records[i]);
                    }
                }
            }
            n += 1;
        }
        proof {
            assert(searched(old(self).table(), old(self).log(), self.log(), key, search));
            if old(self).healthy() && !self.records.fault() && old(self).holds().contains_key(key) {
                reveal(PendingEngine::good);
                assert(old(self).at@.dom().contains(key));
                law_every_key_is_found(words, mask, old(self).at@, key);
            }
        }
        None
    }

    /// Which slot is this key's, as the index alone says where it can, and as the records say where a
    /// fingerprint is shared.
    fn quick_slot(&mut self, key: TxId) -> (found: Option<usize>)
        requires
            old(self).wf(),
        ensures
            final(self).wf(),
            final(self).same_but_log(old(self)),
            only_read(final(self).log(), old(self).log()),
            old(self).good() ==> final(self).good(),
            found matches Some(slot) ==> within_reach(
                old(self).table().words(),
                old(self).table().mask(),
                key,
                slot as int,
            ),
            finds(
                old(self).table(),
                old(self).log(),
                final(self).log(),
                key,
                Arrival::First,
                place_of(found),
            ),
            old(self).healthy() && !final(self).log().fault() && (old(self).holds().contains_key(key)
                || old(self).unsettled(key)) ==> match found {
                Some(slot) => {
                    &&& old(self).holds().contains_key(key)
                    &&& old(self).places().contains_key(key)
                    &&& is_own(
                        old(self).table().words(),
                        old(self).table().mask(),
                        old(self).places(),
                        key,
                        slot as int,
                    )
                },
                None => !old(self).holds().contains_key(key),
            },
    {
        proof {
            self.lemma_mask();
            self.lemma_good_kept(self);
        }
        let ghost words = self.index.words();
        let ghost mask = self.index.mask();
        match self.index.find(key) {
            Found::Absent => {
                proof {
                    if self.healthy() && self.holds().contains_key(key) {
                        reveal(PendingEngine::good);
                        assert(self.at@.dom().contains(key));
                        law_every_key_is_found(words, mask, self.at@, key);
                    }
                }
                None
            },
            Found::At(slot) => {
                proof {
                    let found = matching(words, mask, key);
                    assert(found.contains(found[0]));
                    lemma_matching(words, mask, key, slot as int);
                    if self.good() && self.holds().contains_key(key) {
                        reveal(PendingEngine::good);
                        assert(self.at@.dom().contains(key));
                    }
                }
                Some(slot)
            },
            Found::Ambiguous(_) => {
                assert(!by_index(self.index, key));
                match self.sure_slot(key) {
                    Some((slot, _)) => Some(slot),
                    None => None,
                }
            },
        }
    }
}

/// Which slot is a key's was settled: by the index alone where a decision arrives for the first time and the
/// index can, and by a search of the records otherwise.
pub open spec fn finds<S: DurableStore>(
    table: HoldTable,
    was: RecordLog<S>,
    after: RecordLog<S>,
    key: TxId,
    arrival: Arrival,
    slot: Option<int>,
) -> bool {
    if arrival == Arrival::First && by_index(table, key) {
        after == was && slot == known_slot(table.words(), table.mask(), key)
    } else {
        exists|search: Search<S>| #[trigger]
            searched(table, was, after, key, search) && slot == slot_in(search.found(table, key))
    }
}

/// The index alone says which slot is a key's, or that none is.
pub open spec fn by_index(table: HoldTable, key: TxId) -> bool {
    known_slot(table.words(), table.mask(), key) is Some || matching(
        table.words(),
        table.mask(),
        key,
    ).len() == 0
}

/// The slot of what a search found.
pub open spec fn slot_in(found: Option<(int, HoldData)>) -> Option<int> {
    match found {
        Some((slot, _)) => Some(slot),
        None => None,
    }
}

/// A record was appended to the log, at the next place of its buffer.
pub open spec fn appends<S: DurableStore>(
    log: RecordLog<S>,
    after: RecordLog<S>,
    key: TxId,
    hold: HoldData,
) -> bool {
    &&& after.disk() == log.disk()
    &&& after.brought() == log.brought()
    &&& after.fault() == log.fault()
    &&& after.held().buffer@.len() <= log.held().buffer@.len() + 1
    &&& after.in_memory(log.held().next_append()) == Some((key, hold))
    &&& forall|addr: RecordAddr| #[trigger]
        log.in_memory(addr) is Some ==> after.in_memory(addr) == log.in_memory(addr)
    &&& after.counts() == LogTraffic { appended: plus(log.counts().appended, 1), ..log.counts() }
}

/// A slot was pointed at the next place of this log's buffer.
pub open spec fn repoints<S: DurableStore>(
    was: PendingEngine<S>,
    after: PendingEngine<S>,
    slot: int,
    key: TxId,
    hold: HoldData,
    addr: RecordAddr,
) -> bool {
    &&& after.table().words() == was.table().words().update(
        slot,
        repointed(was.table().words()[slot], addr),
    )
    &&& after.holds() == was.holds().insert(key, hold)
    &&& after.places() == was.places().insert(key, addr)
    &&& after.spec_overflowed() == was.spec_overflowed()
}

/// A key was given a slot, if the table could make room for it.
pub open spec fn seats<S: DurableStore>(
    was: PendingEngine<S>,
    after: PendingEngine<S>,
    key: TxId,
    hold: HoldData,
    addr: RecordAddr,
    stored: bool,
) -> bool {
    &&& stored == (was.table().moves_for(key) is Some)
    &&& stored ==> forall|m: Map<TxId, RecordAddr>| #[trigger]
        was.table().represents(m) && !m.contains_key(key) ==> after.table().represents(
            m.insert(key, addr),
        )
    &&& !stored ==> only_marked(was.table().words(), after.table().words())
    &&& after.holds() == if stored {
        was.holds().insert(key, hold)
    } else {
        was.holds()
    }
    &&& after.places() == if stored {
        was.places().insert(key, addr)
    } else {
        was.places()
    }
    &&& after.spec_overflowed() == if stored {
        was.spec_overflowed()
    } else {
        plus(was.spec_overflowed(), 1)
    }
}

/// Nothing of the index or the holds has moved.
pub open spec fn stays_put<S: DurableStore>(was: PendingEngine<S>, after: PendingEngine<S>) -> bool {
    &&& after.table() == was.table()
    &&& after.holds() == was.holds()
    &&& after.places() == was.places()
    &&& after.spec_overflowed() == was.spec_overflowed()
}

/// What a creation does: its record is appended, and gets a slot, or the slot its key has already when the
/// decision arrives again.
pub open spec fn does_create<S: DurableStore>(
    was: PendingEngine<S>,
    after: PendingEngine<S>,
    key: TxId,
    hold: HoldData,
    arrival: Arrival,
    stored: bool,
) -> bool {
    match arrival {
        Arrival::First => {
            &&& appends(was.log(), after.log(), key, hold)
            &&& seats(was, after, key, hold, was.log().held().next_append(), stored)
        },
        Arrival::Again(_) => exists|looked: RecordLog<S>, search: Search<S>| #[trigger]
            searched(was.table(), was.log(), looked, key, search) && appends(
                looked,
                after.log(),
                key,
                hold,
            ) && match search.found(was.table(), key) {
                Some((slot, _)) => stored && repoints(
                    was,
                    after,
                    slot,
                    key,
                    hold,
                    looked.held().next_append(),
                ),
                None => seats(was, after, key, hold, looked.held().next_append(), stored),
            },
    }
}

/// The original size of a hold that is resolved in part: what the decision brought, or else what the old
/// version has, which a search brings.
pub open spec fn sizes<S: DurableStore>(
    table: HoldTable,
    was: RecordLog<S>,
    after: RecordLog<S>,
    key: TxId,
    amount: Amount,
    size: Option<Amount>,
) -> bool {
    if amount > 0 {
        after == was && size == Some(amount)
    } else {
        exists|search: Search<S>| #[trigger]
            searched(table, was, after, key, search) && size == match search.found(table, key) {
                Some((_, hold)) => Some(hold.amount),
                None => None,
            }
    }
}

/// What a partial resolution does once the hold's size is known: a version is appended, and the key's slot
/// pointed at it. A decision that arrives again and brought everything the record needs gives a key that has
/// no slot one.
pub open spec fn rewrites<S: DurableStore>(
    was: PendingEngine<S>,
    sized: RecordLog<S>,
    after: PendingEngine<S>,
    key: TxId,
    hold: HoldData,
    whole: bool,
    arrival: Arrival,
    stored: bool,
) -> bool {
    let addr = sized.held().next_append();
    exists|appended: RecordLog<S>, slot: Option<int>| #[trigger]
        finds(was.table(), appended, after.log(), key, arrival, slot) && appends(
            sized,
            appended,
            key,
            hold,
        ) && match slot {
            Some(slot) => stored && repoints(was, after, slot, key, hold, addr),
            None => if whole && arrival != Arrival::First {
                seats(was, after, key, hold, addr, stored)
            } else {
                stored && stays_put(was, after)
            },
        }
}

/// What a partial resolution does.
pub open spec fn does_reduce<S: DurableStore>(
    was: PendingEngine<S>,
    after: PendingEngine<S>,
    key: TxId,
    reduced: HoldData,
    arrival: Arrival,
    stored: bool,
) -> bool {
    exists|sized: RecordLog<S>, size: Option<Amount>| #[trigger]
        sizes(was.table(), was.log(), sized, key, reduced.amount, size) && match size {
            Some(amount) => rewrites(
                was,
                sized,
                after,
                key,
                HoldData { amount, ..reduced },
                reduced.amount > 0,
                arrival,
                stored,
            ),
            None => stored && after.log() == sized && stays_put(was, after),
        }
}

/// What a full resolution does: the key's slot is cleared, and its share taken out of its group unless the
/// totals reflect that already.
pub open spec fn does_remove<S: DurableStore>(
    was: PendingEngine<S>,
    after: PendingEngine<S>,
    key: TxId,
    budget: BudgetGroup,
    released: Amount,
    at: ApplyIndex,
    arrival: Arrival,
) -> bool {
    exists|slot: Option<int>| #[trigger]
        finds(was.table(), was.log(), after.log(), key, arrival, slot) && match slot {
            Some(slot) => {
                &&& after.table().words() == was.table().words().update(slot, EMPTY)
                &&& after.holds() == was.holds().remove(key)
                &&& after.places() == was.places().remove(key)
                &&& after.groups() == if uncounts_at(arrival, at) {
                    without_member(was.groups(), budget, released)
                } else {
                    was.groups()
                }
                &&& after.spec_overflowed() == was.spec_overflowed()
            },
            None => stays_put(was, after) && after.groups() == was.groups(),
        }
}

/// What a decision does.
#[verifier::opaque]
pub open spec fn does<S: DurableStore>(
    was: PendingEngine<S>,
    after: PendingEngine<S>,
    effect: PendingEffect,
    at: ApplyIndex,
    arrival: Arrival,
    stored: bool,
) -> bool {
    match effect {
        PendingEffect::Create { tx_id, .. } => does_create(
            was,
            after,
            tx_id,
            created(effect),
            arrival,
            stored,
        ),
        PendingEffect::Reduce { pending_ref, .. } => does_reduce(
            was,
            after,
            pending_ref,
            created(effect),
            arrival,
            stored,
        ) && after.groups() == was.groups(),
        PendingEffect::Remove { pending_ref, budget, released } => stored && does_remove(
            was,
            after,
            pending_ref,
            budget,
            released,
            at,
            arrival,
        ),
    }
}

/// A decision that can give a key a slot when it arrives again: a creation, and a partial resolution that
/// brought the hold's size.
pub open spec fn may_seat(effect: PendingEffect) -> bool {
    match effect {
        PendingEffect::Create { .. } => true,
        PendingEffect::Reduce { amount, .. } => amount > 0,
        PendingEffect::Remove { .. } => false,
    }
}

/// What a creation does depends on the index, the log and the holds alone, and counting its member moves
/// none of them.
proof fn lemma_does_create<S: DurableStore>(
    begun: PendingEngine<S>,
    was: PendingEngine<S>,
    placed: PendingEngine<S>,
    after: PendingEngine<S>,
    key: TxId,
    hold: HoldData,
    arrival: Arrival,
    stored: bool,
)
    requires
        does_create(begun, placed, key, hold, arrival, stored),
        begun.table() == was.table(),
        begun.log() == was.log(),
        begun.holds() == was.holds(),
        begun.places() == was.places(),
        begun.spec_overflowed() == was.spec_overflowed(),
        placed.table() == after.table(),
        placed.log() == after.log(),
        placed.holds() == after.holds(),
        placed.places() == after.places(),
        placed.spec_overflowed() == after.spec_overflowed(),
    ensures
        does_create(was, after, key, hold, arrival, stored),
{
    if arrival != Arrival::First {
        let (looked, search) = choose|looked: RecordLog<S>, search: Search<S>| #[trigger]
            searched(begun.table(), begun.log(), looked, key, search) && appends(
                looked,
                placed.log(),
                key,
                hold,
            ) && match search.found(begun.table(), key) {
                Some((slot, _)) => stored && repoints(
                    begun,
                    placed,
                    slot,
                    key,
                    hold,
                    looked.held().next_append(),
                ),
                None => seats(begun, placed, key, hold, looked.held().next_append(), stored),
            };
        assert(searched(was.table(), was.log(), looked, key, search));
    }
}

proof fn lemma_does_reduce<S: DurableStore>(
    begun: PendingEngine<S>,
    was: PendingEngine<S>,
    after: PendingEngine<S>,
    key: TxId,
    hold: HoldData,
    arrival: Arrival,
    stored: bool,
)
    requires
        does_reduce(begun, after, key, hold, arrival, stored),
        begun.table() == was.table(),
        begun.log() == was.log(),
        begun.holds() == was.holds(),
        begun.places() == was.places(),
        begun.spec_overflowed() == was.spec_overflowed(),
    ensures
        does_reduce(was, after, key, hold, arrival, stored),
{
    let (sized, size) = choose|sized: RecordLog<S>, size: Option<Amount>| #[trigger]
        sizes(begun.table(), begun.log(), sized, key, hold.amount, size) && match size {
            Some(amount) => rewrites(
                begun,
                sized,
                after,
                key,
                HoldData { amount, ..hold },
                hold.amount > 0,
                arrival,
                stored,
            ),
            None => stored && after.log() == sized && stays_put(begun, after),
        };
    assert(sizes(was.table(), was.log(), sized, key, hold.amount, size));
    match size {
        Some(amount) => {
            let whole = HoldData { amount, ..hold };
            let addr = sized.held().next_append();
            let (appended, slot) = choose|appended: RecordLog<S>, slot: Option<int>| #[trigger]
                finds(begun.table(), appended, after.log(), key, arrival, slot) && appends(
                    sized,
                    appended,
                    key,
                    whole,
                ) && match slot {
                    Some(slot) => stored && repoints(begun, after, slot, key, whole, addr),
                    None => if hold.amount > 0 && arrival != Arrival::First {
                        seats(begun, after, key, whole, addr, stored)
                    } else {
                        stored && stays_put(begun, after)
                    },
                };
            assert(finds(was.table(), appended, after.log(), key, arrival, slot));
            assert(rewrites(was, sized, after, key, whole, hold.amount > 0, arrival, stored));
        },
        None => {},
    }
}

/// Settling which slot is a key's owes no fault and asks the store nothing where the index can tell, or
/// where every candidate is in memory.
proof fn lemma_finding_faults<S: DurableStore>(
    table: HoldTable,
    was: RecordLog<S>,
    after: RecordLog<S>,
    key: TxId,
    arrival: Arrival,
    slot: Option<int>,
)
    requires
        finds(table, was, after, key, arrival, slot),
        (arrival == Arrival::First && by_index(table, key)) || recalls(table, was, key),
    ensures
        after.disk() == was.disk(),
        after.fault() == was.fault(),
{
    if !(arrival == Arrival::First && by_index(table, key)) {
        let search = choose|search: Search<S>| #[trigger]
            searched(table, was, after, key, search) && slot == slot_in(search.found(table, key));
        lemma_search_faults(table, was, after, key, search);
    }
}

/// Settling which slot is a key's leaves the blocks in memory as they are.
proof fn lemma_finding_keeps<S: DurableStore>(
    table: HoldTable,
    was: RecordLog<S>,
    after: RecordLog<S>,
    key: TxId,
    arrival: Arrival,
    slot: Option<int>,
)
    requires
        finds(table, was, after, key, arrival, slot),
    ensures
        after.held() == was.held(),
{
    if !(arrival == Arrival::First && by_index(table, key)) {
        let search = choose|search: Search<S>| #[trigger]
            searched(table, was, after, key, search) && slot == slot_in(search.found(table, key));
        lemma_search_faults(table, was, after, key, search);
    }
}

/// A decision adds no more than one block to the buffer.
proof fn lemma_decision_room<S: DurableStore>(
    was: PendingEngine<S>,
    after: PendingEngine<S>,
    effect: PendingEffect,
    at: ApplyIndex,
    arrival: Arrival,
    stored: bool,
)
    requires
        does(was, after, effect, at, arrival, stored),
    ensures
        after.log().held().buffer@.len() <= was.log().held().buffer@.len() + 1,
{
    reveal(does);
    let table = was.table();
    let key = subject(effect);
    match effect {
        PendingEffect::Create { tx_id, .. } => {
            if arrival != Arrival::First {
                let (looked, search) = choose|looked: RecordLog<S>, search: Search<S>| #[trigger]
                    searched(table, was.log(), looked, key, search) && appends(
                        looked,
                        after.log(),
                        key,
                        created(effect),
                    ) && match search.found(table, key) {
                        Some((slot, _)) => stored && repoints(
                            was,
                            after,
                            slot,
                            key,
                            created(effect),
                            looked.held().next_append(),
                        ),
                        None => seats(
                            was,
                            after,
                            key,
                            created(effect),
                            looked.held().next_append(),
                            stored,
                        ),
                    };
                lemma_search_faults(table, was.log(), looked, key, search);
            }
        },
        PendingEffect::Reduce { pending_ref, .. } => {
            let hold = created(effect);
            let (sized, size) = choose|sized: RecordLog<S>, size: Option<Amount>| #[trigger]
                sizes(table, was.log(), sized, key, hold.amount, size) && match size {
                    Some(amount) => rewrites(
                        was,
                        sized,
                        after,
                        key,
                        HoldData { amount, ..hold },
                        hold.amount > 0,
                        arrival,
                        stored,
                    ),
                    None => stored && after.log() == sized && stays_put(was, after),
                };
            if hold.amount <= 0 {
                let search = choose|search: Search<S>| #[trigger]
                    searched(table, was.log(), sized, key, search) && size == match search.found(
                        table,
                        key,
                    ) {
                        Some((_, hold)) => Some(hold.amount),
                        None => None,
                    };
                lemma_search_faults(table, was.log(), sized, key, search);
            }
            match size {
                Some(amount) => {
                    let whole = HoldData { amount, ..hold };
                    let addr = sized.held().next_append();
                    let (appended, slot) = choose|appended: RecordLog<S>, slot: Option<int>| #[trigger]
                        finds(table, appended, after.log(), key, arrival, slot) && appends(
                            sized,
                            appended,
                            key,
                            whole,
                        ) && match slot {
                            Some(slot) => stored && repoints(was, after, slot, key, whole, addr),
                            None => if hold.amount > 0 && arrival != Arrival::First {
                                seats(was, after, key, whole, addr, stored)
                            } else {
                                stored && stays_put(was, after)
                            },
                        };
                    lemma_finding_keeps(table, appended, after.log(), key, arrival, slot);
                },
                None => {},
            }
        },
        PendingEffect::Remove { pending_ref, budget, released } => {
            let slot = choose|slot: Option<int>| #[trigger]
                finds(table, was.log(), after.log(), key, arrival, slot) && match slot {
                    Some(slot) => {
                        &&& after.table().words() == was.table().words().update(slot, EMPTY)
                        &&& after.holds() == was.holds().remove(key)
                        &&& after.places() == was.places().remove(key)
                        &&& after.groups() == if uncounts_at(arrival, at) {
                            without_member(was.groups(), budget, released)
                        } else {
                            was.groups()
                        }
                        &&& after.spec_overflowed() == was.spec_overflowed()
                    },
                    None => stays_put(was, after) && after.groups() == was.groups(),
                };
            lemma_finding_keeps(table, was.log(), after.log(), key, arrival, slot);
        },
    }
}

/// A decision owes no fault and asks the store nothing where no record has to be read, or where every
/// candidate of its key is in memory.
proof fn lemma_decision_faults<S: DurableStore>(
    was: PendingEngine<S>,
    after: PendingEngine<S>,
    effect: PendingEffect,
    at: ApplyIndex,
    arrival: Arrival,
    stored: bool,
)
    requires
        does(was, after, effect, at, arrival, stored),
    ensures
        (arrival == Arrival::First && was.needs_no_record(effect)) || recalls(
            was.table(),
            was.log(),
            subject(effect),
        ) ==> after.log().disk() == was.log().disk() && after.log().fault() == was.log().fault(),
{
    reveal(does);
    let table = was.table();
    let key = subject(effect);
    if (arrival == Arrival::First && was.needs_no_record(effect)) || recalls(table, was.log(), key) {
        match effect {
            PendingEffect::Create { tx_id, .. } => {
                if arrival != Arrival::First {
                    let (looked, search) = choose|looked: RecordLog<S>, search: Search<S>| #[trigger]
                        searched(table, was.log(), looked, key, search) && appends(
                            looked,
                            after.log(),
                            key,
                            created(effect),
                        ) && match search.found(table, key) {
                            Some((slot, _)) => stored && repoints(
                                was,
                                after,
                                slot,
                                key,
                                created(effect),
                                looked.held().next_append(),
                            ),
                            None => seats(
                                was,
                                after,
                                key,
                                created(effect),
                                looked.held().next_append(),
                                stored,
                            ),
                        };
                    lemma_search_faults(table, was.log(), looked, key, search);
                }
            },
            PendingEffect::Reduce { pending_ref, .. } => {
                let hold = created(effect);
                let (sized, size) = choose|sized: RecordLog<S>, size: Option<Amount>| #[trigger]
                    sizes(table, was.log(), sized, key, hold.amount, size) && match size {
                        Some(amount) => rewrites(
                            was,
                            sized,
                            after,
                            key,
                            HoldData { amount, ..hold },
                            hold.amount > 0,
                            arrival,
                            stored,
                        ),
                        None => stored && after.log() == sized && stays_put(was, after),
                    };
                if hold.amount <= 0 {
                    let search = choose|search: Search<S>| #[trigger]
                        searched(table, was.log(), sized, key, search) && size == match search.found(
                            table,
                            key,
                        ) {
                            Some((_, hold)) => Some(hold.amount),
                            None => None,
                        };
                    lemma_search_faults(table, was.log(), sized, key, search);
                }
                assert(sized.disk() == was.log().disk() && sized.fault() == was.log().fault()
                    && sized.held() == was.log().held());
                match size {
                    Some(amount) => {
                        let whole = HoldData { amount, ..hold };
                        let addr = sized.held().next_append();
                        let (appended, slot) = choose|appended: RecordLog<S>, slot: Option<int>| #[trigger]
                            finds(table, appended, after.log(), key, arrival, slot) && appends(
                                sized,
                                appended,
                                key,
                                whole,
                            ) && match slot {
                                Some(slot) => stored && repoints(was, after, slot, key, whole, addr),
                                None => if hold.amount > 0 && arrival != Arrival::First {
                                    seats(was, after, key, whole, addr, stored)
                                } else {
                                    stored && stays_put(was, after)
                                },
                            };
                        if recalls(table, was.log(), key) {
                            assert(recalls(table, appended, key)) by {
                                let left = candidates_of(table, key);
                                assert forall|i: int| 0 <= i < left.len() implies appended.in_memory(
                                    #[trigger] left[i],
                                ) is Some by {
                                    assert(was.log().in_memory(left[i]) is Some);
                                    assert(sized.in_memory(left[i]) is Some);
                                }
                            }
                        }
                        lemma_finding_faults(table, appended, after.log(), key, arrival, slot);
                    },
                    None => {},
                }
            },
            PendingEffect::Remove { pending_ref, budget, released } => {
                let slot = choose|slot: Option<int>| #[trigger]
                    finds(table, was.log(), after.log(), key, arrival, slot) && match slot {
                        Some(slot) => {
                            &&& after.table().words() == was.table().words().update(slot, EMPTY)
                            &&& after.holds() == was.holds().remove(key)
                            &&& after.places() == was.places().remove(key)
                            &&& after.groups() == if uncounts_at(arrival, at) {
                                without_member(was.groups(), budget, released)
                            } else {
                                was.groups()
                            }
                            &&& after.spec_overflowed() == was.spec_overflowed()
                        },
                        None => stays_put(was, after) && after.groups() == was.groups(),
                    };
                lemma_finding_faults(table, was.log(), after.log(), key, arrival, slot);
            },
        }
    }
}

/// A slot, as a caller sees it.
pub open spec fn place_of(found: Option<usize>) -> Option<int> {
    match found {
        Some(slot) => Some(slot as int),
        None => None,
    }
}

/// A slot and its hold, as a caller sees them.
pub open spec fn seen(found: Option<(usize, HoldData)>) -> Option<(int, HoldData)> {
    match found {
        Some((slot, hold)) => Some((slot as int, hold)),
        None => None,
    }
}

/// The hold a decision creates.
pub open spec fn created(effect: PendingEffect) -> HoldData {
    match effect {
        PendingEffect::Create { tx_id, debit_account, credit_account, amount, ledger, budget } => HoldData {
            debit_account,
            credit_account,
            amount,
            remaining: amount,
            ledger,
            budget,
            budget_members: 0,
            budget_remaining: 0,
        },
        PendingEffect::Reduce {
            pending_ref,
            debit_account,
            credit_account,
            amount,
            remaining,
            ledger,
            budget,
        } => HoldData {
            debit_account,
            credit_account,
            amount,
            remaining,
            ledger,
            budget,
            budget_members: 0,
            budget_remaining: 0,
        },
        PendingEffect::Remove { pending_ref, budget, released } => arbitrary(),
    }
}

/// The key a decision is about.
pub open spec fn subject(effect: PendingEffect) -> TxId {
    match effect {
        PendingEffect::Create { tx_id, .. } => tx_id,
        PendingEffect::Reduce { pending_ref, .. } => pending_ref,
        PendingEffect::Remove { pending_ref, .. } => pending_ref,
    }
}

/// The holds once a decision has been applied again. What a creation does, or a resolution of a hold that is
/// there, is what it did the first time. A partial resolution that brought everything a record needs gives
/// back a hold that is not there: it was there when the decision was made.
pub open spec fn holds_again(
    holds: Map<TxId, HoldData>,
    effect: PendingEffect,
    stored: bool,
) -> Map<TxId, HoldData> {
    match effect {
        PendingEffect::Reduce { pending_ref, amount, .. } => if !holds.contains_key(pending_ref) && amount
            > 0 && stored {
            holds.insert(pending_ref, created(effect))
        } else {
            holds_after(holds, effect, stored)
        },
        _ => holds_after(holds, effect, stored),
    }
}

/// The holds once a decision has arrived.
pub open spec fn holds_by(
    holds: Map<TxId, HoldData>,
    effect: PendingEffect,
    arrival: Arrival,
    stored: bool,
) -> Map<TxId, HoldData> {
    match arrival {
        Arrival::First => holds_after(holds, effect, stored),
        Arrival::Again(_) => holds_again(holds, effect, stored),
    }
}

/// The holds once a decision has been applied. A creation that found no slot leaves them as they were,
/// a resolution of a hold that is not there changes nothing, and a partial resolution that brought no
/// original size keeps the one the hold had.
pub open spec fn holds_after(
    holds: Map<TxId, HoldData>,
    effect: PendingEffect,
    stored: bool,
) -> Map<TxId, HoldData> {
    match effect {
        PendingEffect::Create { tx_id, .. } => if stored {
            holds.insert(tx_id, created(effect))
        } else {
            holds
        },
        PendingEffect::Reduce { pending_ref, amount, .. } => if holds.contains_key(pending_ref) {
            holds.insert(
                pending_ref,
                HoldData {
                    amount: if amount > 0 {
                        amount
                    } else {
                        holds[pending_ref].amount
                    },
                    ..created(effect)
                },
            )
        } else {
            holds
        },
        PendingEffect::Remove { pending_ref, .. } => holds.remove(pending_ref),
    }
}

/// A group's totals, with none for a group that has no members.
pub open spec fn group_of(groups: Map<u128, BudgetState>, budget: BudgetGroup) -> BudgetState {
    if groups.contains_key(budget.0) {
        groups[budget.0]
    } else {
        BudgetState { members: 0, remaining: 0 }
    }
}

/// Whether a creation at this position is to be counted: not when the totals reflect it already.
pub open spec fn counts_at(arrival: Arrival, at: ApplyIndex) -> bool {
    match arrival {
        Arrival::First => at.0 > 0,
        Arrival::Again(reflect) => at.0 > reflect.0,
    }
}

/// Whether a removal at this position takes its member's share out: not when the totals reflect it already.
pub open spec fn uncounts_at(arrival: Arrival, at: ApplyIndex) -> bool {
    match arrival {
        Arrival::First => true,
        Arrival::Again(reflect) => at.0 > reflect.0,
    }
}

/// The groups with one member more.
pub open spec fn with_member(
    groups: Map<u128, BudgetState>,
    budget: BudgetGroup,
    amount: Amount,
) -> Map<u128, BudgetState> {
    let state = group_of(groups, budget);
    groups.insert(
        budget.0,
        BudgetState {
            members: (state.members + 1) as u32,
            remaining: (state.remaining + amount) as i64,
        },
    )
}

/// The groups with one member fewer. A group whose last member goes is gone.
pub open spec fn without_member(
    groups: Map<u128, BudgetState>,
    budget: BudgetGroup,
    released: Amount,
) -> Map<u128, BudgetState> {
    if budget.is_absent() || !groups.contains_key(budget.0) {
        groups
    } else {
        let state = groups[budget.0];
        let left = if state.members == 0 {
            0
        } else {
            (state.members - 1) as u32
        };
        if left == 0 {
            groups.remove(budget.0)
        } else {
            groups.insert(
                budget.0,
                BudgetState { members: left, remaining: (state.remaining - released) as i64 },
            )
        }
    }
}

/// The groups once a decision has been applied, given whether the hold it is about was there.
pub open spec fn groups_after(
    groups: Map<u128, BudgetState>,
    effect: PendingEffect,
    at: ApplyIndex,
    arrival: Arrival,
    there: bool,
) -> Map<u128, BudgetState> {
    match effect {
        PendingEffect::Create { amount, budget, .. } => if !budget.is_absent() && counts_at(arrival, at) {
            with_member(groups, budget, amount)
        } else {
            groups
        },
        PendingEffect::Reduce { .. } => groups,
        PendingEffect::Remove { budget, released, .. } => if there && uncounts_at(arrival, at) {
            without_member(groups, budget, released)
        } else {
            groups
        },
    }
}

/// The sums a decision calls for can be carried, and a partial resolution is of a hold without a group.
pub open spec fn adds_up(
    groups: Map<u128, BudgetState>,
    effect: PendingEffect,
    at: ApplyIndex,
    arrival: Arrival,
) -> bool {
    match effect {
        PendingEffect::Create { amount, budget, .. } => !budget.is_absent() && counts_at(arrival, at)
            ==> {
            let state = group_of(groups, budget);
            &&& state.members < u32::MAX
            &&& i64::MIN <= state.remaining + amount <= i64::MAX
        },
        PendingEffect::Reduce { budget, .. } => budget.is_absent(),
        PendingEffect::Remove { budget, released, .. } => uncounts_at(arrival, at) && !budget.is_absent()
            && groups.contains_key(budget.0) ==> i64::MIN <= groups[budget.0].remaining - released <= i64::MAX,
    }
}

/// A record has been appended to the log, and nothing else done to it.
pub open spec fn only_appended<S: DurableStore>(
    log: RecordLog<S>,
    before: RecordLog<S>,
    at: ApplyIndex,
) -> bool {
    &&& log.wf()
    &&& log.keeps(&before)
    &&& before.sound() ==> log.sound()
    &&& log.disk() == before.disk()
    &&& log.fault() == before.fault()
    &&& log.held().open == before.held().open
    &&& log.held().resident == before.held().resident
    &&& log.held().oldest_resident == before.held().oldest_resident
    &&& log.held().next_block == before.held().next_block
    &&& log.held().oldest == before.held().oldest
    &&& log.books() == before.books()
    &&& log.days() == before.days()
    &&& log.spec_segment() == before.spec_segment()
    &&& log.fetches() == before.fetches()
    &&& log.sweeps() == before.sweeps()
    &&& log.strangers() == before.strangers()
    &&& log.sealed() == before.sealed()
    &&& log.spec_windows() == before.spec_windows()
    &&& log.counts() == LogTraffic {
        appended: plus(before.counts().appended, 1),
        ..before.counts()
    }
    &&& before.began_in_order() && before.began_by(at) ==> log.began_in_order() && log.began_by(at)
    &&& log.stamps_stay(&before)
}

impl<S: DurableStore> PendingEngine<S> {
    /// No hold has its record at an address that the log has nothing at.
    proof fn lemma_fresh(&self, addr: RecordAddr)
        requires
            self.wf(),
            self.good(),
            addr.is_buffered(),
            self.records.in_memory(addr) is None,
        ensures
            forall|k: TxId| #[trigger] self.at@.contains_key(k) ==> self.at@[k] != addr,
    {
        reveal(PendingEngine::good);
        assert forall|k: TxId| #[trigger] self.at@.contains_key(k) implies self.at@[k] != addr by {
            self.records.lemma_holds(self.at@[k], (k, self.held@[k]));
        }
    }

    /// Appends the record of a hold the store has never held and gives it a slot. Both halves are one
    /// call because a record the index does not point at is unreachable. False when the index could not
    /// take it, which is counted.
    fn put_new(&mut self, key: TxId, hold: HoldData) -> (stored: bool)
        requires
            old(self).wf(),
            old(self).log().room_to_append(),
        ensures
            final(self).wf(),
            only_appended(final(self).log(), old(self).log(), old(self).applied_through),
            appends(old(self).log(), final(self).log(), key, hold),
            seats(*old(self), *final(self), key, hold, old(self).log().held().next_append(), stored),
            final(self).budgets == old(self).budgets,
            final(self).fetches == old(self).fetches,
            final(self).stalled == old(self).stalled,
            final(self).reads == old(self).reads,
            final(self).calendar() == old(self).calendar(),
            final(self).applied == old(self).applied,
            final(self).applied_through == old(self).applied_through,
            final(self).decided == old(self).decided,
            final(self).replaced(old(self), key),
            final(self).index.mask() == old(self).index.mask(),
            final(self).index.same_snapshot(&old(self).index),
            !stored ==> old(self).no_room_for(key),
            old(self).good() && !old(self).holds().contains_key(key) ==> final(self).good(),
    {
        let addr = self.records.append(key, &hold, self.applied_through);
        let ghost appended = *self;
        proof {
            appended.lemma_good_kept(old(self));
            if old(self).good() {
                old(self).lemma_fresh(addr);
            }
        }
        self.seat(key, hold, addr)
    }

    /// Gives a key a slot for the record at an address. False when the index could not take it, which is
    /// counted.
    fn seat(&mut self, key: TxId, hold: HoldData, addr: RecordAddr) -> (stored: bool)
        requires
            old(self).wf(),
            addr.fits(),
        ensures
            final(self).wf(),
            seats(*old(self), *final(self), key, hold, addr, stored),
            final(self).records == old(self).records,
            final(self).budgets == old(self).budgets,
            final(self).fetches == old(self).fetches,
            final(self).stalled == old(self).stalled,
            final(self).reads == old(self).reads,
            final(self).calendar() == old(self).calendar(),
            final(self).applied == old(self).applied,
            final(self).applied_through == old(self).applied_through,
            final(self).decided == old(self).decided,
            addr.is_buffered() ==> final(self).replaced(old(self), key),
            final(self).index.mask() == old(self).index.mask(),
            final(self).index.same_snapshot(&old(self).index),
            !stored ==> old(self).no_room_for(key),
            old(self).good() && !old(self).holds().contains_key(key) && old(self).records.holds(
                addr,
                (key, hold),
            ) && (forall|k: TxId| #[trigger] old(self).at@.contains_key(k) ==> old(self).at@[k] != addr)
                ==> final(self).good(),
    {
        let inserted = self.index.insert_new(key, addr);
        let stored: bool = inserted.is_ok();
        if !stored {
            self.overflowed = add_count(self.overflowed, 1);
        }
        proof {
            let was = old(self);
            if stored {
                self.at@ = self.at@.insert(key, addr);
                self.held@ = self.held@.insert(key, hold);
            }
            if was.good() && !was.held@.contains_key(key) && was.records.holds(addr, (key, hold)) && (
            forall|k: TxId| #[trigger] was.at@.contains_key(k) ==> was.at@[k] != addr) {
                reveal(PendingEngine::good);
                assert(was.at@.dom() == was.held@.dom());
                assert(!was.at@.dom().contains(key));
                assert(was.index.represents(was.at@));
                assert(self.at@.dom() =~= self.held@.dom());
                assert forall|k: TxId| #[trigger] self.at@.contains_key(k) implies self.records.holds(
                    self.at@[k],
                    (k, self.held@[k]),
                ) by {
                    if was.at@.contains_key(k) {
                        assert(was.records.holds(was.at@[k], (k, was.held@[k])));
                    }
                }
                assert(one_key_each(self.at@)) by {
                    assert forall|one: TxId, other: TxId| #[trigger]
                        self.at@.contains_key(one) && #[trigger] self.at@.contains_key(other)
                            && self.at@[one] == self.at@[other] implies one == other by {
                        if one != key {
                            assert(was.at@.contains_key(one));
                        }
                        if other != key {
                            assert(was.at@.contains_key(other));
                        }
                    }
                }
            }
        }
        stored
    }

    /// Points a slot at the record just appended for its key.
    fn follow(&mut self, slot: usize, key: TxId, hold: HoldData, addr: RecordAddr)
        requires
            old(self).wf(),
            addr.fits(),
            slot < old(self).index.words().len(),
            old(self).index.words()[slot as int] != EMPTY,
        ensures
            final(self).wf(),
            final(self).records == old(self).records,
            final(self).budgets == old(self).budgets,
            final(self).fetches == old(self).fetches,
            final(self).stalled == old(self).stalled,
            final(self).reads == old(self).reads,
            final(self).calendar() == old(self).calendar(),
            final(self).applied == old(self).applied,
            final(self).applied_through == old(self).applied_through,
            final(self).decided == old(self).decided,
            addr.is_buffered() ==> final(self).replaced(old(self), key),
            final(self).overflowed == old(self).overflowed,
            final(self).index.mask() == old(self).index.mask(),
            final(self).index.same_snapshot(&old(self).index),
            repoints(*old(self), *final(self), slot as int, key, hold, addr),
            old(self).good() && old(self).holds().contains_key(key) && is_own(
                old(self).index.words(),
                old(self).index.mask(),
                old(self).at@,
                key,
                slot as int,
            ) && old(self).records.holds(addr, (key, hold)) && (forall|k: TxId| #[trigger]
                old(self).at@.contains_key(k) ==> old(self).at@[k] != addr) ==> final(self).good(),
    {
        self.index.repoint_at(slot, addr);
        proof {
            let was = old(self);
            self.at@ = self.at@.insert(key, addr);
            self.held@ = self.held@.insert(key, hold);
            if was.good() && was.held@.contains_key(key) && is_own(
                was.index.words(),
                was.index.mask(),
                was.at@,
                key,
                slot as int,
            ) && was.records.holds(addr, (key, hold)) && (forall|k: TxId| #[trigger]
                was.at@.contains_key(k) ==> was.at@[k] != addr) {
                reveal(PendingEngine::good);
                was.lemma_mask();
                assert(was.at@.dom().contains(key));
                law_a_repoint_moves_one_key(
                    was.index.words(),
                    was.index.mask(),
                    was.at@,
                    key,
                    slot as int,
                    addr,
                );
                assert(self.at@.dom() =~= self.held@.dom());
                assert forall|k: TxId| #[trigger] self.at@.contains_key(k) implies self.records.holds(
                    self.at@[k],
                    (k, self.held@[k]),
                ) by {
                    if k != key {
                        assert(was.at@.contains_key(k));
                    }
                }
                assert(one_key_each(self.at@)) by {
                    assert forall|one: TxId, other: TxId| #[trigger]
                        self.at@.contains_key(one) && #[trigger] self.at@.contains_key(other)
                            && self.at@[one] == self.at@[other] implies one == other by {
                        if one != key {
                            assert(was.at@.contains_key(one));
                        }
                        if other != key {
                            assert(was.at@.contains_key(other));
                        }
                    }
                }
            }
        }
    }

    /// Clears a key's slot.
    fn forget(&mut self, slot: usize, key: TxId)
        requires
            old(self).wf(),
            slot < old(self).index.words().len(),
            old(self).index.words()[slot as int] != EMPTY,
        ensures
            final(self).wf(),
            final(self).records == old(self).records,
            final(self).budgets == old(self).budgets,
            final(self).fetches == old(self).fetches,
            final(self).stalled == old(self).stalled,
            final(self).reads == old(self).reads,
            final(self).calendar() == old(self).calendar(),
            final(self).applied == old(self).applied,
            final(self).applied_through == old(self).applied_through,
            final(self).decided == old(self).decided,
            final(self).replaced(old(self), key),
            final(self).overflowed == old(self).overflowed,
            final(self).index.mask() == old(self).index.mask(),
            final(self).index.same_snapshot(&old(self).index),
            final(self).holds() == old(self).holds().remove(key),
            final(self).places() == old(self).places().remove(key),
            final(self).table().words() == old(self).table().words().update(slot as int, EMPTY),
            old(self).good() && old(self).holds().contains_key(key) && is_own(
                old(self).index.words(),
                old(self).index.mask(),
                old(self).at@,
                key,
                slot as int,
            ) ==> final(self).good(),
    {
        self.index.clear_at(slot);
        proof {
            let was = old(self);
            self.at@ = self.at@.remove(key);
            self.held@ = self.held@.remove(key);
            if was.good() && was.held@.contains_key(key) && is_own(
                was.index.words(),
                was.index.mask(),
                was.at@,
                key,
                slot as int,
            ) {
                reveal(PendingEngine::good);
                was.lemma_mask();
                assert(was.at@.dom().contains(key));
                law_a_removal_takes_one_key(
                    was.index.words(),
                    was.index.mask(),
                    was.at@,
                    key,
                    slot as int,
                );
                assert(self.at@.dom() =~= self.held@.dom());
                assert forall|k: TxId| #[trigger] self.at@.contains_key(k) implies self.records.holds(
                    self.at@[k],
                    (k, self.held@[k]),
                ) by {
                    assert(was.at@.contains_key(k));
                }
                assert(one_key_each(self.at@)) by {
                    assert forall|one: TxId, other: TxId| #[trigger]
                        self.at@.contains_key(one) && #[trigger] self.at@.contains_key(other)
                            && self.at@[one] == self.at@[other] implies one == other by {
                        assert(was.at@.contains_key(one) && was.at@.contains_key(other));
                    }
                }
            }
        }
    }
}

/// Whether a decision can be followed by the index alone: a first creation is of a hold that is not
/// there, and a first resolution is of one that is, or of one that nothing in the index can be taken for.
/// A decision that arrives again is checked against the records, and always can.
pub open spec fn follows<S: DurableStore>(
    engine: PendingEngine<S>,
    effect: PendingEffect,
    arrival: Arrival,
) -> bool {
    match arrival {
        Arrival::Again(_) => true,
        Arrival::First => match effect {
            PendingEffect::Create { tx_id, .. } => !engine.holds().contains_key(tx_id),
            PendingEffect::Reduce { pending_ref, .. } => engine.holds().contains_key(pending_ref)
                || engine.unsettled(pending_ref),
            PendingEffect::Remove { pending_ref, .. } => engine.holds().contains_key(pending_ref)
                || engine.unsettled(pending_ref),
        },
    }
}

impl<S: DurableStore> PendingEngine<S> {
    /// The engine can take this decision: its counters, its group sums and the block numbers have room.
    pub open spec fn can_take(&self, effect: PendingEffect, at: ApplyIndex, arrival: Arrival) -> bool {
        &&& self.spec_applied() < u64::MAX
        &&& adds_up(self.groups(), effect, at, arrival)
        &&& !(effect is Remove) ==> self.log().room_to_append()
    }

    /// The index alone says which slot is the key's, or that none is.
    pub open spec fn settled_by_index(&self, key: TxId) -> bool {
        !self.unsettled(key) || matching(self.table().words(), self.table().mask(), key).len() == 0
    }

    /// A decision arriving for the first time that can be applied without reading a record: a creation,
    /// and a resolution that brought the hold's size and whose key the index can settle.
    pub open spec fn needs_no_record(&self, effect: PendingEffect) -> bool {
        match effect {
            PendingEffect::Create { .. } => true,
            PendingEffect::Reduce { pending_ref, amount, .. } => amount > 0 && self.settled_by_index(
                pending_ref,
            ),
            PendingEffect::Remove { pending_ref, .. } => self.settled_by_index(pending_ref),
        }
    }

    /// What every write leaves alone, and what it keeps.
    pub open spec fn wrote(&self, before: &Self) -> bool {
        &&& self.wf()
        &&& self.log().keeps(&before.log())
        &&& before.log().sound() ==> self.log().sound()
        &&& self.log().disk().truthful() == before.log().disk().truthful()
        &&& before.log().fault() ==> self.log().fault()
        &&& self.log().held().open == before.log().held().open
        &&& self.log().held().resident == before.log().held().resident
        &&& self.log().held().oldest_resident == before.log().held().oldest_resident
        &&& self.log().held().next_block == before.log().held().next_block
        &&& self.log().held().oldest == before.log().held().oldest
        &&& self.log().books() == before.log().books()
        &&& self.log().days() == before.log().days()
        &&& self.log().spec_segment() == before.log().spec_segment()
        &&& self.log().fetches() == before.log().fetches()
        &&& self.log().sweeps() == before.log().sweeps()
        &&& self.log().sealed() == before.log().sealed()
        &&& self.log().spec_windows() == before.log().spec_windows()
        &&& self.calendar() == before.calendar()
        &&& self.waiting() == before.waiting()
        &&& self.held_up() == before.held_up()
        &&& self.left_alone(before)
        &&& self.log().stamps_stay(&before.log())
        &&& self.last_read() == before.last_read()
        &&& before.numbered() ==> self.numbered()
        &&& self.table().mask() == before.table().mask()
        &&& self.table().same_snapshot(&before.table())
    }

    fn count_member(&mut self, budget: BudgetGroup, amount: Amount)
        requires
            old(self).wf(),
            group_of(old(self).groups(), budget).members < u32::MAX,
            i64::MIN <= group_of(old(self).groups(), budget).remaining + amount <= i64::MAX,
        ensures
            final(self).wf(),
            final(self).groups() == with_member(old(self).groups(), budget, amount),
            final(self).index == old(self).index,
            final(self).records == old(self).records,
            final(self).fetches == old(self).fetches,
            final(self).stalled == old(self).stalled,
            final(self).reads == old(self).reads,
            final(self).calendar() == old(self).calendar(),
            final(self).applied == old(self).applied,
            final(self).applied_through == old(self).applied_through,
            final(self).overflowed == old(self).overflowed,
            final(self).at == old(self).at,
            final(self).held == old(self).held,
            final(self).decided == old(self).decided,
            old(self).good() ==> final(self).good(),
    {
        let state: BudgetState = match self.budgets.get(&budget.0) {
            Some(state) => *state,
            None => BudgetState::default(),
        };
        self.budgets.insert(
            budget.0,
            BudgetState { members: state.members + 1, remaining: state.remaining + amount },
        );
        proof {
            self.lemma_good_kept(old(self));
        }
    }

    fn uncount_member(&mut self, budget: BudgetGroup, released: Amount)
        requires
            old(self).wf(),
            !budget.is_absent() && old(self).groups().contains_key(budget.0) ==> i64::MIN <= old(self).groups()[budget.0].remaining - released <= i64::MAX,
        ensures
            final(self).wf(),
            final(self).groups() == without_member(old(self).groups(), budget, released),
            final(self).index == old(self).index,
            final(self).records == old(self).records,
            final(self).fetches == old(self).fetches,
            final(self).stalled == old(self).stalled,
            final(self).reads == old(self).reads,
            final(self).calendar() == old(self).calendar(),
            final(self).applied == old(self).applied,
            final(self).applied_through == old(self).applied_through,
            final(self).overflowed == old(self).overflowed,
            final(self).at == old(self).at,
            final(self).held == old(self).held,
            final(self).decided == old(self).decided,
            old(self).good() ==> final(self).good(),
    {
        proof {
            self.lemma_good_kept(self);
        }
        if budget.is_absent() {
            return;
        }
        let state: BudgetState = match self.budgets.get(&budget.0) {
            Some(state) => *state,
            None => {
                return;
            },
        };
        let members: u32 = state.members.saturating_sub(1);
        let remaining: Amount = state.remaining - released;
        if members == 0 {
            self.budgets.remove(&budget.0);
        } else {
            self.budgets.insert(budget.0, BudgetState { members, remaining });
        }
        proof {
            self.lemma_good_kept(old(self));
        }
    }

    /// `Err` is the one thing a write can fail at: an index that cannot take a new hold. Only a `Create`
    /// inserts, so it is the only decision that can report it.
    pub fn write(&mut self, effect: PendingEffect, at: ApplyIndex) -> (written: Result<(), NotStored>)
        requires
            old(self).wf(),
            old(self).can_take(effect, at, Arrival::First),
        ensures
            final(self).wrote(old(self)),
            final(self).spec_applied() == old(self).spec_applied() + 1,
            final(self).spec_applied_through() == at,
            final(self).log().held().buffer@.len() <= old(self).log().held().buffer@.len() + 1,
            final(self).decisions() == old(self).decisions().insert(subject(effect), at),
            written is Err <==> effect is Create && old(self).table().moves_for(subject(effect)) is None,
            written matches Err(not_stored) ==> not_stored.hold == subject(effect)
                && old(self).no_room_for(subject(effect)),
            final(self).spec_overflowed() == if written is Err {
                plus(old(self).spec_overflowed(), 1)
            } else {
                old(self).spec_overflowed()
            },
            effect is Create ==> final(self).groups() == groups_after(
                old(self).groups(),
                effect,
                at,
                Arrival::First,
                true,
            ),
            does(*old(self), *final(self), effect, at, Arrival::First, written is Ok),
            old(self).needs_no_record(effect) || recalls(
                old(self).table(),
                old(self).log(),
                subject(effect),
            ) ==> final(self).log().disk() == old(self).log().disk() && final(self).log().fault()
                == old(self).log().fault(),
            old(self).in_order() && old(self).spec_applied_through().0 <= at.0 ==> final(self).in_order(),
            old(self).grounded() ==> final(self).grounded(),
            old(self).healthy() && follows(*old(self), effect, Arrival::First) && !final(self).log().fault() ==> {
                &&& final(self).healthy()
                &&& old(self).in_order() && old(self).spec_applied_through().0 <= at.0 && old(self).dated()
                    ==> final(self).dated()
                &&& final(self).holds() == holds_after(old(self).holds(), effect, written is Ok)
                &&& final(self).groups() == groups_after(
                    old(self).groups(),
                    effect,
                    at,
                    Arrival::First,
                    old(self).holds().contains_key(subject(effect)),
                )
            },
    {
        self.apply_effect(effect, at, Arrival::First)
    }

    /// The same effect arriving again, which is what recovery does between a snapshot's coverage and now.
    /// Safe on a state that already reflects the effect: a `Remove` of a hold that is gone changes
    /// nothing, a `Reduce` appends one wasted version, and a `Create` becomes a repoint rather than a
    /// second slot for one key. A `Reduce` that brought the hold's size gives back a hold that no snapshot
    /// carried. `groups_reflect` is the position the restored totals already reflect.
    pub fn replay(&mut self, effect: PendingEffect, at: ApplyIndex, groups_reflect: ApplyIndex) -> (written:
        Result<(), NotStored>)
        requires
            old(self).wf(),
            old(self).can_take(effect, at, Arrival::Again(groups_reflect)),
        ensures
            final(self).wrote(old(self)),
            final(self).spec_applied() == old(self).spec_applied() + 1,
            final(self).spec_applied_through() == at,
            final(self).log().held().buffer@.len() <= old(self).log().held().buffer@.len() + 1,
            final(self).decisions() == old(self).decisions().insert(subject(effect), at),
            does(*old(self), *final(self), effect, at, Arrival::Again(groups_reflect), written is Ok),
            recalls(old(self).table(), old(self).log(), subject(effect)) ==> final(self).log().disk()
                == old(self).log().disk() && final(self).log().fault() == old(self).log().fault(),
            written matches Err(not_stored) ==> may_seat(effect) && not_stored.hold == subject(effect)
                && old(self).no_room_for(subject(effect)) && old(self).table().moves_for(subject(effect))
                is None,
            final(self).spec_overflowed() == if written is Err {
                plus(old(self).spec_overflowed(), 1)
            } else {
                old(self).spec_overflowed()
            },
            effect is Create ==> final(self).groups() == groups_after(
                old(self).groups(),
                effect,
                at,
                Arrival::Again(groups_reflect),
                true,
            ),
            old(self).in_order() && old(self).spec_applied_through().0 <= at.0 ==> final(self).in_order(),
            old(self).grounded() ==> final(self).grounded(),
            old(self).healthy() && !final(self).log().fault() ==> {
                &&& final(self).healthy()
                &&& old(self).in_order() && old(self).spec_applied_through().0 <= at.0 && old(self).dated()
                    ==> final(self).dated()
                &&& final(self).holds() == holds_again(old(self).holds(), effect, written is Ok)
                &&& final(self).groups() == groups_after(
                    old(self).groups(),
                    effect,
                    at,
                    Arrival::Again(groups_reflect),
                    old(self).holds().contains_key(subject(effect)),
                )
                &&& written is Err <==> may_seat(effect) && !old(self).holds().contains_key(
                    subject(effect),
                ) && old(self).table().moves_for(subject(effect)) is None
            },
    {
        self.apply_effect(effect, at, Arrival::Again(groups_reflect))
    }

    /// Both of a key's buckets are full.
    pub open spec fn no_room_for(&self, key: TxId) -> bool {
        forall|i: int|
            0 <= i < self.table().words().len() && in_pair(key, i / 4, self.table().mask())
                ==> #[trigger] self.table().words()[i] != EMPTY
    }

    fn apply_effect(&mut self, effect: PendingEffect, at: ApplyIndex, arrival: Arrival) -> (written:
        Result<(), NotStored>)
        requires
            old(self).wf(),
            old(self).can_take(effect, at, arrival),
        ensures
            final(self).wrote(old(self)),
            final(self).spec_applied() == old(self).spec_applied() + 1,
            final(self).spec_applied_through() == at,
            final(self).log().held().buffer@.len() <= old(self).log().held().buffer@.len() + 1,
            final(self).decisions() == old(self).decisions().insert(subject(effect), at),
            does(*old(self), *final(self), effect, at, arrival, written is Ok),
            (arrival == Arrival::First && old(self).needs_no_record(effect)) || recalls(
                old(self).table(),
                old(self).log(),
                subject(effect),
            ) ==> final(self).log().disk() == old(self).log().disk() && final(self).log().fault()
                == old(self).log().fault(),
            written matches Err(not_stored) ==> may_seat(effect) && not_stored.hold == subject(effect)
                && old(self).no_room_for(subject(effect)) && old(self).table().moves_for(subject(effect))
                is None,
            arrival == Arrival::First ==> (written is Err <==> effect is Create
                && old(self).table().moves_for(subject(effect)) is None),
            final(self).spec_overflowed() == if written is Err {
                plus(old(self).spec_overflowed(), 1)
            } else {
                old(self).spec_overflowed()
            },
            effect is Create ==> final(self).groups() == groups_after(
                old(self).groups(),
                effect,
                at,
                arrival,
                true,
            ),
            old(self).in_order() && old(self).spec_applied_through().0 <= at.0 ==> final(self).in_order(),
            old(self).grounded() ==> final(self).grounded(),
            old(self).healthy() && follows(*old(self), effect, arrival) && !final(self).log().fault()
                ==> {
                &&& final(self).healthy()
                &&& old(self).in_order() && old(self).spec_applied_through().0 <= at.0 && old(self).dated()
                    ==> final(self).dated()
                &&& final(self).holds() == holds_by(old(self).holds(), effect, arrival, written is Ok)
                &&& final(self).groups() == groups_after(
                    old(self).groups(),
                    effect,
                    at,
                    arrival,
                    old(self).holds().contains_key(subject(effect)),
                )
                &&& arrival != Arrival::First ==> (written is Err <==> may_seat(effect)
                    && !old(self).holds().contains_key(subject(effect)) && old(self).table().moves_for(
                    subject(effect),
                ) is None)
            },
    {
        self.applied = self.applied + 1;
        // Recorded before the effect, so a block closed while this one is being written is stamped with
        // the position before it. Coverage errs early, which cannot lose anything.
        self.applied_through = at;
        proof {
            self.decided@ = self.decided@.insert(subject(effect), at);
            self.lemma_good_kept(old(self));
            if old(self).in_order() && old(self).applied_through.0 <= at.0 {
                self.records.lemma_began_later(old(self).applied_through, at);
            }
            assert forall|i: int| 0 <= i < self.index.words().len() implies #[trigger] self.index.snapshot_word(i)
                == old(self).index.snapshot_word(i) by {}
        }
        let ghost begun = *self;
        reveal(does);
        match effect {
            PendingEffect::Create { tx_id, debit_account, credit_account, amount, ledger, budget } => {
                let hold = HoldData {
                    debit_account,
                    credit_account,
                    amount,
                    remaining: amount,
                    ledger,
                    budget,
                    budget_members: 0,
                    budget_remaining: 0,
                };
                let stored: bool = self.create(tx_id, hold, arrival);
                let ghost placed = *self;
                let counted: ApplyIndex = match arrival {
                    Arrival::First => ApplyIndex(0),
                    Arrival::Again(reflect) => reflect,
                };
                if !budget.is_absent() && at.raw() > counted.raw() {
                    self.count_member(budget, amount);
                }
                proof {
                    self.lemma_moved(&placed, old(self));
                    self.lemma_grounded(old(self));
                    self.lemma_told(old(self), effect, at, arrival);
                    lemma_does_create(begun, *old(self), placed, *self, tx_id, hold, arrival, stored);
                    lemma_decision_faults(*old(self), *self, effect, at, arrival, stored);
                    lemma_decision_room(*old(self), *self, effect, at, arrival, stored);
                }
                if !stored {
                    return Err(NotStored { hold: tx_id });
                }
                Ok(())
            },
            PendingEffect::Reduce {
                pending_ref,
                debit_account,
                credit_account,
                amount,
                remaining,
                ledger,
                budget,
            } => {
                let hold = HoldData {
                    debit_account,
                    credit_account,
                    amount,
                    remaining,
                    ledger,
                    budget,
                    budget_members: 0,
                    budget_remaining: 0,
                };
                let stored: bool = self.reduce(pending_ref, hold, arrival);
                proof {
                    self.lemma_moved(self, old(self));
                    self.lemma_grounded(old(self));
                    self.lemma_told(old(self), effect, at, arrival);
                    lemma_does_reduce(begun, *old(self), *self, pending_ref, hold, arrival, stored);
                    lemma_decision_faults(*old(self), *self, effect, at, arrival, stored);
                    lemma_decision_room(*old(self), *self, effect, at, arrival, stored);
                }
                if !stored {
                    return Err(NotStored { hold: pending_ref });
                }
                Ok(())
            },
            PendingEffect::Remove { pending_ref, budget, released } => {
                self.remove(pending_ref, budget, released, at, arrival);
                proof {
                    self.lemma_moved(self, old(self));
                    self.lemma_grounded(old(self));
                    self.lemma_told(old(self), effect, at, arrival);
                    assert(does_remove(
                        *old(self),
                        *self,
                        pending_ref,
                        budget,
                        released,
                        at,
                        arrival,
                    ));
                    lemma_decision_faults(*old(self), *self, effect, at, arrival, true);
                    lemma_decision_room(*old(self), *self, effect, at, arrival, true);
                }
                Ok(())
            },
        }
    }

    /// A decision dates the hold it is about.
    proof fn lemma_told(&self, before: &Self, effect: PendingEffect, at: ApplyIndex, arrival: Arrival)
        requires
            before.wf(),
            self.wf(),
            self.replaced(before, subject(effect)),
            self.records.stamps_stay(&before.records),
            self.decided@ == before.decided@.insert(subject(effect), at),
            self.applied_through == at,
            before.in_order() && before.applied_through.0 <= at.0 ==> self.in_order(),
            before.healthy() && follows(*before, effect, arrival) && !self.log().fault() ==> self.good(),
        ensures
            before.healthy() && follows(*before, effect, arrival) && !self.log().fault()
                && before.in_order() && before.applied_through.0 <= at.0 && before.dated()
                ==> self.dated(),
    {
        if before.healthy() && follows(*before, effect, arrival) && !self.log().fault()
            && before.in_order() && before.applied_through.0 <= at.0 && before.dated() {
            self.lemma_dated(before, subject(effect));
        }
    }

    /// A decision's step that has followed the recording of its position.
    spec fn moved(&self, before: &Self) -> bool {
        &&& self.wrote(before)
        &&& self.applied == before.applied
        &&& self.applied_through == before.applied_through
        &&& self.decided == before.decided
        &&& before.in_order() ==> self.in_order()
    }

    proof fn lemma_moved(&self, between: &Self, before: &Self)
        requires
            self.wf(),
            self.index == between.index,
            self.records == between.records,
            self.fetches == between.fetches,
            self.stalled == between.stalled,
            self.reads == between.reads,
            self.calendar() == between.calendar(),
            between.wrote(before),
        ensures
            self.wrote(before),
    {
        assert forall|i: int| 0 <= i < self.index.words().len() implies #[trigger] self.index.snapshot_word(i)
            == between.index.snapshot_word(i) by {}
    }

    proof fn lemma_numbered(&self, before: &Self)
        requires
            self.reads == before.reads,
            self.records.disk() == before.records.disk(),
        ensures
            before.numbered() ==> self.numbered(),
    {
        if before.numbered() {
            assert forall|h: u64| self.reads < h < OWNER_WEIGHT implies #[trigger] self.records.unasked(h) by {
                assert(before.records.unasked(h));
            }
        }
    }

    proof fn lemma_wrote_refl(&self)
        requires
            self.wf(),
        ensures
            self.wrote(self),
    {
        self.records.lemma_stamps_same(&self.records);
    }

    proof fn lemma_wrote_through(&self, between: &Self, before: &Self)
        requires
            self.wrote(between),
            between.wrote(before),
        ensures
            self.wrote(before),
    {
        self.lemma_mask();
        between.lemma_mask();
        self.records.lemma_stamps_through(&between.records, &before.records);
        assert forall|a: RecordAddr, r: Record| before.records.holds(a, r) implies #[trigger] self.records.holds(
            a,
            r,
        ) by {
            assert(between.records.holds(a, r));
        }
        assert forall|i: int|
            0 <= i < self.index.words().len() && i / 4 >= self.index.read_through()
                && self.index.being_read() implies #[trigger] self.index.snapshot_word(i)
            == before.index.snapshot_word(i) by {
            assert(between.index.snapshot_word(i) == before.index.snapshot_word(i));
        }
    }

    /// Reading alone is a step that moves nothing.
    proof fn lemma_read_moves(&self, before: &Self)
        requires
            before.wf(),
            self.wf(),
            self.same_but_log(before),
            only_read(self.records, before.records),
        ensures
            self.moved(before),
            before.good() ==> self.good(),
    {
        self.lemma_good_kept(before);
        self.records.lemma_began_same(&before.records);
        self.records.lemma_stamps_same(&before.records);
        assert forall|i: int| 0 <= i < self.index.words().len() implies #[trigger] self.index.snapshot_word(i)
            == before.index.snapshot_word(i) by {}
        if before.numbered() {
            assert forall|h: u64| self.reads < h < OWNER_WEIGHT implies #[trigger] self.records.unasked(h) by {
                assert(before.records.unasked(h));
            }
        }
    }

    /// Writes a hold that a decision creates: a new slot, or the slot it has already when the decision is
    /// arriving again. A second insert would give one key two slots, and a removal would then clear only
    /// one of them.
    fn create(&mut self, key: TxId, hold: HoldData, arrival: Arrival) -> (stored: bool)
        requires
            old(self).wf(),
            old(self).log().room_to_append(),
        ensures
            final(self).moved(old(self)),
            final(self).replaced(old(self), key),
            final(self).budgets == old(self).budgets,
            does_create(*old(self), *final(self), key, hold, arrival, stored),
            !stored ==> old(self).no_room_for(key) && old(self).table().moves_for(key) is None,
            old(self).healthy() && (arrival == Arrival::First ==> !old(self).holds().contains_key(key))
                && !final(self).log().fault() ==> {
                &&& final(self).healthy()
                &&& final(self).holds() == if stored {
                    old(self).holds().insert(key, hold)
                } else {
                    old(self).holds()
                }
                &&& stored == (old(self).holds().contains_key(key) || old(self).table().moves_for(key)
                    is Some)
            },
    {
        let already: Option<(usize, HoldData)> = match arrival {
            Arrival::First => None,
            Arrival::Again(_) => {
                let found = self.sure_slot(key);
                found
            },
        };
        let ghost looked = *self;
        proof {
            if arrival == Arrival::First {
                self.lemma_wrote_refl();
            } else {
                self.lemma_read_moves(old(self));
            }
        }
        match already {
            Some((slot, _)) => {
                self.supersede(slot, key, hold);
                proof {
                    self.lemma_wrote_through(&looked, old(self));
                    let search = choose|search: Search<S>| #[trigger]
                        searched(old(self).table(), old(self).log(), looked.log(), key, search)
                            && search.found(old(self).table(), key) == seen(already);
                    assert(searched(old(self).table(), old(self).log(), looked.log(), key, search));
                }
                true
            },
            None => {
                let stored: bool = self.put_new(key, hold);
                proof {
                    self.lemma_numbered(&looked);
                    self.lemma_wrote_through(&looked, old(self));
                    if arrival != Arrival::First {
                        let search = choose|search: Search<S>| #[trigger]
                            searched(old(self).table(), old(self).log(), looked.log(), key, search)
                                && search.found(old(self).table(), key) == seen(already);
                        assert(searched(old(self).table(), old(self).log(), looked.log(), key, search));
                    }
                }
                stored
            },
        }
    }

    /// Appends a version of a hold and points its slot at it.
    fn supersede(&mut self, slot: usize, key: TxId, hold: HoldData)
        requires
            old(self).wf(),
            old(self).log().room_to_append(),
            slot < old(self).index.words().len(),
            old(self).index.words()[slot as int] != EMPTY,
        ensures
            final(self).moved(old(self)),
            final(self).replaced(old(self), key),
            final(self).budgets == old(self).budgets,
            final(self).overflowed == old(self).overflowed,
            appends(old(self).log(), final(self).log(), key, hold),
            repoints(
                *old(self),
                *final(self),
                slot as int,
                key,
                hold,
                old(self).log().held().next_append(),
            ),
            old(self).good() && old(self).holds().contains_key(key) && is_own(
                old(self).index.words(),
                old(self).index.mask(),
                old(self).at@,
                key,
                slot as int,
            ) ==> final(self).good(),
    {
        let addr = self.records.append(key, &hold, self.applied_through);
        let ghost appended = *self;
        proof {
            appended.lemma_good_kept(old(self));
            if old(self).good() {
                old(self).lemma_fresh(addr);
            }
        }
        self.follow(slot, key, hold, addr);
        proof {
            self.lemma_numbered(old(self));
        }
    }

    /// Writes a version of a hold that a decision resolves in part. Everything the record needs came with
    /// the decision, unless the hold's original size did not: then the old version is read for it. A hold
    /// that a snapshot did not carry is not there when its decision arrives again, and is given a slot.
    fn reduce(&mut self, key: TxId, reduced: HoldData, arrival: Arrival) -> (stored: bool)
        requires
            old(self).wf(),
            old(self).log().room_to_append(),
        ensures
            final(self).moved(old(self)),
            final(self).replaced(old(self), key),
            final(self).budgets == old(self).budgets,
            does_reduce(*old(self), *final(self), key, reduced, arrival, stored),
            !stored ==> old(self).no_room_for(key) && old(self).table().moves_for(key) is None && reduced.amount
                > 0 && arrival != Arrival::First,
            old(self).healthy() && (arrival == Arrival::First ==> old(self).holds().contains_key(key)
                || old(self).unsettled(key)) && !final(self).log().fault() ==> {
                &&& final(self).healthy()
                &&& final(self).holds() == if old(self).holds().contains_key(key) {
                    old(self).holds().insert(
                        key,
                        HoldData {
                            amount: if reduced.amount > 0 {
                                reduced.amount
                            } else {
                                old(self).holds()[key].amount
                            },
                            ..reduced
                        },
                    )
                } else if arrival != Arrival::First && reduced.amount > 0 && stored {
                    old(self).holds().insert(key, reduced)
                } else {
                    old(self).holds()
                }
                &&& stored == (old(self).holds().contains_key(key) || arrival == Arrival::First
                    || reduced.amount <= 0 || old(self).table().moves_for(key) is Some)
            },
    {
        let mut hold = reduced;
        if reduced.amount <= 0 {
            let found = self.sure_slot(key);
            proof {
                self.lemma_read_moves(old(self));
                let search = choose|search: Search<S>| #[trigger]
                    searched(old(self).table(), old(self).log(), self.log(), key, search) && search.found(
                        old(self).table(),
                        key,
                    ) == seen(found);
                assert(searched(old(self).table(), old(self).log(), self.log(), key, search));
            }
            match found {
                Some((_, was)) => {
                    hold.amount = was.amount;
                },
                None => {
                    assert(sizes(
                        old(self).table(),
                        old(self).log(),
                        self.log(),
                        key,
                        reduced.amount,
                        None,
                    ));
                    return true;
                },
            }
        } else {
            proof {
                self.lemma_wrote_refl();
            }
        }
        let ghost sized = *self;
        assert(sizes(
            old(self).table(),
            old(self).log(),
            sized.log(),
            key,
            reduced.amount,
            Some(hold.amount),
        ));
        assert(HoldData { amount: hold.amount, ..reduced } == hold);
        let addr = self.records.append(key, &hold, self.applied_through);
        let ghost appended = *self;
        proof {
            appended.lemma_good_kept(&sized);
            appended.lemma_numbered(&sized);
            if sized.good() {
                sized.lemma_fresh(addr);
            }
            assert forall|i: int| 0 <= i < self.index.words().len() implies #[trigger] self.index.snapshot_word(i)
                == sized.index.snapshot_word(i) by {}
            assert(appended.moved(&sized));
        }
        let slot: Option<usize> = self.slot_of(key, arrival);
        let ghost resolved = *self;
        proof {
            resolved.lemma_wrote_through(&appended, &sized);
            resolved.lemma_wrote_through(&sized, old(self));
            if resolved.good() {
                assert(resolved.records.holds(addr, (key, hold)));
            }
        }
        assert(appends(sized.log(), appended.log(), key, hold));
        assert(finds(old(self).table(), appended.log(), resolved.log(), key, arrival, place_of(slot)));
        let stored: bool = match slot {
            Some(slot) => {
                self.follow(slot, key, hold, addr);
                proof {
                    self.records.lemma_stamps_same(&resolved.records);
                    self.lemma_wrote_through(&resolved, old(self));
                }
                true
            },
            None => {
                if reduced.amount > 0 && arrival != Arrival::First {
                    let stored: bool = self.seat(key, hold, addr);
                    proof {
                        self.records.lemma_stamps_same(&resolved.records);
                        self.lemma_wrote_through(&resolved, old(self));
                    }
                    stored
                } else {
                    true
                }
            },
        };
        proof {
            assert(rewrites(
                *old(self),
                sized.log(),
                *self,
                key,
                hold,
                reduced.amount > 0,
                arrival,
                stored,
            ));
        }
        stored
    }

    /// Which slot is a key's: as the index says when its decision arrives for the first time, and as the
    /// records say when it arrives again.
    fn slot_of(&mut self, key: TxId, arrival: Arrival) -> (found: Option<usize>)
        requires
            old(self).wf(),
        ensures
            final(self).moved(old(self)),
            final(self).same_but_log(old(self)),
            old(self).good() ==> final(self).good(),
            final(self).log().held() == old(self).log().held(),
            finds(
                old(self).table(),
                old(self).log(),
                final(self).log(),
                key,
                arrival,
                place_of(found),
            ),
            found matches Some(slot) ==> within_reach(
                old(self).table().words(),
                old(self).table().mask(),
                key,
                slot as int,
            ),
            old(self).healthy() && (arrival == Arrival::First ==> old(self).holds().contains_key(key)
                || old(self).unsettled(key)) && !final(self).log().fault() ==> match found {
                Some(slot) => {
                    &&& old(self).holds().contains_key(key)
                    &&& is_own(
                        old(self).table().words(),
                        old(self).table().mask(),
                        old(self).places(),
                        key,
                        slot as int,
                    )
                },
                None => !old(self).holds().contains_key(key),
            },
    {
        let slot: Option<usize> = match arrival {
            Arrival::First => self.quick_slot(key),
            Arrival::Again(_) => match self.sure_slot(key) {
                Some((slot, _)) => Some(slot),
                None => None,
            },
        };
        proof {
            self.lemma_read_moves(old(self));
        }
        slot
    }

    /// Takes out a hold that a decision resolves in full, and its share of its group.
    fn remove(
        &mut self,
        key: TxId,
        budget: BudgetGroup,
        released: Amount,
        at: ApplyIndex,
        arrival: Arrival,
    )
        requires
            old(self).wf(),
            uncounts_at(arrival, at) && !budget.is_absent() && old(self).groups().contains_key(budget.0) ==> i64::MIN <= old(self).groups()[budget.0].remaining - released <= i64::MAX,
        ensures
            final(self).moved(old(self)),
            final(self).replaced(old(self), key),
            does_remove(*old(self), *final(self), key, budget, released, at, arrival),
            old(self).healthy() && (arrival == Arrival::First ==> old(self).holds().contains_key(key)
                || old(self).unsettled(key)) && !final(self).log().fault() ==> {
                &&& final(self).healthy()
                &&& final(self).holds() == old(self).holds().remove(key)
                &&& final(self).groups() == if old(self).holds().contains_key(key) && uncounts_at(
                    arrival,
                    at,
                ) {
                    without_member(old(self).groups(), budget, released)
                } else {
                    old(self).groups()
                }
            },
    {
        let slot: Option<usize> = self.slot_of(key, arrival);
        let ghost resolved = *self;
        assert(finds(old(self).table(), old(self).log(), resolved.log(), key, arrival, place_of(slot)));
        let counted: bool = match arrival {
            Arrival::First => true,
            Arrival::Again(reflect) => at.raw() > reflect.raw(),
        };
        match slot {
            Some(slot) => {
                self.forget(slot, key);
                let ghost forgot = *self;
                if counted {
                    self.uncount_member(budget, released);
                }
                proof {
                    if !counted {
                        self.lemma_good_kept(&forgot);
                    }
                    forgot.records.lemma_stamps_same(&resolved.records);
                    assert(forgot.wrote(&resolved));
                    forgot.lemma_wrote_through(&resolved, old(self));
                    self.lemma_moved(&forgot, old(self));
                }
            },
            None => {
                assert(!self.held@.contains_key(key) ==> self.held@.remove(key) =~= self.held@);
            },
        }
    }
}

/// A hold with its group's totals along, when it belongs to one.
pub open spec fn with_totals(groups: Map<u128, BudgetState>, hold: HoldData) -> HoldData {
    if groups.contains_key(hold.budget.0) {
        HoldData {
            budget_members: groups[hold.budget.0].members,
            budget_remaining: groups[hold.budget.0].remaining,
            ..hold
        }
    } else {
        hold
    }
}

/// What a lookup of a key answers, given the record that was read for it.
pub open spec fn answer_of(
    groups: Map<u128, BudgetState>,
    key: TxId,
    read: Option<Record>,
) -> Option<HoldData> {
    match read {
        Some((owner, hold)) => if owner == key {
            Some(with_totals(groups, hold))
        } else {
            None
        },
        None => None,
    }
}

/// What a lookup of a key answers.
pub open spec fn answer_to(
    holds: Map<TxId, HoldData>,
    groups: Map<u128, BudgetState>,
    key: TxId,
) -> Option<HoldData> {
    if holds.contains_key(key) {
        Some(with_totals(groups, holds[key]))
    } else {
        None
    }
}

impl PendingEngine<MemoryStore> {
    /// Windows of its own, for a test that wants the buffer small enough to see it compact, or residency
    /// small enough to see a record leave memory.
    pub fn with_windows(flush_blocks: usize, resident_blocks: usize) -> (engine: Self)
        ensures
            engine.wf(),
            engine.healthy(),
            engine.in_order(),
            engine.grounded(),
            engine.table().mask() + 1 == DEFAULT_SLOTS / 4,
            engine.is_fresh(flush_blocks, resident_blocks),
            engine.log().disk().is_blank(),
            engine.dated(),
    {
        let store = MemoryStore::default();
        proof {
            assert(store.pledged() =~= Set::<Written>::empty());
            assert(store.asked() =~= Set::<Asked>::empty());
        }
        let engine = PendingEngine::sized(DEFAULT_SLOTS, flush_blocks, resident_blocks, store);
        proof {
            engine.table().lemma_default_size();
        }
        engine
    }
}

impl Default for PendingEngine<MemoryStore> {
    fn default() -> (engine: Self)
        ensures
            engine.wf(),
            engine.healthy(),
            engine.in_order(),
            engine.grounded(),
            engine.table().mask() + 1 == DEFAULT_SLOTS / 4,
            engine.is_fresh(DEFAULT_FLUSH_BLOCKS, DEFAULT_RESIDENT_BLOCKS),
            engine.log().disk().is_blank(),
            engine.dated(),
    {
        PendingEngine::with_windows(DEFAULT_FLUSH_BLOCKS, DEFAULT_RESIDENT_BLOCKS)
    }
}

impl<S: DurableStore> PendingEngine<S> {
    /// Nothing is indexed and nothing recorded, the windows are as asked for, and there is room to append a
    /// record, to keep one and to close a block.
    pub open spec fn is_fresh(&self, flush_blocks: usize, resident_blocks: usize) -> bool {
        &&& self.table().words() == Seq::new(
            (4 * (self.table().mask() + 1)) as nat,
            |i: int| EMPTY,
        )
        &&& self.table().represents(Map::empty())
        &&& self.table().spec_len() == 0
        &&& !self.table().being_read()
        &&& self.places() == Map::<TxId, RecordAddr>::empty()
        &&& self.log().is_fresh(flush_blocks, resident_blocks)
        &&& self.room_to_drain()
        &&& self.holds() == Map::<TxId, HoldData>::empty()
        &&& self.groups() == Map::<u128, BudgetState>::empty()
        &&& self.decisions() == Map::<TxId, ApplyIndex>::empty()
        &&& self.spec_applied() == 0
        &&& self.spec_applied_through() == ApplyIndex(0)
        &&& self.spec_overflowed() == 0
        &&& self.waiting() == Map::<u64, (u64, TxId)>::empty()
        &&& self.held_up().len() == 0
        &&& self.calendar() == (Calendar {
            today: 0,
            lifetime_days: 0,
            sweep: Sweep { day: None, at_block: 0 },
            swept_blocks: 0,
            outstanding: Seq::empty(),
            drained: 0,
        })
    }

    /// Sized from what the configuration declared. The table does not grow, so this is the only place its
    /// size is decided.
    pub fn sized(slots: usize, flush_blocks: usize, resident_blocks: usize, store: S) -> (engine: Self)
        requires
            slots <= usize::MAX / 4,
            store.wf(),
        ensures
            engine.wf(),
            engine.good(),
            engine.in_order(),
            engine.dated(),
            engine.grounded(),
            engine.log().disk() == store,
            engine.table().sized_for(slots),
            engine.is_fresh(flush_blocks, resident_blocks),
            store.truthful() && store.written() == Set::<Written>::empty() && store.pledged() == Set::<
                Written,
            >::empty() && store.asked() == Set::<Asked>::empty() ==> engine.healthy(),
    {
        let index = HoldTable::with_slots(slots);
        let engine = PendingEngine {
            index,
            records: RecordLog::new(store, flush_blocks, resident_blocks),
            budgets: BTreeMap::new(),
            fetches: HashMap::new(),
            stalled: VecDeque::new(),
            reads: 0,
            today: 0,
            lifetime_days: 0,
            sweep: Sweep { day: None, at_block: 0 },
            swept_blocks: 0,
            outstanding: Vec::new(),
            overflowed: 0,
            applied_through: ApplyIndex(0),
            applied: 0,
            drained: 0,
            at: Ghost(Map::empty()),
            held: Ghost(Map::empty()),
            decided: Ghost(Map::empty()),
        };
        proof {
            engine.index.lemma_size();
            reveal(RecordLog::began_in_order);
            reveal(RecordLog::began_by);
            assert(engine.good()) by {
                reveal(PendingEngine::good);
                assert(engine.at@.dom() =~= engine.held@.dom());
            }
            reveal(PendingEngine::grounded);
            reveal(PendingEngine::dated);
            assert(engine.groups() =~= Map::<u128, BudgetState>::empty());
            assert(engine.waiting() =~= Map::<u64, (u64, TxId)>::empty());
            assert(engine.calendar().outstanding =~= Seq::<(RecordAddr, Transfer)>::empty());
        }
        engine
    }

    /// Whether the engine can take a decision arriving for the first time: whether its counters, its group
    /// sums and the block numbers have room.
    pub fn can_write(&self, effect: PendingEffect, at: ApplyIndex) -> (can: bool)
        requires
            self.wf(),
        ensures
            can == self.can_take(effect, at, Arrival::First),
    {
        if self.applied == u64::MAX {
            return false;
        }
        match effect {
            PendingEffect::Create { amount, budget, .. } => {
                if !self.records.has_room_to_append() {
                    return false;
                }
                if budget.is_absent() || at.raw() == 0 {
                    return true;
                }
                let state: BudgetState = match self.budgets.get(&budget.0) {
                    Some(state) => *state,
                    None => BudgetState::default(),
                };
                state.members < u32::MAX && state.remaining.checked_add(amount).is_some()
            },
            PendingEffect::Reduce { budget, .. } => budget.is_absent()
                && self.records.has_room_to_append(),
            PendingEffect::Remove { budget, released, .. } => {
                if budget.is_absent() {
                    return true;
                }
                match self.budgets.get(&budget.0) {
                    Some(state) => state.remaining.checked_sub(released).is_some(),
                    None => true,
                }
            },
        }
    }

    /// Answers with the hold and, when it belongs to one, its group as a whole: a resolution cannot be
    /// checked for coverage without both.
    pub fn lookup(&mut self, pending_ref: TxId) -> (found: Option<HoldData>)
        requires
            old(self).wf(),
        ensures
            final(self).wrote(old(self)),
            final(self).table() == old(self).table(),
            final(self).holds() == old(self).holds(),
            final(self).places() == old(self).places(),
            final(self).spec_overflowed() == old(self).spec_overflowed(),
            final(self).groups() == old(self).groups(),
            final(self).decisions() == old(self).decisions(),
            old(self).dated() ==> final(self).dated(),
            final(self).spec_applied() == old(self).spec_applied(),
            final(self).spec_applied_through() == old(self).spec_applied_through(),
            old(self).in_order() ==> final(self).in_order(),
            old(self).good() ==> final(self).good(),
            old(self).grounded() ==> final(self).grounded(),
            exists|search: Search<S>| #[trigger]
                searched(
                    old(self).table(),
                    old(self).log(),
                    final(self).log(),
                    pending_ref,
                    search,
                ) && final(self).log().fault() == (old(self).log().fault() || search.failed()) && found
                    == answer_of(
                    old(self).groups(),
                    pending_ref,
                    match search.found(old(self).table(), pending_ref) {
                        Some((_, hold)) => Some((pending_ref, hold)),
                        None => None,
                    },
                ),
            recalls(old(self).table(), old(self).log(), pending_ref) ==> final(self).log().disk() == old(
                self,
            ).log().disk() && final(self).log().fault() == old(self).log().fault(),
            old(self).healthy() && !final(self).log().fault() ==> final(self).healthy() && found
                == answer_to(old(self).holds(), old(self).groups(), pending_ref),
    {
        let found = self.sure_slot(pending_ref);
        proof {
            let search = choose|search: Search<S>| #[trigger]
                searched(old(self).table(), old(self).log(), self.log(), pending_ref, search)
                    && search.found(old(self).table(), pending_ref) == seen(found);
            lemma_search_faults(old(self).table(), old(self).log(), self.log(), pending_ref, search);
            assert(searched(old(self).table(), old(self).log(), self.log(), pending_ref, search));
            self.lemma_read_moves(old(self));
            self.lemma_dated_same(old(self));
            self.lemma_grounded(old(self));
        }
        let read: Option<Record> = match found {
            Some((_, hold)) => Some((pending_ref, hold)),
            None => None,
        };
        self.answer_from(pending_ref, read)
    }

    /// What a lookup of a key answers, given the record that was read for it: the record's hold with its
    /// group's totals, where the record is the key's.
    pub fn answer_from(&self, key: TxId, read: Option<Record>) -> (found: Option<HoldData>)
        ensures
            found == answer_of(self.groups(), key, read),
    {
        match read {
            Some((owner, hold)) => {
                if owner == key {
                    Some(self.with_group(hold))
                } else {
                    None
                }
            },
            None => None,
        }
    }

    fn with_group(&self, hold: HoldData) -> (whole: HoldData)
        ensures
            whole == with_totals(self.groups(), hold),
    {
        let mut whole = hold;
        match self.budgets.get(&hold.budget.0) {
            Some(state) => {
                whole.budget_members = state.members;
                whole.budget_remaining = state.remaining;
            },
            None => {},
        }
        whole
    }

    /// Committed decisions applied so far. An answer carries this, so that the asker can tell one taken
    /// after the writes it had sent from one taken before them.
    pub fn applied(&self) -> (applied: u64)
        ensures
            applied == self.spec_applied(),
    {
        self.applied
    }

    /// The position the group totals reflect, which is everything this engine has applied.
    pub fn applied_through(&self) -> (through: ApplyIndex)
        ensures
            through == self.spec_applied_through(),
    {
        self.applied_through
    }

    /// Fetches asked of the store and not yet answered.
    pub fn inflight(&self) -> (inflight: usize)
        ensures
            self.waiting().len() + self.held_up().len() <= usize::MAX ==> inflight
                == self.waiting().len() + self.held_up().len(),
            self.waiting().len() + self.held_up().len() > usize::MAX ==> inflight == usize::MAX,
    {
        proof {
            assert(self.waiting().dom() =~= self.fetches@.dom());
        }
        self.fetches.len().saturating_add(self.stalled.len())
    }
}

/// A read has been asked of the log's store at most, and nothing else done to the log.
pub open spec fn only_fetched<S: DurableStore>(log: RecordLog<S>, before: RecordLog<S>) -> bool {
    &&& log.wf()
    &&& log.keeps(&before)
    &&& log.disk().truthful() == before.disk().truthful()
    &&& log.fault() == before.fault()
    &&& log.held() == before.held()
    &&& log.books() == before.books()
    &&& log.days() == before.days()
    &&& log.spec_segment() == before.spec_segment()
    &&& log.sweeps() == before.sweeps()
    &&& log.strangers() == before.strangers()
    &&& log.sealed() == before.sealed()
    &&& log.spec_windows() == before.spec_windows()
    &&& same_work(log.counts(), before.counts())
}

/// The answer is a version of the key's hold that the log has in memory, with its group's totals.
pub open spec fn from_memory<S: DurableStore>(
    engine: PendingEngine<S>,
    key: TxId,
    hold: HoldData,
) -> bool {
    exists|addr: RecordAddr, version: HoldData|
        #![trigger with_totals(engine.groups(), version), engine.log().in_memory(addr)]
        engine.log().in_memory(addr) == Some((key, version)) && hold == with_totals(
            engine.groups(),
            version,
        )
}

/// The answer is a version of the key's hold that is on a sealed block, with its group's totals.
pub open spec fn from_rest<S: DurableStore>(
    engine: PendingEngine<S>,
    key: TxId,
    hold: HoldData,
) -> bool {
    exists|addr: RecordAddr, version: HoldData|
        #![trigger with_totals(engine.groups(), version), engine.log().at_rest(addr)]
        engine.log().at_rest(addr) == Some((key, version)) && hold == with_totals(
            engine.groups(),
            version,
        )
}

/// How far a walk gets over what is in memory.
pub ghost enum Course {
    /// It came to the key's hold, or through everything without it.
    Answered(Option<HoldData>),
    /// The first candidate left is not in memory: the store is asked for it.
    Asks(Walking),
    /// It came through everything that was left.
    Through { moved: bool },
}

/// How far a walk gets over the candidates it has left: each in memory is settled, one that has moved away
/// is passed, and the first that only the store may have stops it.
pub open spec fn along<S: DurableStore>(engine: PendingEngine<S>, walk: Walking) -> Course
    decreases walk.left.len(),
{
    if walk.left.len() == 0 {
        Course::Through { moved: walk.moved }
    } else {
        let rest = Walking { left: walk.left.drop_first(), ..walk };
        match engine.log().in_memory(walk.left[0]) {
            Some((owner, hold)) => if owner == walk.key {
                Course::Answered(Some(with_totals(engine.groups(), hold)))
            } else {
                along(engine, rest)
            },
            None => if walk.left[0].is_buffered() {
                along(engine, Walking { moved: true, ..rest })
            } else {
                Course::Asks(walk)
            },
        }
    }
}

/// A walk at its start, over what the index says.
pub open spec fn begins<S: DurableStore>(engine: PendingEngine<S>, handle: u64, key: TxId) -> Walking {
    Walking { handle, key, left: candidates_of(engine.table(), key), moved: false }
}

/// How far a walk gets. One that a candidate which had moved away has spoiled begins again, once.
pub open spec fn course<S: DurableStore>(engine: PendingEngine<S>, walk: Walking) -> Course {
    let first = along(engine, walk);
    let last = if first == (Course::Through { moved: true }) {
        along(engine, begins(engine, walk.handle, walk.key))
    } else {
        first
    };
    if last is Through {
        Course::Answered(None)
    } else {
        last
    }
}

/// What a step of a walk did.
pub ghost enum Step {
    Answered(Option<HoldData>),
    /// The store took the read, and the walk waits for it.
    Waits,
    /// The store would not take the read.
    Held(Walking),
}

/// A walk was taken as far as it gets over what is in memory. Where that is a candidate only the store may
/// have, the store was asked for it under the next number, while there are numbers.
pub open spec fn steps<S: DurableStore>(
    was: PendingEngine<S>,
    after: PendingEngine<S>,
    walk: Walking,
    now: u64,
    step: Step,
) -> bool {
    match course(was, walk) {
        Course::Asks(at) => if was.last_read() + 1 >= OWNER_WEIGHT {
            &&& step == Step::Held(at)
            &&& after.log().disk() == was.log().disk()
            &&& after.log().fetches() == was.log().fetches()
            &&& after.walks() == was.walks()
            &&& after.last_read() == was.last_read()
        } else {
            let number = (was.last_read() + 1) as u64;
            let addr = at.left[0];
            &&& was.log().disk().did(
                Call::Submit {
                    handle: number,
                    object: ObjectId::segment(addr.segment()),
                    offset: addr.block_offset(),
                    now,
                },
                Reply::Flag(step is Waits),
                &after.log().disk(),
            )
            &&& if step is Waits {
                &&& after.log().fetches() == was.log().fetches().insert(number, addr)
                &&& after.walks() == was.walks().insert(number, at)
                &&& after.last_read() == number
            } else {
                &&& step == Step::Held(at)
                &&& after.log().fetches() == was.log().fetches()
                &&& after.walks() == was.walks()
                &&& after.last_read() == was.last_read()
            }
        },
        Course::Answered(found) => {
            &&& step == Step::Answered(found)
            &&& after.log().disk() == was.log().disk()
            &&& after.log().fetches() == was.log().fetches()
            &&& after.walks() == was.walks()
            &&& after.last_read() == was.last_read()
        },
        Course::Through { .. } => false,
    }
}

/// What starting a lookup did: a walk begun over what the index says.
pub open spec fn starts<S: DurableStore>(
    was: PendingEngine<S>,
    after: PendingEngine<S>,
    handle: u64,
    key: TxId,
    now: u64,
    started: Started,
) -> bool {
    let walk = begins(was, handle, key);
    &&& after.stalls() == was.stalls()
    &&& match started {
        Started::Answered(found) => steps(was, after, walk, now, Step::Answered(found)),
        Started::Fetching => steps(was, after, walk, now, Step::Waits),
        Started::Busy => exists|at: Walking| #[trigger] steps(was, after, walk, now, Step::Held(at)),
    }
}

impl<S: DurableStore> PendingEngine<S> {
    /// What a step of a lookup leaves alone.
    pub open spec fn looked(&self, before: &Self) -> bool {
        &&& self.wf()
        &&& only_fetched(self.log(), before.log())
        &&& before.trusted() ==> self.trusted()
        &&& before.good() ==> self.good()
        &&& before.grounded() ==> self.grounded()
        &&& self.table() == before.table()
        &&& self.holds() == before.holds()
        &&& self.places() == before.places()
        &&& self.groups() == before.groups()
        &&& self.decisions() == before.decisions()
        &&& before.dated() ==> self.dated()
        &&& self.calendar() == before.calendar()
        &&& self.spec_applied() == before.spec_applied()
        &&& self.spec_applied_through() == before.spec_applied_through()
        &&& self.spec_overflowed() == before.spec_overflowed()
    }

    /// The walk is at its start, over what the index now says.
    spec fn fresh(&self, fetch: Fetch) -> bool {
        &&& fetch.next == 0
        &&& !fetch.moved
        &&& fetch.candidates.places() == matching(self.index.words(), self.index.mask(), fetch.key)
        &&& forall|i: int|
            0 <= i < fetch.candidates.len ==> #[trigger] fetch.candidates.addrs@[i] == address_of(
                self.index.words()[fetch.candidates.places()[i]],
            )
    }

    fn probe(&self, handle: u64, key: TxId) -> (fetch: Fetch)
        requires
            self.wf(),
        ensures
            fetch.wf(),
            self.fresh(fetch),
            fetch.handle == handle,
            fetch.key == key,
    {
        let candidates = self.index.candidates(key);
        proof {
            assert forall|i: int| 0 <= i < candidates.len implies (#[trigger] candidates.addrs@[i]).fits() by {
                lemma_word(self.index.words()[candidates.places()[i]]);
            }
        }
        Fetch { handle, key, candidates, next: 0, moved: false }
    }

    /// The record of a candidate is there.
    spec fn is_placed(&self, addr: RecordAddr) -> bool {
        exists|record: Record| #[trigger] self.records.holds(addr, record)
    }

    /// A walk at its start is on course, and the record of each of its candidates is there.
    proof fn lemma_fresh_on_course(&self, fetch: Fetch)
        requires
            self.wf(),
            self.good(),
            fetch.wf(),
            self.fresh(fetch),
        ensures
            self.on_course(fetch.from(0)),
            forall|i: int|
                0 <= i < fetch.candidates.len ==> self.is_placed(#[trigger] fetch.candidates.addrs@[i]),
    {
        self.lemma_mask();
        let words = self.index.words();
        let mask = self.index.mask();
        let key = fetch.key;
        let found = matching(words, mask, key);
        let walk = fetch.from(0);
        assert forall|i: int| 0 <= i < walk.left.len() implies self.stands(#[trigger] walk.left[i], key) && self.is_placed(fetch.candidates.addrs@[i]) by {
            let slot = fetch.candidates.places()[i];
            assert(found.contains(slot));
            lemma_matching(words, mask, key, slot);
            assert(fetch.candidates.addrs@[i] == address_of(words[slot]));
            let k = self.lemma_slot_record(slot);
            assert(self.log().holds(walk.left[i], (k, self.held@[k])));
        }
        assert forall|i: int| 0 <= i < fetch.candidates.len implies self.is_placed(
            #[trigger] fetch.candidates.addrs@[i],
        ) by {
            assert(self.stands(walk.left[i], key));
        }
        if self.holds().contains_key(key) {
            reveal(PendingEngine::good);
            assert(self.at@.dom().contains(key));
            law_every_key_is_found(words, mask, self.at@, key);
            let n = choose|n: int|
                0 <= n < found.len() && address_of(words[#[trigger] found[n]]) == self.at@[key];
            assert(fetch.candidates.places()[n] == found[n]);
            assert(fetch.candidates.addrs@[n] == address_of(words[found[n]]));
            assert(walk.left[n] == self.at@[key]);
            assert(self.records.holds(self.at@[key], (key, self.held@[key])));
            assert(self.leads_to(walk.left[n], key));
        }
    }

    /// The record at a candidate's address settles the walk there, or leaves the rest of it on course.
    proof fn lemma_settled(&self, fetch: Fetch, next: int, record: Record)
        requires
            fetch.wf(),
            0 <= next < fetch.candidates.len,
            self.on_course(fetch.from(next)),
            !is_gone(self.log(), fetch.candidates.addrs@[next]),
            forall|other: Record|
                self.records.holds(fetch.candidates.addrs@[next], other) ==> other == record,
        ensures
            record.0 == fetch.key ==> self.held@.contains_key(record.0) && self.held@[record.0]
                == record.1,
            record.0 != fetch.key ==> self.on_course(fetch.from(next + 1)),
    {
        let key = fetch.key;
        let walk = fetch.from(next);
        let rest = fetch.from(next + 1);
        let addr = walk.left[0];
        assert(self.stands(addr, key));
        let there = choose|there: Record| #[trigger]
            self.log().holds(addr, there) && (there.0 == key ==> self.holds().contains_key(key)
                && self.holds()[key] == there.1);
        assert(self.records.holds(addr, there));
        if record.0 != key {
            assert forall|i: int| 0 <= i < rest.left.len() implies self.stands(
                #[trigger] rest.left[i],
                key,
            ) by {
                assert(self.stands(walk.left[i + 1], key));
            }
            if self.holds().contains_key(key) && !rest.moved {
                let i = choose|i: int|
                    0 <= i < walk.left.len() && self.leads_to(#[trigger] walk.left[i], key);
                if i == 0 {
                    assert(self.records.holds(addr, (key, self.holds()[key])));
                    assert(false);
                }
                assert(rest.left[i - 1] == walk.left[i]);
                assert(self.leads_to(rest.left[i - 1], key));
            }
        }
    }

    /// The same for a candidate whose record is in memory; and one whose record is there and whose address
    /// is in the buffer is in memory.
    proof fn lemma_settled_in_memory(&self, fetch: Fetch)
        requires
            self.wf(),
            fetch.wf(),
            fetch.next < fetch.candidates.len,
            self.on_course(fetch.from(fetch.next as int)),
        ensures
            ({
                let addr = fetch.candidates.addrs@[fetch.next as int];
                &&& self.is_placed(addr) && addr.is_buffered() ==> self.records.in_memory(addr) is Some
                &&& self.records.in_memory(addr) matches Some((owner, hold)) ==> {
                    &&& owner == fetch.key ==> self.held@.contains_key(owner) && self.held@[owner] == hold
                    &&& owner != fetch.key ==> self.on_course(fetch.from(fetch.next + 1))
                }
            }),
    {
        let addr = fetch.candidates.addrs@[fetch.next as int];
        if self.is_placed(addr) && addr.is_buffered() {
            let record = choose|record: Record| #[trigger] self.records.holds(addr, record);
            self.records.lemma_holds(addr, record);
        }
        if self.records.in_memory(addr) is Some {
            let record = self.records.in_memory(addr)->0;
            assert forall|other: Record| self.records.holds(addr, other) implies other == record by {
                self.records.lemma_holds(addr, other);
            }
            self.lemma_settled(fetch, fetch.next as int, record);
        }
    }

    /// The same for the candidate whose record a walk is waiting for, once the store has brought it.
    proof fn lemma_settled_at_rest(&self, fetch: Fetch, owner: TxId, hold: HoldData)
        requires
            self.wf(),
            fetch.wf(),
            fetch.is_reading(),
            self.on_course(fetch.from(fetch.next - 1)),
            self.records.at_rest(fetch.candidates.addrs@[fetch.next - 1]) == Some((owner, hold)),
        ensures
            owner == fetch.key ==> self.held@.contains_key(owner) && self.held@[owner] == hold,
            owner != fetch.key ==> self.on_course(fetch.from(fetch.next as int)),
    {
        let addr = fetch.candidates.addrs@[fetch.next - 1];
        assert forall|other: Record| self.records.holds(addr, other) implies other == (owner, hold) by {
            self.records.lemma_rest_is_held(addr, other);
        }
        self.lemma_settled(fetch, fetch.next - 1, (owner, hold));
    }

    /// A candidate that has moved away leaves the rest of the walk to be begun again.
    proof fn lemma_passed(&self, fetch: Fetch, rest: Fetch)
        requires
            fetch.wf(),
            fetch.next < fetch.candidates.len,
            self.on_course(fetch.from(fetch.next as int)),
            rest == (Fetch { next: (fetch.next + 1) as usize, moved: true, ..fetch }),
        ensures
            self.on_course(rest.from(rest.next as int)),
    {
        let walk = fetch.from(fetch.next as int);
        let after = rest.from(rest.next as int);
        assert forall|i: int| 0 <= i < after.left.len() implies self.stands(
            #[trigger] after.left[i],
            fetch.key,
        ) by {
            assert(self.stands(walk.left[i + 1], fetch.key));
        }
    }

    /// Starts a lookup without waiting for the store. What the index gives is candidates, addresses whose
    /// fingerprint matches, and only a record settles which is really this key's: the walk stops at the
    /// first candidate that is in memory and matches, and otherwise asks the store for one and carries the
    /// rest of the walk with it.
    pub fn begin_lookup(&mut self, handle: u64, key: TxId, now: u64) -> (started: Started)
        requires
            old(self).wf(),
        ensures
            final(self).looked(old(self)),
            starts(*old(self), *final(self), handle, key, now, started),
            final(self).held_up() == old(self).held_up(),
            match started {
                Started::Answered(found) => {
                    &&& final(self).waiting() == old(self).waiting()
                    &&& found matches Some(hold) ==> from_memory(*old(self), key, hold)
                    &&& old(self).good() ==> found == answer_to(
                        old(self).holds(),
                        old(self).groups(),
                        key,
                    )
                },
                Started::Fetching => {
                    &&& final(self).last_read() == old(self).last_read() + 1
                    &&& final(self).waiting() == old(self).waiting().insert(
                        final(self).last_read(),
                        (handle, key),
                    )
                },
                Started::Busy => final(self).waiting() == old(self).waiting(),
            },
            old(self).good() ==> forall|h: u64, k: TxId|
                old(self).sure_of(h, k) ==> #[trigger] final(self).sure_of(h, k),
    {
        let fetch = self.probe(handle, key);
        proof {
            if self.good() {
                self.lemma_fresh_on_course(fetch);
            }
        }
        let ghost walk = fetch.from(0);
        assert(walk.left =~= begins(*self, handle, key).left);
        match self.walk(fetch, now) {
            Walk::Answered(found) => Started::Answered(found),
            Walk::Fetching => Started::Fetching,
            Walk::Busy(held) => {
                assert(steps(*old(self), *self, walk, now, Step::Held(held.from(held.next as int))));
                Started::Busy
            },
        }
    }

    /// Settles the candidates that are in memory, in their order, and asks the store for the first that is
    /// not. A walk that a moved candidate has spoiled begins again over what the index now says.
    fn walk(&mut self, begun: Fetch, now: u64) -> (walk: Walk)
        requires
            old(self).wf(),
            begun.wf(),
        ensures
            final(self).looked(old(self)),
            final(self).stalled == old(self).stalled,
            steps(*old(self), *final(self), begun.from(begun.next as int), now, step_of(walk)),
            match walk {
                Walk::Answered(found) => {
                    &&& final(self).waiting() == old(self).waiting()
                    &&& found matches Some(hold) ==> from_memory(*old(self), begun.key, hold)
                    &&& old(self).good() && old(self).on_course(begun.from(begun.next as int)) ==> found
                        == answer_to(old(self).holds(), old(self).groups(), begun.key)
                },
                Walk::Fetching => {
                    &&& final(self).last_read() == old(self).last_read() + 1
                    &&& final(self).waiting() == old(self).waiting().insert(
                        final(self).last_read(),
                        (begun.handle, begun.key),
                    )
                },
                Walk::Busy(fetch) => {
                    &&& final(self).waiting() == old(self).waiting()
                    &&& fetch.wf()
                    &&& fetch.key == begun.key
                    &&& fetch.handle == begun.handle
                    &&& old(self).good() && old(self).on_course(begun.from(begun.next as int))
                        ==> final(self).on_course(fetch.from(fetch.next as int))
                },
            },
            old(self).good() ==> forall|h: u64, k: TxId|
                old(self).sure_of(h, k) && ((h, k) != (begun.handle, begun.key) || old(self).on_course(
                    begun.from(begun.next as int),
                )) ==> #[trigger] final(self).sure_of(h, k),
    {
        let mut fetch = begun;
        let mut probed: bool = false;
        let ghost key = begun.key;
        let ghost first = begun.from(begun.next as int);
        let ghost course = self.good() && self.on_course(begun.from(begun.next as int));
        proof {
            self.lemma_good_kept(self);
        }
        loop
            invariant
                self.looked(old(self)),
                self.stalled == old(self).stalled,
                self.fetches == old(self).fetches,
                self.reads == old(self).reads,
                self.index == old(self).index,
                self.budgets == old(self).budgets,
                self.records.disk() == old(self).records.disk(),
                self.records.fetches() == old(self).records.fetches(),
                self.at == old(self).at,
                self.held == old(self).held,
                self.decided == old(self).decided,
                old(self).wf(),
                key == begun.key,
                fetch.wf(),
                fetch.key == key,
                fetch.handle == begun.handle,
                probed ==> along(*old(self), first) == (Course::Through { moved: true }),
                along(*old(self), fetch.from(fetch.next as int)) == along(
                    *old(self),
                    if probed {
                        begins(*old(self), begun.handle, begun.key)
                    } else {
                        first
                    },
                ),
                first == begun.from(begun.next as int),
                course == (old(self).good() && old(self).on_course(begun.from(begun.next as int))),
                course ==> old(self).on_course(fetch.from(fetch.next as int)),
                course && probed ==> !fetch.moved && forall|i: int|
                    0 <= i < fetch.candidates.len ==> old(self).is_placed(
                        #[trigger] fetch.candidates.addrs@[i],
                    ),
            decreases
                    if probed {
                        0int
                    } else {
                        1
                    },
                    fetch.candidates.len - fetch.next,
        {
            if fetch.next >= fetch.candidates.len() {
                if fetch.moved && !probed {
                    fetch = self.probe(fetch.handle, fetch.key);
                    probed = true;
                    proof {
                        assert(fetch.from(0).left =~= begins(*old(self), begun.handle, begun.key).left);
                        if course {
                            assert(old(self).fresh(fetch));
                            old(self).lemma_fresh_on_course(fetch);
                        }
                    }
                    continue ;
                }
                proof {
                    self.lemma_walked_on(old(self));
                }
                return Walk::Answered(None);
            }
            let addr = fetch.candidates.address(fetch.next);
            let ghost was = *self;
            let ghost before = fetch;
            proof {
                if course {
                    old(self).lemma_settled_in_memory(before);
                    assert(probed ==> old(self).is_placed(before.candidates.addrs@[before.next as int]));
                }
            }
            fetch.next = fetch.next + 1;
            assert(fetch.from(fetch.next as int).left =~= before.from(before.next as int).left.drop_first());
            let read = self.records.try_read(addr);
            proof {
                self.lemma_good_kept(&was);
                self.lemma_dated_same(&was);
                self.lemma_numbered(&was);
                self.lemma_keeps(&was, old(self));
                self.lemma_grounded(&was);
            }
            match read {
                Some((owner, hold)) => {
                    if owner == fetch.key {
                        assert(old(self).records.in_memory(addr) == Some((key, hold)));
                        let whole = self.with_group(hold);
                        assert(whole == with_totals(old(self).groups(), hold));
                        proof {
                            self.lemma_walked_on(old(self));
                        }
                        return Walk::Answered(Some(whole));
                    }
                },
                None => {
                    if addr.is_buffered() {
                        fetch.moved = true;
                        proof {
                            if course {
                                old(self).lemma_passed(before, fetch);
                            }
                        }
                    } else {
                        if self.reads + 1 >= OWNER_WEIGHT {
                            fetch.next = fetch.next - 1;
                            proof {
                                if course {
                                    lemma_on_course(*self, *old(self), fetch.from(fetch.next as int));
                                }
                                self.lemma_walked_on(old(self));
                            }
                            return Walk::Busy(fetch);
                        }
                        let number: u64 = self.reads + 1;
                        let ghost read_state = *self;
                        if !self.records.fetch(number, addr, now) {
                            fetch.next = fetch.next - 1;
                            proof {
                                self.lemma_dated_same(&read_state);
                                self.lemma_asked(&read_state, old(self), number);
                                if course {
                                    lemma_on_course(*self, *old(self), fetch.from(fetch.next as int));
                                }
                                self.lemma_walked_on(old(self));
                            }
                            return Walk::Busy(fetch);
                        }
                        let ghost waits = fetch;
                        self.reads = number;
                        self.fetches.insert(number, fetch);
                        proof {
                            self.lemma_dated_same(&read_state);
                            self.lemma_asked(&read_state, old(self), number);
                            assert(self.waiting() =~= old(self).waiting().insert(
                                number,
                                (begun.handle, key),
                            ));
                            assert(waits.from(waits.next - 1) == before.from(before.next as int));
                            assert(self.walks()[number] == waits.from(waits.next - 1));
                            if course {
                                lemma_on_course(*self, *old(self), waits.from(waits.next - 1));
                                assert(self.reads_on_course(number));
                            }
                            assert(self.walks() =~= old(self).walks().insert(
                                number,
                                self.walks()[number],
                            ));
                            self.lemma_walks_on(old(self), number, begun.handle, key, course);
                        }
                        return Walk::Fetching;
                    }
                },
            }
        }
    }

    /// No lookup but the one being walked has moved.
    proof fn lemma_walked_on(&self, before: &Self)
        requires
            self.fetches == before.fetches,
            self.stalled == before.stalled,
            self.held == before.held,
            self.decided == before.decided,
            self.records.fetches() == before.records.fetches(),
            self.records.keeps(&before.records),
            self.records.held() == before.records.held(),
        ensures
            forall|h: u64, k: TxId| before.sure_of(h, k) ==> #[trigger] self.sure_of(h, k),
    {
        assert forall|h: u64, k: TxId| before.sure_of(h, k) implies #[trigger] self.sure_of(h, k) by {
            law_a_lookup_stays_on_course(*self, *before, h, k);
        }
    }

    /// One lookup more is waiting, and no other has moved.
    proof fn lemma_walks_on(&self, before: &Self, number: u64, handle: u64, key: TxId, course: bool)
        requires
            self.walks() == before.walks().insert(number, self.walks()[number]),
            self.walks()[number].handle == handle,
            self.walks()[number].key == key,
            self.stalled == before.stalled,
            self.held == before.held,
            self.decided == before.decided,
            self.records.fetches() == before.records.fetches().insert(
                number,
                self.records.fetches()[number],
            ),
            course ==> self.reads_on_course(number),
            self.records.keeps(&before.records),
            self.records.held() == before.records.held(),
        ensures
            forall|h: u64, k: TxId|
                before.sure_of(h, k) && ((h, k) != (handle, key) || course) ==> #[trigger] self.sure_of(
                    h,
                    k,
                ),
    {
        assert forall|h: u64, k: TxId|
            before.sure_of(h, k) && ((h, k) != (handle, key) || course) implies #[trigger] self.sure_of(
            h,
            k,
        ) by {
            assert forall|n: u64| #[trigger]
                self.walks().contains_key(n) && self.walks()[n].handle == h && self.walks()[n].key
                    == k implies self.reads_on_course(n) by {
                if n != number {
                    assert(before.walks().contains_key(n));
                    assert(before.reads_on_course(n));
                    lemma_on_course(*self, *before, self.walks()[n]);
                }
            }
            assert forall|i: int|
                0 <= i < self.stalls().len() && (#[trigger] self.stalls()[i]).handle == h
                    && self.stalls()[i].key == k implies self.on_course(self.stalls()[i]) by {
                assert(before.on_course(before.stalls()[i]));
                lemma_on_course(*self, *before, self.stalls()[i]);
            }
        }
    }

    proof fn lemma_keeps(&self, between: &Self, before: &Self)
        requires
            self.records.keeps(&between.records),
            between.records.keeps(&before.records),
        ensures
            self.records.keeps(&before.records),
    {
        assert forall|a: RecordAddr, r: Record| before.records.holds(a, r) implies #[trigger] self.records.holds(
            a,
            r,
        ) by {
            assert(between.records.holds(a, r));
        }
    }

    /// Asking for a read under a number not used yet keeps what is trusted.
    proof fn lemma_asked(&self, between: &Self, before: &Self, number: u64)
        requires
            before.trusted() ==> between.trusted(),
            number == between.reads + 1,
            number < OWNER_WEIGHT,
            number == self.reads || self.reads == between.reads,
            self.reads == between.reads ==> self.records.fetches() == between.records.fetches(),
            between.records.sound() && between.records.unasked(number) ==> self.records.sound(),
            self.records.disk().truthful() == between.records.disk().truthful(),
            forall|h: u64|
                h != number && between.records.unasked(h) ==> #[trigger] self.records.unasked(h),
            self.reads == between.reads ==> (between.records.unasked(number)
                ==> self.records.unasked(number)),
            self.records.keeps(&between.records),
            between.records.keeps(&before.records),
            self.index == between.index,
            self.at == between.at,
            self.held == between.held,
            self.decided == between.decided,
            before.good() ==> between.good(),
            self.outstanding@ == between.outstanding@,
            before.grounded() ==> between.grounded(),
        ensures
            before.grounded() ==> self.grounded(),
            before.trusted() ==> self.trusted(),
            before.good() ==> self.good(),
            self.records.keeps(&before.records),
    {
        self.lemma_good_kept(between);
        self.lemma_keeps(between, before);
        self.lemma_grounded(between);
        if before.trusted() {
            assert(between.records.unasked(number));
            assert forall|h: u64| self.reads < h < OWNER_WEIGHT implies #[trigger] self.records.unasked(h) by {
                assert(between.records.unasked(h));
            }
        }
    }
}

impl<S: DurableStore> PendingEngine<S> {
    /// What moving records about leaves alone: the holds, the groups, the day and the lookups.
    pub open spec fn carried(&self, before: &Self) -> bool {
        &&& self.shuffled(before)
        &&& before.good() ==> self.good()
        &&& before.good() && before.in_order() && before.dated() ==> self.dated()
    }

    /// The same, but for whether each hold's record is at its place.
    pub open spec fn shuffled(&self, before: &Self) -> bool {
        &&& self.wf()
        &&& before.log().sound() ==> self.log().sound()
        &&& before.trusted() ==> self.trusted()
        &&& before.grounded() ==> self.grounded()
        &&& before.in_order() ==> self.in_order()
        &&& self.holds() == before.holds()
        &&& self.groups() == before.groups()
        &&& self.decisions() == before.decisions()
        &&& self.waiting() == before.waiting()
        &&& self.held_up() == before.held_up()
        &&& self.left_alone(before)
        &&& self.spec_applied() == before.spec_applied()
        &&& self.spec_applied_through() == before.spec_applied_through()
        &&& self.spec_overflowed() == before.spec_overflowed()
        &&& self.calendar() == (Calendar { drained: self.calendar().drained, ..before.calendar() })
        &&& self.table().mask() == before.table().mask()
        &&& self.table().same_snapshot(&before.table())
        &&& self.log().spec_windows() == before.log().spec_windows()
    }

    proof fn lemma_shuffled(&self, between: &Self, before: &Self)
        requires
            self.shuffled(between),
            between.shuffled(before),
        ensures
            self.shuffled(before),
    {
        self.lemma_mask();
        between.lemma_mask();
        assert forall|i: int|
            0 <= i < self.index.words().len() && i / 4 >= self.index.read_through()
                && self.index.being_read() implies #[trigger] self.index.snapshot_word(i)
            == before.index.snapshot_word(i) by {
            assert(between.index.snapshot_word(i) == before.index.snapshot_word(i));
        }
    }

    /// A record that the index points at is its key's hold, and a hold's record is pointed at.
    proof fn lemma_alive(&self, key: TxId, hold: HoldData, addr: RecordAddr)
        requires
            self.wf(),
            self.good(),
            self.records.holds(addr, (key, hold)),
        ensures
            pointing(self.index.words(), self.index.mask(), key, addr).len() > 0
                <==> self.at@.contains_key(key) && self.at@[key] == addr,
            self.at@.contains_key(key) && self.at@[key] == addr ==> self.held@.contains_key(key)
                && self.held@[key] == hold && is_own(
                self.index.words(),
                self.index.mask(),
                self.at@,
                key,
                pointing(self.index.words(), self.index.mask(), key, addr)[0],
            ),
    {
        self.lemma_mask();
        let words = self.index.words();
        let mask = self.index.mask();
        if pointing(words, mask, key, addr).len() > 0 {
            lemma_pointing_first(words, mask, key, addr);
            let k = self.lemma_slot_record(pointing(words, mask, key, addr)[0]);
            self.records.lemma_holds_one(addr, (key, hold), (k, self.held@[k]));
        }
        if self.at@.contains_key(key) && self.at@[key] == addr {
            reveal(PendingEngine::good);
            law_every_key_is_found(words, mask, self.at@, key);
            lemma_pointing_first(words, mask, key, addr);
            assert(self.records.holds(self.at@[key], (key, self.held@[key])));
            self.records.lemma_holds_one(addr, (key, hold), (key, self.held@[key]));
            assert(self.held@.dom().contains(key));
        }
    }

    /// Carries one survivor on, and moves its index entry with it.
    fn carry(&mut self, key: TxId, hold: HoldData, old_addr: RecordAddr, from: ApplyIndex)
        requires
            old(self).wf(),
            old(self).log().held().open.filled == 51 ==> old(self).log().room_to_seal(1),
            old(self).log().held().buffer@[0].filled > 0,
            from == old(self).log().held().buffer@[0].began_at,
        ensures
            final(self).shuffled(old(self)),
            final(self).drained == old(self).drained,
            final(self).log().disk() == old(self).log().disk(),
            final(self).log().fault() == old(self).log().fault(),
            final(self).log().keeps(&old(self).log()),
            final(self).log().closed_since(&old(self).log()),
            final(self).log().held().buffer == old(self).log().held().buffer,
            final(self).log().held().oldest == old(self).log().held().oldest,
            final(self).log().held().oldest_resident == old(self).log().held().oldest_resident,
            !packing_place(old(self).log(), 0).is_buffered(),
            final(self).log().in_memory(packing_place(old(self).log(), 0)) == Some((key, hold)),
            forall|other: RecordAddr| #[trigger]
                old(self).log().in_memory(other) is Some ==> final(self).log().in_memory(other)
                    == old(self).log().in_memory(other),
            final(self).log().spec_segment() == old(self).log().spec_segment(),
            final(self).log().counts() == (LogTraffic {
                carried_on: plus(old(self).log().counts().carried_on, 1),
                ..old(self).log().counts()
            }),
            final(self).table().words() == moved_entry(
                old(self).table().words(),
                old(self).table().mask(),
                key,
                old_addr,
                packing_place(old(self).log(), 0),
            ),
            old(self).log().held().open.filled < 51 ==> {
                &&& final(self).log().held().next_block == old(self).log().held().next_block
                &&& final(self).log().held().open.filled == old(self).log().held().open.filled + 1
            },
            old(self).log().held().open.filled == 51 ==> {
                &&& final(self).log().held().next_block == old(self).log().held().next_block + 1
                &&& final(self).log().held().open.filled == 1
            },
            old(self).good() && old(self).places().contains_key(key) && old(self).places()[key]
                == old_addr && old(self).log().holds(old_addr, (key, hold)) ==> {
                &&& final(self).good()
                &&& final(self).places().dom() == old(self).places().dom()
                &&& final(self).places()[key] == packing_place(old(self).log(), 0)
                &&& forall|k: TxId|
                    k != key ==> #[trigger] final(self).places()[k] == old(self).places()[k]
                &&& old(self).in_order() && old(self).dated() && old_addr.is_buffered() && old_addr.block()
                    == old(self).log().held().oldest ==> final(self).dated()
            },
    {
        let new_addr = self.write_on(key, hold, from);
        let ghost kept = *self;
        self.move_entry(key, old_addr, new_addr);
        let ghost moved = *self;
        proof {
            let was = old(self);
            self.lemma_shuffled(&kept, was);
            if was.good() && was.at@.contains_key(key) && was.at@[key] == old_addr && was.records.holds(
                old_addr,
                (key, hold),
            ) {
                was.lemma_alive(key, hold, old_addr);
                self.at@ = self.at@.insert(key, new_addr);
                self.lemma_carry_good(was, key, hold, old_addr, new_addr);
                self.lemma_grounded(&moved);
                self.lemma_numbered(&moved);
                self.lemma_same_table(&moved);
                assert(self.shuffled(&moved));
                self.lemma_shuffled(&moved, was);
                if was.in_order() && was.dated() && old_addr.is_buffered() && old_addr.block()
                    == was.records.held().oldest {
                    self.lemma_carry_dated(was, key, old_addr, new_addr);
                }
            }
        }
    }

    /// Writes a survivor on towards the store.
    fn write_on(&mut self, key: TxId, hold: HoldData, from: ApplyIndex) -> (addr: RecordAddr)
        requires
            old(self).wf(),
            old(self).log().held().open.filled == 51 ==> old(self).log().room_to_seal(1),
            old(self).log().held().buffer@[0].filled > 0,
            from == old(self).log().held().buffer@[0].began_at,
        ensures
            final(self).shuffled(old(self)),
            final(self).index == old(self).index,
            final(self).at == old(self).at,
            final(self).held == old(self).held,
            final(self).decided == old(self).decided,
            final(self).drained == old(self).drained,
            addr.fits(),
            !addr.is_buffered(),
            addr == packing_place(old(self).log(), 0),
            final(self).log().in_memory(addr) == Some((key, hold)),
            forall|other: RecordAddr| #[trigger]
                old(self).log().in_memory(other) is Some ==> final(self).log().in_memory(other)
                    == old(self).log().in_memory(other),
            final(self).log().spec_segment() == old(self).log().spec_segment(),
            final(self).log().counts() == (LogTraffic {
                carried_on: plus(old(self).log().counts().carried_on, 1),
                ..old(self).log().counts()
            }),
            final(self).log().holds(addr, (key, hold)),
            forall|r: Record| !old(self).log().holds(addr, r),
            old(self).in_order() ==> final(self).log().stamps_stay(&old(self).log())
                && final(self).log().stamp(addr).0 <= from.0,
            final(self).log().disk() == old(self).log().disk(),
            final(self).log().closed_since(&old(self).log()),
            final(self).log().fault() == old(self).log().fault(),
            final(self).log().keeps(&old(self).log()),
            final(self).log().held().buffer == old(self).log().held().buffer,
            final(self).log().held().oldest == old(self).log().held().oldest,
            final(self).log().held().oldest_resident == old(self).log().held().oldest_resident,
            old(self).log().held().open.filled < 51 ==> {
                &&& final(self).log().held().next_block == old(self).log().held().next_block
                &&& final(self).log().held().open.filled == old(self).log().held().open.filled + 1
            },
            old(self).log().held().open.filled == 51 ==> {
                &&& final(self).log().held().next_block == old(self).log().held().next_block + 1
                &&& final(self).log().held().open.filled == 1
            },
    {
        proof {
            self.records.lemma_open_bound();
        }
        let addr = self.records.keep(key, &hold, from);
        proof {
            self.lemma_grounded(old(self));
            self.lemma_numbered(old(self));
            self.lemma_same_table(old(self));
        }
        addr
    }

    /// Moves a key's index entry from one address to another.
    fn move_entry(&mut self, key: TxId, from: RecordAddr, to: RecordAddr)
        requires
            old(self).wf(),
            to.fits(),
        ensures
            final(self).shuffled(old(self)),
            final(self).records == old(self).records,
            final(self).at == old(self).at,
            final(self).held == old(self).held,
            final(self).decided == old(self).decided,
            final(self).drained == old(self).drained,
            final(self).index.mask() == old(self).index.mask(),
            ({
                let found = pointing(old(self).index.words(), old(self).index.mask(), key, from);
                final(self).index.words() == if found.len() > 0 {
                    old(self).index.words().update(
                        found[0],
                        repointed(old(self).index.words()[found[0]], to),
                    )
                } else {
                    old(self).index.words()
                }
            }),
    {
        self.index.replace(key, from, to);
        proof {
            self.lemma_grounded(old(self));
            self.lemma_numbered(old(self));
        }
    }

    proof fn lemma_carry_good(
        &self,
        was: &Self,
        key: TxId,
        hold: HoldData,
        old_addr: RecordAddr,
        new_addr: RecordAddr,
    )
        requires
            was.wf(),
            was.good(),
            was.at@.contains_key(key),
            was.at@[key] == old_addr,
            was.held@.contains_key(key),
            was.held@[key] == hold,
            new_addr.fits(),
            pointing(was.index.words(), was.index.mask(), key, old_addr).len() > 0,
            is_own(
                was.index.words(),
                was.index.mask(),
                was.at@,
                key,
                pointing(was.index.words(), was.index.mask(), key, old_addr)[0],
            ),
            self.index.mask() == was.index.mask(),
            ({
                let slot = pointing(was.index.words(), was.index.mask(), key, old_addr)[0];
                self.index.words() == was.index.words().update(
                    slot,
                    repointed(was.index.words()[slot], new_addr),
                )
            }),
            self.at@ == was.at@.insert(key, new_addr),
            self.held@ == was.held@,
            self.records.keeps(&was.records),
            self.records.holds(new_addr, (key, hold)),
            forall|r: Record| !was.records.holds(new_addr, r),
        ensures
            self.good(),
            self.at@.dom() == was.at@.dom(),
    {
        let slot = pointing(was.index.words(), was.index.mask(), key, old_addr)[0];
        was.lemma_mask();
        reveal(PendingEngine::good);
        law_a_repoint_moves_one_key(
            was.index.words(),
            was.index.mask(),
            was.at@,
            key,
            slot,
            new_addr,
        );
        assert(self.at@.dom() =~= self.held@.dom());
        assert(self.at@.dom() =~= was.at@.dom());
        assert forall|k: TxId| #[trigger] self.at@.contains_key(k) implies self.records.holds(
            self.at@[k],
            (k, self.held@[k]),
        ) by {
            if k != key {
                assert(was.at@.contains_key(k));
                assert(was.records.holds(was.at@[k], (k, was.held@[k])));
            }
        }
        assert(one_key_each(self.at@)) by {
            assert forall|one: TxId, other: TxId| #[trigger]
                self.at@.contains_key(one) && #[trigger] self.at@.contains_key(other) && self.at@[one]
                    == self.at@[other] implies one == other by {
                if one != key {
                    assert(was.at@.contains_key(one));
                    assert(was.records.holds(was.at@[one], (one, was.held@[one])));
                }
                if other != key {
                    assert(was.at@.contains_key(other));
                    assert(was.records.holds(was.at@[other], (other, was.held@[other])));
                }
            }
        }
    }

    /// A survivor is kept with nothing later than it was in the buffer.
    proof fn lemma_carry_dated(
        &self,
        was: &Self,
        key: TxId,
        old_addr: RecordAddr,
        new_addr: RecordAddr,
    )
        requires
            was.wf(),
            self.wf(),
            was.good(),
            self.good(),
            was.dated(),
            was.at@.contains_key(key),
            was.at@[key] == old_addr,
            old_addr.is_buffered(),
            self.records.stamp(new_addr).0 <= was.records.stamp(old_addr).0,
            self.records.stamps_stay(&was.records),
            self.at@ == was.at@.insert(key, new_addr),
            self.decided == was.decided,
        ensures
            self.dated(),
    {
        assert forall|k: TxId| #[trigger]
            self.at@.contains_key(k) && !self.records.spec_is_durable(
                self.at@[k],
            ) implies self.decided@.contains_key(k) && self.records.stamp(self.at@[k]).0
            <= self.decided@[k].0 by {
            assert(was.at@.contains_key(k));
            was.lemma_at(k);
            if k != key {
                self.lemma_at(k);
                self.records.lemma_stamp_stays(
                    &was.records,
                    self.at@[k],
                    (k, was.held@[k]),
                    (k, self.held@[k]),
                );
            }
            assert(was.decided@.contains_key(k) && was.records.stamp(was.at@[k]).0
                <= was.decided@[k].0) by {
                reveal(PendingEngine::dated);
                assert(!was.records.spec_is_durable(was.at@[k]));
            }
        }
        reveal(PendingEngine::dated);
    }

    /// Carries the oldest buffered block's survivors on and drops the rest. A record is alive exactly when
    /// the index still points at it: a resolved hold has no entry and a superseded version's entry has
    /// moved on. Both tests are address comparisons, so compaction reads nothing.
    #[verifier::rlimit(80)]
    #[verifier::spinoff_prover]
    fn compact_oldest(&mut self)
        requires
            old(self).wf(),
            old(self).log().held().buffer@.len() > 1,
            old(self).log().room_to_seal(1),
        ensures
            final(self).carried(old(self)),
            compacts(*old(self), *final(self)),
            final(self).drained == old(self).drained,
            final(self).log().disk() == old(self).log().disk(),
            final(self).log().closed_since(&old(self).log()),
            final(self).log().fault() == old(self).log().fault(),
            final(self).log().held().buffer@ == old(self).log().held().buffer@.drop_first(),
            final(self).log().held().oldest == old(self).log().held().oldest + 1,
            old(self).log().held().next_block <= final(self).log().held().next_block <= old(self).log().held().next_block + 1,
    {
        proof {
            self.records.lemma_open_bound();
        }
        let records = self.records.oldest_block();
        let from = self.records.oldest_began_at();
        let ghost oldest = self.records.held().oldest;
        let mut survivors: Vec<Placed> = Vec::new();
        let mut died: usize = 0;
        let mut i: usize = 0;
        while i < records.len()
            invariant
                i <= records@.len() <= 51,
                *self == *old(self),
                self.wf(),
                oldest == self.records.held().oldest,
                oldest < BLOCK_VALUES,
                died == i - survivors@.len(),
                survivors@.len() <= i,
                survivors@ == alive_in(records@.take(i as int), self.index),
                forall|n: int|
                    0 <= n < records@.len() ==> {
                        let (key, hold, addr) = #[trigger] records@[n];
                        &&& addr == RecordAddr::buffered(oldest, n as u8)
                        &&& self.records.holds(addr, (key, hold))
                    },
                forall|s: int|
                    0 <= s < survivors@.len() ==> {
                        let (key, hold, addr) = #[trigger] survivors@[s];
                        &&& addr.is_buffered()
                        &&& addr.block() == oldest
                        &&& addr.index() < i
                        &&& self.records.holds(addr, (key, hold))
                        &&& pointing(self.index.words(), self.index.mask(), key, addr).len() > 0
                    },
                forall|s: int, t: int|
                    0 <= s < t < survivors@.len() ==> (#[trigger] survivors@[s]).2 != (
                    #[trigger] survivors@[t]).2,
                forall|n: int|
                    0 <= n < i && pointing(
                        self.index.words(),
                        self.index.mask(),
                        (#[trigger] records@[n]).0,
                        records@[n].2,
                    ).len() > 0 ==> survivors@.contains(records@[n]),
            decreases records@.len() - i,
        {
            let (key, hold, addr) = records[i];
            proof {
                self.records.lemma_holds(addr, (key, hold));
                law_address_parts(63, oldest, i as u8);
            }
            let ghost before = survivors@;
            assert(records@.take(i + 1).drop_last() =~= records@.take(i as int));
            if self.index.points_at(key, addr) {
                survivors.push((key, hold, addr));
                assert(survivors@.last() == records@[i as int]);
            } else {
                died += 1;
            }
            assert forall|n: int|
                0 <= n < i + 1 && pointing(
                    self.index.words(),
                    self.index.mask(),
                    (#[trigger] records@[n]).0,
                    records@[n].2,
                ).len() > 0 implies survivors@.contains(records@[n]) by {
                if n < i {
                    let s = choose|s: int| 0 <= s < before.len() && before[s] == records@[n];
                    assert(survivors@[s] == records@[n]);
                } else {
                    assert(survivors@[before.len() as int] == records@[n]);
                }
            }
            i += 1;
        }
        let ghost chosen = *self;
        proof {
            assert(records@.take(records@.len() as int) =~= records@);
            assert(records@ =~= oldest_records(self.records));
        }
        let ghost start = self.records.held().next_block;
        let ghost filled = self.records.held().open.filled;
        proof {
            if self.good() {
                self.lemma_survivors(records@, survivors@);
            }
            self.lemma_shuffled_refl();
            self.records.lemma_closed_none(&self.records);
        }
        let mut j: usize = 0;
        while j < survivors.len()
            invariant
                j <= survivors@.len() <= 51,
                chosen == *old(self),
                chosen.wf(),
                self.shuffled(old(self)),
                self.drained == old(self).drained,
                self.records.disk() == old(self).records.disk(),
                self.records.fault() == old(self).records.fault(),
                self.records.keeps(&old(self).records),
                self.records.closed_since(&old(self).records),
                self.records.held().buffer == old(self).records.held().buffer,
                self.records.held().oldest == oldest,
                oldest == old(self).records.held().oldest,
                self.records.held().buffer@.len() > 1,
                old(self).records.held().next_block == start,
                old(self).records.room_to_seal(1),
                from == self.records.held().buffer@[0].began_at,
                self.records.held().buffer@[0].filled > 0,
                start <= self.records.held().next_block <= start + 1,
                self.records.held().next_block == start ==> self.records.held().open.filled == filled
                    + j,
                self.records.held().next_block == start + 1 ==> self.records.held().open.filled == filled
                    + j - 51,
                filled == old(self).records.held().open.filled,
                self.records.spec_segment() == old(self).records.spec_segment(),
                self.records.counts() == (LogTraffic {
                    carried_on: plus(old(self).records.counts().carried_on, j as u64),
                    ..old(self).records.counts()
                }),
                self.index.mask() == old(self).index.mask(),
                self.index.words() == moved_entries(
                    old(self).index.words(),
                    old(self).index.mask(),
                    survivors@,
                    old(self).records,
                    j as nat,
                ),
                forall|n: int|
                    0 <= n < j ==> !(#[trigger] packing_place(old(self).records, n)).is_buffered()
                        && self.records.in_memory(packing_place(old(self).records, n)) == Some(
                        (survivors@[n].0, survivors@[n].1),
                    ),
                filled <= 51,
                forall|s: int|
                    0 <= s < survivors@.len() ==> {
                        let (key, hold, addr) = #[trigger] survivors@[s];
                        &&& addr.is_buffered()
                        &&& addr.block() == oldest
                        &&& old(self).records.holds(addr, (key, hold))
                    },
                old(self).good() && old(self).in_order() && old(self).dated() ==> self.dated(),
                old(self).good() ==> {
                    &&& self.good()
                    &&& self.at@.dom() == old(self).at@.dom()
                    &&& forall|s: int|
                        0 <= s < j ==> self.at@[(#[trigger] survivors@[s]).0] == packing_place(
                            old(self).records,
                            s,
                        )
                    &&& forall|s: int|
                        j <= s < survivors@.len() ==> self.at@.contains_key(
                            (#[trigger] survivors@[s]).0,
                        ) && self.at@[survivors@[s].0] == survivors@[s].2
                    &&& forall|s: int, t: int|
                        0 <= s < t < survivors@.len() ==> (#[trigger] survivors@[s]).0 != (
                        #[trigger] survivors@[t]).0
                    &&& forall|k: TxId|
                        #![trigger self.at@[k]]
                        self.at@.contains_key(k) && self.at@[k].is_buffered() && self.at@[k].block()
                            == oldest ==> exists|s: int|
                            j <= s < survivors@.len() && (#[trigger] survivors@[s]).0 == k
                },
            decreases survivors@.len() - j,
        {
            let (key, hold, addr) = survivors[j];
            let ghost was = *self;
            proof {
                was.lemma_open_bound();
                assert(old(self).records.holds(survivors@[j as int].2, (key, hold)));
            }
            self.carry(key, hold, addr, from);
            proof {
                assert(packing_place(was.records, 0) == packing_place(old(self).records, j as int));
                self.lemma_shuffled(&was, old(self));
                self.lemma_keeps(&was, old(self));
                self.records.lemma_closed_through(&was.records, &old(self).records);
                if old(self).good() {
                    assert(was.records.holds(addr, (key, hold)));
                    assert(self.at@.dom() == old(self).at@.dom());
                    assert forall|s: int| 0 <= s < j + 1 implies self.at@[(#[trigger] survivors@[s]).0]
                        == packing_place(old(self).records, s) by {
                        if s < j {
                            assert(survivors@[s].0 != survivors@[j as int].0);
                            assert(self.places()[survivors@[s].0] == was.places()[survivors@[s].0]);
                        }
                    }
                    assert forall|s: int| j + 1 <= s < survivors@.len() implies self.at@.contains_key(
                        (#[trigger] survivors@[s]).0,
                    ) && self.at@[survivors@[s].0] == survivors@[s].2 by {
                        assert(survivors@[j as int].0 != survivors@[s].0);
                        assert(was.at@.contains_key(survivors@[s].0));
                        assert(self.places()[survivors@[s].0] == was.places()[survivors@[s].0]);
                        assert(self.at@.dom().contains(survivors@[s].0));
                    }
                    assert forall|k: TxId|
                        #![trigger self.at@[k]]
                        self.at@.contains_key(k) && self.at@[k].is_buffered() && self.at@[k].block()
                            == oldest implies exists|s: int|
                        j + 1 <= s < survivors@.len() && (#[trigger] survivors@[s]).0 == k by {
                        if k != key {
                            assert(self.places()[k] == was.places()[k]);
                            assert(was.at@.dom().contains(k));
                            let s = choose|s: int|
                                j <= s < survivors@.len() && (#[trigger] survivors@[s]).0 == k;
                            assert(s != j);
                            assert(survivors@[s].0 == k);
                        }
                    }
                }
            }
            j += 1;
        }
        let ghost moved = *self;
        self.records.drop_oldest(died);
        proof {
            self.lemma_numbered(&moved);
            self.lemma_grounded(&moved);
            if moved.good() && old(self).good() {
                reveal(PendingEngine::good);
                assert forall|k: TxId| #[trigger] self.at@.contains_key(k) implies self.records.holds(
                    self.at@[k],
                    (k, self.held@[k]),
                ) by {
                    assert(moved.records.holds(moved.at@[k], (k, moved.held@[k])));
                    assert(!(moved.at@[k].is_buffered() && moved.at@[k].block() == oldest));
                }
            }
            if old(self).good() && old(self).in_order() && old(self).dated() {
                self.lemma_dated_still(&moved);
            }
            self.lemma_same_table(&moved);
            self.lemma_shuffled(&moved, old(self));
            self.records.lemma_closed_none(&moved.records);
            self.records.lemma_closed_through(&moved.records, &old(self).records);
        }
    }

    proof fn lemma_open_bound(&self)
        requires
            self.wf(),
        ensures
            self.records.held().open.filled <= 51,
    {
        self.records.lemma_open_bound();
    }

    proof fn lemma_shuffled_refl(&self)
        requires
            self.wf(),
        ensures
            self.shuffled(self),
            self.records.keeps(&self.records),
    {
    }

    /// A log that lost only records no hold has, under the same table, is the same engine.
    proof fn lemma_same_table(&self, before: &Self)
        requires
            self.index == before.index,
        ensures
            self.index.same_snapshot(&before.index),
    {
    }

    /// In a good engine the survivors of the oldest block are the holds whose record is in it.
    proof fn lemma_survivors(&self, records: Seq<Placed>, survivors: Seq<Placed>)
        requires
            self.wf(),
            self.good(),
            records.len() == self.records.held().buffer@[0].filled <= 51,
            forall|n: int|
                0 <= n < records.len() ==> {
                    let (key, hold, addr) = #[trigger] records[n];
                    &&& addr == RecordAddr::buffered(self.records.held().oldest, n as u8)
                    &&& self.records.holds(addr, (key, hold))
                },
            forall|s: int|
                0 <= s < survivors.len() ==> {
                    let (key, hold, addr) = #[trigger] survivors[s];
                    &&& self.records.holds(addr, (key, hold))
                    &&& pointing(self.index.words(), self.index.mask(), key, addr).len() > 0
                },
            forall|s: int, t: int|
                0 <= s < t < survivors.len() ==> (#[trigger] survivors[s]).2 != (#[trigger] survivors[t]).2,
            forall|n: int|
                0 <= n < records.len() && pointing(
                    self.index.words(),
                    self.index.mask(),
                    (#[trigger] records[n]).0,
                    records[n].2,
                ).len() > 0 ==> survivors.contains(records[n]),
        ensures
            forall|s: int|
                0 <= s < survivors.len() ==> self.at@.contains_key((#[trigger] survivors[s]).0)
                    && self.at@[survivors[s].0] == survivors[s].2,
            forall|s: int, t: int|
                0 <= s < t < survivors.len() ==> (#[trigger] survivors[s]).0 != (#[trigger] survivors[t]).0,
            forall|k: TxId|
                #![trigger self.at@[k]]
                self.at@.contains_key(k) && self.at@[k].is_buffered() && self.at@[k].block()
                    == self.records.held().oldest ==> exists|s: int|
                    0 <= s < survivors.len() && (#[trigger] survivors[s]).0 == k,
    {
        assert forall|s: int| 0 <= s < survivors.len() implies self.at@.contains_key(
            (#[trigger] survivors[s]).0,
        ) && self.at@[survivors[s].0] == survivors[s].2 by {
            let (key, hold, addr) = survivors[s];
            self.lemma_alive(key, hold, addr);
        }
        assert forall|k: TxId|
            #![trigger self.at@[k]]
            self.at@.contains_key(k) && self.at@[k].is_buffered() && self.at@[k].block()
                == self.records.held().oldest implies exists|s: int|
            0 <= s < survivors.len() && (#[trigger] survivors[s]).0 == k by {
            let addr = self.at@[k];
            assert(self.records.holds(addr, (k, self.held@[k]))) by {
                reveal(PendingEngine::good);
            }
            self.records.lemma_holds(addr, (k, self.held@[k]));
            law_address_is_its_parts(addr);
            let n = addr.index() as int;
            self.lemma_front(addr);
            let (key, hold, at) = records[n];
            law_address_parts(63, self.records.held().oldest, n as u8);
            assert(at == addr);
            self.records.lemma_holds_one(addr, (key, hold), (k, self.held@[k]));
            self.lemma_alive(k, hold, addr);
            assert(survivors.contains(records[n]));
            let s = choose|s: int| 0 <= s < survivors.len() && survivors[s] == records[n];
            assert(survivors[s].0 == k);
        }
    }

    /// An address in the oldest buffered block that has a record names one of the block's own.
    proof fn lemma_front(&self, addr: RecordAddr)
        requires
            self.wf(),
            addr.is_buffered(),
            addr.block() == self.records.held().oldest,
            self.records.in_memory(addr) is Some,
        ensures
            addr.index() < self.records.held().buffer@[0].filled,
            addr.segment() == 63,
    {
    }
}

impl<S: DurableStore> PendingEngine<S> {
    /// There is room in the block numbers for a round that closes a block for each buffered one.
    pub open spec fn room_to_drain(&self) -> bool {
        self.log().room_to_seal(self.log().held().buffer@.len() as int + 1)
    }

    /// Whether there is room in the block numbers for a drain.
    pub fn can_drain(&self) -> (can: bool)
        requires
            self.wf(),
        ensures
            can == self.room_to_drain(),
    {
        self.records.has_room_to_drain()
    }

    /// Compacts up to this many of the blocks over the flush window, oldest first, and hands the store
    /// whatever is owed it. Answers whether it did anything.
    pub fn drain(&mut self, blocks: usize, now: u64) -> (any: bool)
        requires
            old(self).wf(),
            old(self).room_to_drain(),
        ensures
            final(self).carried(old(self)),
            final(self).log().fault() == old(self).log().fault(),
            ({
                let had = old(self).log().held().buffer@.len();
                let has = final(self).log().held().buffer@.len();
                let window = old(self).log().spec_windows().0;
                &&& has == left_buffered(had as int, window as int, blocks as int)
                &&& final(self).log().held().buffer@ == old(self).log().held().buffer@.subrange(
                    had - has,
                    had as int,
                )
                &&& final(self).calendar().drained == plus(
                    old(self).calendar().drained,
                    (had - has) as u64,
                )
                &&& drains(old(self).log(), final(self).log(), now, has < had, any)
                &&& exists|steps: Seq<PendingEngine<S>>| #[trigger]
                    compacts_all(*old(self), steps, had - has) && final(self).written_out(
                        &steps.last(),
                    )
            }),
    {
        proof {
            self.lemma_shuffled_refl();
            self.records.lemma_open_bound();
            self.records.lemma_closed_none(&self.records);
            assert(self.records.held().buffer@ =~= self.records.held().buffer@.subrange(
                0,
                self.records.held().buffer@.len() as int,
            ));
        }
        let ghost had = self.records.held().buffer@;
        let ghost mut steps: Seq<PendingEngine<S>> = seq![*self];
        let mut left: usize = blocks;
        let mut any: bool = false;
        while left > 0 && self.records.over_window()
            invariant
                old(self).wf(),
                self.carried(old(self)),
                had == old(self).records.held().buffer@,
                old(self).room_to_drain(),
                self.records.fault() == old(self).records.fault(),
                self.records.disk() == old(self).records.disk(),
                self.records.closed_since(&old(self).records),
                self.records.spec_windows() == old(self).records.spec_windows(),
                self.records.spec_windows().0 >= 1,
                left <= blocks,
                self.records.held().buffer@.len() == had.len() - (blocks - left),
                self.records.held().buffer@ == had.subrange(blocks - left, had.len() as int),
                left < blocks ==> self.records.held().buffer@.len() >= self.records.spec_windows().0,
                self.records.held().next_block <= old(self).records.held().next_block + (blocks
                    - left),
                any == (left < blocks),
                self.drained == plus(old(self).drained, (blocks - left) as u64),
                compacts_all(*old(self), steps, blocks - left),
                steps.last() == *self,
            decreases left,
        {
            let ghost was = *self;
            self.compact_oldest();
            let ghost moved = *self;
            self.drained = add_count(self.drained, 1);
            proof {
                self.lemma_wrote_out(&moved);
                self.lemma_shuffled(&moved, &was);
                self.lemma_shuffled(&was, old(self));
                self.records.lemma_closed_through(&was.records, &old(self).records);
                assert(self.records.held().buffer@ =~= had.subrange(
                    blocks - left + 1,
                    had.len() as int,
                ));
            }
            any = true;
            left = left - 1;
            proof {
                assert(compacts(was, *self));
                steps = steps.push(*self);
            }
        }
        let ghost compacted = *self;
        let issued: bool = self.records.submit_writes(now);
        proof {
            self.lemma_wrote_out(&compacted);
            self.lemma_shuffled(&compacted, old(self));
            let owed = compacted.records.books().pending@.len();
            assert(compacted.records.issues(
                now,
                (owed - self.records.books().pending@.len()) as nat,
                self.records.disk(),
            ));
        }
        any || issued
    }

    /// Nothing has changed but what the log has handed the store.
    pub open spec fn written_out(&self, before: &Self) -> bool {
        &&& self.table() == before.table()
        &&& self.places() == before.places()
        &&& self.log().held() == before.log().held()
        &&& self.log().days() == before.log().days()
        &&& self.log().counts() == before.log().counts()
    }

    /// A step of the log that keeps every record and its own account of what is not durable carries the
    /// engine.
    proof fn lemma_wrote_out(&self, before: &Self)
        requires
            before.wf(),
            self.records.wf(),
            self.index == before.index,
            self.budgets == before.budgets,
            self.fetches == before.fetches,
            self.stalled == before.stalled,
            self.reads == before.reads,
            self.calendar() == (Calendar { drained: self.drained, ..before.calendar() }),
            self.overflowed == before.overflowed,
            self.applied_through == before.applied_through,
            self.applied == before.applied,
            self.at == before.at,
            self.held == before.held,
            self.decided == before.decided,
            self.records.keeps(&before.records),
            before.records.sound() ==> self.records.sound(),
            self.records.disk().truthful() == before.records.disk().truthful(),
            forall|h: u64| before.records.unasked(h) ==> #[trigger] self.records.unasked(h),
            before.records.began_in_order() ==> self.records.began_in_order() || (self.records.held()
                == before.records.held() && self.records.books().unsynced
                == before.records.books().unsynced && self.records.books().after_barrier
                == before.records.books().after_barrier),
            forall|at: ApplyIndex|
                before.records.began_by(at) ==> #[trigger] self.records.began_by(at) || (
                self.records.held() == before.records.held() && self.records.books().unsynced
                    == before.records.books().unsynced && self.records.books().after_barrier
                    == before.records.books().after_barrier),
            self.records.spec_windows() == before.records.spec_windows(),
            self.records.fetches() == before.records.fetches(),
            self.records.held().oldest == before.records.held().oldest,
            before.records.began_in_order() ==> self.records.stamps_stay(&before.records) || (
            self.records.held() == before.records.held() && self.records.books().unsynced
                == before.records.books().unsynced && self.records.books().after_barrier
                == before.records.books().after_barrier),
        ensures
            self.carried(before),
    {
        self.lemma_good_kept(before);
        if self.records.held() == before.records.held() && self.records.books().unsynced
            == before.records.books().unsynced && self.records.books().after_barrier
            == before.records.books().after_barrier {
            self.records.lemma_stamps_same(&before.records);
        }
        if before.good() && before.in_order() && before.dated() {
            self.lemma_dated_still(before);
        }
        self.lemma_grounded(before);
        self.lemma_same_table(before);
        if before.numbered() {
            assert forall|h: u64| self.reads < h < OWNER_WEIGHT implies #[trigger] self.records.unasked(h) by {
                assert(before.records.unasked(h));
            }
        }
        if self.records.held() == before.records.held() && self.records.books().unsynced
            == before.records.books().unsynced && self.records.books().after_barrier
            == before.records.books().after_barrier {
            self.records.lemma_began_same(&before.records);
        }
    }

    /// Takes every write and barrier the store has answered. Answers whether it took any.
    pub fn collect_writes(&mut self, now: u64) -> (any: bool)
        requires
            old(self).wf(),
        ensures
            final(self).carried(old(self)),
            final(self).table() == old(self).table(),
            final(self).places() == old(self).places(),
            final(self).calendar() == old(self).calendar(),
            old(self).log().takes_answers(&final(self).log(), any, now),
            old(self).log().lets_go(&final(self).log()),
            final(self).log().held().resident@.len() <= final(self).log().spec_windows().1 || owes(
                final(self).log().books().pending@,
                final(self).log().held().oldest_resident,
            ) || awaits(
                final(self).log().books().submitted@,
                final(self).log().held().oldest_resident,
            ),
            final(self).log().held().oldest_resident > old(self).log().held().oldest_resident
                ==> final(self).log().held().resident@.len() >= final(self).log().spec_windows().1,
            old(self).log().fault() ==> final(self).log().fault(),
            final(self).log().held().buffer == old(self).log().held().buffer,
            final(self).log().held().oldest == old(self).log().held().oldest,
            final(self).log().held().open == old(self).log().held().open,
            final(self).log().held().next_block == old(self).log().held().next_block,
            final(self).log().books().pending == old(self).log().books().pending,
            final(self).log().books().start == old(self).log().books().start,
            final(self).log().books().taken == old(self).log().books().taken,
            final(self).log().brought() == old(self).log().brought(),
            final(self).log().days() == old(self).log().days(),
            final(self).log().fetches() == old(self).log().fetches(),
            final(self).log().sweeps() == old(self).log().sweeps(),
            old(self).log().books().covered@.subset_of(final(self).log().books().covered@),
            !any ==> final(self).log().books() == old(self).log().books() && final(self).log().fault() == old(self).log().fault(),
    {
        let any: bool = self.records.collect_writes(now);
        proof {
            self.lemma_wrote_out(old(self));
        }
        any
    }

    /// Makes durable what has been closed, and answers whether a barrier went out. Whoever runs the loop
    /// decides how often: the cost of asking rarely is a coverage that lags.
    pub fn sync(&mut self, now: u64) -> (asked: bool)
        requires
            old(self).wf(),
        ensures
            final(self).carried(old(self)),
            final(self).table() == old(self).table(),
            final(self).places() == old(self).places(),
            final(self).calendar() == old(self).calendar(),
            old(self).log().syncs(&final(self).log(), asked, now),
            final(self).log().fault() == old(self).log().fault(),
            final(self).log().held() == old(self).log().held(),
            asked ==> {
                &&& old(self).log().books().unsynced is Some
                &&& old(self).log().books().barrier is None
                &&& final(self).log().books().barrier is Some
                &&& final(self).log().books().pending@.len() == 0
            },
            !asked ==> final(self).log().books().barrier == old(self).log().books().barrier,
            final(self).log().books().unsynced == old(self).log().books().unsynced,
            final(self).log().books().covered == old(self).log().books().covered,
    {
        let asked: bool = self.records.sync(now);
        proof {
            self.lemma_wrote_out(old(self));
        }
        asked
    }

    /// Whether the store has refused something since this was last asked, taken as it is read.
    pub fn take_store_fault(&mut self) -> (owed: bool)
        requires
            old(self).wf(),
        ensures
            final(self).carried(old(self)),
            final(self).table() == old(self).table(),
            final(self).places() == old(self).places(),
            final(self).calendar() == old(self).calendar(),
            owed == old(self).log().fault(),
            !final(self).log().fault(),
            final(self).log().held() == old(self).log().held(),
            final(self).log().books() == old(self).log().books(),
            final(self).log().disk() == old(self).log().disk(),
            final(self).log().days() == old(self).log().days(),
            final(self).log().counts() == old(self).log().counts(),
            final(self).log().sweeps() == old(self).log().sweeps(),
    {
        let owed: bool = self.records.take_fault();
        proof {
            assert forall|h: u64| old(self).records.unasked(h) implies #[trigger] self.records.unasked(h) by {}
            self.lemma_wrote_out(old(self));
        }
        owed
    }

    /// Device time the store's synchronous calls have cost since this was last asked.
    pub fn take_store_charge(&mut self) -> (charge: u64)
        requires
            old(self).wf(),
        ensures
            final(self).carried(old(self)),
            final(self).table() == old(self).table(),
            final(self).places() == old(self).places(),
            final(self).calendar() == old(self).calendar(),
            old(self).log().disk().did(
                Call::TakeCharge,
                Reply::Amount(charge),
                &final(self).log().disk(),
            ),
            final(self).log().fault() == old(self).log().fault(),
            final(self).log().held() == old(self).log().held(),
            final(self).log().books() == old(self).log().books(),
            final(self).log().days() == old(self).log().days(),
            final(self).log().counts() == old(self).log().counts(),
            final(self).log().sweeps() == old(self).log().sweeps(),
    {
        let charge: u64 = self.records.take_store_charge();
        proof {
            self.lemma_wrote_out(old(self));
        }
        charge
    }

    /// Blocks the writeback buffer is holding.
    pub fn buffered_blocks(&self) -> (blocks: usize)
        ensures
            blocks == self.log().held().buffer@.len(),
    {
        self.records.buffered_blocks()
    }

    /// Blocks closed or submitted and not yet answered for.
    pub fn writes_outstanding(&self) -> (writes: usize)
        ensures
            writes == self.log().books().outstanding(),
    {
        self.records.writes_outstanding()
    }

    /// Buffered blocks compacted so far.
    pub fn drained_blocks(&self) -> (blocks: u64)
        ensures
            blocks == self.calendar().drained,
    {
        self.drained
    }

    /// What the volume these holds are on has done.
    pub fn volume_stats(&self) -> (stats: VolumeStats)
        requires
            self.wf(),
        ensures
            self.log().disk().counted() matches Some(counted) ==> stats == counted,
    {
        self.records.volume_stats()
    }

    /// The log position a snapshot of this engine would cover: everything up to it is durable, so replay
    /// starts after it and rebuilds what the buffer still holds. Zero means it covers nothing.
    pub fn coverage(&self) -> (through: ApplyIndex)
        requires
            self.wf(),
        ensures
            through == self.log().covered_through(self.spec_applied_through()),
    {
        self.records.durable_through(self.applied_through)
    }

    /// Blocks handed back to the store, which is the only way it shrinks.
    pub fn freed_blocks(&self) -> (blocks: u64)
        ensures
            blocks == self.log().counts().freed,
    {
        self.records.traffic().freed
    }

    /// Whether the index's per-segment counts still add up to its entries.
    pub fn counts_agree(&self) -> (agree: bool)
        ensures
            agree == (summed(self.table().tallies()) == self.table().tally()),
            self.wf() ==> agree,
    {
        self.index.counts_agree()
    }

    /// What the engine has done, with what the index and the calendar say.
    pub fn traffic(&self) -> (traffic: LogTraffic)
        requires
            self.wf(),
        ensures
            traffic == (LogTraffic {
                index_live: self.table().spec_len() as usize,
                index_slots: self.table().words().len() as usize,
                worst_cascade: self.table().spec_worst_hops(),
                ambiguous: self.table().spec_ambiguous(),
                overflowed: self.spec_overflowed(),
                segment: self.log().spec_segment(),
                days_behind: days_behind_of(self.calendar()),
                days_of_slack: days_of_slack_of(self.calendar()),
                swept_blocks: self.calendar().swept_blocks,
                ..self.log().counts()
            }),
    {
        let (_, worst_cascade) = self.index.kick_stats();
        let mut traffic = self.records.traffic();
        traffic.index_live = self.index.len();
        traffic.index_slots = self.index.slots();
        traffic.worst_cascade = worst_cascade;
        traffic.ambiguous = self.index.ambiguous();
        traffic.overflowed = self.overflowed;
        traffic.segment = self.records.segment();
        traffic.days_behind = self.days_behind();
        traffic.days_of_slack = self.days_of_slack();
        traffic.swept_blocks = self.swept_blocks;
        traffic
    }
}

/// The oldest day still waiting to be emptied, and how many such days there are. None when nothing has
/// run out.
pub open spec fn behind_of(calendar: Calendar) -> Option<(u64, u64)> {
    match calendar.sweep.day {
        Some(day) => if day + calendar.lifetime_days <= calendar.today {
            Some((day, plus((calendar.today - calendar.lifetime_days - day) as u64, 1)))
        } else {
            None
        },
        None => None,
    }
}

/// How many expired days are still waiting to be emptied.
pub open spec fn days_behind_of(calendar: Calendar) -> u64 {
    match behind_of(calendar) {
        Some((_, behind)) => behind,
        None => 0,
    }
}

/// The segment being emptied, if a day has run out.
pub open spec fn expiring_of(calendar: Calendar) -> Option<u8> {
    match behind_of(calendar) {
        Some((day, _)) => Some((day % SEGMENTS) as u8),
        None => None,
    }
}

/// Days the sweep may still fall behind before the calendar stops.
pub open spec fn days_of_slack_of(calendar: Calendar) -> u64 {
    match calendar.sweep.day {
        None => SEGMENTS,
        Some(oldest) => {
            let span = if calendar.today > oldest {
                calendar.today - oldest + 1
            } else {
                1
            };
            if span < SEGMENTS {
                (SEGMENTS - span) as u64
            } else {
                0
            }
        },
    }
}

/// The most recent day at or before this one whose segment has a number.
pub open spec fn day_in_segment(today: u64, segment: int) -> Option<u64> {
    let back = (today % SEGMENTS + SEGMENTS - segment) % SEGMENTS as int;
    if back <= today {
        Some((today - back) as u64)
    } else {
        None
    }
}

/// A day that has expired and that the index still has entries in.
pub open spec fn unfinished(table: HoldTable, today: u64, lifetime_days: u64, segment: int) -> Option<u64> {
    if table.spec_live_in(segment) == 0 {
        None
    } else {
        match day_in_segment(today, segment) {
            Some(day) => if day + lifetime_days <= today {
                Some(day)
            } else {
                None
            },
            None => None,
        }
    }
}

/// The oldest of the expired days in the first few segments that the index still has entries in, and the
/// day that has just expired when there is none.
pub open spec fn oldest_of(table: HoldTable, today: u64, lifetime_days: u64, n: nat) -> u64
    decreases n,
{
    if n == 0 {
        if today >= lifetime_days {
            (today - lifetime_days) as u64
        } else {
            0
        }
    } else {
        let rest = oldest_of(table, today, lifetime_days, (n - 1) as nat);
        match unfinished(table, today, lifetime_days, n - 1) {
            Some(day) => if day < rest {
                day
            } else {
                rest
            },
            None => rest,
        }
    }
}

impl<S: DurableStore> PendingEngine<S> {
    /// How many expired days are still waiting to be emptied. One is the ordinary state.
    pub fn days_behind(&self) -> (behind: u64)
        ensures
            behind == days_behind_of(self.calendar()),
    {
        match self.behind() {
            Some((_, behind)) => behind,
            None => 0,
        }
    }

    fn behind(&self) -> (behind: Option<(u64, u64)>)
        ensures
            behind == behind_of(self.calendar()),
    {
        match self.sweep.day {
            None => None,
            Some(day) => {
                if self.today < self.lifetime_days {
                    return None;
                }
                let expired_through: u64 = self.today - self.lifetime_days;
                if expired_through < day {
                    None
                } else {
                    let days: u64 = expired_through - day;
                    Some((day, days.saturating_add(1)))
                }
            },
        }
    }

    /// Whether a day is still waiting to be emptied at all.
    pub fn sweeping(&self) -> (sweeping: bool)
        ensures
            sweeping == (days_behind_of(self.calendar()) > 0),
    {
        self.days_behind() > 0
    }

    /// The segment being emptied, if a day has run out.
    pub fn expiring_segment(&self) -> (segment: Option<u8>)
        ensures
            segment == expiring_of(self.calendar()),
            segment matches Some(segment) ==> segment < SEGMENTS,
    {
        match self.behind() {
            Some((day, _)) => Some((day % SEGMENTS) as u8),
            None => None,
        }
    }

    /// Days the sweep may still fall behind before the calendar stops. Zero means it has stopped.
    pub fn days_of_slack(&self) -> (days: u64)
        ensures
            days == days_of_slack_of(self.calendar()),
    {
        match self.sweep.day {
            None => SEGMENTS,
            Some(oldest) => SEGMENTS.saturating_sub(
                self.today.saturating_sub(oldest).saturating_add(1),
            ),
        }
    }

    /// The day whose records are being written.
    pub fn today(&self) -> (day: u64)
        ensures
            day == self.calendar().today,
    {
        self.today
    }

    /// Blocks of expiring days the sweep has read.
    pub fn swept_blocks(&self) -> (blocks: u64)
        ensures
            blocks == self.calendar().swept_blocks,
    {
        self.swept_blocks
    }
}

/// Opening this day would still leave every live day a segment number of its own: a segment's number is
/// its day's modulo the segments there are, so the day being written must not come round to a day the
/// sweep has not emptied.
pub open spec fn has_a_segment(sweep: Sweep, day: u64) -> bool {
    match sweep.day {
        None => true,
        Some(oldest) => day < oldest + SEGMENTS,
    }
}

/// What a round of draining owed and issued: the blocks that were closed when the oldest buffered ones were
/// moved are owed behind the rest, and everything owed is offered to the store, oldest first, until it takes
/// no more. Something was done if something moved or was issued.
pub open spec fn drains<S: DurableStore>(
    was: RecordLog<S>,
    after: RecordLog<S>,
    now: u64,
    moved: bool,
    any: bool,
) -> bool {
    exists|between: RecordLog<S>, taken: nat| #[trigger]
        between.issues(now, taken, after.disk()) && between.disk() == was.disk() && between.closed_since(
            &was,
        ) && after.issued(&between, taken) && any == (moved || taken > 0)
}

/// The blocks a drain leaves in the buffer, of those it had: it writes out what is past the window, so many blocks
/// at most.
pub open spec fn left_buffered(had: int, window: int, blocks: int) -> int {
    if had <= window {
        had
    } else if had - blocks > window {
        had - blocks
    } else {
        window
    }
}

/// The records of the oldest buffered block, oldest first.
pub open spec fn oldest_records<S: DurableStore>(log: RecordLog<S>) -> Seq<Placed> {
    Seq::new(
        log.held().buffer@[0].filled as nat,
        |i: int|
            {
                let addr = RecordAddr::buffered(log.held().oldest, i as u8);
                let record = log.in_memory(addr).unwrap();
                (record.0, record.1, addr)
            },
    )
}

/// Those of some records that the index points at, in their order.
pub open spec fn alive_in(records: Seq<Placed>, table: HoldTable) -> Seq<Placed>
    decreases records.len(),
{
    if records.len() == 0 {
        Seq::empty()
    } else {
        let earlier = alive_in(records.drop_last(), table);
        let (key, hold, addr) = records.last();
        if is_alive(table, addr, key) {
            earlier.push((key, hold, addr))
        } else {
            earlier
        }
    }
}

/// What is carried on is exactly what the index points at: a record that has been resolved or
/// superseded is not among the survivors, and no other is left behind.
pub proof fn law_the_survivors_are_what_the_index_points_at(records: Seq<Placed>, table: HoldTable)
    ensures
        alive_in(records, table).len() <= records.len(),
        forall|placed: Placed| #[trigger]
            alive_in(records, table).contains(placed) <==> records.contains(placed) && is_alive(
                table,
                placed.2,
                placed.0,
            ),
    decreases records.len(),
{
    if records.len() > 0 {
        let earlier = records.drop_last();
        law_the_survivors_are_what_the_index_points_at(earlier, table);
        assert forall|placed: Placed| #[trigger]
            alive_in(records, table).contains(placed) <==> records.contains(placed) && is_alive(
                table,
                placed.2,
                placed.0,
            ) by {
            assert(records =~= earlier.push(records.last()));
            broadcast use vstd::seq_lib::group_seq_properties;

        }
    }
}

/// A hold resolved before its block is compacted is not carried on, and neither is a version of a hold
/// that another has superseded: what is carried on is the record of a hold that stands, as it stands.
pub proof fn law_only_holds_that_stand_are_carried_on<S: DurableStore>(
    engine: PendingEngine<S>,
    placed: Placed,
)
    requires
        engine.wf(),
        engine.good(),
        alive_in(oldest_records(engine.log()), engine.table()).contains(placed),
    ensures
        engine.holds().contains_key(placed.0),
        engine.holds()[placed.0] == placed.1,
        engine.places().contains_key(placed.0),
        engine.places()[placed.0] == placed.2,
{
    let records = oldest_records(engine.log());
    law_the_survivors_are_what_the_index_points_at(records, engine.table());
    let i = choose|i: int| 0 <= i < records.len() && records[i] == placed;
    engine.records.lemma_oldest(i);
    engine.lemma_alive_in_memory(placed.0, placed.1, placed.2);
    engine.lemma_alive(placed.0, placed.1, placed.2);
}

/// Where a survivor goes that so many others go ahead of: into the block being packed, or, once that
/// is full, into the one after it.
pub open spec fn packing_place<S: DurableStore>(log: RecordLog<S>, n: int) -> RecordAddr {
    let at = log.held().open.filled + n;
    if at < RECORDS_PER_BLOCK {
        RecordAddr::new(log.spec_segment(), log.held().next_block, at as u8)
    } else {
        RecordAddr::new(
            log.spec_segment(),
            (log.held().next_block + 1) as u64,
            (at - RECORDS_PER_BLOCK) as u8,
        )
    }
}

/// The words of the index once an entry that points at an address points at another.
pub open spec fn moved_entry(
    words: Seq<u64>,
    mask: u64,
    key: TxId,
    from: RecordAddr,
    to: RecordAddr,
) -> Seq<u64> {
    let found = pointing(words, mask, key, from);
    if found.len() > 0 {
        words.update(found[0], repointed(words[found[0]], to))
    } else {
        words
    }
}

/// The words of the index once the first few survivors have been carried on.
pub open spec fn moved_entries<S: DurableStore>(
    words: Seq<u64>,
    mask: u64,
    alive: Seq<Placed>,
    log: RecordLog<S>,
    n: nat,
) -> Seq<u64>
    decreases n,
{
    if n == 0 {
        words
    } else {
        moved_entry(
            moved_entries(words, mask, alive, log, (n - 1) as nat),
            mask,
            alive[n - 1].0,
            alive[n - 1].2,
            packing_place(log, n - 1),
        )
    }
}

/// The oldest buffered block was compacted: the records on it that the index points at went on, in
/// their order, to the block being packed, the index points at them there, and the rest were dropped.
pub open spec fn compacts<S: DurableStore>(was: PendingEngine<S>, after: PendingEngine<S>) -> bool {
    let records = oldest_records(was.log());
    let alive = alive_in(records, was.table());
    &&& alive.len() <= records.len()
    &&& forall|n: int|
        0 <= n < alive.len() ==> after.log().in_memory(#[trigger] packing_place(was.log(), n)) == Some(
            (alive[n].0, alive[n].1),
        )
    &&& was.good() ==> forall|n: int|
        0 <= n < alive.len() ==> after.places()[(#[trigger] alive[n]).0] == packing_place(was.log(), n)
    &&& after.table().words() == moved_entries(
        was.table().words(),
        was.table().mask(),
        alive,
        was.log(),
        alive.len(),
    )
    &&& after.log().held().buffer@ == was.log().held().buffer@.drop_first()
    &&& after.log().held().oldest == was.log().held().oldest + 1
    &&& after.log().counts() == (LogTraffic {
        carried_on: plus(was.log().counts().carried_on, alive.len() as u64),
        died_in_buffer: plus(
            was.log().counts().died_in_buffer,
            (records.len() - alive.len()) as u64,
        ),
        ..was.log().counts()
    })
}

/// So many buffered blocks were compacted, oldest first.
pub open spec fn compacts_all<S: DurableStore>(
    was: PendingEngine<S>,
    steps: Seq<PendingEngine<S>>,
    blocks: int,
) -> bool {
    &&& steps.len() == blocks + 1
    &&& steps[0] == was
    &&& forall|i: int, j: int|
        #![trigger steps[i], steps[j]]
        0 <= i && j == i + 1 && j < steps.len() ==> compacts(steps[i], steps[j])
}

/// The calendar once a caller has said what day it is, before the day is opened.
pub open spec fn told(calendar: Calendar, table: HoldTable, day: u64, lifetime_days: u64) -> Calendar {
    Calendar {
        lifetime_days,
        sweep: Sweep {
            day: match calendar.sweep.day {
                Some(oldest) => Some(oldest),
                None => Some(oldest_of(table, day, lifetime_days, 63)),
            },
            at_block: calendar.sweep.at_block,
        },
        ..calendar
    }
}

/// The index points at the record a void was built from.
pub open spec fn is_alive(table: HoldTable, addr: RecordAddr, key: TxId) -> bool {
    pointing(table.words(), table.mask(), key, addr).len() > 0
}

/// The days once every segment but the open one that the index has no entry in is freed, as far as a
/// segment.
pub open spec fn freed_through(
    days: Seq<BlockRange>,
    table: HoldTable,
    open: u8,
    n: int,
) -> Seq<BlockRange> {
    Seq::new(
        days.len(),
        |s: int|
            if s < n && s != open && table.spec_live_in(s) == 0 {
                BlockRange { first: 0, blocks: 0 }
            } else {
                days[s]
            },
    )
}

/// The removals owed once those segments are freed, in the order of the segments: one for each that has
/// blocks.
pub open spec fn freed_owed(days: Seq<BlockRange>, table: HoldTable, open: u8, n: nat) -> Seq<Owed>
    decreases n,
{
    if n == 0 {
        Seq::empty()
    } else {
        let rest = freed_owed(days, table, open, (n - 1) as nat);
        if n - 1 != open && table.spec_live_in(n - 1) == 0 && days[n - 1].blocks > 0 {
            rest.push(Owed::Free((n - 1) as u8))
        } else {
            rest
        }
    }
}

/// The blocks that freeing those segments hands back, held at the largest a word can carry.
pub open spec fn freed_count(days: Seq<BlockRange>, table: HoldTable, open: u8, n: nat) -> u64
    decreases n,
{
    if n == 0 {
        0
    } else {
        let rest = freed_count(days, table, open, (n - 1) as nat);
        if n - 1 != open && table.spec_live_in(n - 1) == 0 {
            plus(rest, days[n - 1].blocks)
        } else {
            rest
        }
    }
}

impl<S: DurableStore> PendingEngine<S> {
    /// Where the cursor starts: the oldest expired day the index still has entries in, or the day that has
    /// just expired if there is none. The counts make a leadership change safe, because they are a
    /// function of the log: an expired day with entries left is one somebody left unfinished.
    fn oldest_unfinished_day(&self, today: u64, lifetime_days: u64) -> (day: u64)
        requires
            self.wf(),
        ensures
            day == oldest_of(self.table(), today, lifetime_days, 63),
    {
        let mut oldest: u64 = today.saturating_sub(lifetime_days);
        let mut segment: u64 = 0;
        while segment < SEGMENTS
            invariant
                self.wf(),
                segment <= 63,
                oldest == oldest_of(self.index, today, lifetime_days, segment as nat),
            decreases 63 - segment,
        {
            if self.index.live_in_segment(segment as u8) > 0 {
                let back: u64 = (today % SEGMENTS + SEGMENTS - segment) % SEGMENTS;
                if back <= today {
                    let day: u64 = today - back;
                    if lifetime_days <= today && day <= today - lifetime_days && day < oldest {
                        oldest = day;
                    }
                }
            }
            segment += 1;
        }
        oldest
    }

    /// Moves the engine to a new day, and marks the day that has now run out for the sweep. False when the
    /// day has not changed, or when opening it would give two live days one segment: then records keep
    /// going into the segment already open, which dates them later than they are, and the calendar moves
    /// again once the sweep has finished a day.
    pub fn open_day(&mut self, day: u64, lifetime_days: u64) -> (opened: bool)
        requires
            old(self).wf(),
            old(self).log().room_to_seal(1),
        ensures
            final(self).wf(),
            old(self).trusted() ==> final(self).trusted(),
            old(self).good() ==> final(self).good(),
            old(self).grounded() ==> final(self).grounded(),
            old(self).in_order() ==> final(self).in_order(),
            final(self).log().fault() == old(self).log().fault(),
            final(self).log().disk() == old(self).log().disk(),
            final(self).log().held().buffer == old(self).log().held().buffer,
            final(self).table() == old(self).table(),
            final(self).holds() == old(self).holds(),
            final(self).places() == old(self).places(),
            final(self).groups() == old(self).groups(),
            final(self).waiting() == old(self).waiting(),
            final(self).held_up() == old(self).held_up(),
            final(self).left_alone(old(self)),
            final(self).decisions() == old(self).decisions(),
            old(self).good() && old(self).in_order() && old(self).dated() ==> final(self).dated(),
            final(self).spec_applied() == old(self).spec_applied(),
            final(self).spec_applied_through() == old(self).spec_applied_through(),
            ({
                let begun = told(old(self).calendar(), old(self).table(), day, lifetime_days);
                &&& opened == (day != old(self).calendar().today && has_a_segment(begun.sweep, day))
                &&& final(self).calendar() == if opened {
                    Calendar { today: day, ..begun }
                } else {
                    begun
                }
            }),
            opened ==> final(self).log().spec_segment() == day % SEGMENTS && old(self).log().opens_day(
                &final(self).log(),
                day,
            ),
            !opened ==> final(self).log() == old(self).log(),
    {
        self.lifetime_days = lifetime_days;
        if self.sweep.day.is_none() {
            self.sweep.day = Some(self.oldest_unfinished_day(day, lifetime_days));
        }
        let ghost begun = *self;
        proof {
            begun.lemma_good_kept(old(self));
            begun.lemma_grounded(old(self));
            begun.lemma_numbered(old(self));
            begun.lemma_dated_same(old(self));
        }
        if day == self.today {
            return false;
        }
        if !self.day_has_a_segment(day) {
            return false;
        }
        self.today = day;
        self.records.open_day(day);
        proof {
            self.lemma_good_kept(&begun);
            self.lemma_grounded(&begun);
            self.lemma_numbered(&begun);
            if begun.good() && begun.in_order() && begun.dated() {
                self.lemma_dated_still(&begun);
            }
        }
        true
    }

    fn day_has_a_segment(&self, day: u64) -> (has: bool)
        ensures
            has == has_a_segment(self.sweep, day),
    {
        match self.sweep.day {
            None => true,
            Some(oldest) => day.saturating_sub(oldest) < SEGMENTS,
        }
    }

    /// Blocks of any day nothing points into any more, handed back to the store. Answers how many. No
    /// clock, no cursor and no leadership: a segment the index has no entry in holds only dead records.
    /// The segment being written is skipped.
    pub fn reclaim(&mut self) -> (freed: u64)
        requires
            old(self).wf(),
        ensures
            final(self).carried(old(self)),
            final(self).log().fault() == old(self).log().fault(),
            final(self).log().disk() == old(self).log().disk(),
            final(self).log().held() == old(self).log().held(),
            final(self).log().spec_segment() == old(self).log().spec_segment(),
            final(self).table() == old(self).table(),
            final(self).calendar() == old(self).calendar(),
            final(self).places() == old(self).places(),
            freed == freed_count(
                old(self).log().days(),
                old(self).table(),
                old(self).log().spec_segment(),
                63,
            ),
            final(self).log().days() == freed_through(
                old(self).log().days(),
                old(self).table(),
                old(self).log().spec_segment(),
                63,
            ),
            final(self).log().books().pending@ == old(self).log().books().pending@ + freed_owed(
                old(self).log().days(),
                old(self).table(),
                old(self).log().spec_segment(),
                63,
            ),
    {
        let open: u8 = self.records.segment();
        let mut freed: u64 = 0;
        let mut segment: u8 = 0;
        proof {
            self.lemma_shuffled_refl();
            self.records.lemma_open_bound();
            assert(self.records.days() =~= freed_through(self.records.days(), self.index, open, 0));
            assert(self.records.books().pending@ =~= self.records.books().pending@ + Seq::<Owed>::empty());
        }
        while segment < 63
            invariant
                segment <= 63,
                self.carried(old(self)),
                self.calendar() == old(self).calendar(),
                old(self).wf(),
                self.index == old(self).index,
                self.at == old(self).at,
                self.held == old(self).held,
                self.decided == old(self).decided,
                open == old(self).records.spec_segment(),
                self.records.spec_segment() == open,
                self.records.fault() == old(self).records.fault(),
                self.records.disk() == old(self).records.disk(),
                self.records.held() == old(self).records.held(),
                old(self).records.days().len() == 64,
                freed == freed_count(
                    old(self).records.days(),
                    old(self).index,
                    open,
                    segment as nat,
                ),
                self.records.days() == freed_through(
                    old(self).records.days(),
                    old(self).index,
                    open,
                    segment as int,
                ),
                self.records.books().pending@ == old(self).records.books().pending@ + freed_owed(
                    old(self).records.days(),
                    old(self).index,
                    open,
                    segment as nat,
                ),
            decreases 63 - segment,
        {
            let ghost was = *self;
            if segment != open && self.index.live_in_segment(segment) == 0 {
                if self.records.blocks_in_day(segment) > 0 {
                    let blocks: u64 = self.records.free_segment(segment);
                    freed = add_count(freed, blocks);
                    proof {
                        assert forall|h: u64| was.records.unasked(h) implies #[trigger] self.records.unasked(
                            h,
                        ) by {}
                        self.lemma_wrote_out(&was);
                        self.lemma_shuffled(&was, old(self));
                    }
                }
            }
            proof {
                let days = old(self).records.days();
                assert(was.records.days()[segment as int] == days[segment as int]);
                assert(self.records.books().pending@ =~= old(self).records.books().pending@ + freed_owed(
                    days,
                    old(self).index,
                    open,
                    (segment + 1) as nat,
                ));
                if segment != open && self.index.spec_live_in(segment as int) == 0
                    && days[segment as int].blocks == 0 {
                    was.records.lemma_empty_day(segment as int);
                }
                assert(self.records.days() =~= freed_through(
                    days,
                    old(self).index,
                    open,
                    segment + 1,
                ));
            }
            segment += 1;
        }
        freed
    }
}

/// The voids of the outstanding entries, in their order.
pub open spec fn voids_of(outstanding: Seq<(RecordAddr, Transfer)>) -> Seq<Transfer> {
    outstanding.map_values(|one: (RecordAddr, Transfer)| one.1)
}

/// The entries whose record the index still points at, in a segment.
pub open spec fn still_alive(
    outstanding: Seq<(RecordAddr, Transfer)>,
    table: HoldTable,
    segment: u8,
) -> Seq<(RecordAddr, Transfer)>
    decreases outstanding.len(),
{
    if outstanding.len() == 0 {
        Seq::empty()
    } else {
        let rest = still_alive(outstanding.drop_last(), table, segment);
        let (addr, void) = outstanding.last();
        if is_alive(table, addr, void.pending_ref) && addr.segment() == segment {
            rest.push((addr, void))
        } else {
            rest
        }
    }
}

/// The entries that the records the index still points at make.
pub open spec fn alive_voids(records: Seq<Placed>, table: HoldTable) -> Seq<(RecordAddr, Transfer)>
    decreases records.len(),
{
    if records.len() == 0 {
        Seq::empty()
    } else {
        let rest = alive_voids(records.drop_last(), table);
        let (key, hold, addr) = records.last();
        if is_alive(table, addr, key) {
            rest.push((addr, Transfer::expiry_void(key, hold)))
        } else {
            rest
        }
    }
}

proof fn lemma_still_alive(
    outstanding: Seq<(RecordAddr, Transfer)>,
    table: HoldTable,
    segment: u8,
    i: int,
)
    requires
        0 <= i < still_alive(outstanding, table, segment).len(),
    ensures
        ({
            let (addr, void) = still_alive(outstanding, table, segment)[i];
            &&& is_alive(table, addr, void.pending_ref)
            &&& addr.segment() == segment
            &&& outstanding.contains((addr, void))
        }),
    decreases outstanding.len(),
{
    let last = outstanding.len() - 1;
    if i < still_alive(outstanding.drop_last(), table, segment).len() {
        lemma_still_alive(outstanding.drop_last(), table, segment, i);
        let one = still_alive(outstanding.drop_last(), table, segment)[i];
        let j = choose|j: int| 0 <= j < outstanding.drop_last().len() && outstanding.drop_last()[j] == one;
        assert(outstanding[j] == one);
    } else {
        assert(outstanding[last] == outstanding.last());
    }
}

proof fn lemma_is_void<S: DurableStore>(log: RecordLog<S>, addr: RecordAddr, key: TxId, hold: HoldData)
    requires
        !addr.is_buffered(),
        log.holds(addr, (key, hold)),
    ensures
        is_void_of(log, addr, Transfer::expiry_void(key, hold)),
{
    let void = Transfer::expiry_void(key, hold);
    assert(void.pending_ref == key);
    assert(log.holds(addr, (void.pending_ref, hold)));
}

proof fn lemma_alive_voids(records: Seq<Placed>, table: HoldTable, i: int) -> (j: int)
    requires
        0 <= i < alive_voids(records, table).len(),
    ensures
        0 <= j < records.len(),
        alive_voids(records, table)[i].0 == records[j].2,
        alive_voids(records, table)[i].1 == Transfer::expiry_void(records[j].0, records[j].1),
        is_alive(table, records[j].2, records[j].0),
    decreases records.len(),
{
    let last = records.len() - 1;
    let rest = records.drop_last();
    if i < alive_voids(rest, table).len() {
        let j = lemma_alive_voids(rest, table, i);
        assert(records[j] == rest[j]);
        j
    } else {
        assert(records[last] == records.last());
        last
    }
}

proof fn lemma_alive_voids_has(records: Seq<Placed>, table: HoldTable, j: int)
    requires
        0 <= j < records.len(),
        is_alive(table, records[j].2, records[j].0),
    ensures
        alive_voids(records, table).contains(
            (records[j].2, Transfer::expiry_void(records[j].0, records[j].1)),
        ),
    decreases records.len(),
{
    let rest = records.drop_last();
    let one = (records[j].2, Transfer::expiry_void(records[j].0, records[j].1));
    let all = alive_voids(records, table);
    if j == records.len() - 1 {
        assert(all[all.len() - 1] == one);
    } else {
        assert(rest[j] == records[j]);
        lemma_alive_voids_has(rest, table, j);
        let some = alive_voids(rest, table);
        let n = choose|n: int| 0 <= n < some.len() && some[n] == one;
        assert(all[n] == one);
    }
}

proof fn lemma_alive_voids_len(records: Seq<Placed>, table: HoldTable)
    ensures
        alive_voids(records, table).len() <= records.len(),
    decreases records.len(),
{
    if records.len() > 0 {
        lemma_alive_voids_len(records.drop_last(), table);
    }
}

impl<S: DurableStore> PendingEngine<S> {
    /// Offers the records the index still points at: each becomes a void outstanding. The one place an
    /// expiry void is built.
    fn offer(&mut self, records: &Vec<Placed>)
        requires
            old(self).wf(),
        ensures
            final(self).wf(),
            final(self).outstanding@ == old(self).outstanding@ + alive_voids(
                records@,
                old(self).table(),
            ),
            final(self).index == old(self).index,
            final(self).records == old(self).records,
            final(self).budgets == old(self).budgets,
            final(self).fetches == old(self).fetches,
            final(self).stalled == old(self).stalled,
            final(self).reads == old(self).reads,
            final(self).calendar() == (Calendar {
                outstanding: final(self).outstanding@,
                ..old(self).calendar()
            }),
            final(self).overflowed == old(self).overflowed,
            final(self).applied_through == old(self).applied_through,
            final(self).applied == old(self).applied,
            final(self).at == old(self).at,
            final(self).held == old(self).held,
            final(self).decided == old(self).decided,
            old(self).good() ==> final(self).good(),
            old(self).trusted() ==> final(self).trusted(),
            old(self).in_order() ==> final(self).in_order(),
            old(self).grounded() && (forall|i: int|
                0 <= i < records@.len() ==> {
                    let (key, hold, addr) = #[trigger] records@[i];
                    is_alive(old(self).table(), addr, key) ==> !addr.is_buffered() && old(self).log().holds(addr, (key, hold))
                }) ==> final(self).grounded(),
    {
        let mut i: usize = 0;
        assert(records@.subrange(0, 0) =~= Seq::<Placed>::empty());
        while i < records.len()
            invariant
                i <= records@.len(),
                self.wf(),
                old(self).wf(),
                self.outstanding@ =~= old(self).outstanding@ + alive_voids(
                    records@.subrange(0, i as int),
                    old(self).index,
                ),
                self.index == old(self).index,
                self.records == old(self).records,
                self.budgets == old(self).budgets,
                self.fetches == old(self).fetches,
                self.stalled == old(self).stalled,
                self.reads == old(self).reads,
                self.calendar() == (Calendar {
                    outstanding: self.outstanding@,
                    ..old(self).calendar()
                }),
                self.overflowed == old(self).overflowed,
                self.applied_through == old(self).applied_through,
                self.applied == old(self).applied,
                self.at == old(self).at,
                self.held == old(self).held,
                self.decided == old(self).decided,
            decreases records@.len() - i,
        {
            let (key, hold, addr) = records[i];
            assert(records@.subrange(0, i + 1).drop_last() =~= records@.subrange(0, i as int));
            assert(records@.subrange(0, i + 1).last() == records@[i as int]);
            if self.index.points_at(key, addr) {
                self.outstanding.push((addr, Transfer::expiry_void(key, hold)));
            }
            i += 1;
        }
        proof {
            assert(records@.subrange(0, i as int) =~= records@);
            self.lemma_good_kept(old(self));
            self.lemma_numbered(old(self));
            self.lemma_offered(old(self), records@);
        }
    }

    proof fn lemma_offered(&self, was: &Self, records: Seq<Placed>)
        requires
            self.outstanding@ == was.outstanding@ + alive_voids(records, was.index),
            self.records == was.records,
        ensures
            was.grounded() && (forall|i: int|
                0 <= i < records.len() ==> {
                    let (key, hold, addr) = #[trigger] records[i];
                    is_alive(was.index, addr, key) ==> !addr.is_buffered() && was.log().holds(
                        addr,
                        (key, hold),
                    )
                }) ==> self.grounded(),
    {
        reveal(PendingEngine::grounded);
        if was.grounded() && (forall|i: int|
            0 <= i < records.len() ==> {
                let (key, hold, addr) = #[trigger] records[i];
                is_alive(was.index, addr, key) ==> !addr.is_buffered() && was.log().holds(
                    addr,
                    (key, hold),
                )
            }) {
            let made = alive_voids(records, was.index);
            assert forall|n: int| 0 <= n < self.outstanding@.len() implies is_void_of(
                self.records,
                (#[trigger] self.outstanding@[n]).0,
                self.outstanding@[n].1,
            ) by {
                if n < was.outstanding@.len() {
                    assert(self.outstanding@[n] == was.outstanding@[n]);
                } else {
                    let m = n - was.outstanding@.len();
                    assert(self.outstanding@[n] == made[m]);
                    self.lemma_made(was, records, m);
                }
            }
        }
    }

    proof fn lemma_made(&self, was: &Self, records: Seq<Placed>, m: int)
        requires
            self.records == was.records,
            forall|i: int|
                0 <= i < records.len() ==> {
                    let (key, hold, addr) = #[trigger] records[i];
                    is_alive(was.index, addr, key) ==> !addr.is_buffered() && was.log().holds(
                        addr,
                        (key, hold),
                    )
                },
            0 <= m < alive_voids(records, was.index).len(),
        ensures
            is_void_of(
                self.records,
                alive_voids(records, was.index)[m].0,
                alive_voids(records, was.index)[m].1,
            ),
    {
        let j = lemma_alive_voids(records, was.index, m);
        let (key, hold, addr) = records[j];
        lemma_is_void(self.records, addr, key, hold);
    }

    /// Drops the outstanding voids that have landed: a record is alive exactly when the index points at it.
    fn retire(&mut self, segment: u8)
        requires
            old(self).wf(),
        ensures
            final(self).wf(),
            final(self).outstanding@ == still_alive(old(self).outstanding@, old(self).table(), segment),
            final(self).index == old(self).index,
            final(self).records == old(self).records,
            final(self).budgets == old(self).budgets,
            final(self).fetches == old(self).fetches,
            final(self).stalled == old(self).stalled,
            final(self).reads == old(self).reads,
            final(self).calendar() == (Calendar {
                outstanding: final(self).outstanding@,
                ..old(self).calendar()
            }),
            final(self).overflowed == old(self).overflowed,
            final(self).applied_through == old(self).applied_through,
            final(self).applied == old(self).applied,
            final(self).at == old(self).at,
            final(self).held == old(self).held,
            final(self).decided == old(self).decided,
            old(self).good() ==> final(self).good(),
            old(self).trusted() ==> final(self).trusted(),
            old(self).in_order() ==> final(self).in_order(),
            old(self).grounded() ==> final(self).grounded(),
    {
        let mut kept: Vec<(RecordAddr, Transfer)> = Vec::new();
        let mut i: usize = 0;
        assert(self.outstanding@.subrange(0, 0) =~= Seq::<(RecordAddr, Transfer)>::empty());
        while i < self.outstanding.len()
            invariant
                *self == *old(self),
                self.wf(),
                i <= self.outstanding@.len(),
                kept@ == still_alive(self.outstanding@.subrange(0, i as int), self.index, segment),
            decreases self.outstanding@.len() - i,
        {
            let (addr, void) = self.outstanding[i];
            assert(self.outstanding@.subrange(0, i + 1).drop_last() =~= self.outstanding@.subrange(
                0,
                i as int,
            ));
            assert(self.outstanding@.subrange(0, i + 1).last() == self.outstanding@[i as int]);
            if self.index.points_at(void.pending_ref, addr) && addr.segment() == segment {
                kept.push((addr, void));
            }
            i += 1;
        }
        assert(self.outstanding@.subrange(0, i as int) =~= self.outstanding@);
        self.outstanding = kept;
        proof {
            let was = old(self);
            self.lemma_good_kept(was);
            self.lemma_numbered(was);
            if was.grounded() {
                reveal(PendingEngine::grounded);
                assert forall|n: int| 0 <= n < self.outstanding@.len() implies is_void_of(
                    self.records,
                    (#[trigger] self.outstanding@[n]).0,
                    self.outstanding@[n].1,
                ) by {
                    lemma_still_alive(was.outstanding@, was.index, segment, n);
                    let one = self.outstanding@[n];
                    let m = choose|m: int|
                        0 <= m < was.outstanding@.len() && was.outstanding@[m] == one;
                    assert(was.outstanding@[m] == one);
                }
            }
        }
    }

    /// Hands over every void outstanding.
    fn hand_over(&self, into: &mut Vec<Transfer>)
        ensures
            final(into)@ == old(into)@ + voids_of(self.outstanding@),
    {
        let mut i: usize = 0;
        while i < self.outstanding.len()
            invariant
                i <= self.outstanding@.len(),
                into@ =~= old(into)@ + voids_of(self.outstanding@.subrange(0, i as int)),
            decreases self.outstanding@.len() - i,
        {
            into.push(self.outstanding[i].1);
            i += 1;
        }
        assert(self.outstanding@.subrange(0, i as int) =~= self.outstanding@);
    }

    /// What proposing expiries leaves alone.
    pub open spec fn proposed(&self, before: &Self) -> bool {
        &&& self.log().disk().truthful() == before.log().disk().truthful()
        &&& self.wf()
        &&& before.trusted() ==> self.trusted()
        &&& before.good() ==> self.good()
        &&& before.good() && before.grounded() ==> self.grounded()
        &&& before.in_order() ==> self.in_order()
        &&& self.table() == before.table()
        &&& self.holds() == before.holds()
        &&& self.places() == before.places()
        &&& self.groups() == before.groups()
        &&& self.decisions() == before.decisions()
        &&& before.dated() ==> self.dated()
        &&& self.waiting() == before.waiting()
        &&& self.held_up() == before.held_up()
        &&& self.left_alone(before)
        &&& self.spec_applied() == before.spec_applied()
        &&& self.spec_applied_through() == before.spec_applied_through()
        &&& self.log().held() == before.log().held()
        &&& self.log().days() == before.log().days()
        &&& self.log().spec_segment() == before.log().spec_segment()
        &&& self.log().sealed() == before.log().sealed()
        &&& self.log().books() == before.log().books()
        &&& self.log().fault() == before.log().fault()
        &&& self.log().keeps(&before.log())
    }
}

/// The day was moved on where the calendar says it has one to move to.
pub open spec fn begins_day<S: DurableStore>(
    was: PendingEngine<S>,
    after: PendingEngine<S>,
    day: u64,
    lifetime_days: u64,
) -> bool {
    let begun = told(was.calendar(), was.table(), day, lifetime_days);
    &&& after.table() == was.table()
    &&& if day != was.calendar().today && has_a_segment(begun.sweep, day) {
        &&& after.calendar() == (Calendar { today: day, ..begun })
        &&& after.log().spec_segment() == day % SEGMENTS
        &&& was.log().opens_day(&after.log(), day)
    } else {
        &&& after.calendar() == begun
        &&& after.log() == was.log()
    }
}

/// The blocks of every day that nothing points into were handed back.
pub open spec fn reclaims<S: DurableStore>(was: PendingEngine<S>, after: PendingEngine<S>) -> bool {
    let days = was.log().days();
    let open = was.log().spec_segment();
    &&& after.table() == was.table()
    &&& after.calendar() == was.calendar()
    &&& after.log().disk() == was.log().disk()
    &&& after.log().held() == was.log().held()
    &&& after.log().spec_segment() == open
    &&& after.log().days() == freed_through(days, was.table(), open, 63)
    &&& after.log().books().pending@ == was.log().books().pending@ + freed_owed(
        days,
        was.table(),
        open,
        63,
    )
}

/// A slice of the holds that have run out was made the outstanding one. A day with none left is
/// done; what is outstanding and has not landed comes again before anything more is walked.
pub open spec fn proposes<S: DurableStore>(
    was: PendingEngine<S>,
    after: PendingEngine<S>,
    blocks: usize,
    now: u64,
) -> bool {
    match expiring_of(was.calendar()) {
        None => after.calendar() == was.calendar() && after.log() == was.log(),
        Some(segment) => {
            let alive = still_alive(was.calendar().outstanding, was.table(), segment);
            if was.table().spec_live_in(segment as int) == 0 {
                &&& after.calendar() == (Calendar {
                    sweep: Sweep {
                        day: Some(plus(was.calendar().sweep.day.unwrap(), 1)),
                        at_block: 0,
                    },
                    ..was.calendar()
                })
                &&& after.log() == was.log()
            } else if alive.len() > 0 || was.log().sweeps().len() > 0 {
                &&& after.calendar() == (Calendar { outstanding: alive, ..was.calendar() })
                &&& after.log() == was.log()
            } else {
                &&& after.calendar().today == was.calendar().today
                &&& after.calendar().lifetime_days == was.calendar().lifetime_days
                &&& after.calendar().sweep.day == was.calendar().sweep.day
                &&& after.calendar().outstanding.len() <= 51 * (if blocks == 0 {
                    1
                } else {
                    blocks as int
                })
                &&& all_alive(after.calendar().outstanding, was.table(), segment)
                &&& exists|walked: u64| walked_from(was, after, segment, blocks, walked, now)
            }
        },
    }
}

/// Every outstanding void is of a record in a segment that the index points at.
pub open spec fn all_alive(
    outstanding: Seq<(RecordAddr, Transfer)>,
    table: HoldTable,
    segment: u8,
) -> bool {
    forall|i: int|
        0 <= i < outstanding.len() ==> is_alive(
            table,
            (#[trigger] outstanding[i]).0,
            outstanding[i].1.pending_ref,
        ) && outstanding[i].0.segment() == segment
}

/// One of a day's blocks was walked: it was in memory, or the store took a read of it.
pub open spec fn walks_block<S: DurableStore>(
    was: RecordLog<S>,
    after: RecordLog<S>,
    segment: u8,
    at: u64,
    now: u64,
) -> bool {
    match was.days()[segment as int].block_spec(at) {
        None => false,
        Some(block) => if was.held().oldest_resident <= block < was.held().next_block {
            after == was
        } else {
            was.asks_to_sweep(&after, segment, block, true, now)
        },
    }
}

/// A day's blocks were walked one after another, from a place of the day on.
pub open spec fn walks_blocks<S: DurableStore>(
    logs: Seq<RecordLog<S>>,
    segment: u8,
    start: u64,
    now: u64,
) -> bool {
    &&& logs.len() > 0
    &&& forall|i: int, j: int|
        0 <= i && j == i + 1 && j < logs.len() ==> walks_block(
            #[trigger] logs[i],
            #[trigger] logs[j],
            segment,
            (start + i) as u64,
            now,
        )
}

/// The walk of a day stopped at this place: as many blocks as were asked for are walked, or the day has no
/// more and the next walk begins at its start, or the store would not take a read.
pub open spec fn stops_at<S: DurableStore>(
    was: RecordLog<S>,
    after: RecordLog<S>,
    segment: u8,
    at: u64,
    enough: bool,
    now: u64,
    next: u64,
) -> bool {
    if enough {
        after == was && next == at
    } else {
        match was.days()[segment as int].block_spec(at) {
            None => after == was && next == 0,
            Some(block) => {
                &&& !(was.held().oldest_resident <= block < was.held().next_block)
                &&& was.asks_to_sweep(&after, segment, block, false, now)
                &&& next == at
            },
        }
    }
}

/// So many of a day's blocks were walked from where the sweep had got to, and the sweep stands at the next.
pub open spec fn sweeps_on<S: DurableStore>(
    before: PendingEngine<S>,
    after: PendingEngine<S>,
    segment: u8,
    blocks: usize,
    walked: u64,
    now: u64,
) -> bool {
    let start = before.calendar().sweep.at_block;
    let limit: int = if blocks == 0 {
        1
    } else {
        blocks as int
    };
    &&& walked <= limit
    &&& after.calendar().outstanding == swept_voids(
        before.log(),
        before.table(),
        segment,
        start,
        walked as nat,
    )
    &&& exists|logs: Seq<RecordLog<S>>| #[trigger]
        walks_blocks(logs, segment, start, now) && logs.len() == walked + 1 && logs[0] == before.log()
            && stops_at(
            logs.last(),
            after.log(),
            segment,
            (start + walked) as u64,
            walked == limit,
            now,
            after.calendar().sweep.at_block,
        )
}

/// The voids of the holds on so many of a day's blocks: those in memory whose records the index still points
/// at, in their order.
pub open spec fn swept_voids<S: DurableStore>(
    log: RecordLog<S>,
    table: HoldTable,
    segment: u8,
    start: u64,
    walked: nat,
) -> Seq<(RecordAddr, Transfer)>
    decreases walked,
{
    if walked == 0 {
        Seq::empty()
    } else {
        let rest = swept_voids(log, table, segment, start, (walked - 1) as nat);
        match log.days()[segment as int].block_spec((start + walked - 1) as u64) {
            Some(block) => if log.held().oldest_resident <= block < log.held().next_block {
                rest + alive_voids(
                    records_of(
                        log.held().resident@[block - log.held().oldest_resident],
                        segment,
                        block,
                    ),
                    table,
                )
            } else {
                rest
            },
            None => rest,
        }
    }
}

/// What a walk of a day does depends on the index, the log and where the sweep has got to alone.
proof fn lemma_sweeps_from<S: DurableStore>(
    one: PendingEngine<S>,
    other: PendingEngine<S>,
    after: PendingEngine<S>,
    segment: u8,
    blocks: usize,
    walked: u64,
    now: u64,
)
    requires
        sweeps_on(one, after, segment, blocks, walked, now),
        one.log() == other.log(),
        one.table() == other.table(),
        one.calendar().sweep == other.calendar().sweep,
    ensures
        sweeps_on(other, after, segment, blocks, walked, now),
{
}

proof fn lemma_walks_more<S: DurableStore>(
    logs: Seq<RecordLog<S>>,
    segment: u8,
    start: u64,
    now: u64,
    after: RecordLog<S>,
)
    requires
        walks_blocks(logs, segment, start, now),
        walks_block(logs.last(), after, segment, (start + logs.len() - 1) as u64, now),
    ensures
        walks_blocks(logs.push(after), segment, start, now),
{
    let more = logs.push(after);
    assert forall|i: int, j: int| 0 <= i && j == i + 1 && j < more.len() implies walks_block(
        #[trigger] more[i],
        #[trigger] more[j],
        segment,
        (start + i) as u64,
        now,
    ) by {
        assert(more[i] == logs[i]);
        if j < logs.len() {
            assert(more[j] == logs[j]);
        }
    }
}

/// Every hold whose record is on one of these blocks of a day, and in memory, has its void outstanding.
pub open spec fn all_offered<S: DurableStore>(
    engine: PendingEngine<S>,
    outstanding: Seq<(RecordAddr, Transfer)>,
    segment: u8,
    from: int,
    to: int,
) -> bool {
    forall|k: TxId| #[trigger]
        engine.places().contains_key(k) && engine.places()[k].segment() == segment
            && engine.log().days()[segment as int].first + from <= engine.places()[k].block()
            < engine.log().days()[segment as int].first + to && engine.log().held().oldest_resident
            <= engine.places()[k].block() < engine.log().held().next_block ==> outstanding.contains(
            (engine.places()[k], Transfer::expiry_void(k, engine.holds()[k])),
        )
}

impl<S: DurableStore> PendingEngine<S> {
    /// In a good engine a record in memory that the index points at is its key's hold's.
    proof fn lemma_alive_in_memory(&self, key: TxId, hold: HoldData, addr: RecordAddr)
        requires
            self.wf(),
            self.good(),
            self.records.in_memory(addr) == Some((key, hold)),
            is_alive(self.index, addr, key),
        ensures
            self.records.holds(addr, (key, hold)),
            self.at@.contains_key(key),
            self.at@[key] == addr,
    {
        self.lemma_mask();
        let words = self.index.words();
        let mask = self.index.mask();
        lemma_pointing_first(words, mask, key, addr);
        let k = self.lemma_slot_record(pointing(words, mask, key, addr)[0]);
        self.records.lemma_holds(addr, (k, self.held@[k]));
    }

    /// The records of a closed block in memory, each at its address.
    proof fn lemma_resident(&self, segment: u8, block: u64, i: int)
        requires
            self.wf(),
            segment < 63,
            self.records.held().oldest_resident <= block < self.records.held().next_block,
            0 <= i < self.records.held().resident@[block
                - self.records.held().oldest_resident].filled,
        ensures
            ({
                let held = self.records.held().resident@[block - self.records.held().oldest_resident];
                let addr = RecordAddr::new(segment, block, i as u8);
                &&& held.filled <= 51
                &&& !addr.is_buffered()
                &&& addr.fits()
                &&& addr.segment() == segment
                &&& addr.block() == block
                &&& addr.index() == i
                &&& self.records.in_memory(addr) == Some(held.records()[i])
            }),
    {
        self.records.lemma_resident_filled(block);
        law_address_parts(segment, block, i as u8);
    }

    /// Walks some of a day's blocks from where the sweep has got to: those in memory are offered at once,
    /// the others are asked of the store and offered when they come back. Answers how many it walked.
    fn walk_day(&mut self, segment: u8, blocks: usize, now: u64) -> (walked: u64)
        requires
            old(self).wf(),
            segment < SEGMENTS,
            old(self).outstanding@.len() == 0,
        ensures
            final(self).proposed(old(self)),
            sweeps_on(*old(self), *final(self), segment, blocks, walked, now),
            walked <= blocks || walked <= 1,
            final(self).calendar() == (Calendar {
                outstanding: final(self).outstanding@,
                sweep: final(self).sweep,
                swept_blocks: plus(old(self).swept_blocks, walked),
                ..old(self).calendar()
            }),
            final(self).sweep.day == old(self).sweep.day,
            final(self).sweep.at_block == old(self).sweep.at_block + walked || (
            final(self).sweep.at_block == 0 && old(self).sweep.at_block + walked >= old(self).log().days()[segment as int].blocks),
            final(self).outstanding@.len() <= 51 * walked,
            all_alive(final(self).outstanding@, old(self).table(), segment),
            old(self).good() ==> all_offered(
                *old(self),
                final(self).outstanding@,
                segment,
                old(self).sweep.at_block as int,
                old(self).sweep.at_block + walked,
            ),
    {
        let limit: u64 = if blocks == 0 {
            1
        } else {
            blocks as u64
        };
        let ghost start = self.sweep.at_block;
        let mut walked: u64 = 0;
        let ghost mut logs: Seq<RecordLog<S>> = seq![self.records];
        proof {
            self.lemma_proposed_refl();
        }
        while walked < limit
            invariant
                limit == if blocks == 0 {
                    1
                } else {
                    blocks as u64
                },
                walked <= limit,
                segment < SEGMENTS,
                old(self).wf(),
                walks_blocks(logs, segment, start, now),
                logs.len() == walked + 1,
                logs[0] == old(self).records,
                logs.last() == self.records,
                self.outstanding@ == swept_voids(
                    old(self).log(),
                    old(self).table(),
                    segment,
                    start,
                    walked as nat,
                ),
                self.proposed(old(self)),
                self.index == old(self).index,
                self.at == old(self).at,
                self.held == old(self).held,
                self.decided == old(self).decided,
                self.calendar() == (Calendar {
                    outstanding: self.outstanding@,
                    sweep: self.sweep,
                    swept_blocks: plus(old(self).swept_blocks, walked),
                    ..old(self).calendar()
                }),
                self.sweep.day == old(self).sweep.day,
                start == old(self).sweep.at_block,
                self.sweep.at_block == start + walked,
                self.outstanding@.len() <= 51 * walked,
                all_alive(self.outstanding@, old(self).index, segment),
                old(self).good() ==> all_offered(
                    *old(self),
                    self.outstanding@,
                    segment,
                    start as int,
                    start + walked,
                ),
            decreases limit - walked,
        {
            let ghost was = *self;
            let mut visited: Vec<Placed> = Vec::new();
            let walk = self.records.walk_day_block(segment, self.sweep.at_block, now, &mut visited);
            proof {
                was.records.lemma_day(segment as int);
                self.lemma_walked(&was);
                self.lemma_proposed(&was, old(self));
            }
            match walk {
                Walked::Visited => {
                    let ghost seen = *self;
                    proof {
                        seen.lemma_visited(segment, was.sweep.at_block, visited@);
                    }
                    self.offer(&visited);
                    self.sweep.at_block = self.sweep.at_block + 1;
                    self.swept_blocks = add_count(self.swept_blocks, 1);
                    proof {
                        self.lemma_offered_more(&seen, old(self), segment, start, walked, visited@);
                        lemma_walks_more(logs, segment, start, now, self.records);
                        logs = logs.push(self.records);
                    }
                },
                Walked::Asked => {
                    let ghost seen = *self;
                    self.sweep.at_block = self.sweep.at_block + 1;
                    self.swept_blocks = add_count(self.swept_blocks, 1);
                    proof {
                        self.lemma_cursor(&seen);
                        self.lemma_proposed(&seen, old(self));
                        lemma_walks_more(logs, segment, start, now, self.records);
                        logs = logs.push(self.records);
                    }
                },
                Walked::Busy => {
                    assert(stops_at(
                        logs.last(),
                        self.log(),
                        segment,
                        (start + walked) as u64,
                        false,
                        now,
                        self.sweep.at_block,
                    ));
                    return walked;
                },
                Walked::End => {
                    let ghost seen = *self;
                    self.sweep.at_block = 0;
                    proof {
                        self.lemma_cursor(&seen);
                        self.lemma_proposed(&seen, old(self));
                    }
                    return walked;
                },
            }
            walked = walked + 1;
        }
        walked
    }

    proof fn lemma_proposed_refl(&self)
        requires
            self.wf(),
        ensures
            self.proposed(self),
    {
    }

    proof fn lemma_proposed(&self, between: &Self, before: &Self)
        requires
            self.proposed(between),
            between.proposed(before),
        ensures
            self.proposed(before),
    {
        self.lemma_keeps(between, before);
    }

    /// Moving the cursor moves nothing else.
    proof fn lemma_cursor(&self, before: &Self)
        requires
            before.wf(),
            self.index == before.index,
            self.records == before.records,
            self.budgets == before.budgets,
            self.fetches == before.fetches,
            self.stalled == before.stalled,
            self.reads == before.reads,
            self.outstanding@ == before.outstanding@,
            self.applied_through == before.applied_through,
            self.applied == before.applied,
            self.at == before.at,
            self.held == before.held,
            self.decided == before.decided,
        ensures
            self.proposed(before),
    {
        self.lemma_dated_same(before);
        self.lemma_good_kept(before);
        self.lemma_grounded(before);
        self.lemma_numbered(before);
    }

    /// Asking the log for a day's block moves nothing of the engine's.
    proof fn lemma_walked(&self, before: &Self)
        requires
            before.wf(),
            self.records.wf(),
            self.index == before.index,
            self.budgets == before.budgets,
            self.fetches == before.fetches,
            self.stalled == before.stalled,
            self.reads == before.reads,
            self.outstanding@ == before.outstanding@,
            self.applied_through == before.applied_through,
            self.applied == before.applied,
            self.at == before.at,
            self.held == before.held,
            self.decided == before.decided,
            self.records.keeps(&before.records),
            before.records.sound() ==> self.records.sound(),
            self.records.disk().truthful() == before.records.disk().truthful(),
            forall|h: u64| before.records.unasked(h) ==> #[trigger] self.records.unasked(h),
            self.records.held() == before.records.held(),
            self.records.days() == before.records.days(),
            self.records.spec_segment() == before.records.spec_segment(),
            self.records.sealed() == before.records.sealed(),
            self.records.books() == before.records.books(),
            self.records.fault() == before.records.fault(),
            self.records.fetches() == before.records.fetches(),
        ensures
            self.proposed(before),
    {
        self.lemma_dated_same(before);
        self.lemma_good_kept(before);
        self.lemma_grounded(before);
        self.records.lemma_began_same(&before.records);
        if before.numbered() {
            assert forall|h: u64| self.reads < h < OWNER_WEIGHT implies #[trigger] self.records.unasked(h) by {
                assert(before.records.unasked(h));
            }
        }
    }

    /// What a visit of a block in memory brought: its records, each at its address in the segment; and in
    /// a good engine those the index points at are the holds whose place is on the block.
    proof fn lemma_visited(&self, segment: u8, at: u64, visited: Seq<Placed>)
        requires
            self.wf(),
            segment < 63,
            self.records.days()[segment as int].block_spec(at) matches Some(block) && (
            self.records.held().oldest_resident <= block < self.records.held().next_block) && visited
                == records_of(
                self.records.held().resident@[block - self.records.held().oldest_resident],
                segment,
                block,
            ),
        ensures
            visited.len() <= 51,
            forall|i: int|
                0 <= i < visited.len() ==> (#[trigger] visited[i]).2.segment() == segment,
            self.good() ==> forall|i: int|
                0 <= i < visited.len() ==> {
                    let (key, hold, addr) = #[trigger] visited[i];
                    is_alive(self.index, addr, key) ==> !addr.is_buffered() && self.log().holds(
                        addr,
                        (key, hold),
                    )
                },
            self.good() ==> forall|k: TxId| #[trigger]
                self.at@.contains_key(k) && self.at@[k].segment() == segment && self.at@[k].block()
                    == self.records.days()[segment as int].first + at ==> exists|i: int|
                    0 <= i < visited.len() && #[trigger] visited[i] == (k, self.held@[k], self.at@[k])
                        && is_alive(self.index, self.at@[k], k),
    {
        let block = self.records.days()[segment as int].block_spec(at).unwrap();
        let held = self.records.held().resident@[block - self.records.held().oldest_resident];
        self.records.lemma_resident_filled(block);
        assert forall|i: int| 0 <= i < visited.len() implies ({
            let (key, hold, addr) = #[trigger] visited[i];
            addr.segment() == segment && self.records.in_memory(addr) == Some((key, hold))
                && !addr.is_buffered()
        }) by {
            self.lemma_resident(segment, block, i);
        }
        if self.good() {
            assert forall|i: int| 0 <= i < visited.len() implies ({
                let (key, hold, addr) = #[trigger] visited[i];
                is_alive(self.index, addr, key) ==> !addr.is_buffered() && self.log().holds(
                    addr,
                    (key, hold),
                )
            }) by {
                let (key, hold, addr) = visited[i];
                if is_alive(self.index, addr, key) {
                    self.lemma_alive_in_memory(key, hold, addr);
                }
            }
            assert forall|k: TxId| #[trigger]
                self.at@.contains_key(k) && self.at@[k].segment() == segment && self.at@[k].block()
                    == self.records.days()[segment as int].first + at implies exists|i: int|
                0 <= i < visited.len() && #[trigger] visited[i] == (k, self.held@[k], self.at@[k])
                    && is_alive(self.index, self.at@[k], k) by {
                let addr = self.at@[k];
                assert(self.records.holds(addr, (k, self.held@[k]))) by {
                    reveal(PendingEngine::good);
                }
                self.records.lemma_holds(addr, (k, self.held@[k]));
                law_address_is_its_parts(addr);
                let i = addr.index() as int;
                self.lemma_alive(k, self.held@[k], addr);
                assert(visited[i] == (held.records()[i].0, held.records()[i].1, addr));
            }
        }
    }

    proof fn lemma_offered_more(
        &self,
        seen: &Self,
        before: &Self,
        segment: u8,
        start: u64,
        walked: u64,
        visited: Seq<Placed>,
    )
        requires
            seen.wf(),
            seen.proposed(before),
            seen.index == before.index,
            seen.at == before.at,
            seen.held == before.held,
            seen.decided == before.decided,
            segment < 63,
            self.wf(),
            self.outstanding@ == seen.outstanding@ + alive_voids(visited, seen.index),
            self.index == seen.index,
            self.records == seen.records,
            self.budgets == seen.budgets,
            self.fetches == seen.fetches,
            self.stalled == seen.stalled,
            self.reads == seen.reads,
            self.applied_through == seen.applied_through,
            self.applied == seen.applied,
            self.at == seen.at,
            self.held == seen.held,
            self.decided == seen.decided,
            seen.outstanding@.len() <= 51 * walked,
            visited.len() <= 51,
            all_alive(seen.outstanding@, before.index, segment),
            before.good() ==> all_offered(
                *before,
                seen.outstanding@,
                segment,
                start as int,
                start + walked,
            ),
            forall|i: int|
                0 <= i < visited.len() ==> (#[trigger] visited[i]).2.segment() == segment,
            seen.good() ==> forall|i: int|
                0 <= i < visited.len() ==> {
                    let (key, hold, addr) = #[trigger] visited[i];
                    is_alive(seen.index, addr, key) ==> !addr.is_buffered() && seen.log().holds(
                        addr,
                        (key, hold),
                    )
                },
            seen.good() ==> forall|k: TxId| #[trigger]
                seen.at@.contains_key(k) && seen.at@[k].segment() == segment && seen.at@[k].block()
                    == seen.records.days()[segment as int].first + start + walked ==> exists|i: int|
                    0 <= i < visited.len() && #[trigger] visited[i] == (k, seen.held@[k], seen.at@[k])
                        && is_alive(seen.index, seen.at@[k], k),
        ensures
            self.proposed(before),
            self.outstanding@.len() <= 51 * (walked + 1),
            all_alive(self.outstanding@, before.index, segment),
            before.good() ==> all_offered(
                *before,
                self.outstanding@,
                segment,
                start as int,
                start + walked + 1,
            ),
    {
        lemma_alive_voids_len(visited, seen.index);
        let made = alive_voids(visited, seen.index);
        self.lemma_dated_same(seen);
        self.lemma_good_kept(seen);
        self.lemma_numbered(seen);
        if seen.good() {
            self.lemma_offered(seen, visited);
        }
        assert(self.proposed(seen));
        self.lemma_proposed(seen, before);
        assert forall|i: int| 0 <= i < self.outstanding@.len() implies is_alive(
            before.index,
            (#[trigger] self.outstanding@[i]).0,
            self.outstanding@[i].1.pending_ref,
        ) && self.outstanding@[i].0.segment() == segment by {
            if i < seen.outstanding@.len() {
                assert(self.outstanding@[i] == seen.outstanding@[i]);
            } else {
                let m = i - seen.outstanding@.len();
                assert(self.outstanding@[i] == made[m]);
                let j = lemma_alive_voids(visited, seen.index, m);
                assert(visited[j].2.segment() == segment);
            }
        }
        if before.good() {
            assert forall|k: TxId| #[trigger]
                before.places().contains_key(k) && before.places()[k].segment() == segment
                    && before.log().days()[segment as int].first + start <= before.places()[k].block()
                    < before.log().days()[segment as int].first + start + walked + 1
                    && before.log().held().oldest_resident <= before.places()[k].block()
                    < before.log().held().next_block implies self.outstanding@.contains(
                (before.places()[k], Transfer::expiry_void(k, before.holds()[k])),
            ) by {
                let one = (before.places()[k], Transfer::expiry_void(k, before.holds()[k]));
                if before.places()[k].block() < before.log().days()[segment as int].first + start
                    + walked {
                    assert(seen.outstanding@.contains(one));
                    let n = choose|n: int|
                        0 <= n < seen.outstanding@.len() && seen.outstanding@[n] == one;
                    assert(self.outstanding@[n] == one);
                } else {
                    assert(seen.at@.contains_key(k));
                    let i = choose|i: int|
                        0 <= i < visited.len() && #[trigger] visited[i] == (
                            k,
                            seen.held@[k],
                            seen.at@[k],
                        ) && is_alive(seen.index, seen.at@[k], k);
                    lemma_alive_voids_has(visited, seen.index, i);
                    let n = choose|n: int| 0 <= n < made.len() && made[n] == one;
                    assert(self.outstanding@[seen.outstanding@.len() + n] == one);
                }
            }
        }
    }
}

impl<S: DurableStore> PendingEngine<S> {
    /// The next holds whose retention has run out, as the transfers that release them. Bounded per call by
    /// blocks of the expiring day, so that a day's expiry is spread over the day: falling behind deletes
    /// late, which is safe.
    ///
    /// The day is done when the index has nothing left in it, and the cursor moves on. A void that has not
    /// landed is offered again before anything more is walked, so one that nobody took is not lost.
    pub fn propose_expiry(&mut self, blocks: usize, now: u64, into: &mut Vec<Transfer>)
        requires
            old(self).wf(),
        ensures
            final(self).proposed(old(self)),
            final(into)@ == old(into)@ + match expiring_of(old(self).calendar()) {
                Some(segment) if old(self).table().spec_live_in(segment as int) > 0 => voids_of(
                    final(self).calendar().outstanding,
                ),
                _ => Seq::empty(),
            },
            proposes(*old(self), *final(self), blocks, now),
            old(self).healthy() && old(self).grounded() ==> match expiring_of(old(self).calendar()) {
                Some(segment) if old(self).table().spec_live_in(segment as int) > 0 => forall|i: int|
                    #![trigger final(self).calendar().outstanding[i]]
                    0 <= i < final(self).calendar().outstanding.len() ==> is_expired_void(
                        *old(self),
                        final(self).calendar().outstanding[i].1,
                        segment,
                    ),
                _ => true,
            },
    {
        proof {
            self.lemma_proposed_refl();
        }
        let segment: u8 = match self.expiring_segment() {
            Some(segment) => segment,
            None => {
                assert(into@ =~= old(into)@ + Seq::<Transfer>::empty());
                return;
            },
        };
        if self.index.live_in_segment(segment) == 0 {
            // The day's holds are all released. Handing its blocks back is no decision about retention.
            match self.sweep.day {
                Some(day) => {
                    self.sweep = Sweep { day: Some(add_count(day, 1)), at_block: 0 };
                },
                None => {},
            }
            proof {
                self.lemma_cursor(old(self));
                assert(into@ =~= old(into)@ + Seq::<Transfer>::empty());
            }
            return;
        }
        self.offer_slice(segment, blocks, now);
        self.hand_over(into);
        proof {
            if old(self).healthy() && old(self).grounded() {
                assert forall|i: int|
                    #![trigger self.calendar().outstanding[i]]
                    0 <= i < self.calendar().outstanding.len() implies is_expired_void(
                    *old(self),
                    self.calendar().outstanding[i].1,
                    segment,
                ) by {
                    assert(self.calendar().outstanding[i] == self.outstanding@[i]);
                    self.lemma_expired(old(self), segment, i);
                }
            }
        }
    }

    /// Makes the voids outstanding those of a segment's holds to be offered now: those offered before that
    /// have not landed, or, once all have, those on the next blocks of the day.
    fn offer_slice(&mut self, segment: u8, blocks: usize, now: u64)
        requires
            old(self).wf(),
            segment < SEGMENTS,
        ensures
            final(self).proposed(old(self)),
            all_alive(final(self).outstanding@, old(self).table(), segment),
            ({
                let alive = still_alive(old(self).outstanding@, old(self).table(), segment);
                if alive.len() > 0 || old(self).log().sweeps().len() > 0 {
                    &&& final(self).calendar() == (Calendar {
                        outstanding: alive,
                        ..old(self).calendar()
                    })
                    &&& final(self).log() == old(self).log()
                } else {
                    &&& final(self).calendar().today == old(self).calendar().today
                    &&& final(self).calendar().lifetime_days == old(self).calendar().lifetime_days
                    &&& final(self).calendar().sweep.day == old(self).calendar().sweep.day
                    &&& final(self).outstanding@.len() <= 51 * (if blocks == 0 {
                        1
                    } else {
                        blocks as int
                    })
                    &&& exists|walked: u64|
                        walked_from(*old(self), *final(self), segment, blocks, walked, now)
                }
            }),
    {
        self.retire(segment);
        let ghost retired = *self;
        proof {
            self.records.lemma_began_same(&old(self).records);
            self.lemma_dated_same(old(self));
            assert(self.proposed(old(self)));
            assert forall|i: int| 0 <= i < self.outstanding@.len() implies is_alive(
                old(self).index,
                (#[trigger] self.outstanding@[i]).0,
                self.outstanding@[i].1.pending_ref,
            ) && self.outstanding@[i].0.segment() == segment by {
                lemma_still_alive(old(self).outstanding@, old(self).index, segment, i);
            }
        }
        if self.outstanding.len() == 0 && self.records.sweeping_blocks() == 0 {
            let walked: u64 = self.walk_day(segment, blocks, now);
            proof {
                self.lemma_proposed(&retired, old(self));
                lemma_sweeps_from(retired, *old(self), *self, segment, blocks, walked, now);
                assert(walked_from(*old(self), *self, segment, blocks, walked, now));
                assert(51 * walked <= 51 * (if blocks == 0 {
                    1
                } else {
                    blocks as int
                })) by (nonlinear_arith)
                    requires
                        walked <= blocks || walked <= 1,
                        walked >= 0,
                        blocks >= 0,
                ;
            }
        }
    }

    /// An outstanding void of a healthy engine releases a hold that is there, whose record is in the
    /// expiring segment.
    proof fn lemma_expired(&self, before: &Self, segment: u8, i: int)
        requires
            self.proposed(before),
            before.wf(),
            before.good(),
            before.grounded(),
            0 <= i < self.outstanding@.len(),
            is_alive(
                before.index,
                self.outstanding@[i].0,
                self.outstanding@[i].1.pending_ref,
            ),
            self.outstanding@[i].0.segment() == segment,
        ensures
            is_expired_void(*before, self.outstanding@[i].1, segment),
    {
        let (addr, void) = self.outstanding@[i];
        assert(is_void_of(self.records, addr, void)) by {
            reveal(PendingEngine::grounded);
        }
        let hold = choose|hold: HoldData| #[trigger]
            self.records.holds(addr, (void.pending_ref, hold)) && void == Transfer::expiry_void(
                void.pending_ref,
                hold,
            );
        self.lemma_alive(void.pending_ref, hold, addr);
    }
}

/// The void releases a hold that is there, whose record is in a segment, and says of it what its record
/// says.
pub open spec fn is_expired_void<S: DurableStore>(
    engine: PendingEngine<S>,
    void: Transfer,
    segment: u8,
) -> bool {
    &&& engine.holds().contains_key(void.pending_ref)
    &&& engine.places()[void.pending_ref].segment() == segment
    &&& void == Transfer::expiry_void(void.pending_ref, engine.holds()[void.pending_ref])
}

/// The sweep walked this many of a day's blocks, and offered every hold on those that are in memory.
pub open spec fn walked_from<S: DurableStore>(
    before: PendingEngine<S>,
    after: PendingEngine<S>,
    segment: u8,
    blocks: usize,
    walked: u64,
    now: u64,
) -> bool {
    let start = before.calendar().sweep.at_block;
    &&& sweeps_on(before, after, segment, blocks, walked, now)
    &&& after.calendar().swept_blocks == plus(before.calendar().swept_blocks, walked)
    &&& after.calendar().sweep.at_block == start + walked || (after.calendar().sweep.at_block == 0 && start
        + walked >= before.log().days()[segment as int].blocks)
    &&& before.good() ==> all_offered(
        before,
        after.calendar().outstanding,
        segment,
        start as int,
        start + walked,
    )
}

/// An expiry is never early: whatever is proposed is of a segment whose day, with its lifetime, is over.
pub proof fn law_nothing_expires_before_its_lifetime_is_over(calendar: Calendar)
    ensures
        expiring_of(calendar) matches Some(segment) ==> {
            &&& calendar.sweep.day is Some
            &&& calendar.sweep.day.unwrap() + calendar.lifetime_days <= calendar.today
            &&& segment == calendar.sweep.day.unwrap() % SEGMENTS
        },
{
}

/// No two days that are live at once share a segment: from the day being emptied to the day being
/// written, the days have numbers of their own.
pub proof fn law_live_days_have_segments_of_their_own(calendar: Calendar, day: u64, one: u64, other: u64)
    requires
        calendar.sweep.day is Some,
        has_a_segment(calendar.sweep, day),
        calendar.sweep.day.unwrap() <= one <= day,
        calendar.sweep.day.unwrap() <= other <= day,
    ensures
        one % SEGMENTS == other % SEGMENTS ==> one == other,
{
    if one % SEGMENTS == other % SEGMENTS && one != other {
        let low = if one < other {
            one as int
        } else {
            other as int
        };
        let high = if one < other {
            other as int
        } else {
            one as int
        };
        assert(high - low < 63);
        assert(low % 63 == high % 63);
    }
}

/// Days are finished in order and none is skipped: proposing expiries moves the cursor on by one day, and
/// only when the index has no entry left in that day's segment.
pub proof fn law_a_day_with_a_hold_left_is_not_finished<S: DurableStore>(
    engine: PendingEngine<S>,
    key: TxId,
)
    requires
        engine.wf(),
        engine.good(),
        engine.holds().contains_key(key),
    ensures
        engine.places().contains_key(key),
        engine.table().spec_live_in(engine.places()[key].segment() as int) > 0,
{
    engine.lemma_counted(key);
}

impl<S: DurableStore> PendingEngine<S> {
    proof fn lemma_counted(&self, key: TxId)
        requires
            self.wf(),
            self.good(),
            self.held@.contains_key(key),
        ensures
            self.at@.contains_key(key),
            self.index.spec_live_in(self.at@[key].segment() as int) > 0,
    {
        reveal(PendingEngine::good);
        assert(self.at@.dom().contains(key));
        self.lemma_mask();
        let words = self.index.words();
        let mask = self.index.mask();
        law_every_key_is_found(words, mask, self.at@, key);
        let found = matching(words, mask, key);
        let n = choose|n: int|
            0 <= n < found.len() && address_of(words[#[trigger] found[n]]) == self.at@[key];
        assert(found.contains(found[n]));
        lemma_matching(words, mask, key, found[n]);
        let segment = self.at@[key].segment() as int;
        lemma_count_none(words, in_segment(segment));
        assert(in_segment(segment)(words[found[n]]));
    }
}

/// A lookup under this handle is waiting, for this key.
pub open spec fn asks<S: DurableStore>(engine: PendingEngine<S>, handle: u64, key: TxId) -> bool {
    engine.held_up().contains((handle, key)) || exists|number: u64| #[trigger]
        engine.waiting().contains_key(number) && engine.waiting()[number] == (handle, key)
}

/// A lookup that nobody asked for is on course.
pub proof fn lemma_unasked<S: DurableStore>(engine: PendingEngine<S>, handle: u64, key: TxId)
    requires
        !asks(engine, handle, key),
    ensures
        engine.sure_of(handle, key),
{
    engine.lemma_asks_of_walks();
}

/// The same lookups are waiting.
pub proof fn lemma_asks_same<S: DurableStore>(now: PendingEngine<S>, was: PendingEngine<S>)
    requires
        now.waiting() == was.waiting(),
        now.held_up() == was.held_up(),
    ensures
        forall|h: u64, k: TxId| #[trigger] asks(now, h, k) ==> asks(was, h, k),
{
    assert forall|h: u64, k: TxId| #[trigger] asks(now, h, k) implies asks(was, h, k) by {
        if !now.held_up().contains((h, k)) {
            let n = choose|n: u64| #[trigger]
                now.waiting().contains_key(n) && now.waiting()[n] == (h, k);
            assert(was.waiting().contains_key(n));
        }
    }
}

/// One lookup more is waiting at most.
pub proof fn lemma_asks_more<S: DurableStore>(
    now: PendingEngine<S>,
    was: PendingEngine<S>,
    handle: u64,
    key: TxId,
)
    requires
        now.held_up() == was.held_up(),
        now.waiting() == was.waiting() || now.waiting() == was.waiting().insert(
            now.last_read(),
            (handle, key),
        ),
    ensures
        now.waiting() == was.waiting() ==> forall|h: u64, k: TxId| #[trigger]
            asks(now, h, k) ==> asks(was, h, k),
        forall|h: u64, k: TxId| #[trigger]
            asks(now, h, k) ==> asks(was, h, k) || (h, k) == (handle, key),
{
    if now.waiting() == was.waiting() {
        lemma_asks_same(now, was);
    }
    assert forall|h: u64, k: TxId| #[trigger] asks(now, h, k) implies asks(was, h, k) || (h, k) == (
        handle,
        key,
    ) by {
        if now.waiting() != was.waiting() && !now.held_up().contains((h, k)) {
            let number = choose|number: u64| #[trigger]
                now.waiting().contains_key(number) && now.waiting()[number] == (h, k);
            if number != now.last_read() {
                assert(was.waiting().contains_key(number));
            }
        }
    }
}

/// An answer to the lookup of a key. A lookup that is on course is answered with what the key's hold now
/// is. One whose key was decided about while it was on its way may find a version of the hold that has
/// been superseded since, but never another key's, and the totals are those that the group now has.
pub open spec fn is_answer_for<S: DurableStore>(
    engine: PendingEngine<S>,
    handle: u64,
    key: TxId,
    found: Option<HoldData>,
) -> bool {
    &&& asks(engine, handle, key)
    &&& found matches Some(hold) ==> (engine.trusted() ==> from_memory(engine, key, hold) || from_rest(
        engine,
        key,
        hold,
    ))
    &&& engine.healthy() && engine.sure_of(handle, key) ==> found == answer_to(
        engine.holds(),
        engine.groups(),
        key,
    )
}

/// An answer to a lookup, of a key that was asked about under its handle.
pub open spec fn is_reply<S: DurableStore>(
    engine: PendingEngine<S>,
    handle: u64,
    found: Option<HoldData>,
) -> bool {
    exists|key: TxId| #[trigger] is_answer_for(engine, handle, key, found)
}

/// A walk that waits on no read was taken up: it came to an answer, or it waits on a read again, or it is
/// held up behind these.
pub open spec fn resumes<S: DurableStore>(
    was: PendingEngine<S>,
    after: PendingEngine<S>,
    walk: Walking,
    stalls: Seq<Walking>,
    now: u64,
    done: Option<(u64, Option<HoldData>)>,
) -> bool {
    match done {
        Some((handle, found)) => {
            &&& handle == walk.handle
            &&& steps(was, after, walk, now, Step::Answered(found))
            &&& after.stalls() == stalls
        },
        None => {
            ||| steps(was, after, walk, now, Step::Waits) && after.stalls() == stalls
            ||| exists|at: Walking| #[trigger]
                steps(was, after, walk, now, Step::Held(at)) && after.stalls() == stalls.push(at)
        },
    }
}

/// The oldest walk that was held up was taken up, if one was.
pub open spec fn takes_up<S: DurableStore>(
    was: PendingEngine<S>,
    after: PendingEngine<S>,
    now: u64,
    done: Option<(u64, Option<HoldData>)>,
) -> bool {
    &&& after.calendar() == was.calendar()
    &&& if was.stalls().len() == 0 {
        &&& done is None
        &&& after.stalls() == was.stalls()
        &&& after.walks() == was.walks()
        &&& after.log() == was.log()
        &&& after.last_read() == was.last_read()
    } else {
        resumes(was, after, was.stalls()[0], was.stalls().drop_first(), now, done)
    }
}

/// One answer of the store's was taken: a record that a walk waited for, which is the key's or sends the
/// walk on, or records that the sweep asked for, which are offered where the index still points at them.
pub open spec fn takes_one<S: DurableStore>(
    was: PendingEngine<S>,
    after: PendingEngine<S>,
    now: u64,
    done: Option<(u64, Option<HoldData>)>,
    more: bool,
) -> bool {
    exists|
        log: RecordLog<S>,
        answered: Option<(u64, RecordAddr, TxId, HoldData)>,
        found: Seq<Placed>,
    | #[trigger]
        was.log().polls(&log, now, answered, found) && settles(
            was,
            after,
            log,
            answered,
            found,
            now,
            done,
            more,
        )
}

/// The same, with what the log was brought known.
pub open spec fn settles<S: DurableStore>(
    was: PendingEngine<S>,
    after: PendingEngine<S>,
    log: RecordLog<S>,
    answered: Option<(u64, RecordAddr, TxId, HoldData)>,
    found: Seq<Placed>,
    now: u64,
    done: Option<(u64, Option<HoldData>)>,
    more: bool,
) -> bool {
    match answered {
        None => {
            &&& done is None
            &&& !more
            &&& after.log() == log
            &&& after.walks() == was.walks()
            &&& after.stalls() == was.stalls()
            &&& after.last_read() == was.last_read()
            &&& after.calendar() == (Calendar {
                outstanding: was.calendar().outstanding + alive_voids(found, was.table()),
                ..was.calendar()
            })
        },
        Some((number, _, owner, hold)) => {
            let walk = was.walks()[number];
            &&& after.calendar() == was.calendar()
            &&& if was.walks().contains_key(number) && owner != walk.key {
                &&& more == (done is None)
                &&& sends_on(was, after, log, number, now, done)
            } else {
                &&& after.log() == log
                &&& after.walks() == was.walks().remove(number)
                &&& after.stalls() == was.stalls()
                &&& after.last_read() == was.last_read()
                &&& if was.walks().contains_key(number) {
                    &&& done == Some((walk.handle, Some(with_totals(was.groups(), hold))))
                    &&& !more
                } else {
                    &&& done is None
                    &&& more
                }
            }
        },
    }
}

/// A walk whose candidate turned out to be another key's was taken up past it.
pub open spec fn sends_on<S: DurableStore>(
    was: PendingEngine<S>,
    after: PendingEngine<S>,
    log: RecordLog<S>,
    number: u64,
    now: u64,
    done: Option<(u64, Option<HoldData>)>,
) -> bool {
    let walk = was.walks()[number];
    exists|between: PendingEngine<S>|
        between.log() == log && between.walks() == was.walks().remove(number) && between.table()
            == was.table() && between.groups() == was.groups() && between.last_read() == was.last_read()
            && #[trigger] resumes(
            between,
            after,
            Walking { left: walk.left.drop_first(), ..walk },
            was.stalls(),
            now,
            done,
        )
}

/// Walks held up were taken up one after another, and none came to an answer.
pub open spec fn takes_up_all<S: DurableStore>(run: Seq<PendingEngine<S>>, now: u64) -> bool {
    &&& run.len() > 0
    &&& forall|i: int, j: int|
        0 <= i && j == i + 1 && j < run.len() ==> takes_up(
            #[trigger] run[i],
            #[trigger] run[j],
            now,
            None,
        )
}

/// Answers of the store's were taken one after another, and none answered a lookup.
pub open spec fn takes_all<S: DurableStore>(run: Seq<PendingEngine<S>>, now: u64) -> bool {
    &&& run.len() > 0
    &&& forall|i: int, j: int|
        0 <= i && j == i + 1 && j < run.len() ==> takes_one(
            #[trigger] run[i],
            #[trigger] run[j],
            now,
            None,
            true,
        )
}

/// The store's answers were taken until one answered a lookup, or there were no more. More than the largest
/// count are not asked for.
pub open spec fn collects<S: DurableStore>(
    was: PendingEngine<S>,
    after: PendingEngine<S>,
    now: u64,
    done: Option<(u64, Option<HoldData>)>,
) -> bool {
    exists|run: Seq<PendingEngine<S>>| #[trigger]
        takes_all(run, now) && run[0] == was && if run.len() > u64::MAX {
            run.last() == after && done is None
        } else {
            takes_one(run.last(), after, now, done, false) || (done is Some && takes_one(
                run.last(),
                after,
                now,
                done,
                true,
            ))
        }
}

/// The walks held up were each taken up once, until one came to an answer; and where none did, the store's
/// answers were taken until one answered a lookup or there were no more.
pub open spec fn harvests<S: DurableStore>(
    was: PendingEngine<S>,
    after: PendingEngine<S>,
    now: u64,
    done: Option<(u64, Option<HoldData>)>,
) -> bool {
    exists|run: Seq<PendingEngine<S>>| #[trigger]
        takes_up_all(run, now) && run[0] == was && if run.len() <= was.stalls().len() {
            done is Some && takes_up(run.last(), after, now, done)
        } else {
            run.len() == was.stalls().len() + 1 && collects(run.last(), after, now, done)
        }
}

/// What a walk does depends on the index, the log and the groups alone, and the numbers used.
proof fn lemma_resumes_from<S: DurableStore>(
    one: PendingEngine<S>,
    other: PendingEngine<S>,
    after: PendingEngine<S>,
    walk: Walking,
    stalls: Seq<Walking>,
    now: u64,
    done: Option<(u64, Option<HoldData>)>,
)
    requires
        resumes(one, after, walk, stalls, now, done),
        one.log() == other.log(),
        one.table() == other.table(),
        one.groups() == other.groups(),
        one.walks() == other.walks(),
        one.last_read() == other.last_read(),
    ensures
        resumes(other, after, walk, stalls, now, done),
{
    lemma_along_same(one, other, walk);
    lemma_along_same(one, other, begins(one, walk.handle, walk.key));
    assert(course(one, walk) == course(other, walk));
    match done {
        Some(_) => {},
        None => {
            if !(steps(one, after, walk, now, Step::Waits) && after.stalls() == stalls) {
                let at = choose|at: Walking| #[trigger]
                    steps(one, after, walk, now, Step::Held(at)) && after.stalls() == stalls.push(at);
                assert(steps(other, after, walk, now, Step::Held(at)));
            }
        },
    }
}

proof fn lemma_along_same<S: DurableStore>(
    one: PendingEngine<S>,
    other: PendingEngine<S>,
    walk: Walking,
)
    requires
        one.log() == other.log(),
        one.groups() == other.groups(),
    ensures
        along(one, walk) == along(other, walk),
    decreases walk.left.len(),
{
    if walk.left.len() > 0 {
        let rest = Walking { left: walk.left.drop_first(), ..walk };
        lemma_along_same(one, other, rest);
        lemma_along_same(one, other, Walking { moved: true, ..rest });
    }
}

proof fn lemma_takes_up_more<S: DurableStore>(
    run: Seq<PendingEngine<S>>,
    now: u64,
    after: PendingEngine<S>,
)
    requires
        takes_up_all(run, now),
        takes_up(run.last(), after, now, None),
    ensures
        takes_up_all(run.push(after), now),
{
    let more = run.push(after);
    assert forall|i: int, j: int| 0 <= i && j == i + 1 && j < more.len() implies takes_up(
        #[trigger] more[i],
        #[trigger] more[j],
        now,
        None,
    ) by {
        assert(more[i] == run[i]);
        if j < run.len() {
            assert(more[j] == run[j]);
        }
    }
}

proof fn lemma_takes_more<S: DurableStore>(
    run: Seq<PendingEngine<S>>,
    now: u64,
    after: PendingEngine<S>,
)
    requires
        takes_all(run, now),
        takes_one(run.last(), after, now, None, true),
    ensures
        takes_all(run.push(after), now),
{
    let more = run.push(after);
    assert forall|i: int, j: int| 0 <= i && j == i + 1 && j < more.len() implies takes_one(
        #[trigger] more[i],
        #[trigger] more[j],
        now,
        None,
        true,
    ) by {
        assert(more[i] == run[i]);
        if j < run.len() {
            assert(more[j] == run[j]);
        }
    }
}

impl<S: DurableStore> PendingEngine<S> {
    /// What taking the store's answers leaves alone.
    pub open spec fn gathered(&self, before: &Self) -> bool {
        &&& self.wf()
        &&& before.trusted() ==> self.trusted()
        &&& before.good() ==> self.good()
        &&& before.trusted() && before.grounded() ==> self.grounded()
        &&& before.in_order() ==> self.in_order()
        &&& self.table() == before.table()
        &&& self.holds() == before.holds()
        &&& self.places() == before.places()
        &&& self.groups() == before.groups()
        &&& self.decisions() == before.decisions()
        &&& before.dated() ==> self.dated()
        &&& self.spec_applied() == before.spec_applied()
        &&& self.spec_applied_through() == before.spec_applied_through()
        &&& self.calendar() == (Calendar {
            outstanding: self.calendar().outstanding,
            ..before.calendar()
        })
        &&& before.calendar().outstanding.is_prefix_of(self.calendar().outstanding)
        &&& self.log().held() == before.log().held()
        &&& self.log().days() == before.log().days()
        &&& self.log().sealed() == before.log().sealed()
        &&& self.log().books() == before.log().books()
        &&& self.log().keeps(&before.log())
        &&& before.log().fault() ==> self.log().fault()
        &&& forall|handle: u64, key: TxId| #[trigger]
            asks(*self, handle, key) ==> asks(*before, handle, key)
        &&& before.healthy() && !self.log().fault() ==> forall|handle: u64, key: TxId|
            before.sure_of(handle, key) ==> #[trigger] self.sure_of(handle, key)
    }

    proof fn lemma_gathered(&self, between: &Self, before: &Self)
        requires
            self.gathered(between),
            between.gathered(before),
        ensures
            self.gathered(before),
    {
        self.lemma_keeps(between, before);
        assert forall|handle: u64, key: TxId| #[trigger] asks(*self, handle, key) implies asks(
            *before,
            handle,
            key,
        ) by {
            assert(asks(*between, handle, key));
        }
        if before.healthy() && !self.log().fault() {
            assert forall|handle: u64, key: TxId| before.sure_of(handle, key) implies #[trigger] self.sure_of(
                handle,
                key,
            ) by {
                assert(between.sure_of(handle, key));
            }
        }
    }

    proof fn lemma_reply(&self, before: &Self, handle: u64, found: Option<HoldData>)
        requires
            self.gathered(before),
            self.log().fault() == before.log().fault(),
            is_reply(*self, handle, found),
        ensures
            is_reply(*before, handle, found),
    {
        let key = choose|key: TxId| #[trigger] is_answer_for(*self, handle, key, found);
        assert(asks(*before, handle, key));
        if before.trusted() && found is Some {
            let hold = found.unwrap();
            if from_memory(*self, key, hold) {
                self.lemma_from_memory(before, key, hold);
            } else {
                self.lemma_from_rest(before, key, hold);
            }
        }
        if before.healthy() && before.sure_of(handle, key) {
            assert(self.sure_of(handle, key));
        }
        assert(is_answer_for(*before, handle, key, found));
    }

    proof fn lemma_from_rest(&self, before: &Self, key: TxId, hold: HoldData)
        requires
            from_rest(*self, key, hold),
            self.log().sealed() == before.log().sealed(),
            self.groups() == before.groups(),
        ensures
            from_rest(*before, key, hold),
    {
        let (addr, version) = choose|addr: RecordAddr, version: HoldData|
            #![trigger with_totals(self.groups(), version), self.log().at_rest(addr)]
            self.log().at_rest(addr) == Some((key, version)) && hold == with_totals(
                self.groups(),
                version,
            );
        assert(before.log().at_rest(addr) == Some((key, version)));
        assert(hold == with_totals(before.groups(), version));
    }

    /// The next lookup the store has finished, if its record turns out to be the key that was asked for.
    /// When it does not, the walk continues and this answers nothing yet. A walk whose next read the store
    /// would not take is kept and taken up again here.
    pub fn harvest(&mut self, now: u64) -> (done: Option<(u64, Option<HoldData>)>)
        requires
            old(self).wf(),
        ensures
            final(self).gathered(old(self)),
            harvests(*old(self), *final(self), now, done),
            done matches Some((handle, found)) ==> is_reply(*old(self), handle, found),
            done is Some ==> final(self).log().fault() == old(self).log().fault(),
    {
        let mut tries: usize = self.stalled.len();
        let ghost mut retried: Seq<PendingEngine<S>> = seq![*self];
        proof {
            self.lemma_gathered_same(self);
        }
        while tries > 0
            invariant
                takes_up_all(retried, now),
                retried[0] == *old(self),
                retried.last() == *self,
                retried.len() + tries == old(self).stalls().len() + 1,
                self.gathered(old(self)),
                self.records.fault() == old(self).records.fault(),
            decreases tries,
        {
            let ghost was = *self;
            let done = self.take_stalled(now);
            proof {
                self.lemma_gathered(&was, old(self));
            }
            match done {
                Some((handle, found)) => {
                    proof {
                        was.lemma_reply(old(self), handle, found);
                    }
                    return Some((handle, found));
                },
                None => {},
            }
            proof {
                lemma_takes_up_more(retried, now, *self);
                retried = retried.push(*self);
            }
            tries = tries - 1;
        }
        let ghost retaken = *self;
        let ghost mut run: Seq<PendingEngine<S>> = seq![*self];
        // More answers than any store holds: the round ends when there are no more.
        let mut left: u64 = u64::MAX;
        while left > 0
            invariant
                takes_all(run, now),
                run[0] == retaken,
                run.last() == *self,
                run.len() + left == u64::MAX + 1,
                takes_up_all(retried, now),
                retried[0] == *old(self),
                retried.last() == retaken,
                retried.len() == old(self).stalls().len() + 1,
                self.gathered(old(self)),
                self.records.fault() == old(self).records.fault(),
            decreases left,
        {
            let ghost was = *self;
            let (done, more) = self.take_answer(now);
            proof {
                self.lemma_gathered(&was, old(self));
            }
            match done {
                Some((handle, found)) => {
                    proof {
                        assert(collects(retaken, *self, now, done));
                        was.lemma_reply(old(self), handle, found);
                    }
                    return Some((handle, found));
                },
                None => {
                    if !more {
                        assert(collects(retaken, *self, now, done));
                        return None;
                    }
                    proof {
                        lemma_takes_more(run, now, *self);
                        run = run.push(*self);
                    }
                },
            }
            left = left - 1;
        }
        assert(collects(retaken, *self, now, None));
        None
    }

    proof fn lemma_asks_of_walks(&self)
        ensures
            forall|number: u64| #[trigger]
                self.walks().contains_key(number) ==> asks(
                    *self,
                    self.walks()[number].handle,
                    self.walks()[number].key,
                ),
            forall|i: int|
                0 <= i < self.stalls().len() ==> asks(
                    *self,
                    (#[trigger] self.stalls()[i]).handle,
                    self.stalls()[i].key,
                ),
    {
        assert forall|number: u64| #[trigger] self.walks().contains_key(number) implies asks(
            *self,
            self.walks()[number].handle,
            self.walks()[number].key,
        ) by {
            assert(self.waiting().contains_key(number));
        }
        assert forall|i: int| 0 <= i < self.stalls().len() implies asks(
            *self,
            (#[trigger] self.stalls()[i]).handle,
            self.stalls()[i].key,
        ) by {
            assert(self.held_up()[i] == (self.stalls()[i].handle, self.stalls()[i].key));
        }
    }

    /// Nothing but the log's reads has moved.
    proof fn lemma_gathered_same(&self, before: &Self)
        requires
            before.wf(),
            self.records.wf(),
            self.index == before.index,
            self.budgets == before.budgets,
            self.fetches == before.fetches,
            self.stalled == before.stalled,
            self.reads == before.reads,
            self.calendar() == before.calendar(),
            self.applied_through == before.applied_through,
            self.applied == before.applied,
            self.at == before.at,
            self.held == before.held,
            self.decided == before.decided,
            self.records.keeps(&before.records),
            before.records.sound() ==> self.records.sound(),
            self.records.disk().truthful() == before.records.disk().truthful(),
            forall|h: u64| before.records.unasked(h) ==> #[trigger] self.records.unasked(h),
            self.records.held() == before.records.held(),
            self.records.days() == before.records.days(),
            self.records.sealed() == before.records.sealed(),
            self.records.books() == before.records.books(),
            before.records.fault() ==> self.records.fault(),
            !self.records.fault() ==> self.records.fetches() == before.records.fetches(),
        ensures
            self.gathered(before),
            before.grounded() ==> self.grounded(),
    {
        self.lemma_dated_same(before);
        self.lemma_good_kept(before);
        self.lemma_grounded(before);
        lemma_asks_same(*self, *before);
        if !self.records.fault() {
            self.lemma_walked_on(before);
        }
        self.records.lemma_began_same(&before.records);
        if before.numbered() {
            assert forall|h: u64| self.reads < h < OWNER_WEIGHT implies #[trigger] self.records.unasked(h) by {
                assert(before.records.unasked(h));
            }
        }
    }

    /// Takes up a walk that is not waiting on a read: what it came to, and where it waits now.
    fn resume(&mut self, fetch: Fetch, now: u64) -> (done: Option<(u64, Option<HoldData>)>)
        requires
            old(self).wf(),
            fetch.wf(),
        ensures
            final(self).looked(old(self)),
            resumes(
                *old(self),
                *final(self),
                fetch.from(fetch.next as int),
                old(self).stalls(),
                now,
                done,
            ),
            forall|handle: u64, key: TxId| #[trigger]
                asks(*final(self), handle, key) ==> asks(*old(self), handle, key) || (handle, key) == (
                    fetch.handle,
                    fetch.key,
                ),
            done matches Some((handle, found)) ==> {
                &&& handle == fetch.handle
                &&& found matches Some(hold) ==> from_memory(*old(self), fetch.key, hold)
                &&& old(self).good() && old(self).on_course(fetch.from(fetch.next as int)) ==> found
                    == answer_to(old(self).holds(), old(self).groups(), fetch.key)
            },
            old(self).good() ==> forall|h: u64, k: TxId|
                old(self).sure_of(h, k) && ((h, k) != (fetch.handle, fetch.key) || old(self).on_course(
                    fetch.from(fetch.next as int),
                )) ==> #[trigger] final(self).sure_of(h, k),
    {
        let ghost handle = fetch.handle;
        let ghost key = fetch.key;
        let ghost course = self.good() && self.on_course(fetch.from(fetch.next as int));
        let named: u64 = fetch.handle;
        let ghost begun = fetch.from(fetch.next as int);
        match self.walk(fetch, now) {
            Walk::Answered(found) => {
                proof {
                    assert(self.held_up() =~= old(self).held_up());
                }
                Some((named, found))
            },
            Walk::Fetching => {
                proof {
                    assert(self.held_up() =~= old(self).held_up());
                    lemma_asks_more(*self, *old(self), handle, key);
                }
                None
            },
            Walk::Busy(fetch) => {
                let ghost walked = *self;
                let ghost at = fetch.from(fetch.next as int);
                self.stalled.push_back(fetch);
                proof {
                    assert(self.stalls() =~= old(self).stalls().push(at));
                    assert(self.walks() =~= walked.walks());
                    assert(steps(*old(self), *self, begun, now, Step::Held(at)));
                    assert(self.stalled@.drop_last() =~= walked.stalled@);
                    self.lemma_stalled_more(&walked, handle, key, course);
                    self.lemma_good_kept(&walked);
                    self.lemma_grounded(&walked);
                    self.lemma_numbered(&walked);
                    self.lemma_dated_same(&walked);
                    assert(walked.held_up() =~= old(self).held_up());
                    if old(self).good() {
                        assert forall|h: u64, k: TxId|
                            old(self).sure_of(h, k) && ((h, k) != (handle, key)
                                || course) implies #[trigger] self.sure_of(h, k) by {
                            assert(walked.sure_of(h, k));
                        }
                    }
                }
                None
            },
        }
    }

    proof fn lemma_stalled_more(&self, before: &Self, handle: u64, key: TxId, course: bool)
        requires
            self.fetches == before.fetches,
            self.records == before.records,
            self.held == before.held,
            self.decided == before.decided,
            self.stalled@.len() == before.stalled@.len() + 1,
            self.stalled@.drop_last() == before.stalled@,
            self.stalled@.last().handle == handle,
            self.stalled@.last().key == key,
            course ==> before.on_course(self.stalled@.last().from(self.stalled@.last().next as int)),
        ensures
            forall|h: u64, k: TxId| #[trigger]
                asks(*self, h, k) ==> asks(*before, h, k) || (h, k) == (handle, key),
            forall|h: u64, k: TxId|
                before.sure_of(h, k) && ((h, k) != (handle, key) || course) ==> #[trigger] self.sure_of(
                    h,
                    k,
                ),
    {
        assert forall|h: u64, k: TxId|
            before.sure_of(h, k) && ((h, k) != (handle, key) || course) implies #[trigger] self.sure_of(
            h,
            k,
        ) by {
            assert forall|n: u64| #[trigger]
                self.walks().contains_key(n) && self.walks()[n].handle == h && self.walks()[n].key
                    == k implies self.reads_on_course(n) by {
                assert(before.walks().contains_key(n));
                assert(before.reads_on_course(n));
                lemma_on_course(*self, *before, self.walks()[n]);
            }
            assert forall|i: int|
                0 <= i < self.stalls().len() && (#[trigger] self.stalls()[i]).handle == h
                    && self.stalls()[i].key == k implies self.on_course(self.stalls()[i]) by {
                if i < before.stalled@.len() {
                    assert(self.stalled@.drop_last()[i] == self.stalled@[i]);
                    assert(before.on_course(before.stalls()[i]));
                }
                lemma_on_course(*self, *before, self.stalls()[i]);
            }
        }
        assert forall|h: u64, k: TxId| #[trigger] asks(*self, h, k) implies asks(*before, h, k) || (h, k)
            == (handle, key) by {
            if self.held_up().contains((h, k)) {
                let i = choose|i: int|
                    0 <= i < self.held_up().len() && self.held_up()[i] == (h, k);
                if i < before.stalled@.len() {
                    assert(self.stalled@.drop_last()[i] == self.stalled@[i]);
                    assert(before.held_up()[i] == (h, k));
                }
            } else {
                let number = choose|number: u64| #[trigger]
                    self.waiting().contains_key(number) && self.waiting()[number] == (h, k);
                assert(before.waiting().contains_key(number));
            }
        }
    }

    /// Takes up the oldest walk that the store would not take a read for.
    fn take_stalled(&mut self, now: u64) -> (done: Option<(u64, Option<HoldData>)>)
        requires
            old(self).wf(),
        ensures
            final(self).gathered(old(self)),
            takes_up(*old(self), *final(self), now, done),
            final(self).log().fault() == old(self).log().fault(),
            done matches Some((handle, found)) ==> is_reply(*old(self), handle, found),
    {
        proof {
            self.lemma_gathered_same(self);
        }
        let fetch = match self.stalled.pop_front() {
            Some(fetch) => fetch,
            None => {
                proof {
                    assert(self.stalled@ =~= old(self).stalled@);
                    self.lemma_unstalled(old(self));
                }
                return None;
            },
        };
        let ghost popped = *self;
        let ghost handle = fetch.handle;
        let ghost key = fetch.key;
        let ghost walk = fetch.from(fetch.next as int);
        proof {
            let was = old(self);
            assert(was.stalled@[0] == fetch);
            assert(was.held_up()[0] == (handle, key));
            assert(asks(*was, handle, key));
            popped.lemma_unstalled(was);
            if was.sure_of(handle, key) {
                assert(was.stalls()[0] == walk);
                lemma_on_course(popped, *was, walk);
            }
        }
        let done = self.resume(fetch, now);
        proof {
            self.lemma_taken_up(&popped, old(self), handle, key, walk);
            assert(old(self).stalls()[0] == walk);
            assert(popped.stalls() =~= old(self).stalls().drop_first());
            lemma_resumes_from(popped, *old(self), *self, walk, popped.stalls(), now, done);
            match done {
                Some((h, found)) => {
                    if found is Some {
                        popped.lemma_from_memory(old(self), key, found.unwrap());
                    }
                    assert(is_answer_for(*old(self), h, key, found));
                },
                None => {},
            }
        }
        done
    }

    /// Letting go of the oldest stalled walk, if there is one, is a gathering.
    proof fn lemma_unstalled(&self, before: &Self)
        requires
            before.wf(),
            self.index == before.index,
            self.records == before.records,
            self.budgets == before.budgets,
            self.fetches == before.fetches,
            self.reads == before.reads,
            self.calendar() == before.calendar(),
            self.applied_through == before.applied_through,
            self.applied == before.applied,
            self.at == before.at,
            self.held == before.held,
            self.decided == before.decided,
            self.stalled@ == before.stalled@ || (before.stalled@.len() > 0 && self.stalled@
                == before.stalled@.drop_first()),
        ensures
            self.gathered(before),
    {
        self.lemma_dated_same(before);
        self.lemma_good_kept(before);
        self.lemma_grounded(before);
        self.lemma_numbered(before);
        self.records.lemma_began_same(&before.records);
        let skipped: int = if self.stalled@ == before.stalled@ {
            0
        } else {
            1
        };
        assert forall|h: u64, k: TxId| #[trigger] asks(*self, h, k) implies asks(*before, h, k) by {
            if self.held_up().contains((h, k)) {
                let i = choose|i: int| 0 <= i < self.held_up().len() && self.held_up()[i] == (h, k);
                assert(before.held_up()[i + skipped] == (h, k));
            } else {
                let number = choose|number: u64| #[trigger]
                    self.waiting().contains_key(number) && self.waiting()[number] == (h, k);
                assert(before.waiting().contains_key(number));
            }
        }
        assert forall|h: u64, k: TxId| before.sure_of(h, k) implies #[trigger] self.sure_of(h, k) by {
            assert forall|n: u64| #[trigger]
                self.walks().contains_key(n) && self.walks()[n].handle == h && self.walks()[n].key
                    == k implies self.reads_on_course(n) by {
                assert(before.walks().contains_key(n));
                assert(before.reads_on_course(n));
                lemma_on_course(*self, *before, self.walks()[n]);
            }
            assert forall|i: int|
                0 <= i < self.stalls().len() && (#[trigger] self.stalls()[i]).handle == h
                    && self.stalls()[i].key == k implies self.on_course(self.stalls()[i]) by {
                assert(before.stalls()[i + skipped] == self.stalls()[i]);
                assert(before.on_course(before.stalls()[i + skipped]));
                lemma_on_course(*self, *before, self.stalls()[i]);
            }
        }
    }

    proof fn lemma_from_memory(&self, before: &Self, key: TxId, hold: HoldData)
        requires
            from_memory(*self, key, hold),
            self.log().held() == before.log().held(),
            self.groups() == before.groups(),
        ensures
            from_memory(*before, key, hold),
    {
        let (addr, version) = choose|addr: RecordAddr, version: HoldData|
            #![trigger with_totals(self.groups(), version), self.log().in_memory(addr)]
            self.log().in_memory(addr) == Some((key, version)) && hold == with_totals(
                self.groups(),
                version,
            );
        assert(before.log().in_memory(addr) == Some((key, version)));
        assert(hold == with_totals(before.groups(), version));
    }

    /// Takes one answer of the store's: what a lookup came to, and whether there may be more.
    fn take_answer(&mut self, now: u64) -> (taken: (Option<(u64, Option<HoldData>)>, bool))
        requires
            old(self).wf(),
        ensures
            final(self).gathered(old(self)),
            takes_one(*old(self), *final(self), now, taken.0, taken.1),
            taken.0 is Some || taken.1 ==> final(self).log().fault() == old(self).log().fault(),
            taken.0 matches Some((handle, found)) ==> is_reply(*old(self), handle, found),
    {
        let mut swept: Vec<Placed> = Vec::new();
        let answered = self.records.harvest(now, &mut swept);
        let ghost log = self.records;
        assert(swept@.skip(0) =~= swept@);
        assert(old(self).log().polls(&log, now, answered, swept@));
        match answered {
            None => {
                let ghost brought = *self;
                proof {
                    brought.lemma_gathered_same(old(self));
                }
                self.offer(&swept);
                proof {
                    self.lemma_swept(&brought, old(self), swept@);
                    assert(settles(*old(self), *self, log, answered, swept@, now, None, false));
                }
                (None, false)
            },
            Some((number, _, owner, hold)) => {
                let fetch = match self.fetches.remove(&number) {
                    Some(fetch) => fetch,
                    None => {
                        proof {
                            assert(self.fetches@ =~= old(self).fetches@.remove(number));
                            self.lemma_let_go(old(self), number);
                            assert(self.walks() =~= old(self).walks().remove(number));
                            assert(settles(*old(self), *self, log, answered, swept@, now, None, true));
                        }
                        return (None, true);
                    },
                };
                let ghost removed = *self;
                let ghost was = *old(self);
                let ghost handle = fetch.handle;
                let ghost key = fetch.key;
                let ghost walk = fetch.from(fetch.next as int);
                proof {
                    removed.lemma_let_go(old(self), number);
                    assert(removed.walks() =~= was.walks().remove(number));
                    assert(was.walks()[number] == fetch.from(fetch.next - 1));
                    assert(walk.left =~= was.walks()[number].left.drop_first());
                    assert(was.waiting().contains_key(number));
                    assert(was.waiting()[number] == (handle, key));
                    assert(asks(was, handle, key));
                    if was.healthy() && was.sure_of(handle, key) {
                        assert(was.walks().contains_key(number));
                        assert(was.walks()[number] == fetch.from(fetch.next - 1));
                        assert(was.reads_on_course(number));
                        was.lemma_settled_at_rest(fetch, owner, hold);
                        if owner != key {
                            lemma_on_course(removed, was, walk);
                        }
                    }
                }
                if owner == fetch.key {
                    let whole = self.with_group(hold);
                    let named: u64 = fetch.handle;
                    proof {
                        assert(whole == with_totals(was.groups(), hold));
                        if was.trusted() {
                            let addr = was.log().fetches()[number];
                            assert(was.log().at_rest(addr) == Some((key, hold)));
                            assert(from_rest(was, key, whole));
                        }
                        assert(is_answer_for(was, named, key, Some(whole)));
                        assert(settles(
                            was,
                            *self,
                            log,
                            answered,
                            swept@,
                            now,
                            Some((named, Some(whole))),
                            false,
                        ));
                    }
                    return (Some((named, Some(whole))), false);
                }
                let done = self.resume(fetch, now);
                proof {
                    self.lemma_taken_up(&removed, old(self), handle, key, walk);
                    assert(resumes(removed, *self, walk, was.stalls(), now, done));
                    assert(sends_on(was, *self, log, number, now, done));
                    assert(settles(was, *self, log, answered, swept@, now, done, done is None));
                    match done {
                        Some((h, found)) => {
                            if found is Some {
                                removed.lemma_from_memory(old(self), key, found.unwrap());
                            }
                            assert(is_answer_for(was, h, key, found));
                        },
                        None => {},
                    }
                }
                let more: bool = done.is_none();
                (done, more)
            },
        }
    }

    /// Letting go of a read that the log has an answer to is a gathering.
    proof fn lemma_let_go(&self, before: &Self, number: u64)
        requires
            before.wf(),
            self.records.wf(),
            self.index == before.index,
            self.budgets == before.budgets,
            self.stalled == before.stalled,
            self.reads == before.reads,
            self.calendar() == before.calendar(),
            self.applied_through == before.applied_through,
            self.applied == before.applied,
            self.at == before.at,
            self.held == before.held,
            self.decided == before.decided,
            self.fetches@ == before.fetches@.remove(number),
            self.records.fetches() == before.records.fetches().remove(number),
            self.records.keeps(&before.records),
            before.records.sound() ==> self.records.sound(),
            self.records.disk().truthful() == before.records.disk().truthful(),
            forall|h: u64| before.records.unasked(h) ==> #[trigger] self.records.unasked(h),
            self.records.held() == before.records.held(),
            self.records.days() == before.records.days(),
            self.records.sealed() == before.records.sealed(),
            self.records.books() == before.records.books(),
            self.records.fault() == before.records.fault(),
        ensures
            self.gathered(before),
    {
        self.lemma_dated_same(before);
        self.lemma_good_kept(before);
        self.lemma_grounded(before);
        self.records.lemma_began_same(&before.records);
        if before.numbered() {
            assert forall|h: u64| self.reads < h < OWNER_WEIGHT implies #[trigger] self.records.unasked(h) by {
                assert(before.records.unasked(h));
            }
        }
        assert forall|h: u64, k: TxId| #[trigger] asks(*self, h, k) implies asks(*before, h, k) by {
            if self.held_up().contains((h, k)) {
                assert(before.held_up().contains((h, k)));
            } else {
                let n = choose|n: u64| #[trigger]
                    self.waiting().contains_key(n) && self.waiting()[n] == (h, k);
                assert(self.fetches@.contains_key(n));
                assert(before.waiting().contains_key(n));
            }
        }
        assert forall|h: u64, k: TxId| before.sure_of(h, k) implies #[trigger] self.sure_of(h, k) by {
            assert forall|n: u64| #[trigger]
                self.walks().contains_key(n) && self.walks()[n].handle == h && self.walks()[n].key
                    == k implies self.reads_on_course(n) by {
                assert(self.fetches@.contains_key(n));
                assert(before.walks().contains_key(n));
                assert(before.reads_on_course(n));
                lemma_on_course(*self, *before, self.walks()[n]);
            }
            assert forall|i: int|
                0 <= i < self.stalls().len() && (#[trigger] self.stalls()[i]).handle == h
                    && self.stalls()[i].key == k implies self.on_course(self.stalls()[i]) by {
                assert(before.on_course(before.stalls()[i]));
                lemma_on_course(*self, *before, self.stalls()[i]);
            }
        }
    }

    /// A walk taken up from an engine that had just let it go is a gathering of the one that had it.
    proof fn lemma_taken_up(&self, removed: &Self, before: &Self, handle: u64, key: TxId, walk: Walking)
        requires
            self.looked(removed),
            removed.gathered(before),
            asks(*before, handle, key),
            forall|h: u64, k: TxId| #[trigger]
                asks(*self, h, k) ==> asks(*removed, h, k) || (h, k) == (handle, key),
            before.healthy() && before.sure_of(handle, key) ==> removed.on_course(walk),
            removed.good() ==> forall|h: u64, k: TxId|
                removed.sure_of(h, k) && ((h, k) != (handle, key) || removed.on_course(walk))
                    ==> #[trigger] self.sure_of(h, k),
        ensures
            self.gathered(before),
    {
        self.records.lemma_began_same(&removed.records);
        self.lemma_keeps(removed, before);
        assert forall|h: u64, k: TxId| #[trigger] asks(*self, h, k) implies asks(*before, h, k) by {
            if (h, k) != (handle, key) {
                assert(asks(*removed, h, k));
            }
        }
        assert(removed.grounded() ==> self.grounded());
        if before.healthy() && !self.log().fault() {
            assert forall|h: u64, k: TxId| before.sure_of(h, k) implies #[trigger] self.sure_of(h, k) by {
                assert(removed.sure_of(h, k));
            }
        }
    }

    /// The records of the sweep's blocks that the store brought, once they have been offered.
    proof fn lemma_swept(&self, brought: &Self, before: &Self, swept: Seq<Placed>)
        requires
            before.wf(),
            brought.wf(),
            brought.gathered(before),
            before.grounded() ==> brought.grounded(),
            self.wf(),
            self.outstanding@ == brought.outstanding@ + alive_voids(swept, brought.index),
            brought.outstanding@ == before.outstanding@,
            self.index == brought.index,
            self.records == brought.records,
            self.budgets == brought.budgets,
            self.fetches == brought.fetches,
            self.stalled == brought.stalled,
            self.reads == brought.reads,
            self.calendar() == (Calendar { outstanding: self.outstanding@, ..brought.calendar() }),
            self.applied_through == brought.applied_through,
            self.applied == brought.applied,
            self.at == brought.at,
            self.held == brought.held,
            self.decided == brought.decided,
            brought.good() ==> self.good(),
            brought.trusted() ==> self.trusted(),
            brought.in_order() ==> self.in_order(),
            before.trusted() ==> forall|i: int|
                0 <= i < swept.len() ==> before.log().is_swept(#[trigger] swept[i]),
        ensures
            self.gathered(before),
    {
        self.lemma_dated_same(brought);
        if before.trusted() && before.grounded() {
            assert forall|i: int| 0 <= i < swept.len() implies ({
                let (key, hold, addr) = #[trigger] swept[i];
                is_alive(brought.index, addr, key) ==> !addr.is_buffered() && brought.log().holds(
                    addr,
                    (key, hold),
                )
            }) by {
                let (key, hold, addr) = swept[i];
                assert(before.log().is_swept(swept[i]));
                brought.records.lemma_rest_holds(addr, (key, hold));
            }
            self.lemma_offered(brought, swept);
        }
        assert forall|h: u64, k: TxId| #[trigger] asks(*self, h, k) implies asks(*before, h, k) by {
            assert(self.waiting() == brought.waiting() && self.held_up() == brought.held_up());
            assert(asks(*brought, h, k));
        }
        self.lemma_walked_on(brought);
        if before.healthy() && !self.log().fault() {
            assert forall|h: u64, k: TxId| before.sure_of(h, k) implies #[trigger] self.sure_of(h, k) by {
                assert(brought.sure_of(h, k));
            }
        }
    }
}

/// The words with those that have no property taken out.
pub open spec fn kept_words(words: Seq<u64>, keep: spec_fn(u64) -> bool) -> Seq<u64> {
    Seq::new(
        words.len(),
        |i: int|
            if words[i] != EMPTY && keep(words[i]) {
                words[i]
            } else {
                EMPTY
            },
    )
}

/// A table that loses some of its words stands for the map without the keys whose address is lost.
pub proof fn law_a_masked_table_stands_for_what_is_kept(
    words: Seq<u64>,
    mask: u64,
    m: Map<TxId, RecordAddr>,
    durable: spec_fn(RecordAddr) -> bool,
)
    requires
        stands_for(words, mask, m),
    ensures
        stands_for(
            kept_words(words, |slot: u64| durable(address_of(slot))),
            mask,
            m.restrict(Set::new(|k: TxId| m.contains_key(k) && durable(m[k]))),
        ),
{
    let words_of = choose|words_of: Map<TxId, u64>| #[trigger]
        named(words_of, mask) && whole(words, mask, words_of) && m == addresses(words_of);
    let p = choose|p: Placement| #[trigger] seated(words, mask, words_of, p, None);
    let keep = |slot: u64| durable(address_of(slot));
    let after = kept_words(words, keep);
    let stays = Set::new(|k: TxId| m.contains_key(k) && durable(m[k]));
    let rest = words_of.restrict(stays);
    let q = Placement {
        pos: p.pos.restrict(stays),
        owner: p.owner.restrict(
            Set::new(|i: int| p.owner.contains_key(i) && stays.contains(p.owner[i])),
        ),
    };
    assert(seated(after, mask, rest, q, None)) by {
        assert forall|k: TxId| #[trigger]
            q.pos.contains_key(k) == (rest.contains_key(k) && None::<TxId> != Some(k)) by {
            assert(p.pos.contains_key(k) == words_of.contains_key(k));
        }
        assert forall|k: TxId| #[trigger] q.pos.contains_key(k) implies {
            &&& 0 <= q.pos[k] < after.len()
            &&& after[q.pos[k]] == rest[k]
            &&& in_pair(k, q.pos[k] / 4, mask)
            &&& q.owner.contains_key(q.pos[k])
            &&& q.owner[q.pos[k]] == k
        } by {
            assert(p.pos.contains_key(k));
            assert(words_of.contains_key(k));
            assert(keep(words[p.pos[k]]));
        }
        assert forall|i: int| #[trigger] q.owner.contains_key(i) implies q.pos.contains_key(
            q.owner[i],
        ) && q.pos[q.owner[i]] == i by {
            assert(p.owner.contains_key(i));
        }
        assert forall|i: int|
            0 <= i < after.len() && #[trigger] after[i] != EMPTY implies q.owner.contains_key(i) by {
            assert(words[i] != EMPTY);
            assert(p.owner.contains_key(i));
            let k = p.owner[i];
            assert(p.pos.contains_key(k));
            assert(m.contains_key(k) && m[k] == address_of(words[i]));
            assert(keep(words[i]));
        }
    }
    assert(named(rest, mask)) by {
        assert forall|one: TxId, other: TxId| #[trigger]
            rest.contains_key(one) && #[trigger] rest.contains_key(other) && one != other && clash(
                one,
                other,
                mask,
            ) implies is_marked(rest[one]) by {
            assert(words_of.contains_key(one) && words_of.contains_key(other));
        }
        assert forall|k: TxId| #[trigger] rest.contains_key(k) implies rest[k] != EMPTY
            && fingerprint_of(rest[k]) == fingerprint(k) by {
            assert(words_of.contains_key(k));
        }
    }
    assert(m.restrict(stays) =~= addresses(rest));
    assert(named(rest, mask) && whole(after, mask, rest) && m.restrict(stays) == addresses(rest));
}

/// The holds that a snapshot carries: those whose record is on a durable block.
pub open spec fn carried_holds<S: DurableStore>(engine: PendingEngine<S>) -> Map<TxId, HoldData> {
    engine.holds().restrict(
        Set::new(
            |k: TxId|
                engine.holds().contains_key(k) && engine.log().spec_is_durable(engine.places()[k]),
        ),
    )
}

/// A snapshot carries exactly the holds whose record a crash would still find: the words that its stream
/// carries stand for the places of those holds and of no others.
pub proof fn law_a_snapshot_carries_the_durable_holds<S: DurableStore>(engine: PendingEngine<S>)
    requires
        engine.wf(),
        engine.good(),
        forall|i: int|
            0 <= i < engine.table().words().len() ==> #[trigger] engine.table().snapshot_word(i)
                == engine.table().words()[i],
    ensures
        stands_for(
            carried_words(engine.table(), engine.log()),
            engine.table().mask(),
            engine.places().restrict(carried_holds(engine).dom()),
        ),
{
    engine.lemma_good_parts();
    let log = engine.log();
    let durable = |a: RecordAddr| log.spec_is_durable(a);
    let words = engine.table().words();
    let m = engine.places();
    law_a_masked_table_stands_for_what_is_kept(words, engine.table().mask(), m, durable);
    assert(carried_words(engine.table(), log) =~= kept_words(
        words,
        |slot: u64| durable(address_of(slot)),
    ));
    assert(m.restrict(carried_holds(engine).dom()) =~= m.restrict(
        Set::new(|k: TxId| m.contains_key(k) && durable(m[k])),
    ));
}

impl<S: DurableStore> PendingEngine<S> {
    /// A hold that a snapshot does not carry was last decided about past the snapshot's coverage.
    pub proof fn lemma_not_carried(&self, key: TxId)
        requires
            self.wf(),
            self.good(),
            self.in_order(),
            self.dated(),
            self.holds().contains_key(key),
            !carried_holds(*self).contains_key(key),
        ensures
            self.decisions().contains_key(key),
            self.log().covered_through(self.spec_applied_through()).0 < self.decisions()[key].0
                || self.log().covered_through(self.spec_applied_through()).0 == 0,
    {
        reveal(PendingEngine::dated);
        assert(self.at@.dom().contains(key)) by {
            self.lemma_good_parts();
        }
        self.lemma_at(key);
        assert(!self.records.spec_is_durable(self.at@[key]));
        self.records.lemma_stamp_is_not_covered(
            self.at@[key],
            (key, self.held@[key]),
            self.applied_through,
        );
    }

    /// Everything but the index and its shadow is the same.
    spec fn same_but_table(&self, before: &Self) -> bool {
        &&& self.records == before.records
        &&& self.budgets == before.budgets
        &&& self.fetches == before.fetches
        &&& self.stalled == before.stalled
        &&& self.reads == before.reads
        &&& self.calendar() == before.calendar()
        &&& self.overflowed == before.overflowed
        &&& self.applied_through == before.applied_through
        &&& self.applied == before.applied
        &&& self.at == before.at
        &&& self.held == before.held
        &&& self.decided == before.decided
    }

    /// What reading a snapshot leaves alone: everything but how far it is read.
    pub open spec fn read_on(&self, before: &Self) -> bool {
        &&& self.wf()
        &&& before.good() ==> self.good()
        &&& before.trusted() ==> self.trusted()
        &&& before.grounded() ==> self.grounded()
        &&& before.in_order() ==> self.in_order()
        &&& self.log() == before.log()
        &&& self.holds() == before.holds()
        &&& self.places() == before.places()
        &&& self.groups() == before.groups()
        &&& self.decisions() == before.decisions()
        &&& before.dated() ==> self.dated()
        &&& self.waiting() == before.waiting()
        &&& self.held_up() == before.held_up()
        &&& self.left_alone(before)
        &&& self.calendar() == before.calendar()
        &&& self.spec_applied() == before.spec_applied()
        &&& self.spec_applied_through() == before.spec_applied_through()
        &&& self.table().words() == before.table().words()
        &&& self.table().mask() == before.table().mask()
    }

    /// A hold's record is at its place, and no two holds share one.
    pub proof fn lemma_places(&self)
        requires
            self.good(),
        ensures
            self.places().dom() == self.holds().dom(),
            one_key_each(self.places()),
            forall|k: TxId| #[trigger]
                self.places().contains_key(k) ==> self.log().holds(self.places()[k], (k, self.holds()[k])),
    {
        reveal(PendingEngine::good);
    }

    /// The size of the table.
    pub proof fn lemma_table(&self)
        requires
            self.wf(),
        ensures
            is_mask(self.table().mask()),
            self.table().words().len() == 4 * (self.table().mask() + 1),
    {
        self.lemma_mask();
    }

    proof fn lemma_good_parts(&self)
        requires
            self.good(),
        ensures
            self.index.represents(self.at@),
            one_key_each(self.at@),
            self.at@.dom() == self.held@.dom(),
    {
        reveal(PendingEngine::good);
    }

    proof fn lemma_read_on(&self, before: &Self)
        requires
            before.wf(),
            self.index.wf(),
            self.index.words() == before.index.words(),
            self.index.mask() == before.index.mask(),
            self.same_but_table(before),
        ensures
            self.read_on(before),
    {
        self.lemma_dated_same(before);
        self.lemma_good_kept(before);
        self.lemma_grounded(before);
        self.lemma_numbered(before);
    }

    /// Starts a snapshot, and shadows the index so that the read is stable while the engine keeps
    /// writing. Only one at a time.
    pub fn begin_snapshot(&mut self) -> (writer: SnapshotWriter)
        requires
            old(self).wf(),
        ensures
            final(self).read_on(old(self)),
            final(self).table().being_read(),
            final(self).table().read_through() == 0,
            forall|i: int|
                0 <= i < old(self).table().words().len() ==> #[trigger] final(self).table().snapshot_word(i) == old(self).table().words()[i],
            writer.wf(),
            writer.spec_buckets() == old(self).table().mask() + 1,
            lists(writer.spec_groups(), old(self).groups()),
            writer.spec_coverage() == old(self).log().covered_through(
                old(self).spec_applied_through(),
            ),
            writer.spec_reflects() == old(self).spec_applied_through(),
            writer.spec_at() == 0,
    {
        self.index.begin_snapshot();
        proof {
            self.lemma_read_on(old(self));
            self.lemma_mask();
        }
        let slots: usize = self.index.slots();
        let buckets: usize = self.index.bucket_count();
        SnapshotWriter::new(buckets, &self.budgets, self.coverage(), self.applied_through)
    }

    /// The next chunk of a snapshot, into a buffer the caller sizes. Zero when the stream is finished, and
    /// that is when the shadow goes.
    pub fn next_snapshot_chunk(&mut self, writer: &mut SnapshotWriter, into: &mut [u8]) -> (written:
        usize)
        requires
            old(self).wf(),
            old(writer).wf(),
            old(writer).spec_buckets() == old(self).table().mask() + 1,
        ensures
            final(self).read_on(old(self)),
            final(writer).wf(),
            final(writer).same_stream(old(writer)),
            written == 32 * old(writer).next_records(old(into)@.len()),
            final(writer).spec_at() == old(writer).spec_at() + old(writer).next_records(
                old(into)@.len(),
            ),
            final(into)@.len() == old(into)@.len(),
            forall|k: int|
                0 <= k < old(writer).next_records(old(into)@.len()) ==> #[trigger] final(into)@.subrange(32 * k, 32 * k + 32) == old(writer).stream_record(
                    old(self).table(),
                    old(self).log(),
                    old(writer).spec_at() + k,
                ),
            final(writer).spec_at() == final(writer).total() ==> !final(self).table().being_read()
                && final(self).table().aside().len() == 0,
            final(writer).spec_at() < final(writer).total() && old(self).table().read_through() == old(writer).buckets_done() ==> {
                &&& final(self).table().being_read() == old(self).table().being_read()
                &&& final(self).table().read_through() == final(writer).buckets_done()
                &&& read_past(old(self).table(), final(self).table())
                &&& forall|i: int|
                    0 <= i < final(self).table().words().len() && i / 4 >= final(self).table().read_through() ==> #[trigger] final(self).table().snapshot_word(i)
                        == old(self).table().snapshot_word(i)
            },
            written == 0 && final(writer).spec_at() < final(writer).total() ==> final(self).table()
                == old(self).table(),
    {
        let written: usize = writer.next_chunk(into, &mut self.index, &self.records);
        if writer.is_complete() {
            self.index.end_snapshot();
        }
        proof {
            self.lemma_read_on(old(self));
        }
        written
    }

    /// Abandons a snapshot, dropping the buckets held aside for it.
    pub fn abandon_snapshot(&mut self)
        requires
            old(self).wf(),
        ensures
            final(self).read_on(old(self)),
            !final(self).table().being_read(),
            final(self).table().aside().len() == 0,
    {
        self.index.end_snapshot();
        proof {
            self.lemma_read_on(old(self));
        }
    }

    /// Buckets held aside for a snapshot in progress.
    pub fn shadowed_buckets(&self) -> (buckets: usize)
        ensures
            buckets == self.table().aside().len(),
    {
        self.index.shadowed()
    }

    /// Blocks not written yet, blocks closed or being packed and still in memory, and blocks in the store.
    pub fn stored_blocks(&self) -> (blocks: (usize, usize, u64))
        requires
            self.wf(),
        ensures
            blocks.0 == self.log().held().buffer@.len(),
            blocks.1 == self.log().held().in_memory(),
            blocks.2 == stored_blocks(self.log().days(), 64),
    {
        self.records.blocks()
    }

    /// How many budget groups have members.
    pub fn group_count(&self) -> (count: usize)
        ensures
            count == self.groups().len(),
    {
        self.budgets.len()
    }

    /// The index, to be looked at.
    pub fn index(&self) -> (table: &HoldTable)
        ensures
            *table == self.table(),
            self.wf() ==> table.wf(),
    {
        &self.index
    }

    /// The log, to be looked at.
    pub fn records(&self) -> (log: &RecordLog<S>)
        ensures
            *log == self.log(),
    {
        &self.records
    }

    /// The table a snapshot's chunks are written into. For restore alone.
    pub fn index_mut(&mut self) -> (table: &mut HoldTable)
        ensures
            *table == old(self).table(),
            old(self).wf() ==> table.wf(),
            final(self).table() == *final(table),
            old(self).wf() && final(table).wf() ==> final(self).wf(),
            final(self).log() == old(self).log(),
            final(self).groups() == old(self).groups(),
            final(self).calendar() == old(self).calendar(),
            final(self).waiting() == old(self).waiting(),
            final(self).held_up() == old(self).held_up(),
            final(self).last_read() == old(self).last_read(),
            final(self).spec_applied() == old(self).spec_applied(),
            final(self).spec_applied_through() == old(self).spec_applied_through(),
    {
        &mut self.index
    }

    /// Puts a snapshot's group totals back, once its stream is complete, and the position the engine's
    /// state now reflects. The index restores itself as the chunks arrive. Where the table stands for a
    /// map whose records the log has, those are the engine's holds.
    pub fn restore(&mut self, groups: BTreeMap<u128, BudgetState>, coverage: ApplyIndex)
        requires
            old(self).wf(),
        ensures
            final(self).wf(),
            final(self).groups() == groups@,
            final(self).spec_applied_through() == coverage,
            final(self).spec_applied() == old(self).spec_applied(),
            final(self).table() == old(self).table(),
            final(self).log() == old(self).log(),
            final(self).calendar() == old(self).calendar(),
            final(self).waiting() == old(self).waiting(),
            final(self).held_up() == old(self).held_up(),
            final(self).spec_overflowed() == old(self).spec_overflowed(),
            old(self).trusted() ==> final(self).trusted(),
            forall|at: Map<TxId, RecordAddr>, held: Map<TxId, HoldData>| #[trigger]
                fits_log(*old(self), at, held) ==> final(self).good() && fits_log(
                    *old(self),
                    final(self).places(),
                    final(self).holds(),
                ),
            final(self).decisions() == old(self).decisions(),
            old(self).log().untouched() ==> final(self).in_order(),
            old(self).log().untouched() && final(self).good() ==> final(self).dated(),
    {
        self.budgets = groups;
        self.applied_through = coverage;
        proof {
            let was = old(self);
            if exists|at: Map<TxId, RecordAddr>, held: Map<TxId, HoldData>| #[trigger]
                fits_log(*was, at, held) {
                let (at, held) = choose|at: Map<TxId, RecordAddr>, held: Map<TxId, HoldData>| #[trigger]
                    fits_log(*was, at, held);
                self.at@ = at;
                self.held@ = held;
                reveal(PendingEngine::good);
            }
            if was.log().untouched() {
                reveal(RecordLog::began_in_order);
                reveal(RecordLog::began_by);
                if self.good() {
                    assert forall|k: TxId| #[trigger]
                        self.at@.contains_key(k) implies self.records.spec_is_durable(self.at@[k]) by {
                        self.lemma_at(k);
                        self.records.lemma_untouched(self.at@[k], (k, self.held@[k]));
                    }
                    reveal(PendingEngine::dated);
                }
            }
        }
    }

    /// Puts the log back where a previous life left it, from the days that a restored index points into and
    /// from the volume itself. Answers the segments that have a file and nothing alive in them.
    pub fn reconcile(&mut self, live: &[Span]) -> (orphans: Vec<u8>)
        requires
            old(self).wf(),
            old(self).log().untouched(),
            forall|i: int|
                0 <= i < live@.len() ==> (#[trigger] live@[i]).1 <= live@[i].2 < BLOCK_VALUES - 1,
        ensures
            final(self).wf(),
            final(self).table() == old(self).table(),
            final(self).groups() == old(self).groups(),
            final(self).calendar() == old(self).calendar(),
            final(self).spec_applied() == old(self).spec_applied(),
            final(self).spec_applied_through() == old(self).spec_applied_through(),
            final(self).log().untouched(),
            final(self).log().held().oldest_resident == final(self).log().held().next_block,
            forall|s: int|
                0 <= s < 64 ==> #[trigger] final(self).log().days()[s] == match span_of(live@, s) {
                    Some((first, last)) => BlockRange { first, blocks: (last - first + 1) as u64 },
                    None => old(self).log().days()[s],
                },
            old(self).log().reconciles(&final(self).log(), live@, orphans@),
            old(self).log().disk().truthful() && settled(old(self).log().disk()) ==> {
                &&& final(self).log().sound()
                &&& forall|w: Written| #[trigger]
                    final(self).log().disk().written().contains(w) ==> agrees(
                        final(self).log().sealed(),
                        w.0,
                        w.1,
                        w.2,
                    )
            },
    {
        self.records.reconcile(live)
    }
}

/// These maps say where the holds are and what they are, as the table and the log have it.
pub open spec fn fits_log<S: DurableStore>(
    engine: PendingEngine<S>,
    at: Map<TxId, RecordAddr>,
    held: Map<TxId, HoldData>,
) -> bool {
    &&& engine.table().represents(at)
    &&& one_key_each(at)
    &&& at.dom() == held.dom()
    &&& forall|k: TxId| #[trigger]
        at.contains_key(k) ==> engine.log().holds(at[k], (k, held[k]))
}

/// An engine holds as many holds as its index has entries, and so no more than its index has slots.
pub proof fn law_the_index_counts_the_holds<S: DurableStore>(engine: PendingEngine<S>)
    requires
        engine.wf(),
        engine.good(),
    ensures
        engine.holds().dom().finite(),
        engine.holds().len() == engine.table().spec_len(),
        engine.holds().len() <= engine.table().words().len(),
{
    reveal(PendingEngine::good);
    law_the_table_counts_its_keys(engine.index.words(), engine.index.mask(), engine.at@);
    lemma_count_bound(engine.index.words(), occupied());
    assert(engine.at@.dom() == engine.held@.dom());
}

/// Where the record of every hold is in memory, every key is recalled: no lookup and no decision has to ask
/// the store.
pub proof fn law_what_is_in_memory_is_recalled<S: DurableStore>(engine: PendingEngine<S>, key: TxId)
    requires
        engine.wf(),
        engine.good(),
        forall|k: TxId| #[trigger]
            engine.places().contains_key(k) ==> engine.log().in_memory(engine.places()[k]) is Some,
    ensures
        recalls(engine.table(), engine.log(), key),
{
    reveal(PendingEngine::good);
    let words = engine.index.words();
    let mask = engine.index.mask();
    engine.index.lemma_size();
    let words_of = choose|words_of: Map<TxId, u64>| #[trigger]
        named(words_of, mask) && whole(words, mask, words_of) && engine.at@ == addresses(words_of);
    let found = matching(words, mask, key);
    let all = candidates_of(engine.table(), key);
    assert forall|i: int| 0 <= i < all.len() implies engine.log().in_memory(#[trigger] all[i]) is Some by {
        assert(found.contains(found[i]));
        lemma_matching(words, mask, key, found[i]);
        let owner = lemma_clear(words, mask, words_of, found[i]);
        assert(engine.places().contains_key(owner) && engine.places()[owner] == all[i]);
    }
}

/// Applying a decision again to the holds it has been applied to changes nothing: a resolution of a hold
/// that is gone finds nothing, and a creation puts the same hold where it is.
pub proof fn law_a_decision_applied_twice_is_applied_once(
    holds: Map<TxId, HoldData>,
    effect: PendingEffect,
    stored: bool,
)
    ensures
        ({
            let once = holds_after(holds, effect, stored);
            holds_after(once, effect, stored) == once
        }),
{
    let once = holds_after(holds, effect, stored);
    assert(holds_after(once, effect, stored) =~= once);
}

/// Group totals that already reflect a position are not counted again by a replay at or before it, and a
/// removal of a hold that is gone takes nothing from its group.
pub proof fn law_a_replay_counts_nobody_twice(
    groups: Map<u128, BudgetState>,
    effect: PendingEffect,
    at: ApplyIndex,
    reflect: ApplyIndex,
    there: bool,
)
    requires
        at.0 <= reflect.0,
        effect is Remove ==> !there,
    ensures
        groups_after(groups, effect, at, Arrival::Again(reflect), there) == groups,
{
}

/// A member that leaves takes back exactly what it brought: a group that was there has its totals again,
/// and one that came with the member is gone.
pub proof fn law_a_member_that_leaves_takes_its_share(
    groups: Map<u128, BudgetState>,
    budget: BudgetGroup,
    amount: Amount,
)
    requires
        !budget.is_absent(),
        group_of(groups, budget).members < u32::MAX,
        i64::MIN <= group_of(groups, budget).remaining + amount <= i64::MAX,
        groups.contains_key(budget.0) ==> groups[budget.0].members > 0,
    ensures
        without_member(with_member(groups, budget, amount), budget, amount) == groups,
{
    assert(without_member(with_member(groups, budget, amount), budget, amount) =~= groups);
}

/// A hold that was created is answered with what it was created with; once reduced, with what is left of
/// it; and once removed, not at all. Decisions about other keys change none of it.
pub proof fn law_an_answer_is_what_the_decisions_left(
    holds: Map<TxId, HoldData>,
    groups: Map<u128, BudgetState>,
    effect: PendingEffect,
    key: TxId,
)
    ensures
        key != subject(effect) ==> answer_to(holds_after(holds, effect, true), groups, key)
            == answer_to(holds, groups, key),
        key == subject(effect) && effect is Create ==> answer_to(
            holds_after(holds, effect, true),
            groups,
            key,
        ) == Some(with_totals(groups, created(effect))),
        key == subject(effect) && effect is Remove ==> answer_to(
            holds_after(holds, effect, true),
            groups,
            key,
        ) is None,
        key == subject(effect) && effect is Reduce && holds.contains_key(key) ==> {
            let left = answer_to(holds_after(holds, effect, true), groups, key);
            left is Some && left.unwrap().remaining == created(effect).remaining
        },
{
}

} // verus!
