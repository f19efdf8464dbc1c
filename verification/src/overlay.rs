//! The sequencer's own decisions about the holds it has in flight: what it last told the engine each one
//! has left, and what proposed-but-uncommitted resolutions have taken of that.
//!
//! It holds no copy of a record. A record is what a hold is, and that belongs to the engine, which
//! answers a lookup with it.

use std::collections::BTreeMap;

use vstd::laws_cmp::group_laws_cmp;
use vstd::prelude::*;
use vstd::std_specs::btree::{group_btree_axioms, increasing_seq};
use vstd::std_specs::cmp::OrdSpec;
use vstd::std_specs::iter::IteratorSpec;

use crate::ledger::{Amount, TxId};

verus! {

broadcast use {group_btree_axioms, group_laws_cmp};

/// What the sequencer knows of one hold, for whoever composes a view of it from a record.
#[derive(Clone, Copy, Debug, PartialEq, Eq, Structural)]
pub struct OverlayState {
    /// What the hold has left, where that is known here.
    pub remaining: Option<Amount>,
    /// What resolutions in flight have taken of it.
    pub taken: Amount,
    /// Whether one of them takes all that is left.
    pub resolved: bool,
}

pub open spec fn nothing_known() -> OverlayState {
    OverlayState { remaining: None, taken: 0, resolved: false }
}

impl Default for OverlayState {
    fn default() -> (state: Self)
        ensures
            state == nothing_known(),
    {
        OverlayState { remaining: None, taken: 0, resolved: false }
    }
}

#[derive(Clone, Copy, Debug, PartialEq, Eq, Structural)]
pub struct Hold {
    /// Requests in flight that will read this hold. Eviction leaves those alone.
    pub pinned: u32,
    /// What the sequencer last told the engine is left.
    pub committed_remaining: Amount,
    /// How much of that remainder proposed-but-uncommitted resolutions took. Handed over on commit,
    /// given back on failure.
    pub reserved: Amount,
    /// Whether an in-flight resolution has already consumed the hold entirely.
    pub resolved: bool,
}

#[derive(Clone, Copy, Debug, PartialEq, Eq, Structural)]
pub enum Entry {
    /// Nothing decided yet. It exists so that an answer on its way, and the pins of the requests waiting
    /// for it, have somewhere to land.
    Watched { pinned: u32 },
    /// The engine looked and the hold is not there. Kept, because asking again would get the same answer.
    Missing { pinned: u32 },
    /// A committed removal took the hold away. Until the engine has applied the removal this is the only
    /// thing that says so: a lookup answered before that carries the hold as it was. `safe_after` is the
    /// number of applies sent when the removal went; once the engine reports at least that many, a lookup
    /// misses on its own.
    Removed { pinned: u32, safe_after: u64 },
    Decided(Hold),
}

impl Entry {
    pub open spec fn spec_pinned(self) -> u32 {
        match self {
            Entry::Watched { pinned } => pinned,
            Entry::Missing { pinned } => pinned,
            Entry::Removed { pinned, .. } => pinned,
            Entry::Decided(hold) => hold.pinned,
        }
    }

    #[verifier::when_used_as_spec(spec_pinned)]
    pub fn pinned(self) -> (pinned: u32)
        ensures
            pinned == self.spec_pinned(),
    {
        match self {
            Entry::Watched { pinned } => pinned,
            Entry::Missing { pinned } => pinned,
            Entry::Removed { pinned, .. } => pinned,
            Entry::Decided(hold) => hold.pinned,
        }
    }

    /// The same entry with other pins.
    pub open spec fn spec_with_pins(self, pins: u32) -> Entry {
        match self {
            Entry::Watched { .. } => Entry::Watched { pinned: pins },
            Entry::Missing { .. } => Entry::Missing { pinned: pins },
            Entry::Removed { safe_after, .. } => Entry::Removed { pinned: pins, safe_after },
            Entry::Decided(hold) => Entry::Decided(Hold { pinned: pins, ..hold }),
        }
    }

    #[verifier::when_used_as_spec(spec_with_pins)]
    pub fn with_pins(self, pins: u32) -> (entry: Entry)
        ensures
            entry == self.spec_with_pins(pins),
    {
        match self {
            Entry::Watched { .. } => Entry::Watched { pinned: pins },
            Entry::Missing { .. } => Entry::Missing { pinned: pins },
            Entry::Removed { safe_after, .. } => Entry::Removed { pinned: pins, safe_after },
            Entry::Decided(hold) => Entry::Decided(Hold { pinned: pins, ..hold }),
        }
    }

    /// The entry may be dropped: nothing will read it, and it says nothing that the engine does not. A
    /// removal's marker is the one entry whose life is not about pins alone: it may go once the engine has
    /// applied the removal it stands for, and not before.
    pub open spec fn spec_idle(self, applied: u64) -> bool {
        self.pinned() == 0 && match self {
            Entry::Decided(hold) => hold.reserved == 0 && !hold.resolved,
            Entry::Removed { safe_after, .. } => applied >= safe_after,
            Entry::Watched { .. } => true,
            Entry::Missing { .. } => true,
        }
    }

    #[verifier::when_used_as_spec(spec_idle)]
    pub fn idle(self, applied: u64) -> (idle: bool)
        ensures
            idle == self.spec_idle(applied),
    {
        self.pinned() == 0 && match self {
            Entry::Decided(hold) => hold.reserved == 0 && !hold.resolved,
            Entry::Removed { safe_after, .. } => applied >= safe_after,
            Entry::Watched { .. } => true,
            Entry::Missing { .. } => true,
        }
    }
}

/// What is known about one hold, which is a smaller question than which entry is held for it.
#[derive(Clone, Copy, Debug, PartialEq, Eq, Structural)]
pub enum Known {
    Nothing,
    /// A lookup is out and no answer has come back.
    Awaiting,
    /// The engine said so, or a committed removal took it.
    Gone,
    Live(Hold),
}

/// What is known about a hold from the entry kept for it, if any. Every reader goes by this.
pub open spec fn known_of(entry: Option<Entry>) -> Known {
    match entry {
        None => Known::Nothing,
        Some(Entry::Watched { .. }) => Known::Awaiting,
        Some(Entry::Missing { .. }) => Known::Gone,
        Some(Entry::Removed { .. }) => Known::Gone,
        Some(Entry::Decided(hold)) => Known::Live(hold),
    }
}

/// What the sequencer knows, as a view composed from a record needs it. Where the hold is gone the record
/// can still show it alive, so the answer comes from here.
pub open spec fn state_of(known: Known) -> OverlayState {
    match known {
        Known::Live(hold) => OverlayState {
            remaining: Some(hold.committed_remaining),
            taken: hold.reserved,
            resolved: hold.resolved,
        },
        Known::Gone => OverlayState { remaining: Some(0), taken: 0, resolved: true },
        Known::Nothing => nothing_known(),
        Known::Awaiting => nothing_known(),
    }
}

/// The pins of the entry kept for a hold, none where there is no entry.
pub open spec fn pins_of(entry: Option<Entry>) -> u32 {
    match entry {
        Some(entry) => entry.pinned(),
        None => 0,
    }
}

/// A hold just decided, with all of this left.
pub open spec fn decided(entry: Option<Entry>, remaining: Amount) -> Entry {
    Entry::Decided(
        Hold { pinned: pins_of(entry), committed_remaining: remaining, reserved: 0, resolved: false },
    )
}

/// The entry once an answer has come back. Anything already known was decided by the sequencer, and this
/// answer left before that, so it is dropped.
pub open spec fn admitted(entry: Option<Entry>, remaining: Option<Amount>) -> Option<Entry> {
    match known_of(entry) {
        Known::Live(_) => entry,
        Known::Gone => entry,
        _ => match remaining {
            Some(remaining) => Some(decided(entry, remaining)),
            None => Some(Entry::Missing { pinned: pins_of(entry) }),
        },
    }
}

/// What a released reservation leaves: a reservation that was never taken cannot be given back.
pub open spec fn given_back(reserved: Amount, amount: Amount) -> Amount {
    if reserved - amount > 0 {
        (reserved - amount) as Amount
    } else {
        0
    }
}

/// The entry kept for a hold, if any.
pub open spec fn kept_for(entries: Map<u128, Entry>, hold: TxId) -> Option<Entry> {
    if entries.contains_key(hold.0) {
        Some(entries[hold.0])
    } else {
        None
    }
}

/// The entries once a lookup of a hold has gone out.
pub open spec fn once_watched(entries: Map<u128, Entry>, hold: TxId) -> Map<u128, Entry> {
    match kept_for(entries, hold) {
        Some(_) => entries,
        None => entries.insert(hold.0, Entry::Watched { pinned: 0 }),
    }
}

/// The entries once one request more will read a hold.
pub open spec fn once_pinned(entries: Map<u128, Entry>, hold: TxId) -> Map<u128, Entry> {
    match kept_for(entries, hold) {
        Some(entry) => entries.insert(hold.0, entry.with_pins((entry.pinned() + 1) as u32)),
        None => entries,
    }
}

/// The entries once one request fewer will read a hold.
pub open spec fn once_unpinned(entries: Map<u128, Entry>, hold: TxId) -> Map<u128, Entry> {
    match kept_for(entries, hold) {
        Some(entry) => entries.insert(
            hold.0,
            entry.with_pins(
                if entry.pinned() > 0 {
                    (entry.pinned() - 1) as u32
                } else {
                    0
                },
            ),
        ),
        None => entries,
    }
}

/// The entries once an answer about a hold has come back.
pub open spec fn once_admitted(
    entries: Map<u128, Entry>,
    hold: TxId,
    remaining: Option<Amount>,
) -> Map<u128, Entry> {
    match admitted(kept_for(entries, hold), remaining) {
        Some(entry) => entries.insert(hold.0, entry),
        None => entries,
    }
}

/// The entries once the engine has been told to create a hold.
pub open spec fn once_created(entries: Map<u128, Entry>, hold: TxId, amount: Amount) -> Map<u128, Entry> {
    match kept_for(entries, hold) {
        Some(_) => entries.insert(hold.0, decided(kept_for(entries, hold), amount)),
        None => entries,
    }
}

/// The entries once a resolution in flight has taken some of a hold.
pub open spec fn once_reserved(
    entries: Map<u128, Entry>,
    hold: TxId,
    amount: Amount,
    resolves: bool,
) -> Map<u128, Entry> {
    match known_of(kept_for(entries, hold)) {
        Known::Live(decided) => entries.insert(
            hold.0,
            Entry::Decided(
                Hold {
                    reserved: (decided.reserved + amount) as Amount,
                    resolved: decided.resolved || resolves,
                    ..decided
                },
            ),
        ),
        _ => entries,
    }
}

/// The entries once a reservation has been handed over.
pub open spec fn once_given_back(entries: Map<u128, Entry>, hold: TxId, amount: Amount) -> Map<u128, Entry> {
    match known_of(kept_for(entries, hold)) {
        Known::Live(decided) => entries.insert(
            hold.0,
            Entry::Decided(Hold { reserved: given_back(decided.reserved, amount), ..decided }),
        ),
        _ => entries,
    }
}

/// The entries once the engine has been told what is left of a hold.
pub open spec fn once_noted(entries: Map<u128, Entry>, hold: TxId, remaining: Amount) -> Map<u128, Entry> {
    match known_of(kept_for(entries, hold)) {
        Known::Live(decided) => entries.insert(
            hold.0,
            Entry::Decided(Hold { committed_remaining: remaining, ..decided }),
        ),
        _ => entries,
    }
}

/// The entries once a committed removal has taken a hold away.
pub open spec fn once_forgotten(entries: Map<u128, Entry>, hold: TxId, safe_after: u64) -> Map<u128, Entry> {
    entries.insert(
        hold.0,
        Entry::Removed { pinned: pins_of(kept_for(entries, hold)), safe_after },
    )
}

/// The entries once a resolution in flight has failed.
pub open spec fn once_compensated(
    entries: Map<u128, Entry>,
    hold: TxId,
    amount: Amount,
    resolves: bool,
) -> Map<u128, Entry> {
    match known_of(kept_for(entries, hold)) {
        Known::Live(decided) => entries.insert(
            hold.0,
            Entry::Decided(
                Hold {
                    reserved: (decided.reserved - amount) as Amount,
                    resolved: decided.resolved && !resolves,
                    ..decided
                },
            ),
        ),
        _ => entries,
    }
}

/// The keys of entries that may be dropped.
pub open spec fn idle_keys(entries: Map<u128, Entry>, applied: u64) -> Set<u128> {
    entries.dom().filter(|key: u128| entries[key].idle(applied))
}

/// Some of the idle entries are gone, as many as the budget allows, and every other entry is as it was.
pub open spec fn evicts(
    was: Map<u128, Entry>,
    now: Map<u128, Entry>,
    applied: u64,
    budget: usize,
    evicted: usize,
) -> bool {
    let gone = was.dom().difference(now.dom());
    &&& now == was.remove_keys(gone)
    &&& gone.subset_of(idle_keys(was, applied))
    &&& gone.len() == evicted
    &&& evicted == if idle_keys(was, applied).len() < budget {
        idle_keys(was, applied).len()
    } else {
        budget as nat
    }
}

/// A round of upkeep, with a limit below which nothing is dropped and the most that one round may drop.
pub open spec fn once_maintained(
    was: Map<u128, Entry>,
    now: Map<u128, Entry>,
    applied: u64,
    limits: (usize, usize),
    evicted: usize,
) -> bool {
    if was.len() <= limits.0 {
        evicted == 0 && now == was
    } else {
        evicts(was, now, applied, limits.1, evicted)
    }
}

pub struct HoldOverlay {
    entries: BTreeMap<u128, Entry>,
    soft_limit: usize,
    eviction_per_round: usize,
    /// The most entries held at once. Eviction means the current count says nothing about what had to
    /// have room.
    peak: usize,
}

impl HoldOverlay {
    pub closed spec fn entries(&self) -> Map<u128, Entry> {
        self.entries@
    }

    pub open spec fn entry(&self, hold: TxId) -> Option<Entry> {
        kept_for(self.entries(), hold)
    }

    /// Entries above which idle ones start being dropped, and how many one round may drop.
    pub closed spec fn limits(&self) -> (usize, usize) {
        (self.soft_limit, self.eviction_per_round)
    }

    pub closed spec fn most(&self) -> usize {
        self.peak
    }

    pub open spec fn wf(&self) -> bool {
        &&& self.entries().dom().finite()
        &&& self.entries().len() <= self.most()
    }

    /// What a change that leaves these entries behind comes to: the peak follows them.
    pub open spec fn holds(&self, was: &HoldOverlay, entries: Map<u128, Entry>) -> bool {
        &&& self.wf()
        &&& self.entries() == entries
        &&& self.limits() == was.limits()
        &&& self.most() == if entries.len() > was.most() {
            entries.len()
        } else {
            was.most() as nat
        }
    }

    /// An overlay with room for some entries to begin with. What it may come to hold is not limited by
    /// that.
    pub fn new(capacity: usize, soft_limit: usize, eviction_per_round: usize) -> (overlay: Self)
        ensures
            overlay.wf(),
            overlay.entries() == Map::<u128, Entry>::empty(),
            overlay.limits() == (soft_limit, eviction_per_round),
            overlay.most() == 0,
    {
        HoldOverlay { entries: BTreeMap::new(), soft_limit, eviction_per_round, peak: 0 }
    }

    fn get(&self, hold: TxId) -> (entry: Option<Entry>)
        ensures
            entry == self.entry(hold),
    {
        match self.entries.get(&hold.0) {
            Some(entry) => Some(*entry),
            None => None,
        }
    }

    /// Every insertion goes through here, so that the peak cannot drift from what it describes.
    fn keep(&mut self, hold: TxId, entry: Entry)
        requires
            old(self).wf(),
        ensures
            final(self).holds(old(self), old(self).entries().insert(hold.0, entry)),
    {
        self.entries.insert(hold.0, entry);
        let length: usize = self.entries.len();
        if length > self.peak {
            self.peak = length;
        }
    }

    /// What is known about a hold, decided in one place.
    pub fn known(&self, hold: TxId) -> (known: Known)
        ensures
            known == known_of(self.entry(hold)),
    {
        match self.get(hold) {
            None => Known::Nothing,
            Some(Entry::Watched { .. }) => Known::Awaiting,
            Some(Entry::Missing { .. }) => Known::Gone,
            Some(Entry::Removed { .. }) => Known::Gone,
            Some(Entry::Decided(hold)) => Known::Live(hold),
        }
    }

    pub fn hold_is_missing(&self, hold: TxId) -> (missing: bool)
        ensures
            missing == (known_of(self.entry(hold)) is Gone),
    {
        matches!(self.known(hold), Known::Gone)
    }

    /// Only a place for the pins of the requests waiting on the answer. What is already here survives its
    /// own lookup: these are the sequencer's decisions, and the answer coming back can have been in flight
    /// across them.
    pub fn begin_lookup(&mut self, hold: TxId)
        requires
            old(self).wf(),
        ensures
            final(self).holds(
                old(self),
                once_watched(old(self).entries(), hold),
            ),
    {
        if self.get(hold).is_none() {
            self.keep(hold, Entry::Watched { pinned: 0 });
        }
    }

    /// The pins of a hold, none where it has no entry.
    pub fn pins(&self, hold: TxId) -> (pins: u32)
        ensures
            pins == pins_of(self.entry(hold)),
    {
        match self.get(hold) {
            Some(entry) => entry.pinned(),
            None => 0,
        }
    }

    pub fn pin(&mut self, hold: TxId)
        requires
            old(self).wf(),
            pins_of(old(self).entry(hold)) < u32::MAX,
        ensures
            final(self).holds(
                old(self),
                once_pinned(old(self).entries(), hold),
            ),
    {
        if let Some(entry) = self.get(hold) {
            self.keep(hold, entry.with_pins(entry.pinned() + 1));
        }
    }

    /// Gives a pin back. A removal's marker does not go with its last pin: until the engine has applied
    /// the removal it is the only thing that says the hold is gone.
    pub fn unpin(&mut self, hold: TxId)
        requires
            old(self).wf(),
        ensures
            final(self).holds(
                old(self),
                once_unpinned(old(self).entries(), hold),
            ),
    {
        if let Some(entry) = self.get(hold) {
            let pins: u32 = entry.pinned();
            self.keep(
                hold,
                entry.with_pins(
                    if pins > 0 {
                        pins - 1
                    } else {
                        0
                    },
                ),
            );
        }
    }

    /// The answer's remainder, or that the hold is not there. Either way it is dropped if a decision has
    /// been taken since.
    pub fn admit_lookup(&mut self, hold: TxId, remaining: Option<Amount>)
        requires
            old(self).wf(),
        ensures
            final(self).holds(
                old(self),
                once_admitted(old(self).entries(), hold, remaining),
            ),
    {
        match self.known(hold) {
            Known::Live(_) | Known::Gone => {
                assert(self.entries().insert(hold.0, self.entries()[hold.0]) =~= self.entries());
                return;
            },
            _ => {},
        }
        match remaining {
            Some(remaining) => self.decide(hold, remaining),
            None => {
                let pinned: u32 = self.pins(hold);
                self.keep(hold, Entry::Missing { pinned });
            },
        }
    }

    /// A hold the engine has just been told to create has all of itself left. It gets an entry only if
    /// something is already here to correct: no decision has been taken about a hold that nobody has
    /// resolved yet.
    pub fn created(&mut self, hold: TxId, amount: Amount)
        requires
            old(self).wf(),
        ensures
            final(self).holds(
                old(self),
                once_created(old(self).entries(), hold, amount),
            ),
    {
        if self.get(hold).is_some() {
            self.decide(hold, amount);
        }
    }

    pub fn overlay(&self, hold: TxId) -> (state: OverlayState)
        ensures
            state == state_of(known_of(self.entry(hold))),
    {
        match self.known(hold) {
            Known::Live(hold) => OverlayState {
                remaining: Some(hold.committed_remaining),
                taken: hold.reserved,
                resolved: hold.resolved,
            },
            Known::Gone => OverlayState { remaining: Some(0), taken: 0, resolved: true },
            Known::Nothing | Known::Awaiting => OverlayState::default(),
        }
    }

    fn decide(&mut self, hold: TxId, remaining: Amount)
        requires
            old(self).wf(),
        ensures
            final(self).holds(
                old(self),
                old(self).entries().insert(hold.0, decided(old(self).entry(hold), remaining)),
            ),
    {
        let pinned: u32 = self.pins(hold);
        self.keep(
            hold,
            Entry::Decided(
                Hold { pinned, committed_remaining: remaining, reserved: 0, resolved: false },
            ),
        );
    }

    /// What resolutions in flight have taken of a hold.
    pub open spec fn spec_reserved(&self, hold: TxId) -> Amount {
        state_of(known_of(self.entry(hold))).taken
    }

    #[verifier::when_used_as_spec(spec_reserved)]
    pub fn reserved(&self, hold: TxId) -> (reserved: Amount)
        ensures
            reserved == self.spec_reserved(hold),
    {
        self.overlay(hold).taken
    }

    pub fn reserve(&mut self, hold: TxId, amount: Amount, resolves: bool)
        requires
            old(self).wf(),
            Amount::MIN <= old(self).reserved(hold) + amount <= Amount::MAX,
        ensures
            final(self).holds(
                old(self),
                once_reserved(old(self).entries(), hold, amount, resolves),
            ),
    {
        if let Some(Entry::Decided(decided)) = self.get(hold) {
            let reserved: Amount = decided.reserved + amount;
            self.keep(
                hold,
                Entry::Decided(Hold { reserved, resolved: decided.resolved || resolves, ..decided }),
            );
        }
    }

    /// The batch committed, so the reservation is no longer speculative. What the hold has left follows
    /// from the write the engine is told about, not from here.
    pub fn release_reservation(&mut self, hold: TxId, amount: Amount)
        requires
            old(self).wf(),
            Amount::MIN <= old(self).reserved(hold) - amount <= Amount::MAX,
        ensures
            final(self).holds(
                old(self),
                once_given_back(old(self).entries(), hold, amount),
            ),
    {
        if let Some(Entry::Decided(decided)) = self.get(hold) {
            let left: Amount = decided.reserved - amount;
            let reserved: Amount = if left > 0 {
                left
            } else {
                0
            };
            self.keep(hold, Entry::Decided(Hold { reserved, ..decided }));
        }
    }

    /// The engine has been told the hold has this much left.
    pub fn note_remaining(&mut self, hold: TxId, remaining: Amount)
        requires
            old(self).wf(),
        ensures
            final(self).holds(
                old(self),
                once_noted(old(self).entries(), hold, remaining),
            ),
    {
        if let Some(Entry::Decided(decided)) = self.get(hold) {
            self.keep(hold, Entry::Decided(Hold { committed_remaining: remaining, ..decided }));
        }
    }

    /// A committed removal takes the hold away. The marker is left always, not only while something has
    /// the hold pinned, and an entry is made even where there was none: the lookup that would be told the
    /// wrong thing may not have started yet.
    pub fn forget(&mut self, hold: TxId, safe_after: u64)
        requires
            old(self).wf(),
        ensures
            final(self).holds(
                old(self),
                once_forgotten(old(self).entries(), hold, safe_after),
            ),
    {
        let pinned: u32 = self.pins(hold);
        self.keep(hold, Entry::Removed { pinned, safe_after });
    }

    /// The batch failed, so what it took is given back.
    pub fn compensate(&mut self, hold: TxId, amount: Amount, resolves: bool)
        requires
            old(self).wf(),
            Amount::MIN <= old(self).reserved(hold) - amount <= Amount::MAX,
        ensures
            final(self).holds(
                old(self),
                once_compensated(old(self).entries(), hold, amount, resolves),
            ),
    {
        if let Some(Entry::Decided(decided)) = self.get(hold) {
            let reserved: Amount = decided.reserved - amount;
            self.keep(
                hold,
                Entry::Decided(Hold { reserved, resolved: decided.resolved && !resolves, ..decided }),
            );
        }
    }

    /// Idle entries can be dropped; a later request looks them up again. `applied` is what the engine says
    /// it has got through, which is the one thing that makes a removal's marker droppable.
    pub fn maintain(&mut self, applied: u64) -> (evicted: usize)
        requires
            old(self).wf(),
        ensures
            final(self).wf(),
            final(self).limits() == old(self).limits(),
            final(self).most() == old(self).most(),
            once_maintained(
                old(self).entries(),
                final(self).entries(),
                applied,
                old(self).limits(),
                evicted,
            ),
    {
        if self.entries.len() <= self.soft_limit {
            return 0;
        }
        let keys = self.droppable(applied);
        let ghost was = self.entries@;
        let ghost idle = idle_keys(was, applied);
        let mut evicted: usize = 0;
        proof {
            assert(was.remove_keys(keys@.take(0).to_set()) =~= was);
        }
        while evicted < keys.len()
            invariant
                was == old(self).entries(),
                was.dom().finite(),
                self.soft_limit == old(self).soft_limit,
                self.eviction_per_round == old(self).eviction_per_round,
                self.peak == old(self).peak,
                evicted <= keys@.len(),
                keys@.no_duplicates(),
                self.entries@ == was.remove_keys(keys@.take(evicted as int).to_set()),
            decreases keys@.len() - evicted,
        {
            let key: u128 = keys[evicted];
            self.entries.remove(&key);
            proof {
                let fewer = keys@.take(evicted as int);
                let more = keys@.take(evicted + 1);
                assert(more =~= fewer.push(key));
                assert forall|k: u128| #[trigger] more.to_set().contains(k) == (fewer.to_set().contains(k)
                    || k == key) by {
                    if fewer.contains(k) {
                        let i = choose|i: int| 0 <= i < fewer.len() && fewer[i] == k;
                        assert(more[i] == k);
                    }
                    assert(more[evicted as int] == key);
                    if more.contains(k) {
                        let i = choose|i: int| 0 <= i < more.len() && more[i] == k;
                        if i < evicted {
                            assert(fewer[i] == k);
                        }
                    }
                }
                assert(self.entries@ =~= was.remove_keys(more.to_set()));
            }
            evicted += 1;
        }
        proof {
            assert(keys@.take(evicted as int) =~= keys@);
            let gone = keys@.to_set();
            keys@.unique_seq_to_set();
            assert forall|k: u128| #[trigger] gone.contains(k) implies was.contains_key(k) by {
                assert(keys@.contains(k));
            }
            assert(was.dom().difference(self.entries@.dom()) =~= gone);
            vstd::set_lib::lemma_len_subset(self.entries@.dom(), was.dom());
        }
        evicted
    }

    /// Keys of entries that may be dropped, as many as one round may drop.
    fn droppable(&self, applied: u64) -> (keys: Vec<u128>)
        requires
            self.wf(),
        ensures
            keys@.no_duplicates(),
            forall|k: u128| #[trigger]
                keys@.contains(k) ==> self.entries@.contains_key(k) && idle_keys(
                    self.entries@,
                    applied,
                ).contains(k),
            keys@.to_set().subset_of(idle_keys(self.entries@, applied)),
            keys@.len() == if idle_keys(self.entries@, applied).len() < self.eviction_per_round {
                idle_keys(self.entries@, applied).len()
            } else {
                self.eviction_per_round as nat
            },
    {
        let mut keys: Vec<u128> = Vec::new();
        let ghost was = self.entries@;
        let ghost idle = idle_keys(was, applied);
        let iter = self.entries.iter();
        let ghost all = iter.remaining();
        let ghost names = all.map_values(|kv: (&u128, &Entry)| *kv.0);
        assert(increasing_seq(names));
        proof {
            lemma_each_key_once(names);
        }
        for one in it: iter
            invariant
                it.seq() == all,
                was == self.entries@,
                was.dom().finite(),
                idle == idle_keys(was, applied),
                names == all.map_values(|kv: (&u128, &Entry)| *kv.0),
                names.no_duplicates(),
                forall|i: int|
                    0 <= i < all.len() ==> was.contains_key(*(#[trigger] all[i]).0) && was[*all[i].0]
                        == *all[i].1,
                keys@.no_duplicates(),
                keys@.len() <= self.eviction_per_round,
                forall|k: u128| #[trigger]
                    keys@.contains(k) ==> idle.contains(k) && exists|j: int|
                        0 <= j < it.index@ && #[trigger] names[j] == k,
                keys@.len() < self.eviction_per_round ==> forall|j: int|
                    0 <= j < it.index@ && idle.contains(#[trigger] names[j]) ==> keys@.contains(
                        names[j],
                    ),
        {
            let (key, entry) = one;
            let ghost at = it.index@;
            proof {
                assert(names[at] == *key);
                assert(was[*all[at].0] == *all[at].1);
                if keys@.contains(*key) {
                    let j = choose|j: int| 0 <= j < at && #[trigger] names[j] == *key;
                    assert(names[j] == names[at]);
                }
            }
            if keys.len() < self.eviction_per_round && entry.idle(applied) {
                let ghost before = keys@;
                keys.push(*key);
                proof {
                    assert forall|k: u128| #[trigger] keys@.contains(k) implies idle.contains(k)
                        && exists|j: int| 0 <= j < at + 1 && #[trigger] names[j] == k by {
                        let i = choose|i: int| 0 <= i < keys@.len() && keys@[i] == k;
                        if i < before.len() {
                            assert(before[i] == k);
                            assert(before.contains(k));
                            let j = choose|j: int| 0 <= j < at && #[trigger] names[j] == k;
                            assert(names[j] == k);
                        } else {
                            assert(names[at] == k);
                        }
                    }
                    assert forall|j: int|
                        0 <= j < at + 1 && idle.contains(#[trigger] names[j]) && keys@.len()
                            < self.eviction_per_round implies keys@.contains(names[j]) by {
                        if j < at {
                            assert(before.contains(names[j]));
                            let i = choose|i: int| 0 <= i < before.len() && before[i] == names[j];
                            assert(keys@[i] == names[j]);
                        } else {
                            assert(keys@[keys@.len() - 1] == names[j]);
                        }
                    }
                }
            } else {
                proof {
                    assert forall|k: u128| #[trigger] keys@.contains(k) implies idle.contains(k)
                        && exists|j: int| 0 <= j < at + 1 && #[trigger] names[j] == k by {
                        let j = choose|j: int| 0 <= j < at && #[trigger] names[j] == k;
                        assert(names[j] == k);
                    }
                }
            }
        }
        proof {
            keys@.unique_seq_to_set();
            assert(keys@.to_set().subset_of(idle));
            vstd::set_lib::lemma_len_subset(keys@.to_set(), idle);
            if keys@.len() < self.eviction_per_round {
                assert forall|k: u128| #[trigger] idle.contains(k) implies keys@.to_set().contains(k) by {
                    assert(was.contains_key(k));
                    assert(all.contains((&k, &was[k])));
                    let i = choose|i: int| 0 <= i < all.len() && all[i] == (&k, &was[k]);
                    assert(names[i] == k);
                }
                assert(keys@.to_set() =~= idle);
            }
        }
        keys
    }

    pub fn len(&self) -> (length: usize)
        ensures
            length == self.entries().len(),
    {
        self.entries.len()
    }

    pub fn is_empty(&self) -> (empty: bool)
        ensures
            empty == self.entries().is_empty(),
    {
        self.entries.is_empty()
    }

    /// The most entries held at once.
    pub fn peak(&self) -> (peak: usize)
        ensures
            peak == self.most(),
    {
        self.peak
    }
}

proof fn lemma_each_key_once(names: Seq<u128>)
    requires
        increasing_seq(names),
    ensures
        names.no_duplicates(),
{
    assert forall|i: int, j: int| 0 <= i < j < names.len() implies names[i] < names[j] by {
        assert(names[i].cmp_spec(&names[j]) is Less);
    }
}

/// A removal is remembered until the engine has applied it: no answer, no unpinning and no housekeeping
/// before that brings the hold back.
pub proof fn law_a_removal_is_remembered_until_it_is_applied(
    was: Map<u128, Entry>,
    now: Map<u128, Entry>,
    key: u128,
    safe_after: u64,
    applied: u64,
    remaining: Option<Amount>,
    pins: u32,
    budget: usize,
    evicted: usize,
)
    requires
        was.contains_key(key),
        was[key] is Removed,
        was[key]->safe_after == safe_after,
        applied < safe_after,
        evicts(was, now, applied, budget, evicted),
    ensures
        now.contains_key(key) && now[key] == was[key],
        known_of(Some(now[key])) is Gone,
        admitted(Some(now[key]), remaining) == Some(now[key]),
        known_of(Some(now[key].with_pins(pins))) is Gone,
{
    if !now.contains_key(key) {
        assert(was.dom().difference(now.dom()).contains(key));
        assert(idle_keys(was, applied).contains(key));
    }
}

/// Housekeeping leaves alone what a request in flight is still going to read, and what a batch in flight
/// has taken.
pub proof fn law_what_is_in_use_is_not_evicted(
    was: Map<u128, Entry>,
    now: Map<u128, Entry>,
    key: u128,
    applied: u64,
    budget: usize,
    evicted: usize,
)
    requires
        evicts(was, now, applied, budget, evicted),
        was.contains_key(key),
        was[key].pinned() > 0 || (was[key] matches Entry::Decided(hold) && (hold.reserved != 0
            || hold.resolved)),
    ensures
        now.contains_key(key) && now[key] == was[key],
{
    if !now.contains_key(key) {
        assert(was.dom().difference(now.dom()).contains(key));
        assert(idle_keys(was, applied).contains(key));
    }
}

/// A decision outranks an answer that was already in flight, in either direction: what an answer says of a
/// hold that was decided meanwhile is dropped.
pub proof fn law_a_decision_outranks_an_answer_in_flight(
    entry: Option<Entry>,
    remaining: Option<Amount>,
)
    requires
        known_of(entry) is Live || known_of(entry) is Gone,
    ensures
        admitted(entry, remaining) == entry,
{
}

/// What a batch reserves, its failure gives back: the hold is as it was.
pub proof fn law_compensation_undoes_a_reservation(hold: Hold, amount: Amount, resolves: bool)
    requires
        !hold.resolved,
        Amount::MIN <= hold.reserved + amount <= Amount::MAX,
    ensures
        ({
            let reserved = Hold {
                reserved: (hold.reserved + amount) as Amount,
                resolved: hold.resolved || resolves,
                ..hold
            };
            Hold {
                reserved: (reserved.reserved - amount) as Amount,
                resolved: reserved.resolved && !resolves,
                ..reserved
            } == hold
        }),
{
}

/// What whoever composes a view of a hold is handed.
pub open spec fn shown(entries: Map<u128, Entry>, hold: TxId) -> OverlayState {
    state_of(known_of(kept_for(entries, hold)))
}

/// A hold known to be gone, because the engine said so or because a committed removal took it, is shown with
/// nothing left and resolved, whatever a record still in flight says. A hold decided about is shown with its
/// committed remainder, its reservation and its mark. Of any other nothing is shown.
pub proof fn law_a_hold_that_is_gone_is_shown_gone(entries: Map<u128, Entry>, hold: TxId)
    ensures
        kept_for(entries, hold) matches Some(Entry::Missing { .. }) ==> {
            &&& shown(entries, hold).remaining == Some(0i64)
            &&& shown(entries, hold).taken == 0
            &&& shown(entries, hold).resolved
            &&& known_of(kept_for(entries, hold)) is Gone
        },
        kept_for(entries, hold) matches Some(Entry::Removed { .. }) ==> {
            &&& shown(entries, hold).remaining == Some(0i64)
            &&& shown(entries, hold).taken == 0
            &&& shown(entries, hold).resolved
            &&& known_of(kept_for(entries, hold)) is Gone
        },
        kept_for(entries, hold) matches Some(Entry::Decided(one)) ==> {
            &&& shown(entries, hold).remaining == Some(one.committed_remaining)
            &&& shown(entries, hold).taken == one.reserved
            &&& shown(entries, hold).resolved == one.resolved
            &&& known_of(kept_for(entries, hold)) == Known::Live(one)
        },
        kept_for(entries, hold) matches Some(Entry::Watched { .. }) ==> {
            &&& shown(entries, hold).remaining is None
            &&& shown(entries, hold).taken == 0
            &&& !shown(entries, hold).resolved
            &&& known_of(kept_for(entries, hold)) is Awaiting
        },
        !entries.contains_key(hold.0) ==> {
            &&& shown(entries, hold).remaining is None
            &&& shown(entries, hold).taken == 0
            &&& !shown(entries, hold).resolved
            &&& known_of(kept_for(entries, hold)) is Nothing
        },
{
}

/// A committed removal shows at once, and goes on showing: an answer that was in flight across it, a
/// reservation, a remainder and a request that comes or goes do not bring the hold back. Only its creation
/// does. The pins of the requests that will read it stay.
pub proof fn law_a_removal_shows_until_the_hold_is_created_again(
    entries: Map<u128, Entry>,
    hold: TxId,
    safe_after: u64,
    answer: Option<Amount>,
    amount: Amount,
    resolves: bool,
)
    requires
        pins_of(kept_for(entries, hold)) < u32::MAX,
    ensures
        ({
            let gone = once_forgotten(entries, hold, safe_after);
            let nothing_left = OverlayState { remaining: Some(0), taken: 0, resolved: true };
            &&& shown(gone, hold) == nothing_left
            &&& pins_of(kept_for(gone, hold)) == pins_of(kept_for(entries, hold))
            &&& kept_for(gone, hold).unwrap() matches Entry::Removed { safe_after: after, .. } && after
                == safe_after
            &&& once_admitted(gone, hold, answer) == gone
            &&& once_watched(gone, hold) == gone
            &&& once_reserved(gone, hold, amount, resolves) == gone
            &&& once_given_back(gone, hold, amount) == gone
            &&& once_noted(gone, hold, amount) == gone
            &&& once_compensated(gone, hold, amount, resolves) == gone
            &&& shown(once_pinned(gone, hold), hold) == nothing_left
            &&& shown(once_unpinned(gone, hold), hold) == nothing_left
            &&& shown(once_created(gone, hold, amount), hold) == (OverlayState {
                remaining: Some(amount),
                taken: 0,
                resolved: false,
            })
        }),
{
    let gone = once_forgotten(entries, hold, safe_after);
    assert(once_admitted(gone, hold, answer) =~= gone);
}

/// The first answer about a hold is believed: it has what the answer says, nothing of it taken, or it is
/// gone. An answer about a hold decided about already changes nothing.
pub proof fn law_the_first_answer_is_believed(
    entries: Map<u128, Entry>,
    hold: TxId,
    answer: Option<Amount>,
)
    ensures
        ({
            let after = once_admitted(entries, hold, answer);
            let open = !entries.contains_key(hold.0) || entries[hold.0] is Watched;
            &&& open && answer is Some ==> shown(after, hold) == (OverlayState {
                remaining: answer,
                taken: 0,
                resolved: false,
            })
            &&& open && answer is None ==> shown(after, hold) == (OverlayState {
                remaining: Some(0),
                taken: 0,
                resolved: true,
            })
            &&& !open ==> after == entries
            &&& pins_of(kept_for(after, hold)) == pins_of(kept_for(entries, hold))
        }),
{
    assert(entries.contains_key(hold.0) ==> entries.insert(hold.0, entries[hold.0]) =~= entries);
}

/// A resolution in flight takes its amount, and its mark, and leaves the committed remainder alone; when it is
/// handed over it gives back no more than was taken; when it fails it gives back what it took. What the engine
/// is told is left is what is left. None of it touches a hold that is not decided about, or the pins.
pub proof fn law_a_reservation_takes_and_gives_back(
    entries: Map<u128, Entry>,
    hold: TxId,
    amount: Amount,
    resolves: bool,
)
    requires
        Amount::MIN <= shown(entries, hold).taken + amount <= Amount::MAX,
        Amount::MIN <= shown(entries, hold).taken - amount <= Amount::MAX,
    ensures
        ({
            let live = entries.contains_key(hold.0) && entries[hold.0] is Decided;
            let was = shown(entries, hold);
            let taken = once_reserved(entries, hold, amount, resolves);
            let given = once_given_back(entries, hold, amount);
            let failed = once_compensated(entries, hold, amount, resolves);
            let noted = once_noted(entries, hold, amount);
            &&& live ==> {
                &&& shown(taken, hold).taken == was.taken + amount
                &&& shown(taken, hold).remaining == was.remaining
                &&& shown(taken, hold).resolved == (was.resolved || resolves)
                &&& shown(given, hold).taken == if was.taken > amount {
                    was.taken - amount
                } else {
                    0
                }
                &&& shown(given, hold).remaining == was.remaining
                &&& shown(given, hold).resolved == was.resolved
                &&& shown(failed, hold).taken == was.taken - amount
                &&& shown(failed, hold).remaining == was.remaining
                &&& shown(failed, hold).resolved == (was.resolved && !resolves)
                &&& shown(noted, hold).remaining == Some(amount)
                &&& shown(noted, hold).taken == was.taken
                &&& shown(noted, hold).resolved == was.resolved
            }
            &&& !live ==> taken == entries && given == entries && failed == entries && noted == entries
            &&& pins_of(kept_for(taken, hold)) == pins_of(kept_for(entries, hold))
            &&& pins_of(kept_for(given, hold)) == pins_of(kept_for(entries, hold))
            &&& pins_of(kept_for(failed, hold)) == pins_of(kept_for(entries, hold))
            &&& pins_of(kept_for(noted, hold)) == pins_of(kept_for(entries, hold))
        }),
{
}

/// A pin counts one request more, and its release one fewer, without changing what is shown; a hold that
/// nothing is kept for has none.
pub proof fn law_a_pin_counts_one_request(entries: Map<u128, Entry>, hold: TxId)
    requires
        pins_of(kept_for(entries, hold)) < u32::MAX,
    ensures
        ({
            let more = once_pinned(entries, hold);
            let fewer = once_unpinned(entries, hold);
            let pins = pins_of(kept_for(entries, hold));
            &&& entries.contains_key(hold.0) ==> pins_of(kept_for(more, hold)) == pins + 1
            &&& entries.contains_key(hold.0) && pins > 0 ==> pins_of(kept_for(fewer, hold)) == pins - 1
            &&& pins == 0 ==> pins_of(kept_for(fewer, hold)) == 0
            &&& !entries.contains_key(hold.0) ==> more == entries && fewer == entries
            &&& shown(more, hold) == shown(entries, hold)
            &&& shown(fewer, hold) == shown(entries, hold)
            &&& once_unpinned(more, hold) == entries
        }),
{
    assert(once_unpinned(once_pinned(entries, hold), hold) =~= entries);
}

/// A lookup that goes out makes room for its answer where nothing is kept, and changes nothing else. A hold
/// that is created has all of itself left where something is kept to correct, and gets no entry otherwise.
pub proof fn law_a_lookup_and_a_creation_correct_what_is_kept(
    entries: Map<u128, Entry>,
    hold: TxId,
    amount: Amount,
)
    ensures
        entries.contains_key(hold.0) ==> once_watched(entries, hold) == entries,
        !entries.contains_key(hold.0) ==> kept_for(once_watched(entries, hold), hold) == Some(
            Entry::Watched { pinned: 0 },
        ),
        !entries.contains_key(hold.0) ==> once_created(entries, hold, amount) == entries,
        entries.contains_key(hold.0) ==> shown(once_created(entries, hold, amount), hold) == (
        OverlayState { remaining: Some(amount), taken: 0, resolved: false }),
        pins_of(kept_for(once_created(entries, hold, amount), hold)) == pins_of(kept_for(entries, hold)),
{
}

/// What is done about one hold leaves what is kept for every other as it was.
pub proof fn law_what_is_done_about_a_hold_touches_no_other(
    entries: Map<u128, Entry>,
    hold: TxId,
    other: TxId,
    answer: Option<Amount>,
    amount: Amount,
    resolves: bool,
    safe_after: u64,
)
    requires
        hold != other,
    ensures
        kept_for(once_watched(entries, hold), other) == kept_for(entries, other),
        kept_for(once_pinned(entries, hold), other) == kept_for(entries, other),
        kept_for(once_unpinned(entries, hold), other) == kept_for(entries, other),
        kept_for(once_admitted(entries, hold, answer), other) == kept_for(entries, other),
        kept_for(once_created(entries, hold, amount), other) == kept_for(entries, other),
        kept_for(once_reserved(entries, hold, amount, resolves), other) == kept_for(entries, other),
        kept_for(once_given_back(entries, hold, amount), other) == kept_for(entries, other),
        kept_for(once_noted(entries, hold, amount), other) == kept_for(entries, other),
        kept_for(once_forgotten(entries, hold, safe_after), other) == kept_for(entries, other),
        kept_for(once_compensated(entries, hold, amount, resolves), other) == kept_for(entries, other),
{
}

/// An entry may be dropped only while no request will read it, and only where it says nothing that the engine
/// does not: nothing of its hold is taken, and a removal it stands for has been applied.
pub proof fn law_an_idle_entry_is_nobodys(entry: Entry, applied: u64)
    ensures
        entry.idle(applied) ==> pins_of(Some(entry)) == 0,
        entry matches Entry::Decided(one) ==> (entry.idle(applied) <==> one.pinned == 0 && one.reserved == 0
            && !one.resolved),
        entry matches Entry::Removed { pinned, safe_after } ==> (entry.idle(applied) <==> pinned == 0
            && safe_after <= applied),
        entry matches Entry::Watched { pinned } ==> (entry.idle(applied) <==> pinned == 0),
        entry matches Entry::Missing { pinned } ==> (entry.idle(applied) <==> pinned == 0),
{
}

/// A round of eviction takes as many idle entries as it may: what it took is what is missing, it never takes
/// more than its budget, and short of that nothing idle is left.
pub proof fn law_a_round_takes_what_is_idle(
    was: Map<u128, Entry>,
    now: Map<u128, Entry>,
    applied: u64,
    budget: usize,
    evicted: usize,
    key: u128,
)
    requires
        was.dom().finite(),
        evicts(was, now, applied, budget, evicted),
    ensures
        now.dom().len() == was.dom().len() - evicted,
        evicted <= budget,
        evicted < budget && now.contains_key(key) ==> !now[key].idle(applied),
        now.contains_key(key) ==> was.contains_key(key) && now[key] == was[key],
        was.contains_key(key) && !now.contains_key(key) ==> was[key].idle(applied),
{
    let gone = was.dom().difference(now.dom());
    let idle = idle_keys(was, applied);
    assert(now.dom() =~= was.dom().difference(gone));
    assert(gone.subset_of(was.dom()));
    vstd::set_lib::lemma_set_disjoint_lens(now.dom(), gone);
    assert(now.dom().union(gone) =~= was.dom());
    if evicted < budget {
        assert(gone.len() == idle.len());
        vstd::set_lib::lemma_subset_equality(gone, idle);
        if now.contains_key(key) && now[key].idle(applied) {
            assert(idle.contains(key));
        }
    }
}

/// Upkeep leaves an overlay alone that is not over its limit. Over it, a round drops idle entries, as many as there
/// are and as it may, and nothing else.
pub proof fn law_upkeep_drops_only_over_the_limit(
    was: Map<u128, Entry>,
    now: Map<u128, Entry>,
    applied: u64,
    limits: (usize, usize),
    evicted: usize,
    key: u128,
)
    requires
        was.dom().finite(),
        once_maintained(was, now, applied, limits, evicted),
    ensures
        was.len() <= limits.0 ==> now == was && evicted == 0,
        now.len() == was.len() - evicted,
        evicted <= limits.1,
        was.len() > limits.0 && evicted < limits.1 && now.contains_key(key) ==> !now[key].idle(applied),
        was.contains_key(key) && !was[key].idle(applied) ==> now.contains_key(key) && now[key] == was[key],
{
    if was.len() > limits.0 {
        law_a_round_takes_what_is_idle(was, now, applied, limits.1, evicted, key);
    }
}

} // verus!
