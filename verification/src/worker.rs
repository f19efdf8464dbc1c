//! What the engine's thread does with a command, a day and an answer.
//!
//! The queues on either side of it are somebody else's: this takes a command that was taken off one, and
//! says what is to be put on the other.

use std::collections::{BTreeMap, VecDeque};

use vstd::laws_cmp::group_laws_cmp;
use vstd::prelude::*;
use vstd::std_specs::btree::group_btree_axioms;

use crate::config::{MemoryPendingConfig, Sizes};
use crate::delay::{delay_of, state_after, LatencyRange};
use crate::address::SEGMENTS;
use crate::budget::BudgetState;
use crate::engine::{
    answer_to, asks, begins_day, does, expiring_of, follows, freed_count, freed_through, from_memory, harvests,
    has_a_segment, holds_after, is_answer_for, is_expired_void, lemma_asks_more, lemma_asks_same,
    lemma_left_alone, lemma_unasked, proposes, recalls, reclaims, starts, subject, told, voids_of, Arrival, Calendar,
    PendingEngine, Started,
};
use crate::lane::{Held, LaneView, UNORDERED};
use crate::ledger::{AccountId, ApplyIndex, HoldData, PendingEffect, Transfer, TxId};
use crate::orderer::{enrolled, next_push, wait_filled, OrderWait, Orderer};
use crate::ports::{PendingCommand, PendingLookup, PendingNotice, PendingReply};
use crate::prng::Prng;
use crate::stats::{add_count, plus};
use crate::store::{Asked, DurableStore, Written};

verus! {

broadcast use {group_btree_axioms, group_laws_cmp};

pub struct PendingWorker<S: DurableStore> {
    pub engine: PendingEngine<S>,
    /// Notices not handed over yet. A queue rather than one slot: every expired hold is a different one,
    /// and a dropped one would leave a pending column reserved for good.
    pub owed: VecDeque<PendingNotice>,
    /// How long a record may live, and how many blocks of a day one round may sweep.
    pub lifetime_days: u64,
    pub expiry_blocks_per_round: usize,
    /// Buffered blocks one round may carry out, and the blocks the buffer may hold before applying stops.
    pub drain_blocks_per_round: usize,
    pub buffer_ceiling: usize,
    /// Applies refused because the buffer was over its ceiling.
    pub buffer_stalls: u64,
    pub orderer: Orderer<PendingReply>,
    /// Claim to have applied less than it has, every nth answer: a fault, for whoever checks that.
    pub stale_answer_every: u32,
    pub answers: u64,
    /// Lookups the store is fetching for, by the handle the engine was given. The engine carries the walk;
    /// this carries who asked.
    pub inflight: BTreeMap<u64, PendingLookup>,
    pub handles: u64,
    /// A command the engine would not take yet. Retried before anything else is taken, because the order
    /// places are reserved in is the lane's order.
    pub deferred: Option<PendingCommand>,
    pub jitter: Prng,
    pub latency: LatencyRange,
}

/// What an answer says the engine had applied: one decision short of the truth when the fault is on and its
/// turn has come.
pub open spec fn claimed(applied: u64, answers: u64, stale_answer_every: u32) -> u64 {
    if stale_answer_every > 0 && plus(answers, 1) % (stale_answer_every as u64) == 0 && applied > 0 {
        (applied - 1) as u64
    } else {
        applied
    }
}

/// A lane with a place reserved, unless the command keeps none.
pub open spec fn reserved_in<T>(lane: LaneView<T>, seq: u64) -> LaneView<T> {
    if seq == UNORDERED {
        lane
    } else {
        lane.expected(seq)
    }
}

/// The lanes that take turns once a place is reserved, unless the command keeps none.
pub open spec fn turns_reserved(turns: Seq<u64>, lane: AccountId, seq: u64) -> Seq<u64> {
    if seq == UNORDERED {
        turns
    } else {
        enrolled(turns, lane.0)
    }
}

/// The waits counted once a reply for this place is in its lane.
pub open spec fn waits_replied<T>(
    waited: OrderWait,
    lane: LaneView<T>,
    seq: u64,
    after: LaneView<T>,
) -> OrderWait {
    if seq == UNORDERED {
        waited
    } else {
        wait_filled(waited, after.depth(), seq != lane.next)
    }
}

/// A lane with a reply handed over that is ready at this time.
pub open spec fn replied_in<T>(
    lane: LaneView<T>,
    seq: u64,
    ready_at: u64,
    value: T,
    violate: bool,
) -> LaneView<T> {
    let blocked = seq != UNORDERED && seq != lane.next;
    lane.filled(seq, Held { ready_at, blocked, value }, violate && seq != UNORDERED)
}

/// A place was reserved for this command and nothing else changed.
pub open spec fn reserves(
    was: Orderer<PendingReply>,
    now: Orderer<PendingReply>,
    lane: AccountId,
    seq: u64,
) -> bool {
    &&& now.wf()
    &&& now.lane(lane) == reserved_in(was.lane(lane), seq)
    &&& forall|other: AccountId| other != lane ==> #[trigger] now.lane(other) == was.lane(other)
    &&& now.turns() == turns_reserved(was.turns(), lane, seq)
    &&& now.held() == was.held()
    &&& now.waited() == was.waited()
    &&& now.fault() == was.fault()
}

/// A reply was handed over and nothing else changed.
pub open spec fn hands_over(
    was: Orderer<PendingReply>,
    now: Orderer<PendingReply>,
    ready_at: u64,
    reply: PendingReply,
) -> bool {
    &&& now.wf()
    &&& now.lane(reply.lane) == replied_in(
        was.lane(reply.lane),
        reply.seq,
        ready_at,
        reply,
        was.violates(),
    )
    &&& forall|other: AccountId|
        other != reply.lane ==> #[trigger] now.lane(other) == was.lane(other)
    &&& now.turns() == enrolled(was.turns(), reply.lane.0)
    &&& now.held() == was.held() + 1
    &&& now.waited() == waits_replied(
        was.waited(),
        was.lane(reply.lane),
        reply.seq,
        now.lane(reply.lane),
    )
    &&& now.fault() == (was.fault().0, next_push(was.fault().1))
}

/// A command was answered at once: a place was reserved for it, and its reply handed over.
pub open spec fn answers_at_once(
    was: Orderer<PendingReply>,
    now: Orderer<PendingReply>,
    ready_at: u64,
    reply: PendingReply,
) -> bool {
    &&& now.wf()
    &&& now.lane(reply.lane) == replied_in(
        reserved_in(was.lane(reply.lane), reply.seq),
        reply.seq,
        ready_at,
        reply,
        was.violates(),
    )
    &&& forall|other: AccountId|
        other != reply.lane ==> #[trigger] now.lane(other) == was.lane(other)
    &&& now.turns() == enrolled(
        turns_reserved(was.turns(), reply.lane, reply.seq),
        reply.lane.0,
    )
    &&& now.held() == was.held() + 1
    &&& now.waited() == waits_replied(
        was.waited(),
        reserved_in(was.lane(reply.lane), reply.seq),
        reply.seq,
        now.lane(reply.lane),
    )
    &&& now.fault() == (was.fault().0, next_push(was.fault().1))
}

/// The notices that offer these voids.
pub open spec fn offers(voids: Seq<Transfer>) -> Seq<PendingNotice> {
    voids.map_values(|void: Transfer| PendingNotice::HoldExpired { void })
}

/// The notice to hand over next.
pub open spec fn first_owed(owed: Seq<PendingNotice>) -> Option<PendingNotice> {
    if owed.len() > 0 {
        Some(owed[0])
    } else {
        None
    }
}

/// What is still owed once that notice has been handed over.
pub open spec fn still_owed(owed: Seq<PendingNotice>) -> Seq<PendingNotice> {
    if owed.len() > 0 {
        owed.drop_first()
    } else {
        owed
    }
}

/// What is owed once it is known whether the store has refused something.
pub open spec fn with_failure(owed: Seq<PendingNotice>, failed: bool) -> Seq<PendingNotice> {
    if failed {
        owed.push(PendingNotice::StoreFailed)
    } else {
        owed
    }
}

/// Each of these releases a hold that is there, whose record is in a segment.
pub open spec fn all_expired<S: DurableStore>(
    engine: PendingEngine<S>,
    voids: Seq<Transfer>,
    segment: u8,
) -> bool {
    forall|i: int| 0 <= i < voids.len() ==> is_expired_void(engine, #[trigger] voids[i], segment)
}

/// Every lookup the engine has on its way was begun under a handle given out, and is for the key of the
/// lookup in flight under it.
#[verifier::opaque]
pub open spec fn accounted<S: DurableStore>(
    engine: PendingEngine<S>,
    handles: u64,
    inflight: Map<u64, PendingLookup>,
) -> bool {
    forall|handle: u64, key: TxId| #[trigger]
        asks(engine, handle, key) ==> handle <= handles && (inflight.contains_key(handle)
            ==> inflight[handle].pending_ref == key)
}

/// An engine with no more lookups on their way, and no more of them in flight, is accounted for too.
proof fn lemma_accounted<S: DurableStore>(
    now: PendingEngine<S>,
    was: PendingEngine<S>,
    handles: u64,
    inflight: Map<u64, PendingLookup>,
    before: Map<u64, PendingLookup>,
)
    requires
        accounted(was, handles, before),
        inflight.submap_of(before),
        (forall|h: u64, k: TxId| #[trigger] asks(now, h, k) ==> asks(was, h, k)) || (now.waiting()
            == was.waiting() && now.held_up() == was.held_up()),
    ensures
        accounted(now, handles, inflight),
{
    reveal(accounted);
    assert forall|handle: u64, key: TxId| #[trigger] asks(now, handle, key) implies handle <= handles && (
    inflight.contains_key(handle) ==> inflight[handle].pending_ref == key) by {
        if now.waiting() == was.waiting() && now.held_up() == was.held_up() {
            lemma_asks_same(now, was);
        }
        assert(asks(was, handle, key));
    }
}

/// A lookup begun under a new handle is accounted for with the rest.
proof fn lemma_accounted_more<S: DurableStore>(
    now: PendingEngine<S>,
    was: PendingEngine<S>,
    handles: u64,
    inflight: Map<u64, PendingLookup>,
    lookup: PendingLookup,
)
    requires
        handles < u64::MAX,
        accounted(was, handles, inflight),
        now.held_up() == was.held_up(),
        now.waiting() == was.waiting() || now.waiting() == was.waiting().insert(
            now.last_read(),
            ((handles + 1) as u64, lookup.pending_ref),
        ),
    ensures
        now.waiting() == was.waiting() ==> accounted(now, (handles + 1) as u64, inflight),
        accounted(
            now,
            (handles + 1) as u64,
            inflight.insert((handles + 1) as u64, lookup),
        ),
{
    reveal(accounted);
    lemma_asks_more(now, was, (handles + 1) as u64, lookup.pending_ref);
}

impl<S: DurableStore> PendingWorker<S> {
    /// A worker over a store, sized from what the configuration declared.
    pub fn new(config: &MemoryPendingConfig, sizes: Sizes, store: S) -> (worker: Self)
        requires
            store.wf(),
            sizes.slots <= usize::MAX / 4,
        ensures
            worker.wf(),
            worker.engine.good(),
            worker.engine.grounded(),
            worker.engine.log().disk() == store,
            worker.engine.table().sized_for(sizes.slots),
            worker.engine.is_fresh(sizes.flush_blocks, sizes.resident_blocks),
            worker.engine.in_order(),
            worker.engine.dated(),
            store.truthful() && store.written() == Set::<Written>::empty() && store.pledged() == Set::<
                Written,
            >::empty() && store.asked() == Set::<Asked>::empty() ==> worker.engine.healthy(),
            worker.owed@.len() == 0,
            worker.lifetime_days == sizes.lifetime_days,
            worker.expiry_blocks_per_round == config.expiry_blocks_per_round,
            worker.drain_blocks_per_round == sizes.drain_blocks_per_round,
            worker.buffer_ceiling == sizes.buffer_ceiling,
            worker.buffer_stalls == 0,
            worker.orderer.turns().len() == 0,
            worker.orderer.held() == 0,
            worker.orderer.fault() == (config.violate_order_every, 0u32),
            worker.stale_answer_every == config.stale_answer_every,
            worker.answers == 0,
            worker.inflight@ == Map::<u64, PendingLookup>::empty(),
            worker.handles == 0,
            worker.deferred is None,
            worker.jitter.state == config.seed,
            worker.latency == config.latency,
    {
        let engine = PendingEngine::sized(
            sizes.slots,
            sizes.flush_blocks,
            sizes.resident_blocks,
            store,
        );
        proof {
            reveal(accounted);
        }
        PendingWorker {
            engine,
            owed: VecDeque::new(),
            lifetime_days: sizes.lifetime_days,
            expiry_blocks_per_round: config.expiry_blocks_per_round,
            drain_blocks_per_round: sizes.drain_blocks_per_round,
            buffer_ceiling: sizes.buffer_ceiling,
            buffer_stalls: 0,
            orderer: Orderer::new(config.violate_order_every),
            stale_answer_every: config.stale_answer_every,
            answers: 0,
            inflight: BTreeMap::new(),
            handles: 0,
            deferred: None,
            jitter: Prng::new(config.seed),
            latency: config.latency,
        }
    }

    pub open spec fn wf(&self) -> bool {
        &&& self.engine.wf()
        &&& self.orderer.wf()
        &&& forall|handle: u64| #[trigger]
            self.inflight@.contains_key(handle) ==> handle <= self.handles
                && self.inflight@[handle].seq < u64::MAX
        &&& accounted(self.engine, self.handles, self.inflight@)
    }

    /// The numbers a command needs are there: a handle, a place for its reply, and for a decision, what the
    /// engine needs for it.
    pub open spec fn has_room_for(&self, command: PendingCommand) -> bool {
        match command {
            PendingCommand::Lookup(lookup) => self.handles < u64::MAX && lookup.seq < u64::MAX
                && self.orderer.held() < usize::MAX,
            PendingCommand::Fence(fence) => fence.seq < u64::MAX && self.orderer.held() < usize::MAX,
            PendingCommand::Apply { effect, at } => self.engine.can_take(effect, at, Arrival::First),
            PendingCommand::ExpiryDeclined { .. } => true,
        }
    }

    pub fn can_take(&self, command: PendingCommand) -> (can: bool)
        requires
            self.wf(),
        ensures
            can == self.has_room_for(command),
    {
        match command {
            PendingCommand::Lookup(lookup) => self.handles < u64::MAX && lookup.seq < u64::MAX
                && self.orderer.held() < usize::MAX,
            PendingCommand::Fence(fence) => fence.seq < u64::MAX && self.orderer.held() < usize::MAX,
            PendingCommand::Apply { effect, at } => self.engine.can_write(effect, at),
            PendingCommand::ExpiryDeclined { .. } => true,
        }
    }

    /// Everything but the engine, the orderer, the draws and the counts of answers is as it was.
    pub open spec fn same_but_reply(&self, before: &Self) -> bool {
        &&& self.owed == before.owed
        &&& self.lifetime_days == before.lifetime_days
        &&& self.expiry_blocks_per_round == before.expiry_blocks_per_round
        &&& self.drain_blocks_per_round == before.drain_blocks_per_round
        &&& self.buffer_ceiling == before.buffer_ceiling
        &&& self.buffer_stalls == before.buffer_stalls
        &&& self.stale_answer_every == before.stale_answer_every
        &&& self.latency == before.latency
    }

    /// The reply to a lookup or a fence, as the engine stands.
    pub open spec fn reply_to(
        &self,
        correlation: u64,
        lane: AccountId,
        seq: u64,
        pending_ref: TxId,
        found: Option<HoldData>,
    ) -> PendingReply {
        PendingReply {
            correlation,
            lane,
            seq,
            pending_ref,
            found,
            applied: claimed(self.engine.spec_applied(), self.answers, self.stale_answer_every),
        }
    }

    /// One reply has been given its delay and its count.
    pub open spec fn replied_once(&self, before: &Self) -> bool {
        &&& self.answers == plus(before.answers, 1)
        &&& self.jitter.state == state_after(before.latency, before.jitter.state)
    }

    /// No reply has been given a delay or a count.
    pub open spec fn replied_nothing(&self, before: &Self) -> bool {
        &&& self.answers == before.answers
        &&& self.jitter == before.jitter
    }

    /// When a reply handed over now may leave.
    pub open spec fn ready_at(&self, now: u64) -> u64 {
        plus(now, delay_of(self.latency, self.jitter.state))
    }

    /// What this answer says the engine had applied. Truthful unless the fault is on.
    fn claimed_applies(&mut self) -> (applied: u64)
        requires
            old(self).wf(),
        ensures
            applied == claimed(
                old(self).engine.spec_applied(),
                old(self).answers,
                old(self).stale_answer_every,
            ),
            *final(self) == (PendingWorker { answers: plus(old(self).answers, 1), ..*old(self) }),
    {
        let applied: u64 = self.engine.applied();
        self.answers = add_count(self.answers, 1);
        if self.stale_answer_every > 0 && self.answers % (self.stale_answer_every as u64) == 0 && applied
            > 0 {
            return applied - 1;
        }
        applied
    }

    /// A delay asked for by a test that needs replies to queue up. Not a model of the engine.
    fn injected_delay(&mut self) -> (nanos: u64)
        ensures
            nanos == delay_of(old(self).latency, old(self).jitter.state),
            final(self).jitter.state == state_after(old(self).latency, old(self).jitter.state),
            *final(self) == (PendingWorker { jitter: final(self).jitter, ..*old(self) }),
    {
        self.latency.sample(&mut self.jitter)
    }

    /// Takes a command. False when the engine would not take it yet: the command is kept and the round
    /// ends, because taking the next one would reserve its place out of order.
    ///
    /// A lookup reads the engine now and is delivered later: the answer reflects the engine as of this
    /// lookup's place among the commands. The place is reserved here, in the order the commands arrived;
    /// what fills it may arrive much later, from the store. An expiry void that was declined is offered
    /// again by the sweep, so there is nothing to note.
    pub fn take(&mut self, command: PendingCommand, now: u64) -> (taken: bool)
        requires
            old(self).wf(),
            old(self).has_room_for(command),
        ensures
            final(self).wf(),
            !taken ==> final(self).deferred == Some(command) && final(self).inflight == old(self).inflight && final(self).orderer == old(self).orderer,
            taken ==> final(self).deferred == old(self).deferred,
            command matches PendingCommand::Lookup(lookup) ==> final(self).same_but_reply(old(self))
                && final(self).engine.looked(&old(self).engine) && final(self).handles
                == old(self).handles + 1 && (taken ==> looked_up(old(self), final(self), lookup, now))
                && started_lookup(old(self), final(self), lookup, now, taken),
            command is Lookup && old(self).engine.good() ==> forall|handle: u64, key: TxId|
                old(self).engine.sure_of(handle, key) ==> #[trigger] final(self).engine.sure_of(handle, key),
            command is Apply || !taken ==> final(self).replied_nothing(old(self)),
            command matches PendingCommand::Fence(fence) ==> taken && final(self).same_but_reply(old(self))
                && final(self).replied_once(old(self))
                && final(self).engine == old(self).engine && final(self).inflight == old(self).inflight
                && answers_at_once(
                old(self).orderer,
                final(self).orderer,
                old(self).ready_at(now),
                old(self).reply_to(fence.correlation, fence.lane, fence.seq, TxId::absent(), None),
            ),
            command is ExpiryDeclined ==> taken && *final(self) == *old(self),
            command matches PendingCommand::Apply { effect, at } ==> taken == !old(self).over_ceiling()
                && final(self).orderer == old(self).orderer && final(self).inflight
                == old(self).inflight,
            command is Apply && !taken ==> final(self).engine == old(self).engine && final(self).owed
                == old(self).owed && final(self).buffer_stalls == plus(old(self).buffer_stalls, 1),
            command matches PendingCommand::Apply { effect, at } ==> (taken ==> {
                &&& final(self).engine.wrote(&old(self).engine)
                &&& final(self).engine.spec_applied() == old(self).engine.spec_applied() + 1
                &&& final(self).engine.spec_applied_through() == at
                &&& final(self).buffer_stalls == old(self).buffer_stalls
                &&& stored(old(self), final(self), effect, at)
            }),
    {
        match command {
            PendingCommand::Lookup(lookup) => self.take_lookup(lookup, now),
            PendingCommand::ExpiryDeclined { .. } => true,
            PendingCommand::Fence(fence) => {
                let applied: u64 = self.claimed_applies();
                let reply = PendingReply {
                    correlation: fence.correlation,
                    lane: fence.lane,
                    seq: fence.seq,
                    pending_ref: TxId::absent(),
                    found: None,
                    applied,
                };
                let delay: u64 = self.injected_delay();
                let ready_at: u64 = add_count(now, delay);
                self.answer_now(ready_at, reply);
                true
            },
            PendingCommand::Apply { effect, at } => {
                if self.engine.buffered_blocks() > self.buffer_ceiling
                    || self.engine.writes_outstanding() > self.buffer_ceiling {
                    self.buffer_stalls = add_count(self.buffer_stalls, 1);
                    self.deferred = Some(command);
                    return false;
                }
                let written = self.engine.write(effect, at);
                proof {
                    let was = old(self);
                    lemma_accounted(self.engine, was.engine, was.handles, was.inflight@, was.inflight@);
                }
                match written {
                    Ok(()) => {},
                    Err(not_stored) => {
                        self.owed.push_back(PendingNotice::HoldNotStored { hold: not_stored.hold });
                        assert(self.owed@.len() != old(self).owed@.len());
                    },
                }
                true
            },
        }
    }

    /// The buffer, or what is on its way to the store, is over the ceiling.
    pub open spec fn over_ceiling(&self) -> bool {
        self.engine.log().held().buffer@.len() > self.buffer_ceiling
            || self.engine.log().books().outstanding() > self.buffer_ceiling
    }

    fn take_lookup(&mut self, lookup: PendingLookup, now: u64) -> (taken: bool)
        requires
            old(self).wf(),
            old(self).has_room_for(PendingCommand::Lookup(lookup)),
        ensures
            final(self).wf(),
            final(self).same_but_reply(old(self)),
            final(self).engine.looked(&old(self).engine),
            old(self).engine.good() ==> forall|handle: u64, key: TxId|
                old(self).engine.sure_of(handle, key) ==> #[trigger] final(self).engine.sure_of(handle, key),
            final(self).handles == old(self).handles + 1,
            started_lookup(old(self), final(self), lookup, now, taken),
            !taken ==> final(self).deferred == Some(PendingCommand::Lookup(lookup))
                && final(self).inflight == old(self).inflight && final(self).orderer
                == old(self).orderer && final(self).replied_nothing(old(self)),
            taken ==> final(self).deferred == old(self).deferred && looked_up(
                old(self),
                final(self),
                lookup,
                now,
            ),
    {
        self.handles = self.handles + 1;
        let handle: u64 = self.handles;
        let started = self.engine.begin_lookup(handle, lookup.pending_ref, now);
        proof {
            assert(starts(old(self).engine, self.engine, handle, lookup.pending_ref, now, started));
            let was = old(self);
            lemma_accounted_more(self.engine, was.engine, was.handles, was.inflight@, lookup);
        }
        match started {
            Started::Busy => {
                self.deferred = Some(PendingCommand::Lookup(lookup));
                false
            },
            Started::Answered(found) => {
                let delay: u64 = self.injected_delay();
                let ready_at: u64 = add_count(now, delay);
                let applied: u64 = self.claimed_applies();
                let reply = PendingReply {
                    correlation: lookup.correlation,
                    lane: lookup.lane,
                    seq: lookup.seq,
                    pending_ref: lookup.pending_ref,
                    found,
                    applied,
                };
                self.answer_now(ready_at, reply);
                assert(answered_lookup(old(self), self, lookup, now, found));
                true
            },
            Started::Fetching => {
                self.orderer.expect(lookup.lane, lookup.seq);
                self.inflight.insert(handle, lookup);
                proof {
                    assert forall|other: AccountId| other != lookup.lane implies #[trigger] self.orderer.lane(
                        other,
                    ) == old(self).orderer.lane(other) by {
                        assert(other.0 != lookup.lane.0);
                    }
                    if old(self).engine.good() {
                        assert(!asks(old(self).engine, handle, lookup.pending_ref)) by {
                            reveal(accounted);
                        }
                        lemma_unasked(old(self).engine, handle, lookup.pending_ref);
                        assert(self.engine.sure_of(handle, lookup.pending_ref));
                    }
                    assert(self.engine.waiting().contains_key(self.engine.last_read()));
                    assert(asks(self.engine, self.handles, lookup.pending_ref));
                    assert(reserves(old(self).orderer, self.orderer, lookup.lane, lookup.seq));
                }
                true
            },
        }
    }

    /// Reserves a place and fills it.
    fn answer_now(&mut self, ready_at: u64, reply: PendingReply)
        requires
            old(self).orderer.wf(),
            old(self).orderer.held() < usize::MAX,
            reply.seq < u64::MAX,
        ensures
            answers_at_once(old(self).orderer, final(self).orderer, ready_at, reply),
            *final(self) == (PendingWorker { orderer: final(self).orderer, ..*old(self) }),
    {
        self.orderer.expect(reply.lane, reply.seq);
        self.orderer.fill(reply.lane, reply.seq, ready_at, reply);
        proof {
            assert forall|other: AccountId| other != reply.lane implies #[trigger] self.orderer.lane(other)
                == old(self).orderer.lane(other) by {
                assert(other.0 != reply.lane.0);
            }
        }
    }

    /// Takes one answer of the store's, if there is one: a lookup that was waiting for it is answered at
    /// the place reserved for it. The store's answers come in the device's order; the orderer is what turns
    /// that back into the lane's. Answers whether a lookup was answered, and `None` once the store has
    /// nothing more.
    pub fn harvest_one(&mut self, now: u64) -> (answered: Option<bool>)
        requires
            old(self).wf(),
            old(self).orderer.held() < usize::MAX,
        ensures
            final(self).wf(),
            final(self).same_but_reply(old(self)),
            final(self).deferred == old(self).deferred,
            final(self).handles == old(self).handles,
            final(self).engine.gathered(&old(self).engine),
            harvests_one(old(self), final(self), now, answered),
            answered != Some(true) ==> final(self).orderer == old(self).orderer && final(self).inflight@
                == old(self).inflight@ && final(self).replied_nothing(old(self)),
            answered == Some(true) ==> harvested(old(self), final(self), now),
    {
        let harvested = self.engine.harvest(now);
        proof {
            let was = old(self);
            lemma_accounted(self.engine, was.engine, was.handles, was.inflight@, was.inflight@);
            assert(harvests(was.engine, self.engine, now, harvested));
        }
        match harvested {
            None => None,
            Some((handle, found)) => {
                let ghost gathered = *self;
                match self.inflight.remove(&handle) {
                    None => {
                        assert(self.inflight@ =~= old(self).inflight@);
                        Some(false)
                    },
                    Some(lookup) => {
                        proof {
                            let was = old(self);
                            lemma_accounted(
                                self.engine,
                                gathered.engine,
                                was.handles,
                                self.inflight@,
                                was.inflight@,
                            );
                            let key = choose|key: TxId| #[trigger]
                                is_answer_for(was.engine, handle, key, found);
                            assert(key == lookup.pending_ref) by {
                                reveal(accounted);
                                assert(asks(was.engine, handle, key));
                            }
                        }
                        let delay: u64 = self.injected_delay();
                        let ready_at: u64 = add_count(now, delay);
                        let applied: u64 = self.claimed_applies();
                        let reply = PendingReply {
                            correlation: lookup.correlation,
                            lane: lookup.lane,
                            seq: lookup.seq,
                            pending_ref: lookup.pending_ref,
                            found,
                            applied,
                        };
                        self.orderer.fill(reply.lane, reply.seq, ready_at, reply);
                        proof {
                            assert forall|other: AccountId| other != reply.lane implies #[trigger] self.orderer.lane(
                                other,
                            ) == old(self).orderer.lane(other) by {
                                assert(other.0 != reply.lane.0);
                            }
                            assert(harvested_one(old(self), self, now, handle, found));
                        }
                        Some(true)
                    },
                }
            },
        }
    }

    /// Moves the day on when the calendar says it has, hands back the blocks of any day nothing points
    /// into, and offers a bounded slice of whatever ran out. Nothing is offered while notices are still
    /// waiting, or while the sequencer has no room for more: the sweep is the only thing that retries a
    /// declined void.
    pub fn sweep_expiry(&mut self, day: u64, wants_expiry: bool, now: u64) -> (progress: bool)
        requires
            old(self).wf(),
            old(self).engine.log().room_to_seal(1),
        ensures
            final(self).wf(),
            final(self).same_but_reply(&PendingWorker { owed: final(self).owed, ..*old(self) }),
            final(self).orderer == old(self).orderer,
            final(self).inflight == old(self).inflight,
            final(self).deferred == old(self).deferred,
            final(self).handles == old(self).handles,
            final(self).engine.left_alone(&old(self).engine),
            final(self).engine.holds() == old(self).engine.holds(),
            final(self).engine.groups() == old(self).engine.groups(),
            final(self).engine.spec_applied() == old(self).engine.spec_applied(),
            final(self).engine.spec_applied_through() == old(self).engine.spec_applied_through(),
            exists|opened: PendingEngine<S>, freed: PendingEngine<S>| #[trigger]
                swept(old(self), final(self), day, wants_expiry, now, opened, freed),
            ({
                let begun = begun_day(old(self), day);
                let segment = expiring_of(begun);
                let offering = is_offering(old(self), day, wants_expiry);
                let found = if offering && old(self).engine.table().spec_live_in(segment->0 as int) > 0 {
                    voids_of(final(self).engine.calendar().outstanding)
                } else {
                    Seq::empty()
                };
                let opened = begun.today != old(self).engine.calendar().today;
                let open = if opened {
                    (day % SEGMENTS) as u8
                } else {
                    old(self).engine.log().spec_segment()
                };
                let days = if opened {
                    old(self).engine.log().days_once_open(day)
                } else {
                    old(self).engine.log().days()
                };
                &&& final(self).owed@ == old(self).owed@ + offers(found)
                &&& !offering ==> final(self).engine.calendar() == begun
                &&& final(self).engine.log().spec_segment() == open
                &&& final(self).engine.log().days() == freed_through(days, old(self).engine.table(), open, 63)
                &&& progress == (opened || freed_count(days, old(self).engine.table(), open, 63) > 0
                    || found.len() > 0)
                &&& old(self).engine.healthy() && old(self).engine.grounded() ==> all_expired(
                    old(self).engine,
                    found,
                    segment->0,
                )
            }),
    {
        let opened = self.engine.open_day(day, self.lifetime_days);
        let ghost begun = self.engine;
        assert(old(self).owed@ + offers(Seq::empty()) =~= old(self).owed@);
        let reclaimed = self.engine.reclaim() > 0;
        proof {
            let was = old(self);
            lemma_left_alone(self.engine, begun, was.engine);
            lemma_accounted(self.engine, was.engine, was.handles, was.inflight@, was.inflight@);
            assert(!is_offering(was, day, wants_expiry) ==> swept(
                was,
                self,
                day,
                wants_expiry,
                now,
                begun,
                self.engine,
            ));
        }
        if !self.engine.sweeping() {
            return opened || reclaimed;
        }
        if self.owed.len() > 0 {
            return opened || reclaimed;
        }
        if !wants_expiry {
            return opened || reclaimed;
        }
        let ghost freed = self.engine;
        let offered = self.offer(now);
        proof {
            lemma_left_alone(self.engine, freed, old(self).engine);
            assert(swept(old(self), self, day, wants_expiry, now, begun, freed));
        }
        opened || reclaimed || offered
    }

    /// Offers a bounded slice of the holds that have run out.
    fn offer(&mut self, now: u64) -> (any: bool)
        requires
            old(self).wf(),
            expiring_of(old(self).engine.calendar()) is Some,
        ensures
            final(self).wf(),
            *final(self) == (PendingWorker {
                owed: final(self).owed,
                engine: final(self).engine,
                ..*old(self)
            }),
            final(self).engine.proposed(&old(self).engine),
            proposes(old(self).engine, final(self).engine, old(self).expiry_blocks_per_round, now),
            ({
                let segment = expiring_of(old(self).engine.calendar())->0;
                let found = if old(self).engine.table().spec_live_in(segment as int) > 0 {
                    voids_of(final(self).engine.calendar().outstanding)
                } else {
                    Seq::empty()
                };
                &&& final(self).owed@ == old(self).owed@ + offers(found)
                &&& any == (found.len() > 0)
                &&& old(self).engine.healthy() && old(self).engine.grounded() ==> all_expired(
                    old(self).engine,
                    found,
                    segment,
                )
            }),
    {
        let mut found: Vec<Transfer> = Vec::new();
        self.engine.propose_expiry(self.expiry_blocks_per_round, now, &mut found);
        proof {
            let was = old(self);
            lemma_accounted(self.engine, was.engine, was.handles, was.inflight@, was.inflight@);
        }
        let ghost engine = self.engine;
        let ghost owed = self.owed@;
        proof {
            assert(found@ =~= if old(self).engine.table().spec_live_in(
                expiring_of(old(self).engine.calendar())->0 as int,
            ) > 0 {
                voids_of(engine.calendar().outstanding)
            } else {
                Seq::empty()
            });
            assert(owed =~= owed + offers(found@.take(0)));
        }
        let mut i: usize = 0;
        while i < found.len()
            invariant
                i <= found@.len(),
                *self == (PendingWorker { owed: self.owed, engine: self.engine, ..*old(self) }),
                self.engine == engine,
                self.owed@ == owed + offers(found@.take(i as int)),
            decreases found@.len() - i,
        {
            let void = found[i];
            self.owed.push_back(PendingNotice::HoldExpired { void });
            proof {
                assert(offers(found@.take(i + 1)) =~= offers(found@.take(i as int)).push(
                    PendingNotice::HoldExpired { void },
                ));
                assert(self.owed@ =~= owed + offers(found@.take(i + 1)));
            }
            i += 1;
        }
        assert(found@.take(found@.len() as int) =~= found@);
        found.len() > 0
    }

    /// The next notice to hand over.
    pub fn next_notice(&self) -> (notice: Option<PendingNotice>)
        ensures
            notice == first_owed(self.owed@),
    {
        if self.owed.len() > 0 {
            Some(self.owed[0])
        } else {
            None
        }
    }

    /// The next notice has been handed over. Not before: news the sequencer has to act on may not be
    /// dropped because a queue was full.
    pub fn handed_over(&mut self)
        ensures
            *final(self) == (PendingWorker { owed: final(self).owed, ..*old(self) }),
            final(self).owed@ == still_owed(old(self).owed@),
    {
        let _ = self.owed.pop_front();
    }

    /// Owes the sequencer the news of a store that refused something, once for each time it is found.
    pub fn note_fault(&mut self) -> (failed: bool)
        requires
            old(self).wf(),
        ensures
            final(self).wf(),
            failed == old(self).engine.log().fault(),
            final(self).engine.carried(&old(self).engine),
            !final(self).engine.log().fault(),
            *final(self) == (PendingWorker {
                owed: final(self).owed,
                engine: final(self).engine,
                ..*old(self)
            }),
            final(self).owed@ == with_failure(old(self).owed@, failed),
    {
        let failed = self.engine.take_store_fault();
        proof {
            let was = old(self);
            lemma_accounted(self.engine, was.engine, was.handles, was.inflight@, was.inflight@);
        }
        if failed {
            self.owed.push_back(PendingNotice::StoreFailed);
        }
        failed
    }

    /// The command to take before any other, if one is kept.
    pub fn take_deferred(&mut self) -> (command: Option<PendingCommand>)
        ensures
            command == old(self).deferred,
            *final(self) == (PendingWorker { deferred: None, ..*old(self) }),
    {
        self.deferred.take()
    }
}

/// The calendar once a day has been told.
pub open spec fn begun_day<S: DurableStore>(worker: &PendingWorker<S>, day: u64) -> Calendar {
    let begun = told(
        worker.engine.calendar(),
        worker.engine.table(),
        day,
        worker.lifetime_days,
    );
    if day != worker.engine.calendar().today && has_a_segment(begun.sweep, day) {
        Calendar { today: day, ..begun }
    } else {
        begun
    }
}

/// Whether a round of the sweep has something to offer, and someone to offer it to.
pub open spec fn is_offering<S: DurableStore>(
    worker: &PendingWorker<S>,
    day: u64,
    wants_expiry: bool,
) -> bool {
    expiring_of(begun_day(worker, day)) is Some && worker.owed@.len() == 0 && wants_expiry
}

/// A round of the sweep went from one engine to the next: the day was moved on, the blocks nothing
/// points into were handed back, and where anything was to be offered a slice of it was.
pub open spec fn swept<S: DurableStore>(
    was: &PendingWorker<S>,
    after: &PendingWorker<S>,
    day: u64,
    wants_expiry: bool,
    now: u64,
    opened: PendingEngine<S>,
    freed: PendingEngine<S>,
) -> bool {
    &&& begins_day(was.engine, opened, day, was.lifetime_days)
    &&& reclaims(opened, freed)
    &&& if is_offering(was, day, wants_expiry) {
        proposes(freed, after.engine, was.expiry_blocks_per_round, now)
    } else {
        after.engine == freed
    }
}

/// A lookup was answered at once.
pub open spec fn answered_lookup<S: DurableStore>(
    was: &PendingWorker<S>,
    now_is: &PendingWorker<S>,
    lookup: PendingLookup,
    now: u64,
    found: Option<HoldData>,
) -> bool {
    &&& now_is.inflight == was.inflight
    &&& now_is.replied_once(was)
    &&& now_is.engine.waiting() == was.engine.waiting()
    &&& was.engine.good() ==> found == answer_to(
        was.engine.holds(),
        was.engine.groups(),
        lookup.pending_ref,
    )
    &&& found matches Some(hold) ==> from_memory(was.engine, lookup.pending_ref, hold)
    &&& answers_at_once(
        was.orderer,
        now_is.orderer,
        was.ready_at(now),
        was.reply_to(lookup.correlation, lookup.lane, lookup.seq, lookup.pending_ref, found),
    )
}

/// A lookup was taken: it was answered at once, or a place is reserved for it and the store is fetching its
/// record.
pub open spec fn looked_up<S: DurableStore>(
    was: &PendingWorker<S>,
    now_is: &PendingWorker<S>,
    lookup: PendingLookup,
    now: u64,
) -> bool {
    ||| exists|found: Option<HoldData>| #[trigger] answered_lookup(was, now_is, lookup, now, found)
    ||| {
        &&& now_is.inflight@ == was.inflight@.insert(now_is.handles, lookup)
        &&& asks(now_is.engine, now_is.handles, lookup.pending_ref)
        &&& was.engine.good() ==> now_is.engine.sure_of(now_is.handles, lookup.pending_ref)
        &&& reserves(was.orderer, now_is.orderer, lookup.lane, lookup.seq)
        &&& now_is.replied_nothing(was)
    }
}

/// A lookup was started: it was taken unless the engine would not take it, and answered at once where the
/// engine answered it.
pub open spec fn started_lookup<S: DurableStore>(
    was: &PendingWorker<S>,
    now_is: &PendingWorker<S>,
    lookup: PendingLookup,
    now: u64,
    taken: bool,
) -> bool {
    exists|started: Started| #[trigger]
        starts(was.engine, now_is.engine, now_is.handles, lookup.pending_ref, now, started) && taken == !(
        started is Busy) && (started matches Started::Answered(found) ==> answered_lookup(
            was,
            now_is,
            lookup,
            now,
            found,
        )) && (started is Fetching ==> now_is.inflight@ == was.inflight@.insert(now_is.handles, lookup)
            && reserves(was.orderer, now_is.orderer, lookup.lane, lookup.seq))
}

/// A lookup that waited on the store was answered at its place.
pub open spec fn harvested_one<S: DurableStore>(
    was: &PendingWorker<S>,
    now_is: &PendingWorker<S>,
    now: u64,
    handle: u64,
    found: Option<HoldData>,
) -> bool {
    let lookup = was.inflight@[handle];
    &&& was.inflight@.contains_key(handle)
    &&& is_answer_for(was.engine, handle, lookup.pending_ref, found)
    &&& now_is.inflight@ == was.inflight@.remove(handle)
    &&& now_is.replied_once(was)
    &&& hands_over(
        was.orderer,
        now_is.orderer,
        was.ready_at(now),
        was.reply_to(lookup.correlation, lookup.lane, lookup.seq, lookup.pending_ref, found),
    )
}

/// The engine was asked for the next lookup that has come to an answer. Where there is one, and somebody
/// still waits on it, it is answered at its place.
pub open spec fn harvests_one<S: DurableStore>(
    was: &PendingWorker<S>,
    now_is: &PendingWorker<S>,
    now: u64,
    answered: Option<bool>,
) -> bool {
    exists|done: Option<(u64, Option<HoldData>)>| #[trigger]
        harvests(was.engine, now_is.engine, now, done) && match done {
            None => answered is None,
            Some((handle, found)) => {
                &&& answered == Some(was.inflight@.contains_key(handle))
                &&& was.inflight@.contains_key(handle) ==> harvested_one(was, now_is, now, handle, found)
            },
        }
}

/// Some lookup that waited on the store was answered at its place.
pub open spec fn harvested<S: DurableStore>(
    was: &PendingWorker<S>,
    now_is: &PendingWorker<S>,
    now: u64,
) -> bool {
    exists|handle: u64, found: Option<HoldData>| #[trigger]
        harvested_one(was, now_is, now, handle, found)
}

/// A decision was applied, and whoever asked for a hold the index has no room for is owed the news.
pub open spec fn stored<S: DurableStore>(
    was: &PendingWorker<S>,
    now_is: &PendingWorker<S>,
    effect: PendingEffect,
    at: ApplyIndex,
) -> bool {
    let refused = now_is.owed@ != was.owed@;
    &&& refused <==> effect is Create && was.engine.table().moves_for(subject(effect)) is None
    &&& refused ==> now_is.owed@ == was.owed@.push(
        PendingNotice::HoldNotStored { hold: subject(effect) },
    ) && effect is Create && was.engine.no_room_for(subject(effect))
    &&& does(was.engine, now_is.engine, effect, at, Arrival::First, !refused)
    &&& was.engine.needs_no_record(effect) || recalls(
        was.engine.table(),
        was.engine.log(),
        subject(effect),
    ) ==> now_is.engine.log().disk() == was.engine.log().disk() && now_is.engine.log().fault()
        == was.engine.log().fault()
    &&& now_is.engine.spec_overflowed() == if refused {
        plus(was.engine.spec_overflowed(), 1)
    } else {
        was.engine.spec_overflowed()
    }
    &&& was.engine.healthy() && follows(was.engine, effect, Arrival::First)
        && !now_is.engine.log().fault() ==> now_is.engine.healthy() && now_is.engine.holds()
        == holds_after(was.engine.holds(), effect, !refused)
}

} // verus!
