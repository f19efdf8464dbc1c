//! What the worker answers, and where the answer goes, whatever order the store brought it in.

use vstd::prelude::*;

use crate::engine::{begins_day, expiring_of, Arrival, PendingEngine};
use crate::lane::{Held, UNORDERED};
use crate::ledger::{AccountId, ApplyIndex, HoldData, PendingEffect, Transfer, TxId};
use crate::orderer::Orderer;
use crate::ports::{PendingCommand, PendingLookup, PendingNotice, PendingReply};
use crate::store::DurableStore;
use crate::worker::{
    answered_lookup, answers_at_once, begun_day, claimed, first_owed, hands_over, harvested_one,
    is_offering, offers, reserves, still_owed, stored, swept, with_failure, PendingWorker,
};

verus! {

/// An answer says how many decisions had been applied. Only an answer made stale on purpose says one less,
/// and only when its number is a multiple of what was asked for.
pub proof fn law_an_answer_says_what_had_been_applied(applied: u64, answers: u64, every: u32)
    requires
        answers < u64::MAX,
    ensures
        every == 0 ==> claimed(applied, answers, every) == applied,
        applied == 0 ==> claimed(applied, answers, every) == 0,
        claimed(applied, answers, every) == applied || claimed(applied, answers, every) + 1 == applied,
        every > 0 && applied > 0 ==> (claimed(applied, answers, every) != applied <==> (answers + 1)
            % every as int == 0),
{
}

/// A reply carries back what the request carried, and what was found.
pub proof fn law_a_reply_is_the_requests_own<S: DurableStore>(
    worker: PendingWorker<S>,
    correlation: u64,
    lane: AccountId,
    seq: u64,
    pending_ref: TxId,
    found: Option<HoldData>,
)
    ensures
        ({
            let reply = worker.reply_to(correlation, lane, seq, pending_ref, found);
            &&& reply.correlation == correlation
            &&& reply.lane == lane
            &&& reply.seq == seq
            &&& reply.pending_ref == pending_ref
            &&& reply.found == found
            &&& reply.applied <= worker.engine.spec_applied()
            &&& worker.stale_answer_every == 0 ==> reply.applied == worker.engine.spec_applied()
        }),
{
}

/// A reply is never ready before it was made, and is ready no sooner than the shortest delay and no later
/// than the longest.
pub proof fn law_a_reply_is_ready_when_its_delay_is_over<S: DurableStore>(
    worker: PendingWorker<S>,
    now: u64,
)
    requires
        worker.latency.shortest <= worker.latency.longest,
        now + worker.latency.longest <= u64::MAX,
    ensures
        now + worker.latency.shortest <= worker.ready_at(now) <= now + worker.latency.longest,
{
    crate::delay::law_a_delay_is_in_its_range(worker.latency, worker.jitter.state, 0);
}

/// Applying stops when more is unwritten than the ceiling allows, in the buffer or on its way to the store,
/// and only then.
pub proof fn law_applying_stops_above_the_ceiling<S: DurableStore>(worker: PendingWorker<S>)
    ensures
        worker.engine.log().held().buffer@.len() <= worker.buffer_ceiling
            && worker.engine.log().books().outstanding() <= worker.buffer_ceiling
            <==> !worker.over_ceiling(),
{
}

/// Every hold that has run out is offered as it is, in the order it was found.
pub proof fn law_every_void_is_offered_as_it_is(voids: Seq<Transfer>, i: int)
    requires
        0 <= i < voids.len(),
    ensures
        offers(voids).len() == voids.len(),
        offers(voids)[i] == (PendingNotice::HoldExpired { void: voids[i] }),
{
}

/// A place that is reserved holds nothing yet and holds its lane up until it is filled. Nothing of any other
/// lane moves, and no reply is waiting that was not.
pub proof fn law_a_reserved_place_waits_for_its_reply(
    was: Orderer<PendingReply>,
    now: Orderer<PendingReply>,
    lane: AccountId,
    seq: u64,
    other: AccountId,
    elsewhere: u64,
)
    requires
        reserves(was, now, lane, seq),
        other != lane,
    ensures
        seq != UNORDERED ==> now.lane(lane).places.contains_key(seq) && now.lane(lane).places[seq] is None
            && now.turns().contains(lane.0),
        seq == UNORDERED ==> now.lane(lane) == was.lane(lane) && now.turns() == was.turns(),
        elsewhere != seq ==> now.lane(lane).places.contains_key(elsewhere) == was.lane(
            lane,
        ).places.contains_key(elsewhere),
        elsewhere != seq && was.lane(lane).places.contains_key(elsewhere) ==> now.lane(
            lane,
        ).places[elsewhere] == was.lane(lane).places[elsewhere],
        now.lane(lane).exempt == was.lane(lane).exempt,
        now.lane(other) == was.lane(other),
        now.held() == was.held(),
{
    if seq != UNORDERED {
        let turns = was.turns();
        if !turns.contains(lane.0) {
            assert(turns.push(lane.0)[turns.len() as int] == lane.0);
        }
    }
}

/// A reply that is handed over without the fault fills the place of its own seq in its own lane, or waits
/// behind the lane's other replies without one. It is the reply that was made, it waited for its order
/// exactly if something was still before it, and nothing of any other lane moves.
pub proof fn law_a_reply_takes_the_place_of_its_seq(
    was: Orderer<PendingReply>,
    now: Orderer<PendingReply>,
    ready_at: u64,
    reply: PendingReply,
    other: AccountId,
    elsewhere: u64,
)
    requires
        hands_over(was, now, ready_at, reply),
        !was.violates(),
        !was.lane(reply.lane).swapped.contains_key(reply.seq),
        other != reply.lane,
        elsewhere != reply.seq,
    ensures
        reply.seq != UNORDERED ==> {
            &&& now.lane(reply.lane).places.contains_key(reply.seq)
            &&& now.lane(reply.lane).places[reply.seq] matches Some(held) && held.value == reply
                && held.ready_at == ready_at && held.blocked == (reply.seq != was.lane(reply.lane).next)
            &&& now.lane(reply.lane).exempt == was.lane(reply.lane).exempt
        },
        reply.seq == UNORDERED ==> {
            &&& now.lane(reply.lane).exempt.len() == was.lane(reply.lane).exempt.len() + 1
            &&& now.lane(reply.lane).exempt.last() == (Held { ready_at, blocked: false, value: reply })
            &&& now.lane(reply.lane).places == was.lane(reply.lane).places
        },
        now.lane(reply.lane).next == was.lane(reply.lane).next,
        now.lane(reply.lane).places.contains_key(elsewhere) == was.lane(reply.lane).places.contains_key(
            elsewhere,
        ),
        was.lane(reply.lane).places.contains_key(elsewhere) ==> now.lane(reply.lane).places[elsewhere]
            == was.lane(reply.lane).places[elsewhere],
        now.lane(other) == was.lane(other),
        now.held() == was.held() + 1,
        now.turns().contains(reply.lane.0),
{
    let turns = was.turns();
    if !turns.contains(reply.lane.0) {
        assert(turns.push(reply.lane.0)[turns.len() as int] == reply.lane.0);
    }
}

/// A lookup that is answered at once is answered in its own place, with what the request carried.
pub proof fn law_a_lookup_answered_at_once_keeps_its_place<S: DurableStore>(
    was: PendingWorker<S>,
    now_is: PendingWorker<S>,
    lookup: PendingLookup,
    now: u64,
    found: Option<HoldData>,
)
    requires
        answered_lookup(&was, &now_is, lookup, now, found),
        !was.orderer.violates(),
        !was.orderer.lane(lookup.lane).swapped.contains_key(lookup.seq),
        was.latency.shortest == 0,
        was.latency.longest == 0,
        was.stale_answer_every == 0,
    ensures
        ({
            let lane = now_is.orderer.lane(lookup.lane);
            let held = if lookup.seq == UNORDERED {
                lane.exempt.last()
            } else {
                lane.places[lookup.seq]->0
            };
            &&& lookup.seq != UNORDERED ==> lane.places.contains_key(lookup.seq)
                && lane.places[lookup.seq] is Some
            &&& held.ready_at == now
            &&& held.value.correlation == lookup.correlation
            &&& held.value.lane == lookup.lane
            &&& held.value.seq == lookup.seq
            &&& held.value.pending_ref == lookup.pending_ref
            &&& held.value.found == found
            &&& held.value.applied == was.engine.spec_applied()
        }),
        now_is.orderer.held() == was.orderer.held() + 1,
        now_is.inflight@ == was.inflight@,
{
}

/// A lookup whose record the store brought is answered in the place it was given when it was asked, with what
/// that request carried, and is no longer waited for; every other is.
pub proof fn law_a_lookup_answered_later_keeps_its_place<S: DurableStore>(
    was: PendingWorker<S>,
    now_is: PendingWorker<S>,
    now: u64,
    handle: u64,
    found: Option<HoldData>,
    other: u64,
)
    requires
        harvested_one(&was, &now_is, now, handle, found),
        !was.orderer.violates(),
        !was.orderer.lane(was.inflight@[handle].lane).swapped.contains_key(was.inflight@[handle].seq),
        was.latency.shortest == 0,
        was.latency.longest == 0,
        was.stale_answer_every == 0,
        other != handle,
    ensures
        ({
            let lookup = was.inflight@[handle];
            let lane = now_is.orderer.lane(lookup.lane);
            let held = if lookup.seq == UNORDERED {
                lane.exempt.last()
            } else {
                lane.places[lookup.seq]->0
            };
            &&& lookup.seq != UNORDERED ==> lane.places.contains_key(lookup.seq)
                && lane.places[lookup.seq] is Some
            &&& held.ready_at == now
            &&& held.value.correlation == lookup.correlation
            &&& held.value.lane == lookup.lane
            &&& held.value.seq == lookup.seq
            &&& held.value.pending_ref == lookup.pending_ref
            &&& held.value.found == found
            &&& held.value.applied == was.engine.spec_applied()
        }),
        now_is.orderer.held() == was.orderer.held() + 1,
        !now_is.inflight@.contains_key(handle),
        now_is.inflight@.contains_key(other) == was.inflight@.contains_key(other),
        was.inflight@.contains_key(other) ==> now_is.inflight@[other] == was.inflight@[other],
{
}

/// What is answered at once is what would have been reserved and then handed over: nothing that was waiting in
/// the lane is lost, and no other lane moves.
pub proof fn law_an_answer_at_once_is_a_place_and_its_reply(
    was: Orderer<PendingReply>,
    reserved: Orderer<PendingReply>,
    now: Orderer<PendingReply>,
    ready_at: u64,
    reply: PendingReply,
)
    requires
        reserves(was, reserved, reply.lane, reply.seq),
        hands_over(reserved, now, ready_at, reply),
    ensures
        answers_at_once(was, now, ready_at, reply),
{
}

/// A day is begun the same way however it is looked at: what the worker expects of it is what the engine does.
pub proof fn law_the_day_begun_is_the_day_expected<S: DurableStore>(
    worker: PendingWorker<S>,
    after: PendingEngine<S>,
    day: u64,
)
    requires
        begins_day(worker.engine, after, day, worker.lifetime_days),
    ensures
        after.calendar() == begun_day(&worker, day),
{
}

/// Voids are offered only when a day has run out, when they are wanted, and when everything offered before has
/// been handed over. Otherwise a sweep begins the day and hands days back, and offers nothing.
pub proof fn law_voids_are_offered_only_when_they_are_wanted<S: DurableStore>(
    was: PendingWorker<S>,
    after: PendingWorker<S>,
    day: u64,
    wants_expiry: bool,
    now: u64,
    opened: PendingEngine<S>,
    freed: PendingEngine<S>,
)
    requires
        swept(&was, &after, day, wants_expiry, now, opened, freed),
    ensures
        is_offering(&was, day, wants_expiry) <==> wants_expiry && was.owed@.len() == 0 && expiring_of(
            opened.calendar(),
        ) is Some,
        !wants_expiry || was.owed@.len() > 0 || expiring_of(opened.calendar()) is None ==> after.engine
            == freed,
        opened.calendar().lifetime_days == was.lifetime_days,
{
    law_the_day_begun_is_the_day_expected(was, opened, day);
}

/// A void that is not wanted always has room; a fence needs room for its reply, a lookup for its reply and a
/// number; a decision what the engine needs of it.
pub proof fn law_a_command_needs_room_for_what_it_leaves<S: DurableStore>(
    worker: PendingWorker<S>,
    command: PendingCommand,
)
    ensures
        command is ExpiryDeclined ==> worker.has_room_for(command),
        command matches PendingCommand::Fence(fence) ==> (worker.has_room_for(command) <==> fence.seq
            < u64::MAX && worker.orderer.held() < usize::MAX),
        command matches PendingCommand::Lookup(lookup) ==> (worker.has_room_for(command) <==> lookup.seq
            < u64::MAX && worker.orderer.held() < usize::MAX && worker.handles < u64::MAX),
        command matches PendingCommand::Apply { effect, at } ==> (worker.has_room_for(command)
            <==> worker.engine.can_take(effect, at, Arrival::First)),
{
}

/// A hold the index has no room for is told of, once, behind everything that was owed, and leaves no hold. Any
/// other decision owes nothing for it.
pub proof fn law_a_hold_that_has_no_room_is_told_of<S: DurableStore>(
    was: PendingWorker<S>,
    after: PendingWorker<S>,
    effect: PendingEffect,
    at: ApplyIndex,
)
    requires
        stored(&was, &after, effect, at),
        was.engine.spec_overflowed() < u64::MAX,
    ensures
        effect is Create && was.engine.table().moves_for(effect->Create_tx_id) is None ==> {
            &&& after.owed@.len() == was.owed@.len() + 1
            &&& after.owed@.last() == (PendingNotice::HoldNotStored { hold: effect->Create_tx_id })
            &&& after.owed@.drop_last() == was.owed@
            &&& after.engine.spec_overflowed() == was.engine.spec_overflowed() + 1
        },
        !(effect is Create) || was.engine.table().moves_for(effect->Create_tx_id) is Some ==> after.owed@
            == was.owed@ && after.engine.spec_overflowed() == was.engine.spec_overflowed(),
{
    if after.owed@ != was.owed@ {
        assert(after.owed@.drop_last() =~= was.owed@);
    }
}

/// Notices are handed over in the order they came to be owed, each once, and a store that failed is told of behind
/// them.
pub proof fn law_notices_are_handed_over_in_order(owed: Seq<PendingNotice>, failed: bool, i: int)
    ensures
        owed.len() == 0 ==> first_owed(owed) is None && still_owed(owed).len() == 0,
        owed.len() > 0 ==> first_owed(owed) == Some(owed[0]) && still_owed(owed).len() == owed.len() - 1,
        0 < i < owed.len() ==> still_owed(owed)[i - 1] == owed[i],
        !failed ==> with_failure(owed, failed) == owed,
        failed ==> with_failure(owed, failed).len() == owed.len() + 1 && with_failure(owed, failed).last()
            == PendingNotice::StoreFailed,
        0 <= i < owed.len() ==> with_failure(owed, failed)[i] == owed[i],
{
}

} // verus!
