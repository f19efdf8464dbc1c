//! What a modelled device does to the calls that pass through it: what they cost, when they come back, which
//! of them fail, and what of a block it changes.

use vstd::prelude::*;

use crate::latency::{
    brings, drawn_by_flip, falls_on, flips_next, given_out, has_ripe, is_answered, is_first_ripe, lets_go, takes_first_answer, Completed,
    Gathering, LatencyStore, WriteView,
};
use crate::address::ObjectId;
use crate::model::Cost;
use crate::prng::stepped;
use crate::store::{Call, DurableStore, Reply, StoreFault};

verus! {

/// A device that fails every so many calls fails each of those and no other, and counts a fault for it that the
/// store below never saw. Each call is counted once.
pub proof fn law_a_device_fails_once_in_so_many(view: WriteView)
    requires
        view.calls < u64::MAX,
        view.invented.faults < u64::MAX,
    ensures
        view.fault_every == 0 ==> !view.fails_next(),
        view.fault_every > 0 ==> (view.fails_next() <==> (view.calls + 1) % view.fault_every as int == 0),
        view.called().calls == view.calls + 1,
        view.called().invented.faults == view.invented.faults + if view.fails_next() {
            1int
        } else {
            0
        },
        view.called().charge == view.charge,
        view.called().refusals == view.refusals,
        view.called().lane == view.lane,
        view.called().busy_until == view.busy_until,
        view.called().draws == view.draws,
        !view.fails_next() ==> view.called().invented == view.invented,
{
}

/// What falls on every so many falls on their multiples, and on none if there are none.
pub proof fn law_one_in_so_many_is_a_multiple(n: u64, every: u32)
    ensures
        every == 0 ==> !falls_on(n, every),
        every > 0 ==> (falls_on(n, every) <==> n as int % every as int == 0),
        every == 1 ==> falls_on(n, every),
{
}

/// A call that is charged to the thread owes its floor and its tail on top of what was owed, and nothing else
/// changes but the generator.
pub proof fn law_a_call_is_charged_what_it_costs(view: WriteView, cost: Cost)
    requires
        view.charge + cost.drawn(view.draws) <= u64::MAX,
    ensures
        view.charged(cost).charge == view.charge + cost.drawn(view.draws),
        view.charged(cost).charge >= view.charge + cost.base_nanos,
        cost.tail_nanos == 0 ==> view.charged(cost).charge == view.charge + cost.base_nanos
            && view.charged(cost).draws == view.draws,
        view.charged(cost).refusals == view.refusals,
        view.charged(cost).lane == view.lane,
        view.charged(cost).calls == view.calls,
        view.charged(cost).busy_until == view.busy_until,
        view.charged(cost).invented == view.invented,
{
}

/// A call on the modelled lane comes behind the others. It begins when it is asked for, or when the one before
/// it is done if that is later, and is done what it costs after that.
pub proof fn law_a_lane_serves_one_call_at_a_time(view: WriteView, handle: u64, cost: Cost, now: u64)
    requires
        now + cost.drawn(view.draws) <= u64::MAX,
        view.busy_until + cost.drawn(view.draws) <= u64::MAX,
    ensures
        ({
            let after = view.served(handle, cost, now);
            let takes = cost.drawn(view.draws);
            &&& after.lane.len() == view.lane.len() + 1
            &&& after.lane.drop_last() == view.lane
            &&& after.lane.last().0 == handle
            &&& after.lane.last().1 == after.busy_until
            &&& after.busy_until >= now + takes
            &&& after.busy_until >= view.busy_until + takes
            &&& after.busy_until == now + takes || after.busy_until == view.busy_until + takes
            &&& takes >= cost.base_nanos
            &&& after.charge == view.charge
            &&& after.refusals == view.refusals
            &&& after.calls == view.calls
        }),
{
    assert(view.served(handle, cost, now).lane.drop_last() =~= view.lane);
}

/// A call that is done at once goes to the store below and costs its time, unless it is one that fails: that
/// one is taken, never reaches the store below, and is answered with a fault later.
pub proof fn law_a_call_done_at_once<I: DurableStore>(
    store: LatencyStore<I>,
    call: Call,
    handle: u64,
    cost: Cost,
    now: u64,
    reply: Reply,
    after: LatencyStore<I>,
)
    requires
        store.changes_on(call, false, handle, Some(cost), now, reply, &after),
        store.writes().charge + cost.drawn(store.writes().draws) <= u64::MAX,
    ensures
        after.deadlines() == store.deadlines(),
        after.held() == store.held(),
        after.charge_owed() == store.charge_owed() + cost.drawn(store.writes().draws),
        after.lane() == store.lane(),
        store.writes().fails_next() ==> {
            &&& reply == Reply::Flag(true)
            &&& after.below() == store.below()
            &&& after.refusals().len() == store.refusals().len() + 1
            &&& after.refusals().last() == handle
            &&& after.refusals().drop_last() == store.refusals()
        },
        !store.writes().fails_next() ==> {
            &&& store.below().did(call, reply, &after.below())
            &&& after.refusals() == store.refusals()
        },
{
    if store.writes().fails_next() {
        assert(after.refusals().drop_last() =~= store.refusals());
    }
}

/// A call that is queued is refused if the lane is full, and then reaches nothing; fails if it is one that
/// fails, and then reaches nothing either; and goes to the store below otherwise, with a deadline of its own if
/// that takes it.
pub proof fn law_a_call_that_is_queued<I: DurableStore>(
    store: LatencyStore<I>,
    call: Call,
    handle: u64,
    cost: Cost,
    now: u64,
    reply: Reply,
    after: LatencyStore<I>,
)
    requires
        store.changes_on(call, true, handle, Some(cost), now, reply, &after),
        store.writes().invented.writes_refused < u64::MAX,
        now + cost.drawn(store.writes().draws) <= u64::MAX,
    ensures
        after.charge_owed() == store.charge_owed(),
        store.lane().len() >= store.writes().depth ==> {
            &&& reply == Reply::Flag(false)
            &&& after.below() == store.below()
            &&& after.lane() == store.lane()
            &&& after.refusals() == store.refusals()
            &&& after.writes().calls == store.writes().calls
            &&& after.writes().invented.writes_refused == store.writes().invented.writes_refused + 1
        },
        store.lane().len() < store.writes().depth && store.writes().fails_next() ==> {
            &&& reply == Reply::Flag(true)
            &&& after.below() == store.below()
            &&& after.lane() == store.lane()
            &&& after.refusals().len() == store.refusals().len() + 1
            &&& after.refusals().last() == handle
        },
        store.lane().len() < store.writes().depth && !store.writes().fails_next() ==> {
            &&& store.below().did(call, reply, &after.below())
            &&& after.refusals() == store.refusals()
            &&& reply == Reply::Flag(false) ==> after.lane() == store.lane()
            &&& reply == Reply::Flag(true) ==> after.lane().len() == store.lane().len() + 1
                && after.lane().last().0 == handle && after.lane().last().1 >= now + cost.base_nanos
        },
{
}

/// A call the model failed is answered with a device fault, the first that failed first, before anything the
/// store below has to say.
pub proof fn law_a_failed_call_is_answered_with_a_fault<I: DurableStore>(
    store: LatencyStore<I>,
    now: u64,
    reply: Reply,
    after: LatencyStore<I>,
)
    requires
        store.refusals().len() > 0,
        store.answers_written(now, reply, &after),
    ensures
        reply == Reply::Written(Some((store.refusals()[0], Err(StoreFault::Device)))),
        after.refusals().len() == store.refusals().len() - 1,
        after.refusals() == store.refusals().skip(1),
        after.below() == store.below(),
        after.lane() == store.lane(),
{
    assert(store.refusals().drop_first() =~= store.refusals().skip(1));
}

/// The answer a lane lets off is the first that came for the call, as it came, and it is taken from those that
/// wait and no other is.
pub proof fn law_a_lane_hands_on_the_first_answer(
    answers: Seq<(u64, Result<(), StoreFault>)>,
    handle: u64,
    reply: Reply,
    left: Seq<(u64, Result<(), StoreFault>)>,
)
    requires
        takes_first_answer(answers, handle, reply, left),
    ensures
        reply matches Reply::Written(Some((told, outcome))) && told == handle && answers.contains(
            (handle, outcome),
        ),
        left.len() == answers.len() - 1,
{
}

/// A read is refused while the queue is full, and then reaches nothing. One that is taken begins when it is
/// asked for, or when the device can take another if that is later; it is due what it costs after that; and the
/// device can take the next one a gap later.
pub proof fn law_a_read_is_due_when_the_device_has_done_it<I: DurableStore>(
    store: LatencyStore<I>,
    call: Call,
    handle: u64,
    now: u64,
    reply: Reply,
    after: LatencyStore<I>,
)
    requires
        store.takes_read(call, handle, now, reply, &after),
        store.writes().invented.reads_refused < u64::MAX,
        now + store.admission().cost.drawn(store.writes().draws) <= u64::MAX,
        store.admission().next_at + store.admission().cost.drawn(store.writes().draws) <= u64::MAX,
        now + store.admission().gap_nanos <= u64::MAX,
        store.admission().next_at + store.admission().gap_nanos <= u64::MAX,
    ensures
        store.deadlines().len() + store.held().len() >= store.depth() ==> {
            &&& reply == Reply::Flag(false)
            &&& after.below() == store.below()
            &&& after.writes().invented.reads_refused == store.writes().invented.reads_refused + 1
        },
        store.deadlines().len() + store.held().len() < store.depth() ==> store.below().did(
            call,
            reply,
            &after.below(),
        ),
        reply == Reply::Flag(false) ==> after.deadlines() == store.deadlines() && after.admission()
            == store.admission(),
        reply == Reply::Flag(true) ==> {
            let takes = store.admission().cost.drawn(store.writes().draws);
            let due = after.deadlines().last().1;
            &&& after.deadlines().len() == store.deadlines().len() + 1
            &&& after.deadlines().drop_last() == store.deadlines()
            &&& after.deadlines().last().0 == handle
            &&& due >= now + takes
            &&& due >= store.admission().next_at + takes
            &&& due == now + takes || due == store.admission().next_at + takes
            &&& after.admission().next_at == due - takes + store.admission().gap_nanos
            &&& after.admission().gap_nanos == store.admission().gap_nanos
        },
{
    if reply == Reply::Flag(true) {
        assert(after.deadlines().drop_last() =~= store.deadlines());
    }
}

/// What is let go is due, and it is the first that is. The others stay, each once; and what is handed over is
/// the block that was read, or that block with a flip if it is one that is flipped, or a fault and nothing if it
/// is one that fails.
pub proof fn law_what_is_let_go_is_due<I: DurableStore>(
    was: LatencyStore<I>,
    after: LatencyStore<I>,
    gathered: Seq<Completed>,
    now: u64,
    at: int,
    before: Seq<u8>,
    into: Seq<u8>,
    outcome: Result<u64, StoreFault>,
    other: int,
)
    requires
        is_first_ripe(gathered, now, at),
        lets_go(&was, &after, gathered, at, before, into, outcome),
        0 <= other < gathered.len(),
        other != at,
    ensures
        gathered[at].due <= now,
        other < at ==> gathered[other].due > now,
        after.held().len() == gathered.len() - 1,
        after.held().contains(gathered[other]),
        was.writes().fails_next() ==> outcome == Err::<u64, StoreFault>(StoreFault::Device) && into == before,
        !was.writes().fails_next() ==> outcome == Ok::<u64, StoreFault>(gathered[at].handle),
        !was.writes().fails_next() && !flips_next(was.flips()) ==> into == gathered[at].block@,
{
    let last = gathered.len() - 1;
    if other == last {
        assert(after.held()[at] == gathered[other]);
    } else {
        assert(after.held()[other] == gathered[other]);
    }
}

/// A block is given out as it is unless it is one that is flipped: one in so many, and none if none are. Only
/// a flip draws for it.
pub proof fn law_a_block_is_given_out_as_it_is(bytes: Seq<u8>, reads: u64, every: u32, draws: u64)
    requires
        reads < u64::MAX,
    ensures
        every == 0 ==> given_out(bytes, (reads, every), draws) == bytes,
        every > 0 && (reads + 1) % every as int != 0 ==> given_out(bytes, (reads, every), draws) == bytes
            && drawn_by_flip((reads, every), draws) == draws,
        every > 0 && (reads + 1) % every as int == 0 ==> given_out(bytes, (reads, every), draws)
            == crate::latency::flipped(bytes, draws) && drawn_by_flip((reads, every), draws) == stepped(
            stepped(draws),
        ),
{
}

/// What the model owes the thread is handed over once, and what it counted is added to what the store below
/// counted.
pub proof fn law_a_charge_is_handed_over_once<I: DurableStore>(
    store: LatencyStore<I>,
    reply: Reply,
    after: LatencyStore<I>,
)
    requires
        store.did(Call::TakeCharge, reply, &after),
    ensures
        reply == Reply::Amount(store.charge_owed()),
        after.charge_owed() == 0,
        after.below() == store.below(),
        after.deadlines() == store.deadlines(),
        after.lane() == store.lane(),
        after.refusals() == store.refusals(),
        store.below().counted() matches Some(below) ==> store.counted() == Some(
            below.merge_of(store.writes().invented),
        ),
{
}

/// A read that is done at once costs its time and goes to the store below, unless it is one that fails. What it brings
/// is given out as any block is, and a read that brings nothing flips nothing.
pub proof fn law_a_read_done_at_once<I: DurableStore>(
    store: LatencyStore<I>,
    object: ObjectId,
    offset: u64,
    had: Seq<u8>,
    reply: Reply,
    after: LatencyStore<I>,
)
    requires
        store.reads_at(object, offset, had, reply, &after),
        store.writes().charge + store.costs().0.drawn(store.writes().draws) <= u64::MAX,
        store.flips().0 < u64::MAX,
    ensures
        after.charge_owed() == store.charge_owed() + store.costs().0.drawn(store.writes().draws),
        after.deadlines() == store.deadlines(),
        after.lane() == store.lane(),
        store.writes().charged(store.costs().0).fails_next() ==> reply == Reply::Read(
            Err(StoreFault::Device),
            had,
        ) && after.below() == store.below() && after.flips() == store.flips(),
        !store.writes().fails_next() ==> exists|read: Result<(), StoreFault>, bytes: Seq<u8>| #[trigger]
            store.below().did(
                Call::ReadAt { object, offset, had },
                Reply::Read(read, bytes),
                &after.below(),
            ) && (reply matches Reply::Read(outcome, given) && outcome == read && (read is Err || !flips_next(
                store.flips(),
            ) ==> given == bytes)) && after.flips().0 == store.flips().0 + if read is Ok {
                1int
            } else {
                0
            },
{
}

/// The lane lets its first call off when it is due and the store below has answered it, and nothing before that.
pub proof fn law_a_lane_lets_off_its_first_call_when_it_is_due<I: DurableStore>(
    store: LatencyStore<I>,
    now: u64,
    reply: Reply,
    after: LatencyStore<I>,
)
    requires
        store.lets_off_the_lane(now, reply, &after),
    ensures
        store.lane().len() == 0 ==> reply == Reply::Written(None),
        store.lane().len() > 0 && store.lane()[0].1 > now ==> reply == Reply::Written(None),
        reply == Reply::Written(None) ==> after.lane() == store.lane(),
        reply matches Reply::Written(Some((handle, _))) ==> store.lane().len() > 0 && store.lane()[0].0
            == handle && store.lane()[0].1 <= now && after.lane() == store.lane().skip(1),
        store.lane().len() > 0 && store.lane()[0].1 <= now && is_answered(
            store.answered_below(),
            store.lane()[0].0,
        ) ==> reply matches Reply::Written(Some(_)),
        after.refusals() == store.refusals(),
        after.charge_owed() == store.charge_owed(),
{
    let lane = store.lane();
    if lane.len() > 0 {
        assert(lane.drop_first() =~= lane.skip(1));
    }
    let answers = choose|answers: Seq<(u64, Result<(), StoreFault>)>| #[trigger]
        crate::store::polled_out(store.below(), now, answers, after.below()) && {
            let all = store.answered_below() + answers;
            if lane.len() > 0 && lane[0].1 <= now && is_answered(all, lane[0].0) {
                &&& takes_first_answer(all, lane[0].0, reply, after.answered_below())
                &&& after.writes() == (WriteView { lane: lane.drop_first(), ..store.writes() })
            } else {
                &&& reply == Reply::Written(None)
                &&& after.answered_below() == all
                &&& after.writes() == store.writes()
            }
        };
    let had = store.answered_below();
    let all = had + answers;
    if lane.len() > 0 && is_answered(had, lane[0].0) {
        let i = choose|i: int| 0 <= i < had.len() && (#[trigger] had[i]).0 == lane[0].0;
        assert(all[i].0 == lane[0].0);
    }
}

/// A block the store below brings is kept with the deadline of the read it was asked for under, which waits no more
/// for it; the deadlines of the others are as they were.
pub proof fn law_a_block_that_comes_keeps_its_deadline<I: DurableStore>(
    was: Gathering<I>,
    now: u64,
    after: Gathering<I>,
)
    requires
        brings(was, now, after),
    ensures
        after.come.len() == was.come.len() + 1,
        after.come.drop_last() == was.come,
        was.deadlines.contains((after.come.last().0, after.come.last().1)),
        after.deadlines.len() == was.deadlines.len() - 1,
        forall|i: int| 0 <= i < after.deadlines.len() ==> was.deadlines.contains(#[trigger] after.deadlines[i]),
{
    assert(after.come.drop_last() =~= was.come);
}

/// Nothing is ripe exactly if everything held is due later.
pub proof fn law_what_is_due_is_ripe(held: Seq<Completed>, now: u64, i: int)
    requires
        0 <= i < held.len(),
    ensures
        held[i].due <= now ==> has_ripe(held, now),
        !has_ripe(held, now) ==> held[i].due > now,
        has_ripe(held, now) ==> exists|at: int| 0 <= at < held.len() && (#[trigger] held[at]).due <= now,
{
}

} // verus!
