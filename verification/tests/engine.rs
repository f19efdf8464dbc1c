use std::collections::BTreeMap;

use ledger_pending::address::SEGMENTS;
use ledger_pending::block::RECORDS_PER_BLOCK;
use ledger_pending::budget::BudgetState;
use ledger_pending::engine::{PendingEngine, Started};
use ledger_pending::ledger::{
    AccountId, Amount, ApplyIndex, BudgetGroup, HoldData, PendingEffect, Transfer, TransferFlags,
    TransferKind, TxId,
};
use ledger_pending::memory_store::MemoryStore;

type Engine = PendingEngine<MemoryStore>;

/// One day of promised retention plus one of grace.
const LIFETIME: u64 = 2;

fn create_in(tx_id: TxId, amount: Amount, budget: BudgetGroup) -> PendingEffect {
    PendingEffect::Create {
        tx_id,
        debit_account: AccountId(1),
        credit_account: AccountId(2),
        amount,
        ledger: 1,
        budget,
    }
}

fn create(tx_id: TxId, amount: Amount) -> PendingEffect {
    create_in(tx_id, amount, BudgetGroup::absent())
}

fn reduce(pending_ref: TxId, amount: Amount, remaining: Amount) -> PendingEffect {
    PendingEffect::Reduce {
        pending_ref,
        debit_account: AccountId(1),
        credit_account: AccountId(2),
        amount,
        remaining,
        ledger: 1,
        budget: BudgetGroup::absent(),
    }
}

fn resolve(pending_ref: TxId, released: Amount) -> PendingEffect {
    PendingEffect::Remove {
        pending_ref,
        budget: BudgetGroup::absent(),
        released,
    }
}

/// Applies a decision at the next position, and carries on whatever is then over the window.
fn stored(engine: &mut Engine, effect: PendingEffect) {
    let at = ApplyIndex(engine.applied() + 1);
    engine.write(effect, at).expect("the index took the hold");
    engine.drain(usize::MAX, 0);
    engine.collect_writes(0);
}

#[test]
fn a_partial_resolution_appends_a_version_rather_than_rewriting_one() {
    let mut engine = Engine::default();
    stored(&mut engine, create(TxId(9), 100));
    let after_create = engine.records().appended();

    stored(&mut engine, reduce(TxId(9), 100, 40));
    assert_eq!(
        engine.records().appended(),
        after_create + 1,
        "the reduction did not append a record"
    );
    assert_eq!(engine.lookup(TxId(9)).map(|hold| hold.remaining), Some(40));

    stored(&mut engine, reduce(TxId(9), 100, 10));
    assert_eq!(engine.records().appended(), after_create + 2);
    assert_eq!(engine.lookup(TxId(9)).map(|hold| hold.remaining), Some(10));

    stored(&mut engine, resolve(TxId(9), 10));
    assert!(
        engine.lookup(TxId(9)).is_none(),
        "a removed hold is gone from the index"
    );
    assert_eq!(
        engine.records().appended(),
        after_create + 2,
        "a removal writes nothing; the records wait for their segment to expire"
    );
}

#[test]
fn a_group_survives_its_records_spilling_into_later_blocks() {
    let group = BudgetGroup(77);
    let mut engine = Engine::default();
    let members = RECORDS_PER_BLOCK + 3;
    for member in 0..members {
        stored(&mut engine, create_in(TxId(member as u128 + 1), 10, group));
    }
    let hold = engine.lookup(TxId(1)).expect("the first member");
    assert_eq!(hold.budget_members, members as u32);
    assert_eq!(hold.budget_remaining, members as Amount * 10);

    stored(
        &mut engine,
        PendingEffect::Remove {
            pending_ref: TxId(1),
            budget: group,
            released: 10,
        },
    );
    let last = engine
        .lookup(TxId(members as u128))
        .expect("the last member");
    assert_eq!(last.budget_remaining, members as Amount * 10 - 10);
    assert_eq!(last.budget_members, members as u32 - 1);
}

#[test]
fn a_hold_the_index_cannot_take_is_named_back_to_the_caller() {
    let mut engine = PendingEngine::sized(8, 64, 64, MemoryStore::default());
    let mut refused = None;
    for index in 0..256u128 {
        if let Err(not_stored) = engine.write(
            create(TxId(index + 1), 10),
            ApplyIndex(index as u64 + 1),
        ) {
            refused = Some(not_stored.hold);
            break;
        }
    }
    let refused = refused.expect("an index of eight slots cannot take 256 holds");
    // The hold it names is the one that was lost, which is what a diagnostic has to point at.
    assert!(engine.lookup(refused).is_none());
    assert_eq!(engine.traffic().overflowed, 1);
}

#[test]
fn applying_a_decision_never_reads_the_store() {
    let mut engine = Engine::with_windows(1, 1);
    let cold = TxId(1);
    stored(&mut engine, create(cold, 500));
    let hold_amount = engine.lookup(cold).expect("created").amount;

    // Push it out of the buffer and into the store, then forget what that cost.
    for index in 0..RECORDS_PER_BLOCK * 3 {
        stored(&mut engine, create(TxId(1_000 + index as u128), 10));
    }
    let before = engine.traffic().apply_store_reads;

    stored(&mut engine, reduce(cold, hold_amount, 300));
    stored(&mut engine, resolve(cold, 300));
    assert_eq!(
        engine.traffic().apply_store_reads,
        before,
        "applying a decision about a cold hold read the store"
    );
    assert!(engine.lookup(cold).is_none(), "the hold was not resolved");
}

#[test]
fn a_decision_without_the_record_falls_back_to_reading_it() {
    let mut engine = Engine::with_windows(1, 1);
    let cold = TxId(2);
    stored(&mut engine, create(cold, 500));
    for index in 0..RECORDS_PER_BLOCK * 3 {
        stored(&mut engine, create(TxId(2_000 + index as u128), 10));
    }
    let before = engine.traffic().apply_store_reads;

    // No original size supplied, which is what sends the engine to the record it already has.
    stored(&mut engine, reduce(cold, 0, 100));
    assert!(
        engine.traffic().apply_store_reads > before,
        "the fallback did not read the record it needed"
    );
    assert_eq!(engine.lookup(cold).map(|hold| hold.remaining), Some(100));
}

#[test]
fn a_written_record_is_still_answered_from_memory_until_residency_ends() {
    // One block unwritten, two blocks written and kept.
    let mut engine = Engine::with_windows(1, 2);
    let survivor = TxId(7);
    stored(&mut engine, create(survivor, 500));
    for index in 0..RECORDS_PER_BLOCK * 2 {
        stored(&mut engine, create(TxId(1_000 + index as u128), 10));
    }

    let carried = engine.traffic().carried_on;
    assert!(
        carried > 0,
        "nothing was carried on, so the flush window never closed"
    );
    let before = engine.traffic();
    assert_eq!(engine.lookup(survivor).map(|hold| hold.amount), Some(500));
    let after = engine.traffic();
    assert_eq!(
        after.store_reads, before.store_reads,
        "a resident record cost an IO"
    );
    assert!(
        after.resident_reads > before.resident_reads,
        "it was not read from residency"
    );

    for index in 0..RECORDS_PER_BLOCK * 6 {
        stored(&mut engine, create(TxId(9_000 + index as u128), 10));
    }
    assert!(
        engine.traffic().left_memory > 0,
        "residency never dropped a block"
    );
    let before = engine.traffic();
    assert_eq!(engine.lookup(survivor).map(|hold| hold.amount), Some(500));
    assert!(
        engine.traffic().store_reads > before.store_reads,
        "a record past residency was still answered from memory"
    );
}

#[test]
fn a_hold_resolved_before_its_block_is_compacted_never_reaches_the_store() {
    // One block of window, so the second block being filled compacts the first.
    let mut engine = Engine::with_windows(1, 1);
    let holds = RECORDS_PER_BLOCK;
    for index in 0..holds {
        stored(&mut engine, create(TxId(index as u128 + 1), 10));
    }
    for index in 0..holds {
        let key = TxId(index as u128 + 1);
        stored(&mut engine, resolve(key, 10));
    }
    // One more record starts a second block, which is what puts the first one over the window.
    stored(&mut engine, create(TxId(1_000_000), 10));
    let traffic = engine.traffic();
    assert!(
        traffic.died_in_buffer >= holds as u64,
        "records were carried on that were dead"
    );
    assert_eq!(traffic.carried_on, 0, "a dead record was written to the store");
    assert_eq!(
        traffic.store_reads, 0,
        "nothing should have been read from the store yet"
    );
}

#[test]
fn a_survivor_is_carried_on_and_still_found_at_its_new_address() {
    let mut engine = Engine::with_windows(1, 1);
    let survivor = TxId(7);
    stored(&mut engine, create(survivor, 500));

    for index in 0..RECORDS_PER_BLOCK * 2 + 2 {
        stored(&mut engine, create(TxId(1_000 + index as u128), 10));
    }
    let after = engine
        .lookup(survivor)
        .expect("the survivor is still there");
    assert_eq!(after.remaining, 500, "the survivor came back changed");
    assert!(
        engine.traffic().carried_on > 0,
        "nothing was carried on at all"
    );

    stored(&mut engine, resolve(survivor, 500));
    assert!(
        engine.lookup(survivor).is_none(),
        "the survivor was not resolved"
    );
}

#[test]
fn a_superseded_version_is_dropped_without_being_tracked() {
    let mut engine = Engine::with_windows(1, 1);
    let hold = TxId(11);
    stored(&mut engine, create(hold, 100));
    let hold_amount = engine.lookup(hold).expect("created").amount;
    stored(&mut engine, reduce(hold, hold_amount, 60));

    for index in 0..RECORDS_PER_BLOCK * 2 + 2 {
        stored(&mut engine, create(TxId(2_000 + index as u128), 10));
    }
    assert_eq!(engine.lookup(hold).map(|found| found.remaining), Some(60));
    let traffic = engine.traffic();
    assert!(
        traffic.died_in_buffer > 0,
        "the superseded version was carried on as if it were alive"
    );
}

/// Pushes enough records through that everything written before is compacted into the store.
fn cool(engine: &mut Engine, from: u128) {
    for index in 0..RECORDS_PER_BLOCK * 3 {
        stored(engine, create(TxId(from + index as u128), 10));
    }
}

fn answered(started: Started) -> Option<HoldData> {
    match started {
        Started::Answered(found) => found,
        other => panic!("expected an answer, got {other:?}"),
    }
}

#[test]
fn a_buffered_hold_is_answered_without_a_fetch() {
    let mut engine = Engine::with_windows(8, 8);
    stored(&mut engine, create(TxId(3), 100));
    let found = answered(engine.begin_lookup(1, TxId(3), 0));
    assert_eq!(found.map(|hold| hold.remaining), Some(100));
    assert_eq!(engine.inflight(), 0, "a buffered hold should need no fetch");
}

#[test]
fn a_cold_hold_is_fetched_and_answered_when_it_completes() {
    let mut engine = Engine::with_windows(1, 1);
    let cold = TxId(1);
    stored(&mut engine, create(cold, 250));
    cool(&mut engine, 1_000);

    match engine.begin_lookup(7, cold, 0) {
        Started::Fetching => {}
        other => panic!("a cold hold should be fetched, got {other:?}"),
    }
    assert_eq!(engine.inflight(), 1);

    let (handle, found) = engine.harvest(0).expect("the fetch completes");
    assert_eq!(handle, 7, "the answer came back under another handle");
    assert_eq!(found.map(|hold| hold.remaining), Some(250));
    assert_eq!(engine.inflight(), 0);
    assert!(engine.harvest(0).is_none(), "nothing else was outstanding");
}

#[test]
fn a_hold_that_was_never_created_is_answered_absent() {
    let mut engine = Engine::with_windows(1, 1);
    cool(&mut engine, 1);
    assert!(answered(engine.begin_lookup(1, TxId(999_999), 0)).is_none());
    assert_eq!(engine.inflight(), 0);
}

/// A record belongs to a day only once the writeback buffer has compacted it out.
fn written_on_day_zero() -> (Engine, usize) {
    let mut engine = Engine::with_windows(1, 64);
    let holds = RECORDS_PER_BLOCK * 2 + 1;
    for id in 1..=holds {
        stored(&mut engine, create(TxId(id as u128), 10));
    }
    (engine, holds - holds % RECORDS_PER_BLOCK)
}

fn offered(engine: &mut Engine, blocks: usize) -> Vec<Transfer> {
    let mut voids = Vec::new();
    engine.propose_expiry(blocks, 0, &mut voids);
    voids
}

/// What the sequencer does with an offered void once it commits.
fn commit(engine: &mut Engine, voids: &[Transfer]) {
    for void in voids {
        stored(engine, resolve(void.pending_ref, 10));
    }
}

/// Offers and commits until the day is done, answering how many holds were released and in how many
/// rounds.
fn empty_the_day(engine: &mut Engine, blocks_per_round: usize) -> (usize, usize) {
    let mut released = 0;
    let mut rounds = 0;
    while engine.sweeping() {
        engine.reclaim();
        let voids = offered(engine, blocks_per_round);
        assert!(
            voids.len() <= blocks_per_round * RECORDS_PER_BLOCK,
            "a round offered more voids than the blocks it read could hold"
        );
        commit(engine, &voids);
        released += voids.len();
        rounds += 1;
        assert!(rounds < 100_000, "the sweep never finished");
    }
    // Once more with the cursor past the day: the round that advanced it had already reclaimed.
    engine.reclaim();
    (released, rounds)
}

#[test]
fn a_new_day_is_a_new_segment_and_records_stay_findable_across_it() {
    let mut engine = Engine::with_windows(1, 64);
    stored(&mut engine, create(TxId(1), 100));
    let first = engine.records().segment();

    assert!(engine.open_day(1, LIFETIME));
    assert_ne!(engine.records().segment(), first, "the day did not move");
    assert!(!engine.open_day(1, LIFETIME), "the same day opened twice");

    stored(&mut engine, create(TxId(2), 100));
    assert!(
        engine.lookup(TxId(1)).is_some(),
        "yesterday's hold was lost"
    );
    assert!(engine.lookup(TxId(2)).is_some(), "today's hold was lost");
}

#[test]
fn nothing_is_released_before_the_promise_and_its_grace_have_passed() {
    let (mut engine, _) = written_on_day_zero();
    for day in 1..LIFETIME {
        engine.open_day(day, LIFETIME);
        assert!(!engine.sweeping(), "day {day} thought a day had run out");
        assert!(
            offered(&mut engine, 1024).is_empty(),
            "day {day} released a hold whose lifetime had not run out"
        );
    }
}

#[test]
fn an_outlived_hold_is_offered_as_an_expiry_void_with_a_derived_id() {
    let (mut engine, written) = written_on_day_zero();
    engine.open_day(LIFETIME, LIFETIME);

    let voids = offered(&mut engine, 1024);
    assert_eq!(
        voids.len(),
        written,
        "not every survivor of the day was offered"
    );
    let void = voids[0];
    assert_eq!(void.id, TxId::expiry_void_of(void.pending_ref));
    assert_eq!(void.kind(), Ok(TransferKind::VoidExpiry));
    assert_eq!(void.debit_account, AccountId(1));
    assert_eq!(void.credit_account, AccountId(2));
    // A void releases whatever is left, so it names no amount.
    assert_eq!(void.amount, 0);
    assert_eq!(void.flags, TransferFlags::void_pending());
}

#[test]
fn a_resolved_hold_is_never_offered() {
    let (mut engine, written) = written_on_day_zero();
    stored(&mut engine, resolve(TxId(1), 10));
    engine.open_day(LIFETIME, LIFETIME);

    let voids = offered(&mut engine, 1024);
    assert_eq!(voids.len(), written - 1, "the resolved hold was offered");
    assert!(
        voids.iter().all(|void| void.pending_ref != TxId(1)),
        "the resolved hold was offered"
    );
}

#[test]
fn a_days_holds_are_released_a_bounded_number_at_a_time() {
    let (mut engine, written) = written_on_day_zero();
    engine.open_day(LIFETIME, LIFETIME);

    let blocks_per_round = 1;
    let (released, rounds) = empty_the_day(&mut engine, blocks_per_round);
    assert_eq!(released, written, "the sweep lost holds along the way");
    assert!(
        rounds > written / (blocks_per_round * RECORDS_PER_BLOCK),
        "the day came in too few rounds"
    );
}

#[test]
fn a_days_blocks_go_back_once_nothing_points_into_it() {
    let (mut engine, written) = written_on_day_zero();
    assert_eq!(engine.freed_blocks(), 0, "blocks went back too early");

    // Counted after the day has moved, because moving it seals the open block.
    engine.open_day(LIFETIME, LIFETIME);
    let blocks = engine.records().blocks().2;
    assert!(blocks > 0, "the test wrote no blocks to free");

    let (released, _) = empty_the_day(&mut engine, 1024);

    assert_eq!(released, written);
    assert_eq!(
        engine.freed_blocks(),
        blocks,
        "the day emptied and its blocks did not go back"
    );
    assert_eq!(engine.records().blocks().2, 0, "the store did not shrink");
}

#[test]
fn a_freed_day_leaves_no_slot_behind_so_the_index_needs_no_epoch() {
    let (mut engine, written) = written_on_day_zero();
    let day_zero = engine.records().segment();
    engine.open_day(LIFETIME, LIFETIME);

    let (released, _) = empty_the_day(&mut engine, 1024);
    assert_eq!(released, written);
    assert!(engine.freed_blocks() > 0, "no day was freed");

    assert_eq!(
        engine.index().live_in_segment(day_zero),
        0,
        "a slot still addresses a day whose blocks have gone back"
    );
    for id in 1..=written {
        assert!(
            engine.lookup(TxId(id as u128)).is_none(),
            "an expired hold was answered from a freed day"
        );
    }
}

#[test]
fn the_calendar_stops_before_two_live_days_share_a_segment() {
    let (mut engine, _) = written_on_day_zero();
    engine.open_day(LIFETIME, LIFETIME);

    // Nothing is ever committed, so day zero never finishes and the sweep never advances.
    let mut day = LIFETIME;
    for _ in 0..(SEGMENTS * 2) {
        day += 1;
        engine.open_day(day, LIFETIME);
        let mut voids = Vec::new();
        engine.propose_expiry(1, 0, &mut voids);
    }

    assert_eq!(
        engine.days_of_slack(),
        0,
        "the calendar did not stop at the slack it has"
    );
    assert_ne!(
        engine.records().segment(),
        engine.expiring_segment().expect("a day has run out"),
        "the day being written shares a segment with the day being emptied"
    );

    // And it releases itself: finish the days it was stuck on and the calendar moves again.
    let (_, _) = empty_the_day(&mut engine, 1024);
    assert!(engine.days_of_slack() > 0, "the calendar stayed stopped");
    let next = engine.today() + 1;
    assert!(
        engine.open_day(next, LIFETIME),
        "the day would not open once the sweep had caught up"
    );
}

#[test]
fn a_new_leader_resumes_on_the_oldest_day_the_counts_say_is_unfinished() {
    let (mut old_leader, _) = written_on_day_zero();
    old_leader.open_day(LIFETIME, LIFETIME);
    assert_eq!(old_leader.days_behind(), 1, "day zero has not run out");

    let (mut new_leader, _) = written_on_day_zero();
    let much_later = LIFETIME + 20;
    new_leader.open_day(much_later, LIFETIME);

    assert_eq!(
        new_leader.expiring_segment(),
        old_leader.expiring_segment(),
        "the new leader resumed on a different day and abandoned day zero"
    );
    assert_eq!(
        new_leader.days_behind(),
        much_later - LIFETIME + 1,
        "the new leader did not see how far behind the day it resumed on is"
    );

    let (released, _) = empty_the_day(&mut new_leader, 1024);
    assert!(released > 0, "the new leader released nothing of day zero");
}

#[test]
fn a_void_nobody_took_is_offered_again() {
    let (mut engine, written) = written_on_day_zero();
    engine.open_day(LIFETIME, LIFETIME);

    let first = offered(&mut engine, 1);
    assert!(!first.is_empty(), "the day offered nothing to begin with");

    // Twenty rounds, nothing applied. The same voids have to keep coming back.
    for round in 0..20 {
        let again = offered(&mut engine, 1);
        let ids: Vec<TxId> = again.iter().map(|void| void.id).collect();
        let expected: Vec<TxId> = first.iter().map(|void| void.id).collect();
        assert_eq!(
            ids, expected,
            "round {round} offered something other than the slice nobody took"
        );
    }
    assert!(engine.sweeping(), "the day finished with holds still in it");

    commit(&mut engine, &first);
    let (released, _) = empty_the_day(&mut engine, 1);
    assert_eq!(
        released + first.len(),
        written,
        "the day did not finish after its first slice was taken"
    );
}

#[test]
fn a_day_with_a_hold_left_is_never_finished_or_skipped() {
    let (mut engine, _) = written_on_day_zero();
    engine.open_day(LIFETIME, LIFETIME);

    // Offer and commit everything but one, then let several more days arrive.
    let voids = offered(&mut engine, 1024);
    let (keep, release) = voids.split_first().expect("voids to commit");
    commit(&mut engine, release);
    assert_eq!(engine.days_behind(), 1, "one day has run out");
    for day in LIFETIME + 1..LIFETIME + 4 {
        engine.open_day(day, LIFETIME);
        let again = offered(&mut engine, 1024);
        assert!(
            again
                .iter()
                .all(|void| void.pending_ref == keep.pending_ref),
            "a later day was worked on while an earlier one still had a hold"
        );
    }
    assert_eq!(
        engine.days_behind(),
        4,
        "the unfinished day was abandoned, or the days behind it did not pile up"
    );
    assert_eq!(
        engine.freed_blocks(),
        0,
        "blocks went back with a hold left"
    );

    commit(&mut engine, std::slice::from_ref(keep));
    empty_the_day(&mut engine, 1024);
    assert!(engine.freed_blocks() > 0, "the blocks never went back");
}

#[test]
fn a_decision_replayed_is_not_counted_again() {
    let group = BudgetGroup(5);
    let mut engine = Engine::default();
    stored(&mut engine, create_in(TxId(1), 30, group));
    stored(&mut engine, create_in(TxId(2), 70, group));
    engine
        .replay(create_in(TxId(1), 30, group), ApplyIndex(1), ApplyIndex(2))
        .expect("the index took the hold");
    let hold = engine.lookup(TxId(2)).expect("there");
    assert_eq!((hold.budget_members, hold.budget_remaining), (2, 100));
    let again = engine.lookup(TxId(1)).expect("there");
    assert_eq!(again.remaining, 30);
}

#[test]
fn a_lookup_on_its_way_is_disturbed_by_no_other_decision() {
    let mut engine = Engine::with_windows(1, 1);
    let cold = TxId(1);
    stored(&mut engine, create(cold, 250));
    cool(&mut engine, 1_000);
    assert!(matches!(
        engine.begin_lookup(7, cold, 0),
        Started::Fetching
    ));
    for id in 0..RECORDS_PER_BLOCK as u128 * 3 {
        stored(&mut engine, create(TxId(50_000 + id), 10));
    }
    stored(&mut engine, resolve(TxId(50_000), 10));
    engine.sync(0);
    engine.collect_writes(0);
    let (handle, found) = engine.harvest(0).expect("the fetch completes");
    assert_eq!(handle, 7);
    assert_eq!(found, engine.lookup(cold));
    assert_eq!(found.map(|hold| hold.remaining), Some(250));
}

/// A partial resolution that brings the hold's size gives back, on replay, a hold that no snapshot carried.
/// One without a size has nothing to give it, and one that arrives for the first time reduces nothing.
#[test]
fn a_replayed_reduction_gives_back_a_hold_that_was_not_carried() {
    let mut engine = Engine::default();
    engine
        .replay(reduce(TxId(5), 100, 40), ApplyIndex(3), ApplyIndex(2))
        .expect("there is room");
    let found = engine.lookup(TxId(5)).expect("the reduction brought the hold");
    assert_eq!((found.amount, found.remaining), (100, 40));
    assert_eq!(engine.index().len(), 1);

    engine
        .replay(reduce(TxId(6), 0, 40), ApplyIndex(4), ApplyIndex(2))
        .expect("nothing to store");
    assert!(engine.lookup(TxId(6)).is_none());

    engine
        .write(reduce(TxId(7), 100, 40), ApplyIndex(5))
        .expect("nothing to store");
    assert!(engine.lookup(TxId(7)).is_none());
}

/// Restored totals reflect a position, and what is replayed up to it neither adds to them nor takes from
/// them, a member made and released again included. Past it both count.
#[test]
fn what_restored_totals_reflect_is_not_counted_again() {
    let group = BudgetGroup(7);
    let mut engine = Engine::default();
    let mut totals = BTreeMap::new();
    totals.insert(7u128, BudgetState { members: 1, remaining: 10 });
    engine.restore(totals, ApplyIndex(5));
    let release = |key: u128| PendingEffect::Remove {
        pending_ref: TxId(key),
        budget: group,
        released: 10,
    };

    // Made and released before the snapshot, which its totals know.
    engine
        .replay(create_in(TxId(2), 10, group), ApplyIndex(3), ApplyIndex(5))
        .expect("there is room");
    engine
        .replay(release(2), ApplyIndex(4), ApplyIndex(5))
        .expect("nothing to store");
    // The member the totals are of.
    engine
        .replay(create_in(TxId(1), 10, group), ApplyIndex(5), ApplyIndex(5))
        .expect("there is room");
    let found = engine.lookup(TxId(1)).expect("the hold was replayed");
    assert_eq!(found.remaining, 10);
    assert_eq!((found.budget_members, found.budget_remaining), (1, 10));

    // Past the position both count.
    engine
        .replay(create_in(TxId(3), 10, group), ApplyIndex(6), ApplyIndex(5))
        .expect("there is room");
    let found = engine.lookup(TxId(1)).expect("still there");
    assert_eq!((found.budget_members, found.budget_remaining), (2, 20));
    engine
        .replay(release(3), ApplyIndex(7), ApplyIndex(5))
        .expect("nothing to store");
    let found = engine.lookup(TxId(1)).expect("still there");
    assert_eq!((found.budget_members, found.budget_remaining), (1, 10));
}

/// A removal applied twice takes one member out, and leaves the other's answer alone.
#[test]
fn a_removal_applied_twice_takes_one_member() {
    let group = BudgetGroup(77);
    let mut engine = Engine::default();
    let release = PendingEffect::Remove {
        pending_ref: TxId(1),
        budget: group,
        released: 10,
    };
    engine
        .write(create_in(TxId(1), 10, group), ApplyIndex(1))
        .expect("there is room");
    engine
        .write(create_in(TxId(2), 10, group), ApplyIndex(2))
        .expect("there is room");
    assert!(engine.write(release, ApplyIndex(3)).is_ok());
    assert!(engine.write(release, ApplyIndex(4)).is_ok());
    assert!(engine.lookup(TxId(1)).is_none());
    let left = engine.lookup(TxId(2)).expect("the other member stays");
    assert_eq!((left.budget_members, left.budget_remaining), (1, 10));
    assert_eq!(engine.applied(), 4);
}

/// A record that was read answers for its own key, with its group's totals, and for no other.
#[test]
fn a_record_answers_for_its_own_key() {
    let group = BudgetGroup(9);
    let mut engine = Engine::default();
    engine
        .write(create_in(TxId(1), 10, group), ApplyIndex(1))
        .expect("there is room");
    let hold = HoldData {
        debit_account: AccountId(1),
        credit_account: AccountId(2),
        amount: 10,
        remaining: 4,
        ledger: 1,
        budget: group,
        budget_members: 0,
        budget_remaining: 0,
    };
    let found = engine
        .answer_from(TxId(3), Some((TxId(3), hold)))
        .expect("the record is the key's");
    assert_eq!(found.remaining, 4);
    assert_eq!((found.budget_members, found.budget_remaining), (1, 10));
    assert!(engine.answer_from(TxId(3), Some((TxId(4), hold))).is_none());
    assert!(engine.answer_from(TxId(3), None).is_none());
}

/// A drain says whether it moved or issued anything.
#[test]
fn a_drain_says_what_it_did() {
    let mut engine = Engine::with_windows(1, 16);
    assert!(!engine.drain(usize::MAX, 0), "there was nothing to do");
    // Three full blocks and one record: two of the blocks go, and the first is closed by the second.
    for key in 1..=(RECORDS_PER_BLOCK as u128 * 3) + 1 {
        let at = ApplyIndex(key as u64);
        engine.write(create(TxId(key), 10), at).expect("there is room");
    }
    assert!(engine.drain(usize::MAX, 0));
    assert!(engine.drained_blocks() > 0);
    assert!(engine.writes_outstanding() > 0, "nothing was issued");
    assert!(!engine.drain(usize::MAX, 0));
}

#[test]
fn compaction_carries_on_the_holds_that_stand_and_drops_the_rest() {
    // One block of window: fifty holds and a second version of the first fill a block.
    let mut engine = Engine::with_windows(1, 1);
    for key in 1..RECORDS_PER_BLOCK as u128 {
        stored(&mut engine, create(TxId(key), 10));
    }
    stored(&mut engine, reduce(TxId(1), 10, 4));
    for key in 2..=20 {
        stored(&mut engine, resolve(TxId(key), 10));
    }
    assert_eq!(engine.traffic().died_in_buffer, 0);
    assert_eq!(engine.traffic().carried_on, 0);

    // One more record starts a second block. Nineteen were resolved, and one version was superseded.
    stored(&mut engine, create(TxId(1_000), 10));
    let traffic = engine.traffic();
    assert_eq!(traffic.died_in_buffer, 20);
    assert_eq!(traffic.carried_on, 31);
    assert_eq!(engine.drained_blocks(), 1);
    assert_eq!(engine.lookup(TxId(1)).map(|hold| hold.remaining), Some(4));
    assert!(engine.lookup(TxId(2)).is_none());
    assert_eq!(engine.lookup(TxId(21)).map(|hold| hold.remaining), Some(10));
}
