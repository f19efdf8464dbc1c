//! What a decision writes, and what is carried on of what was written: every record that stands is kept, under
//! an address of its own, and what does not stand is left behind.

use vstd::prelude::*;

use crate::address::{RecordAddr, BLOCK_VALUES, SEGMENTS};
use crate::block::RECORDS_PER_BLOCK;
use crate::engine::{
    alive_in, alive_voids, appends, begins_day, by_index, compacts, created, does, does_create,
    does_reduce, does_remove, drains, finds, left_buffered, moved_entry, oldest_records, packing_place, reclaims, repoints,
    stays_put, swept_voids, uncounts_at, without_member, Arrival, PendingEngine,
};
use crate::filling::record_at;
use crate::index::{known_slot, matching, pointing, HoldTable};
use crate::ledger::{Amount, ApplyIndex, BudgetGroup, HoldData, PendingEffect, Transfer, TxId};
use crate::record_log::{records_of, RecordLog};
use crate::slots::{address_of, fingerprint_of, is_mask, is_marked, EMPTY};
use crate::store::DurableStore;

verus! {

/// What a decision writes can be read at once, at the place the log said it would go, and everything that could
/// be read before can be read still. Nothing goes to the store for it.
pub proof fn law_what_is_appended_can_be_read_at_once<S: DurableStore>(
    log: RecordLog<S>,
    after: RecordLog<S>,
    key: TxId,
    hold: HoldData,
    addr: RecordAddr,
)
    requires
        appends(log, after, key, hold),
        log.counts().appended < u64::MAX,
    ensures
        after.in_memory(log.held().next_append()) == Some((key, hold)),
        log.in_memory(addr) is Some ==> after.in_memory(addr) == log.in_memory(addr),
        after.disk() == log.disk(),
        after.fault() == log.fault(),
        after.counts().appended == log.counts().appended + 1,
{
}

/// A hold that is created for the first time is written, and seated if the index has room for it. If it has not,
/// nothing of it stands, and that is counted.
pub proof fn law_a_creation_is_written_and_seated<S: DurableStore>(
    was: PendingEngine<S>,
    after: PendingEngine<S>,
    key: TxId,
    hold: HoldData,
    stored: bool,
    other: TxId,
)
    requires
        does_create(was, after, key, hold, Arrival::First, stored),
        was.spec_overflowed() < u64::MAX,
        other != key,
    ensures
        stored <==> was.table().moves_for(key) is Some,
        after.log().in_memory(was.log().held().next_append()) == Some((key, hold)),
        stored ==> {
            &&& after.holds().contains_key(key)
            &&& after.holds()[key] == hold
            &&& after.places()[key] == was.log().held().next_append()
            &&& after.spec_overflowed() == was.spec_overflowed()
        },
        !stored ==> {
            &&& after.holds() == was.holds()
            &&& after.places() == was.places()
            &&& after.spec_overflowed() == was.spec_overflowed() + 1
        },
        after.holds().contains_key(other) == was.holds().contains_key(other),
        was.holds().contains_key(other) ==> after.holds()[other] == was.holds()[other],
        was.places().contains_key(other) ==> after.places()[other] == was.places()[other],
{
}

/// A hold that is written again is found at its new place, and no other hold moves.
pub proof fn law_a_rewritten_hold_is_found_at_its_new_place<S: DurableStore>(
    was: PendingEngine<S>,
    after: PendingEngine<S>,
    slot: int,
    key: TxId,
    hold: HoldData,
    addr: RecordAddr,
    other: TxId,
    elsewhere: int,
)
    requires
        repoints(was, after, slot, key, hold, addr),
        0 <= slot < was.table().words().len(),
        addr.fits(),
        other != key,
        elsewhere != slot,
    ensures
        after.holds()[key] == hold,
        after.places()[key] == addr,
        address_of(after.table().words()[slot]) == addr,
        fingerprint_of(after.table().words()[slot]) == fingerprint_of(was.table().words()[slot]),
        0 <= elsewhere < was.table().words().len() ==> after.table().words()[elsewhere]
            == was.table().words()[elsewhere],
        was.holds().contains_key(other) ==> after.holds().contains_key(other) && after.holds()[other]
            == was.holds()[other],
        after.spec_overflowed() == was.spec_overflowed(),
{
    crate::index::law_a_repointed_slot_keeps_the_rest(was.table().words()[slot], addr);
}

/// The records of the oldest block of the buffer, in the order they were written, each where it stands.
pub proof fn law_the_oldest_records_are_the_oldest_blocks<S: DurableStore>(log: RecordLog<S>, i: int)
    requires
        log.held().wf(),
        0 <= i < log.held().buffer@[0].filled,
    ensures
        oldest_records(log).len() == log.held().buffer@[0].filled,
        oldest_records(log)[i].2.is_buffered(),
        oldest_records(log)[i].2.block() == log.held().oldest,
        oldest_records(log)[i].2.index() == i,
        (oldest_records(log)[i].0, oldest_records(log)[i].1) == record_at(log.held().buffer@[0].bytes@, i),
{
    assert(log.held().buffer@[0].wf());
    crate::address::law_address_parts(63, log.held().oldest, i as u8);
}

/// What is carried on is packed one behind the other into the block being filled, and on into the next when that
/// is full. No two share a place, and none is in the buffer.
pub proof fn law_what_is_carried_on_is_packed_in_order<S: DurableStore>(
    log: RecordLog<S>,
    one: int,
    other: int,
)
    requires
        log.held().open.filled <= RECORDS_PER_BLOCK,
        0 <= one < other,
        log.held().open.filled + other < 2 * RECORDS_PER_BLOCK,
        log.held().next_block + 1 < BLOCK_VALUES,
        log.spec_segment() < SEGMENTS,
    ensures
        ({
            let first = packing_place(log, one);
            let second = packing_place(log, other);
            &&& !first.is_buffered()
            &&& first.segment() == log.spec_segment()
            &&& second.segment() == log.spec_segment()
            &&& first.index() < RECORDS_PER_BLOCK
            &&& first.fits()
            &&& (first.block() - log.held().next_block) * RECORDS_PER_BLOCK + first.index()
                == log.held().open.filled + one
            &&& (second.block() - log.held().next_block) * RECORDS_PER_BLOCK + second.index()
                == log.held().open.filled + other
            &&& first != second
        }),
{
    let a = log.held().open.filled + one;
    let b = log.held().open.filled + other;
    let block = log.held().next_block;
    let segment = log.spec_segment();
    if a < RECORDS_PER_BLOCK {
        crate::address::law_address_parts(segment, block, a as u8);
    } else {
        crate::address::law_address_parts(segment, (block + 1) as u64, (a - RECORDS_PER_BLOCK) as u8);
    }
    if b < RECORDS_PER_BLOCK {
        crate::address::law_address_parts(segment, block, b as u8);
    } else {
        crate::address::law_address_parts(segment, (block + 1) as u64, (b - RECORDS_PER_BLOCK) as u8);
    }
}

/// Moving an entry points it at the new place and touches nothing else; an entry that is not there is not moved.
pub proof fn law_a_moved_entry_points_at_its_new_place(
    words: Seq<u64>,
    mask: u64,
    key: TxId,
    from: RecordAddr,
    to: RecordAddr,
    other: int,
)
    requires
        is_mask(mask),
        words.len() == 4 * (mask + 1),
        to.fits(),
    ensures
        ({
            let after = moved_entry(words, mask, key, from, to);
            let found = pointing(words, mask, key, from);
            &&& after.len() == words.len()
            &&& found.len() == 0 ==> after == words
            &&& found.len() > 0 ==> {
                &&& 0 <= found[0] < words.len()
                &&& words[found[0]] != EMPTY
                &&& address_of(words[found[0]]) == from
                &&& address_of(after[found[0]]) == to
                &&& fingerprint_of(after[found[0]]) == fingerprint_of(words[found[0]])
                &&& is_marked(after[found[0]]) == is_marked(words[found[0]])
                &&& 0 <= other < words.len() && other != found[0] ==> after[other] == words[other]
            }
        }),
{
    let found = pointing(words, mask, key, from);
    if found.len() > 0 {
        crate::index::lemma_pointing_first(words, mask, key, from);
        crate::index::law_a_repointed_slot_keeps_the_rest(words[found[0]], to);
    }
}

/// Writing the oldest block of the buffer out carries on the records that stand and leaves the others behind:
/// each is counted once, as the one or the other; those carried on can be read where they went; and the buffer
/// goes on from the next block.
pub proof fn law_the_oldest_block_is_carried_on_or_left_behind<S: DurableStore>(
    was: PendingEngine<S>,
    after: PendingEngine<S>,
    n: int,
)
    requires
        compacts(was, after),
        was.log().held().buffer@.len() > 0,
        was.log().counts().carried_on + 64 <= u64::MAX,
        was.log().counts().died_in_buffer + 64 <= u64::MAX,
        was.log().held().buffer@[0].filled <= RECORDS_PER_BLOCK,
    ensures
        ({
            let alive = alive_in(oldest_records(was.log()), was.table());
            &&& after.log().counts().carried_on == was.log().counts().carried_on + alive.len()
            &&& (after.log().counts().carried_on - was.log().counts().carried_on) + (
            after.log().counts().died_in_buffer - was.log().counts().died_in_buffer)
                == was.log().held().buffer@[0].filled
            &&& after.log().held().buffer@.len() == was.log().held().buffer@.len() - 1
            &&& after.log().held().oldest == was.log().held().oldest + 1
            &&& 0 <= n < alive.len() ==> after.log().in_memory(packing_place(was.log(), n)) == Some(
                (alive[n].0, alive[n].1),
            )
            &&& 0 <= n < alive.len() && was.good() ==> after.places()[alive[n].0] == packing_place(
                was.log(),
                n,
            )
        }),
{
}

/// A walk over an expiring day's blocks offers every record that stands in the blocks it found in memory.
pub proof fn law_a_walk_offers_what_stands_in_every_block<S: DurableStore>(
    log: RecordLog<S>,
    table: HoldTable,
    segment: u8,
    start: u64,
    walked: nat,
    at: int,
    one: (RecordAddr, Transfer),
)
    requires
        start + walked <= u64::MAX,
        0 <= at < walked,
        ({
            let range = log.days()[segment as int];
            let block = range.first + start + at;
            &&& start + at < range.blocks
            &&& range.first + range.blocks <= u64::MAX
            &&& log.held().oldest_resident <= block < log.held().next_block
            &&& alive_voids(
                records_of(
                    log.held().resident@[block - log.held().oldest_resident],
                    segment,
                    block as u64,
                ),
                table,
            ).contains(one)
        }),
    ensures
        swept_voids(log, table, segment, start, walked).contains(one),
    decreases walked,
{
    let range = log.days()[segment as int];
    let rest = swept_voids(log, table, segment, start, (walked - 1) as nat);
    let all = swept_voids(log, table, segment, start, walked);
    if at < walked - 1 {
        law_a_walk_offers_what_stands_in_every_block(
            log,
            table,
            segment,
            start,
            (walked - 1) as nat,
            at,
            one,
        );
        let i = choose|i: int| 0 <= i < rest.len() && rest[i] == one;
        assert(all[i] == one);
    } else {
        let block = (range.first + start + at) as u64;
        let here = alive_voids(
            records_of(log.held().resident@[block - log.held().oldest_resident], segment, block),
            table,
        );
        let i = choose|i: int| 0 <= i < here.len() && here[i] == one;
        assert(all[rest.len() + i] == one);
    }
}

/// A day begins only if it is another than today and has a segment of its own; otherwise today stays, and so
/// does the block being filled. Either way the sweep knows from then on where it stands.
pub proof fn law_a_day_begins_in_a_segment_of_its_own<S: DurableStore>(
    was: PendingEngine<S>,
    after: PendingEngine<S>,
    day: u64,
    lifetime_days: u64,
)
    requires
        begins_day(was, after, day, lifetime_days),
    ensures
        after.table() == was.table(),
        after.calendar().lifetime_days == lifetime_days,
        after.calendar().sweep.day is Some,
        after.calendar().outstanding == was.calendar().outstanding,
        was.calendar().sweep.day is Some ==> after.calendar().sweep == was.calendar().sweep,
        after.calendar().today == day || after.calendar().today == was.calendar().today,
        day != was.calendar().today ==> (after.calendar().today == day <==> day
            < after.calendar().sweep.day->0 + SEGMENTS),
        after.calendar().today != day ==> after.log() == was.log(),
        after.calendar().today == day && day != was.calendar().today ==> after.log().spec_segment()
            == day % SEGMENTS,
{
}

/// A settlement that arrives for the first time and says what its hold was worth writes the hold again, as it is
/// now, and points the hold's own slot at it. One whose hold the index does not have writes the record and leaves
/// everything where it was.
pub proof fn law_a_settlement_writes_its_hold_again<S: DurableStore>(
    was: PendingEngine<S>,
    after: PendingEngine<S>,
    key: TxId,
    reduced: HoldData,
    stored: bool,
)
    requires
        does_reduce(was, after, key, reduced, Arrival::First, stored),
        by_index(was.table(), key),
        reduced.amount > 0,
    ensures
        stored,
        after.log().in_memory(was.log().held().next_append()) == Some((key, reduced)),
        known_slot(was.table().words(), was.table().mask(), key) is Some ==> after.holds()
            == was.holds().insert(key, reduced) && after.places() == was.places().insert(
            key,
            was.log().held().next_append(),
        ),
        matching(was.table().words(), was.table().mask(), key).len() == 0 ==> after.holds() == was.holds()
            && after.places() == was.places() && after.table() == was.table(),
        after.spec_overflowed() == was.spec_overflowed(),
{
}

/// A release that arrives for the first time empties its hold's own slot and no other, takes its share out of its
/// group, and writes nothing. One whose hold the index does not have changes nothing.
#[verifier::rlimit(40)]
pub proof fn law_a_release_empties_one_slot<S: DurableStore>(
    was: PendingEngine<S>,
    after: PendingEngine<S>,
    key: TxId,
    budget: BudgetGroup,
    released: Amount,
    at: ApplyIndex,
    slot: Option<int>,
)
    requires
        does_remove(was, after, key, budget, released, at, Arrival::First),
        by_index(was.table(), key),
        slot == known_slot(was.table().words(), was.table().mask(), key),
    ensures
        after.log() == was.log(),
        after.spec_overflowed() == was.spec_overflowed(),
        slot matches Some(slot) ==> {
            &&& after.table().words() == was.table().words().update(slot, EMPTY)
            &&& after.holds() == was.holds().remove(key)
            &&& after.places() == was.places().remove(key)
            &&& after.groups() == without_member(was.groups(), budget, released)
        },
        slot is None ==> after.table() == was.table() && after.holds() == was.holds() && after.places()
            == was.places() && after.groups() == was.groups(),
{
    let found = choose|found: Option<int>| #[trigger]
        finds(was.table(), was.log(), after.log(), key, Arrival::First, found) && match found {
            Some(found) => {
                &&& after.table().words() == was.table().words().update(found, EMPTY)
                &&& after.holds() == was.holds().remove(key)
                &&& after.places() == was.places().remove(key)
                &&& after.groups() == if uncounts_at(Arrival::First, at) {
                    without_member(was.groups(), budget, released)
                } else {
                    was.groups()
                }
                &&& after.spec_overflowed() == was.spec_overflowed()
            },
            None => stays_put(was, after) && after.groups() == was.groups(),
        };
    assert(found == slot);
}

/// What a decision does is what its kind does, to the hold it names, with what it says of it.
pub proof fn law_a_decision_does_what_its_kind_does<S: DurableStore>(
    was: PendingEngine<S>,
    after: PendingEngine<S>,
    effect: PendingEffect,
    at: ApplyIndex,
    arrival: Arrival,
    stored: bool,
)
    requires
        does(was, after, effect, at, arrival, stored),
    ensures
        effect matches PendingEffect::Create { tx_id, .. } ==> does_create(
            was,
            after,
            tx_id,
            created(effect),
            arrival,
            stored,
        ),
        effect matches PendingEffect::Reduce { pending_ref, .. } ==> after.groups() == was.groups()
            && does_reduce(was, after, pending_ref, created(effect), arrival, stored),
        effect matches PendingEffect::Remove { pending_ref, budget, released } ==> stored && does_remove(
            was,
            after,
            pending_ref,
            budget,
            released,
            at,
            arrival,
        ),
        arrival matches Arrival::Again(reflect) ==> (uncounts_at(arrival, at) <==> at.0 > reflect.0),
        arrival is First ==> uncounts_at(arrival, at),
{
    reveal(does);
}

/// A drain hands over what is owed, from the front, each under a handle of its own, and says that it did
/// something exactly if it moved something or handed something over.
pub proof fn law_a_drain_says_whether_it_did_anything<S: DurableStore>(
    was: RecordLog<S>,
    after: RecordLog<S>,
    now: u64,
    moved: bool,
    any: bool,
)
    requires
        drains(was, after, now, moved, any),
    ensures
        moved ==> any,
        !any ==> after.books().submitted@ == was.books().submitted@,
        after.books().submitted@.len() >= was.books().submitted@.len(),
        !moved && any ==> after.books().submitted@.len() > was.books().submitted@.len(),
        was.books().submitted@.is_prefix_of(after.books().submitted@),
{
    let (between, taken) = choose|between: RecordLog<S>, taken: nat| #[trigger]
        between.issues(now, taken, after.disk()) && between.disk() == was.disk() && between.closed_since(
            &was,
        ) && after.issued(&between, taken) && any == (moved || taken > 0);
    reveal(RecordLog::closed_since);
    assert(between.books().submitted@ == was.books().submitted@);
    if taken == 0 {
        assert(between.books().submitted@ + between.taken_over(0) =~= between.books().submitted@);
    }
}

/// Handing days back leaves the day being filled and every day that something points into as they were, empties
/// the others, and owes their removal behind everything that was owed. Nothing else moves.
pub proof fn law_days_are_handed_back_behind_what_is_owed<S: DurableStore>(
    was: PendingEngine<S>,
    after: PendingEngine<S>,
    segment: int,
)
    requires
        reclaims(was, after),
        was.log().days().len() == 64,
        0 <= segment < 63,
    ensures
        after.table() == was.table(),
        after.calendar() == was.calendar(),
        after.log().held() == was.log().held(),
        after.log().disk() == was.log().disk(),
        segment == was.log().spec_segment() || was.table().spec_live_in(segment) > 0
            ==> after.log().days()[segment] == was.log().days()[segment],
        segment != was.log().spec_segment() && was.table().spec_live_in(segment) == 0
            ==> after.log().days()[segment].blocks == 0,
        was.log().books().pending@.is_prefix_of(after.log().books().pending@),
        forall|i: int|
            was.log().books().pending@.len() <= i < after.log().books().pending@.len() ==> (
            #[trigger] after.log().books().pending@[i]) is Free,
{
    lemma_only_frees(was.log().days(), was.table(), was.log().spec_segment(), 63);
    let more = crate::engine::freed_owed(was.log().days(), was.table(), was.log().spec_segment(), 63);
    let had = was.log().books().pending@;
    assert forall|i: int| had.len() <= i < after.log().books().pending@.len() implies (
    #[trigger] after.log().books().pending@[i]) is Free by {
        assert(after.log().books().pending@[i] == more[i - had.len()]);
    }
}

proof fn lemma_only_frees(
    days: Seq<crate::filling::BlockRange>,
    table: HoldTable,
    open: u8,
    n: nat,
)
    ensures
        forall|i: int|
            0 <= i < crate::engine::freed_owed(days, table, open, n).len() ==> (
            #[trigger] crate::engine::freed_owed(days, table, open, n)[i]) is Free,
    decreases n,
{
    if n > 0 {
        lemma_only_frees(days, table, open, (n - 1) as nat);
    }
}

/// A drain writes out no more blocks than it may, leaves at least the window, and leaves no more than the window if
/// it may write enough.
pub proof fn law_a_drain_leaves_the_window(had: int, window: int, blocks: int)
    requires
        0 <= had,
        0 <= window,
        0 <= blocks,
    ensures
        had <= window ==> left_buffered(had, window, blocks) == had,
        had > window ==> left_buffered(had, window, blocks) >= window,
        had - left_buffered(had, window, blocks) <= blocks,
        left_buffered(had, window, blocks) <= had,
        left_buffered(had, window, blocks) > window ==> had <= window || had - left_buffered(
            had,
            window,
            blocks,
        ) == blocks,
{
}

} // verus!
