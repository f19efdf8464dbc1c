//! What the calendar comes to: where the sweep of expired days begins, how far it is behind, what it offers,
//! and whose blocks go back to the store.

use vstd::prelude::*;

use crate::address::{RecordAddr, SEGMENTS};
use crate::engine::{
    alive_voids, behind_of, days_behind_of, days_of_slack_of, expiring_of, freed_count, freed_owed,
    freed_through, has_a_segment, is_alive, is_expired_void, oldest_of, proposes, still_alive, stops_at, told,
    unfinished, voids_of, walks_block, Calendar, PendingEngine,
};
use crate::filling::BlockRange;
use crate::index::HoldTable;
use crate::ledger::{Transfer, TransferFlags, TxId};
use crate::owed::Owed;
use crate::record_log::RecordLog;
use crate::store::DurableStore;
use crate::tiers::Placed;

verus! {

/// The day has run its lifetime out, it is the most recent one in its segment, and the index still has
/// entries there: somebody left it unfinished.
pub open spec fn left_unfinished(table: HoldTable, today: u64, lifetime_days: u64, day: u64) -> bool {
    &&& day <= today < day + SEGMENTS
    &&& day + lifetime_days <= today
    &&& table.spec_live_in(day as int % 63) > 0
}

proof fn lemma_unfinished(table: HoldTable, today: u64, lifetime_days: u64, segment: int, day: u64)
    requires
        0 <= segment < 63,
    ensures
        unfinished(table, today, lifetime_days, segment) == Some(day) <==> left_unfinished(
            table,
            today,
            lifetime_days,
            day,
        ) && day as int % 63 == segment,
{
    let t = today as int % 63;
    let back = (t + 63 - segment) % 63;
    assert(back == if t >= segment {
        t - segment
    } else {
        t + 63 - segment
    });
    if back <= today {
        assert((today - back) % 63 == segment);
    }
    if day <= today < day + 63 && day as int % 63 == segment {
        assert(today - day == back);
    }
}

proof fn lemma_oldest(table: HoldTable, today: u64, lifetime_days: u64, n: nat)
    requires
        n <= 63,
    ensures
        forall|day: u64| #[trigger]
            left_unfinished(table, today, lifetime_days, day) && day as int % 63 < n ==> oldest_of(
                table,
                today,
                lifetime_days,
                n,
            ) <= day,
        left_unfinished(table, today, lifetime_days, oldest_of(table, today, lifetime_days, n))
            || oldest_of(table, today, lifetime_days, n) == if today >= lifetime_days {
            today - lifetime_days
        } else {
            0
        },
        today >= lifetime_days ==> oldest_of(table, today, lifetime_days, n) <= today - lifetime_days,
    decreases n,
{
    if n > 0 {
        let k = (n - 1) as nat;
        lemma_oldest(table, today, lifetime_days, k);
        assert forall|day: u64| #[trigger]
            left_unfinished(table, today, lifetime_days, day) && day as int % 63 < n implies oldest_of(
            table,
            today,
            lifetime_days,
            n,
        ) <= day by {
            if day as int % 63 == k {
                lemma_unfinished(table, today, lifetime_days, k as int, day);
            }
        }
        match unfinished(table, today, lifetime_days, k as int) {
            Some(day) => {
                lemma_unfinished(table, today, lifetime_days, k as int, day);
            },
            None => {},
        }
    }
}

/// The sweep resumes at the oldest unfinished day: when the engine is first told what day it is, the cursor
/// is no later than any expired day that the index still has entries in, so that none is passed over; and it
/// is such a day, or the day that has just expired. Once it is set it stays until its day is done, and
/// nothing else of the calendar changes but the lifetime.
pub proof fn law_the_sweep_resumes_at_the_oldest_unfinished_day(
    calendar: Calendar,
    table: HoldTable,
    today: u64,
    lifetime_days: u64,
)
    ensures
        ({
            let begun = told(calendar, table, today, lifetime_days);
            &&& begun.sweep.day is Some
            &&& calendar.sweep.day is Some ==> begun.sweep.day == calendar.sweep.day
            &&& calendar.sweep.day is None ==> {
                let cursor = begun.sweep.day.unwrap();
                &&& forall|day: u64| #[trigger]
                    left_unfinished(table, today, lifetime_days, day) ==> cursor <= day
                &&& left_unfinished(table, today, lifetime_days, cursor) || cursor == if today
                    >= lifetime_days {
                    today - lifetime_days
                } else {
                    0
                }
            }
            &&& begun.lifetime_days == lifetime_days
            &&& begun.today == calendar.today
            &&& begun.sweep.at_block == calendar.sweep.at_block
            &&& begun.swept_blocks == calendar.swept_blocks
            &&& begun.outstanding == calendar.outstanding
            &&& begun.drained == calendar.drained
        }),
{
    lemma_oldest(table, today, lifetime_days, 63);
    if calendar.sweep.day is None {
        assert forall|day: u64| #[trigger] left_unfinished(table, today, lifetime_days, day) implies oldest_of(
            table,
            today,
            lifetime_days,
            63,
        ) <= day by {
            assert(day as int % 63 < 63);
        }
    }
}

/// A day waits to be emptied exactly when it is the cursor's or a later one and its lifetime is over. They
/// are counted, the first of them is the one being emptied, and where there is none nothing is.
pub proof fn law_the_days_behind_are_those_whose_lifetime_is_over(calendar: Calendar)
    requires
        calendar.sweep.day is Some,
    ensures
        ({
            let cursor = calendar.sweep.day.unwrap();
            let behind = days_behind_of(calendar);
            &&& behind > 0 <==> cursor + calendar.lifetime_days <= calendar.today
            &&& behind < u64::MAX ==> forall|day: int|
                #![trigger day + calendar.lifetime_days]
                cursor <= day ==> (day + calendar.lifetime_days <= calendar.today <==> day < cursor
                    + behind)
            &&& expiring_of(calendar) is Some <==> behind > 0
            &&& expiring_of(calendar) matches Some(segment) ==> segment == cursor as int % 63
        }),
{
}

/// Before the engine has been told what day it is, nothing is behind and nothing is being emptied.
pub proof fn law_nothing_is_behind_before_the_first_day(calendar: Calendar)
    requires
        calendar.sweep.day is None,
    ensures
        behind_of(calendar) is None,
        days_behind_of(calendar) == 0,
        expiring_of(calendar) is None,
{
}

/// The slack is how many days the calendar can still move on by: a day that many ahead can be opened, and
/// one further ahead cannot. A day that cannot would share its segment with a day not finished.
pub proof fn law_the_slack_is_the_days_that_can_still_be_opened(calendar: Calendar, ahead: u64)
    requires
        calendar.sweep.day is Some,
        calendar.sweep.day.unwrap() <= calendar.today,
        0 < ahead <= u64::MAX - calendar.today,
    ensures
        has_a_segment(calendar.sweep, (calendar.today + ahead) as u64) <==> ahead <= days_of_slack_of(
            calendar,
        ),
        !has_a_segment(calendar.sweep, (calendar.today + ahead) as u64) ==> exists|day: int|
            #![trigger day % 63]
            calendar.sweep.day.unwrap() <= day < calendar.today + ahead && day % 63 == (calendar.today
                + ahead) % 63,
{
    let to = calendar.today + ahead;
    if !has_a_segment(calendar.sweep, to as u64) {
        let day = to - 63;
        assert(day % 63 == to % 63);
    }
}

/// The blocks of every day together.
pub open spec fn blocks_together(days: Seq<BlockRange>) -> int
    decreases days.len(),
{
    if days.len() == 0 {
        0
    } else {
        blocks_together(days.drop_last()) + days.last().blocks
    }
}

proof fn lemma_together(days: Seq<BlockRange>)
    ensures
        blocks_together(days) >= 0,
        forall|i: int| 0 <= i < days.len() ==> (#[trigger] days[i]).blocks <= blocks_together(days),
    decreases days.len(),
{
    if days.len() > 0 {
        let rest = days.drop_last();
        lemma_together(rest);
        assert forall|i: int| 0 <= i < days.len() implies (#[trigger] days[i]).blocks <= blocks_together(
            days,
        ) by {
            if i < rest.len() {
                assert(rest[i] == days[i]);
            }
        }
    }
}

proof fn lemma_together_update(days: Seq<BlockRange>, at: int, range: BlockRange)
    requires
        0 <= at < days.len(),
    ensures
        blocks_together(days.update(at, range)) == blocks_together(days) - days[at].blocks + range.blocks,
    decreases days.len(),
{
    let changed = days.update(at, range);
    if at == days.len() - 1 {
        assert(changed.drop_last() =~= days.drop_last());
    } else {
        lemma_together_update(days.drop_last(), at, range);
        assert(changed.drop_last() =~= days.drop_last().update(at, range));
    }
}

proof fn lemma_freed(days: Seq<BlockRange>, table: HoldTable, open: u8, n: nat)
    requires
        days.len() == 64,
        n <= 63,
        blocks_together(days) <= u64::MAX,
    ensures
        freed_count(days, table, open, n) + blocks_together(freed_through(days, table, open, n as int))
            == blocks_together(days),
    decreases n,
{
    lemma_together(days);
    if n == 0 {
        assert(freed_through(days, table, open, 0) =~= days);
    } else {
        let k = (n - 1) as nat;
        lemma_freed(days, table, open, k);
        let before = freed_through(days, table, open, k as int);
        let after = freed_through(days, table, open, n as int);
        lemma_together(before);
        lemma_together(after);
        if k != open && table.spec_live_in(k as int) == 0 {
            let empty = BlockRange { first: 0, blocks: 0 };
            lemma_together_update(before, k as int, empty);
            assert(after =~= before.update(k as int, empty));
            assert(before[k as int] == days[k as int]);
        } else {
            assert(after =~= before);
        }
    }
}

/// A segment's blocks go back to the store exactly when the segment is not the one being written and the
/// index has no entry in it: such a segment owns none afterwards, every other owns what it owned, and the
/// answer is how many fewer blocks there are in all.
pub proof fn law_what_nothing_points_into_is_handed_back(
    days: Seq<BlockRange>,
    table: HoldTable,
    open: u8,
)
    requires
        days.len() == 64,
    ensures
        ({
            let after = freed_through(days, table, open, 63);
            &&& after.len() == 64
            &&& forall|segment: int|
                0 <= segment < 63 && segment != open && table.spec_live_in(segment) == 0 ==> (
                #[trigger] after[segment]).blocks == 0
            &&& forall|segment: int|
                0 <= segment < 63 && (segment == open || table.spec_live_in(segment) > 0)
                    ==> #[trigger] after[segment] == days[segment]
            &&& blocks_together(days) <= u64::MAX ==> freed_count(days, table, open, 63) == blocks_together(
                days,
            ) - blocks_together(after)
        }),
{
    if blocks_together(days) <= u64::MAX {
        lemma_freed(days, table, open, 63);
    }
}

proof fn lemma_freed_owed(days: Seq<BlockRange>, table: HoldTable, open: u8, n: nat, segment: u8)
    requires
        n <= 63,
    ensures
        forall|i: int|
            0 <= i < freed_owed(days, table, open, n).len() ==> ((#[trigger] freed_owed(
                days,
                table,
                open,
                n,
            )[i]) matches Owed::Free(one) && one < n),
        freed_owed(days, table, open, n).contains(Owed::Free(segment)) <==> segment < n && segment != open
            && table.spec_live_in(segment as int) == 0 && days[segment as int].blocks > 0,
        freed_owed(days, table, open, n).no_duplicates(),
    decreases n,
{
    let all = freed_owed(days, table, open, n);
    if n > 0 {
        let k = (n - 1) as nat;
        lemma_freed_owed(days, table, open, k, segment);
        let rest = freed_owed(days, table, open, k);
        if rest.contains(Owed::Free(segment)) {
            let i = choose|i: int| 0 <= i < rest.len() && rest[i] == Owed::Free(segment);
            assert(all[i] == Owed::Free(segment));
        }
        if all.contains(Owed::Free(segment)) {
            let i = choose|i: int| 0 <= i < all.len() && all[i] == Owed::Free(segment);
            if i < rest.len() {
                assert(rest[i] == Owed::Free(segment));
            }
        }
        if segment == k && all.len() > rest.len() {
            assert(all[rest.len() as int] == Owed::Free(segment));
        }
        assert forall|i: int| 0 <= i < all.len() implies ((#[trigger] all[i]) matches Owed::Free(one)
            && one < n) by {
            if i < rest.len() {
                assert(all[i] == rest[i]);
            }
        }
        assert forall|i: int, j: int| 0 <= i < j < all.len() implies all[i] != all[j] by {
            assert(all[i] == rest[i]);
            if j < rest.len() {
                assert(all[j] == rest[j]);
            }
        }
    }
}

/// The store is owed the removal of every object whose segment was emptied, each once, and of no other.
pub proof fn law_an_emptied_segment_is_removed_once(
    days: Seq<BlockRange>,
    table: HoldTable,
    open: u8,
    segment: u8,
)
    ensures
        ({
            let owed = freed_owed(days, table, open, 63);
            &&& owed.contains(Owed::Free(segment)) <==> segment < 63 && segment != open
                && table.spec_live_in(segment as int) == 0 && days[segment as int].blocks > 0
            &&& owed.no_duplicates()
            &&& forall|i: int| 0 <= i < owed.len() ==> (#[trigger] owed[i]) is Free
        }),
{
    lemma_freed_owed(days, table, open, 63, segment);
}

/// Every void offered releases a hold that is there and whose record is in the segment being emptied: between
/// that hold's own parties, on its own ledger, for no amount of its own, as a void.
pub proof fn law_a_void_offered_is_its_holds_own<S: DurableStore>(
    engine: PendingEngine<S>,
    void: Transfer,
    segment: u8,
)
    requires
        is_expired_void(engine, void, segment),
    ensures
        engine.holds().contains_key(void.pending_ref),
        engine.places()[void.pending_ref].segment() == segment,
        ({
            let hold = engine.holds()[void.pending_ref];
            &&& void.debit_account == hold.debit_account
            &&& void.credit_account == hold.credit_account
            &&& void.ledger == hold.ledger
            &&& void.amount == 0
            &&& void.flags == TransferFlags::void_pending()
            &&& void.id == TxId::expiry_void_of(void.pending_ref)
        }),
{
}

/// The voids handed over are those outstanding, each at its place.
pub proof fn law_what_is_outstanding_is_handed_over(outstanding: Seq<(RecordAddr, Transfer)>)
    ensures
        voids_of(outstanding).len() == outstanding.len(),
        forall|i: int|
            0 <= i < outstanding.len() ==> #[trigger] voids_of(outstanding)[i] == outstanding[i].1,
{
}

/// A void stays outstanding exactly as long as the index points at the record it was made from, in the
/// segment being emptied: none that has not landed is lost, and none that has landed comes again.
pub proof fn law_a_void_is_outstanding_until_it_lands(
    outstanding: Seq<(RecordAddr, Transfer)>,
    table: HoldTable,
    segment: u8,
    one: (RecordAddr, Transfer),
)
    ensures
        still_alive(outstanding, table, segment).contains(one) <==> outstanding.contains(one) && is_alive(
            table,
            one.0,
            one.1.pending_ref,
        ) && one.0.segment() == segment,
    decreases outstanding.len(),
{
    if outstanding.len() > 0 {
        let rest = outstanding.drop_last();
        law_a_void_is_outstanding_until_it_lands(rest, table, segment, one);
        let some = still_alive(rest, table, segment);
        let all = still_alive(outstanding, table, segment);
        if rest.contains(one) {
            let i = choose|i: int| 0 <= i < rest.len() && rest[i] == one;
            assert(outstanding[i] == one);
        }
        if some.contains(one) {
            let i = choose|i: int| 0 <= i < some.len() && some[i] == one;
            assert(all[i] == one);
        }
        if all.contains(one) {
            let i = choose|i: int| 0 <= i < all.len() && all[i] == one;
            if i < some.len() {
                assert(some[i] == one);
            } else {
                assert(outstanding[outstanding.len() - 1] == one);
            }
        }
        if outstanding.contains(one) {
            let i = choose|i: int| 0 <= i < outstanding.len() && outstanding[i] == one;
            if i < rest.len() {
                assert(rest[i] == one);
            } else if is_alive(table, one.0, one.1.pending_ref) && one.0.segment() == segment {
                assert(all[some.len() as int] == one);
            }
        }
    }
}

/// Every record on a walked block that the index points at is offered, with the key, the parties and the
/// ledger of its hold; and nothing else is.
pub proof fn law_a_walk_offers_every_hold_it_finds(
    records: Seq<Placed>,
    table: HoldTable,
    addr: RecordAddr,
    void: Transfer,
)
    ensures
        alive_voids(records, table).contains((addr, void)) ==> exists|i: int|
            0 <= i < records.len() && (#[trigger] records[i]).2 == addr && is_alive(
                table,
                addr,
                records[i].0,
            ) && void.pending_ref == records[i].0 && void.debit_account == records[i].1.debit_account
                && void.credit_account == records[i].1.credit_account && void.ledger
                == records[i].1.ledger && void.amount == 0,
        forall|i: int|
            0 <= i < records.len() && is_alive(table, (#[trigger] records[i]).2, records[i].0)
                ==> exists|n: int|
                0 <= n < alive_voids(records, table).len() && (#[trigger] alive_voids(records, table)[n]).0
                    == records[i].2 && alive_voids(records, table)[n].1.pending_ref == records[i].0,
        alive_voids(records, table).len() <= records.len(),
    decreases records.len(),
{
    if records.len() > 0 {
        let rest = records.drop_last();
        law_a_walk_offers_every_hold_it_finds(rest, table, addr, void);
        let some = alive_voids(rest, table);
        let all = alive_voids(records, table);
        if all.contains((addr, void)) {
            let n = choose|n: int| 0 <= n < all.len() && all[n] == (addr, void);
            if n < some.len() {
                assert(some[n] == (addr, void));
                let i = choose|i: int|
                    0 <= i < rest.len() && (#[trigger] rest[i]).2 == addr && is_alive(
                        table,
                        addr,
                        rest[i].0,
                    ) && void.pending_ref == rest[i].0 && void.debit_account == rest[i].1.debit_account
                        && void.credit_account == rest[i].1.credit_account && void.ledger
                        == rest[i].1.ledger && void.amount == 0;
                assert(records[i] == rest[i]);
            } else {
                assert(records[records.len() - 1].2 == addr);
            }
        }
        assert forall|i: int|
            0 <= i < records.len() && is_alive(table, (#[trigger] records[i]).2, records[i].0) implies exists|
            n: int,
        |
            0 <= n < all.len() && (#[trigger] all[n]).0 == records[i].2 && all[n].1.pending_ref
                == records[i].0 by {
            if i < rest.len() {
                assert(rest[i] == records[i]);
                let n = choose|n: int|
                    0 <= n < some.len() && (#[trigger] some[n]).0 == rest[i].2 && some[n].1.pending_ref
                        == rest[i].0;
                assert(all[n] == some[n]);
            } else {
                assert(all[some.len() as int].0 == records[i].2);
            }
        }
    }
}

/// Expired days are finished in order, and none early: proposing moves the cursor by one day, from a day that
/// the index has nothing left in, and leaves it where it is otherwise. While a void that was offered has not
/// landed, it is what is offered, and nothing more is walked.
pub proof fn law_a_day_is_finished_before_the_next_is_begun<S: DurableStore>(
    was: PendingEngine<S>,
    after: PendingEngine<S>,
    blocks: usize,
    now: u64,
)
    requires
        proposes(was, after, blocks, now),
        was.calendar().sweep.day is Some,
        was.calendar().sweep.day.unwrap() < u64::MAX,
    ensures
        after.calendar().sweep.day is Some,
        after.calendar().today == was.calendar().today,
        after.calendar().lifetime_days == was.calendar().lifetime_days,
        ({
            let cursor = was.calendar().sweep.day.unwrap();
            let expired = cursor + was.calendar().lifetime_days <= was.calendar().today;
            let left = was.table().spec_live_in(cursor as int % 63);
            &&& after.calendar().sweep.day == Some(
                if expired && left == 0 {
                    (cursor + 1) as u64
                } else {
                    cursor
                },
            )
            &&& expired && left == 0 ==> after.calendar().sweep.at_block == 0
            &&& !expired ==> after.calendar() == was.calendar() && after.log() == was.log()
            &&& expired && left > 0 ==> forall|i: int|
                0 <= i < was.calendar().outstanding.len() && is_alive(
                    was.table(),
                    (#[trigger] was.calendar().outstanding[i]).0,
                    was.calendar().outstanding[i].1.pending_ref,
                ) && was.calendar().outstanding[i].0.segment() == cursor as int % 63
                    ==> after.calendar().outstanding.contains(was.calendar().outstanding[i])
                    && after.log() == was.log() && after.calendar().sweep == was.calendar().sweep
        }),
{
    let cursor = was.calendar().sweep.day.unwrap();
    let outstanding = was.calendar().outstanding;
    let segment = (cursor as int % 63) as u8;
    assert forall|i: int|
        0 <= i < outstanding.len() && is_alive(
            was.table(),
            (#[trigger] outstanding[i]).0,
            outstanding[i].1.pending_ref,
        ) && outstanding[i].0.segment() == segment implies still_alive(
        outstanding,
        was.table(),
        segment,
    ).contains(outstanding[i]) by {
        assert(outstanding.contains(outstanding[i]));
        law_a_void_is_outstanding_until_it_lands(outstanding, was.table(), segment, outstanding[i]);
    }
}

/// A walk goes over an expiring day's blocks one after the other. A block that memory keeps is read there and
/// costs nothing; any other is asked for, and passed only if the store takes the read.
pub proof fn law_a_walk_asks_for_what_memory_does_not_keep<S: DurableStore>(
    was: RecordLog<S>,
    after: RecordLog<S>,
    segment: u8,
    at: u64,
    now: u64,
)
    requires
        walks_block(was, after, segment, at, now),
        was.days()[segment as int].first + was.days()[segment as int].blocks <= u64::MAX,
    ensures
        at < was.days()[segment as int].blocks,
        ({
            let block = (was.days()[segment as int].first + at) as u64;
            let kept = was.held().oldest_resident <= block && block < was.held().next_block;
            &&& kept ==> after == was
            &&& !kept ==> was.asks_to_sweep(&after, segment, block, true, now)
        }),
{
}

/// A walk stops where its round is over, or where the store takes no more, and goes on from there; where the day
/// has no more blocks it begins again from the first.
pub proof fn law_a_walk_goes_on_where_it_stopped<S: DurableStore>(
    was: RecordLog<S>,
    after: RecordLog<S>,
    segment: u8,
    at: u64,
    enough: bool,
    now: u64,
    next: u64,
)
    requires
        stops_at(was, after, segment, at, enough, now, next),
    ensures
        enough ==> next == at && after == was,
        !enough && at >= was.days()[segment as int].blocks ==> next == 0 && after == was,
        !enough && at < was.days()[segment as int].blocks ==> next == at,
        next == at || next == 0,
{
}

} // verus!
