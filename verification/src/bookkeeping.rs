//! What the log's books say, whatever wrote them: which answer settles what, which block is owed, how far
//! what has been applied is covered, and where numbering goes on after a start.

use vstd::prelude::*;

use crate::address::{IoOwner, ObjectId, RecordAddr, BLOCK_VALUES, SEGMENTS};
use crate::block::{stamp_of, stamped, RECORDS_PER_BLOCK};
use crate::filling::{record_at, BlockRange, Filling};
use crate::journal::first_asked;
use crate::ledger::{ApplyIndex, HoldData, TxId};
use crate::owed::{Owed, Unwritten};
use crate::record_log::{
    left_with, longest, orphans_of, records_in, read_out, span_of, stored_blocks, Accounts, Record, RecordLog, Span,
};
use crate::store::{Call, DurableStore, Reply, StoreFault};
use crate::tiers::{Placed, Tiers};

verus! {

/// A handle is looked up as it was handed out: the first that was submitted under it is the one found, and
/// one that nothing was submitted under is not found.
pub proof fn law_an_answer_finds_what_was_asked(submitted: Seq<(u64, Owed)>, handle: u64)
    ensures
        match first_asked(submitted, handle) {
            Some(at) => {
                &&& 0 <= at < submitted.len()
                &&& submitted[at].0 == handle
                &&& forall|i: int| 0 <= i < at ==> (#[trigger] submitted[i]).0 != handle
            },
            None => forall|i: int| 0 <= i < submitted.len() ==> (#[trigger] submitted[i]).0 != handle,
        },
    decreases submitted.len(),
{
    if submitted.len() > 0 {
        law_an_answer_finds_what_was_asked(submitted.drop_last(), handle);
        match first_asked(submitted.drop_last(), handle) {
            Some(at) => {
                assert forall|i: int| 0 <= i < at implies (#[trigger] submitted[i]).0 != handle by {
                    assert(submitted.drop_last()[i] == submitted[i]);
                }
            },
            None => {
                assert forall|i: int| 0 <= i < submitted.len() - 1 implies (#[trigger] submitted[i]).0
                    != handle by {
                    assert(submitted.drop_last()[i] == submitted[i]);
                }
            },
        }
    }
}

/// An answer that is somebody else's is kept for them and settles nothing here.
pub proof fn law_a_strangers_answer_settles_nothing(
    accounts: Accounts,
    handle: u64,
    outcome: Result<(), StoreFault>,
)
    requires
        !IoOwner::Blocks.owns(handle),
    ensures
        ({
            let after = accounts.settled_by((handle, outcome));
            &&& after.strangers.len() == accounts.strangers.len() + 1
            &&& after.strangers.last() == (handle, outcome)
            &&& after.strangers.drop_last() == accounts.strangers
            &&& Accounts { strangers: accounts.strangers, ..after } == accounts
        }),
{
    let after = accounts.settled_by((handle, outcome));
    assert(after.strangers.drop_last() =~= accounts.strangers);
}

/// A barrier's answer makes durable what was written before it was asked for, if it went well, and nothing
/// if it did not; what was written since stays as it was either way, and no block is settled by it.
pub proof fn law_a_barrier_covers_what_came_before_it(
    accounts: Accounts,
    handle: u64,
    outcome: Result<(), StoreFault>,
    block: u64,
)
    requires
        IoOwner::Blocks.owns(handle),
        accounts.barrier == Some(handle),
        accounts.counts.store_faults < u64::MAX,
    ensures
        ({
            let after = accounts.settled_by((handle, outcome));
            &&& after.barrier is None
            &&& after.after_barrier is None
            &&& after.submitted == accounts.submitted
            &&& after.answered == accounts.answered
            &&& after.failed == accounts.failed
            &&& after.strangers == accounts.strangers
            &&& outcome is Ok ==> {
                &&& after.unsynced == accounts.after_barrier
                &&& after.covered.contains(block) <==> accounts.covered.contains(block)
                    || accounts.under.contains(block)
                &&& after.fault == accounts.fault
                &&& after.counts == accounts.counts
            }
            &&& outcome is Err ==> {
                &&& after.unsynced == accounts.unsynced
                &&& after.covered == accounts.covered
                &&& after.fault
                &&& after.counts.store_faults == accounts.counts.store_faults + 1
            }
        }),
{
}

/// A write's answer settles the write it was asked under and no other. The block counts as answered, and as
/// failed if it went badly; nothing becomes durable by it.
pub proof fn law_a_write_is_settled_by_its_own_answer(
    accounts: Accounts,
    handle: u64,
    outcome: Result<(), StoreFault>,
    at: int,
    unwritten: Unwritten,
)
    requires
        IoOwner::Blocks.owns(handle),
        accounts.barrier != Some(handle),
        0 <= at < accounts.submitted.len(),
        accounts.submitted[at] == (handle, Owed::Block(unwritten)),
        forall|i: int| 0 <= i < at ==> (#[trigger] accounts.submitted[i]).0 != handle,
        accounts.counts.store_faults < u64::MAX,
    ensures
        ({
            let after = accounts.settled_by((handle, outcome));
            &&& after.submitted == accounts.submitted.remove(at)
            &&& after.answered == accounts.answered.insert(unwritten.block)
            &&& outcome is Ok ==> after.failed == accounts.failed && after.fault == accounts.fault
                && after.counts == accounts.counts
            &&& outcome is Err ==> after.failed == accounts.failed.insert(unwritten.block) && after.fault
                && after.counts.store_faults == accounts.counts.store_faults + 1
            &&& after.covered == accounts.covered
            &&& after.unsynced == accounts.unsynced
            &&& after.barrier == accounts.barrier
            &&& after.after_barrier == accounts.after_barrier
            &&& after.strangers == accounts.strangers
        }),
{
    law_an_answer_finds_what_was_asked(accounts.submitted, handle);
    let found = first_asked(accounts.submitted, handle);
    assert(accounts.submitted[at].0 == handle);
    assert(found == Some(at)) by {
        let i = found->0;
        if i < at {
            assert(accounts.submitted[i].0 != handle);
        }
    }
}

/// An answer to nothing that was asked changes nothing.
pub proof fn law_an_answer_to_nothing_changes_nothing(
    accounts: Accounts,
    handle: u64,
    outcome: Result<(), StoreFault>,
)
    requires
        IoOwner::Blocks.owns(handle),
        accounts.barrier != Some(handle),
        forall|i: int| 0 <= i < accounts.submitted.len() ==> (#[trigger] accounts.submitted[i]).0 != handle,
    ensures
        accounts.settled_by((handle, outcome)) == accounts,
{
    law_an_answer_finds_what_was_asked(accounts.submitted, handle);
}

/// The records of a block that leaves memory are counted as having left it: full blocks, a block's worth
/// each.
pub proof fn law_what_leaves_memory_is_counted(count: u64, blocks: Seq<Filling>, gone: nat)
    requires
        gone <= blocks.len(),
        count + gone * RECORDS_PER_BLOCK <= u64::MAX,
        forall|i: int| 0 <= i < gone ==> (#[trigger] blocks[i]).filled == RECORDS_PER_BLOCK,
    ensures
        left_with(count, blocks, gone) == count + gone * RECORDS_PER_BLOCK,
    decreases gone,
{
    if gone > 0 {
        law_what_leaves_memory_is_counted(count, blocks, (gone - 1) as nat);
        assert(blocks[gone - 1].filled == RECORDS_PER_BLOCK);
    }
}

/// A block that is closed is owed to the store under its own number, in the day it was filled for; it opens
/// that day exactly if the day had none; it is kept in memory as it will be written; and it is not durable
/// until a barrier says so.
pub proof fn law_a_closed_block_is_owed_to_its_own_day<S: DurableStore>(
    log: RecordLog<S>,
    after: RecordLog<S>,
    addr: RecordAddr,
    other: int,
)
    requires
        log.closes(&after),
        log.days().len() == 64,
        log.spec_segment() < 64,
        log.held().next_block < u64::MAX,
        log.days()[log.spec_segment() as int].blocks < u64::MAX,
        log.books().barrier is Some ==> log.books().unsynced is Some,
        log.books().unsynced matches Some((first, _)) ==> first < log.held().next_block,
        addr.block() == log.held().next_block,
        0 <= other < 64,
    ensures
        ({
            let block = log.held().next_block;
            let segment = log.spec_segment();
            let owed = after.books().pending@;
            &&& owed.len() == log.books().pending@.len() + 1
            &&& owed.drop_last() == log.books().pending@
            &&& owed.last() matches Owed::Block(unwritten) && unwritten.block == block
                && unwritten.segment == segment && unwritten.opening == (
            log.days()[segment as int].blocks == 0)
            &&& after.days()[segment as int].blocks == log.days()[segment as int].blocks + 1
            &&& after.days()[segment as int].first == if log.days()[segment as int].blocks == 0 {
                block
            } else {
                log.days()[segment as int].first
            }
            &&& other != segment ==> after.days()[other] == log.days()[other]
            &&& after.held().next_block == block + 1
            &&& after.sealed()[block] == (segment, stamp_of(log.held().open.bytes@))
            &&& after.held().resident@.last().bytes@ == after.sealed()[block].1
            &&& after.held().resident@.last().filled == log.held().open.filled
            &&& !after.spec_is_durable(addr)
        }),
{
    assert(after.books().pending@.drop_last() =~= log.books().pending@);
}

/// A day that has the segment being written keeps the block being filled; any other closes it first, if
/// there is anything in it.
pub proof fn law_a_block_holds_one_day<S: DurableStore>(log: RecordLog<S>, after: RecordLog<S>, day: u64)
    requires
        log.opens_day(&after, day),
        log.spec_segment() < SEGMENTS,
    ensures
        day % SEGMENTS == log.spec_segment() ==> after.held().next_block == log.held().next_block
            && after.books().pending@ == log.books().pending@ && after.days() == log.days(),
        log.held().open.filled == 0 ==> after.held().next_block == log.held().next_block
            && after.days() == log.days(),
        day % SEGMENTS != log.spec_segment() && log.held().open.filled > 0 ==> after.held().next_block
            == log.held().next_block + 1 && after.books().pending@.len() == log.books().pending@.len() + 1,
        after.days() == log.days_once_open(day),
{
}

/// Coverage reaches as far as it may. With nothing unsynced and nothing unwritten it is all that has been
/// applied. Otherwise the first thing that is not durable began at the very next position, or at the start.
pub proof fn law_coverage_reaches_what_is_not_durable<S: DurableStore>(
    log: RecordLog<S>,
    applied: ApplyIndex,
)
    ensures
        ({
            let through = log.covered_through(applied);
            let began: Option<ApplyIndex> = if log.books().unsynced is Some {
                Some((log.books().unsynced->0).1)
            } else if log.held().open.filled > 0 {
                Some(log.held().open.began_at)
            } else if log.held().buffer@[0].filled > 0 {
                Some(log.held().buffer@[0].began_at)
            } else {
                None
            };
            &&& began is None ==> through == applied
            &&& began matches Some(at) ==> (at.0 > 0 ==> through.0 + 1 == at.0)
            &&& began matches Some(at) ==> (at.0 == 0 ==> through.0 == 0)
        }),
{
}

/// A block that was read back gives every record in it, in order, each at its own place in it, and nothing
/// that is not there.
pub proof fn law_a_block_read_back_gives_its_records(
    bytes: Seq<u8>,
    segment: u8,
    number: u64,
    through: nat,
    at: int,
)
    requires
        through <= RECORDS_PER_BLOCK,
        number < BLOCK_VALUES,
        0 <= at < through,
    ensures
        ({
            let found = records_in(bytes, segment, number, through);
            let (key, hold) = record_at(bytes, at);
            let addr = RecordAddr::new(segment, number, at as u8);
            &&& found.len() <= through
            &&& key.0 != 0 ==> found.contains((key, hold, addr))
            &&& forall|i: int|
                0 <= i < found.len() ==> {
                    &&& (#[trigger] found[i]).0.0 != 0
                    &&& found[i].2.segment() == segment
                    &&& found[i].2.block() == number
                    &&& found[i].2.index() < through
                    &&& record_at(bytes, found[i].2.index() as int) == (found[i].0, found[i].1)
                }
            &&& forall|i: int, j: int|
                0 <= i < j < found.len() ==> (#[trigger] found[i]).2.index() < (
                #[trigger] found[j]).2.index()
        }),
    decreases through,
{
    let before = (through - 1) as nat;
    let rest = records_in(bytes, segment, number, before);
    let found = records_in(bytes, segment, number, through);
    let last = RecordAddr::new(segment, number, before as u8);
    crate::address::law_address_parts(segment, number, before as u8);
    if before > 0 {
        law_a_block_read_back_gives_its_records(
            bytes,
            segment,
            number,
            before,
            if at < before {
                at
            } else {
                0
            },
        );
    }
    let (key, hold) = record_at(bytes, at);
    let addr = RecordAddr::new(segment, number, at as u8);
    if key.0 != 0 {
        if at == before {
            assert(found[found.len() - 1] == (key, hold, addr));
        } else {
            let i = choose|i: int| 0 <= i < rest.len() && rest[i] == (key, hold, addr);
            assert(found[i] == (key, hold, addr));
        }
    }
}

/// A read that memory can answer asks nothing of the store and is counted once, by where it was found.
pub proof fn law_a_read_from_memory_asks_nothing_of_the_store<S: DurableStore>(
    log: RecordLog<S>,
    after: RecordLog<S>,
    addr: RecordAddr,
    found: Option<Record>,
)
    requires
        log.in_memory(addr) is Some,
        log.reads(&after, addr, found),
        log.counts().buffer_reads < u64::MAX,
        log.counts().resident_reads < u64::MAX,
    ensures
        found == log.in_memory(addr),
        after.disk() == log.disk(),
        after.fault() == log.fault(),
        after.counts().store_reads == log.counts().store_reads,
        after.counts().apply_store_reads == log.counts().apply_store_reads,
        after.counts().buffer_reads + after.counts().resident_reads == log.counts().buffer_reads
            + log.counts().resident_reads + 1,
        addr.is_buffered() ==> after.counts().buffer_reads == log.counts().buffer_reads + 1,
        !addr.is_buffered() && addr.block() < log.held().next_block ==> after.counts().resident_reads
            == log.counts().resident_reads + 1,
{
}

/// Bytes that are not what was written give no record, and those that are give the record at its place.
pub proof fn law_a_record_is_read_only_from_intact_bytes(bytes: Seq<u8>, addr: RecordAddr)
    ensures
        !stamped(bytes) ==> read_out(bytes, addr) is None,
        addr.index() >= RECORDS_PER_BLOCK ==> read_out(bytes, addr) is None,
        stamped(bytes) && addr.index() < RECORDS_PER_BLOCK ==> read_out(bytes, addr) == Some(
            record_at(bytes, addr.index() as int),
        ),
{
}

/// What a poll brings goes to whoever asked for it. A block that is not what was written goes to nobody and
/// is a fault; one that was fetched for a record gives that record, and one that was read for the sweep gives
/// its records; either way the request is over, and the others are as they were.
pub proof fn law_a_block_goes_to_whoever_asked_for_it<S: DurableStore>(
    log: RecordLog<S>,
    after: RecordLog<S>,
    handle: u64,
    bytes: Seq<u8>,
    done: Option<(u64, RecordAddr, TxId, HoldData)>,
    found: Seq<Placed>,
    other: u64,
)
    requires
        log.comes_to(&after, Some(Ok(handle)), bytes, done, found),
        other != handle,
        log.counts().store_corruptions < u64::MAX,
        log.counts().store_reads < u64::MAX,
    ensures
        !stamped(bytes) ==> done is None && found.len() == 0 && after.fault()
            && after.counts().store_corruptions == log.counts().store_corruptions + 1,
        stamped(bytes) ==> after.counts().store_reads == log.counts().store_reads + 1
            && after.counts().store_corruptions == log.counts().store_corruptions,
        done matches Some((asked, addr, key, hold)) ==> {
            &&& asked == handle
            &&& log.fetches().contains_key(handle)
            &&& addr == log.fetches()[handle]
            &&& (key, hold) == record_at(bytes, addr.index() as int)
            &&& !after.fetches().contains_key(handle)
            &&& after.fault() == log.fault()
            &&& found.len() == 0
        },
        found.len() > 0 ==> IoOwner::Sweep.owns(handle) && log.sweeps().contains_key(handle)
            && !after.sweeps().contains_key(handle) && after.fault() == log.fault(),
        stamped(bytes) && IoOwner::Sweep.owns(handle) && log.sweeps().contains_key(handle) ==> found
            == records_in(bytes, log.sweeps()[handle].0, log.sweeps()[handle].1, 51),
        stamped(bytes) && !IoOwner::Sweep.owns(handle) && log.fetches().contains_key(handle)
            && log.fetches()[handle].index() < RECORDS_PER_BLOCK && log.fetches()[handle].fits() ==> done
            is Some,
        after.fetches().contains_key(other) == log.fetches().contains_key(other),
        log.fetches().contains_key(other) ==> after.fetches()[other] == log.fetches()[other],
        after.sweeps().contains_key(other) == log.sweeps().contains_key(other),
        log.sweeps().contains_key(other) ==> after.sweeps()[other] == log.sweeps()[other],
{
}

/// A poll that brings nothing changes nothing. One the store answers with a fault is a fault here, and the
/// sweep asks again for what it was waiting for.
pub proof fn law_a_poll_without_a_block_brings_nothing<S: DurableStore>(
    log: RecordLog<S>,
    after: RecordLog<S>,
    polled: Option<Result<u64, StoreFault>>,
    bytes: Seq<u8>,
    done: Option<(u64, RecordAddr, TxId, HoldData)>,
    found: Seq<Placed>,
    handle: u64,
)
    requires
        log.comes_to(&after, polled, bytes, done, found),
        !(polled matches Some(Ok(_))),
        log.counts().store_faults < u64::MAX,
    ensures
        done is None,
        found.len() == 0,
        after.fetches() == log.fetches(),
        polled is None ==> after.sweeps() == log.sweeps() && after.fault() == log.fault()
            && after.counts() == log.counts(),
        polled is Some ==> after.fault() && !after.sweeps().contains_key(handle)
            && after.counts().store_faults == log.counts().store_faults + 1,
{
}

/// What is offered to the store is what is owed: a block at the place of its number in its own day's object,
/// with the bytes memory keeps of it; or a day's object, to be removed.
pub proof fn law_what_is_offered_is_what_is_owed<S: DurableStore>(
    log: RecordLog<S>,
    owed: Owed,
    handle: u64,
    now: u64,
)
    ensures
        owed matches Owed::Free(segment) ==> log.offer_of(owed, handle, now) == (Call::Remove {
            handle,
            object: ObjectId::segment(segment),
            now,
        }),
        owed matches Owed::Block(unwritten) ==> unwritten.block < BLOCK_VALUES ==> {
            &&& log.offer_of(owed, handle, now) matches Call::Write {
                handle: under,
                object,
                offset,
                bytes,
                creating,
                now: at,
            }
            &&& under == handle
            &&& at == now
            &&& object == ObjectId::segment(unwritten.segment)
            &&& offset % 4096 == 0
            &&& offset / 4096 == unwritten.block
            &&& bytes == log.held().resident@[unwritten.block - log.held().oldest_resident].bytes@
            &&& creating == unwritten.opening
        },
{
}

/// A barrier is asked for only once everything before it has been handed over, when there is something for it
/// to cover and none is on its way.
pub proof fn law_a_barrier_is_asked_for_behind_every_write<S: DurableStore>(
    log: RecordLog<S>,
    after: RecordLog<S>,
    now: u64,
)
    requires
        log.syncs(&after, true, now),
        log.books().handles < 0x100_0000_0000_0000,
    ensures
        after.books().pending@.len() == 0,
        log.books().unsynced is Some,
        log.books().barrier is None,
        after.books().barrier is Some,
{
}

/// Live days have the spans listed for them, the first listed if a day is listed twice.
pub proof fn law_a_days_span_is_the_one_listed(live: Seq<Span>, segment: int)
    ensures
        match span_of(live, segment) {
            Some((first, last)) => exists|i: int|
                0 <= i < live.len() && (#[trigger] live[i]).0 == segment && live[i].1 == first && live[i].2
                    == last,
            None => forall|i: int| 0 <= i < live.len() ==> (#[trigger] live[i]).0 != segment,
        },
    decreases live.len(),
{
    if live.len() > 0 {
        law_a_days_span_is_the_one_listed(live.drop_first(), segment);
        if live[0].0 != segment {
            match span_of(live.drop_first(), segment) {
                Some((first, last)) => {
                    let i = choose|i: int|
                        0 <= i < live.drop_first().len() && (#[trigger] live.drop_first()[i]).0 == segment
                            && live.drop_first()[i].1 == first && live.drop_first()[i].2 == last;
                    assert(live[i + 1].0 == segment);
                },
                None => {
                    assert forall|i: int| 0 <= i < live.len() implies (#[trigger] live[i]).0 != segment by {
                        if i > 0 {
                            assert(live.drop_first()[i - 1] == live[i]);
                        }
                    }
                },
            }
        }
    }
}

/// The orphans are exactly the days whose objects hold blocks and that nothing points into, each once and in
/// order.
pub proof fn law_an_orphan_is_a_day_nothing_points_into(
    live: Seq<Span>,
    lengths: Seq<u64>,
    n: nat,
    day: u8,
)
    requires
        n <= 64,
        n <= lengths.len(),
    ensures
        orphans_of(live, lengths, n).contains(day) <==> day < n && lengths[day as int] > 0 && (forall|
            i: int,
        |
            0 <= i < live.len() ==> (#[trigger] live[i]).0 != day),
        forall|i: int|
            0 <= i < orphans_of(live, lengths, n).len() ==> (#[trigger] orphans_of(live, lengths, n)[i]) < n,
        forall|i: int, j: int|
            0 <= i < j < orphans_of(live, lengths, n).len() ==> (#[trigger] orphans_of(
                live,
                lengths,
                n,
            )[i]) < (#[trigger] orphans_of(live, lengths, n)[j]),
    decreases n,
{
    if n > 0 {
        let m = (n - 1) as nat;
        let rest = orphans_of(live, lengths, m);
        let all = orphans_of(live, lengths, n);
        law_an_orphan_is_a_day_nothing_points_into(live, lengths, m, day);
        law_a_days_span_is_the_one_listed(live, n - 1);
        law_a_days_span_is_the_one_listed(live, day as int);
        if all.len() > rest.len() {
            assert(all == rest.push(m as u8));
            assert(all[all.len() - 1] == m as u8);
            if rest.contains(day) {
                let i = choose|i: int| 0 <= i < rest.len() && rest[i] == day;
                assert(all[i] == day);
            }
            if all.contains(day) && day != m {
                let i = choose|i: int| 0 <= i < all.len() && all[i] == day;
                assert(rest[i] == day);
            }
        }
    }
}

/// Numbering goes on behind everything a start found: no lower than where it was, than any object's length,
/// or than the last block anything points into; and no higher than the highest of those.
pub proof fn law_numbering_goes_on_behind_what_was_found(
    floor: u64,
    live: Seq<Span>,
    lengths: Seq<u64>,
    n: nat,
    most: u64,
)
    requires
        n <= lengths.len(),
        forall|i: int| 0 <= i < live.len() ==> (#[trigger] live[i]).2 < u64::MAX,
    ensures
        longest(floor, live, lengths, n) >= floor,
        forall|i: int| 0 <= i < n ==> longest(floor, live, lengths, n) >= #[trigger] lengths[i],
        forall|i: int|
            0 <= i < n && (#[trigger] span_of(live, i)) is Some ==> longest(floor, live, lengths, n)
                > (span_of(live, i)->0).1,
        most >= floor && (forall|i: int| 0 <= i < n ==> most >= #[trigger] lengths[i]) && (forall|i: int|
            0 <= i < n && (#[trigger] span_of(live, i)) is Some ==> most > (span_of(live, i)->0).1)
            ==> longest(floor, live, lengths, n) <= most,
    decreases n,
{
    if n > 0 {
        law_numbering_goes_on_behind_what_was_found(floor, live, lengths, (n - 1) as nat, most);
        law_a_days_span_is_the_one_listed(live, n - 1);
        assert(lengths[n - 1] == lengths[n - 1]);
    }
}

/// The next record goes behind every record there is, into the buffer, at a place nothing is read from yet.
pub proof fn law_a_record_is_appended_behind_every_other(tiers: Tiers)
    requires
        tiers.wf(),
        tiers.room_to_append(),
    ensures
        ({
            let addr = tiers.next_append();
            let last = tiers.buffer@.last();
            &&& addr.is_buffered()
            &&& addr.index() < RECORDS_PER_BLOCK
            &&& tiers.record(addr) is None
            &&& last.filled < RECORDS_PER_BLOCK ==> addr.block() == tiers.oldest + tiers.buffer@.len() - 1
                && addr.index() == last.filled
            &&& last.filled == RECORDS_PER_BLOCK ==> addr.block() == tiers.oldest + tiers.buffer@.len()
                && addr.index() == 0
        }),
{
    let last = tiers.buffer@.last();
    assert(tiers.buffer@[tiers.buffer@.len() - 1].wf());
    if last.filled == RECORDS_PER_BLOCK {
        crate::address::law_address_parts(63, (tiers.oldest + tiers.buffer@.len()) as u64, 0);
    } else {
        crate::address::law_address_parts(
            63,
            (tiers.oldest + tiers.buffer@.len() - 1) as u64,
            last.filled as u8,
        );
    }
}

/// The blocks in memory that have a number are those closed and kept, and the one being packed if there is
/// anything in it. A record is read from the tier its address names, and only from a place that is filled.
pub proof fn law_a_record_is_read_from_the_tier_that_has_it(tiers: Tiers, addr: RecordAddr)
    requires
        tiers.wf(),
        tiers.resident@.len() < usize::MAX,
    ensures
        tiers.open.filled == 0 ==> tiers.in_memory() == tiers.resident@.len(),
        tiers.open.filled > 0 ==> tiers.in_memory() == tiers.resident@.len() + 1,
        tiers.record(addr) is Some <==> {
            ||| addr.is_buffered() && tiers.oldest <= addr.block() && addr.block() - tiers.oldest
                < tiers.buffer@.len() && addr.index() < tiers.buffer@[addr.block() - tiers.oldest].filled
            ||| !addr.is_buffered() && addr.block() == tiers.next_block && addr.index() < tiers.open.filled
            ||| !addr.is_buffered() && tiers.oldest_resident <= addr.block() && addr.block()
                < tiers.next_block && addr.index() < tiers.resident@[addr.block()
                - tiers.oldest_resident].filled
        },
        tiers.record(addr) is Some && addr.is_buffered() ==> tiers.record(addr) == Some(
            record_at(tiers.buffer@[addr.block() - tiers.oldest].bytes@, addr.index() as int),
        ),
        tiers.record(addr) is Some && !addr.is_buffered() && addr.block() < tiers.next_block
            ==> tiers.record(addr) == Some(
            record_at(
                tiers.resident@[addr.block() - tiers.oldest_resident].bytes@,
                addr.index() as int,
            ),
        ),
        tiers.record(addr) is Some && !addr.is_buffered() && addr.block() == tiers.next_block
            ==> tiers.record(addr) == Some(record_at(tiers.open.bytes@, addr.index() as int)),
{
}

/// A record that memory does not have is read from the block its address names. It is found if the block is what
/// was written and its place is one of a block's; otherwise it is not, and that is a fault. The read is counted.
pub proof fn law_a_record_not_in_memory_is_read_from_its_block<S: DurableStore>(
    log: RecordLog<S>,
    after: RecordLog<S>,
    addr: RecordAddr,
    found: Option<Record>,
)
    requires
        log.reads_store(&after, addr, found),
        log.counts().store_reads < u64::MAX,
    ensures
        exists|read: Result<(), StoreFault>, bytes: Seq<u8>| #[trigger]
            log.disk().did(
                Call::ReadAt {
                    object: ObjectId::segment(addr.segment()),
                    offset: addr.block_offset(),
                    had: log.brought(),
                },
                Reply::Read(read, bytes),
                &after.disk(),
            ) && (found is Some <==> read is Ok && stamped(bytes) && addr.index() < RECORDS_PER_BLOCK) && (
            found is Some ==> found == Some(record_at(bytes, addr.index() as int))),
        found is None ==> after.fault(),
        found is Some ==> after.fault() == log.fault(),
        after.counts().store_reads == log.counts().store_reads + 1,
{
}

/// A read that memory could not answer is counted where it was looked for: in the buffer if its address is
/// there, among the blocks kept if it is one of those, and always as a read an apply waited for.
pub proof fn law_where_a_read_was_looked_for_is_counted<S: DurableStore>(
    log: RecordLog<S>,
    addr: RecordAddr,
)
    requires
        log.counts().apply_store_reads < u64::MAX,
        log.counts().buffer_reads < u64::MAX,
        log.counts().resident_reads < u64::MAX,
    ensures
        ({
            let after = log.looked_for(addr);
            let open = addr.is_buffered() || addr.block() == log.held().next_block;
            let kept = log.held().oldest_resident <= addr.block() && addr.block() < log.held().next_block;
            &&& after.apply_store_reads == log.counts().apply_store_reads + 1
            &&& after.buffer_reads == log.counts().buffer_reads + if open {
                1int
            } else {
                0
            }
            &&& after.resident_reads == log.counts().resident_reads + if !open && kept {
                1int
            } else {
                0
            }
            &&& after.store_reads == log.counts().store_reads
            &&& after.appended == log.counts().appended
        }),
{
}

/// The sweep asks for one block of one day under a number of its own that is still free, and waits for it exactly
/// if the store takes the read.
pub proof fn law_the_sweep_asks_for_one_block<S: DurableStore>(
    log: RecordLog<S>,
    after: RecordLog<S>,
    segment: u8,
    block: u64,
    taken: bool,
    now: u64,
)
    requires
        log.asks_to_sweep(&after, segment, block, taken, now),
        log.sweep_reads() + 1 < 0x100_0000_0000_0000,
        block < BLOCK_VALUES,
    ensures
        ({
            let handle = IoOwner::Sweep.handle((log.sweep_reads() + 1) as u64);
            &&& log.disk().did(
                Call::Submit {
                    handle,
                    object: ObjectId::segment(segment),
                    offset: (block * 4096) as u64,
                    now,
                },
                Reply::Flag(taken),
                &after.disk(),
            )
            &&& taken ==> after.sweeps().contains_key(handle) && after.sweeps()[handle] == (segment, block)
                && after.sweep_reads() == log.sweep_reads() + 1
            &&& !taken ==> after.sweeps() == log.sweeps() && after.sweep_reads() == log.sweep_reads()
        }),
{
}

/// What stands on the store under an address is the record at its place in the block that was written for it, in
/// the day it was written for, and nothing under any other.
pub proof fn law_what_is_at_rest_is_what_was_written<S: DurableStore>(log: RecordLog<S>, addr: RecordAddr)
    ensures
        log.at_rest(addr) is Some <==> log.sealed().contains_key(addr.block())
            && log.sealed()[addr.block()].0 == addr.segment() && addr.index() < RECORDS_PER_BLOCK,
        log.at_rest(addr) is Some ==> log.at_rest(addr) == Some(
            record_at(log.sealed()[addr.block()].1, addr.index() as int),
        ),
{
}

/// Blocks that leave memory leave in order, oldest first, and the ones that stay are those that were behind them.
pub proof fn law_the_oldest_blocks_leave_memory_first<S: DurableStore>(
    log: RecordLog<S>,
    after: RecordLog<S>,
    i: int,
)
    requires
        log.lets_go(&after),
        0 <= i < after.held().resident@.len(),
    ensures
        ({
            let gone = after.held().oldest_resident - log.held().oldest_resident;
            &&& 0 <= gone
            &&& after.held().resident@.len() + gone == log.held().resident@.len()
            &&& after.held().resident@[i] == log.held().resident@[i + gone]
        }),
{
}

/// A buffer that takes a record puts it into its last block, or into a new one if that is full. A block began with
/// the decision that wrote its first record.
pub proof fn law_a_block_began_with_its_first_record(was: Seq<Filling>, now: Seq<Filling>, at: ApplyIndex)
    requires
        was.len() > 0,
        was.last().filled <= RECORDS_PER_BLOCK,
        now.len() > 0,
        crate::tiers::buffered_more(was, now, at),
    ensures
        now.last().filled >= 1,
        was.last().filled == RECORDS_PER_BLOCK ==> now.len() == was.len() + 1 && now.last().filled == 1
            && now.last().began_at == at && now[was.len() - 1] == was.last(),
        was.last().filled < RECORDS_PER_BLOCK ==> now.len() == was.len() && now.last().filled
            == was.last().filled + 1,
        was.last().filled == 0 ==> now.last().began_at == at,
        0 < was.last().filled < RECORDS_PER_BLOCK ==> now.last().began_at == was.last().began_at,
{
    if was.last().filled == RECORDS_PER_BLOCK {
        assert(now.drop_last()[was.len() - 1] == was[was.len() - 1]);
    }
}

/// The blocks closed since are owed in the order of their numbers, each to the day that was being filled, and
/// only the first of a day that had none opens it. What was owed before stays before them.
pub proof fn law_blocks_closed_since_are_owed_in_order<S: DurableStore>(
    log: RecordLog<S>,
    before: RecordLog<S>,
    i: int,
)
    requires
        log.closed_since(&before),
        before.books().pending@.len() <= i < log.books().pending@.len(),
        before.days().len() == 64,
        before.spec_segment() < 64,
        log.held().next_block <= BLOCK_VALUES,
        before.days()[before.spec_segment() as int].blocks <= BLOCK_VALUES,
    ensures
        before.books().pending@.is_prefix_of(log.books().pending@),
        log.books().pending@[i] matches Owed::Block(unwritten) && unwritten.block == before.held().next_block
            + (i - before.books().pending@.len()) && unwritten.segment == before.spec_segment()
            && unwritten.opening == (before.days()[before.spec_segment() as int].blocks == 0 && i
            == before.books().pending@.len()),
        log.days()[before.spec_segment() as int].blocks
            == before.days()[before.spec_segment() as int].blocks + (log.held().next_block
            - before.held().next_block),
{
    reveal(RecordLog::closed_since);
}

/// A start goes on behind everything it found, as far as numbers go, and gives back the days nothing points into.
pub proof fn law_a_start_goes_on_behind_what_it_found<S: DurableStore>(
    log: RecordLog<S>,
    after: RecordLog<S>,
    live: Seq<Span>,
    orphans: Seq<u8>,
)
    requires
        log.reconciles(&after, live, orphans),
        log.held().next_block < BLOCK_VALUES,
        forall|i: int| 0 <= i < live.len() ==> (#[trigger] live[i]).2 < u64::MAX,
    ensures
        after.held().next_block >= log.held().next_block,
        after.held().next_block < BLOCK_VALUES,
        forall|segment: int|
            0 <= segment < 64 && (#[trigger] span_of(live, segment)) is Some && (span_of(
                live,
                segment,
            )->0).1 < BLOCK_VALUES - 1 ==> (span_of(live, segment)->0).1 < after.held().next_block,
        forall|i: int|
            0 <= i < orphans.len() ==> (#[trigger] orphans[i]) < 64 && span_of(live, orphans[i] as int)
                is None,
{
    let lengths = choose|lengths: Seq<u64>| #[trigger]
        crate::record_log::measured(log.disk(), lengths, after.disk()) && lengths.len() == 64 && orphans
            == orphans_of(live, lengths, 64) && after.held().next_block == if longest(
            log.held().next_block,
            live,
            lengths,
            64,
        ) < BLOCK_VALUES {
            longest(log.held().next_block, live, lengths, 64)
        } else {
            (BLOCK_VALUES - 1) as u64
        };
    law_numbering_goes_on_behind_what_was_found(log.held().next_block, live, lengths, 64, 0);
    assert forall|i: int| 0 <= i < orphans.len() implies (#[trigger] orphans[i]) < 64 && span_of(
        live,
        orphans[i] as int,
    ) is None by {
        law_an_orphan_is_a_day_nothing_points_into(live, lengths, 64, orphans[i]);
        law_a_days_span_is_the_one_listed(live, orphans[i] as int);
        assert(orphans.contains(orphans[i]));
    }
}

/// A block that leaves memory is counted for the records it holds, and the blocks of the days add up.
pub proof fn law_each_block_counts_what_it_holds(
    count: u64,
    blocks: Seq<Filling>,
    gone: nat,
    days: Seq<BlockRange>,
    n: nat,
)
    requires
        0 < gone <= blocks.len(),
        left_with(count, blocks, (gone - 1) as nat) + blocks[gone - 1].filled <= u64::MAX,
    ensures
        left_with(count, blocks, gone) == left_with(count, blocks, (gone - 1) as nat) + blocks[gone
            - 1].filled,
        left_with(count, blocks, 0) == count,
        stored_blocks(days, n + 1) == stored_blocks(days, n) + days[n as int].blocks,
        stored_blocks(days, 0) == 0,
{
}

} // verus!
