//! Where a lookup goes: from what is in memory to what only the store has, and back with the hold or without.

use vstd::prelude::*;

use crate::address::{ObjectId, RecordAddr, OWNER_WEIGHT};
use crate::engine::{
    along, begins, by_index, candidates_of, course, finds, is_of, settles, sizes, steps, takes_up, with_totals,
    Arrival, Course, PendingEngine, Search, Step, Walking,
};
use crate::index::{known_slot, matching, HoldTable};
use crate::ledger::{Amount, HoldData, TxId};
use crate::record_log::RecordLog;
use crate::slots::address_of;
use crate::store::{Call, DurableStore, Reply};
use crate::tiers::Placed;

verus! {

/// A lookup begins with every record its fingerprint could mean, in the order the index has them, under the
/// name it was asked under.
pub proof fn law_a_lookup_begins_with_what_the_index_has<S: DurableStore>(
    engine: PendingEngine<S>,
    handle: u64,
    key: TxId,
    i: int,
)
    requires
        0 <= i < matching(engine.table().words(), engine.table().mask(), key).len(),
    ensures
        ({
            let walk = begins(engine, handle, key);
            let found = matching(engine.table().words(), engine.table().mask(), key);
            &&& walk.handle == handle
            &&& walk.key == key
            &&& !walk.moved
            &&& walk.left.len() == found.len()
            &&& walk.left[i] == address_of(engine.table().words()[found[i]])
        }),
{
}

/// A lookup's walk over what it has left, one candidate at a time. The key's own record in memory answers it,
/// with its group's totals. Another's record in memory is passed. One that has left the buffer is passed, and
/// remembered. The first that only the store may have stops it there.
pub proof fn law_a_walk_settles_one_candidate_at_a_time<S: DurableStore>(
    engine: PendingEngine<S>,
    walk: Walking,
)
    ensures
        walk.left.len() == 0 ==> along(engine, walk) == (Course::Through { moved: walk.moved }),
        walk.left.len() > 0 ==> {
            let addr = walk.left[0];
            let rest = Walking { left: walk.left.skip(1), ..walk };
            let here = engine.log().in_memory(addr);
            &&& here matches Some((owner, hold)) ==> (owner == walk.key ==> along(engine, walk)
                == Course::Answered(Some(with_totals(engine.groups(), hold))))
            &&& here matches Some((owner, hold)) ==> (owner != walk.key ==> along(engine, walk) == along(
                engine,
                rest,
            ))
            &&& here is None && addr.is_buffered() ==> along(engine, walk) == along(
                engine,
                Walking { moved: true, ..rest },
            )
            &&& here is None && !addr.is_buffered() ==> along(engine, walk) == Course::Asks(walk)
        },
{
    if walk.left.len() > 0 {
        assert(walk.left.skip(1) =~= walk.left.drop_first());
    }
}

/// Wherever a walk comes to, it is for the lookup it began for. A hold it answers with is one in memory that is
/// the key's. What it asks the store for is a candidate of its own that is not in memory.
pub proof fn law_a_walk_stays_its_own<S: DurableStore>(engine: PendingEngine<S>, walk: Walking)
    ensures
        along(engine, walk) matches Course::Asks(at) ==> {
            &&& at.handle == walk.handle
            &&& at.key == walk.key
            &&& 0 < at.left.len() <= walk.left.len()
            &&& at.left == walk.left.skip(walk.left.len() - at.left.len())
            &&& !at.left[0].is_buffered()
            &&& engine.log().in_memory(at.left[0]) is None
        },
        along(engine, walk) matches Course::Answered(found) ==> found is Some && exists|i: int|
            0 <= i < walk.left.len() && (engine.log().in_memory(#[trigger] walk.left[i]) matches Some(
                (owner, hold),
            ) && owner == walk.key && found == Some(with_totals(engine.groups(), hold))),
    decreases walk.left.len(),
{
    if walk.left.len() == 0 {
    } else {
        let rest = Walking { left: walk.left.drop_first(), ..walk };
        let passed = Walking { moved: true, ..rest };
        law_a_walk_stays_its_own(engine, rest);
        law_a_walk_stays_its_own(engine, passed);
        let next = match engine.log().in_memory(walk.left[0]) {
            Some((owner, hold)) => if owner == walk.key {
                None
            } else {
                Some(rest)
            },
            None => if walk.left[0].is_buffered() {
                Some(passed)
            } else {
                None
            },
        };
        match next {
            Some(next) => {
                match along(engine, next) {
                    Course::Asks(at) => {
                        assert(at.left =~= walk.left.skip(walk.left.len() - at.left.len())) by {
                            assert(at.left == next.left.skip(next.left.len() - at.left.len()));
                        }
                    },
                    Course::Answered(found) => {
                        let i = choose|i: int|
                            0 <= i < next.left.len() && (engine.log().in_memory(
                                #[trigger] next.left[i],
                            ) matches Some((owner, hold)) && owner == next.key && found == Some(
                                with_totals(engine.groups(), hold),
                            ));
                        assert(walk.left[i + 1] == next.left[i]);
                    },
                    Course::Through { .. } => {},
                }
            },
            None => {
                if engine.log().in_memory(walk.left[0]) is Some {
                    assert(engine.log().in_memory(walk.left[0]) is Some && walk.left[0] == walk.left[0]);
                } else {
                    assert(walk.left.skip(0) =~= walk.left);
                }
            },
        }
    }
}

/// A lookup that comes through everything without the hold answers that there is none; but one that passed a
/// record which had moved away looks once more from where the index stands now, before it says so.
pub proof fn law_a_lookup_looks_again_after_a_move<S: DurableStore>(
    engine: PendingEngine<S>,
    walk: Walking,
)
    ensures
        !(course(engine, walk) is Through),
        along(engine, walk) == (Course::Through { moved: false }) ==> course(engine, walk)
            == Course::Answered(None),
        !(along(engine, walk) is Through) ==> course(engine, walk) == along(engine, walk),
        along(engine, walk) == (Course::Through { moved: true }) && along(
            engine,
            begins(engine, walk.handle, walk.key),
        ) is Through ==> course(engine, walk) == Course::Answered(None),
        along(engine, walk) == (Course::Through { moved: true }) && !(along(
            engine,
            begins(engine, walk.handle, walk.key),
        ) is Through) ==> course(engine, walk) == along(engine, begins(engine, walk.handle, walk.key)),
        candidates_of(engine.table(), walk.key).len() == 0 && walk.left.len() == 0 ==> course(engine, walk)
            == Course::Answered(None),
{
}

/// What a lookup asks the store for is the block of the candidate it stopped at, under a number nothing was
/// asked under, and it is remembered under that number. A lookup that is answered asks for nothing.
pub proof fn law_a_lookup_asks_for_the_candidate_it_stopped_at<S: DurableStore>(
    was: PendingEngine<S>,
    after: PendingEngine<S>,
    walk: Walking,
    now: u64,
    step: Step,
)
    requires
        steps(was, after, walk, now, step),
    ensures
        step is Waits ==> {
            let number = (was.last_read() + 1) as u64;
            &&& course(was, walk) matches Course::Asks(at)
            &&& was.log().disk().did(
                Call::Submit {
                    handle: number,
                    object: ObjectId::segment(at.left[0].segment()),
                    offset: at.left[0].block_offset(),
                    now,
                },
                Reply::Flag(true),
                &after.log().disk(),
            )
            &&& after.walks().contains_key(number)
            &&& after.walks()[number] == at
            &&& after.log().fetches().contains_key(number)
            &&& after.log().fetches()[number] == at.left[0]
            &&& after.last_read() == number
        },
        step matches Step::Answered(found) ==> course(was, walk) == Course::Answered(found)
            && after.log().disk() == was.log().disk() && after.walks() == was.walks(),
        step matches Step::Held(at) ==> course(was, walk) == Course::Asks(at) && after.walks()
            == was.walks() && after.last_read() == was.last_read(),
        course(was, walk) is Answered ==> step is Answered,
        course(was, walk) is Asks && was.last_read() + 1 >= OWNER_WEIGHT ==> step is Held,
{
}

/// A record the store brought answers the lookup it was asked for if it is the key's, with its group's totals,
/// and that lookup waits no more. If it is another's the lookup goes on. Nothing that nobody asked for answers
/// anybody.
pub proof fn law_a_record_brought_answers_its_own_lookup<S: DurableStore>(
    was: PendingEngine<S>,
    after: PendingEngine<S>,
    log: RecordLog<S>,
    number: u64,
    addr: RecordAddr,
    owner: TxId,
    hold: HoldData,
    found: Seq<Placed>,
    now: u64,
    done: Option<(u64, Option<HoldData>)>,
    more: bool,
)
    requires
        settles(was, after, log, Some((number, addr, owner, hold)), found, now, done, more),
    ensures
        after.calendar() == was.calendar(),
        was.walks().contains_key(number) && owner == was.walks()[number].key ==> {
            &&& done == Some((was.walks()[number].handle, Some(with_totals(was.groups(), hold))))
            &&& !after.walks().contains_key(number)
        },
        !was.walks().contains_key(number) ==> done is None && more,
        was.walks().contains_key(number) && owner != was.walks()[number].key ==> (done matches Some(
            (handle, _),
        ) ==> handle == was.walks()[number].handle),
{
}

/// A decision that arrives for the first time finds its hold by the index alone where the index is sure, and
/// reads nothing for it.
pub proof fn law_a_sure_index_reads_nothing<S: DurableStore>(
    table: HoldTable,
    was: RecordLog<S>,
    after: RecordLog<S>,
    key: TxId,
    slot: Option<int>,
)
    requires
        finds(table, was, after, key, Arrival::First, slot),
        by_index(table, key),
    ensures
        after == was,
        slot == known_slot(table.words(), table.mask(), key),
        matching(table.words(), table.mask(), key).len() == 0 ==> slot is None,
{
}

/// A settlement that says what its hold was worth reads nothing to know it.
pub proof fn law_a_settlement_that_says_its_size_reads_nothing<S: DurableStore>(
    table: HoldTable,
    was: RecordLog<S>,
    after: RecordLog<S>,
    key: TxId,
    amount: Amount,
    size: Option<Amount>,
)
    requires
        sizes(table, was, after, key, amount, size),
        amount > 0,
    ensures
        size == Some(amount),
        after == was,
{
}

/// A lookup the store would not take a read for is taken up again before any other that waits for the same, from
/// where it stopped, and is over if it is answered. If it is held up again it goes behind the others.
pub proof fn law_the_first_that_was_held_up_goes_first<S: DurableStore>(
    was: PendingEngine<S>,
    after: PendingEngine<S>,
    now: u64,
    done: Option<(u64, Option<HoldData>)>,
)
    requires
        takes_up(was, after, now, done),
    ensures
        after.calendar() == was.calendar(),
        was.stalls().len() == 0 ==> done is None && after.stalls().len() == 0 && after.log() == was.log(),
        was.stalls().len() > 0 && done is Some ==> {
            &&& (done->0).0 == was.stalls()[0].handle
            &&& course(was, was.stalls()[0]) == Course::Answered((done->0).1)
            &&& after.stalls() == was.stalls().skip(1)
        },
        was.stalls().len() > 0 && done is None ==> {
            &&& after.stalls() == was.stalls().skip(1) || (after.stalls().len() == was.stalls().len()
                && after.stalls().drop_last() == was.stalls().skip(1))
            &&& course(was, was.stalls()[0]) is Asks
        },
{
    if was.stalls().len() > 0 {
        let rest = was.stalls().drop_first();
        assert(rest =~= was.stalls().skip(1));
        assert forall|at: Walking| #[trigger] rest.push(at).drop_last() == rest by {
            assert(rest.push(at).drop_last() =~= rest);
        }
    }
}

/// A search reads the candidates one after the other until it comes to the key's own record. What it finds is that
/// record, in the slot it was reached by; if it finds nothing it has read them all and none was the key's. It failed
/// if one of them could not be read.
pub proof fn law_a_search_ends_at_the_keys_own_record<S: DurableStore>(
    search: Search<S>,
    table: HoldTable,
    log: RecordLog<S>,
    key: TxId,
    i: int,
)
    requires
        search.of(table, log, key),
        0 <= i < search.records.len(),
    ensures
        search.found(table, key) matches Some((slot, hold)) ==> {
            &&& search.records.last() == Some((key, hold))
            &&& slot == matching(table.words(), table.mask(), key)[search.records.len() - 1]
        },
        search.found(table, key) is None ==> search.records.len() == candidates_of(table, key).len()
            && !(search.records[i] matches Some((owner, _)) && owner == key),
        i < search.records.len() - 1 ==> !(search.records[i] matches Some((owner, _)) && owner == key),
        search.records[i] is None ==> search.failed(),
        !search.failed() ==> search.records[i] is Some,
{
    if i < search.records.len() - 1 {
        assert(!is_of(search.records[i], key));
    }
}

} // verus!
