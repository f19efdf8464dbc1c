//! What a snapshot and the decisions past its coverage give back between them.

use vstd::prelude::*;

use crate::address::RecordAddr;
use crate::budget::BudgetState;
use crate::engine::{
    carried_holds, created, fits_log, groups_after, holds_after, holds_again,
    law_a_snapshot_carries_the_durable_holds, may_seat, subject, Arrival, PendingEngine,
};
use crate::index::{law_every_key_is_found, lemma_matching, matching};
use crate::ledger::{ApplyIndex, HoldData, PendingEffect, TxId};
use crate::record_log::Record;
use crate::slots::{address_of, addresses, lemma_clear, named, whole};
use crate::snapshot::carried_words;
use crate::store::DurableStore;

verus! {

/// A decision, and its position in the log.
pub type Told = (PendingEffect, ApplyIndex);

/// Where in the log a decision is. The first position is one: zero is before everything.
pub open spec fn position(told: Told) -> u64 {
    let (_, at) = told;
    at.0
}

/// The holds once these decisions have been applied, in their order, each with room for what it creates.
pub open spec fn replayed(holds: Map<TxId, HoldData>, told: Seq<Told>) -> Map<TxId, HoldData>
    decreases told.len(),
{
    if told.len() == 0 {
        holds
    } else {
        holds_after(replayed(holds, told.drop_last()), told.last().0, true)
    }
}

/// The holds once these decisions have been replayed, in their order, each with room for what it brings.
pub open spec fn rebuilt(holds: Map<TxId, HoldData>, told: Seq<Told>) -> Map<TxId, HoldData>
    decreases told.len(),
{
    if told.len() == 0 {
        holds
    } else {
        holds_again(rebuilt(holds, told.drop_last()), told.last().0, true)
    }
}

/// The position of the last of these decisions about a key.
pub open spec fn last_told(told: Seq<Told>, key: TxId) -> Option<ApplyIndex>
    decreases told.len(),
{
    if told.len() == 0 {
        None
    } else if subject(told.last().0) == key {
        Some(told.last().1)
    } else {
        last_told(told.drop_last(), key)
    }
}

/// The engine's holds are what these decisions leave, and it has the positions of the last about each key.
pub open spec fn tells<S: DurableStore>(engine: PendingEngine<S>, told: Seq<Told>) -> bool {
    &&& engine.holds() == replayed(Map::empty(), told)
    &&& forall|key: TxId| #[trigger]
        engine.decisions().contains_key(key) ==> last_told(told, key) == Some(engine.decisions()[key])
}

/// An engine that has followed some decisions and applies one more has followed that one too.
pub proof fn law_every_decision_is_told<S: DurableStore>(
    now: PendingEngine<S>,
    was: PendingEngine<S>,
    told: Seq<Told>,
    effect: PendingEffect,
    at: ApplyIndex,
)
    requires
        tells(was, told),
        now.holds() == holds_after(was.holds(), effect, true),
        now.decisions() == was.decisions().insert(subject(effect), at),
    ensures
        tells(now, told.push((effect, at))),
{
    let more = told.push((effect, at));
    assert(more.drop_last() =~= told);
    assert forall|key: TxId| #[trigger] now.decisions().contains_key(key) implies last_told(more, key)
        == Some(now.decisions()[key]) by {
        if key != subject(effect) {
            assert(was.decisions().contains_key(key));
        }
    }
}

/// An engine restored from a snapshot has exactly the holds that the snapshot carried, wherever its log has
/// the records that were durable. `blank` is the engine whose table the stream has been read into, and
/// `restored` the one that putting the totals back made of it.
pub proof fn law_a_restored_engine_has_the_carried_holds<S: DurableStore, R: DurableStore>(
    engine: PendingEngine<S>,
    blank: PendingEngine<R>,
    restored: PendingEngine<R>,
)
    requires
        engine.wf(),
        engine.good(),
        forall|i: int|
            0 <= i < engine.table().words().len() ==> #[trigger] engine.table().snapshot_word(i)
                == engine.table().words()[i],
        blank.wf(),
        blank.table().mask() == engine.table().mask(),
        blank.table().words() == carried_words(engine.table(), engine.log()),
        forall|addr: RecordAddr, record: Record|
            engine.log().spec_is_durable(addr) && engine.log().holds(addr, record)
                ==> #[trigger] blank.log().holds(addr, record),
        forall|at: Map<TxId, RecordAddr>, held: Map<TxId, HoldData>| #[trigger]
            fits_log(blank, at, held) ==> restored.good() && fits_log(
                blank,
                restored.places(),
                restored.holds(),
            ),
    ensures
        restored.good(),
        restored.holds() == carried_holds(engine),
{
    let held = carried_holds(engine);
    let at = engine.places().restrict(held.dom());
    law_a_snapshot_carries_the_durable_holds(engine);
    engine.lemma_places();
    assert(fits_log(blank, at, held)) by {
        assert(at.dom() =~= held.dom());
        assert forall|k: TxId| #[trigger] at.contains_key(k) implies blank.log().holds(
            at[k],
            (k, held[k]),
        ) by {
            assert(held.dom().contains(k));
            assert(engine.places().contains_key(k));
            assert(engine.log().holds(engine.places()[k], (k, engine.holds()[k])));
        }
        assert forall|one: TxId, other: TxId| #[trigger]
            at.contains_key(one) && #[trigger] at.contains_key(other) && at[one]
                == at[other] implies one == other by {
            assert(engine.places().contains_key(one) && engine.places().contains_key(other));
        }
    }
    lemma_fits_once(blank, restored.places(), restored.holds(), at, held);
    lemma_fits_once(blank, at, held, restored.places(), restored.holds());
    assert(restored.holds() =~= held) by {
        assert forall|k: TxId| restored.holds().contains_key(k) == held.contains_key(k) by {}
    }
}

/// A table and a log that has the records it points at say what each hold is.
proof fn lemma_fits_once<R: DurableStore>(
    engine: PendingEngine<R>,
    at: Map<TxId, RecordAddr>,
    held: Map<TxId, HoldData>,
    other_at: Map<TxId, RecordAddr>,
    other: Map<TxId, HoldData>,
)
    requires
        engine.wf(),
        fits_log(engine, at, held),
        fits_log(engine, other_at, other),
    ensures
        forall|k: TxId| #[trigger] held.contains_key(k) ==> other.contains_key(k) && other[k] == held[k],
{
    let words = engine.table().words();
    let mask = engine.table().mask();
    engine.lemma_table();
    let words_of = choose|words_of: Map<TxId, u64>| #[trigger]
        named(words_of, mask) && whole(words, mask, words_of) && other_at == addresses(words_of);
    assert forall|k: TxId| #[trigger] held.contains_key(k) implies other.contains_key(k) && other[k]
        == held[k] by {
        assert(held.dom().contains(k));
        assert(at.contains_key(k));
        law_every_key_is_found(words, mask, at, k);
        let found = matching(words, mask, k);
        let n = choose|n: int|
            0 <= n < found.len() && address_of(words[#[trigger] found[n]]) == at[k];
        assert(found.contains(found[n]));
        lemma_matching(words, mask, k, found[n]);
        let owner = lemma_clear(words, mask, words_of, found[n]);
        assert(other_at.contains_key(owner) && other_at[owner] == at[k]);
        assert(other_at.dom().contains(owner));
        assert(engine.log().holds(at[k], (k, held[k])));
        engine.log().lemma_holds_one(at[k], (k, held[k]), (owner, other[owner]));
    }
}

/// The position up to which a snapshot of the engine covers the log.
pub open spec fn coverage_of<S: DurableStore>(engine: PendingEngine<S>) -> ApplyIndex {
    engine.log().covered_through(engine.spec_applied_through())
}

/// This decision reduces a hold, without its size, that none before it among these is about.
pub open spec fn reduces_first(tail: Seq<Told>, i: int) -> bool {
    &&& tail[i].0 is Reduce
    &&& !may_seat(tail[i].0)
    &&& forall|j: int| 0 <= j < i ==> subject((#[trigger] tail[j]).0) != subject(tail[i].0)
}

/// If this decision is a partial resolution, it is of a hold that is there by then.
pub open spec fn resolves_a_hold(holds: Map<TxId, HoldData>, tail: Seq<Told>, i: int) -> bool {
    tail[i].0 is Reduce ==> replayed(holds, tail.take(i)).contains_key(subject(tail[i].0))
}

/// A snapshot and the decisions past its coverage give the holds back. Whatever is applied up to the
/// coverage is on durable blocks, so the snapshot carries it; whatever is not durable is decided about past
/// the coverage, so replaying the rest of the log rebuilds it; and replaying a decision that the snapshot
/// already reflects changes nothing.
///
/// What is restored is at least the holds that were durable when the snapshot was begun, and at most all
/// that there were: a block may become durable while the snapshot is being written. A partial resolution
/// past the coverage brings the hold with it, its size and all, so a hold that was not carried is given
/// back by it too. One that came without a size has nothing to take the size from, and such a hold is not
/// given back.
pub proof fn law_a_snapshot_and_the_rest_of_the_log_give_the_holds_back<S: DurableStore>(
    engine: PendingEngine<S>,
    early: Seq<Told>,
    tail: Seq<Told>,
    restored: Map<TxId, HoldData>,
)
    requires
        engine.wf(),
        engine.good(),
        engine.in_order(),
        engine.dated(),
        tells(engine, early + tail),
        forall|i: int|
            0 <= i < early.len() ==> 0 < position((#[trigger] early[i])) <= coverage_of(engine).0,
        forall|i: int|
            0 <= i < tail.len() ==> coverage_of(engine).0 < position((#[trigger] tail[i])),
        carried_holds(engine).submap_of(restored),
        restored.submap_of(engine.holds()),
        forall|i: int|
            0 <= i < tail.len() ==> #[trigger] resolves_a_hold(replayed(Map::empty(), early), tail, i),
        forall|i: int|
            0 <= i < tail.len() && #[trigger] reduces_first(tail, i) ==> restored.contains_key(
                subject(tail[i].0),
            ),
    ensures
        rebuilt(restored, tail) == engine.holds(),
{
    let whole = engine.holds();
    let given = rebuilt(restored, tail);
    lemma_in_two(Map::empty(), early, tail);
    let first = replayed(Map::<TxId, HoldData>::empty(), early);
    assert forall|key: TxId| entry(given, key) == entry(whole, key) by {
        lemma_entry_again(restored, tail, key);
        lemma_entry(first, tail, key);
        assert(of_holds(entry(first, key), tail, key)) by {
            assert forall|i: int| 0 <= i < tail.len() && subject((#[trigger] tail[i]).0) == key
                && tail[i].0 is Reduce implies value(entry(first, key), tail.take(i), key) is Some by {
                assert(resolves_a_hold(first, tail, i));
                lemma_entry(first, tail.take(i), key);
            }
        }
        let full = entry(whole, key);
        assert(full == value(entry(first, key), tail, key));
        if restored.contains_key(key) || !whole.contains_key(key) {
            assert(entry(restored, key) == full) by {
                if restored.contains_key(key) {
                    assert(restored.dom().contains(key));
                }
            }
            lemma_again(entry(first, key), tail, key);
        } else {
            assert(!carried_holds(engine).dom().contains(key));
            engine.lemma_not_carried(key);
            lemma_last(early, tail, key);
            lemma_opening(tail, key, entry(first, key));
        }
    }
    assert forall|key: TxId| given.contains_key(key) == whole.contains_key(key) by {
        assert(entry(given, key) == entry(whole, key));
    }
    assert forall|key: TxId| #[trigger] given.contains_key(key) implies given[key] == whole[key] by {
        assert(entry(given, key) == entry(whole, key));
    }
    assert(given =~= whole);
}

/// The group totals once these decisions have been replayed over them and over these holds.
pub open spec fn totals_replayed(
    groups: Map<u128, BudgetState>,
    holds: Map<TxId, HoldData>,
    told: Seq<Told>,
    reflect: ApplyIndex,
) -> Map<u128, BudgetState>
    decreases told.len(),
{
    if told.len() == 0 {
        groups
    } else {
        let (effect, at) = told.last();
        groups_after(
            totals_replayed(groups, holds, told.drop_last(), reflect),
            effect,
            at,
            Arrival::Again(reflect),
            rebuilt(holds, told.drop_last()).contains_key(subject(effect)),
        )
    }
}

/// Totals that a snapshot carries reflect everything applied when it was begun, and replaying decisions of
/// up to then leaves them as they are, also a member's that was made and released again in between.
pub proof fn law_restored_totals_are_not_counted_again(
    groups: Map<u128, BudgetState>,
    holds: Map<TxId, HoldData>,
    told: Seq<Told>,
    reflect: ApplyIndex,
)
    requires
        forall|i: int| 0 <= i < told.len() ==> position(#[trigger] told[i]) <= reflect.0,
    ensures
        totals_replayed(groups, holds, told, reflect) == groups,
    decreases told.len(),
{
    if told.len() > 0 {
        let rest = told.drop_last();
        assert forall|i: int| 0 <= i < rest.len() implies position(#[trigger] rest[i]) <= reflect.0 by {
            assert(rest[i] == told[i]);
        }
        law_restored_totals_are_not_counted_again(groups, holds, rest, reflect);
        let last = told.len() - 1;
        assert(position(told[last]) <= reflect.0);
    }
}

/// The group totals once these decisions have been applied, over these holds, for the first time.
pub open spec fn totals_applied(
    groups: Map<u128, BudgetState>,
    holds: Map<TxId, HoldData>,
    told: Seq<Told>,
) -> Map<u128, BudgetState>
    decreases told.len(),
{
    if told.len() == 0 {
        groups
    } else {
        let (effect, at) = told.last();
        groups_after(
            totals_applied(groups, holds, told.drop_last()),
            effect,
            at,
            Arrival::First,
            replayed(holds, told.drop_last()).contains_key(subject(effect)),
        )
    }
}

/// Past the position that restored totals reflect, replaying the log counts as applying it for the first
/// time did: the holds and the totals come to the same.
pub proof fn law_a_replay_past_the_snapshot_counts_as_the_first_time(
    groups: Map<u128, BudgetState>,
    holds: Map<TxId, HoldData>,
    told: Seq<Told>,
    reflect: ApplyIndex,
)
    requires
        forall|i: int| 0 <= i < told.len() ==> reflect.0 < position(#[trigger] told[i]),
        forall|i: int| 0 <= i < told.len() ==> #[trigger] resolves_a_hold(holds, told, i),
    ensures
        rebuilt(holds, told) == replayed(holds, told),
        totals_replayed(groups, holds, told, reflect) == totals_applied(groups, holds, told),
    decreases told.len(),
{
    if told.len() > 0 {
        let rest = told.drop_last();
        let last = told.len() - 1;
        assert forall|i: int| 0 <= i < rest.len() implies reflect.0 < position(#[trigger] rest[i]) by {
            assert(rest[i] == told[i]);
        }
        assert forall|i: int| 0 <= i < rest.len() implies #[trigger] resolves_a_hold(holds, rest, i) by {
            assert(resolves_a_hold(holds, told, i));
            assert(rest.take(i) =~= told.take(i));
            assert(rest[i] == told[i]);
        }
        law_a_replay_past_the_snapshot_counts_as_the_first_time(groups, holds, rest, reflect);
        assert(resolves_a_hold(holds, told, last));
        assert(told.take(last) =~= rest);
        assert(reflect.0 < position(told[last]));
    }
}

/// What a map has for a key.
spec fn entry(holds: Map<TxId, HoldData>, key: TxId) -> Option<HoldData> {
    if holds.contains_key(key) {
        Some(holds[key])
    } else {
        None
    }
}

/// What one decision makes of a key's hold.
spec fn one(hold: Option<HoldData>, effect: PendingEffect, key: TxId) -> Option<HoldData> {
    if subject(effect) != key {
        hold
    } else {
        match effect {
            PendingEffect::Create { .. } => Some(created(effect)),
            PendingEffect::Reduce { amount, .. } => match hold {
                Some(hold) => Some(
                    HoldData {
                        amount: if amount > 0 {
                            amount
                        } else {
                            hold.amount
                        },
                        ..created(effect)
                    },
                ),
                None => None,
            },
            PendingEffect::Remove { .. } => None,
        }
    }
}

/// What these decisions make of a key's hold.
spec fn value(hold: Option<HoldData>, told: Seq<Told>, key: TxId) -> Option<HoldData>
    decreases told.len(),
{
    if told.len() == 0 {
        hold
    } else {
        one(value(hold, told.drop_last(), key), told.last().0, key)
    }
}

proof fn lemma_entry(holds: Map<TxId, HoldData>, told: Seq<Told>, key: TxId)
    ensures
        entry(replayed(holds, told), key) == value(entry(holds, key), told, key),
    decreases told.len(),
{
    if told.len() > 0 {
        lemma_entry(holds, told.drop_last(), key);
    }
}

/// Decisions applied in two runs.
proof fn lemma_in_two(holds: Map<TxId, HoldData>, early: Seq<Told>, tail: Seq<Told>)
    ensures
        replayed(holds, early + tail) == replayed(replayed(holds, early), tail),
    decreases tail.len(),
{
    if tail.len() == 0 {
        assert(early + tail =~= early);
    } else {
        lemma_in_two(holds, early, tail.drop_last());
        assert((early + tail).drop_last() =~= early + tail.drop_last());
    }
}

/// What one replayed decision makes of a key's hold.
spec fn one_again(hold: Option<HoldData>, effect: PendingEffect, key: TxId) -> Option<HoldData> {
    if subject(effect) == key && hold is None && effect is Reduce && may_seat(effect) {
        Some(created(effect))
    } else {
        one(hold, effect, key)
    }
}

/// What these decisions make of a key's hold when they are replayed.
spec fn value_again(hold: Option<HoldData>, told: Seq<Told>, key: TxId) -> Option<HoldData>
    decreases told.len(),
{
    if told.len() == 0 {
        hold
    } else {
        one_again(value_again(hold, told.drop_last(), key), told.last().0, key)
    }
}

proof fn lemma_entry_again(holds: Map<TxId, HoldData>, told: Seq<Told>, key: TxId)
    ensures
        entry(rebuilt(holds, told), key) == value_again(entry(holds, key), told, key),
    decreases told.len(),
{
    if told.len() > 0 {
        lemma_entry_again(holds, told.drop_last(), key);
    }
}

/// The partial resolutions of a key among these are of a hold that is there.
spec fn of_holds(hold: Option<HoldData>, told: Seq<Told>, key: TxId) -> bool {
    forall|i: int|
        0 <= i < told.len() && subject((#[trigger] told[i]).0) == key && told[i].0 is Reduce ==> value(
            hold,
            told.take(i),
            key,
        ) is Some
}

proof fn lemma_of_holds(hold: Option<HoldData>, told: Seq<Told>, key: TxId)
    requires
        told.len() > 0,
        of_holds(hold, told, key),
    ensures
        of_holds(hold, told.drop_last(), key),
        subject(told.last().0) == key && told.last().0 is Reduce ==> value(hold, told.drop_last(), key) is Some,
{
    let rest = told.drop_last();
    assert forall|i: int|
        0 <= i < rest.len() && subject((#[trigger] rest[i]).0) == key && rest[i].0 is Reduce implies value(
        hold,
        rest.take(i),
        key,
    ) is Some by {
        assert(rest[i] == told[i]);
        assert(rest.take(i) =~= told.take(i));
    }
    assert(told.take(told.len() - 1) =~= rest);
    assert(told[told.len() - 1] == told.last());
}

/// Decisions that leave a hold leave one wherever there was one, and of the size they left it with if it
/// had that size.
proof fn lemma_some(hold: Option<HoldData>, other: HoldData, told: Seq<Told>, key: TxId)
    requires
        value(hold, told, key) is Some,
    ensures
        value_again(Some(other), told, key) is Some,
        other.amount == value(hold, told, key)->0.amount ==> value_again(Some(other), told, key)->0.amount
            == other.amount,
    decreases told.len(),
{
    if told.len() > 0 {
        let effect = told.last().0;
        if subject(effect) != key || effect is Reduce {
            lemma_some(hold, other, told.drop_last(), key);
        }
    }
}

/// Decisions replayed over what they left change nothing.
proof fn lemma_again(hold: Option<HoldData>, told: Seq<Told>, key: TxId)
    requires
        of_holds(hold, told, key),
    ensures
        value_again(value(hold, told, key), told, key) == value(hold, told, key),
    decreases told.len(),
{
    if told.len() > 0 {
        let rest = told.drop_last();
        let effect = told.last().0;
        let full = value(hold, told, key);
        lemma_of_holds(hold, told, key);
        if subject(effect) != key {
            lemma_again(hold, rest, key);
        } else if effect is Reduce {
            lemma_some(hold, full->0, rest, key);
        }
    }
}

/// The last of two runs of decisions about a key is in the second, if its position is past the first's.
proof fn lemma_last(early: Seq<Told>, tail: Seq<Told>, key: TxId)
    ensures
        last_told(early + tail, key) matches Some(at) ==> (exists|i: int|
            0 <= i < tail.len() && subject((#[trigger] tail[i]).0) == key) || (exists|i: int|
            0 <= i < early.len() && (#[trigger] early[i]).1 == at),
    decreases early.len() + tail.len(),
{
    let whole = early + tail;
    if whole.len() > 0 {
        if tail.len() > 0 {
            assert(whole.drop_last() =~= early + tail.drop_last());
            lemma_last(early, tail.drop_last(), key);
            if last_told(whole.drop_last(), key) is Some {
                if exists|i: int|
                    0 <= i < tail.len() - 1 && subject((#[trigger] tail.drop_last()[i]).0) == key {
                    let i = choose|i: int|
                        0 <= i < tail.len() - 1 && subject((#[trigger] tail.drop_last()[i]).0) == key;
                    assert(subject(tail[i].0) == key);
                }
            }
            if subject(whole.last().0) == key {
                assert(subject(tail[tail.len() - 1].0) == key);
            }
        } else {
            assert(whole =~= early);
            assert(whole.drop_last() =~= early.drop_last() + tail);
            lemma_last(early.drop_last(), tail, key);
            if last_told(whole.drop_last(), key) is Some {
                let at = last_told(whole.drop_last(), key)->0;
                if exists|i: int| 0 <= i < early.len() - 1 && (#[trigger] early.drop_last()[i]).1 == at {
                    let i = choose|i: int|
                        0 <= i < early.len() - 1 && (#[trigger] early.drop_last()[i]).1 == at;
                    assert(early[i].1 == at);
                }
            }
            if subject(whole.last().0) == key {
                assert(early[early.len() - 1].1 == whole.last().1);
            }
        }
    }
}

/// Decisions of which the first about a key does not reduce it without its size come to the same, replayed
/// without its hold.
proof fn lemma_opening(told: Seq<Told>, key: TxId, hold: Option<HoldData>)
    requires
        hold is None || exists|i: int| 0 <= i < told.len() && subject((#[trigger] told[i]).0) == key,
        of_holds(hold, told, key),
        forall|i: int|
            0 <= i < told.len() && subject((#[trigger] told[i]).0) == key ==> !reduces_first(told, i),
    ensures
        value_again(None, told, key) == value(hold, told, key),
    decreases told.len(),
{
    if told.len() > 0 {
        let rest = told.drop_last();
        let effect = told.last().0;
        lemma_of_holds(hold, told, key);
        assert forall|i: int|
            0 <= i < rest.len() && subject((#[trigger] rest[i]).0) == key implies !reduces_first(
            rest,
            i,
        ) by {
            assert(rest[i] == told[i]);
            assert(!reduces_first(told, i));
            if rest[i].0 is Reduce && !may_seat(rest[i].0) {
                let j = choose|j: int|
                    0 <= j < i && subject((#[trigger] told[j]).0) == subject(told[i].0);
                assert(rest[j] == told[j]);
            }
        }
        if hold is None || exists|i: int| 0 <= i < rest.len() && subject((#[trigger] rest[i]).0) == key {
            lemma_opening(rest, key, hold);
        } else {
            let i = choose|i: int| 0 <= i < told.len() && subject((#[trigger] told[i]).0) == key;
            assert(i == told.len() - 1) by {
                if i < rest.len() {
                    assert(rest[i] == told[i]);
                }
            }
            lemma_untold(hold, rest, key);
            assert(!reduces_first(told, i));
            if told[i].0 is Reduce && !may_seat(told[i].0) {
                let j = choose|j: int|
                    0 <= j < i && subject((#[trigger] told[j]).0) == subject(told[i].0);
                assert(rest[j] == told[j]);
                assert(false);
            }
        }
    }
}

/// Decisions that are not about a key leave its hold alone.
proof fn lemma_untold(hold: Option<HoldData>, told: Seq<Told>, key: TxId)
    requires
        forall|i: int| 0 <= i < told.len() ==> subject((#[trigger] told[i]).0) != key,
    ensures
        value(hold, told, key) == hold,
        value_again(None, told, key) is None,
    decreases told.len(),
{
    if told.len() > 0 {
        let rest = told.drop_last();
        assert forall|i: int| 0 <= i < rest.len() implies subject((#[trigger] rest[i]).0) != key by {
            assert(rest[i] == told[i]);
        }
        assert(subject(told[told.len() - 1].0) != key);
        lemma_untold(hold, rest, key);
    }
}

} // verus!
