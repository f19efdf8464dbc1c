//! What the decisions come to: what each leaves of the hold it is about, of its group, and of everything
//! else, field by field.

use vstd::prelude::*;

use crate::budget::BudgetState;
use crate::engine::{
    answer_of, answer_to, group_of, groups_after, holds_after, holds_by, subject, Arrival, PendingEngine,
};
use crate::ledger::{
    AccountId, Amount, ApplyIndex, BudgetGroup, HoldData, PendingEffect, Transfer, TransferFlags, TxId,
    EXPIRY_VOID_BIT,
};
use crate::record_log::Record;
use crate::store::DurableStore;

verus! {

/// A creation that is stored makes the hold it describes: who pays whom, on which ledger, drawing on which
/// budget, with all of the amount left. Nothing is there under its key before it says so, and one that is
/// not stored makes none.
pub proof fn law_a_creation_makes_the_hold_it_describes(
    holds: Map<TxId, HoldData>,
    arrival: Arrival,
    tx_id: TxId,
    debit_account: AccountId,
    credit_account: AccountId,
    amount: Amount,
    ledger: u32,
    budget: BudgetGroup,
    stored: bool,
)
    ensures
        ({
            let effect = PendingEffect::Create {
                tx_id,
                debit_account,
                credit_account,
                amount,
                ledger,
                budget,
            };
            let after = holds_by(holds, effect, arrival, stored);
            &&& stored ==> {
                &&& after.contains_key(tx_id)
                &&& after[tx_id].debit_account == debit_account
                &&& after[tx_id].credit_account == credit_account
                &&& after[tx_id].amount == amount
                &&& after[tx_id].remaining == amount
                &&& after[tx_id].ledger == ledger
                &&& after[tx_id].budget == budget
                &&& after[tx_id].budget_members == 0
                &&& after[tx_id].budget_remaining == 0
            }
            &&& !stored ==> after == holds
            &&& forall|other: TxId|
                other != tx_id ==> (#[trigger] after.contains_key(other) == holds.contains_key(other)
                    && after[other] == holds[other])
        }),
{
}

/// A partial resolution leaves of a hold that is there what it says: its parties, its ledger, its budget
/// and what remains are the decision's, and so is its size where the decision brought one; where it brought
/// none the hold keeps the size it had. A hold that is not there stays away the first time, and is given back
/// by a replay of a decision that brought its size.
pub proof fn law_a_settlement_leaves_what_it_says(
    holds: Map<TxId, HoldData>,
    arrival: Arrival,
    pending_ref: TxId,
    debit_account: AccountId,
    credit_account: AccountId,
    amount: Amount,
    remaining: Amount,
    ledger: u32,
    budget: BudgetGroup,
    stored: bool,
)
    ensures
        ({
            let effect = PendingEffect::Reduce {
                pending_ref,
                debit_account,
                credit_account,
                amount,
                remaining,
                ledger,
                budget,
            };
            let after = holds_by(holds, effect, arrival, stored);
            let back = arrival != Arrival::First && amount > 0 && stored;
            &&& after.contains_key(pending_ref) <==> holds.contains_key(pending_ref) || back
            &&& after.contains_key(pending_ref) ==> {
                &&& after[pending_ref].debit_account == debit_account
                &&& after[pending_ref].credit_account == credit_account
                &&& after[pending_ref].remaining == remaining
                &&& after[pending_ref].ledger == ledger
                &&& after[pending_ref].budget == budget
                &&& after[pending_ref].budget_members == 0
                &&& after[pending_ref].budget_remaining == 0
                &&& amount > 0 ==> after[pending_ref].amount == amount
                &&& amount <= 0 ==> after[pending_ref].amount == holds[pending_ref].amount
            }
            &&& forall|other: TxId|
                other != pending_ref ==> (#[trigger] after.contains_key(other) == holds.contains_key(
                    other,
                ) && after[other] == holds[other])
        }),
{
}

/// A full resolution takes the hold it names away, and no other.
pub proof fn law_a_release_takes_its_hold_away(
    holds: Map<TxId, HoldData>,
    arrival: Arrival,
    pending_ref: TxId,
    budget: BudgetGroup,
    released: Amount,
    stored: bool,
)
    ensures
        ({
            let effect = PendingEffect::Remove { pending_ref, budget, released };
            let after = holds_by(holds, effect, arrival, stored);
            &&& !after.contains_key(pending_ref)
            &&& forall|other: TxId|
                other != pending_ref ==> (#[trigger] after.contains_key(other) == holds.contains_key(
                    other,
                ) && after[other] == holds[other])
        }),
{
}

/// A decision is about the hold that it creates or that it refers to.
pub proof fn law_a_decision_names_its_hold(effect: PendingEffect)
    ensures
        effect matches PendingEffect::Create { tx_id, .. } ==> subject(effect) == tx_id,
        effect matches PendingEffect::Reduce { pending_ref, .. } ==> subject(effect) == pending_ref,
        effect matches PendingEffect::Remove { pending_ref, .. } ==> subject(effect) == pending_ref,
{
}

/// The life of a hold, whatever else the ledger has: created it has all of its amount, settled in part it
/// has what the settlement left, between the same parties if the settlement names them, and released it is
/// gone.
pub proof fn law_a_hold_lives_from_its_creation_to_its_release(
    holds: Map<TxId, HoldData>,
    create: PendingEffect,
    reduce: PendingEffect,
    remove: PendingEffect,
)
    requires
        create is Create,
        reduce is Reduce,
        remove is Remove,
        create->tx_id == reduce->Reduce_pending_ref,
        create->tx_id == remove->Remove_pending_ref,
    ensures
        ({
            let key = create->tx_id;
            let made = holds_after(holds, create, true);
            let left = holds_after(made, reduce, true);
            let gone = holds_after(left, remove, true);
            &&& made[key].remaining == create->Create_amount
            &&& left.contains_key(key) && left[key].remaining == reduce->remaining
            &&& left[key].amount == if reduce->Reduce_amount > 0 {
                reduce->Reduce_amount
            } else {
                create->Create_amount
            }
            &&& !gone.contains_key(key)
            &&& gone == holds.remove(key)
        }),
{
    let key = create->tx_id;
    let made = holds_after(holds, create, true);
    let left = holds_after(made, reduce, true);
    assert(holds_after(left, remove, true) =~= holds.remove(key));
}

/// The position up to which a decision is already in the group totals when it arrives.
pub open spec fn reflected(arrival: Arrival) -> u64 {
    match arrival {
        Arrival::First => 0,
        Arrival::Again(reflect) => reflect.0,
    }
}

/// A creation past what the totals reflect adds one member and its amount to its own group; one without a
/// budget, or one that the totals reflect already, adds nothing. No other group changes.
pub proof fn law_a_creation_joins_its_group_once(
    groups: Map<u128, BudgetState>,
    effect: PendingEffect,
    at: ApplyIndex,
    arrival: Arrival,
    there: bool,
)
    requires
        effect is Create,
        group_of(groups, effect->Create_budget).members < u32::MAX,
        i64::MIN <= group_of(groups, effect->Create_budget).remaining + effect->Create_amount <= i64::MAX,
    ensures
        ({
            let group = effect->Create_budget.0;
            let after = groups_after(groups, effect, at, arrival, there);
            &&& if group != 0 && at.0 > reflected(arrival) {
                &&& after.contains_key(group)
                &&& groups.contains_key(group) ==> after[group].members == groups[group].members + 1
                    && after[group].remaining == groups[group].remaining + effect->Create_amount
                &&& !groups.contains_key(group) ==> after[group].members == 1 && after[group].remaining
                    == effect->Create_amount
            } else {
                after == groups
            }
            &&& forall|other: u128|
                other != group ==> (#[trigger] after.contains_key(other) == groups.contains_key(other)
                    && after[other] == groups[other])
        }),
{
}

/// A partial resolution changes no group's totals.
pub proof fn law_a_settlement_leaves_the_groups_alone(
    groups: Map<u128, BudgetState>,
    effect: PendingEffect,
    at: ApplyIndex,
    arrival: Arrival,
    there: bool,
)
    requires
        effect is Reduce,
    ensures
        groups_after(groups, effect, at, arrival, there) == groups,
{
}

/// A release of a hold that is there takes one member and what it released out of its own group, and the
/// group goes with its last member. A release of a hold that is not there, one without a budget, and one that
/// restored totals reflect already take nothing. No other group changes.
pub proof fn law_a_release_leaves_its_group_once(
    groups: Map<u128, BudgetState>,
    effect: PendingEffect,
    at: ApplyIndex,
    arrival: Arrival,
    there: bool,
)
    requires
        effect is Remove,
        groups.contains_key(effect->Remove_budget.0) ==> i64::MIN <= groups[effect->Remove_budget.0].remaining
            - effect->released <= i64::MAX,
    ensures
        ({
            let group = effect->Remove_budget.0;
            let after = groups_after(groups, effect, at, arrival, there);
            let takes = there && group != 0 && (arrival == Arrival::First || at.0 > reflected(arrival));
            &&& if takes && groups.contains_key(group) {
                &&& after.contains_key(group) <==> groups[group].members > 1
                &&& after.contains_key(group) ==> after[group].members == groups[group].members - 1
                    && after[group].remaining == groups[group].remaining - effect->released
            } else {
                after == groups
            }
            &&& forall|other: u128|
                other != group ==> (#[trigger] after.contains_key(other) == groups.contains_key(other)
                    && after[other] == groups[other])
        }),
{
}

/// Two members join a group and one leaves it: what is left is what the other brought, in either order.
pub proof fn law_a_group_is_what_its_members_brought(
    groups: Map<u128, BudgetState>,
    one: PendingEffect,
    other: PendingEffect,
    leaves: PendingEffect,
    at: ApplyIndex,
)
    requires
        one is Create,
        other is Create,
        leaves is Remove,
        at.0 > 0,
        one->Create_budget == other->Create_budget,
        one->Create_budget == leaves->Remove_budget,
        one->Create_budget.0 != 0,
        !groups.contains_key(one->Create_budget.0),
        leaves->released == one->Create_amount,
        i64::MIN <= one->Create_amount + other->Create_amount <= i64::MAX,
    ensures
        ({
            let group = one->Create_budget.0;
            let both = groups_after(
                groups_after(groups, one, at, Arrival::First, true),
                other,
                at,
                Arrival::First,
                true,
            );
            let left = groups_after(both, leaves, at, Arrival::First, true);
            &&& both[group].members == 2
            &&& both[group].remaining == one->Create_amount + other->Create_amount
            &&& left.contains_key(group)
            &&& left[group].members == 1
            &&& left[group].remaining == other->Create_amount
        }),
{
}

/// What a lookup answers is the hold as it stands, every field of it, with its group's totals where it has a
/// group that is there; and nothing for a key that has no hold.
pub proof fn law_an_answer_is_the_hold_with_its_groups_totals(
    holds: Map<TxId, HoldData>,
    groups: Map<u128, BudgetState>,
    key: TxId,
)
    ensures
        answer_to(holds, groups, key) is Some <==> holds.contains_key(key),
        answer_to(holds, groups, key) matches Some(found) ==> {
            let hold = holds[key];
            &&& found.debit_account == hold.debit_account
            &&& found.credit_account == hold.credit_account
            &&& found.amount == hold.amount
            &&& found.remaining == hold.remaining
            &&& found.ledger == hold.ledger
            &&& found.budget == hold.budget
            &&& groups.contains_key(hold.budget.0) ==> found.budget_members
                == groups[hold.budget.0].members && found.budget_remaining
                == groups[hold.budget.0].remaining
            &&& !groups.contains_key(hold.budget.0) ==> found.budget_members == hold.budget_members
                && found.budget_remaining == hold.budget_remaining
        },
{
}

/// A record answers a lookup of its own key, and of no other: with every field of its hold, and its group's
/// totals where the group is there.
pub proof fn law_a_record_answers_for_its_own_key(
    groups: Map<u128, BudgetState>,
    key: TxId,
    read: Option<Record>,
)
    ensures
        answer_of(groups, key, read) is Some <==> read is Some && read.unwrap().0 == key,
        answer_of(groups, key, read) matches Some(found) ==> {
            let hold = read.unwrap().1;
            &&& found.debit_account == hold.debit_account
            &&& found.credit_account == hold.credit_account
            &&& found.amount == hold.amount
            &&& found.remaining == hold.remaining
            &&& found.ledger == hold.ledger
            &&& found.budget == hold.budget
            &&& found.budget_members == if groups.contains_key(hold.budget.0) {
                groups[hold.budget.0].members
            } else {
                hold.budget_members
            }
            &&& found.budget_remaining == if groups.contains_key(hold.budget.0) {
                groups[hold.budget.0].remaining
            } else {
                hold.budget_remaining
            }
        },
{
}

/// An expiry void says of a hold what the hold says: it releases the hold of that key between its own
/// parties, on its own ledger, for no amount of its own, as a void.
pub proof fn law_an_expiry_void_says_what_its_hold_says(key: TxId, hold: HoldData)
    ensures
        ({
            let void = Transfer::expiry_void(key, hold);
            &&& void.pending_ref == key
            &&& void.debit_account == hold.debit_account
            &&& void.credit_account == hold.credit_account
            &&& void.ledger == hold.ledger
            &&& void.amount == 0
            &&& void.flags == TransferFlags::void_pending()
            &&& void.flags.0 == 8
        }),
{
}

/// An expiry void's name is its hold's with one bit set that the hold's has not: two holds whose names are
/// without the bit have voids of different names, and none of them is a hold's own.
pub proof fn law_an_expiry_void_has_a_name_of_its_own(one: TxId, other: TxId)
    requires
        one.0 < EXPIRY_VOID_BIT,
        other.0 < EXPIRY_VOID_BIT,
    ensures
        TxId::expiry_void_of(one).0 == one.0 + 0x8000_0000_0000_0000_0000_0000_0000_0000,
        TxId::expiry_void_of(one) == TxId::expiry_void_of(other) ==> one == other,
        TxId::expiry_void_of(one) != other,
        TxId::expiry_void_of(TxId::expiry_void_of(one)) == TxId::expiry_void_of(one),
{
    let a = one.0;
    let b = other.0;
    assert(a | EXPIRY_VOID_BIT == a + EXPIRY_VOID_BIT && ((a | EXPIRY_VOID_BIT) == (b | EXPIRY_VOID_BIT)
        ==> a == b) && ((a | EXPIRY_VOID_BIT) | EXPIRY_VOID_BIT) == (a | EXPIRY_VOID_BIT)) by (bit_vector)
        requires
            a < EXPIRY_VOID_BIT,
            b < EXPIRY_VOID_BIT,
    ;
}

/// What the engine can take: a decision that is not counted in a group or whose group's totals stay within a word,
/// while there are positions left to count and, if a record is to be written, room for it.
pub proof fn law_the_engine_takes_what_adds_up<S: DurableStore>(
    engine: PendingEngine<S>,
    effect: PendingEffect,
    at: ApplyIndex,
    arrival: Arrival,
)
    requires
        engine.can_take(effect, at, arrival),
    ensures
        engine.spec_applied() < u64::MAX,
        effect is Remove || engine.log().room_to_append(),
        effect is Create && !(effect->Create_budget).is_absent() && at.0 > reflected(arrival) ==> {
            let state = group_of(engine.groups(), effect->Create_budget);
            &&& state.members + 1 <= u32::MAX
            &&& i64::MIN <= state.remaining + effect->Create_amount <= i64::MAX
        },
{
}

/// A decision needs no record read for it if it creates, or if the index is sure of its hold and the decision says
/// what the hold was worth, or needs not to know it.
pub proof fn law_a_sure_index_needs_no_record<S: DurableStore>(
    engine: PendingEngine<S>,
    effect: PendingEffect,
)
    ensures
        effect is Create ==> engine.needs_no_record(effect),
        effect is Remove ==> (engine.needs_no_record(effect) <==> engine.settled_by_index(
            effect->Remove_pending_ref,
        )),
        effect is Reduce ==> (engine.needs_no_record(effect) <==> effect->Reduce_amount > 0
            && engine.settled_by_index(effect->Reduce_pending_ref)),
{
}

} // verus!
