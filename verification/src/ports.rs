//! What passes between the sequencer and the pending engine, and the sequencer's side of it.

use vstd::prelude::*;

use crate::ledger::{AccountId, Amount, ApplyIndex, HoldData, PendingEffect, Transfer, TxId};
use crate::overlay::{decided, known_of, pins_of, Entry, Hold, HoldOverlay};

verus! {

/// A request for a hold's record, at its place in its lane.
#[derive(Clone, Copy, Debug, PartialEq, Eq, Structural)]
pub struct PendingLookup {
    pub correlation: u64,
    pub lane: AccountId,
    pub seq: u64,
    pub pending_ref: TxId,
}

/// A place in a lane that reads nothing: the order it leaves in is all it is for.
#[derive(Clone, Copy, Debug, PartialEq, Eq, Structural)]
pub struct PendingFence {
    pub correlation: u64,
    pub lane: AccountId,
    pub seq: u64,
}

/// What the sequencer asks of the engine.
#[derive(Clone, Copy, Debug, PartialEq, Eq, Structural)]
pub enum PendingCommand {
    Lookup(PendingLookup),
    Fence(PendingFence),
    /// A committed decision, and its position in the log.
    Apply { effect: PendingEffect, at: ApplyIndex },
    /// An expiry void that the sequencer would not take.
    ExpiryDeclined { hold: TxId },
}

/// The answer to a lookup or a fence.
#[derive(Clone, Copy, Debug, PartialEq, Eq, Structural)]
pub struct PendingReply {
    pub correlation: u64,
    pub lane: AccountId,
    pub seq: u64,
    pub pending_ref: TxId,
    pub found: Option<HoldData>,
    /// The decisions the engine had applied.
    pub applied: u64,
}

/// What the engine says without being asked.
#[derive(Clone, Copy, Debug, PartialEq, Eq, Structural)]
pub enum PendingNotice {
    /// The store refused something: what was applied may not be there.
    StoreFailed,
    /// A hold's retention has run out, and this releases it.
    HoldExpired { void: Transfer },
    /// The index could not take a hold.
    HoldNotStored { hold: TxId },
}

/// The sequencer's side: its decisions about the holds in flight, and how many applies it has sent.
pub struct PendingSide {
    pub overlay: HoldOverlay,
    /// Numbers the applies handed over. The engine numbers the same ones as it applies them, and a
    /// removal's marker is stamped with its own number, so that it can go when the engine has reached it.
    pub applies_sent: u64,
}

/// The overlay once a command has been sent. What a hold has left follows the write the engine is sent,
/// and nothing else writes it.
pub open spec fn entries_after(
    entries: Map<u128, Entry>,
    command: PendingCommand,
    number: u64,
) -> Map<u128, Entry> {
    match command {
        PendingCommand::Apply { effect, .. } => match effect {
            PendingEffect::Create { tx_id, amount, .. } => if entries.contains_key(tx_id.0) {
                entries.insert(tx_id.0, decided(Some(entries[tx_id.0]), amount))
            } else {
                entries
            },
            PendingEffect::Reduce { pending_ref, remaining, .. } => if entries.contains_key(
                pending_ref.0,
            ) {
                match entries[pending_ref.0] {
                    Entry::Decided(hold) => entries.insert(
                        pending_ref.0,
                        Entry::Decided(Hold { committed_remaining: remaining, ..hold }),
                    ),
                    _ => entries,
                }
            } else {
                entries
            },
            PendingEffect::Remove { pending_ref, .. } => entries.insert(
                pending_ref.0,
                Entry::Removed {
                    pinned: pins_of(
                        if entries.contains_key(pending_ref.0) {
                            Some(entries[pending_ref.0])
                        } else {
                            None
                        },
                    ),
                    safe_after: number,
                },
            ),
        },
        _ => entries,
    }
}

impl PendingSide {
    pub open spec fn wf(&self) -> bool {
        self.overlay.wf()
    }

    pub fn new(capacity: usize, soft_limit: usize, eviction_per_round: usize) -> (side: Self)
        ensures
            side.wf(),
            side.overlay.entries() == Map::<u128, Entry>::empty(),
            side.overlay.limits() == (soft_limit, eviction_per_round),
            side.applies_sent == 0,
    {
        PendingSide {
            overlay: HoldOverlay::new(capacity, soft_limit, eviction_per_round),
            applies_sent: 0,
        }
    }

    /// The engine's queue has taken this command.
    pub fn sent(&mut self, command: PendingCommand)
        requires
            old(self).wf(),
            old(self).applies_sent < u64::MAX,
        ensures
            final(self).wf(),
            final(self).applies_sent == old(self).applies_sent + if command is Apply {
                1int
            } else {
                0int
            },
            final(self).overlay.entries() == entries_after(
                old(self).overlay.entries(),
                command,
                final(self).applies_sent,
            ),
            final(self).overlay.limits() == old(self).overlay.limits(),
    {
        match command {
            PendingCommand::Apply { effect, .. } => {
                self.applies_sent = self.applies_sent + 1;
                match effect {
                    PendingEffect::Create { tx_id, amount, .. } => {
                        self.overlay.created(tx_id, amount);
                    },
                    PendingEffect::Reduce { pending_ref, remaining, .. } => {
                        self.overlay.note_remaining(pending_ref, remaining);
                    },
                    PendingEffect::Remove { pending_ref, .. } => {
                        let number: u64 = self.applies_sent;
                        self.overlay.forget(pending_ref, number);
                    },
                }
            },
            _ => {},
        }
    }
}

/// A hold that a removal was sent for is gone, whatever an answer in flight says, until the engine says it
/// has applied that many decisions; then the marker may go.
pub proof fn law_a_removal_outlives_the_answers_that_cross_it(
    entries: Map<u128, Entry>,
    command: PendingCommand,
    number: u64,
    applied: u64,
    remaining: Option<Amount>,
)
    requires
        command matches PendingCommand::Apply { effect, .. } && effect is Remove,
    ensures
        ({
            let hold = command->effect->Remove_pending_ref;
            let after = entries_after(entries, command, number);
            &&& after.contains_key(hold.0)
            &&& known_of(Some(after[hold.0])) is Gone
            &&& crate::overlay::admitted(Some(after[hold.0]), remaining) == Some(after[hold.0])
            &&& after[hold.0].idle(applied) ==> applied >= number
            &&& applied >= number && !entries.contains_key(hold.0) ==> after[hold.0].idle(applied)
        }),
{
}

/// The sequencer's side says of a hold what the engine was told last: what a creation was worth, what a
/// settlement left, and nothing of any other hold. Only decisions change it, and a hold nobody keeps
/// anything for stays so until it is removed.
pub proof fn law_the_side_follows_what_was_sent(
    entries: Map<u128, Entry>,
    effect: PendingEffect,
    at: ApplyIndex,
    number: u64,
    other: u128,
)
    ensures
        ({
            let after = entries_after(entries, PendingCommand::Apply { effect, at }, number);
            let hold = match effect {
                PendingEffect::Create { tx_id, .. } => tx_id.0,
                PendingEffect::Reduce { pending_ref, .. } => pending_ref.0,
                PendingEffect::Remove { pending_ref, .. } => pending_ref.0,
            };
            &&& other != hold ==> after.contains_key(other) == entries.contains_key(other)
            &&& other != hold && entries.contains_key(other) ==> after[other] == entries[other]
            &&& !(effect is Remove) ==> after.contains_key(hold) == entries.contains_key(hold)
            &&& effect is Create && entries.contains_key(hold) ==> after[hold] is Decided
                && after[hold]->Decided_0.committed_remaining == effect->Create_amount
                && after[hold]->Decided_0.reserved == 0 && pins_of(Some(after[hold])) == pins_of(
                Some(entries[hold]),
            )
            &&& effect is Reduce && entries.contains_key(hold) && entries[hold] is Decided ==> {
                &&& after[hold] is Decided
                &&& after[hold]->Decided_0.committed_remaining == effect->remaining
                &&& after[hold]->Decided_0 == (Hold {
                    committed_remaining: effect->remaining,
                    ..entries[hold]->Decided_0
                })
            }
            &&& effect is Reduce && entries.contains_key(hold) && !(entries[hold] is Decided)
                ==> after[hold] == entries[hold]
            &&& effect is Remove ==> after.contains_key(hold) && after[hold] is Removed
                && after[hold]->safe_after == number
            &&& effect is Remove && entries.contains_key(hold) ==> pins_of(Some(after[hold])) == pins_of(
                Some(entries[hold]),
            )
            &&& effect is Remove && !entries.contains_key(hold) ==> pins_of(Some(after[hold])) == 0
        }),
{
}

/// A question, a place in a lane and a void that was not taken change nothing on the sequencer's side.
pub proof fn law_only_decisions_move_the_side(
    entries: Map<u128, Entry>,
    command: PendingCommand,
    number: u64,
)
    requires
        !(command is Apply),
    ensures
        entries_after(entries, command, number) == entries,
{
}

} // verus!
