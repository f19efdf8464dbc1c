use ledger_pending::footprint::{footprint, raft_footprint, MapGauge, Occupied, ENTRY_BUCKET_BYTES};
use ledger_pending::ledger::{AccountId, ApplyIndex, BudgetGroup, PendingEffect, TxId};
use ledger_pending::overlay::{HoldOverlay, OverlayState};
use ledger_pending::ports::{PendingCommand, PendingSide};

const HOLD: TxId = TxId(7);

#[test]
fn a_removal_is_remembered_until_the_engine_has_applied_it() {
    // A soft limit of zero, so housekeeping evicts whatever it is allowed to.
    let mut overlay = HoldOverlay::new(4, 0, 4);
    overlay.admit_lookup(HOLD, Some(100));
    overlay.pin(HOLD);

    // The tenth apply handed over is this removal.
    overlay.forget(HOLD, 10);

    assert!(overlay.hold_is_missing(HOLD));
    overlay.maintain(9);
    assert!(
        overlay.hold_is_missing(HOLD),
        "a pinned entry may not be evicted"
    );

    // Unpinning is not what makes it droppable.
    overlay.unpin(HOLD);
    overlay.maintain(9);
    assert!(
        overlay.hold_is_missing(HOLD),
        "the marker went before the engine had applied the removal"
    );

    overlay.maintain(10);
    assert!(!overlay.hold_is_missing(HOLD));
    assert!(overlay.is_empty());
}

#[test]
fn a_removal_with_no_pin_is_remembered_too() {
    let mut overlay = HoldOverlay::new(4, 0, 4);
    overlay.admit_lookup(HOLD, Some(100));

    overlay.forget(HOLD, 3);
    assert!(overlay.hold_is_missing(HOLD), "dropped with nobody reading");

    // The answer that crosses the removal.
    overlay.admit_lookup(HOLD, Some(100));
    assert!(
        overlay.hold_is_missing(HOLD),
        "an answer from before the removal brought the hold back"
    );

    overlay.maintain(3);
    assert!(!overlay.hold_is_missing(HOLD));
}

#[test]
fn a_decision_outranks_an_answer_that_was_already_in_flight() {
    let mut overlay = HoldOverlay::new(4, 1 << 10, 4);

    overlay.begin_lookup(HOLD);
    overlay.created(HOLD, 100);
    overlay.admit_lookup(HOLD, None);
    assert!(
        !overlay.hold_is_missing(HOLD),
        "the hold was created while the answer was in flight"
    );

    overlay.note_remaining(HOLD, 40);
    overlay.admit_lookup(HOLD, Some(100));
    assert_eq!(
        overlay.overlay(HOLD).remaining,
        Some(40),
        "the older reading was dropped"
    );
}

#[test]
fn a_failed_batch_gives_back_what_it_took() {
    let mut overlay = HoldOverlay::new(4, 0, 4);
    overlay.admit_lookup(HOLD, Some(100));
    overlay.reserve(HOLD, 60, true);
    assert_eq!(
        overlay.overlay(HOLD),
        OverlayState {
            remaining: Some(100),
            taken: 60,
            resolved: true
        }
    );
    overlay.maintain(u64::MAX);
    assert_eq!(overlay.len(), 1, "a hold with a batch in flight was evicted");
    overlay.compensate(HOLD, 60, true);
    assert_eq!(overlay.overlay(HOLD).taken, 0);
    assert!(!overlay.overlay(HOLD).resolved);
    overlay.reserve(HOLD, 25, false);
    overlay.release_reservation(HOLD, 40);
    assert_eq!(overlay.overlay(HOLD).taken, 0, "more was given back than was taken");
}

#[test]
fn housekeeping_drops_no_more_than_its_budget() {
    let mut overlay = HoldOverlay::new(4, 2, 3);
    for hold in 1..=10 {
        overlay.admit_lookup(TxId(hold), None);
    }
    assert_eq!(overlay.maintain(0), 3);
    assert_eq!(overlay.len(), 7);
    assert_eq!(overlay.maintain(0), 3);
    assert_eq!(overlay.maintain(0), 3);
    assert_eq!(overlay.len(), 1);
    assert_eq!(overlay.maintain(0), 0, "an overlay within its limit was swept");
    assert_eq!(overlay.peak(), 10);
}

#[test]
fn a_sent_removal_is_stamped_with_its_own_number() {
    let mut side = PendingSide::new(4, 0, 4);
    side.overlay.begin_lookup(HOLD);
    let create = PendingEffect::Create {
        tx_id: HOLD,
        debit_account: AccountId(1),
        credit_account: AccountId(2),
        amount: 50,
        ledger: 1,
        budget: BudgetGroup::absent(),
    };
    side.sent(PendingCommand::Apply { effect: create, at: ApplyIndex(1) });
    assert_eq!(side.overlay.overlay(HOLD).remaining, Some(50));
    let reduce = PendingEffect::Reduce {
        pending_ref: HOLD,
        debit_account: AccountId(1),
        credit_account: AccountId(2),
        amount: 50,
        remaining: 20,
        ledger: 1,
        budget: BudgetGroup::absent(),
    };
    side.sent(PendingCommand::Apply { effect: reduce, at: ApplyIndex(2) });
    assert_eq!(side.overlay.overlay(HOLD).remaining, Some(20));
    let remove = PendingEffect::Remove {
        pending_ref: HOLD,
        budget: BudgetGroup::absent(),
        released: 20,
    };
    side.sent(PendingCommand::ExpiryDeclined { hold: HOLD });
    side.sent(PendingCommand::Apply { effect: remove, at: ApplyIndex(3) });
    assert_eq!(side.applies_sent, 3);
    assert!(side.overlay.hold_is_missing(HOLD));
    side.overlay.maintain(2);
    assert!(side.overlay.hold_is_missing(HOLD));
    side.overlay.maintain(3);
    assert!(side.overlay.is_empty());
}

#[test]
fn a_report_prices_every_part() {
    let mut overlay = HoldOverlay::new(4, 0, 4);
    overlay.admit_lookup(TxId(1), None);
    overlay.admit_lookup(TxId(2), None);
    overlay.maintain(0);
    let gauge = |entries: usize| MapGauge { entries, peak: entries + 1, capacity: entries + 2 };
    let occupied = Occupied {
        holds: gauge(10),
        budgets: gauge(20),
        blocks: gauge(30),
        buffer: gauge(40),
        resident: gauge(50),
        read_cache_blocks: 64,
        lane_blocks: 0,
        read_pool_blocks: 16,
    };
    let parts = footprint(&occupied, &overlay);
    let lines: Vec<(&str, usize, usize, usize, usize)> = parts
        .iter()
        .map(|part| (part.name, part.entries, part.peak_entries, part.capacity, part.bytes))
        .collect();
    assert_eq!(
        lines,
        vec![
            ("engine index", 10, 11, 12, 12 * 33),
            ("engine budget groups", 20, 21, 22, 22 * 33),
            ("engine writeback buffer", 40, 41, 42, 40 * 4096),
            ("engine resident blocks", 50, 51, 52, 50 * 4096),
            ("engine record blocks", 30, 31, 0, 30 * 4096),
            ("volume read cache", 64, 64, 0, 64 * 4096),
            ("volume read pool", 16, 16, 0, 16 * 4096),
            ("pending overlay", 0, 2, 0, 2 * ENTRY_BUCKET_BYTES),
        ]
    );
    let (log, proposals) = raft_footprint(3, 4, gauge(5), 6, 80, 40);
    assert_eq!((log.name, log.entries, log.bytes), ("kept log", 3, 4 * 80));
    assert_eq!(
        (proposals.name, proposals.entries, proposals.peak_entries, proposals.bytes),
        ("proposals in flight", 5, 6, 7 * 40 + 6 * 80)
    );
}
