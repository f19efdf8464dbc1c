use ledger_pending::lane::UNORDERED;
use ledger_pending::ledger::AccountId;
use ledger_pending::orderer::Orderer;

const LANE: AccountId = AccountId(9);

#[test]
fn work_that_finishes_out_of_order_leaves_in_the_order_it_arrived() {
    let mut orderer: Orderer<&str> = Orderer::new(0);
    orderer.expect(LANE, 4);
    orderer.expect(LANE, 5);

    orderer.fill(LANE, 5, 10, "second");
    assert!(
        orderer.pop_ready(1_000).is_none(),
        "the later place left first"
    );

    orderer.fill(LANE, 4, 20, "first");
    assert_eq!(orderer.pop_ready(1_000), Some("first"));
    assert_eq!(orderer.pop_ready(1_000), Some("second"));
    assert_eq!(orderer.pop_ready(1_000), None);
}

#[test]
fn a_run_begins_at_whatever_seq_arrives_after_the_lane_falls_quiet() {
    let mut orderer: Orderer<&str> = Orderer::new(0);
    orderer.expect(LANE, 7);
    orderer.fill(LANE, 7, 0, "seventh");
    assert_eq!(orderer.pop_ready(1), Some("seventh"));

    // The lane fell quiet; the next run starts wherever it starts.
    orderer.expect(LANE, 30);
    orderer.fill(LANE, 30, 0, "thirtieth");
    assert_eq!(orderer.pop_ready(1), Some("thirtieth"));
}

#[test]
fn a_reply_waits_for_its_own_work_as_well_as_its_turn() {
    let mut orderer: Orderer<&str> = Orderer::new(0);
    orderer.expect(LANE, 1);
    orderer.fill(LANE, 1, 500, "first");
    assert!(
        orderer.pop_ready(499).is_none(),
        "released before it was finished"
    );
    assert_eq!(orderer.next_due(), Some(500));
    assert_eq!(orderer.pop_ready(500), Some("first"));
}

#[test]
fn one_lane_waiting_does_not_hold_another_up() {
    let other = AccountId(10);
    let mut orderer: Orderer<&str> = Orderer::new(0);
    orderer.expect(LANE, 1);
    orderer.expect(LANE, 2);
    orderer.fill(LANE, 2, 0, "blocked");
    orderer.expect(other, 1);
    orderer.fill(other, 1, 0, "free");

    assert_eq!(orderer.pop_ready(1), Some("free"));
    assert_eq!(orderer.pop_ready(1), None);
    // Finished, and waiting for a place that has not been filled. That wait is what ordering costs.
    assert_eq!(orderer.behind_heads(), 1);
}

#[test]
fn the_fault_releases_a_reply_out_of_its_turn() {
    let mut orderer: Orderer<&str> = Orderer::new(1);
    orderer.expect(LANE, 5);
    orderer.expect(LANE, 6);
    orderer.fill(LANE, 6, 0, "out of turn");
    assert_eq!(
        orderer.pop_ready(1),
        Some("out of turn"),
        "the fault did not fire"
    );
}

#[test]
fn unordered_replies_leave_without_waiting_and_do_not_overwrite_each_other() {
    let mut orderer: Orderer<&str> = Orderer::new(0);
    orderer.expect(LANE, 1);
    orderer.fill(LANE, UNORDERED, 0, "exempt one");
    orderer.fill(LANE, UNORDERED, 0, "exempt two");
    assert_eq!(orderer.pop_ready(1), Some("exempt one"));
    assert_eq!(orderer.pop_ready(1), Some("exempt two"));

    orderer.fill(LANE, 1, 0, "ordered");
    assert_eq!(orderer.pop_ready(1), Some("ordered"));
}

/// The reply whose turn was taken is not lost: it leaves in the other's.
#[test]
fn the_fault_loses_nobody() {
    let mut orderer: Orderer<&str> = Orderer::new(1);
    orderer.expect(LANE, 5);
    orderer.expect(LANE, 6);
    orderer.fill(LANE, 6, 0, "six");
    orderer.fill(LANE, 5, 0, "five");
    assert_eq!(orderer.pop_ready(1), Some("six"));
    assert_eq!(orderer.pop_ready(1), Some("five"));
    assert_eq!(orderer.pop_ready(1), None);
    assert_eq!(orderer.held(), 0);
}

#[test]
fn what_a_reply_waited_is_put_down_to_its_lane_or_to_the_loop() {
    let mut orderer: Orderer<u8> = Orderer::new(0);
    orderer.expect(LANE, 1);
    orderer.expect(LANE, 2);
    orderer.fill(LANE, 2, 100, 2);
    orderer.fill(LANE, 1, 150, 1);
    assert_eq!(orderer.pop_ready(200), Some(1));
    assert_eq!(orderer.pop_ready(230), Some(2));
    let wait = orderer.order_wait();
    assert_eq!(wait.released, 2);
    assert_eq!(wait.held_for_order, 1);
    assert_eq!((wait.order_nanos, wait.order_worst_nanos), (130, 130));
    assert_eq!(wait.delivery_nanos, 50);
    assert_eq!(wait.deepest_lane, 2);
}

/// Over a whole run a lane's replies leave in the order of their seqs, however they finish.
#[test]
fn a_lane_keeps_its_order_over_a_run() {
    let mut orderer: Orderer<u64> = Orderer::new(0);
    let mut left = Vec::new();
    for start in [1u64, 11, 21] {
        for seq in start..start + 10 {
            orderer.expect(LANE, seq);
        }
        for seq in (start..start + 10).rev() {
            orderer.fill(LANE, seq, 0, seq);
            if seq % 4 == 0 {
                while let Some(value) = orderer.pop_ready(0) {
                    left.push(value);
                }
            }
        }
        while let Some(value) = orderer.pop_ready(0) {
            left.push(value);
        }
    }
    let expected: Vec<u64> = (1..=30).collect();
    assert_eq!(left, expected);
}
