use ledger_pending::delay::LatencyRange;
use ledger_pending::ledger::ApplyIndex;
use ledger_pending::raft::{EchoRaftConfig, RaftOutcome, RaftProposal, RaftWorker};

fn proposal(batch_id: u64) -> RaftProposal<u64> {
    RaftProposal {
        batch_id,
        effects: vec![batch_id * 10, batch_id * 10 + 1],
    }
}

fn settled(config: EchoRaftConfig, batches: u64) -> (Vec<(u64, u64, RaftOutcome)>, Vec<u64>) {
    let mut worker = RaftWorker::new(config);
    for batch in 1..=batches {
        worker.take(proposal(batch), 0);
    }
    let mut seen = Vec::new();
    while let Some(commit) = worker.deliver(u64::MAX) {
        assert_eq!(commit.effects, vec![commit.batch_id * 10, commit.batch_id * 10 + 1]);
        seen.push((commit.batch_id, commit.index.0, commit.outcome));
    }
    (seen, worker.log())
}

#[test]
fn batches_commit_in_the_order_they_were_proposed() {
    let (seen, log) = settled(EchoRaftConfig { keep_log: true, ..EchoRaftConfig::default() }, 3);
    assert_eq!(
        seen,
        vec![
            (1, 1, RaftOutcome::Committed),
            (2, 2, RaftOutcome::Committed),
            (3, 3, RaftOutcome::Committed)
        ]
    );
    assert_eq!(log, vec![10, 11, 20, 21, 30, 31]);
}

#[test]
fn a_refused_batch_takes_no_position() {
    let config = EchoRaftConfig { fail_every: 2, keep_log: true, ..EchoRaftConfig::default() };
    let (seen, log) = settled(config, 4);
    assert_eq!(
        seen,
        vec![
            (1, 1, RaftOutcome::Committed),
            (2, 1, RaftOutcome::Failed),
            (3, 2, RaftOutcome::Committed),
            (4, 2, RaftOutcome::Failed)
        ]
    );
    assert_eq!(log, vec![10, 11, 30, 31]);
}

#[test]
fn the_fault_answers_a_pair_in_the_wrong_order() {
    let (seen, log) = settled(EchoRaftConfig { reorder_every: 3, ..EchoRaftConfig::default() }, 4);
    let order: Vec<u64> = seen.iter().map(|commit| commit.0).collect();
    assert_eq!(order, vec![1, 3, 2, 4]);
    let positions: Vec<u64> = seen.iter().map(|commit| commit.1).collect();
    assert_eq!(positions, vec![1, 2, 3, 4]);
    assert!(log.is_empty(), "a log was kept that nobody asked for");
}

#[test]
fn a_batch_waits_for_its_round_trip() {
    let mut worker = RaftWorker::new(EchoRaftConfig {
        round_trip: LatencyRange::fixed(500),
        ..EchoRaftConfig::default()
    });
    worker.take(proposal(1), 100);
    assert!(worker.deliver(599).is_none());
    assert_eq!(worker.outstanding(), 1);
    let commit = worker.deliver(600).expect("the round trip is over");
    assert_eq!(commit.index, ApplyIndex(1));
    assert_eq!(worker.outstanding(), 0);
}

/// Over a whole run the batches come back in the order they were proposed, a refused one takes no position,
/// and the log is the committed ones' effects.
#[test]
fn a_run_of_batches_comes_back_in_order() {
    let mut worker: RaftWorker<u64> = RaftWorker::new(EchoRaftConfig {
        fail_every: 3,
        keep_log: true,
        ..EchoRaftConfig::default()
    });
    let mut back = Vec::new();
    for batch in 1..=9u64 {
        worker.take(
            RaftProposal {
                batch_id: batch,
                effects: vec![batch * 10, batch * 10 + 1],
            },
            0,
        );
        if batch % 2 == 0 {
            if let Some(commit) = worker.deliver(u64::MAX) {
                back.push((commit.batch_id, commit.index));
            }
        }
    }
    while let Some(commit) = worker.deliver(u64::MAX) {
        back.push((commit.batch_id, commit.index));
    }
    let expected: Vec<(u64, ApplyIndex)> = vec![
        (1, ApplyIndex(1)),
        (2, ApplyIndex(2)),
        (3, ApplyIndex(2)),
        (4, ApplyIndex(3)),
        (5, ApplyIndex(4)),
        (6, ApplyIndex(4)),
        (7, ApplyIndex(5)),
        (8, ApplyIndex(6)),
        (9, ApplyIndex(6)),
    ];
    assert_eq!(back, expected);
    assert_eq!(
        worker.log(),
        vec![10, 11, 20, 21, 40, 41, 50, 51, 70, 71, 80, 81]
    );
}
