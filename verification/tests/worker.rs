use ledger_pending::block::RECORDS_PER_BLOCK;
use ledger_pending::cache::Cached;
use ledger_pending::config::{BackingKind, MemoryPendingConfig, PendingCapacity, Share};
use ledger_pending::lane::UNORDERED;
use ledger_pending::ledger::{
    AccountId, ApplyIndex, BudgetGroup, PendingEffect, TransferKind, TxId,
};
use ledger_pending::memory_store::MemoryStore;
use ledger_pending::ports::{
    PendingCommand, PendingFence, PendingLookup, PendingNotice, PendingReply,
};
use ledger_pending::worker::PendingWorker;

type Worker = PendingWorker<Cached<MemoryStore>>;

fn config() -> MemoryPendingConfig {
    let half = Share { billionths: 500_000_000 };
    MemoryPendingConfig {
        capacity: PendingCapacity {
            // An hour of arrivals is one block, so a block's worth of holds reaches a segment.
            daily_arrivals: RECORDS_PER_BLOCK as u64 * 24,
            worst_survivor_share: half,
            retention_days: 1,
            grace_days: 1,
            survives_flush_window: half,
            flush_window_hours: 1,
            residency_hours: 1,
        },
        ..MemoryPendingConfig::default()
    }
}

fn start(config: MemoryPendingConfig) -> Worker {
    let sizes = config.sizes(BackingKind::Memory).expect("a test config");
    let store = Cached::new(MemoryStore::default(), config.read_cache_blocks);
    PendingWorker::new(&config, sizes, store)
}

fn create(tx_id: TxId) -> PendingCommand {
    PendingCommand::Apply {
        at: ApplyIndex(tx_id.raw() as u64),
        effect: PendingEffect::Create {
            tx_id,
            debit_account: AccountId(1),
            credit_account: AccountId(2),
            amount: 10,
            ledger: 1,
            budget: BudgetGroup::absent(),
        },
    }
}

fn lookup(pending_ref: TxId, seq: u64) -> PendingCommand {
    PendingCommand::Lookup(PendingLookup {
        correlation: 100 + seq,
        lane: AccountId(1),
        seq,
        pending_ref,
    })
}

/// A round of the worker over a queue of commands: the notices it hands over, and the replies it delivers.
fn round(
    worker: &mut Worker,
    commands: &mut Vec<PendingCommand>,
    day: u64,
    now: u64,
) -> (Vec<PendingNotice>, Vec<PendingReply>) {
    let mut notices = Vec::new();
    while let Some(notice) = worker.next_notice() {
        notices.push(notice);
        worker.handed_over();
    }
    worker.sweep_expiry(day, true, now);
    if let Some(kept) = worker.take_deferred() {
        commands.insert(0, kept);
    }
    while !commands.is_empty() {
        let command = commands.remove(0);
        assert!(worker.can_take(command));
        if !worker.take(command, now) {
            break;
        }
    }
    while worker.harvest_one(now).is_some() {}
    worker.engine.collect_writes(now);
    let mut replies = Vec::new();
    while let Some(reply) = worker.orderer.pop_ready(now) {
        replies.push(reply);
    }
    worker.engine.drain(worker.drain_blocks_per_round, now);
    worker.engine.sync(now);
    worker.note_fault();
    (notices, replies)
}

/// A day that runs out reaches the port as notices.
#[test]
fn a_day_that_runs_out_arrives_as_notices_on_the_port() {
    let mut worker = start(config());
    let holds = RECORDS_PER_BLOCK + 1;
    let mut commands: Vec<PendingCommand> =
        (1..=holds).map(|id| create(TxId(id as u128))).collect();
    // A record's segment is the day it was written.
    let mut rounds = 0;
    while worker.engine.traffic().carried_on < RECORDS_PER_BLOCK as u64 {
        let (notices, _) = round(&mut worker, &mut commands, 0, 0);
        assert!(notices.is_empty());
        rounds += 1;
        assert!(rounds < 1000, "the engine never wrote the holds");
    }

    // Nothing has run out yet, and nothing may be released before it has.
    for id in 1..=2u128 {
        commands.push(create(TxId(holds as u128 + id)));
        let want = holds as u64 + id as u64;
        while worker.engine.traffic().appended < want {
            let (notices, _) = round(&mut worker, &mut commands, 1, 0);
            assert!(
                notices.is_empty(),
                "a hold was offered before its lifetime ran out"
            );
        }
    }

    let mut offered = 0;
    let mut rounds = 0;
    while offered < RECORDS_PER_BLOCK && rounds < 1000 {
        let (notices, _) = round(&mut worker, &mut commands, 2, 0);
        for notice in notices {
            if let PendingNotice::HoldExpired { void } = notice {
                assert_eq!(void.kind(), Ok(TransferKind::VoidExpiry));
                offered += 1;
            }
        }
        rounds += 1;
    }
    assert_eq!(
        offered, RECORDS_PER_BLOCK,
        "the worker handed over {offered} of {RECORDS_PER_BLOCK} expired holds"
    );
}

#[test]
fn a_lookup_and_a_fence_leave_in_the_order_of_their_lane() {
    let mut worker = start(config());
    let mut commands = vec![
        create(TxId(1)),
        lookup(TxId(1), 4),
        PendingCommand::Fence(PendingFence {
            correlation: 9,
            lane: AccountId(1),
            seq: 5,
        }),
        lookup(TxId(2), 6),
        lookup(TxId(1), UNORDERED),
    ];
    let (_, replies) = round(&mut worker, &mut commands, 0, 50);
    assert_eq!(replies.len(), 4);
    let ordered: Vec<u64> = replies
        .iter()
        .filter(|reply| reply.seq != UNORDERED)
        .map(|reply| reply.seq)
        .collect();
    assert_eq!(ordered, vec![4, 5, 6]);
    for reply in &replies {
        assert_eq!(reply.applied, 1);
        match reply.seq {
            5 => {
                assert_eq!((reply.correlation, reply.pending_ref), (9, TxId::absent()));
                assert!(reply.found.is_none());
            }
            6 => assert!(reply.found.is_none()),
            _ => assert_eq!(reply.found.map(|hold| hold.remaining), Some(10)),
        }
    }
}

#[test]
fn a_cold_lookup_is_answered_at_the_place_it_reserved() {
    let mut config = config();
    config.capacity.residency_hours = 1;
    config.read_cache_blocks = 0;
    let mut worker = start(config);
    let mut commands: Vec<PendingCommand> = (1..=RECORDS_PER_BLOCK * 8)
        .map(|id| create(TxId(id as u128)))
        .collect();
    while !commands.is_empty() {
        round(&mut worker, &mut commands, 0, 0);
    }
    for _ in 0..20 {
        round(&mut worker, &mut commands, 0, 0);
    }
    commands.push(lookup(TxId(1), 3));
    commands.push(lookup(TxId(RECORDS_PER_BLOCK as u128 * 8), 4));
    let (_, replies) = round(&mut worker, &mut commands, 0, 10);
    assert_eq!(replies.len(), 2);
    assert_eq!((replies[0].seq, replies[1].seq), (3, 4));
    assert_eq!(replies[0].found.map(|hold| hold.amount), Some(10));
    assert!(worker.engine.traffic().store_reads > 0, "nothing was cold");
    assert!(worker.inflight.is_empty());
}

#[test]
fn applying_stops_at_the_ceiling_and_the_command_is_kept() {
    let mut worker = start(config());
    worker.buffer_ceiling = 1;
    let mut id = 0;
    let refused = loop {
        id += 1;
        if !worker.take(create(TxId(id)), 0) {
            break TxId(id);
        }
        assert!(id < 1000, "the buffer grew past its ceiling");
    };
    assert_eq!(worker.buffer_stalls, 1);
    assert_eq!(worker.take_deferred(), Some(create(refused)));
    assert_eq!(worker.engine.applied(), id as u64 - 1);
}

#[test]
fn every_nth_answer_claims_to_be_one_decision_short() {
    let mut config = config();
    config.stale_answer_every = 3;
    let mut worker = start(config);
    let mut commands = vec![create(TxId(1)), create(TxId(2))];
    for seq in 1..=6 {
        commands.push(lookup(TxId(1), seq));
    }
    let (_, replies) = round(&mut worker, &mut commands, 0, 0);
    let claims: Vec<u64> = replies.iter().map(|reply| reply.applied).collect();
    assert_eq!(claims, vec![2, 2, 1, 2, 2, 1]);
}

#[test]
fn a_hold_the_index_has_no_room_for_is_news() {
    let config = config();
    let mut sizes = config.sizes(BackingKind::Memory).expect("a test config");
    sizes.slots = 8;
    let store = Cached::new(MemoryStore::default(), 0);
    let mut worker: Worker = PendingWorker::new(&config, sizes, store);
    let mut lost = None;
    for id in 1..=64u128 {
        assert!(worker.take(create(TxId(id)), 0));
        if let Some(PendingNotice::HoldNotStored { hold }) = worker.next_notice() {
            lost = Some((hold, TxId(id)));
            break;
        }
    }
    let (named, asked) = lost.expect("eight slots cannot take 64 holds");
    assert_eq!(named, asked);
}
