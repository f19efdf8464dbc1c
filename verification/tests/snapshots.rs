use std::cell::RefCell;
use std::rc::Rc;

use ledger_pending::address::ObjectId;
use ledger_pending::block::{Block, RECORDS_PER_BLOCK};
use ledger_pending::engine::PendingEngine;
use ledger_pending::ledger::{AccountId, ApplyIndex, BudgetGroup, PendingEffect, TxId};
use ledger_pending::memory_store::MemoryStore;
use ledger_pending::policy::SnapshotPolicy;
use ledger_pending::snapshot::{NotASnapshot, SnapshotReader, RECORD};
use ledger_pending::snapshots::{restore_end, restore_piece, Action, Phase, Snapshots};
use ledger_pending::stats::VolumeStats;
use ledger_pending::store::{DurableStore, StoreFault};

/// A directory in memory, with the two names a snapshot can wear.
struct Directory {
    current: Option<Vec<u8>>,
    partial: Option<Vec<u8>>,
    refuses: bool,
}

impl Directory {
    fn new() -> Self {
        Directory {
            current: None,
            partial: None,
            refuses: false,
        }
    }

    fn files(&self) -> Vec<&'static str> {
        let mut names = Vec::new();
        if self.current.is_some() {
            names.push("current");
        }
        if self.partial.is_some() {
            names.push("partial");
        }
        names
    }

    /// Does what the stage asks for until it asks for nothing more this round. Answers whether it asked
    /// for anything.
    fn perform<S: DurableStore>(
        &mut self,
        stage: &mut Snapshots,
        engine: &mut PendingEngine<S>,
        first: Action,
    ) -> bool {
        let mut action = first;
        let mut did = false;
        loop {
            match action {
                Action::Nothing => return did,
                Action::OpenPartial => {
                    if !self.refuses {
                        self.partial = Some(Vec::new());
                    }
                    stage.opened(!self.refuses, engine);
                    return !self.refuses;
                }
                Action::Write(bytes) => {
                    let chunk = stage.chunk()[..bytes].to_vec();
                    let ok = match self.partial.as_mut() {
                        Some(partial) => {
                            partial.extend_from_slice(&chunk);
                            true
                        }
                        None => false,
                    };
                    action = stage.wrote(ok, engine);
                    did = true;
                }
                Action::Publish => {
                    self.current = self.partial.take();
                    let ok = self.current.is_some();
                    action = stage.published(ok, engine);
                    did = true;
                }
                Action::RemovePartial => {
                    self.partial = None;
                    return true;
                }
            }
        }
    }

    fn round<S: DurableStore>(&mut self, stage: &mut Snapshots, engine: &mut PendingEngine<S>) -> bool {
        let dumping = stage.phase() == Phase::Dumping;
        let action = stage.round(engine);
        self.perform(stage, engine, action) || dumping
    }

    /// Rounds until the stage stops having anything to do.
    fn drive<S: DurableStore>(
        &mut self,
        stage: &mut Snapshots,
        engine: &mut PendingEngine<S>,
        rounds: usize,
    ) {
        for _ in 0..rounds {
            if !self.round(stage, engine) {
                break;
            }
        }
    }

    fn read_into<S: DurableStore>(&self, engine: &mut PendingEngine<S>) -> Result<bool, NotASnapshot> {
        let Some(bytes) = self.current.as_ref() else {
            return Ok(false);
        };
        let mut reader = SnapshotReader::new();
        for piece in bytes.chunks(RECORD * 1000) {
            restore_piece(&mut reader, piece, engine)?;
        }
        restore_end(reader, engine)?;
        Ok(true)
    }
}

#[derive(Clone)]
struct SharedStore(Rc<RefCell<MemoryStore>>);

impl DurableStore for SharedStore {
    fn submit_write(
        &mut self,
        handle: u64,
        object: ObjectId,
        offset: u64,
        block: &Block,
        creating: bool,
        now: u64,
    ) -> bool {
        self.0
            .borrow_mut()
            .submit_write(handle, object, offset, block, creating, now)
    }

    fn submit_barrier(&mut self, handle: u64, now: u64) -> bool {
        self.0.borrow_mut().submit_barrier(handle, now)
    }

    fn poll_written(&mut self, now: u64) -> Option<(u64, Result<(), StoreFault>)> {
        self.0.borrow_mut().poll_written(now)
    }

    fn writes_inflight(&self) -> usize {
        self.0.borrow().writes_inflight()
    }

    fn writes_are_queued(&self) -> bool {
        self.0.borrow().writes_are_queued()
    }

    fn stats(&self) -> VolumeStats {
        self.0.borrow().stats()
    }

    fn read_at(&mut self, object: ObjectId, offset: u64, into: &mut Block) -> Result<(), StoreFault> {
        self.0.borrow_mut().read_at(object, offset, into)
    }

    fn submit(&mut self, handle: u64, object: ObjectId, offset: u64, now: u64) -> bool {
        self.0.borrow_mut().submit(handle, object, offset, now)
    }

    fn poll(&mut self, now: u64, into: &mut Block) -> Option<Result<u64, StoreFault>> {
        self.0.borrow_mut().poll(now, into)
    }

    fn inflight(&self) -> usize {
        self.0.borrow().inflight()
    }

    fn take_charge(&mut self) -> u64 {
        self.0.borrow_mut().take_charge()
    }

    fn submit_remove(&mut self, handle: u64, object: ObjectId, now: u64) -> bool {
        self.0.borrow_mut().submit_remove(handle, object, now)
    }

    fn submit_rename(&mut self, handle: u64, from: ObjectId, to: ObjectId, now: u64) -> bool {
        self.0.borrow_mut().submit_rename(handle, from, to, now)
    }

    fn blocks_in(&mut self, object: ObjectId) -> u64 {
        self.0.borrow_mut().blocks_in(object)
    }

    fn has_object(&mut self, object: ObjectId) -> bool {
        self.0.borrow_mut().has_object(object)
    }
}

fn create(id: u128) -> PendingEffect {
    PendingEffect::Create {
        tx_id: TxId(id),
        debit_account: AccountId(1),
        credit_account: AccountId(2),
        amount: 100,
        ledger: 1,
        budget: BudgetGroup(7),
    }
}

fn engine(slots: usize) -> PendingEngine<MemoryStore> {
    PendingEngine::sized(slots, 1, 1024, MemoryStore::default())
}

fn fill<S: DurableStore>(engine: &mut PendingEngine<S>, holds: u64) {
    for id in 1..=holds {
        engine
            .write(create(id as u128), ApplyIndex(id))
            .expect("the index took the hold");
        engine.drain(usize::MAX, 0);
        engine.collect_writes(0);
    }
    engine.sync(0);
    engine.collect_writes(0);
}

#[test]
fn a_snapshot_written_to_a_directory_restores_into_another_engine() {
    let slots = 1 << 12;
    let store = SharedStore(Rc::new(RefCell::new(MemoryStore::default())));
    // Residency of nothing, so a carried slot has to be read from the blocks the first engine wrote.
    let mut source = PendingEngine::sized(slots, 1, 0, store.clone());
    let holds = RECORDS_PER_BLOCK as u64 * 3;
    fill(&mut source, holds);

    let mut directory = Directory::new();
    let mut snapshots = Snapshots::new(SnapshotPolicy {
        every: 1,
        // Several rounds' worth, so the pacing is exercised rather than stepped over.
        bytes_per_round: RECORD * 4,
        ..SnapshotPolicy::default()
    });
    directory.drive(&mut snapshots, &mut source, 100_000);
    let stats = snapshots.stats();
    assert_eq!(stats.written, 1, "the dump did not reach the current name");
    assert_eq!(stats.abandoned, 0);
    assert!(stats.last_rounds > 1, "the throttle wrote it in one round");
    assert_eq!(
        directory.files(),
        vec!["current"],
        "the partial outlived the rename"
    );

    let mut restored = PendingEngine::sized(slots, 1, 0, store);
    assert!(
        directory
            .read_into(&mut restored)
            .expect("a snapshot this table can take"),
        "the directory had no snapshot in it"
    );
    assert_eq!(restored.coverage(), ApplyIndex(stats.covered));

    let mut carried = 0;
    for id in 1..=holds {
        let Some(after) = restored.lookup(TxId(id as u128)) else {
            continue;
        };
        let before = source
            .lookup(TxId(id as u128))
            .expect("a hold the snapshot carried is one the engine still has");
        assert_eq!(
            (
                before.remaining,
                before.budget_members,
                before.debit_account
            ),
            (after.remaining, after.budget_members, after.debit_account),
            "hold {id} differs after a round trip through the directory"
        );
        carried += 1;
    }
    assert!(carried > 0, "the snapshot carried nothing");
    assert!(restored.counts_agree());
}

#[test]
fn an_empty_directory_is_not_a_broken_snapshot() {
    let mut restored = engine(1 << 12);
    assert_eq!(
        Directory::new().read_into(&mut restored),
        Ok(false),
        "an empty directory was read as a broken snapshot"
    );
}

#[test]
fn a_dump_that_never_finished_is_not_the_current_snapshot() {
    let mut source = engine(1 << 12);
    fill(&mut source, RECORDS_PER_BLOCK as u64 * 3);

    let mut directory = Directory::new();
    let mut snapshots = Snapshots::new(SnapshotPolicy {
        every: 1,
        bytes_per_round: RECORD,
        ..SnapshotPolicy::default()
    });
    // A few rounds only, so the stream is well short of its end.
    directory.drive(&mut snapshots, &mut source, 4);
    assert_eq!(snapshots.stats().written, 0, "the dump finished too soon");
    assert_eq!(
        directory.files(),
        vec!["partial"],
        "a dump in progress was already wearing the current name"
    );

    let mut restored = engine(1 << 12);
    assert_eq!(
        directory.read_into(&mut restored),
        Ok(false),
        "a dump in progress was readable as the current snapshot"
    );
}

#[test]
fn a_shadow_past_its_budget_ends_the_dump_rather_than_growing() {
    let slots = 1 << 12;
    let mut source = engine(slots);
    let holds = RECORDS_PER_BLOCK as u64 * 3;
    fill(&mut source, holds);

    let mut directory = Directory::new();
    let mut snapshots = Snapshots::new(SnapshotPolicy {
        every: 1,
        bytes_per_round: RECORD,
        shadow_budget: 0,
    });
    // One round, then a write into the table between rounds, which is what shadows a bucket the dump has
    // not reached.
    let mut next = holds;
    for _ in 0..64 {
        if !directory.round(&mut snapshots, &mut source) {
            break;
        }
        next += 1;
        let _ = source.write(create(next as u128), ApplyIndex(next));
        source.drain(usize::MAX, 0);
    }
    assert_eq!(
        snapshots.stats().written,
        0,
        "a dump past its shadow budget was published"
    );
    assert!(
        snapshots.stats().abandoned > 0,
        "the shadow grew past its budget without the dump being given up on"
    );
    assert_eq!(
        source.shadowed_buckets(),
        0,
        "the shadow outlived the dump it was for"
    );
    assert!(
        directory.files().is_empty(),
        "an abandoned dump left its partial behind: {:?}",
        directory.files()
    );
}

#[test]
fn the_cadence_follows_the_log_and_not_the_rounds() {
    let mut source = engine(1 << 12);
    fill(&mut source, RECORDS_PER_BLOCK as u64);
    let applied = source.applied_through().raw();

    let mut directory = Directory::new();
    let mut snapshots = Snapshots::new(SnapshotPolicy {
        // Further than this engine has ever got, so no number of rounds reaches it.
        every: applied * 100,
        ..SnapshotPolicy::default()
    });
    directory.drive(&mut snapshots, &mut source, 1_000);
    assert_eq!(
        snapshots.stats().written,
        0,
        "a snapshot was written before the log had moved far enough"
    );

    // And the same stage writes one the moment the log passes the distance, with nothing else changed.
    let mut next = RECORDS_PER_BLOCK as u64;
    while source.applied_through().raw() < applied * 100 {
        next += 1;
        let _ = source.write(create(next as u128), ApplyIndex(next));
        source.drain(usize::MAX, 0);
        source.collect_writes(0);
    }
    source.sync(0);
    source.collect_writes(0);
    directory.drive(&mut snapshots, &mut source, 100_000);
    assert_eq!(
        snapshots.stats().written,
        1,
        "the log passed the distance and no snapshot followed"
    );
}

#[test]
fn a_dump_is_given_up_on_when_the_store_breaks_under_it() {
    let mut source = engine(1 << 12);
    fill(&mut source, RECORDS_PER_BLOCK as u64 * 3);

    let mut directory = Directory::new();
    let mut snapshots = Snapshots::new(SnapshotPolicy {
        every: 1,
        bytes_per_round: RECORD,
        ..SnapshotPolicy::default()
    });
    directory.drive(&mut snapshots, &mut source, 4);
    assert!(
        source.shadowed_buckets() > 0 || snapshots.phase() == Phase::Dumping,
        "there was no dump in flight to give up on"
    );

    let action = snapshots.abandon(&mut source);
    directory.perform(&mut snapshots, &mut source, action);
    assert_eq!(
        source.shadowed_buckets(),
        0,
        "the shadow outlived the dump the seal ended"
    );
    assert!(
        directory.files().is_empty(),
        "the given-up dump left its partial behind: {:?}",
        directory.files()
    );
    assert_eq!(snapshots.stats().written, 0);
    assert_eq!(snapshots.stats().abandoned, 1);

    // And a second call is not a second abandonment.
    let action = snapshots.abandon(&mut source);
    assert_eq!(action, Action::Nothing);
    assert_eq!(snapshots.stats().abandoned, 1);
}

#[test]
fn a_current_file_that_is_not_a_snapshot_is_refused() {
    let mut directory = Directory::new();
    directory.current = Some(vec![0u8; RECORD]);

    let mut restored = engine(1 << 12);
    assert_eq!(
        directory.read_into(&mut restored),
        Err(NotASnapshot::Unrecognised)
    );

    // And a stream cut short is malformed rather than a table half restored being called a restore.
    directory.current = Some(vec![0u8; RECORD - 1]);
    assert_eq!(
        directory.read_into(&mut restored),
        Err(NotASnapshot::Malformed)
    );
}

#[test]
fn a_directory_that_refuses_backs_off_to_the_cadence() {
    let mut source = engine(1 << 12);
    fill(&mut source, 10);
    let mut directory = Directory::new();
    directory.refuses = true;
    let mut snapshots = Snapshots::new(SnapshotPolicy {
        every: 5,
        ..SnapshotPolicy::default()
    });
    for _ in 0..50 {
        directory.round(&mut snapshots, &mut source);
    }
    assert_eq!(snapshots.stats().abandoned, 1);
    for id in 11..=15 {
        source.write(create(id), ApplyIndex(id as u64)).expect("room");
    }
    for _ in 0..50 {
        directory.round(&mut snapshots, &mut source);
    }
    assert_eq!(snapshots.stats().abandoned, 2);
}
