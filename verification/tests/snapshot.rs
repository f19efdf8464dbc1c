use std::cell::RefCell;
use std::rc::Rc;

use ledger_pending::address::ObjectId;
use ledger_pending::block::{Block, RECORDS_PER_BLOCK};
use ledger_pending::engine::PendingEngine;
use ledger_pending::ledger::{AccountId, ApplyIndex, BudgetGroup, PendingEffect, TxId};
use ledger_pending::memory_store::MemoryStore;
use ledger_pending::snapshot::{NotASnapshot, SnapshotReader, MAGIC, RECORD, VERSION};
use ledger_pending::stats::VolumeStats;
use ledger_pending::store::{DurableStore, StoreFault};

const CHUNK: usize = RECORD * 7;

/// One store under two engines.
#[derive(Clone)]
struct SharedStore(Rc<RefCell<MemoryStore>>);

impl DurableStore for SharedStore {
    fn submit_write(
        &mut self,
        handle: u64,
        object: ObjectId,
        offset: u64,
        block: &Block,
        creating: bool,
        now: u64,
    ) -> bool {
        self.0
            .borrow_mut()
            .submit_write(handle, object, offset, block, creating, now)
    }

    fn submit_barrier(&mut self, handle: u64, now: u64) -> bool {
        self.0.borrow_mut().submit_barrier(handle, now)
    }

    fn poll_written(&mut self, now: u64) -> Option<(u64, Result<(), StoreFault>)> {
        self.0.borrow_mut().poll_written(now)
    }

    fn writes_inflight(&self) -> usize {
        self.0.borrow().writes_inflight()
    }

    fn writes_are_queued(&self) -> bool {
        self.0.borrow().writes_are_queued()
    }

    fn stats(&self) -> VolumeStats {
        self.0.borrow().stats()
    }

    fn read_at(&mut self, object: ObjectId, offset: u64, into: &mut Block) -> Result<(), StoreFault> {
        self.0.borrow_mut().read_at(object, offset, into)
    }

    fn submit(&mut self, handle: u64, object: ObjectId, offset: u64, now: u64) -> bool {
        self.0.borrow_mut().submit(handle, object, offset, now)
    }

    fn poll(&mut self, now: u64, into: &mut Block) -> Option<Result<u64, StoreFault>> {
        self.0.borrow_mut().poll(now, into)
    }

    fn inflight(&self) -> usize {
        self.0.borrow().inflight()
    }

    fn take_charge(&mut self) -> u64 {
        self.0.borrow_mut().take_charge()
    }

    fn submit_remove(&mut self, handle: u64, object: ObjectId, now: u64) -> bool {
        self.0.borrow_mut().submit_remove(handle, object, now)
    }

    fn submit_rename(&mut self, handle: u64, from: ObjectId, to: ObjectId, now: u64) -> bool {
        self.0.borrow_mut().submit_rename(handle, from, to, now)
    }

    fn blocks_in(&mut self, object: ObjectId) -> u64 {
        self.0.borrow_mut().blocks_in(object)
    }

    fn has_object(&mut self, object: ObjectId) -> bool {
        self.0.borrow_mut().has_object(object)
    }
}

/// A pair of engines over one store, sized alike so a snapshot of the first restores into the second.
fn pair(slots: usize, flush_blocks: usize) -> (PendingEngine<SharedStore>, PendingEngine<SharedStore>) {
    let store = SharedStore(Rc::new(RefCell::new(MemoryStore::default())));
    (
        PendingEngine::sized(slots, flush_blocks, 1024, store.clone()),
        PendingEngine::sized(slots, flush_blocks, 1024, store),
    )
}

fn create(id: u128, budget: BudgetGroup) -> PendingEffect {
    PendingEffect::Create {
        tx_id: TxId(id),
        debit_account: AccountId(1),
        credit_account: AccountId(2),
        amount: 100,
        ledger: 1,
        budget,
    }
}

fn write<S: DurableStore>(engine: &mut PendingEngine<S>, effect: PendingEffect) {
    let at = ApplyIndex(engine.applied() + 1);
    engine.write(effect, at).expect("the index took the hold");
    engine.drain(usize::MAX, 0);
    engine.collect_writes(0);
}

/// Writes the whole stream out chunk by chunk, then reads it back into a fresh engine.
fn round_trip<S: DurableStore>(
    from: &mut PendingEngine<S>,
    into: &mut PendingEngine<S>,
) -> Result<(), NotASnapshot> {
    from.sync(0);
    from.collect_writes(0);
    let mut writer = from.begin_snapshot();
    let mut reader = SnapshotReader::new();
    let mut chunk = vec![0u8; CHUNK];
    loop {
        let written = from.next_snapshot_chunk(&mut writer, &mut chunk);
        if written == 0 {
            break;
        }
        reader.take_chunk(&chunk[..written], into.index_mut())?;
    }
    assert!(
        reader.is_complete(),
        "the stream ended before its header said"
    );
    let coverage = reader.coverage();
    into.restore(reader.into_groups(), coverage);
    Ok(())
}

#[test]
fn a_restored_engine_answers_every_carried_hold_the_same() {
    let group = BudgetGroup(7);
    let (mut engine, mut restored) = pair(1 << 12, 1);
    let holds = RECORDS_PER_BLOCK * 3;
    for id in 1..=holds {
        write(&mut engine, create(id as u128, group));
    }

    round_trip(&mut engine, &mut restored).expect("a snapshot of this engine");

    let mut carried = 0;
    for id in 1..=holds {
        let before = engine.lookup(TxId(id as u128));
        let after = restored.lookup(TxId(id as u128));
        match before {
            // Only the ones on durable blocks are carried, and for those the two answers have to agree
            // field for field, the group's totals too, since those ride on the record.
            Some(hold) if after.is_some() => {
                let after = after.expect("just matched");
                assert_eq!(hold.remaining, after.remaining);
                assert_eq!(hold.debit_account, after.debit_account);
                assert_eq!(hold.credit_account, after.credit_account);
                assert_eq!(hold.budget_members, after.budget_members);
                assert_eq!(hold.budget_remaining, after.budget_remaining);
                carried += 1;
            }
            _ => {}
        }
    }
    assert!(
        carried > 0,
        "the snapshot carried nothing, so the comparison proved nothing"
    );
    assert!(
        restored.counts_agree(),
        "a restored table's per-segment counts do not add up to its entries"
    );
}

#[test]
fn a_hold_still_in_the_buffer_is_not_carried() {
    let (mut engine, mut restored) = pair(1 << 12, 64);
    write(&mut engine, create(1, BudgetGroup::absent()));
    assert!(
        engine.lookup(TxId(1)).is_some(),
        "the hold is not there to begin with"
    );

    round_trip(&mut engine, &mut restored).expect("a snapshot of this engine");

    assert!(
        restored.lookup(TxId(1)).is_none(),
        "an unflushed hold was carried, so the index names a block nobody has"
    );
    assert!(restored.counts_agree());
}

#[test]
fn a_table_of_a_different_size_refuses_the_stream() {
    let mut engine = PendingEngine::sized(64, 1, 64, MemoryStore::default());
    write(&mut engine, create(1, BudgetGroup::absent()));

    let mut wrong = PendingEngine::sized(1 << 14, 1, 64, MemoryStore::default());
    let refused = round_trip(&mut engine, &mut wrong).expect_err("a table of another size");
    assert!(
        matches!(refused, NotASnapshot::Buckets { .. }),
        "refused for the wrong reason: {refused:?}"
    );
}

#[test]
fn bytes_that_are_not_a_snapshot_are_refused() {
    let mut engine = PendingEngine::<MemoryStore>::with_windows(1, 64);
    let junk = [0u8; RECORD];
    assert_eq!(
        SnapshotReader::new().take_chunk(&junk, engine.index_mut()),
        Err(NotASnapshot::Unrecognised)
    );

    let mut header = [0u8; RECORD];
    header[0..8].copy_from_slice(&MAGIC.to_le_bytes());
    header[8..12].copy_from_slice(&(VERSION + 1).to_le_bytes());
    assert_eq!(
        SnapshotReader::new().take_chunk(&header, engine.index_mut()),
        Err(NotASnapshot::Version(VERSION + 1))
    );

    let short = [0u8; RECORD - 1];
    assert_eq!(
        SnapshotReader::new().take_chunk(&short, engine.index_mut()),
        Err(NotASnapshot::Malformed)
    );
}

#[test]
fn a_stream_has_as_many_records_as_it_says() {
    let mut engine = PendingEngine::sized(64, 1, 64, MemoryStore::default());
    write(&mut engine, create(1, BudgetGroup(3)));
    write(&mut engine, create(2, BudgetGroup(4)));
    let mut writer = engine.begin_snapshot();
    // Two of header, a bucket each, and a group each.
    let expected = 2 + engine.index().bucket_count() as u64 + 2;
    assert_eq!(writer.records(), expected);
    assert_eq!(writer.bytes(), expected * RECORD as u64);
    let mut chunk = vec![0u8; RECORD];
    let mut records = 0;
    while engine.next_snapshot_chunk(&mut writer, &mut chunk) > 0 {
        records += 1;
    }
    assert_eq!(records, expected);
    assert!(writer.is_complete());
    assert_eq!(writer.reflects(), ApplyIndex(2));
}

/// What a snapshot does not carry, the decisions past its coverage bring back.
#[test]
fn a_snapshot_and_the_rest_of_the_log_give_the_holds_back() {
    let (mut engine, mut restored) = pair(1 << 12, 2);
    let mut told = Vec::new();
    for id in 1..=(RECORDS_PER_BLOCK as u128 * 6) {
        told.push(create(id, BudgetGroup::absent()));
        if id % 3 == 0 {
            told.push(PendingEffect::Remove {
                pending_ref: TxId(id - 1),
                budget: BudgetGroup::absent(),
                released: 100,
            });
        }
    }
    for effect in &told {
        write(&mut engine, *effect);
    }
    engine.sync(0);
    engine.collect_writes(0);
    let coverage = engine.coverage().raw();
    assert!(0 < coverage && coverage < told.len() as u64);
    round_trip(&mut engine, &mut restored).expect("a snapshot of this engine");
    assert!(
        restored.lookup(TxId(RECORDS_PER_BLOCK as u128 * 6)).is_none(),
        "everything was carried, so there was nothing to bring back"
    );

    let reflected = engine.applied_through();
    for (index, effect) in told.iter().enumerate() {
        let at = index as u64 + 1;
        if at > coverage {
            restored
                .replay(*effect, ApplyIndex(at), reflected)
                .expect("the index took the hold");
        }
    }
    for id in 1..=(RECORDS_PER_BLOCK as u128 * 6) {
        assert_eq!(restored.lookup(TxId(id)), engine.lookup(TxId(id)));
    }
}

/// Totals that a snapshot carries are of its own instant, so members replayed from before it are not
/// counted again.
#[test]
fn restored_totals_are_not_counted_again() {
    let group = BudgetGroup(9);
    let (mut engine, mut restored) = pair(1 << 12, 2);
    let members = RECORDS_PER_BLOCK as u128 * 4;
    for id in 1..=members {
        write(&mut engine, create(id, group));
    }
    engine.sync(0);
    engine.collect_writes(0);
    let coverage = engine.coverage().raw();
    let reflected = engine.applied_through();
    assert!(coverage < reflected.raw());
    round_trip(&mut engine, &mut restored).expect("a snapshot of this engine");
    for at in coverage + 1..=reflected.raw() {
        restored
            .replay(create(u128::from(at), group), ApplyIndex(at), reflected)
            .expect("the index took the hold");
    }
    let hold = restored.lookup(TxId(members)).expect("the last member");
    assert_eq!(hold.budget_members, members as u32);
    assert_eq!(hold.budget_remaining, members as i64 * 100);
}

/// A dump comes to the same bytes however long the buffers it is taken into are.
#[test]
fn chunks_join_to_one_stream_whatever_their_lengths() {
    let dumped = |rooms: &[usize]| {
        let (mut engine, _) = pair(1 << 8, 1);
        for id in 1..=RECORDS_PER_BLOCK as u128 * 2 {
            write(&mut engine, create(id, BudgetGroup(id % 5 + 1)));
        }
        engine.sync(0);
        engine.collect_writes(0);
        let mut writer = engine.begin_snapshot();
        let mut bytes = Vec::new();
        for round in 0.. {
            let mut chunk = vec![0u8; rooms[round % rooms.len()]];
            let written = engine.next_snapshot_chunk(&mut writer, &mut chunk);
            if written == 0 {
                break;
            }
            bytes.extend_from_slice(&chunk[..written]);
        }
        assert!(writer.is_complete());
        bytes
    };
    let whole = dumped(&[1 << 16]);
    assert_eq!(dumped(&[RECORD]), whole);
    assert_eq!(dumped(&[RECORD * 3 + 5, RECORD, RECORD * 11]), whole);
}

/// A stream laid out before it carried its positions says so by its version, and is refused by it.
#[test]
fn a_stream_of_another_layout_is_refused_by_its_version() {
    assert_eq!(VERSION, 2);
    let mut engine = PendingEngine::<MemoryStore>::with_windows(1, 64);
    let mut header = [0u8; RECORD];
    header[0..8].copy_from_slice(&MAGIC.to_le_bytes());
    header[8..12].copy_from_slice(&1u32.to_le_bytes());
    assert_eq!(
        SnapshotReader::new().take_chunk(&header, engine.index_mut()),
        Err(NotASnapshot::Version(1))
    );
}
