use std::cell::RefCell;
use std::collections::VecDeque;
use std::rc::Rc;

use ledger_pending::address::{ObjectId, RecordAddr};
use ledger_pending::block::{amount_of, bits_of, decode, encode, Block, RECORDS_PER_BLOCK, RECORD_BYTES};
use ledger_pending::filling::BlockRange;
use ledger_pending::latency::LatencyStore;
use ledger_pending::ledger::{AccountId, Amount, ApplyIndex, BudgetGroup, HoldData, TxId};
use ledger_pending::memory_store::MemoryStore;
use ledger_pending::model::StoreModel;
use ledger_pending::record_log::RecordLog;
use ledger_pending::stats::VolumeStats;
use ledger_pending::store::{DurableStore, StoreFault};

fn hold(amount: Amount) -> HoldData {
    HoldData {
        debit_account: AccountId(11),
        credit_account: AccountId(22),
        amount,
        remaining: amount - 1,
        ledger: 3,
        budget: BudgetGroup(99),
        budget_members: 2,
        budget_remaining: 44,
    }
}

/// A store that takes writes and answers for them only when asked.
#[derive(Clone)]
struct HoldingStore(Rc<RefCell<Holding>>);

struct Holding {
    inner: MemoryStore,
    held: VecDeque<(u64, Result<(), StoreFault>)>,
    release: usize,
}

impl HoldingStore {
    fn new() -> Self {
        HoldingStore(Rc::new(RefCell::new(Holding {
            inner: MemoryStore::default(),
            held: VecDeque::new(),
            release: 0,
        })))
    }

    fn release_all(&self) {
        let mut held = self.0.borrow_mut();
        held.release = held.held.len();
    }

    fn hold_back(held: &mut Holding, taken: bool, now: u64) -> bool {
        while let Some(done) = held.inner.poll_written(now) {
            held.held.push_back(done);
        }
        taken
    }
}

impl DurableStore for HoldingStore {
    fn submit_write(
        &mut self,
        handle: u64,
        object: ObjectId,
        offset: u64,
        block: &Block,
        creating: bool,
        now: u64,
    ) -> bool {
        let mut held = self.0.borrow_mut();
        let taken = held.inner.submit_write(handle, object, offset, block, creating, now);
        Self::hold_back(&mut held, taken, now)
    }

    fn submit_barrier(&mut self, handle: u64, now: u64) -> bool {
        let mut held = self.0.borrow_mut();
        let taken = held.inner.submit_barrier(handle, now);
        Self::hold_back(&mut held, taken, now)
    }

    fn poll_written(&mut self, _now: u64) -> Option<(u64, Result<(), StoreFault>)> {
        let mut held = self.0.borrow_mut();
        if held.release == 0 {
            return None;
        }
        let done = held.held.pop_front()?;
        held.release -= 1;
        Some(done)
    }

    fn writes_inflight(&self) -> usize {
        self.0.borrow().held.len()
    }

    fn writes_are_queued(&self) -> bool {
        false
    }

    fn stats(&self) -> VolumeStats {
        self.0.borrow().inner.stats()
    }

    fn read_at(&mut self, object: ObjectId, offset: u64, into: &mut Block) -> Result<(), StoreFault> {
        self.0.borrow_mut().inner.read_at(object, offset, into)
    }

    fn submit(&mut self, handle: u64, object: ObjectId, offset: u64, now: u64) -> bool {
        self.0.borrow_mut().inner.submit(handle, object, offset, now)
    }

    fn poll(&mut self, now: u64, into: &mut Block) -> Option<Result<u64, StoreFault>> {
        self.0.borrow_mut().inner.poll(now, into)
    }

    fn inflight(&self) -> usize {
        self.0.borrow().inner.inflight()
    }

    fn take_charge(&mut self) -> u64 {
        0
    }

    fn submit_remove(&mut self, handle: u64, object: ObjectId, now: u64) -> bool {
        let mut held = self.0.borrow_mut();
        let taken = held.inner.submit_remove(handle, object, now);
        Self::hold_back(&mut held, taken, now)
    }

    fn submit_rename(&mut self, handle: u64, from: ObjectId, to: ObjectId, now: u64) -> bool {
        let mut held = self.0.borrow_mut();
        let taken = held.inner.submit_rename(handle, from, to, now);
        Self::hold_back(&mut held, taken, now)
    }

    fn blocks_in(&mut self, object: ObjectId) -> u64 {
        self.0.borrow_mut().inner.blocks_in(object)
    }

    fn has_object(&mut self, object: ObjectId) -> bool {
        self.0.borrow_mut().inner.has_object(object)
    }
}

/// A block the store answered with one bit changed is not decoded.
#[test]
fn a_block_that_came_back_changed_is_refused_rather_than_decoded() {
    let model = StoreModel {
        // Every read, so the test does not depend on how many the log happens to issue.
        corrupt_every: 1,
        queue_depth: 8,
        ..StoreModel::default()
    };
    let mut log = RecordLog::new(model.build(MemoryStore::default(), 7), 1, 0);
    let mut addrs = Vec::new();
    for index in 0..RECORDS_PER_BLOCK * 3 {
        log.append(TxId(index as u128 + 1), &hold(10), ApplyIndex(1));
    }
    for index in 0..RECORDS_PER_BLOCK * 2 {
        addrs.push(log.keep(TxId(index as u128 + 1), &hold(10), ApplyIndex(1)));
    }
    log.submit_writes(0);
    log.collect_writes(0);
    let sealed = addrs[0];
    assert!(
        log.try_read(sealed).is_none(),
        "the block is still in memory, so this would not have reached the store"
    );
    assert!(
        log.read(sealed).is_none(),
        "a block whose checksum did not match was decoded anyway"
    );
    assert!(log.take_fault(), "the corruption was not owed to anyone");
    assert_eq!(log.traffic().store_corruptions, 1);
    assert_eq!(
        log.traffic().store_faults,
        0,
        "a device that answered wrongly was counted as one that refused"
    );
}

/// A modelled read leaves at the later of two times: when the store below has answered it, and when the
/// model says the device would have.
#[test]
fn a_modelled_read_waits_for_the_later_of_the_two_times() {
    let slow_model = StoreModel {
        read_base_nanos: 1_000,
        queue_depth: 4,
        ..StoreModel::default()
    };
    let mut modelled = LatencyStore::new(MemoryStore::default(), slow_model, 1);
    let block = Block::zeroed();
    assert!(modelled.submit_write(1, ObjectId::segment(0), 0, &block, true, 0));
    assert_eq!(modelled.poll_written(0), Some((1, Ok(()))));
    let mut into = Block::zeroed();

    assert!(modelled.submit(7, ObjectId::segment(0), 0, 0));
    assert!(
        modelled.poll(0, &mut into).is_none(),
        "the model released a read at once, so its own time did not gate anything"
    );
    assert_eq!(modelled.poll(1_000, &mut into), Some(Ok(7)));

    // And the other way: a model that costs nothing over a store below that is slow releases when the
    // store below does.
    let inner = LatencyStore::new(MemoryStore::default(), slow_model, 2);
    let free = StoreModel {
        queue_depth: 4,
        // Every field zero is the exact store and would not be wrapped at all.
        iops: 1_000_000_000,
        ..StoreModel::default()
    };
    let mut stacked = LatencyStore::new(inner, free, 3);
    assert!(stacked.submit_write(1, ObjectId::segment(0), 0, &block, true, 0));
    assert_eq!(stacked.poll_written(0), Some((1, Ok(()))));
    assert!(stacked.submit(9, ObjectId::segment(0), 0, 0));
    assert!(
        stacked.poll(0, &mut into).is_none(),
        "the outer model released a read the store below had not answered"
    );
    assert_eq!(stacked.poll(1_000, &mut into), Some(Ok(9)));
}

/// A store answering out of order does not put residency out of order.
#[test]
fn a_write_answered_out_of_order_does_not_shift_the_blocks_beside_it() {
    let model = StoreModel {
        // Every other call, so refusals land among writes the store below has taken.
        fault_every: 2,
        queue_depth: 8,
        ..StoreModel::default()
    };
    // Residency wide enough to hold every block, so what is asserted is where they sit in it.
    let mut log = RecordLog::new(model.build(MemoryStore::default(), 5), 1, 64);
    let mut kept = Vec::new();
    for index in 0..RECORDS_PER_BLOCK * 6 {
        log.append(TxId(index as u128 + 1), &hold(10), ApplyIndex(1));
    }
    for index in 0..RECORDS_PER_BLOCK * 5 {
        let key = TxId(index as u128 + 1);
        kept.push((key, log.keep(key, &hold(10), ApplyIndex(1))));
    }
    log.submit_writes(0);
    log.collect_writes(0);

    for (key, addr) in &kept {
        let found = log.try_read(*addr);
        assert!(
            found.is_some(),
            "{addr:?} left memory although residency is wide enough to hold every block here"
        );
        assert_eq!(
            found.expect("just checked").0,
            *key,
            "{addr:?} came back with another block's record, so residency is not in block order"
        );
    }
}

/// A block whose write is outstanding does not leave memory.
#[test]
fn a_block_whose_write_is_outstanding_does_not_leave_memory() {
    let store = HoldingStore::new();
    let mut log = RecordLog::new(store.clone(), 1, 1);
    let mut kept = Vec::new();
    for index in 0..RECORDS_PER_BLOCK * 6 {
        log.append(TxId(index as u128 + 1), &hold(10), ApplyIndex(1));
    }
    // Five blocks' worth of survivors seals four: the fifth block's records are in the block being
    // packed, which is full and not yet closed.
    for index in 0..RECORDS_PER_BLOCK * 5 {
        let key = TxId(index as u128 + 1);
        kept.push((key, log.keep(key, &hold(10), ApplyIndex(1))));
    }
    log.submit_writes(0);
    log.collect_writes(0);
    assert_eq!(
        log.writes_outstanding(),
        4,
        "the store answered writes it was supposed to be holding"
    );

    for (key, addr) in &kept {
        let found = log.try_read(*addr);
        assert_eq!(
            found.map(|(found, _)| found),
            Some(*key),
            "{addr:?} left memory while its write was outstanding, so a read of it would go to a \
             device that has not been given it"
        );
    }

    store.release_all();
    log.collect_writes(0);
    assert_eq!(log.writes_outstanding(), 0);
    let (key, oldest) = kept[0];
    assert!(
        log.try_read(oldest).is_none(),
        "the window did not apply once the writes were answered"
    );
    assert_eq!(
        log.read(oldest).map(|(found, _)| found),
        Some(key),
        "a block the window dropped was not on the store, which is the whole of what waiting buys"
    );
}

/// Every field, both ways.
#[test]
fn a_record_survives_the_round_trip_field_for_field() {
    let mut bytes = vec![0u8; RECORD_BYTES];
    encode(TxId(1 << 100), &hold(500), &mut bytes);
    let (key, back) = decode(&bytes, RecordAddr::new(1, 2, 3));
    assert_eq!(key, TxId(1 << 100));
    assert_eq!(back.debit_account, AccountId(11));
    assert_eq!(back.credit_account, AccountId(22));
    assert_eq!((back.amount, back.remaining), (500, 499));
    assert_eq!(back.ledger, 3);
    assert_eq!(back.budget, BudgetGroup(99));
    assert_eq!((back.budget_members, back.budget_remaining), (2, 44));
}

/// A record comes back from the block it landed in, whether that block is still being filled or not.
#[test]
fn records_come_back_from_open_and_sealed_blocks_alike() {
    let mut log = RecordLog::default();
    let count = RECORDS_PER_BLOCK * 3 + 2;
    let addrs: Vec<RecordAddr> = (0..count)
        .map(|index| {
            log.append(
                TxId(index as u128 + 1),
                &hold(index as Amount + 1),
                ApplyIndex(index as u64 + 1),
            )
        })
        .collect();
    let (buffered, ..) = log.blocks();
    assert!(buffered >= 4, "three filled blocks and one being filled");
    for (index, addr) in addrs.iter().enumerate() {
        let (key, back) = log.read(*addr).expect("a record that was appended");
        assert_eq!(key, TxId(index as u128 + 1), "wrong record at {addr:?}");
        assert_eq!(back.amount, index as Amount + 1);
    }
}

#[test]
fn a_stamped_block_is_intact_until_a_bit_of_it_changes() {
    let mut block = Block::zeroed();
    block.write(100, &[1, 2, 3]);
    assert!(!block.intact());
    block.stamp();
    assert!(block.intact());
    let checksum = u32::from_le_bytes([
        block.bytes[4080],
        block.bytes[4081],
        block.bytes[4082],
        block.bytes[4083],
    ]);
    assert_eq!(checksum, crc32c::crc32c(&block.bytes[..4080]));
    block.bytes[2000] ^= 1;
    assert!(!block.intact());
}

#[test]
fn an_amount_survives_its_bits_at_every_edge() {
    for amount in [0, 1, -1, 42, -42, Amount::MAX, Amount::MIN] {
        assert_eq!(bits_of(amount), amount as u64);
        assert_eq!(amount_of(bits_of(amount)), amount);
    }
}

#[test]
fn a_coverage_follows_the_barrier_and_not_the_write() {
    let mut log = RecordLog::new(MemoryStore::default(), 1, 4);
    for index in 0..RECORDS_PER_BLOCK * 2 {
        let at = ApplyIndex(index as u64 + 1);
        log.append(TxId(index as u128 + 1), &hold(10), at);
    }
    let mut last = None;
    for index in 0..RECORDS_PER_BLOCK + 1 {
        let at = ApplyIndex(index as u64 + 1);
        last = Some(log.keep(TxId(index as u128 + 1), &hold(10), at));
    }
    let first = RecordAddr::new(0, 0, 0);
    log.submit_writes(0);
    log.collect_writes(0);
    assert!(!log.is_durable(first), "a write alone was taken for durable");
    assert!(log.sync(0));
    log.collect_writes(0);
    assert!(log.is_durable(first), "the barrier did not cover the block");
    assert!(!log.is_durable(last.expect("kept")), "the open block is not durable");
}

#[test]
fn the_store_answers_a_read_with_what_was_written_and_misses_the_rest() {
    let mut store = MemoryStore::default();
    let mut block = Block::zeroed();
    block.bytes[7] = 9;
    assert!(store.submit_write(1, ObjectId::segment(2), 4096, &block, true, 0));
    assert_eq!(store.poll_written(0), Some((1, Ok(()))));
    let mut into = Block::zeroed();
    assert_eq!(store.read_at(ObjectId::segment(2), 4096, &mut into), Ok(()));
    assert_eq!(into.bytes[7], 9);
    assert_eq!(
        store.read_at(ObjectId::segment(2), 8192, &mut into),
        Err(StoreFault::Missing)
    );
    assert_eq!(store.blocks_in(ObjectId::segment(2)), 2);
    assert!(store.submit_rename(2, ObjectId::segment(2), ObjectId::segment(3), 0));
    assert!(!store.has_object(ObjectId::segment(2)) && store.has_object(ObjectId::segment(3)));
    assert!(store.submit_remove(3, ObjectId::segment(3), 0));
    assert!(!store.has_object(ObjectId::segment(3)));
}

#[test]
fn a_flip_changes_one_byte_and_the_checksum_sees_it() {
    let model = StoreModel {
        corrupt_every: 2,
        queue_depth: 4,
        ..StoreModel::default()
    };
    let mut store = LatencyStore::new(MemoryStore::default(), model, 11);
    let mut block = Block::zeroed();
    block.stamp();
    assert!(store.submit_write(1, ObjectId::segment(0), 0, &block, true, 0));
    let mut into = Block::zeroed();
    assert_eq!(store.read_at(ObjectId::segment(0), 0, &mut into), Ok(()));
    assert_eq!(into.as_bytes(), block.as_bytes());
    assert_eq!(store.read_at(ObjectId::segment(0), 0, &mut into), Ok(()));
    let changed = into
        .as_bytes()
        .iter()
        .zip(block.as_bytes())
        .filter(|(one, other)| one != other)
        .count();
    assert_eq!(changed, 1);
    assert!(!into.intact());
}

/// A call that failed is one fault, however it was asked for.
#[test]
fn a_read_that_fails_is_counted_once() {
    let mut store = MemoryStore::default();
    let mut into = Block::zeroed();
    assert_eq!(
        store.read_at(ObjectId::segment(3), 0, &mut into),
        Err(StoreFault::Missing)
    );
    assert_eq!((store.stats().reads_inline, store.stats().faults), (1, 1));
    assert!(store.submit(5, ObjectId::segment(3), 0, 0));
    assert_eq!(store.poll(0, &mut into), Some(Err(StoreFault::Missing)));
    assert_eq!((store.stats().reads_answered, store.stats().faults), (1, 2));
}

/// A fault the model invents is one the backing never sees, and is counted all the same.
#[test]
fn a_fault_the_model_invents_is_counted() {
    let model = StoreModel {
        fault_every: 1,
        ..StoreModel::default()
    };
    let mut store = LatencyStore::new(MemoryStore::default(), model, 1);
    assert!(store.submit_write(1, ObjectId::segment(0), 0, &Block::zeroed(), true, 0));
    assert_eq!(store.poll_written(0), Some((1, Err(StoreFault::Device))));
    assert_eq!(store.stats().faults, 1);
    assert_eq!(store.stats().writes, 0);

    let mut into = Block::zeroed();
    assert_eq!(
        store.read_at(ObjectId::segment(0), 0, &mut into),
        Err(StoreFault::Device)
    );
    assert_eq!(store.stats().faults, 2);
    assert_eq!(store.stats().reads_inline, 0);
}

/// Any byte of the records or of their checksum that changes is noticed; the bytes behind it are nobody's.
#[test]
fn a_byte_that_changed_shows() {
    let mut block = Block::zeroed();
    for (at, byte) in block.bytes.iter_mut().enumerate() {
        *byte = (at * 7 + 3) as u8;
    }
    block.stamp();
    assert!(block.intact());
    for at in [0usize, 1, 79, 80, 2047, 4079, 4080, 4083] {
        for bit in 0..8 {
            block.bytes[at] ^= 1 << bit;
            assert!(!block.intact(), "byte {at}, bit {bit}");
            block.bytes[at] ^= 1 << bit;
        }
    }
    assert!(block.intact());
    block.bytes[4084] ^= 1;
    assert!(block.intact());
}

/// The remainder of some bytes by the Castagnoli polynomial, a bit at a time.
fn crc32c_by_bits(bytes: &[u8]) -> u32 {
    let mut crc = 0xffff_ffffu32;
    for byte in bytes {
        crc ^= u32::from(*byte);
        for _ in 0..8 {
            crc = if crc & 1 == 0 {
                crc >> 1
            } else {
                (crc >> 1) ^ 0x82F6_3B78
            };
        }
    }
    crc ^ 0xffff_ffff
}

/// The stamp is the CRC-32C of the records, little-endian behind them.
#[test]
fn the_stamp_is_the_checksum_of_the_records() {
    assert_eq!(crc32c_by_bits(b"123456789"), 0xE306_9283);
    assert_eq!(crc32c_by_bits(b"Hello world!"), 0x7B98_E751);
    let mut block = Block::zeroed();
    block.stamp();
    assert_eq!(
        block.bytes[4080..4084],
        crc32c_by_bits(&[0u8; 4080]).to_le_bytes()
    );
    for (at, byte) in block.bytes.iter_mut().enumerate() {
        *byte = (at * 31 + 5) as u8;
    }
    block.stamp();
    let records = block.bytes[0..4080].to_vec();
    assert_eq!(block.bytes[4080..4084], crc32c_by_bits(&records).to_le_bytes());
}

/// A closed block is durable once the barrier behind it is answered, and not before; the block being
/// packed and a buffered record never are.
#[test]
fn a_closed_block_is_durable_only_after_its_barrier_is_answered() {
    let mut log = RecordLog::default();
    let addresses: Vec<RecordAddr> = (1..=52u128)
        .map(|k| log.keep(TxId(k), &hold(10), ApplyIndex(1)))
        .collect();
    assert!(!log.is_durable(addresses[0]));
    assert!(log.sync(0));
    assert!(!log.is_durable(addresses[0]));
    log.collect_writes(0);
    assert!(log.is_durable(addresses[0]));
    assert!(!log.is_durable(addresses[51]));
    assert!(!log.is_durable(RecordAddr::buffered(0, 0)));
}

/// Coverage stops before the block still being packed.
#[test]
fn coverage_stops_before_the_block_being_packed() {
    let mut log = RecordLog::default();
    assert_eq!(log.durable_through(ApplyIndex(8)), ApplyIndex(8));
    log.keep(TxId(1), &hold(10), ApplyIndex(3));
    log.append(TxId(2), &hold(10), ApplyIndex(8));
    assert_eq!(log.durable_through(ApplyIndex(8)), ApplyIndex(2));
}

/// Writes come back in the order they were taken and reads in the order they were asked for, whatever is
/// asked in between.
#[test]
fn the_exact_store_answers_in_the_order_it_was_asked() {
    let mut store = MemoryStore::default();
    let block = Block::zeroed();
    let object = ObjectId::segment(3);
    assert!(store.submit_write(5, object, 0, &block, true, 0));
    assert!(store.submit(50, object, 0, 0));
    assert!(store.submit_barrier(4, 0));
    assert_eq!(store.poll_written(0), Some((5, Ok(()))));
    assert!(store.submit(40, object, 0, 0));
    assert!(store.submit_write(3, object, 4096, &block, false, 0));
    let mut into = Block::zeroed();
    assert_eq!(store.poll(0, &mut into), Some(Ok(50)));
    assert!(store.submit_remove(2, object, 0));
    assert_eq!(store.poll_written(0), Some((4, Ok(()))));
    assert_eq!(store.poll_written(0), Some((3, Ok(()))));
    assert_eq!(store.poll_written(0), Some((2, Ok(()))));
    assert_eq!(store.poll_written(0), None);
    assert_eq!(store.poll(0, &mut into), Some(Err(StoreFault::Missing)));
    assert_eq!(store.poll(0, &mut into), None);
}

/// A day's range is the blocks noted, each at its place.
#[test]
fn a_range_is_the_blocks_noted() {
    let mut range = BlockRange::default();
    assert_eq!(range.block_at(0), None);
    for block in 7..12 {
        range.note(block);
    }
    assert_eq!((range.first, range.blocks), (7, 5));
    assert_eq!(range.block_at(4), Some(11));
    assert_eq!(range.block_at(5), None);
}

/// Every pair of bits a few apart, and the two that are furthest apart, show.
#[test]
fn two_flipped_bits_are_found_out() {
    let mut block = Block::zeroed();
    for at in 0..4080 {
        block.bytes[at] = (at * 7 + 3) as u8;
    }
    block.stamp();
    assert!(block.intact());
    let last: usize = 8 * 4084 - 1;
    let pairs: [(usize, usize); 9] = [
        (0, 1),
        (0, 8),
        (5, 37),
        (100, 8 * 4079),
        (0, 8 * 4080 - 1),
        (8 * 4080 - 1, 8 * 4080),
        (17, last),
        (0, last),
        (last - 1, last),
    ];
    for (p, q) in pairs {
        for n in [p, q] {
            block.bytes[n / 8] ^= 1 << (n % 8);
        }
        assert!(!block.intact(), "bits {p} and {q} went unseen");
        for n in [p, q] {
            block.bytes[n / 8] ^= 1 << (n % 8);
        }
        assert!(block.intact());
    }
}

/// A burst of up to thirty-two bits shows, across the edge of the checksum too.
#[test]
fn a_burst_is_found_out() {
    let mut block = Block::zeroed();
    block.bytes[9] = 200;
    block.stamp();
    for from in [0usize, 3, 1000, 8 * 4079 - 5, 8 * 4080 - 16, 8 * 4080] {
        for burst in [1u32, 0x8000_0001, 0xffff_ffff, 0x82f6_3b78] {
            let mut changed = Block::copy_of(&block);
            for j in 0..32 {
                if (burst >> j) & 1 == 1 {
                    let n = from + j;
                    changed.bytes[n / 8] ^= 1 << (n % 8);
                }
            }
            assert!(!changed.intact(), "a burst from {from} went unseen");
        }
    }
    assert!(block.intact());
}

/// A hole in a file reads as zeroes, and is not a block that was written.
#[test]
fn a_block_of_zeroes_is_not_intact() {
    assert!(!Block::zeroed().intact());
    let mut block = Block::zeroed();
    block.stamp();
    assert!(block.intact());
    assert_eq!(&block.bytes[4080..4084], &[0xcf, 0x58, 0x4d, 0x7c][..]);
}
