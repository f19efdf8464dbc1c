use std::cell::RefCell;
use std::collections::VecDeque;
use std::rc::Rc;

use ledger_pending::address::{ObjectId, BLOCK_BYTES};
use ledger_pending::block::Block;
use ledger_pending::cache::Cached;
use ledger_pending::latency::LatencyStore;
use ledger_pending::memory_store::MemoryStore;
use ledger_pending::model::StoreModel;
use ledger_pending::stats::VolumeStats;
use ledger_pending::store::{DurableStore, StoreFault};

fn store_with(blocks: u64) -> MemoryStore {
    let mut store = MemoryStore::default();
    let mut block = Block::zeroed();
    for at in 0..blocks {
        block.bytes[0] = at as u8;
        store.submit_write(
            at,
            ObjectId::segment(0),
            at * BLOCK_BYTES as u64,
            &block,
            at == 0,
            0,
        );
    }
    while store.poll_written(0).is_some() {}
    store
}

/// A second read of a block already in hand does not reach the store.
#[test]
fn a_block_read_twice_reaches_the_store_once() {
    let mut cached = Cached::new(store_with(2), 4);
    let mut into = Block::zeroed();
    for _ in 0..5 {
        cached
            .read_at(ObjectId::segment(0), 0, &mut into)
            .expect("the block is there");
        assert_eq!(into.bytes[0], 0, "the wrong block came back");
    }
    let stats = cached.stats();
    assert_eq!(stats.reads_inline, 1, "the store was asked more than once");
    assert_eq!(stats.reads_cached, 4);
}

/// Reads submitted before any completes join the first rather than asking again.
#[test]
fn reads_for_a_block_already_on_its_way_join_it() {
    let mut cached = Cached::new(store_with(2), 4);
    for handle in 0..8 {
        assert!(cached.submit(handle, ObjectId::segment(0), 0, 0));
    }
    let mut into = Block::zeroed();
    let mut answered = Vec::new();
    while let Some(done) = cached.poll(0, &mut into) {
        answered.push(done.expect("a block the store has"));
        assert_eq!(into.bytes[0], 0, "a waiter got the wrong block");
    }
    answered.sort_unstable();
    assert_eq!(answered, (0..8).collect::<Vec<_>>(), "a waiter was lost");
    let stats = cached.stats();
    assert_eq!(
        stats.reads_submitted, 1,
        "the store was asked for the same block more than once"
    );
    assert_eq!(stats.reads_joined, 7);
}

/// Joining is keyed on the block, not on there being one in flight at all.
#[test]
fn a_read_of_another_block_is_its_own() {
    let mut cached = Cached::new(store_with(2), 4);
    assert!(cached.submit(1, ObjectId::segment(0), 0, 0));
    assert!(cached.submit(2, ObjectId::segment(0), BLOCK_BYTES as u64, 0));
    let mut into = Block::zeroed();
    while cached.poll(0, &mut into).is_some() {}
    assert_eq!(cached.stats().reads_submitted, 2);
    assert_eq!(cached.stats().reads_joined, 0);
}

/// A block's bytes never change; an object's can, so the unit of invalidation is the object.
#[test]
fn an_object_written_again_drops_what_was_held_for_it() {
    let mut cached = Cached::new(MemoryStore::default(), 4);
    let partial = ObjectId::snapshot_partial();
    let mut block = Block::zeroed();
    block.bytes[0] = 1;
    cached.submit_write(1, partial, 0, &block, true, 0);
    while cached.poll_written(0).is_some() {}

    let mut into = Block::zeroed();
    cached.read_at(partial, 0, &mut into).expect("it is there");
    assert_eq!(into.bytes[0], 1);
    assert_eq!(cached.stats().reads_inline, 1);

    cached.submit_remove(2, partial, 0);
    block.bytes[0] = 9;
    cached.submit_write(3, partial, 0, &block, true, 0);
    while cached.poll_written(0).is_some() {}

    cached.read_at(partial, 0, &mut into).expect("it is there");
    assert_eq!(
        into.bytes[0], 9,
        "the cache answered with the bytes the name held before"
    );
    assert_eq!(
        cached.stats().reads_inline,
        2,
        "the read did not reach the store"
    );
}

/// Zero blocks is the baseline: everything reaches the store, and nothing is remembered.
#[test]
fn a_cache_of_no_blocks_is_no_cache() {
    let mut cached = Cached::new(store_with(1), 0);
    let mut into = Block::zeroed();
    for _ in 0..3 {
        cached
            .read_at(ObjectId::segment(0), 0, &mut into)
            .expect("the block is there");
    }
    assert_eq!(cached.stats().reads_inline, 3);
    assert_eq!(cached.stats().reads_cached, 0);
}

/// The block read longest ago is the one that goes, and a block forgotten frees its room.
#[test]
fn the_block_read_longest_ago_makes_room() {
    let mut cached = Cached::new(store_with(4), 2);
    let mut into = Block::zeroed();
    for at in [0u64, 1, 0, 2] {
        cached
            .read_at(ObjectId::segment(0), at * BLOCK_BYTES as u64, &mut into)
            .expect("the block is there");
        assert_eq!(into.bytes[0], at as u8);
    }
    // Block one is gone and block zero is not.
    cached.read_at(ObjectId::segment(0), 0, &mut into).expect("there");
    assert_eq!(cached.stats().reads_cached, 2);
    cached
        .read_at(ObjectId::segment(0), BLOCK_BYTES as u64, &mut into)
        .expect("there");
    assert_eq!(into.bytes[0], 1);
    assert_eq!(cached.stats().reads_cached, 2);
}

/// A read under way when its object was written again brings back what the object held before, and is
/// not kept for whoever reads the object next.
#[test]
fn a_read_that_crossed_a_write_is_not_kept() {
    let slow = StoreModel {
        read_base_nanos: 1_000,
        queue_depth: 4,
        ..StoreModel::default()
    };
    let mut cached = Cached::new(LatencyStore::new(store_with(1), slow, 1), 4);
    assert!(cached.submit(5, ObjectId::segment(0), 0, 0));
    let mut into = Block::zeroed();
    assert!(cached.poll(0, &mut into).is_none());
    cached.submit_remove(6, ObjectId::segment(0), 0);
    let mut block = Block::zeroed();
    block.bytes[0] = 77;
    cached.submit_write(7, ObjectId::segment(0), 0, &block, true, 0);
    while cached.poll_written(0).is_some() {}
    while let Some(done) = cached.poll(10_000, &mut into) {
        assert!(done.is_err() || done == Ok(5));
    }
    cached
        .read_at(ObjectId::segment(0), 0, &mut into)
        .expect("it is there");
    assert_eq!(into.bytes[0], 77);
}

/// What a cache does not do itself it passes down, and what comes back up is the store's own answer.
#[test]
fn a_cache_passes_down_what_it_does_not_answer() {
    let model = StoreModel {
        read_base_nanos: 1_000,
        sync_base_nanos: 30,
        queue_depth: 4,
        ..StoreModel::default()
    };
    let mut cached = Cached::new(model.build(store_with(2), 7), 4);
    let mut into = Block::zeroed();
    assert!(cached.has_object(ObjectId::segment(0)));
    assert!(!cached.has_object(ObjectId::segment(1)));
    assert!(!cached.writes_are_queued());

    cached
        .read_at(ObjectId::segment(0), 0, &mut into)
        .expect("the block is there");
    cached
        .read_at(ObjectId::segment(0), 0, &mut into)
        .expect("the block is in hand");
    assert_eq!(cached.take_charge(), 1_000, "a read from the cache cost the device something");
    assert_eq!(cached.take_charge(), 0);

    assert!(cached.submit_barrier(9, 0));
    assert_eq!(cached.writes_inflight(), 1);
    assert_eq!(cached.poll_written(0), Some((9, Ok(()))));
    assert_eq!(cached.poll_written(0), None);
    assert_eq!(cached.take_charge(), 30);

    // One that can be answered from the block in hand, and one on its way down.
    assert!(cached.submit(1, ObjectId::segment(0), 0, 0));
    assert!(cached.submit(2, ObjectId::segment(0), BLOCK_BYTES as u64, 0));
    assert_eq!(cached.inflight(), 2);
}

/// Asking how far an object goes is passed down, and what is in hand of it stays there.
#[test]
fn measuring_an_object_keeps_its_blocks_in_hand() {
    let mut cached = Cached::new(store_with(2), 4);
    let mut into = Block::zeroed();
    cached
        .read_at(ObjectId::segment(0), 0, &mut into)
        .expect("the block is there");
    assert_eq!(cached.blocks_in(ObjectId::segment(0)), 2);
    cached
        .read_at(ObjectId::segment(0), 0, &mut into)
        .expect("the block is there");
    let stats = cached.stats();
    assert_eq!(stats.reads_inline, 1, "the measure dropped the block");
    assert_eq!(stats.reads_cached, 1);
}

/// A read that was on its way before the store was wrapped is handed up under its own handle.
#[test]
fn a_read_from_before_the_cache_is_handed_up() {
    let mut store = store_with(2);
    assert!(store.submit(77, ObjectId::segment(0), BLOCK_BYTES as u64, 0));
    let mut cached = Cached::new(store, 4);
    assert!(cached.submit(5, ObjectId::segment(0), 0, 0));
    let mut into = Block::zeroed();
    assert_eq!(cached.poll(0, &mut into), Some(Ok(77)));
    assert_eq!(into.bytes[0], 1);
    assert_eq!(cached.poll(0, &mut into), Some(Ok(5)));
    assert_eq!(into.bytes[0], 0);
    assert_eq!(cached.poll(0, &mut into), None);
}

/// A store that takes every read, and answers with what it is told to.
#[derive(Clone)]
struct Scripted(Rc<RefCell<Script>>);

struct Script {
    submitted: Vec<u64>,
    answers: VecDeque<Result<u64, StoreFault>>,
}

impl Scripted {
    fn new() -> Self {
        Scripted(Rc::new(RefCell::new(Script {
            submitted: Vec::new(),
            answers: VecDeque::new(),
        })))
    }

    fn answer(&self, answer: Result<u64, StoreFault>) {
        self.0.borrow_mut().answers.push_back(answer);
    }
}

impl DurableStore for Scripted {
    fn submit_write(
        &mut self,
        _handle: u64,
        _object: ObjectId,
        _offset: u64,
        _block: &Block,
        _creating: bool,
        _now: u64,
    ) -> bool {
        false
    }

    fn submit_barrier(&mut self, _handle: u64, _now: u64) -> bool {
        false
    }

    fn poll_written(&mut self, _now: u64) -> Option<(u64, Result<(), StoreFault>)> {
        None
    }

    fn writes_inflight(&self) -> usize {
        0
    }

    fn writes_are_queued(&self) -> bool {
        false
    }

    fn stats(&self) -> VolumeStats {
        MemoryStore::default().stats()
    }

    fn read_at(
        &mut self,
        _object: ObjectId,
        _offset: u64,
        _into: &mut Block,
    ) -> Result<(), StoreFault> {
        Err(StoreFault::Missing)
    }

    fn submit(&mut self, handle: u64, _object: ObjectId, _offset: u64, _now: u64) -> bool {
        self.0.borrow_mut().submitted.push(handle);
        true
    }

    fn poll(&mut self, _now: u64, _into: &mut Block) -> Option<Result<u64, StoreFault>> {
        self.0.borrow_mut().answers.pop_front()
    }

    fn inflight(&self) -> usize {
        self.0.borrow().submitted.len()
    }

    fn take_charge(&mut self) -> u64 {
        0
    }

    fn submit_remove(&mut self, _handle: u64, _object: ObjectId, _now: u64) -> bool {
        false
    }

    fn submit_rename(&mut self, _handle: u64, _from: ObjectId, _to: ObjectId, _now: u64) -> bool {
        false
    }

    fn blocks_in(&mut self, _object: ObjectId) -> u64 {
        0
    }

    fn has_object(&mut self, _object: ObjectId) -> bool {
        false
    }
}

/// A read goes down under the handle it was asked for with, and an answer nobody here asked for goes up.
#[test]
fn a_read_keeps_its_handle_and_a_stranger_is_handed_up() {
    let script = Scripted::new();
    let mut cached = Cached::new(script.clone(), 4);
    let far = 1u64 << 63;
    let mut into = Block::zeroed();
    assert!(cached.submit(far + 9, ObjectId::segment(0), 0, 0));
    assert!(cached.submit(3, ObjectId::segment(0), BLOCK_BYTES as u64, 0));
    assert_eq!(script.0.borrow().submitted, vec![far + 9, 3]);

    for stranger in [0, 4, far, far + 8, u64::MAX] {
        script.answer(Ok(stranger));
        assert_eq!(cached.poll(0, &mut into), Some(Ok(stranger)));
    }
    script.answer(Ok(far + 9));
    assert_eq!(cached.poll(0, &mut into), Some(Ok(far + 9)));
    // The same answer again is to a read that is no longer on its way.
    script.answer(Ok(far + 9));
    assert_eq!(cached.poll(0, &mut into), Some(Ok(far + 9)));
    script.answer(Ok(3));
    assert_eq!(cached.poll(0, &mut into), Some(Ok(3)));
    assert_eq!(cached.poll(0, &mut into), None);
}

/// A refused read names nobody, so every claim goes: whoever joined is not answered by what comes later,
/// the late answer is handed up and not kept, and the block can be asked for again.
#[test]
fn a_refused_read_drops_every_claim() {
    let script = Scripted::new();
    let mut cached = Cached::new(script.clone(), 4);
    let mut into = Block::zeroed();
    assert!(cached.submit(1, ObjectId::segment(0), 0, 0));
    assert!(cached.submit(2, ObjectId::segment(0), 0, 0));
    assert_eq!(cached.stats().reads_joined, 1);
    script.answer(Err(StoreFault::Device));
    assert_eq!(cached.poll(0, &mut into), Some(Err(StoreFault::Device)));

    script.answer(Ok(1));
    assert_eq!(cached.poll(0, &mut into), Some(Ok(1)));
    assert_eq!(cached.poll(0, &mut into), None);
    assert!(cached.submit(5, ObjectId::segment(0), 0, 0));
    assert_eq!(script.0.borrow().submitted, vec![1, 5]);
}

/// A handle used again names the read it was used for last.
#[test]
fn a_handle_used_again_names_the_newer_read() {
    let script = Scripted::new();
    let mut cached = Cached::new(script.clone(), 4);
    let mut into = Block::zeroed();
    assert!(cached.submit(7, ObjectId::segment(0), 0, 0));
    assert!(cached.submit(7, ObjectId::segment(0), BLOCK_BYTES as u64, 0));
    assert!(cached.submit(8, ObjectId::segment(0), BLOCK_BYTES as u64, 0));
    assert_eq!(script.0.borrow().submitted, vec![7, 7]);
    script.answer(Ok(7));
    assert_eq!(cached.poll(0, &mut into), Some(Ok(7)));
    assert_eq!(cached.poll(0, &mut into), Some(Ok(8)));
    assert_eq!(cached.poll(0, &mut into), None);
}
