use ledger_pending::address::{ObjectId, BLOCK_BYTES};
use ledger_pending::model::QueueDepths;
use ledger_pending::store::StoreFault;
use ledger_pending::volume::{file_name, judge_read, whole_blocks, Desk, Unsynced};

fn name(object: ObjectId) -> String {
    file_name(object).into_iter().collect()
}

#[test]
fn every_object_has_a_file_of_its_own() {
    assert_eq!(name(ObjectId::segment(0)), "seg-00.blk");
    assert_eq!(name(ObjectId::segment(7)), "seg-07.blk");
    assert_eq!(name(ObjectId::segment(62)), "seg-62.blk");
    assert_eq!(name(ObjectId::snapshot_current()), "pending.snapshot");
    assert_eq!(name(ObjectId::snapshot_partial()), "pending.snapshot.part");
}

#[test]
fn a_short_read_is_a_block_that_is_not_there() {
    assert_eq!(judge_read(BLOCK_BYTES), Ok(()));
    assert_eq!(judge_read(BLOCK_BYTES - 1), Err(StoreFault::Missing));
    assert_eq!(judge_read(0), Err(StoreFault::Missing));
    assert_eq!(whole_blocks(3 * BLOCK_BYTES as u64), 3);
}

#[test]
fn a_barrier_covers_what_was_written_and_no_more() {
    let mut unsynced = Unsynced::new();
    assert!(unsynced.to_sync().is_empty());
    assert!(!unsynced.names_changed());
    unsynced.wrote(ObjectId::segment(5), false);
    unsynced.wrote(ObjectId::snapshot_partial(), true);
    unsynced.wrote(ObjectId::segment(5), false);
    assert_eq!(
        unsynced.to_sync(),
        vec![ObjectId::segment(5), ObjectId::snapshot_partial()]
    );
    assert!(unsynced.names_changed());
    unsynced.settled();
    assert!(unsynced.to_sync().is_empty());
    assert!(!unsynced.names_changed());
}

#[test]
fn a_full_queue_refuses_and_counts_the_refusal() {
    let mut desk = Desk::new(QueueDepths { read: 1, write: 1 });
    assert!(desk.take_read(3, ObjectId::segment(1), 4096));
    assert!(!desk.take_read(4, ObjectId::segment(1), 8192));
    assert_eq!(desk.next_read(), Some((3, ObjectId::segment(1), 4096)));
    assert_eq!(desk.next_read(), None);
    assert_eq!(desk.stats.reads_submitted, 1);
    assert_eq!(desk.stats.reads_refused, 1);

    assert!(desk.takes_change());
    desk.wrote(9, Err(StoreFault::Device));
    assert!(!desk.takes_change());
    assert_eq!(desk.stats.faults, 1);
    assert_eq!(desk.stats.bytes_written, BLOCK_BYTES as u64);
    assert_eq!(desk.stats.writes_refused, 1);
    assert_eq!(desk.next_written(), Some((9, Err(StoreFault::Device))));
    assert!(desk.takes_change());
    desk.synced(10, Ok(()));
    assert_eq!(desk.stats.barriers, 1);
    assert_eq!(desk.next_written(), Some((10, Ok(()))));
    assert_eq!(desk.next_written(), None);
}
