use ledger_pending::address::{IoOwner, ObjectId, RecordAddr, BLOCK_BITS, SEGMENTS};

#[test]
fn an_address_carries_its_three_parts() {
    let addr = RecordAddr::new(63, (1 << BLOCK_BITS) - 1, 63);
    assert_eq!(
        (addr.segment(), addr.block(), addr.index()),
        (63, (1 << BLOCK_BITS) - 1, 63)
    );
    let modest = RecordAddr::new(2, 1_000_000, 7);
    assert_eq!(
        (modest.segment(), modest.block(), modest.index()),
        (2, 1_000_000, 7)
    );
    assert_eq!(RecordAddr::from_raw(modest.raw()), modest);
}

#[test]
fn a_block_sits_at_its_number_times_the_block_size() {
    assert_eq!(RecordAddr::new(4, 0, 9).block_offset(), 0);
    assert_eq!(RecordAddr::new(4, 3, 9).block_offset(), 3 * 4096);
}

#[test]
fn a_buffered_address_is_told_from_a_stored_one() {
    let buffered = RecordAddr::buffered(12, 5);
    assert!(buffered.is_buffered());
    assert_eq!((buffered.block(), buffered.index()), (12, 5));
    assert!(!RecordAddr::new(0, 12, 5).is_buffered());
    assert!(!RecordAddr::new((SEGMENTS - 1) as u8, 12, 5).is_buffered());
}

#[test]
fn every_object_has_an_index_of_its_own() {
    let mut seen = Vec::new();
    for segment in 0..SEGMENTS as u8 {
        seen.push(ObjectId::segment(segment).index());
    }
    seen.push(ObjectId::snapshot_current().index());
    seen.push(ObjectId::snapshot_partial().index());
    let count = seen.len();
    seen.sort();
    seen.dedup();
    assert_eq!(seen.len(), count);
}

#[test]
fn a_handle_belongs_to_the_owner_it_was_made_for() {
    let blocks = IoOwner::Blocks.handle(77);
    let snapshot = IoOwner::Snapshot.handle(77);
    assert!(IoOwner::Blocks.owns(blocks) && !IoOwner::Snapshot.owns(blocks));
    assert!(IoOwner::Snapshot.owns(snapshot) && !IoOwner::Blocks.owns(snapshot));
    assert_ne!(blocks, snapshot);
}
