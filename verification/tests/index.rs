use ledger_pending::address::RecordAddr;
use ledger_pending::index::{HoldTable, LOAD_TARGET_PERCENT, MAX_HOPS};
use ledger_pending::ledger::TxId;

/// Nothing here that uses this shares a fingerprint, so the index answers on its own.
fn never(_: RecordAddr) -> bool {
    panic!("the index read a record for an unambiguous key");
}

#[test]
fn a_hold_comes_back_by_its_own_key_and_a_repoint_moves_it() {
    let mut table = HoldTable::default();
    let first = RecordAddr::new(0, 1, 2);
    table.insert_new(TxId(7), first).expect("room");
    assert_eq!(table.addr_of(TxId(7), &never), Some(first));
    assert_eq!(table.addr_of(TxId(8), &never), None);

    let second = RecordAddr::new(0, 9, 3);
    assert!(table.repoint(TxId(7), second, &never));
    assert_eq!(table.len(), 1, "a repoint is not a second entry");
    assert_eq!(table.addr_of(TxId(7), &never), Some(second));

    assert_eq!(table.remove(TxId(7), &never), Some(second));
    assert_eq!(table.addr_of(TxId(7), &never), None);
    assert_eq!(table.remove(TxId(7), &never), None);
    assert_eq!(table.len(), 0);
}

/// Every key that went in comes back pointing at its own record. The table does not grow, so this also
/// says that the sizing rule holds at the target load factor.
#[test]
fn a_table_filled_to_its_target_keeps_every_key() {
    let slots = 1 << 16;
    let holds = slots as u64 * LOAD_TARGET_PERCENT / 100;
    let mut table = HoldTable::with_slots(slots);
    let mut refused = 0;
    for key in 1..=holds {
        if table
            .insert_new(TxId(u128::from(key)), RecordAddr::from_raw(key))
            .is_err()
        {
            refused += 1;
        }
    }
    assert_eq!(
        refused, 0,
        "a table at its target load factor refused an insert"
    );
    assert_eq!(table.len(), holds as usize);
    for key in 1..=holds {
        assert_eq!(
            table.addr_of(TxId(u128::from(key)), &never),
            Some(RecordAddr::from_raw(key)),
            "key {key} points at someone else's record"
        );
    }
    let (_, worst) = table.kick_stats();
    assert!(
        worst < MAX_HOPS,
        "the cascade reached its cap, so the cap is the constraint"
    );
    assert!(table.counts_agree());
}

/// Two keys that share a fingerprint and a bucket are told apart by reading a record, and only those two.
#[test]
fn a_shared_fingerprint_is_detected_and_disambiguated() {
    let mut table = HoldTable::with_slots(1 << 18);
    let mut pair = None;
    for step in 1..230_000u128 {
        let key = TxId(step);
        if !table.candidates(key).is_empty() {
            let other = table.candidates(key).address(0);
            pair = Some((TxId(u128::from(other.raw())), key));
            break;
        }
        table
            .insert_new(key, RecordAddr::from_raw(step as u64))
            .expect("room");
    }
    let (first, second) = pair.expect("no shared fingerprint found");
    assert!(
        table.ambiguous() == 0,
        "nothing marked before the clash was inserted"
    );

    table
        .insert_new(second, RecordAddr::from_raw(second.raw() as u64))
        .expect("room for the second of the pair");
    assert_eq!(table.ambiguous(), 1, "the clash was not noticed");

    let verify_first = |addr: RecordAddr| addr.raw() == first.raw() as u64;
    let verify_second = |addr: RecordAddr| addr.raw() == second.raw() as u64;
    assert_eq!(
        table.addr_of(first, &verify_first),
        Some(RecordAddr::from_raw(first.raw() as u64))
    );
    assert_eq!(
        table.addr_of(second, &verify_second),
        Some(RecordAddr::from_raw(second.raw() as u64))
    );

    table
        .remove(first, &verify_first)
        .expect("the first of the pair");
    assert_eq!(
        table.addr_of(second, &verify_second),
        Some(RecordAddr::from_raw(second.raw() as u64)),
        "removing one of a colliding pair took the other's slot"
    );
}

#[test]
fn a_full_table_names_what_it_could_not_take_and_keeps_the_rest() {
    let mut table = HoldTable::with_slots(8);
    let mut taken = Vec::new();
    for key in 1..=64u128 {
        match table.insert_new(TxId(key), RecordAddr::from_raw(key as u64)) {
            Ok(()) => taken.push(key),
            Err(_) => break,
        }
    }
    assert!(taken.len() <= table.slots());
    assert_eq!(table.len(), taken.len());
    for key in taken {
        let own = |addr: RecordAddr| addr.raw() == key as u64;
        assert_eq!(
            table.addr_of(TxId(key), &own),
            Some(RecordAddr::from_raw(key as u64)),
            "a refused insert lost somebody else's entry"
        );
    }
}

#[test]
fn a_segment_counts_the_entries_that_point_into_it() {
    let mut table = HoldTable::with_slots(64);
    table.insert_new(TxId(1), RecordAddr::new(3, 1, 0)).expect("room");
    table.insert_new(TxId(2), RecordAddr::new(3, 1, 1)).expect("room");
    table.insert_new(TxId(3), RecordAddr::new(4, 2, 0)).expect("room");
    assert_eq!((table.live_in_segment(3), table.live_in_segment(4)), (2, 1));
    assert!(table.points_at(TxId(1), RecordAddr::new(3, 1, 0)));
    assert!(table.replace(TxId(1), RecordAddr::new(3, 1, 0), RecordAddr::new(4, 9, 9)));
    assert!(!table.replace(TxId(1), RecordAddr::new(3, 1, 0), RecordAddr::new(5, 9, 9)));
    assert_eq!((table.live_in_segment(3), table.live_in_segment(4)), (1, 2));
    assert!(table.counts_agree());
}

#[test]
fn a_bucket_written_while_it_is_read_comes_out_as_it_was() {
    let mut table = HoldTable::with_slots(16);
    for key in 1..=8u128 {
        table.insert_new(TxId(key), RecordAddr::from_raw(key as u64)).expect("room");
    }
    let before: Vec<[u64; 4]> = (0..table.bucket_count()).map(|at| table.bucket_words(at)).collect();
    table.begin_snapshot();
    for key in 1..=8u128 {
        let own = |addr: RecordAddr| addr.raw() == key as u64;
        table.remove(TxId(key), &own).expect("there");
    }
    assert!(table.shadowed() > 0);
    for (at, words) in before.iter().enumerate() {
        assert_eq!(table.take_bucket(at), *words, "bucket {at} moved under the read");
    }
    table.end_snapshot();
    assert_eq!(table.shadowed(), 0);
    assert_eq!(table.len(), 0);
}

/// What a full table costs is bounded, and what it refuses leaves it as it was.
#[test]
fn a_cascade_stays_within_its_cap() {
    let mut table = HoldTable::with_capacity(64, 3);
    let mut kept = Vec::new();
    let mut refused = 0;
    for key in 1..=200u64 {
        match table.insert_new(TxId(u128::from(key)), RecordAddr::from_raw(key)) {
            Ok(()) => kept.push(key),
            Err(homeless) => {
                assert_eq!(homeless.address, RecordAddr::from_raw(key));
                refused += 1;
            }
        }
    }
    assert!(refused > 0, "sixty-four slots took two hundred keys");
    assert_eq!(table.len(), kept.len());
    let (_, worst) = table.kick_stats();
    assert!(worst <= 3, "a cascade moved more entries than it may");
    for key in kept {
        assert_eq!(
            table.addr_of(TxId(u128::from(key)), &never),
            Some(RecordAddr::from_raw(key))
        );
    }
}

/// A removed key is not found, and there is nothing left of it to remove again; others stay.
#[test]
fn a_removed_key_is_not_found_again() {
    let mut table = HoldTable::with_slots(1 << 10);
    for key in 1..=100u128 {
        let addr = RecordAddr::new(0, key as u64, 0);
        table.insert_new(TxId(key), addr).expect("there is room");
    }
    for key in 1..=100u128 {
        let addr = RecordAddr::new(0, key as u64, 0);
        let is_it = |asked: RecordAddr| asked == addr;
        assert_eq!(table.remove(TxId(key), &is_it), Some(addr));
        assert_eq!(table.addr_of(TxId(key), &is_it), None);
        assert_eq!(table.remove(TxId(key), &is_it), None);
        assert_eq!(table.len(), 100 - key as usize);
    }
}

#[test]
fn a_bucket_is_put_aside_once_however_often_it_is_written() {
    let mut table = HoldTable::with_slots(64);
    let key = TxId(7);
    let places: Vec<RecordAddr> = (0..3).map(|block| RecordAddr::new(1, block, 0)).collect();
    assert!(table.insert_new(key, places[0]).is_ok());
    let hops = table.kick_stats();

    table.begin_snapshot();
    assert_eq!(table.shadowed(), 0);
    assert!(table.replace(key, places[0], places[1]));
    assert_eq!(table.shadowed(), 1);
    assert!(table.replace(key, places[1], places[2]));
    assert_eq!(table.shadowed(), 1);
    assert!(!table.replace(key, places[1], places[0]));
    assert_eq!(table.shadowed(), 1);

    for bucket in 0..table.bucket_count() {
        table.take_bucket(bucket);
    }
    assert_eq!(table.shadowed(), 0);
    table.end_snapshot();
    assert_eq!(table.kick_stats(), hops);
}
