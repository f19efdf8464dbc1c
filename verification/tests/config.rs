use std::sync::atomic::Ordering;

use ledger_pending::address::SEGMENTS;
use ledger_pending::config::{
    BackingKind, DaySource, LedgerError, MemoryPendingConfig, PendingCapacity, Share,
};
use ledger_pending::delay::LatencyRange;
use ledger_pending::policy::SnapshotPolicy;
use ledger_pending::prng::Prng;

/// A half.
const HALF: Share = Share {
    billionths: 500_000_000,
};

#[test]
fn every_size_follows_the_lifetime_the_grace_extends() {
    let promised = PendingCapacity {
        daily_arrivals: 1_000_000,
        worst_survivor_share: HALF,
        retention_days: 32,
        grace_days: 0,
        ..PendingCapacity::default()
    };
    let with_grace = PendingCapacity {
        grace_days: 1,
        ..promised
    };
    assert_eq!(promised.lifetime_days(), 32);
    assert_eq!(with_grace.lifetime_days(), 33);
    assert_eq!(with_grace.declared_maximum(), 500_000 * 33);
    assert!(with_grace.slots() > promised.slots());
}

#[test]
fn a_lifetime_longer_than_the_segments_available_is_refused() {
    let fits = MemoryPendingConfig {
        capacity: PendingCapacity {
            retention_days: SEGMENTS - 2,
            grace_days: 1,
            ..PendingCapacity::default()
        },
        index_budget_bytes: usize::MAX,
        ..MemoryPendingConfig::default()
    };
    assert_eq!(fits.capacity.live_segments(), SEGMENTS);
    assert_eq!(fits.validate(), Ok(()));

    let one_day_too_many = MemoryPendingConfig {
        capacity: PendingCapacity {
            retention_days: SEGMENTS - 1,
            ..fits.capacity
        },
        ..fits
    };
    assert_eq!(
        one_day_too_many.validate(),
        Err(LedgerError::ConfigInvalid),
        "a lifetime that outruns the segment field was accepted"
    );
}

#[test]
fn no_grace_at_all_is_refused() {
    let config = MemoryPendingConfig {
        capacity: PendingCapacity {
            grace_days: 0,
            ..PendingCapacity::default()
        },
        ..MemoryPendingConfig::default()
    };
    assert_eq!(config.validate(), Err(LedgerError::ConfigInvalid));
}

#[test]
fn every_incoherent_declaration_is_refused() {
    let sane = MemoryPendingConfig::default();
    assert_eq!(sane.validate(), Ok(()));
    let with = |change: fn(&mut MemoryPendingConfig)| {
        let mut config = MemoryPendingConfig::default();
        change(&mut config);
        config.validate()
    };
    assert!(with(|config| config.queue_capacity = 0).is_err());
    assert!(with(|config| config.eviction_per_round = 0).is_err());
    assert!(with(|config| config.capacity.daily_arrivals = 23).is_err());
    assert!(with(|config| config.capacity.retention_days = 0).is_err());
    assert!(with(|config| config.capacity.worst_survivor_share = Share { billionths: 0 }).is_err());
    assert!(with(|config| config.capacity.survives_flush_window = Share { billionths: 1 }).is_err());
    assert!(
        with(|config| config.capacity.survives_flush_window = Share { billionths: 1_000_000_001 })
            .is_err()
    );
    assert!(with(|config| config.capacity.flush_window_hours = 0).is_err());
    assert!(with(|config| config.capacity.residency_hours = 0).is_err());
    assert!(with(|config| config.capacity.residency_hours = 73).is_err());
    assert!(with(|config| config.capacity.residency_hours = 72).is_ok());
    assert!(with(|config| config.index_budget_bytes = 1000).is_err());
    assert!(with(|config| config.capacity.retention_days = u64::MAX).is_err());
    let policy = |every, bytes_per_round, shadow_budget| {
        let mut config = MemoryPendingConfig::default();
        config.snapshot = SnapshotPolicy { every, bytes_per_round, shadow_budget };
        config.validate()
    };
    assert!(policy(0, 0, 0).is_ok());
    assert!(policy(1, 4096, 1).is_ok());
    assert!(policy(1, 4095, 1).is_err());
    assert!(policy(1, 6000, 1).is_err());
    assert!(policy(1, 4096, 0).is_err());
}

#[test]
fn sizes_are_derived_from_what_was_declared() {
    let config = MemoryPendingConfig::default();
    let sizes = config
        .sizes(BackingKind::Files { read_threads: 4, write_lane: true })
        .expect("a sane configuration");
    // Half a million a day for three days, at nine tenths full.
    assert_eq!(sizes.slots, 1_666_667);
    // 41,666 an hour, fifty-one to a block.
    assert_eq!(sizes.flush_blocks, 817);
    // Half of a day's hours' worth.
    assert_eq!(sizes.resident_blocks, 9_804);
    assert_eq!(sizes.lifetime_days, 3);
    assert_eq!(sizes.drain_blocks_per_round, 161);
    assert_eq!(sizes.buffer_ceiling, 817 + 161);
    assert_eq!(sizes.snapshot_queue_share, 64);
    assert_eq!((sizes.lane_blocks, sizes.read_pool_blocks), (1, 128));
    let memory = config.sizes(BackingKind::Memory).expect("a sane configuration");
    assert_eq!((memory.lane_blocks, memory.read_pool_blocks), (0, 0));
    let broken = MemoryPendingConfig { queue_capacity: 0, ..config };
    assert_eq!(broken.sizes(BackingKind::Memory), Err(LedgerError::ConfigInvalid));
}

#[test]
fn a_day_moved_by_hand_is_the_day_it_was_moved_to() {
    let (days, handle) = DaySource::manual(4);
    assert_eq!(days.today(86_400 * 1000), 4);
    handle.store(9, Ordering::Relaxed);
    assert_eq!(days.today(0), 9);
    assert_eq!(DaySource::WallClock.today(86_400 * 3 - 1), 2);
    assert_eq!(DaySource::WallClock.today(86_400 * 3), 3);
    assert_eq!(days.day_at(86_400 * 3, 17), 17);
    assert_eq!(DaySource::WallClock.day_at(86_400 * 3, 17), 3);
}

#[test]
fn a_delay_stays_in_its_range_and_one_seed_draws_one_sequence() {
    let range = LatencyRange::new(100, 110);
    let mut one = Prng::new(42);
    let mut other = Prng::new(42);
    let mut seen = Vec::new();
    for _ in 0..1000 {
        let nanos = range.sample(&mut one);
        assert!((100..=110).contains(&nanos));
        assert_eq!(nanos, range.sample(&mut other));
        seen.push(nanos);
    }
    seen.sort();
    seen.dedup();
    assert_eq!(seen.len(), 11);
    assert_eq!(LatencyRange::fixed(7).sample(&mut one), 7);
    assert_eq!(LatencyRange::new(9, 3).sample(&mut one), 9);
}
