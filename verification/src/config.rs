//! The worst case a deployment declares, and every size that follows from it.

use std::sync::atomic::AtomicU64;
use std::sync::Arc;

use vstd::prelude::*;

use crate::address::{BLOCK_BYTES, SEGMENTS};
use crate::block::RECORDS_PER_BLOCK;
use crate::delay::LatencyRange;
use crate::index::LOAD_TARGET_PERCENT;
use crate::model::{at_least_one, StoreModel};
use crate::policy::SnapshotPolicy;
use crate::slots::SLOT_BYTES;

verus! {

/// A share of something, in billionths of it.
#[derive(Clone, Copy, Debug, PartialEq, Eq, Structural)]
pub struct Share {
    pub billionths: u64,
}

pub const WHOLE: u64 = 1_000_000_000;

/// A share of a count, the part of one left out.
pub open spec fn share_of(count: int, share: Share) -> int {
    count * share.billionths / (WHOLE as int)
}

/// Blocks that hold this many records, at least one.
pub open spec fn blocks_for(records: int) -> int {
    if records <= 0 {
        1
    } else {
        (records + RECORDS_PER_BLOCK - 1) / (RECORDS_PER_BLOCK as int)
    }
}

/// The worst case the business declares, from which every size in the engine follows. Inputs rather than
/// sizes: a block count or a slot count configured beside these could disagree with them.
#[derive(Clone, Copy, Debug, PartialEq, Eq, Structural)]
pub struct PendingCapacity {
    pub daily_arrivals: u64,
    /// The share of a day's transfers that are still unresolved when the retention window ends: the worst
    /// case, not the expected one.
    pub worst_survivor_share: Share,
    /// How long a hold's record is kept. Deleting it sooner refuses a resolution that was still entitled
    /// to arrive, so expiry errs late.
    pub retention_days: u64,
    /// Days of slack added before a record is deleted. Records are deleted a whole day at a time, so
    /// without it the youngest of a day would go a day short of its retention.
    pub grace_days: u64,
    /// The share of a day's transfers still unresolved when their block reaches the end of the flush
    /// window.
    pub survives_flush_window: Share,
    /// How long a record may go unwritten.
    pub flush_window_hours: u64,
    /// How long a record stays readable in memory after it has been written.
    pub residency_hours: u64,
}

/// Small enough for a test or a local run to reach.
pub open spec fn default_capacity() -> PendingCapacity {
    PendingCapacity {
        daily_arrivals: 1_000_000,
        worst_survivor_share: Share { billionths: 500_000_000 },
        retention_days: 2,
        grace_days: 1,
        survives_flush_window: Share { billionths: 500_000_000 },
        flush_window_hours: 1,
        residency_hours: 24,
    }
}

impl Default for PendingCapacity {
    fn default() -> (capacity: Self)
        ensures
            capacity == default_capacity(),
    {
        PendingCapacity {
            daily_arrivals: 1_000_000,
            worst_survivor_share: Share { billionths: 500_000_000 },
            retention_days: 2,
            grace_days: 1,
            survives_flush_window: Share { billionths: 500_000_000 },
            flush_window_hours: 1,
            residency_hours: 24,
        }
    }
}

impl PendingCapacity {
    /// Days a record may live: what was promised, and the slack that keeps deletion from being early.
    pub open spec fn lifetime(self) -> int {
        self.retention_days + self.grace_days
    }

    /// Holds alive at once in the worst case declared.
    pub open spec fn most_holds(self) -> int {
        share_of(self.daily_arrivals as int, self.worst_survivor_share) * self.lifetime()
    }

    /// Slots that hold that many at the load the index is meant for.
    pub open spec fn slots_needed(self) -> int {
        (self.most_holds() * 100 + LOAD_TARGET_PERCENT - 1) / (LOAD_TARGET_PERCENT as int)
    }

    /// Arrivals of an hour, in whole ones.
    pub open spec fn hourly(self) -> int {
        self.daily_arrivals as int / 24
    }

    /// Blocks the arrivals of one flush window fill.
    pub open spec fn unwritten(self) -> int {
        blocks_for(self.hourly() * self.flush_window_hours)
    }

    /// Blocks the survivors of one residency window fill.
    pub open spec fn resident(self) -> int {
        blocks_for(share_of(self.hourly() * self.residency_hours, self.survives_flush_window))
    }

    /// Every size that follows from what is declared can be counted here.
    pub open spec fn countable(self) -> bool {
        &&& self.lifetime() < u64::MAX
        &&& self.most_holds() <= u64::MAX
        &&& self.slots_needed() <= usize::MAX
        &&& self.hourly() * self.flush_window_hours <= u64::MAX
        &&& self.unwritten() <= usize::MAX
        &&& self.hourly() * self.residency_hours <= u64::MAX
        &&& self.resident() <= usize::MAX
    }

    pub fn lifetime_days(&self) -> (days: u64)
        requires
            self.lifetime() <= u64::MAX,
        ensures
            days == self.lifetime(),
    {
        self.retention_days + self.grace_days
    }

    /// Segments live at once: one for each day of a lifetime, and the day being filled.
    pub fn live_segments(&self) -> (segments: u64)
        requires
            self.lifetime() < u64::MAX,
        ensures
            segments == self.lifetime() + 1,
    {
        self.lifetime_days() + 1
    }

    /// Holds alive at once in the worst case declared.
    pub fn declared_maximum(&self) -> (most: u64)
        requires
            self.countable(),
        ensures
            most == self.most_holds(),
    {
        match self.count_holds() {
            Some(most) => most,
            None => 0,
        }
    }

    fn count_holds(&self) -> (most: Option<u64>)
        ensures
            most == if self.most_holds() <= u64::MAX {
                Some(self.most_holds() as u64)
            } else {
                None
            },
    {
        let survivors: u128 = part(self.daily_arrivals, self.worst_survivor_share);
        let lifetime: u128 = self.retention_days as u128 + self.grace_days as u128;
        proof {
            lemma_product(survivors as int, lifetime as int);
        }
        if survivors == 0 || lifetime == 0 {
            return Some(0);
        }
        if survivors > u64::MAX as u128 || lifetime > u64::MAX as u128 {
            return None;
        }
        assert(survivors * lifetime <= u64::MAX * u64::MAX) by (nonlinear_arith)
            requires
                0 <= survivors <= u64::MAX,
                0 <= lifetime <= u64::MAX,
        ;
        let most: u128 = survivors * lifetime;
        if most > u64::MAX as u128 {
            None
        } else {
            Some(most as u64)
        }
    }

    /// Slots the index needs to hold that maximum at the load it is meant for.
    pub fn slots(&self) -> (slots: usize)
        requires
            self.countable(),
        ensures
            slots == self.slots_needed(),
    {
        let most: u64 = self.declared_maximum();
        slots_for(most) as usize
    }

    /// Blocks the writeback buffer needs: the arrivals of one flush window, in full. Nothing is compacted
    /// out of it yet, so the survivor share does not come into this one.
    pub fn flush_blocks(&self) -> (blocks: usize)
        requires
            self.countable(),
        ensures
            blocks == self.unwritten(),
    {
        proof {
            lemma_product(self.hourly(), self.flush_window_hours as int);
        }
        let hourly: u64 = self.daily_arrivals / 24;
        let records: u64 = hourly * self.flush_window_hours;
        blocks_of(records)
    }

    /// Blocks residency needs: the survivors of one residency window. Only survivors, because what is
    /// resident has already been compacted.
    pub fn resident_blocks(&self) -> (blocks: usize)
        requires
            self.countable(),
            self.survives_flush_window.billionths <= WHOLE,
        ensures
            blocks == self.resident(),
    {
        proof {
            lemma_product(self.hourly(), self.residency_hours as int);
        }
        let hourly: u64 = self.daily_arrivals / 24;
        let arrivals: u64 = hourly * self.residency_hours;
        let kept: u128 = part(arrivals, self.survives_flush_window);
        proof {
            let a = arrivals as int;
            let b = self.survives_flush_window.billionths as int;
            assert(a * b <= a * 1_000_000_000) by (nonlinear_arith)
                requires
                    0 <= a,
                    0 <= b <= 1_000_000_000,
            ;
        }
        blocks_of(kept as u64)
    }
}

proof fn lemma_product(a: int, b: int)
    requires
        a >= 0,
        b >= 0,
    ensures
        a * b >= 0,
        a == 0 || b == 0 ==> a * b == 0,
        a > 0 ==> a * b >= b,
        b > 0 ==> a * b >= a,
{
    assert(a * b >= 0) by (nonlinear_arith)
        requires
            a >= 0,
            b >= 0,
    ;
    if a > 0 {
        assert(a * b >= b) by (nonlinear_arith)
            requires
                a >= 1,
                b >= 0,
        ;
    }
    if b > 0 {
        assert(a * b >= a) by (nonlinear_arith)
            requires
                b >= 1,
                a >= 0,
        ;
    }
}

proof fn lemma_fits(a: u64, b: u64)
    ensures
        0 <= a * b <= u128::MAX,
{
    assert(0 <= a * b <= u64::MAX * u64::MAX) by (nonlinear_arith)
        requires
            a <= u64::MAX,
            b <= u64::MAX,
    ;
}

/// A share of a count.
fn part(count: u64, share: Share) -> (part: u128)
    ensures
        part == share_of(count as int, share),
{
    assert(0 <= count * share.billionths <= u64::MAX * u64::MAX) by (nonlinear_arith)
        requires
            count <= u64::MAX,
            share.billionths <= u64::MAX,
    ;
    let product: u128 = count as u128 * share.billionths as u128;
    product / 1_000_000_000
}

/// Slots that hold this many at the load the index is meant for.
fn slots_for(most: u64) -> (slots: u128)
    ensures
        slots == (most * 100 + LOAD_TARGET_PERCENT - 1) / (LOAD_TARGET_PERCENT as int),
        slots <= 2 * u64::MAX,
{
    (most as u128 * 100 + (LOAD_TARGET_PERCENT - 1) as u128) / LOAD_TARGET_PERCENT as u128
}

fn blocks_of(records: u64) -> (blocks: usize)
    requires
        blocks_for(records as int) <= usize::MAX,
    ensures
        blocks == blocks_for(records as int),
{
    if records == 0 {
        return 1;
    }
    let whole: u64 = records / (RECORDS_PER_BLOCK as u64);
    if records % (RECORDS_PER_BLOCK as u64) == 0 {
        whole as usize
    } else {
        (whole + 1) as usize
    }
}

/// What a start can be refused for.
#[derive(Clone, Copy, Debug, PartialEq, Eq, Structural)]
pub enum LedgerError {
    ConfigInvalid,
}

/// Everything a node is told about its pending engine.
#[derive(Clone, Copy, Debug, PartialEq, Eq, Structural)]
pub struct MemoryPendingConfig {
    pub queue_capacity: usize,
    /// A delay injected into every reply, for a test that needs replies to queue up. Not a model of the
    /// engine.
    pub latency: LatencyRange,
    /// Break the order of every nth reply on purpose.
    pub violate_order_every: u32,
    /// Answer every nth lookup as if the engine had not yet applied what it was given.
    pub stale_answer_every: u32,
    pub seed: u64,
    /// Overlay entries above which idle ones start being evicted.
    pub overlay_soft_limit: usize,
    /// Entries evicted in one round, so that a sweep never stalls the caller.
    pub eviction_per_round: usize,
    pub capacity: PendingCapacity,
    /// What answers for blocks.
    pub store: StoreModel,
    /// The most the index may take.
    pub index_budget_bytes: usize,
    /// Blocks of an expiring day the sweep reads in one round.
    pub expiry_blocks_per_round: usize,
    /// Blocks of a volume's cold read cache. Zero is no cache.
    pub read_cache_blocks: usize,
    pub snapshot: SnapshotPolicy,
}

pub open spec fn default_config() -> MemoryPendingConfig {
    MemoryPendingConfig {
        queue_capacity: 8192,
        latency: LatencyRange { shortest: 0, longest: 0 },
        violate_order_every: 0,
        stale_answer_every: 0,
        seed: 0x5eed_9e37,
        overlay_soft_limit: 0x10_0000,
        eviction_per_round: 4096,
        capacity: default_capacity(),
        store: StoreModel {
            read_base_nanos: 0,
            read_tail_nanos: 0,
            write_base_nanos: 0,
            write_tail_nanos: 0,
            sync_base_nanos: 0,
            sync_tail_nanos: 0,
            iops: 0,
            queue_depth: 128,
            write_queue_depth: 0,
            fault_every: 0,
            corrupt_every: 0,
        },
        index_budget_bytes: 0x4000_0000,
        expiry_blocks_per_round: 2,
        read_cache_blocks: 64,
        snapshot: SnapshotPolicy { every: 0, bytes_per_round: 4096, shadow_budget: 0x20_0000 },
    }
}

impl Default for MemoryPendingConfig {
    fn default() -> (config: Self)
        ensures
            config == default_config(),
    {
        let mut store = StoreModel::default();
        store.queue_depth = 128;
        MemoryPendingConfig {
            queue_capacity: 8192,
            latency: LatencyRange::fixed(0),
            violate_order_every: 0,
            stale_answer_every: 0,
            seed: 0x5eed_9e37,
            overlay_soft_limit: 0x10_0000,
            eviction_per_round: 4096,
            capacity: PendingCapacity::default(),
            store,
            index_budget_bytes: 0x4000_0000,
            expiry_blocks_per_round: 2,
            read_cache_blocks: 64,
            snapshot: SnapshotPolicy::default(),
        }
    }
}

/// A snapshot policy that writes a snapshot if it says it does: a round that cannot write one block would
/// never finish a dump, and a shadow of nothing gives up on every dump.
pub open spec fn snapshots_finish(policy: SnapshotPolicy) -> bool {
    policy.every == 0 || (policy.bytes_per_round >= BLOCK_BYTES && policy.bytes_per_round % BLOCK_BYTES == 0
        && policy.shadow_budget > 0)
}

/// The configuration describes a workload that can exist, with room for all of it.
pub open spec fn sane(config: MemoryPendingConfig) -> bool {
    let capacity = config.capacity;
    &&& config.queue_capacity > 0
    &&& config.eviction_per_round > 0
    &&& capacity.daily_arrivals >= 24
    &&& capacity.retention_days > 0
    &&& 0 < capacity.worst_survivor_share.billionths <= WHOLE
    // A hold alive when retention ends was alive an hour in.
    &&& capacity.worst_survivor_share.billionths <= capacity.survives_flush_window.billionths <= WHOLE
    &&& capacity.flush_window_hours > 0
    &&& capacity.grace_days > 0
    // A segment's number is its day modulo the segments there are: one day more would give two live days
    // one number.
    &&& capacity.lifetime() + 1 <= SEGMENTS
    &&& capacity.residency_hours >= capacity.flush_window_hours
    &&& capacity.residency_hours <= capacity.lifetime() * 24
    &&& capacity.slots_needed() * SLOT_BYTES <= config.index_budget_bytes
    &&& snapshots_finish(config.snapshot)
}

impl MemoryPendingConfig {
    /// Buffered blocks one round may carry out: a queue's worth of records.
    pub fn drain_blocks_per_round(&self) -> (blocks: usize)
        ensures
            blocks == blocks_for(self.queue_capacity as int),
    {
        blocks_of(self.queue_capacity as u64)
    }

    /// Blocks of the store's queue a snapshot may hold at once: half, so that the ledger can always place
    /// the other half without waiting for a background job.
    pub fn snapshot_queue_share(&self) -> (share: usize)
        ensures
            share == at_least_one((at_least_one(self.store.queue_depth) / 2) as usize),
    {
        let depth: usize = if self.store.queue_depth == 0 {
            1
        } else {
            self.store.queue_depth
        };
        if depth / 2 == 0 {
            1
        } else {
            depth / 2
        }
    }

    /// Blocks the writeback buffer may hold before applying stops: the window recovery is sized for, and
    /// one round's drain.
    pub fn buffer_ceiling(&self) -> (blocks: usize)
        requires
            self.capacity.countable(),
            self.capacity.unwritten() + blocks_for(self.queue_capacity as int) <= usize::MAX,
        ensures
            blocks == self.capacity.unwritten() + blocks_for(self.queue_capacity as int),
    {
        self.capacity.flush_blocks() + self.drain_blocks_per_round()
    }

    /// Refuses combinations that would misbehave silently.
    pub fn validate(&self) -> (valid: Result<(), LedgerError>)
        ensures
            valid == if sane(*self) {
                Ok::<(), LedgerError>(())
            } else {
                Err(LedgerError::ConfigInvalid)
            },
    {
        let capacity = self.capacity;
        let lifetime: u128 = capacity.retention_days as u128 + capacity.grace_days as u128;
        let worst: u64 = capacity.worst_survivor_share.billionths;
        let survives: u64 = capacity.survives_flush_window.billionths;
        let snapshots = self.snapshot.every == 0 || (self.snapshot.bytes_per_round >= BLOCK_BYTES
            && self.snapshot.bytes_per_round % BLOCK_BYTES == 0 && self.snapshot.shadow_budget > 0);
        let described = self.queue_capacity > 0 && self.eviction_per_round > 0
            && capacity.daily_arrivals >= 24 && capacity.retention_days > 0 && worst > 0 && worst
            <= 1_000_000_000 && survives >= worst && survives <= 1_000_000_000
            && capacity.flush_window_hours > 0 && capacity.grace_days > 0 && lifetime + 1 <= SEGMENTS as u128
            && capacity.residency_hours >= capacity.flush_window_hours
            && capacity.residency_hours as u128 <= lifetime * 24;
        let fits = match capacity.count_holds() {
            None => false,
            Some(most) => slots_for(most) * SLOT_BYTES as u128 <= self.index_budget_bytes as u128,
        };
        proof {
            if capacity.most_holds() > u64::MAX {
                assert(capacity.slots_needed() * SLOT_BYTES > usize::MAX);
            }
        }
        if described && snapshots && fits {
            Ok(())
        } else {
            Err(LedgerError::ConfigInvalid)
        }
    }
}

/// Every size a node starts with, derived from what was declared.
#[derive(Clone, Copy, Debug, PartialEq, Eq, Structural)]
pub struct Sizes {
    pub slots: usize,
    pub flush_blocks: usize,
    pub resident_blocks: usize,
    pub lifetime_days: u64,
    pub drain_blocks_per_round: usize,
    pub buffer_ceiling: usize,
    pub snapshot_queue_share: usize,
    /// Block buffers the queues of a store on files take at the start.
    pub lane_blocks: usize,
    pub read_pool_blocks: usize,
}

/// What answers for blocks: memory, or files with so many read threads and perhaps a write lane.
#[derive(Clone, Copy, Debug, PartialEq, Eq, Structural)]
pub enum BackingKind {
    Memory,
    Files { read_threads: usize, write_lane: bool },
}

/// The configuration can be started: it is sane, and its sizes can be counted.
pub open spec fn startable(config: MemoryPendingConfig) -> bool {
    &&& sane(config)
    &&& config.capacity.countable()
    &&& config.capacity.unwritten() + blocks_for(config.queue_capacity as int) <= usize::MAX
}

/// The sizes that follow from a configuration.
pub open spec fn sizes_of(config: MemoryPendingConfig, backing: BackingKind) -> Sizes {
    Sizes {
        slots: config.capacity.slots_needed() as usize,
        flush_blocks: config.capacity.unwritten() as usize,
        resident_blocks: config.capacity.resident() as usize,
        lifetime_days: config.capacity.lifetime() as u64,
        drain_blocks_per_round: blocks_for(config.queue_capacity as int) as usize,
        buffer_ceiling: (config.capacity.unwritten() + blocks_for(config.queue_capacity as int)) as usize,
        snapshot_queue_share: at_least_one((at_least_one(config.store.queue_depth) / 2) as usize),
        lane_blocks: match backing {
            BackingKind::Files { write_lane, .. } if write_lane => at_least_one(
                config.store.write_queue_depth,
            ),
            _ => 0,
        },
        read_pool_blocks: match backing {
            BackingKind::Files { read_threads, .. } if read_threads > 0 => at_least_one(
                config.store.queue_depth,
            ),
            _ => 0,
        },
    }
}

impl MemoryPendingConfig {
    /// The sizes a node starts with. Refuses a configuration that would misbehave silently before anything
    /// is started.
    pub fn sizes(&self, backing: BackingKind) -> (sizes: Result<Sizes, LedgerError>)
        ensures
            sizes == if startable(*self) {
                Ok(sizes_of(*self, backing))
            } else {
                Err(LedgerError::ConfigInvalid)
            },
    {
        match self.validate() {
            Err(error) => {
                return Err(error);
            },
            Ok(()) => {},
        }
        if !self.is_countable() {
            return Err(LedgerError::ConfigInvalid);
        }
        let flush_blocks: usize = self.capacity.flush_blocks();
        let drain_blocks_per_round: usize = self.drain_blocks_per_round();
        if flush_blocks > usize::MAX - drain_blocks_per_round {
            return Err(LedgerError::ConfigInvalid);
        }
        let depths = self.store.depths();
        let (lane_blocks, read_pool_blocks): (usize, usize) = match backing {
            BackingKind::Memory => (0, 0),
            BackingKind::Files { read_threads, write_lane } => (
                if write_lane {
                    depths.write
                } else {
                    0
                },
                if read_threads > 0 {
                    depths.read
                } else {
                    0
                },
            ),
        };
        Ok(
            Sizes {
                slots: self.capacity.slots(),
                flush_blocks,
                resident_blocks: self.capacity.resident_blocks(),
                lifetime_days: self.capacity.lifetime_days(),
                drain_blocks_per_round,
                buffer_ceiling: self.buffer_ceiling(),
                snapshot_queue_share: self.snapshot_queue_share(),
                lane_blocks,
                read_pool_blocks,
            },
        )
    }

    fn is_countable(&self) -> (countable: bool)
        requires
            sane(*self),
        ensures
            countable == self.capacity.countable(),
    {
        let capacity = self.capacity;
        let hourly: u128 = (capacity.daily_arrivals / 24) as u128;
        proof {
            lemma_fits(hourly as u64, capacity.flush_window_hours);
            lemma_fits(hourly as u64, capacity.residency_hours);
        }
        let unwritten: u128 = hourly * capacity.flush_window_hours as u128;
        let arrived: u128 = hourly * capacity.residency_hours as u128;
        proof {
            lemma_product(capacity.hourly(), capacity.flush_window_hours as int);
            lemma_product(capacity.hourly(), capacity.residency_hours as int);
            lemma_product(
                share_of(capacity.daily_arrivals as int, capacity.worst_survivor_share),
                capacity.lifetime(),
            );
            lemma_product(
                capacity.daily_arrivals as int,
                capacity.worst_survivor_share.billionths as int,
            );
            assert(capacity.slots_needed() <= usize::MAX);
            assert(capacity.most_holds() <= u64::MAX);
        }
        if unwritten > u64::MAX as u128 || arrived > u64::MAX as u128 {
            return false;
        }
        let kept: u128 = part(arrived as u64, capacity.survives_flush_window);
        proof {
            let a = arrived as int;
            let b = capacity.survives_flush_window.billionths as int;
            assert(0 <= a * b <= a * 1_000_000_000) by (nonlinear_arith)
                requires
                    0 <= a,
                    0 <= b <= 1_000_000_000,
            ;
        }
        let records: u128 = if unwritten > kept {
            unwritten
        } else {
            kept
        };
        let blocks: u128 = (records + (RECORDS_PER_BLOCK - 1) as u128) / RECORDS_PER_BLOCK as u128;
        blocks <= usize::MAX as u128
    }
}

/// A lifetime that is accepted gives every live day a segment of its own.
pub proof fn law_live_days_never_share_a_segment(config: MemoryPendingConfig, one: int, other: int)
    requires
        sane(config),
        0 <= one < other,
        other - one <= config.capacity.lifetime(),
    ensures
        one % (SEGMENTS as int) != other % (SEGMENTS as int),
{
}

/// Every size that follows from a lifetime follows the one the slack extends: a day of slack more is a day
/// of holds more.
pub proof fn law_sizes_follow_the_lifetime(capacity: PendingCapacity, more: PendingCapacity)
    requires
        more.grace_days == capacity.grace_days + 1,
        more.retention_days == capacity.retention_days,
        more.daily_arrivals == capacity.daily_arrivals,
        more.worst_survivor_share == capacity.worst_survivor_share,
    ensures
        more.lifetime() == capacity.lifetime() + 1,
        more.most_holds() == capacity.most_holds() + share_of(
            capacity.daily_arrivals as int,
            capacity.worst_survivor_share,
        ),
        more.slots_needed() >= capacity.slots_needed(),
{
    let a = share_of(capacity.daily_arrivals as int, capacity.worst_survivor_share);
    let d = capacity.lifetime();
    assert(a * (d + 1) == a * d + a) by (nonlinear_arith);
    lemma_product(capacity.daily_arrivals as int, capacity.worst_survivor_share.billionths as int);
}

/// Where the engine gets the day that retention is measured in.
///
/// A calendar day rather than a clock that starts with the process: retention is a promise in calendar
/// terms and has to survive a restart. Injectable, because a test that could only reach the end of a
/// window by waiting would never reach it.
#[derive(Clone)]
pub enum DaySource {
    WallClock,
    /// Moved by hand. Shared, so that the caller moves it while the worker reads it.
    Fixed(Arc<AtomicU64>),
}

impl DaySource {
    /// A day source the caller can move, and the handle to move it with.
    pub fn manual(day: u64) -> (source: (Self, Arc<AtomicU64>))
        ensures
            source.0 == DaySource::Fixed(source.1),
    {
        let shared = Arc::new(AtomicU64::new(day));
        (DaySource::Fixed(shared.clone()), shared)
    }

    /// The day, from the seconds a wall clock shows and the day it was last moved to by hand.
    pub open spec fn day_from(&self, wall_seconds: u64, moved_to: u64) -> u64 {
        match self {
            DaySource::WallClock => wall_seconds / 86_400,
            DaySource::Fixed(_) => moved_to,
        }
    }

    /// The day, given what was read of the day it was last moved to by hand.
    pub fn day_at(&self, wall_seconds: u64, moved_to: u64) -> (day: u64)
        ensures
            day == self.day_from(wall_seconds, moved_to),
    {
        match self {
            DaySource::WallClock => wall_seconds / 86_400,
            DaySource::Fixed(_) => moved_to,
        }
    }

    /// The day, from the seconds a wall clock shows. A day moved by hand is whatever it was moved to, which
    /// another thread may have done a moment ago: what is read of it is not stated.
    pub fn today(&self, wall_seconds: u64) -> (day: u64)
        ensures
            exists|moved_to: u64| day == #[trigger] self.day_from(wall_seconds, moved_to),
            self is WallClock ==> day == wall_seconds / 86_400,
    {
        let moved_to: u64 = match self {
            DaySource::WallClock => 0,
            DaySource::Fixed(day) => day.load(std::sync::atomic::Ordering::Relaxed),
        };
        let day: u64 = self.day_at(wall_seconds, moved_to);
        assert(day == self.day_from(wall_seconds, moved_to));
        day
    }
}

/// Blocks counted for records hold all of them, and one block fewer would not, or there is only one.
pub proof fn law_blocks_hold_their_records(records: int)
    ensures
        blocks_for(records) >= 1,
        records <= blocks_for(records) * RECORDS_PER_BLOCK,
        blocks_for(records) > 1 ==> (blocks_for(records) - 1) * RECORDS_PER_BLOCK < records,
{
}

/// A share of a count is that many billionths of it, with less than one lost: the whole of it is all of it,
/// none of it is nothing, and a larger share is no less.
pub proof fn law_a_share_is_a_part_of_the_whole(count: int, share: Share, larger: Share)
    requires
        count >= 0,
        share.billionths <= larger.billionths,
    ensures
        share_of(count, share) * 1_000_000_000 <= count * share.billionths < (share_of(count, share) + 1)
            * 1_000_000_000,
        share_of(count, share) >= 0,
        share.billionths == 0 ==> share_of(count, share) == 0,
        share.billionths == WHOLE ==> share_of(count, share) == count,
        share_of(count, share) <= share_of(count, larger),
{
    let a = share.billionths as int;
    let b = larger.billionths as int;
    assert(0 <= count * a <= count * b) by (nonlinear_arith)
        requires
            count >= 0,
            0 <= a <= b,
    ;
    if a == 0 {
        assert(count * a == 0) by (nonlinear_arith)
            requires
                a == 0,
        ;
    }
    if a == 1_000_000_000 {
        assert(count * a == count * 1_000_000_000) by (nonlinear_arith)
            requires
                a == 1_000_000_000,
        ;
    }
}

/// A record is kept for what was promised and the slack, the worst case is a day's survivors for each of
/// those days, and the index has the fewest slots that hold them at the load it is meant for.
pub proof fn law_the_index_holds_the_worst_case(capacity: PendingCapacity)
    ensures
        capacity.lifetime() == capacity.retention_days + capacity.grace_days,
        capacity.lifetime() >= capacity.retention_days,
        capacity.lifetime() == 1 ==> capacity.most_holds() == share_of(
            capacity.daily_arrivals as int,
            capacity.worst_survivor_share,
        ),
        capacity.most_holds() * 100 <= capacity.slots_needed() * 90,
        (capacity.slots_needed() - 1) * 90 < capacity.most_holds() * 100,
        capacity.most_holds() <= capacity.slots_needed(),
{
    let a = share_of(capacity.daily_arrivals as int, capacity.worst_survivor_share);
    let d = capacity.lifetime();
    lemma_product(capacity.daily_arrivals as int, capacity.worst_survivor_share.billionths as int);
    lemma_product(a, d);
    if d == 1 {
        assert(a * d == a) by (nonlinear_arith)
            requires
                d == 1,
        ;
    }
}

/// The buffer holds every arrival of a flush window, and residency every survivor of its window. A longer
/// window takes no fewer blocks.
pub proof fn law_the_windows_hold_what_arrives_in_them(capacity: PendingCapacity, longer: PendingCapacity)
    requires
        longer.daily_arrivals == capacity.daily_arrivals,
        longer.survives_flush_window == capacity.survives_flush_window,
        longer.flush_window_hours >= capacity.flush_window_hours,
        longer.residency_hours >= capacity.residency_hours,
    ensures
        24 * capacity.hourly() <= capacity.daily_arrivals < 24 * (capacity.hourly() + 1),
        capacity.unwritten() * RECORDS_PER_BLOCK >= capacity.hourly() * capacity.flush_window_hours,
        capacity.unwritten() > 1 ==> (capacity.unwritten() - 1) * RECORDS_PER_BLOCK < capacity.hourly()
            * capacity.flush_window_hours,
        capacity.resident() * RECORDS_PER_BLOCK >= share_of(
            capacity.hourly() * capacity.residency_hours,
            capacity.survives_flush_window,
        ),
        capacity.resident() > 1 ==> (capacity.resident() - 1) * RECORDS_PER_BLOCK < share_of(
            capacity.hourly() * capacity.residency_hours,
            capacity.survives_flush_window,
        ),
        longer.unwritten() >= capacity.unwritten(),
        longer.resident() >= capacity.resident(),
{
    let hourly = capacity.hourly();
    let f = capacity.flush_window_hours as int;
    let g = longer.flush_window_hours as int;
    let r = capacity.residency_hours as int;
    let q = longer.residency_hours as int;
    let b = capacity.survives_flush_window.billionths as int;
    assert(hourly * f <= hourly * g && hourly * r <= hourly * q) by (nonlinear_arith)
        requires
            hourly >= 0,
            f <= g,
            r <= q,
    ;
    let x = hourly * r;
    let y = hourly * q;
    assert(x * b <= y * b) by (nonlinear_arith)
        requires
            b >= 0,
            x <= y,
    ;
}

/// What is accepted keeps its promises: a record outlives its retention, the days alive at once have a
/// segment each, the index fits what it may take, what survives longest survived a window, what is resident
/// was written, and a snapshot that is begun can go on by a whole block a round.
pub proof fn law_what_is_accepted_can_be_kept(config: MemoryPendingConfig)
    requires
        sane(config),
    ensures
        config.queue_capacity >= 1,
        config.eviction_per_round >= 1,
        config.capacity.hourly() >= 1,
        config.capacity.retention_days >= 1,
        config.capacity.lifetime() > config.capacity.retention_days,
        config.capacity.lifetime() < SEGMENTS,
        config.capacity.flush_window_hours >= 1,
        config.capacity.flush_window_hours <= config.capacity.residency_hours
            <= config.capacity.lifetime() * 24,
        1 <= config.capacity.worst_survivor_share.billionths
            <= config.capacity.survives_flush_window.billionths <= WHOLE,
        config.capacity.slots_needed() * SLOT_BYTES <= config.index_budget_bytes,
        config.snapshot.every > 0 ==> config.snapshot.bytes_per_round >= BLOCK_BYTES
            && config.snapshot.bytes_per_round % BLOCK_BYTES == 0 && config.snapshot.shadow_budget >= 1,
{
}

/// What is refused could not have been kept: of a configuration that is refused, one of its promises fails.
pub proof fn law_what_is_refused_could_not_be_kept(config: MemoryPendingConfig)
    requires
        config.queue_capacity >= 1,
        config.eviction_per_round >= 1,
        config.capacity.hourly() >= 1,
        config.capacity.retention_days >= 1,
        config.capacity.lifetime() > config.capacity.retention_days,
        config.capacity.lifetime() < SEGMENTS,
        config.capacity.flush_window_hours >= 1,
        config.capacity.flush_window_hours <= config.capacity.residency_hours,
        config.capacity.residency_hours <= config.capacity.lifetime() * 24,
        1 <= config.capacity.worst_survivor_share.billionths,
        config.capacity.worst_survivor_share.billionths
            <= config.capacity.survives_flush_window.billionths,
        config.capacity.survives_flush_window.billionths <= WHOLE,
        config.capacity.slots_needed() * SLOT_BYTES <= config.index_budget_bytes,
        config.snapshot.every > 0 ==> config.snapshot.bytes_per_round >= BLOCK_BYTES
            && config.snapshot.bytes_per_round % BLOCK_BYTES == 0 && config.snapshot.shadow_budget >= 1,
    ensures
        sane(config),
{
}

/// A node starts with room for what was declared: the index for the worst case, the buffer for a window's
/// arrivals and a queue's worth above them, a snapshot for no more of the store's queue than the ledger
/// keeps, and queues of block buffers only where there is something to queue for.
pub proof fn law_a_node_starts_with_room_for_what_was_declared(
    config: MemoryPendingConfig,
    read_threads: usize,
    write_lane: bool,
)
    requires
        startable(config),
    ensures
        ({
            let sizes = sizes_of(config, BackingKind::Files { read_threads, write_lane });
            let memory = sizes_of(config, BackingKind::Memory);
            &&& config.capacity.most_holds() * 100 <= sizes.slots * LOAD_TARGET_PERCENT
            &&& sizes.slots * SLOT_BYTES <= config.index_budget_bytes
            &&& sizes.flush_blocks * RECORDS_PER_BLOCK >= config.capacity.hourly()
                * config.capacity.flush_window_hours
            &&& sizes.resident_blocks == config.capacity.resident()
            &&& sizes.lifetime_days == config.capacity.retention_days + config.capacity.grace_days
            &&& sizes.drain_blocks_per_round * RECORDS_PER_BLOCK >= config.queue_capacity
            &&& (sizes.drain_blocks_per_round - 1) * RECORDS_PER_BLOCK < config.queue_capacity
            &&& sizes.buffer_ceiling == sizes.flush_blocks + sizes.drain_blocks_per_round
            &&& 1 <= sizes.snapshot_queue_share
            &&& config.store.queue_depth >= 2 ==> 2 * sizes.snapshot_queue_share
                <= config.store.queue_depth < 2 * (sizes.snapshot_queue_share + 1)
            &&& sizes.lane_blocks > 0 <==> write_lane
            &&& write_lane && config.store.write_queue_depth > 0 ==> sizes.lane_blocks
                == config.store.write_queue_depth
            &&& sizes.read_pool_blocks > 0 <==> read_threads > 0
            &&& read_threads > 0 && config.store.queue_depth > 0 ==> sizes.read_pool_blocks
                == config.store.queue_depth
            &&& memory == Sizes { lane_blocks: 0, read_pool_blocks: 0, ..sizes }
        }),
{
    let a = share_of(config.capacity.daily_arrivals as int, config.capacity.worst_survivor_share);
    lemma_product(
        config.capacity.daily_arrivals as int,
        config.capacity.worst_survivor_share.billionths as int,
    );
    lemma_product(a, config.capacity.lifetime());
    lemma_product(config.capacity.hourly(), config.capacity.flush_window_hours as int);
    lemma_product(config.capacity.hourly(), config.capacity.residency_hours as int);
    lemma_product(
        config.capacity.hourly() * config.capacity.residency_hours,
        config.capacity.survives_flush_window.billionths as int,
    );
}

/// A wall clock's day is the number of whole days its seconds make, and a day that is moved by hand is
/// where it was moved to, whatever a clock shows.
pub proof fn law_a_day_is_a_calendar_day(source: DaySource, wall_seconds: u64, moved_to: u64)
    ensures
        source is WallClock ==> source.day_from(wall_seconds, moved_to) * 86_400 <= wall_seconds < (
        source.day_from(wall_seconds, moved_to) + 1) * 86_400,
        source is Fixed ==> source.day_from(wall_seconds, moved_to) == moved_to,
{
}

/// What a deployment gets that says nothing is accepted, can be started, and keeps three days of holds.
pub proof fn law_what_nobody_configured_is_accepted()
    ensures
        sane(default_config()),
        startable(default_config()) <== usize::MAX == u64::MAX,
        default_capacity().lifetime() == 3,
        default_capacity().most_holds() == 1_500_000,
        default_capacity().hourly() == 41_666,
        default_capacity().flush_window_hours == 1,
        default_capacity().residency_hours == 24,
        default_config().read_cache_blocks == 64,
        default_config().expiry_blocks_per_round == 2,
        default_config().queue_capacity == 8192,
        default_config().store.exact(),
        default_config().snapshot.every == 0,
{
    assert(500_000_000int * 1_000_000 / 1_000_000_000 == 500_000);
    assert(share_of(1_000_000, Share { billionths: 500_000_000 }) == 500_000);
    assert(500_000int * 3 == 1_500_000);
}

} // verus!
