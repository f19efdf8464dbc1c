//! How often a snapshot is written, how fast, and how much the stable read may hold aside while it is.

use vstd::prelude::*;

verus! {

/// Bytes of the stream one round writes, unless a deployment says otherwise: a block's worth.
pub const DEFAULT_BYTES_PER_ROUND: usize = 4096;

/// Buckets the stable read may hold aside, unless a deployment says otherwise.
pub const DEFAULT_SHADOW_BUDGET: usize = 0x20_0000;

/// The cadence and the throttle between them decide how long a dump takes, and that is what the budget has
/// to cover.
#[derive(Clone, Copy, Debug, PartialEq, Eq, Structural)]
pub struct SnapshotPolicy {
    /// Log positions between one dump and the next. Zero writes none.
    pub every: u64,
    /// Bytes of the stream one round writes.
    pub bytes_per_round: usize,
    /// Buckets held aside for the stable read before the dump is abandoned.
    pub shadow_budget: usize,
}

impl Default for SnapshotPolicy {
    fn default() -> (policy: Self)
        ensures
            policy == (SnapshotPolicy {
                every: 0,
                bytes_per_round: DEFAULT_BYTES_PER_ROUND,
                shadow_budget: DEFAULT_SHADOW_BUDGET,
            }),
    {
        SnapshotPolicy {
            every: 0,
            bytes_per_round: DEFAULT_BYTES_PER_ROUND,
            shadow_budget: DEFAULT_SHADOW_BUDGET,
        }
    }
}

/// What has been done about snapshots. Each count stays at the largest a word can carry.
#[derive(Clone, Copy, Debug, PartialEq, Eq, Structural)]
pub struct SnapshotStats {
    /// Dumps that reached the current name.
    pub written: u64,
    /// Dumps given up on: a write that failed, a budget exceeded, or a store that broke under one.
    pub abandoned: u64,
    /// Bytes handed over, published ones and given-up ones alike.
    pub bytes: u64,
    /// The most buckets the stable read held aside at once.
    pub shadow_peak: u64,
    /// Rounds the last published dump took.
    pub last_rounds: u64,
    /// Coverage of the last published dump: the position a restart would replay from.
    pub covered: u64,
}

pub open spec fn no_snapshots() -> SnapshotStats {
    SnapshotStats {
        written: 0,
        abandoned: 0,
        bytes: 0,
        shadow_peak: 0,
        last_rounds: 0,
        covered: 0,
    }
}

impl Default for SnapshotStats {
    fn default() -> (stats: Self)
        ensures
            stats == no_snapshots(),
    {
        SnapshotStats {
            written: 0,
            abandoned: 0,
            bytes: 0,
            shadow_peak: 0,
            last_rounds: 0,
            covered: 0,
        }
    }
}

} // verus!
