//! What one volume has done, counted by the volume.

use vstd::prelude::*;

verus! {

/// A count with some more added, held at the largest a word can carry.
pub open spec fn plus(count: u64, more: u64) -> u64 {
    if count + more > u64::MAX {
        u64::MAX
    } else {
        (count + more) as u64
    }
}

/// The larger of two depths.
pub open spec fn deeper(one: usize, other: usize) -> usize {
    if one < other {
        other
    } else {
        one
    }
}

pub fn add_count(count: u64, more: u64) -> (sum: u64)
    ensures
        sum == plus(count, more),
{
    count.saturating_add(more)
}

fn deepest(one: usize, other: usize) -> (depth: usize)
    ensures
        depth == deeper(one, other),
{
    if one < other {
        other
    } else {
        one
    }
}

/// What one volume has done. A volume is where reads and writes from every caller meet, so it is the
/// only place that can say what the disk is doing. Each count stays at the largest a word can carry.
#[derive(Clone, Copy, Debug, PartialEq, Eq, Structural)]
pub struct VolumeStats {
    /// Reads handed to the queue, and the ones it has answered.
    pub reads_submitted: u64,
    pub reads_answered: u64,
    /// Reads done on the calling thread instead.
    pub reads_inline: u64,
    /// Reads answered from blocks already in hand, and reads that waited on one already on its way.
    pub reads_cached: u64,
    pub reads_joined: u64,
    pub writes: u64,
    pub barriers: u64,
    pub removes: u64,
    pub renames: u64,
    pub bytes_written: u64,
    /// Calls the volume would not take, by side.
    pub reads_refused: u64,
    pub writes_refused: u64,
    /// The deepest each queue got.
    pub read_depth_peak: usize,
    pub write_depth_peak: usize,
    /// Calls the volume itself failed.
    pub faults: u64,
}

impl VolumeStats {
    /// Nothing done yet.
    pub open spec fn none() -> VolumeStats {
        VolumeStats {
            reads_submitted: 0,
            reads_answered: 0,
            reads_inline: 0,
            reads_cached: 0,
            reads_joined: 0,
            writes: 0,
            barriers: 0,
            removes: 0,
            renames: 0,
            bytes_written: 0,
            reads_refused: 0,
            writes_refused: 0,
            read_depth_peak: 0,
            write_depth_peak: 0,
            faults: 0,
        }
    }
}

impl Default for VolumeStats {
    fn default() -> (stats: Self)
        ensures
            stats == VolumeStats::none(),
    {
        VolumeStats {
            reads_submitted: 0,
            reads_answered: 0,
            reads_inline: 0,
            reads_cached: 0,
            reads_joined: 0,
            writes: 0,
            barriers: 0,
            removes: 0,
            renames: 0,
            bytes_written: 0,
            reads_refused: 0,
            writes_refused: 0,
            read_depth_peak: 0,
            write_depth_peak: 0,
            faults: 0,
        }
    }
}

impl VolumeStats {
    pub open spec fn took_read_after(self, depth: usize) -> VolumeStats {
        VolumeStats {
            reads_submitted: plus(self.reads_submitted, 1),
            read_depth_peak: deeper(self.read_depth_peak, depth),
            ..self
        }
    }

    /// A read was taken, and the queue is this deep with it.
    pub fn took_read(&mut self, depth: usize)
        ensures
            *final(self) == old(self).took_read_after(depth),
    {
        self.reads_submitted = add_count(self.reads_submitted, 1);
        self.read_depth_peak = deepest(self.read_depth_peak, depth);
    }

    pub open spec fn answered_read_after(self, ok: bool) -> VolumeStats {
        VolumeStats {
            reads_answered: plus(self.reads_answered, 1),
            faults: if ok { self.faults } else { plus(self.faults, 1) },
            ..self
        }
    }

    /// A queued read was answered.
    pub fn answered_read(&mut self, ok: bool)
        ensures
            *final(self) == old(self).answered_read_after(ok),
    {
        self.reads_answered = add_count(self.reads_answered, 1);
        self.faults = if ok { self.faults } else { add_count(self.faults, 1) };
    }

    pub open spec fn took_write_after(self, bytes: u64, depth: usize) -> VolumeStats {
        VolumeStats {
            writes: plus(self.writes, 1),
            bytes_written: plus(self.bytes_written, bytes),
            write_depth_peak: deeper(self.write_depth_peak, depth),
            ..self
        }
    }

    /// A write was taken.
    pub fn took_write(&mut self, bytes: u64, depth: usize)
        ensures
            *final(self) == old(self).took_write_after(bytes, depth),
    {
        self.writes = add_count(self.writes, 1);
        self.bytes_written = add_count(self.bytes_written, bytes);
        self.write_depth_peak = deepest(self.write_depth_peak, depth);
    }

    pub open spec fn took_barrier_after(self, depth: usize) -> VolumeStats {
        VolumeStats {
            barriers: plus(self.barriers, 1),
            write_depth_peak: deeper(self.write_depth_peak, depth),
            ..self
        }
    }

    /// A barrier was taken.
    pub fn took_barrier(&mut self, depth: usize)
        ensures
            *final(self) == old(self).took_barrier_after(depth),
    {
        self.barriers = add_count(self.barriers, 1);
        self.write_depth_peak = deepest(self.write_depth_peak, depth);
    }

    pub open spec fn answered_write_after(self, ok: bool) -> VolumeStats {
        VolumeStats {
            faults: if ok { self.faults } else { plus(self.faults, 1) },
            ..self
        }
    }

    /// A write was answered.
    pub fn answered_write(&mut self, ok: bool)
        ensures
            *final(self) == old(self).answered_write_after(ok),
    {
        self.faults = if ok { self.faults } else { add_count(self.faults, 1) };
    }

    pub open spec fn read_inline_after(self) -> VolumeStats {
        VolumeStats {
            reads_inline: plus(self.reads_inline, 1),
            ..self
        }
    }

    /// A read was done on the calling thread.
    pub fn read_inline(&mut self)
        ensures
            *final(self) == old(self).read_inline_after(),
    {
        self.reads_inline = add_count(self.reads_inline, 1);
    }

    pub open spec fn failed_after(self) -> VolumeStats {
        VolumeStats {
            faults: plus(self.faults, 1),
            ..self
        }
    }

    /// A call failed.
    pub fn failed(&mut self)
        ensures
            *final(self) == old(self).failed_after(),
    {
        self.faults = add_count(self.faults, 1);
    }

    pub open spec fn removed_after(self) -> VolumeStats {
        VolumeStats {
            removes: plus(self.removes, 1),
            ..self
        }
    }

    /// An object was removed.
    pub fn removed(&mut self)
        ensures
            *final(self) == old(self).removed_after(),
    {
        self.removes = add_count(self.removes, 1);
    }

    pub open spec fn renamed_after(self) -> VolumeStats {
        VolumeStats {
            renames: plus(self.renames, 1),
            ..self
        }
    }

    /// An object was renamed.
    pub fn renamed(&mut self)
        ensures
            *final(self) == old(self).renamed_after(),
    {
        self.renames = add_count(self.renames, 1);
    }

    pub open spec fn refused_read_after(self) -> VolumeStats {
        VolumeStats {
            reads_refused: plus(self.reads_refused, 1),
            ..self
        }
    }

    /// A read was not taken.
    pub fn refused_read(&mut self)
        ensures
            *final(self) == old(self).refused_read_after(),
    {
        self.reads_refused = add_count(self.reads_refused, 1);
    }

    pub open spec fn refused_write_after(self) -> VolumeStats {
        VolumeStats {
            writes_refused: plus(self.writes_refused, 1),
            ..self
        }
    }

    /// A write was not taken.
    pub fn refused_write(&mut self)
        ensures
            *final(self) == old(self).refused_write_after(),
    {
        self.writes_refused = add_count(self.writes_refused, 1);
    }

    pub open spec fn cached_read_after(self) -> VolumeStats {
        VolumeStats {
            reads_cached: plus(self.reads_cached, 1),
            ..self
        }
    }

    /// A read was answered from a block in hand.
    pub fn cached_read(&mut self)
        ensures
            *final(self) == old(self).cached_read_after(),
    {
        self.reads_cached = add_count(self.reads_cached, 1);
    }

    pub open spec fn joined_read_after(self) -> VolumeStats {
        VolumeStats {
            reads_joined: plus(self.reads_joined, 1),
            ..self
        }
    }

    /// A read waits on one already on its way.
    pub fn joined_read(&mut self)
        ensures
            *final(self) == old(self).joined_read_after(),
    {
        self.reads_joined = add_count(self.reads_joined, 1);
    }

    pub open spec fn merge_of(self, other: VolumeStats) -> VolumeStats {
        VolumeStats {
            reads_submitted: plus(self.reads_submitted, other.reads_submitted),
            reads_answered: plus(self.reads_answered, other.reads_answered),
            reads_inline: plus(self.reads_inline, other.reads_inline),
            reads_cached: plus(self.reads_cached, other.reads_cached),
            reads_joined: plus(self.reads_joined, other.reads_joined),
            writes: plus(self.writes, other.writes),
            barriers: plus(self.barriers, other.barriers),
            removes: plus(self.removes, other.removes),
            renames: plus(self.renames, other.renames),
            bytes_written: plus(self.bytes_written, other.bytes_written),
            reads_refused: plus(self.reads_refused, other.reads_refused),
            writes_refused: plus(self.writes_refused, other.writes_refused),
            read_depth_peak: deeper(self.read_depth_peak, other.read_depth_peak),
            write_depth_peak: deeper(self.write_depth_peak, other.write_depth_peak),
            faults: plus(self.faults, other.faults),
        }
    }

    /// Both counts together: each is a volume's own, so nothing is counted twice.
    pub fn merge(self, other: Self) -> (both: Self)
        ensures
            both == self.merge_of(other),
    {
        VolumeStats {
            reads_submitted: add_count(self.reads_submitted, other.reads_submitted),
            reads_answered: add_count(self.reads_answered, other.reads_answered),
            reads_inline: add_count(self.reads_inline, other.reads_inline),
            reads_cached: add_count(self.reads_cached, other.reads_cached),
            reads_joined: add_count(self.reads_joined, other.reads_joined),
            writes: add_count(self.writes, other.writes),
            barriers: add_count(self.barriers, other.barriers),
            removes: add_count(self.removes, other.removes),
            renames: add_count(self.renames, other.renames),
            bytes_written: add_count(self.bytes_written, other.bytes_written),
            reads_refused: add_count(self.reads_refused, other.reads_refused),
            writes_refused: add_count(self.writes_refused, other.writes_refused),
            read_depth_peak: deepest(self.read_depth_peak, other.read_depth_peak),
            write_depth_peak: deepest(self.write_depth_peak, other.write_depth_peak),
            faults: add_count(self.faults, other.faults),
        }
    }
}

/// A count is the sum of what it was and what is added, until a word can carry no more; then it stays at the
/// largest. It never goes down, and the larger of two depths is one of them and no less than either.
pub proof fn law_a_count_never_goes_down(count: u64, more: u64, one: usize, other: usize)
    ensures
        count + more <= u64::MAX ==> plus(count, more) == count + more,
        count + more > u64::MAX ==> plus(count, more) == u64::MAX,
        deeper(one, other) >= one,
        deeper(one, other) >= other,
        deeper(one, other) == one || deeper(one, other) == other,
{
}

/// Two volumes' counts together: of every thing each has counted, both; of the depths the deeper. Whose is
/// named first makes no difference, and a volume that has done nothing adds nothing.
pub proof fn law_merging_counts_everything_once(one: VolumeStats, other: VolumeStats)
    ensures
        one.merge_of(other) == other.merge_of(one),
        one.merge_of(VolumeStats::none()) == one,
        one.reads_submitted + other.reads_submitted <= u64::MAX ==> one.merge_of(other).reads_submitted
            == one.reads_submitted + other.reads_submitted,
        one.reads_answered + other.reads_answered <= u64::MAX ==> one.merge_of(other).reads_answered
            == one.reads_answered + other.reads_answered,
        one.reads_inline + other.reads_inline <= u64::MAX ==> one.merge_of(other).reads_inline
            == one.reads_inline + other.reads_inline,
        one.reads_cached + other.reads_cached <= u64::MAX ==> one.merge_of(other).reads_cached
            == one.reads_cached + other.reads_cached,
        one.reads_joined + other.reads_joined <= u64::MAX ==> one.merge_of(other).reads_joined
            == one.reads_joined + other.reads_joined,
        one.writes + other.writes <= u64::MAX ==> one.merge_of(other).writes == one.writes + other.writes,
        one.barriers + other.barriers <= u64::MAX ==> one.merge_of(other).barriers == one.barriers
            + other.barriers,
        one.removes + other.removes <= u64::MAX ==> one.merge_of(other).removes == one.removes
            + other.removes,
        one.renames + other.renames <= u64::MAX ==> one.merge_of(other).renames == one.renames
            + other.renames,
        one.bytes_written + other.bytes_written <= u64::MAX ==> one.merge_of(other).bytes_written
            == one.bytes_written + other.bytes_written,
        one.reads_refused + other.reads_refused <= u64::MAX ==> one.merge_of(other).reads_refused
            == one.reads_refused + other.reads_refused,
        one.writes_refused + other.writes_refused <= u64::MAX ==> one.merge_of(other).writes_refused
            == one.writes_refused + other.writes_refused,
        one.faults + other.faults <= u64::MAX ==> one.merge_of(other).faults == one.faults + other.faults,
        one.merge_of(other).read_depth_peak >= one.read_depth_peak,
        one.merge_of(other).read_depth_peak >= other.read_depth_peak,
        one.merge_of(other).read_depth_peak == one.read_depth_peak || one.merge_of(other).read_depth_peak
            == other.read_depth_peak,
        one.merge_of(other).write_depth_peak >= one.write_depth_peak,
        one.merge_of(other).write_depth_peak >= other.write_depth_peak,
        one.merge_of(other).write_depth_peak == one.write_depth_peak || one.merge_of(
            other,
        ).write_depth_peak == other.write_depth_peak,
{
}

/// A call counts itself, once, on its own side: what it is not leaves every other count alone. Here of the
/// reads.
pub proof fn law_a_read_counts_itself_once(stats: VolumeStats, depth: usize, ok: bool)
    requires
        stats.reads_submitted < u64::MAX,
        stats.reads_answered < u64::MAX,
        stats.reads_inline < u64::MAX,
        stats.reads_refused < u64::MAX,
        stats.reads_cached < u64::MAX,
        stats.reads_joined < u64::MAX,
        stats.faults < u64::MAX,
    ensures
        ({
            let after = stats.took_read_after(depth);
            &&& after.reads_submitted == stats.reads_submitted + 1
            &&& after.read_depth_peak >= depth && after.read_depth_peak >= stats.read_depth_peak
            &&& (VolumeStats {
                reads_submitted: stats.reads_submitted,
                read_depth_peak: stats.read_depth_peak,
                ..after
            }) == stats
        }),
        ({
            let after = stats.answered_read_after(ok);
            &&& after.reads_answered == stats.reads_answered + 1
            &&& after.faults == stats.faults + if ok {
                0int
            } else {
                1
            }
            &&& (VolumeStats { reads_answered: stats.reads_answered, faults: stats.faults, ..after })
                == stats
        }),
        ({
            let after = stats.read_inline_after();
            &&& after.reads_inline == stats.reads_inline + 1
            &&& (VolumeStats { reads_inline: stats.reads_inline, ..after }) == stats
        }),
        ({
            let after = stats.refused_read_after();
            &&& after.reads_refused == stats.reads_refused + 1
            &&& (VolumeStats { reads_refused: stats.reads_refused, ..after }) == stats
        }),
        ({
            let after = stats.cached_read_after();
            &&& after.reads_cached == stats.reads_cached + 1
            &&& (VolumeStats { reads_cached: stats.reads_cached, ..after }) == stats
        }),
        ({
            let after = stats.joined_read_after();
            &&& after.reads_joined == stats.reads_joined + 1
            &&& (VolumeStats { reads_joined: stats.reads_joined, ..after }) == stats
        }),
{
}

/// A call counts itself, once, on its own side: here of what changes the volume.
pub proof fn law_a_change_counts_itself_once(stats: VolumeStats, bytes: u64, depth: usize, ok: bool)
    requires
        stats.writes < u64::MAX,
        stats.bytes_written + bytes <= u64::MAX,
        stats.barriers < u64::MAX,
        stats.removes < u64::MAX,
        stats.renames < u64::MAX,
        stats.writes_refused < u64::MAX,
        stats.faults < u64::MAX,
    ensures
        ({
            let after = stats.took_write_after(bytes, depth);
            &&& after.writes == stats.writes + 1
            &&& after.bytes_written == stats.bytes_written + bytes
            &&& after.write_depth_peak >= depth && after.write_depth_peak >= stats.write_depth_peak
            &&& (VolumeStats {
                writes: stats.writes,
                bytes_written: stats.bytes_written,
                write_depth_peak: stats.write_depth_peak,
                ..after
            }) == stats
        }),
        ({
            let after = stats.took_barrier_after(depth);
            &&& after.barriers == stats.barriers + 1
            &&& after.write_depth_peak >= depth && after.write_depth_peak >= stats.write_depth_peak
            &&& (VolumeStats {
                barriers: stats.barriers,
                write_depth_peak: stats.write_depth_peak,
                ..after
            }) == stats
        }),
        ({
            let after = stats.answered_write_after(ok);
            &&& after.faults == stats.faults + if ok {
                0int
            } else {
                1
            }
            &&& (VolumeStats { faults: stats.faults, ..after }) == stats
        }),
        ({
            let after = stats.failed_after();
            &&& after.faults == stats.faults + 1
            &&& (VolumeStats { faults: stats.faults, ..after }) == stats
        }),
        ({
            let after = stats.removed_after();
            &&& after.removes == stats.removes + 1
            &&& (VolumeStats { removes: stats.removes, ..after }) == stats
        }),
        ({
            let after = stats.renamed_after();
            &&& after.renames == stats.renames + 1
            &&& (VolumeStats { renames: stats.renames, ..after }) == stats
        }),
        ({
            let after = stats.refused_write_after();
            &&& after.writes_refused == stats.writes_refused + 1
            &&& (VolumeStats { writes_refused: stats.writes_refused, ..after }) == stats
        }),
{
}

} // verus!
