//! What the log has done, for a report that has to say where the reads went.

use vstd::prelude::*;

use crate::stats::plus;

verus! {

/// What the log has done. Each count stays at the largest a word can carry.
#[derive(Clone, Copy, Debug, PartialEq, Eq, Structural)]
pub struct LogTraffic {
    pub appended: u64,
    pub died_in_buffer: u64,
    /// Survivors carried out of the writeback buffer into the block being packed.
    pub carried_on: u64,
    /// Records that fell out of the residency window, so only the store has them now.
    pub left_memory: u64,
    /// Blocks handed back once nothing in the index pointed into their day.
    pub freed: u64,
    /// Times the store refused a call.
    pub store_faults: u64,
    /// Blocks the store answered with whose checksum did not match.
    pub store_corruptions: u64,
    pub buffer_reads: u64,
    /// Reads answered from a block that is closed and still in memory.
    pub resident_reads: u64,
    pub store_reads: u64,
    /// Store reads on the path that applies committed decisions, which cannot wait for them.
    pub apply_store_reads: u64,
    /// Live entries against the slots the table was sized with, and the longest kick cascade seen.
    pub index_live: usize,
    pub index_slots: usize,
    pub worst_cascade: u32,
    /// Holds whose fingerprint turned out to be shared, and inserts the table could not take at all.
    pub ambiguous: u64,
    pub overflowed: u64,
    /// The day records are being written into, as a segment number, and how many expired days are
    /// still waiting to be emptied.
    pub segment: u8,
    pub days_behind: u64,
    /// Days the sweep may still fall behind before the calendar stops moving.
    pub days_of_slack: u64,
    /// Blocks of expiring days the sweep has read.
    pub swept_blocks: u64,
}

impl LogTraffic {
    pub open spec fn none() -> LogTraffic {
        LogTraffic {
            appended: 0,
            died_in_buffer: 0,
            carried_on: 0,
            left_memory: 0,
            freed: 0,
            store_faults: 0,
            store_corruptions: 0,
            buffer_reads: 0,
            resident_reads: 0,
            store_reads: 0,
            apply_store_reads: 0,
            index_live: 0,
            index_slots: 0,
            worst_cascade: 0,
            ambiguous: 0,
            overflowed: 0,
            segment: 0,
            days_behind: 0,
            days_of_slack: 0,
            swept_blocks: 0,
        }
    }
}

/// Nothing but reads, and what went wrong with them, tells the two apart.
pub open spec fn same_work(one: LogTraffic, other: LogTraffic) -> bool {
    one == LogTraffic {
        store_faults: one.store_faults,
        store_corruptions: one.store_corruptions,
        buffer_reads: one.buffer_reads,
        resident_reads: one.resident_reads,
        store_reads: one.store_reads,
        apply_store_reads: one.apply_store_reads,
        ..other
    }
}

impl LogTraffic {
    /// With one more read of the store: whether it was answered, whether its bytes are the ones that were
    /// written, and whether it came to nothing. A block that came back changed counts as a corruption, and
    /// anything else that came to nothing as a fault.
    pub open spec fn store_read(self, answered: bool, intact: bool, nothing: bool) -> LogTraffic {
        LogTraffic {
            store_reads: plus(self.store_reads, 1),
            store_corruptions: if answered && !intact {
                plus(self.store_corruptions, 1)
            } else {
                self.store_corruptions
            },
            store_faults: if nothing && (!answered || intact) {
                plus(self.store_faults, 1)
            } else {
                self.store_faults
            },
            ..self
        }
    }
}

impl Default for LogTraffic {
    fn default() -> (traffic: Self)
        ensures
            traffic == LogTraffic::none(),
    {
        LogTraffic {
            appended: 0,
            died_in_buffer: 0,
            carried_on: 0,
            left_memory: 0,
            freed: 0,
            store_faults: 0,
            store_corruptions: 0,
            buffer_reads: 0,
            resident_reads: 0,
            store_reads: 0,
            apply_store_reads: 0,
            index_live: 0,
            index_slots: 0,
            worst_cascade: 0,
            ambiguous: 0,
            overflowed: 0,
            segment: 0,
            days_behind: 0,
            days_of_slack: 0,
            swept_blocks: 0,
        }
    }
}

/// A read of the store counts once, whatever comes of it; one that comes to nothing counts once more, as a
/// corruption if bytes came back that were not written and as a fault if not; and nothing else is counted.
pub proof fn law_a_read_of_the_store_is_counted_once(
    traffic: LogTraffic,
    answered: bool,
    intact: bool,
    nothing: bool,
)
    requires
        traffic.store_reads < u64::MAX,
        traffic.store_corruptions < u64::MAX,
        traffic.store_faults < u64::MAX,
    ensures
        ({
            let after = traffic.store_read(answered, intact, nothing);
            let changed = answered && !intact;
            &&& after.store_reads == traffic.store_reads + 1
            &&& changed ==> after.store_corruptions == traffic.store_corruptions + 1 && after.store_faults
                == traffic.store_faults
            &&& !changed && nothing ==> after.store_faults == traffic.store_faults + 1
                && after.store_corruptions == traffic.store_corruptions
            &&& !changed && !nothing ==> after.store_faults == traffic.store_faults
                && after.store_corruptions == traffic.store_corruptions
            &&& LogTraffic {
                store_reads: traffic.store_reads,
                store_corruptions: traffic.store_corruptions,
                store_faults: traffic.store_faults,
                ..after
            } == traffic
        }),
{
}

/// Two logs that did the same work appended, carried, compacted and freed the same, and stand in the same
/// day with the same index.
pub proof fn law_the_same_work_differs_only_in_its_reads(one: LogTraffic, other: LogTraffic)
    ensures
        same_work(one, one),
        same_work(one, other) == same_work(other, one),
        same_work(one, other) ==> one.appended == other.appended && one.died_in_buffer
            == other.died_in_buffer && one.carried_on == other.carried_on && one.left_memory
            == other.left_memory && one.freed == other.freed && one.index_live == other.index_live
            && one.segment == other.segment && one.days_behind == other.days_behind && one.swept_blocks
            == other.swept_blocks,
{
}

} // verus!
