//! What a node is holding, part by part.

use vstd::prelude::*;

use crate::address::BLOCK_BYTES;
use crate::engine::PendingEngine;
use crate::overlay::HoldOverlay;
use crate::record_log::stored_blocks;
use crate::store::DurableStore;

verus! {

/// What one overlay entry costs, priced as the hash table it is.
pub const ENTRY_BUCKET_BYTES: usize = 49;

/// What one entry of the index costs in a table keyed by a hold's name.
pub const ADDRESS_BUCKET_BYTES: usize = 33;

/// What one budget group costs in a table keyed by its name.
pub const GROUP_BUCKET_BYTES: usize = 33;

/// How much of a structure is used: its entries, the most it has had, and how many it has room for.
#[derive(Clone, Copy, Debug, PartialEq, Eq, Structural)]
pub struct MapGauge {
    pub entries: usize,
    pub peak: usize,
    pub capacity: usize,
}

/// One line of a report. A capacity of zero is no ceiling that something could reach.
#[derive(Clone, Copy, Debug)]
pub struct Part {
    pub name: &'static str,
    pub entries: usize,
    pub peak_entries: usize,
    pub capacity: usize,
    pub bytes: usize,
}

/// So many pieces of so many bytes, held at the largest a word can carry.
pub open spec fn bytes_of(pieces: usize, each: usize) -> usize {
    if pieces * each <= usize::MAX {
        (pieces * each) as usize
    } else {
        usize::MAX
    }
}

pub fn price(pieces: usize, each: usize) -> (bytes: usize)
    ensures
        bytes == bytes_of(pieces, each),
{
    match pieces.checked_mul(each) {
        Some(bytes) => bytes,
        None => usize::MAX,
    }
}

/// A line that says these things.
pub open spec fn says(part: Part, name: Seq<char>, gauge: MapGauge, bytes: usize) -> bool {
    &&& part.name@ == name
    &&& part.entries == gauge.entries
    &&& part.peak_entries == gauge.peak
    &&& part.capacity == gauge.capacity
    &&& part.bytes == bytes
}

fn line(name: &'static str, gauge: MapGauge, bytes: usize) -> (part: Part)
    ensures
        says(part, name@, gauge, bytes),
{
    Part {
        name,
        entries: gauge.entries,
        peak_entries: gauge.peak,
        capacity: gauge.capacity,
        bytes,
    }
}

/// What the engine's thread last said it is holding, and the buffers taken at the start.
#[derive(Clone, Copy, Debug, PartialEq, Eq, Structural)]
pub struct Occupied {
    pub holds: MapGauge,
    pub budgets: MapGauge,
    pub blocks: MapGauge,
    /// Blocks in the writeback buffer, against the flush window.
    pub buffer: MapGauge,
    /// Blocks written and kept in memory anyway, against the residency window.
    pub resident: MapGauge,
    /// Fixed from the start, so they are numbers rather than gauges.
    pub read_cache_blocks: usize,
    pub lane_blocks: usize,
    pub read_pool_blocks: usize,
}

/// A gauge told a new count: its peak follows.
pub open spec fn gauged(gauge: MapGauge, entries: int, capacity: int) -> MapGauge {
    MapGauge {
        entries: entries as usize,
        peak: if gauge.peak < entries {
            entries as usize
        } else {
            gauge.peak
        },
        capacity: capacity as usize,
    }
}

impl MapGauge {
    fn told(self, entries: usize, capacity: usize) -> (gauge: MapGauge)
        ensures
            gauge == gauged(self, entries as int, capacity as int),
    {
        MapGauge {
            entries,
            peak: if self.peak < entries {
                entries
            } else {
                self.peak
            },
            capacity,
        }
    }
}

/// A count of blocks as a word of this machine, held at the largest it can carry.
pub open spec fn as_word(blocks: int) -> int {
    if blocks <= usize::MAX {
        blocks
    } else {
        usize::MAX as int
    }
}

impl<S: DurableStore> PendingEngine<S> {
    /// What the engine is holding, with the peaks of what it said before. The index's capacity is its
    /// slots rather than its entries: what a hold costs in the index is a slot whether or not one is
    /// occupied.
    pub fn publish(&self, before: &Occupied) -> (occupied: Occupied)
        requires
            self.wf(),
        ensures
            occupied == (Occupied {
                holds: gauged(
                    before.holds,
                    self.table().spec_len() as int,
                    self.table().words().len() as int,
                ),
                budgets: gauged(
                    before.budgets,
                    self.groups().len() as int,
                    self.groups().len() as int,
                ),
                blocks: gauged(
                    before.blocks,
                    as_word(stored_blocks(self.log().days(), 64) as int),
                    as_word(stored_blocks(self.log().days(), 64) as int),
                ),
                buffer: gauged(
                    before.buffer,
                    self.log().held().buffer@.len() as int,
                    self.log().spec_windows().0 as int,
                ),
                resident: gauged(
                    before.resident,
                    self.log().held().in_memory() as int,
                    self.log().spec_windows().1 as int,
                ),
                ..*before
            }),
    {
        let table = self.index();
        let groups: usize = self.group_count();
        let (buffered, in_memory, stored) = self.stored_blocks();
        let (flush_window, resident_window) = self.records().windows();
        let stored: usize = if stored <= usize::MAX as u64 {
            stored as usize
        } else {
            usize::MAX
        };
        Occupied {
            holds: before.holds.told(table.len(), table.slots()),
            budgets: before.budgets.told(groups, groups),
            blocks: before.blocks.told(stored, stored),
            buffer: before.buffer.told(buffered, flush_window),
            resident: before.resident.told(in_memory, resident_window),
            read_cache_blocks: before.read_cache_blocks,
            lane_blocks: before.lane_blocks,
            read_pool_blocks: before.read_pool_blocks,
        }
    }
}

/// A fixed number of blocks, reported as a gauge that has no ceiling.
pub open spec fn fixed(blocks: usize) -> MapGauge {
    MapGauge { entries: blocks, peak: blocks, capacity: 0 }
}

/// The lines for the buffers taken at the start, none for one that was not taken.
pub open spec fn fixed_lines(occupied: Occupied) -> Seq<(Seq<char>, usize)> {
    let cache = if occupied.read_cache_blocks == 0 {
        Seq::empty()
    } else {
        seq![("volume read cache"@, occupied.read_cache_blocks)]
    };
    let lane = if occupied.lane_blocks == 0 {
        Seq::empty()
    } else {
        seq![("volume write lane"@, occupied.lane_blocks)]
    };
    let pool = if occupied.read_pool_blocks == 0 {
        Seq::empty()
    } else {
        seq![("volume read pool"@, occupied.read_pool_blocks)]
    };
    cache + lane + pool
}

/// Every line of the report, in order: the index, the groups, the three sets of blocks, the buffers taken
/// at the start, and the overlay.
pub open spec fn reports(parts: Seq<Part>, occupied: Occupied, overlay: &HoldOverlay) -> bool {
    let fixed_ones = fixed_lines(occupied);
    &&& parts.len() == 5 + fixed_ones.len() + 1
    &&& says(
        parts[0],
        "engine index"@,
        occupied.holds,
        bytes_of(occupied.holds.capacity, ADDRESS_BUCKET_BYTES),
    )
    &&& says(
        parts[1],
        "engine budget groups"@,
        occupied.budgets,
        bytes_of(occupied.budgets.capacity, GROUP_BUCKET_BYTES),
    )
    &&& says(
        parts[2],
        "engine writeback buffer"@,
        occupied.buffer,
        bytes_of(occupied.buffer.entries, BLOCK_BYTES),
    )
    &&& says(
        parts[3],
        "engine resident blocks"@,
        occupied.resident,
        bytes_of(occupied.resident.entries, BLOCK_BYTES),
    )
    &&& says(
        parts[4],
        "engine record blocks"@,
        (MapGauge { capacity: 0, ..occupied.blocks }),
        bytes_of(occupied.blocks.entries, BLOCK_BYTES),
    )
    &&& forall|i: int|
        0 <= i < fixed_ones.len() ==> says(
            parts[5 + i],
            (#[trigger] fixed_ones[i]).0,
            fixed(fixed_ones[i].1),
            bytes_of(fixed_ones[i].1, BLOCK_BYTES),
        )
    &&& overlay_says(parts[5 + fixed_ones.len() as int], overlay)
}

/// The overlay's line. What sizes it is its peak: eviction means that the count says little.
pub open spec fn overlay_says(part: Part, overlay: &HoldOverlay) -> bool {
    &&& part.name@ == "pending overlay"@
    &&& part.entries == overlay.entries().len()
    &&& part.peak_entries == overlay.most()
    &&& part.capacity == 0
    &&& part.bytes == bytes_of(overlay.most(), ENTRY_BUCKET_BYTES)
}

impl HoldOverlay {
    /// What the overlay is holding. Its ceiling is its own eviction policy, so none is reported.
    pub fn footprint(&self) -> (part: Part)
        ensures
            overlay_says(part, self),
    {
        let peak: usize = self.peak();
        Part {
            name: "pending overlay",
            entries: self.len(),
            peak_entries: peak,
            capacity: 0,
            bytes: price(peak, ENTRY_BUCKET_BYTES),
        }
    }
}

/// What a node is holding: the engine's side, and the overlay on the caller's. Three figures for one set
/// of records, because they answer three questions: what a checkpoint would have to carry, what memory
/// costs to keep resolutions off the disk, and what the store holds.
pub fn footprint(occupied: &Occupied, overlay: &HoldOverlay) -> (parts: Vec<Part>)
    ensures
        reports(parts@, *occupied, overlay),
{
    let mut parts: Vec<Part> = Vec::new();
    parts.push(
        line(
            "engine index",
            occupied.holds,
            price(occupied.holds.capacity, ADDRESS_BUCKET_BYTES),
        ),
    );
    parts.push(
        line(
            "engine budget groups",
            occupied.budgets,
            price(occupied.budgets.capacity, GROUP_BUCKET_BYTES),
        ),
    );
    parts.push(
        line(
            "engine writeback buffer",
            occupied.buffer,
            price(occupied.buffer.entries, BLOCK_BYTES),
        ),
    );
    parts.push(
        line(
            "engine resident blocks",
            occupied.resident,
            price(occupied.resident.entries, BLOCK_BYTES),
        ),
    );
    let blocks = MapGauge {
        entries: occupied.blocks.entries,
        peak: occupied.blocks.peak,
        capacity: 0,
    };
    parts.push(line("engine record blocks", blocks, price(occupied.blocks.entries, BLOCK_BYTES)));
    let ghost five = parts@;
    push_fixed(&mut parts, "volume read cache", occupied.read_cache_blocks);
    let ghost six = parts@;
    push_fixed(&mut parts, "volume write lane", occupied.lane_blocks);
    let ghost seven = parts@;
    push_fixed(&mut parts, "volume read pool", occupied.read_pool_blocks);
    let ghost eight = parts@;
    parts.push(overlay.footprint());
    proof {
        let all = parts@;
        let ones = fixed_lines(*occupied);
        assert forall|i: int| 0 <= i < 5 implies #[trigger] all[i] == five[i] by {
            assert(six[i] == five[i] && seven[i] == six[i] && eight[i] == seven[i]);
        }
        assert forall|i: int| 0 <= i < ones.len() implies says(
            all[5 + i],
            (#[trigger] ones[i]).0,
            fixed(ones[i].1),
            bytes_of(ones[i].1, BLOCK_BYTES),
        ) by {
            assert(all[5 + i] == eight[5 + i]);
            if 5 + i < seven.len() {
                assert(eight[5 + i] == seven[5 + i]);
                if 5 + i < six.len() {
                    assert(seven[5 + i] == six[5 + i]);
                }
            }
        }
    }
    parts
}

fn push_fixed(parts: &mut Vec<Part>, name: &'static str, blocks: usize)
    ensures
        final(parts)@.len() == old(parts)@.len() + if blocks == 0 {
            0int
        } else {
            1int
        },
        forall|i: int| 0 <= i < old(parts)@.len() ==> #[trigger] final(parts)@[i] == old(parts)@[i],
        blocks > 0 ==> says(
            final(parts)@[old(parts)@.len() as int],
            name@,
            fixed(blocks),
            bytes_of(blocks, BLOCK_BYTES),
        ),
{
    if blocks > 0 {
        let gauge = MapGauge { entries: blocks, peak: blocks, capacity: 0 };
        parts.push(line(name, gauge, price(blocks, BLOCK_BYTES)));
    }
}

/// What consensus is holding: the log, where one is kept, and the proposals on their round trip with the
/// most effects they have carried.
pub fn raft_footprint(
    log_entries: usize,
    log_capacity: usize,
    proposals: MapGauge,
    effects_peak: usize,
    effect_bytes: usize,
    proposal_bytes: usize,
) -> (parts: (Part, Part))
    ensures
        says(
            parts.0,
            "kept log"@,
            (MapGauge { entries: log_entries, peak: log_entries, capacity: 0 }),
            bytes_of(log_capacity, effect_bytes),
        ),
        says(
            parts.1,
            "proposals in flight"@,
            (MapGauge { capacity: 0, ..proposals }),
            ({
                let both = bytes_of(proposals.capacity, proposal_bytes) + bytes_of(
                    effects_peak,
                    effect_bytes,
                );
                if both <= usize::MAX {
                    both as usize
                } else {
                    usize::MAX
                }
            }),
        ),
{
    let log = line(
        "kept log",
        MapGauge { entries: log_entries, peak: log_entries, capacity: 0 },
        price(log_capacity, effect_bytes),
    );
    let carried: usize = price(proposals.capacity, proposal_bytes).saturating_add(
        price(effects_peak, effect_bytes),
    );
    let gauge = MapGauge { entries: proposals.entries, peak: proposals.peak, capacity: 0 };
    (log, line("proposals in flight", gauge, carried))
}

/// Pieces take what they take together, until a word can carry no more.
pub proof fn law_pieces_take_what_they_take_together(pieces: usize, each: usize)
    ensures
        pieces * each <= usize::MAX ==> bytes_of(pieces, each) == pieces * each,
        pieces * each > usize::MAX ==> bytes_of(pieces, each) == usize::MAX,
        pieces == 0 ==> bytes_of(pieces, each) == 0,
{
    if pieces == 0 {
        assert(pieces * each == 0) by (nonlinear_arith)
            requires
                pieces == 0,
        ;
    }
}

/// A gauge says what it was last told, and its peak is the most it was ever told.
pub proof fn law_a_peak_never_goes_down(gauge: MapGauge, entries: usize, capacity: usize)
    ensures
        ({
            let after = gauged(gauge, entries as int, capacity as int);
            &&& after.entries == entries
            &&& after.capacity == capacity
            &&& after.peak >= entries
            &&& after.peak >= gauge.peak
            &&& after.peak == entries || after.peak == gauge.peak
        }),
{
}

/// What a volume fixes from the start has a line each, in order, and only if there is any of it.
pub proof fn law_what_is_fixed_has_a_line_if_there_is_any(occupied: Occupied, i: int)
    ensures
        ({
            let lines = fixed_lines(occupied);
            let cache: int = if occupied.read_cache_blocks > 0 {
                1
            } else {
                0
            };
            let lane: int = if occupied.lane_blocks > 0 {
                1
            } else {
                0
            };
            let pool: int = if occupied.read_pool_blocks > 0 {
                1
            } else {
                0
            };
            &&& lines.len() == cache + lane + pool
            &&& 0 <= i < lines.len() ==> lines[i].1 > 0
            &&& cache == 1 ==> lines[0] == ("volume read cache"@, occupied.read_cache_blocks)
            &&& lane == 1 ==> lines[cache] == ("volume write lane"@, occupied.lane_blocks)
            &&& pool == 1 ==> lines[cache + lane] == ("volume read pool"@, occupied.read_pool_blocks)
        }),
{
}

/// A report says of each part what is in it, the most that ever was, what it could hold, and the bytes it
/// takes: an index and a table by what they could hold, blocks by how many there are, the overlay by the most
/// it ever held.
pub proof fn law_a_report_says_what_each_part_takes(
    parts: Seq<Part>,
    occupied: Occupied,
    overlay: &HoldOverlay,
)
    requires
        reports(parts, occupied, overlay),
        occupied.holds.capacity * 33 <= usize::MAX,
        occupied.budgets.capacity * 33 <= usize::MAX,
        occupied.buffer.entries * 4096 <= usize::MAX,
        occupied.resident.entries * 4096 <= usize::MAX,
        occupied.blocks.entries * 4096 <= usize::MAX,
        overlay.most() * 49 <= usize::MAX,
    ensures
        parts[0].name@ == "engine index"@,
        parts[1].name@ == "engine budget groups"@,
        parts[2].name@ == "engine writeback buffer"@,
        parts[3].name@ == "engine resident blocks"@,
        parts[4].name@ == "engine record blocks"@,
        parts.last().name@ == "pending overlay"@,
        parts[0].entries == occupied.holds.entries,
        parts[0].peak_entries == occupied.holds.peak,
        parts[0].capacity == occupied.holds.capacity,
        parts[0].bytes == occupied.holds.capacity * 33,
        parts[1].entries == occupied.budgets.entries,
        parts[1].peak_entries == occupied.budgets.peak,
        parts[1].capacity == occupied.budgets.capacity,
        parts[1].bytes == occupied.budgets.capacity * 33,
        parts[2].entries == occupied.buffer.entries,
        parts[2].peak_entries == occupied.buffer.peak,
        parts[2].capacity == occupied.buffer.capacity,
        parts[2].bytes == occupied.buffer.entries * 4096,
        parts[3].entries == occupied.resident.entries,
        parts[3].peak_entries == occupied.resident.peak,
        parts[3].capacity == occupied.resident.capacity,
        parts[3].bytes == occupied.resident.entries * 4096,
        parts[4].entries == occupied.blocks.entries,
        parts[4].peak_entries == occupied.blocks.peak,
        parts[4].capacity == 0,
        parts[4].bytes == occupied.blocks.entries * 4096,
        parts.last().entries == overlay.entries().len(),
        parts.last().peak_entries == overlay.most(),
        parts.last().capacity == 0,
        parts.last().bytes == overlay.most() * 49,
        parts.len() == 6 + fixed_lines(occupied).len(),
        forall|i: int|
            0 <= i < fixed_lines(occupied).len() ==> (#[trigger] parts[5 + i]).entries == fixed_lines(
                occupied,
            )[i].1 && parts[5 + i].peak_entries == parts[5 + i].entries && parts[5 + i].capacity == 0
                && parts[5 + i].name@ == fixed_lines(occupied)[i].0,
{
    assert forall|i: int| 0 <= i < fixed_lines(occupied).len() implies (#[trigger] parts[5 + i]).entries
        == fixed_lines(occupied)[i].1 && parts[5 + i].peak_entries == parts[5 + i].entries && parts[5
        + i].capacity == 0 && parts[5 + i].name@ == fixed_lines(occupied)[i].0 by {
        let line = fixed_lines(occupied)[i];
    }
}

/// A count of blocks is reported as it is, until a word can carry no more.
pub proof fn law_a_count_is_reported_as_it_is(blocks: int)
    ensures
        blocks <= usize::MAX ==> as_word(blocks) == blocks,
        blocks > usize::MAX ==> as_word(blocks) == usize::MAX,
{
}

} // verus!
