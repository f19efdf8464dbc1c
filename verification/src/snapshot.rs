//! What the engine has to write down so that a log can be truncated: the index, and the group totals
//! beside it. The blocks are already on disk and immutable, so all a snapshot carries is which of the
//! records on them are alive.
//!
//! Every record of the stream is thirty-two bytes wide, so a chunk never splits one. Two records head it,
//! then comes one for each bucket of the index, then one for each group.

use std::collections::BTreeMap;

use vstd::bytes::*;
use vstd::laws_cmp::group_laws_cmp;
use vstd::prelude::*;
use vstd::std_specs::btree::group_btree_axioms;

use crate::block::{amount_bits, amount_of, bits_amount, bits_of};
use crate::budget::{listed, lists, BudgetState};
use crate::index::HoldTable;
use crate::ledger::ApplyIndex;
use crate::record_log::RecordLog;
use crate::slots::{address_of, slot_address, EMPTY};
use crate::store::DurableStore;

verus! {

broadcast use {group_btree_axioms, group_laws_cmp};

/// Every record in the format, header included. Four eight-byte slots make a bucket exactly this wide.
pub const RECORD: usize = 32;

/// What a stream begins with.
pub const MAGIC: u64 = 0x5041_5f53_4e41_5031;

/// Bumped when the layout of any record changes. A reader that does not know a version refuses the
/// stream rather than interpreting it.
pub const VERSION: u32 = 2;

/// Why a stream could not be read. Every one of them is a refusal rather than a repair.
#[derive(Clone, Copy, Debug, PartialEq, Eq, Structural)]
pub enum NotASnapshot {
    /// The first record was not a header.
    Unrecognised,
    /// A version this build does not know.
    Version(u32),
    /// The table it describes is a different size from the one being restored into: a bucket's position
    /// in the stream is its position in the table.
    Buckets { theirs: u64, ours: u64 },
    /// A chunk arrived that was not a whole number of records, or after the stream had ended, or the
    /// stream ended short.
    Malformed,
    /// What the stream was to be read from could not be read.
    Unreadable,
}

/// Zero bytes.
pub open spec fn blank(n: nat) -> Seq<u8> {
    Seq::new(n, |i: int| 0u8)
}

/// The stream's first record: what it is, its version, and how many buckets and groups it has.
pub open spec fn header_bytes(buckets: u64, groups: u64) -> Seq<u8> {
    spec_u64_to_le_bytes(MAGIC) + spec_u32_to_le_bytes(VERSION) + spec_u64_to_le_bytes(buckets)
        + spec_u64_to_le_bytes(groups) + blank(4)
}

/// The stream's second record: the position it covers, and the one its group totals reflect.
pub open spec fn positions_bytes(coverage: ApplyIndex, reflects: ApplyIndex) -> Seq<u8> {
    spec_u64_to_le_bytes(coverage.0) + spec_u64_to_le_bytes(reflects.0) + blank(16)
}

/// The record of a bucket: its four words.
pub open spec fn bucket_bytes(words: Seq<u64>) -> Seq<u8> {
    spec_u64_to_le_bytes(words[0]) + spec_u64_to_le_bytes(words[1]) + spec_u64_to_le_bytes(words[2])
        + spec_u64_to_le_bytes(words[3])
}

/// The record of a group: its number and its totals.
pub open spec fn group_bytes(group: u128, state: BudgetState) -> Seq<u8> {
    spec_u128_to_le_bytes(group) + spec_u32_to_le_bytes(state.members) + spec_u64_to_le_bytes(
        amount_bits(state.remaining),
    ) + blank(4)
}

/// A word as the stream carries it: a slot pointing anywhere but at a durable block is written out empty,
/// because an index entry naming a block nobody has is worse than a hold the log can create again.
pub open spec fn carried<S: DurableStore>(slot: u64, log: RecordLog<S>) -> u64 {
    if slot != EMPTY && log.spec_is_durable(address_of(slot)) {
        slot
    } else {
        EMPTY
    }
}

/// The four words of a bucket as the stream carries them.
pub open spec fn carried_bucket<S: DurableStore>(
    table: HoldTable,
    log: RecordLog<S>,
    bucket: int,
) -> Seq<u64> {
    Seq::new(4, |way: int| carried(table.snapshot_word(4 * bucket + way), log))
}

/// Writes the engine's state out in chunks.
pub struct SnapshotWriter {
    buckets: u64,
    groups: Vec<(u128, BudgetState)>,
    coverage: ApplyIndex,
    reflects: ApplyIndex,
    /// Records already written, so that a chunk resumes rather than restarting.
    at: u64,
}

/// The buckets that a snapshot has read on through are no longer put aside, and no others have gone.
pub open spec fn read_past(was: HoldTable, now: HoldTable) -> bool {
    forall|bucket: u64| #[trigger]
        now.aside().contains_key(bucket) <==> was.aside().contains_key(bucket) && !(was.read_through()
            <= bucket < now.read_through())
}

impl SnapshotWriter {
    pub closed spec fn spec_buckets(&self) -> u64 {
        self.buckets
    }

    /// The groups the stream carries, in the order of their number.
    pub closed spec fn spec_groups(&self) -> Seq<(u128, BudgetState)> {
        self.groups@
    }

    pub closed spec fn spec_coverage(&self) -> ApplyIndex {
        self.coverage
    }

    pub closed spec fn spec_reflects(&self) -> ApplyIndex {
        self.reflects
    }

    /// Records already written.
    pub closed spec fn spec_at(&self) -> u64 {
        self.at
    }

    /// Records the whole stream holds.
    pub open spec fn total(&self) -> int {
        2 + self.spec_buckets() + self.spec_groups().len()
    }

    /// There are no more records than buckets and groups.
    pub open spec fn wf(&self) -> bool {
        self.spec_buckets() <= u64::MAX - 2 && self.spec_at() <= self.total()
    }

    /// Nothing but how far it has got tells the two apart.
    pub open spec fn same_stream(&self, other: &SnapshotWriter) -> bool {
        &&& self.spec_buckets() == other.spec_buckets()
        &&& self.spec_groups() == other.spec_groups()
        &&& self.spec_coverage() == other.spec_coverage()
        &&& self.spec_reflects() == other.spec_reflects()
    }

    /// One record of the stream, over the table's snapshot and the log's account of what is durable.
    pub open spec fn stream_record<S: DurableStore>(
        &self,
        table: HoldTable,
        log: RecordLog<S>,
        n: int,
    ) -> Seq<u8> {
        if n == 0 {
            header_bytes(self.spec_buckets(), self.spec_groups().len() as u64)
        } else if n == 1 {
            positions_bytes(self.spec_coverage(), self.spec_reflects())
        } else if n < 2 + self.spec_buckets() {
            bucket_bytes(carried_bucket(table, log, n - 2))
        } else {
            let (group, state) = self.spec_groups()[n - 2 - self.spec_buckets()];
            group_bytes(group, state)
        }
    }

    /// How many records the next chunk takes, into a buffer of this many bytes.
    pub open spec fn next_records(&self, length: nat) -> int {
        let room = length as int / 32;
        let left = self.total() - self.spec_at();
        let numbers = u64::MAX - self.spec_at();
        let fits = if room < left {
            room
        } else {
            left
        };
        if fits < numbers {
            fits
        } else {
            numbers
        }
    }

    pub fn new(
        bucket_count: usize,
        budgets: &BTreeMap<u128, BudgetState>,
        coverage: ApplyIndex,
        reflects: ApplyIndex,
    ) -> (writer: Self)
        requires
            bucket_count <= u64::MAX - 2,
        ensures
            writer.wf(),
            writer.spec_buckets() == bucket_count,
            lists(writer.spec_groups(), budgets@),
            writer.spec_groups().len() == budgets@.len(),
            writer.spec_coverage() == coverage,
            writer.spec_reflects() == reflects,
            writer.spec_at() == 0,
    {
        SnapshotWriter {
            buckets: bucket_count as u64,
            groups: listed(budgets),
            coverage,
            reflects,
            at: 0,
        }
    }

    /// Records the whole stream holds: the header's two, one per bucket, one per group.
    pub fn records(&self) -> (records: u64)
        requires
            self.wf(),
        ensures
            records == if self.total() <= u64::MAX {
                self.total()
            } else {
                u64::MAX as int
            },
    {
        (2 + self.buckets).saturating_add(self.groups.len() as u64)
    }

    /// Bytes the whole stream holds.
    pub fn bytes(&self) -> (bytes: u64)
        requires
            self.wf(),
        ensures
            bytes == if self.total() * 32 <= u64::MAX {
                self.total() * 32
            } else {
                u64::MAX as int
            },
    {
        let records: u64 = self.records();
        if records > u64::MAX / 32 {
            u64::MAX
        } else {
            records * 32
        }
    }

    /// Whether every record has been written.
    pub fn is_complete(&self) -> (complete: bool)
        requires
            self.wf(),
        ensures
            complete == (self.spec_at() == self.total()),
    {
        self.at >= 2 + self.buckets && self.at - 2 - self.buckets == self.groups.len() as u64
    }

    /// The position the stream covers.
    pub fn coverage(&self) -> (coverage: ApplyIndex)
        ensures
            coverage == self.spec_coverage(),
    {
        self.coverage
    }

    /// The position the stream's group totals reflect.
    pub fn reflects(&self) -> (reflects: ApplyIndex)
        ensures
            reflects == self.spec_reflects(),
    {
        self.reflects
    }

    /// Fills `into` with as many whole records as fit and answers how many bytes were written. Zero means
    /// that the stream is finished, or that `into` was too small to hold one record.
    pub fn next_chunk<S: DurableStore>(
        &mut self,
        into: &mut [u8],
        index: &mut HoldTable,
        log: &RecordLog<S>,
    ) -> (written: usize)
        requires
            old(self).wf(),
            old(index).wf(),
            old(self).spec_buckets() == old(index).mask() + 1,
        ensures
            final(self).wf(),
            final(self).same_stream(old(self)),
            written == 32 * old(self).next_records(old(into)@.len()),
            final(self).spec_at() == old(self).spec_at() + old(self).next_records(old(into)@.len()),
            final(into)@.len() == old(into)@.len(),
            forall|k: int|
                0 <= k < old(self).next_records(old(into)@.len()) ==> #[trigger] final(into)@.subrange(
                    32 * k,
                    32 * k + 32,
                ) == old(self).stream_record(*old(index), *log, old(self).spec_at() + k),
            forall|i: int|
                written <= i < final(into)@.len() ==> #[trigger] final(into)@[i] == old(into)@[i],
            final(index).wf(),
            final(index).words() == old(index).words(),
            final(index).mask() == old(index).mask(),
            final(index).being_read() == old(index).being_read(),
            old(index).read_through() == old(self).buckets_done() ==> {
                &&& final(index).read_through() == final(self).buckets_done()
                &&& read_past(*old(index), *final(index))
                &&& forall|i: int|
                    0 <= i < final(index).words().len() && i / 4 >= final(index).read_through()
                        ==> #[trigger] final(index).snapshot_word(i) == old(index).snapshot_word(i)
            },
            written == 0 ==> *final(index) == *old(index),
    {
        let length: usize = into.len();
        let room: usize = length / 32;
        let mut done: usize = 0;
        let ghost begun = *self;
        let ghost table = *index;
        proof {
            index.lemma_size();
        }
        while done < room && self.at < u64::MAX && !self.is_complete()
            invariant
                length == into@.len() == old(into)@.len(),
                room == length / 32,
                done <= room,
                begun == *old(self),
                table == *old(index),
                begun.wf(),
                table.wf(),
                begun.spec_buckets() == table.mask() + 1,
                table.words().len() == 4 * begun.spec_buckets(),
                self.wf(),
                self.same_stream(&begun),
                self.at == begun.at + done,
                forall|k: int|
                    0 <= k < done ==> #[trigger] into@.subrange(32 * k, 32 * k + 32)
                        == begun.stream_record(table, *log, begun.at + k),
                forall|i: int| 32 * done <= i < into@.len() ==> #[trigger] into@[i] == old(into)@[i],
                index.wf(),
                index.words() == table.words(),
                index.mask() == table.mask(),
                index.being_read() == table.being_read(),
                forall|i: int|
                    0 <= i < index.words().len() && i / 4 >= self.at - 2 ==> #[trigger] index.snapshot_word(
                        i,
                    ) == table.snapshot_word(i),
                table.read_through() == begun.buckets_done() ==> index.read_through()
                    == self.buckets_done(),
                table.read_through() == begun.buckets_done() ==> read_past(table, *index),
                done == 0 ==> *index == table,
            decreases room - done,
        {
            let ghost before = into@;
            let ghost was = *index;
            let record = self.one_record(index, log);
            proof {
                assert(record@ == begun.stream_record(table, *log, begun.at + done)) by {
                    self.lemma_same_record(&begun, was, table, *log);
                }
            }
            let mut i: usize = 0;
            while i < 32
                invariant
                    i <= 32,
                    record@.len() == 32,
                    32 * done + 32 <= into@.len(),
                    into@.len() == before.len() == length,
                    forall|j: int|
                        0 <= j < into@.len() ==> #[trigger] into@[j] == if 32 * done <= j < 32 * done + i {
                            record@[j - 32 * done]
                        } else {
                            before[j]
                        },
                decreases 32 - i,
            {
                into[32 * done + i] = record[i];
                i += 1;
            }
            proof {
                assert(into@.subrange(32 * done, 32 * done + 32) =~= record@);
                assert forall|k: int| 0 <= k < done implies #[trigger] into@.subrange(
                    32 * k,
                    32 * k + 32,
                ) == before.subrange(32 * k, 32 * k + 32) by {
                    assert(into@.subrange(32 * k, 32 * k + 32) =~= before.subrange(
                        32 * k,
                        32 * k + 32,
                    ));
                }
            }
            self.at = self.at + 1;
            done += 1;
        }
        32 * done
    }

    /// The buckets the stream has got through.
    pub open spec fn buckets_done(&self) -> int {
        if self.spec_at() < 2 {
            0
        } else if self.spec_at() < 2 + self.spec_buckets() {
            self.spec_at() - 2
        } else {
            self.spec_buckets() as int
        }
    }

    proof fn lemma_same_record<S: DurableStore>(
        &self,
        begun: &SnapshotWriter,
        now: HoldTable,
        table: HoldTable,
        log: RecordLog<S>,
    )
        requires
            self.same_stream(begun),
            now.words() == table.words(),
            table.words().len() == 4 * self.spec_buckets(),
            forall|i: int|
                0 <= i < now.words().len() && i / 4 >= self.at - 2 ==> #[trigger] now.snapshot_word(i)
                    == table.snapshot_word(i),
        ensures
            self.stream_record(now, log, self.at as int) == begun.stream_record(
                table,
                log,
                self.at as int,
            ),
    {
        if 2 <= self.at < 2 + self.buckets {
            let bucket = self.at - 2;
            assert((4 * bucket) / 4 == bucket && (4 * bucket + 1) / 4 == bucket && (4 * bucket + 2) / 4
                == bucket && (4 * bucket + 3) / 4 == bucket);
            assert(now.snapshot_word(4 * bucket) == table.snapshot_word(4 * bucket));
            assert(now.snapshot_word(4 * bucket + 1) == table.snapshot_word(4 * bucket + 1));
            assert(now.snapshot_word(4 * bucket + 2) == table.snapshot_word(4 * bucket + 2));
            assert(now.snapshot_word(4 * bucket + 3) == table.snapshot_word(4 * bucket + 3));
            assert(carried_bucket(now, log, bucket) =~= carried_bucket(table, log, bucket));
        }
    }

    /// The next record of the stream.
    fn one_record<S: DurableStore>(&self, index: &mut HoldTable, log: &RecordLog<S>) -> (record: Vec<u8>)
        requires
            self.wf(),
            self.spec_at() < self.total(),
            old(index).wf(),
            self.spec_buckets() == old(index).mask() + 1,
        ensures
            record@.len() == 32,
            record@ == self.stream_record(*old(index), *log, self.spec_at() as int),
            final(index).wf(),
            final(index).words() == old(index).words(),
            final(index).mask() == old(index).mask(),
            final(index).being_read() == old(index).being_read(),
            forall|i: int|
                0 <= i < final(index).words().len() && i / 4 > self.spec_at() - 2
                    ==> #[trigger] final(index).snapshot_word(i) == old(index).snapshot_word(i),
            2 <= self.spec_at() < 2 + self.spec_buckets() ==> final(index).read_through() == if old(index).read_through() == self.spec_at() - 2 {
                self.spec_at() - 1
            } else {
                old(index).read_through()
            },
            2 <= self.spec_at() < 2 + self.spec_buckets() ==> final(index).aside() == if old(index).read_through() == self.spec_at() - 2 {
                old(index).aside().remove((self.spec_at() - 2) as u64)
            } else {
                old(index).aside()
            },
            !(2 <= self.spec_at() < 2 + self.spec_buckets()) ==> *final(index) == *old(index),
    {
        let length: usize = index.slots();
        proof {
            index.lemma_size();
        }
        if self.at == 0 {
            let mut record = u64_to_le_bytes(MAGIC);
            let mut part = u32_to_le_bytes(VERSION);
            record.append(&mut part);
            let mut part = u64_to_le_bytes(self.buckets);
            record.append(&mut part);
            let mut part = u64_to_le_bytes(self.groups.len() as u64);
            record.append(&mut part);
            let mut part = zeros(4);
            record.append(&mut part);
            record
        } else if self.at == 1 {
            let mut record = u64_to_le_bytes(self.coverage.0);
            let mut part = u64_to_le_bytes(self.reflects.0);
            record.append(&mut part);
            let mut part = zeros(16);
            record.append(&mut part);
            record
        } else if self.at < 2 + self.buckets {
            let bucket: usize = (self.at - 2) as usize;
            let words: [u64; 4] = index.take_bucket(bucket);
            let mut record = u64_to_le_bytes(carry(words[0], log));
            let mut part = u64_to_le_bytes(carry(words[1], log));
            record.append(&mut part);
            let mut part = u64_to_le_bytes(carry(words[2], log));
            record.append(&mut part);
            let mut part = u64_to_le_bytes(carry(words[3], log));
            record.append(&mut part);
            proof {
                let out = carried_bucket(*old(index), *log, bucket as int);
                assert(out[0] == carried(words@[0], *log));
                assert(out[1] == carried(words@[1], *log));
                assert(out[2] == carried(words@[2], *log));
                assert(out[3] == carried(words@[3], *log));
            }
            record
        } else {
            let groups: usize = self.groups.len();
            let (group, state) = self.groups[(self.at - 2 - self.buckets) as usize];
            let mut record = u128_to_le_bytes(group);
            let mut part = u32_to_le_bytes(state.members);
            record.append(&mut part);
            let mut part = u64_to_le_bytes(bits_of(state.remaining));
            record.append(&mut part);
            let mut part = zeros(4);
            record.append(&mut part);
            record
        }
    }
}

fn zeros(n: usize) -> (bytes: Vec<u8>)
    ensures
        bytes@ == blank(n as nat),
{
    let bytes: Vec<u8> = vec![0u8; n];
    assert(bytes@ =~= blank(n as nat));
    bytes
}

fn carry<S: DurableStore>(slot: u64, log: &RecordLog<S>) -> (out: u64)
    ensures
        out == carried(slot, *log),
{
    if slot != EMPTY && log.is_durable(slot_address(slot)) {
        slot
    } else {
        EMPTY
    }
}

/// The word at a place of a record.
pub open spec fn u64_at(record: Seq<u8>, at: int) -> u64 {
    spec_u64_from_le_bytes(record.subrange(at, at + 8))
}

/// The half word at a place of a record.
pub open spec fn u32_at(record: Seq<u8>, at: int) -> u32 {
    spec_u32_from_le_bytes(record.subrange(at, at + 4))
}

/// How far a stream has been taken, and what it has said beside the index's words.
pub ghost struct Taken {
    pub buckets: u64,
    pub groups_expected: u64,
    pub coverage: ApplyIndex,
    pub reflects: ApplyIndex,
    pub at: u64,
    pub groups: Map<u128, BudgetState>,
}

/// What taking records comes to: whether they were refused, how far the stream is taken, and the words of
/// the table.
pub ghost struct Outcome {
    pub result: Result<(), NotASnapshot>,
    pub taken: Taken,
    pub words: Seq<u64>,
}

/// Nothing taken yet.
pub open spec fn untaken() -> Taken {
    Taken {
        buckets: 0,
        groups_expected: 0,
        coverage: ApplyIndex(0),
        reflects: ApplyIndex(0),
        at: 0,
        groups: Map::empty(),
    }
}

/// A table's words with one bucket's put over them.
pub open spec fn with_bucket(words: Seq<u64>, bucket: int, four: Seq<u64>) -> Seq<u64> {
    Seq::new(
        words.len(),
        |i: int|
            if i / 4 == bucket {
                four[i % 4]
            } else {
                words[i]
            },
    )
}

/// The four words a bucket's record carries.
pub open spec fn bucket_of(record: Seq<u8>) -> Seq<u64> {
    seq![u64_at(record, 0), u64_at(record, 8), u64_at(record, 16), u64_at(record, 24)]
}

/// What taking one record comes to.
pub open spec fn step(taken: Taken, words: Seq<u64>, record: Seq<u8>) -> Outcome {
    let refused = |why: NotASnapshot, taken: Taken| Outcome { result: Err(why), taken, words };
    let moved = Taken { at: (taken.at + 1) as u64, ..taken };
    if taken.at == u64::MAX {
        refused(NotASnapshot::Malformed, taken)
    } else if taken.at == 0 {
        let told = Taken { buckets: u64_at(record, 12), groups_expected: u64_at(record, 20), ..taken };
        let ours = words.len() as int / 4;
        if u64_at(record, 0) != MAGIC {
            refused(NotASnapshot::Unrecognised, taken)
        } else if u32_at(record, 8) != VERSION {
            refused(NotASnapshot::Version(u32_at(record, 8)), taken)
        } else if told.buckets != ours {
            refused(NotASnapshot::Buckets { theirs: told.buckets, ours: ours as u64 }, told)
        } else {
            Outcome { result: Ok(()), taken: Taken { at: 1, ..told }, words }
        }
    } else if taken.at == 1 {
        Outcome {
            result: Ok(()),
            taken: Taken {
                coverage: ApplyIndex(u64_at(record, 0)),
                reflects: ApplyIndex(u64_at(record, 8)),
                ..moved
            },
            words,
        }
    } else if taken.at - 2 < taken.buckets {
        if taken.at - 2 < words.len() as int / 4 {
            Outcome {
                result: Ok(()),
                taken: moved,
                words: with_bucket(words, taken.at - 2, bucket_of(record)),
            }
        } else {
            refused(NotASnapshot::Malformed, taken)
        }
    } else if taken.at - 2 - taken.buckets < taken.groups_expected {
        Outcome {
            result: Ok(()),
            taken: Taken {
                groups: taken.groups.insert(
                    spec_u128_from_le_bytes(record.subrange(0, 16)),
                    BudgetState {
                        members: u32_at(record, 16),
                        remaining: bits_amount(u64_at(record, 20)),
                    },
                ),
                ..moved
            },
            words,
        }
    } else {
        refused(NotASnapshot::Malformed, taken)
    }
}

/// What taking records one after another comes to: the first refusal ends it.
pub open spec fn take_records(taken: Taken, words: Seq<u64>, records: Seq<Seq<u8>>) -> Outcome
    decreases records.len(),
{
    if records.len() == 0 {
        Outcome { result: Ok(()), taken, words }
    } else {
        let before = take_records(taken, words, records.drop_last());
        if before.result is Err {
            before
        } else {
            step(before.taken, before.words, records.last())
        }
    }
}

/// The records of a chunk of the stream.
pub open spec fn chunk_records(bytes: Seq<u8>) -> Seq<Seq<u8>> {
    Seq::new((bytes.len() / 32) as nat, |k: int| bytes.subrange(32 * k, 32 * k + 32))
}

/// Reads a stream back into a table and a group map. Takes chunks in the order they were written, because
/// a bucket's position in the stream is its position in the table.
pub struct SnapshotReader {
    buckets: u64,
    groups_expected: u64,
    coverage: ApplyIndex,
    reflects: ApplyIndex,
    /// Records taken so far.
    at: u64,
    groups: BTreeMap<u128, BudgetState>,
}

impl View for SnapshotReader {
    type V = Taken;

    closed spec fn view(&self) -> Taken {
        Taken {
            buckets: self.buckets,
            groups_expected: self.groups_expected,
            coverage: self.coverage,
            reflects: self.reflects,
            at: self.at,
            groups: self.groups@,
        }
    }
}

/// Every record the stream's header promised has been taken.
pub open spec fn complete(taken: Taken) -> bool {
    taken.at == 2 + taken.buckets + taken.groups_expected
}

impl Default for SnapshotReader {
    fn default() -> (reader: Self)
        ensures
            reader@ == untaken(),
    {
        SnapshotReader::new()
    }
}

impl SnapshotReader {
    pub fn new() -> (reader: Self)
        ensures
            reader@ == untaken(),
    {
        let reader = SnapshotReader {
            buckets: 0,
            groups_expected: 0,
            coverage: ApplyIndex(0),
            reflects: ApplyIndex(0),
            at: 0,
            groups: BTreeMap::new(),
        };
        assert(reader@.groups =~= Map::<u128, BudgetState>::empty());
        reader
    }

    /// Takes one chunk. The index is written into as it goes, because buffering it would mean holding the
    /// whole thing twice.
    pub fn take_chunk(&mut self, bytes: &[u8], index: &mut HoldTable) -> (taken: Result<
        (),
        NotASnapshot,
    >)
        requires
            old(index).wf(),
        ensures
            final(index).wf(),
            final(index).mask() == old(index).mask(),
            bytes@.len() % 32 != 0 ==> {
                &&& taken == Err::<(), NotASnapshot>(NotASnapshot::Malformed)
                &&& final(self)@ == old(self)@
                &&& final(index).words() == old(index).words()
            },
            bytes@.len() % 32 == 0 ==> {
                let outcome = take_records(old(self)@, old(index).words(), chunk_records(bytes@));
                &&& taken == outcome.result
                &&& final(self)@ == outcome.taken
                &&& final(index).words() == outcome.words
            },
    {
        if bytes.len() % 32 != 0 {
            return Err(NotASnapshot::Malformed);
        }
        let length: usize = bytes.len();
        let count: usize = length / 32;
        let ghost records = chunk_records(bytes@);
        let mut k: usize = 0;
        assert(records.subrange(0, 0) =~= Seq::<Seq<u8>>::empty());
        while k < count
            invariant
                k <= count,
                length == bytes@.len(),
                count == length / 32,
                bytes@.len() % 32 == 0,
                records == chunk_records(bytes@),
                index.wf(),
                index.mask() == old(index).mask(),
                ({
                    let outcome = take_records(
                        old(self)@,
                        old(index).words(),
                        records.subrange(0, k as int),
                    );
                    &&& outcome.result is Ok
                    &&& self@ == outcome.taken
                    &&& index.words() == outcome.words
                }),
            decreases count - k,
        {
            let record = &bytes[32 * k..32 * k + 32];
            assert(records.subrange(0, k + 1).drop_last() =~= records.subrange(0, k as int));
            assert(records.subrange(0, k + 1).last() == record@);
            match self.take_one(record, index) {
                Ok(()) => {},
                Err(why) => {
                    proof {
                        lemma_refused(
                            old(self)@,
                            old(index).words(),
                            records,
                            k + 1,
                        );
                    }
                    return Err(why);
                },
            }
            k += 1;
        }
        assert(records.subrange(0, k as int) =~= records);
        Ok(())
    }

    fn take_one(&mut self, record: &[u8], index: &mut HoldTable) -> (taken: Result<(), NotASnapshot>)
        requires
            record@.len() == 32,
            old(index).wf(),
        ensures
            final(index).wf(),
            final(index).mask() == old(index).mask(),
            ({
                let outcome = step(old(self)@, old(index).words(), record@);
                &&& taken == outcome.result
                &&& final(self)@ == outcome.taken
                &&& final(index).words() == outcome.words
            }),
    {
        proof {
            index.lemma_size();
        }
        let ours: u64 = index.bucket_count() as u64;
        if self.at == u64::MAX {
            return Err(NotASnapshot::Malformed);
        }
        if self.at == 0 {
            if u64_from_le_bytes(&record[0..8]) != MAGIC {
                return Err(NotASnapshot::Unrecognised);
            }
            let version: u32 = u32_from_le_bytes(&record[8..12]);
            if version != VERSION {
                return Err(NotASnapshot::Version(version));
            }
            self.buckets = u64_from_le_bytes(&record[12..20]);
            self.groups_expected = u64_from_le_bytes(&record[20..28]);
            if self.buckets != ours {
                return Err(NotASnapshot::Buckets { theirs: self.buckets, ours });
            }
        } else if self.at == 1 {
            self.coverage = ApplyIndex(u64_from_le_bytes(&record[0..8]));
            self.reflects = ApplyIndex(u64_from_le_bytes(&record[8..16]));
        } else if self.at - 2 < self.buckets {
            let words: [u64; 4] = [
                u64_from_le_bytes(&record[0..8]),
                u64_from_le_bytes(&record[8..16]),
                u64_from_le_bytes(&record[16..24]),
                u64_from_le_bytes(&record[24..32]),
            ];
            if self.at - 2 >= ours {
                return Err(NotASnapshot::Malformed);
            }
            let bucket: usize = (self.at - 2) as usize;
            index.restore_bucket(bucket, words);
            proof {
                assert(words@ =~= bucket_of(record@));
                assert(index.words() =~= with_bucket(
                    old(index).words(),
                    bucket as int,
                    bucket_of(record@),
                ));
            }
        } else if self.at - 2 - self.buckets < self.groups_expected {
            let group: u128 = u128_from_le_bytes(&record[0..16]);
            let members: u32 = u32_from_le_bytes(&record[16..20]);
            let remaining = amount_of(u64_from_le_bytes(&record[20..28]));
            self.groups.insert(group, BudgetState::restored(members, remaining));
        } else {
            // The header said how much there was, so anything after it is a stream that does not agree
            // with its own header.
            return Err(NotASnapshot::Malformed);
        }
        self.at = self.at + 1;
        Ok(())
    }

    /// Whether every record the header promised has arrived. A stream cut short leaves a table that is
    /// partly this snapshot, which is why the caller has to ask.
    pub fn is_complete(&self) -> (all: bool)
        ensures
            all == complete(self@),
    {
        self.at >= 2 && self.at - 2 >= self.buckets && self.at - 2 - self.buckets
            == self.groups_expected
    }

    /// The position the stream covers.
    pub fn coverage(&self) -> (coverage: ApplyIndex)
        ensures
            coverage == self@.coverage,
    {
        self.coverage
    }

    /// The position the stream's group totals reflect.
    pub fn reflects(&self) -> (reflects: ApplyIndex)
        ensures
            reflects == self@.reflects,
    {
        self.reflects
    }

    /// The group totals, once the stream is complete.
    pub fn into_groups(self) -> (groups: BTreeMap<u128, BudgetState>)
        ensures
            groups@ == self@.groups,
    {
        self.groups
    }
}

proof fn lemma_refused(taken: Taken, words: Seq<u64>, records: Seq<Seq<u8>>, n: int)
    requires
        0 <= n <= records.len(),
        take_records(taken, words, records.subrange(0, n)).result is Err,
    ensures
        take_records(taken, words, records) == take_records(taken, words, records.subrange(0, n)),
    decreases records.len() - n,
{
    if n == records.len() {
        assert(records.subrange(0, n) =~= records);
    } else {
        assert(records.subrange(0, n + 1).drop_last() =~= records.subrange(0, n));
        lemma_refused(taken, words, records, n + 1);
    }
}

/// A stream taken in two parts is taken as one: it does not matter where chunks are cut.
pub proof fn law_chunks_may_be_cut_anywhere(
    taken: Taken,
    words: Seq<u64>,
    one: Seq<Seq<u8>>,
    two: Seq<Seq<u8>>,
)
    ensures
        ({
            let first = take_records(taken, words, one);
            take_records(taken, words, one + two) == if first.result is Err {
                first
            } else {
                take_records(first.taken, first.words, two)
            }
        }),
    decreases two.len(),
{
    if two.len() == 0 {
        assert(one + two =~= one);
    } else {
        law_chunks_may_be_cut_anywhere(taken, words, one, two.drop_last());
        assert((one + two).drop_last() =~= one + two.drop_last());
        assert((one + two).last() == two.last());
    }
}

/// What a writer has to say, over the table's snapshot and the log's account of what is durable.
pub open spec fn stream_of<S: DurableStore>(
    writer: SnapshotWriter,
    table: HoldTable,
    log: RecordLog<S>,
    n: nat,
) -> Seq<Seq<u8>> {
    Seq::new(n, |k: int| writer.stream_record(table, log, k))
}

/// The words the stream carries.
pub open spec fn carried_words<S: DurableStore>(table: HoldTable, log: RecordLog<S>) -> Seq<u64> {
    Seq::new(table.words().len(), |i: int| carried(table.snapshot_word(i), log))
}

/// The groups in the first few places of a list.
pub open spec fn listed_groups(list: Seq<(u128, BudgetState)>, n: nat) -> Map<u128, BudgetState>
    decreases n,
{
    if n == 0 {
        Map::empty()
    } else {
        listed_groups(list, (n - 1) as nat).insert(list[n - 1].0, list[n - 1].1)
    }
}

/// What a reader has once it has taken some of a writer's records into a table with other words.
pub open spec fn restored<S: DurableStore>(
    writer: SnapshotWriter,
    table: HoldTable,
    log: RecordLog<S>,
    into: Seq<u64>,
    n: nat,
) -> Outcome {
    let buckets = writer.spec_buckets() as int;
    let out = carried_words(table, log);
    let done = if n < 2 {
        0
    } else if n < 2 + buckets {
        n - 2
    } else {
        buckets
    };
    let groups = if n < 2 + buckets {
        0
    } else {
        n - 2 - buckets
    };
    Outcome {
        result: Ok(()),
        taken: Taken {
            buckets: if n == 0 {
                0
            } else {
                writer.spec_buckets()
            },
            groups_expected: if n == 0 {
                0
            } else {
                writer.spec_groups().len() as u64
            },
            coverage: if n < 2 {
                ApplyIndex(0)
            } else {
                writer.spec_coverage()
            },
            reflects: if n < 2 {
                ApplyIndex(0)
            } else {
                writer.spec_reflects()
            },
            at: n as u64,
            groups: listed_groups(writer.spec_groups(), groups as nat),
        },
        words: Seq::new(
            into.len(),
            |i: int|
                if i / 4 < done {
                    out[i]
                } else {
                    into[i]
                },
        ),
    }
}

proof fn lemma_header_reads(buckets: u64, groups: u64)
    ensures
        ({
            let record = header_bytes(buckets, groups);
            &&& record.len() == 32
            &&& u64_at(record, 0) == MAGIC
            &&& u32_at(record, 8) == VERSION
            &&& u64_at(record, 12) == buckets
            &&& u64_at(record, 20) == groups
        }),
{
    lemma_auto_spec_u32_to_from_le_bytes();
    lemma_auto_spec_u64_to_from_le_bytes();
    let record = header_bytes(buckets, groups);
    assert(record.subrange(0, 8) =~= spec_u64_to_le_bytes(MAGIC));
    assert(record.subrange(8, 12) =~= spec_u32_to_le_bytes(VERSION));
    assert(record.subrange(12, 20) =~= spec_u64_to_le_bytes(buckets));
    assert(record.subrange(20, 28) =~= spec_u64_to_le_bytes(groups));
}

proof fn lemma_positions_read(coverage: ApplyIndex, reflects: ApplyIndex)
    ensures
        ({
            let record = positions_bytes(coverage, reflects);
            &&& record.len() == 32
            &&& u64_at(record, 0) == coverage.0
            &&& u64_at(record, 8) == reflects.0
        }),
{
    lemma_auto_spec_u64_to_from_le_bytes();
    let record = positions_bytes(coverage, reflects);
    assert(record.subrange(0, 8) =~= spec_u64_to_le_bytes(coverage.0));
    assert(record.subrange(8, 16) =~= spec_u64_to_le_bytes(reflects.0));
}

proof fn lemma_bucket_reads(words: Seq<u64>)
    requires
        words.len() == 4,
    ensures
        bucket_bytes(words).len() == 32,
        bucket_of(bucket_bytes(words)) == words,
{
    lemma_auto_spec_u64_to_from_le_bytes();
    let record = bucket_bytes(words);
    assert(record.subrange(0, 8) =~= spec_u64_to_le_bytes(words[0]));
    assert(record.subrange(8, 16) =~= spec_u64_to_le_bytes(words[1]));
    assert(record.subrange(16, 24) =~= spec_u64_to_le_bytes(words[2]));
    assert(record.subrange(24, 32) =~= spec_u64_to_le_bytes(words[3]));
    assert(bucket_of(record) =~= words);
}

proof fn lemma_group_reads(group: u128, state: BudgetState)
    ensures
        ({
            let record = group_bytes(group, state);
            &&& record.len() == 32
            &&& spec_u128_from_le_bytes(record.subrange(0, 16)) == group
            &&& u32_at(record, 16) == state.members
            &&& bits_amount(u64_at(record, 20)) == state.remaining
        }),
{
    lemma_auto_spec_u32_to_from_le_bytes();
    lemma_auto_spec_u64_to_from_le_bytes();
    lemma_auto_spec_u128_to_from_le_bytes();
    let record = group_bytes(group, state);
    assert(record.subrange(0, 16) =~= spec_u128_to_le_bytes(group));
    assert(record.subrange(16, 20) =~= spec_u32_to_le_bytes(state.members));
    assert(record.subrange(20, 28) =~= spec_u64_to_le_bytes(amount_bits(state.remaining)));
}

/// A stream reads back as what was written: a reader that takes a writer's records into a table of the
/// same size has the words the stream carries, the groups, and both positions, and is complete.
pub proof fn law_a_stream_reads_back_as_it_was_written<S: DurableStore>(
    writer: SnapshotWriter,
    table: HoldTable,
    log: RecordLog<S>,
    into: Seq<u64>,
    n: nat,
)
    requires
        table.wf(),
        writer.spec_buckets() == table.mask() + 1,
        into.len() == table.words().len(),
        n <= writer.total() < u64::MAX,
    ensures
        take_records(untaken(), into, stream_of(writer, table, log, n)) == restored(
            writer,
            table,
            log,
            into,
            n,
        ),
        n == writer.total() ==> {
            let outcome = restored(writer, table, log, into, n);
            &&& complete(outcome.taken)
            &&& outcome.words == carried_words(table, log)
            &&& outcome.taken.coverage == writer.spec_coverage()
            &&& outcome.taken.reflects == writer.spec_reflects()
            &&& outcome.taken.groups == listed_groups(
                writer.spec_groups(),
                writer.spec_groups().len(),
            )
        },
    decreases n,
{
    table.lemma_size();
    let out = carried_words(table, log);
    let result = restored(writer, table, log, into, n);
    if n == 0 {
        assert(stream_of(writer, table, log, n) =~= Seq::<Seq<u8>>::empty());
        assert(result.words =~= into);
        assert(result.taken.groups =~= Map::<u128, BudgetState>::empty());
    } else {
        let k = (n - 1) as nat;
        law_a_stream_reads_back_as_it_was_written(writer, table, log, into, k);
        let all = stream_of(writer, table, log, n);
        assert(all.drop_last() =~= stream_of(writer, table, log, k));
        let record = writer.stream_record(table, log, k as int);
        assert(all.last() == record);
        let before = restored(writer, table, log, into, k);
        let buckets = writer.spec_buckets() as int;
        if k == 0 {
            lemma_header_reads(writer.spec_buckets(), writer.spec_groups().len() as u64);
            assert(result.words =~= before.words);
        } else if k == 1 {
            lemma_positions_read(writer.spec_coverage(), writer.spec_reflects());
            assert(result.words =~= before.words);
        } else if k < 2 + buckets {
            let bucket = k - 2;
            let four = carried_bucket(table, log, bucket);
            lemma_bucket_reads(four);
            assert(with_bucket(before.words, bucket, four) =~= result.words) by {
                assert forall|i: int| 0 <= i < into.len() implies #[trigger] with_bucket(
                    before.words,
                    bucket,
                    four,
                )[i] == result.words[i] by {
                    if i / 4 == bucket {
                        assert(i == 4 * bucket + i % 4);
                        assert(four[i % 4] == out[i]);
                    }
                }
            }
        } else {
            let g = k - 2 - buckets;
            let (group, state) = writer.spec_groups()[g];
            lemma_group_reads(group, state);
            assert(result.words =~= before.words);
        }
    }
    if n == writer.total() {
        assert(result.words =~= out);
    }
}

/// The groups a list of a map's groups holds are the map's.
pub proof fn law_listed_groups_are_the_groups(
    list: Seq<(u128, BudgetState)>,
    groups: Map<u128, BudgetState>,
)
    requires
        lists(list, groups),
    ensures
        listed_groups(list, list.len()) == groups,
{
    lemma_listed(list, groups, list.len());
    let all = listed_groups(list, list.len());
    assert forall|k: u128| #[trigger] groups.contains_key(k) implies all.contains_key(k) by {
        assert(list.contains((k, groups[k])));
        let i = choose|i: int| 0 <= i < list.len() && list[i] == (k, groups[k]);
        lemma_listed_has(list, list.len(), i);
    }
    assert(all =~= groups);
}

proof fn lemma_listed(list: Seq<(u128, BudgetState)>, groups: Map<u128, BudgetState>, n: nat)
    requires
        lists(list, groups),
        n <= list.len(),
    ensures
        forall|k: u128| #[trigger]
            listed_groups(list, n).contains_key(k) ==> groups.contains_key(k) && listed_groups(
                list,
                n,
            )[k] == groups[k],
    decreases n,
{
    if n > 0 {
        let rest = listed_groups(list, (n - 1) as nat);
        lemma_listed(list, groups, (n - 1) as nat);
        assert forall|k: u128| #[trigger] listed_groups(list, n).contains_key(k) implies groups.contains_key(
            k,
        ) && listed_groups(list, n)[k] == groups[k] by {
            if k == list[n - 1].0 {
                assert(groups.contains_key(list[n - 1].0));
            } else {
                assert(rest.contains_key(k));
            }
        }
    }
}

proof fn lemma_listed_has(list: Seq<(u128, BudgetState)>, n: nat, i: int)
    requires
        0 <= i < n <= list.len(),
    ensures
        listed_groups(list, n).contains_key(list[i].0),
    decreases n,
{
    if i < n - 1 {
        lemma_listed_has(list, (n - 1) as nat, i);
    }
}

/// Parts put one behind another.
pub open spec fn joined(parts: Seq<Seq<u8>>) -> Seq<u8>
    decreases parts.len(),
{
    if parts.len() == 0 {
        Seq::empty()
    } else {
        joined(parts.drop_last()) + parts.last()
    }
}

proof fn lemma_joined(one: Seq<Seq<u8>>, two: Seq<Seq<u8>>)
    ensures
        joined(one + two) == joined(one) + joined(two),
    decreases two.len(),
{
    if two.len() == 0 {
        assert(one + two =~= one);
        assert(joined(one) + joined(two) =~= joined(one));
    } else {
        lemma_joined(one, two.drop_last());
        assert((one + two).drop_last() =~= one + two.drop_last());
        assert(joined(one) + (joined(two.drop_last()) + two.last()) =~= (joined(one) + joined(
            two.drop_last(),
        )) + two.last());
    }
}

/// Bytes are the records they are made of, put one behind another.
proof fn lemma_cut(bytes: Seq<u8>, records: nat)
    requires
        bytes.len() == 32 * records,
    ensures
        bytes == joined(Seq::new(records, |k: int| bytes.subrange(32 * k, 32 * k + 32))),
    decreases records,
{
    let parts = Seq::new(records, |k: int| bytes.subrange(32 * k, 32 * k + 32));
    if records == 0 {
        assert(bytes =~= Seq::<u8>::empty());
    } else {
        let fewer = (records - 1) as nat;
        let head = bytes.subrange(0, 32 * fewer as int);
        lemma_cut(head, fewer);
        let heads = Seq::new(fewer, |k: int| head.subrange(32 * k, 32 * k + 32));
        assert forall|k: int| 0 <= k < fewer implies #[trigger] heads[k] == parts[k] by {
            assert(head.subrange(32 * k, 32 * k + 32) =~= bytes.subrange(32 * k, 32 * k + 32));
        }
        assert(parts.drop_last() =~= heads);
        assert(bytes =~= head + parts.last());
    }
}

/// One chunk of a dump taken into a buffer with room for so many bytes: the next records of the stream, as
/// many as fit, and the table read as far.
pub open spec fn takes_chunk<S: DurableStore>(
    writer: SnapshotWriter,
    after: SnapshotWriter,
    table: HoldTable,
    left: HoldTable,
    log: RecordLog<S>,
    room: nat,
    chunk: Seq<u8>,
) -> bool {
    let records = writer.next_records(room);
    &&& after.same_stream(&writer)
    &&& after.spec_at() == writer.spec_at() + records
    &&& records >= 0
    &&& chunk.len() == 32 * records
    &&& forall|k: int|
        0 <= k < records ==> #[trigger] chunk.subrange(32 * k, 32 * k + 32) == writer.stream_record(
            table,
            log,
            writer.spec_at() + k,
        )
    &&& left.words() == table.words()
    &&& left.mask() == table.mask()
    &&& table.read_through() == writer.buckets_done() ==> {
        &&& left.read_through() == after.buckets_done()
        &&& forall|i: int|
            0 <= i < left.words().len() && i / 4 >= left.read_through() ==> #[trigger] left.snapshot_word(i)
                == table.snapshot_word(i)
    }
}

/// Chunks taken one after another, each into a buffer of its own length.
pub open spec fn takes_chunks<S: DurableStore>(
    writers: Seq<SnapshotWriter>,
    tables: Seq<HoldTable>,
    log: RecordLog<S>,
    rooms: Seq<nat>,
    chunks: Seq<Seq<u8>>,
) -> bool {
    &&& writers.len() == chunks.len() + 1
    &&& tables.len() == chunks.len() + 1
    &&& rooms.len() == chunks.len()
    &&& forall|i: int, j: int|
        #![trigger writers[i], writers[j]]
        0 <= i < chunks.len() && j == i + 1 ==> takes_chunk(
            writers[i],
            writers[j],
            tables[i],
            tables[j],
            log,
            rooms[i],
            chunks[i],
        )
}

/// The chunks of a dump, put one behind another, are the stream as far as it has been taken. How long the
/// buffers were does not show, so dumps taken in other lengths come to the same bytes.
pub proof fn law_chunks_join_whatever_their_lengths<S: DurableStore>(
    writers: Seq<SnapshotWriter>,
    tables: Seq<HoldTable>,
    log: RecordLog<S>,
    rooms: Seq<nat>,
    chunks: Seq<Seq<u8>>,
)
    requires
        takes_chunks(writers, tables, log, rooms, chunks),
        tables[0].wf(),
        writers[0].spec_buckets() == tables[0].mask() + 1,
        writers[0].spec_at() == 0,
        tables[0].read_through() == 0,
    ensures
        joined(chunks) == joined(stream_of(writers[0], tables[0], log, writers.last().spec_at() as nat)),
        writers.last().same_stream(&writers[0]),
        tables.last().words() == tables[0].words(),
        tables.last().mask() == tables[0].mask(),
        tables.last().read_through() == writers.last().buckets_done(),
        forall|i: int|
            0 <= i < tables[0].words().len() && i / 4 >= tables.last().read_through()
                ==> #[trigger] tables.last().snapshot_word(i) == tables[0].snapshot_word(i),
    decreases chunks.len(),
{
    let first = writers[0];
    let table = tables[0];
    table.lemma_size();
    if chunks.len() == 0 {
        assert(stream_of(first, table, log, 0) =~= Seq::<Seq<u8>>::empty());
    } else {
        let n = chunks.len() - 1;
        let fewer = writers.drop_last();
        let before = tables.drop_last();
        assert(takes_chunks(fewer, before, log, rooms.drop_last(), chunks.drop_last())) by {
            assert forall|i: int, j: int|
                #![trigger fewer[i], fewer[j]]
                0 <= i < n && j == i + 1 implies takes_chunk(
                fewer[i],
                fewer[j],
                before[i],
                before[j],
                log,
                rooms.drop_last()[i],
                chunks.drop_last()[i],
            ) by {
                assert(fewer[i] == writers[i] && fewer[j] == writers[j]);
            }
        }
        law_chunks_join_whatever_their_lengths(
            fewer,
            before,
            log,
            rooms.drop_last(),
            chunks.drop_last(),
        );
        let writer = writers[n];
        let after = writers[n + 1];
        let left = tables[n];
        assert(fewer.last() == writer && before.last() == left);
        assert(writers.last() == after && tables.last() == tables[n + 1]);
        assert(takes_chunk(writer, after, left, tables[n + 1], log, rooms[n], chunks[n]));
        let at = writer.spec_at();
        let records = writer.next_records(rooms[n]) as nat;
        let parts = Seq::new(records, |k: int| chunks[n].subrange(32 * k, 32 * k + 32));
        lemma_cut(chunks[n], records);
        let so_far = stream_of(first, table, log, at as nat);
        let all = stream_of(first, table, log, after.spec_at() as nat);
        assert(all =~= so_far + parts) by {
            assert forall|k: int| 0 <= k < records implies #[trigger] parts[k] == all[at + k] by {
                let r = at + k;
                assert(chunks[n].subrange(32 * k, 32 * k + 32) == writer.stream_record(left, log, r));
                if 2 <= r < 2 + first.spec_buckets() {
                    let bucket = r - 2;
                    assert(bucket >= writer.buckets_done());
                    assert forall|way: int| 0 <= way < 4 implies left.snapshot_word(
                        #[trigger] (4 * bucket + way),
                    ) == table.snapshot_word(4 * bucket + way) by {
                        let i = 4 * bucket + way;
                        assert(i / 4 == bucket);
                        assert(left.snapshot_word(i) == table.snapshot_word(i));
                    }
                    assert(carried_bucket(left, log, bucket) =~= carried_bucket(table, log, bucket));
                }
            }
        }
        lemma_joined(so_far, parts);
    }
}

/// The records of a stream say what they carry, each at its own place: the header what the stream is and how
/// much of it there is, the next record the two positions, then a bucket's four words, then a group's totals.
pub proof fn law_a_streams_records_say_what_they_carry(
    buckets: u64,
    groups: u64,
    coverage: ApplyIndex,
    reflects: ApplyIndex,
    words: Seq<u64>,
    group: u128,
    state: BudgetState,
)
    requires
        words.len() == 4,
    ensures
        header_bytes(buckets, groups).len() == 32,
        u64_at(header_bytes(buckets, groups), 0) == 0x5041_5f53_4e41_5031,
        u32_at(header_bytes(buckets, groups), 8) == 2,
        u64_at(header_bytes(buckets, groups), 12) == buckets,
        u64_at(header_bytes(buckets, groups), 20) == groups,
        positions_bytes(coverage, reflects).len() == 32,
        u64_at(positions_bytes(coverage, reflects), 0) == coverage.0,
        u64_at(positions_bytes(coverage, reflects), 8) == reflects.0,
        bucket_bytes(words).len() == 32,
        u64_at(bucket_bytes(words), 0) == words[0],
        u64_at(bucket_bytes(words), 8) == words[1],
        u64_at(bucket_bytes(words), 16) == words[2],
        u64_at(bucket_bytes(words), 24) == words[3],
        group_bytes(group, state).len() == 32,
        spec_u128_from_le_bytes(group_bytes(group, state).subrange(0, 16)) == group,
        u32_at(group_bytes(group, state), 16) == state.members,
        state.remaining >= 0 ==> u64_at(group_bytes(group, state), 20) == state.remaining,
{
    lemma_header_reads(buckets, groups);
    lemma_positions_read(coverage, reflects);
    lemma_bucket_reads(words);
    lemma_group_reads(group, state);
    let read = bucket_of(bucket_bytes(words));
    assert(read[0] == words[0] && read[1] == words[1] && read[2] == words[2] && read[3] == words[3]);
}

/// A slot is carried as it is if what it points at is durable, and not at all if it is not: a snapshot never
/// points at a record a restart would not find.
pub proof fn law_only_what_is_durable_is_carried<S: DurableStore>(slot: u64, log: RecordLog<S>)
    ensures
        slot == EMPTY ==> carried(slot, log) == EMPTY,
        slot != EMPTY && log.spec_is_durable(address_of(slot)) ==> carried(slot, log) == slot,
        !log.spec_is_durable(address_of(slot)) ==> carried(slot, log) == EMPTY,
        carried(slot, log) != EMPTY ==> carried(slot, log) == slot,
{
}

/// A chunk takes as many records as it has room for, and no more than are left; and the buckets it has passed
/// are those before where it stands.
pub proof fn law_a_chunk_takes_what_it_has_room_for(writer: SnapshotWriter, length: nat)
    requires
        writer.wf(),
        writer.total() < u64::MAX,
    ensures
        ({
            let records = writer.next_records(length);
            &&& 0 <= records
            &&& 32 * records <= length
            &&& writer.spec_at() + records <= writer.total()
            &&& writer.spec_at() + records < writer.total() ==> length < 32 * (records + 1)
            &&& 0 <= writer.buckets_done() <= writer.spec_buckets()
            &&& writer.spec_at() == writer.total() ==> writer.buckets_done() == writer.spec_buckets()
            &&& 2 <= writer.spec_at() <= 2 + writer.spec_buckets() ==> writer.buckets_done() + 2
                == writer.spec_at()
        }),
{
}

/// A stream that is not one of these, or of another version, or of a table of another size, is refused at its
/// first record, each with what is wrong with it, and nothing of it is taken into the table.
pub proof fn law_a_stream_that_is_not_ours_is_refused(words: Seq<u64>, record: Seq<u8>)
    requires
        words.len() / 4 <= u64::MAX,
    ensures
        ({
            let outcome = step(untaken(), words, record);
            let ours = words.len() as int / 4;
            &&& outcome.words == words
            &&& outcome.result is Ok <==> u64_at(record, 0) == MAGIC && u32_at(record, 8) == VERSION
                && u64_at(record, 12) == ours
            &&& u64_at(record, 0) != MAGIC ==> outcome.result == Err::<(), NotASnapshot>(
                NotASnapshot::Unrecognised,
            )
            &&& u64_at(record, 0) == MAGIC && u32_at(record, 8) != VERSION ==> outcome.result == Err::<
                (),
                NotASnapshot,
            >(NotASnapshot::Version(u32_at(record, 8)))
            &&& u64_at(record, 0) == MAGIC && u32_at(record, 8) == VERSION && u64_at(record, 12) != ours
                ==> outcome.result == Err::<(), NotASnapshot>(
                NotASnapshot::Buckets { theirs: u64_at(record, 12), ours: ours as u64 },
            )
            &&& outcome.result is Ok ==> outcome.taken.at == 1 && outcome.taken.buckets == ours
                && outcome.taken.groups_expected == u64_at(record, 20)
        }),
{
}

/// A bucket's record fills that bucket and no other.
pub proof fn law_a_buckets_record_fills_that_bucket(
    taken: Taken,
    words: Seq<u64>,
    record: Seq<u8>,
    i: int,
)
    requires
        2 <= taken.at,
        taken.at - 2 < taken.buckets,
        taken.at - 2 < words.len() as int / 4,
        taken.at < u64::MAX,
        0 <= i < words.len(),
    ensures
        ({
            let outcome = step(taken, words, record);
            let bucket = taken.at - 2;
            &&& outcome.result is Ok
            &&& outcome.taken == Taken { at: (taken.at + 1) as u64, ..taken }
            &&& outcome.words.len() == words.len()
            &&& !(4 * bucket <= i < 4 * bucket + 4) ==> outcome.words[i] == words[i]
            &&& i == 4 * bucket ==> outcome.words[i] == u64_at(record, 0)
            &&& i == 4 * bucket + 1 ==> outcome.words[i] == u64_at(record, 8)
            &&& i == 4 * bucket + 2 ==> outcome.words[i] == u64_at(record, 16)
            &&& i == 4 * bucket + 3 ==> outcome.words[i] == u64_at(record, 24)
        }),
{
}

/// A stream is its header, its positions, a record for each bucket and a record for each group, in that order and
/// nothing else.
pub proof fn law_a_stream_is_its_parts_in_order<S: DurableStore>(
    writer: SnapshotWriter,
    table: HoldTable,
    log: RecordLog<S>,
    n: int,
    way: int,
)
    requires
        0 <= n < writer.total(),
        0 <= way < 4,
        writer.spec_groups().len() <= u64::MAX,
    ensures
        writer.total() == 2 + writer.spec_buckets() + writer.spec_groups().len(),
        ({
            let record = writer.stream_record(table, log, n);
            &&& record.len() == 32
            &&& n == 0 ==> u64_at(record, 0) == MAGIC && u64_at(record, 12) == writer.spec_buckets()
                && u64_at(record, 20) == writer.spec_groups().len()
            &&& n == 1 ==> u64_at(record, 0) == writer.spec_coverage().0 && u64_at(record, 8)
                == writer.spec_reflects().0
            &&& 2 <= n < 2 + writer.spec_buckets() ==> bucket_of(record)[way] == carried(
                table.snapshot_word(4 * (n - 2) + way),
                log,
            )
            &&& n >= 2 + writer.spec_buckets() ==> {
                let (group, state) = writer.spec_groups()[n - 2 - writer.spec_buckets()];
                &&& spec_u128_from_le_bytes(record.subrange(0, 16)) == group
                &&& u32_at(record, 16) == state.members
                &&& bits_amount(u64_at(record, 20)) == state.remaining
            }
        }),
{
    lemma_header_reads(writer.spec_buckets(), writer.spec_groups().len() as u64);
    lemma_positions_read(writer.spec_coverage(), writer.spec_reflects());
    if 2 <= n < 2 + writer.spec_buckets() {
        lemma_bucket_reads(carried_bucket(table, log, n - 2));
    }
    if n >= 2 + writer.spec_buckets() {
        let (group, state) = writer.spec_groups()[n - 2 - writer.spec_buckets()];
        lemma_group_reads(group, state);
    }
}

/// A piece is cut into records without losing a byte: every record is the next thirty-two, and a whole number of
/// them is all of it.
pub proof fn law_a_piece_is_cut_into_its_records(bytes: Seq<u8>, i: int)
    requires
        0 <= i < bytes.len(),
        bytes.len() % 32 == 0,
    ensures
        chunk_records(bytes).len() * 32 == bytes.len(),
        chunk_records(bytes)[i / 32].len() == 32,
        chunk_records(bytes)[i / 32][i % 32] == bytes[i],
{
}

} // verus!
