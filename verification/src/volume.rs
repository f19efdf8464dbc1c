//! What a volume of files keeps besides the files themselves: the name of each, what has been written
//! since the last barrier, and the queues of a volume that does its work on the calling thread.

use std::collections::VecDeque;

use vstd::prelude::*;

use crate::address::{ObjectId, BLOCK_BYTES, OBJECT_VALUES};
use crate::model::QueueDepths;
use crate::stats::VolumeStats;
use crate::store::StoreFault;

verus! {

/// The name of the snapshot a restart reads.
pub open spec fn current_name() -> Seq<char> {
    seq![
        'p', 'e', 'n', 'd', 'i', 'n', 'g', '.', 's', 'n', 'a', 'p', 's', 'h', 'o', 't',
    ]
}

/// The name of the snapshot being written. Two names, because the replacement is a rename.
pub open spec fn partial_name() -> Seq<char> {
    current_name() + seq!['.', 'p', 'a', 'r', 't']
}

/// A digit.
pub open spec fn digit_of(value: u8) -> char {
    match value {
        0 => '0',
        1 => '1',
        2 => '2',
        3 => '3',
        4 => '4',
        5 => '5',
        6 => '6',
        7 => '7',
        8 => '8',
        _ => '9',
    }
}

fn digit(value: u8) -> (digit: char)
    ensures
        digit == digit_of(value),
{
    match value {
        0 => '0',
        1 => '1',
        2 => '2',
        3 => '3',
        4 => '4',
        5 => '5',
        6 => '6',
        7 => '7',
        8 => '8',
        _ => '9',
    }
}

/// The name of an object's file. A day is its segment number and nothing else: the offset within the file
/// follows from the address, so a name with a block number in it would be a second place for the layout.
pub open spec fn name_of(object: ObjectId) -> Seq<char> {
    if object == ObjectId::snapshot_current() {
        current_name()
    } else if object == ObjectId::snapshot_partial() {
        partial_name()
    } else {
        seq![
            's',
            'e',
            'g',
            '-',
            digit_of(object.0 / 10),
            digit_of(object.0 % 10),
            '.',
            'b',
            'l',
            'k',
        ]
    }
}

/// The name of an object's file, letter by letter.
pub fn file_name(object: ObjectId) -> (name: Vec<char>)
    requires
        object.valid(),
    ensures
        name@ == name_of(object),
{
    if object == ObjectId::snapshot_current() {
        let name: Vec<char> = vec![
            'p', 'e', 'n', 'd', 'i', 'n', 'g', '.', 's', 'n', 'a', 'p', 's', 'h', 'o', 't',
        ];
        assert(name@ =~= current_name());
        name
    } else if object == ObjectId::snapshot_partial() {
        let name: Vec<char> = vec![
            'p', 'e', 'n', 'd', 'i', 'n', 'g', '.', 's', 'n', 'a', 'p', 's', 'h', 'o', 't',
            '.', 'p', 'a', 'r', 't',
        ];
        assert(name@ =~= partial_name());
        name
    } else {
        let name: Vec<char> = vec![
            's',
            'e',
            'g',
            '-',
            digit(object.0 / 10),
            digit(object.0 % 10),
            '.',
            'b',
            'l',
            'k',
        ];
        assert(name@ =~= name_of(object));
        name
    }
}

/// No two objects share a file.
pub proof fn law_no_two_objects_share_a_file(one: ObjectId, other: ObjectId)
    requires
        one.valid(),
        other.valid(),
        name_of(one) == name_of(other),
    ensures
        one == other,
{
    let name = name_of(one);
    assert(name.len() == current_name().len() <==> one == ObjectId::snapshot_current());
    assert(name_of(other).len() == current_name().len() <==> other == ObjectId::snapshot_current());
    assert(name.len() == partial_name().len() <==> one == ObjectId::snapshot_partial());
    assert(name_of(other).len() == partial_name().len() <==> other == ObjectId::snapshot_partial());
    if name.len() == 10 {
        assert(name[4] == name_of(other)[4] && name[5] == name_of(other)[5]);
    }
}

/// What a read of a block came to, from how many bytes it gave.
pub open spec fn judged(bytes: usize) -> Result<(), StoreFault> {
    if bytes == BLOCK_BYTES {
        Ok(())
    } else {
        Err(StoreFault::Missing)
    }
}

/// What a read of a block came to, from how many bytes it brought: a short read is an offset past what the
/// file holds, which is the caller's record of where blocks are disagreeing with the volume.
pub fn judge_read(bytes: usize) -> (outcome: Result<(), StoreFault>)
    ensures
        outcome == judged(bytes),
{
    if bytes == BLOCK_BYTES {
        Ok(())
    } else {
        Err(StoreFault::Missing)
    }
}

/// The whole blocks in so many bytes.
pub open spec fn blocks_within(length: u64) -> u64 {
    length / 4096
}

/// Whole blocks in a file of this length: offsets are absolute, so the file ends where its last block does.
pub fn whole_blocks(length: u64) -> (blocks: u64)
    ensures
        blocks == blocks_within(length),
{
    length / 4096
}

/// What has been written since the last barrier.
pub struct Unsynced {
    dirty: [bool; OBJECT_VALUES],
    created: bool,
}

impl Unsynced {
    /// The object has been written to since the last barrier.
    pub closed spec fn has(&self, object: ObjectId) -> bool {
        self.dirty@[object.index() as int]
    }

    /// A file has come into being since the last barrier: its name is not durable until the directory is.
    pub closed spec fn spec_created(&self) -> bool {
        self.created
    }

    pub fn new() -> (unsynced: Self)
        ensures
            forall|object: ObjectId| object.valid() ==> !(#[trigger] unsynced.has(object)),
            !unsynced.spec_created(),
    {
        broadcast use vstd::array::axiom_spec_array_fill_for_copy_type;

        Unsynced { dirty: [false; OBJECT_VALUES], created: false }
    }

    /// An object has been written to, and brought into being by it if it was not there.
    pub fn wrote(&mut self, object: ObjectId, creating: bool)
        requires
            object.valid(),
        ensures
            forall|other: ObjectId|
                other.valid() ==> #[trigger] final(self).has(other) == (other == object || old(self).has(
                    other,
                )),
            final(self).spec_created() == (old(self).spec_created() || creating),
    {
        self.dirty[object.index()] = true;
        if creating {
            self.created = true;
        }
    }

    /// The objects whose files a barrier has to sync, in their order: every one that has been written to.
    pub fn to_sync(&self) -> (objects: Vec<ObjectId>)
        ensures
            forall|object: ObjectId|
                object.valid() ==> (#[trigger] self.has(object) <==> objects@.contains(object)),
            forall|i: int| 0 <= i < objects@.len() ==> (#[trigger] objects@[i]).valid(),
            forall|i: int, j: int|
                0 <= i < j < objects@.len() ==> (#[trigger] objects@[i]).0 < (#[trigger] objects@[j]).0,
    {
        let mut objects: Vec<ObjectId> = Vec::new();
        let mut at: u8 = 0;
        while (at as usize) < OBJECT_VALUES
            invariant
                at <= OBJECT_VALUES,
                self.dirty@.len() == OBJECT_VALUES,
                forall|object: ObjectId|
                    object.0 < at ==> (#[trigger] self.has(object) <==> objects@.contains(object)),
                forall|i: int| 0 <= i < objects@.len() ==> (#[trigger] objects@[i]).0 < at,
                forall|i: int, j: int|
                    0 <= i < j < objects@.len() ==> (#[trigger] objects@[i]).0 < (
                    #[trigger] objects@[j]).0,
            decreases OBJECT_VALUES - at,
        {
            let ghost before = objects@;
            if self.dirty[at as usize] {
                objects.push(ObjectId(at));
                assert(objects@[before.len() as int] == ObjectId(at));
            }
            assert forall|object: ObjectId| object.0 < at + 1 implies (#[trigger] self.has(object)
                <==> objects@.contains(object)) by {
                if object.0 < at {
                    if before.contains(object) {
                        let i = choose|i: int| 0 <= i < before.len() && before[i] == object;
                        assert(objects@[i] == object);
                    }
                    if objects@.contains(object) {
                        let i = choose|i: int| 0 <= i < objects@.len() && objects@[i] == object;
                        assert(i < before.len());
                        assert(before[i] == object);
                    }
                } else {
                    assert(object == ObjectId(at));
                    if objects@.contains(object) && !self.has(object) {
                        let i = choose|i: int| 0 <= i < objects@.len() && objects@[i] == object;
                        assert(before[i].0 < at);
                    }
                }
            }
            at = at + 1;
        }
        objects
    }

    /// Whether a barrier has to sync the directory too.
    pub fn names_changed(&self) -> (changed: bool)
        ensures
            changed == self.spec_created(),
    {
        self.created
    }

    /// A barrier has synced everything there was. Not before: one that failed covers nothing.
    pub fn settled(&mut self)
        ensures
            forall|object: ObjectId| object.valid() ==> !(#[trigger] final(self).has(object)),
            !final(self).spec_created(),
    {
        *self = Unsynced::new();
    }
}

/// A read asked for and not answered yet: the handle it was asked under, and where it is for.
pub type QueuedRead = (u64, ObjectId, u64);

/// The queues of a volume that does its work on the calling thread, and its counts. A read is done when it
/// is polled for. A change is done when it is asked for and answered when it is polled for, so that what
/// asks need not know which volume it has.
pub struct Desk {
    pub depths: QueueDepths,
    pub reads: VecDeque<QueuedRead>,
    pub written: VecDeque<(u64, Result<(), StoreFault>)>,
    pub stats: VolumeStats,
}

impl Desk {
    pub fn new(depths: QueueDepths) -> (desk: Self)
        ensures
            desk.depths == depths,
            desk.reads@.len() == 0,
            desk.written@.len() == 0,
            desk.stats == VolumeStats::none(),
    {
        Desk {
            depths,
            reads: VecDeque::new(),
            written: VecDeque::new(),
            stats: VolumeStats::default(),
        }
    }

    /// Takes a read, unless the queue is as deep as it may be.
    pub fn take_read(&mut self, handle: u64, object: ObjectId, offset: u64) -> (taken: bool)
        ensures
            taken == (old(self).reads@.len() < old(self).depths.read),
            final(self).depths == old(self).depths,
            final(self).written == old(self).written,
            taken ==> final(self).reads@ == old(self).reads@.push((handle, object, offset))
                && final(self).stats == old(self).stats.took_read_after(
                (old(self).reads@.len() + 1) as usize,
            ),
            !taken ==> final(self).reads == old(self).reads && final(self).stats
                == old(self).stats.refused_read_after(),
    {
        let length: usize = self.reads.len();
        if length >= self.depths.read {
            self.stats.refused_read();
            return false;
        }
        self.stats.took_read(length + 1);
        self.reads.push_back((handle, object, offset));
        true
    }

    /// The oldest read asked for, to be done now.
    pub fn next_read(&mut self) -> (read: Option<QueuedRead>)
        ensures
            final(self).depths == old(self).depths,
            final(self).written == old(self).written,
            final(self).stats == old(self).stats,
            match read {
                Some(read) => old(self).reads@.len() > 0 && read == old(self).reads@[0]
                    && final(self).reads@ == old(self).reads@.drop_first(),
                None => old(self).reads@.len() == 0 && final(self).reads@ == old(self).reads@,
            },
    {
        let read = self.reads.pop_front();
        proof {
            match read {
                Some(_) => assert(self.reads@ =~= old(self).reads@.drop_first()),
                None => assert(self.reads@ =~= old(self).reads@),
            }
        }
        read
    }

    /// Whether a change may be done: one not collected yet takes a place until it is, which is what turns a
    /// volume that cannot keep up into a refusal rather than a queue that grows. A refusal is counted.
    pub fn takes_change(&mut self) -> (takes: bool)
        ensures
            takes == (old(self).written@.len() < old(self).depths.write),
            final(self).depths == old(self).depths,
            final(self).reads == old(self).reads,
            final(self).written == old(self).written,
            final(self).stats == if takes {
                old(self).stats
            } else {
                old(self).stats.refused_write_after()
            },
    {
        if self.written.len() >= self.depths.write {
            self.stats.refused_write();
            return false;
        }
        true
    }

    /// A block has been written, or could not be.
    pub fn wrote(&mut self, handle: u64, outcome: Result<(), StoreFault>)
        requires
            old(self).written@.len() < old(self).depths.write,
        ensures
            final(self).depths == old(self).depths,
            final(self).reads == old(self).reads,
            final(self).written@ == old(self).written@.push((handle, outcome)),
            final(self).stats == old(self).stats.took_write_after(
                BLOCK_BYTES as u64,
                (old(self).written@.len() + 1) as usize,
            ).answered_write_after(outcome is Ok),
    {
        let length: usize = self.written.len();
        self.stats.took_write(BLOCK_BYTES as u64, length + 1);
        self.stats.answered_write(outcome.is_ok());
        self.written.push_back((handle, outcome));
    }

    /// A barrier has been done, or has failed.
    pub fn synced(&mut self, handle: u64, outcome: Result<(), StoreFault>)
        requires
            old(self).written@.len() < old(self).depths.write,
        ensures
            final(self).depths == old(self).depths,
            final(self).reads == old(self).reads,
            final(self).written@ == old(self).written@.push((handle, outcome)),
            final(self).stats == old(self).stats.took_barrier_after(
                (old(self).written@.len() + 1) as usize,
            ).answered_write_after(outcome is Ok),
    {
        let length: usize = self.written.len();
        self.stats.took_barrier(length + 1);
        self.stats.answered_write(outcome.is_ok());
        self.written.push_back((handle, outcome));
    }

    /// An object has been removed or renamed, or could not be.
    pub fn named(&mut self, handle: u64, outcome: Result<(), StoreFault>)
        ensures
            final(self).depths == old(self).depths,
            final(self).reads == old(self).reads,
            final(self).written@ == old(self).written@.push((handle, outcome)),
            final(self).stats == old(self).stats,
    {
        self.written.push_back((handle, outcome));
    }

    /// The oldest change not collected yet. Answers come in the order the changes were done in.
    pub fn next_written(&mut self) -> (answer: Option<(u64, Result<(), StoreFault>)>)
        ensures
            final(self).depths == old(self).depths,
            final(self).reads == old(self).reads,
            final(self).stats == old(self).stats,
            match answer {
                Some(answer) => old(self).written@.len() > 0 && answer == old(self).written@[0]
                    && final(self).written@ == old(self).written@.drop_first(),
                None => old(self).written@.len() == 0 && final(self).written@ == old(self).written@,
            },
    {
        let answer = self.written.pop_front();
        proof {
            match answer {
                Some(_) => assert(self.written@ =~= old(self).written@.drop_first()),
                None => assert(self.written@ =~= old(self).written@),
            }
        }
        answer
    }
}

/// A barrier covers everything that was written before it: an object written to since the last one is
/// among those it syncs, and so is the directory when a file came into being.
pub proof fn law_a_barrier_covers_what_was_written(
    before: Unsynced,
    after: Unsynced,
    object: ObjectId,
    creating: bool,
    synced: Seq<ObjectId>,
)
    requires
        object.valid(),
        forall|other: ObjectId|
            other.valid() ==> #[trigger] after.has(other) == (other == object || before.has(other)),
        after.spec_created() == (before.spec_created() || creating),
        forall|other: ObjectId|
            other.valid() ==> (#[trigger] after.has(other) <==> synced.contains(other)),
    ensures
        synced.contains(object),
        creating ==> after.spec_created(),
        forall|other: ObjectId| other.valid() && #[trigger] before.has(other) ==> synced.contains(other),
{
    assert(after.has(object));
    assert forall|other: ObjectId| other.valid() && #[trigger] before.has(other) implies synced.contains(
        other,
    ) by {
        assert(after.has(other));
    }
}

/// A day's file says which day's it is: its number in two decimal digits, between the same letters for every day.
/// The snapshot's two files share their name but for what marks the one that is not finished.
pub proof fn law_a_days_file_says_its_number(object: ObjectId)
    requires
        object.0 < 64,
    ensures
        name_of(object).len() == 10,
        name_of(object).subrange(0, 4) == seq!['s', 'e', 'g', '-'],
        name_of(object).subrange(6, 10) == seq!['.', 'b', 'l', 'k'],
        '0' <= name_of(object)[4] <= '9',
        '0' <= name_of(object)[5] <= '9',
        10 * (name_of(object)[4] as int - '0' as int) + (name_of(object)[5] as int - '0' as int)
            == object.0,
        name_of(ObjectId::snapshot_partial()) == name_of(ObjectId::snapshot_current()) + seq![
            '.',
            'p',
            'a',
            'r',
            't',
        ],
{
    assert(name_of(object).subrange(0, 4) =~= seq!['s', 'e', 'g', '-']);
    assert(name_of(object).subrange(6, 10) =~= seq!['.', 'b', 'l', 'k']);
}

/// A read is a block or it is nothing: what gave fewer bytes, or more, is not there. A file has as many blocks as it
/// has whole ones.
pub proof fn law_a_read_is_a_whole_block_or_nothing(bytes: usize, length: u64)
    ensures
        judged(bytes) is Ok <==> bytes == 4096,
        bytes != 4096 ==> judged(bytes) == Err::<(), StoreFault>(StoreFault::Missing),
        blocks_within(length) * 4096 <= length < (blocks_within(length) + 1) * 4096,
{
}

} // verus!
