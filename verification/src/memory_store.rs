//! The exact store: it keeps what it was given and adds no latency. Every other store is measured
//! against this one.

use std::collections::VecDeque;

use vstd::prelude::*;

use crate::address::{ObjectId, BLOCK_BYTES, OBJECT_VALUES};
use crate::block::Block;
use crate::stats::VolumeStats;
use crate::store::{is_answer, Asked, Call, DurableStore, Reply, StoreFault, Written};

verus! {

/// An object as a reader sees it: the blocks it has by their offset, and where the last of them ends.
pub ghost struct ObjectView {
    pub end: u64,
    pub blocks: Map<u64, Seq<u8>>,
}

/// One object's blocks, and the offset the first of them landed at. The hole in front of that offset
/// is what a sparse file has.
struct SegmentFile {
    base: u64,
    /// `None` is a block this object has a place for and was never given.
    blocks: Vec<Option<Box<Block>>>,
}

/// Whether an offset is one a block can be written at: whole blocks from zero, with room for one.
pub open spec fn is_block_offset(offset: u64) -> bool {
    offset % 4096 == 0 && offset <= u64::MAX - 4096
}

impl SegmentFile {
    spec fn wf(&self) -> bool {
        &&& self.base % 4096 == 0
        &&& self.base + self.blocks@.len() * 4096 <= u64::MAX
    }

    spec fn block_spec(&self, offset: u64) -> Option<Seq<u8>> {
        if offset % 4096 != 0 || offset < self.base || (offset - self.base) / 4096
            >= self.blocks@.len() {
            None
        } else {
            match self.blocks@[(offset - self.base) / 4096] {
                Some(block) => Some(block@),
                None => None,
            }
        }
    }

    spec fn view(&self) -> ObjectView {
        ObjectView {
            end: (self.base + self.blocks@.len() * 4096) as u64,
            blocks: Map::new(
                |offset: u64| self.block_spec(offset) is Some,
                |offset: u64| self.block_spec(offset).unwrap(),
            ),
        }
    }

    fn at(&self, offset: u64) -> (found: Option<&Block>)
        requires
            self.wf(),
        ensures
            match found {
                Some(block) => self.view().blocks.contains_key(offset) && self.view().blocks[offset]
                    == block@,
                None => !self.view().blocks.contains_key(offset),
            },
    {
        if offset % 4096 != 0 || offset < self.base {
            return None;
        }
        let within: u64 = (offset - self.base) / 4096;
        if within >= self.blocks.len() as u64 {
            return None;
        }
        match &self.blocks[within as usize] {
            Some(block) => Some(&**block),
            None => None,
        }
    }

    fn end(&self) -> (end: u64)
        requires
            self.wf(),
        ensures
            end == self.view().end,
    {
        self.base + self.blocks.len() as u64 * 4096
    }

    /// A new object whose first block is at this offset.
    fn starting(offset: u64, block: &Block) -> (file: SegmentFile)
        requires
            is_block_offset(offset),
        ensures
            file.wf(),
            file.base == offset,
            file.view().end == offset + 4096,
            file.view().blocks == Map::<u64, Seq<u8>>::empty().insert(offset, block@),
    {
        let mut blocks: Vec<Option<Box<Block>>> = Vec::new();
        blocks.push(Some(Block::copy_of(block)));
        let file = SegmentFile { base: offset, blocks };
        assert(file.view().blocks =~= Map::<u64, Seq<u8>>::empty().insert(offset, block@));
        file
    }

    /// Puts a block at an offset at or past the end, leaving `None` for anything skipped.
    fn put(&mut self, offset: u64, block: &Block)
        requires
            old(self).wf(),
            is_block_offset(offset),
            offset >= old(self).view().end,
        ensures
            final(self).wf(),
            final(self).base == old(self).base,
            final(self).view().end == offset + 4096,
            final(self).view().blocks == old(self).view().blocks.insert(offset, block@),
    {
        let at: u64 = (offset - self.base) / 4096;
        while (self.blocks.len() as u64) < at
            invariant
                self.wf(),
                self.base == old(self).base,
                is_block_offset(offset),
                offset >= self.base,
                at == (offset - self.base) / 4096,
                old(self).blocks@.len() <= self.blocks@.len() <= at,
                self.view().blocks == old(self).view().blocks,
            decreases at - self.blocks@.len(),
        {
            self.blocks.push(None);
            assert(self.view().blocks =~= old(self).view().blocks);
        }
        self.blocks.push(Some(Block::copy_of(block)));
        assert(self.view().blocks =~= old(self).view().blocks.insert(offset, block@));
    }
}

/// The store that keeps everything in memory.
pub struct MemoryStore {
    objects: Vec<Option<SegmentFile>>,
    /// Submitted reads, answered in the order they were asked for and with no delay.
    submitted: VecDeque<(u64, ObjectId, u64)>,
    /// Writes and barriers, done as they are taken and answered in the order they were taken.
    written: VecDeque<(u64, Result<(), StoreFault>)>,
    stats: VolumeStats,
}

/// What a write to the store comes to: a block is written once, at or past the end of its object,
/// and an object is brought into being once, by its first block.
pub open spec fn write_outcome(
    contents: Map<ObjectId, ObjectView>,
    object: ObjectId,
    offset: u64,
    creating: bool,
) -> Result<(), StoreFault> {
    if !creating && !contents.contains_key(object) {
        Err(StoreFault::Missing)
    } else if !is_block_offset(offset) || (creating && contents.contains_key(object)) || (!creating
        && offset < contents[object].end) {
        Err(StoreFault::Device)
    } else {
        Ok(())
    }
}

/// The contents once a block has been written.
pub open spec fn with_block(
    contents: Map<ObjectId, ObjectView>,
    object: ObjectId,
    offset: u64,
    bytes: Seq<u8>,
) -> Map<ObjectId, ObjectView> {
    contents.insert(
        object,
        ObjectView {
            end: (offset + 4096) as u64,
            blocks: if contents.contains_key(object) {
                contents[object].blocks.insert(offset, bytes)
            } else {
                Map::empty().insert(offset, bytes)
            },
        },
    )
}

/// What a read of the contents comes to.
pub open spec fn read_outcome(
    contents: Map<ObjectId, ObjectView>,
    object: ObjectId,
    offset: u64,
) -> Option<Seq<u8>> {
    if contents.contains_key(object) && contents[object].blocks.contains_key(offset) {
        Some(contents[object].blocks[offset])
    } else {
        None
    }
}

impl MemoryStore {
    /// What the store has, by object.
    pub closed spec fn contents(&self) -> Map<ObjectId, ObjectView> {
        Map::new(
            |o: ObjectId| o.valid() && self.objects@[o.0 as int] is Some,
            |o: ObjectId| self.objects@[o.0 as int].unwrap().view(),
        )
    }

    /// The store has nothing, was asked for nothing and has counted nothing.
    pub open spec fn is_blank(&self) -> bool {
        &&& self.contents() == Map::<ObjectId, ObjectView>::empty()
        &&& self.reads().len() == 0
        &&& self.answers().len() == 0
        &&& self.counts() == VolumeStats::none()
    }

    /// The reads taken and not yet answered, oldest first.
    pub closed spec fn reads(&self) -> Seq<(u64, ObjectId, u64)> {
        self.submitted@
    }

    /// The answers to writes not yet collected, oldest first.
    pub closed spec fn answers(&self) -> Seq<(u64, Result<(), StoreFault>)> {
        self.written@
    }

    pub closed spec fn counts(&self) -> VolumeStats {
        self.stats
    }

    closed spec fn valid(&self) -> bool {
        &&& self.objects@.len() == OBJECT_VALUES
        &&& forall|i: int|
            0 <= i < OBJECT_VALUES && #[trigger] self.objects@[i] is Some
                ==> self.objects@[i].unwrap().wf()
        &&& forall|i: int|
            0 <= i < self.submitted@.len() ==> (#[trigger] self.submitted@[i]).1.valid()
    }

    /// The read itself. Counting is the caller's: the same work is an inline read when `read_at` asks for
    /// it and the queue's when `poll` does.
    fn read_block(&self, object: ObjectId, offset: u64, into: &mut Block) -> (read: Result<
        (),
        StoreFault,
    >)
        requires
            self.valid(),
            object.valid(),
        ensures
            match read_outcome(self.contents(), object, offset) {
                Some(bytes) => read == Ok::<(), StoreFault>(()) && final(into)@ == bytes,
                None => read == Err::<(), StoreFault>(StoreFault::Missing) && *final(into) == *old(
                    into,
                ),
            },
    {
        match &self.objects[object.index()] {
            Some(file) => {
                match file.at(offset) {
                    Some(found) => {
                        into.copy_from(found);
                        assert(self.contents().contains_key(object));
                        assert(self.contents()[object].blocks[offset] == into@);
                        return Ok(());
                    },
                    None => {},
                }
            },
            None => {},
        }
        Err(StoreFault::Missing)
    }
}

/// How deep a queue of this length is with one more.
pub open spec fn one_deeper(length: nat) -> usize {
    if length < usize::MAX {
        (length + 1) as usize
    } else {
        usize::MAX
    }
}

impl Default for MemoryStore {
    fn default() -> (store: Self)
        ensures
            store.wf(),
            store.is_blank(),
            store.written() == Set::<Written>::empty(),
    {
        let mut objects: Vec<Option<SegmentFile>> = Vec::new();
        while objects.len() < OBJECT_VALUES
            invariant
                objects@.len() <= OBJECT_VALUES,
                forall|i: int| 0 <= i < objects@.len() ==> #[trigger] objects@[i] is None,
            decreases OBJECT_VALUES - objects@.len(),
        {
            objects.push(None);
        }
        let store = MemoryStore {
            objects,
            submitted: VecDeque::new(),
            written: VecDeque::new(),
            stats: VolumeStats::default(),
        };
        assert(store.contents() =~= Map::<ObjectId, ObjectView>::empty());
        assert(store.written() =~= Set::<Written>::empty());
        store
    }
}

impl DurableStore for MemoryStore {
    closed spec fn wf(&self) -> bool {
        self.valid()
    }

    open spec fn truthful(&self) -> bool {
        true
    }

    open spec fn written(&self) -> Set<Written> {
        Set::new(|w: Written| read_outcome(self.contents(), w.0, w.1) == Some(w.2))
    }

    open spec fn stored(&self) -> Set<Written> {
        self.written()
    }

    open spec fn asked(&self) -> Set<Asked> {
        Set::new(|a: Asked| self.reads().contains(a))
    }

    open spec fn writes_inline(&self) -> bool {
        true
    }

    open spec fn counted(&self) -> Option<VolumeStats> {
        Some(self.counts())
    }

    open spec fn pledged(&self) -> Set<Written> {
        Set::new(
            |w: Written|
                read_outcome(self.contents(), w.0, w.1) == Some(w.2) && exists|h: u64| #[trigger]
                    self.reads().contains((h, w.0, w.1)),
        )
    }

    open spec fn did(&self, call: Call, reply: Reply, after: &Self) -> bool {
        match call {
            Call::Write { handle, object, offset, bytes, creating, .. } => {
                let done = write_outcome(self.contents(), object, offset, creating);
                &&& reply == Reply::Flag(true)
                &&& after.contents() == if done is Ok {
                    with_block(self.contents(), object, offset, bytes)
                } else {
                    self.contents()
                }
                &&& after.reads() == self.reads()
                &&& after.answers() == self.answers().push((handle, done))
                &&& after.counts() == self.counts().took_write_after(
                    BLOCK_BYTES as u64,
                    one_deeper(self.answers().len()),
                ).answered_write_after(done is Ok)
            },
            Call::Barrier { handle, .. } => {
                &&& reply == Reply::Flag(true)
                &&& after.contents() == self.contents()
                &&& after.reads() == self.reads()
                &&& after.answers() == self.answers().push((handle, Ok(())))
                &&& after.counts() == self.counts().took_barrier_after(
                    one_deeper(self.answers().len()),
                )
            },
            Call::Remove { handle, object, .. } => {
                &&& reply == Reply::Flag(true)
                &&& after.contents() == self.contents().remove(object)
                &&& after.reads() == self.reads()
                &&& after.answers() == self.answers().push((handle, Ok(())))
                &&& after.counts() == self.counts().removed_after()
            },
            Call::Rename { handle, from, to, .. } => {
                let there = self.contents().contains_key(from);
                &&& reply == Reply::Flag(true)
                &&& after.contents() == if there {
                    self.contents().remove(from).insert(to, self.contents()[from])
                } else {
                    self.contents()
                }
                &&& after.reads() == self.reads()
                &&& after.answers() == self.answers().push(
                    (
                        handle,
                        if there {
                            Ok(())
                        } else {
                            Err(StoreFault::Missing)
                        },
                    ),
                )
                &&& after.counts() == self.counts().renamed_after()
            },
            Call::PollWritten { .. } => {
                &&& if self.answers().len() == 0 {
                    reply == Reply::Written(None) && after.answers() == self.answers()
                } else {
                    reply == Reply::Written(Some(self.answers()[0])) && after.answers()
                        == self.answers().drop_first()
                }
                &&& after.contents() == self.contents()
                &&& after.reads() == self.reads()
                &&& after.counts() == self.counts()
            },
            Call::WritesInflight => reply == Reply::Count(self.answers().len() as usize) && *after == *self,
            Call::WritesAreQueued => reply == Reply::Flag(false) && *after == *self,
            Call::ReadAt { object, offset, had } => {
                let read = read_outcome(self.contents(), object, offset);
                &&& reply == match read {
                    Some(bytes) => Reply::Read(Ok(()), bytes),
                    None => Reply::Read(Err(StoreFault::Missing), had),
                }
                &&& after.contents() == self.contents()
                &&& after.reads() == self.reads()
                &&& after.answers() == self.answers()
                &&& after.counts() == if read is Some {
                    self.counts().read_inline_after()
                } else {
                    self.counts().read_inline_after().failed_after()
                }
            },
            Call::Submit { handle, object, offset, .. } => {
                &&& reply == Reply::Flag(true)
                &&& after.contents() == self.contents()
                &&& after.reads() == self.reads().push((handle, object, offset))
                &&& after.answers() == self.answers()
                &&& after.counts() == self.counts().took_read_after(one_deeper(self.reads().len()))
            },
            Call::Poll { had, .. } => {
                &&& if self.reads().len() == 0 {
                    &&& reply == Reply::Polled(None, had)
                    &&& after.reads() == self.reads()
                    &&& after.counts() == self.counts()
                } else {
                    let (handle, object, offset) = self.reads()[0];
                    let read = read_outcome(self.contents(), object, offset);
                    &&& reply == match read {
                        Some(bytes) => Reply::Polled(Some(Ok(handle)), bytes),
                        None => Reply::Polled(Some(Err(StoreFault::Missing)), had),
                    }
                    &&& after.reads() == self.reads().drop_first()
                    &&& after.counts() == self.counts().answered_read_after(read is Some)
                }
                &&& after.contents() == self.contents()
                &&& after.answers() == self.answers()
            },
            Call::Inflight => reply == Reply::Count(self.reads().len() as usize) && *after == *self,
            Call::TakeCharge => reply == Reply::Amount(0) && *after == *self,
            Call::BlocksIn { object } => {
                &&& reply == Reply::Amount(
                    if self.contents().contains_key(object) {
                        self.contents()[object].end / 4096
                    } else {
                        0
                    },
                )
                &&& *after == *self
            },
            Call::HasObject { object } => {
                &&& reply == Reply::Flag(self.contents().contains_key(object))
                &&& *after == *self
            },
        }
    }

    fn submit_write(
        &mut self,
        handle: u64,
        object: ObjectId,
        offset: u64,
        block: &Block,
        creating: bool,
        now: u64,
    ) -> (taken: bool)
        ensures
            taken,
            ({
                let done = write_outcome(old(self).contents(), object, offset, creating);
                &&& final(self).answers() == old(self).answers().push((handle, done))
                &&& final(self).contents() == if done is Ok {
                    with_block(old(self).contents(), object, offset, block@)
                } else {
                    old(self).contents()
                }
            }),
            final(self).reads() == old(self).reads(),
            final(self).counts() == old(self).counts().took_write_after(
                BLOCK_BYTES as u64,
                one_deeper(old(self).answers().len()),
            ).answered_write_after(final(self).answers().last().1 is Ok),
    {
        let at: usize = object.index();
        let there: bool = self.objects[at].is_some();
        assert(there == self.contents().contains_key(object));
        let room: bool = offset % 4096 == 0 && offset <= u64::MAX - 4096;
        let done: Result<(), StoreFault> = if creating {
            if there || !room {
                Err(StoreFault::Device)
            } else {
                let file = SegmentFile::starting(offset, block);
                self.objects[at] = Some(file);
                Ok(())
            }
        } else {
            match &mut self.objects[at] {
                None => Err(StoreFault::Missing),
                Some(file) => {
                    if !room || offset < file.end() {
                        Err(StoreFault::Device)
                    } else {
                        file.put(offset, block);
                        Ok(())
                    }
                },
            }
        };
        let ghost given = if done is Ok {
            with_block(old(self).contents(), object, offset, block@)
        } else {
            old(self).contents()
        };
        proof {
            assert(self.contents() =~= given);
        }
        let depth: usize = self.written.len();
        self.stats.took_write(BLOCK_BYTES as u64, depth.saturating_add(1));
        self.stats.answered_write(done.is_ok());
        self.written.push_back((handle, done));
        assert(self.contents() =~= given);
        true
    }

    fn submit_barrier(&mut self, handle: u64, now: u64) -> (taken: bool)
        ensures
            taken,
            final(self).answers() == old(self).answers().push((handle, Ok(()))),
            final(self).contents() == old(self).contents(),
            final(self).reads() == old(self).reads(),
            final(self).counts() == old(self).counts().took_barrier_after(
                one_deeper(old(self).answers().len()),
            ),
    {
        let depth: usize = self.written.len();
        self.stats.took_barrier(depth.saturating_add(1));
        self.written.push_back((handle, Ok(())));
        assert(self.contents() =~= old(self).contents());
        true
    }

    fn poll_written(&mut self, now: u64) -> (done: Option<(u64, Result<(), StoreFault>)>)
        ensures
            old(self).answers().len() == 0 ==> done is None && final(self).answers() == old(
                self,
            ).answers(),
            old(self).answers().len() > 0 ==> done == Some(old(self).answers()[0])
                && final(self).answers() == old(self).answers().drop_first(),
            final(self).contents() == old(self).contents(),
            final(self).reads() == old(self).reads(),
            final(self).counts() == old(self).counts(),
    {
        let done = self.written.pop_front();
        assert(self.contents() =~= old(self).contents());
        assert(old(self).written@.len() > 0 ==> self.written@ =~= old(self).written@.drop_first());
        done
    }

    fn writes_inflight(&self) -> (inflight: usize)
        ensures
            inflight == self.answers().len(),
    {
        self.written.len()
    }

    fn writes_are_queued(&self) -> (queued: bool) {
        false
    }

    fn stats(&self) -> (stats: VolumeStats)
        ensures
            stats == self.counts(),
    {
        self.stats
    }

    fn read_at(&mut self, object: ObjectId, offset: u64, into: &mut Block) -> (read: Result<
        (),
        StoreFault,
    >)
        ensures
            match read_outcome(old(self).contents(), object, offset) {
                Some(bytes) => read is Ok && final(into)@ == bytes,
                None => read == Err::<(), StoreFault>(StoreFault::Missing) && *final(into) == *old(
                    into,
                ),
            },
            final(self).contents() == old(self).contents(),
            final(self).reads() == old(self).reads(),
            final(self).answers() == old(self).answers(),
            final(self).counts() == if read is Ok {
                old(self).counts().read_inline_after()
            } else {
                old(self).counts().read_inline_after().failed_after()
            },
    {
        let read = self.read_block(object, offset, into);
        self.stats.read_inline();
        if read.is_err() {
            self.stats.failed();
        }
        assert(self.contents() =~= old(self).contents());
        read
    }

    fn submit(&mut self, handle: u64, object: ObjectId, offset: u64, now: u64) -> (taken: bool)
        ensures
            taken,
            final(self).reads() == old(self).reads().push((handle, object, offset)),
            final(self).contents() == old(self).contents(),
            final(self).answers() == old(self).answers(),
            final(self).counts() == old(self).counts().took_read_after(
                one_deeper(old(self).reads().len()),
            ),
    {
        let depth: usize = self.submitted.len();
        self.stats.took_read(depth.saturating_add(1));
        self.submitted.push_back((handle, object, offset));
        assert(self.contents() =~= old(self).contents());
        proof {
            let before = old(self).submitted@;
            let after = self.submitted@;
            assert forall|a: Asked| after.contains(a) implies before.contains(a) || a
                == (handle, object, offset) by {
                let i = choose|i: int| 0 <= i < after.len() && after[i] == a;
                if i < before.len() {
                    assert(before[i] == a);
                }
            }
        }
        true
    }

    fn poll(&mut self, now: u64, into: &mut Block) -> (answered: Option<Result<u64, StoreFault>>)
        ensures
            old(self).reads().len() == 0 ==> answered is None && *final(into) == *old(into)
                && final(self).reads() == old(self).reads(),
            old(self).reads().len() > 0 ==> {
                let (handle, object, offset) = old(self).reads()[0];
                &&& final(self).reads() == old(self).reads().drop_first()
                &&& match read_outcome(old(self).contents(), object, offset) {
                    Some(bytes) => answered == Some(Ok::<u64, StoreFault>(handle)) && final(into)@
                        == bytes,
                    None => answered == Some(Err::<u64, StoreFault>(StoreFault::Missing))
                        && *final(into) == *old(into),
                }
            },
            final(self).contents() == old(self).contents(),
            final(self).answers() == old(self).answers(),
            final(self).counts() == match answered {
                Some(outcome) => old(self).counts().answered_read_after(outcome is Ok),
                None => old(self).counts(),
            },
    {
        let next = self.submitted.pop_front();
        assert(self.contents() =~= old(self).contents());
        match next {
            None => None,
            Some((handle, object, offset)) => {
                proof {
                    assert(old(self).submitted@[0] == (handle, object, offset));
                    assert(self.submitted@ =~= old(self).submitted@.drop_first());
                    assert(old(self).submitted@.contains((handle, object, offset)));
                    assert forall|a: Asked| self.submitted@.contains(a) implies old(
                        self,
                    ).submitted@.contains(a) by {
                        let i = choose|i: int|
                            0 <= i < self.submitted@.len() && self.submitted@[i] == a;
                        assert(old(self).submitted@[i + 1] == a);
                    }
                }
                let read = self.read_block(object, offset, into);
                self.stats.answered_read(read.is_ok());
                assert(self.contents() =~= old(self).contents());
                match read {
                    Ok(()) => {
                        assert(old(self).asked().contains((handle, object, offset)));
                        assert(old(self).pledged().contains((object, offset, into@)));
                        assert(is_answer(old(self).asked(), old(self).pledged(), handle, into@));
                        Some(Ok(handle))
                    },
                    Err(fault) => Some(Err(fault)),
                }
            },
        }
    }

    fn inflight(&self) -> (inflight: usize)
        ensures
            inflight == self.reads().len(),
    {
        self.submitted.len()
    }

    fn take_charge(&mut self) -> (charge: u64) {
        0
    }

    fn submit_remove(&mut self, handle: u64, object: ObjectId, now: u64) -> (taken: bool)
        ensures
            taken,
            final(self).answers() == old(self).answers().push((handle, Ok(()))),
            final(self).contents() == old(self).contents().remove(object),
            final(self).reads() == old(self).reads(),
            final(self).counts() == old(self).counts().removed_after(),
    {
        self.stats.removed();
        self.objects[object.index()] = None;
        self.written.push_back((handle, Ok(())));
        assert(self.contents() =~= old(self).contents().remove(object));
        true
    }

    fn submit_rename(&mut self, handle: u64, from: ObjectId, to: ObjectId, now: u64) -> (taken: bool)
        ensures
            taken,
            old(self).contents().contains_key(from) ==> {
                &&& final(self).contents() == old(self).contents().remove(from).insert(
                    to,
                    old(self).contents()[from],
                )
                &&& final(self).answers() == old(self).answers().push((handle, Ok(())))
            },
            !old(self).contents().contains_key(from) ==> {
                &&& final(self).contents() == old(self).contents()
                &&& final(self).answers() == old(self).answers().push(
                    (handle, Err(StoreFault::Missing)),
                )
            },
            final(self).reads() == old(self).reads(),
            final(self).counts() == old(self).counts().renamed_after(),
    {
        self.stats.renamed();
        let ghost before = self.contents();
        assert(before =~= old(self).contents());
        let moved = self.objects[from.index()].take();
        let done: Result<(), StoreFault> = match moved {
            Some(file) => {
                self.objects[to.index()] = Some(file);
                assert(self.contents() =~= before.remove(from).insert(to, before[from]));
                Ok(())
            },
            None => {
                assert(self.contents() =~= before);
                Err(StoreFault::Missing)
            },
        };
        let ghost after = self.contents();
        self.written.push_back((handle, done));
        assert(self.contents() =~= after);
        true
    }

    fn blocks_in(&mut self, object: ObjectId) -> (blocks: u64)
        ensures
            blocks == if old(self).contents().contains_key(object) {
                old(self).contents()[object].end / 4096
            } else {
                0
            },
            *final(self) == *old(self),
    {
        match &self.objects[object.index()] {
            Some(file) => {
                let end: u64 = file.end();
                assert(self.contents().contains_key(object));
                end / 4096
            },
            None => 0,
        }
    }

    fn has_object(&mut self, object: ObjectId) -> (there: bool)
        ensures
            there == old(self).contents().contains_key(object),
            *final(self) == *old(self),
    {
        self.objects[object.index()].is_some()
    }
}

/// A write that is answered well is what a read of its place gives back, and changes no other place.
pub proof fn law_a_read_gives_back_what_was_written(
    contents: Map<ObjectId, ObjectView>,
    object: ObjectId,
    offset: u64,
    bytes: Seq<u8>,
    creating: bool,
    other: ObjectId,
    elsewhere: u64,
)
    requires
        write_outcome(contents, object, offset, creating) is Ok,
    ensures
        read_outcome(with_block(contents, object, offset, bytes), object, offset) == Some(bytes),
        (other, elsewhere) != (object, offset) ==> read_outcome(
            with_block(contents, object, offset, bytes),
            other,
            elsewhere,
        ) == read_outcome(contents, other, elsewhere),
{
}

/// A rename gives the new name all of the old one's blocks and none of its own, and takes the old
/// name away.
pub proof fn law_a_rename_moves_every_block(
    contents: Map<ObjectId, ObjectView>,
    from: ObjectId,
    to: ObjectId,
    offset: u64,
)
    requires
        contents.contains_key(from),
    ensures
        ({
            let after = contents.remove(from).insert(to, contents[from]);
            &&& read_outcome(after, to, offset) == read_outcome(contents, from, offset)
            &&& from != to ==> read_outcome(after, from, offset) is None
        }),
{
}

/// A run of calls: what each was answered, and the store before the first and after each.
pub open spec fn runs(stores: Seq<MemoryStore>, calls: Seq<Call>, replies: Seq<Reply>) -> bool {
    &&& stores.len() == calls.len() + 1
    &&& replies.len() == calls.len()
    &&& forall|i: int, j: int|
        #![trigger stores[i], stores[j]]
        0 <= i < calls.len() && j == i + 1 ==> stores[i].did(calls[i], replies[i], &stores[j])
}

/// The handles of the writes, barriers, removals and renames among these calls, in their order.
pub open spec fn taken(calls: Seq<Call>) -> Seq<u64>
    decreases calls.len(),
{
    if calls.len() == 0 {
        Seq::empty()
    } else {
        let before = taken(calls.drop_last());
        match calls.last() {
            Call::Write { handle, .. } => before.push(handle),
            Call::Barrier { handle, .. } => before.push(handle),
            Call::Remove { handle, .. } => before.push(handle),
            Call::Rename { handle, .. } => before.push(handle),
            _ => before,
        }
    }
}

/// The handles that these replies answered, in their order.
pub open spec fn handed(replies: Seq<Reply>) -> Seq<u64>
    decreases replies.len(),
{
    if replies.len() == 0 {
        Seq::empty()
    } else {
        let before = handed(replies.drop_last());
        match replies.last() {
            Reply::Written(Some((handle, _))) => before.push(handle),
            _ => before,
        }
    }
}

/// The reads among these calls, in their order.
pub open spec fn asked_in(calls: Seq<Call>) -> Seq<(u64, ObjectId, u64)>
    decreases calls.len(),
{
    if calls.len() == 0 {
        Seq::empty()
    } else {
        let before = asked_in(calls.drop_last());
        match calls.last() {
            Call::Submit { handle, object, offset, .. } => before.push((handle, object, offset)),
            _ => before,
        }
    }
}

/// What these replies answered reads with, in their order: the handle, or that the read failed.
pub open spec fn brought_in(replies: Seq<Reply>) -> Seq<Result<u64, StoreFault>>
    decreases replies.len(),
{
    if replies.len() == 0 {
        Seq::empty()
    } else {
        let before = brought_in(replies.drop_last());
        match replies.last() {
            Reply::Polled(Some(answer), _) => before.push(answer),
            _ => before,
        }
    }
}

/// The handles of these answers.
pub open spec fn handles_of(answers: Seq<(u64, Result<(), StoreFault>)>) -> Seq<u64> {
    answers.map_values(|answer: (u64, Result<(), StoreFault>)| answer.0)
}

/// Over any run of calls the store answers in the order it was asked: the writes come back in the order
/// they were taken, whatever is asked in between, and so do the reads.
pub proof fn law_answers_come_in_the_order_asked(
    stores: Seq<MemoryStore>,
    calls: Seq<Call>,
    replies: Seq<Reply>,
)
    requires
        runs(stores, calls, replies),
    ensures
        handles_of(stores[0].answers()) + taken(calls) == handed(replies) + handles_of(
            stores.last().answers(),
        ),
        ({
            let all = stores[0].reads() + asked_in(calls);
            let got = brought_in(replies);
            &&& got.len() <= all.len()
            &&& stores.last().reads() == all.skip(got.len() as int)
            &&& forall|i: int|
                0 <= i < got.len() ==> ((#[trigger] got[i]) matches Ok(handle) ==> handle == all[i].0)
        }),
    decreases calls.len(),
{
    if calls.len() == 0 {
        assert(handles_of(stores[0].answers()) + taken(calls) =~= handed(replies) + handles_of(
            stores.last().answers(),
        ));
        assert(stores.last().reads() =~= (stores[0].reads() + asked_in(calls)).skip(0));
    } else {
        let n = calls.len() - 1;
        let fewer = stores.drop_last();
        let before = calls.drop_last();
        let earlier = replies.drop_last();
        assert(runs(fewer, before, earlier)) by {
            assert forall|i: int, j: int|
                #![trigger fewer[i], fewer[j]]
                0 <= i < before.len() && j == i + 1 implies fewer[i].did(before[i], earlier[i], &fewer[j]) by {
                assert(stores[i].did(calls[i], replies[i], &stores[j]));
            }
        }
        law_answers_come_in_the_order_asked(fewer, before, earlier);
        let was = stores[n];
        let now = stores[n + 1];
        assert(was == fewer.last() && now == stores.last());
        assert(was.did(calls[n], replies[n], &now));
        let queued = was.answers();
        assert(handles_of(stores[0].answers()) + taken(calls) =~= handed(replies) + handles_of(
            now.answers(),
        )) by {
            let had = handles_of(stores[0].answers()) + taken(before);
            assert(had == handed(earlier) + handles_of(queued));
            match calls[n] {
                Call::PollWritten { .. } => {
                    if queued.len() > 0 {
                        assert(handles_of(queued) =~= seq![queued[0].0] + handles_of(
                            queued.drop_first(),
                        ));
                        assert(handed(replies) == handed(earlier).push(queued[0].0));
                        assert(handed(earlier).push(queued[0].0) + handles_of(queued.drop_first())
                            =~= handed(earlier) + handles_of(queued));
                    }
                },
                Call::Write { handle, .. } => {
                    assert(handles_of(now.answers()) =~= handles_of(queued).push(handle));
                    assert(handles_of(stores[0].answers()) + taken(before).push(handle) =~= had.push(handle));
                    assert(handed(earlier) + handles_of(queued).push(handle) =~= had.push(handle));
                },
                Call::Barrier { handle, .. } => {
                    assert(handles_of(now.answers()) =~= handles_of(queued).push(handle));
                    assert(handles_of(stores[0].answers()) + taken(before).push(handle) =~= had.push(handle));
                    assert(handed(earlier) + handles_of(queued).push(handle) =~= had.push(handle));
                },
                Call::Remove { handle, .. } => {
                    assert(handles_of(now.answers()) =~= handles_of(queued).push(handle));
                    assert(handles_of(stores[0].answers()) + taken(before).push(handle) =~= had.push(handle));
                    assert(handed(earlier) + handles_of(queued).push(handle) =~= had.push(handle));
                },
                Call::Rename { handle, .. } => {
                    assert(handles_of(now.answers()) =~= handles_of(queued).push(handle));
                    assert(handles_of(stores[0].answers()) + taken(before).push(handle) =~= had.push(handle));
                    assert(handed(earlier) + handles_of(queued).push(handle) =~= had.push(handle));
                },
                _ => {},
            }
        }
        let all = stores[0].reads() + asked_in(before);
        let more = stores[0].reads() + asked_in(calls);
        let got = brought_in(earlier);
        assert(was.reads() == all.skip(got.len() as int));
        match calls[n] {
            Call::Submit { handle, object, offset, .. } => {
                assert(more =~= all.push((handle, object, offset)));
                assert(now.reads() =~= more.skip(got.len() as int));
            },
            Call::Poll { .. } => {
                assert(more =~= all);
                if was.reads().len() > 0 {
                    assert(was.reads()[0] == all[got.len() as int]);
                    assert(now.reads() =~= all.skip(got.len() as int + 1));
                }
            },
            _ => {
                assert(more =~= all);
            },
        }
    }
}

/// A write goes behind what its object holds. An object that is to be begun must not be there, one that is
/// not must, and a block stands at a whole number of blocks; anything else is refused, with the fault that
/// says why.
pub proof fn law_a_write_goes_behind_what_is_there(
    contents: Map<ObjectId, ObjectView>,
    object: ObjectId,
    offset: u64,
    bytes: Seq<u8>,
)
    ensures
        !contents.contains_key(object) ==> write_outcome(contents, object, offset, false) == Err::<
            (),
            StoreFault,
        >(StoreFault::Missing),
        contents.contains_key(object) ==> write_outcome(contents, object, offset, true) == Err::<
            (),
            StoreFault,
        >(StoreFault::Device),
        contents.contains_key(object) && offset < contents[object].end ==> write_outcome(
            contents,
            object,
            offset,
            false,
        ) == Err::<(), StoreFault>(StoreFault::Device),
        offset % 4096 != 0 ==> write_outcome(contents, object, offset, true) == Err::<(), StoreFault>(
            StoreFault::Device,
        ) && write_outcome(contents, object, offset, false) is Err,
        offset % 4096 == 0 && offset + 4096 <= u64::MAX && !contents.contains_key(object)
            ==> write_outcome(contents, object, offset, true) is Ok,
        offset % 4096 == 0 && offset + 4096 <= u64::MAX && contents.contains_key(object) && offset
            >= contents[object].end ==> write_outcome(contents, object, offset, false) is Ok,
        offset + 4096 <= u64::MAX ==> with_block(contents, object, offset, bytes)[object].end == offset
            + 4096,
{
}

/// Two writes in a row to one object: the second must be behind the first, and both are read back.
pub proof fn law_a_block_is_written_once(
    contents: Map<ObjectId, ObjectView>,
    object: ObjectId,
    offset: u64,
    bytes: Seq<u8>,
    creating: bool,
    again: u64,
)
    requires
        write_outcome(contents, object, offset, creating) is Ok,
    ensures
        write_outcome(with_block(contents, object, offset, bytes), object, offset, false) is Err,
        write_outcome(with_block(contents, object, offset, bytes), object, again, false) is Ok ==> again
            >= offset + 4096,
{
}

/// What a volume is asked changes the objects the call names and no other; a write that is refused and every
/// read change none.
pub proof fn law_a_call_changes_only_what_it_names(
    store: MemoryStore,
    call: Call,
    reply: Reply,
    after: MemoryStore,
    other: ObjectId,
)
    requires
        store.did(call, reply, &after),
    ensures
        call matches Call::Write { object, offset, creating, .. } ==> {
            &&& other != object ==> after.contents().contains_key(other) == store.contents().contains_key(
                other,
            )
            &&& other != object && store.contents().contains_key(other) ==> after.contents()[other]
                == store.contents()[other]
            &&& write_outcome(store.contents(), object, offset, creating) is Err ==> after.contents()
                == store.contents()
        },
        call matches Call::Remove { object, .. } ==> {
            &&& !after.contents().contains_key(object)
            &&& other != object ==> after.contents().contains_key(other) == store.contents().contains_key(
                other,
            )
            &&& other != object && store.contents().contains_key(other) ==> after.contents()[other]
                == store.contents()[other]
        },
        call matches Call::Rename { from, to, .. } ==> {
            &&& store.contents().contains_key(from) ==> after.contents().contains_key(to)
                && after.contents()[to] == store.contents()[from]
            &&& store.contents().contains_key(from) && from != to ==> !after.contents().contains_key(from)
            &&& !store.contents().contains_key(from) ==> after.contents() == store.contents()
            &&& other != from && other != to ==> after.contents().contains_key(other)
                == store.contents().contains_key(other)
            &&& other != from && other != to && store.contents().contains_key(other)
                ==> after.contents()[other] == store.contents()[other]
        },
        !(call is Write) && !(call is Remove) && !(call is Rename) ==> after.contents()
            == store.contents(),
{
}

/// Every write, barrier, removal and renaming is taken and answered once, behind those before it, with how it
/// went.
pub proof fn law_a_change_is_answered_once(
    store: MemoryStore,
    call: Call,
    reply: Reply,
    after: MemoryStore,
)
    requires
        store.did(call, reply, &after),
        call is Write || call is Barrier || call is Remove || call is Rename,
    ensures
        reply == Reply::Flag(true),
        after.answers().len() == store.answers().len() + 1,
        after.answers().drop_last() == store.answers(),
        after.reads() == store.reads(),
        call matches Call::Write { handle, object, offset, creating, .. } ==> after.answers().last() == (
            handle,
            write_outcome(store.contents(), object, offset, creating),
        ),
        call matches Call::Barrier { handle, .. } ==> after.answers().last() == (
            handle,
            Ok::<(), StoreFault>(()),
        ),
        call matches Call::Remove { handle, .. } ==> after.answers().last() == (
            handle,
            Ok::<(), StoreFault>(()),
        ),
        call matches Call::Rename { handle, from, .. } ==> after.answers().last().0 == handle && (
        after.answers().last().1 is Ok <==> store.contents().contains_key(from)),
{
    assert(after.answers().drop_last() =~= store.answers());
}

/// A read is answered with what stands at its place, at once or when it is polled for, and with a fault and the
/// bytes untouched if nothing does.
pub proof fn law_a_read_is_answered_with_what_stands_there(
    store: MemoryStore,
    call: Call,
    reply: Reply,
    after: MemoryStore,
)
    requires
        store.did(call, reply, &after),
    ensures
        call matches Call::ReadAt { object, offset, had } ==> {
            &&& reply matches Reply::Read(outcome, bytes)
            &&& (outcome is Ok <==> store.contents().contains_key(object)
                && store.contents()[object].blocks.contains_key(offset))
            &&& outcome is Ok ==> bytes == store.contents()[object].blocks[offset]
            &&& outcome is Err ==> bytes == had
        },
        call matches Call::Submit { handle, object, offset, .. } ==> reply == Reply::Flag(true)
            && after.reads().len() == store.reads().len() + 1 && after.reads().last() == (
            handle,
            object,
            offset,
        ),
        call matches Call::Poll { had, .. } ==> (store.reads().len() > 0 ==> {
            let (handle, object, offset) = store.reads()[0];
            let there = store.contents().contains_key(object)
                && store.contents()[object].blocks.contains_key(offset);
            &&& there ==> reply == Reply::Polled(
                Some(Ok(handle)),
                store.contents()[object].blocks[offset],
            )
            &&& !there ==> reply == Reply::Polled(Some(Err(StoreFault::Missing)), had)
            &&& after.reads().len() == store.reads().len() - 1
        }),
        call matches Call::HasObject { object } ==> reply == Reply::Flag(
            store.contents().contains_key(object),
        ),
        call matches Call::BlocksIn { object } ==> (store.contents().contains_key(object)
            && store.contents()[object].end % 4096 == 0 ==> (reply matches Reply::Amount(blocks) && blocks
            * 4096 == store.contents()[object].end)),
        call matches Call::BlocksIn { object } ==> (!store.contents().contains_key(object) ==> reply
            == Reply::Amount(0)),
{
}

} // verus!
