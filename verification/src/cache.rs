//! A store that answers a read from the last blocks it read, and passes everything else down.
//!
//! It holds blocks by how recently they were read, for a burst of reads into one block; and a read for a
//! block already on its way down waits on it instead of asking again, which is the half a cache alone
//! cannot do.

use std::collections::VecDeque;

use vstd::prelude::*;

use crate::address::ObjectId;
use crate::block::Block;
use crate::latency::at_most;
use crate::stats::{add_count, plus, VolumeStats};
use crate::store::{asks_elsewhere, is_answer, Asked, Call, DurableStore, Reply, StoreFault, Written};

verus! {

/// A block in hand, and where it was read from.
pub struct Entry {
    pub object: ObjectId,
    pub offset: u64,
    pub block: Box<Block>,
}

/// A read passed down: the handle it was asked for with, and its block. It is open while its object has
/// stayed as it was: others may join it, and its block is worth keeping.
pub struct Issued {
    pub handle: u64,
    pub object: ObjectId,
    pub offset: u64,
    pub open: bool,
}

/// A block in hand was read from here, and has these bytes.
pub open spec fn has_block(entries: Seq<Entry>, w: Written) -> bool {
    exists|i: int|
        0 <= i < entries.len() && (#[trigger] entries[i]).object == w.0 && entries[i].offset == w.1
            && entries[i].block@ == w.2
}

/// Some block in hand was read from here.
pub open spec fn has_place(entries: Seq<Entry>, object: ObjectId, offset: u64) -> bool {
    exists|i: int|
        0 <= i < entries.len() && (#[trigger] entries[i]).object == object && entries[i].offset == offset
}

/// The block in hand that stands here was read from this place.
pub open spec fn is_place(entries: Seq<Entry>, at: int, object: ObjectId, offset: u64) -> bool {
    0 <= at < entries.len() && entries[at].object == object && entries[at].offset == offset
}

/// No two blocks in hand were read from one place.
pub open spec fn one_each(entries: Seq<Entry>) -> bool {
    forall|i: int, j: int|
        0 <= i < j < entries.len() ==> !((#[trigger] entries[i]).object == (#[trigger] entries[j]).object
            && entries[i].offset == entries[j].offset)
}

/// No two reads passed down went under one handle.
pub open spec fn one_a_handle(issued: Seq<Issued>) -> bool {
    forall|i: int, j: int|
        0 <= i < j < issued.len() ==> (#[trigger] issued[i]).handle != (#[trigger] issued[j]).handle
}

/// The reads passed down under every other handle, in their order.
pub open spec fn under_others(issued: Seq<Issued>, handle: u64) -> Seq<Issued>
    decreases issued.len(),
{
    if issued.len() == 0 {
        Seq::empty()
    } else if issued.last().handle == handle {
        under_others(issued.drop_last(), handle)
    } else {
        under_others(issued.drop_last(), handle).push(issued.last())
    }
}

/// A read of this place is on its way down, and may be joined.
pub open spec fn on_its_way(issued: Seq<Issued>, object: ObjectId, offset: u64) -> bool {
    exists|i: int|
        0 <= i < issued.len() && (#[trigger] issued[i]).open && issued[i].object == object
            && issued[i].offset == offset
}

/// The blocks in hand once one of them has been read again: it is the last to leave.
pub open spec fn read_again(entries: Seq<Entry>, at: int) -> Seq<Entry> {
    entries.remove(at).push(entries[at])
}

/// The blocks in hand once a block has been read for the first time. They are the old ones in their order
/// with the new one last, and the one read longest ago has left only if there was no room.
pub open spec fn kept_last(
    was: Seq<Entry>,
    now: Seq<Entry>,
    room: usize,
    object: ObjectId,
    offset: u64,
    bytes: Seq<u8>,
) -> bool {
    if room == 0 || has_place(was, object, offset) {
        now == was
    } else {
        &&& now.len() > 0
        &&& now.drop_last() == if was.len() >= room {
            was.drop_first()
        } else {
            was
        }
        &&& now.last().object == object
        &&& now.last().offset == offset
        &&& now.last().block@ == bytes
    }
}

/// The blocks in hand of every other object, in their order.
pub open spec fn without(entries: Seq<Entry>, object: ObjectId) -> Seq<Entry>
    decreases entries.len(),
{
    if entries.len() == 0 {
        Seq::empty()
    } else if entries.last().object == object {
        without(entries.drop_last(), object)
    } else {
        without(entries.drop_last(), object).push(entries.last())
    }
}

/// The same reads, those of one object closed.
pub open spec fn closed_for(now: Seq<Issued>, was: Seq<Issued>, object: ObjectId) -> bool {
    &&& now.len() == was.len()
    &&& forall|i: int|
        0 <= i < now.len() ==> (#[trigger] now[i]) == (Issued {
            open: was[i].open && was[i].object != object,
            ..was[i]
        })
}

/// The reads of one place among those owed, or the reads of every other place, in their order.
pub open spec fn sorted_out(owed: Seq<Asked>, object: ObjectId, offset: u64, there: bool) -> Seq<Asked>
    decreases owed.len(),
{
    if owed.len() == 0 {
        Seq::empty()
    } else {
        let rest = sorted_out(owed.drop_last(), object, offset, there);
        let last = owed.last();
        if (last.1 == object && last.2 == offset) == there {
            rest.push(last)
        } else {
            rest
        }
    }
}

proof fn lemma_sorted_out(owed: Seq<Asked>, object: ObjectId, offset: u64, there: bool)
    ensures
        forall|i: int|
            0 <= i < sorted_out(owed, object, offset, there).len() ==> owed.contains(
                #[trigger] sorted_out(owed, object, offset, there)[i],
            ),
    decreases owed.len(),
{
    if owed.len() > 0 {
        let rest = owed.drop_last();
        lemma_sorted_out(rest, object, offset, there);
        let all = sorted_out(owed, object, offset, there);
        assert forall|i: int| 0 <= i < all.len() implies owed.contains(#[trigger] all[i]) by {
            let part = sorted_out(rest, object, offset, there);
            if i < part.len() {
                assert(all[i] == part[i]);
                let j = choose|j: int| 0 <= j < rest.len() && rest[j] == part[i];
                assert(owed[j] == all[i]);
            } else {
                assert(owed[owed.len() - 1] == all[i]);
            }
        }
    }
}

/// A read of this place is owed.
pub open spec fn owes_place(owed: Seq<Asked>, object: ObjectId, offset: u64) -> bool {
    exists|i: int| 0 <= i < owed.len() && (#[trigger] owed[i]).1 == object && owed[i].2 == offset
}

/// A store that answers a read from the last blocks it read.
pub struct Cached<I: DurableStore> {
    inner: I,
    /// The blocks in hand, least recently read first.
    entries: VecDeque<Entry>,
    blocks: usize,
    /// Reads that can be answered without going down, waiting for the poll that collects them.
    ready: VecDeque<Asked>,
    /// Reads passed down and not answered.
    issued: Vec<Issued>,
    /// Reads for a block that is on its way down.
    waiting: VecDeque<Asked>,
    hits: u64,
    joined: u64,
}

impl<I: DurableStore> Cached<I> {
    /// The store below.
    pub closed spec fn below(&self) -> I {
        self.inner
    }

    /// The blocks in hand, least recently read first.
    pub closed spec fn in_hand(&self) -> Seq<Entry> {
        self.entries@
    }

    pub closed spec fn room(&self) -> usize {
        self.blocks
    }

    /// The reads that can be answered without going down, oldest first.
    pub closed spec fn answerable(&self) -> Seq<Asked> {
        self.ready@
    }

    /// The reads passed down and not answered.
    pub closed spec fn passed_down(&self) -> Seq<Issued> {
        self.issued@
    }

    /// The reads waiting on one passed down.
    pub closed spec fn joiners(&self) -> Seq<Asked> {
        self.waiting@
    }

    /// Reads answered from a block in hand, and reads that joined another.
    pub closed spec fn savings(&self) -> (u64, u64) {
        (self.hits, self.joined)
    }

    /// A read of this place that may be kept is on its way under a handle that another place's is on its
    /// way under too, so that the store below may answer it with either's block.
    closed spec fn muddled(&self, object: ObjectId, offset: u64) -> bool {
        exists|i: int, a: Asked|
            #![trigger self.issued@[i], self.inner.asked().contains(a)]
            0 <= i < self.issued@.len() && self.issued@[i].open && self.issued@[i].object == object
                && self.issued@[i].offset == offset && self.inner.asked().contains(a) && a.0
                == self.issued@[i].handle && (a.1 != object || a.2 != offset)
    }

    closed spec fn valid(&self) -> bool {
        &&& self.inner.wf()
        &&& one_a_handle(self.issued@)
        &&& one_each(self.entries@)
        &&& self.entries@.len() <= self.blocks
        &&& forall|i: int| 0 <= i < self.ready@.len() ==> (#[trigger] self.ready@[i]).1.valid()
        &&& forall|i: int| 0 <= i < self.waiting@.len() ==> (#[trigger] self.waiting@[i]).1.valid()
    }

    /// Wraps a store with room for some blocks. Zero is no cache at all. A read that is on its way already
    /// is handed up as it comes.
    pub fn new(inner: I, blocks: usize) -> (cached: Self)
        requires
            inner.wf(),
        ensures
            cached.wf(),
            cached.below() == inner,
            cached.room() == blocks,
            cached.in_hand().len() == 0,
            cached.answerable().len() == 0,
            cached.passed_down().len() == 0,
            cached.joiners().len() == 0,
            cached.savings() == (0u64, 0u64),
            cached.truthful() == inner.truthful(),
            cached.written() == inner.written(),
            cached.stored() == inner.stored(),
            cached.asked() == inner.asked(),
            cached.pledged() == inner.pledged(),
    {
        let cached = Cached {
            inner,
            entries: VecDeque::new(),
            blocks,
            ready: VecDeque::new(),
            issued: Vec::new(),
            waiting: VecDeque::new(),
            hits: 0,
            joined: 0,
        };
        assert(cached.written() =~= cached.inner.written());
        assert(cached.asked() =~= inner.asked());
        assert(cached.pledged() =~= cached.inner.pledged());
        cached
    }

    fn find(&self, object: ObjectId, offset: u64) -> (at: Option<usize>)
        ensures
            match at {
                Some(at) => at < self.entries@.len() && self.entries@[at as int].object == object
                    && self.entries@[at as int].offset == offset,
                None => !has_place(self.entries@, object, offset),
            },
    {
        let mut at: usize = 0;
        while at < self.entries.len()
            invariant
                at <= self.entries@.len(),
                forall|j: int|
                    0 <= j < at ==> !((#[trigger] self.entries@[j]).object == object
                        && self.entries@[j].offset == offset),
            decreases self.entries@.len() - at,
        {
            if self.entries[at].object == object && self.entries[at].offset == offset {
                return Some(at);
            }
            at += 1;
        }
        None
    }

    /// Answers from a block in hand, if one is. Read again means kept longer.
    fn take_from_cache(&mut self, object: ObjectId, offset: u64, into: &mut Block) -> (hit: bool)
        requires
            old(self).valid(),
        ensures
            final(self).valid(),
            final(self).inner == old(self).inner,
            final(self).blocks == old(self).blocks,
            final(self).ready == old(self).ready,
            final(self).issued == old(self).issued,
            final(self).waiting == old(self).waiting,
            final(self).joined == old(self).joined,
            hit == has_place(old(self).entries@, object, offset),
            hit ==> has_block(old(self).entries@, (object, offset, final(into)@)),
            hit ==> exists|at: int| #[trigger]
                is_place(old(self).entries@, at, object, offset) && final(self).entries@ == read_again(
                    old(self).entries@,
                    at,
                ) && final(into)@ == old(self).entries@[at].block@,
            hit ==> final(self).hits == plus(old(self).hits, 1),
            !hit ==> *final(self) == *old(self) && *final(into) == *old(into),
            forall|w: Written| #[trigger]
                has_block(final(self).entries@, w) == has_block(old(self).entries@, w),
    {
        match self.find(object, offset) {
            None => false,
            Some(at) => {
                let ghost had = self.entries@;
                match self.entries.remove(at) {
                    None => false,
                    Some(entry) => {
                        into.copy_from(&entry.block);
                        self.hits = add_count(self.hits, 1);
                        self.entries.push_back(entry);
                        proof {
                            let now = self.entries@;
                            assert(had[at as int].object == object);
                            lemma_moved_to_back(had, now, at as int);
                            assert(is_place(had, at as int, object, offset));
                            assert(now =~= read_again(had, at as int));
                        }
                        true
                    },
                }
            },
        }
    }

    /// Keeps a block just read, in place of the one read longest ago when there is no room.
    fn keep(&mut self, object: ObjectId, offset: u64, block: &Block)
        requires
            old(self).valid(),
        ensures
            final(self).valid(),
            final(self).inner == old(self).inner,
            final(self).blocks == old(self).blocks,
            final(self).ready == old(self).ready,
            final(self).issued == old(self).issued,
            final(self).waiting == old(self).waiting,
            final(self).hits == old(self).hits,
            final(self).joined == old(self).joined,
            forall|w: Written| #[trigger]
                has_block(final(self).entries@, w) ==> has_block(old(self).entries@, w) || w == (
                    object,
                    offset,
                    block@,
                ),
            kept_last(
                old(self).entries@,
                final(self).entries@,
                old(self).blocks,
                object,
                offset,
                block@,
            ),
            old(self).blocks > 0 ==> has_place(final(self).entries@, object, offset),
            old(self).blocks > 0 && !has_place(old(self).entries@, object, offset) ==> has_block(
                final(self).entries@,
                (object, offset, block@),
            ),
    {
        if self.blocks == 0 {
            return;
        }
        let found = self.find(object, offset);
        if found.is_some() {
            assert(is_place(self.entries@, found->0 as int, object, offset));
            return;
        }
        let ghost had = self.entries@;
        if self.entries.len() >= self.blocks {
            self.entries.pop_front();
        }
        let ghost left = self.entries@;
        self.entries.push_back(Entry { object, offset, block: Block::copy_of(block) });
        proof {
            let now = self.entries@;
            let last = now.len() - 1;
            assert(now[last].object == object && now[last].offset == offset && now[last].block@
                == block@);
            assert(now.drop_last() =~= left);
            assert(left =~= if had.len() >= self.blocks {
                had.drop_first()
            } else {
                had
            });
            assert forall|i: int| 0 <= i < left.len() implies had.contains(#[trigger] left[i]) by {
                if left.len() < had.len() {
                    assert(left[i] == had[i + 1]);
                } else {
                    assert(left[i] == had[i]);
                }
            }
            assert forall|w: Written| #[trigger] has_block(now, w) implies has_block(had, w) || w == (
                object,
                offset,
                block@,
            ) by {
                let i = choose|i: int|
                    0 <= i < now.len() && (#[trigger] now[i]).object == w.0 && now[i].offset == w.1
                        && now[i].block@ == w.2;
                if i < last {
                    assert(now[i] == left[i]);
                    let one = left[i];
                    let j = choose|j: int| 0 <= j < had.len() && had[j] == one;
                    assert(had[j].object == w.0);
                }
            }
            assert forall|i: int, j: int| 0 <= i < j < now.len() implies !((#[trigger] now[i]).object
                == (#[trigger] now[j]).object && now[i].offset == now[j].offset) by {
                assert(now[i] == left[i]);
                if left.len() < had.len() {
                    assert(left[i] == had[i + 1]);
                    if j < last {
                        assert(left[j] == had[j + 1]);
                    }
                } else {
                    assert(left[i] == had[i]);
                    if j < last {
                        assert(left[j] == had[j]);
                    }
                }
            }
        }
    }

    /// Drops everything in hand for one object, and keeps no block of it that is still on its way: a
    /// block's bytes never change, but an object's name can be given to different bytes.
    fn forget(&mut self, object: ObjectId)
        requires
            old(self).valid(),
        ensures
            final(self).valid(),
            final(self).inner == old(self).inner,
            final(self).blocks == old(self).blocks,
            final(self).ready == old(self).ready,
            final(self).waiting == old(self).waiting,
            final(self).hits == old(self).hits,
            final(self).joined == old(self).joined,
            forall|i: int|
                0 <= i < final(self).entries@.len() ==> (#[trigger] final(self).entries@[i]).object
                    != object,
            forall|w: Written| #[trigger]
                has_block(final(self).entries@, w) == (has_block(old(self).entries@, w) && w.0 != object),
            final(self).entries@ == without(old(self).entries@, object),
            closed_for(final(self).issued@, old(self).issued@, object),
    {
        let ghost had = self.entries@;
        let mut kept: VecDeque<Entry> = VecDeque::new();
        let ghost mut from: Seq<int> = Seq::empty();
        let mut left: usize = self.entries.len();
        assert(had.take(0) =~= Seq::<Entry>::empty());
        while left > 0
            invariant
                self.inner == old(self).inner,
                self.blocks == old(self).blocks,
                self.ready == old(self).ready,
                self.waiting == old(self).waiting,
                self.issued == old(self).issued,
                self.hits == old(self).hits,
                self.joined == old(self).joined,
                had == old(self).entries@,
                left <= had.len(),
                self.entries@ == had.subrange(had.len() - left, had.len() as int),
                picked(kept@, had, from, had.len() - left, object),
                kept@ == without(had.take(had.len() - left), object),
            decreases left,
        {
            let ghost at = had.len() - left;
            match self.entries.pop_front() {
                None => {},
                Some(entry) => {
                    proof {
                        assert(entry == had[at]);
                        assert(self.entries@ =~= had.subrange(at + 1, had.len() as int));
                        assert(had.take(at + 1).drop_last() =~= had.take(at));
                        assert(had.take(at + 1).last() == had[at]);
                        lemma_picked(kept@, had, from, at, object, entry);
                    }
                    if entry.object != object {
                        kept.push_back(entry);
                        proof {
                            from = from.push(at);
                        }
                    }
                },
            }
            left = left - 1;
        }
        self.entries = kept;
        proof {
            lemma_picked_all(self.entries@, had, from, object);
            assert(had.take(had.len() as int) =~= had);
        }
        let mut i: usize = 0;
        while i < self.issued.len()
            invariant
                i <= self.issued@.len(),
                self.inner == old(self).inner,
                self.blocks == old(self).blocks,
                self.ready == old(self).ready,
                self.waiting == old(self).waiting,
                self.hits == old(self).hits,
                self.joined == old(self).joined,
                self.entries@ == kept@,
                self.issued@.len() == old(self).issued@.len(),
                forall|j: int|
                    0 <= j < i ==> (#[trigger] self.issued@[j]) == (Issued {
                        open: old(self).issued@[j].open && old(self).issued@[j].object != object,
                        ..old(self).issued@[j]
                    }),
                forall|j: int|
                    i <= j < self.issued@.len() ==> #[trigger] self.issued@[j] == old(self).issued@[j],
            decreases self.issued@.len() - i,
        {
            if self.issued[i].object == object {
                self.issued[i].open = false;
            }
            i += 1;
        }
    }
}

impl<I: DurableStore> Cached<I> {
    /// Whether a read of this place is on its way down, and may be joined.
    fn is_coming(&self, object: ObjectId, offset: u64) -> (coming: bool)
        ensures
            coming == on_its_way(self.issued@, object, offset),
    {
        let mut i: usize = 0;
        while i < self.issued.len()
            invariant
                i <= self.issued@.len(),
                forall|j: int|
                    0 <= j < i ==> !((#[trigger] self.issued@[j]).open && self.issued@[j].object == object
                        && self.issued@[j].offset == offset),
            decreases self.issued@.len() - i,
        {
            if self.issued[i].open && self.issued[i].object == object && self.issued[i].offset
                == offset {
                return true;
            }
            i += 1;
        }
        false
    }

    /// Where the read passed down under a handle stands.
    fn issued_under(&self, handle: u64) -> (at: Option<usize>)
        ensures
            match at {
                Some(at) => at < self.issued@.len() && self.issued@[at as int].handle == handle,
                None => forall|j: int|
                    0 <= j < self.issued@.len() ==> (#[trigger] self.issued@[j]).handle != handle,
            },
    {
        let mut i: usize = 0;
        while i < self.issued.len()
            invariant
                i <= self.issued@.len(),
                forall|j: int| 0 <= j < i ==> (#[trigger] self.issued@[j]).handle != handle,
            decreases self.issued@.len() - i,
        {
            if self.issued[i].handle == handle {
                return Some(i);
            }
            i += 1;
        }
        None
    }

    /// Everyone who joined a read of this place can be answered now.
    fn release(&mut self, object: ObjectId, offset: u64)
        requires
            old(self).valid(),
        ensures
            final(self).valid(),
            final(self).inner == old(self).inner,
            final(self).entries == old(self).entries,
            final(self).blocks == old(self).blocks,
            final(self).issued == old(self).issued,
            final(self).hits == old(self).hits,
            final(self).joined == old(self).joined,
            final(self).ready@ == old(self).ready@ + sorted_out(
                old(self).waiting@,
                object,
                offset,
                true,
            ),
            final(self).waiting@ == sorted_out(old(self).waiting@, object, offset, false),
    {
        let ghost had = self.waiting@;
        let ghost ready = self.ready@;
        let mut kept: VecDeque<Asked> = VecDeque::new();
        let mut left: usize = self.waiting.len();
        proof {
            assert(had.subrange(0, had.len() as int) =~= had);
            assert(had.take(0) =~= Seq::<Asked>::empty());
            assert(ready =~= ready + sorted_out(had.take(0), object, offset, true));
        }
        while left > 0
            invariant
                self.inner == old(self).inner,
                self.entries == old(self).entries,
                self.blocks == old(self).blocks,
                self.issued == old(self).issued,
                self.hits == old(self).hits,
                self.joined == old(self).joined,
                left <= had.len(),
                self.waiting@ == had.subrange(had.len() - left, had.len() as int),
                kept@ == sorted_out(had.take(had.len() - left), object, offset, false),
                self.ready@ == ready + sorted_out(had.take(had.len() - left), object, offset, true),
            decreases left,
        {
            let ghost at = had.len() - left;
            proof {
                assert(had.take(at + 1).drop_last() =~= had.take(at));
                assert(had.take(at + 1).last() == had[at]);
            }
            match self.waiting.pop_front() {
                None => {},
                Some(owed) => {
                    assert(owed == had[at]);
                    assert(self.waiting@ =~= had.subrange(at + 1, had.len() as int));
                    if owed.1 == object && owed.2 == offset {
                        self.ready.push_back(owed);
                    } else {
                        kept.push_back(owed);
                    }
                },
            }
            left = left - 1;
        }
        self.waiting = kept;
        proof {
            assert(had.take(had.len() as int) =~= had);
            lemma_sorted_out(had, object, offset, true);
            lemma_sorted_out(had, object, offset, false);
            let come = sorted_out(had, object, offset, true);
            assert forall|i: int| 0 <= i < self.ready@.len() implies (
            #[trigger] self.ready@[i]).1.valid() by {
                if i < ready.len() {
                    assert(self.ready@[i] == old(self).ready@[i]);
                } else {
                    assert(self.ready@[i] == come[i - ready.len()]);
                    let one = come[i - ready.len()];
                    assert(had.contains(one));
                }
            }
            assert forall|i: int| 0 <= i < self.waiting@.len() implies (
            #[trigger] self.waiting@[i]).1.valid() by {
                let one = self.waiting@[i];
                assert(had.contains(one));
            }
        }
    }

    /// A refused read names nobody, so nobody may go on waiting on one, and none may be joined.
    fn drop_claims(&mut self)
        requires
            old(self).valid(),
        ensures
            final(self).valid(),
            final(self).inner == old(self).inner,
            final(self).entries == old(self).entries,
            final(self).blocks == old(self).blocks,
            final(self).ready == old(self).ready,
            final(self).hits == old(self).hits,
            final(self).joined == old(self).joined,
            final(self).waiting@.len() == 0,
            final(self).issued@.len() == 0,
    {
        self.waiting = VecDeque::new();
        self.issued = Vec::new();
    }
}

impl<I: DurableStore> DurableStore for Cached<I> {
    closed spec fn wf(&self) -> bool {
        self.valid()
    }

    closed spec fn truthful(&self) -> bool {
        self.inner.truthful()
    }

    closed spec fn written(&self) -> Set<Written> {
        Set::new(
            |w: Written|
                self.inner.written().contains(w) || (self.truthful() && has_block(self.entries@, w)),
        )
    }

    open spec fn stored(&self) -> Set<Written> {
        self.below().stored()
    }

    closed spec fn asked(&self) -> Set<Asked> {
        Set::new(
            |a: Asked|
                self.ready@.contains(a) || self.waiting@.contains(a) || self.inner.asked().contains(a),
        )
    }

    open spec fn writes_inline(&self) -> bool {
        self.below().writes_inline()
    }

    open spec fn counted(&self) -> Option<VolumeStats> {
        match self.below().counted() {
            Some(below) => Some(
                VolumeStats {
                    reads_cached: self.savings().0,
                    reads_joined: self.savings().1,
                    ..below
                },
            ),
            None => None,
        }
    }

    closed spec fn pledged(&self) -> Set<Written> {
        Set::new(
            |w: Written|
                self.inner.pledged().contains(w) || ((owes_place(self.ready@, w.0, w.1) || owes_place(
                    self.waiting@,
                    w.0,
                    w.1,
                )) && self.written().contains(w)) || self.muddled(w.0, w.1),
        )
    }

    open spec fn did(&self, call: Call, reply: Reply, after: &Self) -> bool {
        match call {
            Call::Write { object, .. } | Call::Remove { object, .. } => {
                &&& self.below().did(call, reply, &after.below())
                &&& forgets(self, after, object)
            },
            Call::Rename { from, to, .. } => {
                &&& self.below().did(call, reply, &after.below())
                &&& forgets_both(self, after, from, to)
            },
            Call::Barrier { .. } | Call::PollWritten { .. } | Call::TakeCharge | Call::BlocksIn { .. }
            | Call::HasObject { .. } => {
                &&& self.below().did(call, reply, &after.below())
                &&& same_cache(self, after)
            },
            Call::WritesInflight | Call::WritesAreQueued => self.below().did(call, reply, &self.below()),
            Call::Inflight => exists|below: usize| #[trigger]
                self.below().did(call, Reply::Count(below), &self.below()) && reply == Reply::Count(
                    at_most(self.answerable().len() + below),
                ),
            Call::ReadAt { object, offset, had } => reads_here(self, after, object, offset, had, reply),
            Call::Submit { handle, object, offset, now } => takes_read(
                self,
                after,
                handle,
                object,
                offset,
                now,
                reply,
            ),
            Call::Poll { now, had } => if self.answerable().len() > 0 {
                answers_here(self, after, had, reply)
            } else {
                answers_below(self, after, now, had, reply)
            },
        }
    }

    fn submit_write(
        &mut self,
        handle: u64,
        object: ObjectId,
        offset: u64,
        block: &Block,
        creating: bool,
        now: u64,
    ) -> (taken: bool)
        ensures
            forall|i: int|
                0 <= i < final(self).in_hand().len() ==> (#[trigger] final(self).in_hand()[i]).object
                    != object,
            final(self).in_hand() == without(old(self).in_hand(), object),
            closed_for(final(self).passed_down(), old(self).passed_down(), object),
            final(self).answerable() == old(self).answerable(),
            final(self).joiners() == old(self).joiners(),
            final(self).savings() == old(self).savings(),
    {
        self.forget(object);
        self.inner.submit_write(handle, object, offset, block, creating, now)
    }

    fn submit_barrier(&mut self, handle: u64, now: u64) -> (taken: bool)
        ensures
            same_cache(old(self), final(self)),
    {
        let taken = self.inner.submit_barrier(handle, now);
        proof {
            assert(self.written() =~= old(self).written());
        }
        taken
    }

    fn poll_written(&mut self, now: u64) -> (done: Option<(u64, Result<(), StoreFault>)>)
        ensures
            same_cache(old(self), final(self)),
    {
        let done = self.inner.poll_written(now);
        proof {
            assert(self.written() =~= old(self).written());
        }
        done
    }

    fn writes_inflight(&self) -> (inflight: usize) {
        self.inner.writes_inflight()
    }

    fn writes_are_queued(&self) -> (queued: bool) {
        self.inner.writes_are_queued()
    }

    fn stats(&self) -> (stats: VolumeStats)
        ensures
            (stats.reads_cached, stats.reads_joined) == self.savings(),
            self.below().counted() matches Some(below) ==> stats == (VolumeStats {
                reads_cached: self.savings().0,
                reads_joined: self.savings().1,
                ..below
            }),
    {
        let mut stats = self.inner.stats();
        stats.reads_cached = self.hits;
        stats.reads_joined = self.joined;
        stats
    }

    fn read_at(&mut self, object: ObjectId, offset: u64, into: &mut Block) -> (read: Result<
        (),
        StoreFault,
    >)
        ensures
            has_place(old(self).in_hand(), object, offset) ==> read is Ok && has_block(
                old(self).in_hand(),
                (object, offset, final(into)@),
            ) && final(self).below() == old(self).below() && final(self).savings() == (
                plus(old(self).savings().0, 1),
                old(self).savings().1,
            ),
            !has_place(old(self).in_hand(), object, offset) ==> final(self).savings()
                == old(self).savings(),
            read is Ok && old(self).room() > 0 ==> has_block(
                final(self).in_hand(),
                (object, offset, final(into)@),
            ),
            final(self).answerable() == old(self).answerable(),
            final(self).joiners() == old(self).joiners(),
            final(self).passed_down() == old(self).passed_down(),
            final(self).room() == old(self).room(),
    {
        if self.take_from_cache(object, offset, into) {
            proof {
                assert(has_block(self.entries@, (object, offset, into@)));
                assert(self.written() =~= old(self).written());
                assert(brought(old(self), self, object, offset, old(into)@, Ok(()), into@));
            }
            return Ok(());
        }
        let read = self.inner.read_at(object, offset, into);
        if read.is_ok() {
            self.keep(object, offset, into);
        }
        assert(brought(old(self), self, object, offset, old(into)@, read, into@));
        read
    }

    /// A hit is a completion that is already finished, kept until the caller comes for it: a submit has
    /// nowhere to put bytes.
    fn submit(&mut self, handle: u64, object: ObjectId, offset: u64, now: u64) -> (taken: bool)
        ensures
            final(self).in_hand() == old(self).in_hand(),
            final(self).room() == old(self).room(),
            if has_place(old(self).in_hand(), object, offset) {
                &&& taken
                &&& final(self).below() == old(self).below()
                &&& final(self).answerable() == old(self).answerable().push((handle, object, offset))
                &&& final(self).joiners() == old(self).joiners()
                &&& final(self).passed_down() == old(self).passed_down()
                &&& final(self).savings() == old(self).savings()
            } else if on_its_way(old(self).passed_down(), object, offset) {
                &&& taken
                &&& final(self).below() == old(self).below()
                &&& final(self).answerable() == old(self).answerable()
                &&& final(self).joiners() == old(self).joiners().push((handle, object, offset))
                &&& final(self).passed_down() == old(self).passed_down()
                &&& final(self).savings() == (old(self).savings().0, plus(old(self).savings().1, 1))
            } else {
                &&& final(self).answerable() == old(self).answerable()
                &&& final(self).joiners() == old(self).joiners()
                &&& final(self).passed_down() == if taken {
                    under_others(old(self).passed_down(), handle).push(
                        Issued { handle, object, offset, open: true },
                    )
                } else {
                    old(self).passed_down()
                }
                &&& final(self).savings() == old(self).savings()
            },
    {
        if self.find(object, offset).is_some() {
            self.ready.push_back((handle, object, offset));
            proof {
                lemma_owed_pushed(old(self).ready@, (handle, object, offset));
                assert(self.written() =~= old(self).written());
            }
            return true;
        }
        if self.is_coming(object, offset) {
            self.waiting.push_back((handle, object, offset));
            self.joined = add_count(self.joined, 1);
            proof {
                lemma_owed_pushed(old(self).waiting@, (handle, object, offset));
                assert(self.written() =~= old(self).written());
            }
            return true;
        }
        let taken = self.inner.submit(handle, object, offset, now);
        if !taken {
            proof {
                assert(self.written() =~= old(self).written());
                lemma_muddled(*old(self), *self);
            }
            return false;
        }
        let ghost was = self.issued@;
        match self.issued_under(handle) {
            None => {
                proof {
                    lemma_none_under(was, handle);
                }
            },
            Some(at) => {
                let _ = self.issued.remove(at);
                proof {
                    lemma_one_under(was, handle, at as int);
                }
            },
        }
        let ghost others = self.issued@;
        self.issued.push(Issued { handle, object, offset, open: true });
        proof {
            assert(others == under_others(was, handle));
            lemma_under_others(was, handle);
            assert(self.written() =~= old(self).written());
            self.lemma_passed_down(old(self), handle, object, offset);
            let below = old(self).inner.asked();
            if asks_elsewhere(below, handle, object, offset) {
                let a = choose|a: Asked| #[trigger]
                    below.contains(a) && a.0 == handle && (a.1 != object || a.2 != offset);
                assert(old(self).asked().contains(a));
                assert(asks_elsewhere(old(self).asked(), handle, object, offset));
            }
        }
        true
    }

    fn poll(&mut self, now: u64, into: &mut Block) -> (answered: Option<Result<u64, StoreFault>>)
        ensures
            final(self).room() == old(self).room(),
            old(self).answerable().len() > 0 ==> {
                let (handle, object, offset) = old(self).answerable()[0];
                &&& answered == Some(Ok::<u64, StoreFault>(handle)) || (answered is Some && answered->0 is Err)
                &&& final(self).answerable() == old(self).answerable().drop_first()
                &&& final(self).joiners() == old(self).joiners()
                &&& final(self).passed_down() == old(self).passed_down()
                &&& has_place(old(self).in_hand(), object, offset) ==> answered is Some && answered->0 is Ok
                    && has_block(old(self).in_hand(), (object, offset, final(into)@))
                    && final(self).below() == old(self).below()
                &&& answered is Some && answered->0 is Ok && old(self).room() > 0 ==> has_block(
                    final(self).in_hand(),
                    (object, offset, final(into)@),
                )
            },
            old(self).answerable().len() == 0 ==> match answered {
                None => {
                    &&& final(self).in_hand() == old(self).in_hand()
                    &&& final(self).answerable() == old(self).answerable()
                    &&& final(self).joiners() == old(self).joiners()
                    &&& final(self).passed_down() == old(self).passed_down()
                },
                Some(Err(_)) => {
                    &&& final(self).in_hand() == old(self).in_hand()
                    &&& final(self).answerable() == old(self).answerable()
                    &&& final(self).joiners().len() == 0
                    &&& final(self).passed_down().len() == 0
                },
                Some(Ok(handle)) => if is_issued(old(self).passed_down(), handle) {
                    answers_one(old(self), final(self), handle, final(into)@)
                } else {
                    same_cache(old(self), final(self))
                },
            },
    {
        if self.ready.len() == 0 {
            return self.poll_below(now, into);
        }
        match self.ready.pop_front() {
            None => None,
            Some((handle, object, offset)) => {
                proof {
                    let was = old(self).ready@;
                    assert(was[0] == (handle, object, offset));
                    assert(was.contains(was[0]));
                    assert(owes_place(was, object, offset));
                    assert(old(self).asked().contains((handle, object, offset)));
                    lemma_owed_popped(was);
                }
                let ghost popped = *self;
                assert(popped.written() =~= old(self).written());
                if self.take_from_cache(object, offset, into) {
                    proof {
                        assert(has_block(self.entries@, (object, offset, into@)));
                        assert(self.written() =~= old(self).written());
                        if old(self).truthful() {
                            assert(old(self).pledged().contains((object, offset, into@)));
                        }
                        assert(self.ready@ =~= old(self).ready@.drop_first());
                        assert(brought(old(self), self, object, offset, old(into)@, Ok(()), into@));
                    }
                    return Some(Ok(handle));
                }
                let read = self.inner.read_at(object, offset, into);
                assert(popped.below().did(
                    Call::ReadAt { object, offset, had: old(into)@ },
                    Reply::Read(read, into@),
                    &self.below(),
                ));
                assert(self.ready@ =~= old(self).ready@.drop_first());
                match read {
                    Err(fault) => {
                        assert(brought(old(self), self, object, offset, old(into)@, read, into@));
                        Some(Err(fault))
                    },
                    Ok(()) => {
                        self.keep(object, offset, into);
                        proof {
                            if old(self).truthful() {
                                assert(old(self).written().contains((object, offset, into@)));
                                assert(old(self).pledged().contains((object, offset, into@)));
                            }
                            assert(brought(old(self), self, object, offset, old(into)@, read, into@));
                        }
                        Some(Ok(handle))
                    },
                }
            },
        }
    }

    fn inflight(&self) -> (inflight: usize) {
        let below: usize = self.inner.inflight();
        assert(self.below().did(Call::Inflight, Reply::Count(below), &self.below()));
        let ready: usize = self.ready.len();
        if below <= usize::MAX - ready {
            ready + below
        } else {
            usize::MAX
        }
    }

    fn take_charge(&mut self) -> (charge: u64)
        ensures
            same_cache(old(self), final(self)),
    {
        let charge: u64 = self.inner.take_charge();
        proof {
            assert(self.written() =~= old(self).written());
        }
        charge
    }

    fn submit_remove(&mut self, handle: u64, object: ObjectId, now: u64) -> (taken: bool)
        ensures
            forall|i: int|
                0 <= i < final(self).in_hand().len() ==> (#[trigger] final(self).in_hand()[i]).object
                    != object,
            final(self).in_hand() == without(old(self).in_hand(), object),
            closed_for(final(self).passed_down(), old(self).passed_down(), object),
            final(self).answerable() == old(self).answerable(),
            final(self).joiners() == old(self).joiners(),
            final(self).savings() == old(self).savings(),
    {
        self.forget(object);
        self.inner.submit_remove(handle, object, now)
    }

    fn submit_rename(&mut self, handle: u64, from: ObjectId, to: ObjectId, now: u64) -> (taken: bool)
        ensures
            forall|i: int|
                0 <= i < final(self).in_hand().len() ==> (#[trigger] final(self).in_hand()[i]).object
                    != from && final(self).in_hand()[i].object != to,
            final(self).in_hand() == without(without(old(self).in_hand(), from), to),
            final(self).answerable() == old(self).answerable(),
            final(self).joiners() == old(self).joiners(),
            final(self).savings() == old(self).savings(),
    {
        self.forget(from);
        let ghost kept = self.entries@;
        let ghost between = *self;
        self.forget(to);
        proof {
            let now_held = self.entries@;
            assert forall|i: int| 0 <= i < now_held.len() implies (#[trigger] now_held[i]).object != from by {
                let w = (now_held[i].object, now_held[i].offset, now_held[i].block@);
                assert(has_block(now_held, w));
                assert(has_block(kept, w));
            }
        }
        let taken = self.inner.submit_rename(handle, from, to, now);
        assert(old(self).below().did(
            Call::Rename { handle, from, to, now },
            Reply::Flag(taken),
            &self.below(),
        ));
        assert(forgets(old(self), &between, from) && forgets(&between, self, to));
        assert(forgets_both(old(self), self, from, to));
        taken
    }

    fn blocks_in(&mut self, object: ObjectId) -> (blocks: u64)
        ensures
            same_cache(old(self), final(self)),
    {
        self.inner.blocks_in(object)
    }

    fn has_object(&mut self, object: ObjectId) -> (there: bool)
        ensures
            same_cache(old(self), final(self)),
    {
        let there = self.inner.has_object(object);
        proof {
            assert(self.written() =~= old(self).written());
        }
        there
    }
}

impl<I: DurableStore> Cached<I> {
    /// A read passed down under a handle that no other place's read is on its way under muddles nothing.
    proof fn lemma_passed_down(&self, was: &Self, handle: u64, object: ObjectId, offset: u64)
        requires
            self.issued@ == under_others(was.issued@, handle).push(
                Issued { handle, object, offset, open: true },
            ),
            one_a_handle(was.issued@),
            forall|a: Asked| #[trigger]
                self.inner.asked().contains(a) ==> was.inner.asked().contains(a) || a == (
                    handle,
                    object,
                    offset,
                ),
        ensures
            one_a_handle(self.issued@),
            !asks_elsewhere(was.inner.asked(), handle, object, offset) ==> forall|o: ObjectId, f: u64|
                #[trigger]
                self.muddled(o, f) ==> was.muddled(o, f),
    {
        lemma_under_others(was.issued@, handle);
        let others = under_others(was.issued@, handle);
        let all = self.issued@;
        assert forall|i: int, j: int| 0 <= i < j < all.len() implies (#[trigger] all[i]).handle != (
        #[trigger] all[j]).handle by {
            assert(all[i] == others[i]);
            if j < others.len() {
                assert(all[j] == others[j]);
            }
        }
        if !asks_elsewhere(was.inner.asked(), handle, object, offset) {
            assert forall|o: ObjectId, f: u64| #[trigger] self.muddled(o, f) implies was.muddled(o, f) by {
                let (i, a) = choose|i: int, a: Asked|
                    #![trigger self.issued@[i], self.inner.asked().contains(a)]
                    0 <= i < self.issued@.len() && self.issued@[i].open && self.issued@[i].object == o
                        && self.issued@[i].offset == f && self.inner.asked().contains(a) && a.0
                        == self.issued@[i].handle && (a.1 != o || a.2 != f);
                if i < others.len() {
                    let one = others[i];
                    assert(all[i] == one);
                    assert(was.issued@.contains(one));
                    let j = choose|j: int| 0 <= j < was.issued@.len() && was.issued@[j] == one;
                    assert(was.issued@[j].open && was.inner.asked().contains(a));
                } else {
                    assert(was.inner.asked().contains(a));
                }
            }
        }
    }

    /// The next read finished below. Everyone who joined it is answerable from the block it brought back.
    fn poll_below(&mut self, now: u64, into: &mut Block) -> (answered: Option<Result<u64, StoreFault>>)
        requires
            old(self).valid(),
        ensures
            final(self).valid(),
            final(self).blocks == old(self).blocks,
            final(self).truthful() == old(self).truthful(),
            forall|w: Written| #[trigger]
                final(self).written().contains(w) ==> old(self).written().contains(w)
                    || old(self).pledged().contains(w),
            final(self).asked().subset_of(old(self).asked()),
            final(self).pledged().subset_of(old(self).pledged()),
            old(self).truthful() ==> (answered matches Some(Ok(handle)) ==> is_answer(
                old(self).asked(),
                old(self).pledged(),
                handle,
                final(into)@,
            )),
            answered is None ==> final(self).entries@ == old(self).entries@ && final(self).ready@
                == old(self).ready@ && final(self).waiting@ == old(self).waiting@
                && final(self).issued@ == old(self).issued@,
            answered is Some && answered->0 is Err ==> final(self).entries@ == old(self).entries@
                && final(self).ready@ == old(self).ready@ && final(self).waiting@.len() == 0
                && final(self).issued@.len() == 0,
            answered matches Some(Ok(handle)) ==> if is_issued(old(self).passed_down(), handle) {
                answers_one(old(self), final(self), handle, final(into)@)
            } else {
                same_cache(old(self), final(self))
            },
            answers_below(
                old(self),
                final(self),
                now,
                old(into)@,
                Reply::Polled(answered, final(into)@),
            ),
    {
        let polled = self.inner.poll(now, into);
        let ghost bytes = into@;
        let ghost asked_below = old(self).inner.asked();
        let ghost pledged_below = old(self).inner.pledged();
        let answered = match polled {
            None => {
                proof {
                    lemma_muddled(*old(self), *self);
                    assert(answers_as(old(self), self, polled, bytes, Reply::Polled(None, into@)));
                }
                None
            },
            Some(Err(fault)) => {
                self.drop_claims();
                proof {
                    lemma_muddled(*old(self), *self);
                    assert(answers_as(old(self), self, polled, bytes, Reply::Polled(polled, into@)));
                }
                Some(Err(fault))
            },
            Some(Ok(handle)) => {
                proof {
                    if old(self).truthful() {
                        let (o, f) = choose|o: ObjectId, f: u64| #[trigger]
                            asked_below.contains((handle, o, f)) && pledged_below.contains((o, f, into@));
                        assert(old(self).asked().contains((handle, o, f)) && old(
                            self,
                        ).pledged().contains((o, f, into@)));
                        assert(is_answer(old(self).asked(), old(self).pledged(), handle, into@));
                    }
                }
                match self.issued_under(handle) {
                    None => {
                        assert(!is_issued(old(self).passed_down(), handle));
                        assert(answers_as(old(self), self, polled, bytes, Reply::Polled(polled, into@)));
                        Some(Ok(handle))
                    },
                    Some(at) => {
                        let issued = self.issued.remove(at);
                        let (object, offset) = (issued.object, issued.offset);
                        let ghost was = old(self).issued@;
                        let ghost left = self.issued@;
                        proof {
                            assert forall|j: int| 0 <= j < left.len() implies was.contains(
                                #[trigger] left[j],
                            ) by {
                                if j < at {
                                    assert(left[j] == was[j]);
                                } else {
                                    assert(left[j] == was[j + 1]);
                                }
                            }
                            if self.truthful() && issued.open {
                                let (o, f) = choose|o: ObjectId, f: u64| #[trigger]
                                    asked_below.contains((handle, o, f)) && pledged_below.contains(
                                        (o, f, into@),
                                    );
                                assert(asked_below.contains((handle, o, f)));
                                assert(was[at as int].handle == handle);
                                if !(o == object && f == offset) {
                                    assert(old(self).muddled(object, offset));
                                }
                                assert(old(self).pledged().contains((object, offset, into@)));
                            }
                        }
                        let ghost removed = *self;
                        if issued.open {
                            self.keep(object, offset, into);
                        }
                        let ghost held = *self;
                        self.release(object, offset);
                        proof {
                            lemma_answered(*old(self), removed, held, *self, at as int, into@);
                            assert(old(self).passed_down()[at as int].handle == handle);
                            assert(answers(old(self), self, at as int, handle, into@));
                            assert(answers_one(old(self), self, handle, into@));
                            assert(answers_as(
                                old(self),
                                self,
                                polled,
                                bytes,
                                Reply::Polled(Some(Ok(handle)), into@),
                            ));
                        }
                        Some(Ok(handle))
                    },
                }
            },
        };
        proof {
            assert(old(self).below().did(
                Call::Poll { now, had: old(into)@ },
                Reply::Polled(polled, bytes),
                &self.below(),
            ));
            assert(answers_as(old(self), self, polled, bytes, Reply::Polled(answered, into@)));
        }
        answered
    }
}

/// One object's blocks are no longer in hand, and its reads on their way are closed. Only the store below
/// may have moved on too.
pub open spec fn forgets<I: DurableStore>(was: &Cached<I>, now: &Cached<I>, object: ObjectId) -> bool {
    &&& now.in_hand() == without(was.in_hand(), object)
    &&& closed_for(now.passed_down(), was.passed_down(), object)
    &&& now.room() == was.room()
    &&& now.answerable() == was.answerable()
    &&& now.joiners() == was.joiners()
    &&& now.savings() == was.savings()
}

/// Two objects were forgotten, one after the other.
pub open spec fn forgets_both<I: DurableStore>(
    was: &Cached<I>,
    now: &Cached<I>,
    one: ObjectId,
    other: ObjectId,
) -> bool {
    exists|between: Cached<I>| #[trigger] forgets(was, &between, one) && forgets(&between, now, other)
}

/// A block was read: from those in hand where it is one, and it is then the last to leave them; else from
/// the store below, and kept where there is room for any.
pub open spec fn brought<I: DurableStore>(
    was: &Cached<I>,
    now: &Cached<I>,
    object: ObjectId,
    offset: u64,
    had: Seq<u8>,
    read: Result<(), StoreFault>,
    bytes: Seq<u8>,
) -> bool {
    &&& now.room() == was.room()
    &&& now.joiners() == was.joiners()
    &&& now.passed_down() == was.passed_down()
    &&& if has_place(was.in_hand(), object, offset) {
        &&& read is Ok
        &&& exists|at: int| #[trigger]
            is_place(was.in_hand(), at, object, offset) && now.in_hand() == read_again(
                was.in_hand(),
                at,
            ) && bytes == was.in_hand()[at].block@
        &&& now.below() == was.below()
        &&& now.savings() == (plus(was.savings().0, 1), was.savings().1)
    } else {
        &&& was.below().did(
            Call::ReadAt { object, offset, had },
            Reply::Read(read, bytes),
            &now.below(),
        )
        &&& now.savings() == was.savings()
        &&& if read is Ok {
            kept_last(was.in_hand(), now.in_hand(), was.room(), object, offset, bytes)
        } else {
            now.in_hand() == was.in_hand()
        }
    }
}

/// What a read on the calling thread comes to.
pub open spec fn reads_here<I: DurableStore>(
    was: &Cached<I>,
    now: &Cached<I>,
    object: ObjectId,
    offset: u64,
    had: Seq<u8>,
    reply: Reply,
) -> bool {
    &&& now.answerable() == was.answerable()
    &&& exists|read: Result<(), StoreFault>, bytes: Seq<u8>| #[trigger]
        brought(was, now, object, offset, had, read, bytes) && reply == Reply::Read(read, bytes)
}

/// What taking a read comes to: answerable where its block is in hand, waiting where its block is on its
/// way, and otherwise passed down under its handle, which from then on names this read and no other.
pub open spec fn takes_read<I: DurableStore>(
    was: &Cached<I>,
    after: &Cached<I>,
    handle: u64,
    object: ObjectId,
    offset: u64,
    now: u64,
    reply: Reply,
) -> bool {
    &&& after.in_hand() == was.in_hand()
    &&& after.room() == was.room()
    &&& if has_place(was.in_hand(), object, offset) {
        &&& reply == Reply::Flag(true)
        &&& after.below() == was.below()
        &&& after.answerable() == was.answerable().push((handle, object, offset))
        &&& after.joiners() == was.joiners()
        &&& after.passed_down() == was.passed_down()
        &&& after.savings() == was.savings()
    } else if on_its_way(was.passed_down(), object, offset) {
        &&& reply == Reply::Flag(true)
        &&& after.below() == was.below()
        &&& after.answerable() == was.answerable()
        &&& after.joiners() == was.joiners().push((handle, object, offset))
        &&& after.passed_down() == was.passed_down()
        &&& after.savings() == (was.savings().0, plus(was.savings().1, 1))
    } else {
        &&& was.below().did(Call::Submit { handle, object, offset, now }, reply, &after.below())
        &&& after.answerable() == was.answerable()
        &&& after.joiners() == was.joiners()
        &&& after.passed_down() == if reply == Reply::Flag(true) {
            under_others(was.passed_down(), handle).push(
                Issued { handle, object, offset, open: true },
            )
        } else {
            was.passed_down()
        }
        &&& after.savings() == was.savings()
    }
}

/// The oldest read that can be answered without going down was answered.
pub open spec fn answers_here<I: DurableStore>(
    was: &Cached<I>,
    now: &Cached<I>,
    had: Seq<u8>,
    reply: Reply,
) -> bool {
    let (handle, object, offset) = was.answerable()[0];
    &&& now.answerable() == was.answerable().drop_first()
    &&& exists|read: Result<(), StoreFault>, bytes: Seq<u8>| #[trigger]
        brought(was, now, object, offset, had, read, bytes) && reply == Reply::Polled(
            Some(
                match read {
                    Ok(_) => Ok(handle),
                    Err(fault) => Err(fault),
                },
            ),
            bytes,
        )
}

/// The store below was polled. A fault drops every claim on a read on its way; an answer to a read passed
/// down answers it; and an answer to any other is handed up.
pub open spec fn answers_below<I: DurableStore>(
    was: &Cached<I>,
    after: &Cached<I>,
    now: u64,
    had: Seq<u8>,
    reply: Reply,
) -> bool {
    exists|polled: Option<Result<u64, StoreFault>>, bytes: Seq<u8>| #[trigger]
        was.below().did(Call::Poll { now, had }, Reply::Polled(polled, bytes), &after.below())
            && answers_as(was, after, polled, bytes, reply)
}

/// The same, with what the store below answered known.
pub open spec fn answers_as<I: DurableStore>(
    was: &Cached<I>,
    after: &Cached<I>,
    polled: Option<Result<u64, StoreFault>>,
    bytes: Seq<u8>,
    reply: Reply,
) -> bool {
    match polled {
        None => reply == Reply::Polled(None, bytes) && same_cache(was, after),
        Some(Err(fault)) => {
            &&& reply == Reply::Polled(Some(Err(fault)), bytes)
            &&& after.in_hand() == was.in_hand()
            &&& after.room() == was.room()
            &&& after.answerable() == was.answerable()
            &&& after.joiners().len() == 0
            &&& after.passed_down().len() == 0
            &&& after.savings() == was.savings()
        },
        Some(Ok(handle)) => if is_issued(was.passed_down(), handle) {
            &&& after.room() == was.room()
            &&& after.savings() == was.savings()
            &&& answers_one(was, after, handle, bytes)
            &&& reply == Reply::Polled(polled, bytes)
        } else {
            reply == Reply::Polled(polled, bytes) && same_cache(was, after)
        },
    }
}

/// A read went down under this handle and is not answered.
pub open spec fn is_issued(issued: Seq<Issued>, handle: u64) -> bool {
    exists|i: int| 0 <= i < issued.len() && (#[trigger] issued[i]).handle == handle
}

/// The cache is as it was: only the store below it may have moved on.
pub open spec fn same_cache<I: DurableStore>(was: &Cached<I>, now: &Cached<I>) -> bool {
    &&& now.in_hand() == was.in_hand()
    &&& now.room() == was.room()
    &&& now.answerable() == was.answerable()
    &&& now.passed_down() == was.passed_down()
    &&& now.joiners() == was.joiners()
    &&& now.savings() == was.savings()
}

/// One read passed down was answered: it leaves, its block is in hand if it was still worth keeping, and
/// everyone who joined it can be answered, behind nobody who waits on another block.
pub open spec fn answers<I: DurableStore>(
    was: &Cached<I>,
    now: &Cached<I>,
    i: int,
    handle: u64,
    bytes: Seq<u8>,
) -> bool {
    let issued = was.passed_down()[i];
    &&& 0 <= i < was.passed_down().len()
    &&& handle == issued.handle
    &&& now.passed_down() == was.passed_down().remove(i)
    &&& now.answerable() == was.answerable() + sorted_out(
        was.joiners(),
        issued.object,
        issued.offset,
        true,
    )
    &&& now.joiners() == sorted_out(was.joiners(), issued.object, issued.offset, false)
    &&& if issued.open {
        kept_last(
            was.in_hand(),
            now.in_hand(),
            was.room(),
            issued.object,
            issued.offset,
            bytes,
        )
    } else {
        now.in_hand() == was.in_hand()
    }
}

/// Some read passed down was answered, under this handle.
pub open spec fn answers_one<I: DurableStore>(
    was: &Cached<I>,
    now: &Cached<I>,
    handle: u64,
    bytes: Seq<u8>,
) -> bool {
    exists|i: int| #[trigger] answers(was, now, i, handle, bytes)
}

/// The entries kept are those of the first few that are not the object's, in their order.
spec fn picked(
    kept: Seq<Entry>,
    had: Seq<Entry>,
    from: Seq<int>,
    n: int,
    object: ObjectId,
) -> bool {
    &&& kept.len() == from.len()
    &&& forall|i: int|
        0 <= i < kept.len() ==> 0 <= #[trigger] from[i] < n && kept[i] == had[from[i]]
            && kept[i].object != object
    &&& forall|i: int, j: int| 0 <= i < j < kept.len() ==> #[trigger] from[i] < #[trigger] from[j]
    &&& forall|m: int|
        0 <= m < n && (#[trigger] had[m]).object != object ==> exists|i: int|
            0 <= i < from.len() && #[trigger] from[i] == m
}

proof fn lemma_picked(
    kept: Seq<Entry>,
    had: Seq<Entry>,
    from: Seq<int>,
    n: int,
    object: ObjectId,
    entry: Entry,
)
    requires
        picked(kept, had, from, n, object),
        0 <= n < had.len(),
        entry == had[n],
    ensures
        entry.object != object ==> picked(kept.push(entry), had, from.push(n), n + 1, object),
        entry.object == object ==> picked(kept, had, from, n + 1, object),
{
    if entry.object != object {
        let more = from.push(n);
        assert forall|m: int| 0 <= m < n + 1 && (#[trigger] had[m]).object != object implies exists|i: int|
            0 <= i < more.len() && #[trigger] more[i] == m by {
            if m < n {
                let i = choose|i: int| 0 <= i < from.len() && #[trigger] from[i] == m;
                assert(more[i] == m);
            } else {
                assert(more[from.len() as int] == m);
            }
        }
        assert forall|i: int| 0 <= i < more.len() implies 0 <= #[trigger] more[i] < n + 1 && kept.push(
            entry,
        )[i] == had[more[i]] && kept.push(entry)[i].object != object by {
            if i < from.len() {
                assert(more[i] == from[i]);
            }
        }
        assert forall|i: int, j: int| 0 <= i < j < more.len() implies #[trigger] more[i]
            < #[trigger] more[j] by {
            assert(more[i] == from[i]);
            if j < from.len() {
                assert(more[j] == from[j]);
            }
        }
    }
}

proof fn lemma_picked_all(kept: Seq<Entry>, had: Seq<Entry>, from: Seq<int>, object: ObjectId)
    requires
        picked(kept, had, from, had.len() as int, object),
        one_each(had),
    ensures
        one_each(kept),
        kept.len() <= had.len(),
        forall|i: int| 0 <= i < kept.len() ==> (#[trigger] kept[i]).object != object,
        forall|w: Written| #[trigger]
            has_block(kept, w) == (has_block(had, w) && w.0 != object),
{
    assert forall|i: int, j: int| 0 <= i < j < kept.len() implies !((#[trigger] kept[i]).object == (
    #[trigger] kept[j]).object && kept[i].offset == kept[j].offset) by {
        assert(from[i] < from[j]);
        assert(kept[i] == had[from[i]] && kept[j] == had[from[j]]);
    }
    assert forall|i: int| 0 <= i < kept.len() implies (#[trigger] kept[i]).object != object by {
        assert(kept[i] == had[from[i]]);
    }
    assert forall|w: Written| #[trigger] has_block(kept, w) == (has_block(had, w) && w.0 != object) by {
        if has_block(kept, w) {
            let i = choose|i: int|
                0 <= i < kept.len() && (#[trigger] kept[i]).object == w.0 && kept[i].offset == w.1
                    && kept[i].block@ == w.2;
            assert(had[from[i]].object == w.0);
        }
        if has_block(had, w) && w.0 != object {
            let m = choose|m: int|
                0 <= m < had.len() && (#[trigger] had[m]).object == w.0 && had[m].offset == w.1
                    && had[m].block@ == w.2;
            let i = choose|i: int| 0 <= i < from.len() && #[trigger] from[i] == m;
            assert(kept[i] == had[from[i]]);
        }
    }
    lemma_increasing(from, had.len() as int);
}

proof fn lemma_owed_pushed(owed: Seq<Asked>, one: Asked)
    ensures
        forall|a: Asked| #[trigger] owed.push(one).contains(a) == (owed.contains(a) || a == one),
        forall|object: ObjectId, offset: u64| #[trigger]
            owes_place(owed.push(one), object, offset) == (owes_place(owed, object, offset) || (one.1
                == object && one.2 == offset)),
{
    let more = owed.push(one);
    assert forall|a: Asked| #[trigger] more.contains(a) == (owed.contains(a) || a == one) by {
        if owed.contains(a) {
            let i = choose|i: int| 0 <= i < owed.len() && owed[i] == a;
            assert(more[i] == a);
        }
        if a == one {
            assert(more[owed.len() as int] == a);
        }
        if more.contains(a) {
            let i = choose|i: int| 0 <= i < more.len() && more[i] == a;
            if i < owed.len() {
                assert(owed[i] == a);
            }
        }
    }
    assert forall|object: ObjectId, offset: u64| #[trigger] owes_place(more, object, offset) == (
    owes_place(owed, object, offset) || (one.1 == object && one.2 == offset)) by {
        if owes_place(owed, object, offset) {
            let i = choose|i: int|
                0 <= i < owed.len() && (#[trigger] owed[i]).1 == object && owed[i].2 == offset;
            assert(more[i].1 == object);
        }
        if one.1 == object && one.2 == offset {
            assert(more[owed.len() as int].1 == object);
        }
        if owes_place(more, object, offset) {
            let i = choose|i: int|
                0 <= i < more.len() && (#[trigger] more[i]).1 == object && more[i].2 == offset;
            if i < owed.len() {
                assert(owed[i].1 == object);
            }
        }
    }
}

proof fn lemma_owed_popped(owed: Seq<Asked>)
    requires
        owed.len() > 0,
    ensures
        forall|a: Asked| #[trigger] owed.drop_first().contains(a) ==> owed.contains(a),
        forall|object: ObjectId, offset: u64| #[trigger]
            owes_place(owed.drop_first(), object, offset) ==> owes_place(owed, object, offset),
        forall|i: int| 0 <= i < owed.len() - 1 ==> #[trigger] owed.drop_first()[i] == owed[i + 1],
{
    let rest = owed.drop_first();
    assert forall|a: Asked| #[trigger] rest.contains(a) implies owed.contains(a) by {
        let i = choose|i: int| 0 <= i < rest.len() && rest[i] == a;
        assert(owed[i + 1] == a);
    }
    assert forall|object: ObjectId, offset: u64| #[trigger]
        owes_place(rest, object, offset) implies owes_place(owed, object, offset) by {
        let i = choose|i: int|
            0 <= i < rest.len() && (#[trigger] rest[i]).1 == object && rest[i].2 == offset;
        assert(owed[i + 1].1 == object);
    }
}

/// What is owed at a place, once those joined to a read of it have been let go, was owed before.
proof fn lemma_released(waiting: Seq<Asked>, object: ObjectId, offset: u64, there: bool)
    ensures
        forall|a: Asked| #[trigger]
            sorted_out(waiting, object, offset, there).contains(a) ==> waiting.contains(a),
        forall|o: ObjectId, f: u64| #[trigger]
            owes_place(sorted_out(waiting, object, offset, there), o, f) ==> owes_place(waiting, o, f),
{
    lemma_sorted_out(waiting, object, offset, there);
    let part = sorted_out(waiting, object, offset, there);
    assert forall|a: Asked| #[trigger] part.contains(a) implies waiting.contains(a) by {
        let i = choose|i: int| 0 <= i < part.len() && part[i] == a;
        assert(waiting.contains(part[i]));
    }
    assert forall|o: ObjectId, f: u64| #[trigger] owes_place(part, o, f) implies owes_place(
        waiting,
        o,
        f,
    ) by {
        let i = choose|i: int| 0 <= i < part.len() && (#[trigger] part[i]).1 == o && part[i].2 == f;
        let one = part[i];
        assert(waiting.contains(one));
        let j = choose|j: int| 0 <= j < waiting.len() && waiting[j] == one;
        assert(waiting[j].1 == o);
    }
}

proof fn lemma_joined_owed(ready: Seq<Asked>, come: Seq<Asked>)
    ensures
        forall|a: Asked| #[trigger] (ready + come).contains(a) ==> ready.contains(a) || come.contains(a),
        forall|o: ObjectId, f: u64| #[trigger]
            owes_place(ready + come, o, f) ==> owes_place(ready, o, f) || owes_place(come, o, f),
{
    let all = ready + come;
    assert forall|a: Asked| #[trigger] all.contains(a) implies ready.contains(a) || come.contains(a) by {
        let i = choose|i: int| 0 <= i < all.len() && all[i] == a;
        if i < ready.len() {
            assert(ready[i] == a);
        } else {
            assert(come[i - ready.len()] == a);
        }
    }
    assert forall|o: ObjectId, f: u64| #[trigger] owes_place(all, o, f) implies owes_place(ready, o, f)
        || owes_place(come, o, f) by {
        let i = choose|i: int| 0 <= i < all.len() && (#[trigger] all[i]).1 == o && all[i].2 == f;
        if i < ready.len() {
            assert(ready[i].1 == o);
        } else {
            assert(come[i - ready.len()].1 == o);
        }
    }
}

/// Fewer reads on their way are no more muddled.
proof fn lemma_muddled<I: DurableStore>(was: Cached<I>, now: Cached<I>)
    requires
        now.inner.asked().subset_of(was.inner.asked()) || forall|a: Asked| #[trigger]
            now.inner.asked().contains(a) ==> was.inner.asked().contains(a),
        forall|i: int|
            0 <= i < now.issued@.len() && (#[trigger] now.issued@[i]).open ==> was.issued@.contains(
                now.issued@[i],
            ),
    ensures
        forall|object: ObjectId, offset: u64| #[trigger]
            now.muddled(object, offset) ==> was.muddled(object, offset),
{
    assert forall|object: ObjectId, offset: u64| #[trigger] now.muddled(object, offset) implies was.muddled(
        object,
        offset,
    ) by {
        let (i, a) = choose|i: int, a: Asked|
            #![trigger now.issued@[i], now.inner.asked().contains(a)]
            0 <= i < now.issued@.len() && now.issued@[i].open && now.issued@[i].object == object
                && now.issued@[i].offset == offset && now.inner.asked().contains(a) && a.0
                == now.issued@[i].handle && (a.1 != object || a.2 != offset);
        let one = now.issued@[i];
        assert(was.issued@.contains(one));
        let j = choose|j: int| 0 <= j < was.issued@.len() && was.issued@[j] == one;
        assert(was.issued@[j].open && was.inner.asked().contains(a));
    }
}

/// Where no read went down under a handle, those under every other are all of them.
proof fn lemma_none_under(issued: Seq<Issued>, handle: u64)
    requires
        !is_issued(issued, handle),
    ensures
        under_others(issued, handle) == issued,
    decreases issued.len(),
{
    if issued.len() > 0 {
        let rest = issued.drop_last();
        assert(issued[issued.len() - 1].handle != handle);
        assert forall|i: int| 0 <= i < rest.len() implies (#[trigger] rest[i]).handle != handle by {
            assert(issued[i] == rest[i]);
        }
        lemma_none_under(rest, handle);
        assert(rest.push(issued.last()) =~= issued);
    } else {
        assert(issued =~= Seq::empty());
    }
}

/// Where one read went down under a handle, those under every other are all but it.
proof fn lemma_one_under(issued: Seq<Issued>, handle: u64, at: int)
    requires
        0 <= at < issued.len(),
        issued[at].handle == handle,
        one_a_handle(issued),
    ensures
        under_others(issued, handle) == issued.remove(at),
    decreases issued.len(),
{
    let rest = issued.drop_last();
    assert forall|i: int, j: int| 0 <= i < j < rest.len() implies (#[trigger] rest[i]).handle != (
    #[trigger] rest[j]).handle by {
        assert(issued[i] == rest[i] && issued[j] == rest[j]);
    }
    if at == issued.len() - 1 {
        assert forall|i: int| 0 <= i < rest.len() implies (#[trigger] rest[i]).handle != handle by {
            assert(issued[i] == rest[i]);
            assert(issued[at].handle != issued[i].handle);
        }
        lemma_none_under(rest, handle);
        assert(rest =~= issued.remove(at));
    } else {
        assert(rest[at] == issued[at]);
        lemma_one_under(rest, handle, at);
        assert(issued[issued.len() - 1].handle != issued[at].handle);
        assert(rest.remove(at).push(issued.last()) =~= issued.remove(at));
    }
}

/// The reads under every other handle are some of those there were, and none is under this one.
proof fn lemma_under_others(issued: Seq<Issued>, handle: u64)
    requires
        one_a_handle(issued),
    ensures
        one_a_handle(under_others(issued, handle)),
        forall|i: int|
            0 <= i < under_others(issued, handle).len() ==> {
                &&& issued.contains(#[trigger] under_others(issued, handle)[i])
                &&& under_others(issued, handle)[i].handle != handle
            },
    decreases issued.len(),
{
    if issued.len() > 0 {
        let rest = issued.drop_last();
        assert forall|i: int, j: int| 0 <= i < j < rest.len() implies (#[trigger] rest[i]).handle != (
        #[trigger] rest[j]).handle by {
            assert(issued[i] == rest[i] && issued[j] == rest[j]);
        }
        lemma_under_others(rest, handle);
        let some = under_others(rest, handle);
        let all = under_others(issued, handle);
        assert forall|i: int| 0 <= i < some.len() implies issued.contains(#[trigger] some[i]) && some[i].handle
            != issued.last().handle by {
            let one = some[i];
            assert(rest.contains(one));
            let j = choose|j: int| 0 <= j < rest.len() && rest[j] == one;
            assert(issued[j] == one);
            assert(issued[j].handle != issued[issued.len() - 1].handle);
        }
        assert forall|i: int| 0 <= i < all.len() implies {
            &&& issued.contains(#[trigger] all[i])
            &&& all[i].handle != handle
        } by {
            if i < some.len() {
                assert(all[i] == some[i]);
            } else {
                assert(issued[issued.len() - 1] == all[i]);
            }
        }
        assert forall|i: int, j: int| 0 <= i < j < all.len() implies (#[trigger] all[i]).handle != (
        #[trigger] all[j]).handle by {
            assert(all[i] == some[i]);
            if j < some.len() {
                assert(all[j] == some[j]);
            }
        }
    }
}

/// A handle names one read passed down, so that an answer to it can be matched to its block.
pub proof fn law_a_handle_names_one_read<I: DurableStore>(cached: Cached<I>)
    requires
        cached.wf(),
    ensures
        one_a_handle(cached.passed_down()),
{
}

/// What an answered read leaves behind was there before, or was pledged.
proof fn lemma_answered<I: DurableStore>(
    was: Cached<I>,
    removed: Cached<I>,
    held: Cached<I>,
    now: Cached<I>,
    at: int,
    bytes: Seq<u8>,
)
    requires
        0 <= at < was.issued@.len(),
        removed.entries == was.entries,
        removed.issued@ == was.issued@.remove(at),
        removed.ready == was.ready,
        removed.waiting == was.waiting,
        removed.inner.truthful() == was.inner.truthful(),
        removed.inner.asked().subset_of(was.inner.asked()),
        forall|w: Written| #[trigger]
            removed.inner.written().contains(w) ==> was.inner.written().contains(w)
                || was.inner.pledged().contains(w),
        removed.inner.pledged().subset_of(was.inner.pledged()),
        held.inner == removed.inner,
        held.issued == removed.issued,
        held.ready == removed.ready,
        held.waiting == removed.waiting,
        forall|w: Written| #[trigger]
            has_block(held.entries@, w) ==> has_block(removed.entries@, w) || (was.issued@[at].open && w
                == (was.issued@[at].object, was.issued@[at].offset, bytes)),
        was.truthful() && was.issued@[at].open ==> was.pledged().contains(
            (was.issued@[at].object, was.issued@[at].offset, bytes),
        ),
        now.inner == held.inner,
        now.entries == held.entries,
        now.issued == held.issued,
        now.ready@ == held.ready@ + sorted_out(
            held.waiting@,
            was.issued@[at].object,
            was.issued@[at].offset,
            true,
        ),
        now.waiting@ == sorted_out(
            held.waiting@,
            was.issued@[at].object,
            was.issued@[at].offset,
            false,
        ),
    ensures
        forall|w: Written| #[trigger]
            now.written().contains(w) ==> was.written().contains(w) || was.pledged().contains(w),
        now.asked().subset_of(was.asked()),
        now.pledged().subset_of(was.pledged()),
{
    let object = was.issued@[at].object;
    let offset = was.issued@[at].offset;
    let come = sorted_out(was.waiting@, object, offset, true);
    lemma_released(was.waiting@, object, offset, true);
    lemma_released(was.waiting@, object, offset, false);
    lemma_joined_owed(was.ready@, come);
    assert forall|w: Written| #[trigger] now.written().contains(w) implies was.written().contains(w)
        || was.pledged().contains(w) by {}
    assert forall|a: Asked| #[trigger] now.asked().contains(a) implies was.asked().contains(a) by {}
    assert forall|i: int| 0 <= i < now.issued@.len() && (#[trigger] now.issued@[i]).open implies was.issued@.contains(
        now.issued@[i],
    ) by {
        let j = if i < at {
            i
        } else {
            i + 1
        };
        assert(was.issued@[j] == now.issued@[i]);
    }
    lemma_muddled(was, now);
    assert forall|w: Written| #[trigger] now.pledged().contains(w) implies was.pledged().contains(w) by {
        if !now.inner.pledged().contains(w) && !now.muddled(w.0, w.1) {
            assert(now.written().contains(w));
            assert(owes_place(was.ready@, w.0, w.1) || owes_place(was.waiting@, w.0, w.1));
        }
    }
}

proof fn lemma_increasing(from: Seq<int>, n: int)
    requires
        n >= 0,
        forall|i: int| 0 <= i < from.len() ==> 0 <= #[trigger] from[i] < n,
        forall|i: int, j: int| 0 <= i < j < from.len() ==> #[trigger] from[i] < #[trigger] from[j],
    ensures
        from.len() <= n,
    decreases from.len(),
{
    if from.len() > 0 {
        let last = from.len() - 1;
        let rest = from.drop_last();
        assert forall|i: int| 0 <= i < rest.len() implies 0 <= #[trigger] rest[i] < from[last] by {
            assert(rest[i] == from[i]);
        }
        assert forall|i: int, j: int| 0 <= i < j < rest.len() implies #[trigger] rest[i]
            < #[trigger] rest[j] by {
            assert(rest[i] == from[i] && rest[j] == from[j]);
        }
        lemma_increasing(rest, from[last]);
    }
}

proof fn lemma_moved_to_back(had: Seq<Entry>, now: Seq<Entry>, at: int)
    requires
        0 <= at < had.len(),
        now == had.remove(at).push(had[at]),
        one_each(had),
    ensures
        one_each(now),
        now.len() == had.len(),
        now.last() == had[at],
        forall|w: Written| #[trigger] has_block(now, w) == has_block(had, w),
{
    let last = now.len() - 1;
    assert forall|i: int| 0 <= i < last implies #[trigger] now[i] == if i < at {
        had[i]
    } else {
        had[i + 1]
    } by {}
    assert forall|w: Written| #[trigger] has_block(now, w) == has_block(had, w) by {
        if has_block(now, w) {
            let i = choose|i: int|
                0 <= i < now.len() && (#[trigger] now[i]).object == w.0 && now[i].offset == w.1
                    && now[i].block@ == w.2;
            let j = if i == last {
                at
            } else if i < at {
                i
            } else {
                i + 1
            };
            assert(had[j] == now[i]);
        }
        if has_block(had, w) {
            let j = choose|j: int|
                0 <= j < had.len() && (#[trigger] had[j]).object == w.0 && had[j].offset == w.1
                    && had[j].block@ == w.2;
            let i = if j == at {
                last
            } else if j < at {
                j
            } else {
                j - 1
            };
            assert(now[i] == had[j]);
        }
    }
    assert forall|i: int, j: int| 0 <= i < j < now.len() implies !((#[trigger] now[i]).object == (
    #[trigger] now[j]).object && now[i].offset == now[j].offset) by {
        let a = if i < at {
            i
        } else {
            i + 1
        };
        let b = if j == last {
            at
        } else if j < at {
            j
        } else {
            j + 1
        };
        assert(now[i] == had[a] && now[j] == had[b]);
        if a < b {
            assert(!(had[a].object == had[b].object && had[a].offset == had[b].offset));
        } else {
            assert(!(had[b].object == had[a].object && had[b].offset == had[a].offset));
        }
    }
}

} // verus!
