//! What a store of blocks promises, what it can fail at, and the exact store that keeps everything in
//! memory.

use vstd::prelude::*;

use crate::address::ObjectId;
use crate::block::Block;
use crate::stats::VolumeStats;

verus! {

/// What a store can fail at.
#[derive(Clone, Copy, Debug, PartialEq, Eq, Structural)]
pub enum StoreFault {
    /// The store is asked for a block it does not have: this node's own record of where blocks are has
    /// stopped agreeing with the store.
    Missing,
    /// The device refused.
    Device,
}

/// A block that a store was given: the object, the offset in it, and the block's bytes.
pub type Written = (ObjectId, u64, Seq<u8>);

/// A read that a store was asked for: its handle, the object, and the offset in it.
pub type Asked = (u64, ObjectId, u64);

/// The bytes are ones that a read taken under this handle may be answered with.
pub open spec fn is_answer(
    asked: Set<Asked>,
    pledged: Set<Written>,
    handle: u64,
    bytes: Seq<u8>,
) -> bool {
    exists|object: ObjectId, offset: u64| #[trigger]
        asked.contains((handle, object, offset)) && pledged.contains((object, offset, bytes))
}

/// A read of some other place is on its way under this handle.
pub open spec fn asks_elsewhere(
    asked: Set<Asked>,
    handle: u64,
    object: ObjectId,
    offset: u64,
) -> bool {
    exists|a: Asked| #[trigger] asked.contains(a) && a.0 == handle && (a.1 != object || a.2 != offset)
}

/// What a store can be asked, with the handle, the place and the time that go with it. A read names the
/// bytes that its buffer had before.
pub ghost enum Call {
    Write { handle: u64, object: ObjectId, offset: u64, bytes: Seq<u8>, creating: bool, now: u64 },
    Barrier { handle: u64, now: u64 },
    Remove { handle: u64, object: ObjectId, now: u64 },
    Rename { handle: u64, from: ObjectId, to: ObjectId, now: u64 },
    PollWritten { now: u64 },
    WritesInflight,
    WritesAreQueued,
    ReadAt { object: ObjectId, offset: u64, had: Seq<u8> },
    Submit { handle: u64, object: ObjectId, offset: u64, now: u64 },
    Poll { now: u64, had: Seq<u8> },
    Inflight,
    TakeCharge,
    BlocksIn { object: ObjectId },
    HasObject { object: ObjectId },
}

/// What a store answers: a read with the bytes its buffer then has.
pub ghost enum Reply {
    Flag(bool),
    Count(usize),
    Amount(u64),
    Written(Option<(u64, Result<(), StoreFault>)>),
    Read(Result<(), StoreFault>, Seq<u8>),
    Polled(Option<Result<u64, StoreFault>>, Seq<u8>),
}

/// A store polled for what it has written again and again, with an answer each time.
pub open spec fn polled_through<S: DurableStore>(
    stores: Seq<S>,
    now: u64,
    answers: Seq<(u64, Result<(), StoreFault>)>,
) -> bool {
    &&& stores.len() == answers.len() + 1
    &&& forall|i: int|
        0 <= i < answers.len() ==> stores[i].did(
            Call::PollWritten { now },
            Reply::Written(Some(#[trigger] answers[i])),
            &stores[i + 1],
        )
}

/// A store gave these answers, one poll after another.
pub open spec fn answered_with<S: DurableStore>(
    was: S,
    now: u64,
    answers: Seq<(u64, Result<(), StoreFault>)>,
    after: S,
) -> bool {
    exists|stores: Seq<S>| #[trigger]
        polled_through(stores, now, answers) && stores[0] == was && stores.last() == after
}

/// A store gave these answers, and then had no more. More than the largest count are not asked for.
pub open spec fn polled_out<S: DurableStore>(
    was: S,
    now: u64,
    answers: Seq<(u64, Result<(), StoreFault>)>,
    after: S,
) -> bool {
    ||| answers.len() == u64::MAX && answered_with(was, now, answers, after)
    ||| exists|last: S| #[trigger]
        answered_with(was, now, answers, last) && last.did(
            Call::PollWritten { now },
            Reply::Written(None),
            &after,
        )
}

/// Before the first poll there are no answers.
pub proof fn lemma_answered_none<S: DurableStore>(was: S, now: u64)
    ensures
        answered_with(was, now, Seq::empty(), was),
{
    assert(polled_through(seq![was], now, Seq::<(u64, Result<(), StoreFault>)>::empty()));
}

/// One more poll, one more answer.
pub proof fn lemma_answered_more<S: DurableStore>(
    was: S,
    now: u64,
    answers: Seq<(u64, Result<(), StoreFault>)>,
    between: S,
    answer: (u64, Result<(), StoreFault>),
    after: S,
)
    requires
        answered_with(was, now, answers, between),
        between.did(Call::PollWritten { now }, Reply::Written(Some(answer)), &after),
    ensures
        answered_with(was, now, answers.push(answer), after),
{
    let stores = choose|stores: Seq<S>| #[trigger]
        polled_through(stores, now, answers) && stores[0] == was && stores.last() == between;
    let more = stores.push(after);
    let all = answers.push(answer);
    assert forall|i: int| 0 <= i < all.len() implies more[i].did(
        Call::PollWritten { now },
        Reply::Written(Some(#[trigger] all[i])),
        &more[i + 1],
    ) by {
        if i < answers.len() {
            assert(all[i] == answers[i]);
            assert(more[i] == stores[i] && more[i + 1] == stores[i + 1]);
        } else {
            assert(more[i] == between);
        }
    }
    assert(polled_through(more, now, all));
}

/// Whole blocks at an offset of an object, written once and freed an object at a time.
///
/// A read is submitted and harvested, so that a store with a latency does not stop the loop, or done
/// on the calling thread where the caller cannot wait. Writes, barriers, removals and renames are
/// submitted and answered in their own time, by the handle they were given.
pub trait DurableStore {
    open spec fn wf(&self) -> bool {
        true
    }

    /// The store answers a read with bytes it was given, never with others.
    open spec fn truthful(&self) -> bool {
        false
    }

    /// The blocks a read of the store may be answered with.
    open spec fn written(&self) -> Set<Written> {
        Set::empty()
    }

    /// The blocks the store has, which its measure of an object speaks of. A store may answer with more: a
    /// block in hand need not be there any more.
    open spec fn stored(&self) -> Set<Written> {
        Set::empty()
    }

    /// The reads taken and not yet answered.
    open spec fn asked(&self) -> Set<Asked> {
        Set::empty()
    }

    /// The blocks those reads may be answered with.
    open spec fn pledged(&self) -> Set<Written> {
        Set::empty()
    }

    /// What this volume has done, where it keeps count.
    open spec fn counted(&self) -> Option<VolumeStats> {
        None
    }

    /// Writes are known to be done on the calling thread.
    open spec fn writes_inline(&self) -> bool {
        false
    }

    /// A call may be answered this way, and leave the store like this. A store that says nothing here
    /// promises no more of a call than the call's own clauses do.
    open spec fn did(&self, call: Call, reply: Reply, after: &Self) -> bool {
        true
    }

    /// Takes a block write. `false` means the queue is full and nothing was taken. `creating` says
    /// this is the object's first block, which is what brings the object into being. Returning does
    /// not mean written: only the completion says that, and only a barrier says durable.
    fn submit_write(
        &mut self,
        handle: u64,
        object: ObjectId,
        offset: u64,
        block: &Block,
        creating: bool,
        now: u64,
    ) -> (taken: bool)
        requires
            old(self).wf(),
            object.valid(),
        ensures
            old(self).did(
                Call::Write { handle, object, offset, bytes: block@, creating, now },
                Reply::Flag(taken),
                final(self),
            ),
            final(self).wf(),
            final(self).truthful() == old(self).truthful(),
            forall|w: Written| #[trigger]
                final(self).written().contains(w) ==> old(self).written().contains(w) || (taken && w
                    == (object, offset, block@)),
            final(self).asked().subset_of(old(self).asked()),
            forall|w: Written| #[trigger]
                final(self).pledged().contains(w) ==> old(self).pledged().contains(w) || (taken && w
                    == (object, offset, block@)),
    ;

    /// Takes a barrier: everything submitted before it is durable once its completion arrives.
    fn submit_barrier(&mut self, handle: u64, now: u64) -> (taken: bool)
        requires
            old(self).wf(),
        ensures
            old(self).did(Call::Barrier { handle, now }, Reply::Flag(taken), final(self)),
            final(self).wf(),
            final(self).truthful() == old(self).truthful(),
            final(self).asked().subset_of(old(self).asked()),
            final(self).pledged().subset_of(old(self).pledged()),
            final(self).written() == old(self).written(),
    ;

    /// The next write, barrier, removal or rename that has finished, by the handle it was given.
    fn poll_written(&mut self, now: u64) -> (done: Option<(u64, Result<(), StoreFault>)>)
        requires
            old(self).wf(),
        ensures
            old(self).did(Call::PollWritten { now }, Reply::Written(done), final(self)),
            final(self).wf(),
            final(self).truthful() == old(self).truthful(),
            final(self).asked().subset_of(old(self).asked()),
            final(self).pledged().subset_of(old(self).pledged()),
            final(self).written() == old(self).written(),
    ;

    /// Writes and barriers taken and not yet answered for.
    fn writes_inflight(&self) -> (inflight: usize)
        requires
            self.wf(),
        ensures
            self.did(Call::WritesInflight, Reply::Count(inflight), self),
    ;

    /// Whether a write leaves the caller's thread: queued writes make a slow device show as a queue
    /// that fills, inline ones as a thread that stops.
    fn writes_are_queued(&self) -> (queued: bool)
        requires
            self.wf(),
        ensures
            self.did(Call::WritesAreQueued, Reply::Flag(queued), self),
            self.writes_inline() ==> !queued,
    ;

    /// What this volume has done.
    fn stats(&self) -> (stats: VolumeStats)
        requires
            self.wf(),
        ensures
            self.counted() matches Some(counted) ==> stats == counted,
    ;

    /// Reads a block on the calling thread.
    fn read_at(&mut self, object: ObjectId, offset: u64, into: &mut Block) -> (read: Result<
        (),
        StoreFault,
    >)
        requires
            old(self).wf(),
            object.valid(),
        ensures
            old(self).did(
                Call::ReadAt { object, offset, had: old(into)@ },
                Reply::Read(read, final(into)@),
                final(self),
            ),
            final(self).wf(),
            final(self).truthful() == old(self).truthful(),
            final(self).asked().subset_of(old(self).asked()),
            final(self).pledged().subset_of(old(self).pledged()),
            final(self).written().subset_of(old(self).written()),
            read is Ok && old(self).truthful() ==> old(self).written().contains(
                (object, offset, final(into)@),
            ),
    ;

    /// Takes a read. False when the store will not take another yet. A handle is how its caller tells one
    /// read's answer from another's: where a read of another place is on its way under it already, nothing
    /// is said of what the two may be answered with.
    fn submit(&mut self, handle: u64, object: ObjectId, offset: u64, now: u64) -> (taken: bool)
        requires
            old(self).wf(),
            object.valid(),
        ensures
            old(self).did(Call::Submit { handle, object, offset, now }, Reply::Flag(taken), final(self)),
            final(self).wf(),
            final(self).truthful() == old(self).truthful(),
            final(self).written() == old(self).written(),
            forall|a: Asked| #[trigger]
                final(self).asked().contains(a) ==> old(self).asked().contains(a) || (taken && a == (
                    handle,
                    object,
                    offset,
                )),
            forall|w: Written| #[trigger]
                final(self).pledged().contains(w) ==> old(self).pledged().contains(w) || (taken && ((
                w.0,
                w.1,
            ) == (object, offset) && old(self).written().contains(w) || asks_elsewhere(
                    old(self).asked(),
                    handle,
                    object,
                    offset,
                ))),
    ;

    /// The next read finished by `now`, its block copied out. `None` while nothing is due.
    fn poll(&mut self, now: u64, into: &mut Block) -> (answered: Option<Result<u64, StoreFault>>)
        requires
            old(self).wf(),
        ensures
            old(self).did(
                Call::Poll { now, had: old(into)@ },
                Reply::Polled(answered, final(into)@),
                final(self),
            ),
            final(self).wf(),
            final(self).truthful() == old(self).truthful(),
            forall|w: Written| #[trigger]
                final(self).written().contains(w) ==> old(self).written().contains(w) || old(self).pledged().contains(w),
            final(self).asked().subset_of(old(self).asked()),
            final(self).pledged().subset_of(old(self).pledged()),
            old(self).truthful() ==> (answered matches Some(Ok(handle)) ==> is_answer(
                old(self).asked(),
                old(self).pledged(),
                handle,
                final(into)@,
            )),
    ;

    /// Reads taken and not yet answered for.
    fn inflight(&self) -> (inflight: usize)
        requires
            self.wf(),
        ensures
            self.did(Call::Inflight, Reply::Count(inflight), self),
    ;

    /// Device time this store's synchronous calls have cost since it was last asked, taken as it is
    /// read. Zero from a store that models no device.
    fn take_charge(&mut self) -> (charge: u64)
        requires
            old(self).wf(),
        ensures
            old(self).did(Call::TakeCharge, Reply::Amount(charge), final(self)),
            final(self).wf(),
            final(self).truthful() == old(self).truthful(),
            final(self).asked().subset_of(old(self).asked()),
            final(self).pledged().subset_of(old(self).pledged()),
            final(self).written() == old(self).written(),
    ;

    /// Stops an object existing: the one way the store shrinks. On the same queue as the writes,
    /// because it is ordered against them.
    fn submit_remove(&mut self, handle: u64, object: ObjectId, now: u64) -> (taken: bool)
        requires
            old(self).wf(),
            object.valid(),
        ensures
            old(self).did(Call::Remove { handle, object, now }, Reply::Flag(taken), final(self)),
            final(self).wf(),
            final(self).truthful() == old(self).truthful(),
            final(self).asked().subset_of(old(self).asked()),
            final(self).pledged().subset_of(old(self).pledged()),
            final(self).written().subset_of(old(self).written()),
    ;

    /// Gives `from`'s bytes the name `to`, replacing whatever wore it: a reader that finds `to` finds
    /// all of it or the previous one.
    fn submit_rename(&mut self, handle: u64, from: ObjectId, to: ObjectId, now: u64) -> (taken: bool)
        requires
            old(self).wf(),
            from.valid(),
            to.valid(),
        ensures
            old(self).did(Call::Rename { handle, from, to, now }, Reply::Flag(taken), final(self)),
            final(self).wf(),
            final(self).truthful() == old(self).truthful(),
            forall|w: Written| #[trigger]
                final(self).written().contains(w) ==> old(self).written().contains(w) || (w.0 == to
                    && old(self).written().contains((from, w.1, w.2))),
            final(self).asked().subset_of(old(self).asked()),
            forall|w: Written| #[trigger]
                final(self).pledged().contains(w) ==> old(self).pledged().contains(w) || (w.0 == to
                    && old(self).written().contains((from, w.1, w.2))),
    ;

    /// Blocks this object spans from offset zero, which is where its last block ends. Zero for an
    /// object that is not there.
    fn blocks_in(&mut self, object: ObjectId) -> (blocks: u64)
        requires
            old(self).wf(),
            object.valid(),
        ensures
            old(self).did(Call::BlocksIn { object }, Reply::Amount(blocks), final(self)),
            old(self).truthful() ==> forall|w: Written| #[trigger]
                final(self).stored().contains(w) && w.0 == object ==> w.1 / 4096 < blocks,
            final(self).stored() == old(self).stored(),
            final(self).wf(),
            final(self).truthful() == old(self).truthful(),
            final(self).asked().subset_of(old(self).asked()),
            final(self).pledged().subset_of(old(self).pledged()),
            final(self).written().subset_of(old(self).written()),
    ;

    /// Whether the store has this object at all.
    fn has_object(&mut self, object: ObjectId) -> (there: bool)
        requires
            old(self).wf(),
            object.valid(),
        ensures
            old(self).did(Call::HasObject { object }, Reply::Flag(there), final(self)),
            final(self).wf(),
            final(self).truthful() == old(self).truthful(),
            final(self).asked().subset_of(old(self).asked()),
            final(self).pledged().subset_of(old(self).pledged()),
            final(self).written() == old(self).written(),
    ;
}

} // verus!
