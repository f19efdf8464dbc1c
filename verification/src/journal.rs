//! Which closed blocks the volume has been given, has answered for, and has made durable.

use std::collections::VecDeque;

use vstd::prelude::*;

use crate::address::{IoOwner, OWNER_WEIGHT};
use crate::ledger::ApplyIndex;
use crate::owed::{
    awaits, lemma_awaits_push, lemma_awaits_remove, lemma_owes_pop, lemma_owes_push, owes, Owed,
    Unwritten,
};

verus! {

/// What is owed to the volume, what it has taken, and how far what it holds is durable.
pub struct Journal {
    /// Blocks closed and not yet handed over, and days to be freed behind them.
    pub pending: VecDeque<Owed>,
    /// What the store has taken and not yet answered for, by the handle it was given.
    pub submitted: VecDeque<(u64, Owed)>,
    /// The barrier in flight, if any. One at a time: a second would cover a subset of the first.
    pub barrier: Option<u64>,
    /// The oldest block closed after the barrier in flight was submitted, which it does not cover, and
    /// the log position it began at.
    pub after_barrier: Option<(u64, ApplyIndex)>,
    /// The oldest block closed and not yet durable, and the log position it began at.
    pub unsynced: Option<(u64, ApplyIndex)>,
    /// Sequence numbers for writes and barriers.
    pub handles: u64,
    /// The first block closed in this life of the log.
    pub start: Ghost<u64>,
    /// The blocks whose write the store has taken.
    pub taken: Ghost<Set<u64>>,
    /// The blocks whose write the store has answered for.
    pub answered: Ghost<Set<u64>>,
    /// The blocks whose write had been taken when the barrier in flight was.
    pub under: Ghost<Set<u64>>,
    /// The blocks a barrier that was answered well has covered.
    pub covered: Ghost<Set<u64>>,
    /// The blocks whose write the store has answered for with a fault.
    pub failed: Ghost<Set<u64>>,
}

/// What is owed is a block still in memory, or a day.
pub open spec fn owed_in_range(owed: Owed, oldest_resident: u64, next_block: u64) -> bool {
    match owed {
        Owed::Block(unwritten) => oldest_resident <= unwritten.block < next_block
            && unwritten.segment < 64,
        Owed::Free(segment) => segment < 64,
    }
}

/// These blocks, and the one whose write this is, if it is a write.
pub open spec fn with_block(blocks: Set<u64>, owed: Owed) -> Set<u64> {
    match owed {
        Owed::Block(unwritten) => blocks.insert(unwritten.block),
        Owed::Free(_) => blocks,
    }
}

impl Journal {
    /// Blocks closed or submitted and not yet answered for, held at the largest a word can carry.
    pub open spec fn outstanding(&self) -> usize {
        if self.pending@.len() + self.submitted@.len() <= usize::MAX {
            (self.pending@.len() + self.submitted@.len()) as usize
        } else {
            usize::MAX
        }
    }

    /// The first block that is not durable.
    pub open spec fn durable_bound(&self, next_block: u64) -> u64 {
        match self.unsynced {
            Some((first, _)) => first,
            None => next_block,
        }
    }

    /// The first block the barrier in flight does not cover.
    pub open spec fn barrier_bound(&self, next_block: u64) -> u64 {
        match self.after_barrier {
            Some((first, _)) => first,
            None => next_block,
        }
    }

    pub open spec fn writes_wf(&self, oldest_resident: u64, next_block: u64) -> bool {
        &&& self.start@ <= oldest_resident <= next_block
        &&& self.handles < OWNER_WEIGHT
        &&& forall|i: int|
            0 <= i < self.pending@.len() ==> owed_in_range(
                #[trigger] self.pending@[i],
                oldest_resident,
                next_block,
            )
        &&& forall|i: int|
            0 <= i < self.submitted@.len() ==> owed_in_range(
                (#[trigger] self.submitted@[i]).1,
                oldest_resident,
                next_block,
            )
        &&& forall|b: u64|
            self.start@ <= b < oldest_resident ==> #[trigger] self.answered@.contains(b)
        &&& forall|b: u64|
            oldest_resident <= b < next_block ==> #[trigger] self.answered@.contains(b) || owes(
                self.pending@,
                b,
            ) || awaits(self.submitted@, b)
        &&& forall|b: u64|
            self.start@ <= b < next_block ==> #[trigger] self.taken@.contains(b) || owes(
                self.pending@,
                b,
            )
    }

    pub open spec fn durable_wf(&self, next_block: u64) -> bool {
        &&& self.unsynced matches Some((first, _)) ==> self.start@ <= first < next_block
        &&& self.barrier is None ==> self.after_barrier is None
        &&& self.barrier is Some ==> self.unsynced is Some
        &&& self.after_barrier matches Some((first, _)) ==> self.durable_bound(next_block) <= first
            < next_block
        &&& forall|b: u64|
            self.start@ <= b < self.durable_bound(next_block) ==> #[trigger] self.covered@.contains(b)
        &&& self.barrier is Some ==> forall|b: u64|
            self.start@ <= b < self.barrier_bound(next_block) ==> self.covered@.contains(b)
                || #[trigger] self.under@.contains(b)
    }

    /// Every block that has left memory has been answered for; every closed block has been taken or is
    /// owed; and every block counted as durable was taken before a barrier that was answered well.
    pub open spec fn wf(&self, oldest_resident: u64, next_block: u64) -> bool {
        self.writes_wf(oldest_resident, next_block) && self.durable_wf(next_block)
    }

    pub fn new() -> (journal: Self)
        ensures
            journal.wf(0, 0),
            journal.pending@.len() == 0,
            journal.submitted@.len() == 0,
            journal.barrier is None,
            journal.after_barrier is None,
            journal.unsynced is None,
            journal.handles == 0,
            journal.start@ == 0,
            journal.taken@ == Set::<u64>::empty(),
            journal.answered@ == Set::<u64>::empty(),
            journal.under@ == Set::<u64>::empty(),
            journal.covered@ == Set::<u64>::empty(),
            journal.failed@ == Set::<u64>::empty(),
    {
        Journal {
            pending: VecDeque::new(),
            submitted: VecDeque::new(),
            barrier: None,
            after_barrier: None,
            unsynced: None,
            handles: 0,
            start: Ghost(0),
            taken: Ghost(Set::empty()),
            answered: Ghost(Set::empty()),
            under: Ghost(Set::empty()),
            covered: Ghost(Set::empty()),
            failed: Ghost(Set::empty()),
        }
    }

    /// Begins again at a block, with nothing owed and nothing in memory.
    pub fn begin_at(&mut self, next_block: u64)
        requires
            old(self).pending@.len() == 0,
            old(self).submitted@.len() == 0,
            old(self).barrier is None,
            old(self).after_barrier is None,
            old(self).unsynced is None,
            old(self).handles < OWNER_WEIGHT,
        ensures
            final(self).wf(next_block, next_block),
            *final(self) == (Journal { start: Ghost(next_block), ..*old(self) }),
    {
        self.start = Ghost(next_block);
    }

    /// Notes that a block has been closed. A block closed after a barrier was submitted is not covered
    /// by it.
    pub fn closed(
        &mut self,
        block: u64,
        began_at: ApplyIndex,
        segment: u8,
        opening: bool,
        oldest_resident: u64,
    )
        requires
            old(self).wf(oldest_resident, block),
            block < u64::MAX,
            segment < 64,
        ensures
            final(self).wf(oldest_resident, (block + 1) as u64),
            final(self).pending@ == old(self).pending@.push(
                Owed::Block(Unwritten { block, segment, opening }),
            ),
            final(self).submitted == old(self).submitted,
            final(self).barrier == old(self).barrier,
            final(self).handles == old(self).handles,
            final(self).start == old(self).start,
            final(self).taken == old(self).taken,
            final(self).answered == old(self).answered,
            final(self).under == old(self).under,
            final(self).covered == old(self).covered,
            final(self).failed == old(self).failed,
            final(self).unsynced == if old(self).barrier is None && old(self).unsynced is None {
                Some((block, began_at))
            } else {
                old(self).unsynced
            },
            final(self).after_barrier == if old(self).barrier is Some && old(
                self,
            ).after_barrier is None {
                Some((block, began_at))
            } else {
                old(self).after_barrier
            },
    {
        if self.barrier.is_some() {
            if self.after_barrier.is_none() {
                self.after_barrier = Some((block, began_at));
            }
        } else if self.unsynced.is_none() {
            self.unsynced = Some((block, began_at));
        }
        let owed = Owed::Block(Unwritten { block, segment, opening });
        self.pending.push_back(owed);
        proof {
            let was = old(self).pending@;
            assert(self.pending@ == was.push(owed));
            assert forall|b: u64| oldest_resident <= b < block + 1 implies #[trigger] self.answered@.contains(
                b,
            ) || owes(self.pending@, b) || awaits(self.submitted@, b) by {
                lemma_owes_push(was, owed, b);
            }
            assert forall|b: u64| self.start@ <= b < block + 1 implies #[trigger] self.taken@.contains(b)
                || owes(self.pending@, b) by {
                lemma_owes_push(was, owed, b);
            }
        }
    }

    /// Owes the volume the removal of a day, behind whatever is owed that day already.
    pub fn free(&mut self, segment: u8, oldest_resident: u64, next_block: u64)
        requires
            old(self).wf(oldest_resident, next_block),
            segment < 64,
        ensures
            final(self).wf(oldest_resident, next_block),
            final(self).pending@ == old(self).pending@.push(Owed::Free(segment)),
            final(self).submitted == old(self).submitted,
            final(self).barrier == old(self).barrier,
            final(self).after_barrier == old(self).after_barrier,
            final(self).unsynced == old(self).unsynced,
            final(self).handles == old(self).handles,
            final(self).start == old(self).start,
            final(self).taken == old(self).taken,
            final(self).answered == old(self).answered,
            final(self).under == old(self).under,
            final(self).covered == old(self).covered,
            final(self).failed == old(self).failed,
    {
        let owed = Owed::Free(segment);
        self.pending.push_back(owed);
        proof {
            let was = old(self).pending@;
            assert forall|b: u64| owes(self.pending@, b) == owes(was, b) by {
                lemma_owes_push(was, owed, b);
            }
        }
    }

    /// Notes that the store has taken the oldest thing owed, under the next handle.
    pub fn took(&mut self, oldest_resident: u64, next_block: u64)
        requires
            old(self).wf(oldest_resident, next_block),
            old(self).pending@.len() > 0,
            old(self).handles + 1 < OWNER_WEIGHT,
        ensures
            final(self).wf(oldest_resident, next_block),
            final(self).handles == old(self).handles + 1,
            final(self).pending@ == old(self).pending@.drop_first(),
            final(self).submitted@ == old(self).submitted@.push(
                (
                    IoOwner::Blocks.handle((old(self).handles + 1) as u64),
                    old(self).pending@[0],
                ),
            ),
            final(self).barrier == old(self).barrier,
            final(self).after_barrier == old(self).after_barrier,
            final(self).unsynced == old(self).unsynced,
            final(self).start == old(self).start,
            final(self).taken@ == match old(self).pending@[0] {
                Owed::Block(unwritten) => old(self).taken@.insert(unwritten.block),
                Owed::Free(_) => old(self).taken@,
            },
            final(self).answered == old(self).answered,
            final(self).under == old(self).under,
            final(self).covered == old(self).covered,
            final(self).failed == old(self).failed,
    {
        let handle: u64 = IoOwner::Blocks.handle(self.handles + 1);
        self.handles = self.handles + 1;
        let ghost was = self.pending@;
        let ghost had = self.submitted@;
        match self.pending.pop_front() {
            Some(owed) => {
                self.submitted.push_back((handle, owed));
                proof {
                    match owed {
                        Owed::Block(unwritten) => {
                            self.taken@ = self.taken@.insert(unwritten.block);
                        },
                        Owed::Free(_) => {},
                    }
                    assert(self.pending@ =~= was.drop_first());
                    assert forall|b: u64|
                        self.start@ <= b < next_block implies #[trigger] self.taken@.contains(b)
                        || owes(self.pending@, b) by {
                        lemma_owes_pop(was, b);
                        assert(old(self).taken@.contains(b) || owes(was, b));
                    }
                    assert forall|b: u64|
                        oldest_resident <= b < next_block implies #[trigger] self.answered@.contains(
                        b,
                    ) || owes(self.pending@, b) || awaits(self.submitted@, b) by {
                        lemma_owes_pop(was, b);
                        lemma_awaits_push(had, (handle, owed), b);
                        assert(old(self).answered@.contains(b) || owes(was, b) || awaits(had, b));
                    }
                }
            },
            None => {},
        }
    }

    /// Notes that the store has taken a barrier, under the next handle.
    pub fn took_barrier(&mut self, oldest_resident: u64, next_block: u64)
        requires
            old(self).wf(oldest_resident, next_block),
            old(self).pending@.len() == 0,
            old(self).barrier is None,
            old(self).unsynced is Some,
            old(self).handles + 1 < OWNER_WEIGHT,
        ensures
            final(self).wf(oldest_resident, next_block),
            final(self).handles == old(self).handles + 1,
            final(self).barrier == Some(IoOwner::Blocks.handle((old(self).handles + 1) as u64)),
            final(self).pending == old(self).pending,
            final(self).submitted == old(self).submitted,
            final(self).after_barrier == old(self).after_barrier,
            final(self).unsynced == old(self).unsynced,
            final(self).start == old(self).start,
            final(self).taken == old(self).taken,
            final(self).answered == old(self).answered,
            final(self).under@ == old(self).taken@,
            final(self).covered == old(self).covered,
            final(self).failed == old(self).failed,
    {
        self.handles = self.handles + 1;
        self.barrier = Some(IoOwner::Blocks.handle(self.handles));
        proof {
            self.under@ = self.taken@;
            assert forall|b: u64|
                self.start@ <= b < self.barrier_bound(next_block) implies self.covered@.contains(b)
                || #[trigger] self.under@.contains(b) by {
                assert(self.taken@.contains(b) || owes(self.pending@, b));
            }
        }
    }

    /// Takes one answer of the store's. False when it answers nothing this journal is waiting on, or
    /// answers well; true when it answers a write or a barrier with a fault.
    pub fn answered(
        &mut self,
        handle: u64,
        ok: bool,
        oldest_resident: u64,
        next_block: u64,
    ) -> (faulted: bool)
        requires
            old(self).wf(oldest_resident, next_block),
        ensures
            final(self).wf(oldest_resident, next_block),
            final(self).handles == old(self).handles,
            final(self).pending == old(self).pending,
            final(self).start == old(self).start,
            final(self).taken == old(self).taken,
            final(self).under == old(self).under,
            old(self).barrier == Some(handle) ==> {
                &&& faulted == !ok
                &&& final(self).answered == old(self).answered
                &&& final(self).failed == old(self).failed
                &&& final(self).covered@ == if ok {
                    old(self).covered@.union(old(self).under@)
                } else {
                    old(self).covered@
                }
                &&& final(self).barrier is None
                &&& final(self).after_barrier is None
                &&& final(self).submitted == old(self).submitted
                &&& final(self).unsynced == if ok {
                    old(self).after_barrier
                } else {
                    old(self).unsynced
                }
            },
            old(self).barrier != Some(handle) ==> {
                &&& final(self).barrier == old(self).barrier
                &&& final(self).after_barrier == old(self).after_barrier
                &&& final(self).unsynced == old(self).unsynced
                &&& final(self).covered == old(self).covered
                &&& match first_asked(old(self).submitted@, handle) {
                    Some(at) => {
                        &&& faulted == !ok
                        &&& final(self).submitted@ == old(self).submitted@.remove(at)
                        &&& final(self).answered@ == with_block(
                            old(self).answered@,
                            old(self).submitted@[at].1,
                        )
                        &&& final(self).failed@ == if ok {
                            old(self).failed@
                        } else {
                            with_block(old(self).failed@, old(self).submitted@[at].1)
                        }
                    },
                    None => !faulted && *final(self) == *old(self),
                }
            },
    {
        if self.barrier == Some(handle) {
            self.barrier = None;
            if ok {
                proof {
                    self.covered@ = self.covered@.union(self.under@);
                    assert forall|b: u64|
                        self.start@ <= b < old(self).barrier_bound(
                            next_block,
                        ) implies #[trigger] self.covered@.contains(b) by {
                        assert(old(self).covered@.contains(b) || old(self).under@.contains(b));
                    }
                }
                self.unsynced = self.after_barrier;
                self.after_barrier = None;
                return false;
            }
            self.after_barrier = None;
            return true;
        }
        let mut at: usize = 0;
        while at < self.submitted.len()
            invariant
                *self == *old(self),
                self.wf(oldest_resident, next_block),
                self.barrier != Some(handle),
                at <= self.submitted@.len(),
                forall|j: int| 0 <= j < at ==> (#[trigger] self.submitted@[j]).0 != handle,
            decreases self.submitted@.len() - at,
        {
            if self.submitted[at].0 == handle {
                proof {
                    lemma_first_asked(self.submitted@, handle, at as int);
                }
                let ghost had = self.submitted@;
                match self.submitted.remove(at) {
                    Some((_, owed)) => {
                        proof {
                            match owed {
                                Owed::Block(unwritten) => {
                                    self.answered@ = self.answered@.insert(unwritten.block);
                                    if !ok {
                                        self.failed@ = self.failed@.insert(unwritten.block);
                                    }
                                },
                                Owed::Free(_) => {},
                            }
                            assert forall|b: u64|
                                oldest_resident <= b
                                    < next_block implies #[trigger] self.answered@.contains(b)
                                || owes(self.pending@, b) || awaits(self.submitted@, b) by {
                                lemma_awaits_remove(had, at as int, b);
                                assert(old(self).answered@.contains(b) || owes(self.pending@, b)
                                    || awaits(had, b));
                            }
                            assert forall|i: int|
                                0 <= i < self.submitted@.len() implies owed_in_range(
                                (#[trigger] self.submitted@[i]).1,
                                oldest_resident,
                                next_block,
                            ) by {
                                if i < at {
                                    assert(self.submitted@[i] == had[i]);
                                } else {
                                    assert(self.submitted@[i] == had[i + 1]);
                                }
                            }
                        }
                        return !ok;
                    },
                    None => {},
                }
            }
            at += 1;
        }
        proof {
            lemma_none_asked(self.submitted@, handle);
        }
        false
    }

    /// Whether the write of a block is owed or not answered for.
    pub fn holds(&self, block: u64) -> (held: bool)
        ensures
            held == (owes(self.pending@, block) || awaits(self.submitted@, block)),
    {
        let mut at: usize = 0;
        while at < self.submitted.len()
            invariant
                at <= self.submitted@.len(),
                forall|j: int| 0 <= j < at ==> !(#[trigger] self.submitted@[j]).1.is_block(block),
            decreases self.submitted@.len() - at,
        {
            if self.submitted[at].1.holds(block) {
                assert(self.submitted@[at as int].1.is_block(block));
                return true;
            }
            at += 1;
        }
        let mut at: usize = 0;
        while at < self.pending.len()
            invariant
                at <= self.pending@.len(),
                forall|j: int| 0 <= j < at ==> !(#[trigger] self.pending@[j]).is_block(block),
            decreases self.pending@.len() - at,
        {
            if self.pending[at].holds(block) {
                assert(self.pending@[at as int].is_block(block));
                return true;
            }
            at += 1;
        }
        false
    }

    /// The oldest closed block may leave memory once its write has been answered for.
    pub proof fn lemma_may_leave(&self, oldest_resident: u64, next_block: u64)
        requires
            self.wf(oldest_resident, next_block),
            oldest_resident < next_block,
            !owes(self.pending@, oldest_resident),
            !awaits(self.submitted@, oldest_resident),
        ensures
            self.answered@.contains(oldest_resident),
            self.wf((oldest_resident + 1) as u64, next_block),
    {
        assert(self.answered@.contains(oldest_resident));
        assert forall|i: int| 0 <= i < self.pending@.len() implies owed_in_range(
            #[trigger] self.pending@[i],
            (oldest_resident + 1) as u64,
            next_block,
        ) by {
            assert(!self.pending@[i].is_block(oldest_resident));
        }
        assert forall|i: int| 0 <= i < self.submitted@.len() implies owed_in_range(
            (#[trigger] self.submitted@[i]).1,
            (oldest_resident + 1) as u64,
            next_block,
        ) by {
            assert(!self.submitted@[i].1.is_block(oldest_resident));
        }
    }
}

/// The place of the oldest thing submitted under a handle.
pub open spec fn first_asked(submitted: Seq<(u64, Owed)>, handle: u64) -> Option<int>
    decreases submitted.len(),
{
    if submitted.len() == 0 {
        None
    } else {
        match first_asked(submitted.drop_last(), handle) {
            Some(at) => Some(at),
            None => if submitted.last().0 == handle {
                Some(submitted.len() - 1)
            } else {
                None
            },
        }
    }
}

proof fn lemma_none_asked(submitted: Seq<(u64, Owed)>, handle: u64)
    requires
        forall|j: int| 0 <= j < submitted.len() ==> (#[trigger] submitted[j]).0 != handle,
    ensures
        first_asked(submitted, handle) is None,
    decreases submitted.len(),
{
    if submitted.len() > 0 {
        let rest = submitted.drop_last();
        assert forall|j: int| 0 <= j < rest.len() implies (#[trigger] rest[j]).0 != handle by {
            assert(rest[j] == submitted[j]);
        }
        lemma_none_asked(rest, handle);
        assert(submitted[submitted.len() - 1].0 != handle);
    }
}

proof fn lemma_first_asked(submitted: Seq<(u64, Owed)>, handle: u64, at: int)
    requires
        0 <= at < submitted.len(),
        submitted[at].0 == handle,
        forall|j: int| 0 <= j < at ==> (#[trigger] submitted[j]).0 != handle,
    ensures
        first_asked(submitted, handle) == Some(at),
    decreases submitted.len(),
{
    let rest = submitted.drop_last();
    assert forall|j: int| 0 <= j < rest.len() implies #[trigger] rest[j] == submitted[j] by {}
    if at < submitted.len() - 1 {
        lemma_first_asked(rest, handle, at);
    } else {
        lemma_none_asked(rest, handle);
    }
}

} // verus!
