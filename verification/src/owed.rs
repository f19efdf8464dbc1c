//! What the log owes the volume, in the order it owes it.

use vstd::prelude::*;

use crate::filling::BlockRange;

verus! {

/// A block that is closed and not yet on a device. It carries no bytes: the block itself is kept in
/// memory until its write is answered for.
#[derive(Clone, Copy, Debug, PartialEq, Eq, Structural)]
pub struct Unwritten {
    pub block: u64,
    pub segment: u8,
    /// Whether this is the segment's first block, and so what brings the segment into being.
    pub opening: bool,
}

/// One thing the log owes the volume. One backlog rather than two, because the order between them is
/// the point: a removal cannot overtake the writes ahead of it.
#[derive(Clone, Copy, Debug, PartialEq, Eq, Structural)]
pub enum Owed {
    Block(Unwritten),
    /// A day's file, once the index has no entry in it.
    Free(u8),
}

impl Owed {
    /// Whether this is the write of the block with this number.
    pub open spec fn is_block(self, block: u64) -> bool {
        match self {
            Owed::Block(unwritten) => unwritten.block == block,
            Owed::Free(_) => false,
        }
    }

    pub fn holds(&self, block: u64) -> (held: bool)
        ensures
            held == self.is_block(block),
    {
        match self {
            Owed::Block(unwritten) => unwritten.block == block,
            Owed::Free(_) => false,
        }
    }
}

/// The write of a block is in the backlog.
pub open spec fn owes(backlog: Seq<Owed>, block: u64) -> bool {
    exists|i: int| 0 <= i < backlog.len() && (#[trigger] backlog[i]).is_block(block)
}

/// The removal of a day is in the backlog, behind a place of it.
pub open spec fn freed_behind(backlog: Seq<Owed>, at: int, segment: u8) -> bool {
    exists|i: int| at < i < backlog.len() && #[trigger] backlog[i] == Owed::Free(segment)
}

/// The write of a block that is owed brings its day's object into being exactly when the block is the
/// first of its day. Of a day whose removal is owed behind it, nothing is said: its blocks are given back.
#[verifier::opaque]
pub open spec fn opens_first(backlog: Seq<Owed>, days: Seq<BlockRange>) -> bool {
    forall|i: int|
        0 <= i < backlog.len() ==> match #[trigger] backlog[i] {
            Owed::Block(unwritten) => !freed_behind(backlog, i, unwritten.segment) ==> {
                &&& days[unwritten.segment as int].blocks > 0
                &&& unwritten.opening == (days[unwritten.segment as int].first == unwritten.block)
            },
            Owed::Free(_) => true,
        }
}

pub proof fn lemma_opens_none(days: Seq<BlockRange>)
    ensures
        opens_first(Seq::empty(), days),
{
    reveal(opens_first);
}

/// A block of a day opens it if none before it did.
pub proof fn lemma_opens_block(
    backlog: Seq<Owed>,
    days: Seq<BlockRange>,
    segment: u8,
    block: u64,
)
    requires
        opens_first(backlog, days),
        segment < days.len(),
        forall|i: int|
            0 <= i < backlog.len() ==> match #[trigger] backlog[i] {
                Owed::Block(unwritten) => unwritten.segment < days.len(),
                Owed::Free(_) => true,
            },
        days[segment as int].blocks < u64::MAX,
        days[segment as int].blocks > 0 ==> days[segment as int].first < block,
    ensures
        opens_first(
            backlog.push(
                Owed::Block(Unwritten { block, segment, opening: days[segment as int].blocks == 0 }),
            ),
            days.update(segment as int, days[segment as int].noted(block)),
        ),
{
    reveal(opens_first);
    let owed = Owed::Block(Unwritten { block, segment, opening: days[segment as int].blocks == 0 });
    let more = backlog.push(owed);
    let noted = days.update(segment as int, days[segment as int].noted(block));
    assert forall|i: int| 0 <= i < more.len() implies match #[trigger] more[i] {
        Owed::Block(unwritten) => !freed_behind(more, i, unwritten.segment) ==> {
            &&& noted[unwritten.segment as int].blocks > 0
            &&& unwritten.opening == (noted[unwritten.segment as int].first == unwritten.block)
        },
        Owed::Free(_) => true,
    } by {
        if i < backlog.len() {
            assert(more[i] == backlog[i]);
            match backlog[i] {
                Owed::Block(unwritten) => {
                    if freed_behind(backlog, i, unwritten.segment) {
                        let j = choose|j: int|
                            i < j < backlog.len() && #[trigger] backlog[j] == Owed::Free(
                                unwritten.segment,
                            );
                        assert(more[j] == Owed::Free(unwritten.segment));
                    }
                },
                Owed::Free(_) => {},
            }
        }
    }
}

pub proof fn lemma_opens_free(backlog: Seq<Owed>, days: Seq<BlockRange>, segment: u8)
    requires
        opens_first(backlog, days),
        segment < days.len(),
        forall|i: int|
            0 <= i < backlog.len() ==> match #[trigger] backlog[i] {
                Owed::Block(unwritten) => unwritten.segment < days.len(),
                Owed::Free(_) => true,
            },
    ensures
        opens_first(
            backlog.push(Owed::Free(segment)),
            days.update(segment as int, BlockRange { first: 0, blocks: 0 }),
        ),
{
    reveal(opens_first);
    let more = backlog.push(Owed::Free(segment));
    let freed = days.update(segment as int, BlockRange { first: 0, blocks: 0 });
    assert(more[backlog.len() as int] == Owed::Free(segment));
    assert forall|i: int| 0 <= i < more.len() implies match #[trigger] more[i] {
        Owed::Block(unwritten) => !freed_behind(more, i, unwritten.segment) ==> {
            &&& freed[unwritten.segment as int].blocks > 0
            &&& unwritten.opening == (freed[unwritten.segment as int].first == unwritten.block)
        },
        Owed::Free(_) => true,
    } by {
        if i < backlog.len() {
            assert(more[i] == backlog[i]);
            match backlog[i] {
                Owed::Block(unwritten) => {
                    if freed_behind(backlog, i, unwritten.segment) {
                        let j = choose|j: int|
                            i < j < backlog.len() && #[trigger] backlog[j] == Owed::Free(
                                unwritten.segment,
                            );
                        assert(more[j] == Owed::Free(unwritten.segment));
                    }
                },
                Owed::Free(_) => {},
            }
        }
    }
}

pub proof fn lemma_opens_pop(backlog: Seq<Owed>, days: Seq<BlockRange>)
    requires
        backlog.len() > 0,
        opens_first(backlog, days),
    ensures
        opens_first(backlog.drop_first(), days),
{
    reveal(opens_first);
    let rest = backlog.drop_first();
    assert forall|i: int| 0 <= i < rest.len() implies match #[trigger] rest[i] {
        Owed::Block(unwritten) => !freed_behind(rest, i, unwritten.segment) ==> {
            &&& days[unwritten.segment as int].blocks > 0
            &&& unwritten.opening == (days[unwritten.segment as int].first == unwritten.block)
        },
        Owed::Free(_) => true,
    } by {
        assert(rest[i] == backlog[i + 1]);
        match backlog[i + 1] {
            Owed::Block(unwritten) => {
                if freed_behind(backlog, i + 1, unwritten.segment) {
                    let j = choose|j: int|
                        i + 1 < j < backlog.len() && #[trigger] backlog[j] == Owed::Free(
                            unwritten.segment,
                        );
                    assert(rest[j - 1] == Owed::Free(unwritten.segment));
                }
            },
            Owed::Free(_) => {},
        }
    }
}

/// The write of a block has been taken and is not answered for.
pub open spec fn awaits(awaiting: Seq<(u64, Owed)>, block: u64) -> bool {
    exists|i: int| 0 <= i < awaiting.len() && (#[trigger] awaiting[i]).1.is_block(block)
}

pub proof fn lemma_owes_push(backlog: Seq<Owed>, owed: Owed, block: u64)
    ensures
        owes(backlog.push(owed), block) == (owes(backlog, block) || owed.is_block(block)),
{
    let after = backlog.push(owed);
    if owes(backlog, block) {
        let i = choose|i: int| 0 <= i < backlog.len() && (#[trigger] backlog[i]).is_block(block);
        assert(after[i].is_block(block));
    }
    assert(after[backlog.len() as int] == owed);
    if owes(after, block) && !owed.is_block(block) {
        let i = choose|i: int| 0 <= i < after.len() && (#[trigger] after[i]).is_block(block);
        assert(backlog[i].is_block(block));
    }
}

pub proof fn lemma_owes_pop(backlog: Seq<Owed>, block: u64)
    requires
        backlog.len() > 0,
    ensures
        owes(backlog, block) == (owes(backlog.subrange(1, backlog.len() as int), block)
            || backlog[0].is_block(block)),
{
    let rest = backlog.subrange(1, backlog.len() as int);
    if owes(rest, block) {
        let i = choose|i: int| 0 <= i < rest.len() && (#[trigger] rest[i]).is_block(block);
        assert(backlog[i + 1].is_block(block));
    }
    if owes(backlog, block) && !backlog[0].is_block(block) {
        let i = choose|i: int| 0 <= i < backlog.len() && (#[trigger] backlog[i]).is_block(block);
        assert(rest[i - 1].is_block(block));
    }
}

pub proof fn lemma_awaits_push(awaiting: Seq<(u64, Owed)>, one: (u64, Owed), block: u64)
    ensures
        awaits(awaiting.push(one), block) == (awaits(awaiting, block) || one.1.is_block(block)),
{
    let after = awaiting.push(one);
    if awaits(awaiting, block) {
        let i = choose|i: int| 0 <= i < awaiting.len() && (#[trigger] awaiting[i]).1.is_block(block);
        assert(after[i].1.is_block(block));
    }
    assert(after[awaiting.len() as int] == one);
    if awaits(after, block) && !one.1.is_block(block) {
        let i = choose|i: int| 0 <= i < after.len() && (#[trigger] after[i]).1.is_block(block);
        assert(awaiting[i].1.is_block(block));
    }
}

pub proof fn lemma_awaits_remove(awaiting: Seq<(u64, Owed)>, at: int, block: u64)
    requires
        0 <= at < awaiting.len(),
    ensures
        awaits(awaiting, block) == (awaits(awaiting.remove(at), block) || awaiting[at].1.is_block(
            block,
        )),
{
    let rest = awaiting.remove(at);
    if awaits(rest, block) {
        let i = choose|i: int| 0 <= i < rest.len() && (#[trigger] rest[i]).1.is_block(block);
        if i < at {
            assert(awaiting[i].1.is_block(block));
        } else {
            assert(awaiting[i + 1].1.is_block(block));
        }
    }
    if awaits(awaiting, block) && !awaiting[at].1.is_block(block) {
        let i = choose|i: int| 0 <= i < awaiting.len() && (#[trigger] awaiting[i]).1.is_block(block);
        if i < at {
            assert(rest[i].1.is_block(block));
        } else {
            assert(rest[i - 1].1.is_block(block));
        }
    }
}

} // verus!
