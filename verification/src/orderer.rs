//! Replies leave a lane in the order of the seqs it was given, however their work finished.
//!
//! A place is reserved when a command is taken and filled when its work finishes: releasing in the order
//! things finished would be the device's order, not the lane's.

use std::collections::{BTreeMap, VecDeque};

use vstd::laws_cmp::group_laws_cmp;
use vstd::prelude::*;
use vstd::std_specs::btree::group_btree_axioms;

use crate::lane::{
    lemma_expected_waits, lemma_filled_waits, lemma_released_waits, Held, Lane, LaneView, UNORDERED,
};
use crate::ledger::AccountId;
use crate::stats::{add_count, plus};

verus! {

broadcast use {group_btree_axioms, group_laws_cmp};

/// What putting a lane back in order cost. Each count stays at the largest a word can carry.
#[derive(Clone, Copy, Debug, PartialEq, Eq, Structural)]
pub struct OrderWait {
    pub released: u64,
    /// Replies that arrived behind a place their lane had not released yet. Only these pay order-wait.
    pub held_for_order: u64,
    pub order_nanos: u64,
    pub order_worst_nanos: u64,
    /// What replies waited that had nothing ahead of them.
    pub delivery_nanos: u64,
    /// The deepest a single lane got.
    pub deepest_lane: usize,
}

impl Default for OrderWait {
    fn default() -> (wait: Self)
        ensures
            wait == no_wait(),
    {
        OrderWait {
            released: 0,
            held_for_order: 0,
            order_nanos: 0,
            order_worst_nanos: 0,
            delivery_nanos: 0,
            deepest_lane: 0,
        }
    }
}

pub open spec fn no_wait() -> OrderWait {
    OrderWait {
        released: 0,
        held_for_order: 0,
        order_nanos: 0,
        order_worst_nanos: 0,
        delivery_nanos: 0,
        deepest_lane: 0,
    }
}

/// The wait with one more reply handed over to a lane that is now this deep.
pub open spec fn wait_filled(wait: OrderWait, depth: nat, blocked: bool) -> OrderWait {
    let word = if depth <= usize::MAX {
        depth as usize
    } else {
        usize::MAX
    };
    OrderWait {
        deepest_lane: if wait.deepest_lane < word {
            word
        } else {
            wait.deepest_lane
        },
        held_for_order: if blocked {
            plus(wait.held_for_order, 1)
        } else {
            wait.held_for_order
        },
        ..wait
    }
}

/// The wait with one more reply gone, that was ready this long ago.
pub open spec fn wait_released(wait: OrderWait, waited: u64, blocked: bool) -> OrderWait {
    let gone = OrderWait { released: plus(wait.released, 1), ..wait };
    if blocked {
        OrderWait {
            order_nanos: plus(wait.order_nanos, waited),
            order_worst_nanos: if wait.order_worst_nanos < waited {
                waited
            } else {
                wait.order_worst_nanos
            },
            ..gone
        }
    } else {
        OrderWait { delivery_nanos: plus(wait.delivery_nanos, waited), ..gone }
    }
}

/// How long ago, where that is not in the future.
pub open spec fn since(now: u64, then: u64) -> u64 {
    if now >= then {
        (now - then) as u64
    } else {
        0
    }
}

/// The replies the lanes in rotation hold, together.
pub open spec fn waiting_in<T>(turns: Seq<u64>, lanes: Map<u64, LaneView<T>>) -> nat
    decreases turns.len(),
{
    if turns.len() == 0 {
        0
    } else {
        waiting_in(turns.drop_last(), lanes) + lanes[turns.last()].waiting()
    }
}

/// The lanes in rotation with a reply that may leave.
pub open spec fn releasable<T>(turns: Seq<u64>, lanes: Map<u64, LaneView<T>>) -> nat
    decreases turns.len(),
{
    if turns.len() == 0 {
        0
    } else {
        releasable(turns.drop_last(), lanes) + if lanes[turns.last()].head() is Some {
            1nat
        } else {
            0nat
        }
    }
}

pub struct Orderer<T> {
    lanes: BTreeMap<u64, Lane<T>>,
    /// Lanes with something waiting, so that releasing does not walk every lane ever seen.
    rotation: VecDeque<u64>,
    held: usize,
    /// Break the order on purpose, so that whoever checks it can be tested.
    violate_every: u32,
    pushes: u32,
    wait: OrderWait,
}

impl<T> Orderer<T> {
    /// Every lane that something has been said of.
    pub closed spec fn lanes(&self) -> Map<u64, LaneView<T>> {
        self.lanes@.map_values(|lane: Lane<T>| lane@)
    }

    /// A lane, quiet unless something has been said of it.
    pub open spec fn lane(&self, id: AccountId) -> LaneView<T> {
        if self.lanes().contains_key(id.0) {
            self.lanes()[id.0]
        } else {
            LaneView::quiet()
        }
    }

    /// The lanes with something waiting, in the order of their turn.
    pub closed spec fn turns(&self) -> Seq<u64> {
        self.rotation@
    }

    /// Replies handed over and not gone.
    pub closed spec fn spec_held(&self) -> usize {
        self.held
    }

    pub closed spec fn waited(&self) -> OrderWait {
        self.wait
    }

    /// The fault: how often, and the replies handed over since the count last came round.
    pub closed spec fn fault(&self) -> (u32, u32) {
        (self.violate_every, self.pushes)
    }

    /// The next reply handed over is one the fault applies to.
    pub open spec fn violates(&self) -> bool {
        self.fault().0 > 0 && next_push(self.fault().1) % self.fault().0 == 0
    }

    pub open spec fn wf(&self) -> bool {
        &&& self.turns().no_duplicates()
        &&& forall|i: int|
            0 <= i < self.turns().len() ==> self.lanes().contains_key(#[trigger] self.turns()[i])
        &&& forall|id: u64| #[trigger]
            self.lanes().contains_key(id) ==> self.lanes()[id].numbered() && (self.turns().contains(id)
                || self.lanes()[id].idle())
        &&& waiting_in(self.turns(), self.lanes()) <= self.spec_held()
    }

    pub fn new(violate_every: u32) -> (orderer: Self)
        ensures
            orderer.wf(),
            orderer.lanes() == Map::<u64, LaneView<T>>::empty(),
            orderer.turns() == Seq::<u64>::empty(),
            orderer.spec_held() == 0,
            orderer.waited() == no_wait(),
            orderer.fault() == (violate_every, 0u32),
    {
        let orderer = Orderer {
            lanes: BTreeMap::new(),
            rotation: VecDeque::new(),
            held: 0,
            violate_every,
            pushes: 0,
            wait: OrderWait::default(),
        };
        assert(orderer.lanes() =~= Map::<u64, LaneView<T>>::empty());
        orderer
    }

    #[verifier::when_used_as_spec(spec_held)]
    pub fn held(&self) -> (held: usize)
        ensures
            held == self.spec_held(),
    {
        self.held
    }

    pub fn order_wait(&self) -> (wait: OrderWait)
        ensures
            wait == self.waited(),
    {
        self.wait
    }

    /// Takes a lane out of the map, a quiet one if nothing has been said of it.
    fn take_lane(&mut self, id: u64) -> (lane: Lane<T>)
        ensures
            lane@ == old(self).lane(AccountId(id)),
            final(self).lanes@ == old(self).lanes@.remove(id),
            final(self).rotation == old(self).rotation,
            final(self).held == old(self).held,
            final(self).violate_every == old(self).violate_every,
            final(self).pushes == old(self).pushes,
            final(self).wait == old(self).wait,
    {
        match self.lanes.remove(&id) {
            Some(lane) => lane,
            None => {
                assert(self.lanes@ =~= old(self).lanes@.remove(id));
                Lane::new()
            },
        }
    }

    /// Whether a lane is in the rotation.
    fn in_rotation(&self, id: u64) -> (there: bool)
        ensures
            there == self.rotation@.contains(id),
    {
        let mut i: usize = 0;
        while i < self.rotation.len()
            invariant
                i <= self.rotation@.len(),
                forall|j: int| 0 <= j < i ==> self.rotation@[j] != id,
            decreases self.rotation@.len() - i,
        {
            if self.rotation[i] == id {
                assert(self.rotation@[i as int] == id);
                return true;
            }
            i += 1;
        }
        false
    }

    /// Reserves this command's place, in the order the commands were taken. An exempt one keeps no place,
    /// so there is nothing to reserve.
    pub fn expect(&mut self, lane: AccountId, seq: u64)
        requires
            old(self).wf(),
            seq < u64::MAX,
        ensures
            final(self).wf(),
            seq == UNORDERED ==> *final(self) == *old(self),
            seq != UNORDERED ==> {
                &&& final(self).lanes() == old(self).lanes().insert(
                    lane.0,
                    old(self).lane(lane).expected(seq),
                )
                &&& final(self).turns() == enrolled(old(self).turns(), lane.0)
                &&& final(self).held() == old(self).held()
                &&& final(self).waited() == old(self).waited()
                &&& final(self).fault() == old(self).fault()
            },
    {
        if seq == UNORDERED {
            return;
        }
        let ghost was = self.lane(lane);
        let ghost lanes = self.lanes();
        let ghost turns = self.turns();
        assert(was.numbered());
        let mut entry = self.take_lane(lane.0);
        entry.expect(seq);
        self.lanes.insert(lane.0, entry);
        if !self.in_rotation(lane.0) {
            self.rotation.push_back(lane.0);
        }
        proof {
            assert(self.lanes() =~= lanes.insert(lane.0, was.expected(seq)));
            lemma_expected_waits(was, seq);
            lemma_touched(turns, lanes, lane.0, was, was.expected(seq));
        }
    }

    /// Hands a finished reply over. It leaves when the lane's earlier places have left and its own work
    /// is done, not before.
    pub fn fill(&mut self, lane: AccountId, seq: u64, ready_at: u64, value: T)
        requires
            old(self).wf(),
            seq < u64::MAX,
            old(self).held() < usize::MAX,
        ensures
            final(self).wf(),
            ({
                let was = old(self).lane(lane);
                let blocked = seq != UNORDERED && seq != was.next;
                let now = was.filled(
                    seq,
                    Held { ready_at, blocked, value },
                    old(self).violates() && seq != UNORDERED,
                );
                &&& final(self).lanes() == old(self).lanes().insert(lane.0, now)
                &&& final(self).turns() == enrolled(old(self).turns(), lane.0)
                &&& final(self).held() == old(self).held() + 1
                &&& final(self).waited() == if seq == UNORDERED {
                    old(self).waited()
                } else {
                    wait_filled(old(self).waited(), now.depth(), blocked)
                }
                &&& final(self).fault() == (old(self).fault().0, next_push(old(self).fault().1))
            }),
    {
        self.pushes = self.pushes.wrapping_add(1);
        let violate = self.violate_every > 0 && self.pushes % self.violate_every == 0 && seq != UNORDERED;
        let ghost was = old(self).lane(lane);
        let ghost lanes = old(self).lanes();
        let ghost turns = old(self).turns();
        assert(was.numbered());
        assert(self.lanes() =~= lanes);
        let mut entry = self.take_lane(lane.0);
        let blocked = seq != UNORDERED && seq != entry.next();
        let held = Held { ready_at, blocked, value };
        let ghost given = held;
        entry.fill(seq, held, violate);
        let depth: usize = entry.depth();
        self.lanes.insert(lane.0, entry);
        if !self.in_rotation(lane.0) {
            self.rotation.push_back(lane.0);
        }
        self.held = self.held + 1;
        if seq != UNORDERED {
            if self.wait.deepest_lane < depth {
                self.wait.deepest_lane = depth;
            }
            if blocked {
                self.wait.held_for_order = add_count(self.wait.held_for_order, 1);
            }
        }
        proof {
            let filled = was.filled(seq, given, violate);
            assert(self.lanes() =~= lanes.insert(lane.0, filled));
            lemma_filled_waits(was, seq, given, violate);
            lemma_touched(turns, lanes, lane.0, was, filled);
        }
    }

    /// The earliest a lane's next reply could leave, so that a virtual clock can jump to it. Only the head
    /// of each waiting lane can be the answer.
    pub fn next_due(&self) -> (due: Option<u64>)
        requires
            self.wf(),
        ensures
            match due {
                Some(at) => (exists|i: int|
                    0 <= i < self.turns().len() && (#[trigger] self.lanes()[self.turns()[i]]).head()
                        is Some && self.lanes()[self.turns()[i]].head()->0.ready_at == at) && (forall|
                    i: int,
                |
                    0 <= i < self.turns().len() && (#[trigger] self.lanes()[self.turns()[i]]).head()
                        is Some ==> at <= self.lanes()[self.turns()[i]].head()->0.ready_at),
                None => forall|i: int|
                    0 <= i < self.turns().len() ==> (#[trigger] self.lanes()[self.turns()[i]]).head()
                        is None,
            },
    {
        let mut earliest: Option<u64> = None;
        let mut i: usize = 0;
        while i < self.rotation.len()
            invariant
                self.wf(),
                i <= self.rotation@.len(),
                match earliest {
                    Some(at) => (exists|j: int|
                        0 <= j < i && (#[trigger] self.lanes()[self.turns()[j]]).head() is Some
                            && self.lanes()[self.turns()[j]].head()->0.ready_at == at) && (forall|j: int|
                        0 <= j < i && (#[trigger] self.lanes()[self.turns()[j]]).head() is Some ==> at
                            <= self.lanes()[self.turns()[j]].head()->0.ready_at),
                    None => forall|j: int|
                        0 <= j < i ==> (#[trigger] self.lanes()[self.turns()[j]]).head() is None,
                },
            decreases self.rotation@.len() - i,
        {
            let id: u64 = self.rotation[i];
            assert(self.lanes().contains_key(self.turns()[i as int]));
            match self.lanes.get(&id) {
                None => {},
                Some(lane) => {
                    assert(self.lanes()[self.turns()[i as int]] == lane@);
                    if let Some(ready_at) = lane.head_ready_at() {
                        match earliest {
                            Some(at) if at <= ready_at => {},
                            _ => {
                                earliest = Some(ready_at);
                            },
                        }
                    }
                },
            }
            i += 1;
        }
        earliest
    }

    /// Replies finished but not releasable, because their lane is waiting for an earlier seq.
    pub fn behind_heads(&self) -> (behind: usize)
        requires
            self.wf(),
        ensures
            behind == if self.held() >= releasable(self.turns(), self.lanes()) {
                self.held() - releasable(self.turns(), self.lanes())
            } else {
                0
            },
    {
        let mut free: usize = 0;
        let mut i: usize = 0;
        while i < self.rotation.len()
            invariant
                self.wf(),
                i <= self.rotation@.len(),
                free <= i,
                free == releasable(self.turns().take(i as int), self.lanes()),
            decreases self.rotation@.len() - i,
        {
            let id: u64 = self.rotation[i];
            assert(self.lanes().contains_key(self.turns()[i as int]));
            assert(self.turns().take(i + 1).drop_last() =~= self.turns().take(i as int));
            assert(self.turns().take(i + 1).last() == id);
            match self.lanes.get(&id) {
                None => {},
                Some(lane) => {
                    assert(self.lanes()[id] == lane@);
                    if lane.head_ready_at().is_some() {
                        free = free + 1;
                    }
                },
            }
            i += 1;
        }
        assert(self.turns().take(self.turns().len() as int) =~= self.turns());
        if self.held >= free {
            self.held - free
        } else {
            0
        }
    }

    /// The next reply due to leave, or nothing: the head of the first lane in rotation whose head is due.
    /// Lanes passed over keep their turn behind the others.
    pub fn pop_ready(&mut self, now: u64) -> (popped: Option<T>)
        requires
            old(self).wf(),
        ensures
            final(self).wf(),
            final(self).fault() == old(self).fault(),
            match popped {
                None => {
                    &&& forall|i: int|
                        0 <= i < old(self).turns().len() ==> !(
                        #[trigger] old(self).lanes()[old(self).turns()[i]]).due(now)
                    &&& final(self).lanes() == old(self).lanes()
                    &&& final(self).turns() == old(self).turns()
                    &&& final(self).held() == old(self).held()
                    &&& final(self).waited() == old(self).waited()
                },
                Some(value) => pops_one(old(self), final(self), now, value),
            },
    {
        let mut left: usize = self.rotation.len();
        let ghost turns = self.turns();
        let ghost lanes = self.lanes();
        proof {
            assert(turns =~= turns.skip(0) + turns.take(0));
        }
        while left > 0
            invariant
                old(self).wf(),
                turns == old(self).turns(),
                lanes == old(self).lanes(),
                left <= turns.len(),
                self.rotation@ == turns.skip(turns.len() - left) + turns.take(turns.len() - left),
                self.lanes() == lanes,
                self.held == old(self).held,
                self.wait == old(self).wait,
                self.fault() == old(self).fault(),
                forall|i: int|
                    0 <= i < turns.len() - left ==> !(#[trigger] lanes[turns[i]]).due(now),
            decreases left,
        {
            let ghost at = turns.len() - left;
            match self.rotation.pop_front() {
                None => {},
                Some(id) => {
                    assert(id == turns[at]);
                    assert(lanes.contains_key(turns[at]));
                    assert(self.rotation@ =~= turns.skip(at + 1) + turns.take(at));
                    let due = match self.lanes.get(&id) {
                        None => false,
                        Some(lane) => {
                            assert(lanes[id] == lane@);
                            match lane.head_ready_at() {
                                Some(ready_at) => ready_at <= now,
                                None => false,
                            }
                        },
                    };
                    if due {
                        let value = self.release_from(id, now, Ghost(turns), Ghost(at), Ghost(lanes));
                        proof {
                            assert(pops(old(self), self, now, at, value->0));
                            assert(pops_one(old(self), self, now, value->0));
                        }
                        return value;
                    }
                    self.rotation.push_back(id);
                    assert(self.rotation@ =~= turns.skip(at + 1) + turns.take(at + 1));
                },
            }
            left = left - 1;
        }
        proof {
            assert(self.rotation@ =~= turns);
        }
        None
    }

    /// Takes the head of a lane that has come out of the rotation, and puts the lane back if anything is
    /// left in it.
    fn release_from(
        &mut self,
        id: u64,
        now: u64,
        turns: Ghost<Seq<u64>>,
        at: Ghost<int>,
        lanes: Ghost<Map<u64, LaneView<T>>>,
    ) -> (value: Option<T>)
        requires
            turns@.no_duplicates(),
            forall|i: int| 0 <= i < turns@.len() ==> lanes@.contains_key(#[trigger] turns@[i]),
            forall|other: u64| #[trigger]
                lanes@.contains_key(other) ==> lanes@[other].numbered() && (turns@.contains(other)
                    || lanes@[other].idle()),
            waiting_in(turns@, lanes@) <= old(self).held,
            0 <= at@ < turns@.len(),
            id == turns@[at@],
            old(self).lanes() == lanes@,
            old(self).rotation@ == turns@.skip(at@ + 1) + turns@.take(at@),
            lanes@[id].due(now),
        ensures
            final(self).wf(),
            final(self).fault() == old(self).fault(),
            ({
                let held = lanes@[id].head()->0;
                let left = lanes@[id].released();
                &&& value == Some(held.value)
                &&& final(self).lanes() == lanes@.insert(id, left)
                &&& final(self).turns() == turned(turns@, at@, !left.idle())
                &&& final(self).held() == old(self).held() - 1
                &&& final(self).waited() == wait_released(
                    old(self).waited(),
                    since(now, held.ready_at),
                    held.blocked,
                )
            }),
    {
        let ghost was = lanes@[id];
        let mut lane = self.take_lane(id);
        assert(lane@ == was);
        let held = lane.release();
        let idle = lane.is_idle();
        self.lanes.insert(id, lane);
        if !idle {
            self.rotation.push_back(id);
        }
        proof {
            let left = was.released();
            lemma_released_waits(was);
            assert(self.lanes() =~= lanes@.insert(id, left));
            assert(self.rotation@ =~= turned(turns@, at@, !idle));
            lemma_turned(turns@, lanes@, at@, left);
        }
        match held {
            None => None,
            Some(held) => {
                self.held = self.held - 1;
                self.wait.released = add_count(self.wait.released, 1);
                let waited: u64 = if now >= held.ready_at {
                    now - held.ready_at
                } else {
                    0
                };
                if held.blocked {
                    self.wait.order_nanos = add_count(self.wait.order_nanos, waited);
                    if self.wait.order_worst_nanos < waited {
                        self.wait.order_worst_nanos = waited;
                    }
                } else {
                    self.wait.delivery_nanos = add_count(self.wait.delivery_nanos, waited);
                }
                Some(held.value)
            },
        }
    }
}

/// The count of replies handed over, one on.
pub open spec fn next_push(pushes: u32) -> u32 {
    if pushes == u32::MAX {
        0
    } else {
        (pushes + 1) as u32
    }
}

/// The turns with a lane among them, behind the others if it was not.
pub open spec fn enrolled(turns: Seq<u64>, id: u64) -> Seq<u64> {
    if turns.contains(id) {
        turns
    } else {
        turns.push(id)
    }
}

/// The turns once the lanes before one have been passed over and that one has had its turn.
pub open spec fn turned(turns: Seq<u64>, at: int, again: bool) -> Seq<u64> {
    let passed = turns.skip(at + 1) + turns.take(at);
    if again {
        passed.push(turns[at])
    } else {
        passed
    }
}

/// The lane at this turn gave up its head, the first whose head was due.
pub open spec fn pops<T>(was: &Orderer<T>, now_is: &Orderer<T>, now: u64, at: int, value: T) -> bool {
    let id = was.turns()[at];
    let lane = was.lanes()[id];
    &&& 0 <= at < was.turns().len()
    &&& lane.due(now)
    &&& forall|i: int| 0 <= i < at ==> !(#[trigger] was.lanes()[was.turns()[i]]).due(now)
    &&& value == lane.head()->0.value
    &&& now_is.lanes() == was.lanes().insert(id, lane.released())
    &&& now_is.turns() == turned(was.turns(), at, !lane.released().idle())
    &&& now_is.held() == was.held() - 1
    &&& now_is.waited() == wait_released(
        was.waited(),
        since(now, lane.head()->0.ready_at),
        lane.head()->0.blocked,
    )
}

/// Some lane gave up its head, the first in rotation whose head was due.
pub open spec fn pops_one<T>(was: &Orderer<T>, now_is: &Orderer<T>, now: u64, value: T) -> bool {
    exists|at: int| #[trigger] pops(was, now_is, now, at, value)
}

/// A lane with a reply due does not wait for any other: if some lane's head is due, something leaves.
pub proof fn law_no_lane_holds_another_up<T>(
    was: &Orderer<T>,
    now_is: &Orderer<T>,
    now: u64,
    popped: Option<T>,
    i: int,
)
    requires
        was.wf(),
        popped is None ==> forall|j: int|
            0 <= j < was.turns().len() ==> !(#[trigger] was.lanes()[was.turns()[j]]).due(now),
        popped matches Some(value) ==> pops_one(was, now_is, now, value),
        0 <= i < was.turns().len(),
        was.lanes()[was.turns()[i]].due(now),
    ensures
        popped is Some,
        forall|id: u64|
            was.lanes().contains_key(id) && #[trigger] now_is.lanes()[id] != was.lanes()[id]
                ==> was.lanes()[id].due(now) && now_is.lanes()[id] == was.lanes()[id].released(),
{
    if let Some(value) = popped {
        let at = choose|at: int| #[trigger] pops(was, now_is, now, at, value);
        assert(pops(was, now_is, now, at, value));
    }
}

/// Every lane with a reply in it has a turn coming.
pub proof fn law_every_waiting_lane_has_a_turn<T>(orderer: &Orderer<T>, id: AccountId)
    requires
        orderer.wf(),
        orderer.lane(id).head() is Some,
    ensures
        orderer.turns().contains(id.0),
{
    let lane = orderer.lane(id);
    if lane.idle() {
        assert(!lane.places.dom().contains(lane.next));
    }
}

proof fn lemma_waiting_elsewhere<T>(
    turns: Seq<u64>,
    lanes: Map<u64, LaneView<T>>,
    id: u64,
    lane: LaneView<T>,
)
    requires
        !turns.contains(id),
    ensures
        waiting_in(turns, lanes.insert(id, lane)) == waiting_in(turns, lanes),
    decreases turns.len(),
{
    if turns.len() > 0 {
        let rest = turns.drop_last();
        assert(!rest.contains(id)) by {
            if rest.contains(id) {
                let i = choose|i: int| 0 <= i < rest.len() && rest[i] == id;
                assert(turns[i] == id);
            }
        }
        assert(turns[turns.len() - 1] != id);
        lemma_waiting_elsewhere(rest, lanes, id, lane);
    }
}

proof fn lemma_waiting_split<T>(turns: Seq<u64>, lanes: Map<u64, LaneView<T>>, at: int)
    requires
        0 <= at < turns.len(),
    ensures
        waiting_in(turns, lanes) == waiting_in(turns.take(at), lanes) + lanes[turns[at]].waiting()
            + waiting_in(turns.skip(at + 1), lanes),
    decreases turns.len(),
{
    let rest = turns.drop_last();
    if at == turns.len() - 1 {
        assert(turns.take(at) =~= rest);
        assert(turns.skip(at + 1) =~= Seq::<u64>::empty());
    } else {
        lemma_waiting_split(rest, lanes, at);
        assert(rest.take(at) =~= turns.take(at));
        assert(turns.skip(at + 1).drop_last() =~= rest.skip(at + 1));
        assert(turns.skip(at + 1).last() == turns.last());
    }
}

proof fn lemma_waiting_joined<T>(one: Seq<u64>, other: Seq<u64>, lanes: Map<u64, LaneView<T>>)
    ensures
        waiting_in(one + other, lanes) == waiting_in(one, lanes) + waiting_in(other, lanes),
    decreases other.len(),
{
    if other.len() == 0 {
        assert(one + other =~= one);
    } else {
        lemma_waiting_joined(one, other.drop_last(), lanes);
        assert((one + other).drop_last() =~= one + other.drop_last());
        assert((one + other).last() == other.last());
    }
}

/// A lane that something was said of has a turn, and the replies in rotation are more by what it gained.
proof fn lemma_touched<T>(
    turns: Seq<u64>,
    lanes: Map<u64, LaneView<T>>,
    id: u64,
    was: LaneView<T>,
    now: LaneView<T>,
)
    requires
        turns.no_duplicates(),
        forall|i: int| 0 <= i < turns.len() ==> lanes.contains_key(#[trigger] turns[i]),
        forall|other: u64| #[trigger]
            lanes.contains_key(other) ==> lanes[other].numbered() && (turns.contains(other)
                || lanes[other].idle()),
        was == if lanes.contains_key(id) {
            lanes[id]
        } else {
            LaneView::quiet()
        },
    ensures
        enrolled(turns, id).no_duplicates(),
        forall|i: int|
            0 <= i < enrolled(turns, id).len() ==> lanes.insert(id, now).contains_key(
                #[trigger] enrolled(turns, id)[i],
            ),
        forall|other: u64| #[trigger]
            lanes.insert(id, now).contains_key(other) ==> enrolled(turns, id).contains(other)
                || lanes.insert(id, now)[other].idle(),
        waiting_in(enrolled(turns, id), lanes.insert(id, now)) + was.waiting() == waiting_in(
            turns,
            lanes,
        ) + now.waiting(),
{
    let after = lanes.insert(id, now);
    let all = enrolled(turns, id);
    if turns.contains(id) {
        let at = choose|at: int| 0 <= at < turns.len() && turns[at] == id;
        lemma_waiting_split(turns, lanes, at);
        lemma_waiting_split(turns, after, at);
        assert(!turns.take(at).contains(id));
        assert(!turns.skip(at + 1).contains(id)) by {
            let rest = turns.skip(at + 1);
            if rest.contains(id) {
                let i = choose|i: int| 0 <= i < rest.len() && rest[i] == id;
                assert(turns[at + 1 + i] == id);
            }
        }
        lemma_waiting_elsewhere(turns.take(at), lanes, id, now);
        lemma_waiting_elsewhere(turns.skip(at + 1), lanes, id, now);
    } else {
        lemma_waiting_elsewhere(turns, lanes, id, now);
        assert(all.drop_last() =~= turns);
        assert(was.idle());
        lemma_idle_waits_for_nothing(was);
        assert(all[turns.len() as int] == id);
        assert forall|other: u64| #[trigger] turns.contains(other) implies all.contains(other) by {
            let i = choose|i: int| 0 <= i < turns.len() && turns[i] == other;
            assert(all[i] == other);
        }
        assert(all.contains(id));
    }
}

proof fn lemma_idle_waits_for_nothing<T>(lane: LaneView<T>)
    requires
        lane.idle(),
    ensures
        lane.waiting() == 0,
{
    assert(lane.taken() =~= Set::<u64>::empty());
}

/// What holds of the turns and the lanes once a lane has given up its head.
proof fn lemma_turned<T>(
    turns: Seq<u64>,
    lanes: Map<u64, LaneView<T>>,
    at: int,
    left: LaneView<T>,
)
    requires
        turns.no_duplicates(),
        forall|i: int| 0 <= i < turns.len() ==> lanes.contains_key(#[trigger] turns[i]),
        forall|other: u64| #[trigger]
            lanes.contains_key(other) ==> turns.contains(other) || lanes[other].idle(),
        0 <= at < turns.len(),
        left.waiting() + 1 == lanes[turns[at]].waiting(),
    ensures
        ({
            let now = turned(turns, at, !left.idle());
            let after = lanes.insert(turns[at], left);
            &&& now.no_duplicates()
            &&& forall|i: int| 0 <= i < now.len() ==> after.contains_key(#[trigger] now[i])
            &&& forall|other: u64| #[trigger]
                after.contains_key(other) ==> now.contains(other) || after[other].idle()
            &&& waiting_in(now, after) + 1 == waiting_in(turns, lanes)
        }),
{
    let id = turns[at];
    let front = turns.skip(at + 1);
    let back = turns.take(at);
    let passed = front + back;
    let now = turned(turns, at, !left.idle());
    let after = lanes.insert(id, left);
    assert forall|i: int| 0 <= i < passed.len() implies (#[trigger] passed[i]) == turns[if i
        < front.len() {
        i + at + 1
    } else {
        i - front.len()
    }] by {}
    assert(!passed.contains(id));
    lemma_waiting_split(turns, lanes, at);
    lemma_waiting_joined(front, back, lanes);
    lemma_waiting_elsewhere(passed, lanes, id, left);
    if left.idle() {
        lemma_idle_waits_for_nothing(left);
    } else {
        assert(now.drop_last() =~= passed);
        assert(now[now.len() - 1] == id);
    }
    assert forall|i: int| 0 <= i < now.len() implies after.contains_key(#[trigger] now[i]) by {
        if i < passed.len() {
            assert(now[i] == passed[i]);
        }
    }
    assert forall|other: u64| #[trigger] after.contains_key(other) implies now.contains(other)
        || after[other].idle() by {
        if other == id {
            if !left.idle() {
                assert(now[now.len() - 1] == other);
            }
        } else if turns.contains(other) {
            let i = choose|i: int| 0 <= i < turns.len() && turns[i] == other;
            let j = if i < at {
                i + front.len()
            } else {
                i - at - 1
            };
            assert(passed[j] == other);
            assert(now[j] == other);
        }
    }
    assert(now.no_duplicates()) by {
        assert forall|i: int, j: int| 0 <= i < now.len() && 0 <= j < now.len() && i != j implies now[i]
            != now[j] by {
            if i < passed.len() {
                assert(now[i] == passed[i]);
                assert(passed.contains(passed[i]));
            }
            if j < passed.len() {
                assert(now[j] == passed[j]);
                assert(passed.contains(passed[j]));
            }
        }
    }
}

/// A reply is counted once when it arrives, as held for its order exactly if something was before it, and once
/// when it leaves. What it waited is order-wait if it was held for its order and delivery if it was not, never
/// both; the worst and the deepest only ever grow.
pub proof fn law_what_a_reply_waited_is_counted_once(wait: OrderWait, depth: nat, waited: u64)
    requires
        depth <= usize::MAX,
        wait.held_for_order < u64::MAX,
        wait.released < u64::MAX,
        wait.order_nanos + waited <= u64::MAX,
        wait.delivery_nanos + waited <= u64::MAX,
    ensures
        ({
            let held = wait_filled(wait, depth, true);
            let free = wait_filled(wait, depth, false);
            &&& held.held_for_order == wait.held_for_order + 1
            &&& free.held_for_order == wait.held_for_order
            &&& held.deepest_lane == free.deepest_lane
            &&& held.deepest_lane >= depth && held.deepest_lane >= wait.deepest_lane
            &&& held.deepest_lane == depth || held.deepest_lane == wait.deepest_lane
            &&& held.released == wait.released && free.released == wait.released
            &&& held.order_nanos == wait.order_nanos && free.order_nanos == wait.order_nanos
            &&& held.delivery_nanos == wait.delivery_nanos && free.delivery_nanos == wait.delivery_nanos
        }),
        ({
            let held = wait_released(wait, waited, true);
            let free = wait_released(wait, waited, false);
            &&& held.released == wait.released + 1 && free.released == wait.released + 1
            &&& held.order_nanos == wait.order_nanos + waited && held.delivery_nanos
                == wait.delivery_nanos
            &&& held.order_worst_nanos >= waited && held.order_worst_nanos >= wait.order_worst_nanos
            &&& held.order_worst_nanos == waited || held.order_worst_nanos == wait.order_worst_nanos
            &&& free.delivery_nanos == wait.delivery_nanos + waited && free.order_nanos
                == wait.order_nanos
            &&& free.order_worst_nanos == wait.order_worst_nanos
            &&& held.held_for_order == wait.held_for_order && held.deepest_lane == wait.deepest_lane
            &&& free.held_for_order == wait.held_for_order && free.deepest_lane == wait.deepest_lane
        }),
{
}

/// What has passed since a time that is behind is the difference, and since one that is ahead nothing.
pub proof fn law_time_only_passes_forwards(now: u64, then: u64)
    ensures
        then <= now ==> then + since(now, then) == now,
        now <= then ==> since(now, then) == 0,
{
}

/// A lane that has had its turn goes to the back, and those that were passed over keep their turns behind the
/// ones after it: every lane that had a turn keeps one, except the one that has nothing left.
pub proof fn law_a_turn_goes_to_the_back(turns: Seq<u64>, at: int, again: bool)
    requires
        0 <= at < turns.len(),
    ensures
        ({
            let after = turned(turns, at, again);
            &&& again ==> after.len() == turns.len() && after.last() == turns[at]
            &&& !again ==> after.len() == turns.len() - 1
            &&& forall|i: int| at < i < turns.len() ==> after[i - at - 1] == #[trigger] turns[i]
            &&& forall|i: int|
                0 <= i < at ==> after[turns.len() - at - 1 + i] == #[trigger] turns[i]
        }),
{
}

/// A lane has at most one turn, and a new one comes behind the others.
pub proof fn law_a_lane_has_one_turn(turns: Seq<u64>, id: u64)
    requires
        turns.no_duplicates(),
    ensures
        enrolled(turns, id).contains(id),
        enrolled(turns, id).no_duplicates(),
        turns.contains(id) ==> enrolled(turns, id) == turns,
        !turns.contains(id) ==> enrolled(turns, id).last() == id && enrolled(turns, id).drop_last() == turns,
{
    if !turns.contains(id) {
        assert(turns.push(id)[turns.len() as int] == id);
        assert(turns.push(id).drop_last() =~= turns);
    }
}

/// The reply that leaves is the head of the first lane in turn whose head is due, and only that lane moves.
pub proof fn law_the_first_lane_that_is_due_goes<T>(
    was: &Orderer<T>,
    now_is: &Orderer<T>,
    now: u64,
    at: int,
    value: T,
    other: u64,
)
    requires
        pops(was, now_is, now, at, value),
        other != was.turns()[at],
    ensures
        ({
            let lane = was.lanes()[was.turns()[at]];
            &&& lane.head() matches Some(held) && held.ready_at <= now && held.value == value
            &&& forall|i: int|
                0 <= i < at ==> ((#[trigger] was.lanes()[was.turns()[i]]).head() matches Some(held)
                    ==> held.ready_at > now)
            &&& now_is.lanes()[was.turns()[at]] == lane.released()
            &&& now_is.lanes().contains_key(other) == was.lanes().contains_key(other)
            &&& was.lanes().contains_key(other) ==> now_is.lanes()[other] == was.lanes()[other]
            &&& now_is.held() + 1 == was.held()
        }),
{
}

/// Which reply the order is broken for is decided by its number alone: one in every so many, and none if the
/// fault is off.
pub proof fn law_the_order_is_broken_once_in_so_many<T>(orderer: &Orderer<T>)
    requires
        orderer.fault().1 < u32::MAX,
    ensures
        orderer.fault().0 == 0 ==> !orderer.violates(),
        orderer.fault().0 > 0 ==> (orderer.violates() <==> (orderer.fault().1 + 1)
            % orderer.fault().0 as int == 0),
{
}

/// Of the replies held, as many can go at once as there are lanes with one at their head; a lane more or less
/// changes that by one at most.
pub proof fn law_a_lane_can_release_one_at_a_time<T>(
    turns: Seq<u64>,
    lanes: Map<u64, LaneView<T>>,
    id: u64,
)
    ensures
        releasable(Seq::<u64>::empty(), lanes) == 0,
        releasable(turns.push(id), lanes) == releasable(turns, lanes) + if lanes[id].head() is Some {
            1int
        } else {
            0
        },
        waiting_in(turns.push(id), lanes) == waiting_in(turns, lanes) + lanes[id].waiting(),
        releasable(turns, lanes) <= turns.len(),
    decreases turns.len(),
{
    assert(turns.push(id).drop_last() =~= turns);
    if turns.len() > 0 {
        law_a_lane_can_release_one_at_a_time(turns.drop_last(), lanes, id);
    }
}

} // verus!
