//! One lane's replies: the places reserved for them, and what may leave next.

use std::collections::{BTreeMap, VecDeque};

use vstd::laws_cmp::group_laws_cmp;
use vstd::prelude::*;
use vstd::std_specs::btree::group_btree_axioms;

verus! {

broadcast use {group_btree_axioms, group_laws_cmp};

/// The seq of a reply that keeps no place in its lane.
pub const UNORDERED: u64 = 0;

/// A finished reply, waiting to leave.
pub struct Held<T> {
    /// When the work behind this reply finished.
    pub ready_at: u64,
    /// Whether an earlier seq on its lane had still to go when this arrived.
    pub blocked: bool,
    pub value: T,
}

/// What a lane holds.
pub struct LaneView<T> {
    /// The seq this lane may release next.
    pub next: u64,
    /// Reserved in command order; empty until the work behind a place finishes.
    pub places: Map<u64, Option<Held<T>>>,
    /// Replies that keep no place in the lane, oldest first.
    pub exempt: Seq<Held<T>>,
    /// Where the fault has sent a reply that has not arrived yet.
    pub swapped: Map<u64, u64>,
}

impl<T> LaneView<T> {
    /// A lane that nothing has been said of.
    pub open spec fn quiet() -> LaneView<T> {
        LaneView { next: 0, places: Map::empty(), exempt: Seq::empty(), swapped: Map::empty() }
    }

    /// Nothing waits in this lane, and nothing is expected.
    pub open spec fn idle(self) -> bool {
        self.places.is_empty() && self.exempt.len() == 0 && self.swapped.is_empty()
    }

    /// With a place reserved. The first one after the lane falls quiet is where its run begins.
    pub open spec fn expected(self, seq: u64) -> LaneView<T> {
        LaneView {
            next: if self.places.is_empty() {
                seq
            } else {
                self.next
            },
            places: self.places.insert(seq, None),
            ..self
        }
    }

    /// With a finished reply handed over. Ordinarily it fills the place reserved for it. The fault makes
    /// two places trade contents: both are still filled and still released, in each other's turn.
    pub open spec fn filled(self, seq: u64, held: Held<T>, violate: bool) -> LaneView<T> {
        if seq == UNORDERED {
            LaneView { exempt: self.exempt.push(held), ..self }
        } else if self.swapped.contains_key(seq) {
            LaneView {
                places: self.places.insert(self.swapped[seq], Some(held)),
                swapped: self.swapped.remove(seq),
                ..self
            }
        } else if violate && self.next != seq && self.places.contains_key(self.next) {
            match self.places[self.next] {
                Some(other) => LaneView {
                    places: self.places.insert(self.next, Some(held)).insert(seq, Some(other)),
                    ..self
                },
                None => LaneView {
                    places: self.places.insert(self.next, Some(held)).insert(seq, None),
                    swapped: self.swapped.insert(self.next, seq),
                    ..self
                },
            }
        } else {
            LaneView { places: self.places.insert(seq, Some(held)), ..self }
        }
    }

    /// The reply that may leave now: an exempt one, which never waits for a place, or the one at the place
    /// the lane is waiting for, once that is filled.
    pub open spec fn head(self) -> Option<Held<T>> {
        if self.exempt.len() > 0 {
            Some(self.exempt[0])
        } else if self.places.contains_key(self.next) {
            self.places[self.next]
        } else {
            None
        }
    }

    /// With the reply at the head gone.
    pub open spec fn released(self) -> LaneView<T> {
        if self.exempt.len() > 0 {
            LaneView { exempt: self.exempt.drop_first(), ..self }
        } else {
            LaneView { next: (self.next + 1) as u64, places: self.places.remove(self.next), ..self }
        }
    }

    /// The head has finished its own work by now.
    pub open spec fn due(self, now: u64) -> bool {
        self.head() matches Some(held) && held.ready_at <= now
    }

    /// Places and exempt replies together.
    pub open spec fn depth(self) -> nat {
        self.places.len() + self.exempt.len()
    }

    /// The places with a reply in them.
    pub open spec fn taken(self) -> Set<u64> {
        self.places.dom().filter(|seq: u64| self.places[seq] is Some)
    }

    /// Replies handed over and not gone.
    pub open spec fn waiting(self) -> nat {
        self.taken().len() + self.exempt.len()
    }

    /// Every place has a number, and one that another can follow.
    pub open spec fn numbered(self) -> bool {
        &&& self.places.dom().finite()
        &&& forall|seq: u64| #[trigger]
            self.places.contains_key(seq) ==> seq != UNORDERED && seq < u64::MAX
        &&& forall|seq: u64| #[trigger]
            self.swapped.contains_key(seq) ==> self.swapped[seq] != UNORDERED && self.swapped[seq]
                < u64::MAX
    }
}

/// A reply fills the place of its own seq and disturbs no other, unless a place was traded before.
pub proof fn law_a_reply_fills_its_own_place<T>(lane: LaneView<T>, seq: u64, held: Held<T>)
    requires
        seq != UNORDERED,
        !lane.swapped.contains_key(seq),
    ensures
        ({
            let after = lane.filled(seq, held, false);
            &&& after.places.contains_key(seq) && after.places[seq] == Some(held)
            &&& forall|other: u64| #[trigger]
                after.places.contains_key(other) && other != seq ==> lane.places.contains_key(other)
                    && after.places[other] == lane.places[other]
            &&& after.next == lane.next
            &&& after.exempt == lane.exempt
            &&& after.swapped == lane.swapped
        }),
{
}

/// A lane's ordered replies leave in the order of their seq, one after the other: what leaves is at the
/// place the lane waits for, the next one to leave is at the place after it, and nothing at a later place
/// goes before. A place reserved meanwhile changes nothing of that.
pub proof fn law_a_lane_leaves_in_the_order_of_its_seqs<T>(lane: LaneView<T>, later: u64, more: u64)
    requires
        lane.numbered(),
        lane.exempt.len() == 0,
        lane.head() is Some,
        lane.places.contains_key(later),
        later != lane.next,
    ensures
        lane.places.contains_key(lane.next) && lane.head() == lane.places[lane.next],
        lane.released().next == lane.next + 1,
        !lane.released().places.contains_key(lane.next),
        lane.released().places.contains_key(later),
        lane.released().places[later] == lane.places[later],
        lane.expected(more).next == lane.next,
        more != lane.next ==> lane.expected(more).head() == lane.head(),
{
    assert(lane.places.dom().contains(later));
}

/// A place that is not filled holds up the lane: nothing ordered leaves before its work is done.
pub proof fn law_an_empty_place_holds_its_lane<T>(lane: LaneView<T>)
    requires
        lane.exempt.len() == 0,
        lane.places.contains_key(lane.next),
        lane.places[lane.next] is None,
    ensures
        lane.head() is None,
        forall|now: u64| !(#[trigger] lane.due(now)),
{
}

/// A run begins at whatever place is reserved after the lane fell quiet.
pub proof fn law_a_run_begins_where_it_begins<T>(lane: LaneView<T>, seq: u64, held: Held<T>)
    requires
        lane.idle(),
        seq != UNORDERED,
    ensures
        lane.expected(seq).filled(seq, held, false).head() == Some(held),
{
    assert(!lane.swapped.dom().contains(seq));
}

/// Exempt replies leave at once and in the order they came, and do not disturb the numbering of the
/// replies that keep a place.
pub proof fn law_exempt_replies_keep_no_place<T>(lane: LaneView<T>, held: Held<T>, violate: bool)
    ensures
        ({
            let after = lane.filled(UNORDERED, held, violate);
            &&& after.exempt == lane.exempt.push(held)
            &&& after.head() == if lane.exempt.len() > 0 {
                lane.head()
            } else {
                Some(held)
            }
            &&& after.released().places == lane.places
            &&& after.released().next == lane.next
            &&& after.released().exempt == lane.exempt.push(held).drop_first()
        }),
{
}

/// The fault loses no reply. One that takes the turn of a reply already there trades places with it; one
/// that takes the turn of a reply still to come leaves its own place for that one.
pub proof fn law_the_fault_loses_no_reply<T>(
    lane: LaneView<T>,
    seq: u64,
    held: Held<T>,
    other: Held<T>,
)
    requires
        lane.next != UNORDERED,
        seq != UNORDERED,
        seq != lane.next,
        !lane.swapped.contains_key(seq),
        lane.places.contains_key(lane.next),
        lane.places[lane.next] is Some ==> lane.places[lane.next] == Some(other),
    ensures
        ({
            let after = lane.filled(seq, held, true);
            let both = if lane.places[lane.next] is Some {
                after
            } else {
                after.filled(lane.next, other, false)
            };
            &&& both.places[lane.next] == Some(held)
            &&& both.places[seq] == Some(other)
            &&& both.places.contains_key(lane.next)
            &&& both.places.contains_key(seq)
            &&& both.next == lane.next
        }),
{
}

/// What happens to a lane.
pub ghost enum LaneEvent<T> {
    /// A place is reserved.
    Expect(u64),
    /// A finished reply is handed over.
    Fill(u64, Held<T>),
    /// Whatever may leave does.
    Release,
}

/// The lane after an event.
pub open spec fn after_event<T>(lane: LaneView<T>, event: LaneEvent<T>) -> LaneView<T> {
    match event {
        LaneEvent::Expect(seq) => lane.expected(seq),
        LaneEvent::Fill(seq, held) => lane.filled(seq, held, false),
        LaneEvent::Release => if lane.head() is Some {
            lane.released()
        } else {
            lane
        },
    }
}

/// The lane after a run of events.
pub open spec fn after_run<T>(lane: LaneView<T>, events: Seq<LaneEvent<T>>) -> LaneView<T>
    decreases events.len(),
{
    if events.len() == 0 {
        lane
    } else {
        after_event(after_run(lane, events.drop_last()), events.last())
    }
}

/// The replies that keep a place and left in a run of events, each with its place, in the order they left.
pub open spec fn left_in<T>(lane: LaneView<T>, events: Seq<LaneEvent<T>>) -> Seq<(u64, Held<T>)>
    decreases events.len(),
{
    if events.len() == 0 {
        Seq::empty()
    } else {
        let before = left_in(lane, events.drop_last());
        let at = after_run(lane, events.drop_last());
        if events.last() is Release && at.exempt.len() == 0 && at.head() is Some {
            before.push((at.next, at.head()->0))
        } else {
            before
        }
    }
}

/// The last place reserved in a run of events, or the one before the first.
pub open spec fn last_expected<T>(events: Seq<LaneEvent<T>>) -> u64
    decreases events.len(),
{
    if events.len() == 0 {
        UNORDERED
    } else {
        match events.last() {
            LaneEvent::Expect(seq) => seq,
            _ => last_expected(events.drop_last()),
        }
    }
}

/// Places are reserved in the order of their seqs, and a reply is handed over for a place that is reserved,
/// or keeps none.
pub open spec fn orderly<T>(lane: LaneView<T>, events: Seq<LaneEvent<T>>) -> bool
    decreases events.len(),
{
    events.len() > 0 ==> {
        let before = events.drop_last();
        &&& orderly(lane, before)
        &&& match events.last() {
            LaneEvent::Expect(seq) => last_expected(before) < seq < u64::MAX,
            LaneEvent::Fill(seq, _) => seq == UNORDERED || after_run(lane, before).places.contains_key(seq),
            LaneEvent::Release => true,
        }
    }
}

/// Over a whole run of a lane, from when nothing is said of it, its replies leave in the order of their
/// seqs: each place is past every one that left before, what left from a place was handed over for it, and
/// nothing has left from behind a place that is still reserved.
pub proof fn law_a_lane_keeps_its_order_over_a_run<T>(events: Seq<LaneEvent<T>>)
    requires
        orderly(LaneView::<T>::quiet(), events),
    ensures
        ({
            let left = left_in(LaneView::<T>::quiet(), events);
            let lane = after_run(LaneView::<T>::quiet(), events);
            &&& forall|i: int, j: int|
                0 <= i < j < left.len() ==> (#[trigger] left[i]).0 < (#[trigger] left[j]).0
            &&& forall|i: int|
                0 <= i < left.len() ==> events.contains(
                    LaneEvent::Fill((#[trigger] left[i]).0, left[i].1),
                )
            &&& forall|i: int, seq: u64|
                #![trigger left[i], lane.places.contains_key(seq)]
                0 <= i < left.len() && lane.places.contains_key(seq) ==> left[i].0 < seq
        }),
{
    lemma_run(events);
}

proof fn lemma_run<T>(events: Seq<LaneEvent<T>>)
    requires
        orderly(LaneView::<T>::quiet(), events),
    ensures
        ({
            let left = left_in(LaneView::<T>::quiet(), events);
            let lane = after_run(LaneView::<T>::quiet(), events);
            &&& lane.swapped == Map::<u64, u64>::empty()
            &&& lane.places.dom().finite()
            &&& forall|seq: u64| #[trigger]
                lane.places.contains_key(seq) ==> lane.next <= seq <= last_expected(events) && seq < u64::MAX
            &&& forall|seq: u64| #[trigger]
                lane.places.contains_key(seq) && lane.places[seq] is Some ==> events.contains(
                    LaneEvent::Fill(seq, lane.places[seq]->0),
                )
            &&& forall|i: int|
                0 <= i < left.len() ==> (#[trigger] left[i]).0 <= last_expected(events) && left[i].0
                    < lane.next
            &&& forall|i: int, j: int|
                0 <= i < j < left.len() ==> (#[trigger] left[i]).0 < (#[trigger] left[j]).0
            &&& forall|i: int|
                0 <= i < left.len() ==> events.contains(
                    LaneEvent::Fill((#[trigger] left[i]).0, left[i].1),
                )
        }),
    decreases events.len(),
{
    let quiet = LaneView::<T>::quiet();
    if events.len() > 0 {
        let before = events.drop_last();
        lemma_run(before);
        let was = after_run(quiet, before);
        let lane = after_run(quiet, events);
        let had = left_in(quiet, before);
        let left = left_in(quiet, events);
        assert forall|event: LaneEvent<T>| #[trigger] before.contains(event) implies events.contains(
            event,
        ) by {
            let i = choose|i: int| 0 <= i < before.len() && before[i] == event;
            assert(events[i] == event);
        }
        assert(events[events.len() - 1] == events.last());
        match events.last() {
            LaneEvent::Expect(seq) => {
                if was.places.is_empty() {
                    assert forall|other: u64| lane.places.contains_key(other) implies other == seq by {
                        if other != seq {
                            assert(was.places.dom().contains(other));
                        }
                    }
                } else {
                    let some = was.places.dom().choose();
                    assert(was.places.contains_key(some));
                }
            },
            LaneEvent::Fill(seq, held) => {
                assert(!was.swapped.dom().contains(seq));
            },
            LaneEvent::Release => {
                if was.head() is Some && was.exempt.len() == 0 {
                    assert(was.places.contains_key(was.next));
                    assert(before.contains(LaneEvent::Fill(was.next, was.head()->0)));
                }
            },
        }
    }
}

/// One lane's replies.
pub struct Lane<T> {
    next: u64,
    places: BTreeMap<u64, Option<Held<T>>>,
    exempt: VecDeque<Held<T>>,
    swapped: BTreeMap<u64, u64>,
}

impl<T> Lane<T> {
    pub closed spec fn view(&self) -> LaneView<T> {
        LaneView {
            next: self.next,
            places: self.places@,
            exempt: self.exempt@,
            swapped: self.swapped@,
        }
    }

    pub fn new() -> (lane: Self)
        ensures
            lane@ == LaneView::<T>::quiet(),
    {
        Lane {
            next: 0,
            places: BTreeMap::new(),
            exempt: VecDeque::new(),
            swapped: BTreeMap::new(),
        }
    }

    pub fn next(&self) -> (next: u64)
        ensures
            next == self@.next,
    {
        self.next
    }

    /// Reserves a place.
    pub fn expect(&mut self, seq: u64)
        requires
            old(self)@.numbered(),
            seq != UNORDERED,
            seq < u64::MAX,
        ensures
            final(self)@ == old(self)@.expected(seq),
            final(self)@.numbered(),
    {
        if self.places.is_empty() {
            self.next = seq;
        }
        self.places.insert(seq, None);
        assert forall|other: u64| #[trigger] self@.places.contains_key(other) implies other != UNORDERED
            && other < u64::MAX by {
            assert(other == seq || old(self)@.places.contains_key(other));
        }
    }

    /// Hands a finished reply over.
    pub fn fill(&mut self, seq: u64, held: Held<T>, violate: bool)
        requires
            old(self)@.numbered(),
            seq < u64::MAX,
        ensures
            final(self)@ == old(self)@.filled(seq, held, violate),
            final(self)@.numbered(),
    {
        if seq == UNORDERED {
            self.exempt.push_back(held);
            return;
        }
        match self.swapped.remove(&seq) {
            Some(at) => {
                self.places.insert(at, Some(held));
            },
            None => {
                assert(self.swapped@ =~= old(self).swapped@);
                let next: u64 = self.next;
                if violate && next != seq && self.places.contains_key(&next) {
                    match self.places.insert(next, Some(held)) {
                        Some(Some(other)) => {
                            self.places.insert(seq, Some(other));
                        },
                        _ => {
                            self.places.insert(seq, None);
                            self.swapped.insert(next, seq);
                        },
                    }
                } else {
                    self.places.insert(seq, Some(held));
                }
            },
        }
    }

    /// When the reply that may leave now was ready.
    pub fn head_ready_at(&self) -> (ready_at: Option<u64>)
        ensures
            ready_at == match self@.head() {
                Some(held) => Some(held.ready_at),
                None => None,
            },
    {
        if self.exempt.len() > 0 {
            return Some(self.exempt[0].ready_at);
        }
        match self.places.get(&self.next) {
            Some(Some(held)) => Some(held.ready_at),
            _ => None,
        }
    }

    /// Takes the reply at the head out.
    pub fn release(&mut self) -> (held: Option<Held<T>>)
        requires
            old(self)@.numbered(),
        ensures
            held == old(self)@.head(),
            final(self)@ == if old(self)@.head() is Some {
                old(self)@.released()
            } else {
                old(self)@
            },
            final(self)@.numbered(),
    {
        if self.exempt.len() > 0 {
            return self.exempt.pop_front();
        }
        let next: u64 = self.next;
        match self.places.remove(&next) {
            Some(Some(held)) => {
                self.next = next + 1;
                Some(held)
            },
            Some(None) => {
                self.places.insert(next, None);
                assert(self.places@ =~= old(self).places@);
                None
            },
            None => {
                assert(self.places@ =~= old(self).places@);
                None
            },
        }
    }

    pub fn is_idle(&self) -> (idle: bool)
        ensures
            idle == self@.idle(),
    {
        self.places.is_empty() && self.exempt.len() == 0 && self.swapped.is_empty()
    }

    /// Places and exempt replies together, held at the largest a word can carry.
    pub fn depth(&self) -> (depth: usize)
        ensures
            depth == if self@.depth() <= usize::MAX {
                self@.depth()
            } else {
                usize::MAX as nat
            },
    {
        let places: usize = self.places.len();
        let exempt: usize = self.exempt.len();
        if places <= usize::MAX - exempt {
            places + exempt
        } else {
            usize::MAX
        }
    }
}

/// Reserving a place brings no reply.
pub proof fn lemma_expected_waits<T>(lane: LaneView<T>, seq: u64)
    requires
        lane.numbered(),
    ensures
        lane.expected(seq).waiting() <= lane.waiting(),
{
    let after = lane.expected(seq);
    assert(after.taken().subset_of(lane.taken()));
    vstd::set_lib::lemma_len_subset(after.taken(), lane.taken());
}

/// Handing a reply over brings one more at most.
pub proof fn lemma_filled_waits<T>(lane: LaneView<T>, seq: u64, held: Held<T>, violate: bool)
    requires
        lane.numbered(),
    ensures
        lane.filled(seq, held, violate).waiting() <= lane.waiting() + 1,
{
    let after = lane.filled(seq, held, violate);
    if seq == UNORDERED {
        assert(after.taken() =~= lane.taken());
    } else {
        let place = if lane.swapped.contains_key(seq) {
            lane.swapped[seq]
        } else if violate && lane.next != seq && lane.places.contains_key(lane.next)
            && lane.places[lane.next] is None {
            lane.next
        } else {
            seq
        };
        assert(after.taken().subset_of(lane.taken().insert(place)));
        vstd::set_lib::lemma_len_subset(after.taken(), lane.taken().insert(place));
    }
}

/// A reply that leaves is one less.
pub proof fn lemma_released_waits<T>(lane: LaneView<T>)
    requires
        lane.numbered(),
        lane.head() is Some,
    ensures
        lane.released().waiting() + 1 == lane.waiting(),
{
    let after = lane.released();
    if lane.exempt.len() > 0 {
        assert(after.taken() =~= lane.taken());
    } else {
        assert(after.taken() =~= lane.taken().remove(lane.next));
        assert(lane.taken().contains(lane.next));
    }
}

/// A reply waits from when it fills its place until it leaves: filling a place that was kept for it makes one
/// more that waits, and a release one fewer. A place that is expected takes room and waits for nothing.
pub proof fn law_a_reply_waits_until_it_leaves<T>(lane: LaneView<T>, seq: u64, held: Held<T>)
    requires
        lane.numbered(),
        seq != UNORDERED,
        !lane.places.contains_key(seq),
        !lane.swapped.contains_key(seq),
    ensures
        ({
            let kept = lane.expected(seq);
            let filled = kept.filled(seq, held, false);
            &&& kept.waiting() == lane.waiting()
            &&& kept.depth() == lane.depth() + 1
            &&& filled.waiting() == lane.waiting() + 1
            &&& filled.depth() == lane.depth() + 1
        }),
        lane.filled(UNORDERED, held, false).waiting() == lane.waiting() + 1,
        lane.filled(UNORDERED, held, false).depth() == lane.depth() + 1,
        lane.head() is Some ==> lane.released().waiting() == lane.waiting() - 1 && lane.released().depth()
            == lane.depth() - 1,
{
    let kept = lane.expected(seq);
    let filled = kept.filled(seq, held, false);
    assert(kept.taken() =~= lane.taken());
    assert(filled.taken() =~= lane.taken().insert(seq));
    assert(kept.places.dom() =~= lane.places.dom().insert(seq));
    assert(filled.places.dom() =~= lane.places.dom().insert(seq));
    assert(lane.filled(UNORDERED, held, false).taken() =~= lane.taken());
    if lane.head() is Some {
        if lane.exempt.len() > 0 {
            assert(lane.released().taken() =~= lane.taken());
        } else {
            assert(lane.taken().contains(lane.next));
            assert(lane.released().taken() =~= lane.taken().remove(lane.next));
            assert(lane.released().places.dom() =~= lane.places.dom().remove(lane.next));
        }
    }
}

/// A reply is due once its time has come and from then on, and only the reply at the head of its lane is.
pub proof fn law_only_the_head_is_due<T>(lane: LaneView<T>, now: u64, later: u64)
    requires
        now <= later,
    ensures
        lane.due(now) ==> lane.due(later),
        lane.due(now) ==> lane.head() is Some && (lane.head()->0).ready_at <= now,
        lane.head() matches Some(held) ==> lane.due(held.ready_at),
        lane.head() is None ==> !lane.due(now),
        lane.idle() ==> lane.head() is None && lane.depth() == 0,
        LaneView::<T>::quiet().idle(),
{
}

} // verus!
