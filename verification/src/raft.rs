//! A stand-in for consensus: batches commit in the order they were proposed, after a round trip, and nobody
//! waits for one. Replication across nodes is somebody else's.

use std::collections::VecDeque;

use vstd::prelude::*;

use crate::delay::{delay_of, state_after, LatencyRange};
use crate::ledger::ApplyIndex;
use crate::prng::Prng;
use crate::stats::{add_count, plus};

verus! {

#[derive(Clone, Copy, Debug, PartialEq, Eq, Structural)]
pub enum RaftOutcome {
    Committed,
    Failed,
}

/// A batch of effects to be agreed on.
pub struct RaftProposal<E> {
    pub batch_id: u64,
    pub effects: Vec<E>,
}

/// What became of a batch, and where the log then ended.
pub struct RaftCommit<E> {
    pub batch_id: u64,
    pub index: ApplyIndex,
    pub outcome: RaftOutcome,
    pub effects: Vec<E>,
}

#[derive(Clone, Copy, Debug, PartialEq, Eq, Structural)]
pub struct EchoRaftConfig {
    pub queue_capacity: usize,
    pub round_trip: LatencyRange,
    /// Refuse every nth proposal.
    pub fail_every: u64,
    /// Answer every nth pair of proposals in the wrong order, so that whoever checks the order can be
    /// tested. Zero keeps consensus well behaved.
    pub reorder_every: u64,
    pub seed: u64,
    /// Keep a copy of every committed effect, so that a test can replay the log.
    pub keep_log: bool,
}

impl Default for EchoRaftConfig {
    fn default() -> (config: Self)
        ensures
            config == (EchoRaftConfig {
                queue_capacity: 1024,
                round_trip: LatencyRange { shortest: 900_000, longest: 1_400_000 },
                fail_every: 0,
                reorder_every: 0,
                seed: 0x8aff_9e37,
                keep_log: false,
            }),
    {
        EchoRaftConfig {
            queue_capacity: 1024,
            round_trip: LatencyRange::new(900_000, 1_400_000),
            fail_every: 0,
            reorder_every: 0,
            seed: 0x8aff_9e37,
            keep_log: false,
        }
    }
}

/// A proposal on its round trip: when it comes back, and what became of it.
pub struct OnItsWay<E> {
    pub due: u64,
    pub proposal: RaftProposal<E>,
    pub outcome: RaftOutcome,
}

pub struct RaftWorker<E> {
    inflight: VecDeque<OnItsWay<E>>,
    log: Vec<E>,
    keep_log: bool,
    jitter: Prng,
    round_trip: LatencyRange,
    fail_every: u64,
    reorder_every: u64,
    proposals_seen: u64,
    /// The log position the last committed batch took.
    next_index: u64,
}

/// What becomes of a proposal, from how many have been seen with it and which of them fail.
pub open spec fn outcome_of(seen: u64, fail_every: u64) -> RaftOutcome {
    if is_nth(seen, fail_every) {
        RaftOutcome::Failed
    } else {
        RaftOutcome::Committed
    }
}

/// Every nth, where there is an nth at all.
pub open spec fn is_nth(count: u64, every: u64) -> bool {
    every > 0 && count % every == 0
}

/// A queue with its last two the other way round.
pub open spec fn last_two_swapped<A>(queue: Seq<A>) -> Seq<A> {
    let last = queue.len() - 1;
    queue.update(last - 1, queue[last]).update(last, queue[last - 1])
}

impl<E: Copy> RaftWorker<E> {
    /// The proposals on their round trip, in the order they come back.
    pub closed spec fn on_their_way(&self) -> Seq<OnItsWay<E>> {
        self.inflight@
    }

    /// The committed effects, in order, where they are kept.
    pub closed spec fn kept(&self) -> Seq<E> {
        self.log@
    }

    pub closed spec fn keeps(&self) -> bool {
        self.keep_log
    }

    pub closed spec fn index(&self) -> u64 {
        self.next_index
    }

    pub closed spec fn seen(&self) -> u64 {
        self.proposals_seen
    }

    /// How often a proposal is refused, and how often two are answered in the wrong order.
    pub closed spec fn faults(&self) -> (u64, u64) {
        (self.fail_every, self.reorder_every)
    }

    pub closed spec fn travel(&self) -> LatencyRange {
        self.round_trip
    }

    pub closed spec fn draws(&self) -> u64 {
        self.jitter.state
    }

    pub fn new(config: EchoRaftConfig) -> (worker: Self)
        ensures
            worker.on_their_way().len() == 0,
            worker.kept().len() == 0,
            worker.keeps() == config.keep_log,
            worker.index() == 0,
            worker.seen() == 0,
            worker.faults() == (config.fail_every, config.reorder_every),
            worker.travel() == config.round_trip,
            worker.draws() == config.seed,
    {
        RaftWorker {
            inflight: VecDeque::new(),
            log: Vec::new(),
            keep_log: config.keep_log,
            jitter: Prng::new(config.seed),
            round_trip: config.round_trip,
            fail_every: config.fail_every,
            reorder_every: config.reorder_every,
            proposals_seen: 0,
            next_index: 0,
        }
    }

    /// Takes a proposal. It goes behind the others, and comes back after a round trip.
    pub fn take(&mut self, proposal: RaftProposal<E>, now: u64)
        ensures
            final(self).travel() == old(self).travel(),
            final(self).draws() == state_after(old(self).travel(), old(self).draws()),
            takes(
                old(self),
                final(self),
                OnItsWay {
                    due: plus(now, delay_of(old(self).travel(), old(self).draws())),
                    proposal,
                    outcome: outcome_of(final(self).seen(), old(self).faults().0),
                },
            ),
    {
        self.proposals_seen = add_count(self.proposals_seen, 1);
        let seen: u64 = self.proposals_seen;
        let outcome = if self.fail_every > 0 && seen % self.fail_every == 0 {
            RaftOutcome::Failed
        } else {
            RaftOutcome::Committed
        };
        let trip: u64 = self.round_trip.sample(&mut self.jitter);
        let due: u64 = add_count(now, trip);
        self.inflight.push_back(OnItsWay { due, proposal, outcome });
        let ghost queue = self.inflight@;
        if self.reorder_every > 0 && seen % self.reorder_every == 0 && self.inflight.len() >= 2 {
            let last = self.inflight.pop_back();
            let other = self.inflight.pop_back();
            if let (Some(last), Some(other)) = (last, other) {
                self.inflight.push_back(last);
                self.inflight.push_back(other);
            }
            assert(self.inflight@ =~= last_two_swapped(queue));
        }
    }

    /// The next batch that has come back. A committed one takes the next position; a refused one takes
    /// none, because nothing was written. So the position counts what is in the log rather than what was
    /// proposed.
    pub fn deliver(&mut self, now: u64) -> (commit: Option<RaftCommit<E>>)
        requires
            old(self).index() < u64::MAX,
        ensures
            final(self).seen() == old(self).seen(),
            final(self).keeps() == old(self).keeps(),
            final(self).faults() == old(self).faults(),
            final(self).travel() == old(self).travel(),
            final(self).draws() == old(self).draws(),
            commit is Some <==> old(self).on_their_way().len() > 0 && old(self).on_their_way()[0].due <= now,
            commit is None ==> final(self).on_their_way() == old(self).on_their_way()
                && final(self).kept() == old(self).kept() && final(self).index() == old(self).index(),
            commit matches Some(commit) ==> delivers(old(self), final(self), commit),
    {
        if self.inflight.len() == 0 {
            return None;
        }
        if self.inflight[0].due > now {
            return None;
        }
        match self.inflight.pop_front() {
            None => None,
            Some(back) => {
                let committed = match back.outcome {
                    RaftOutcome::Committed => true,
                    RaftOutcome::Failed => false,
                };
                if committed {
                    if self.keep_log {
                        self.append(&back.proposal.effects);
                    }
                    self.next_index = self.next_index + 1;
                }
                Some(
                    RaftCommit {
                        batch_id: back.proposal.batch_id,
                        index: ApplyIndex(self.next_index),
                        outcome: back.outcome,
                        effects: back.proposal.effects,
                    },
                )
            },
        }
    }

    fn append(&mut self, effects: &Vec<E>)
        ensures
            *final(self) == (RaftWorker { log: final(self).log, ..*old(self) }),
            final(self).log@ == old(self).log@ + effects@,
    {
        let ghost had = self.log@;
        let mut i: usize = 0;
        assert(had =~= had + effects@.take(0));
        while i < effects.len()
            invariant
                i <= effects@.len(),
                *self == (RaftWorker { log: self.log, ..*old(self) }),
                self.log@ == had + effects@.take(i as int),
            decreases effects@.len() - i,
        {
            self.log.push(effects[i]);
            assert(self.log@ =~= had + effects@.take(i + 1));
            i += 1;
        }
        assert(effects@.take(effects@.len() as int) =~= effects@);
    }

    /// Proposals on their round trip.
    pub fn outstanding(&self) -> (count: usize)
        ensures
            count == self.on_their_way().len(),
    {
        self.inflight.len()
    }

    /// Whether another position can be taken.
    pub fn has_room(&self) -> (room: bool)
        ensures
            room == (self.index() < u64::MAX),
    {
        self.next_index < u64::MAX
    }

    /// The committed log in order, for replay checks.
    pub fn log(&self) -> (log: Vec<E>)
        ensures
            log@ == self.kept(),
    {
        let mut copy: Vec<E> = Vec::new();
        let mut i: usize = 0;
        while i < self.log.len()
            invariant
                i <= self.log@.len(),
                copy@ == self.log@.take(i as int),
            decreases self.log@.len() - i,
        {
            copy.push(self.log[i]);
            assert(copy@ =~= self.log@.take(i + 1));
            i += 1;
        }
        assert(self.log@.take(self.log@.len() as int) =~= self.log@);
        copy
    }
}

/// The first proposal of the queue came back as this commit.
pub open spec fn delivers<E: Copy>(
    was: &RaftWorker<E>,
    now_is: &RaftWorker<E>,
    commit: RaftCommit<E>,
) -> bool {
    let back = was.on_their_way()[0];
    &&& was.on_their_way().len() > 0
    &&& now_is.on_their_way() == was.on_their_way().drop_first()
    &&& commit.batch_id == back.proposal.batch_id
    &&& commit.effects@ == back.proposal.effects@
    &&& commit.outcome == back.outcome
    &&& commit.index.0 == now_is.index()
    &&& now_is.index() == was.index() + if back.outcome is Committed {
        1int
    } else {
        0int
    }
    &&& now_is.kept() == if was.keeps() && back.outcome is Committed {
        was.kept() + back.proposal.effects@
    } else {
        was.kept()
    }
}

/// A proposal went behind the others, or, where the fault has it so, before the last of them.
pub open spec fn takes<E: Copy>(
    was: &RaftWorker<E>,
    now_is: &RaftWorker<E>,
    one: OnItsWay<E>,
) -> bool {
    let queue = was.on_their_way().push(one);
    &&& now_is.on_their_way() == if is_nth(now_is.seen(), was.faults().1) && queue.len() >= 2 {
        last_two_swapped(queue)
    } else {
        queue
    }
    &&& now_is.seen() == plus(was.seen(), 1)
    &&& now_is.kept() == was.kept()
    &&& now_is.keeps() == was.keeps()
    &&& now_is.index() == was.index()
    &&& now_is.faults() == was.faults()
}

/// What happens at consensus.
pub ghost enum RaftStep<E> {
    Take(OnItsWay<E>),
    Deliver(RaftCommit<E>),
}

/// A run of steps: the stand-in before the first, and after each.
pub open spec fn goes_through<E: Copy>(workers: Seq<RaftWorker<E>>, steps: Seq<RaftStep<E>>) -> bool {
    &&& workers.len() == steps.len() + 1
    &&& forall|i: int, j: int|
        #![trigger workers[i], workers[j]]
        0 <= i < steps.len() && j == i + 1 ==> match steps[i] {
            RaftStep::Take(one) => takes(&workers[i], &workers[j], one),
            RaftStep::Deliver(commit) => delivers(&workers[i], &workers[j], commit) && workers[j].keeps()
                == workers[i].keeps() && workers[j].faults() == workers[i].faults(),
        }
}

/// The batches taken in a run, in their order.
pub open spec fn proposed<E>(steps: Seq<RaftStep<E>>) -> Seq<OnItsWay<E>>
    decreases steps.len(),
{
    if steps.len() == 0 {
        Seq::empty()
    } else {
        let before = proposed(steps.drop_last());
        match steps.last() {
            RaftStep::Take(one) => before.push(one),
            RaftStep::Deliver(_) => before,
        }
    }
}

/// The batches that came back in a run, in their order.
pub open spec fn delivered<E>(steps: Seq<RaftStep<E>>) -> Seq<RaftCommit<E>>
    decreases steps.len(),
{
    if steps.len() == 0 {
        Seq::empty()
    } else {
        let before = delivered(steps.drop_last());
        match steps.last() {
            RaftStep::Take(_) => before,
            RaftStep::Deliver(commit) => before.push(commit),
        }
    }
}

/// How many of the first few batches are committed.
pub open spec fn committed<E>(batches: Seq<OnItsWay<E>>, n: nat) -> nat
    decreases n,
{
    if n == 0 {
        0
    } else {
        committed(batches, (n - 1) as nat) + if batches[n - 1].outcome is Committed {
            1nat
        } else {
            0nat
        }
    }
}

/// The effects of the committed ones among the first few batches, in their order.
pub open spec fn effects_of<E>(batches: Seq<OnItsWay<E>>, n: nat) -> Seq<E>
    decreases n,
{
    if n == 0 {
        Seq::empty()
    } else {
        let before = effects_of(batches, (n - 1) as nat);
        if batches[n - 1].outcome is Committed {
            before + batches[n - 1].proposal.effects@
        } else {
            before
        }
    }
}

proof fn lemma_more_batches<E>(batches: Seq<OnItsWay<E>>, one: OnItsWay<E>, n: nat)
    requires
        n <= batches.len(),
    ensures
        committed(batches.push(one), n) == committed(batches, n),
        effects_of(batches.push(one), n) == effects_of(batches, n),
    decreases n,
{
    if n > 0 {
        lemma_more_batches(batches, one, (n - 1) as nat);
    }
}

/// Over a whole run, and as long as consensus is kept well behaved, the batches come back in the order they
/// were proposed, each with its effects and its outcome; a batch is at the position of the committed ones
/// up to it, so the positions have no gap; and the log is the committed batches' effects, in that order.
pub proof fn law_batches_commit_in_the_order_proposed<E: Copy>(
    workers: Seq<RaftWorker<E>>,
    steps: Seq<RaftStep<E>>,
)
    requires
        goes_through(workers, steps),
        workers[0].faults().1 == 0,
    ensures
        ({
            let first = workers[0];
            let last = workers.last();
            let batches = first.on_their_way() + proposed(steps);
            let back = delivered(steps);
            &&& last.faults() == first.faults()
            &&& last.keeps() == first.keeps()
            &&& back.len() <= batches.len()
            &&& last.on_their_way() == batches.skip(back.len() as int)
            &&& last.index() == first.index() + committed(batches, back.len())
            &&& last.kept() == if first.keeps() {
                first.kept() + effects_of(batches, back.len())
            } else {
                first.kept()
            }
            &&& forall|i: int|
                0 <= i < back.len() ==> {
                    &&& (#[trigger] back[i]).batch_id == batches[i].proposal.batch_id
                    &&& back[i].effects@ == batches[i].proposal.effects@
                    &&& back[i].outcome == batches[i].outcome
                    &&& back[i].index.0 == first.index() + committed(batches, (i + 1) as nat)
                }
        }),
    decreases steps.len(),
{
    let first = workers[0];
    if steps.len() == 0 {
        assert(first.on_their_way() + proposed(steps) =~= first.on_their_way());
        assert(first.on_their_way() =~= first.on_their_way().skip(0));
        assert(first.kept() =~= first.kept() + Seq::<E>::empty());
    } else {
        let n = steps.len() - 1;
        let fewer = workers.drop_last();
        let before = steps.drop_last();
        assert(goes_through(fewer, before)) by {
            assert forall|i: int, j: int|
                #![trigger fewer[i], fewer[j]]
                0 <= i < before.len() && j == i + 1 implies match before[i] {
                RaftStep::Take(one) => takes(&fewer[i], &fewer[j], one),
                RaftStep::Deliver(commit) => delivers(&fewer[i], &fewer[j], commit) && fewer[j].keeps()
                    == fewer[i].keeps() && fewer[j].faults() == fewer[i].faults(),
            } by {
                assert(fewer[i] == workers[i] && fewer[j] == workers[j]);
            }
        }
        law_batches_commit_in_the_order_proposed(fewer, before);
        let was = workers[n];
        let now_is = workers[n + 1];
        assert(fewer.last() == was && workers.last() == now_is);
        let had = first.on_their_way() + proposed(before);
        let back = delivered(before);
        let done = back.len();
        match steps[n] {
            RaftStep::Take(one) => {
                assert(takes(&was, &now_is, one));
                let more = first.on_their_way() + proposed(steps);
                assert(more =~= had.push(one));
                assert(had.skip(done as int).push(one) =~= more.skip(done as int));
                lemma_more_batches(had, one, done);
                assert forall|i: int| 0 <= i < done implies committed(more, (#[trigger] (i + 1)) as nat)
                    == committed(had, (i + 1) as nat) by {
                    lemma_more_batches(had, one, (i + 1) as nat);
                }
                assert forall|i: int| 0 <= i < back.len() implies {
                    &&& (#[trigger] back[i]).batch_id == more[i].proposal.batch_id
                    &&& back[i].effects@ == more[i].proposal.effects@
                    &&& back[i].outcome == more[i].outcome
                    &&& back[i].index.0 == first.index() + committed(more, (i + 1) as nat)
                } by {
                    lemma_more_batches(had, one, (i + 1) as nat);
                    assert(more[i] == had[i]);
                }
            },
            RaftStep::Deliver(commit) => {
                assert(delivers(&was, &now_is, commit));
                assert(first.on_their_way() + proposed(steps) =~= had);
                assert(was.on_their_way()[0] == had[done as int]);
                assert(now_is.on_their_way() =~= had.skip(done as int + 1));
                if first.keeps() {
                    assert(now_is.kept() =~= first.kept() + effects_of(had, done + 1));
                }
                let all = delivered(steps);
                assert(all == back.push(commit));
                assert forall|i: int| 0 <= i < all.len() implies {
                    &&& (#[trigger] all[i]).batch_id == had[i].proposal.batch_id
                    &&& all[i].effects@ == had[i].proposal.effects@
                    &&& all[i].outcome == had[i].outcome
                    &&& all[i].index.0 == first.index() + committed(had, (i + 1) as nat)
                } by {
                    if i < done {
                        assert(all[i] == back[i]);
                    } else {
                        assert(all[i] == commit);
                    }
                }
            },
        }
    }
}

/// Every nth is one in every n: none if n is zero, and after one the next is n further on.
pub proof fn law_every_nth_is_one_in_n(count: u64, every: u64, more: u64)
    requires
        count + more <= u64::MAX,
    ensures
        !is_nth(count, 0),
        is_nth(count, 1),
        is_nth(count, every) && 0 < more < every ==> !is_nth((count + more) as u64, every),
        is_nth(count, every) && more == every ==> is_nth((count + more) as u64, every),
{
    if every > 0 && count as int % every as int == 0 && 0 < more <= every {
        let c = count as int;
        let e = every as int;
        let m = more as int;
        let q = c / e;
        vstd::arithmetic::div_mod::lemma_fundamental_div_mod(c, e);
        if m < e {
            vstd::arithmetic::div_mod::lemma_fundamental_div_mod_converse(c + m, e, q, m);
        } else {
            assert(c + m == e * (q + 1)) by (nonlinear_arith)
                requires
                    c == e * q,
                    m == e,
            ;
            vstd::arithmetic::div_mod::lemma_fundamental_div_mod_converse(c + m, e, q + 1, 0);
        }
    }
}

/// A batch that is taken goes behind the others. When its turn to be out of order has come it changes places
/// with the one before it and with no other; no batch is lost and none comes twice.
pub proof fn law_a_batch_goes_behind_the_others<E: Copy>(
    was: &RaftWorker<E>,
    now_is: &RaftWorker<E>,
    one: OnItsWay<E>,
)
    requires
        takes(was, now_is, one),
        was.seen() < u64::MAX,
    ensures
        ({
            let before = was.on_their_way();
            let after = now_is.on_their_way();
            let n = before.len() as int;
            let swaps = was.faults().1 > 0 && (was.seen() + 1) % was.faults().1 as int == 0 && n >= 1;
            &&& after.len() == n + 1
            &&& !swaps ==> after.last() == one && after.drop_last() == before
            &&& swaps ==> after[n - 1] == one && after[n] == before[n - 1]
            &&& forall|i: int| 0 <= i < n - 1 ==> #[trigger] after[i] == before[i]
            &&& now_is.seen() == was.seen() + 1
            &&& now_is.index() == was.index()
            &&& now_is.kept() == was.kept()
        }),
{
    let before = was.on_their_way();
    assert(before.push(one).drop_last() =~= before);
}

/// What comes back is the batch that has been on its way longest, with what became of it. Only a batch that was
/// committed moves the log, by one, and only then is it kept.
pub proof fn law_the_first_batch_comes_back_first<E: Copy>(
    was: &RaftWorker<E>,
    now_is: &RaftWorker<E>,
    commit: RaftCommit<E>,
)
    requires
        delivers(was, now_is, commit),
    ensures
        ({
            let first = was.on_their_way()[0];
            &&& commit.batch_id == first.proposal.batch_id
            &&& commit.effects@ == first.proposal.effects@
            &&& commit.outcome == first.outcome
            &&& now_is.on_their_way().len() == was.on_their_way().len() - 1
            &&& commit.index.0 == now_is.index()
            &&& commit.outcome is Committed ==> now_is.index() == was.index() + 1
            &&& commit.outcome is Failed ==> now_is.index() == was.index() && now_is.kept() == was.kept()
            &&& commit.outcome is Committed && was.keeps() ==> now_is.kept().len() == was.kept().len()
                + commit.effects@.len() && now_is.kept().take(was.kept().len() as int) == was.kept()
                && now_is.kept().skip(was.kept().len() as int) == commit.effects@
            &&& !was.keeps() ==> now_is.kept() == was.kept()
        }),
{
    if commit.outcome is Committed && was.keeps() {
        assert(now_is.kept().take(was.kept().len() as int) =~= was.kept());
        assert(now_is.kept().skip(was.kept().len() as int) =~= commit.effects@);
    }
}

/// A proposal commits unless it is one that fails: none if none do, and one in so many otherwise.
pub proof fn law_a_proposal_commits_unless_it_is_one_that_fails(seen: u64, fail_every: u64)
    ensures
        fail_every == 0 ==> outcome_of(seen, fail_every) is Committed,
        fail_every > 0 ==> (outcome_of(seen, fail_every) is Failed <==> seen as int % fail_every as int == 0),
{
}

} // verus!
