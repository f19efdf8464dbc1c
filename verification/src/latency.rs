//! A store with a device's timing in front of another store.

use std::collections::VecDeque;

use vstd::prelude::*;

use crate::address::ObjectId;
use crate::block::{law_a_changed_byte_shows, stamped, Block, CHECKSUM_AT};
use crate::model::{at_least_one, later, Cost, Server, StoreModel};
use crate::prng::{mixed, stepped, Prng};
use crate::stats::{add_count, plus, VolumeStats};
use crate::store::{
    answered_with, asks_elsewhere, is_answer, lemma_answered_more, lemma_answered_none, polled_out, Asked,
    Call, DurableStore, Reply, StoreFault, Written,
};

verus! {

/// A read the store below has answered, waiting for the model's own time for it to pass.
pub struct Completed {
    pub handle: u64,
    pub due: u64,
    pub block: Box<Block>,
    /// Where the block was read from.
    pub from: Ghost<(ObjectId, u64)>,
}

/// A store with a device's timing in front of another store.
///
/// Two kinds of cost, because two different things are being occupied. A lookup's read occupies the
/// device: it is submitted and the engine keeps working, so it gets a deadline. A write, a sync and the
/// apply path's read occupy the thread where the store below does them inline, so they are charged to
/// whoever has a clock; where the store below queues its writes they get a deadline each, served in order.
///
/// The composition is a floor rather than a sum: a completion leaves when the store below has answered it
/// and the model's time for it has passed, whichever is later.
pub struct LatencyStore<I: DurableStore> {
    inner: I,
    device: Server,
    read: Cost,
    write: Cost,
    sync: Cost,
    prng: Prng,
    /// Reads handed to the store below and not yet answered by it, with when the model says the device is
    /// done with each.
    inflight: Vec<(u64, u64)>,
    completed: Vec<Completed>,
    queue_depth: usize,
    write_queue_depth: usize,
    /// Device time charged by synchronous calls and not yet handed to whoever has a clock.
    charged_nanos: u64,
    /// Writes and barriers the model refused, waiting to be answered as failed completions.
    refused: VecDeque<u64>,
    /// Queued writes and barriers, in submission order, with when the model says the lane is done with
    /// each. Empty unless the store below queues its writes.
    write_due: VecDeque<(u64, u64)>,
    /// Answers the store below has given and the model has not released.
    write_answered: VecDeque<(u64, Result<(), StoreFault>)>,
    /// When the modelled lane next falls idle. One server: a write waits for the one in front of it.
    write_busy_until: u64,
    fault_every: u32,
    corrupt_every: u32,
    calls: u64,
    reads: u64,
    /// What the model added that the store below never saw.
    invented: VolumeStats,
}

/// What a model keeps of the calls that change the volume, and of its faults.
pub ghost struct WriteView {
    /// Device time charged and not yet handed over.
    pub charge: u64,
    /// The handles the model refused, oldest first.
    pub refusals: Seq<u64>,
    /// The calls on the modelled lane, oldest first, each with its deadline.
    pub lane: Seq<(u64, u64)>,
    pub depth: usize,
    pub busy_until: u64,
    pub calls: u64,
    pub fault_every: u32,
    /// The generator's state.
    pub draws: u64,
    /// What the model added that the store below never saw.
    pub invented: VolumeStats,
}

impl WriteView {
    /// With a call's time charged to the thread.
    pub open spec fn charged(self, cost: Cost) -> WriteView {
        WriteView {
            charge: plus(self.charge, cost.drawn(self.draws)),
            draws: cost.after(self.draws),
            ..self
        }
    }

    /// The next call is one the fault takes.
    pub open spec fn fails_next(self) -> bool {
        falls_on(plus(self.calls, 1), self.fault_every)
    }

    /// With one more call counted, and, where it is one the fault takes, one more fault: one that the store
    /// below never sees.
    pub open spec fn called(self) -> WriteView {
        WriteView {
            calls: plus(self.calls, 1),
            invented: if self.fails_next() {
                self.invented.failed_after()
            } else {
                self.invented
            },
            ..self
        }
    }

    /// With a call refused by the model, to be answered as a failure.
    pub open spec fn refused(self, handle: u64) -> WriteView {
        WriteView { refusals: self.refusals.push(handle), ..self }
    }

    /// With a call on the lane. One server: a call waits for the one in front of it.
    pub open spec fn served(self, handle: u64, cost: Cost, now: u64) -> WriteView {
        let due = plus(later(now, self.busy_until), cost.drawn(self.draws));
        WriteView {
            lane: self.lane.push((handle, due)),
            busy_until: due,
            draws: cost.after(self.draws),
            ..self
        }
    }
}

/// A count, or the largest there is.
pub open spec fn at_most(count: int) -> usize {
    if count <= usize::MAX {
        count as usize
    } else {
        usize::MAX
    }
}

/// A call that the model charges nothing for.
pub open spec fn no_cost() -> Cost {
    Cost { base_nanos: 0, tail_nanos: 0 }
}

/// What a call that changes the volume comes to, over a store that does it on the calling thread: charged
/// to the thread where it is charged at all, refused where the fault takes it, and otherwise handed down.
pub open spec fn done_inline(
    was: WriteView,
    now_is: WriteView,
    handle: u64,
    cost: Option<Cost>,
    taken: bool,
) -> bool {
    let charged = match cost {
        Some(cost) => was.charged(cost),
        None => was,
    };
    &&& was.fails_next() ==> taken && now_is == charged.called().refused(handle)
    &&& !was.fails_next() ==> now_is == charged.called()
}

/// What a call that changes the volume comes to, over a store that queues it: not taken while the lane is
/// full, refused where the fault takes it, and otherwise handed down and put on the lane if it was taken.
pub open spec fn done_queued(
    was: WriteView,
    now_is: WriteView,
    handle: u64,
    cost: Cost,
    taken: bool,
    now: u64,
) -> bool {
    let full = was.lane.len() >= was.depth;
    &&& full ==> !taken && now_is == (WriteView { invented: was.invented.refused_write_after(), ..was })
    &&& !full && was.fails_next() ==> taken && now_is == was.called().refused(handle)
    &&& !full && !was.fails_next() ==> now_is == if taken {
        was.called().served(handle, cost, now)
    } else {
        was.called()
    }
}

/// Whether the nth call of a kind is one that a fault on every so many takes.
pub open spec fn falls_on(n: u64, every: u32) -> bool {
    every > 0 && n % (every as u64) == 0
}

fn falls(n: u64, every: u32) -> (fell: bool)
    ensures
        fell == falls_on(n, every),
{
    every > 0 && n % (every as u64) == 0
}

impl<I: DurableStore> LatencyStore<I> {
    /// The store below.
    pub closed spec fn below(&self) -> I {
        self.inner
    }

    /// The reads handed down and not yet answered, each with its deadline.
    pub closed spec fn deadlines(&self) -> Seq<(u64, u64)> {
        self.inflight@
    }

    /// The reads answered below and not yet released.
    pub closed spec fn held(&self) -> Seq<Completed> {
        self.completed@
    }

    pub closed spec fn depth(&self) -> usize {
        self.queue_depth
    }

    pub open spec fn charge_owed(&self) -> u64 {
        self.writes().charge
    }

    /// The handles of the writes the model refused, oldest first.
    pub open spec fn refusals(&self) -> Seq<u64> {
        self.writes().refusals
    }

    /// The writes on the modelled lane, oldest first, each with its deadline.
    pub open spec fn lane(&self) -> Seq<(u64, u64)> {
        self.writes().lane
    }

    /// What the model keeps of the calls that change the volume, and of its faults.
    pub closed spec fn writes(&self) -> WriteView {
        WriteView {
            charge: self.charged_nanos,
            refusals: self.refused@,
            lane: self.write_due@,
            depth: self.write_queue_depth,
            busy_until: self.write_busy_until,
            calls: self.calls,
            fault_every: self.fault_every,
            draws: self.prng.state,
            invented: self.invented,
        }
    }

    /// Answers the store below has given and the model has not released.
    pub closed spec fn answered_below(&self) -> Seq<(u64, Result<(), StoreFault>)> {
        self.write_answered@
    }

    /// What a read, a write and a barrier cost.
    pub closed spec fn costs(&self) -> (Cost, Cost, Cost) {
        (self.read, self.write, self.sync)
    }

    /// The station that reads are admitted through.
    pub closed spec fn admission(&self) -> Server {
        self.device
    }

    /// Blocks a read was answered with so far, and how often one of them is changed.
    pub closed spec fn flips(&self) -> (u64, u32) {
        (self.reads, self.corrupt_every)
    }

    /// What the model was made with is as it was.
    pub open spec fn same_model(&self, before: &Self) -> bool {
        &&& self.depth() == before.depth()
        &&& self.costs() == before.costs()
        &&& self.writes().depth == before.writes().depth
        &&& self.writes().fault_every == before.writes().fault_every
        &&& self.flips().1 == before.flips().1
    }

    /// What the model keeps of the reads is as it was.
    pub open spec fn same_reads(&self, before: &Self) -> bool {
        &&& self.deadlines() == before.deadlines()
        &&& self.held() == before.held()
        &&& self.depth() == before.depth()
        &&& self.costs() == before.costs()
        &&& self.admission() == before.admission()
        &&& self.flips() == before.flips()
        &&& self.answered_below() == before.answered_below()
    }

    /// A call that changes the volume was answered by the model or handed down, as the store below does
    /// such calls: on the calling thread, or on a queue.
    pub open spec fn changes(
        &self,
        call: Call,
        handle: u64,
        cost: Option<Cost>,
        now: u64,
        reply: Reply,
        after: &Self,
    ) -> bool {
        exists|queued: bool| #[trigger]
            self.below().did(Call::WritesAreQueued, Reply::Flag(queued), &self.below())
                && self.changes_on(call, queued, handle, cost, now, reply, after)
    }

    /// The same, with the way the store below does such calls known.
    pub open spec fn changes_on(
        &self,
        call: Call,
        queued: bool,
        handle: u64,
        cost: Option<Cost>,
        now: u64,
        reply: Reply,
        after: &Self,
    ) -> bool {
        let was = self.writes();
        &&& reply is Flag
        &&& after.same_reads(self)
        &&& if queued {
            let cost = match cost {
                Some(cost) => cost,
                None => no_cost(),
            };
            done_queued(was, after.writes(), handle, cost, reply->Flag_0, now)
        } else {
            done_inline(was, after.writes(), handle, cost, reply->Flag_0)
        }
        &&& if was.fails_next() || (queued && was.lane.len() >= was.depth) {
            after.below() == self.below()
        } else {
            self.below().did(call, reply, &after.below())
        }
    }

    /// What has been written was asked for: a refusal of the model's own first, then what the store below
    /// answers, held on the modelled lane where the store below queues.
    pub open spec fn answers_written(&self, now: u64, reply: Reply, after: &Self) -> bool {
        if self.refusals().len() > 0 {
            &&& reply == Reply::Written(Some((self.refusals()[0], Err(StoreFault::Device))))
            &&& after.writes() == (WriteView {
                refusals: self.refusals().drop_first(),
                ..self.writes()
            })
            &&& after.below() == self.below()
            &&& after.same_reads(self)
        } else {
            exists|queued: bool| #[trigger]
                self.below().did(Call::WritesAreQueued, Reply::Flag(queued), &self.below()) && if queued {
                    self.lets_off_the_lane(now, reply, after)
                } else {
                    &&& self.below().did(Call::PollWritten { now }, reply, &after.below())
                    &&& after.writes() == self.writes()
                    &&& after.same_reads(self)
                }
        }
    }

    /// The store below was polled until it had no more, and the call at the front of the lane leaves if its
    /// time has passed and the store below has answered it.
    pub open spec fn lets_off_the_lane(&self, now: u64, reply: Reply, after: &Self) -> bool {
        let lane = self.lane();
        &&& self.deadlines() == after.deadlines()
        &&& self.held() == after.held()
        &&& self.admission() == after.admission()
        &&& self.flips() == after.flips()
        &&& after.same_model(self)
        &&& exists|answers: Seq<(u64, Result<(), StoreFault>)>| #[trigger]
            polled_out(self.below(), now, answers, after.below()) && {
                let all = self.answered_below() + answers;
                if lane.len() > 0 && lane[0].1 <= now && is_answered(all, lane[0].0) {
                    &&& takes_first_answer(all, lane[0].0, reply, after.answered_below())
                    &&& after.writes() == (WriteView { lane: lane.drop_first(), ..self.writes() })
                } else {
                    &&& reply == Reply::Written(None)
                    &&& after.answered_below() == all
                    &&& after.writes() == self.writes()
                }
            }
    }

    /// A read was done on the calling thread: charged, refused where the fault takes it, and otherwise
    /// handed down, its bytes changed where a flip is due.
    pub open spec fn reads_at(
        &self,
        object: ObjectId,
        offset: u64,
        had: Seq<u8>,
        reply: Reply,
        after: &Self,
    ) -> bool {
        let called = self.writes().charged(self.costs().0).called();
        &&& after.deadlines() == self.deadlines()
        &&& after.held() == self.held()
        &&& after.admission() == self.admission()
        &&& after.answered_below() == self.answered_below()
        &&& after.same_model(self)
        &&& if self.writes().fails_next() {
            &&& reply == Reply::Read(Err(StoreFault::Device), had)
            &&& after.below() == self.below()
            &&& after.writes() == called
            &&& after.flips() == self.flips()
        } else {
            exists|read: Result<(), StoreFault>, bytes: Seq<u8>| #[trigger]
                self.below().did(
                    Call::ReadAt { object, offset, had },
                    Reply::Read(read, bytes),
                    &after.below(),
                ) && if read is Ok {
                    &&& reply == Reply::Read(read, given_out(bytes, self.flips(), called.draws))
                    &&& after.writes() == (WriteView {
                        draws: drawn_by_flip(self.flips(), called.draws),
                        ..called
                    })
                    &&& after.flips() == (plus(self.flips().0, 1), self.flips().1)
                } else {
                    &&& reply == Reply::Read(read, bytes)
                    &&& after.writes() == called
                    &&& after.flips() == self.flips()
                }
        }
    }

    /// A read was taken: not while as many as the model's depth are unanswered, and otherwise where the
    /// store below takes it, with the device's own time for it.
    pub open spec fn takes_read(&self, call: Call, handle: u64, now: u64, reply: Reply, after: &Self) -> bool {
        &&& after.held() == self.held()
        &&& after.flips() == self.flips()
        &&& after.answered_below() == self.answered_below()
        &&& after.same_model(self)
        &&& if self.deadlines().len() + self.held().len() >= self.depth() {
            &&& reply == Reply::Flag(false)
            &&& after.below() == self.below()
            &&& after.deadlines() == self.deadlines()
            &&& after.admission() == self.admission()
            &&& after.writes() == (WriteView {
                invented: self.writes().invented.refused_read_after(),
                ..self.writes()
            })
        } else {
            &&& reply == Reply::Flag(true) || reply == Reply::Flag(false)
            &&& self.below().did(call, reply, &after.below())
            &&& if reply == Reply::Flag(true) {
                let begins = later(now, self.admission().next_at);
                let cost = self.admission().cost;
                &&& after.deadlines() == self.deadlines().push(
                    (handle, plus(begins, cost.drawn(self.writes().draws))),
                )
                &&& after.admission() == (Server {
                    next_at: plus(begins, self.admission().gap_nanos),
                    ..self.admission()
                })
                &&& after.writes() == (WriteView {
                    draws: cost.after(self.writes().draws),
                    ..self.writes()
                })
            } else {
                &&& after.deadlines() == self.deadlines()
                &&& after.admission() == self.admission()
                &&& after.writes() == self.writes()
            }
        }
    }

    /// A poll for a read: what the store below has finished was moved across, and the first of it that is
    /// due was let go, unless the store below had something for which there is no deadline.
    pub open spec fn polls(&self, now: u64, had: Seq<u8>, reply: Reply, after: &Self) -> bool {
        exists|mid: LatencyStore<I>, early: Option<Result<u64, StoreFault>>, bytes: Seq<u8>| #[trigger]
            gathers(self, &mid, now, had, early, bytes) && match early {
                Some(_) => reply == Reply::Polled(early, bytes) && *after == mid,
                None => match reply {
                    Reply::Polled(None, into) => !has_ripe(mid.held(), now) && into == had && *after == mid,
                    Reply::Polled(Some(outcome), into) => lets_one_go(
                        &mid,
                        after,
                        now,
                        had,
                        into,
                        outcome,
                    ),
                    _ => false,
                },
            }
    }

    /// The model flips no bits.
    pub closed spec fn corrupts_nothing(&self) -> bool {
        self.corrupt_every == 0
    }

    /// The model fails nothing.
    pub closed spec fn fails_nothing(&self) -> bool {
        self.fault_every == 0
    }

    /// A store of this model over another, before it has been asked for anything: what each call costs,
    /// how many reads and writes it will hold, which calls it fails and which blocks it spoils, and what it
    /// draws from.
    pub open spec fn begins(&self, inner: I, model: StoreModel, seed: u64) -> bool {
        &&& self.below() == inner
        &&& self.deadlines().len() == 0
        &&& self.held().len() == 0
        &&& self.depth() == at_least_one(model.queue_depth)
        &&& self.charge_owed() == 0
        &&& self.refusals().len() == 0
        &&& self.lane().len() == 0
        &&& self.corrupts_nothing() == (model.corrupt_every == 0)
        &&& self.flips() == (0u64, model.corrupt_every)
        &&& self.answered_below().len() == 0
        &&& self.writes() == (WriteView {
            charge: 0,
            refusals: Seq::empty(),
            lane: Seq::empty(),
            depth: at_least_one(model.write_queue_depth),
            busy_until: 0,
            calls: 0,
            fault_every: model.fault_every,
            draws: seed,
            invented: VolumeStats::none(),
        })
        &&& self.costs() == (
            Cost { base_nanos: model.read_base_nanos, tail_nanos: model.read_tail_nanos },
            Cost { base_nanos: model.write_base_nanos, tail_nanos: model.write_tail_nanos },
            Cost { base_nanos: model.sync_base_nanos, tail_nanos: model.sync_tail_nanos },
        )
        &&& self.admission() == (Server {
            cost: self.costs().0,
            gap_nanos: if model.iops == 0 {
                0
            } else {
                1_000_000_000u64 / model.iops
            },
            next_at: 0,
        })
    }

    pub fn new(inner: I, model: StoreModel, seed: u64) -> (store: Self)
        requires
            inner.wf(),
        ensures
            store.wf(),
            store.begins(inner, model, seed),
            store.truthful() == (inner.truthful() && model.corrupt_every == 0),
            store.fails_nothing() == (model.fault_every == 0),
            store.written() == inner.written(),
            store.stored() == inner.stored(),
            store.asked() == inner.asked(),
            store.pledged() == inner.pledged(),
    {
        let depths = model.depths();
        let store = LatencyStore {
            inner,
            device: Server::new(model.read_base_nanos, model.read_tail_nanos, model.iops),
            read: Cost { base_nanos: model.read_base_nanos, tail_nanos: model.read_tail_nanos },
            write: Cost { base_nanos: model.write_base_nanos, tail_nanos: model.write_tail_nanos },
            sync: Cost { base_nanos: model.sync_base_nanos, tail_nanos: model.sync_tail_nanos },
            prng: Prng::new(seed),
            inflight: Vec::new(),
            completed: Vec::new(),
            queue_depth: depths.read,
            write_queue_depth: depths.write,
            charged_nanos: 0,
            refused: VecDeque::new(),
            write_due: VecDeque::new(),
            write_answered: VecDeque::new(),
            write_busy_until: 0,
            fault_every: model.fault_every,
            corrupt_every: model.corrupt_every,
            calls: 0,
            reads: 0,
            invented: VolumeStats::default(),
        };
        assert(store.asked() =~= store.inner.asked());
        assert(store.pledged() =~= store.inner.pledged());
        store
    }

    /// Flips one bit of a block that a read is being answered with, if this is the read the fault takes.
    /// In a record rather than in the checksum: the interesting case is bytes that changed and a stamp
    /// that did not.
    fn corrupt(&mut self, block: &mut Block)
        ensures
            final(self).inner == old(self).inner,
            final(self).inflight == old(self).inflight,
            final(self).completed == old(self).completed,
            final(self).queue_depth == old(self).queue_depth,
            final(self).write_answered == old(self).write_answered,
            final(self).corrupt_every == old(self).corrupt_every,
            final(self).device == old(self).device,
            final(self).costs() == old(self).costs(),
            final(self).writes() == (WriteView {
                draws: drawn_by_flip(old(self).flips(), old(self).writes().draws),
                ..old(self).writes()
            }),
            !flips_next(old(self).flips()) ==> *final(block) == *old(block),
            final(block)@ == given_out(old(block)@, old(self).flips(), old(self).writes().draws),
            final(self).reads == plus(old(self).reads, 1),
    {
        self.reads = add_count(self.reads, 1);
        if !falls(self.reads, self.corrupt_every) {
            return;
        }
        let at: usize = (self.prng.next_u64() % (CHECKSUM_AT as u64)) as usize;
        let bit: u64 = self.prng.next_u64() % 8;
        let byte: u8 = block.bytes[at];
        let flip: u8 = 1u8 << bit;
        block.bytes[at] = byte ^ flip;
        proof {
            assert(block@ =~= flipped(old(block)@, old(self).prng.state));
        }
    }

    /// Everything but what the model keeps of its writes and its faults is as it was.
    spec fn same_but_writes(&self, before: &Self) -> bool {
        &&& self.inner == before.inner
        &&& self.inflight == before.inflight
        &&& self.completed == before.completed
        &&& self.queue_depth == before.queue_depth
        &&& self.write_answered == before.write_answered
        &&& self.corrupt_every == before.corrupt_every
        &&& self.reads == before.reads
        &&& self.device == before.device
        &&& self.read == before.read
        &&& self.write == before.write
        &&& self.sync == before.sync
        &&& self.write_queue_depth == before.write_queue_depth
        &&& self.fault_every == before.fault_every
    }

    fn charge(&mut self, cost: Cost)
        ensures
            final(self).same_but_writes(old(self)),
            final(self).writes() == old(self).writes().charged(cost),
    {
        let taken: u64 = cost.draw(&mut self.prng);
        self.charged_nanos = add_count(self.charged_nanos, taken);
    }

    /// Whether this call is the one the fault takes, which is then counted: the store below never sees it.
    /// Counted over every call, because a device that is failing is not failing at one method.
    fn refuses(&mut self) -> (refused: bool)
        ensures
            final(self).same_but_writes(old(self)),
            final(self).writes() == old(self).writes().called(),
            refused == old(self).writes().fails_next(),
    {
        self.calls = add_count(self.calls, 1);
        let refused = falls(self.calls, self.fault_every);
        if refused {
            self.invented.failed();
        }
        refused
    }

    /// Puts a call on the lane. One server: writes do not commute, so they are served in order, and a
    /// second write waits for the first rather than overlapping it.
    fn serve_write(&mut self, handle: u64, now: u64, cost: Cost)
        ensures
            final(self).same_but_writes(old(self)),
            final(self).writes() == old(self).writes().served(handle, cost, now),
    {
        let start: u64 = if now < self.write_busy_until {
            self.write_busy_until
        } else {
            now
        };
        let taken: u64 = cost.draw(&mut self.prng);
        let due: u64 = add_count(start, taken);
        self.write_busy_until = due;
        self.write_due.push_back((handle, due));
    }

    /// Whether a call done on the calling thread is refused by the model. What it costs is charged first.
    fn refuses_inline(&mut self, handle: u64, cost: Option<Cost>) -> (refused: bool)
        ensures
            final(self).same_but_writes(old(self)),
            refused == old(self).writes().fails_next(),
            done_inline(old(self).writes(), final(self).writes(), handle, cost, true),
    {
        if let Some(cost) = cost {
            self.charge(cost);
        }
        let refused = self.refuses();
        if refused {
            self.refused.push_back(handle);
        }
        refused
    }

    /// What the model answers to a call for the lane, where it does not hand it down.
    fn answers_queued(&mut self, handle: u64) -> (answer: Option<bool>)
        ensures
            final(self).same_but_writes(old(self)),
            ({
                let was = old(self).writes();
                let full = was.lane.len() >= was.depth;
                &&& answer == if full {
                    Some(false)
                } else if was.fails_next() {
                    Some(true)
                } else {
                    None
                }
                &&& final(self).writes() == if full {
                    WriteView { invented: was.invented.refused_write_after(), ..was }
                } else if was.fails_next() {
                    was.called().refused(handle)
                } else {
                    was.called()
                }
            }),
    {
        if self.write_due.len() >= self.write_queue_depth {
            self.invented.refused_write();
            return Some(false);
        }
        if self.refuses() {
            self.refused.push_back(handle);
            return Some(true);
        }
        None
    }
}

/// A block with one bit of its records flipped: which, the generator's next two draws say.
pub open spec fn flipped(bytes: Seq<u8>, state: u64) -> Seq<u8> {
    let at = mixed(stepped(state)) % (CHECKSUM_AT as u64);
    let bit = mixed(stepped(stepped(state))) % 8;
    bytes.update(at as int, bytes[at as int] ^ (1u8 << bit))
}

/// The next block a read is answered with is one the fault takes: how many there were, and how often.
pub open spec fn flips_next(flips: (u64, u32)) -> bool {
    falls_on(plus(flips.0, 1), flips.1)
}

/// What a read is answered with, for a block that the store below read.
pub open spec fn given_out(bytes: Seq<u8>, flips: (u64, u32), draws: u64) -> Seq<u8> {
    if flips_next(flips) {
        flipped(bytes, draws)
    } else {
        bytes
    }
}

/// The generator once a read has been answered.
pub open spec fn drawn_by_flip(flips: (u64, u32), draws: u64) -> u64 {
    if flips_next(flips) {
        stepped(stepped(draws))
    } else {
        draws
    }
}

/// A flip changes one byte of a block, in its records rather than in its checksum: bytes that changed under
/// a stamp that did not.
pub proof fn law_a_flip_changes_one_byte(bytes: Seq<u8>, state: u64)
    requires
        bytes.len() == 4096,
    ensures
        exists|at: int|
            0 <= at < CHECKSUM_AT && #[trigger] bytes[at] != flipped(bytes, state)[at]
                && flipped(bytes, state) == bytes.update(at, flipped(bytes, state)[at]),
{
    let at = (mixed(stepped(state)) % (CHECKSUM_AT as u64)) as int;
    let bit: u64 = mixed(stepped(stepped(state))) % 8;
    let byte: u8 = bytes[at];
    assert(byte ^ (1u8 << bit) != byte) by (bit_vector)
        requires
            bit < 8,
    ;
    assert(bytes[at] != flipped(bytes, state)[at]);
}

/// A flip is found out: a block that was intact is not once a bit of it has been flipped.
pub proof fn law_a_flip_is_found_out(bytes: Seq<u8>, state: u64)
    requires
        stamped(bytes),
    ensures
        !stamped(flipped(bytes, state)),
{
    law_a_flip_changes_one_byte(bytes, state);
    let at = choose|at: int|
        0 <= at < CHECKSUM_AT && #[trigger] bytes[at] != flipped(bytes, state)[at] && flipped(
            bytes,
            state,
        ) == bytes.update(at, flipped(bytes, state)[at]);
    law_a_changed_byte_shows(bytes, at, flipped(bytes, state)[at]);
}

/// The first of these that is due.
pub open spec fn is_first_ripe(held: Seq<Completed>, now: u64, at: int) -> bool {
    &&& 0 <= at < held.len()
    &&& held[at].due <= now
    &&& forall|i: int| 0 <= i < at ==> (#[trigger] held[i]).due > now
}

/// What the store below has finished was moved across, and the first of it that is due was released: with
/// the fault the model was to invent, or with the block that was read, flipped where it was to be.
pub open spec fn releases<I: DurableStore>(
    was: &LatencyStore<I>,
    after: &LatencyStore<I>,
    gathered: Seq<Completed>,
    now: u64,
    before: Seq<u8>,
    into: Seq<u8>,
    answered: Option<Result<u64, StoreFault>>,
) -> bool {
    &&& was.held().is_prefix_of(gathered)
    &&& forall|i: int|
        was.held().len() <= i < gathered.len() ==> was.deadlines().contains(
            ((#[trigger] gathered[i]).handle, gathered[i].due),
        )
    &&& match answered {
        None => !has_ripe(gathered, now) && after.held() == gathered && into == before
            && after.flips() == was.flips() && after.writes() == was.writes(),
        Some(outcome) => exists|at: int|
            is_first_ripe(gathered, now, at) && #[trigger] lets_go(
                was,
                after,
                gathered,
                at,
                before,
                into,
                outcome,
            ),
    }
}

/// The read at this place was let go.
pub open spec fn lets_go<I: DurableStore>(
    was: &LatencyStore<I>,
    after: &LatencyStore<I>,
    gathered: Seq<Completed>,
    at: int,
    before: Seq<u8>,
    into: Seq<u8>,
    outcome: Result<u64, StoreFault>,
) -> bool {
    &&& after.held() == gathered.update(at, gathered.last()).drop_last()
    &&& if was.writes().fails_next() {
        &&& outcome == Err::<u64, StoreFault>(StoreFault::Device)
        &&& into == before
        &&& after.flips() == was.flips()
        &&& after.writes() == was.writes().called()
    } else {
        let called = was.writes().called();
        &&& outcome == Ok::<u64, StoreFault>(gathered[at].handle)
        &&& into == given_out(gathered[at].block@, was.flips(), called.draws)
        &&& after.flips() == (plus(was.flips().0, 1), was.flips().1)
        &&& after.writes() == (WriteView {
            draws: drawn_by_flip(was.flips(), called.draws),
            ..called
        })
    }
}

/// The first of the reads held that is due was let go.
pub open spec fn lets_one_go<I: DurableStore>(
    was: &LatencyStore<I>,
    after: &LatencyStore<I>,
    now: u64,
    before: Seq<u8>,
    into: Seq<u8>,
    outcome: Result<u64, StoreFault>,
) -> bool {
    &&& after.below() == was.below()
    &&& after.deadlines() == was.deadlines()
    &&& after.admission() == was.admission()
    &&& after.answered_below() == was.answered_below()
    &&& after.same_model(was)
    &&& exists|at: int|
        is_first_ripe(was.held(), now, at) && #[trigger] lets_go(
            was,
            after,
            was.held(),
            at,
            before,
            into,
            outcome,
        )
}

/// A fault of the store below, or an answer to a read the model did not hand down, was passed straight up.
pub open spec fn passes_up<I: DurableStore>(
    was: &LatencyStore<I>,
    after: &LatencyStore<I>,
    answered: Option<Result<u64, StoreFault>>,
) -> bool {
    &&& was.held().is_prefix_of(after.held())
    &&& after.flips() == was.flips()
    &&& after.writes() == was.writes()
    &&& match answered {
        Some(Err(_)) => true,
        Some(Ok(handle)) => !timed(was.deadlines(), handle) || holds_handle(after.held(), handle),
        None => false,
    }
}

/// How far the moving across of finished reads has got: the store below, the deadlines left, and what has
/// come across, each with its handle, its deadline and its bytes.
pub ghost struct Gathering<I> {
    pub below: I,
    pub deadlines: Seq<(u64, u64)>,
    pub come: Seq<(u64, u64, Seq<u8>)>,
}

/// A buffer that nothing has been read into.
pub open spec fn blank() -> Seq<u8> {
    Seq::new(4096, |i: int| 0u8)
}

/// The first deadline under a handle.
pub open spec fn is_first_timed(deadlines: Seq<(u64, u64)>, handle: u64, at: int) -> bool {
    &&& 0 <= at < deadlines.len()
    &&& deadlines[at].0 == handle
    &&& forall|i: int| 0 <= i < at ==> (#[trigger] deadlines[i]).0 != handle
}

/// One finished read was moved across, with the deadline it had.
pub open spec fn brings<I: DurableStore>(was: Gathering<I>, now: u64, after: Gathering<I>) -> bool {
    exists|handle: u64, bytes: Seq<u8>, at: int|
        #![trigger was.below.did(Call::Poll { now, had: blank() }, Reply::Polled(Some(Ok(handle)), bytes), &after.below), is_first_timed(was.deadlines, handle, at)]
        was.below.did(
            Call::Poll { now, had: blank() },
            Reply::Polled(Some(Ok(handle)), bytes),
            &after.below,
        ) && is_first_timed(was.deadlines, handle, at) && after.deadlines == was.deadlines.update(
            at,
            was.deadlines.last(),
        ).drop_last() && after.come == was.come.push((handle, was.deadlines[at].1, bytes))
}

/// Finished reads were moved across one after another.
pub open spec fn brings_all<I: DurableStore>(run: Seq<Gathering<I>>, now: u64) -> bool {
    &&& run.len() > 0
    &&& forall|i: int, j: int|
        0 <= i && j == i + 1 && j < run.len() ==> brings(#[trigger] run[i], now, #[trigger] run[j])
}

/// What the model holds, by handle, deadline and bytes.
pub open spec fn held_views(held: Seq<Completed>) -> Seq<(u64, u64, Seq<u8>)> {
    held.map_values(|one: Completed| (one.handle, one.due, one.block@))
}

/// The poll of the store below that ended the moving across: it had nothing, or a fault, or an answer to a
/// read without a deadline.
pub open spec fn ends<I: DurableStore>(
    last: Gathering<I>,
    after: I,
    now: u64,
    had: Seq<u8>,
    early: Option<Result<u64, StoreFault>>,
    bytes: Seq<u8>,
) -> bool {
    exists|buffer: Seq<u8>| #[trigger]
        last.below.did(Call::Poll { now, had: blank() }, Reply::Polled(early, buffer), &after)
            && match early {
            Some(Ok(handle)) => !timed(last.deadlines, handle) && bytes == buffer,
            _ => bytes == had,
        }
}

/// The store below was polled until it had no more, or had something for which there is no deadline, and
/// what it had finished was moved across. More than the largest count are not asked for.
pub open spec fn gathers<I: DurableStore>(
    was: &LatencyStore<I>,
    after: &LatencyStore<I>,
    now: u64,
    had: Seq<u8>,
    early: Option<Result<u64, StoreFault>>,
    bytes: Seq<u8>,
) -> bool {
    &&& after.writes() == was.writes()
    &&& after.flips() == was.flips()
    &&& after.admission() == was.admission()
    &&& after.answered_below() == was.answered_below()
    &&& after.same_model(was)
    &&& exists|run: Seq<Gathering<I>>| #[trigger]
        brings_all(run, now) && run[0] == (Gathering {
            below: was.below(),
            deadlines: was.deadlines(),
            come: Seq::empty(),
        }) && after.deadlines() == run.last().deadlines && held_views(after.held()) == held_views(
            was.held(),
        ) + run.last().come && if run.len() > u64::MAX {
            early is None && bytes == had && after.below() == run.last().below
        } else {
            ends(run.last(), after.below(), now, had, early, bytes)
        }
}

/// One more finished read was moved across.
proof fn lemma_brings_more<I: DurableStore>(run: Seq<Gathering<I>>, now: u64, one: Gathering<I>)
    requires
        brings_all(run, now),
        brings(run.last(), now, one),
    ensures
        brings_all(run.push(one), now),
{
    let more = run.push(one);
    assert forall|i: int, j: int| 0 <= i && j == i + 1 && j < more.len() implies brings(
        #[trigger] more[i],
        now,
        #[trigger] more[j],
    ) by {
        assert(more[i] == run[i]);
        if j < run.len() {
            assert(more[j] == run[j]);
        }
    }
}

/// A read that has been answered below is still asked for.
pub open spec fn holds_read(held: Seq<Completed>, a: Asked) -> bool {
    exists|i: int|
        0 <= i < held.len() && (#[trigger] held[i]).handle == a.0 && held[i].from@ == (a.1, a.2)
}

/// A block that a read was answered with below is one it may be answered with.
pub open spec fn holds_block(held: Seq<Completed>, w: Written) -> bool {
    exists|i: int|
        0 <= i < held.len() && (#[trigger] held[i]).from@ == (w.0, w.1) && held[i].block@ == w.2
}

/// A read under this handle has a deadline.
pub open spec fn timed(deadlines: Seq<(u64, u64)>, handle: u64) -> bool {
    exists|i: int| 0 <= i < deadlines.len() && (#[trigger] deadlines[i]).0 == handle
}

/// A read under this handle has been answered below and not yet released.
pub open spec fn holds_handle(held: Seq<Completed>, handle: u64) -> bool {
    exists|i: int| 0 <= i < held.len() && (#[trigger] held[i]).handle == handle
}

/// Some read that has been answered below is due.
pub open spec fn has_ripe(held: Seq<Completed>, now: u64) -> bool {
    exists|i: int| 0 <= i < held.len() && (#[trigger] held[i]).due <= now
}

impl<I: DurableStore> LatencyStore<I> {
    /// Nothing the model holds has changed but its reads and its counters.
    spec fn same_writes(&self, before: &Self) -> bool {
        &&& self.write_queue_depth == before.write_queue_depth
        &&& self.queue_depth == before.queue_depth
        &&& self.refused == before.refused
        &&& self.write_due == before.write_due
        &&& self.write_answered == before.write_answered
        &&& self.fault_every == before.fault_every
        &&& self.corrupt_every == before.corrupt_every
        &&& self.charged_nanos == before.charged_nanos
        &&& self.reads == before.reads
        &&& self.writes() == before.writes()
    }

    /// Moves across everything the store below has finished, with the time the model gave it. Ends early
    /// with a fault, or with an answer to a read the model did not hand down: there is no deadline to hold
    /// that for.
    fn gather(&mut self, now: u64, into: &mut Block) -> (early: Option<Result<u64, StoreFault>>)
        requires
            old(self).inner.wf(),
        ensures
            final(self).inner.wf(),
            final(self).inner.truthful() == old(self).inner.truthful(),
            forall|w: Written| #[trigger]
                final(self).inner.written().contains(w) ==> old(self).inner.written().contains(w)
                    || old(self).pledged().contains(w),
            final(self).asked().subset_of(old(self).asked()),
            final(self).pledged().subset_of(old(self).pledged()),
            final(self).same_writes(old(self)),
            old(self).inner.truthful() ==> (early matches Some(Ok(handle)) ==> is_answer(
                old(self).asked(),
                old(self).pledged(),
                handle,
                final(into)@,
            )),
            early matches Some(Ok(handle)) ==> !timed(old(self).inflight@, handle) || holds_handle(
                final(self).completed@,
                handle,
            ),
            gathers(old(self), final(self), now, old(into)@, early, final(into)@),
            early is None ==> *final(into) == *old(into),
            old(self).completed@.is_prefix_of(final(self).completed@),
            forall|i: int|
                old(self).completed@.len() <= i < final(self).completed@.len()
                    ==> old(self).inflight@.contains(
                    ((#[trigger] final(self).completed@[i]).handle, final(self).completed@[i].due),
                ),
    {
        let mut left: u64 = u64::MAX;
        let ghost mut run: Seq<Gathering<I>> = seq![
            Gathering { below: self.inner, deadlines: self.inflight@, come: Seq::empty() },
        ];
        proof {
            assert(held_views(self.completed@) =~= held_views(old(self).completed@) + run.last().come);
        }
        while left > 0
            invariant
                brings_all(run, now),
                run.len() + left == u64::MAX + 1,
                run[0] == (Gathering {
                    below: old(self).inner,
                    deadlines: old(self).inflight@,
                    come: Seq::<(u64, u64, Seq<u8>)>::empty(),
                }),
                run.last().below == self.inner,
                run.last().deadlines == self.inflight@,
                held_views(self.completed@) == held_views(old(self).completed@) + run.last().come,
                self.device == old(self).device,
                self.costs() == old(self).costs(),
                self.inner.wf(),
                self.inner.truthful() == old(self).inner.truthful(),
                forall|w: Written| #[trigger]
                    self.inner.written().contains(w) ==> old(self).inner.written().contains(w) || old(self).pledged().contains(w),
                self.asked().subset_of(old(self).asked()),
                self.pledged().subset_of(old(self).pledged()),
                self.same_writes(old(self)),
                old(self).completed@.is_prefix_of(self.completed@),
                *into == *old(into),
                forall|i: int|
                    old(self).completed@.len() <= i < self.completed@.len()
                        ==> old(self).inflight@.contains(
                        ((#[trigger] self.completed@[i]).handle, self.completed@[i].due),
                    ),
                forall|i: int|
                    0 <= i < self.inflight@.len() ==> old(self).inflight@.contains(
                        #[trigger] self.inflight@[i],
                    ),
                forall|h: u64|
                    #![trigger timed(old(self).inflight@, h)]
                    timed(old(self).inflight@, h) ==> timed(self.inflight@, h) || holds_handle(
                        self.completed@,
                        h,
                    ),
            decreases left,
        {
            let ghost was = *self;
            let mut buffer = Block::zeroed();
            let polled = self.inner.poll(now, &mut buffer);
            assert(run.last().below.did(
                Call::Poll { now, had: blank() },
                Reply::Polled(polled, buffer@),
                &self.inner,
            ));
            match polled {
                None => {
                    proof {
                        self.lemma_fewer_below(&was);
                        assert(ends(run.last(), self.below(), now, old(into)@, None, into@));
                    }
                    return None;
                },
                Some(Err(fault)) => {
                    proof {
                        self.lemma_fewer_below(&was);
                        assert(ends(run.last(), self.below(), now, old(into)@, Some(Err(fault)), into@));
                    }
                    return Some(Err(fault));
                },
                Some(Ok(handle)) => {
                    proof {
                        self.lemma_fewer_below(&was);
                        if was.inner.truthful() {
                            was.lemma_answer_below(handle, buffer@);
                            lemma_answer_wider(
                                was.asked(),
                                was.pledged(),
                                old(self).asked(),
                                old(self).pledged(),
                                handle,
                                buffer@,
                            );
                        }
                    }
                    match find_handle(&self.inflight, handle) {
                        None => {
                            into.copy_from(&buffer);
                            assert(ends(run.last(), self.below(), now, old(into)@, Some(Ok(handle)), into@));
                            return Some(Ok(handle));
                        },
                        Some(at) => {
                            let ghost polled = *self;
                            let ghost bytes = buffer@;
                            let (_, due) = self.inflight.swap_remove(at);
                            let ghost from = answer_place(
                                was.inner.asked(),
                                was.inner.pledged(),
                                handle,
                                buffer@,
                            );
                            self.completed.push(
                                Completed { handle, due, block: buffer, from: Ghost(from) },
                            );
                            proof {
                                assert(self.completed@.drop_last() =~= was.completed@);
                                let one = self.completed@.last();
                                let step = Gathering {
                                    below: self.inner,
                                    deadlines: self.inflight@,
                                    come: run.last().come.push((handle, due, one.block@)),
                                };
                                assert(is_first_timed(run.last().deadlines, handle, at as int));
                                assert(step.deadlines =~= run.last().deadlines.update(
                                    at as int,
                                    run.last().deadlines.last(),
                                ).drop_last());
                                assert(one.block@ == bytes);
                                assert(run.last().below.did(
                                    Call::Poll { now, had: blank() },
                                    Reply::Polled(Some(Ok(handle)), bytes),
                                    &step.below,
                                ));
                                assert(run.last().deadlines[at as int] == (handle, due));
                                assert(brings(run.last(), now, step));
                                lemma_brings_more(run, now, step);
                                run = run.push(step);
                                assert(held_views(self.completed@) =~= held_views(was.completed@).push(
                                    (handle, due, one.block@),
                                ));
                                assert(held_views(self.completed@) =~= held_views(
                                    old(self).completed@,
                                ) + run.last().come);
                                if was.inner.truthful() {
                                    lemma_answer_place(
                                        was.inner.asked(),
                                        was.inner.pledged(),
                                        handle,
                                        self.completed@.last().block@,
                                    );
                                }
                                self.lemma_moved_across(&was, &polled, old(self), at as int);
                                assert forall|i: int|
                                    old(self).completed@.len() <= i < self.completed@.len()
                                    implies old(self).inflight@.contains(
                                    ((#[trigger] self.completed@[i]).handle, self.completed@[i].due),
                                ) by {
                                    if i < was.completed@.len() {
                                        assert(self.completed@.drop_last()[i] == self.completed@[i]);
                                    } else {
                                        assert(was.inflight@[at as int] == (handle, due));
                                    }
                                }
                                assert forall|i: int|
                                    0 <= i < self.inflight@.len() implies old(self).inflight@.contains(
                                    #[trigger] self.inflight@[i],
                                ) by {
                                    if i == at {
                                        assert(self.inflight@[i] == was.inflight@[was.inflight@.len() - 1]);
                                    } else {
                                        assert(self.inflight@[i] == was.inflight@[i]);
                                    }
                                }
                                self.lemma_timed_or_held(&was, old(self), at as int);
                            }
                        },
                    }
                },
            }
            left = left - 1;
        }
        None
    }
}

/// Where a block that answers a read was read from.
pub open spec fn answer_place(
    asked: Set<Asked>,
    pledged: Set<Written>,
    handle: u64,
    bytes: Seq<u8>,
) -> (ObjectId, u64) {
    choose|place: (ObjectId, u64)| #[trigger]
        asked.contains((handle, place.0, place.1)) && pledged.contains((place.0, place.1, bytes))
}

proof fn lemma_answer_place(asked: Set<Asked>, pledged: Set<Written>, handle: u64, bytes: Seq<u8>)
    requires
        is_answer(asked, pledged, handle, bytes),
    ensures
        ({
            let place = answer_place(asked, pledged, handle, bytes);
            &&& asked.contains((handle, place.0, place.1))
            &&& pledged.contains((place.0, place.1, bytes))
        }),
{
    let (object, offset) = choose|object: ObjectId, offset: u64| #[trigger]
        asked.contains((handle, object, offset)) && pledged.contains((object, offset, bytes));
    let place = (object, offset);
    assert(asked.contains((handle, place.0, place.1)) && pledged.contains((place.0, place.1, bytes)));
}

proof fn lemma_answer_wider(
    asked: Set<Asked>,
    pledged: Set<Written>,
    wider_asked: Set<Asked>,
    wider_pledged: Set<Written>,
    handle: u64,
    bytes: Seq<u8>,
)
    requires
        is_answer(asked, pledged, handle, bytes),
        asked.subset_of(wider_asked),
        pledged.subset_of(wider_pledged),
    ensures
        is_answer(wider_asked, wider_pledged, handle, bytes),
{
    let (object, offset) = choose|object: ObjectId, offset: u64| #[trigger]
        asked.contains((handle, object, offset)) && pledged.contains((object, offset, bytes));
    assert(wider_asked.contains((handle, object, offset)));
}

/// The place of the first read under a handle.
fn find_handle(deadlines: &Vec<(u64, u64)>, handle: u64) -> (at: Option<usize>)
    ensures
        match at {
            Some(at) => is_first_timed(deadlines@, handle, at as int),
            None => !timed(deadlines@, handle),
        },
{
    let mut at: usize = 0;
    while at < deadlines.len()
        invariant
            at <= deadlines@.len(),
            forall|j: int| 0 <= j < at ==> (#[trigger] deadlines@[j]).0 != handle,
        decreases deadlines@.len() - at,
    {
        if deadlines[at].0 == handle {
            return Some(at);
        }
        at += 1;
    }
    None
}

impl<I: DurableStore> LatencyStore<I> {
    proof fn lemma_fewer_below(&self, before: &Self)
        requires
            self.completed == before.completed,
            self.inner.truthful() == before.inner.truthful(),
            self.inner.asked().subset_of(before.inner.asked()),
            self.inner.pledged().subset_of(before.inner.pledged()),
        ensures
            self.asked().subset_of(before.asked()),
            self.pledged().subset_of(before.pledged()),
    {
    }

    proof fn lemma_answer_below(&self, handle: u64, bytes: Seq<u8>)
        requires
            is_answer(self.inner.asked(), self.inner.pledged(), handle, bytes),
        ensures
            is_answer(self.asked(), self.pledged(), handle, bytes),
    {
        lemma_answer_wider(
            self.inner.asked(),
            self.inner.pledged(),
            self.asked(),
            self.pledged(),
            handle,
            bytes,
        );
    }

    /// A read that has moved from below to what the model holds is the same read.
    proof fn lemma_moved_across(
        &self,
        was: &Self,
        polled: &Self,
        begun: &Self,
        at: int,
    )
        requires
            polled.completed == was.completed,
            polled.inflight == was.inflight,
            0 <= at < was.inflight@.len(),
            self.inner == polled.inner,
            self.inner.truthful() == was.inner.truthful(),
            self.inner.asked().subset_of(was.inner.asked()),
            self.inner.pledged().subset_of(was.inner.pledged()),
            self.completed@.len() == was.completed@.len() + 1,
            self.completed@.drop_last() == was.completed@,
            self.completed@.last().handle == was.inflight@[at].0,
            self.completed@.last().due == was.inflight@[at].1,
            was.inner.truthful() ==> ({
                let one = self.completed@.last();
                &&& was.inner.asked().contains((one.handle, one.from@.0, one.from@.1))
                &&& was.inner.pledged().contains((one.from@.0, one.from@.1, one.block@))
            }),
            was.asked().subset_of(begun.asked()),
            was.pledged().subset_of(begun.pledged()),
        ensures
            self.asked().subset_of(begun.asked()),
            self.pledged().subset_of(begun.pledged()),
    {
        let all = self.completed@;
        let last = all.len() - 1;
        assert forall|i: int| 0 <= i < last implies #[trigger] all[i] == was.completed@[i] by {
            assert(all.drop_last()[i] == all[i]);
        }
        assert forall|a: Asked| #[trigger] self.asked().contains(a) implies begun.asked().contains(a) by {
            if !self.inner.asked().contains(a) {
                let i = choose|i: int|
                    0 <= i < all.len() && (#[trigger] all[i]).handle == a.0 && all[i].from@ == (a.1, a.2);
                if i < last {
                    assert(was.completed@[i].handle == a.0);
                    assert(was.asked().contains(a));
                } else {
                    assert(was.asked().contains(a));
                }
            } else {
                assert(was.asked().contains(a));
            }
        }
        assert forall|w: Written| #[trigger] self.pledged().contains(w) implies begun.pledged().contains(
            w,
        ) by {
            if !self.inner.pledged().contains(w) {
                let i = choose|i: int|
                    0 <= i < all.len() && (#[trigger] all[i]).from@ == (w.0, w.1) && all[i].block@ == w.2;
                if i < last {
                    assert(was.completed@[i].from@ == (w.0, w.1));
                    assert(was.pledged().contains(w));
                } else {
                    assert(was.pledged().contains(w));
                }
            } else {
                assert(was.pledged().contains(w));
            }
        }
    }

    proof fn lemma_timed_or_held(&self, was: &Self, begun: &Self, at: int)
        requires
            0 <= at < was.inflight@.len(),
            self.inflight@ == was.inflight@.update(at, was.inflight@.last()).drop_last(),
            self.completed@.len() == was.completed@.len() + 1,
            self.completed@.drop_last() == was.completed@,
            self.completed@.last().handle == was.inflight@[at].0,
            forall|h: u64|
                #![trigger timed(begun.inflight@, h)]
                timed(begun.inflight@, h) ==> timed(was.inflight@, h) || holds_handle(
                    was.completed@,
                    h,
                ),
        ensures
            forall|h: u64|
                #![trigger timed(begun.inflight@, h)]
                timed(begun.inflight@, h) ==> timed(self.inflight@, h) || holds_handle(
                    self.completed@,
                    h,
                ),
    {
        assert forall|h: u64|
            #![trigger timed(begun.inflight@, h)]
            timed(begun.inflight@, h) implies timed(self.inflight@, h) || holds_handle(
            self.completed@,
            h,
        ) by {
            let last = self.completed@.len() - 1;
            assert(self.completed@[last] == self.completed@.last());
            if holds_handle(was.completed@, h) {
                let i = choose|i: int|
                    0 <= i < was.completed@.len() && (#[trigger] was.completed@[i]).handle == h;
                assert(self.completed@.drop_last()[i] == self.completed@[i]);
                assert(self.completed@[i].handle == h);
            } else {
                let i = choose|i: int|
                    0 <= i < was.inflight@.len() && (#[trigger] was.inflight@[i]).0 == h;
                if i == at {
                    assert(self.completed@[last].handle == h);
                } else if i == was.inflight@.len() - 1 {
                    assert(self.inflight@[at].0 == h);
                } else {
                    assert(self.inflight@[i].0 == h);
                }
            }
        }
    }

    /// The first of what the model holds that is due.
    fn find_ripe(&self, now: u64) -> (at: Option<usize>)
        ensures
            match at {
                Some(at) => is_first_ripe(self.completed@, now, at as int),
                None => !has_ripe(self.completed@, now),
            },
    {
        let mut at: usize = 0;
        while at < self.completed.len()
            invariant
                at <= self.completed@.len(),
                forall|j: int| 0 <= j < at ==> (#[trigger] self.completed@[j]).due > now,
            decreases self.completed@.len() - at,
        {
            if self.completed[at].due <= now {
                return Some(at);
            }
            at += 1;
        }
        None
    }

    /// A model that holds fewer reads may answer with nothing more.
    proof fn lemma_fewer_held(&self, before: &Self)
        requires
            self.inner == before.inner,
            forall|i: int|
                0 <= i < self.completed@.len() ==> before.completed@.contains(
                    #[trigger] self.completed@[i],
                ),
        ensures
            self.asked().subset_of(before.asked()),
            self.pledged().subset_of(before.pledged()),
    {
        assert forall|a: Asked| #[trigger] self.asked().contains(a) implies before.asked().contains(a) by {
            if !self.inner.asked().contains(a) {
                let i = choose|i: int|
                    0 <= i < self.completed@.len() && (#[trigger] self.completed@[i]).handle == a.0
                        && self.completed@[i].from@ == (a.1, a.2);
                let one = self.completed@[i];
                let j = choose|j: int| 0 <= j < before.completed@.len() && before.completed@[j] == one;
                assert(before.completed@[j].handle == a.0);
            }
        }
        assert forall|w: Written| #[trigger] self.pledged().contains(w) implies before.pledged().contains(
            w,
        ) by {
            if !self.inner.pledged().contains(w) {
                let i = choose|i: int|
                    0 <= i < self.completed@.len() && (#[trigger] self.completed@[i]).from@ == (w.0, w.1)
                        && self.completed@[i].block@ == w.2;
                let one = self.completed@[i];
                let j = choose|j: int| 0 <= j < before.completed@.len() && before.completed@[j] == one;
                assert(before.completed@[j].from@ == (w.0, w.1));
            }
        }
    }
}

/// What the modelled lane releases: the call at its front, once its time has passed and the store below has
/// answered it, and nothing before that.
pub open spec fn released<I: DurableStore>(
    was: &LatencyStore<I>,
    now_is: &LatencyStore<I>,
    done: Option<(u64, Result<(), StoreFault>)>,
    now: u64,
) -> bool {
    let lane = was.lane();
    &&& lane.len() == 0 || lane[0].1 > now ==> done is None
    &&& done matches Some((handle, _)) ==> handle == lane[0].0 && now_is.writes() == (WriteView {
        lane: lane.drop_first(),
        ..was.writes()
    })
    &&& done is None ==> now_is.writes() == was.writes()
    &&& done is None && lane.len() > 0 && lane[0].1 <= now ==> !is_answered(
        was.answered_below(),
        lane[0].0,
    ) && !is_answered(now_is.answered_below(), lane[0].0)
}

/// An answer to this handle has been given.
pub open spec fn is_answered(answers: Seq<(u64, Result<(), StoreFault>)>, handle: u64) -> bool {
    exists|i: int| 0 <= i < answers.len() && (#[trigger] answers[i]).0 == handle
}

/// The first answer to a handle was taken from among these.
pub open spec fn takes_first_answer(
    answers: Seq<(u64, Result<(), StoreFault>)>,
    handle: u64,
    reply: Reply,
    left: Seq<(u64, Result<(), StoreFault>)>,
) -> bool {
    exists|at: int| #[trigger]
        is_first_answer(answers, handle, at) && reply == Reply::Written(Some((handle, answers[at].1)))
            && left == answers.remove(at)
}

/// The first answer to a handle.
pub open spec fn is_first_answer(
    answers: Seq<(u64, Result<(), StoreFault>)>,
    handle: u64,
    at: int,
) -> bool {
    &&& 0 <= at < answers.len()
    &&& answers[at].0 == handle
    &&& forall|i: int| 0 <= i < at ==> (#[trigger] answers[i]).0 != handle
}

/// The place of the first answer to a handle.
fn find_answer(answers: &VecDeque<(u64, Result<(), StoreFault>)>, handle: u64) -> (at: Option<usize>)
    ensures
        match at {
            Some(at) => is_first_answer(answers@, handle, at as int),
            None => forall|i: int| 0 <= i < answers@.len() ==> (#[trigger] answers@[i]).0 != handle,
        },
{
    let mut at: usize = 0;
    while at < answers.len()
        invariant
            at <= answers@.len(),
            forall|j: int| 0 <= j < at ==> (#[trigger] answers@[j]).0 != handle,
        decreases answers@.len() - at,
    {
        if answers[at].0 == handle {
            return Some(at);
        }
        at += 1;
    }
    None
}

impl<I: DurableStore> DurableStore for LatencyStore<I> {
    closed spec fn wf(&self) -> bool {
        self.inner.wf() && self.queue_depth >= 1 && self.write_queue_depth >= 1
    }

    closed spec fn truthful(&self) -> bool {
        self.inner.truthful() && self.corrupt_every == 0
    }

    open spec fn written(&self) -> Set<Written> {
        self.below().written()
    }

    open spec fn stored(&self) -> Set<Written> {
        self.below().stored()
    }

    closed spec fn asked(&self) -> Set<Asked> {
        Set::new(
            |a: Asked|
                self.inner.asked().contains(a) || (self.inner.truthful() && holds_read(
                    self.completed@,
                    a,
                )),
        )
    }

    closed spec fn writes_inline(&self) -> bool {
        self.inner.writes_inline()
    }

    open spec fn counted(&self) -> Option<VolumeStats> {
        match self.below().counted() {
            Some(below) => Some(below.merge_of(self.writes().invented)),
            None => None,
        }
    }

    closed spec fn pledged(&self) -> Set<Written> {
        Set::new(
            |w: Written|
                self.inner.pledged().contains(w) || (self.inner.truthful() && holds_block(
                    self.completed@,
                    w,
                )),
        )
    }

    open spec fn did(&self, call: Call, reply: Reply, after: &Self) -> bool {
        match call {
            Call::Write { handle, now, .. } => self.changes(
                call,
                handle,
                Some(self.costs().1),
                now,
                reply,
                after,
            ),
            Call::Barrier { handle, now } => self.changes(
                call,
                handle,
                Some(self.costs().2),
                now,
                reply,
                after,
            ),
            Call::Remove { handle, now, .. } => self.changes(call, handle, None, now, reply, after),
            Call::Rename { handle, now, .. } => self.changes(call, handle, None, now, reply, after),
            Call::PollWritten { now } => self.answers_written(now, reply, after),
            Call::WritesInflight => exists|below: usize| #[trigger]
                self.below().did(call, Reply::Count(below), &self.below()) && reply == Reply::Count(
                    at_most(self.refusals().len() + self.lane().len() + below),
                ),
            Call::WritesAreQueued => self.below().did(call, reply, &self.below()),
            Call::ReadAt { object, offset, had } => self.reads_at(object, offset, had, reply, after),
            Call::Submit { handle, now, .. } => self.takes_read(call, handle, now, reply, after),
            Call::Poll { now, had } => self.polls(now, had, reply, after),
            Call::Inflight => reply == Reply::Count(at_most(self.deadlines().len() + self.held().len() as int)),
            Call::TakeCharge => {
                &&& reply == Reply::Amount(self.charge_owed())
                &&& after.writes() == (WriteView { charge: 0, ..self.writes() })
                &&& after.same_reads(self)
                &&& after.below() == self.below()
            },
            Call::BlocksIn { .. } | Call::HasObject { .. } => {
                &&& self.below().did(call, reply, &after.below())
                &&& after.writes() == self.writes()
                &&& after.same_reads(self)
            },
        }
    }

    fn submit_write(
        &mut self,
        handle: u64,
        object: ObjectId,
        offset: u64,
        block: &Block,
        creating: bool,
        now: u64,
    ) -> (taken: bool)
        ensures
            old(self).below().writes_inline() ==> done_inline(
                old(self).writes(),
                final(self).writes(),
                handle,
                Some(old(self).costs().1),
                taken,
            ),
            done_inline(
                old(self).writes(),
                final(self).writes(),
                handle,
                Some(old(self).costs().1),
                taken,
            ) || done_queued(
                old(self).writes(),
                final(self).writes(),
                handle,
                old(self).costs().1,
                taken,
                now,
            ),
            old(self).writes().fails_next() ==> final(self).below() == old(self).below(),
            final(self).same_reads(old(self)),
    {
        let queued = self.inner.writes_are_queued();
        assert(self.below().did(Call::WritesAreQueued, Reply::Flag(queued), &self.below()));
        if !queued {
            if self.refuses_inline(handle, Some(self.write)) {
                return true;
            }
            return self.inner.submit_write(handle, object, offset, block, creating, now);
        }
        if let Some(taken) = self.answers_queued(handle) {
            return taken;
        }
        if !self.inner.submit_write(handle, object, offset, block, creating, now) {
            return false;
        }
        self.serve_write(handle, now, self.write);
        true
    }

    fn submit_barrier(&mut self, handle: u64, now: u64) -> (taken: bool)
        ensures
            old(self).below().writes_inline() ==> done_inline(
                old(self).writes(),
                final(self).writes(),
                handle,
                Some(old(self).costs().2),
                taken,
            ),
            done_inline(
                old(self).writes(),
                final(self).writes(),
                handle,
                Some(old(self).costs().2),
                taken,
            ) || done_queued(
                old(self).writes(),
                final(self).writes(),
                handle,
                old(self).costs().2,
                taken,
                now,
            ),
            old(self).writes().fails_next() ==> final(self).below() == old(self).below(),
            final(self).same_reads(old(self)),
    {
        let queued = self.inner.writes_are_queued();
        assert(self.below().did(Call::WritesAreQueued, Reply::Flag(queued), &self.below()));
        if !queued {
            if self.refuses_inline(handle, Some(self.sync)) {
                return true;
            }
            return self.inner.submit_barrier(handle, now);
        }
        if let Some(taken) = self.answers_queued(handle) {
            return taken;
        }
        if !self.inner.submit_barrier(handle, now) {
            return false;
        }
        self.serve_write(handle, now, self.sync);
        true
    }

    /// A refusal that the model invented is answered here, the one path a real device's failure takes too.
    /// A queued write leaves when the store below has answered it and the model's time for it has passed,
    /// in submission order, because one lane serves them in that order.
    fn poll_written(&mut self, now: u64) -> (done: Option<(u64, Result<(), StoreFault>)>)
        ensures
            old(self).refusals().len() > 0 ==> done == Some(
                (old(self).refusals()[0], Err::<(), StoreFault>(StoreFault::Device)),
            ) && final(self).writes() == (WriteView {
                refusals: old(self).refusals().drop_first(),
                ..old(self).writes()
            }) && final(self).below() == old(self).below() && final(self).same_reads(old(self)),
            old(self).refusals().len() == 0 && old(self).below().writes_inline() ==> final(self).writes()
                == old(self).writes() && final(self).same_reads(old(self)),
            old(self).refusals().len() == 0 ==> (final(self).writes() == old(self).writes()
                && final(self).same_reads(old(self))) || released(old(self), final(self), done, now),
    {
        match self.refused.pop_front() {
            Some(handle) => {
                assert(self.refused@ =~= old(self).refused@.drop_first());
                return Some((handle, Err(StoreFault::Device)));
            },
            None => {},
        }
        let queued = self.inner.writes_are_queued();
        assert(self.refused@ =~= old(self).refused@);
        assert(old(self).below().did(Call::WritesAreQueued, Reply::Flag(queued), &old(self).below()));
        if !queued {
            return self.inner.poll_written(now);
        }
        let mut left: u64 = u64::MAX;
        let ghost mut answers: Seq<(u64, Result<(), StoreFault>)> = Seq::empty();
        proof {
            lemma_answered_none(self.inner, now);
            assert(self.write_answered@ =~= old(self).write_answered@ + answers);
        }
        while left > 0
            invariant_except_break
                answers.len() + left == u64::MAX,
                answered_with(old(self).inner, now, answers, self.inner),
            invariant
                self.inner.wf(),
                self.inner.truthful() == old(self).inner.truthful(),
                self.inner.written() == old(self).inner.written(),
                self.inner.asked().subset_of(old(self).inner.asked()),
                self.inner.pledged().subset_of(old(self).inner.pledged()),
                self.completed == old(self).completed,
                self.queue_depth == old(self).queue_depth,
                self.write_queue_depth == old(self).write_queue_depth,
                self.corrupt_every == old(self).corrupt_every,
                self.writes() == old(self).writes(),
                self.deadlines() == old(self).deadlines(),
                self.costs() == old(self).costs(),
                self.admission() == old(self).admission(),
                self.flips() == old(self).flips(),
                old(self).refused@.len() == 0,
                self.write_answered@ == old(self).write_answered@ + answers,
            ensures
                polled_out(old(self).inner, now, answers, self.inner),
            decreases left,
        {
            let ghost was = self.inner;
            match self.inner.poll_written(now) {
                Some(answered) => {
                    self.write_answered.push_back(answered);
                    proof {
                        lemma_answered_more(
                            old(self).inner,
                            now,
                            answers,
                            was,
                            answered,
                            self.inner,
                        );
                        answers = answers.push(answered);
                        assert(self.write_answered@ =~= old(self).write_answered@ + answers);
                    }
                },
                None => {
                    break;
                },
            }
            left = left - 1;
        }
        assert(polled_out(old(self).below(), now, answers, self.below()));
        if self.write_due.len() == 0 {
            return None;
        }
        let (handle, due) = self.write_due[0];
        if due > now {
            return None;
        }
        let ghost all = self.write_answered@;
        proof {
            assert(old(self).lane()[0] == (handle, due));
            assert(all =~= old(self).answered_below() + answers);
            if is_answered(old(self).write_answered@, handle) {
                let i = choose|i: int|
                    0 <= i < old(self).write_answered@.len() && (
                    #[trigger] old(self).write_answered@[i]).0 == handle;
                assert(self.write_answered@[i].0 == handle);
            }
        }
        match find_answer(&self.write_answered, handle) {
            None => {
                assert(!is_answered(all, handle));
                None
            },
            Some(at) => match self.write_answered.remove(at) {
                None => None,
                Some((_, outcome)) => {
                    self.write_due.pop_front();
                    proof {
                        assert(self.write_due@ =~= old(self).write_due@.drop_first());
                        assert(is_first_answer(all, handle, at as int));
                        assert(is_answered(all, handle)) by {
                            assert(all[at as int].0 == handle);
                        }
                        assert(outcome == all[at as int].1);
                        assert(self.answered_below() =~= all.remove(at as int));
                        assert(polled_out(old(self).below(), now, answers, self.below()));
                        assert(self.writes() == (WriteView {
                            lane: old(self).lane().drop_first(),
                            ..old(self).writes()
                        }));
                        assert(is_answered(all, old(self).lane()[0].0));
                        assert(takes_first_answer(
                            old(self).answered_below() + answers,
                            old(self).lane()[0].0,
                            Reply::Written(Some((handle, outcome))),
                            self.answered_below(),
                        ));
                    }
                    Some((handle, outcome))
                },
            },
        }
    }

    fn writes_inflight(&self) -> (inflight: usize) {
        let below: usize = self.inner.writes_inflight();
        assert(self.below().did(Call::WritesInflight, Reply::Count(below), &self.below()));
        self.refused.len().saturating_add(self.write_due.len()).saturating_add(below)
    }

    fn writes_are_queued(&self) -> (queued: bool) {
        self.inner.writes_are_queued()
    }

    /// The store below's, plus what the model refused or failed that never reached it.
    fn stats(&self) -> (stats: VolumeStats) {
        self.inner.stats().merge(self.invented)
    }

    /// A read that holds the thread, and is charged to it.
    fn read_at(&mut self, object: ObjectId, offset: u64, into: &mut Block) -> (read: Result<
        (),
        StoreFault,
    >)
        ensures
            final(self).charge_owed() == old(self).writes().charged(old(self).costs().0).charge,
            final(self).writes().calls == plus(old(self).writes().calls, 1),
            old(self).writes().fails_next() ==> read == Err::<(), StoreFault>(StoreFault::Device)
                && *final(into) == *old(into) && final(self).below() == old(self).below(),
            final(self).flips() == (
                if read is Ok {
                    plus(old(self).flips().0, 1)
                } else {
                    old(self).flips().0
                },
                old(self).flips().1,
            ),
            final(self).deadlines() == old(self).deadlines(),
            final(self).held() == old(self).held(),
            read is Ok && old(self).below().truthful() ==> exists|bytes: Seq<u8>| #[trigger]
                old(self).below().written().contains((object, offset, bytes)) && final(into)@ == given_out(
                    bytes,
                    old(self).flips(),
                    old(self).writes().charged(old(self).costs().0).called().draws,
                ),
    {
        self.charge(self.read);
        if self.refuses() {
            return Err(StoreFault::Device);
        }
        let read = self.inner.read_at(object, offset, into);
        assert(old(self).below().did(
            Call::ReadAt { object, offset, had: old(into)@ },
            Reply::Read(read, into@),
            &self.below(),
        ));
        let ghost came = *self;
        let ghost bytes = into@;
        if read.is_ok() {
            self.corrupt(into);
            assert(came.writes() == old(self).writes().charged(old(self).costs().0).called());
            assert(into@ == given_out(bytes, old(self).flips(), came.writes().draws));
        }
        assert(old(self).below().did(
            Call::ReadAt { object, offset, had: old(into)@ },
            Reply::Read(read, bytes),
            &self.below(),
        ));
        read
    }

    /// Handed down as well as timed: the store below has to do the read, because whatever concurrency it
    /// has is the thing being measured.
    fn submit(&mut self, handle: u64, object: ObjectId, offset: u64, now: u64) -> (taken: bool)
        ensures
            old(self).deadlines().len() + old(self).held().len() >= old(self).depth() ==> !taken
                && final(self).below() == old(self).below(),
            final(self).held() == old(self).held(),
            final(self).flips() == old(self).flips(),
            final(self).writes() == if taken {
                WriteView {
                    draws: old(self).admission().cost.after(old(self).writes().draws),
                    ..old(self).writes()
                }
            } else if old(self).deadlines().len() + old(self).held().len() >= old(self).depth() {
                WriteView {
                    invented: old(self).writes().invented.refused_read_after(),
                    ..old(self).writes()
                }
            } else {
                old(self).writes()
            },
            !taken ==> final(self).deadlines() == old(self).deadlines() && final(self).admission()
                == old(self).admission(),
            taken ==> {
                let begins = later(now, old(self).admission().next_at);
                let cost = old(self).admission().cost;
                &&& final(self).deadlines() == old(self).deadlines().push(
                    (handle, plus(begins, cost.drawn(old(self).writes().draws))),
                )
                &&& final(self).admission() == (Server {
                    next_at: plus(begins, old(self).admission().gap_nanos),
                    ..old(self).admission()
                })
            },
    {
        if self.inflight.len() >= self.queue_depth || self.completed.len() >= self.queue_depth
            - self.inflight.len() {
            self.invented.refused_read();
            return false;
        }
        if !self.inner.submit(handle, object, offset, now) {
            return false;
        }
        proof {
            let below = old(self).inner.asked();
            if asks_elsewhere(below, handle, object, offset) {
                let a = choose|a: Asked| #[trigger]
                    below.contains(a) && a.0 == handle && (a.1 != object || a.2 != offset);
                assert(old(self).asked().contains(a));
                assert(asks_elsewhere(old(self).asked(), handle, object, offset));
            }
        }
        let due: u64 = self.device.serve(now, &mut self.prng);
        self.inflight.push((handle, due));
        true
    }

    /// A completion leaves when the store below has answered it and the model's time for it has passed:
    /// the later of the two. An answer to a read that the model did not hand down, or a second answer to
    /// one it did, has no deadline to wait for.
    fn poll(&mut self, now: u64, into: &mut Block) -> (answered: Option<Result<u64, StoreFault>>)
        ensures
            passes_up(old(self), final(self), answered) || exists|gathered: Seq<Completed>| #[trigger]
                releases(
                    old(self),
                    final(self),
                    gathered,
                    now,
                    old(into)@,
                    final(into)@,
                    answered,
                ),
            has_ripe(old(self).held(), now) ==> answered is Some,
    {
        let early = self.gather(now, into);
        if early.is_some() {
            return early;
        }
        let ghost gathered = *self;
        assert(gathers(old(self), &gathered, now, old(into)@, None, into@));
        match self.find_ripe(now) {
            None => {
                assert(releases(
                    old(self),
                    self,
                    gathered.completed@,
                    now,
                    old(into)@,
                    into@,
                    None,
                ));
                None
            },
            Some(at) => {
                let one = self.completed.swap_remove(at);
                proof {
                    assert(gathered.completed@[at as int] == one);
                    assert forall|i: int| 0 <= i < self.completed@.len() implies gathered.completed@.contains(
                        #[trigger] self.completed@[i],
                    ) by {
                        if i == at {
                            assert(self.completed@[i] == gathered.completed@[gathered.completed@.len()
                                - 1]);
                        } else {
                            assert(self.completed@[i] == gathered.completed@[i]);
                        }
                    }
                    self.lemma_fewer_held(&gathered);
                    if gathered.inner.truthful() {
                        assert(gathered.completed@[at as int].from@ == one.from@);
                        assert(gathered.asked().contains((one.handle, one.from@.0, one.from@.1)));
                        assert(gathered.pledged().contains((one.from@.0, one.from@.1, one.block@)));
                        assert(is_answer(
                            gathered.asked(),
                            gathered.pledged(),
                            one.handle,
                            one.block@,
                        ));
                        lemma_answer_wider(
                            gathered.asked(),
                            gathered.pledged(),
                            old(self).asked(),
                            old(self).pledged(),
                            one.handle,
                            one.block@,
                        );
                    }
                }
                let ghost removed = *self;
                if self.refuses() {
                    proof {
                        self.lemma_fewer_held(&removed);
                        assert(lets_go(
                            &gathered,
                            self,
                            gathered.held(),
                            at as int,
                            old(into)@,
                            into@,
                            Err(StoreFault::Device),
                        ));
                        assert(lets_one_go(
                            &gathered,
                            self,
                            now,
                            old(into)@,
                            into@,
                            Err(StoreFault::Device),
                        ));
                        assert(lets_go(
                            old(self),
                            self,
                            gathered.completed@,
                            at as int,
                            old(into)@,
                            into@,
                            Err(StoreFault::Device),
                        ));
                        assert(releases(
                            old(self),
                            self,
                            gathered.completed@,
                            now,
                            old(into)@,
                            into@,
                            Some(Err(StoreFault::Device)),
                        ));
                    }
                    return Some(Err(StoreFault::Device));
                }
                into.copy_from(&one.block);
                self.corrupt(into);
                proof {
                    self.lemma_fewer_held(&removed);
                    assert(lets_go(
                        &gathered,
                        self,
                        gathered.held(),
                        at as int,
                        old(into)@,
                        into@,
                        Ok(one.handle),
                    ));
                    assert(lets_one_go(&gathered, self, now, old(into)@, into@, Ok(one.handle)));
                    assert(lets_go(
                        old(self),
                        self,
                        gathered.completed@,
                        at as int,
                        old(into)@,
                        into@,
                        Ok(one.handle),
                    ));
                    assert(releases(
                        old(self),
                        self,
                        gathered.completed@,
                        now,
                        old(into)@,
                        into@,
                        Some(Ok(one.handle)),
                    ));
                }
                Some(Ok(one.handle))
            },
        }
    }

    fn inflight(&self) -> (inflight: usize)
        ensures
            inflight == if self.deadlines().len() + self.held().len() <= usize::MAX {
                self.deadlines().len() + self.held().len()
            } else {
                usize::MAX as nat
            },
    {
        self.inflight.len().saturating_add(self.completed.len())
    }

    fn take_charge(&mut self) -> (charge: u64)
        ensures
            charge == old(self).charge_owed(),
            final(self).charge_owed() == 0,
            final(self).writes() == (WriteView { charge: 0, ..old(self).writes() }),
            final(self).same_reads(old(self)),
            final(self).below() == old(self).below(),
    {
        let charge: u64 = self.charged_nanos;
        self.charged_nanos = 0;
        charge
    }

    /// Freeing costs the device nothing that the model charges for, but it takes its turn in the queue:
    /// leaving it out would let it overtake the writes it is ordered against.
    fn submit_remove(&mut self, handle: u64, object: ObjectId, now: u64) -> (taken: bool)
        ensures
            old(self).below().writes_inline() ==> done_inline(
                old(self).writes(),
                final(self).writes(),
                handle,
                None,
                taken,
            ),
            done_inline(
                old(self).writes(),
                final(self).writes(),
                handle,
                None,
                taken,
            ) || done_queued(
                old(self).writes(),
                final(self).writes(),
                handle,
                no_cost(),
                taken,
                now,
            ),
            old(self).writes().fails_next() ==> final(self).below() == old(self).below(),
            final(self).same_reads(old(self)),
    {
        let queued = self.inner.writes_are_queued();
        assert(self.below().did(Call::WritesAreQueued, Reply::Flag(queued), &self.below()));
        if !queued {
            if self.refuses_inline(handle, None) {
                return true;
            }
            return self.inner.submit_remove(handle, object, now);
        }
        if let Some(taken) = self.answers_queued(handle) {
            return taken;
        }
        if !self.inner.submit_remove(handle, object, now) {
            return false;
        }
        self.serve_write(handle, now, Cost { base_nanos: 0, tail_nanos: 0 });
        true
    }

    fn submit_rename(&mut self, handle: u64, from: ObjectId, to: ObjectId, now: u64) -> (taken: bool)
        ensures
            old(self).below().writes_inline() ==> done_inline(
                old(self).writes(),
                final(self).writes(),
                handle,
                None,
                taken,
            ),
            done_inline(
                old(self).writes(),
                final(self).writes(),
                handle,
                None,
                taken,
            ) || done_queued(
                old(self).writes(),
                final(self).writes(),
                handle,
                no_cost(),
                taken,
                now,
            ),
            old(self).writes().fails_next() ==> final(self).below() == old(self).below(),
            final(self).same_reads(old(self)),
    {
        let queued = self.inner.writes_are_queued();
        assert(self.below().did(Call::WritesAreQueued, Reply::Flag(queued), &self.below()));
        if !queued {
            if self.refuses_inline(handle, None) {
                return true;
            }
            return self.inner.submit_rename(handle, from, to, now);
        }
        if let Some(taken) = self.answers_queued(handle) {
            return taken;
        }
        if !self.inner.submit_rename(handle, from, to, now) {
            return false;
        }
        self.serve_write(handle, now, Cost { base_nanos: 0, tail_nanos: 0 });
        true
    }

    fn blocks_in(&mut self, object: ObjectId) -> (blocks: u64) {
        self.inner.blocks_in(object)
    }

    fn has_object(&mut self, object: ObjectId) -> (there: bool) {
        self.inner.has_object(object)
    }
}

/// A store with a model in front of it where the model adds something, and the store itself where it adds
/// nothing.
pub enum ModelledStore<I: DurableStore> {
    Exact(I),
    Modelled(LatencyStore<I>),
}

impl StoreModel {
    /// The store this model makes of another.
    pub fn build<I: DurableStore>(&self, backing: I, seed: u64) -> (store: ModelledStore<I>)
        requires
            backing.wf(),
        ensures
            store.wf(),
            self.exact() ==> store == ModelledStore::Exact(backing),
            !self.exact() ==> (store matches ModelledStore::Modelled(model) && model.begins(
                backing,
                *self,
                seed,
            )),
            store.written() == backing.written(),
            store.stored() == backing.stored(),
            store.asked() == backing.asked(),
            store.pledged() == backing.pledged(),
            store.truthful() == (backing.truthful() && self.corrupt_every == 0),
    {
        if self.is_exact() {
            return ModelledStore::Exact(backing);
        }
        ModelledStore::Modelled(LatencyStore::new(backing, *self, seed))
    }
}

impl<I: DurableStore> DurableStore for ModelledStore<I> {
    open spec fn wf(&self) -> bool {
        match self {
            ModelledStore::Exact(store) => store.wf(),
            ModelledStore::Modelled(store) => store.wf(),
        }
    }

    open spec fn truthful(&self) -> bool {
        match self {
            ModelledStore::Exact(store) => store.truthful(),
            ModelledStore::Modelled(store) => store.truthful(),
        }
    }

    open spec fn written(&self) -> Set<Written> {
        match self {
            ModelledStore::Exact(store) => store.written(),
            ModelledStore::Modelled(store) => store.written(),
        }
    }

    open spec fn stored(&self) -> Set<Written> {
        match self {
            ModelledStore::Exact(store) => store.stored(),
            ModelledStore::Modelled(store) => store.stored(),
        }
    }

    open spec fn asked(&self) -> Set<Asked> {
        match self {
            ModelledStore::Exact(store) => store.asked(),
            ModelledStore::Modelled(store) => store.asked(),
        }
    }

    open spec fn writes_inline(&self) -> bool {
        match self {
            ModelledStore::Exact(store) => store.writes_inline(),
            ModelledStore::Modelled(store) => store.writes_inline(),
        }
    }

    open spec fn counted(&self) -> Option<VolumeStats> {
        match self {
            ModelledStore::Exact(store) => store.counted(),
            ModelledStore::Modelled(store) => store.counted(),
        }
    }

    open spec fn pledged(&self) -> Set<Written> {
        match self {
            ModelledStore::Exact(store) => store.pledged(),
            ModelledStore::Modelled(store) => store.pledged(),
        }
    }

    open spec fn did(&self, call: Call, reply: Reply, after: &Self) -> bool {
        match (self, after) {
            (ModelledStore::Exact(was), ModelledStore::Exact(now_is)) => was.did(call, reply, now_is),
            (ModelledStore::Modelled(was), ModelledStore::Modelled(now_is)) => was.did(
                call,
                reply,
                now_is,
            ),
            _ => false,
        }
    }

    fn submit_write(
        &mut self,
        handle: u64,
        object: ObjectId,
        offset: u64,
        block: &Block,
        creating: bool,
        now: u64,
    ) -> (taken: bool) {
        match self {
            ModelledStore::Exact(store) => store.submit_write(
                handle,
                object,
                offset,
                block,
                creating,
                now,
            ),
            ModelledStore::Modelled(store) => store.submit_write(
                handle,
                object,
                offset,
                block,
                creating,
                now,
            ),
        }
    }

    fn submit_barrier(&mut self, handle: u64, now: u64) -> (taken: bool) {
        match self {
            ModelledStore::Exact(store) => store.submit_barrier(handle, now),
            ModelledStore::Modelled(store) => store.submit_barrier(handle, now),
        }
    }

    fn poll_written(&mut self, now: u64) -> (done: Option<(u64, Result<(), StoreFault>)>) {
        match self {
            ModelledStore::Exact(store) => store.poll_written(now),
            ModelledStore::Modelled(store) => store.poll_written(now),
        }
    }

    fn writes_inflight(&self) -> (inflight: usize) {
        match self {
            ModelledStore::Exact(store) => store.writes_inflight(),
            ModelledStore::Modelled(store) => store.writes_inflight(),
        }
    }

    fn writes_are_queued(&self) -> (queued: bool) {
        match self {
            ModelledStore::Exact(store) => store.writes_are_queued(),
            ModelledStore::Modelled(store) => store.writes_are_queued(),
        }
    }

    fn stats(&self) -> (stats: VolumeStats) {
        match self {
            ModelledStore::Exact(store) => store.stats(),
            ModelledStore::Modelled(store) => store.stats(),
        }
    }

    fn read_at(&mut self, object: ObjectId, offset: u64, into: &mut Block) -> (read: Result<
        (),
        StoreFault,
    >) {
        match self {
            ModelledStore::Exact(store) => store.read_at(object, offset, into),
            ModelledStore::Modelled(store) => store.read_at(object, offset, into),
        }
    }

    fn submit(&mut self, handle: u64, object: ObjectId, offset: u64, now: u64) -> (taken: bool) {
        match self {
            ModelledStore::Exact(store) => store.submit(handle, object, offset, now),
            ModelledStore::Modelled(store) => store.submit(handle, object, offset, now),
        }
    }

    fn poll(&mut self, now: u64, into: &mut Block) -> (answered: Option<Result<u64, StoreFault>>) {
        match self {
            ModelledStore::Exact(store) => store.poll(now, into),
            ModelledStore::Modelled(store) => store.poll(now, into),
        }
    }

    fn inflight(&self) -> (inflight: usize) {
        match self {
            ModelledStore::Exact(store) => store.inflight(),
            ModelledStore::Modelled(store) => store.inflight(),
        }
    }

    fn take_charge(&mut self) -> (charge: u64) {
        match self {
            ModelledStore::Exact(store) => store.take_charge(),
            ModelledStore::Modelled(store) => store.take_charge(),
        }
    }

    fn submit_remove(&mut self, handle: u64, object: ObjectId, now: u64) -> (taken: bool) {
        match self {
            ModelledStore::Exact(store) => store.submit_remove(handle, object, now),
            ModelledStore::Modelled(store) => store.submit_remove(handle, object, now),
        }
    }

    fn submit_rename(&mut self, handle: u64, from: ObjectId, to: ObjectId, now: u64) -> (taken: bool) {
        match self {
            ModelledStore::Exact(store) => store.submit_rename(handle, from, to, now),
            ModelledStore::Modelled(store) => store.submit_rename(handle, from, to, now),
        }
    }

    fn blocks_in(&mut self, object: ObjectId) -> (blocks: u64) {
        match self {
            ModelledStore::Exact(store) => store.blocks_in(object),
            ModelledStore::Modelled(store) => store.blocks_in(object),
        }
    }

    fn has_object(&mut self, object: ObjectId) -> (there: bool) {
        match self {
            ModelledStore::Exact(store) => store.has_object(object),
            ModelledStore::Modelled(store) => store.has_object(object),
        }
    }
}

} // verus!
