//! A device's timing and faults, as numbers: what one call costs, how fast reads are admitted, and what a
//! store is to be modelled as.

use vstd::prelude::*;

use crate::prng::{mixed, ones, stepped, tail_of, Prng};
use crate::stats::{add_count, plus};

verus! {

/// How a store behaves, as a stand-in charges it. Every field zero is the exact store, with no delay.
#[derive(Clone, Copy, Debug, PartialEq, Eq, Structural)]
pub struct StoreModel {
    pub read_base_nanos: u64,
    /// The mean of the tail. A fixed latency completes every read in the order it was asked for and hides
    /// what putting a lane back in order costs.
    pub read_tail_nanos: u64,
    /// What writing one block costs.
    pub write_base_nanos: u64,
    pub write_tail_nanos: u64,
    /// What making the written blocks durable costs.
    pub sync_base_nanos: u64,
    pub sync_tail_nanos: u64,
    /// Reads a second the device can serve, zero for no ceiling.
    pub iops: u64,
    /// Reads it will hold at once. Past this the engine keeps the command and asks again.
    pub queue_depth: usize,
    /// Writes and barriers the lane will hold at once.
    pub write_queue_depth: usize,
    /// Fail every nth call the store is given, as a device would.
    pub fault_every: u32,
    /// Flip a bit in every nth block the store answers a read with.
    pub corrupt_every: u32,
}

impl Default for StoreModel {
    fn default() -> (model: Self)
        ensures
            model == (StoreModel {
                read_base_nanos: 0,
                read_tail_nanos: 0,
                write_base_nanos: 0,
                write_tail_nanos: 0,
                sync_base_nanos: 0,
                sync_tail_nanos: 0,
                iops: 0,
                queue_depth: 0,
                write_queue_depth: 0,
                fault_every: 0,
                corrupt_every: 0,
            }),
    {
        StoreModel {
            read_base_nanos: 0,
            read_tail_nanos: 0,
            write_base_nanos: 0,
            write_tail_nanos: 0,
            sync_base_nanos: 0,
            sync_tail_nanos: 0,
            iops: 0,
            queue_depth: 0,
            write_queue_depth: 0,
            fault_every: 0,
            corrupt_every: 0,
        }
    }
}

/// How much each queue of a store will hold.
#[derive(Clone, Copy, Debug, PartialEq, Eq, Structural)]
pub struct QueueDepths {
    pub read: usize,
    pub write: usize,
}

/// A depth, at least one.
pub open spec fn at_least_one(depth: usize) -> usize {
    if depth == 0 {
        1
    } else {
        depth
    }
}

impl StoreModel {
    /// The two depths, each at least one.
    pub fn depths(&self) -> (depths: QueueDepths)
        ensures
            depths == (QueueDepths {
                read: at_least_one(self.queue_depth),
                write: at_least_one(self.write_queue_depth),
            }),
    {
        QueueDepths {
            read: if self.queue_depth == 0 {
                1
            } else {
                self.queue_depth
            },
            write: if self.write_queue_depth == 0 {
                1
            } else {
                self.write_queue_depth
            },
        }
    }

    /// The model adds nothing to the store it stands in front of.
    pub open spec fn exact(&self) -> bool {
        &&& self.read_base_nanos == 0
        &&& self.read_tail_nanos == 0
        &&& self.write_base_nanos == 0
        &&& self.write_tail_nanos == 0
        &&& self.sync_base_nanos == 0
        &&& self.sync_tail_nanos == 0
        &&& self.iops == 0
        &&& self.fault_every == 0
        &&& self.corrupt_every == 0
    }

    pub fn is_exact(&self) -> (exact: bool)
        ensures
            exact == self.exact(),
    {
        self.read_base_nanos == 0 && self.read_tail_nanos == 0 && self.write_base_nanos == 0
            && self.write_tail_nanos == 0 && self.sync_base_nanos == 0 && self.sync_tail_nanos == 0
            && self.iops == 0 && self.fault_every == 0 && self.corrupt_every == 0
    }
}

/// What one call to the device costs: a floor and a tail. Zero for both is a call that costs nothing.
#[derive(Clone, Copy, Debug, PartialEq, Eq, Structural)]
pub struct Cost {
    pub base_nanos: u64,
    pub tail_nanos: u64,
}

impl Cost {
    /// What a draw comes to, from a generator in this state.
    pub open spec fn drawn(&self, state: u64) -> u64 {
        if self.tail_nanos == 0 {
            self.base_nanos
        } else {
            plus(self.base_nanos, tail_of(mixed(stepped(state)), self.tail_nanos))
        }
    }

    /// The generator's state after a draw.
    pub open spec fn after(&self, state: u64) -> u64 {
        if self.tail_nanos == 0 {
            state
        } else {
            stepped(state)
        }
    }

    pub fn draw(&self, prng: &mut Prng) -> (nanos: u64)
        ensures
            nanos == self.drawn(old(prng).state),
            final(prng).state == self.after(old(prng).state),
    {
        if self.base_nanos == 0 && self.tail_nanos == 0 {
            return 0;
        }
        let tail: u64 = prng.exponential_nanos(self.tail_nanos);
        add_count(self.base_nanos, tail)
    }
}

/// A rate gate with a tail: requests are admitted no faster than the ceiling, and each draws a latency of
/// its own, which is what makes them complete out of the order they were asked for.
#[derive(Clone, Copy, Debug, PartialEq, Eq, Structural)]
pub struct Server {
    pub cost: Cost,
    /// Nanoseconds between one admission and the next.
    pub gap_nanos: u64,
    /// When the next request may be admitted.
    pub next_at: u64,
}

/// The later of two times.
pub open spec fn later(one: u64, other: u64) -> u64 {
    if one < other {
        other
    } else {
        one
    }
}

impl Server {
    /// A gate of this many requests a second; zero is no ceiling.
    pub fn new(base_nanos: u64, tail_nanos: u64, iops: u64) -> (server: Self)
        ensures
            server.cost == (Cost { base_nanos, tail_nanos }),
            server.gap_nanos == if iops == 0 {
                0
            } else {
                1_000_000_000u64 / iops
            },
            server.next_at == 0,
            iops > 0 ==> server.gap_nanos * iops <= 1_000_000_000 < (server.gap_nanos + 1) * iops,
    {
        proof {
            if iops > 0 {
                let gap = 1_000_000_000int / iops as int;
                assert(gap * iops <= 1_000_000_000 < (gap + 1) * iops) by (nonlinear_arith)
                    requires
                        iops > 0,
                        gap == 1_000_000_000int / iops as int,
                ;
            }
        }
        Server {
            cost: Cost { base_nanos, tail_nanos },
            gap_nanos: if iops == 0 {
                0
            } else {
                1_000_000_000u64 / iops
            },
            next_at: 0,
        }
    }

    /// When a request asked for now is done. It is never before it was admitted, and it is admitted at
    /// once or a gap after the one before it.
    pub fn serve(&mut self, now: u64, prng: &mut Prng) -> (due: u64)
        ensures
            due == plus(later(now, old(self).next_at), old(self).cost.drawn(old(prng).state)),
            final(self).next_at == plus(later(now, old(self).next_at), old(self).gap_nanos),
            final(self).cost == old(self).cost,
            final(self).gap_nanos == old(self).gap_nanos,
            final(prng).state == old(self).cost.after(old(prng).state),
            due >= now,
            due >= old(self).next_at,
            due - now >= old(self).cost.base_nanos || due == u64::MAX,
            final(self).next_at >= old(self).next_at,
            final(self).next_at - now >= old(self).gap_nanos || final(self).next_at == u64::MAX,
    {
        let admitted: u64 = if now < self.next_at {
            self.next_at
        } else {
            now
        };
        self.next_at = add_count(admitted, self.gap_nanos);
        let taken: u64 = self.cost.draw(prng);
        add_count(admitted, taken)
    }
}

/// A call costs no less than its floor, one without a tail costs its floor and draws nothing, and the later of
/// two times is one of them and no earlier than either.
pub proof fn law_a_call_costs_its_floor_and_its_tail(cost: Cost, state: u64, one: u64, other: u64)
    ensures
        cost.drawn(state) >= cost.base_nanos,
        cost.tail_nanos == 0 ==> cost.drawn(state) == cost.base_nanos && cost.after(state) == state,
        cost.tail_nanos > 0 ==> cost.after(state) == stepped(state),
        cost.tail_nanos > 0 && cost.drawn(state) < u64::MAX ==> (cost.drawn(state) - cost.base_nanos)
            % cost.tail_nanos as int == 0,
        later(one, other) >= one,
        later(one, other) >= other,
        later(one, other) == one || later(one, other) == other,
{
    if cost.tail_nanos > 0 && cost.drawn(state) < u64::MAX {
        let times = ones(mixed(stepped(state)), 64) as int;
        let tail = cost.tail_nanos as int;
        assert((tail * times) % tail == 0) by (nonlinear_arith)
            requires
                tail > 0,
                times >= 0,
        {
            vstd::arithmetic::div_mod::lemma_mod_multiples_basic(times, tail);
        }
    }
}

/// A model adds nothing exactly if no call costs anything, none fails, none is flipped, and there is no ceiling. A
/// depth is what was asked for, and one if nothing was.
pub proof fn law_an_exact_model_adds_nothing(model: StoreModel, cost: Cost, state: u64, depth: usize)
    ensures
        model.exact() <==> model.read_base_nanos + model.read_tail_nanos + model.write_base_nanos
            + model.write_tail_nanos + model.sync_base_nanos + model.sync_tail_nanos + model.iops
            + model.fault_every + model.corrupt_every == 0,
        cost.base_nanos == 0 && cost.tail_nanos == 0 ==> cost.drawn(state) == 0,
        depth > 0 ==> at_least_one(depth) == depth,
        depth == 0 ==> at_least_one(depth) == 1,
{
}

} // verus!
