//! A delay drawn from a range.

use vstd::prelude::*;

use crate::prng::{mixed, stepped, Prng};

verus! {

/// The delay the next draw of a range gives, from a generator in this state.
pub open spec fn delay_of(range: LatencyRange, state: u64) -> u64 {
    if range.longest <= range.shortest {
        range.shortest
    } else {
        range.drawn(mixed(stepped(state))) as u64
    }
}

/// The generator once a delay has been drawn. A range of one delay draws nothing.
pub open spec fn state_after(range: LatencyRange, state: u64) -> u64 {
    if range.longest <= range.shortest {
        state
    } else {
        stepped(state)
    }
}

/// From the shortest delay to the longest, in nanoseconds.
#[derive(Clone, Copy, Debug, PartialEq, Eq, Structural)]
pub struct LatencyRange {
    pub shortest: u64,
    pub longest: u64,
}

impl LatencyRange {
    pub fn new(shortest: u64, longest: u64) -> (range: Self)
        ensures
            range == (LatencyRange { shortest, longest }),
    {
        LatencyRange { shortest, longest }
    }

    /// Always the same delay.
    pub fn fixed(nanos: u64) -> (range: Self)
        ensures
            range == (LatencyRange { shortest: nanos, longest: nanos }),
    {
        LatencyRange { shortest: nanos, longest: nanos }
    }

    /// The delay a number draws.
    pub open spec fn drawn(&self, number: u64) -> int {
        self.shortest + number as int % (self.longest - self.shortest + 1)
    }

    /// Draws a delay. A range of one delay, or one whose ends are the wrong way round, is its shortest
    /// and draws nothing.
    pub fn sample(&self, prng: &mut Prng) -> (nanos: u64)
        ensures
            nanos == delay_of(*self, old(prng).state),
            final(prng).state == state_after(*self, old(prng).state),
            self.longest > self.shortest ==> self.shortest <= nanos <= self.longest,
    {
        if self.longest <= self.shortest {
            return self.shortest;
        }
        let number: u64 = prng.next_u64();
        let span: u64 = self.longest - self.shortest;
        if span == u64::MAX {
            return number;
        }
        let over: u64 = number % (span + 1);
        self.shortest + over
    }
}

/// A delay is never shorter than the shortest nor longer than the longest, every one between is some
/// number's, and a range of one delay is that delay and draws nothing.
pub proof fn law_a_delay_is_in_its_range(range: LatencyRange, state: u64, delay: u64)
    ensures
        range.shortest <= range.longest ==> range.shortest <= delay_of(range, state) <= range.longest,
        range.longest <= range.shortest ==> delay_of(range, state) == range.shortest && state_after(
            range,
            state,
        ) == state,
        range.shortest <= delay <= range.longest ==> range.drawn((delay - range.shortest) as u64) == delay,
        range.shortest < range.longest ==> state_after(range, state) != state,
{
    if range.shortest < range.longest {
        let span = range.longest - range.shortest + 1;
        let number = mixed(stepped(state)) as int;
        assert(0 <= number % span < span);
    }
    if range.shortest <= delay <= range.longest {
        let span = range.longest - range.shortest + 1;
        vstd::arithmetic::div_mod::lemma_small_mod((delay - range.shortest) as nat, span as nat);
    }
}

} // verus!
