//! A small deterministic generator: the same seed draws the same numbers, so a run can be compared
//! with itself.

use vstd::arithmetic::power2::{lemma2_to64, lemma_pow2_pos, lemma_pow2_unfold, pow2};
use vstd::prelude::*;

verus! {

/// A generator of sixty-four-bit numbers. Its state steps by a fixed odd increment, and each number
/// is the state well mixed.
#[derive(Clone, Copy, Debug, PartialEq, Eq, Structural)]
pub struct Prng {
    pub state: u64,
}

/// The state after one draw.
pub open spec fn stepped(state: u64) -> u64 {
    ((state + 0x9E37_79B9_7F4A_7C15) % 0x1_0000_0000_0000_0000) as u64
}

/// The product of two words, wrapped to a word.
pub open spec fn wrapped_product(a: u64, b: u64) -> u64 {
    ((a * b) % 0x1_0000_0000_0000_0000) as u64
}

/// The number a state gives.
pub open spec fn mixed(state: u64) -> u64 {
    let a = wrapped_product(state ^ (state >> 30), 0xBF58_476D_1CE4_E5B9);
    let b = wrapped_product(a ^ (a >> 27), 0x94D0_49BB_1331_11EB);
    b ^ (b >> 31)
}

impl Prng {
    pub fn new(seed: u64) -> (prng: Self)
        ensures
            prng.state == seed,
    {
        Prng { state: seed }
    }

    pub fn next_u64(&mut self) -> (drawn: u64)
        ensures
            final(self).state == stepped(old(self).state),
            drawn == mixed(final(self).state),
    {
        self.state = self.state.wrapping_add(0x9E37_79B9_7F4A_7C15);
        let state: u64 = self.state;
        let a: u64 = (state ^ (state >> 30)).wrapping_mul(0xBF58_476D_1CE4_E5B9);
        let b: u64 = (a ^ (a >> 27)).wrapping_mul(0x94D0_49BB_1331_11EB);
        b ^ (b >> 31)
    }

    /// Draws a delay with a tail that halves at each step of its mean: the mean times how many ones in a
    /// row the number drawn ends in, held at the largest a word can carry. A mean of zero draws nothing.
    pub fn exponential_nanos(&mut self, mean: u64) -> (nanos: u64)
        ensures
            mean == 0 ==> nanos == 0 && *final(self) == *old(self),
            mean > 0 ==> final(self).state == stepped(old(self).state) && nanos == tail_of(
                mixed(final(self).state),
                mean,
            ),
    {
        if mean == 0 {
            return 0;
        }
        let drawn: u64 = self.next_u64();
        let mut left: u64 = drawn;
        let mut count: u64 = 0;
        assert(ones(drawn, 64) <= 64) by {
            lemma_ones(drawn, 64);
        }
        while count < 64 && left % 2 == 1
            invariant
                count <= 64,
                count + ones(left, (64 - count) as nat) == ones(drawn, 64),
            decreases 64 - count,
        {
            left = left / 2;
            count += 1;
        }
        assert(mean * count <= u64::MAX * 64) by (nonlinear_arith)
            requires
                mean <= u64::MAX,
                count <= 64,
        ;
        let product: u128 = mean as u128 * count as u128;
        if product > u64::MAX as u128 {
            u64::MAX
        } else {
            product as u64
        }
    }
}

/// How many ones in a row a number ends in, as far as a width.
pub open spec fn ones(number: u64, width: nat) -> nat
    decreases width,
{
    if width == 0 || number % 2 == 0 {
        0
    } else {
        1 + ones(number / 2, (width - 1) as nat)
    }
}

proof fn lemma_ones(number: u64, width: nat)
    ensures
        ones(number, width) <= width,
    decreases width,
{
    if width > 0 && number % 2 == 1 {
        lemma_ones(number / 2, (width - 1) as nat);
    }
}

/// The delay a number draws around a mean.
pub open spec fn tail_of(number: u64, mean: u64) -> u64 {
    let product = mean * ones(number, 64);
    if product > u64::MAX {
        u64::MAX
    } else {
        product as u64
    }
}

/// A generator never stands still, and two in different states never come to one.
pub proof fn law_a_generator_moves_on(one: u64, other: u64)
    ensures
        stepped(one) != one,
        stepped(one) == stepped(other) ==> one == other,
{
}

/// A tail is reached ever more rarely: a delay is at least so many times the mean exactly when the number
/// drawn ends in that many ones, which one number in two to that power does.
pub proof fn law_a_tail_halves_at_each_step(number: u64, mean: u64, steps: nat)
    requires
        steps <= 64,
        mean > 0,
        64 * mean <= u64::MAX,
    ensures
        tail_of(number, mean) >= steps * mean <==> number as int % (pow2(steps) as int) == pow2(steps) - 1,
{
    lemma_ones(number, 64);
    lemma_ends_in_ones(number, 64, steps);
    let found = ones(number, 64);
    assert(mean * found <= 64 * mean && (mean * found >= steps * mean <==> found >= steps))
        by (nonlinear_arith)
        requires
            mean > 0,
            0 <= found <= 64,
            steps >= 0,
    ;
}

proof fn lemma_ends_in_ones(number: u64, width: nat, steps: nat)
    requires
        steps <= width,
    ensures
        ones(number, width) >= steps <==> number as int % (pow2(steps) as int) == pow2(steps) - 1,
    decreases width,
{
    if steps == 0 {
        lemma2_to64();
    } else {
        let half = number / 2;
        let fewer = (steps - 1) as nat;
        let p = pow2(fewer) as int;
        lemma_pow2_pos(fewer);
        lemma_pow2_unfold(steps);
        lemma_ends_in_ones(half, (width - 1) as nat, fewer);
        let n = number as int;
        assert(n % (2 * p) == 2 * ((n / 2) % p) + n % 2) by (nonlinear_arith)
            requires
                p > 0,
                n >= 0,
        {
            let q = (n / 2) / p;
            let r = (n / 2) % p;
            assert(n / 2 == p * q + r && 0 <= r < p);
            assert(n == 2 * (n / 2) + n % 2);
            assert(n == (2 * p) * q + (2 * r + n % 2));
            assert(0 <= 2 * r + n % 2 < 2 * p);
            vstd::arithmetic::div_mod::lemma_fundamental_div_mod_converse(n, 2 * p, q, 2 * r + n % 2);
        }
    }
}

/// The state a number came from: the mixing taken back, step by step.
pub open spec fn unmixed(number: u64) -> u64 {
    let b = number ^ (number >> 31) ^ (number >> 62);
    let x = wrapped_product(b, 0x3196_42B2_D24D_8EC3);
    let a = x ^ (x >> 27) ^ (x >> 54);
    let y = wrapped_product(a, 0x96DE_1B17_3F11_9089);
    y ^ (y >> 30) ^ (y >> 60)
}

/// Mixing loses nothing: every number came from one state, and that state can be told from it. A step can be
/// taken back too.
pub proof fn law_mixing_loses_nothing(state: u64, other: u64)
    ensures
        unmixed(mixed(state)) == state,
        mixed(state) == mixed(other) ==> state == other,
        (stepped(state) + 0x61C8_8646_80B5_83EB) % 0x1_0000_0000_0000_0000 == state,
{
    lemma_unmixed(state);
    lemma_unmixed(other);
}

proof fn lemma_unmixed(state: u64)
    ensures
        unmixed(mixed(state)) == state,
{
    let s = state ^ (state >> 30);
    let a = wrapped_product(s, 0xBF58_476D_1CE4_E5B9);
    let t = a ^ (a >> 27);
    let b = wrapped_product(t, 0x94D0_49BB_1331_11EB);
    let n = b ^ (b >> 31);
    assert((state ^ (state >> 30)) ^ ((state ^ (state >> 30)) >> 30) ^ ((state ^ (state >> 30)) >> 60)
        == state && (a ^ (a >> 27)) ^ ((a ^ (a >> 27)) >> 27) ^ ((a ^ (a >> 27)) >> 54) == a && (b ^ (b
        >> 31)) ^ ((b ^ (b >> 31)) >> 31) ^ ((b ^ (b >> 31)) >> 62) == b) by (bit_vector);
    lemma_product_undone(s, 0xBF58_476D_1CE4_E5B9, 0x96DE_1B17_3F11_9089, 0x70C3_BCA7_8F27_F46C);
    lemma_product_undone(t, 0x94D0_49BB_1331_11EB, 0x3196_42B2_D24D_8EC3, 0x1CD3_36ED_A85F_1453);
}

proof fn lemma_product_undone(word: u64, by: u64, back: u64, times: u64)
    requires
        by * back == 1 + times * 0x1_0000_0000_0000_0000,
    ensures
        wrapped_product(wrapped_product(word, by), back) == word,
{
    let w = word as int;
    let m = by as int;
    let n = back as int;
    let k = times as int;
    let all = 0x1_0000_0000_0000_0000int;
    let q = (w * m) / all;
    let r = (w * m) % all;
    vstd::arithmetic::div_mod::lemma_fundamental_div_mod(w * m, all);
    assert(r * n == all * (w * k - q * n) + w) by (nonlinear_arith)
        requires
            w * m == all * q + r,
            m * n == 1 + k * all,
    {
        assert((w * m) * n == w * (m * n));
        assert((all * q + r) * n == all * (q * n) + r * n);
        assert(w * (1 + k * all) == w + all * (w * k));
    }
    vstd::arithmetic::div_mod::lemma_fundamental_div_mod_converse(r * n, all, w * k - q * n, w);
}

} // verus!
