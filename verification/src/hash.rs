//! The hash that places keys in the index. Unseeded, so that a table and its snapshot mean the same
//! on every machine and in every run.

use vstd::prelude::*;

verus! {

/// The multiplier of the hash.
pub const HASH_MULTIPLIER: u64 = 0xf135_7aea_2e62_a9c5;

/// One word folded into a running hash.
pub open spec fn folded(hash: u64, word: u64) -> u64 {
    (((hash + word) % 0x1_0000_0000_0000_0000) * HASH_MULTIPLIER % 0x1_0000_0000_0000_0000) as u64
}

/// The running hash with its high bits, which are the well mixed ones, brought low: a rotation left
/// by twenty-six.
pub open spec fn finished(hash: u64) -> u64 {
    ((hash % 0x40_0000_0000) * 0x400_0000 + hash / 0x40_0000_0000) as u64
}

/// The hash of one word.
pub open spec fn hash_of_u64(word: u64) -> u64 {
    finished(folded(0, word))
}

/// The hash of a double word, low half first.
pub open spec fn hash_of_u128(word: u128) -> u64 {
    finished(
        folded(
            folded(0, (word % 0x1_0000_0000_0000_0000) as u64),
            (word / 0x1_0000_0000_0000_0000) as u64,
        ),
    )
}

fn fold(hash: u64, word: u64) -> (out: u64)
    ensures
        out == folded(hash, word),
{
    hash.wrapping_add(word).wrapping_mul(HASH_MULTIPLIER)
}

fn finish(hash: u64) -> (out: u64)
    ensures
        out == finished(hash),
{
    assert((hash << 26) | (hash >> 38) == (hash % 0x40_0000_0000) * 0x400_0000 + hash
        / 0x40_0000_0000) by (bit_vector);
    (hash << 26) | (hash >> 38)
}

pub fn hash_u64(word: u64) -> (hash: u64)
    ensures
        hash == hash_of_u64(word),
{
    finish(fold(0, word))
}

pub fn hash_u128(word: u128) -> (hash: u64)
    ensures
        hash == hash_of_u128(word),
{
    let low: u64 = (word % 0x1_0000_0000_0000_0000) as u64;
    let high: u64 = (word / 0x1_0000_0000_0000_0000) as u64;
    finish(fold(fold(0, low), high))
}

/// The last step of a hash turns its bits round and loses none of them.
pub proof fn law_the_last_step_loses_nothing(one: u64, other: u64)
    ensures
        finished(one) == finished(other) ==> one == other,
        finished(one) % 0x400_0000 == one / 0x40_0000_0000,
        finished(one) / 0x400_0000 == one % 0x40_0000_0000,
{
}

} // verus!
