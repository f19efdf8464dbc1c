//! Index slots: the word that carries a fingerprint, a mark and an address, where a key's word may
//! stand, and what a table of such words stands for.

use vstd::prelude::*;

use crate::address::RecordAddr;
use crate::hash::{hash_of_u128, hash_of_u64, hash_u128, hash_u64};
use crate::ledger::TxId;

verus! {

/// Slots per bucket. Four ways over two candidate buckets is what makes a load factor near one
/// reachable while a probe stays inside two buckets.
pub const WAYS: usize = 4;

/// What one slot costs in bytes.
pub const SLOT_BYTES: usize = 8;

/// The word of a slot that holds nothing.
pub const EMPTY: u64 = 0;

/// A slot's fingerprint: its sixteen high bits.
#[verifier::opaque]
pub open spec fn fingerprint_of(slot: u64) -> u64 {
    slot / 0x1_0000_0000_0000
}

/// A slot's address: its forty-seven low bits.
#[verifier::opaque]
pub open spec fn address_of(slot: u64) -> RecordAddr {
    RecordAddr(slot % 0x8000_0000_0000)
}

/// Whether a slot's fingerprint is shared, so that only a record can say whose the slot is.
#[verifier::opaque]
pub open spec fn is_marked(slot: u64) -> bool {
    (slot / 0x8000_0000_0000) % 2 == 1
}

/// The word with this fingerprint, mark and address.
#[verifier::opaque]
pub open spec fn packed(fingerprint: u64, marked: bool, addr: RecordAddr) -> u64 {
    (fingerprint * 0x1_0000_0000_0000 + (if marked {
        0x8000_0000_0000int
    } else {
        0
    }) + addr.0 % 0x8000_0000_0000) as u64
}

/// The word with its mark set.
pub open spec fn marked(slot: u64) -> u64 {
    packed(fingerprint_of(slot), true, address_of(slot))
}

/// The fingerprint of a key. Zero marks an empty slot, so no key has it.
pub open spec fn fingerprint(key: TxId) -> u64 {
    let high = hash_of_u128(key.0) / 0x1_0000_0000_0000;
    if high == 0 {
        1
    } else {
        high
    }
}

/// The first of the two buckets a key's word may stand in.
pub open spec fn home(key: TxId, mask: u64) -> u64 {
    hash_of_u128(key.0) & mask
}

/// The other bucket an entry may stand in, from its fingerprint alone, so that moving an entry needs
/// no key.
pub open spec fn alternate(bucket: u64, fingerprint: u64, mask: u64) -> u64 {
    let step = hash_of_u64(fingerprint) & mask;
    bucket ^ (if step == 0 {
        1
    } else {
        step
    })
}

/// Whether a key's word may stand in this bucket.
pub open spec fn in_pair(key: TxId, bucket: int, mask: u64) -> bool {
    bucket == home(key, mask) || bucket == alternate(home(key, mask), fingerprint(key), mask)
}

/// Whether two keys have one fingerprint and the same two buckets.
pub open spec fn clash(one: TxId, other: TxId, mask: u64) -> bool {
    fingerprint(one) == fingerprint(other) && in_pair(one, home(other, mask) as int, mask)
}

/// A number of buckets less one: all its bits below a power of two, and at least two buckets.
pub open spec fn is_mask(mask: u64) -> bool {
    1 <= mask < u64::MAX && mask & ((mask + 1) as u64) == 0
}

pub proof fn lemma_packed(fingerprint: u64, mark: bool, addr: RecordAddr)
    requires
        fingerprint < 0x1_0000,
        addr.fits(),
    ensures
        fingerprint_of(packed(fingerprint, mark, addr)) == fingerprint,
        is_marked(packed(fingerprint, mark, addr)) == mark,
        address_of(packed(fingerprint, mark, addr)) == addr,
        fingerprint >= 1 ==> packed(fingerprint, mark, addr) != EMPTY,
{
    reveal(packed);
    reveal(fingerprint_of);
    reveal(is_marked);
    reveal(address_of);
}

pub proof fn lemma_word(slot: u64)
    ensures
        fingerprint_of(slot) < 0x1_0000,
        address_of(slot).fits(),
        address_of(slot).segment() < 64,
        packed(fingerprint_of(slot), is_marked(slot), address_of(slot)) == slot,
        fingerprint_of(EMPTY) == 0,
{
    reveal(packed);
    reveal(fingerprint_of);
    reveal(is_marked);
    reveal(address_of);
    assert(slot / 0x1_0000_0000_0000 < 0x1_0000 && slot % 0x8000_0000_0000 < 0x8000_0000_0000 && (
    slot / 0x1_0000_0000_0000) * 0x1_0000_0000_0000 + (if (slot / 0x8000_0000_0000) % 2 == 1 {
        0x8000_0000_0000u64
    } else {
        0u64
    }) + slot % 0x8000_0000_0000 == slot) by (bit_vector);
    reveal(RecordAddr::spec_segment);
    let low: u64 = slot % 0x8000_0000_0000;
    assert(low % 0x8000_0000_0000 == low);
    assert(low < 0x8000_0000_0000 ==> low / 0x200_0000_0000 < 64);
}

pub proof fn lemma_fingerprint(key: TxId)
    ensures
        1 <= fingerprint(key) < 0x1_0000,
{
}

pub proof fn lemma_buckets(key: TxId, mask: u64)
    requires
        is_mask(mask),
    ensures
        home(key, mask) <= mask,
        alternate(home(key, mask), fingerprint(key), mask) <= mask,
        alternate(home(key, mask), fingerprint(key), mask) != home(key, mask),
{
    let h = hash_of_u128(key.0);
    assert(h & mask <= mask) by (bit_vector);
    lemma_alternate(home(key, mask), fingerprint(key), mask);
}

pub proof fn lemma_alternate(bucket: u64, fp: u64, mask: u64)
    requires
        is_mask(mask),
        bucket <= mask,
    ensures
        alternate(bucket, fp, mask) <= mask,
        alternate(bucket, fp, mask) != bucket,
        alternate(alternate(bucket, fp, mask), fp, mask) == bucket,
{
    let h = hash_of_u64(fp);
    let step = h & mask;
    let by = if step == 0 {
        1
    } else {
        step
    };
    let next: u64 = (mask + 1) as u64;
    assert(step <= mask) by (bit_vector)
        requires
            step == h & mask,
    ;
    assert(bucket ^ by <= mask && bucket ^ by != bucket && (bucket ^ by) ^ by == bucket)
        by (bit_vector)
        requires
            bucket <= mask,
            1 <= by <= mask,
            mask & next == 0,
            next == mask + 1,
    ;
}

/// Two keys with one fingerprint that may both stand in some bucket have the same two buckets.
pub proof fn lemma_clash(one: TxId, other: TxId, bucket: int, mask: u64)
    requires
        is_mask(mask),
        fingerprint(one) == fingerprint(other),
        in_pair(one, bucket, mask),
        in_pair(other, bucket, mask),
    ensures
        clash(one, other, mask),
        clash(other, one, mask),
{
    lemma_buckets(one, mask);
    lemma_buckets(other, mask);
    lemma_alternate(home(one, mask), fingerprint(one), mask);
    lemma_alternate(home(other, mask), fingerprint(other), mask);
}

/// The keys that clash have exactly each other's buckets.
pub proof fn lemma_clash_same_pair(one: TxId, other: TxId, bucket: int, mask: u64)
    requires
        is_mask(mask),
        clash(one, other, mask),
    ensures
        clash(other, one, mask),
        in_pair(one, bucket, mask) == in_pair(other, bucket, mask),
{
    lemma_buckets(one, mask);
    lemma_buckets(other, mask);
    lemma_alternate(home(one, mask), fingerprint(one), mask);
    lemma_alternate(home(other, mask), fingerprint(other), mask);
}

/// The bucket a moved entry goes to is the other of its key's two.
pub proof fn lemma_moved(key: TxId, bucket: u64, mask: u64)
    requires
        is_mask(mask),
        in_pair(key, bucket as int, mask),
    ensures
        bucket <= mask,
        in_pair(key, alternate(bucket, fingerprint(key), mask) as int, mask),
        alternate(bucket, fingerprint(key), mask) <= mask,
{
    lemma_buckets(key, mask);
    lemma_alternate(home(key, mask), fingerprint(key), mask);
}

/// Where each key's word stands, and whose word stands where.
pub ghost struct Placement {
    pub pos: Map<TxId, int>,
    pub owner: Map<int, TxId>,
}

/// Each key's word carries its key's fingerprint, and the word of every key that clashes with another
/// is marked.
pub open spec fn named(words_of: Map<TxId, u64>, mask: u64) -> bool {
    &&& forall|k: TxId| #[trigger]
        words_of.contains_key(k) ==> words_of[k] != EMPTY && fingerprint_of(words_of[k])
            == fingerprint(k)
    &&& forall|one: TxId, other: TxId| #[trigger]
        words_of.contains_key(one) && #[trigger] words_of.contains_key(other) && one != other
            && clash(one, other, mask) ==> is_marked(words_of[one])
}

/// Each key's word stands once, in one of its key's buckets, and no other word stands anywhere; the
/// key in hand, if there is one, is not among them.
pub open spec fn seated(
    words: Seq<u64>,
    mask: u64,
    words_of: Map<TxId, u64>,
    p: Placement,
    hand: Option<TxId>,
) -> bool {
    &&& forall|k: TxId| #[trigger]
        p.pos.contains_key(k) <==> words_of.contains_key(k) && hand != Some(k)
    &&& forall|k: TxId| #[trigger]
        p.pos.contains_key(k) ==> {
            &&& 0 <= p.pos[k] < words.len()
            &&& words[p.pos[k]] == words_of[k]
            &&& in_pair(k, p.pos[k] / 4, mask)
            &&& p.owner.contains_key(p.pos[k])
            &&& p.owner[p.pos[k]] == k
        }
    &&& forall|i: int| #[trigger]
        p.owner.contains_key(i) ==> p.pos.contains_key(p.owner[i]) && p.pos[p.owner[i]] == i
    &&& forall|i: int| 0 <= i < words.len() && #[trigger] words[i] != EMPTY ==> p.owner.contains_key(i)
}

/// The words are those of these keys, each in its place.
pub open spec fn whole(words: Seq<u64>, mask: u64, words_of: Map<TxId, u64>) -> bool {
    exists|p: Placement| #[trigger] seated(words, mask, words_of, p, None)
}

/// The words are those of these keys but for one, whose word is in hand, on its way to a bucket.
pub open spec fn in_hand(
    words: Seq<u64>,
    mask: u64,
    words_of: Map<TxId, u64>,
    slot: u64,
    bucket: u64,
) -> bool {
    exists|p: Placement, k: TxId| #[trigger]
        seated(words, mask, words_of, p, Some(k)) && words_of.contains_key(k) && words_of[k] == slot
            && in_pair(k, bucket as int, mask)
}

/// The addresses that the words of these keys carry.
pub open spec fn addresses(words_of: Map<TxId, u64>) -> Map<TxId, RecordAddr> {
    words_of.map_values(|slot: u64| address_of(slot))
}

/// The table of words stands for this map: each key's word carries the key's address.
pub open spec fn stands_for(words: Seq<u64>, mask: u64, m: Map<TxId, RecordAddr>) -> bool {
    exists|words_of: Map<TxId, u64>| #[trigger]
        named(words_of, mask) && whole(words, mask, words_of) && m == addresses(words_of)
}

pub proof fn lemma_put(
    words: Seq<u64>,
    mask: u64,
    words_of: Map<TxId, u64>,
    slot: u64,
    bucket: u64,
    at: int,
)
    requires
        in_hand(words, mask, words_of, slot, bucket),
        0 <= at < words.len(),
        at / 4 == bucket,
        words[at] == EMPTY,
        named(words_of, mask),
    ensures
        whole(words.update(at, slot), mask, words_of),
{
    let (p, k) = choose|p: Placement, k: TxId| #[trigger]
        seated(words, mask, words_of, p, Some(k)) && words_of.contains_key(k) && words_of[k] == slot
            && in_pair(k, bucket as int, mask);
    let q = Placement { pos: p.pos.insert(k, at), owner: p.owner.insert(at, k) };
    assert(!p.owner.contains_key(at)) by {
        if p.owner.contains_key(at) {
            let o = p.owner[at];
            assert(p.pos.contains_key(o));
            assert(words_of.contains_key(o));
        }
    }
    assert(seated(words.update(at, slot), mask, words_of, q, None)) by {
        assert forall|j: TxId| #[trigger] q.pos.contains_key(j) implies {
            &&& 0 <= q.pos[j] < words.len()
            &&& words.update(at, slot)[q.pos[j]] == words_of[j]
            &&& in_pair(j, q.pos[j] / 4, mask)
            &&& q.owner.contains_key(q.pos[j])
            &&& q.owner[q.pos[j]] == j
        } by {
            if j != k {
                assert(p.pos.contains_key(j));
            }
        }
        assert forall|j: TxId| #[trigger] q.pos.contains_key(j) == words_of.contains_key(j) by {
            assert(p.pos.contains_key(j) == (words_of.contains_key(j) && Some(k) != Some(j)));
        }
        assert forall|i: int| #[trigger] q.owner.contains_key(i) implies q.pos.contains_key(
            q.owner[i],
        ) && q.pos[q.owner[i]] == i by {
            if i != at {
                assert(p.owner.contains_key(i));
            }
        }
        assert forall|i: int|
            0 <= i < words.len() && #[trigger] words.update(at, slot)[i]
                != EMPTY implies q.owner.contains_key(i) by {
            if i != at {
                assert(words[i] != EMPTY);
            }
        }
    }
}

pub proof fn lemma_swap(
    words: Seq<u64>,
    mask: u64,
    words_of: Map<TxId, u64>,
    slot: u64,
    bucket: u64,
    at: int,
)
    requires
        is_mask(mask),
        in_hand(words, mask, words_of, slot, bucket),
        0 <= at < words.len(),
        at / 4 == bucket,
        words[at] != EMPTY,
        named(words_of, mask),
    ensures
        in_hand(
            words.update(at, slot),
            mask,
            words_of,
            words[at],
            alternate(bucket, fingerprint_of(words[at]), mask),
        ),
{
    let (p, k) = choose|p: Placement, k: TxId| #[trigger]
        seated(words, mask, words_of, p, Some(k)) && words_of.contains_key(k) && words_of[k] == slot
            && in_pair(k, bucket as int, mask);
    assert(p.owner.contains_key(at));
    let v = p.owner[at];
    assert(p.pos.contains_key(v));
    assert(words_of.contains_key(v));
    lemma_moved(v, bucket, mask);
    let q = Placement { pos: p.pos.remove(v).insert(k, at), owner: p.owner.insert(at, k) };
    let after = words.update(at, slot);
    assert(v != k);
    assert(seated(after, mask, words_of, q, Some(v))) by {
        assert forall|j: TxId| #[trigger] q.pos.contains_key(j) implies {
            &&& 0 <= q.pos[j] < words.len()
            &&& after[q.pos[j]] == words_of[j]
            &&& in_pair(j, q.pos[j] / 4, mask)
            &&& q.owner.contains_key(q.pos[j])
            &&& q.owner[q.pos[j]] == j
        } by {
            if j != k {
                assert(p.pos.contains_key(j));
                assert(p.pos[j] != at);
            }
        }
        assert forall|j: TxId| #[trigger]
            q.pos.contains_key(j) == (words_of.contains_key(j) && Some(v) != Some(j)) by {
            assert(p.pos.contains_key(j) == (words_of.contains_key(j) && Some(k) != Some(j)));
        }
        assert forall|i: int| #[trigger] q.owner.contains_key(i) implies q.pos.contains_key(
            q.owner[i],
        ) && q.pos[q.owner[i]] == i by {
            if i != at {
                assert(p.owner.contains_key(i));
            }
        }
        assert forall|i: int|
            0 <= i < words.len() && #[trigger] after[i] != EMPTY implies q.owner.contains_key(i) by {
            if i != at {
                assert(words[i] != EMPTY);
            }
        }
    }
}

/// Taking a word out of the table takes its key out of the map.
pub proof fn lemma_clear(words: Seq<u64>, mask: u64, words_of: Map<TxId, u64>, at: int) -> (k: TxId)
    requires
        whole(words, mask, words_of),
        named(words_of, mask),
        0 <= at < words.len(),
        words[at] != EMPTY,
    ensures
        words_of.contains_key(k),
        words_of[k] == words[at],
        in_pair(k, at / 4, mask),
        whole(words.update(at, EMPTY), mask, words_of.remove(k)),
        named(words_of.remove(k), mask),
{
    let p = choose|p: Placement| #[trigger] seated(words, mask, words_of, p, None);
    assert(p.owner.contains_key(at));
    let k = p.owner[at];
    assert(p.pos.contains_key(k));
    let q = Placement { pos: p.pos.remove(k), owner: p.owner.remove(at) };
    let after = words.update(at, EMPTY);
    let rest = words_of.remove(k);
    assert(seated(after, mask, rest, q, None)) by {
        assert forall|j: TxId| #[trigger] q.pos.contains_key(j) implies {
            &&& 0 <= q.pos[j] < after.len()
            &&& after[q.pos[j]] == rest[j]
            &&& in_pair(j, q.pos[j] / 4, mask)
            &&& q.owner.contains_key(q.pos[j])
            &&& q.owner[q.pos[j]] == j
        } by {
            assert(p.pos.contains_key(j));
        }
        assert forall|j: TxId| #[trigger]
            q.pos.contains_key(j) == (rest.contains_key(j) && None::<TxId> != Some(j)) by {
            assert(p.pos.contains_key(j) == words_of.contains_key(j));
        }
        assert forall|i: int| #[trigger] q.owner.contains_key(i) implies q.pos.contains_key(
            q.owner[i],
        ) && q.pos[q.owner[i]] == i by {
            assert(p.owner.contains_key(i));
        }
        assert forall|i: int|
            0 <= i < after.len() && #[trigger] after[i] != EMPTY implies q.owner.contains_key(i) by {
            assert(words[i] != EMPTY);
        }
    }
    assert(named(rest, mask)) by {
        assert forall|one: TxId, other: TxId| #[trigger]
            rest.contains_key(one) && #[trigger] rest.contains_key(other) && one != other && clash(
                one,
                other,
                mask,
            ) implies is_marked(rest[one]) by {
            assert(words_of.contains_key(one) && words_of.contains_key(other));
        }
        assert forall|j: TxId| #[trigger] rest.contains_key(j) implies rest[j] != EMPTY
            && fingerprint_of(rest[j]) == fingerprint(j) by {
            assert(words_of.contains_key(j));
        }
    }
    k
}

/// A word put over another of the same fingerprint, with its mark kept, is its key's new word.
pub proof fn lemma_rewrite(
    words: Seq<u64>,
    mask: u64,
    words_of: Map<TxId, u64>,
    at: int,
    slot: u64,
) -> (k: TxId)
    requires
        whole(words, mask, words_of),
        named(words_of, mask),
        0 <= at < words.len(),
        words[at] != EMPTY,
        slot != EMPTY,
        fingerprint_of(slot) == fingerprint_of(words[at]),
        is_marked(words[at]) ==> is_marked(slot),
    ensures
        words_of.contains_key(k),
        words_of[k] == words[at],
        in_pair(k, at / 4, mask),
        whole(words.update(at, slot), mask, words_of.insert(k, slot)),
        named(words_of.insert(k, slot), mask),
{
    let p = choose|p: Placement| #[trigger] seated(words, mask, words_of, p, None);
    assert(p.owner.contains_key(at));
    let k = p.owner[at];
    assert(p.pos.contains_key(k));
    let after = words.update(at, slot);
    let next = words_of.insert(k, slot);
    assert(seated(after, mask, next, p, None)) by {
        assert forall|j: TxId| #[trigger] p.pos.contains_key(j) implies {
            &&& 0 <= p.pos[j] < after.len()
            &&& after[p.pos[j]] == next[j]
            &&& in_pair(j, p.pos[j] / 4, mask)
            &&& p.owner.contains_key(p.pos[j])
            &&& p.owner[p.pos[j]] == j
        } by {}
        assert forall|j: TxId| #[trigger]
            p.pos.contains_key(j) == (next.contains_key(j) && None::<TxId> != Some(j)) by {
            assert(p.pos.contains_key(j) == words_of.contains_key(j));
        }
        assert forall|i: int|
            0 <= i < after.len() && #[trigger] after[i] != EMPTY implies p.owner.contains_key(i) by {
            assert(words[i] != EMPTY);
        }
    }
    assert(named(next, mask)) by {
        assert forall|one: TxId, other: TxId| #[trigger]
            next.contains_key(one) && #[trigger] next.contains_key(other) && one != other && clash(
                one,
                other,
                mask,
            ) implies is_marked(next[one]) by {
            assert(words_of.contains_key(one) && words_of.contains_key(other));
        }
        assert forall|j: TxId| #[trigger] next.contains_key(j) implies next[j] != EMPTY
            && fingerprint_of(next[j]) == fingerprint(j) by {
            assert(words_of.contains_key(j));
        }
    }
    k
}

/// Where a key's word stands.
pub proof fn lemma_seat(words: Seq<u64>, mask: u64, words_of: Map<TxId, u64>, k: TxId) -> (at: int)
    requires
        whole(words, mask, words_of),
        words_of.contains_key(k),
    ensures
        0 <= at < words.len(),
        words[at] == words_of[k],
        in_pair(k, at / 4, mask),
{
    let p = choose|p: Placement| #[trigger] seated(words, mask, words_of, p, None);
    assert(p.pos.contains_key(k));
    p.pos[k]
}

/// The second sequence of words is the first with some words marked and nothing else changed.
pub open spec fn only_marked(before: Seq<u64>, after: Seq<u64>) -> bool {
    &&& after.len() == before.len()
    &&& forall|i: int|
        0 <= i < before.len() ==> #[trigger] after[i] == before[i] || (before[i] != EMPTY && after[i]
            == marked(before[i]))
}

pub proof fn lemma_marked(slot: u64)
    requires
        fingerprint_of(slot) >= 1,
    ensures
        marked(slot) != EMPTY,
        is_marked(marked(slot)),
        fingerprint_of(marked(slot)) == fingerprint_of(slot),
        address_of(marked(slot)) == address_of(slot),
{
    lemma_word(slot);
    lemma_packed(fingerprint_of(slot), true, address_of(slot));
}

/// Marking words keeps what the table stands for.
pub proof fn lemma_only_marked(
    before: Seq<u64>,
    after: Seq<u64>,
    mask: u64,
    words_of: Map<TxId, u64>,
) -> (next: Map<TxId, u64>)
    requires
        named(words_of, mask),
        whole(before, mask, words_of),
        only_marked(before, after),
    ensures
        named(next, mask),
        whole(after, mask, next),
        next.dom() == words_of.dom(),
        addresses(next) == addresses(words_of),
        forall|k: TxId| #[trigger]
            next.contains_key(k) ==> exists|at: int|
                0 <= at < after.len() && #[trigger] after[at] == next[k] && in_pair(k, at / 4, mask)
                    && before[at] == words_of[k],
{
    let p = choose|p: Placement| #[trigger] seated(before, mask, words_of, p, None);
    let next = Map::new(|k: TxId| words_of.contains_key(k), |k: TxId| after[p.pos[k]]);
    assert forall|k: TxId| #[trigger] next.contains_key(k) implies {
        &&& p.pos.contains_key(k)
        &&& words_of.contains_key(k)
        &&& before[p.pos[k]] == words_of[k]
        &&& next[k] == words_of[k] || next[k] == marked(words_of[k])
        &&& next[k] != EMPTY
        &&& fingerprint_of(next[k]) == fingerprint(k)
        &&& address_of(next[k]) == address_of(words_of[k])
        &&& is_marked(words_of[k]) ==> is_marked(next[k])
    } by {
        assert(words_of.contains_key(k));
        assert(p.pos.contains_key(k));
        let at = p.pos[k];
        assert(after[at] == before[at] || after[at] == marked(before[at]));
        lemma_fingerprint(k);
        lemma_marked(words_of[k]);
    }
    assert(seated(after, mask, next, p, None)) by {
        assert forall|j: TxId| #[trigger]
            p.pos.contains_key(j) == (next.contains_key(j) && None::<TxId> != Some(j)) by {
            assert(p.pos.contains_key(j) == words_of.contains_key(j));
        }
        assert forall|j: TxId| #[trigger] p.pos.contains_key(j) implies {
            &&& 0 <= p.pos[j] < after.len()
            &&& after[p.pos[j]] == next[j]
            &&& in_pair(j, p.pos[j] / 4, mask)
            &&& p.owner.contains_key(p.pos[j])
            &&& p.owner[p.pos[j]] == j
        } by {
            assert(next.contains_key(j));
        }
        assert forall|i: int|
            0 <= i < after.len() && #[trigger] after[i] != EMPTY implies p.owner.contains_key(i) by {
            assert(before[i] != EMPTY);
        }
    }
    assert forall|k: TxId| #[trigger] next.contains_key(k) implies exists|at: int|
        0 <= at < after.len() && #[trigger] after[at] == next[k] && in_pair(k, at / 4, mask)
            && before[at] == words_of[k] by {
        assert(p.pos.contains_key(k));
        assert(after[p.pos[k]] == next[k]);
    }
    assert(addresses(next) =~= addresses(words_of));
    assert(next.dom() =~= words_of.dom());
    next
}

/// A new key enters: every word that has its fingerprint in its buckets has been marked, and its own
/// word, marked if there is such a word, is in hand.
pub proof fn lemma_enter(
    before: Seq<u64>,
    after: Seq<u64>,
    mask: u64,
    words_of: Map<TxId, u64>,
    key: TxId,
    slot: u64,
) -> (next: Map<TxId, u64>)
    requires
        is_mask(mask),
        named(words_of, mask),
        whole(before, mask, words_of),
        !words_of.contains_key(key),
        only_marked(before, after),
        slot != EMPTY,
        fingerprint_of(slot) == fingerprint(key),
        forall|i: int|
            0 <= i < before.len() && #[trigger] before[i] != EMPTY && in_pair(key, i / 4, mask)
                && fingerprint_of(before[i]) == fingerprint(key) ==> is_marked(after[i])
                && is_marked(slot),
    ensures
        named(next, mask),
        in_hand(after, mask, next, slot, home(key, mask)),
        addresses(next) == addresses(words_of).insert(key, address_of(slot)),
{
    let marks = lemma_only_marked(before, after, mask, words_of);
    let p = choose|p: Placement| #[trigger] seated(after, mask, marks, p, None);
    let next = marks.insert(key, slot);
    assert(seated(after, mask, next, p, Some(key))) by {
        assert forall|j: TxId| #[trigger]
            p.pos.contains_key(j) == (next.contains_key(j) && Some(key) != Some(j)) by {
            assert(p.pos.contains_key(j) == marks.contains_key(j));
        }
        assert forall|j: TxId| #[trigger] p.pos.contains_key(j) implies after[p.pos[j]] == next[j] by {
            assert(marks.contains_key(j));
        }
    }
    assert(addresses(next) =~= addresses(words_of).insert(key, address_of(slot)));
    assert(named(next, mask)) by {
        assert forall|j: TxId| #[trigger] marks.contains_key(j) && (clash(j, key, mask) || clash(
            key,
            j,
            mask,
        )) implies is_marked(marks[j]) && is_marked(slot) by {
            let at = choose|at: int|
                0 <= at < after.len() && #[trigger] after[at] == marks[j] && in_pair(j, at / 4, mask)
                    && before[at] == words_of[j];
            if clash(j, key, mask) {
                lemma_clash_same_pair(j, key, at / 4, mask);
            } else {
                lemma_clash_same_pair(key, j, at / 4, mask);
            }
            assert(words_of.contains_key(j));
            assert(before[at] != EMPTY);
            assert(fingerprint_of(before[at]) == fingerprint(key));
        }
        assert forall|one: TxId, other: TxId| #[trigger]
            next.contains_key(one) && #[trigger] next.contains_key(other) && one != other && clash(
                one,
                other,
                mask,
            ) implies is_marked(next[one]) by {
            if one == key {
                assert(marks.contains_key(other));
            } else if other == key {
                assert(marks.contains_key(one));
            } else {
                assert(marks.contains_key(one) && marks.contains_key(other));
            }
        }
        assert forall|j: TxId| #[trigger] next.contains_key(j) implies next[j] != EMPTY
            && fingerprint_of(next[j]) == fingerprint(j) by {
            if j != key {
                assert(marks.contains_key(j));
            }
        }
    }
    assert(in_pair(key, home(key, mask) as int, mask));
    next
}

/// How many of the words have a property.
pub open spec fn count(words: Seq<u64>, which: spec_fn(u64) -> bool) -> nat
    decreases words.len(),
{
    if words.len() == 0 {
        0
    } else {
        count(words.drop_last(), which) + if which(words.last()) {
            1nat
        } else {
            0nat
        }
    }
}

pub proof fn lemma_count_bound(words: Seq<u64>, which: spec_fn(u64) -> bool)
    ensures
        count(words, which) <= words.len(),
    decreases words.len(),
{
    if words.len() > 0 {
        lemma_count_bound(words.drop_last(), which);
    }
}

pub proof fn lemma_count_update(words: Seq<u64>, which: spec_fn(u64) -> bool, at: int, slot: u64)
    requires
        0 <= at < words.len(),
    ensures
        count(words.update(at, slot), which) == count(words, which) + (if which(slot) {
            1int
        } else {
            0
        }) - (if which(words[at]) {
            1int
        } else {
            0
        }),
        which(words[at]) ==> count(words, which) >= 1,
    decreases words.len(),
{
    let after = words.update(at, slot);
    if at == words.len() - 1 {
        assert(after.drop_last() =~= words.drop_last());
    } else {
        lemma_count_update(words.drop_last(), which, at, slot);
        assert(after.drop_last() =~= words.drop_last().update(at, slot));
    }
}

/// No word has the property exactly when none is counted.
pub proof fn lemma_count_none(words: Seq<u64>, which: spec_fn(u64) -> bool)
    ensures
        count(words, which) == 0 <==> forall|i: int| 0 <= i < words.len() ==> !which(#[trigger] words[i]),
    decreases words.len(),
{
    if words.len() > 0 {
        lemma_count_none(words.drop_last(), which);
        let rest = words.drop_last();
        if count(words, which) == 0 {
            assert forall|i: int| 0 <= i < words.len() implies !which(#[trigger] words[i]) by {
                if i < words.len() - 1 {
                    assert(rest[i] == words[i]);
                }
            }
        } else if forall|i: int| 0 <= i < words.len() ==> !which(#[trigger] words[i]) {
            assert forall|i: int| 0 <= i < rest.len() implies !which(#[trigger] rest[i]) by {
                assert(rest[i] == words[i]);
            }
            assert(!which(words[words.len() - 1]));
        }
    }
}

/// The words that hold an entry.
pub open spec fn occupied() -> spec_fn(u64) -> bool {
    |slot: u64| slot != EMPTY
}

/// The words that hold an entry whose record is in this segment.
pub open spec fn in_segment(segment: int) -> spec_fn(u64) -> bool {
    |slot: u64| slot != EMPTY && address_of(slot).segment() == segment
}

/// The sum of the first few of a sequence of counts.
pub open spec fn total(counts: Seq<usize>, n: nat) -> nat
    decreases n,
{
    if n == 0 {
        0
    } else {
        total(counts, (n - 1) as nat) + counts[n - 1] as nat
    }
}

/// How many entries the first few segments have between them.
pub open spec fn counted(words: Seq<u64>, n: nat) -> nat
    decreases n,
{
    if n == 0 {
        0
    } else {
        counted(words, (n - 1) as nat) + count(words, in_segment(n - 1))
    }
}

proof fn lemma_counted_step(words: Seq<u64>, n: nat)
    requires
        words.len() > 0,
    ensures
        counted(words, n) == counted(words.drop_last(), n) + (if words.last() != EMPTY
            && address_of(words.last()).segment() < n {
            1nat
        } else {
            0nat
        }),
    decreases n,
{
    if n > 0 {
        lemma_counted_step(words, (n - 1) as nat);
    }
}

/// Every entry is in one of the sixty-four segments, so the segments' counts add up to the entries.
pub proof fn lemma_counted_all(words: Seq<u64>)
    ensures
        counted(words, 64) == count(words, occupied()),
    decreases words.len(),
{
    if words.len() == 0 {
        lemma_counted_empty(words, 64);
    } else {
        lemma_counted_step(words, 64);
        lemma_counted_all(words.drop_last());
        lemma_word(words.last());
    }
}

proof fn lemma_counted_empty(words: Seq<u64>, n: nat)
    requires
        words.len() == 0,
    ensures
        counted(words, n) == 0,
    decreases n,
{
    if n > 0 {
        lemma_counted_empty(words, (n - 1) as nat);
    }
}

pub fn slot_fingerprint(slot: u64) -> (fp: u64)
    ensures
        fp == fingerprint_of(slot),
{
    reveal(fingerprint_of);
    assert(slot >> 48 == slot / 0x1_0000_0000_0000) by (bit_vector);
    slot >> 48
}

pub fn slot_address(slot: u64) -> (addr: RecordAddr)
    ensures
        addr == address_of(slot),
{
    reveal(address_of);
    assert(slot & 0x7fff_ffff_ffff == slot % 0x8000_0000_0000) by (bit_vector);
    RecordAddr::from_raw(slot & 0x7fff_ffff_ffff)
}

pub fn slot_is_marked(slot: u64) -> (mark: bool)
    ensures
        mark == is_marked(slot),
{
    reveal(is_marked);
    assert((slot & 0x8000_0000_0000 != 0) == ((slot / 0x8000_0000_0000) % 2 == 1)) by (bit_vector);
    slot & 0x8000_0000_0000 != 0
}

pub fn pack(fp: u64, mark: bool, addr: RecordAddr) -> (slot: u64)
    requires
        fp < 0x1_0000,
    ensures
        slot == packed(fp, mark, addr),
{
    reveal(packed);
    let low: u64 = addr.raw() % 0x8000_0000_0000;
    if mark {
        fp * 0x1_0000_0000_0000 + 0x8000_0000_0000 + low
    } else {
        fp * 0x1_0000_0000_0000 + low
    }
}

/// The fingerprint of a key and its two buckets, from one hash: the home takes the low bits and the
/// fingerprint the high ones.
pub fn locate(key: TxId, mask: u64) -> (located: (u64, u64, u64))
    requires
        is_mask(mask),
    ensures
        located.0 == fingerprint(key),
        located.1 == home(key, mask),
        located.2 == alternate(home(key, mask), fingerprint(key), mask),
{
    let hash: u64 = hash_u128(key.raw());
    let high: u64 = slot_fingerprint(hash);
    reveal(fingerprint_of);
    let fp: u64 = if high == 0 {
        1
    } else {
        high
    };
    let bucket: u64 = hash & mask;
    (fp, bucket, other_bucket(bucket, fp, mask))
}

pub fn other_bucket(bucket: u64, fp: u64, mask: u64) -> (other: u64)
    ensures
        other == alternate(bucket, fp, mask),
{
    let step: u64 = hash_u64(fp) & mask;
    bucket ^ (if step == 0 {
        1
    } else {
        step
    })
}

/// A slot is its parts, and its parts are it: a fingerprint, a mark and an address, none of which a change of
/// another disturbs. Marking one changes its mark and nothing else.
pub proof fn law_a_slot_is_its_parts(print: u64, mark: bool, addr: RecordAddr, slot: u64)
    requires
        1 <= print < 0x1_0000,
        addr.fits(),
        slot != EMPTY,
    ensures
        packed(print, mark, addr) != EMPTY,
        fingerprint_of(packed(print, mark, addr)) == print,
        is_marked(packed(print, mark, addr)) == mark,
        address_of(packed(print, mark, addr)) == addr,
        packed(fingerprint_of(slot), is_marked(slot), address_of(slot)) == slot,
        fingerprint_of(marked(slot)) == fingerprint_of(slot),
        address_of(marked(slot)) == address_of(slot),
        is_marked(marked(slot)),
        is_marked(slot) ==> marked(slot) == slot,
{
    lemma_packed(print, mark, addr);
    lemma_word(slot);
    lemma_packed(fingerprint_of(slot), true, address_of(slot));
}

/// An entry has two buckets, both in the table and never the same, and from either of them its fingerprint alone
/// leads to the other.
pub proof fn law_an_entry_has_two_buckets(key: TxId, mask: u64)
    requires
        is_mask(mask),
    ensures
        ({
            let one = home(key, mask);
            let other = alternate(one, fingerprint(key), mask);
            &&& one <= mask
            &&& other <= mask
            &&& one != other
            &&& alternate(other, fingerprint(key), mask) == one
            &&& in_pair(key, one as int, mask)
            &&& in_pair(key, other as int, mask)
            &&& 1 <= fingerprint(key) < 0x1_0000
        }),
        forall|bucket: int| #[trigger]
            in_pair(key, bucket, mask) ==> bucket == home(key, mask) || bucket == alternate(
                home(key, mask),
                fingerprint(key),
                mask,
            ),
{
    lemma_buckets(key, mask);
    lemma_alternate(home(key, mask), fingerprint(key), mask);
    lemma_fingerprint(key);
}

} // verus!
