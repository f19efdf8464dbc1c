//! Where each hold is, by transaction: a bucketed cuckoo index over record addresses. It answers
//! *where*, never *what*, and it answers without reading anything.

use std::collections::HashMap;

use vstd::prelude::*;
use vstd::std_specs::hash::group_hash_axioms;

use crate::address::{RecordAddr, SEGMENT_VALUES};
use crate::ledger::TxId;
use crate::cascade::{
    cascade, drawn_on, fingerprints, gives_up, has_room, leads_on,
    lemma_fingerprint_at, lemma_fingerprints_update, lemma_has_room, moves_for,
};
use crate::prng::{mixed, stepped, Prng};
use crate::slots::{
    address_of, addresses, alternate, count, counted, fingerprint, fingerprint_of, home, in_hand,
    in_pair, in_segment, is_marked, is_mask, lemma_alternate, lemma_buckets, lemma_clash, lemma_clear,
    lemma_count_bound, lemma_count_none, lemma_count_update, lemma_counted_all, lemma_enter,
    lemma_fingerprint, lemma_marked, lemma_moved, lemma_only_marked, lemma_packed, lemma_put,
    lemma_rewrite, lemma_seat, lemma_swap, lemma_word, locate, marked, named, occupied, only_marked,
    other_bucket, pack, packed, seated, slot_address, slot_fingerprint, slot_is_marked, stands_for,
    whole, Placement, EMPTY,
};

verus! {

broadcast use group_hash_axioms;

/// Relocations one insert may cascade through before it gives up. The cap bounds an insert, and an
/// insert is on the path that applies committed decisions in order.
pub const MAX_HOPS: u32 = 128;

/// The table's size when nobody asks for one.
pub const DEFAULT_SLOTS: usize = 0x10_0000;

/// What the table is sized against, in hundredths of its slots: the rest is headroom.
pub const LOAD_TARGET_PERCENT: u64 = 90;

/// An entry a full cascade left without a home. It is not in the table and it is not lost: whoever
/// asked for the insert is holding it.
#[derive(Clone, Copy, Debug, PartialEq, Eq, Structural)]
pub struct Homeless {
    pub address: RecordAddr,
}

/// The addresses a probe turned up, in probe order: two buckets of four ways is the ceiling, and a
/// second entry means two keys share a fingerprint.
#[derive(Clone, Copy, Debug)]
pub struct Candidates {
    pub addrs: [RecordAddr; 8],
    pub slots: [usize; 8],
    pub len: usize,
}

impl Default for Candidates {
    fn default() -> (found: Self)
        ensures
            found.wf(),
            found.len == 0,
    {
        Candidates { addrs: [RecordAddr(0); 8], slots: [0usize; 8], len: 0 }
    }
}

impl Candidates {
    pub open spec fn wf(&self) -> bool {
        self.len <= 8
    }

    /// The slots the probe found, in probe order.
    pub open spec fn places(&self) -> Seq<int> {
        Seq::new(self.len as nat, |i: int| self.slots@[i] as int)
    }

    /// How many slots the probe found.
    pub fn len(&self) -> (len: usize)
        ensures
            len == self.len,
    {
        self.len
    }

    pub fn is_empty(&self) -> (empty: bool)
        ensures
            empty == (self.len == 0),
    {
        self.len == 0
    }

    /// The address in the slot found at this place of the probe.
    pub fn address(&self, at: usize) -> (addr: RecordAddr)
        requires
            at < 8,
        ensures
            addr == self.addrs@[at as int],
    {
        self.addrs[at]
    }

    pub(crate) fn slot(&self, at: usize) -> (slot: usize)
        requires
            at < self.len,
            self.wf(),
        ensures
            slot == self.places()[at as int],
    {
        self.slots[at]
    }

    fn push(&mut self, addr: RecordAddr, slot: usize)
        requires
            old(self).len < 8,
        ensures
            final(self).wf(),
            final(self).places() == old(self).places().push(slot as int),
            final(self).len == old(self).len + 1,
            final(self).addrs@ == old(self).addrs@.update(old(self).len as int, addr),
    {
        self.addrs[self.len] = addr;
        self.slots[self.len] = slot;
        self.len = self.len + 1;
        assert(self.places() =~= old(self).places().push(slot as int));
    }
}

/// What a probe could conclude on its own.
pub enum Found {
    Absent,
    /// The one slot with this fingerprint in these buckets, and it is not marked as shared.
    At(usize),
    /// More than one candidate, or one that is marked: a record has to say which.
    Ambiguous(Candidates),
}

/// The eight slots a key's word may stand in, in the order a probe visits them.
pub open spec fn probe(key: TxId, mask: u64) -> Seq<int> {
    Seq::new(
        8,
        |n: int|
            if n < 4 {
                home(key, mask) * 4 + n
            } else {
                alternate(home(key, mask), fingerprint(key), mask) * 4 + n - 4
            },
    )
}

/// The slots among the eight that carry the key's fingerprint, in probe order.
pub open spec fn matching(words: Seq<u64>, mask: u64, key: TxId) -> Seq<int> {
    probe(key, mask).filter(carries(words, key))
}

/// Whether a slot carries the key's fingerprint.
pub open spec fn carries(words: Seq<u64>, key: TxId) -> spec_fn(int) -> bool {
    |s: int| words[s] != EMPTY && fingerprint_of(words[s]) == fingerprint(key)
}

/// The slot is one a probe for the key visits, and it is in use.
pub open spec fn within_reach(words: Seq<u64>, mask: u64, key: TxId, at: int) -> bool {
    0 <= at < words.len() && words[at] != EMPTY && in_pair(key, at / 4, mask)
}

/// Where each hold is, by transaction.
pub struct HoldTable {
    words: Vec<u64>,
    mask: u64,
    live: usize,
    /// Live entries by the segment of their record.
    segments: Vec<usize>,
    /// Which way a full bucket gives up. A fixed seed, so that two runs evict alike.
    victims: Prng,
    max_hops: u32,
    hops: u64,
    worst_hops: u32,
    ambiguous: u64,
    /// A snapshot is being read: a bucket it has not reached is put aside before it changes.
    reading: bool,
    cursor: u64,
    shadow: HashMap<u64, [u64; 4]>,
}

/// After so many moves a cascade is this far from its end.
#[verifier::opaque]
spec fn is_the_rest(whole_way: Option<nat>, done: nat, rest: Option<nat>) -> bool {
    whole_way == match rest {
        Some(moves) => Some(moves + done),
        None => None,
    }
}

/// One move of a cascade: it ends there, or what is left is that of the entry moved out.
proof fn lemma_one_move(
    whole_way: Option<nat>,
    done: nat,
    fps: Seq<Option<u64>>,
    mask: u64,
    hand: u64,
    bucket: u64,
    came_from: u64,
    left: nat,
    draws: u64,
    way: int,
    out: u64,
)
    requires
        left > 0,
        way == gives_up(fps, mask, bucket, came_from, (mixed(stepped(draws)) % 4) as int),
        fps[bucket * 4 + way] == Some(out),
        is_the_rest(whole_way, done, cascade(fps, mask, hand, bucket, came_from, left, draws)),
    ensures
        ({
            let after = fps.update(bucket * 4 + way, Some(hand));
            let next = alternate(bucket, out, mask);
            if has_room(after, next) {
                whole_way == Some(done + 1)
            } else {
                is_the_rest(
                    whole_way,
                    done + 1,
                    cascade(after, mask, out, next, bucket, (left - 1) as nat, stepped(draws)),
                )
            }
        }),
{
    reveal(cascade);
    reveal(is_the_rest);
}

/// A cascade begins with nothing moved, and one that may move nothing ends without a place.
proof fn lemma_ends_of_a_cascade(
    whole_way: Option<nat>,
    done: nat,
    fps: Seq<Option<u64>>,
    mask: u64,
    hand: u64,
    bucket: u64,
    came_from: u64,
    draws: u64,
)
    ensures
        is_the_rest(whole_way, 0, whole_way),
        is_the_rest(whole_way, done, cascade(fps, mask, hand, bucket, came_from, 0, draws))
            ==> whole_way is None,
{
    reveal(cascade);
    reveal(is_the_rest);
}

impl HoldTable {
    pub closed spec fn words(&self) -> Seq<u64> {
        self.words@
    }

    /// The number of buckets less one.
    pub closed spec fn mask(&self) -> u64 {
        self.mask
    }

    pub closed spec fn spec_max_hops(&self) -> u32 {
        self.max_hops
    }

    /// The state of the generator that picks which entry of a full bucket gives way.
    pub closed spec fn spec_draws(&self) -> u64 {
        self.victims.state
    }

    /// How many entries have to move to let a key in. `None` when the table cannot take it.
    pub open spec fn moves_for(&self, key: TxId) -> Option<nat> {
        moves_for(
            fingerprints(self.words()),
            self.mask(),
            fingerprint(key),
            home(key, self.mask()),
            alternate(home(key, self.mask()), fingerprint(key), self.mask()),
            self.spec_max_hops() as nat,
            self.spec_draws(),
        )
    }

    pub closed spec fn spec_hops(&self) -> u64 {
        self.hops
    }

    pub closed spec fn spec_worst_hops(&self) -> u32 {
        self.worst_hops
    }

    pub closed spec fn spec_ambiguous(&self) -> u64 {
        self.ambiguous
    }

    /// Whether a snapshot of the table is being read.
    pub closed spec fn being_read(&self) -> bool {
        self.reading
    }

    /// The first bucket the snapshot being read has not reached.
    pub closed spec fn read_through(&self) -> int {
        self.cursor as int
    }

    /// The buckets put aside for the snapshot being read.
    pub closed spec fn aside(&self) -> Map<u64, [u64; 4]> {
        self.shadow@
    }

    /// The word that the snapshot being read has in this slot.
    pub open spec fn snapshot_word(&self, at: int) -> u64 {
        if self.aside().contains_key((at / 4) as u64) {
            self.aside()[(at / 4) as u64]@[at % 4]
        } else {
            self.words()[at]
        }
    }

    /// The counts are those of the words, the size is a power of two of buckets, and what is put
    /// aside is of buckets the snapshot being read has not reached.
    #[verifier::opaque]
    pub closed spec fn wf(&self) -> bool {
        &&& is_mask(self.mask)
        &&& self.words@.len() == 4 * (self.mask + 1)
        &&& self.live == count(self.words@, occupied())
        &&& self.segments@.len() == SEGMENT_VALUES
        &&& forall|s: int|
            0 <= s < SEGMENT_VALUES ==> #[trigger] self.segments@[s] == count(
                self.words@,
                in_segment(s),
            )
        &&& self.max_hops >= 1
        &&& forall|b: u64| #[trigger]
            self.shadow@.contains_key(b) ==> self.reading && self.cursor <= b && b <= self.mask
        &&& self.shadow@.dom().finite()
        &&& self.cursor <= self.mask + 1
    }

    /// The table stands for this map from keys to addresses.
    pub open spec fn represents(&self, m: Map<TxId, RecordAddr>) -> bool {
        stands_for(self.words(), self.mask(), m)
    }

    /// The entries as the table has counted them.
    pub closed spec fn tally(&self) -> usize {
        self.live
    }

    /// The entries as the table has counted them, by the segment of their record.
    pub closed spec fn tallies(&self) -> Seq<usize> {
        self.segments@
    }

    /// The entries the table holds, by number.
    pub open spec fn spec_len(&self) -> nat {
        count(self.words(), occupied())
    }

    /// The entries whose record is in this segment, by number.
    pub open spec fn spec_live_in(&self, segment: int) -> nat {
        count(self.words(), in_segment(segment))
    }

    /// The snapshot being read is the same in both: as far along, and with the same words in every
    /// bucket it has not reached.
    pub open spec fn same_snapshot(&self, other: &HoldTable) -> bool {
        &&& self.being_read() == other.being_read()
        &&& self.read_through() == other.read_through()
        &&& self.being_read() ==> forall|i: int|
            0 <= i < self.words().len() && i / 4 >= self.read_through()
                ==> #[trigger] self.snapshot_word(i) == other.snapshot_word(i)
    }

    /// No entry has been moved to another's way between the two tables.
    pub open spec fn same_walk(&self, other: &HoldTable) -> bool {
        &&& self.spec_hops() == other.spec_hops()
        &&& self.spec_worst_hops() == other.spec_worst_hops()
        &&& self.spec_draws() == other.spec_draws()
        &&& self.spec_max_hops() == other.spec_max_hops()
    }

    /// The buckets put aside once a word of one is written: that one too, where a snapshot being
    /// read has yet to reach it.
    pub open spec fn aside_with(&self, bucket: int) -> Set<u64> {
        if self.being_read() && self.read_through() <= bucket {
            self.aside().dom().insert(bucket as u64)
        } else {
            self.aside().dom()
        }
    }

    /// What was put aside still is, and of the rest only buckets that a snapshot being read has
    /// yet to reach.
    pub open spec fn more_aside(&self, other: &HoldTable) -> bool {
        &&& other.aside().dom().subset_of(self.aside().dom())
        &&& forall|bucket: u64| #[trigger]
            self.aside().contains_key(bucket) && !other.aside().contains_key(bucket)
                ==> self.being_read() && self.read_through() <= bucket <= self.mask()
    }

    /// What one write of one word may change beside the word.
    #[verifier::opaque]
    spec fn only_words(&self, other: &HoldTable) -> bool {
        &&& self.mask == other.mask
        &&& self.max_hops == other.max_hops
        &&& self.same_snapshot(other)
        &&& self.more_aside(other)
        &&& self.words@.len() == other.words@.len()
    }

    proof fn lemma_wf(&self)
        requires
            self.wf(),
        ensures
            is_mask(self.mask),
            self.words@.len() == 4 * (self.mask + 1),
            self.live == count(self.words@, occupied()),
            self.max_hops >= 1,
    {
        reveal(HoldTable::wf);
    }

    /// The table has four words for each of a power of two of buckets.
    pub proof fn lemma_size(&self)
        requires
            self.wf(),
        ensures
            is_mask(self.mask()),
            self.words().len() == 4 * (self.mask() + 1),
            self.spec_max_hops() >= 1,
    {
        self.lemma_wf();
    }

    /// Two steps that change only words are one that does.
    proof fn lemma_only_words(&self, between: &HoldTable, other: &HoldTable)
        requires
            self.only_words(between),
            between.only_words(other),
        ensures
            self.only_words(other),
    {
        reveal(HoldTable::only_words);
    }

    /// A change of counters alone is no change of words.
    proof fn lemma_counters(&self, other: &HoldTable)
        requires
            self.words == other.words,
            self.mask == other.mask,
            self.max_hops == other.max_hops,
            self.reading == other.reading,
            self.cursor == other.cursor,
            self.shadow == other.shadow,
        ensures
            self.only_words(other),
            self.live == other.live && self.segments == other.segments && other.wf() ==> self.wf(),
    {
        reveal(HoldTable::only_words);
        reveal(HoldTable::wf);
        assert forall|i: int| 0 <= i < self.words@.len() implies #[trigger] self.snapshot_word(i)
            == other.snapshot_word(i) by {}
    }

    /// The table has as many words as are asked for, four to a bucket, rounded up to a power of two of
    /// buckets and to no fewer than two.
    pub open spec fn sized_for(&self, slots: usize) -> bool {
        &&& is_mask(self.mask())
        &&& self.words().len() == 4 * (self.mask() + 1)
        &&& self.mask() + 1 >= 2 && 4 * (self.mask() + 1) >= slots
        &&& self.mask() + 1 == 2 || 2 * (self.mask() + 1) < slots
    }

    /// The default number of words is a power of two of buckets as it is.
    pub proof fn lemma_default_size(&self)
        requires
            self.sized_for(DEFAULT_SLOTS),
        ensures
            self.mask() + 1 == DEFAULT_SLOTS / 4,
    {
        let mask = self.mask();
        let next = (mask + 1) as u64;
        assert(mask == 0x3_ffff) by (bit_vector)
            requires
                mask & next == 0,
                next == mask + 1,
                0x3_ffff <= mask < 0x7_ffff,
        ;
    }

    /// Rounded up to a power of two of buckets, and never fewer than two: with one bucket an entry
    /// would have one home and there would be nothing to kick to.
    pub fn with_slots(slots: usize) -> (table: Self)
        requires
            slots <= usize::MAX / 4,
        ensures
            table.wf(),
            table.represents(Map::empty()),
            table.spec_len() == 0,
            table.sized_for(slots),
            table.words() == Seq::new((4 * (table.mask() + 1)) as nat, |i: int| EMPTY),
            !table.being_read(),
            table.spec_max_hops() == MAX_HOPS,
            table.spec_hops() == 0 && table.spec_worst_hops() == 0 && table.spec_ambiguous() == 0,
            table.spec_draws() == 0x9E37_79B9,
    {
        HoldTable::with_capacity(slots, MAX_HOPS)
    }

    /// A cap of its own, for measuring what a longer cascade buys.
    pub fn with_capacity(slots: usize, max_hops: u32) -> (table: Self)
        requires
            slots <= usize::MAX / 4,
        ensures
            table.wf(),
            table.represents(Map::empty()),
            table.spec_len() == 0,
            table.sized_for(slots),
            table.words() == Seq::new((4 * (table.mask() + 1)) as nat, |i: int| EMPTY),
            !table.being_read(),
            table.spec_max_hops() == if max_hops == 0 { 1 } else { max_hops },
            table.spec_hops() == 0 && table.spec_worst_hops() == 0 && table.spec_ambiguous() == 0,
            table.spec_draws() == 0x9E37_79B9,
    {
        let need: u64 = (slots / 4 + (if slots % 4 == 0 { 0 } else { 1 })) as u64;
        let mut buckets: u64 = 2;
        assert(2u64 & 1u64 == 0) by (bit_vector);
        while buckets < need
            invariant
                need == slots / 4 + (if slots % 4 == 0 { 0int } else { 1 }),
                slots <= usize::MAX / 4,
                2 <= buckets,
                buckets % 2 == 0,
                buckets == 2 || buckets / 2 < need,
                buckets <= 2 * need || buckets == 2,
                buckets & ((buckets - 1) as u64) == 0,
            decreases 2 * need - buckets,
        {
            let half: u64 = buckets;
            let less: u64 = half - 1;
            let more: u64 = 2 * half - 1;
            assert((2 * half) as u64 & more == 0) by (bit_vector)
                requires
                    half & less == 0,
                    less == half - 1,
                    more == 2 * half - 1,
                    half < 0x4000_0000_0000_0000,
            ;
            buckets = 2 * buckets;
        }
        let mask: u64 = buckets - 1;
        assert(mask & buckets == buckets & mask) by (bit_vector);
        let words: Vec<u64> = vec![0u64; buckets as usize * 4];
        let segments: Vec<usize> = vec![0usize; SEGMENT_VALUES];
        let table = HoldTable {
            words,
            mask,
            live: 0,
            segments,
            victims: Prng::new(0x9E37_79B9),
            max_hops: if max_hops == 0 {
                1
            } else {
                max_hops
            },
            hops: 0,
            worst_hops: 0,
            ambiguous: 0,
            reading: false,
            cursor: 0,
            shadow: HashMap::new(),
        };
        proof {
            reveal(HoldTable::wf);
            lemma_count_none(table.words@, occupied());
            assert forall|s: int| 0 <= s < SEGMENT_VALUES implies #[trigger] table.segments@[s] == count(
                table.words@,
                in_segment(s),
            ) by {
                lemma_count_none(table.words@, in_segment(s));
            }
            let none: Map<TxId, u64> = Map::empty();
            let p = Placement { pos: Map::empty(), owner: Map::empty() };
            assert(seated(table.words@, mask, none, p, None));
            assert(addresses(none) =~= Map::empty());
            assert(named(none, mask) && whole(table.words@, mask, none));
        }
        table
    }
}

impl Default for HoldTable {
    fn default() -> (table: Self)
        ensures
            table.wf(),
            table.represents(Map::empty()),
            table.spec_len() == 0,
            table.mask() + 1 == DEFAULT_SLOTS / 4,
            table.words() == Seq::new(DEFAULT_SLOTS as nat, |i: int| EMPTY),
            !table.being_read(),
            table.spec_hops() == 0 && table.spec_worst_hops() == 0 && table.spec_ambiguous() == 0,
    {
        let table = HoldTable::with_slots(DEFAULT_SLOTS);
        proof {
            table.lemma_default_size();
        }
        table
    }
}

impl HoldTable {
    /// The one place a word is written: keeps the counts, and puts a bucket aside for the snapshot
    /// being read before its first change.
    fn set_slot(&mut self, at: usize, slot: u64)
        requires
            old(self).wf(),
            at < old(self).words@.len(),
        ensures
            final(self).wf(),
            final(self).words@ == old(self).words@.update(at as int, slot),
            final(self).only_words(old(self)),
            final(self).mask == old(self).mask,
            final(self).max_hops == old(self).max_hops,
            final(self).words@.len() == old(self).words@.len(),
            final(self).victims == old(self).victims,
            final(self).hops == old(self).hops,
            final(self).worst_hops == old(self).worst_hops,
            final(self).ambiguous == old(self).ambiguous,
            final(self).aside().dom() == old(self).aside_with(at as int / 4),
    {
        reveal(HoldTable::wf);
        reveal(HoldTable::only_words);
        let ghost before = self.words@;
        let length: usize = self.words.len();
        let bucket: usize = at / 4;
        if self.reading && self.cursor <= bucket as u64 && !self.shadow.contains_key(
            &(bucket as u64),
        ) {
            let aside: [u64; 4] = [
                self.words[4 * bucket],
                self.words[4 * bucket + 1],
                self.words[4 * bucket + 2],
                self.words[4 * bucket + 3],
            ];
            self.shadow.insert(bucket as u64, aside);
            assert forall|i: int| 0 <= i < self.words@.len() implies #[trigger] self.snapshot_word(i)
                == old(self).snapshot_word(i) by {
                if i / 4 == bucket {
                    assert(i == 4 * bucket + i % 4);
                }
            }
        }
        let was: u64 = self.words[at];
        proof {
            lemma_count_update(before, occupied(), at as int, slot);
            lemma_count_bound(before.update(at as int, slot), occupied());
            assert forall|s: int| 0 <= s < SEGMENT_VALUES implies {
                &&& #[trigger] count(before.update(at as int, slot), in_segment(s)) == count(
                    before,
                    in_segment(s),
                ) + (if in_segment(s)(slot) {
                    1int
                } else {
                    0
                }) - (if in_segment(s)(was) {
                    1int
                } else {
                    0
                })
                &&& count(before.update(at as int, slot), in_segment(s)) <= before.len()
                &&& in_segment(s)(was) ==> count(before, in_segment(s)) >= 1
            } by {
                lemma_count_update(before, in_segment(s), at as int, slot);
                lemma_count_bound(before.update(at as int, slot), in_segment(s));
            }
        }
        let ghost counts = self.segments@;
        if was != EMPTY {
            proof {
                lemma_word(was);
            }
            let segment: usize = slot_address(was).segment() as usize;
            assert(in_segment(segment as int)(was));
            assert(count(before.update(at as int, slot), in_segment(segment as int)) <= before.len());
            assert(self.segments@[segment as int] == count(before, in_segment(segment as int)));
            self.live = self.live - 1;
            let fewer: usize = self.segments[segment] - 1;
            self.segments[segment] = fewer;
        }
        let ghost between = self.segments@;
        assert forall|s: int| 0 <= s < SEGMENT_VALUES implies #[trigger] between[s] == counts[s] - (
        if in_segment(s)(was) {
            1int
        } else {
            0
        }) by {}
        if slot != EMPTY {
            proof {
                lemma_word(slot);
            }
            let segment: usize = slot_address(slot).segment() as usize;
            self.live = self.live + 1;
            assert(count(before.update(at as int, slot), in_segment(segment as int)) <= before.len());
            assert(in_segment(segment as int)(slot));
            assert(counts[segment as int] == count(before, in_segment(segment as int)));
            assert(between[segment as int] < before.len());
            let more: usize = self.segments[segment] + 1;
            self.segments[segment] = more;
        }
        self.words[at] = slot;
        assert forall|s: int| 0 <= s < SEGMENT_VALUES implies #[trigger] self.segments@[s] == count(
            self.words@,
            in_segment(s),
        ) by {
            assert(between[s] == counts[s] - (if in_segment(s)(was) {
                1int
            } else {
                0
            }));
        }
        assert(self.same_snapshot(old(self)));
    }

    /// Every slot whose fingerprint matches, in probe order.
    pub fn candidates(&self, key: TxId) -> (found: Candidates)
        requires
            self.wf(),
        ensures
            found.wf(),
            found.places() == matching(self.words(), self.mask(), key),
            forall|i: int|
                0 <= i < found.len ==> #[trigger] found.addrs@[i] == address_of(
                    self.words()[found.places()[i]],
                ),
            forall|i: int|
                0 <= i < found.len ==> 0 <= #[trigger] found.places()[i] < self.words().len(),
    {
        proof {
            self.lemma_wf();
            lemma_buckets(key, self.mask);
        }
        let (fp, first, second) = locate(key, self.mask);
        let length: usize = self.words.len();
        let ghost slots = probe(key, self.mask);
        let ghost which = carries(self.words@, key);
        let mut found = Candidates::default();
        let mut n: usize = 0;
        assert(slots.subrange(0, 0).filter(which) =~= Seq::empty());
        while n < 8
            invariant
                n <= 8,
                self.words@.len() == 4 * (self.mask + 1) == length,
                slots == probe(key, self.mask),
                which == carries(self.words@, key),
                fp == fingerprint(key),
                first == home(key, self.mask) && first <= self.mask,
                second == alternate(first, fp, self.mask) && second <= self.mask,
                found.wf(),
                found.len <= n,
                found.places() == slots.subrange(0, n as int).filter(which),
                forall|i: int|
                    0 <= i < found.len ==> #[trigger] found.addrs@[i] == address_of(
                        self.words@[found.places()[i]],
                    ),
                forall|i: int|
                    0 <= i < found.len ==> 0 <= #[trigger] found.places()[i] < self.words@.len(),
            decreases 8 - n,
        {
            let at: usize = if n < 4 {
                first as usize * 4 + n
            } else {
                second as usize * 4 + (n - 4)
            };
            let slot: u64 = self.words[at];
            assert(slots[n as int] == at);
            proof {
                lemma_filter_one_more(slots, which, n as int);
            }
            if slot != EMPTY && slot_fingerprint(slot) == fp {
                let ghost before = found;
                found.push(slot_address(slot), at);
                assert forall|i: int| 0 <= i < found.len implies #[trigger] found.addrs@[i]
                    == address_of(self.words@[found.places()[i]]) && 0 <= found.places()[i]
                    < self.words@.len() by {
                    if i < before.len {
                        assert(found.addrs@[i] == before.addrs@[i]);
                        assert(found.places()[i] == before.places()[i]);
                    }
                }
            }
            n += 1;
        }
        assert(slots.subrange(0, 8) =~= slots);
        found
    }
}

proof fn lemma_filter_one_more(slots: Seq<int>, which: spec_fn(int) -> bool, n: int)
    requires
        0 <= n < slots.len(),
    ensures
        slots.subrange(0, n + 1).filter(which) == if which(slots[n]) {
            slots.subrange(0, n).filter(which).push(slots[n])
        } else {
            slots.subrange(0, n).filter(which)
        },
{
    reveal(Seq::filter);
    assert(slots.subrange(0, n + 1).drop_last() =~= slots.subrange(0, n));
}

/// A probe finds exactly the slots within the key's reach that carry its fingerprint.
pub proof fn lemma_matching(words: Seq<u64>, mask: u64, key: TxId, at: int)
    requires
        is_mask(mask),
        words.len() == 4 * (mask + 1),
    ensures
        matching(words, mask, key).contains(at) <==> within_reach(words, mask, key, at)
            && fingerprint_of(words[at]) == fingerprint(key),
{
    let slots = probe(key, mask);
    let which = carries(words, key);
    lemma_buckets(key, mask);
    broadcast use vstd::seq_lib::group_filter_ensures;
    if matching(words, mask, key).contains(at) {
        slots.lemma_filter_contains_rev(which, at);
        let n = choose|n: int| 0 <= n < slots.len() && slots[n] == at;
        assert(slots[n] == at);
        let i = choose|i: int| 0 <= i < slots.filter(which).len() && slots.filter(which)[i] == at;
        assert(which(slots.filter(which)[i]));
    }
    if within_reach(words, mask, key, at) && fingerprint_of(words[at]) == fingerprint(key) {
        let n = if at / 4 == home(key, mask) {
            at % 4
        } else {
            4 + at % 4
        };
        assert(slots[n] == at);
        assert(which(at));
        assert(slots.filter(which).contains(slots[n]));
    }
}

/// The slot a key's word is in, when the words alone can say.
pub open spec fn known_slot(words: Seq<u64>, mask: u64, key: TxId) -> Option<int> {
    let found = matching(words, mask, key);
    if found.len() == 1 && !is_marked(words[found[0]]) {
        Some(found[0])
    } else {
        None
    }
}

impl HoldTable {
    /// The slot this key owns, when the index alone can say.
    pub(crate) fn find(&self, key: TxId) -> (found: Found)
        requires
            self.wf(),
        ensures
            match found {
                Found::Absent => matching(self.words(), self.mask(), key).len() == 0,
                Found::At(slot) => known_slot(self.words(), self.mask(), key) == Some(slot as int)
                    && slot < self.words().len(),
                Found::Ambiguous(candidates) => {
                    &&& candidates.wf()
                    &&& candidates.len > 0
                    &&& candidates.places() == matching(self.words(), self.mask(), key)
                    &&& known_slot(self.words(), self.mask(), key) is None
                    &&& forall|i: int|
                        0 <= i < candidates.len ==> #[trigger] candidates.addrs@[i] == address_of(
                            self.words()[candidates.places()[i]],
                        )
                    &&& forall|i: int|
                        0 <= i < candidates.len ==> 0 <= #[trigger] candidates.places()[i]
                            < self.words().len()
                },
            },
    {
        let candidates = self.candidates(key);
        if candidates.is_empty() {
            return Found::Absent;
        }
        if candidates.len() == 1 {
            let slot: usize = candidates.slot(0);
            if !slot_is_marked(self.words[slot]) {
                return Found::At(slot);
            }
        }
        Found::Ambiguous(candidates)
    }

    fn put(&mut self, bucket: u64, slot: u64) -> (room: bool)
        requires
            old(self).wf(),
            bucket <= old(self).mask,
        ensures
            final(self).wf(),
            final(self).only_words(old(self)),
            final(self).mask == old(self).mask,
            final(self).max_hops == old(self).max_hops,
            final(self).words@.len() == old(self).words@.len(),
            final(self).victims == old(self).victims,
            final(self).hops == old(self).hops,
            final(self).worst_hops == old(self).worst_hops,
            final(self).ambiguous == old(self).ambiguous,
            room ==> exists|at: int|
                0 <= at < old(self).words@.len() && at / 4 == bucket && old(self).words@[at] == EMPTY
                    && #[trigger] old(self).words@.update(at, slot) == final(self).words@,
            !room ==> final(self).words@ == old(self).words@ && forall|at: int|
                0 <= at < old(self).words@.len() && at / 4 == bucket ==> #[trigger] old(self).words@[at]
                    != EMPTY,
            room == has_room(fingerprints(old(self).words@), bucket),
    {
        proof {
            self.lemma_wf();
            self.lemma_counters(self);
        }
        proof {
            lemma_has_room(self.words@, bucket);
        }
        let length: usize = self.words.len();
        let base: usize = bucket as usize * 4;
        let mut way: usize = 0;
        while way < 4
            invariant
                *self == *old(self),
                self.wf(),
                self.only_words(old(self)),
                way <= 4,
                bucket <= self.mask,
                self.words@.len() == length == 4 * (self.mask + 1),
                base == bucket * 4,
                forall|i: int| base <= i < base + way ==> #[trigger] self.words@[i] != EMPTY,
            decreases 4 - way,
        {
            if self.words[base + way] == EMPTY {
                self.set_slot(base + way, slot);
                assert(old(self).words@.update((base + way) as int, slot) == self.words@);
                assert(has_room(fingerprints(old(self).words@), bucket)) by {
                    lemma_has_room(old(self).words@, bucket);
                    assert(old(self).words@[base + way] == EMPTY);
                }
                return true;
            }
            way += 1;
        }
        false
    }

    /// Which way a full bucket gives up. An entry whose other home is the bucket just left would send
    /// the cascade straight back, so it is passed over while another is available.
    fn victim(&mut self, bucket: u64, came_from: u64) -> (way: usize)
        requires
            old(self).wf(),
            bucket <= old(self).mask,
            forall|at: int|
                0 <= at < old(self).words@.len() && at / 4 == bucket ==> #[trigger] old(self).words@[at]
                    != EMPTY,
        ensures
            way < 4,
            final(self).wf(),
            final(self).words@ == old(self).words@,
            final(self).only_words(old(self)),
            final(self).mask == old(self).mask,
            final(self).max_hops == old(self).max_hops,
            final(self).words@.len() == old(self).words@.len(),
            final(self).shadow@ == old(self).shadow@,
            final(self).hops == old(self).hops,
            final(self).worst_hops == old(self).worst_hops,
            final(self).ambiguous == old(self).ambiguous,
            final(self).victims.state == stepped(old(self).victims.state),
            way == gives_up(
                fingerprints(old(self).words@),
                old(self).mask,
                bucket,
                came_from,
                (mixed(stepped(old(self).victims.state)) % 4) as int,
            ),
    {
        let start: usize = (self.victims.next_u64() % 4) as usize;
        proof {
            old(self).lemma_wf();
            self.lemma_counters(old(self));
        }
        self.passed_over(bucket, came_from, start)
    }

    fn passed_over(&self, bucket: u64, came_from: u64, start: usize) -> (way: usize)
        requires
            self.words@.len() == 4 * (self.mask + 1),
            bucket <= self.mask,
            start < 4,
            forall|at: int|
                0 <= at < self.words@.len() && at / 4 == bucket ==> #[trigger] self.words@[at] != EMPTY,
        ensures
            way < 4,
            way == gives_up(
                fingerprints(self.words@),
                self.mask,
                bucket,
                came_from,
                start as int,
            ),
    {
        let length: usize = self.words.len();
        let base: usize = bucket as usize * 4;
        let ghost fps = fingerprints(self.words@);
        proof {
            reveal(gives_up);
        }
        let mut step: usize = 0;
        while step < 4
            invariant
                step <= 4,
                start < 4,
                bucket <= self.mask,
                self.words@.len() == length == 4 * (self.mask + 1),
                base == bucket * 4,
                fps == fingerprints(self.words@),
                forall|at: int|
                    0 <= at < self.words@.len() && at / 4 == bucket ==> #[trigger] self.words@[at]
                        != EMPTY,
                step > 0 ==> !leads_on(fps, self.mask, bucket, came_from, start as int),
                step > 1 ==> !leads_on(fps, self.mask, bucket, came_from, (start + 1) % 4),
                step > 2 ==> !leads_on(fps, self.mask, bucket, came_from, (start + 2) % 4),
                step > 3 ==> !leads_on(fps, self.mask, bucket, came_from, (start + 3) % 4),
            decreases 4 - step,
        {
            let way: usize = (start + step) % 4;
            let fp: u64 = slot_fingerprint(self.words[base + way]);
            assert(self.words@[base + way] != EMPTY);
            proof {
                lemma_fingerprint_at(self.words@, base + way);
                reveal(gives_up);
            }
            if other_bucket(bucket, fp, self.mask) != came_from {
                return way;
            }
            step += 1;
        }
        start
    }

    /// Finds a word a slot, moving others out of its way. Where the cascade spends its cap, every
    /// move is taken back and the word stays with the caller.
    fn place(&mut self, slot: u64, first: u64, second: u64) -> (placed: bool)
        requires
            old(self).wf(),
            slot != EMPTY,
            first <= old(self).mask,
            second <= old(self).mask,
        ensures
            final(self).wf(),
            final(self).only_words(old(self)),
            final(self).mask == old(self).mask,
            final(self).max_hops == old(self).max_hops,
            final(self).words@.len() == old(self).words@.len(),
            final(self).ambiguous == old(self).ambiguous,
            !placed ==> {
                &&& final(self).words@ == old(self).words@
                &&& final(self).hops == old(self).hops
                &&& final(self).worst_hops == old(self).worst_hops
                &&& forall|at: int|
                    0 <= at < old(self).words@.len() && (at / 4 == first || at / 4 == second)
                        ==> #[trigger] old(self).words@[at] != EMPTY
            },
            placed ==> forall|words_of: Map<TxId, u64>|
                #![trigger whole(final(self).words@, old(self).mask, words_of)]
                named(words_of, old(self).mask) && in_hand(
                    old(self).words@,
                    old(self).mask,
                    words_of,
                    slot,
                    first,
                ) && in_hand(old(self).words@, old(self).mask, words_of, slot, second) ==> whole(
                    final(self).words@,
                    old(self).mask,
                    words_of,
                ),
            placed ==> final(self).spec_len() == old(self).spec_len() + 1,
            ({
                let moves = moves_for(
                    fingerprints(old(self).words@),
                    old(self).mask,
                    fingerprint_of(slot),
                    first,
                    second,
                    old(self).max_hops as nat,
                    old(self).victims.state,
                );
                &&& placed == (moves is Some)
                &&& moves matches Some(moves) ==> {
                    &&& final(self).hops == saturated(old(self).hops + moves)
                    &&& final(self).worst_hops == if moves > old(self).worst_hops {
                        moves
                    } else {
                        old(self).worst_hops as nat
                    }
                    &&& final(self).victims.state == drawn_on(old(self).victims.state, moves)
                }
                &&& moves is None ==> final(self).victims.state == drawn_on(
                    old(self).victims.state,
                    old(self).max_hops as nat,
                )
            }),
    {
        let ghost before = self.words@;
        let ghost mask = self.mask;
        proof {
            self.lemma_wf();
        }
        if self.put(first, slot) {
            let ghost at = choose|at: int|
                0 <= at < before.len() && at / 4 == first && before[at] == EMPTY
                    && #[trigger] before.update(at, slot) == self.words@;
            proof {
                lemma_count_update(before, occupied(), at, slot);
                assert forall|words_of: Map<TxId, u64>|
                    #![trigger whole(self.words@, mask, words_of)]
                    named(words_of, mask) && in_hand(before, mask, words_of, slot, first) implies whole(
                    self.words@,
                    mask,
                    words_of,
                ) by {
                    lemma_put(before, mask, words_of, slot, first, at);
                }
            }
            return true;
        }
        let ghost first_full = *self;
        if self.put(second, slot) {
            proof {
                self.lemma_only_words(&first_full, old(self));
            }
            let ghost at = choose|at: int|
                0 <= at < before.len() && at / 4 == second && before[at] == EMPTY
                    && #[trigger] before.update(at, slot) == self.words@;
            proof {
                lemma_count_update(before, occupied(), at, slot);
                assert forall|words_of: Map<TxId, u64>|
                    #![trigger whole(self.words@, mask, words_of)]
                    named(words_of, mask) && in_hand(before, mask, words_of, slot, second) implies whole(
                    self.words@,
                    mask,
                    words_of,
                ) by {
                    lemma_put(before, mask, words_of, slot, second, at);
                }
            }
            return true;
        }
        proof {
            self.lemma_only_words(&first_full, old(self));
            self.lemma_counters(self);
            self.lemma_wf();
        }
        let length: usize = self.words.len();
        let ghost start = *self;
        let cap: u64 = self.max_hops as u64;
        let mut hand: u64 = slot;
        let mut bucket: u64 = first;
        let mut came_from: u64 = second;
        let mut path: Vec<usize> = Vec::new();
        let ghost mut trail: Seq<Seq<u64>> = Seq::empty();
        let ghost mut hands: Seq<u64> = Seq::empty();
        let mut hop: u64 = 1;
        let ghost seed = self.victims.state;
        let ghost whole_way = cascade(
            fingerprints(before),
            mask,
            fingerprint_of(slot),
            first,
            second,
            cap as nat,
            seed,
        );
        proof {
            lemma_ends_of_a_cascade(whole_way, 0, fingerprints(before), mask, 0, 0, 0, seed);
        }
        while hop <= cap
            invariant
                seed == old(self).victims.state,
                !has_room(fingerprints(before), first),
                !has_room(fingerprints(before), second),
                whole_way == cascade(
                    fingerprints(before),
                    mask,
                    fingerprint_of(slot),
                    first,
                    second,
                    cap as nat,
                    seed,
                ),
                is_the_rest(
                    whole_way,
                    (hop - 1) as nat,
                    cascade(
                        fingerprints(self.words@),
                        mask,
                        fingerprint_of(hand),
                        bucket,
                        came_from,
                        (cap + 1 - hop) as nat,
                        self.victims.state,
                    ),
                ),
                self.victims.state == drawn_on(seed, (hop - 1) as nat),
                self.wf(),
                self.only_words(&start),
                self.mask == mask,
                mask == old(self).mask,
                before == old(self).words@,
                before.len() == length,
                self.max_hops == old(self).max_hops,
                start.only_words(old(self)),
                start.hops == old(self).hops,
                start.worst_hops == old(self).worst_hops,
                start.ambiguous == old(self).ambiguous,
                self.hops == start.hops,
                self.worst_hops == start.worst_hops,
                self.ambiguous == start.ambiguous,
                mask == self.mask,
                is_mask(mask),
                self.words@.len() == length == 4 * (mask + 1),
                start.words@ == before,
                hand != EMPTY,
                bucket <= mask,
                1 <= hop,
                cap == old(self).max_hops,
                hop <= cap + 1,
                path@.len() == hop - 1,
                trail.len() == path@.len(),
                hands.len() == path@.len(),
                forall|at: int|
                    0 <= at < self.words@.len() && at / 4 == bucket ==> #[trigger] self.words@[at]
                        != EMPTY,
                count(self.words@, occupied()) == count(before, occupied()),
                forall|words_of: Map<TxId, u64>|
                    #![trigger in_hand(self.words@, mask, words_of, hand, bucket)]
                    named(words_of, mask) && in_hand(before, mask, words_of, slot, first) ==> in_hand(
                        self.words@,
                        mask,
                        words_of,
                        hand,
                        bucket,
                    ),
                retraces(path@, trail, hands, before, slot, self.words@, hand),
            decreases cap + 1 - hop,
        {
            let ghost entry = *self;
            let way: usize = self.victim(bucket, came_from);
            let ghost chosen = *self;
            let at: usize = bucket as usize * 4 + way;
            let ghost was = self.words@;
            let out: u64 = self.words[at];
            self.set_slot(at, hand);
            let ghost steps = path@;
            path.push(at);
            proof {
                chosen.lemma_only_words(&entry, &start);
                self.lemma_only_words(&chosen, &start);
                lemma_count_update(was, occupied(), at as int, hand);
                lemma_alternate(bucket, fingerprint_of(out), mask);
                assert forall|words_of: Map<TxId, u64>|
                    #![trigger in_hand(
                        self.words@,
                        mask,
                        words_of,
                        out,
                        alternate(bucket, fingerprint_of(out), mask),
                    )]
                    named(words_of, mask) && in_hand(before, mask, words_of, slot, first) implies in_hand(
                    self.words@,
                    mask,
                    words_of,
                    out,
                    alternate(bucket, fingerprint_of(out), mask),
                ) by {
                    assert(in_hand(was, mask, words_of, hand, bucket));
                    lemma_swap(was, mask, words_of, hand, bucket, at as int);
                }
                lemma_retraces_push(
                    steps,
                    trail,
                    hands,
                    before,
                    slot,
                    was,
                    hand,
                    at,
                    self.words@,
                    out,
                );
                trail = trail.push(was);
                hands = hands.push(hand);
            }
            proof {
                assert(was[at as int] != EMPTY);
                lemma_fingerprint_at(was, at as int);
                lemma_fingerprints_update(was, at as int, hand);
                lemma_one_move(
                    whole_way,
                    (hop - 1) as nat,
                    fingerprints(was),
                    mask,
                    fingerprint_of(hand),
                    bucket,
                    came_from,
                    (cap + 1 - hop) as nat,
                    entry.victims.state,
                    way as int,
                    fingerprint_of(out),
                );
            }
            hand = out;
            came_from = bucket;
            bucket = other_bucket(bucket, slot_fingerprint(hand), self.mask);
            let ghost carried = self.words@;
            let ghost moved = *self;
            let room: bool = self.put(bucket, hand);
            proof {
                self.lemma_only_words(&moved, &start);
            }
            if room {
                let ghost to = choose|to: int|
                    0 <= to < carried.len() && to / 4 == bucket && carried[to] == EMPTY
                        && #[trigger] carried.update(to, hand) == self.words@;
                let ghost seated_now = *self;
                assert(whole_way == Some(hop as nat));
                self.hops = self.hops.saturating_add(hop);
                if hop as u32 > self.worst_hops {
                    self.worst_hops = hop as u32;
                }
                proof {
                    lemma_count_update(carried, occupied(), to, hand);
                    assert forall|words_of: Map<TxId, u64>|
                        #![trigger whole(self.words@, mask, words_of)]
                        named(words_of, mask) && in_hand(
                            before,
                            mask,
                            words_of,
                            slot,
                            first,
                        ) implies whole(self.words@, mask, words_of) by {
                        assert(in_hand(carried, mask, words_of, hand, bucket));
                        lemma_put(carried, mask, words_of, hand, bucket, to);
                    }
                    self.lemma_counters(&seated_now);
                    self.lemma_only_words(&seated_now, &start);
                    self.lemma_only_words(&start, old(self));
                }
                return true;
            }
            hop += 1;
        }
        proof {
            lemma_ends_of_a_cascade(
                whole_way,
                (hop - 1) as nat,
                fingerprints(self.words@),
                mask,
                fingerprint_of(hand),
                bucket,
                came_from,
                self.victims.state,
            );
        }
        // Back along the path, last move first.
        let mut left: usize = path.len();
        assert(path@.subrange(0, left as int) =~= path@);
        assert(trail.subrange(0, left as int) =~= trail);
        assert(hands.subrange(0, left as int) =~= hands);
        while left > 0
            invariant
                self.wf(),
                self.only_words(&start),
                self.mask == mask,
                mask == old(self).mask,
                before == old(self).words@,
                before.len() == length,
                self.max_hops == old(self).max_hops,
                start.only_words(old(self)),
                start.hops == old(self).hops,
                start.worst_hops == old(self).worst_hops,
                start.ambiguous == old(self).ambiguous,
                self.hops == start.hops,
                self.worst_hops == start.worst_hops,
                self.ambiguous == start.ambiguous,
                self.victims.state == drawn_on(old(self).victims.state, old(self).max_hops as nat),
                left <= path@.len(),
                trail.len() == path@.len(),
                hands.len() == path@.len(),
                self.words@.len() == length,
                retraces(
                    path@.subrange(0, left as int),
                    trail.subrange(0, left as int),
                    hands.subrange(0, left as int),
                    before,
                    slot,
                    self.words@,
                    hand,
                ),
            decreases left,
        {
            let ghost shorter = path@.subrange(0, left as int);
            let ghost ends = trail.subrange(0, left as int);
            let ghost held = hands.subrange(0, left as int);
            let at: usize = path[left - 1];
            assert(shorter.last() == at);
            assert(at < length);
            let back: u64 = self.words[at];
            let ghost ahead = *self;
            self.set_slot(at, hand);
            proof {
                self.lemma_only_words(&ahead, &start);
            }
            hand = back;
            left = left - 1;
            assert(self.words@ =~= ends.last());
            assert(path@.subrange(0, left as int) =~= shorter.drop_last());
            assert(trail.subrange(0, left as int) =~= ends.drop_last());
            assert(hands.subrange(0, left as int) =~= held.drop_last());
        }
        proof {
            self.lemma_only_words(&start, old(self));
        }
        false
    }
}

/// The words and the word in hand came from `before` and `slot` by the moves of `path`, one after
/// another; `trail` and `hands` are the words and the word in hand as they were before each.
spec fn retraces(
    path: Seq<usize>,
    trail: Seq<Seq<u64>>,
    hands: Seq<u64>,
    before: Seq<u64>,
    slot: u64,
    words: Seq<u64>,
    hand: u64,
) -> bool
    decreases path.len(),
{
    if path.len() == 0 {
        words == before && hand == slot
    } else {
        &&& trail.len() == path.len()
        &&& hands.len() == path.len()
        &&& path.last() < trail.last().len()
        &&& words == trail.last().update(path.last() as int, hands.last())
        &&& hand == trail.last()[path.last() as int]
        &&& retraces(
            path.drop_last(),
            trail.drop_last(),
            hands.drop_last(),
            before,
            slot,
            trail.last(),
            hands.last(),
        )
    }
}

proof fn lemma_retraces_push(
    path: Seq<usize>,
    trail: Seq<Seq<u64>>,
    hands: Seq<u64>,
    before: Seq<u64>,
    slot: u64,
    words: Seq<u64>,
    hand: u64,
    at: usize,
    next: Seq<u64>,
    out: u64,
)
    requires
        retraces(path, trail, hands, before, slot, words, hand),
        trail.len() == path.len(),
        hands.len() == path.len(),
        at < words.len(),
        next == words.update(at as int, hand),
        out == words[at as int],
    ensures
        retraces(path.push(at), trail.push(words), hands.push(hand), before, slot, next, out),
{
    assert(path.push(at).drop_last() =~= path);
    assert(trail.push(words).drop_last() =~= trail);
    assert(hands.push(hand).drop_last() =~= hands);
}

impl HoldTable {
    /// Takes in a key the store has never held. This is the one moment uniqueness can be checked for
    /// free: anything already in these buckets with this fingerprint is a different key, so both
    /// slots are marked and every later operation on either reads a record to tell them apart.
    pub fn insert_new(&mut self, key: TxId, addr: RecordAddr) -> (inserted: Result<(), Homeless>)
        requires
            old(self).wf(),
            addr.fits(),
        ensures
            final(self).wf(),
            final(self).mask() == old(self).mask(),
            final(self).same_snapshot(old(self)),
            final(self).more_aside(old(self)),
            inserted is Ok ==> final(self).spec_len() == old(self).spec_len() + 1,
            inserted is Ok ==> forall|m: Map<TxId, RecordAddr>| #[trigger]
                old(self).represents(m) && !m.contains_key(key) ==> final(self).represents(
                    m.insert(key, addr),
                ),
            inserted is Ok <==> old(self).moves_for(key) is Some,
            old(self).moves_for(key) matches Some(moves) ==> {
                &&& final(self).spec_hops() == saturated(old(self).spec_hops() + moves)
                &&& final(self).spec_worst_hops() == if moves > old(self).spec_worst_hops() {
                    moves
                } else {
                    old(self).spec_worst_hops() as nat
                }
                &&& final(self).spec_draws() == drawn_on(old(self).spec_draws(), moves)
            },
            inserted is Err ==> final(self).spec_draws() == drawn_on(
                old(self).spec_draws(),
                old(self).spec_max_hops() as nat,
            ) && final(self).spec_hops() == old(self).spec_hops() && final(self).spec_worst_hops()
                == old(self).spec_worst_hops(),
            final(self).spec_max_hops() == old(self).spec_max_hops(),
            inserted matches Err(homeless) ==> homeless.address == addr,
            inserted is Err ==> only_marked(old(self).words(), final(self).words()),
            inserted is Err ==> forall|m: Map<TxId, RecordAddr>| #[trigger]
                old(self).represents(m) ==> final(self).represents(m),
            inserted is Err ==> forall|at: int|
                0 <= at < old(self).words().len() && in_pair(key, at / 4, old(self).mask())
                    ==> #[trigger] old(self).words()[at] != EMPTY,
            final(self).spec_ambiguous() == if matching(
                old(self).words(),
                old(self).mask(),
                key,
            ).len() == 0 {
                old(self).spec_ambiguous() as int
            } else {
                saturated(old(self).spec_ambiguous() + 1)
            },
    {
        let ghost before = self.words@;
        let ghost mask = self.mask;
        proof {
            self.lemma_wf();
            lemma_buckets(key, mask);
            lemma_fingerprint(key);
        }
        let (fp, first, second) = locate(key, self.mask);
        let clashes = self.candidates(key);
        let shared: bool = !clashes.is_empty();
        let slot: u64 = pack(fp, shared, addr);
        proof {
            lemma_packed(fp, shared, addr);
            self.lemma_counters(self);
        }
        let ghost places = clashes.places();
        let mut at: usize = 0;
        while at < clashes.len()
            invariant
                at <= clashes.len,
                clashes.wf(),
                places == clashes.places(),
                places == matching(before, mask, key),
                forall|i: int| 0 <= i < clashes.len ==> 0 <= #[trigger] places[i] < before.len(),
                self.wf(),
                self.only_words(old(self)),
                self.mask == mask,
                is_mask(mask),
                before.len() == 4 * (mask + 1),
                self.max_hops == old(self).max_hops,
                self.hops == old(self).hops,
                self.worst_hops == old(self).worst_hops,
                self.ambiguous == old(self).ambiguous,
                before == old(self).words@,
                only_marked(before, self.words@),
                fingerprints(self.words@) == fingerprints(before),
                self.victims == old(self).victims,
                count(self.words@, occupied()) == count(before, occupied()),
                forall|i: int| 0 <= i < at ==> is_marked(self.words@[#[trigger] places[i]]),
            decreases clashes.len - at,
        {
            let place: usize = clashes.slot(at);
            let word: u64 = self.words[place];
            proof {
                assert(places[at as int] == place);
                assert(matching(before, mask, key).contains(place as int));
                lemma_matching(before, mask, key, place as int);
                lemma_fingerprint(key);
                lemma_marked(before[place as int]);
                lemma_marked(marked(before[place as int]));
                lemma_word(word);
            }
            let ghost was = *self;
            let ghost words = self.words@;
            self.set_slot(place, pack(slot_fingerprint(word), true, slot_address(word)));
            proof {
                self.lemma_only_words(&was, old(self));
                lemma_count_update(words, occupied(), place as int, self.words@[place as int]);
                assert(self.words@[place as int] == marked(before[place as int]));
                lemma_fingerprint_at(before, place as int);
                lemma_fingerprints_update(words, place as int, self.words@[place as int]);
                assert(fingerprints(self.words@) =~= fingerprints(before));
            }
            at += 1;
        }
        if shared {
            let ghost was = *self;
            self.ambiguous = self.ambiguous.saturating_add(1);
            proof {
                self.lemma_counters(&was);
                self.lemma_only_words(&was, old(self));
            }
        }
        let ghost marks = *self;
        proof {
            assert forall|i: int|
                0 <= i < before.len() && #[trigger] before[i] != EMPTY && in_pair(key, i / 4, mask)
                    && fingerprint_of(before[i]) == fingerprint(key) implies is_marked(
                marks.words@[i],
            ) && is_marked(slot) by {
                lemma_matching(before, mask, key, i);
                let n = choose|n: int| 0 <= n < places.len() && places[n] == i;
                assert(is_marked(marks.words@[places[n]]));
            }
        }
        let placed: bool = self.place(slot, first, second);
        proof {
            self.lemma_only_words(&marks, old(self));
            assert(self.same_snapshot(old(self)) && self.more_aside(old(self))) by {
                reveal(HoldTable::only_words);
            }
            if placed {
                assert forall|m: Map<TxId, RecordAddr>| #[trigger]
                    old(self).represents(m) && !m.contains_key(key) implies self.represents(
                    m.insert(key, addr),
                ) by {
                    let words_of = choose|words_of: Map<TxId, u64>| #[trigger]
                        named(words_of, mask) && whole(before, mask, words_of) && m == addresses(
                            words_of,
                        );
                    let next = lemma_enter(before, marks.words@, mask, words_of, key, slot);
                    lemma_in_hand_either(marks.words@, mask, next, slot, key);
                    assert(whole(self.words@, mask, next));
                    assert(named(next, mask) && whole(self.words@, mask, next) && m.insert(key, addr)
                        == addresses(next));
                }
            } else {
                assert forall|m: Map<TxId, RecordAddr>| #[trigger]
                    old(self).represents(m) implies self.represents(m) by {
                    let words_of = choose|words_of: Map<TxId, u64>| #[trigger]
                        named(words_of, mask) && whole(before, mask, words_of) && m == addresses(
                            words_of,
                        );
                    let next = lemma_only_marked(before, self.words@, mask, words_of);
                    assert(named(next, mask) && whole(self.words@, mask, next) && m == addresses(next));
                }
                assert forall|i: int|
                    0 <= i < before.len() && in_pair(key, i / 4, mask) implies #[trigger] before[i]
                    != EMPTY by {
                    assert(marks.words@[i] != EMPTY);
                    assert(marks.words@[i] == before[i] || before[i] != EMPTY);
                }
            }
        }
        if placed {
            Ok(())
        } else {
            Err(Homeless { address: addr })
        }
    }
}

/// A number held at the largest a word can carry.
pub open spec fn saturated(n: int) -> int {
    if n > u64::MAX {
        u64::MAX as int
    } else {
        n
    }
}

/// A key whose word is in hand may go to either of its buckets.
proof fn lemma_in_hand_either(
    words: Seq<u64>,
    mask: u64,
    words_of: Map<TxId, u64>,
    slot: u64,
    key: TxId,
)
    requires
        is_mask(mask),
        named(words_of, mask),
        in_hand(words, mask, words_of, slot, home(key, mask)),
        fingerprint_of(slot) == fingerprint(key),
    ensures
        in_hand(
            words,
            mask,
            words_of,
            slot,
            alternate(home(key, mask), fingerprint(key), mask),
        ),
{
    let (p, k) = choose|p: Placement, k: TxId| #[trigger]
        seated(words, mask, words_of, p, Some(k)) && words_of.contains_key(k) && words_of[k] == slot
            && in_pair(k, home(key, mask) as int, mask);
    lemma_moved(k, home(key, mask), mask);
    assert(seated(words, mask, words_of, p, Some(k)));
}

/// The slot a probe settles on for a key: the one the words alone know, or else the first candidate,
/// in probe order, whose record a verifier says is the key's.
pub open spec fn settles<F: Fn(RecordAddr) -> bool>(
    words: Seq<u64>,
    mask: u64,
    key: TxId,
    verify: F,
    settled: Option<int>,
) -> bool {
    let found = matching(words, mask, key);
    match known_slot(words, mask, key) {
        Some(at) => settled == Some(at),
        None => match settled {
            Some(at) => exists|n: int|
                #![trigger found[n]]
                0 <= n < found.len() && at == found[n] && call_ensures(
                    verify,
                    (address_of(words[found[n]]),),
                    true,
                ) && forall|j: int|
                    0 <= j < n ==> call_ensures(
                        verify,
                        (address_of(words[#[trigger] found[j]]),),
                        false,
                    ),
            None => forall|j: int|
                0 <= j < found.len() ==> call_ensures(
                    verify,
                    (address_of(words[#[trigger] found[j]]),),
                    false,
                ),
        },
    }
}

/// A verifier can be asked about every candidate for the key.
pub open spec fn answers<F: Fn(RecordAddr) -> bool>(
    words: Seq<u64>,
    mask: u64,
    key: TxId,
    verify: F,
) -> bool {
    forall|n: int|
        0 <= n < matching(words, mask, key).len() ==> call_requires(
            verify,
            (address_of(words[#[trigger] matching(words, mask, key)[n]]),),
        )
}

/// The word with another address, its fingerprint and mark kept.
pub open spec fn repointed(slot: u64, addr: RecordAddr) -> u64 {
    packed(fingerprint_of(slot), is_marked(slot), addr)
}

/// The first slot of a probe that is in use and carries this address, whatever its fingerprint.
pub open spec fn pointing(words: Seq<u64>, mask: u64, key: TxId, addr: RecordAddr) -> Seq<int> {
    probe(key, mask).filter(|s: int| words[s] != EMPTY && address_of(words[s]) == addr)
}

impl HoldTable {
    /// Which slot is this key's, asking the verifier only when the marking says that the fingerprint
    /// is shared.
    fn resolve<F: Fn(RecordAddr) -> bool>(&self, key: TxId, verify: &F) -> (settled: Option<usize>)
        requires
            self.wf(),
            answers(self.words(), self.mask(), key, *verify),
        ensures
            settles(
                self.words(),
                self.mask(),
                key,
                *verify,
                match settled {
                    Some(at) => Some(at as int),
                    None => None,
                },
            ),
            settled matches Some(at) ==> within_reach(self.words(), self.mask(), key, at as int)
                && fingerprint_of(self.words()[at as int]) == fingerprint(key),
    {
        proof {
            self.lemma_wf();
        }
        let ghost found = matching(self.words@, self.mask, key);
        match self.find(key) {
            Found::Absent => None,
            Found::At(slot) => {
                proof {
                    assert(found.contains(found[0]));
                    lemma_matching(self.words@, self.mask, key, slot as int);
                }
                Some(slot)
            },
            Found::Ambiguous(candidates) => {
                let mut at: usize = 0;
                while at < candidates.len()
                    invariant
                        at <= candidates.len,
                        candidates.wf(),
                        found == matching(self.words@, self.mask, key),
                        candidates.places() == found,
                        answers(self.words@, self.mask, key, *verify),
                        known_slot(self.words@, self.mask, key) is None,
                        is_mask(self.mask),
                        self.words@.len() == 4 * (self.mask + 1),
                        forall|i: int|
                            0 <= i < candidates.len ==> #[trigger] candidates.addrs@[i]
                                == address_of(self.words@[candidates.places()[i]]),
                        forall|j: int|
                            0 <= j < at ==> call_ensures(
                                *verify,
                                (address_of(self.words@[#[trigger] found[j]]),),
                                false,
                            ),
                    decreases candidates.len - at,
                {
                    let addr = candidates.address(at);
                    assert(addr == address_of(self.words@[found[at as int]]));
                    if verify(addr) {
                        let slot: usize = candidates.slot(at);
                        proof {
                            assert(slot == found[at as int]);
                            assert(found.contains(slot as int));
                            lemma_matching(self.words@, self.mask, key, slot as int);
                        }
                        return Some(slot);
                    }
                    at += 1;
                }
                None
            },
        }
    }

    /// Where the key's record is, as far as the index and the verifier can say.
    pub fn addr_of<F: Fn(RecordAddr) -> bool>(&self, key: TxId, verify: &F) -> (addr: Option<
        RecordAddr,
    >)
        requires
            self.wf(),
            answers(self.words(), self.mask(), key, *verify),
        ensures
            exists|settled: Option<int>| #[trigger]
                settles(self.words(), self.mask(), key, *verify, settled) && addr == match settled {
                    Some(at) => Some(address_of(self.words()[at])),
                    None => None,
                },
    {
        match self.resolve(key, verify) {
            Some(slot) => {
                assert(settles(self.words@, self.mask, key, *verify, Some(slot as int)));
                Some(slot_address(self.words[slot]))
            },
            None => {
                assert(settles(self.words@, self.mask, key, *verify, None));
                None
            },
        }
    }

    fn slot_at(&self, key: TxId, addr: RecordAddr) -> (at: Option<usize>)
        requires
            self.wf(),
        ensures
            match at {
                Some(at) => pointing(self.words(), self.mask(), key, addr).len() > 0 && at == pointing(
                    self.words(),
                    self.mask(),
                    key,
                    addr,
                )[0] && within_reach(self.words(), self.mask(), key, at as int) && address_of(
                    self.words()[at as int],
                ) == addr,
                None => pointing(self.words(), self.mask(), key, addr).len() == 0,
            },
    {
        proof {
            self.lemma_wf();
            lemma_buckets(key, self.mask);
        }
        let (fp, first, second) = locate(key, self.mask);
        let length: usize = self.words.len();
        let ghost slots = probe(key, self.mask);
        let ghost which = |s: int| self.words@[s] != EMPTY && address_of(self.words@[s]) == addr;
        let mut n: usize = 0;
        assert(slots.subrange(0, 0).filter(which) =~= Seq::empty());
        while n < 8
            invariant
                n <= 8,
                self.words@.len() == 4 * (self.mask + 1) == length,
                slots == probe(key, self.mask),
                which == |s: int| self.words@[s] != EMPTY && address_of(self.words@[s]) == addr,
                fp == fingerprint(key),
                first == home(key, self.mask) && first <= self.mask,
                second == alternate(first, fp, self.mask) && second <= self.mask,
                slots.subrange(0, n as int).filter(which).len() == 0,
            decreases 8 - n,
        {
            let at: usize = if n < 4 {
                first as usize * 4 + n
            } else {
                second as usize * 4 + (n - 4)
            };
            let slot: u64 = self.words[at];
            assert(slots[n as int] == at);
            proof {
                lemma_filter_one_more(slots, which, n as int);
            }
            if slot != EMPTY && slot_address(slot) == addr {
                proof {
                    lemma_filter_first(slots, which, n as int);
                    assert(pointing(self.words@, self.mask, key, addr) == slots.filter(which));
                }
                return Some(at);
            }
            n += 1;
        }
        assert(slots.subrange(0, 8) =~= slots);
        assert(pointing(self.words@, self.mask, key, addr) == slots.filter(which));
        None
    }

    /// Whether this key's entry points at exactly this address. Read-free and exact: an address
    /// belongs to one record, so no fingerprint collision can make this true by accident.
    pub fn points_at(&self, key: TxId, addr: RecordAddr) -> (points: bool)
        requires
            self.wf(),
        ensures
            points == (pointing(self.words(), self.mask(), key, addr).len() > 0),
    {
        self.slot_at(key, addr).is_some()
    }

    /// Moves a key's entry from one address to another, which is what compaction does to a survivor.
    /// False means the index did not point at `from`.
    pub fn replace(&mut self, key: TxId, from: RecordAddr, to: RecordAddr) -> (replaced: bool)
        requires
            old(self).wf(),
            to.fits(),
        ensures
            final(self).wf(),
            final(self).mask() == old(self).mask(),
            final(self).same_snapshot(old(self)),
            ({
                let found = pointing(old(self).words(), old(self).mask(), key, from);
                &&& replaced == (found.len() > 0)
                &&& final(self).words() == if replaced {
                    old(self).words().update(found[0], repointed(old(self).words()[found[0]], to))
                } else {
                    old(self).words()
                }
            }),
            final(self).spec_ambiguous() == old(self).spec_ambiguous(),
            final(self).same_walk(old(self)),
            final(self).aside().dom() == if replaced {
                old(self).aside_with(
                    pointing(old(self).words(), old(self).mask(), key, from)[0] / 4,
                )
            } else {
                old(self).aside().dom()
            },
    {
        proof {
            self.lemma_counters(self);
            assert(self.same_snapshot(self)) by {
                reveal(HoldTable::only_words);
            }
        }
        match self.slot_at(key, from) {
            Some(at) => {
                self.repoint_at(at, to);
                true
            },
            None => false,
        }
    }

    /// Points the entry in a slot at another address.
    pub(crate) fn repoint_at(&mut self, at: usize, addr: RecordAddr)
        requires
            old(self).wf(),
            at < old(self).words().len(),
            old(self).words()[at as int] != EMPTY,
            addr.fits(),
        ensures
            final(self).wf(),
            final(self).mask() == old(self).mask(),
            final(self).same_snapshot(old(self)),
            final(self).words() == old(self).words().update(
                at as int,
                repointed(old(self).words()[at as int], addr),
            ),
            final(self).spec_ambiguous() == old(self).spec_ambiguous(),
            final(self).same_walk(old(self)),
            final(self).aside().dom() == old(self).aside_with(at as int / 4),
    {
        let slot: u64 = self.words[at];
        proof {
            lemma_word(slot);
            lemma_packed(fingerprint_of(slot), is_marked(slot), addr);
        }
        let word: u64 = pack(slot_fingerprint(slot), slot_is_marked(slot), addr);
        self.set_slot(at, word);
        assert(self.same_snapshot(old(self))) by {
            reveal(HoldTable::only_words);
        }
    }

    /// The address in a slot.
    pub(crate) fn address_at(&self, at: usize) -> (addr: RecordAddr)
        requires
            at < self.words().len(),
        ensures
            addr == address_of(self.words()[at as int]),
    {
        slot_address(self.words[at])
    }

    /// Clears a slot outright: there is no probe sequence for a removal to interrupt.
    pub(crate) fn clear_at(&mut self, at: usize) -> (addr: RecordAddr)
        requires
            old(self).wf(),
            at < old(self).words().len(),
            old(self).words()[at as int] != EMPTY,
        ensures
            final(self).wf(),
            final(self).mask() == old(self).mask(),
            final(self).same_snapshot(old(self)),
            final(self).words() == old(self).words().update(at as int, EMPTY),
            final(self).spec_len() == old(self).spec_len() - 1,
            addr == address_of(old(self).words()[at as int]),
            final(self).spec_ambiguous() == old(self).spec_ambiguous(),
            final(self).same_walk(old(self)),
            final(self).aside().dom() == old(self).aside_with(at as int / 4),
    {
        let slot: u64 = self.words[at];
        proof {
            lemma_count_update(self.words@, occupied(), at as int, EMPTY);
        }
        self.set_slot(at, EMPTY);
        assert(self.same_snapshot(old(self))) by {
            reveal(HoldTable::only_words);
        }
        slot_address(slot)
    }
}

proof fn lemma_filter_first(slots: Seq<int>, which: spec_fn(int) -> bool, n: int)
    requires
        0 <= n < slots.len(),
        slots.subrange(0, n).filter(which).len() == 0,
        which(slots[n]),
    ensures
        slots.filter(which).len() > 0,
        slots.filter(which)[0] == slots[n],
{
    lemma_filter_one_more(slots, which, n);
    let head = slots.subrange(0, n + 1);
    let tail = slots.subrange(n + 1, slots.len() as int);
    assert(slots =~= head + tail);
    Seq::filter_distributes_over_add(head, tail, which);
}

impl HoldTable {
    /// Points a key the store already holds at a new address. A partial resolution takes this path:
    /// the record is appended again and the index follows it. The verifier is asked only when the
    /// fingerprint turns out to be shared. False means that no slot is the key's.
    pub fn repoint<F: Fn(RecordAddr) -> bool>(
        &mut self,
        key: TxId,
        addr: RecordAddr,
        verify: &F,
    ) -> (repointed_one: bool)
        requires
            old(self).wf(),
            addr.fits(),
            answers(old(self).words(), old(self).mask(), key, *verify),
        ensures
            final(self).wf(),
            final(self).mask() == old(self).mask(),
            final(self).same_snapshot(old(self)),
            exists|settled: Option<int>| #[trigger]
                settles(old(self).words(), old(self).mask(), key, *verify, settled) && repointed_one
                    == (settled is Some) && final(self).words() == match settled {
                    Some(at) => old(self).words().update(
                        at,
                        repointed(old(self).words()[at], addr),
                    ),
                    None => old(self).words(),
                } && final(self).aside().dom() == match settled {
                    Some(at) => old(self).aside_with(at / 4),
                    None => old(self).aside().dom(),
                },
            final(self).spec_ambiguous() == old(self).spec_ambiguous(),
            final(self).same_walk(old(self)),
    {
        proof {
            self.lemma_counters(self);
            assert(self.same_snapshot(self)) by {
                reveal(HoldTable::only_words);
            }
        }
        match self.resolve(key, verify) {
            Some(at) => {
                assert(settles(self.words@, self.mask, key, *verify, Some(at as int)));
                self.repoint_at(at, addr);
                true
            },
            None => {
                assert(settles(self.words@, self.mask, key, *verify, None));
                false
            },
        }
    }

    /// Clears the key's slot, and answers where its record is. The record itself stays where it is
    /// until its segment expires.
    pub fn remove<F: Fn(RecordAddr) -> bool>(&mut self, key: TxId, verify: &F) -> (addr: Option<
        RecordAddr,
    >)
        requires
            old(self).wf(),
            answers(old(self).words(), old(self).mask(), key, *verify),
        ensures
            final(self).wf(),
            final(self).mask() == old(self).mask(),
            final(self).same_snapshot(old(self)),
            exists|settled: Option<int>| #[trigger]
                settles(old(self).words(), old(self).mask(), key, *verify, settled) && match settled {
                    Some(at) => {
                        &&& addr == Some(address_of(old(self).words()[at]))
                        &&& final(self).words() == old(self).words().update(at, EMPTY)
                        &&& final(self).spec_len() == old(self).spec_len() - 1
                        &&& final(self).aside().dom() == old(self).aside_with(at / 4)
                    },
                    None => addr is None && final(self).words() == old(self).words()
                        && final(self).aside() == old(self).aside(),
                },
            final(self).spec_ambiguous() == old(self).spec_ambiguous(),
            final(self).same_walk(old(self)),
    {
        proof {
            self.lemma_counters(self);
            assert(self.same_snapshot(self)) by {
                reveal(HoldTable::only_words);
            }
        }
        match self.resolve(key, verify) {
            Some(at) => {
                assert(settles(self.words@, self.mask, key, *verify, Some(at as int)));
                Some(self.clear_at(at))
            },
            None => {
                assert(settles(self.words@, self.mask, key, *verify, None));
                None
            },
        }
    }

    /// Inserts that found their fingerprint already there: zero in any table that has not seen a
    /// collision.
    pub fn ambiguous(&self) -> (ambiguous: u64)
        ensures
            ambiguous == self.spec_ambiguous(),
    {
        self.ambiguous
    }

    /// How many entries the table holds.
    pub fn len(&self) -> (len: usize)
        requires
            self.wf(),
        ensures
            len == self.spec_len(),
    {
        proof {
            self.lemma_wf();
        }
        self.live
    }

    pub fn is_empty(&self) -> (empty: bool)
        requires
            self.wf(),
        ensures
            empty == (self.spec_len() == 0),
    {
        self.len() == 0
    }

    /// How many entries have their record in this segment.
    pub fn live_in_segment(&self, segment: u8) -> (live: usize)
        requires
            self.wf(),
            segment < SEGMENT_VALUES,
        ensures
            live == self.spec_live_in(segment as int),
    {
        reveal(HoldTable::wf);
        self.segments[segment as usize]
    }

    /// Whether the per-segment counts still add up to the entries. They do in every table that is well
    /// formed.
    pub fn counts_agree(&self) -> (agree: bool)
        ensures
            agree == (summed(self.tallies()) == self.tally()),
            self.wf() ==> agree,
    {
        let mut sum: u128 = 0;
        let mut segment: usize = 0;
        while segment < self.segments.len()
            invariant
                segment <= self.segments@.len(),
                sum == summed(self.segments@.take(segment as int)),
                sum <= segment * usize::MAX,
            decreases self.segments@.len() - segment,
        {
            proof {
                let more = self.segments@.take(segment + 1);
                assert(more.drop_last() =~= self.segments@.take(segment as int));
                assert(more.last() == self.segments@[segment as int]);
                assert(segment * usize::MAX + usize::MAX <= u128::MAX) by (nonlinear_arith)
                    requires
                        segment < usize::MAX,
                ;
                assert(segment * usize::MAX + usize::MAX == (segment + 1) * usize::MAX)
                    by (nonlinear_arith);
            }
            sum = sum + self.segments[segment] as u128;
            segment += 1;
        }
        proof {
            assert(self.segments@.take(segment as int) =~= self.segments@);
            if self.wf() {
                reveal(HoldTable::wf);
                lemma_counted_all(self.words@);
                lemma_summed(self.words@, self.segments@);
            }
        }
        sum == self.live as u128
    }

    /// Slots, not buckets: what a load factor is measured against.
    pub fn slots(&self) -> (slots: usize)
        ensures
            slots == self.words().len(),
    {
        self.words.len()
    }

    /// What insertion cost in relocations, and the longest cascade seen.
    pub fn kick_stats(&self) -> (stats: (u64, u32))
        ensures
            stats == (self.spec_hops(), self.spec_worst_hops()),
    {
        (self.hops, self.worst_hops)
    }

    pub fn bucket_count(&self) -> (buckets: usize)
        requires
            self.wf(),
        ensures
            buckets == self.mask() + 1,
            buckets * 4 == self.words().len(),
    {
        proof {
            self.lemma_wf();
        }
        self.words.len() / 4
    }

    /// The four words of a bucket.
    pub fn bucket_words(&self, bucket: usize) -> (words: [u64; 4])
        requires
            self.wf(),
            bucket <= self.mask(),
        ensures
            words@ == self.words().subrange(4 * bucket, 4 * bucket + 4),
    {
        proof {
            self.lemma_wf();
        }
        let length: usize = self.words.len();
        let words: [u64; 4] = [
            self.words[4 * bucket],
            self.words[4 * bucket + 1],
            self.words[4 * bucket + 2],
            self.words[4 * bucket + 3],
        ];
        assert(words@ =~= self.words@.subrange(4 * bucket, 4 * bucket + 4));
        words
    }

    /// Puts a bucket's four words back. False means that there is no such bucket.
    pub fn restore_bucket(&mut self, bucket: usize, words: [u64; 4]) -> (restored: bool)
        requires
            old(self).wf(),
        ensures
            final(self).wf(),
            final(self).mask() == old(self).mask(),
            final(self).same_snapshot(old(self)),
            restored == (bucket <= old(self).mask()),
            !restored ==> final(self).words() == old(self).words(),
            restored ==> final(self).words() == Seq::new(
                old(self).words().len(),
                |i: int|
                    if i / 4 == bucket {
                        words@[i % 4]
                    } else {
                        old(self).words()[i]
                    },
            ),
            final(self).aside().dom() == if restored {
                old(self).aside_with(bucket as int)
            } else {
                old(self).aside().dom()
            },
            final(self).spec_ambiguous() == old(self).spec_ambiguous(),
            final(self).same_walk(old(self)),
    {
        proof {
            self.lemma_wf();
            self.lemma_counters(self);
            assert(self.same_snapshot(self)) by {
                reveal(HoldTable::only_words);
            }
        }
        let length: usize = self.words.len();
        if bucket >= length / 4 {
            return false;
        }
        let mut way: usize = 0;
        while way < 4
            invariant
                way <= 4,
                self.wf(),
                self.only_words(old(self)),
                self.mask == old(self).mask,
                self.words@.len() == length == 4 * (self.mask + 1),
                bucket < length / 4,
                old(self).words@.len() == length,
                forall|i: int|
                    0 <= i < length ==> #[trigger] self.words@[i] == if i / 4 == bucket && i % 4
                        < way {
                        words@[i % 4]
                    } else {
                        old(self).words@[i]
                    },
                self.ambiguous == old(self).ambiguous,
                self.same_walk(old(self)),
                self.being_read() == old(self).being_read(),
                self.read_through() == old(self).read_through(),
                self.aside().dom() == if way == 0 {
                    old(self).aside().dom()
                } else {
                    old(self).aside_with(bucket as int)
                },
            decreases 4 - way,
        {
            let ghost was = *self;
            self.set_slot(4 * bucket + way, words[way]);
            proof {
                self.lemma_only_words(&was, old(self));
                assert(self.same_snapshot(&was)) by {
                    reveal(HoldTable::only_words);
                }
                assert((4 * bucket + way) as int / 4 == bucket);
                assert(self.aside().dom() =~= old(self).aside_with(bucket as int));
            }
            way += 1;
        }
        assert(self.words@ =~= Seq::new(
            old(self).words().len(),
            |i: int|
                if i / 4 == bucket {
                    words@[i % 4]
                } else {
                    old(self).words()[i]
                },
        ));
        assert(self.same_snapshot(old(self))) by {
            reveal(HoldTable::only_words);
        }
        true
    }

    /// Starts a stable read of the table: from here on the snapshot is the table as it now stands,
    /// whatever is written while it is read.
    pub fn begin_snapshot(&mut self)
        requires
            old(self).wf(),
        ensures
            final(self).wf(),
            final(self).words() == old(self).words(),
            final(self).mask() == old(self).mask(),
            final(self).being_read(),
            final(self).read_through() == 0,
            final(self).aside() == Map::<u64, [u64; 4]>::empty(),
            forall|i: int|
                0 <= i < final(self).words().len() ==> #[trigger] final(self).snapshot_word(i)
                    == old(self).words()[i],
            final(self).spec_ambiguous() == old(self).spec_ambiguous(),
            final(self).same_walk(old(self)),
    {
        reveal(HoldTable::wf);
        self.reading = true;
        self.cursor = 0;
        self.shadow.clear();
    }

    /// One of the snapshot's buckets, as it was when the read began. Taken in order, a bucket put aside is
    /// let go once it has been taken.
    pub fn take_bucket(&mut self, bucket: usize) -> (words: [u64; 4])
        requires
            old(self).wf(),
            bucket <= old(self).mask(),
        ensures
            final(self).wf(),
            final(self).words() == old(self).words(),
            final(self).mask() == old(self).mask(),
            final(self).being_read() == old(self).being_read(),
            final(self).read_through() == if bucket == old(self).read_through() {
                bucket + 1
            } else {
                old(self).read_through()
            },
            forall|way: int|
                0 <= way < 4 ==> #[trigger] words@[way] == old(self).snapshot_word(4 * bucket + way),
            forall|i: int|
                0 <= i < final(self).words().len() && i / 4 != bucket ==> #[trigger] final(self).snapshot_word(i) == old(self).snapshot_word(i),
            bucket != old(self).read_through() ==> forall|i: int|
                0 <= i < final(self).words().len() ==> #[trigger] final(self).snapshot_word(i) == old(self).snapshot_word(i),
            final(self).spec_ambiguous() == old(self).spec_ambiguous(),
            final(self).same_walk(old(self)),
            final(self).aside() == if bucket == old(self).read_through() {
                old(self).aside().remove(bucket as u64)
            } else {
                old(self).aside()
            },
    {
        reveal(HoldTable::wf);
        let length: usize = self.words.len();
        let number: u64 = bucket as u64;
        let aside: Option<[u64; 4]> = if number == self.cursor {
            self.cursor = number + 1;
            self.shadow.remove(&number)
        } else {
            match self.shadow.get(&number) {
                Some(words) => Some(*words),
                None => None,
            }
        };
        let base: usize = 4 * bucket;
        match aside {
            Some(words) => words,
            None => [
                self.words[base],
                self.words[base + 1],
                self.words[base + 2],
                self.words[base + 3],
            ],
        }
    }

    /// Ends the read, dropping the buckets put aside for it.
    pub fn end_snapshot(&mut self)
        requires
            old(self).wf(),
        ensures
            final(self).wf(),
            final(self).words() == old(self).words(),
            final(self).mask() == old(self).mask(),
            !final(self).being_read(),
            final(self).aside() == Map::<u64, [u64; 4]>::empty(),
            final(self).spec_ambiguous() == old(self).spec_ambiguous(),
            final(self).same_walk(old(self)),
    {
        reveal(HoldTable::wf);
        self.reading = false;
        self.shadow.clear();
    }

    /// Buckets put aside for the snapshot being read.
    pub fn shadowed(&self) -> (shadowed: usize)
        ensures
            shadowed == self.aside().len(),
    {
        self.shadow.len()
    }
}

/// Counts added up.
pub open spec fn summed(counts: Seq<usize>) -> nat
    decreases counts.len(),
{
    if counts.len() == 0 {
        0
    } else {
        summed(counts.drop_last()) + counts.last() as nat
    }
}

/// Counts that are those of the words, by segment, add up to what is counted in as many segments.
proof fn lemma_summed(words: Seq<u64>, counts: Seq<usize>)
    requires
        forall|s: int| 0 <= s < counts.len() ==> #[trigger] counts[s] == count(words, in_segment(s)),
    ensures
        summed(counts) == counted(words, counts.len()),
    decreases counts.len(),
{
    if counts.len() > 0 {
        let rest = counts.drop_last();
        assert forall|s: int| 0 <= s < rest.len() implies #[trigger] rest[s] == count(
            words,
            in_segment(s),
        ) by {
            assert(rest[s] == counts[s]);
        }
        lemma_summed(words, rest);
    }
}

/// No two keys have one address.
pub open spec fn one_key_each(m: Map<TxId, RecordAddr>) -> bool {
    forall|one: TxId, other: TxId| #[trigger]
        m.contains_key(one) && #[trigger] m.contains_key(other) && m[one] == m[other] ==> one == other
}

/// Every key that went in is found: a probe for it turns up a slot with its own address, and where
/// the probe can tell on its own, it tells that slot.
pub proof fn law_every_key_is_found(words: Seq<u64>, mask: u64, m: Map<TxId, RecordAddr>, key: TxId)
    requires
        is_mask(mask),
        words.len() == 4 * (mask + 1),
        stands_for(words, mask, m),
        m.contains_key(key),
    ensures
        exists|n: int|
            0 <= n < matching(words, mask, key).len() && address_of(
                words[#[trigger] matching(words, mask, key)[n]],
            ) == m[key],
        known_slot(words, mask, key) matches Some(at) ==> address_of(words[at]) == m[key],
        pointing(words, mask, key, m[key]).len() > 0,
{
    let words_of = choose|words_of: Map<TxId, u64>| #[trigger]
        named(words_of, mask) && whole(words, mask, words_of) && m == addresses(words_of);
    assert(words_of.contains_key(key));
    let at = lemma_seat(words, mask, words_of, key);
    lemma_matching(words, mask, key, at);
    let found = matching(words, mask, key);
    let n = choose|n: int| 0 <= n < found.len() && found[n] == at;
    assert(found[n] == at);
    lemma_pointing(words, mask, key, m[key], at);
}

/// A slot within a key's reach that carries an address is turned up by a probe for that address.
pub proof fn lemma_pointing(words: Seq<u64>, mask: u64, key: TxId, addr: RecordAddr, at: int)
    requires
        is_mask(mask),
        words.len() == 4 * (mask + 1),
        within_reach(words, mask, key, at),
        address_of(words[at]) == addr,
    ensures
        pointing(words, mask, key, addr).len() > 0,
{
    broadcast use vstd::seq_lib::group_filter_ensures;

    lemma_buckets(key, mask);
    let slots = probe(key, mask);
    let n = if at / 4 == home(key, mask) {
        at % 4
    } else {
        4 + at % 4
    };
    assert(slots[n] == at);
    let which = |s: int| words[s] != EMPTY && address_of(words[s]) == addr;
    assert(which(slots[n]));
    assert(slots.filter(which).contains(slots[n]));
}

/// The first slot a probe for an address turns up is within the key's reach and carries the address.
pub proof fn lemma_pointing_first(words: Seq<u64>, mask: u64, key: TxId, addr: RecordAddr)
    requires
        is_mask(mask),
        words.len() == 4 * (mask + 1),
        pointing(words, mask, key, addr).len() > 0,
    ensures
        within_reach(words, mask, key, pointing(words, mask, key, addr)[0]),
        address_of(words[pointing(words, mask, key, addr)[0]]) == addr,
{
    broadcast use vstd::seq_lib::group_filter_ensures;

    lemma_buckets(key, mask);
    let slots = probe(key, mask);
    let which = |s: int| words[s] != EMPTY && address_of(words[s]) == addr;
    let found = slots.filter(which);
    assert(found == pointing(words, mask, key, addr));
    let at = found[0];
    assert(found.contains(at));
    slots.lemma_filter_contains_rev(which, at);
    let n = choose|n: int| 0 <= n < slots.len() && slots[n] == at;
    assert(slots[n] == at);
    assert(which(found[0]));
}

/// The slot is the key's: the words alone know it, or it carries the key's address and no two keys
/// have one address.
pub open spec fn is_own(
    words: Seq<u64>,
    mask: u64,
    m: Map<TxId, RecordAddr>,
    key: TxId,
    at: int,
) -> bool {
    &&& within_reach(words, mask, key, at)
    &&& known_slot(words, mask, key) == Some(at) || (one_key_each(m) && address_of(words[at]) == m[key])
}

/// Clearing a key's own slot takes the key out of the map and touches no other key: removing one of
/// a colliding pair leaves the other.
pub proof fn law_a_removal_takes_one_key(
    words: Seq<u64>,
    mask: u64,
    m: Map<TxId, RecordAddr>,
    key: TxId,
    at: int,
)
    requires
        is_mask(mask),
        words.len() == 4 * (mask + 1),
        stands_for(words, mask, m),
        m.contains_key(key),
        is_own(words, mask, m, key, at),
    ensures
        stands_for(words.update(at, EMPTY), mask, m.remove(key)),
{
    let words_of = choose|words_of: Map<TxId, u64>| #[trigger]
        named(words_of, mask) && whole(words, mask, words_of) && m == addresses(words_of);
    assert(words_of.contains_key(key));
    let k = lemma_clear(words, mask, words_of, at);
    lemma_own_is_the_keys(words, mask, m, words_of, key, at, k);
    let rest = words_of.remove(k);
    assert(m.remove(key) =~= addresses(rest));
    assert(named(rest, mask) && whole(words.update(at, EMPTY), mask, rest) && m.remove(key)
        == addresses(rest));
}

/// The table counts its keys: it has as many entries as there are keys that it stands for.
pub proof fn law_the_table_counts_its_keys(words: Seq<u64>, mask: u64, m: Map<TxId, RecordAddr>)
    requires
        stands_for(words, mask, m),
    ensures
        m.dom().finite(),
        m.len() == count(words, occupied()),
    decreases count(words, occupied()),
{
    let words_of = choose|words_of: Map<TxId, u64>| #[trigger]
        named(words_of, mask) && whole(words, mask, words_of) && m == addresses(words_of);
    let p = choose|p: Placement| #[trigger] seated(words, mask, words_of, p, None);
    lemma_count_none(words, occupied());
    if count(words, occupied()) == 0 {
        assert forall|k: TxId| !m.dom().contains(k) by {
            if words_of.contains_key(k) {
                assert(p.pos.contains_key(k));
                assert(occupied()(words[p.pos[k]]));
            }
        }
        assert(m.dom() =~= Set::<TxId>::empty());
    } else {
        let at = choose|at: int| 0 <= at < words.len() && occupied()(#[trigger] words[at]);
        let k = lemma_clear(words, mask, words_of, at);
        let rest = words_of.remove(k);
        let fewer = m.remove(k);
        assert(fewer =~= addresses(rest));
        lemma_count_update(words, occupied(), at, EMPTY);
        assert(named(rest, mask) && whole(words.update(at, EMPTY), mask, rest) && fewer == addresses(
            rest,
        ));
        law_the_table_counts_its_keys(words.update(at, EMPTY), mask, fewer);
        assert(m.dom().contains(k));
        assert(m.dom() =~= fewer.dom().insert(k));
    }
}

/// A table with fewer entries than a bucket has slots lets any key in: one of the key's slots is empty.
pub proof fn law_a_table_with_few_entries_has_room(words: Seq<u64>, mask: u64, key: TxId)
    requires
        is_mask(mask),
        words.len() == 4 * (mask + 1),
        count(words, occupied()) < 4,
    ensures
        exists|i: int| 0 <= i < words.len() && in_pair(key, i / 4, mask) && #[trigger] words[i] == EMPTY,
{
    lemma_buckets(key, mask);
    let first = 4 * home(key, mask) as int;
    if words[first] != EMPTY && words[first + 1] != EMPTY && words[first + 2] != EMPTY && words[first + 3]
        != EMPTY {
        let one = words.update(first, EMPTY);
        let two = one.update(first + 1, EMPTY);
        let three = two.update(first + 2, EMPTY);
        lemma_count_update(words, occupied(), first, EMPTY);
        lemma_count_update(one, occupied(), first + 1, EMPTY);
        lemma_count_update(two, occupied(), first + 2, EMPTY);
        lemma_count_update(three, occupied(), first + 3, EMPTY);
    } else {
        assert(first / 4 == home(key, mask));
        assert((first + 1) / 4 == home(key, mask));
        assert((first + 2) / 4 == home(key, mask));
        assert((first + 3) / 4 == home(key, mask));
        if words[first] == EMPTY {
        } else if words[first + 1] == EMPTY {
        } else if words[first + 2] == EMPTY {
        } else {
            assert(words[first + 3] == EMPTY);
        }
    }
}

/// A verifier that tells a key's address from every other.
pub open spec fn tells<F: Fn(RecordAddr) -> bool>(verify: F, addr: RecordAddr) -> bool {
    forall|asked: RecordAddr, yes: bool| #[trigger]
        call_ensures(verify, (asked,), yes) ==> yes == (asked == addr)
}

/// A removed key is not found, and so not removed again: once its slot is cleared, resolving it comes to
/// nothing. Whoever shares its fingerprint is marked, so the verifier is asked about them and says no.
pub proof fn law_a_removed_key_is_not_found<F: Fn(RecordAddr) -> bool>(
    words: Seq<u64>,
    mask: u64,
    m: Map<TxId, RecordAddr>,
    key: TxId,
    at: int,
    verify: F,
    settled: Option<int>,
)
    requires
        is_mask(mask),
        words.len() == 4 * (mask + 1),
        stands_for(words, mask, m),
        one_key_each(m),
        m.contains_key(key),
        is_own(words, mask, m, key, at),
        tells(verify, m[key]),
        settles(words.update(at, EMPTY), mask, key, verify, settled),
    ensures
        settled is None,
        known_slot(words.update(at, EMPTY), mask, key) is None,
{
    let words_of = choose|words_of: Map<TxId, u64>| #[trigger]
        named(words_of, mask) && whole(words, mask, words_of) && m == addresses(words_of);
    assert(words_of.contains_key(key));
    let k = lemma_clear(words, mask, words_of, at);
    lemma_own_is_the_keys(words, mask, m, words_of, key, at, k);
    let rest = words_of.remove(key);
    let after = words.update(at, EMPTY);
    let found = matching(after, mask, key);
    assert forall|n: int| 0 <= n < found.len() implies is_marked(after[#[trigger] found[n]]) && address_of(
        after[found[n]],
    ) != m[key] by {
        assert(found.contains(found[n]));
        lemma_matching(after, mask, key, found[n]);
        let other = lemma_clear(after, mask, rest, found[n]);
        assert(words_of.contains_key(other) && other != key);
        lemma_clash(other, key, found[n] / 4, mask);
        assert(m.contains_key(other) && m[other] == address_of(after[found[n]]));
    }
    assert(known_slot(after, mask, key) is None);
    match settled {
        Some(slot) => {
            let n = choose|n: int|
                #![trigger found[n]]
                0 <= n < found.len() && slot == found[n] && call_ensures(
                    verify,
                    (address_of(after[found[n]]),),
                    true,
                ) && forall|j: int|
                    0 <= j < n ==> call_ensures(verify, (address_of(after[#[trigger] found[j]]),), false);
            assert(false);
        },
        None => {},
    }
}

/// Writing another address into a key's own slot moves that key and no other.
pub proof fn law_a_repoint_moves_one_key(
    words: Seq<u64>,
    mask: u64,
    m: Map<TxId, RecordAddr>,
    key: TxId,
    at: int,
    addr: RecordAddr,
)
    requires
        is_mask(mask),
        words.len() == 4 * (mask + 1),
        stands_for(words, mask, m),
        m.contains_key(key),
        addr.fits(),
        is_own(words, mask, m, key, at),
    ensures
        stands_for(words.update(at, repointed(words[at], addr)), mask, m.insert(key, addr)),
{
    let words_of = choose|words_of: Map<TxId, u64>| #[trigger]
        named(words_of, mask) && whole(words, mask, words_of) && m == addresses(words_of);
    assert(words_of.contains_key(key));
    let slot = repointed(words[at], addr);
    lemma_word(words[at]);
    lemma_packed(fingerprint_of(words[at]), is_marked(words[at]), addr);
    let cleared = lemma_clear(words, mask, words_of, at);
    lemma_fingerprint(cleared);
    assert(fingerprint_of(words[at]) == fingerprint(cleared));
    let k = lemma_rewrite(words, mask, words_of, at, slot);
    lemma_own_is_the_keys(words, mask, m, words_of, key, at, k);
    let next = words_of.insert(k, slot);
    assert(m.insert(key, addr) =~= addresses(next));
    assert(named(next, mask) && whole(words.update(at, slot), mask, next) && m.insert(key, addr)
        == addresses(next));
}

proof fn lemma_own_is_the_keys(
    words: Seq<u64>,
    mask: u64,
    m: Map<TxId, RecordAddr>,
    words_of: Map<TxId, u64>,
    key: TxId,
    at: int,
    k: TxId,
)
    requires
        is_mask(mask),
        words.len() == 4 * (mask + 1),
        named(words_of, mask),
        m == addresses(words_of),
        m.contains_key(key),
        is_own(words, mask, m, key, at),
        words_of.contains_key(k),
        words_of[k] == words[at],
        in_pair(k, at / 4, mask),
    ensures
        k == key,
{
    assert(m.contains_key(k) && m[k] == address_of(words[at]));
    if known_slot(words, mask, key) == Some(at) {
        let found = matching(words, mask, key);
        assert(found.contains(found[0]));
        lemma_matching(words, mask, key, at);
        if k != key {
            lemma_clash(k, key, at / 4, mask);
            assert(words_of.contains_key(key));
        }
    }
}

/// A key is looked for in eight places, four in each of its two buckets, and those that could be its own are
/// exactly the ones that carry its fingerprint.
pub proof fn law_a_key_is_looked_for_where_it_could_be(words: Seq<u64>, mask: u64, key: TxId, at: int)
    requires
        is_mask(mask),
        words.len() == 4 * (mask + 1),
    ensures
        matching(words, mask, key).contains(at) <==> {
            &&& 0 <= at < words.len()
            &&& words[at] != EMPTY
            &&& fingerprint_of(words[at]) == fingerprint(key)
            &&& at / 4 == home(key, mask) || at / 4 == alternate(
                home(key, mask),
                fingerprint(key),
                mask,
            )
        },
        known_slot(words, mask, key) == Some(at) ==> matching(words, mask, key).contains(at) && !is_marked(
            words[at],
        ),
        known_slot(words, mask, key) == Some(at) ==> forall|other: int| #[trigger]
            matching(words, mask, key).contains(other) ==> other == at,
{
    lemma_matching(words, mask, key, at);
    let found = matching(words, mask, key);
    if known_slot(words, mask, key) == Some(at) {
        assert(found[0] == at);
        assert forall|other: int| #[trigger] found.contains(other) implies other == at by {
            let i = choose|i: int| 0 <= i < found.len() && found[i] == other;
            assert(i == 0);
        }
    }
}

/// A slot that is pointed elsewhere keeps its fingerprint and its mark.
pub proof fn law_a_repointed_slot_keeps_the_rest(slot: u64, addr: RecordAddr)
    requires
        addr.fits(),
    ensures
        address_of(repointed(slot, addr)) == addr,
        fingerprint_of(repointed(slot, addr)) == fingerprint_of(slot),
        is_marked(repointed(slot, addr)) == is_marked(slot),
{
    lemma_word(slot);
    lemma_packed(fingerprint_of(slot), is_marked(slot), addr);
}

/// While a table is read through, what is read of a bucket is what was set aside of it, and what the table has
/// of a bucket nothing was set aside of.
pub proof fn law_what_was_set_aside_is_what_is_read(table: &HoldTable, at: int)
    requires
        0 <= at,
        at / 4 <= u64::MAX,
    ensures
        !table.aside().contains_key((at / 4) as u64) ==> table.snapshot_word(at) == table.words()[at],
        table.aside().contains_key((at / 4) as u64) ==> table.snapshot_word(at) == table.aside()[(at
            / 4) as u64]@[at % 4],
        table.aside().len() == 0 && table.aside().dom().finite() ==> table.snapshot_word(at)
            == table.words()[at],
{
    if table.aside().contains_key((at / 4) as u64) && table.aside().dom().finite() {
        assert(table.aside().dom().contains((at / 4) as u64));
        if table.aside().len() == 0 {
            assert(table.aside().dom() =~= Set::<u64>::empty());
        }
    }
}

/// A bucket is set aside before it changes if it is still to be read, and not otherwise.
pub proof fn law_a_bucket_is_set_aside_only_if_it_is_still_to_be_read(table: &HoldTable, bucket: int)
    requires
        0 <= bucket <= u64::MAX,
    ensures
        table.being_read() && table.read_through() <= bucket ==> table.aside_with(bucket).contains(
            bucket as u64,
        ),
        !table.being_read() || bucket < table.read_through() ==> table.aside_with(bucket)
            == table.aside().dom(),
        forall|other: u64|
            other != bucket ==> (#[trigger] table.aside_with(bucket).contains(other)
                <==> table.aside().contains_key(other)),
{
}

/// A table has the fewest buckets that hold the slots asked for, as a power of two and never fewer than two.
pub proof fn law_a_table_is_no_larger_than_it_must_be(table: &HoldTable, slots: usize)
    requires
        table.sized_for(slots),
    ensures
        table.words().len() >= slots,
        table.words().len() >= 8,
        table.words().len() > 8 ==> table.words().len() / 2 < slots,
        table.words().len() % 4 == 0,
{
}

/// Counts are added up one after the other, and nothing adds up to nothing.
pub proof fn law_counts_add_up(counts: Seq<usize>, more: usize)
    ensures
        summed(Seq::<usize>::empty()) == 0,
        summed(counts.push(more)) == summed(counts) + more,
{
    assert(counts.push(more).drop_last() =~= counts);
}

} // verus!
