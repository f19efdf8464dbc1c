//! How far a newcomer to a full pair of buckets has to move others: the cascade is settled by what is in the
//! buckets and by the generator that picks which entry gives way, so it is the same whenever those are.

use vstd::prelude::*;

use crate::prng::{mixed, stepped};
use crate::slots::{alternate, fingerprint_of, EMPTY};

verus! {

/// What the cascade looks at of a table: the fingerprint in each slot, and which slots are empty. Marks and
/// addresses are nothing to it.
#[verifier::opaque]
pub open spec fn fingerprints(words: Seq<u64>) -> Seq<Option<u64>> {
    words.map_values(
        |word: u64|
            if word == EMPTY {
                None
            } else {
                Some(fingerprint_of(word))
            },
    )
}

pub proof fn lemma_fingerprint_at(words: Seq<u64>, at: int)
    requires
        0 <= at < words.len(),
    ensures
        fingerprints(words).len() == words.len(),
        fingerprints(words)[at] == if words[at] == EMPTY {
            None
        } else {
            Some(fingerprint_of(words[at]))
        },
{
    reveal(fingerprints);
}

pub proof fn lemma_fingerprints_update(words: Seq<u64>, at: int, word: u64)
    requires
        0 <= at < words.len(),
        word != EMPTY,
    ensures
        fingerprints(words.update(at, word)) == fingerprints(words).update(
            at,
            Some(fingerprint_of(word)),
        ),
{
    reveal(fingerprints);
    assert(fingerprints(words.update(at, word)) =~= fingerprints(words).update(
        at,
        Some(fingerprint_of(word)),
    ));
}

/// A bucket has room exactly when one of its words is empty.
pub proof fn lemma_has_room(words: Seq<u64>, bucket: u64)
    ensures
        has_room(fingerprints(words), bucket) <==> exists|at: int|
            0 <= at < words.len() && at / 4 == bucket && #[trigger] words[at] == EMPTY,
{
    reveal(fingerprints);
    reveal(has_room);
    let fps = fingerprints(words);
    if exists|at: int| 0 <= at < words.len() && at / 4 == bucket && #[trigger] words[at] == EMPTY {
        let at = choose|at: int|
            0 <= at < words.len() && at / 4 == bucket && #[trigger] words[at] == EMPTY;
        assert(fps[at] is None);
    }
    if has_room(fps, bucket) {
        let at = choose|at: int| 0 <= at < fps.len() && at / 4 == bucket && (#[trigger] fps[at]) is None;
        assert(words[at] == EMPTY);
    }
}

/// Some slot of a bucket is empty.
#[verifier::opaque]
pub open spec fn has_room(fps: Seq<Option<u64>>, bucket: u64) -> bool {
    exists|at: int| 0 <= at < fps.len() && at / 4 == bucket && (#[trigger] fps[at]) is None
}

/// The entry in this way of a bucket has its other home elsewhere than where the cascade came from.
pub open spec fn leads_on(
    fps: Seq<Option<u64>>,
    mask: u64,
    bucket: u64,
    came_from: u64,
    way: int,
) -> bool {
    alternate(bucket, fps[bucket * 4 + way]->0, mask) != came_from
}

/// Which way a full bucket gives up, from where the generator says to begin: the first whose entry leads
/// on, and the one it began at if none does.
#[verifier::opaque]
pub open spec fn gives_up(
    fps: Seq<Option<u64>>,
    mask: u64,
    bucket: u64,
    came_from: u64,
    start: int,
) -> int {
    if leads_on(fps, mask, bucket, came_from, start) {
        start
    } else if leads_on(fps, mask, bucket, came_from, (start + 1) % 4) {
        (start + 1) % 4
    } else if leads_on(fps, mask, bucket, came_from, (start + 2) % 4) {
        (start + 2) % 4
    } else if leads_on(fps, mask, bucket, came_from, (start + 3) % 4) {
        (start + 3) % 4
    } else {
        start
    }
}

/// How many entries move before one finds an empty slot, when an entry with this fingerprint has been
/// turned away from this bucket and no more than so many may move. `None` when none does.
#[verifier::opaque]
pub open spec fn cascade(
    fps: Seq<Option<u64>>,
    mask: u64,
    hand: u64,
    bucket: u64,
    came_from: u64,
    left: nat,
    draws: u64,
) -> Option<nat>
    decreases left,
{
    if left == 0 {
        None
    } else {
        let way = gives_up(fps, mask, bucket, came_from, (mixed(stepped(draws)) % 4) as int);
        let out = fps[bucket * 4 + way]->0;
        let after = fps.update(bucket * 4 + way, Some(hand));
        let next = alternate(bucket, out, mask);
        if has_room(after, next) {
            Some(1)
        } else {
            match cascade(after, mask, out, next, bucket, (left - 1) as nat, stepped(draws)) {
                Some(moves) => Some(moves + 1),
                None => None,
            }
        }
    }
}

/// How many entries move to let one in whose buckets are these. `None` when it cannot be let in.
pub open spec fn moves_for(
    fps: Seq<Option<u64>>,
    mask: u64,
    fingerprint: u64,
    first: u64,
    second: u64,
    most: nat,
    draws: u64,
) -> Option<nat> {
    if has_room(fps, first) || has_room(fps, second) {
        Some(0)
    } else {
        cascade(fps, mask, fingerprint, first, second, most, draws)
    }
}

/// The generator once it has been drawn from so many times.
pub open spec fn drawn_on(draws: u64, times: nat) -> u64
    decreases times,
{
    if times == 0 {
        draws
    } else {
        stepped(drawn_on(draws, (times - 1) as nat))
    }
}

/// A cascade moves no more entries than it may, and at least one: an insert is bounded whatever the table holds.
pub proof fn law_a_cascade_moves_no_more_than_it_may(
    fps: Seq<Option<u64>>,
    mask: u64,
    hand: u64,
    bucket: u64,
    came_from: u64,
    left: nat,
    draws: u64,
)
    ensures
        cascade(fps, mask, hand, bucket, came_from, left, draws) matches Some(moves) ==> 1 <= moves
            <= left,
    decreases left,
{
    reveal_with_fuel(cascade, 1);
    if left > 0 {
        let way = gives_up(fps, mask, bucket, came_from, (mixed(stepped(draws)) % 4) as int);
        let out = fps[bucket * 4 + way]->0;
        let after = fps.update(bucket * 4 + way, Some(hand));
        let next = alternate(bucket, out, mask);
        law_a_cascade_moves_no_more_than_it_may(after, mask, out, next, bucket, (left - 1) as nat, stepped(draws));
    }
}

/// The way that gives up its entry is the drawn one, or the first after it whose entry can go somewhere other
/// than where the one in hand came from. If none can, it is the drawn one all the same.
pub proof fn law_the_first_way_that_leads_on_gives_up(
    fps: Seq<Option<u64>>,
    mask: u64,
    bucket: u64,
    came_from: u64,
    start: int,
    further: int,
)
    requires
        0 <= start < 4,
        0 <= further < 4,
    ensures
        ({
            let way = gives_up(fps, mask, bucket, came_from, start);
            &&& 0 <= way < 4
            &&& leads_on(fps, mask, bucket, came_from, (start + further) % 4) ==> {
                &&& alternate(bucket, fps[bucket * 4 + way]->0, mask) != came_from
                &&& (way - start) % 4 <= further
            }
            &&& alternate(bucket, fps[bucket * 4 + way]->0, mask) == came_from ==> way == start
        }),
{
    reveal(gives_up);
}

/// A bucket has room exactly if one of its four places is free, and an entry that has room in either of its
/// buckets moves nothing.
pub proof fn law_a_free_place_moves_nothing(
    fps: Seq<Option<u64>>,
    mask: u64,
    fingerprint: u64,
    first: u64,
    second: u64,
    most: nat,
    draws: u64,
)
    requires
        first * 4 + 4 <= fps.len(),
        second * 4 + 4 <= fps.len(),
    ensures
        has_room(fps, first) <==> fps[first * 4] is None || fps[first * 4 + 1] is None || fps[first * 4
            + 2] is None || fps[first * 4 + 3] is None,
        has_room(fps, first) || has_room(fps, second) ==> moves_for(
            fps,
            mask,
            fingerprint,
            first,
            second,
            most,
            draws,
        ) == Some(0nat),
        !has_room(fps, first) && !has_room(fps, second) ==> (moves_for(
            fps,
            mask,
            fingerprint,
            first,
            second,
            most,
            draws,
        ) matches Some(moves) ==> 1 <= moves <= most),
        most == 0 && !has_room(fps, first) && !has_room(fps, second) ==> moves_for(
            fps,
            mask,
            fingerprint,
            first,
            second,
            most,
            draws,
        ) is None,
{
    reveal(has_room);
    law_a_cascade_moves_no_more_than_it_may(fps, mask, fingerprint, first, second, most, draws);
    let b = first * 4;
    if fps[b] is None {
        assert(b / 4 == first);
    }
    if fps[b + 1] is None {
        assert((b + 1) / 4 == first);
    }
    if fps[b + 2] is None {
        assert((b + 2) / 4 == first);
    }
    if fps[b + 3] is None {
        assert((b + 3) / 4 == first);
    }
    if has_room(fps, first) {
        let at = choose|at: int| 0 <= at < fps.len() && at / 4 == first && (#[trigger] fps[at]) is None;
        assert(at == b || at == b + 1 || at == b + 2 || at == b + 3);
    }
}

/// A word is told apart by its fingerprint, and an empty place by having none.
pub proof fn law_a_place_is_free_if_its_word_is_empty(words: Seq<u64>, at: int)
    requires
        0 <= at < words.len(),
    ensures
        fingerprints(words).len() == words.len(),
        fingerprints(words)[at] is None <==> words[at] == EMPTY,
        fingerprints(words)[at] matches Some(fingerprint) ==> fingerprint == fingerprint_of(words[at]),
{
    reveal(fingerprints);
}

} // verus!
