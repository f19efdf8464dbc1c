//! What the read cache keeps, what it forgets, and whom it answers.

use vstd::prelude::*;

use crate::address::ObjectId;
use crate::cache::{
    answers, answers_as, answers_here, brought, closed_for, forgets, has_place, kept_last, on_its_way, read_again,
    sorted_out, takes_read, under_others, without, Cached, Entry, Issued,
};
use crate::store::{Asked, Call, DurableStore, Reply, StoreFault};

verus! {

/// A block that is read again is the last to leave, and nothing else moves past another.
pub proof fn law_a_block_read_again_leaves_last(entries: Seq<Entry>, at: int, i: int)
    requires
        0 <= at < entries.len(),
        0 <= i < entries.len(),
    ensures
        read_again(entries, at).len() == entries.len(),
        read_again(entries, at).last() == entries[at],
        i < at ==> read_again(entries, at)[i] == entries[i],
        i > at ==> read_again(entries, at)[i - 1] == entries[i],
{
}

/// A block that was read is kept, the last to leave, if there is room for any; to make room only the one that
/// was read longest ago goes; and a block that is kept already is not kept twice.
pub proof fn law_a_block_that_was_read_is_kept(
    was: Seq<Entry>,
    now: Seq<Entry>,
    room: usize,
    object: ObjectId,
    offset: u64,
    bytes: Seq<u8>,
    i: int,
)
    requires
        kept_last(was, now, room, object, offset, bytes),
        was.len() <= room,
        0 <= i < was.len(),
    ensures
        room == 0 ==> now == was,
        has_place(was, object, offset) ==> now == was,
        room > 0 && !has_place(was, object, offset) ==> {
            &&& now.last().object == object
            &&& now.last().offset == offset
            &&& now.last().block@ == bytes
            &&& was.len() < room ==> now.len() == was.len() + 1 && now[i] == was[i]
            &&& was.len() == room ==> now.len() == room && (i > 0 ==> now[i - 1] == was[i])
        },
        now.len() <= room,
{
    if room > 0 && !has_place(was, object, offset) {
        assert(now.drop_last().len() == now.len() - 1);
        if was.len() < room {
            assert(now.drop_last()[i] == was[i]);
        } else if i > 0 {
            assert(now.drop_last()[i - 1] == was.drop_first()[i - 1]);
        }
    }
}

/// Forgetting an object forgets every block of it and no block of another, and keeps the order they leave in.
pub proof fn law_an_object_is_forgotten_whole(entries: Seq<Entry>, object: ObjectId)
    ensures
        without(entries, object).len() <= entries.len(),
        forall|i: int|
            0 <= i < without(entries, object).len() ==> (#[trigger] without(entries, object)[i]).object
                != object && entries.contains(without(entries, object)[i]),
        forall|i: int|
            0 <= i < entries.len() && (#[trigger] entries[i]).object != object ==> without(
                entries,
                object,
            ).contains(entries[i]),
    decreases entries.len(),
{
    if entries.len() > 0 {
        let rest = entries.drop_last();
        law_an_object_is_forgotten_whole(rest, object);
        let kept = without(rest, object);
        let all = without(entries, object);
        assert forall|i: int| 0 <= i < all.len() implies (#[trigger] all[i]).object != object
            && entries.contains(all[i]) by {
            if i < kept.len() {
                assert(all[i] == kept[i]);
                let j = choose|j: int| 0 <= j < rest.len() && rest[j] == kept[i];
                assert(entries[j] == all[i]);
            } else {
                assert(entries[entries.len() - 1] == all[i]);
            }
        }
        assert forall|i: int| 0 <= i < entries.len() && (#[trigger] entries[i]).object != object implies all.contains(
        entries[i]) by {
            if i < rest.len() {
                assert(rest[i] == entries[i]);
                let j = choose|j: int| 0 <= j < kept.len() && kept[j] == rest[i];
                assert(all[j] == entries[i]);
            } else {
                assert(all[all.len() - 1] == entries[i]);
            }
        }
    }
}

/// A read under a handle that is asked under again is not waited for twice: the others stay.
pub proof fn law_a_handle_is_waited_for_once(issued: Seq<Issued>, handle: u64)
    ensures
        under_others(issued, handle).len() <= issued.len(),
        forall|i: int|
            0 <= i < under_others(issued, handle).len() ==> (#[trigger] under_others(
                issued,
                handle,
            )[i]).handle != handle && issued.contains(under_others(issued, handle)[i]),
        forall|i: int|
            0 <= i < issued.len() && (#[trigger] issued[i]).handle != handle ==> under_others(
                issued,
                handle,
            ).contains(issued[i]),
    decreases issued.len(),
{
    if issued.len() > 0 {
        let rest = issued.drop_last();
        law_a_handle_is_waited_for_once(rest, handle);
        let kept = under_others(rest, handle);
        let all = under_others(issued, handle);
        assert forall|i: int| 0 <= i < all.len() implies (#[trigger] all[i]).handle != handle
            && issued.contains(all[i]) by {
            if i < kept.len() {
                assert(all[i] == kept[i]);
                let j = choose|j: int| 0 <= j < rest.len() && rest[j] == kept[i];
                assert(issued[j] == all[i]);
            } else {
                assert(issued[issued.len() - 1] == all[i]);
            }
        }
        assert forall|i: int| 0 <= i < issued.len() && (#[trigger] issued[i]).handle != handle implies all.contains(
        issued[i]) by {
            if i < rest.len() {
                assert(rest[i] == issued[i]);
                let j = choose|j: int| 0 <= j < kept.len() && kept[j] == rest[i];
                assert(all[j] == issued[i]);
            } else {
                assert(all[all.len() - 1] == issued[i]);
            }
        }
    }
}

/// Those that wait for one block are told from those that wait for another: each is among the one or the other,
/// never both, and none is lost.
pub proof fn law_every_joiner_is_sorted_once(owed: Seq<Asked>, object: ObjectId, offset: u64)
    ensures
        sorted_out(owed, object, offset, true).len() + sorted_out(owed, object, offset, false).len()
            == owed.len(),
        forall|i: int|
            0 <= i < sorted_out(owed, object, offset, true).len() ==> (#[trigger] sorted_out(
                owed,
                object,
                offset,
                true,
            )[i]).1 == object && sorted_out(owed, object, offset, true)[i].2 == offset,
        forall|i: int|
            0 <= i < sorted_out(owed, object, offset, false).len() ==> (#[trigger] sorted_out(
                owed,
                object,
                offset,
                false,
            )[i]).1 != object || sorted_out(owed, object, offset, false)[i].2 != offset,
        forall|i: int|
            0 <= i < owed.len() ==> (if (#[trigger] owed[i]).1 == object && owed[i].2 == offset {
                sorted_out(owed, object, offset, true).contains(owed[i])
            } else {
                sorted_out(owed, object, offset, false).contains(owed[i])
            }),
    decreases owed.len(),
{
    if owed.len() > 0 {
        let rest = owed.drop_last();
        law_every_joiner_is_sorted_once(rest, object, offset);
        let yes = sorted_out(rest, object, offset, true);
        let no = sorted_out(rest, object, offset, false);
        let all_yes = sorted_out(owed, object, offset, true);
        let all_no = sorted_out(owed, object, offset, false);
        assert forall|i: int| 0 <= i < owed.len() implies (if (#[trigger] owed[i]).1 == object && owed[i].2
            == offset {
            all_yes.contains(owed[i])
        } else {
            all_no.contains(owed[i])
        }) by {
            let here = owed[i].1 == object && owed[i].2 == offset;
            if i < rest.len() {
                assert(rest[i] == owed[i]);
                if here {
                    let j = choose|j: int| 0 <= j < yes.len() && yes[j] == rest[i];
                    assert(all_yes[j] == owed[i]);
                } else {
                    let j = choose|j: int| 0 <= j < no.len() && no[j] == rest[i];
                    assert(all_no[j] == owed[i]);
                }
            } else if here {
                assert(all_yes[all_yes.len() - 1] == owed[i]);
            } else {
                assert(all_no[all_no.len() - 1] == owed[i]);
            }
        }
    }
}

/// An object that changes has no block in hand any more and no read that others may join; the reads on their
/// way stay on their way, and other objects are untouched.
pub proof fn law_a_change_forgets_the_object<I: DurableStore>(
    was: Cached<I>,
    now: Cached<I>,
    object: ObjectId,
    offset: u64,
    other: ObjectId,
)
    requires
        forgets(&was, &now, object),
        other != object,
    ensures
        !has_place(now.in_hand(), object, offset),
        !on_its_way(now.passed_down(), object, offset),
        has_place(now.in_hand(), other, offset) <==> has_place(was.in_hand(), other, offset),
        on_its_way(now.passed_down(), other, offset) <==> on_its_way(was.passed_down(), other, offset),
        now.passed_down().len() == was.passed_down().len(),
        now.answerable() == was.answerable(),
        now.joiners() == was.joiners(),
{
    law_an_object_is_forgotten_whole(was.in_hand(), object);
    let had = was.in_hand();
    let kept = now.in_hand();
    assert(closed_for(now.passed_down(), was.passed_down(), object));
    if has_place(kept, other, offset) {
        let i = choose|i: int|
            0 <= i < kept.len() && (#[trigger] kept[i]).object == other && kept[i].offset == offset;
        let j = choose|j: int| 0 <= j < had.len() && had[j] == kept[i];
        assert(had[j].object == other && had[j].offset == offset);
    }
    if has_place(had, other, offset) {
        let i = choose|i: int|
            0 <= i < had.len() && (#[trigger] had[i]).object == other && had[i].offset == offset;
        let j = choose|j: int| 0 <= j < kept.len() && kept[j] == had[i];
        assert(kept[j].object == other && kept[j].offset == offset);
    }
    if on_its_way(was.passed_down(), other, offset) {
        let i = choose|i: int|
            0 <= i < was.passed_down().len() && (#[trigger] was.passed_down()[i]).open
                && was.passed_down()[i].object == other && was.passed_down()[i].offset == offset;
        assert(now.passed_down()[i].open && now.passed_down()[i].object == other);
    }
}

/// A block in hand is what was read of it, answered without asking the store and counted once; any other is
/// asked for, as it would have been without a cache.
pub proof fn law_a_block_in_hand_asks_nothing_of_the_store<I: DurableStore>(
    was: Cached<I>,
    now: Cached<I>,
    object: ObjectId,
    offset: u64,
    had: Seq<u8>,
    read: Result<(), StoreFault>,
    bytes: Seq<u8>,
)
    requires
        brought(&was, &now, object, offset, had, read, bytes),
        was.savings().0 < u64::MAX,
    ensures
        has_place(was.in_hand(), object, offset) ==> {
            &&& read is Ok
            &&& now.below() == was.below()
            &&& now.savings().0 == was.savings().0 + 1
            &&& now.savings().1 == was.savings().1
            &&& exists|i: int|
                0 <= i < was.in_hand().len() && (#[trigger] was.in_hand()[i]).object == object
                    && was.in_hand()[i].offset == offset && was.in_hand()[i].block@ == bytes
            &&& now.in_hand().len() == was.in_hand().len()
            &&& now.in_hand().last().object == object
            &&& now.in_hand().last().offset == offset
        },
        !has_place(was.in_hand(), object, offset) ==> {
            &&& was.below().did(
                Call::ReadAt { object, offset, had },
                Reply::Read(read, bytes),
                &now.below(),
            )
            &&& now.savings() == was.savings()
            &&& read is Err ==> now.in_hand() == was.in_hand()
        },
{
}

/// A read of a block in hand is answered from here; one of a block that is on its way waits for it; and only one
/// of neither goes down, under its own handle, for its own block.
pub proof fn law_a_block_is_asked_for_once<I: DurableStore>(
    was: Cached<I>,
    after: Cached<I>,
    handle: u64,
    object: ObjectId,
    offset: u64,
    now: u64,
    reply: Reply,
)
    requires
        takes_read(&was, &after, handle, object, offset, now, reply),
        was.savings().1 < u64::MAX,
    ensures
        after.in_hand() == was.in_hand(),
        has_place(was.in_hand(), object, offset) ==> reply == Reply::Flag(true) && after.below()
            == was.below() && after.answerable().last() == (handle, object, offset)
            && after.answerable().len() == was.answerable().len() + 1,
        !has_place(was.in_hand(), object, offset) && on_its_way(was.passed_down(), object, offset)
            ==> reply == Reply::Flag(true) && after.below() == was.below() && after.joiners().last() == (
            handle,
            object,
            offset,
        ) && after.joiners().len() == was.joiners().len() + 1 && after.savings().1 == was.savings().1 + 1,
        !has_place(was.in_hand(), object, offset) && !on_its_way(was.passed_down(), object, offset)
            ==> was.below().did(
            Call::Submit { handle, object, offset, now },
            reply,
            &after.below(),
        ) && after.answerable() == was.answerable() && after.joiners() == was.joiners(),
        !has_place(was.in_hand(), object, offset) && !on_its_way(was.passed_down(), object, offset)
            && reply == Reply::Flag(true) ==> on_its_way(after.passed_down(), object, offset)
            && after.passed_down().last() == (Issued { handle, object, offset, open: true }),
{
    if !has_place(was.in_hand(), object, offset) && !on_its_way(was.passed_down(), object, offset) && reply
        == Reply::Flag(true) {
        let issued = after.passed_down();
        assert(issued[issued.len() - 1].open && issued[issued.len() - 1].object == object
            && issued[issued.len() - 1].offset == offset);
    }
}

/// A block that comes up answers the read it was asked under, lets those go that waited for it and no others,
/// and is kept if its object has stayed as it was.
pub proof fn law_a_block_that_comes_up_answers_all_who_waited<I: DurableStore>(
    was: Cached<I>,
    now: Cached<I>,
    i: int,
    handle: u64,
    bytes: Seq<u8>,
    joiner: int,
)
    requires
        answers(&was, &now, i, handle, bytes),
        0 <= joiner < was.joiners().len(),
    ensures
        ({
            let issued = was.passed_down()[i];
            let waited = was.joiners()[joiner];
            let here = waited.1 == issued.object && waited.2 == issued.offset;
            &&& issued.handle == handle
            &&& now.passed_down().len() == was.passed_down().len() - 1
            &&& here ==> now.answerable().contains(waited)
            &&& !here ==> now.joiners().contains(waited)
            &&& now.answerable().len() + now.joiners().len() == was.answerable().len()
                + was.joiners().len()
            &&& now.answerable().take(was.answerable().len() as int) == was.answerable()
            &&& !issued.open ==> now.in_hand() == was.in_hand()
        }),
{
    let issued = was.passed_down()[i];
    let waited = was.joiners()[joiner];
    law_every_joiner_is_sorted_once(was.joiners(), issued.object, issued.offset);
    let let_go = sorted_out(was.joiners(), issued.object, issued.offset, true);
    assert(now.answerable().take(was.answerable().len() as int) =~= was.answerable());
    if waited.1 == issued.object && waited.2 == issued.offset {
        let j = choose|j: int| 0 <= j < let_go.len() && let_go[j] == waited;
        assert(now.answerable()[was.answerable().len() + j] == waited);
    }
}

/// A fault from below is passed on as it is, and leaves nobody waiting; nothing from below is nothing here.
pub proof fn law_a_fault_from_below_leaves_nobody_waiting<I: DurableStore>(
    was: Cached<I>,
    after: Cached<I>,
    polled: Option<Result<u64, StoreFault>>,
    bytes: Seq<u8>,
    reply: Reply,
)
    requires
        answers_as(&was, &after, polled, bytes, reply),
    ensures
        reply == Reply::Polled(polled, bytes),
        polled is None ==> after.in_hand() == was.in_hand() && after.joiners() == was.joiners()
            && after.passed_down() == was.passed_down(),
        polled matches Some(Err(_)) ==> after.joiners().len() == 0 && after.passed_down().len() == 0
            && after.in_hand() == was.in_hand() && after.answerable() == was.answerable(),
{
}

/// A read that can be answered from here is answered in the order it was asked, with the block or with the fault the
/// store gave in its place, and is over.
pub proof fn law_what_can_be_answered_is_answered_in_order<I: DurableStore>(
    was: Cached<I>,
    now: Cached<I>,
    had: Seq<u8>,
    reply: Reply,
)
    requires
        was.answerable().len() > 0,
        answers_here(&was, &now, had, reply),
    ensures
        now.answerable() == was.answerable().skip(1),
        reply matches Reply::Polled(Some(answer), _) && (answer matches Ok(handle) ==> handle
            == was.answerable()[0].0),
        has_place(was.in_hand(), was.answerable()[0].1, was.answerable()[0].2) ==> (reply matches Reply::Polled(
            Some(answer),
            _,
        ) && answer == Ok::<u64, StoreFault>(was.answerable()[0].0)) && now.below() == was.below(),
{
    assert(was.answerable().drop_first() =~= was.answerable().skip(1));
}

} // verus!
