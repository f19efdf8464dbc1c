//! Budget groups: what the holds that draw on one budget come to together.

use std::collections::BTreeMap;

use vstd::laws_cmp::group_laws_cmp;
use vstd::prelude::*;
use vstd::std_specs::btree::{group_btree_axioms, increasing_seq};
use vstd::std_specs::cmp::OrdSpec;
use vstd::std_specs::iter::IteratorSpec;

use crate::ledger::Amount;

verus! {

broadcast use {group_btree_axioms, group_laws_cmp};

/// The group as the store knows it. Membership is why a partial resolution can be told from a complete
/// one.
#[derive(Clone, Copy, Debug, PartialEq, Eq, Structural)]
pub struct BudgetState {
    pub members: u32,
    pub remaining: Amount,
}

impl Default for BudgetState {
    fn default() -> (state: Self)
        ensures
            state == (BudgetState { members: 0, remaining: 0 }),
    {
        BudgetState { members: 0, remaining: 0 }
    }
}

impl BudgetState {
    pub fn members(&self) -> (members: u32)
        ensures
            members == self.members,
    {
        self.members
    }

    pub fn remaining(&self) -> (remaining: Amount)
        ensures
            remaining == self.remaining,
    {
        self.remaining
    }

    /// Rebuilt from a snapshot: the numbers came from a stream rather than from applies the engine
    /// counted.
    pub fn restored(members: u32, remaining: Amount) -> (state: Self)
        ensures
            state == (BudgetState { members, remaining }),
    {
        BudgetState { members, remaining }
    }
}

/// The list has the groups of a map, each once, ordered by their number.
pub open spec fn lists(list: Seq<(u128, BudgetState)>, groups: Map<u128, BudgetState>) -> bool {
    &&& forall|i: int|
        0 <= i < list.len() ==> groups.contains_key((#[trigger] list[i]).0) && groups[list[i].0]
            == list[i].1
    &&& forall|k: u128| #[trigger] groups.contains_key(k) ==> list.contains((k, groups[k]))
    &&& forall|i: int, j: int|
        0 <= i < j < list.len() ==> (#[trigger] list[i]).0 < (#[trigger] list[j]).0
}

/// The groups in the order of their number, so that two writers over the same groups write the same.
pub fn listed(groups: &BTreeMap<u128, BudgetState>) -> (list: Vec<(u128, BudgetState)>)
    ensures
        lists(list@, groups@),
        list@.len() == groups@.len(),
{
    let mut list: Vec<(u128, BudgetState)> = Vec::new();
    let iter = groups.iter();
    let ghost all = iter.remaining();
    let ghost keys = all.map_values(|kv: (&u128, &BudgetState)| *kv.0);
    assert(increasing_seq(keys));
    for one in it: iter
        invariant
            it.seq() == all,
            list@.len() == it.index@,
            forall|i: int| 0 <= i < list@.len() ==> list@[i] == (*all[i].0, *all[i].1),
    {
        let (group, state) = one;
        list.push((*group, *state));
    }
    proof {
        assert forall|k: u128| #[trigger] groups@.contains_key(k) implies list@.contains(
            (k, groups@[k]),
        ) by {
            assert(all.contains((&k, &groups@[k])));
            let i = choose|i: int| 0 <= i < all.len() && all[i] == (&k, &groups@[k]);
            assert(list@[i] == (k, groups@[k]));
        }
        assert forall|i: int, j: int| 0 <= i < j < list@.len() implies (#[trigger] list@[i]).0 < (
        #[trigger] list@[j]).0 by {
            assert(keys[i] == list@[i].0 && keys[j] == list@[j].0);
            assert(keys[i].cmp_spec(&keys[j]) is Less);
        }
    }
    list
}

} // verus!
