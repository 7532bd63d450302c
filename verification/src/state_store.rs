//! The state changes that executing each transaction produced, by order.

use crate::digest::H256;
use crate::error::StoreError;
use std::collections::BTreeMap;
use vstd::prelude::*;

verus! {

broadcast use {vstd::std_specs::btree::group_btree_axioms, vstd::laws_cmp::group_laws_cmp};

/// The state changes of one transaction.
#[derive(Debug)]
pub struct StateChangeSetExt {
    /// The state root after the changes.
    pub state_root: H256,
    /// The number of objects in the state after the changes.
    pub global_size: u64,
    /// The changes themselves, encoded.
    pub changes: Vec<u8>,
}

/// What a set of state changes holds.
pub struct StateChangeSetView {
    pub state_root: Seq<u8>,
    pub global_size: u64,
    pub changes: Seq<u8>,
}

impl View for StateChangeSetExt {
    type V = StateChangeSetView;

    open spec fn view(&self) -> StateChangeSetView {
        StateChangeSetView {
            state_root: self.state_root@,
            global_size: self.global_size,
            changes: self.changes@,
        }
    }
}

impl Clone for StateChangeSetExt {
    fn clone(&self) -> (r: Self)
        ensures
            r@ == self@,
    {
        let changes = self.changes.clone();
        proof {
            assert(changes@ =~= self.changes@);
        }
        StateChangeSetExt { state_root: self.state_root, global_size: self.global_size, changes }
    }
}

/// The change set that a lookup found, as what it holds.
pub open spec fn change_set_of(found: Option<StateChangeSetExt>) -> Option<StateChangeSetView> {
    match found {
        Some(set) => Some(set@),
        None => None,
    }
}

/// What the map holds at `order`, if anything.
pub open spec fn change_set_at(stored: Map<u64, StateChangeSetView>, order: u64) -> Option<
    StateChangeSetView,
> {
    if stored.contains_key(order) {
        Some(stored[order])
    } else {
        None
    }
}

/// Why no change set can be saved for `order`, or `None` where one can: a
/// set is stored for it.
pub open spec fn change_set_refusal(stored: Map<u64, StateChangeSetView>, order: u64) -> Option<
    StoreError,
> {
    if stored.contains_key(order) {
        Some(StoreError::Conflict)
    } else {
        None
    }
}

/// What is stored after an attempt to save `set` for `order`.
pub open spec fn change_set_saved(
    stored: Map<u64, StateChangeSetView>,
    order: u64,
    set: StateChangeSetView,
) -> Map<u64, StateChangeSetView> {
    if stored.contains_key(order) {
        stored
    } else {
        stored.insert(order, set)
    }
}

/// A change set is written once: after an attempt to save one for `order`,
/// a second attempt is refused with `Conflict` and leaves what is stored as
/// the first attempt left it.
pub proof fn lemma_change_set_saved_once(
    stored: Map<u64, StateChangeSetView>,
    order: u64,
    first: StateChangeSetView,
    second: StateChangeSetView,
)
    ensures
        change_set_refusal(change_set_saved(stored, order, first), order) == Some(
            StoreError::Conflict,
        ),
        change_set_saved(change_set_saved(stored, order, first), order, second) == change_set_saved(
            stored,
            order,
            first,
        ),
        change_set_refusal(stored, order) is None ==> change_set_saved(stored, order, first)[order]
            == first,
{
}

/// The store of state changes: at most one set for each order.
pub struct StateDBStore {
    change_sets: BTreeMap<u64, StateChangeSetExt>,
}

impl View for StateDBStore {
    type V = Map<u64, StateChangeSetView>;

    /// The change set stored for each order.
    closed spec fn view(&self) -> Map<u64, StateChangeSetView> {
        self.change_sets@.map_values(|set: StateChangeSetExt| set@)
    }
}

impl StateDBStore {
    /// The store without change sets.
    pub fn new() -> (r: Self)
        ensures
            r@ == Map::<u64, StateChangeSetView>::empty(),
    {
        let r = StateDBStore { change_sets: BTreeMap::new() };
        proof {
            assert(r@ =~= Map::<u64, StateChangeSetView>::empty());
        }
        r
    }

    /// Stores the changes of the transaction at `tx_order`. Fails with
    /// `Conflict`, and changes nothing, when that order has a change set.
    pub fn save_state_change_set(&mut self, tx_order: u64, state_change_set: StateChangeSetExt) -> (r:
        Result<(), StoreError>)
        ensures
            final(self)@ == change_set_saved(old(self)@, tx_order, state_change_set@),
            r == (match change_set_refusal(old(self)@, tx_order) {
                Some(error) => Err::<(), StoreError>(error),
                None => Ok::<(), StoreError>(()),
            }),
    {
        if self.change_sets.contains_key(&tx_order) {
            return Err(StoreError::Conflict);
        }
        self.change_sets.insert(tx_order, state_change_set);
        proof {
            assert(self@ =~= old(self)@.insert(tx_order, state_change_set@));
        }
        Ok(())
    }

    /// Whether a change set is stored for `tx_order`.
    pub fn contains(&self, tx_order: u64) -> (r: bool)
        ensures
            r == self@.contains_key(tx_order),
    {
        self.change_sets.contains_key(&tx_order)
    }

    /// The changes of the transaction at `tx_order`, if they are stored.
    pub fn get_state_change_set(&self, tx_order: u64) -> (r: Option<StateChangeSetExt>)
        ensures
            change_set_of(r) == change_set_at(self@, tx_order),
    {
        match self.change_sets.get(&tx_order) {
            Some(set) => Some(set.clone()),
            None => None,
        }
    }

    /// The changes of the transactions at `tx_orders`, one result for each
    /// order and in the same place.
    pub fn multi_get_state_change_set(&self, tx_orders: Vec<u64>) -> (r: Vec<
        Option<StateChangeSetExt>,
    >)
        ensures
            r@.len() == tx_orders@.len(),
            forall|i: int|
                0 <= i < tx_orders@.len() ==> change_set_of(#[trigger] r@[i]) == change_set_at(
                    self@,
                    tx_orders@[i],
                ),
    {
        let mut out: Vec<Option<StateChangeSetExt>> = Vec::new();
        let mut i: usize = 0;
        while i < tx_orders.len()
            invariant
                i <= tx_orders@.len(),
                out@.len() == i,
                forall|j: int|
                    0 <= j < i ==> change_set_of(#[trigger] out@[j]) == change_set_at(
                        self@,
                        tx_orders@[j],
                    ),
            decreases tx_orders@.len() - i,
        {
            out.push(self.get_state_change_set(tx_orders[i]));
            i += 1;
        }
        out
    }

    /// Removes the changes of the transaction at `tx_order`, if they are
    /// stored.
    pub fn remove_state_change_set(&mut self, tx_order: u64)
        ensures
            final(self)@ == old(self)@.remove(tx_order),
    {
        self.change_sets.remove(&tx_order);
        proof {
            assert(self@ =~= old(self)@.remove(tx_order));
        }
    }
}

} // verus!
