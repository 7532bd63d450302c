//! The ledger store: the four stores behind one handle, and the one
//! operation that advances them together.

use crate::accumulator_store::{AccumulatorStore, InclusionProof};
use crate::digest::{digest_of, digests, H256};
use crate::error::StoreError;
use crate::merkle::merkle_root;
use crate::messages::{batch_matches, Batch};
use crate::meta_store::{checkpoint_of, next_order, MetaDBStore, SequencerInfo, SequencerInfoView};
use crate::state_store::{
    change_set_at, change_set_of, change_set_refusal, change_set_saved, StateChangeSetExt,
    StateChangeSetView, StateDBStore,
};
use crate::transaction_store::{
    hash_at, hash_taken, is_highest_order, is_ledger, transaction_at, transaction_of,
    transaction_with_hash, LedgerTransaction, LedgerTransactionView, TransactionDBStore,
};
use vstd::prelude::*;

verus! {

/// What the ledger store holds.
pub struct LedgerState {
    /// The transaction stored at each order.
    pub transactions: Map<u64, LedgerTransactionView>,
    /// The sequencer checkpoint.
    pub checkpoint: Option<SequencerInfoView>,
    /// The leaves of the accumulator.
    pub leaves: Seq<Seq<u8>>,
    /// The state changes stored for each order.
    pub change_sets: Map<u64, StateChangeSetView>,
}

/// The store in which nothing was sequenced.
pub open spec fn empty_store() -> LedgerState {
    LedgerState {
        transactions: Map::empty(),
        checkpoint: None,
        leaves: Seq::empty(),
        change_sets: Map::empty(),
    }
}

/// Why `tx` cannot be written to the transaction log of the store `s`, or
/// `None` where it can: its order does not follow the checkpoint, or its
/// order or its hash is taken.
pub open spec fn save_refusal(s: LedgerState, tx: LedgerTransactionView) -> Option<StoreError> {
    if next_order(s.checkpoint) != Some(tx.order) {
        Some(StoreError::Conflict)
    } else if s.transactions.contains_key(tx.order) || hash_taken(s.transactions, tx.hash) {
        Some(StoreError::Conflict)
    } else {
        None
    }
}

/// Why `tx` cannot be sequenced on the store `s`, or `None` where it can:
/// it cannot be written to the transaction log, its order has a change set,
/// or the accumulator is full.
pub open spec fn sequence_refusal(s: LedgerState, tx: LedgerTransactionView) -> Option<
    StoreError,
> {
    if save_refusal(s, tx) is Some {
        save_refusal(s, tx)
    } else if s.change_sets.contains_key(tx.order) {
        Some(StoreError::Conflict)
    } else if s.leaves.len() >= u64::MAX {
        Some(StoreError::StorageIO)
    } else {
        None
    }
}

/// The store `s` after `tx` was sequenced with the state changes `changes`.
pub open spec fn after_sequence(
    s: LedgerState,
    tx: LedgerTransactionView,
    changes: StateChangeSetView,
) -> LedgerState {
    LedgerState {
        transactions: s.transactions.insert(tx.order, tx),
        checkpoint: Some(
            SequencerInfoView {
                last_order: Some(tx.order),
                last_accumulator_root: merkle_root(s.leaves.push(tx.hash)),
            },
        ),
        leaves: s.leaves.push(tx.hash),
        change_sets: s.change_sets.insert(tx.order, changes),
    }
}

/// The number of leaves that the accumulator has after the order
/// `last_order` was sequenced.
pub open spec fn leaves_after(last_order: Option<u64>) -> nat {
    match last_order {
        Some(last) => (last + 1) as nat,
        None => 0,
    }
}

/// The checkpoint agrees with the other stores: its order is the highest in
/// the transaction log, the accumulator has one leaf for each order up to it,
/// and its root is the accumulator's. Without a checkpoint both are empty.
pub open spec fn is_consistent(s: LedgerState) -> bool {
    match s.checkpoint {
        None => is_highest_order(s.transactions, None) && s.leaves.len() == 0,
        Some(info) => {
            &&& is_highest_order(s.transactions, info.last_order)
            &&& s.leaves.len() == leaves_after(info.last_order)
            &&& info.last_accumulator_root == merkle_root(s.leaves)
        },
    }
}

/// The name of the partition of the transactions.
pub const TRANSACTION_COLUMN_FAMILY_NAME: &'static str = "transaction";

/// The name of the partition of the index from hash to order.
pub const TX_SEQUENCE_INFO_MAPPING_COLUMN_FAMILY_NAME: &'static str = "tx_sequence_info_mapping";

/// The name of the partition of the checkpoint.
pub const META_SEQUENCER_INFO_COLUMN_FAMILY_NAME: &'static str = "meta_sequencer_info";

/// The name of the partition of the accumulator's nodes.
pub const TX_ACCUMULATOR_NODE_COLUMN_FAMILY_NAME: &'static str = "transaction_acc_node";

/// The name of the partition of the state changes.
pub const STATE_CHANGE_SET_COLUMN_FAMILY_NAME: &'static str = "state_change_set";

/// The description of the store's partitions.
#[derive(Copy, Clone, Debug, Eq, PartialEq, Ord, PartialOrd)]
pub struct StoreMeta {}

impl StoreMeta {
    /// The names of the partitions that the storage engine is opened with.
    pub fn get_column_family_names() -> (r: Vec<&'static str>)
        ensures
            r@.len() == 5,
            r@[0]@ == TRANSACTION_COLUMN_FAMILY_NAME@,
            r@[1]@ == TX_SEQUENCE_INFO_MAPPING_COLUMN_FAMILY_NAME@,
            r@[2]@ == META_SEQUENCER_INFO_COLUMN_FAMILY_NAME@,
            r@[3]@ == TX_ACCUMULATOR_NODE_COLUMN_FAMILY_NAME@,
            r@[4]@ == STATE_CHANGE_SET_COLUMN_FAMILY_NAME@,
    {
        let mut names: Vec<&'static str> = Vec::new();
        names.push(TRANSACTION_COLUMN_FAMILY_NAME);
        names.push(TX_SEQUENCE_INFO_MAPPING_COLUMN_FAMILY_NAME);
        names.push(META_SEQUENCER_INFO_COLUMN_FAMILY_NAME);
        names.push(TX_ACCUMULATOR_NODE_COLUMN_FAMILY_NAME);
        names.push(STATE_CHANGE_SET_COLUMN_FAMILY_NAME);
        names
    }
}

/// The records of the partitions, as they were read from storage.
pub struct StoreInstance {
    /// The transactions, in any order.
    pub transactions: Vec<LedgerTransaction>,
    /// The checkpoint, if one is stored.
    pub sequencer_info: Option<SequencerInfo>,
    /// The leaves of the accumulator, first to last.
    pub accumulator_leaves: Vec<H256>,
    /// The state changes with their orders, in any order.
    pub state_change_sets: Vec<(u64, StateChangeSetExt)>,
}

/// The transaction store that holds `records`, or `None` where two of them
/// have one order or one hash.
pub open spec fn loaded_transactions(records: Seq<LedgerTransaction>) -> Option<
    Map<u64, LedgerTransactionView>,
>
    decreases records.len(),
{
    if records.len() == 0 {
        Some(Map::empty())
    } else {
        match loaded_transactions(records.drop_last()) {
            None => None,
            Some(stored) => {
                let tx = records.last()@;
                if stored.contains_key(tx.order) || hash_taken(stored, tx.hash) {
                    None
                } else {
                    Some(stored.insert(tx.order, tx))
                }
            },
        }
    }
}

/// The state store that holds `records`, or `None` where two of them have
/// one order.
pub open spec fn loaded_change_sets(records: Seq<(u64, StateChangeSetExt)>) -> Option<
    Map<u64, StateChangeSetView>,
>
    decreases records.len(),
{
    if records.len() == 0 {
        Some(Map::empty())
    } else {
        match loaded_change_sets(records.drop_last()) {
            None => None,
            Some(stored) => {
                let order = records.last().0;
                if stored.contains_key(order) {
                    None
                } else {
                    Some(stored.insert(order, records.last().1@))
                }
            },
        }
    }
}

/// Where a prefix of the records cannot be loaded, neither can all of them.
proof fn lemma_load_transactions_fails(records: Seq<LedgerTransaction>, upto: int)
    requires
        0 <= upto <= records.len(),
        loaded_transactions(records.take(upto)) is None,
    ensures
        loaded_transactions(records) is None,
    decreases records.len() - upto,
{
    if upto < records.len() {
        assert(records.take(upto + 1).drop_last() =~= records.take(upto));
        lemma_load_transactions_fails(records, upto + 1);
    } else {
        assert(records.take(upto) =~= records);
    }
}

/// Where a prefix of the records cannot be loaded, neither can all of them.
proof fn lemma_load_change_sets_fails(records: Seq<(u64, StateChangeSetExt)>, upto: int)
    requires
        0 <= upto <= records.len(),
        loaded_change_sets(records.take(upto)) is None,
    ensures
        loaded_change_sets(records) is None,
    decreases records.len() - upto,
{
    if upto < records.len() {
        assert(records.take(upto + 1).drop_last() =~= records.take(upto));
        lemma_load_change_sets_fails(records, upto + 1);
    } else {
        assert(records.take(upto) =~= records);
    }
}

/// The ledger store.
pub struct RoochStore {
    pub transaction_store: TransactionDBStore,
    pub meta_store: MetaDBStore,
    pub transaction_accumulator_store: AccumulatorStore,
    pub state_store: StateDBStore,
}

impl View for RoochStore {
    type V = LedgerState;

    open spec fn view(&self) -> LedgerState {
        LedgerState {
            transactions: self.transaction_store@,
            checkpoint: self.meta_store@,
            leaves: self.transaction_accumulator_store@,
            change_sets: self.state_store@,
        }
    }
}

impl RoochStore {
    /// The store in which nothing was sequenced.
    pub fn new() -> (r: Self)
        ensures
            r@ == empty_store(),
    {
        RoochStore {
            transaction_store: TransactionDBStore::new(),
            meta_store: MetaDBStore::new(),
            transaction_accumulator_store: AccumulatorStore::new(),
            state_store: StateDBStore::new(),
        }
    }

    /// The store that holds the records of `instance`. Fails with `Conflict`
    /// where two transactions have one order or one hash, or two change sets
    /// one order.
    pub fn new_with_instance(instance: &StoreInstance) -> (r: Result<Self, StoreError>)
        ensures
            match (
                loaded_transactions(instance.transactions@),
                loaded_change_sets(instance.state_change_sets@),
            ) {
                (Some(transactions), Some(change_sets)) => r is Ok && r->Ok_0@ == (LedgerState {
                    transactions,
                    checkpoint: checkpoint_of(instance.sequencer_info),
                    leaves: digests(instance.accumulator_leaves@),
                    change_sets,
                }),
                _ => r is Err && r->Err_0 == StoreError::Conflict,
            },
    {
        let mut store = Self::new();
        let mut i: usize = 0;
        while i < instance.transactions.len()
            invariant
                i <= instance.transactions@.len(),
                loaded_transactions(instance.transactions@.take(i as int)) == Some(
                    store@.transactions,
                ),
                store@.checkpoint is None,
                store@.leaves == Seq::<Seq<u8>>::empty(),
                store@.change_sets == Map::<u64, StateChangeSetView>::empty(),
            decreases instance.transactions@.len() - i,
        {
            proof {
                assert(instance.transactions@.take(i + 1).drop_last()
                    =~= instance.transactions@.take(i as int));
            }
            let saved = store.transaction_store.save_transaction(instance.transactions[i].clone());
            if saved.is_err() {
                proof {
                    lemma_load_transactions_fails(instance.transactions@, i + 1);
                }
                return Err(StoreError::Conflict);
            }
            i += 1;
        }
        proof {
            assert(instance.transactions@.take(i as int) =~= instance.transactions@);
        }
        i = 0;
        while i < instance.state_change_sets.len()
            invariant
                i <= instance.state_change_sets@.len(),
                loaded_transactions(instance.transactions@) == Some(store@.transactions),
                loaded_change_sets(instance.state_change_sets@.take(i as int)) == Some(
                    store@.change_sets,
                ),
                store@.checkpoint is None,
                store@.leaves == Seq::<Seq<u8>>::empty(),
            decreases instance.state_change_sets@.len() - i,
        {
            proof {
                assert(instance.state_change_sets@.take(i + 1).drop_last()
                    =~= instance.state_change_sets@.take(i as int));
            }
            let order = instance.state_change_sets[i].0;
            let saved = store.state_store.save_state_change_set(
                order,
                instance.state_change_sets[i].1.clone(),
            );
            if saved.is_err() {
                proof {
                    lemma_load_change_sets_fails(instance.state_change_sets@, i + 1);
                }
                return Err(StoreError::Conflict);
            }
            i += 1;
        }
        proof {
            assert(instance.state_change_sets@.take(i as int) =~= instance.state_change_sets@);
        }
        i = 0;
        while i < instance.accumulator_leaves.len()
            invariant
                i <= instance.accumulator_leaves@.len(),
                loaded_transactions(instance.transactions@) == Some(store@.transactions),
                loaded_change_sets(instance.state_change_sets@) == Some(store@.change_sets),
                store@.checkpoint is None,
                store@.leaves == digests(instance.accumulator_leaves@.take(i as int)),
            decreases instance.accumulator_leaves@.len() - i,
        {
            let ghost before = store@.leaves;
            match store.transaction_accumulator_store.append(instance.accumulator_leaves[i]) {
                Ok(_) => {},
                Err(error) => {
                    return Err(error);
                },
            }
            proof {
                assert(before.push(instance.accumulator_leaves@[i as int]@) =~= digests(
                    instance.accumulator_leaves@.take(i + 1),
                ));
            }
            i += 1;
        }
        proof {
            assert(instance.accumulator_leaves@.take(i as int) =~= instance.accumulator_leaves@);
        }
        match instance.sequencer_info {
            Some(info) => store.meta_store.save_sequencer_info(info),
            None => {},
        }
        Ok(store)
    }

    /// A fresh store to try things on.
    pub fn mock_rooch_store() -> (r: Self)
        ensures
            r@ == empty_store(),
    {
        Self::new()
    }

    /// The transaction store.
    pub fn get_transaction_store(&self) -> (r: &TransactionDBStore)
        ensures
            r@ == self@.transactions,
    {
        &self.transaction_store
    }

    /// The store of the checkpoint.
    pub fn get_meta_store(&self) -> (r: &MetaDBStore)
        ensures
            r@ == self@.checkpoint,
    {
        &self.meta_store
    }

    /// The accumulator over the transaction hashes.
    pub fn get_transaction_accumulator_store(&self) -> (r: &AccumulatorStore)
        ensures
            r@ == self@.leaves,
    {
        &self.transaction_accumulator_store
    }

    /// The store of the state changes.
    pub fn get_state_store(&self) -> (r: &StateDBStore)
        ensures
            r@ == self@.change_sets,
    {
        &self.state_store
    }

    /// Sequences `tx`: appends its hash to the accumulator, stores it and the
    /// state changes of its execution, and moves the checkpoint to it.
    /// Returns the new accumulator root and the new checkpoint. Where
    /// `sequence_refusal` gives an error, returns it and changes nothing.
    pub fn sequence(&mut self, tx: LedgerTransaction, state_change_set: StateChangeSetExt) -> (r:
        Result<(H256, SequencerInfo), StoreError>)
        ensures
            is_ledger(old(self)@.transactions),
            is_ledger(final(self)@.transactions),
            match sequence_refusal(old(self)@, tx@) {
                Some(error) => r == Err::<(H256, SequencerInfo), StoreError>(error) && final(self)@
                    == old(self)@,
                None => r is Ok && final(self)@ == after_sequence(
                    old(self)@,
                    tx@,
                    state_change_set@,
                ) && r->Ok_0.0@ == merkle_root(final(self)@.leaves)
                    && Some(r->Ok_0.1@) == final(self)@.checkpoint,
            },
    {
        let order = tx.order;
        let follows = match self.meta_store.get_next_order() {
            Some(next) => next == order,
            None => false,
        };
        let order_taken = self.transaction_store.contains_order(order);
        let hash_taken = self.transaction_store.contains_hash(&tx.hash);
        if !follows || order_taken || hash_taken {
            return Err(StoreError::Conflict);
        }
        if self.state_store.contains(order) {
            return Err(StoreError::Conflict);
        }
        if self.transaction_accumulator_store.get_leaf_count() == u64::MAX {
            return Err(StoreError::StorageIO);
        }
        let root = match self.transaction_accumulator_store.append(tx.hash) {
            Ok(root) => root,
            Err(error) => {
                return Err(error);
            },
        };
        match self.transaction_store.save_transaction(tx) {
            Ok(()) => {},
            Err(error) => {
                return Err(error);
            },
        }
        match self.state_store.save_state_change_set(order, state_change_set) {
            Ok(()) => {},
            Err(error) => {
                return Err(error);
            },
        }
        let info = SequencerInfo::new(order, root);
        self.meta_store.save_sequencer_info(info);
        Ok((root, info))
    }

    /// Writes `tx` to the transaction log alone; the accumulator, the
    /// checkpoint and the state changes stay as they are. Fails with
    /// `Conflict`, and changes nothing, when the order of `tx` does not
    /// follow the checkpoint, or its order or its hash is taken.
    pub fn save_transaction(&mut self, tx: LedgerTransaction) -> (r: Result<(), StoreError>)
        ensures
            is_ledger(old(self)@.transactions),
            is_ledger(final(self)@.transactions),
            match save_refusal(old(self)@, tx@) {
                Some(error) => r == Err::<(), StoreError>(error) && final(self)@ == old(self)@,
                None => r == Ok::<(), StoreError>(()) && final(self)@ == (LedgerState {
                    transactions: old(self)@.transactions.insert(tx.order, tx@),
                    ..old(self)@
                }),
            },
    {
        let follows = match self.meta_store.get_next_order() {
            Some(next) => next == tx.order,
            None => false,
        };
        let order_taken = self.transaction_store.contains_order(tx.order);
        if !follows || order_taken {
            return Err(StoreError::Conflict);
        }
        self.transaction_store.save_transaction(tx)
    }

    /// Removes the transaction stored at `tx_order` with the hash `tx_hash`
    /// from the transaction store; the accumulator keeps its leaf. Fails with
    /// `NotFound`, and changes nothing, when no such transaction is stored.
    pub fn remove_transaction(&mut self, tx_hash: H256, tx_order: u64) -> (r: Result<
        (),
        StoreError,
    >)
        ensures
            is_ledger(old(self)@.transactions),
            is_ledger(final(self)@.transactions),
            hash_at(old(self)@.transactions, tx_order) == Some(tx_hash@) ==> r == Ok::<
                (),
                StoreError,
            >(()) && final(self)@ == (LedgerState {
                transactions: old(self)@.transactions.remove(tx_order),
                ..old(self)@
            }),
            hash_at(old(self)@.transactions, tx_order) != Some(tx_hash@) ==> r == Err::<
                (),
                StoreError,
            >(StoreError::NotFound) && final(self)@ == old(self)@,
    {
        self.transaction_store.remove_transaction(tx_hash, tx_order)
    }

    /// The transaction with the hash `hash`, if it is stored.
    pub fn get_transaction_by_hash(&self, hash: H256) -> (r: Option<LedgerTransaction>)
        ensures
            is_ledger(self@.transactions),
            transaction_of(r) == transaction_with_hash(self@.transactions, hash@),
    {
        self.transaction_store.get_transaction_by_hash(hash)
    }

    /// The transactions with the hashes `tx_hashes`, one result for each hash
    /// and in the same place.
    pub fn get_transactions_by_hash(&self, tx_hashes: Vec<H256>) -> (r: Vec<
        Option<LedgerTransaction>,
    >)
        ensures
            is_ledger(self@.transactions),
            r@.len() == tx_hashes@.len(),
            forall|i: int|
                0 <= i < tx_hashes@.len() ==> transaction_of(#[trigger] r@[i])
                    == transaction_with_hash(self@.transactions, tx_hashes@[i]@),
    {
        self.transaction_store.get_transactions(tx_hashes)
    }

    /// The transactions stored at `tx_orders`, one result for each order and
    /// in the same place.
    pub fn get_transactions_by_order(&self, tx_orders: Vec<u64>) -> (r: Vec<
        Option<LedgerTransaction>,
    >)
        ensures
            is_ledger(self@.transactions),
            r@.len() == tx_orders@.len(),
            forall|i: int|
                0 <= i < tx_orders@.len() ==> transaction_of(#[trigger] r@[i]) == transaction_at(
                    self@.transactions,
                    tx_orders@[i],
                ),
    {
        self.transaction_store.get_transactions_by_order(tx_orders)
    }

    /// The hashes of the transactions stored at `tx_orders`, one result for
    /// each order and in the same place.
    pub fn get_tx_hashes(&self, tx_orders: Vec<u64>) -> (r: Vec<Option<H256>>)
        ensures
            is_ledger(self@.transactions),
            r@.len() == tx_orders@.len(),
            forall|i: int|
                0 <= i < tx_orders@.len() ==> digest_of(#[trigger] r@[i]) == hash_at(
                    self@.transactions,
                    tx_orders@[i],
                ),
    {
        self.transaction_store.get_tx_hashes(tx_orders)
    }

    /// The checkpoint, or `None` when nothing was ever sequenced.
    pub fn get_sequencer_info(&self) -> (r: Option<SequencerInfo>)
        ensures
            checkpoint_of(r) == self@.checkpoint,
    {
        self.meta_store.get_sequencer_info()
    }

    /// Puts `sequencer_info` in the place of the checkpoint.
    pub fn save_sequencer_info(&mut self, sequencer_info: SequencerInfo)
        ensures
            final(self)@ == (LedgerState {
                checkpoint: Some(sequencer_info@),
                ..old(self)@
            }),
    {
        self.meta_store.save_sequencer_info(sequencer_info)
    }

    /// Removes the checkpoint.
    pub fn remove_sequencer_info(&mut self)
        ensures
            final(self)@ == (LedgerState { checkpoint: None, ..old(self)@ }),
    {
        self.meta_store.remove_sequence_info()
    }

    /// Stores the changes of the transaction at `tx_order`. Fails with
    /// `Conflict`, and changes nothing, when that order has a change set.
    pub fn save_state_change_set(&mut self, tx_order: u64, state_change_set: StateChangeSetExt) -> (r:
        Result<(), StoreError>)
        ensures
            final(self)@ == (LedgerState {
                change_sets: change_set_saved(old(self)@.change_sets, tx_order, state_change_set@),
                ..old(self)@
            }),
            r == (match change_set_refusal(old(self)@.change_sets, tx_order) {
                Some(error) => Err::<(), StoreError>(error),
                None => Ok::<(), StoreError>(()),
            }),
    {
        self.state_store.save_state_change_set(tx_order, state_change_set)
    }

    /// The changes of the transaction at `tx_order`, if they are stored.
    pub fn get_state_change_set(&self, tx_order: u64) -> (r: Option<StateChangeSetExt>)
        ensures
            change_set_of(r) == change_set_at(self@.change_sets, tx_order),
    {
        self.state_store.get_state_change_set(tx_order)
    }

    /// The changes of the transactions at `tx_orders`, one result for each
    /// order and in the same place.
    pub fn multi_get_state_change_set(&self, tx_orders: Vec<u64>) -> (r: Vec<
        Option<StateChangeSetExt>,
    >)
        ensures
            r@.len() == tx_orders@.len(),
            forall|i: int|
                0 <= i < tx_orders@.len() ==> change_set_of(#[trigger] r@[i]) == change_set_at(
                    self@.change_sets,
                    tx_orders@[i],
                ),
    {
        self.state_store.multi_get_state_change_set(tx_orders)
    }

    /// Removes the changes of the transaction at `tx_order`, if they are
    /// stored.
    pub fn remove_state_change_set(&mut self, tx_order: u64)
        ensures
            final(self)@ == (LedgerState {
                change_sets: old(self)@.change_sets.remove(tx_order),
                ..old(self)@
            }),
    {
        self.state_store.remove_state_change_set(tx_order)
    }

    /// Checks the checkpoint against the transaction log and the
    /// accumulator. Fails with `Corruption` where they disagree.
    pub fn check_consistency(&self) -> (r: Result<(), StoreError>)
        ensures
            is_consistent(self@) ==> r == Ok::<(), StoreError>(()),
            !is_consistent(self@) ==> r == Err::<(), StoreError>(StoreError::Corruption),
    {
        let highest = self.transaction_store.get_highest_order();
        let count = self.transaction_accumulator_store.get_leaf_count();
        let agrees = match self.meta_store.get_sequencer_info() {
            None => highest.is_none() && count == 0,
            Some(info) => {
                let root = self.transaction_accumulator_store.get_root();
                let same_order = match (info.last_order, highest) {
                    (Some(last), Some(top)) => last == top && last < u64::MAX && count == last + 1,
                    (None, None) => count == 0,
                    _ => false,
                };
                same_order && info.last_accumulator_root == root
            },
        };
        if agrees {
            Ok(())
        } else {
            Err(StoreError::Corruption)
        }
    }

    /// Whether the two roots of `batch` are what the accumulator had before
    /// the order `first_order` and after the `tx_count` orders from it on.
    pub fn verify_batch(&self, batch: &Batch, first_order: u64) -> (r: bool)
        ensures
            r == batch_matches(self@.leaves, batch@, first_order),
    {
        let count = self.transaction_accumulator_store.get_leaf_count();
        if first_order > count || batch.tx_count > count - first_order {
            return false;
        }
        let before = self.transaction_accumulator_store.get_root_at(first_order);
        let after = self.transaction_accumulator_store.get_root_at(first_order + batch.tx_count);
        match (before, after) {
            (Some(before), Some(after)) => batch.prev_tx_accumulator_root == before
                && batch.tx_accumulator_root == after,
            _ => false,
        }
    }

    /// The batch for block `block_number` over the `tx_count` orders from
    /// `first_order` on, with the accumulator roots before and after them, or
    /// `None` where the accumulator does not reach that far.
    pub fn build_batch(
        &self,
        block_number: u128,
        first_order: u64,
        tx_count: u64,
        batch_hash: H256,
        data: Vec<u8>,
    ) -> (r: Option<Batch>)
        ensures
            first_order + tx_count <= self@.leaves.len() ==> r is Some && r->0@.block_number
                == block_number && r->0@.tx_count == tx_count && r->0@.batch_hash == batch_hash@
                && r->0@.data == data@ && batch_matches(self@.leaves, r->0@, first_order),
            first_order + tx_count > self@.leaves.len() ==> r is None,
    {
        let count = self.transaction_accumulator_store.get_leaf_count();
        if first_order > count || tx_count > count - first_order {
            return None;
        }
        let before = self.transaction_accumulator_store.get_root_at(first_order);
        let after = self.transaction_accumulator_store.get_root_at(first_order + tx_count);
        match (before, after) {
            (Some(before), Some(after)) => Some(
                Batch {
                    block_number,
                    tx_count,
                    prev_tx_accumulator_root: before,
                    tx_accumulator_root: after,
                    batch_hash,
                    data,
                },
            ),
            _ => None,
        }
    }

    /// The inclusion proof of the transaction hash at `tx_order` in the
    /// accumulator. Fails with `NotFound` where the accumulator has no such
    /// leaf.
    pub fn get_transaction_proof(&self, tx_order: u64) -> (r: Result<InclusionProof, StoreError>)
        ensures
            tx_order < self@.leaves.len() ==> r is Ok && r->Ok_0.leaf_index == tx_order
                && r->Ok_0.leaf_count == self@.leaves.len() && r->Ok_0.proves(
                merkle_root(self@.leaves),
                self@.leaves[tx_order as int],
            ),
            tx_order >= self@.leaves.len() ==> r is Err && r->Err_0 == StoreError::NotFound,
    {
        self.transaction_accumulator_store.get_proof(tx_order)
    }
}

} // verus!
