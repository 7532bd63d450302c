//! What holds of every run of the ledger store.

use crate::error::StoreError;
use crate::merkle::merkle_root;
use crate::meta_store::{next_order, SequencerInfoView};
use crate::state_store::StateChangeSetView;
use crate::store::{
    after_sequence, empty_store, is_consistent, save_refusal, sequence_refusal, LedgerState,
};
use crate::transaction_store::{
    hash_at, hash_taken, is_ledger, lemma_transaction_with_hash, transaction_with_hash,
    LedgerTransactionView,
};
use vstd::prelude::*;

verus! {

/// A transaction with the state changes of its execution.
pub type Sequenced = (LedgerTransactionView, StateChangeSetView);

/// The store after the transactions of `items` were sequenced one after the
/// other on `start`, or `None` where one of them was refused.
pub open spec fn sequence_all(start: LedgerState, items: Seq<Sequenced>) -> Option<
    LedgerState,
>
    decreases items.len(),
{
    if items.len() == 0 {
        Some(start)
    } else {
        match sequence_all(start, items.drop_last()) {
            None => None,
            Some(s) => if sequence_refusal(s, items.last().0) is None {
                Some(after_sequence(s, items.last().0, items.last().1))
            } else {
                None
            },
        }
    }
}

/// The hashes of the transactions of `items`.
pub open spec fn stream_hashes(items: Seq<Sequenced>) -> Seq<Seq<u8>> {
    Seq::new(items.len(), |i: int| items[i].0.hash)
}

/// The transactions come with the orders 0, 1, 2, ..., their hashes differ,
/// and there are at most `u64::MAX` of them.
pub open spec fn is_valid_stream(items: Seq<Sequenced>) -> bool {
    &&& items.len() <= u64::MAX
    &&& forall|i: int| 0 <= i < items.len() ==> (#[trigger] items[i]).0.order == i
    &&& forall|i: int, j: int|
        0 <= i < j < items.len() ==> (#[trigger] items[i]).0.hash != (#[trigger] items[j]).0.hash
}

/// A transaction whose order does not follow the checkpoint is refused with
/// `Conflict`, where it is sequenced and where it is written to the
/// transaction log alone.
pub proof fn lemma_out_of_order_is_refused(s: LedgerState, tx: LedgerTransactionView)
    requires
        next_order(s.checkpoint) != Some(tx.order),
    ensures
        sequence_refusal(s, tx) == Some(StoreError::Conflict),
        save_refusal(s, tx) == Some(StoreError::Conflict),
{
}

/// Sequencing a transaction on a consistent store leaves the store
/// consistent.
pub proof fn lemma_sequence_keeps_consistency(
    s: LedgerState,
    tx: LedgerTransactionView,
    changes: StateChangeSetView,
)
    requires
        is_consistent(s),
        sequence_refusal(s, tx) is None,
    ensures
        is_consistent(after_sequence(s, tx, changes)),
{
    let after = after_sequence(s, tx, changes);
    assert forall|other: u64| #[trigger] after.transactions.contains_key(other) implies other
        <= tx.order by {
        if other != tx.order {
            assert(s.transactions.contains_key(other));
        }
    }
}

/// After the transactions with the orders 0 to n - 1 were sequenced on the
/// empty store, the checkpoint names the order n - 1 and the root of the
/// accumulator over their n hashes; every transaction is found by its hash
/// and its hash by its order; the state changes of each stand at its order.
pub proof fn lemma_sequenced_stream(items: Seq<Sequenced>)
    requires
        is_valid_stream(items),
    ensures
        sequence_all(empty_store(), items) is Some,
        ({
            let s = sequence_all(empty_store(), items)->0;
            &&& is_consistent(s)
            &&& is_ledger(s.transactions)
            &&& s.leaves == stream_hashes(items)
            &&& items.len() == 0 ==> s.checkpoint is None
            &&& items.len() > 0 ==> s.checkpoint == Some(
                SequencerInfoView {
                    last_order: Some((items.len() - 1) as u64),
                    last_accumulator_root: merkle_root(stream_hashes(items)),
                },
            )
            &&& forall|order: u64| #[trigger]
                s.transactions.contains_key(order) <==> order < items.len()
            &&& forall|order: u64| #[trigger]
                s.change_sets.contains_key(order) <==> order < items.len()
            &&& forall|i: int|
                0 <= i < items.len() ==> {
                    &&& s.transactions[i as u64] == (#[trigger] items[i]).0
                    &&& transaction_with_hash(s.transactions, items[i].0.hash) == Some(items[i].0)
                    &&& hash_at(s.transactions, i as u64) == Some(items[i].0.hash)
                    &&& s.change_sets[i as u64] == items[i].1
                }
        }),
    decreases items.len(),
{
    if items.len() == 0 {
        let s = empty_store();
        assert(s.leaves =~= stream_hashes(items));
    } else {
        let n = items.len();
        let prefix = items.drop_last();
        assert forall|i: int| 0 <= i < prefix.len() implies (#[trigger] prefix[i]).0.order == i by {
            assert(prefix[i] == items[i]);
        }
        assert forall|i: int, j: int| 0 <= i < j < prefix.len() implies (#[trigger] prefix[i]).0.hash
            != (#[trigger] prefix[j]).0.hash by {
            assert(prefix[i] == items[i]);
            assert(prefix[j] == items[j]);
        }
        lemma_sequenced_stream(prefix);
        let s0 = sequence_all(empty_store(), prefix)->0;
        let tx = items.last().0;
        let changes = items.last().1;
        assert(items.last() == items[n - 1]);
        assert(tx.order == n - 1);
        assert(!hash_taken(s0.transactions, tx.hash)) by {
            if hash_taken(s0.transactions, tx.hash) {
                let order = choose|order: u64| #[trigger]
                    s0.transactions.contains_key(order) && s0.transactions[order].hash == tx.hash;
                assert(prefix[order as int] == items[order as int]);
                assert(s0.transactions[order] == prefix[order as int].0);
                assert(false);
            }
        }
        assert(sequence_refusal(s0, tx) is None);
        let s = after_sequence(s0, tx, changes);
        assert(sequence_all(empty_store(), items) == Some(s));
        lemma_sequence_keeps_consistency(s0, tx, changes);
        assert(s.leaves =~= stream_hashes(items)) by {
            assert(stream_hashes(prefix).push(tx.hash) =~= stream_hashes(items));
        }
        assert forall|i: int| 0 <= i < items.len() implies s.transactions[i as u64] == (
        #[trigger] items[i]).0 && s.change_sets[i as u64] == items[i].1 by {
            if i < n - 1 {
                assert(prefix[i] == items[i]);
            }
        }
        assert(is_ledger(s.transactions)) by {
            assert forall|a: u64, b: u64|
                #![trigger s.transactions[a], s.transactions[b]]
                s.transactions.contains_key(a) && s.transactions.contains_key(b)
                    && s.transactions[a].hash == s.transactions[b].hash implies a == b by {
                assert(s.transactions[a] == items[a as int].0);
                assert(s.transactions[b] == items[b as int].0);
            }
            assert forall|order: u64| #[trigger]
                s.transactions.contains_key(order) implies s.transactions[order].order
                == order by {
                assert(s.transactions[order] == items[order as int].0);
            }
        }
        assert forall|i: int| 0 <= i < items.len() implies transaction_with_hash(
            s.transactions,
            (#[trigger] items[i]).0.hash,
        ) == Some(items[i].0) && hash_at(s.transactions, i as u64) == Some(items[i].0.hash) by {
            assert(s.transactions.contains_key(i as u64));
            lemma_transaction_with_hash(s.transactions, i as u64);
        }
    }
}

} // verus!
