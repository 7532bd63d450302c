use rooch_store::digest::{sha3_256_of, H256};
use rooch_store::error::StoreError;
use rooch_store::meta_store::{MetaDBStore, SequencerInfo};
use rooch_store::state_store::{StateChangeSetExt, StateDBStore};
use rooch_store::transaction_store::{LedgerTransaction, TransactionDBStore};

fn hash(i: u64) -> H256 {
    sha3_256_of(&i.to_le_bytes())
}

fn tx(order: u64) -> LedgerTransaction {
    LedgerTransaction::new(order, hash(order), vec![order as u8, 1, 2])
}

fn changes(size: u64) -> StateChangeSetExt {
    StateChangeSetExt { state_root: hash(1000 + size), global_size: size, changes: vec![size as u8; 3] }
}

#[test]
fn transaction_round_trip() {
    let mut store = TransactionDBStore::new();
    for order in 0..6 {
        assert_eq!(store.save_transaction(tx(order)), Ok(()));
    }
    for order in 0..6 {
        let found = store.get_transaction_by_hash(hash(order)).unwrap();
        assert_eq!(found.order, order);
        assert_eq!(found.hash, hash(order));
        assert_eq!(found.payload, vec![order as u8, 1, 2]);
        assert_eq!(store.get_tx_hashes(vec![order]), vec![Some(hash(order))]);
        let by_order = store.get_transaction_by_order(order).unwrap();
        assert_eq!(by_order.hash, hash(order));
    }
    assert!(store.get_transaction_by_hash(hash(6)).is_none());
    assert!(store.get_transaction_by_order(6).is_none());
}

#[test]
fn transaction_order_is_not_overwritten() {
    let mut store = TransactionDBStore::new();
    store.save_transaction(tx(3)).unwrap();
    let other = LedgerTransaction::new(3, hash(77), vec![9]);
    assert_eq!(store.save_transaction(other), Err(StoreError::Conflict));
    let found = store.get_transaction_by_order(3).unwrap();
    assert_eq!(found.hash, hash(3));
    assert_eq!(found.payload, vec![3, 1, 2]);
    assert!(store.get_transaction_by_hash(hash(77)).is_none());
}

#[test]
fn transaction_hash_is_not_stored_twice() {
    let mut store = TransactionDBStore::new();
    store.save_transaction(tx(3)).unwrap();
    let other = LedgerTransaction::new(4, hash(3), vec![9]);
    assert_eq!(store.save_transaction(other), Err(StoreError::Conflict));
    assert!(store.get_transaction_by_order(4).is_none());
    assert_eq!(store.get_transaction_by_hash(hash(3)).unwrap().order, 3);
    assert!(!store.contains_order(4));
    assert!(store.contains_order(3));
    assert!(store.contains_hash(&hash(3)));
    assert!(!store.contains_hash(&hash(4)));
}

#[test]
fn batch_lookups_keep_their_places() {
    let mut store = TransactionDBStore::new();
    for order in [5u64, 1, 3] {
        store.save_transaction(tx(order)).unwrap();
    }
    let hashes = store.get_tx_hashes(vec![3, 2, 5, 5, 0, 1]);
    assert_eq!(hashes, vec![Some(hash(3)), None, Some(hash(5)), Some(hash(5)), None, Some(hash(1))]);
    let found = store.get_transactions_by_order(vec![2, 1, 9, 5]);
    let orders: Vec<Option<u64>> = found.iter().map(|t| t.as_ref().map(|t| t.order)).collect();
    assert_eq!(orders, vec![None, Some(1), None, Some(5)]);
    let found = store.get_transactions(vec![hash(5), hash(4), hash(1), hash(5)]);
    let orders: Vec<Option<u64>> = found.iter().map(|t| t.as_ref().map(|t| t.order)).collect();
    assert_eq!(orders, vec![Some(5), None, Some(1), Some(5)]);
    assert!(store.get_tx_hashes(Vec::new()).is_empty());
    assert!(store.get_transactions(Vec::new()).is_empty());
}

#[test]
fn remove_takes_record_and_index_entry() {
    let mut store = TransactionDBStore::new();
    for order in 0..4 {
        store.save_transaction(tx(order)).unwrap();
    }
    assert_eq!(store.remove_transaction(hash(2), 2), Ok(()));
    assert!(store.get_transaction_by_order(2).is_none());
    assert!(store.get_transaction_by_hash(hash(2)).is_none());
    assert_eq!(store.get_tx_hashes(vec![1, 2, 3]), vec![Some(hash(1)), None, Some(hash(3))]);
    assert_eq!(store.get_transaction_by_hash(hash(3)).unwrap().order, 3);
    assert_eq!(store.save_transaction(tx(2)), Ok(()));
    assert_eq!(store.get_transaction_by_hash(hash(2)).unwrap().order, 2);
}

#[test]
fn remove_wants_a_matching_pair() {
    let mut store = TransactionDBStore::new();
    store.save_transaction(tx(1)).unwrap();
    store.save_transaction(tx(2)).unwrap();
    assert_eq!(store.remove_transaction(hash(1), 2), Err(StoreError::NotFound));
    assert_eq!(store.remove_transaction(hash(2), 1), Err(StoreError::NotFound));
    assert_eq!(store.remove_transaction(hash(7), 7), Err(StoreError::NotFound));
    assert_eq!(store.get_tx_hashes(vec![1, 2]), vec![Some(hash(1)), Some(hash(2))]);
    assert_eq!(store.get_transaction_by_hash(hash(1)).unwrap().order, 1);
    assert_eq!(store.get_transaction_by_hash(hash(2)).unwrap().order, 2);
}

#[test]
fn highest_order_is_the_largest_key() {
    let mut store = TransactionDBStore::new();
    assert_eq!(store.get_highest_order(), None);
    for order in [4u64, 9, 2] {
        store.save_transaction(tx(order)).unwrap();
    }
    assert_eq!(store.get_highest_order(), Some(9));
    store.remove_transaction(hash(9), 9).unwrap();
    assert_eq!(store.get_highest_order(), Some(4));
    store.save_transaction(tx(u64::MAX)).unwrap();
    assert_eq!(store.get_highest_order(), Some(u64::MAX));
}

#[test]
fn checkpoint_is_overwritten_not_appended() {
    let mut store = MetaDBStore::new();
    assert!(store.get_sequencer_info().is_none());
    assert_eq!(store.get_next_order(), Some(0));
    store.save_sequencer_info(SequencerInfo::new(0, hash(0)));
    store.save_sequencer_info(SequencerInfo::new(1, hash(1)));
    let info = store.get_sequencer_info().unwrap();
    assert_eq!(info.last_order, Some(1));
    assert_eq!(info.last_accumulator_root, hash(1));
    assert_eq!(store.get_next_order(), Some(2));
    store.remove_sequence_info();
    assert!(store.get_sequencer_info().is_none());
    assert_eq!(store.get_next_order(), Some(0));
}

#[test]
fn next_order_at_the_edges() {
    let mut store = MetaDBStore::new();
    store.save_sequencer_info(SequencerInfo { last_order: None, last_accumulator_root: hash(0) });
    assert_eq!(store.get_next_order(), Some(0));
    store.save_sequencer_info(SequencerInfo::new(u64::MAX - 1, hash(0)));
    assert_eq!(store.get_next_order(), Some(u64::MAX));
    store.save_sequencer_info(SequencerInfo::new(u64::MAX, hash(0)));
    assert_eq!(store.get_next_order(), None);
}

#[test]
fn change_set_is_written_once() {
    let mut store = StateDBStore::new();
    assert_eq!(store.save_state_change_set(7, changes(1)), Ok(()));
    assert_eq!(store.save_state_change_set(7, changes(2)), Err(StoreError::Conflict));
    let found = store.get_state_change_set(7).unwrap();
    assert_eq!(found.global_size, 1);
    assert_eq!(found.state_root, hash(1001));
    assert_eq!(found.changes, vec![1u8; 3]);
    assert!(store.contains(7));
    assert!(!store.contains(8));
}

#[test]
fn change_sets_are_found_in_place() {
    let mut store = StateDBStore::new();
    for order in [2u64, 0, 4] {
        store.save_state_change_set(order, changes(order + 10)).unwrap();
    }
    let found = store.multi_get_state_change_set(vec![4, 1, 0, 4, 7, 2]);
    let sizes: Vec<Option<u64>> = found.iter().map(|c| c.as_ref().map(|c| c.global_size)).collect();
    assert_eq!(sizes, vec![Some(14), None, Some(10), Some(14), None, Some(12)]);
    assert!(store.multi_get_state_change_set(Vec::new()).is_empty());
    assert!(store.get_state_change_set(1).is_none());
}

#[test]
fn change_set_removal_frees_the_order() {
    let mut store = StateDBStore::new();
    store.save_state_change_set(1, changes(1)).unwrap();
    store.save_state_change_set(2, changes(2)).unwrap();
    store.remove_state_change_set(1);
    store.remove_state_change_set(9);
    assert!(store.get_state_change_set(1).is_none());
    assert_eq!(store.get_state_change_set(2).unwrap().global_size, 2);
    assert_eq!(store.save_state_change_set(1, changes(5)), Ok(()));
    assert_eq!(store.get_state_change_set(1).unwrap().global_size, 5);
}

#[test]
fn hashes_with_one_beginning_are_told_apart() {
    let mut store = TransactionDBStore::new();
    let mut hashes = Vec::new();
    for i in 0..20u8 {
        let mut bytes = [7u8; 32];
        bytes[8 + (i as usize % 24)] = i + 100;
        bytes[31] = i;
        hashes.push(H256::new(bytes));
    }
    for (order, hash) in hashes.iter().enumerate() {
        let tx = LedgerTransaction::new(order as u64, *hash, vec![order as u8]);
        assert_eq!(store.save_transaction(tx), Ok(()));
    }
    for (order, hash) in hashes.iter().enumerate() {
        assert_eq!(store.get_transaction_by_hash(*hash).unwrap().order, order as u64);
        let again = LedgerTransaction::new(100 + order as u64, *hash, vec![]);
        assert_eq!(store.save_transaction(again), Err(StoreError::Conflict));
    }
    assert!(store.get_transaction_by_hash(H256::new([7u8; 32])).is_none());
    for order in (0..20u64).step_by(2) {
        assert_eq!(store.remove_transaction(hashes[order as usize], order), Ok(()));
    }
    for (order, hash) in hashes.iter().enumerate() {
        let found = store.get_transaction_by_hash(*hash);
        if order % 2 == 0 {
            assert!(found.is_none());
        } else {
            assert_eq!(found.unwrap().order, order as u64);
        }
    }
}

#[test]
fn many_transactions_are_all_found() {
    let mut store = TransactionDBStore::new();
    for order in 0..500u64 {
        store.save_transaction(tx(order)).unwrap();
    }
    for order in 0..500u64 {
        assert_eq!(store.get_transaction_by_hash(hash(order)).unwrap().order, order);
    }
    assert_eq!(store.get_highest_order(), Some(499));
    assert!(store.get_transaction_by_hash(hash(500)).is_none());
}
