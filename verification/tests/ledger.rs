use rooch_store::accumulator_store::AccumulatorStore;
use rooch_store::api::{AccountAPI, AccountServer, PublishPackage};
use rooch_store::digest::{hash_pair, sha3_256_of, H256};
use rooch_store::error::StoreError;
use rooch_store::messages::{Batch, PutBatchInternalDAMessage};
use rooch_store::meta_store::SequencerInfo;
use rooch_store::state_store::StateChangeSetExt;
use rooch_store::store::{RoochStore, StoreInstance, StoreMeta};
use rooch_store::transaction_store::LedgerTransaction;

fn hash(i: u64) -> H256 {
    sha3_256_of(&i.to_le_bytes())
}

fn tx(order: u64) -> LedgerTransaction {
    LedgerTransaction::new(order, hash(order), vec![order as u8; 4])
}

fn changes(order: u64) -> StateChangeSetExt {
    StateChangeSetExt { state_root: hash(500 + order), global_size: order, changes: vec![1, 2] }
}

fn sequenced(count: u64) -> RoochStore {
    let mut store = RoochStore::new();
    for order in 0..count {
        store.sequence(tx(order), changes(order)).unwrap();
    }
    store
}

/// What can be seen of the store from outside, for the orders below `upto`.
fn snapshot(store: &RoochStore, upto: u64) -> (Option<(Option<u64>, H256)>, u64, H256, Vec<Option<H256>>, Vec<Option<u64>>) {
    let orders: Vec<u64> = (0..upto).collect();
    let info = store.get_sequencer_info().map(|i| (i.last_order, i.last_accumulator_root));
    let sets = store.multi_get_state_change_set(orders.clone());
    (
        info,
        store.get_transaction_accumulator_store().get_leaf_count(),
        store.get_transaction_accumulator_store().get_root(),
        store.get_tx_hashes(orders),
        sets.iter().map(|c| c.as_ref().map(|c| c.global_size)).collect(),
    )
}

#[test]
fn fresh_store_is_empty_and_consistent() {
    let store = RoochStore::new();
    assert!(store.get_sequencer_info().is_none());
    assert_eq!(store.get_transaction_accumulator_store().get_leaf_count(), 0);
    assert_eq!(store.get_transaction_store().get_highest_order(), None);
    assert!(store.get_state_store().get_state_change_set(0).is_none());
    assert!(store.get_meta_store().get_sequencer_info().is_none());
    assert_eq!(store.check_consistency(), Ok(()));
    let mock = RoochStore::mock_rooch_store();
    assert_eq!(snapshot(&mock, 3), snapshot(&store, 3));
}

#[test]
fn sequence_three_transactions() {
    let mut store = RoochStore::new();
    let (h1, h2, h3) = (hash(0), hash(1), hash(2));
    let (root0, info0) = store.sequence(tx(0), changes(0)).unwrap();
    assert_eq!(root0, h1);
    assert_eq!(info0.last_order, Some(0));
    assert_eq!(info0.last_accumulator_root, root0);
    let (root1, _) = store.sequence(tx(1), changes(1)).unwrap();
    assert_eq!(root1, hash_pair(&h1, &h2));
    let (root2, info2) = store.sequence(tx(2), changes(2)).unwrap();
    assert_eq!(root2, hash_pair(&hash_pair(&h1, &h2), &h3));
    assert_eq!(info2.last_order, Some(2));

    let info = store.get_sequencer_info().unwrap();
    assert_eq!(info.last_order, Some(2));
    assert_eq!(info.last_accumulator_root, root2);

    let found = store.get_transactions_by_hash(vec![h2]);
    assert_eq!(found.len(), 1);
    let found = found[0].as_ref().unwrap();
    assert_eq!(found.order, 1);
    assert_eq!(found.hash, h2);
    assert_eq!(found.payload, vec![1u8; 4]);

    let batch = store.build_batch(1, 0, 3, hash(900), vec![1, 2, 3]).unwrap();
    assert_eq!(batch.tx_count, 3);
    assert_eq!(batch.prev_tx_accumulator_root, AccumulatorStore::new().get_root());
    assert_eq!(batch.prev_tx_accumulator_root, sha3_256_of(b""));
    assert_eq!(batch.tx_accumulator_root, root2);
    assert_eq!(batch.block_number, 1);
    assert_eq!(batch.batch_hash, hash(900));
    assert_eq!(batch.data, vec![1, 2, 3]);
    assert!(store.verify_batch(&batch, 0));
    assert_eq!(store.check_consistency(), Ok(()));
}

#[test]
fn sequence_out_of_order_is_a_conflict() {
    let mut store = sequenced(3);
    let before = snapshot(&store, 8);
    assert_eq!(store.sequence(tx(5), changes(5)).unwrap_err(), StoreError::Conflict);
    assert_eq!(snapshot(&store, 8), before);
    assert!(store.get_transaction_by_hash(hash(5)).is_none());
    assert_eq!(store.get_sequencer_info().unwrap().last_order, Some(2));
    assert_eq!(store.get_transaction_accumulator_store().get_leaf_count(), 3);
    assert_eq!(store.check_consistency(), Ok(()));
}

#[test]
fn sequence_rejects_every_order_but_the_next() {
    let mut store = sequenced(4);
    let before = snapshot(&store, 10);
    for order in [0u64, 1, 2, 3, 5, 6, 100, u64::MAX] {
        let candidate = LedgerTransaction::new(order, hash(1000 + order % 500), vec![]);
        assert_eq!(store.sequence(candidate, changes(order)).unwrap_err(), StoreError::Conflict);
        assert_eq!(snapshot(&store, 10), before);
    }
    assert!(store.sequence(tx(4), changes(4)).is_ok());
}

#[test]
fn first_order_must_be_zero() {
    let mut store = RoochStore::new();
    let before = snapshot(&store, 3);
    assert_eq!(store.sequence(tx(1), changes(1)).unwrap_err(), StoreError::Conflict);
    assert_eq!(snapshot(&store, 3), before);
    assert!(store.sequence(tx(0), changes(0)).is_ok());
}

#[test]
fn sequence_rejects_a_known_hash() {
    let mut store = sequenced(3);
    let before = snapshot(&store, 5);
    let again = LedgerTransaction::new(3, hash(1), vec![7]);
    assert_eq!(store.sequence(again, changes(3)).unwrap_err(), StoreError::Conflict);
    assert_eq!(snapshot(&store, 5), before);
}

#[test]
fn sequence_rejects_an_order_with_changes() {
    let mut store = sequenced(2);
    store.save_state_change_set(2, changes(77)).unwrap();
    let before = snapshot(&store, 5);
    assert_eq!(store.sequence(tx(2), changes(2)).unwrap_err(), StoreError::Conflict);
    assert_eq!(snapshot(&store, 5), before);
    assert_eq!(store.get_state_change_set(2).unwrap().global_size, 77);
}

#[test]
fn failed_sequence_can_be_tried_again() {
    let mut store = sequenced(2);
    store.save_state_change_set(2, changes(77)).unwrap();
    assert!(store.sequence(tx(2), changes(2)).is_err());
    store.remove_state_change_set(2);
    let (root, info) = store.sequence(tx(2), changes(2)).unwrap();
    assert_eq!(info.last_order, Some(2));
    assert_eq!(root, store.get_transaction_accumulator_store().get_root());
}

#[test]
fn checkpoint_follows_the_stream() {
    let mut store = RoochStore::new();
    let mut alone = AccumulatorStore::new();
    for order in 0..25u64 {
        let (root, info) = store.sequence(tx(order), changes(order)).unwrap();
        let expected = alone.append(hash(order)).unwrap();
        assert_eq!(root, expected);
        assert_eq!(info.last_order, Some(order));
        let stored = store.get_sequencer_info().unwrap();
        assert_eq!(stored.last_order, Some(order));
        assert_eq!(stored.last_accumulator_root, expected);
        assert_eq!(store.check_consistency(), Ok(()));
    }
    for order in 0..25u64 {
        assert_eq!(store.get_transaction_by_hash(hash(order)).unwrap().order, order);
        assert_eq!(store.get_tx_hashes(vec![order])[0], Some(hash(order)));
        assert_eq!(store.get_state_change_set(order).unwrap().global_size, order);
        let proof = store.get_transaction_proof(order).unwrap();
        assert!(proof.verify(&store.get_sequencer_info().unwrap().last_accumulator_root, &hash(order)));
    }
    assert_eq!(store.get_transaction_proof(25).unwrap_err(), StoreError::NotFound);
}

#[test]
fn consistency_check_finds_a_moved_checkpoint() {
    let mut store = sequenced(3);
    let good = store.get_sequencer_info().unwrap();
    store.save_sequencer_info(SequencerInfo::new(1, good.last_accumulator_root));
    assert_eq!(store.check_consistency(), Err(StoreError::Corruption));
    store.save_sequencer_info(SequencerInfo::new(2, hash(4)));
    assert_eq!(store.check_consistency(), Err(StoreError::Corruption));
    store.save_sequencer_info(SequencerInfo { last_order: None, last_accumulator_root: good.last_accumulator_root });
    assert_eq!(store.check_consistency(), Err(StoreError::Corruption));
    store.remove_sequencer_info();
    assert_eq!(store.check_consistency(), Err(StoreError::Corruption));
    store.save_sequencer_info(good);
    assert_eq!(store.check_consistency(), Ok(()));
}

#[test]
fn consistency_check_finds_a_lone_write() {
    let mut store = sequenced(3);
    store.save_transaction(tx(3)).unwrap();
    assert_eq!(store.check_consistency(), Err(StoreError::Corruption));
    store.remove_transaction(hash(3), 3).unwrap();
    assert_eq!(store.check_consistency(), Ok(()));
    store.remove_transaction(hash(2), 2).unwrap();
    assert_eq!(store.check_consistency(), Err(StoreError::Corruption));

    let mut store = sequenced(3);
    store.transaction_accumulator_store.append(hash(3)).unwrap();
    assert_eq!(store.check_consistency(), Err(StoreError::Corruption));

    let mut store = RoochStore::new();
    store.save_sequencer_info(SequencerInfo { last_order: None, last_accumulator_root: sha3_256_of(b"") });
    assert_eq!(store.check_consistency(), Ok(()));
    store.save_sequencer_info(SequencerInfo { last_order: None, last_accumulator_root: hash(0) });
    assert_eq!(store.check_consistency(), Err(StoreError::Corruption));
}

#[test]
fn pruning_below_the_checkpoint_keeps_consistency() {
    let mut store = sequenced(4);
    store.remove_transaction(hash(0), 0).unwrap();
    store.remove_state_change_set(0);
    assert_eq!(store.check_consistency(), Ok(()));
    assert!(store.get_transaction_by_hash(hash(0)).is_none());
    assert_eq!(store.get_transaction_accumulator_store().get_leaf(0), Some(hash(0)));
    assert!(store.sequence(tx(4), changes(4)).is_ok());
}

#[test]
fn facade_reads_and_writes_the_stores() {
    let mut store = RoochStore::new();
    assert_eq!(store.save_transaction(tx(0)), Ok(()));
    assert_eq!(store.save_transaction(tx(0)), Err(StoreError::Conflict));
    assert_eq!(store.get_transaction_store().get_highest_order(), Some(0));
    assert_eq!(store.get_transactions_by_order(vec![0, 9])[0].as_ref().unwrap().hash, hash(0));
    assert_eq!(store.remove_transaction(hash(0), 9), Err(StoreError::NotFound));
    assert_eq!(store.remove_transaction(hash(0), 0), Ok(()));
    assert_eq!(store.save_state_change_set(1, changes(1)), Ok(()));
    assert_eq!(store.save_state_change_set(1, changes(2)), Err(StoreError::Conflict));
    assert_eq!(store.get_state_store().get_state_change_set(1).unwrap().global_size, 1);
    store.save_sequencer_info(SequencerInfo::new(4, hash(4)));
    assert_eq!(store.get_meta_store().get_sequencer_info().unwrap().last_order, Some(4));
    store.remove_sequencer_info();
    assert!(store.get_sequencer_info().is_none());
}

#[test]
fn batch_roots_are_checked_against_the_accumulator() {
    let store = sequenced(9);
    let acc = store.get_transaction_accumulator_store();
    let batch = store.build_batch(7, 3, 4, hash(1), vec![5; 8]).unwrap();
    assert_eq!(batch.prev_tx_accumulator_root, acc.get_root_at(3).unwrap());
    assert_eq!(batch.tx_accumulator_root, acc.get_root_at(7).unwrap());
    assert!(store.verify_batch(&batch, 3));
    assert!(!store.verify_batch(&batch, 2));
    assert!(!store.verify_batch(&batch, 4));
    let mut longer = batch.clone();
    longer.tx_count = 5;
    assert!(!store.verify_batch(&longer, 3));
    let mut other = batch.clone();
    other.tx_accumulator_root = hash(3);
    assert!(!store.verify_batch(&other, 3));
    let mut prev = batch.clone();
    prev.prev_tx_accumulator_root = hash(3);
    assert!(!store.verify_batch(&prev, 3));
    assert!(store.build_batch(7, 3, 7, hash(1), vec![]).is_none());
    assert!(store.build_batch(7, 10, 0, hash(1), vec![]).is_none());
    assert!(store.build_batch(7, u64::MAX, u64::MAX, hash(1), vec![]).is_none());
    let whole = store.build_batch(8, 0, 9, hash(1), vec![]).unwrap();
    assert_eq!(whole.tx_accumulator_root, acc.get_root());
    let nothing = store.build_batch(9, 9, 0, hash(1), vec![]).unwrap();
    assert_eq!(nothing.prev_tx_accumulator_root, nothing.tx_accumulator_root);
    assert!(store.verify_batch(&nothing, 9));
    let far = Batch { tx_count: u64::MAX, ..batch.clone() };
    assert!(!store.verify_batch(&far, u64::MAX));
}

#[test]
fn batches_compare_by_their_fields() {
    let store = sequenced(4);
    let batch = store.build_batch(1, 0, 4, hash(1), vec![1, 2]).unwrap();
    assert_eq!(batch, batch.clone());
    assert_ne!(batch, Batch { block_number: 2, ..batch.clone() });
    assert_ne!(batch, Batch { data: vec![1, 3], ..batch.clone() });
    assert_ne!(batch, Batch { data: vec![1], ..batch.clone() });
    assert_ne!(batch, Batch { batch_hash: hash(2), ..batch.clone() });
    let message = PutBatchInternalDAMessage::new(batch.clone());
    assert_eq!(message.batch, batch);
}

#[test]
fn store_is_rebuilt_from_its_records() {
    let source = sequenced(6);
    let instance = StoreInstance {
        transactions: (0..6).rev().map(tx).collect(),
        sequencer_info: source.get_sequencer_info(),
        accumulator_leaves: (0..6).map(hash).collect(),
        state_change_sets: (0..6).map(|o| (o, changes(o))).collect(),
    };
    let store = RoochStore::new_with_instance(&instance).unwrap();
    assert_eq!(snapshot(&store, 8), snapshot(&source, 8));
    assert_eq!(store.check_consistency(), Ok(()));
    for order in 0..6 {
        assert_eq!(store.get_transaction_by_hash(hash(order)).unwrap().payload, vec![order as u8; 4]);
    }
}

#[test]
fn rebuilding_finds_clashing_records() {
    let mut instance = StoreInstance {
        transactions: vec![tx(0), tx(1), tx(0)],
        sequencer_info: None,
        accumulator_leaves: vec![],
        state_change_sets: vec![],
    };
    assert_eq!(RoochStore::new_with_instance(&instance).err(), Some(StoreError::Conflict));
    instance.transactions = vec![tx(0), LedgerTransaction::new(1, hash(0), vec![])];
    assert_eq!(RoochStore::new_with_instance(&instance).err(), Some(StoreError::Conflict));
    instance.transactions = vec![tx(0), tx(1)];
    instance.state_change_sets = vec![(1, changes(1)), (1, changes(2))];
    assert_eq!(RoochStore::new_with_instance(&instance).err(), Some(StoreError::Conflict));
    instance.state_change_sets = vec![(1, changes(1))];
    let store = RoochStore::new_with_instance(&instance).unwrap();
    assert_eq!(store.check_consistency(), Err(StoreError::Corruption));
}

#[test]
fn partitions_are_named_in_order() {
    let names = StoreMeta::get_column_family_names();
    assert_eq!(
        names,
        vec![
            "transaction",
            "tx_sequence_info_mapping",
            "meta_sequencer_info",
            "transaction_acc_node",
            "state_change_set",
        ]
    );
}

#[test]
fn errors_describe_themselves() {
    assert_eq!(StoreError::StorageIO.message(), "storage failure");
    assert_eq!(StoreError::NotFound.message(), "not found");
    assert_eq!(StoreError::Conflict.message(), "conflict with stored data");
    assert_eq!(StoreError::Corruption.message(), "checkpoint disagrees with the stores");
}

#[test]
fn account_balance_is_fixed() {
    let balance = AccountAPI::new().get_balance("Rooch".to_string());
    assert_eq!(balance.coin_type, "Rooch");
    assert_eq!(balance.total_balance, 1005);
    let balance = AccountServer::new().get_balance("Gas".to_string());
    assert_eq!(balance.coin_type, "Gas");
    assert_eq!(balance.total_balance, 1005);
}

#[test]
fn package_is_the_bytes_of_its_path() {
    let package = PublishPackage { package_path: ".".to_string() };
    assert_eq!(package.compile_module_and_serailize(), vec![b'.']);
    let package = PublishPackage { package_path: "a/é".to_string() };
    assert_eq!(package.compile_module_and_serailize(), vec![b'a', b'/', 0xc3, 0xa9]);
}

#[test]
fn save_out_of_order_is_a_conflict() {
    let mut store = sequenced(3);
    let before = snapshot(&store, 8);
    let late = LedgerTransaction::new(5, hash(5), vec![5]);
    assert_eq!(store.save_transaction(late), Err(StoreError::Conflict));
    assert_eq!(snapshot(&store, 8), before);
    assert_eq!(
        store.get_tx_hashes(vec![0, 1, 2, 5]),
        vec![Some(hash(0)), Some(hash(1)), Some(hash(2)), None]
    );
    assert!(store.get_transaction_by_hash(hash(5)).is_none());
    assert_eq!(store.get_transaction_store().get_highest_order(), Some(2));
    assert_eq!(store.get_sequencer_info().unwrap().last_order, Some(2));
    assert_eq!(store.get_transaction_accumulator_store().get_leaf_count(), 3);
    assert_eq!(store.check_consistency(), Ok(()));
}

#[test]
fn save_rejects_every_order_but_the_next() {
    let mut store = sequenced(4);
    let before = snapshot(&store, 10);
    for order in [0u64, 1, 2, 3, 5, 6, 100, u64::MAX] {
        let candidate = LedgerTransaction::new(order, hash(2000 + order % 500), vec![]);
        assert_eq!(store.save_transaction(candidate), Err(StoreError::Conflict));
        assert_eq!(snapshot(&store, 10), before);
    }
    let known = LedgerTransaction::new(4, hash(1), vec![]);
    assert_eq!(store.save_transaction(known), Err(StoreError::Conflict));
    assert_eq!(snapshot(&store, 10), before);
    assert_eq!(store.save_transaction(tx(4)), Ok(()));
    assert_eq!(store.get_tx_hashes(vec![4]), vec![Some(hash(4))]);
    assert_eq!(store.get_sequencer_info().unwrap().last_order, Some(3));
    assert_eq!(store.get_transaction_accumulator_store().get_leaf_count(), 4);
    assert_eq!(store.get_transaction_accumulator_store().get_root(), before.2);
}

#[test]
fn first_saved_order_must_be_zero() {
    let mut store = RoochStore::new();
    assert_eq!(store.save_transaction(tx(1)), Err(StoreError::Conflict));
    assert_eq!(store.save_transaction(tx(8)), Err(StoreError::Conflict));
    assert_eq!(store.get_transaction_store().get_highest_order(), None);
    assert_eq!(store.save_transaction(tx(0)), Ok(()));
    assert_eq!(store.get_transaction_by_hash(hash(0)).unwrap().order, 0);
}

#[test]
fn saved_order_follows_a_written_checkpoint() {
    let mut store = RoochStore::new();
    store.save_sequencer_info(SequencerInfo::new(6, hash(6)));
    assert_eq!(store.save_transaction(tx(6)), Err(StoreError::Conflict));
    assert_eq!(store.save_transaction(tx(8)), Err(StoreError::Conflict));
    assert_eq!(store.save_transaction(tx(7)), Ok(()));
    store.save_sequencer_info(SequencerInfo::new(u64::MAX, hash(6)));
    assert_eq!(store.save_transaction(tx(u64::MAX)), Err(StoreError::Conflict));
    assert_eq!(store.save_transaction(tx(0)), Err(StoreError::Conflict));
}
