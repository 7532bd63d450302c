//! The log of sequenced transactions, found by order and by hash.

use crate::digest::{digest_of, H256};
use crate::error::StoreError;
use crate::hash_index::HashIndex;
use std::collections::BTreeMap;
use vstd::prelude::*;

verus! {

broadcast use {vstd::std_specs::btree::group_btree_axioms, vstd::laws_cmp::group_laws_cmp};

/// A sequenced transaction.
#[derive(Debug)]
pub struct LedgerTransaction {
    /// The position of the transaction in the sequence.
    pub order: u64,
    /// The hash of the transaction.
    pub hash: H256,
    /// The transaction itself, encoded.
    pub payload: Vec<u8>,
}

/// What a sequenced transaction holds.
pub struct LedgerTransactionView {
    pub order: u64,
    pub hash: Seq<u8>,
    pub payload: Seq<u8>,
}

impl View for LedgerTransaction {
    type V = LedgerTransactionView;

    open spec fn view(&self) -> LedgerTransactionView {
        LedgerTransactionView { order: self.order, hash: self.hash@, payload: self.payload@ }
    }
}

impl Clone for LedgerTransaction {
    fn clone(&self) -> (r: Self)
        ensures
            r@ == self@,
    {
        let payload = self.payload.clone();
        proof {
            assert(payload@ =~= self.payload@);
        }
        LedgerTransaction { order: self.order, hash: self.hash, payload }
    }
}

impl LedgerTransaction {
    /// The transaction with the given order, hash and payload.
    pub fn new(order: u64, hash: H256, payload: Vec<u8>) -> (r: Self)
        ensures
            r@ == (LedgerTransactionView { order, hash: hash@, payload: payload@ }),
    {
        LedgerTransaction { order, hash, payload }
    }
}

/// A transaction that a lookup found, as what it holds.
pub open spec fn transaction_of(found: Option<LedgerTransaction>) -> Option<
    LedgerTransactionView,
> {
    match found {
        Some(tx) => Some(tx@),
        None => None,
    }
}

/// Every transaction is stored under its own order, and no two have one hash.
pub open spec fn is_ledger(stored: Map<u64, LedgerTransactionView>) -> bool {
    &&& forall|order: u64| #[trigger]
        stored.contains_key(order) ==> stored[order].order == order
    &&& forall|a: u64, b: u64|
        #![trigger stored[a], stored[b]]
        stored.contains_key(a) && stored.contains_key(b) && stored[a].hash == stored[b].hash ==> a
            == b
}

/// Whether a stored transaction has the hash `hash`.
pub open spec fn hash_taken(stored: Map<u64, LedgerTransactionView>, hash: Seq<u8>) -> bool {
    exists|order: u64| #[trigger] stored.contains_key(order) && stored[order].hash == hash
}

/// The transaction stored at `order`, if there is one.
pub open spec fn transaction_at(stored: Map<u64, LedgerTransactionView>, order: u64) -> Option<
    LedgerTransactionView,
> {
    if stored.contains_key(order) {
        Some(stored[order])
    } else {
        None
    }
}

/// The stored transaction with the hash `hash`, if there is one.
pub open spec fn transaction_with_hash(stored: Map<u64, LedgerTransactionView>, hash: Seq<u8>) -> Option<
    LedgerTransactionView,
> {
    if hash_taken(stored, hash) {
        Some(
            stored[choose|order: u64| #[trigger]
                stored.contains_key(order) && stored[order].hash == hash],
        )
    } else {
        None
    }
}

/// The hash of the transaction stored at `order`, if there is one.
pub open spec fn hash_at(stored: Map<u64, LedgerTransactionView>, order: u64) -> Option<Seq<u8>> {
    if stored.contains_key(order) {
        Some(stored[order].hash)
    } else {
        None
    }
}

/// Whether `highest` is the largest order that is stored, or `None` where
/// nothing is stored.
pub open spec fn is_highest_order(stored: Map<u64, LedgerTransactionView>, highest: Option<u64>) -> bool {
    match highest {
        Some(order) => stored.contains_key(order) && forall|other: u64| #[trigger]
            stored.contains_key(other) ==> other <= order,
        None => forall|other: u64| !stored.contains_key(other),
    }
}

/// In a ledger the transaction stored at `order` is the one that its hash
/// leads to.
pub proof fn lemma_transaction_with_hash(stored: Map<u64, LedgerTransactionView>, order: u64)
    requires
        is_ledger(stored),
        stored.contains_key(order),
    ensures
        transaction_with_hash(stored, stored[order].hash) == Some(stored[order]),
{
    let hash = stored[order].hash;
    assert(stored.contains_key(order) && stored[order].hash == hash);
    let found = choose|found: u64| #[trigger]
        stored.contains_key(found) && stored[found].hash == hash;
    assert(stored[found].hash == stored[order].hash);
}

/// Calls `BTreeMap::last_key_value` and hands back the key: the largest key
/// of the map, or `None` where the map is empty.
#[verifier::external_body]
fn last_key(map: &BTreeMap<u64, LedgerTransaction>) -> (r: Option<u64>)
    ensures
        match r {
            Some(key) => map@.contains_key(key) && forall|other: u64| #[trigger]
                map@.contains_key(other) ==> other <= key,
            None => forall|other: u64| !map@.contains_key(other),
        },
{
    match map.last_key_value() {
        Some(found) => Some(*found.0),
        None => None,
    }
}

/// The two tables of the store.
struct Tables {
    by_order: BTreeMap<u64, LedgerTransaction>,
    by_hash: HashIndex,
}

impl Tables {
    /// The transaction stored at each order.
    spec fn stored(self) -> Map<u64, LedgerTransactionView> {
        self.by_order@.map_values(|tx: LedgerTransaction| tx@)
    }

    /// The index holds exactly the hashes of the stored transactions.
    spec fn wf(self) -> bool {
        &&& self.by_hash.wf()
        &&& forall|order: u64| #[trigger]
            self.by_order@.contains_key(order) ==> self.by_order@[order].order == order
                && self.by_hash@.contains_key(self.by_order@[order].hash@)
                && self.by_hash@[self.by_order@[order].hash@] == order
        &&& forall|hash: Seq<u8>| #[trigger]
            self.by_hash@.contains_key(hash) ==> self.by_order@.contains_key(self.by_hash@[hash])
                && self.by_order@[self.by_hash@[hash]].hash@ == hash
    }

    /// Well-formed tables hold a ledger, and the index knows exactly the
    /// hashes that are taken.
    proof fn lemma_is_ledger(self)
        requires
            self.wf(),
        ensures
            is_ledger(self.stored()),
            forall|hash: Seq<u8>|
                hash_taken(self.stored(), hash) <==> #[trigger] self.by_hash@.contains_key(hash),
    {
        let stored = self.stored();
        assert forall|a: u64, b: u64|
            #![trigger stored[a], stored[b]]
            stored.contains_key(a) && stored.contains_key(b) && stored[a].hash
                == stored[b].hash implies a == b by {
            assert(self.by_order@.contains_key(a));
            assert(self.by_order@.contains_key(b));
        }
        assert forall|hash: Seq<u8>|
            hash_taken(stored, hash) <==> #[trigger] self.by_hash@.contains_key(hash) by {
            if hash_taken(stored, hash) {
                let order = choose|order: u64| #[trigger]
                    stored.contains_key(order) && stored[order].hash == hash;
                assert(self.by_order@.contains_key(order));
            }
            if self.by_hash@.contains_key(hash) {
                let order = self.by_hash@[hash];
                assert(stored.contains_key(order) && stored[order].hash == hash);
            }
        }
    }

    /// The tables without transactions.
    fn empty() -> (r: Self)
        ensures
            r.wf(),
            r.stored() == Map::<u64, LedgerTransactionView>::empty(),
    {
        let r = Tables { by_order: BTreeMap::new(), by_hash: HashIndex::new() };
        proof {
            assert(r.stored() =~= Map::<u64, LedgerTransactionView>::empty());
        }
        r
    }

    /// Stores `tx` in both tables, unless its order or its hash is taken.
    fn save(&mut self, tx: LedgerTransaction) -> (r: Result<(), StoreError>)
        requires
            old(self).wf(),
        ensures
            final(self).wf(),
            old(self).stored().contains_key(tx.order) || hash_taken(old(self).stored(), tx.hash@)
                ==> r == Err::<(), StoreError>(StoreError::Conflict) && final(self).stored() == old(
                self,
            ).stored(),
            !(old(self).stored().contains_key(tx.order) || hash_taken(
                old(self).stored(),
                tx.hash@,
            )) ==> r == Ok::<(), StoreError>(()) && final(self).stored() == old(
                self,
            ).stored().insert(tx.order, tx@),
    {
        proof {
            self.lemma_is_ledger();
        }
        if self.by_order.contains_key(&tx.order) {
            return Err(StoreError::Conflict);
        }
        if self.by_hash.get(&tx.hash).is_some() {
            return Err(StoreError::Conflict);
        }
        let order = tx.order;
        let hash = tx.hash;
        let ghost view = tx@;
        self.by_hash.insert(hash, order);
        self.by_order.insert(order, tx);
        proof {
            assert(self.stored() =~= old(self).stored().insert(order, view));
            assert forall|o: u64| #[trigger] self.by_order@.contains_key(o) implies self.by_order@[o].order
                == o && self.by_hash@.contains_key(self.by_order@[o].hash@)
                && self.by_hash@[self.by_order@[o].hash@] == o by {
                if o != order {
                    assert(old(self).by_order@.contains_key(o));
                }
            }
            assert forall|h: Seq<u8>| #[trigger] self.by_hash@.contains_key(h) implies self.by_order@.contains_key(
                self.by_hash@[h],
            ) && self.by_order@[self.by_hash@[h]].hash@ == h by {
                if h != hash@ {
                    assert(old(self).by_hash@.contains_key(h));
                }
            }
        }
        Ok(())
    }

    /// Removes the transaction at `tx_order` from both tables, if it has the
    /// hash `tx_hash`.
    fn remove(&mut self, tx_hash: H256, tx_order: u64) -> (r: Result<(), StoreError>)
        requires
            old(self).wf(),
        ensures
            final(self).wf(),
            transaction_at(old(self).stored(), tx_order) is Some && old(
                self,
            ).stored()[tx_order].hash == tx_hash@ ==> r == Ok::<(), StoreError>(())
                && final(self).stored() == old(self).stored().remove(tx_order),
            !(transaction_at(old(self).stored(), tx_order) is Some && old(
                self,
            ).stored()[tx_order].hash == tx_hash@) ==> r == Err::<(), StoreError>(
                StoreError::NotFound,
            ) && final(self).stored() == old(self).stored(),
    {
        let matches = match self.by_order.get(&tx_order) {
            Some(tx) => tx.hash == tx_hash,
            None => false,
        };
        if !matches {
            return Err(StoreError::NotFound);
        }
        self.by_order.remove(&tx_order);
        self.by_hash.remove(&tx_hash);
        proof {
            assert(self.stored() =~= old(self).stored().remove(tx_order));
            assert forall|o: u64| #[trigger] self.by_order@.contains_key(o) implies self.by_order@[o].order
                == o && self.by_hash@.contains_key(self.by_order@[o].hash@)
                && self.by_hash@[self.by_order@[o].hash@] == o by {
                assert(old(self).by_order@.contains_key(o));
            }
            assert forall|h: Seq<u8>| #[trigger] self.by_hash@.contains_key(h) implies self.by_order@.contains_key(
                self.by_hash@[h],
            ) && self.by_order@[self.by_hash@[h]].hash@ == h by {
                assert(old(self).by_hash@.contains_key(h));
            }
        }
        Ok(())
    }

    /// The transaction stored at `order`.
    fn by_order(&self, order: u64) -> (r: Option<LedgerTransaction>)
        requires
            self.wf(),
        ensures
            transaction_of(r) == transaction_at(self.stored(), order),
    {
        match self.by_order.get(&order) {
            Some(tx) => Some(tx.clone()),
            None => None,
        }
    }

    /// The hash of the transaction stored at `order`.
    fn hash_of(&self, order: u64) -> (r: Option<H256>)
        requires
            self.wf(),
        ensures
            digest_of(r) == hash_at(self.stored(), order),
    {
        match self.by_order.get(&order) {
            Some(tx) => Some(tx.hash),
            None => None,
        }
    }

    /// The transaction with the hash `hash`.
    fn by_hash(&self, hash: &H256) -> (r: Option<LedgerTransaction>)
        requires
            self.wf(),
        ensures
            transaction_of(r) == transaction_with_hash(self.stored(), hash@),
    {
        proof {
            self.lemma_is_ledger();
        }
        match self.by_hash.get(hash) {
            Some(order) => {
                proof {
                    assert(self.stored().contains_key(order));
                    lemma_transaction_with_hash(self.stored(), order);
                }
                self.by_order(order)
            },
            None => None,
        }
    }

    /// The largest order that is stored.
    fn highest(&self) -> (r: Option<u64>)
        requires
            self.wf(),
        ensures
            is_highest_order(self.stored(), r),
    {
        let r = last_key(&self.by_order);
        proof {
            let stored = self.stored();
            match r {
                Some(key) => {
                    assert(stored.contains_key(key));
                    assert forall|other: u64| #[trigger] stored.contains_key(other) implies other
                        <= key by {
                        assert(self.by_order@.contains_key(other));
                    }
                },
                None => {
                    assert forall|order: u64| !stored.contains_key(order) by {
                        assert(!self.by_order@.contains_key(order));
                    }
                },
            }
        }
        r
    }
}

/// The transaction store: every sequenced transaction under its order, with
/// an index from its hash.
pub struct TransactionDBStore {
    tables: Tables,
}

impl View for TransactionDBStore {
    type V = Map<u64, LedgerTransactionView>;

    /// The transaction stored at each order.
    closed spec fn view(&self) -> Map<u64, LedgerTransactionView> {
        self.tables.stored()
    }
}

impl TransactionDBStore {
    /// The index fits the stored transactions.
    #[verifier::type_invariant]
    spec fn inv(self) -> bool {
        self.tables.wf()
    }

    /// The store without transactions.
    pub fn new() -> (r: Self)
        ensures
            r@ == Map::<u64, LedgerTransactionView>::empty(),
    {
        TransactionDBStore { tables: Tables::empty() }
    }

    /// Stores `tx` under its order and its hash. Fails with `Conflict`, and
    /// changes nothing, when the order is taken or the hash is.
    pub fn save_transaction(&mut self, tx: LedgerTransaction) -> (r: Result<(), StoreError>)
        ensures
            is_ledger(old(self)@),
            is_ledger(final(self)@),
            old(self)@.contains_key(tx.order) || hash_taken(old(self)@, tx.hash@) ==> r == Err::<
                (),
                StoreError,
            >(StoreError::Conflict) && final(self)@ == old(self)@,
            !(old(self)@.contains_key(tx.order) || hash_taken(old(self)@, tx.hash@)) ==> r == Ok::<
                (),
                StoreError,
            >(()) && final(self)@ == old(self)@.insert(tx.order, tx@),
    {
        proof {
            use_type_invariant(&*self);
            self.tables.lemma_is_ledger();
        }
        let mut tables = Tables::empty();
        std::mem::swap(&mut tables, &mut self.tables);
        let r = tables.save(tx);
        proof {
            tables.lemma_is_ledger();
        }
        self.tables = tables;
        r
    }

    /// Removes the transaction stored at `tx_order` with the hash `tx_hash`,
    /// and its index entry. Fails with `NotFound`, and changes nothing, when
    /// no such transaction is stored.
    pub fn remove_transaction(&mut self, tx_hash: H256, tx_order: u64) -> (r: Result<
        (),
        StoreError,
    >)
        ensures
            is_ledger(old(self)@),
            is_ledger(final(self)@),
            hash_at(old(self)@, tx_order) == Some(tx_hash@) ==> r == Ok::<(), StoreError>(())
                && final(self)@ == old(self)@.remove(tx_order),
            hash_at(old(self)@, tx_order) != Some(tx_hash@) ==> r == Err::<(), StoreError>(
                StoreError::NotFound,
            ) && final(self)@ == old(self)@,
    {
        proof {
            use_type_invariant(&*self);
            self.tables.lemma_is_ledger();
        }
        let mut tables = Tables::empty();
        std::mem::swap(&mut tables, &mut self.tables);
        let r = tables.remove(tx_hash, tx_order);
        proof {
            tables.lemma_is_ledger();
        }
        self.tables = tables;
        r
    }

    /// The transaction with the hash `hash`, if it is stored.
    pub fn get_transaction_by_hash(&self, hash: H256) -> (r: Option<LedgerTransaction>)
        ensures
            is_ledger(self@),
            transaction_of(r) == transaction_with_hash(self@, hash@),
    {
        proof {
            use_type_invariant(self);
            self.tables.lemma_is_ledger();
        }
        self.tables.by_hash(&hash)
    }

    /// The transaction stored at `order`, if there is one.
    pub fn get_transaction_by_order(&self, order: u64) -> (r: Option<LedgerTransaction>)
        ensures
            is_ledger(self@),
            transaction_of(r) == transaction_at(self@, order),
    {
        proof {
            use_type_invariant(self);
            self.tables.lemma_is_ledger();
        }
        self.tables.by_order(order)
    }

    /// The transactions with the hashes `tx_hashes`, one result for each hash
    /// and in the same place.
    pub fn get_transactions(&self, tx_hashes: Vec<H256>) -> (r: Vec<Option<LedgerTransaction>>)
        ensures
            is_ledger(self@),
            r@.len() == tx_hashes@.len(),
            forall|i: int|
                0 <= i < tx_hashes@.len() ==> transaction_of(#[trigger] r@[i])
                    == transaction_with_hash(self@, tx_hashes@[i]@),
    {
        proof {
            use_type_invariant(self);
            self.tables.lemma_is_ledger();
        }
        let mut out: Vec<Option<LedgerTransaction>> = Vec::new();
        let mut i: usize = 0;
        while i < tx_hashes.len()
            invariant
                self.tables.wf(),
                i <= tx_hashes@.len(),
                out@.len() == i,
                forall|j: int|
                    0 <= j < i ==> transaction_of(#[trigger] out@[j]) == transaction_with_hash(
                        self@,
                        tx_hashes@[j]@,
                    ),
            decreases tx_hashes@.len() - i,
        {
            out.push(self.tables.by_hash(&tx_hashes[i]));
            i += 1;
        }
        out
    }

    /// The transactions stored at `tx_orders`, one result for each order and
    /// in the same place.
    pub fn get_transactions_by_order(&self, tx_orders: Vec<u64>) -> (r: Vec<
        Option<LedgerTransaction>,
    >)
        ensures
            is_ledger(self@),
            r@.len() == tx_orders@.len(),
            forall|i: int|
                0 <= i < tx_orders@.len() ==> transaction_of(#[trigger] r@[i]) == transaction_at(
                    self@,
                    tx_orders@[i],
                ),
    {
        proof {
            use_type_invariant(self);
            self.tables.lemma_is_ledger();
        }
        let mut out: Vec<Option<LedgerTransaction>> = Vec::new();
        let mut i: usize = 0;
        while i < tx_orders.len()
            invariant
                self.tables.wf(),
                i <= tx_orders@.len(),
                out@.len() == i,
                forall|j: int|
                    0 <= j < i ==> transaction_of(#[trigger] out@[j]) == transaction_at(
                        self@,
                        tx_orders@[j],
                    ),
            decreases tx_orders@.len() - i,
        {
            out.push(self.tables.by_order(tx_orders[i]));
            i += 1;
        }
        out
    }

    /// The hashes of the transactions stored at `tx_orders`, one result for
    /// each order and in the same place.
    pub fn get_tx_hashes(&self, tx_orders: Vec<u64>) -> (r: Vec<Option<H256>>)
        ensures
            is_ledger(self@),
            r@.len() == tx_orders@.len(),
            forall|i: int|
                0 <= i < tx_orders@.len() ==> digest_of(
                    #[trigger] r@[i],
                ) == hash_at(self@, tx_orders@[i]),
    {
        proof {
            use_type_invariant(self);
            self.tables.lemma_is_ledger();
        }
        let mut out: Vec<Option<H256>> = Vec::new();
        let mut i: usize = 0;
        while i < tx_orders.len()
            invariant
                self.tables.wf(),
                i <= tx_orders@.len(),
                out@.len() == i,
                forall|j: int|
                    0 <= j < i ==> digest_of(#[trigger] out@[j])
                        == hash_at(self@, tx_orders@[j]),
            decreases tx_orders@.len() - i,
        {
            out.push(self.tables.hash_of(tx_orders[i]));
            i += 1;
        }
        out
    }

    /// Whether a transaction is stored at `order`.
    pub fn contains_order(&self, order: u64) -> (r: bool)
        ensures
            is_ledger(self@),
            r == self@.contains_key(order),
    {
        proof {
            use_type_invariant(self);
            self.tables.lemma_is_ledger();
        }
        self.tables.by_order.contains_key(&order)
    }

    /// Whether a transaction with the hash `hash` is stored.
    pub fn contains_hash(&self, hash: &H256) -> (r: bool)
        ensures
            is_ledger(self@),
            r == hash_taken(self@, hash@),
    {
        proof {
            use_type_invariant(self);
            self.tables.lemma_is_ledger();
        }
        self.tables.by_hash.get(hash).is_some()
    }

    /// The largest order under which a transaction is stored, if any is.
    pub fn get_highest_order(&self) -> (r: Option<u64>)
        ensures
            is_ledger(self@),
            is_highest_order(self@, r),
    {
        proof {
            use_type_invariant(self);
            self.tables.lemma_is_ledger();
        }
        self.tables.highest()
    }
}

} // verus!
