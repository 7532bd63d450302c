//! The batch of transactions that makes one block, and the message that
//! hands a batch to the publisher.

use crate::digest::H256;
use crate::merkle::merkle_root;
use vstd::prelude::*;
use vstd::std_specs::cmp::PartialEqSpecImpl;

verus! {

/// A batch of sequenced transactions: one block.
#[derive(Debug)]
pub struct Batch {
    /// The number of the block that the batch makes.
    pub block_number: u128,
    /// How many transactions the batch holds.
    pub tx_count: u64,
    /// The accumulator root before the first transaction of the batch.
    pub prev_tx_accumulator_root: H256,
    /// The accumulator root after the last transaction of the batch.
    pub tx_accumulator_root: H256,
    /// The hash of `data`.
    pub batch_hash: H256,
    /// The transactions of the batch, encoded.
    pub data: Vec<u8>,
}

/// What a batch holds.
pub struct BatchView {
    pub block_number: u128,
    pub tx_count: u64,
    pub prev_tx_accumulator_root: Seq<u8>,
    pub tx_accumulator_root: Seq<u8>,
    pub batch_hash: Seq<u8>,
    pub data: Seq<u8>,
}

impl View for Batch {
    type V = BatchView;

    open spec fn view(&self) -> BatchView {
        BatchView {
            block_number: self.block_number,
            tx_count: self.tx_count,
            prev_tx_accumulator_root: self.prev_tx_accumulator_root@,
            tx_accumulator_root: self.tx_accumulator_root@,
            batch_hash: self.batch_hash@,
            data: self.data@,
        }
    }
}

impl Clone for Batch {
    fn clone(&self) -> (r: Self)
        ensures
            r@ == self@,
    {
        let data = self.data.clone();
        proof {
            assert(data@ =~= self.data@);
        }
        Batch {
            block_number: self.block_number,
            tx_count: self.tx_count,
            prev_tx_accumulator_root: self.prev_tx_accumulator_root,
            tx_accumulator_root: self.tx_accumulator_root,
            batch_hash: self.batch_hash,
            data,
        }
    }
}

/// Whether two byte strings are the same.
fn same_bytes(a: &Vec<u8>, b: &Vec<u8>) -> (r: bool)
    ensures
        r == (a@ == b@),
{
    if a.len() != b.len() {
        return false;
    }
    let mut i: usize = 0;
    while i < a.len()
        invariant
            a@.len() == b@.len(),
            i <= a@.len(),
            forall|j: int| 0 <= j < i ==> a@[j] == b@[j],
        decreases a@.len() - i,
    {
        if a[i] != b[i] {
            return false;
        }
        i += 1;
    }
    proof {
        assert(a@ =~= b@);
    }
    true
}

impl PartialEq for Batch {
    fn eq(&self, other: &Self) -> (r: bool) {
        self.block_number == other.block_number && self.tx_count == other.tx_count
            && self.prev_tx_accumulator_root == other.prev_tx_accumulator_root
            && self.tx_accumulator_root == other.tx_accumulator_root && self.batch_hash
            == other.batch_hash && same_bytes(&self.data, &other.data)
    }
}

impl PartialEqSpecImpl for Batch {
    open spec fn obeys_eq_spec() -> bool {
        true
    }

    open spec fn eq_spec(&self, other: &Self) -> bool {
        self@ == other@
    }
}

/// Whether the two roots of `batch` are those of the accumulator with the
/// leaves `leaves` before and after the orders from `first_order` on that the
/// batch covers.
pub open spec fn batch_matches(leaves: Seq<Seq<u8>>, batch: BatchView, first_order: u64) -> bool {
    &&& first_order + batch.tx_count <= leaves.len()
    &&& batch.prev_tx_accumulator_root == merkle_root(leaves.take(first_order as int))
    &&& batch.tx_accumulator_root == merkle_root(leaves.take(first_order + batch.tx_count))
}

/// The message that hands a batch over for publication.
#[derive(Debug)]
pub struct PutBatchInternalDAMessage {
    pub batch: Batch,
}

impl PutBatchInternalDAMessage {
    /// The message for `batch`.
    pub fn new(batch: Batch) -> (r: Self)
        ensures
            r.batch@ == batch@,
    {
        PutBatchInternalDAMessage { batch }
    }
}

} // verus!
