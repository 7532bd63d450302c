//! The append-only accumulator over the hashes of the sequenced transactions.

use crate::digest::{digest_of, digests, hash_pair, H256};
use crate::error::StoreError;
use crate::forest::Forest;
use crate::merkle::{
    inclusion_path, is_pow2, lemma_inclusion_path_verifies, lemma_split_point_bounds,
    lemma_split_point_unique, merkle_root, path_verifies, root_from_path, split_point,
};
use vstd::prelude::*;

verus! {

/// The largest power of two below `count`.
fn split_point_of(count: u64) -> (k: u64)
    requires
        count >= 2,
    ensures
        k == split_point(count as nat),
{
    let mut k: u64 = 1;
    while k < count - k
        invariant
            is_pow2(k as nat),
            1 <= k < count,
        decreases count - k,
    {
        proof {
            assert((2 * k) / 2 == k);
        }
        k = 2 * k;
    }
    proof {
        lemma_split_point_unique(k as nat, count as nat);
    }
    k
}

/// The root reached from `leaf` by the first `len` digests of `path`.
fn climb(leaf: &H256, position: u64, count: u64, path: &Vec<H256>, len: usize) -> (r: Option<H256>)
    requires
        len <= path@.len(),
    ensures
        digest_of(r) == root_from_path(
            leaf@,
            position as nat,
            count as nat,
            digests(path@.take(len as int)),
        ),
    decreases count,
{
    if position >= count {
        return None;
    }
    if count == 1 {
        return if len == 0 {
            Some(*leaf)
        } else {
            None
        };
    }
    if len == 0 {
        return None;
    }
    let k = split_point_of(count);
    let sibling = path[len - 1];
    proof {
        lemma_split_point_bounds(count as nat);
        let taken = digests(path@.take(len as int));
        assert(taken.drop_last() =~= digests(path@.take(len - 1)));
        assert(taken.last() == sibling@);
    }
    if position < k {
        match climb(leaf, position, k, path, len - 1) {
            Some(below) => Some(hash_pair(&below, &sibling)),
            None => None,
        }
    } else {
        match climb(leaf, position - k, count - k, path, len - 1) {
            Some(below) => Some(hash_pair(&sibling, &below)),
            None => None,
        }
    }
}

/// The proof that a leaf stands at a position of the accumulator.
#[derive(Debug)]
pub struct InclusionProof {
    /// The position of the leaf.
    pub leaf_index: u64,
    /// The number of leaves of the accumulator when the proof was issued.
    pub leaf_count: u64,
    /// The roots of the sibling subtrees, from the leaf upwards.
    pub siblings: Vec<H256>,
}

impl InclusionProof {
    /// Whether the proof shows that `leaf` stands at its position under `root`.
    pub open spec fn proves(self, root: Seq<u8>, leaf: Seq<u8>) -> bool {
        path_verifies(
            root,
            leaf,
            self.leaf_index as nat,
            self.leaf_count as nat,
            digests(self.siblings@),
        )
    }

    /// Checks the proof for `leaf` against `expected_root`.
    pub fn verify(&self, expected_root: &H256, leaf: &H256) -> (r: bool)
        ensures
            r == self.proves(expected_root@, leaf@),
    {
        proof {
            assert(self.siblings@.take(self.siblings@.len() as int) =~= self.siblings@);
        }
        match climb(leaf, self.leaf_index, self.leaf_count, &self.siblings, self.siblings.len()) {
            Some(root) => root == *expected_root,
            None => false,
        }
    }
}

/// The accumulator: every leaf that was appended, and the root after each.
pub struct AccumulatorStore {
    forest: Forest,
}

impl View for AccumulatorStore {
    type V = Seq<Seq<u8>>;

    /// The leaves, in the order in which they were appended.
    closed spec fn view(&self) -> Seq<Seq<u8>> {
        self.forest.leaves()
    }
}

impl AccumulatorStore {
    /// The trees and the roots of the accumulator fit together.
    #[verifier::type_invariant]
    spec fn inv(self) -> bool {
        self.forest.wf()
    }

    /// The accumulator without leaves.
    pub fn new() -> (r: Self)
        ensures
            r@ == Seq::<Seq<u8>>::empty(),
    {
        AccumulatorStore { forest: Forest::empty() }
    }

    /// The number of leaves.
    pub fn get_leaf_count(&self) -> (r: u64)
        ensures
            r == self@.len(),
    {
        proof {
            use_type_invariant(self);
        }
        self.forest.len() as u64
    }

    /// Appends `leaf` and returns the new root. Fails with `StorageIO`, and
    /// changes nothing, when the accumulator holds `u64::MAX` leaves, the
    /// most that a position can count.
    pub fn append(&mut self, leaf: H256) -> (r: Result<H256, StoreError>)
        ensures
            old(self)@.len() < u64::MAX ==> final(self)@ == old(self)@.push(leaf@) && r is Ok
                && r->Ok_0@ == merkle_root(final(self)@),
            old(self)@.len() >= u64::MAX ==> final(self)@ == old(self)@ && r == Err::<
                H256,
                StoreError,
            >(StoreError::StorageIO),
    {
        proof {
            use_type_invariant(&*self);
        }
        if self.forest.len() as u64 == u64::MAX {
            return Err(StoreError::StorageIO);
        }
        let mut forest = Forest::empty();
        std::mem::swap(&mut forest, &mut self.forest);
        let root = forest.append(leaf);
        self.forest = forest;
        Ok(root)
    }

    /// The root over all the leaves.
    pub fn get_root(&self) -> (r: H256)
        ensures
            r@ == merkle_root(self@),
    {
        proof {
            use_type_invariant(self);
            assert(self@.take(self@.len() as int) =~= self@);
        }
        self.forest.root_at(self.forest.len())
    }

    /// The root that the accumulator had when it held `leaf_count` leaves,
    /// or `None` if it does not hold that many.
    pub fn get_root_at(&self, leaf_count: u64) -> (r: Option<H256>)
        ensures
            leaf_count <= self@.len() ==> r is Some && r->0@ == merkle_root(
                self@.take(leaf_count as int),
            ),
            leaf_count > self@.len() ==> r is None,
    {
        proof {
            use_type_invariant(self);
        }
        if leaf_count > self.forest.len() as u64 {
            None
        } else {
            Some(self.forest.root_at(leaf_count as usize))
        }
    }

    /// The leaf at `position`, or `None` if there is none.
    pub fn get_leaf(&self, position: u64) -> (r: Option<H256>)
        ensures
            position < self@.len() ==> r is Some && r->0@ == self@[position as int],
            position >= self@.len() ==> r is None,
    {
        proof {
            use_type_invariant(self);
        }
        if position >= self.forest.len() as u64 {
            None
        } else {
            Some(self.forest.leaf(position))
        }
    }

    /// The inclusion proof of the leaf at `position`. Fails with `NotFound`
    /// when there is no such leaf.
    pub fn get_proof(&self, position: u64) -> (r: Result<InclusionProof, StoreError>)
        ensures
            position < self@.len() ==> r is Ok && r->Ok_0.leaf_index == position
                && r->Ok_0.leaf_count == self@.len() && digests(r->Ok_0.siblings@)
                == inclusion_path(self@, position as nat) && r->Ok_0.proves(
                merkle_root(self@),
                self@[position as int],
            ),
            position >= self@.len() ==> r is Err && r->Err_0 == StoreError::NotFound,
    {
        proof {
            use_type_invariant(self);
        }
        let count = self.forest.len() as u64;
        proof {
            if position < count {
                lemma_inclusion_path_verifies(self@, position as nat);
            }
        }
        if position >= count {
            Err(StoreError::NotFound)
        } else {
            Ok(
                InclusionProof {
                    leaf_index: position,
                    leaf_count: count,
                    siblings: self.forest.path(position),
                },
            )
        }
    }
}

} // verus!
