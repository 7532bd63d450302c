//! The index from the hash of a transaction to its order: buckets of entries,
//! found by the first eight bytes of the hash.

use crate::digest::H256;
use std::collections::BTreeMap;
use vstd::prelude::*;

verus! {

broadcast use {vstd::std_specs::btree::group_btree_axioms, vstd::laws_cmp::group_laws_cmp};

/// One entry of the index.
pub struct IndexEntry {
    pub hash: H256,
    pub order: u64,
}

/// The number of the bucket of a hash of at least eight bytes: the number
/// that its first eight bytes stand for, most significant first.
pub open spec fn bucket_of(hash: Seq<u8>) -> u64 {
    (((((((hash[0] as int * 256 + hash[1]) * 256 + hash[2]) * 256 + hash[3]) * 256 + hash[4]) * 256
        + hash[5]) * 256 + hash[6]) * 256 + hash[7]) as u64
}

/// The number of the bucket of `hash`.
fn bucket(hash: &H256) -> (r: u64)
    ensures
        r == bucket_of(hash@),
{
    let b = &hash.0;
    let v0: u64 = b[0] as u64;
    let v1: u64 = v0 * 256 + b[1] as u64;
    let v2: u64 = v1 * 256 + b[2] as u64;
    let v3: u64 = v2 * 256 + b[3] as u64;
    let v4: u64 = v3 * 256 + b[4] as u64;
    let v5: u64 = v4 * 256 + b[5] as u64;
    let v6: u64 = v5 * 256 + b[6] as u64;
    let v7: u64 = v6 * 256 + b[7] as u64;
    v7
}

/// Where the entry of `hash` stands among `entries`, if there is one.
fn find(entries: &Vec<IndexEntry>, hash: &H256) -> (r: Option<usize>)
    ensures
        match r {
            Some(i) => i < entries@.len() && entries@[i as int].hash@ == hash@,
            None => forall|i: int| 0 <= i < entries@.len() ==> (#[trigger] entries@[i]).hash@ != hash@,
        },
{
    let mut i: usize = 0;
    while i < entries.len()
        invariant
            i <= entries@.len(),
            forall|j: int| 0 <= j < i ==> (#[trigger] entries@[j]).hash@ != hash@,
        decreases entries@.len() - i,
    {
        if entries[i].hash == *hash {
            return Some(i);
        }
        i += 1;
    }
    None
}

/// The entries of one bucket belong to it, hold what `model` says, and no
/// hash twice.
pub open spec fn bucket_wf(entries: Seq<IndexEntry>, number: u64, model: Map<Seq<u8>, u64>) -> bool {
    &&& forall|i: int|
        0 <= i < entries.len() ==> bucket_of((#[trigger] entries[i]).hash@) == number
            && model.contains_key(entries[i].hash@) && model[entries[i].hash@] == entries[i].order
    &&& forall|i: int, j: int|
        0 <= i < j < entries.len() ==> (#[trigger] entries[i]).hash@ != (#[trigger] entries[j]).hash@
}

/// Whether `entries` has an entry for `hash`.
pub open spec fn bucket_has(entries: Seq<IndexEntry>, hash: Seq<u8>) -> bool {
    exists|i: int| 0 <= i < entries.len() && (#[trigger] entries[i]).hash@ == hash
}

/// The index.
pub struct HashIndex {
    buckets: BTreeMap<u64, Vec<IndexEntry>>,
    model: Ghost<Map<Seq<u8>, u64>>,
}

impl View for HashIndex {
    type V = Map<Seq<u8>, u64>;

    /// The order that each indexed hash leads to.
    closed spec fn view(&self) -> Map<Seq<u8>, u64> {
        self.model@
    }
}

impl HashIndex {
    /// The buckets hold exactly what the map says.
    pub closed spec fn wf(self) -> bool {
        &&& forall|number: u64| #[trigger]
            self.buckets@.contains_key(number) ==> bucket_wf(
                self.buckets@[number]@,
                number,
                self@,
            )
        &&& forall|hash: Seq<u8>| #[trigger]
            self@.contains_key(hash) ==> self.buckets@.contains_key(bucket_of(hash)) && bucket_has(
                self.buckets@[bucket_of(hash)]@,
                hash,
            )
    }

    /// The index without entries.
    pub fn new() -> (r: Self)
        ensures
            r.wf(),
            r@ == Map::<Seq<u8>, u64>::empty(),
    {
        HashIndex { buckets: BTreeMap::new(), model: Ghost(Map::empty()) }
    }

    /// The order that `hash` leads to, if it is indexed.
    pub fn get(&self, hash: &H256) -> (r: Option<u64>)
        requires
            self.wf(),
        ensures
            r == (if self@.contains_key(hash@) {
                Some(self@[hash@])
            } else {
                None
            }),
    {
        let number = bucket(hash);
        match self.buckets.get(&number) {
            Some(entries) => match find(entries, hash) {
                Some(i) => Some(entries[i].order),
                None => {
                    proof {
                        if self@.contains_key(hash@) {
                            let k = choose|k: int|
                                0 <= k < entries@.len() && (#[trigger] entries@[k]).hash@ == hash@;
                            assert(false);
                        }
                    }
                    None
                },
            },
            None => None,
        }
    }

    /// Adds the entry from `hash` to `order`.
    pub fn insert(&mut self, hash: H256, order: u64)
        requires
            old(self).wf(),
            !old(self)@.contains_key(hash@),
        ensures
            final(self).wf(),
            final(self)@ == old(self)@.insert(hash@, order),
    {
        let number = bucket(&hash);
        let mut entries = match self.buckets.remove(&number) {
            Some(entries) => entries,
            None => Vec::new(),
        };
        let ghost before = entries@;
        proof {
            assert(bucket_wf(before, number, old(self)@));
        }
        entries.push(IndexEntry { hash, order });
        self.buckets.insert(number, entries);
        self.model = Ghost(self.model@.insert(hash@, order));
        proof {
            let after = self.buckets@[number]@;
            let last = after.len() - 1;
            assert forall|i: int| 0 <= i < last implies after[i] == before[i] by {}
            assert(bucket_wf(after, number, self@)) by {
                assert forall|i: int| 0 <= i < after.len() implies bucket_of(
                    (#[trigger] after[i]).hash@,
                ) == number && self@.contains_key(after[i].hash@) && self@[after[i].hash@]
                    == after[i].order by {
                    if i < last {
                        assert(after[i] == before[i]);
                    }
                }
                assert forall|i: int, j: int| 0 <= i < j < after.len() implies (
                #[trigger] after[i]).hash@ != (#[trigger] after[j]).hash@ by {
                    assert(after[i] == before[i]);
                    if j < last {
                        assert(after[j] == before[j]);
                    }
                }
            }
            assert forall|other: u64| #[trigger] self.buckets@.contains_key(other) implies bucket_wf(
                self.buckets@[other]@,
                other,
                self@,
            ) by {
                if other != number {
                    assert(old(self).buckets@.contains_key(other));
                    assert(bucket_wf(old(self).buckets@[other]@, other, old(self)@));
                }
            }
            assert forall|h: Seq<u8>| #[trigger] self@.contains_key(h) implies self.buckets@.contains_key(
                bucket_of(h),
            ) && bucket_has(self.buckets@[bucket_of(h)]@, h) by {
                if h == hash@ {
                    assert(after[last].hash@ == h);
                } else {
                    assert(old(self)@.contains_key(h));
                    let entries = old(self).buckets@[bucket_of(h)]@;
                    let k = choose|k: int| 0 <= k < entries.len() && (#[trigger] entries[k]).hash@ == h;
                    if bucket_of(h) == number {
                        assert(after[k] == before[k]);
                    }
                }
            }
        }
    }

    /// Removes the entry of `hash`, if there is one.
    pub fn remove(&mut self, hash: &H256)
        requires
            old(self).wf(),
        ensures
            final(self).wf(),
            final(self)@ == old(self)@.remove(hash@),
    {
        let number = bucket(hash);
        let mut entries = match self.buckets.remove(&number) {
            Some(entries) => entries,
            None => {
                proof {
                    assert(self.buckets@ =~= old(self).buckets@);
                    if old(self)@.contains_key(hash@) {
                        assert(old(self).buckets@.contains_key(bucket_of(hash@)));
                    }
                    assert(self@ =~= self@.remove(hash@));
                }
                return ;
            },
        };
        let ghost before = entries@;
        proof {
            assert(bucket_wf(before, number, old(self)@));
        }
        let found = find(&entries, hash);
        let ghost at: int = match found {
            Some(i) => i as int,
            None => before.len() as int,
        };
        match found {
            Some(i) => {
                entries.remove(i);
            },
            None => {},
        }
        let ghost after = entries@;
        if entries.len() > 0 {
            self.buckets.insert(number, entries);
        }
        self.model = Ghost(self.model@.remove(hash@));
        proof {
            assert forall|i: int| 0 <= i < after.len() implies #[trigger] after[i] == before[if i
                < at {
                i
            } else {
                i + 1
            }] by {}
            assert(bucket_wf(after, number, self@)) by {
                assert forall|i: int| 0 <= i < after.len() implies bucket_of(
                    (#[trigger] after[i]).hash@,
                ) == number && self@.contains_key(after[i].hash@) && self@[after[i].hash@]
                    == after[i].order by {
                    let b = if i < at { i } else { i + 1 };
                    assert(after[i] == before[b]);
                    if at < before.len() {
                        assert(before[b].hash@ != before[at].hash@);
                    }
                }
                assert forall|i: int, j: int| 0 <= i < j < after.len() implies (
                #[trigger] after[i]).hash@ != (#[trigger] after[j]).hash@ by {
                    let bi = if i < at { i } else { i + 1 };
                    let bj = if j < at { j } else { j + 1 };
                    assert(after[i] == before[bi]);
                    assert(after[j] == before[bj]);
                }
            }
            assert forall|other: u64| #[trigger] self.buckets@.contains_key(other) implies bucket_wf(
                self.buckets@[other]@,
                other,
                self@,
            ) by {
                if other != number {
                    assert(old(self).buckets@.contains_key(other));
                    let entries = old(self).buckets@[other]@;
                    assert(bucket_wf(entries, other, old(self)@));
                    assert forall|i: int| 0 <= i < entries.len() implies self@.contains_key(
                        (#[trigger] entries[i]).hash@,
                    ) by {
                        assert(bucket_of(entries[i].hash@) == other);
                    }
                }
            }
            assert forall|h: Seq<u8>| #[trigger] self@.contains_key(h) implies self.buckets@.contains_key(
                bucket_of(h),
            ) && bucket_has(self.buckets@[bucket_of(h)]@, h) by {
                assert(old(self)@.contains_key(h));
                let entries = old(self).buckets@[bucket_of(h)]@;
                let k = choose|k: int| 0 <= k < entries.len() && (#[trigger] entries[k]).hash@ == h;
                if bucket_of(h) == number {
                    let moved = if k < at { k } else { k - 1 };
                    assert(after[moved] == before[k]);
                    assert(after[moved].hash@ == h);
                }
            }
        }
    }
}

} // verus!
