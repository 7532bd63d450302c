//! The accumulator's nodes in memory: a list of complete Merkle trees of
//! strictly decreasing size, one for each set bit of the number of leaves.

use crate::digest::{digests, hash_pair, node_digest, sha3_256_of, H256};
use crate::merkle::{
    empty_root, inclusion_path, is_pow2, lemma_split_point_unique, merkle_root, split_point,
};
use vstd::prelude::*;

verus! {

/// A complete Merkle tree; every inner node keeps its digest and how many
/// leaves stand below it.
pub enum Subtree {
    Leaf { digest: H256 },
    Inner { digest: H256, size: u64, left: Box<Subtree>, right: Box<Subtree> },
}

impl Subtree {
    /// The leaves of the tree, left to right.
    pub open spec fn leaves(self) -> Seq<Seq<u8>>
        decreases self,
    {
        match self {
            Subtree::Leaf { digest } => seq![digest@],
            Subtree::Inner { left, right, .. } => left.leaves() + right.leaves(),
        }
    }

    /// The number of leaves that the node says it has.
    pub open spec fn size(self) -> nat {
        match self {
            Subtree::Leaf { .. } => 1,
            Subtree::Inner { size, .. } => size as nat,
        }
    }

    /// The digest kept at the top of the tree.
    pub open spec fn digest(self) -> Seq<u8> {
        match self {
            Subtree::Leaf { digest } => digest@,
            Subtree::Inner { digest, .. } => digest@,
        }
    }

    /// Both halves of every inner node are complete trees of one size, and
    /// the node's digest combines theirs.
    pub open spec fn wf(self) -> bool
        decreases self,
    {
        match self {
            Subtree::Leaf { .. } => true,
            Subtree::Inner { digest, size, left, right } => {
                &&& left.wf()
                &&& right.wf()
                &&& left.size() == right.size()
                &&& size == 2 * left.size()
                &&& digest@ == node_digest(left.digest(), right.digest())
            },
        }
    }

    /// A well-formed tree has a power of two of leaves, and its digest is the
    /// Merkle root of them.
    pub proof fn lemma_wf(self)
        requires
            self.wf(),
        ensures
            is_pow2(self.size()),
            self.leaves().len() == self.size(),
            self.digest() == merkle_root(self.leaves()),
        decreases self,
    {
        match self {
            Subtree::Leaf { .. } => {},
            Subtree::Inner { digest, size, left, right } => {
                left.lemma_wf();
                right.lemma_wf();
                let half = left.size();
                assert((2 * half) / 2 == half);
                lemma_split_point_unique(half, 2 * half);
                let all = self.leaves();
                assert(all.take(half as int) =~= left.leaves());
                assert(all.skip(half as int) =~= right.leaves());
            },
        }
    }

    /// The digest at the top of the tree.
    pub fn top(&self) -> (r: H256)
        ensures
            r@ == self.digest(),
    {
        match self {
            Subtree::Leaf { digest } => *digest,
            Subtree::Inner { digest, .. } => *digest,
        }
    }

    /// The number of leaves of the tree.
    pub fn leaf_count(&self) -> (r: u64)
        ensures
            r == self.size(),
    {
        match self {
            Subtree::Leaf { .. } => 1,
            Subtree::Inner { size, .. } => *size,
        }
    }

    /// The leaf at `position`.
    pub fn leaf_at(&self, position: u64) -> (r: H256)
        requires
            self.wf(),
            position < self.size(),
        ensures
            r@ == self.leaves()[position as int],
        decreases self,
    {
        match self {
            Subtree::Leaf { digest } => *digest,
            Subtree::Inner { size, left, right, .. } => {
                proof {
                    left.lemma_wf();
                    right.lemma_wf();
                }
                let half: u64 = *size / 2;
                if position < half {
                    left.leaf_at(position)
                } else {
                    right.leaf_at(position - half)
                }
            },
        }
    }

    /// Appends to `path` the inclusion path of the leaf at `position` within
    /// this tree.
    pub fn path_to(&self, position: u64, path: &mut Vec<H256>)
        requires
            self.wf(),
            position < self.size(),
        ensures
            digests(final(path)@) == digests(old(path)@) + inclusion_path(
                self.leaves(),
                position as nat,
            ),
        decreases self,
    {
        match self {
            Subtree::Leaf { .. } => {
                proof {
                    assert(digests(path@) =~= digests(path@) + inclusion_path(
                        self.leaves(),
                        position as nat,
                    ));
                }
            },
            Subtree::Inner { size, left, right, .. } => {
                let half: u64 = *size / 2;
                let ghost before = path@;
                proof {
                    left.lemma_wf();
                    right.lemma_wf();
                    lemma_split_point_unique(half as nat, *size as nat);
                    assert(self.leaves().take(half as int) =~= left.leaves());
                    assert(self.leaves().skip(half as int) =~= right.leaves());
                }
                if position < half {
                    left.path_to(position, path);
                    let ghost mid = path@;
                    path.push(right.top());
                    proof {
                        assert(digests(path@) =~= digests(mid).push(right.digest()));
                        assert(digests(path@) =~= digests(before) + inclusion_path(
                            self.leaves(),
                            position as nat,
                        ));
                    }
                } else {
                    right.path_to(position - half, path);
                    let ghost mid = path@;
                    path.push(left.top());
                    proof {
                        assert(digests(path@) =~= digests(mid).push(left.digest()));
                        assert(digests(path@) =~= digests(before) + inclusion_path(
                            self.leaves(),
                            position as nat,
                        ));
                    }
                }
            },
        }
    }
}

/// The leaves of a list of trees, left to right.
pub open spec fn forest_leaves(peaks: Seq<Subtree>) -> Seq<Seq<u8>>
    decreases peaks.len(),
{
    if peaks.len() == 0 {
        Seq::empty()
    } else {
        forest_leaves(peaks.drop_last()) + peaks.last().leaves()
    }
}

/// Every tree is well formed, and each is larger than all that follow it.
pub open spec fn peaks_wf(peaks: Seq<Subtree>) -> bool {
    &&& forall|i: int| 0 <= i < peaks.len() ==> (#[trigger] peaks[i]).wf()
    &&& forall|i: int, j: int|
        0 <= i < j < peaks.len() ==> (#[trigger] peaks[i]).size() > (#[trigger] peaks[j]).size()
}

/// The digests of the trees folded from the right into one.
pub open spec fn bag(peaks: Seq<Subtree>) -> Seq<u8>
    decreases peaks.len(),
{
    if peaks.len() == 0 {
        empty_root()
    } else if peaks.len() == 1 {
        peaks[0].digest()
    } else {
        node_digest(peaks[0].digest(), bag(peaks.skip(1)))
    }
}

/// How many leaves stand before the tree at index `i`.
pub open spec fn forest_offset(peaks: Seq<Subtree>, i: nat) -> nat {
    forest_leaves(peaks.take(i as int)).len()
}

/// The inclusion path of the leaf at `position` of the tree at index `i`,
/// through that tree and then past the others.
pub open spec fn forest_path(peaks: Seq<Subtree>, i: nat, position: nat) -> Seq<Seq<u8>>
    decreases i,
{
    if i == 0 {
        let inner = inclusion_path(peaks[0].leaves(), position);
        if peaks.len() > 1 {
            inner.push(bag(peaks.skip(1)))
        } else {
            inner
        }
    } else {
        forest_path(peaks.skip(1), (i - 1) as nat, position).push(peaks[0].digest())
    }
}

/// The leaves of a list are those of its first tree, then those of the rest.
pub proof fn lemma_forest_leaves_front(peaks: Seq<Subtree>)
    requires
        peaks.len() > 0,
    ensures
        forest_leaves(peaks) == peaks[0].leaves() + forest_leaves(peaks.skip(1)),
    decreases peaks.len(),
{
    if peaks.len() == 1 {
        assert(peaks.drop_last() =~= Seq::<Subtree>::empty());
        assert(peaks.skip(1) =~= Seq::<Subtree>::empty());
        assert(forest_leaves(peaks) =~= peaks[0].leaves() + forest_leaves(peaks.skip(1)));
    } else {
        lemma_forest_leaves_front(peaks.drop_last());
        assert(peaks.drop_last().skip(1) =~= peaks.skip(1).drop_last());
        assert(peaks.skip(1).last() == peaks.last());
        assert(forest_leaves(peaks) =~= peaks[0].leaves() + forest_leaves(peaks.skip(1)));
    }
}

/// Each tree moves the offset by its size, and the offset past the last tree
/// is the number of all leaves.
pub proof fn lemma_forest_offset_step(peaks: Seq<Subtree>, i: nat)
    requires
        i < peaks.len(),
        peaks[i as int].wf(),
    ensures
        forest_offset(peaks, i + 1) == forest_offset(peaks, i) + peaks[i as int].size(),
        forest_offset(peaks, peaks.len()) == forest_leaves(peaks).len(),
{
    peaks[i as int].lemma_wf();
    assert(peaks.take(i as int + 1).drop_last() =~= peaks.take(i as int));
    assert(peaks.take(peaks.len() as int) =~= peaks);
}

/// A power of two below another is at most its half.
pub proof fn lemma_pow2_gap(a: nat, b: nat)
    requires
        is_pow2(a),
        is_pow2(b),
        a < b,
    ensures
        2 * a <= b,
    decreases b,
{
    if a > 1 {
        lemma_pow2_gap(a / 2, b / 2);
    }
}

/// A well-formed list stays so without its first tree.
pub proof fn lemma_peaks_wf_skip(peaks: Seq<Subtree>)
    requires
        peaks_wf(peaks),
        peaks.len() > 0,
    ensures
        peaks_wf(peaks.skip(1)),
{
    let rest = peaks.skip(1);
    assert forall|i: int| 0 <= i < rest.len() implies (#[trigger] rest[i]).wf() by {
        assert(rest[i] == peaks[i + 1]);
    }
    assert forall|i: int, j: int| 0 <= i < j < rest.len() implies (#[trigger] rest[i]).size() > (
    #[trigger] rest[j]).size() by {
        assert(rest[i] == peaks[i + 1]);
        assert(rest[j] == peaks[j + 1]);
    }
}

/// The trees of a well-formed list hold at least as many leaves as the first
/// of them, and fewer than twice as many.
pub proof fn lemma_forest_size(peaks: Seq<Subtree>)
    requires
        peaks_wf(peaks),
        peaks.len() > 0,
    ensures
        peaks[0].size() <= forest_leaves(peaks).len() < 2 * peaks[0].size(),
    decreases peaks.len(),
{
    lemma_forest_leaves_front(peaks);
    peaks[0].lemma_wf();
    let rest = peaks.skip(1);
    if rest.len() > 0 {
        lemma_peaks_wf_skip(peaks);
        lemma_forest_size(rest);
        rest[0].lemma_wf();
        assert(rest[0] == peaks[1]);
        lemma_pow2_gap(rest[0].size(), peaks[0].size());
    }
}

/// The leaves of a well-formed list of more than one tree split at the size
/// of the first tree: before the split stand the leaves of that tree, after
/// it those of the other trees.
pub proof fn lemma_forest_splits(peaks: Seq<Subtree>)
    requires
        peaks_wf(peaks),
        peaks.len() > 1,
    ensures
        peaks_wf(peaks.skip(1)),
        forest_leaves(peaks).len() >= 2,
        split_point(forest_leaves(peaks).len()) == peaks[0].size(),
        forest_leaves(peaks).take(peaks[0].size() as int) == peaks[0].leaves(),
        forest_leaves(peaks).skip(peaks[0].size() as int) == forest_leaves(peaks.skip(1)),
{
    let rest = peaks.skip(1);
    let all = forest_leaves(peaks);
    let s0 = peaks[0].size();
    lemma_forest_leaves_front(peaks);
    peaks[0].lemma_wf();
    lemma_peaks_wf_skip(peaks);
    lemma_forest_size(rest);
    rest[0].lemma_wf();
    assert(rest[0] == peaks[1]);
    lemma_pow2_gap(rest[0].size(), s0);
    lemma_split_point_unique(s0, all.len());
    assert(all.take(s0 as int) =~= peaks[0].leaves());
    assert(all.skip(s0 as int) =~= forest_leaves(rest));
}

/// Folding the digests of a well-formed list of trees gives the Merkle root
/// of their leaves.
pub proof fn lemma_bag_is_root(peaks: Seq<Subtree>)
    requires
        peaks_wf(peaks),
    ensures
        bag(peaks) == merkle_root(forest_leaves(peaks)),
    decreases peaks.len(),
{
    if peaks.len() > 0 {
        lemma_forest_leaves_front(peaks);
        peaks[0].lemma_wf();
        let rest = peaks.skip(1);
        let all = forest_leaves(peaks);
        if rest.len() == 0 {
            assert(all =~= peaks[0].leaves());
        } else {
            lemma_forest_splits(peaks);
            lemma_bag_is_root(rest);
        }
    }
}

/// `forest_path` is the inclusion path among all the leaves of the list.
pub proof fn lemma_forest_path(peaks: Seq<Subtree>, i: nat, position: nat)
    requires
        peaks_wf(peaks),
        i < peaks.len(),
        position < peaks[i as int].size(),
    ensures
        forest_offset(peaks, i) + position < forest_leaves(peaks).len(),
        forest_leaves(peaks)[(forest_offset(peaks, i) + position) as int]
            == peaks[i as int].leaves()[position as int],
        forest_path(peaks, i, position) == inclusion_path(
            forest_leaves(peaks),
            forest_offset(peaks, i) + position,
        ),
    decreases i,
{
    lemma_forest_leaves_front(peaks);
    peaks[0].lemma_wf();
    let rest = peaks.skip(1);
    let all = forest_leaves(peaks);
    let s0 = peaks[0].size();
    if i == 0 {
        assert(peaks.take(0) =~= Seq::<Subtree>::empty());
        if peaks.len() > 1 {
            lemma_forest_splits(peaks);
            lemma_bag_is_root(rest);
        } else {
            assert(rest =~= Seq::<Subtree>::empty());
            assert(all =~= peaks[0].leaves());
        }
    } else {
        lemma_forest_splits(peaks);
        assert(rest[i - 1] == peaks[i as int]);
        lemma_forest_path(rest, (i - 1) as nat, position);
        lemma_forest_leaves_front(peaks.take(i as int));
        assert(peaks.take(i as int).skip(1) =~= rest.take(i - 1));
        assert(forest_offset(peaks, i) == s0 + forest_offset(rest, (i - 1) as nat));
    }
}

/// Whether the list ends in two trees of one size.
fn last_two_equal(peaks: &Vec<Subtree>) -> (r: bool)
    ensures
        r == (peaks@.len() >= 2 && peaks@[peaks@.len() - 2].size() == peaks@[peaks@.len()
            - 1].size()),
{
    let n = peaks.len();
    n >= 2 && peaks[n - 2].leaf_count() == peaks[n - 1].leaf_count()
}

/// The digests of the trees from index `from` on, folded from the right.
fn bag_from(peaks: &Vec<Subtree>, from: usize) -> (r: H256)
    requires
        from < peaks@.len(),
    ensures
        r@ == bag(peaks@.skip(from as int)),
{
    let mut k: usize = peaks.len() - 1;
    let mut acc = peaks[k].top();
    while k > from
        invariant
            from <= k < peaks@.len(),
            acc@ == bag(peaks@.skip(k as int)),
        decreases k,
    {
        k -= 1;
        acc = hash_pair(&peaks[k].top(), &acc);
        proof {
            assert(peaks@.skip(k as int).skip(1) =~= peaks@.skip(k + 1));
        }
    }
    acc
}

/// The trees of the accumulator and the root after each append.
pub struct Forest {
    pub peaks: Vec<Subtree>,
    pub roots: Vec<H256>,
}

impl Forest {
    /// All the leaves, in the order in which they were appended.
    pub open spec fn leaves(self) -> Seq<Seq<u8>> {
        forest_leaves(self.peaks@)
    }

    /// The trees are well formed and `roots[i]` is the root of the first
    /// `i + 1` leaves.
    pub open spec fn wf(self) -> bool {
        &&& peaks_wf(self.peaks@)
        &&& self.roots@.len() == self.leaves().len()
        &&& forall|i: int|
            0 <= i < self.roots@.len() ==> (#[trigger] self.roots@[i])@ == merkle_root(
                self.leaves().take(i + 1),
            )
    }

    /// The forest without leaves.
    pub fn empty() -> (r: Self)
        ensures
            r.wf(),
            r.leaves() == Seq::<Seq<u8>>::empty(),
    {
        Forest { peaks: Vec::new(), roots: Vec::new() }
    }

    /// The number of leaves.
    pub fn len(&self) -> (r: usize)
        requires
            self.wf(),
        ensures
            r == self.leaves().len(),
    {
        self.roots.len()
    }

    /// Appends `leaf` and returns the new root.
    pub fn append(&mut self, leaf: H256) -> (root: H256)
        requires
            old(self).wf(),
            old(self).leaves().len() < u64::MAX,
        ensures
            final(self).wf(),
            final(self).leaves() == old(self).leaves().push(leaf@),
            root@ == merkle_root(final(self).leaves()),
    {
        let ghost before = self.leaves();
        let ghost target = self.leaves().push(leaf@);
        self.peaks.push(Subtree::Leaf { digest: leaf });
        proof {
            assert(self.peaks@.drop_last() =~= old(self).peaks@);
            assert(forest_leaves(self.peaks@) =~= target);
            if old(self).peaks@.len() >= 1 {
                old(self).peaks@.last().lemma_wf();
                assert(self.peaks@[self.peaks@.len() - 2] == old(self).peaks@.last());
            }
            assert forall|i: int| 0 <= i < self.peaks@.len() implies (
            #[trigger] self.peaks@[i]).wf() by {
                if i < old(self).peaks@.len() {
                    assert(self.peaks@[i] == old(self).peaks@[i]);
                }
            }
            assert forall|i: int, j: int| 0 <= i < j < self.peaks@.len() - 1 implies (
            #[trigger] self.peaks@[i]).size() > (#[trigger] self.peaks@[j]).size() by {
                assert(self.peaks@[i] == old(self).peaks@[i]);
                assert(self.peaks@[j] == old(self).peaks@[j]);
            }
        }
        while last_two_equal(&self.peaks)
            invariant
                forest_leaves(self.peaks@) == target,
                target.len() <= u64::MAX,
                self.peaks@.len() >= 1,
                forall|i: int| 0 <= i < self.peaks@.len() ==> (#[trigger] self.peaks@[i]).wf(),
                forall|i: int, j: int|
                    0 <= i < j < self.peaks@.len() - 1 ==> (#[trigger] self.peaks@[i]).size() > (
                    #[trigger] self.peaks@[j]).size(),
                self.peaks@.len() >= 2 ==> self.peaks@[self.peaks@.len() - 2].size()
                    >= self.peaks@[self.peaks@.len() - 1].size(),
                self.roots == old(self).roots,
            decreases self.peaks@.len(),
        {
            let ghost prior = self.peaks@;
            let right = self.peaks.pop().unwrap();
            let left = self.peaks.pop().unwrap();
            proof {
                left.lemma_wf();
                right.lemma_wf();
                assert(prior.drop_last().drop_last() =~= self.peaks@);
                assert(left == prior[prior.len() - 2]);
                assert(right == prior[prior.len() - 1]);
                assert(prior.drop_last().last() == left);
                assert(forest_leaves(prior.drop_last()) == forest_leaves(
                    prior.drop_last().drop_last(),
                ) + left.leaves());
                assert(target =~= forest_leaves(self.peaks@) + left.leaves() + right.leaves());
            }
            let digest = hash_pair(&left.top(), &right.top());
            let size: u64 = left.leaf_count() + right.leaf_count();
            let merged = Subtree::Inner {
                digest,
                size,
                left: Box::new(left),
                right: Box::new(right),
            };
            let ghost rest = self.peaks@;
            self.peaks.push(merged);
            proof {
                assert(self.peaks@.drop_last() =~= rest);
                assert(merged.leaves() =~= left.leaves() + right.leaves());
                assert(forest_leaves(self.peaks@) =~= target);
                assert(merged.wf());
                if rest.len() >= 1 {
                    let above = rest[rest.len() - 1];
                    assert(above == prior[prior.len() - 3]);
                    above.lemma_wf();
                    lemma_pow2_gap(left.size(), above.size());
                }
                assert forall|i: int| 0 <= i < self.peaks@.len() implies (
                #[trigger] self.peaks@[i]).wf() by {
                    if i < rest.len() {
                        assert(self.peaks@[i] == prior[i]);
                    }
                }
                assert forall|i: int, j: int| 0 <= i < j < self.peaks@.len() - 1 implies (
                #[trigger] self.peaks@[i]).size() > (#[trigger] self.peaks@[j]).size() by {
                    assert(self.peaks@[i] == prior[i]);
                    assert(self.peaks@[j] == prior[j]);
                }
            }
        }
        proof {
            let peaks = self.peaks@;
            assert forall|i: int, j: int| 0 <= i < j < peaks.len() implies (#[trigger] peaks[i]).size()
                > (#[trigger] peaks[j]).size() by {
                if j == peaks.len() - 1 {
                    if i < peaks.len() - 2 {
                        assert(peaks[i].size() > peaks[peaks.len() - 2].size());
                    }
                }
            }
            assert(peaks_wf(peaks));
            lemma_bag_is_root(peaks);
            assert(peaks.skip(0) =~= peaks);
        }
        let root = bag_from(&self.peaks, 0);
        self.roots.push(root);
        proof {
            assert forall|i: int| 0 <= i < self.roots@.len() implies (#[trigger] self.roots@[i])@
                == merkle_root(self.leaves().take(i + 1)) by {
                if i < before.len() {
                    assert(target.take(i + 1) =~= before.take(i + 1));
                    assert(self.roots@[i] == old(self).roots@[i]);
                } else {
                    assert(target.take(i + 1) =~= target);
                }
            }
        }
        root
    }

    /// The root of the first `count` leaves.
    pub fn root_at(&self, count: usize) -> (r: H256)
        requires
            self.wf(),
            count <= self.leaves().len(),
        ensures
            r@ == merkle_root(self.leaves().take(count as int)),
    {
        if count == 0 {
            let nothing: Vec<u8> = Vec::new();
            let r = sha3_256_of(nothing.as_slice());
            proof {
                assert(nothing@ =~= Seq::<u8>::empty());
                assert(self.leaves().take(0) =~= Seq::<Seq<u8>>::empty());
            }
            r
        } else {
            self.roots[count - 1]
        }
    }

    /// The index of the tree that holds the leaf at `position`, and the
    /// number of leaves before that tree.
    fn locate(&self, position: u64) -> (r: (usize, u64))
        requires
            self.wf(),
            position < self.leaves().len(),
        ensures
            r.0 < self.peaks@.len(),
            r.1 == forest_offset(self.peaks@, r.0 as nat),
            r.1 <= position < r.1 + self.peaks@[r.0 as int].size(),
    {
        let mut i: usize = 0;
        let mut offset: u64 = 0;
        proof {
            assert(self.peaks@.take(0) =~= Seq::<Subtree>::empty());
            if self.peaks@.len() == 0 {
                assert(false);
            }
        }
        while position - offset >= self.peaks[i].leaf_count()
            invariant
                self.wf(),
                position < self.leaves().len(),
                i < self.peaks@.len(),
                offset == forest_offset(self.peaks@, i as nat),
                offset <= position,
            decreases self.peaks@.len() - i,
        {
            proof {
                lemma_forest_offset_step(self.peaks@, i as nat);
                assert(self.peaks@.len() == self.peaks.len());
            }
            offset = offset + self.peaks[i].leaf_count();
            i += 1;
        }
        (i, offset)
    }

    /// The leaf at `position`.
    pub fn leaf(&self, position: u64) -> (r: H256)
        requires
            self.wf(),
            position < self.leaves().len(),
        ensures
            r@ == self.leaves()[position as int],
    {
        let (i, offset) = self.locate(position);
        proof {
            lemma_forest_path(self.peaks@, i as nat, (position - offset) as nat);
        }
        self.peaks[i].leaf_at(position - offset)
    }

    /// The inclusion path of the leaf at `position`.
    pub fn path(&self, position: u64) -> (r: Vec<H256>)
        requires
            self.wf(),
            position < self.leaves().len(),
        ensures
            digests(r@) == inclusion_path(self.leaves(), position as nat),
    {
        let (i, offset) = self.locate(position);
        let ghost inner = (position - offset) as nat;
        let mut out: Vec<H256> = Vec::new();
        self.peaks[i].path_to(position - offset, &mut out);
        proof {
            assert(digests(out@) =~= inclusion_path(self.peaks@[i as int].leaves(), inner));
            assert(self.peaks@.skip(i as int)[0] == self.peaks@[i as int]);
            assert(self.peaks@.skip(i as int).skip(1) =~= self.peaks@.skip(i + 1));
        }
        if i < self.peaks.len() - 1 {
            let ghost mid = out@;
            out.push(bag_from(&self.peaks, i + 1));
            proof {
                assert(digests(out@) =~= digests(mid).push(bag(self.peaks@.skip(i + 1))));
            }
        }
        let mut j: usize = i;
        while j > 0
            invariant
                j <= i < self.peaks@.len(),
                digests(out@) == forest_path(self.peaks@.skip(j as int), (i - j) as nat, inner),
            decreases j,
        {
            j -= 1;
            let ghost mid = out@;
            out.push(self.peaks[j].top());
            proof {
                assert(self.peaks@.skip(j as int).skip(1) =~= self.peaks@.skip(j + 1));
                assert(self.peaks@.skip(j as int)[0] == self.peaks@[j as int]);
                assert(digests(out@) =~= digests(mid).push(self.peaks@[j as int].digest()));
            }
        }
        proof {
            assert(self.peaks@.skip(0) =~= self.peaks@);
            lemma_forest_path(self.peaks@, i as nat, inner);
        }
        out
    }
}

} // verus!
