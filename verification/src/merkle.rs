//! The Merkle tree over a sequence of digests: its root, the inclusion path of
//! a leaf, and the root that a path leads to.
//!
//! A tree over `n >= 2` leaves splits at the largest power of two below `n`:
//! the left subtree is complete, the right one holds the rest.

use crate::digest::{node_digest, sha3_256_digest};
use vstd::prelude::*;

verus! {

/// Whether `n` is a power of two.
pub open spec fn is_pow2(n: nat) -> bool
    decreases n,
{
    n == 1 || (n >= 2 && n % 2 == 0 && is_pow2(n / 2))
}

/// The largest power of two that is less than `n`, for `n >= 2`.
pub open spec fn split_point(n: nat) -> nat
    decreases n,
{
    if n <= 2 {
        1
    } else {
        2 * split_point((n + 1) / 2)
    }
}

/// `split_point(n)` is a power of two `k` with `k < n <= 2 * k`.
pub proof fn lemma_split_point_bounds(n: nat)
    requires
        n >= 2,
    ensures
        is_pow2(split_point(n)),
        split_point(n) < n <= 2 * split_point(n),
    decreases n,
{
    if n > 2 {
        lemma_split_point_bounds((n + 1) / 2);
        let k = split_point((n + 1) / 2);
        assert((2 * k) / 2 == k);
    }
}

/// The only power of two `p` with `p < n <= 2 * p` is `split_point(n)`.
pub proof fn lemma_split_point_unique(p: nat, n: nat)
    requires
        is_pow2(p),
        p < n <= 2 * p,
    ensures
        split_point(n) == p,
    decreases p,
{
    if p > 1 {
        lemma_split_point_unique(p / 2, (n + 1) / 2);
    }
}

/// The root of the tree without leaves: the hash of the empty string.
pub open spec fn empty_root() -> Seq<u8> {
    sha3_256_digest(Seq::empty())
}

/// The root of the Merkle tree over `leaves`.
pub open spec fn merkle_root(leaves: Seq<Seq<u8>>) -> Seq<u8>
    decreases leaves.len(),
{
    if leaves.len() == 0 {
        empty_root()
    } else if leaves.len() == 1 {
        leaves[0]
    } else {
        proof {
            lemma_split_point_bounds(leaves.len());
        }
        let k = split_point(leaves.len()) as int;
        node_digest(merkle_root(leaves.take(k)), merkle_root(leaves.skip(k)))
    }
}

/// The inclusion path of the leaf at `position`: the roots of the sibling
/// subtrees on the way from the leaf up to the root, lowest first.
pub open spec fn inclusion_path(leaves: Seq<Seq<u8>>, position: nat) -> Seq<Seq<u8>>
    decreases leaves.len(),
{
    if leaves.len() <= 1 || position >= leaves.len() {
        Seq::empty()
    } else {
        proof {
            lemma_split_point_bounds(leaves.len());
        }
        let k = split_point(leaves.len());
        if position < k {
            inclusion_path(leaves.take(k as int), position).push(
                merkle_root(leaves.skip(k as int)),
            )
        } else {
            inclusion_path(leaves.skip(k as int), (position - k) as nat).push(
                merkle_root(leaves.take(k as int)),
            )
        }
    }
}

/// The root reached from `leaf` at `position` in a tree of `count` leaves by
/// following `path` upwards, or `None` where the path does not have the length
/// that the position asks for.
pub open spec fn root_from_path(leaf: Seq<u8>, position: nat, count: nat, path: Seq<Seq<u8>>) -> Option<
    Seq<u8>,
>
    decreases count,
{
    if position >= count {
        None
    } else if count == 1 {
        if path.len() == 0 {
            Some(leaf)
        } else {
            None
        }
    } else if path.len() == 0 {
        None
    } else {
        proof {
            lemma_split_point_bounds(count);
        }
        let k = split_point(count);
        if position < k {
            match root_from_path(leaf, position, k, path.drop_last()) {
                Some(below) => Some(node_digest(below, path.last())),
                None => None,
            }
        } else {
            match root_from_path(leaf, (position - k) as nat, (count - k) as nat, path.drop_last()) {
                Some(below) => Some(node_digest(path.last(), below)),
                None => None,
            }
        }
    }
}

/// Whether `path` proves that `leaf` stands at `position` among the `count`
/// leaves of the tree with root `root`.
pub open spec fn path_verifies(
    root: Seq<u8>,
    leaf: Seq<u8>,
    position: nat,
    count: nat,
    path: Seq<Seq<u8>>,
) -> bool {
    root_from_path(leaf, position, count, path) == Some(root)
}

/// The inclusion path of every leaf leads to the root of the tree.
pub proof fn lemma_inclusion_path_verifies(leaves: Seq<Seq<u8>>, position: nat)
    requires
        position < leaves.len(),
    ensures
        path_verifies(
            merkle_root(leaves),
            leaves[position as int],
            position,
            leaves.len(),
            inclusion_path(leaves, position),
        ),
    decreases leaves.len(),
{
    if leaves.len() > 1 {
        lemma_split_point_bounds(leaves.len());
        let k = split_point(leaves.len());
        let path = inclusion_path(leaves, position);
        if position < k {
            let left = leaves.take(k as int);
            lemma_inclusion_path_verifies(left, position);
            assert(path.drop_last() =~= inclusion_path(left, position));
        } else {
            let right = leaves.skip(k as int);
            lemma_inclusion_path_verifies(right, (position - k) as nat);
            assert(path.drop_last() =~= inclusion_path(right, (position - k) as nat));
        }
    }
}

/// A path issued when the tree had `leaves` stays valid after `more` leaves
/// were appended: it still leads to the root of the first `leaves.len()`
/// leaves of the longer sequence.
pub proof fn lemma_path_stable_under_append(
    leaves: Seq<Seq<u8>>,
    more: Seq<Seq<u8>>,
    position: nat,
)
    requires
        position < leaves.len(),
    ensures
        (leaves + more)[position as int] == leaves[position as int],
        path_verifies(
            merkle_root((leaves + more).take(leaves.len() as int)),
            (leaves + more)[position as int],
            position,
            leaves.len(),
            inclusion_path(leaves, position),
        ),
{
    assert((leaves + more).take(leaves.len() as int) =~= leaves);
    lemma_inclusion_path_verifies(leaves, position);
}

/// Whether the hash function gives 32 bytes for every input.
pub open spec fn digests_have_32_bytes() -> bool {
    forall|data: Seq<u8>| (#[trigger] sha3_256_digest(data)).len() == 32
}

/// Whether two different byte strings have one digest.
pub open spec fn has_collision() -> bool {
    exists|a: Seq<u8>, b: Seq<u8>|
        a != b && #[trigger] sha3_256_digest(a) == #[trigger] sha3_256_digest(b)
}

/// Whether every digest of the sequence has 32 bytes.
pub open spec fn all_32_bytes(digests: Seq<Seq<u8>>) -> bool {
    forall|i: int| 0 <= i < digests.len() ==> (#[trigger] digests[i]).len() == 32
}

/// The root over leaves of 32 bytes has 32 bytes.
proof fn lemma_root_has_32_bytes(leaves: Seq<Seq<u8>>)
    requires
        digests_have_32_bytes(),
        all_32_bytes(leaves),
    ensures
        merkle_root(leaves).len() == 32,
{
    if leaves.len() == 1 {
        assert(leaves[0].len() == 32);
    }
}

/// A root binds its leaves: a path that leads from `leaf` at `position` to
/// the root over `leaves` exists only where `leaf` is the leaf at that
/// position, unless the hash function has a collision. This is said of
/// digests of 32 bytes, and of a hash function that gives such digests.
pub proof fn lemma_path_binds_leaf(
    leaves: Seq<Seq<u8>>,
    leaf: Seq<u8>,
    position: nat,
    path: Seq<Seq<u8>>,
)
    ensures
        digests_have_32_bytes() && all_32_bytes(leaves) && leaf.len() == 32 && path_verifies(
            merkle_root(leaves),
            leaf,
            position,
            leaves.len(),
            path,
        ) ==> position < leaves.len() && (leaf == leaves[position as int] || has_collision()),
    decreases leaves.len(),
{
    if digests_have_32_bytes() && all_32_bytes(leaves) && leaf.len() == 32 && path_verifies(
        merkle_root(leaves),
        leaf,
        position,
        leaves.len(),
        path,
    ) && leaves.len() > 1 && !has_collision() {
        lemma_split_point_bounds(leaves.len());
        let k = split_point(leaves.len());
        let left = leaves.take(k as int);
        let right = leaves.skip(k as int);
        assert(all_32_bytes(left)) by {
            assert forall|i: int| 0 <= i < left.len() implies (#[trigger] left[i]).len() == 32 by {
                assert(left[i] == leaves[i]);
            }
        }
        assert(all_32_bytes(right)) by {
            assert forall|i: int| 0 <= i < right.len() implies (#[trigger] right[i]).len()
                == 32 by {
                assert(right[i] == leaves[i + k]);
            }
        }
        lemma_root_has_32_bytes(left);
        lemma_root_has_32_bytes(right);
        let sibling = path.last();
        if position < k {
            let below = root_from_path(leaf, position, k, path.drop_last())->0;
            lemma_path_has_32_bytes(leaf, position, k, path.drop_last());
            let mine = below + sibling;
            let theirs = merkle_root(left) + merkle_root(right);
            assert(sha3_256_digest(mine) == sha3_256_digest(theirs));
            assert(mine == theirs);
            assert(below =~= mine.take(32));
            assert(merkle_root(left) =~= theirs.take(32));
            lemma_path_binds_leaf(left, leaf, position, path.drop_last());
        } else {
            let below = root_from_path(
                leaf,
                (position - k) as nat,
                (leaves.len() - k) as nat,
                path.drop_last(),
            )->0;
            lemma_path_has_32_bytes(
                leaf,
                (position - k) as nat,
                (leaves.len() - k) as nat,
                path.drop_last(),
            );
            let mine = sibling + below;
            let theirs = merkle_root(left) + merkle_root(right);
            assert(sha3_256_digest(mine) == sha3_256_digest(theirs));
            assert(mine == theirs);
            assert(mine.len() == theirs.len());
            assert(below =~= mine.skip(mine.len() - 32));
            assert(merkle_root(right) =~= theirs.skip(theirs.len() - 32));
            lemma_path_binds_leaf(right, leaf, (position - k) as nat, path.drop_last());
        }
    }
}

/// The root that a path leads to from a leaf of 32 bytes has 32 bytes.
proof fn lemma_path_has_32_bytes(leaf: Seq<u8>, position: nat, count: nat, path: Seq<Seq<u8>>)
    requires
        digests_have_32_bytes(),
        leaf.len() == 32,
        root_from_path(leaf, position, count, path) is Some,
    ensures
        root_from_path(leaf, position, count, path)->0.len() == 32,
{
}

} // verus!
