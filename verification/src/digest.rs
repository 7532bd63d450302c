//! 256-bit digests and the hash function that combines them.

use vstd::prelude::*;
use vstd::std_specs::cmp::PartialEqSpecImpl;

verus! {

/// The SHA3-256 digest of a byte string, as a sequence of 32 bytes.
pub uninterp spec fn sha3_256_digest(data: Seq<u8>) -> Seq<u8>;

/// The digest of an inner node of a Merkle tree: the hash of the left child's
/// digest followed by the right child's.
pub open spec fn node_digest(left: Seq<u8>, right: Seq<u8>) -> Seq<u8> {
    sha3_256_digest(left + right)
}

/// The digests of a sequence, each as its bytes.
pub open spec fn digests(s: Seq<H256>) -> Seq<Seq<u8>> {
    Seq::new(s.len(), |i: int| s[i]@)
}

/// The bytes of a digest that may be absent.
pub open spec fn digest_of(h: Option<H256>) -> Option<Seq<u8>> {
    match h {
        Some(h) => Some(h@),
        None => None,
    }
}

/// A 256-bit digest.
#[derive(Clone, Copy, Debug)]
pub struct H256(pub [u8; 32]);

impl View for H256 {
    type V = Seq<u8>;

    open spec fn view(&self) -> Seq<u8> {
        self.0@
    }
}

impl PartialEq for H256 {
    fn eq(&self, other: &Self) -> (r: bool) {
        let mut i: usize = 0;
        while i < 32
            invariant
                i <= 32,
                forall|j: int| 0 <= j < i ==> self.0[j] == other.0[j],
            decreases 32 - i,
        {
            if self.0[i] != other.0[i] {
                return false;
            }
            i += 1;
        }
        proof {
            assert(self.0@ =~= other.0@);
        }
        true
    }
}

impl PartialEqSpecImpl for H256 {
    open spec fn obeys_eq_spec() -> bool {
        true
    }

    open spec fn eq_spec(&self, other: &Self) -> bool {
        self@ == other@
    }
}

impl Eq for H256 {

}

/// Calls `tiny_keccak::Sha3::v256`, feeds it `data` with `Hasher::update` and
/// reads 32 bytes with `Hasher::finalize`: the result is trusted to be the
/// SHA3-256 digest of `data`.
#[verifier::external_body]
fn sha3_256(data: &[u8]) -> (out: [u8; 32])
    ensures
        out@ == sha3_256_digest(data@),
{
    let mut hasher = tiny_keccak::Sha3::v256();
    tiny_keccak::Hasher::update(&mut hasher, data);
    let mut out: [u8; 32] = [0u8; 32];
    tiny_keccak::Hasher::finalize(hasher, &mut out);
    out
}

impl H256 {
    /// The digest made of the given bytes.
    pub fn new(bytes: [u8; 32]) -> (r: Self)
        ensures
            r.0 == bytes,
            r@ == bytes@,
    {
        H256(bytes)
    }

    /// The digest whose bytes are all zero.
    pub fn zero() -> (r: Self)
        ensures
            r@ == Seq::new(32, |i: int| 0u8),
    {
        let r = H256([0u8; 32]);
        proof {
            assert(r@ =~= Seq::new(32, |i: int| 0u8));
        }
        r
    }

    /// The digest held in `bytes`, if there are exactly 32 of them.
    pub fn from_slice(bytes: &[u8]) -> (r: Option<Self>)
        ensures
            bytes@.len() == 32 ==> r is Some && r->0@ == bytes@,
            bytes@.len() != 32 ==> r is None,
    {
        if bytes.len() != 32 {
            return None;
        }
        let mut out: [u8; 32] = [0u8; 32];
        let mut i: usize = 0;
        while i < 32
            invariant
                i <= 32,
                bytes@.len() == 32,
                forall|j: int| 0 <= j < i ==> out[j] == bytes@[j],
            decreases 32 - i,
        {
            out[i] = bytes[i];
            i += 1;
        }
        proof {
            assert(out@ =~= bytes@);
        }
        Some(H256(out))
    }

    /// The bytes of the digest.
    pub fn as_bytes(&self) -> (r: &[u8; 32])
        ensures
            r@ == self@,
    {
        &self.0
    }

    /// The bytes of the digest, in a vector.
    pub fn to_vec(&self) -> (r: Vec<u8>)
        ensures
            r@ == self@,
    {
        let mut out: Vec<u8> = Vec::new();
        let mut i: usize = 0;
        while i < 32
            invariant
                i <= 32,
                out@ == self@.take(i as int),
            decreases 32 - i,
        {
            out.push(self.0[i]);
            proof {
                assert(self@.take(i as int).push(self@[i as int]) =~= self@.take(i + 1));
            }
            i += 1;
        }
        proof {
            assert(self@.take(32) =~= self@);
        }
        out
    }
}

/// The SHA3-256 digest of `data`.
pub fn sha3_256_of(data: &[u8]) -> (r: H256)
    ensures
        r@ == sha3_256_digest(data@),
{
    H256(sha3_256(data))
}

/// The digest of the inner node with children `left` and `right`.
pub fn hash_pair(left: &H256, right: &H256) -> (r: H256)
    ensures
        r@ == node_digest(left@, right@),
{
    let mut buffer: Vec<u8> = left.to_vec();
    let mut i: usize = 0;
    while i < 32
        invariant
            i <= 32,
            buffer@ == left@ + right@.take(i as int),
        decreases 32 - i,
    {
        buffer.push(right.0[i]);
        proof {
            assert((left@ + right@.take(i as int)).push(right@[i as int]) =~= left@ + right@.take(
                i + 1,
            ));
        }
        i += 1;
    }
    proof {
        assert(right@.take(32) =~= right@);
    }
    H256(sha3_256(buffer.as_slice()))
}

} // verus!
