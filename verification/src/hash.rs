//! Hashing.

use nimiq_hash::Hasher;
use vstd::prelude::*;

verus! {

/// The Blake2b hash of some bytes, 256 bits long, without a key.
pub uninterp spec fn blake2b_256(data: Seq<u8>) -> Seq<u8>;

/// Calls `nimiq_hash::Hasher::digest` on a fresh `nimiq_hash::Blake2bHasher`:
/// the 32 bytes of the Blake2b hash of `data`, a function of `data` alone. What
/// the hash of given bytes is, is not spelled out.
#[verifier::external_body]
pub(crate) fn blake2b(data: &[u8]) -> (h: [u8; 32])
    ensures
        h@ == blake2b_256(data@),
{
    nimiq_hash::Blake2bHasher::new().digest(data).0
}

/// The root of the hash tree over `leaves`: one leaf is its own root, and a
/// longer list is split in the middle, the first half taking the odd leaf.
pub open spec fn merkle_root(leaves: Seq<Seq<u8>>) -> Seq<u8>
    decreases leaves.len(),
{
    if leaves.len() == 0 {
        blake2b_256(Seq::empty())
    } else if leaves.len() == 1 {
        leaves[0]
    } else {
        let mid = (leaves.len() as int + 1) / 2;
        blake2b_256(merkle_root(leaves.take(mid)) + merkle_root(leaves.skip(mid)))
    }
}

/// The views of a list of hashes.
pub open spec fn hash_views(hashes: Seq<[u8; 32]>) -> Seq<Seq<u8>> {
    Seq::new(hashes.len(), |i: int| hashes[i]@)
}

/// Calls `nimiq_utils::merkle::compute_root_from_hashes` on Blake2b hashes: the
/// root of the hash tree over them, as `merkle_root` defines it.
#[verifier::external_body]
pub(crate) fn root_of_hashes(hashes: &Vec<[u8; 32]>) -> (r: [u8; 32])
    ensures
        r@ == merkle_root(hash_views(hashes@)),
{
    let leaves: Vec<nimiq_hash::Blake2bHash> = hashes.iter().map(
        |h| nimiq_hash::Blake2bHash(*h),
    ).collect();
    nimiq_utils::merkle::compute_root_from_hashes(&leaves).into_owned().0
}

/// The root of a hash tree, level by level: over no leaves it is the hash of nothing,
/// over one leaf that leaf, over two the hash of both, and over two lists, one behind
/// the other, of which the first is as long as the second or longer by one, the hash of
/// the two roots.
pub proof fn law_merkle_root(left: Seq<Seq<u8>>, right: Seq<Seq<u8>>, a: Seq<u8>, b: Seq<u8>)
    ensures
        merkle_root(Seq::<Seq<u8>>::empty()) == blake2b_256(Seq::<u8>::empty()),
        merkle_root(seq![a]) == a,
        merkle_root(seq![a, b]) == blake2b_256(a + b),
        right.len() > 0 && (left.len() == right.len() || left.len() == right.len() + 1)
            ==> merkle_root(left + right) == blake2b_256(merkle_root(left) + merkle_root(right)),
{
    reveal_with_fuel(merkle_root, 3);
    assert(seq![a, b].take(1) =~= seq![a]);
    assert(seq![a, b].skip(1) =~= seq![b]);
    let n = left.len() as int;
    assert((left + right).take(n) =~= left);
    assert((left + right).skip(n) =~= right);
}

/// The leaves that a list of hashes stands for are these hashes, each at its place.
pub proof fn law_hash_views(hashes: Seq<[u8; 32]>, i: int)
    ensures
        hash_views(hashes).len() == hashes.len(),
        0 <= i < hashes.len() ==> hash_views(hashes)[i] == hashes[i]@,
{
}

} // verus!
