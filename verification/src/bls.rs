//! Keys and signatures of the validators, in compressed form.

use crate::codec::{carried, ends_early, lemma_carry_bytes, parse_bytes, Cursor, Parsed};
use crate::error::SerializingError;
use vstd::prelude::*;

verus! {

/// Whether 96 bytes are the compressed form of a point in the prime-order
/// subgroup of G2 on the BLS12-381 curve.
pub uninterp spec fn is_g2_point(bytes: Seq<u8>) -> bool;

/// Calls `bls12_381::G2Affine::from_compressed`, which yields a point exactly
/// where the bytes are the canonical compressed form of a point on the curve
/// and in the subgroup, and says whether it did. The outcome depends on the
/// bytes alone; which byte strings are points is not spelled out.
#[verifier::external_body]
fn decompresses_to_g2(bytes: &[u8; 96]) -> (b: bool)
    ensures
        b == is_g2_point(bytes@),
{
    bls12_381::G2Affine::from_compressed(bytes).is_some().into()
}

/// The public key of a validator: always a point of the curve.
#[derive(Clone, Copy, Debug, PartialEq, Eq)]
pub struct BlsPublicKey {
    bytes: [u8; 96],
}

impl View for BlsPublicKey {
    type V = Seq<u8>;

    closed spec fn view(&self) -> Seq<u8> {
        self.bytes@
    }
}

impl BlsPublicKey {
    #[verifier::type_invariant]
    spec fn on_curve(self) -> bool {
        is_g2_point(self.bytes@)
    }

    /// The key with this compressed form, if there is one.
    pub fn from_bytes(bytes: [u8; 96]) -> (k: Option<BlsPublicKey>)
        ensures
            k is Some <==> is_g2_point(bytes@),
            k matches Some(k) ==> k@ == bytes@,
    {
        if decompresses_to_g2(&bytes) {
            Some(BlsPublicKey { bytes })
        } else {
            None
        }
    }

    /// The compressed form.
    pub fn as_bytes(&self) -> (b: &[u8; 96])
        ensures
            b@ == self@,
            is_g2_point(b@),
    {
        proof {
            use_type_invariant(self);
        }
        &self.bytes
    }
}

/// A key has 96 bytes, and these determine it.
pub proof fn lemma_key_bytes(a: BlsPublicKey, b: BlsPublicKey)
    ensures
        a@.len() == 96,
        a@ == b@ ==> a == b,
{
    if a@ == b@ {
        assert forall|i: int| 0 <= i < 96 implies a.bytes[i] == b.bytes[i] by {
            assert(a.bytes@[i] == b.bytes@[i]);
        }
        assert(a.bytes =~= b.bytes);
    }
}

/// The key with these bytes.
pub open spec fn key_of(s: Seq<u8>) -> BlsPublicKey {
    choose|k: BlsPublicKey| k@ == s
}

/// A key is the key of its bytes.
pub proof fn lemma_key_of(k: BlsPublicKey)
    ensures
        key_of(k@) == k,
{
    let l = key_of(k@);
    assert(l@ == k@);
    lemma_key_bytes(l, k);
}

/// 96 bytes that are a point of the curve.
pub open spec fn parse_key(s: Seq<u8>) -> Parsed<BlsPublicKey> {
    match parse_bytes(s, 96) {
        Ok((b, rest)) => if is_g2_point(b) {
            Ok((key_of(b), rest))
        } else {
            Err(SerializingError::InvalidValue)
        },
        Err(e) => Err(e),
    }
}

/// Bytes behind the input do not change what is read of it.
pub proof fn lemma_carry_key(s: Seq<u8>, t: Seq<u8>)
    ensures
        carried(parse_key(s), parse_key(s + t), t),
{
    lemma_carry_bytes(s, 96, t);
}

/// Reads a key.
pub fn read_key(c: &mut Cursor) -> (r: Result<BlsPublicKey, SerializingError>)
    requires
        old(c).wf(),
    ensures
        final(c).wf(),
        final(c).input() == old(c).input(),
        ends_early(parse_key(old(c).rest())) ==> final(c).missing() > 0 && forall|t: Seq<u8>|
            t.len() < final(c).missing() ==> ends_early(
                #[trigger] parse_key(old(c).rest() + t),
            ),
        match parse_key(old(c).rest()) {
            Ok((v, rest)) => r == Ok::<BlsPublicKey, SerializingError>(v) && final(c).rest()
                == rest,
            Err(e) => r == Err::<BlsPublicKey, SerializingError>(e),
        },
{
    match c.read_array::<96>() {
        Ok(bytes) => match BlsPublicKey::from_bytes(bytes) {
            Some(k) => {
                proof {
                    lemma_key_of(k);
                }
                Ok(k)
            },
            None => Err(SerializingError::InvalidValue),
        },
        Err(e) => Err(e),
    }
}

/// A signature of a validator, in compressed form.
#[derive(Clone, Copy, Debug, PartialEq, Eq)]
pub struct BlsSignature {
    pub bytes: [u8; 48],
}

/// The public key of a validator, kept compressed until it is used.
#[derive(Clone, Copy, Debug, PartialEq, Eq)]
pub struct LazyPublicKey {
    pub compressed: [u8; 96],
}

impl LazyPublicKey {
    /// Whether the compressed forms agree.
    pub fn same(&self, other: &LazyPublicKey) -> (b: bool)
        ensures
            b == (*self == *other),
    {
        let mut i: usize = 0;
        while i < 96
            invariant
                i <= 96,
                forall|j: int| 0 <= j < i ==> self.compressed@[j] == other.compressed@[j],
            decreases 96 - i,
        {
            if self.compressed[i] != other.compressed[i] {
                assert(self.compressed@[i as int] != other.compressed@[i as int]);
                return false;
            }
            i = i + 1;
        }
        assert forall|j: int| 0 <= j < 96 implies self.compressed[j] == other.compressed[j] by {
            assert(self.compressed@[j] == other.compressed@[j]);
        }
        assert(self.compressed =~= other.compressed);
        true
    }
}

} // verus!
