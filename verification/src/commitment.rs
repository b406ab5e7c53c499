//! KZG commitments: points of the group G1 of BLS12-381, held as their
//! 48-byte compressed encodings, with the group operations delegated to
//! `ark_ec`.
use crate::field::Scalar;
use ark_bls12_381::{Fr, G1Affine, G1Projective};
use ark_ec::{AffineCurve, ProjectiveCurve};
use ark_ff::{BigInteger256, PrimeField, Zero};
use ark_serialize::{CanonicalDeserialize, CanonicalSerialize};
use vstd::prelude::*;

verus! {

/// The bytes are the compressed encoding of a point of the prime-order
/// subgroup of G1 (what `G1Affine::deserialize` accepts).
pub uninterp spec fn is_g1_encoding(bytes: Seq<u8>) -> bool;

/// The encoding of the sum of the points that `a` and `b` encode.
pub uninterp spec fn g1_add(a: Seq<u8>, b: Seq<u8>) -> Seq<u8>;

/// The encoding of the point `a` encodes, times the scalar `s`.
pub uninterp spec fn g1_mul(a: Seq<u8>, s: nat) -> Seq<u8>;

/// The encoding of the point at infinity: 48 zero bytes but for the
/// infinity flag (bit 6) of the last.
pub open spec fn g1_zero_encoding() -> Seq<u8> {
    Seq::new(48, |i: int| if i == 47 { 64u8 } else { 0u8 })
}

/// A commitment to a polynomial: a point of G1, by its compressed encoding.
#[derive(Debug)]
pub struct Commitment {
    bytes: Vec<u8>,
}

impl View for Commitment {
    type V = Seq<u8>;

    closed spec fn view(&self) -> Seq<u8> {
        self.bytes@
    }
}

impl Clone for Commitment {
    fn clone(&self) -> (r: Commitment)
        ensures
            r@ == self@,
    {
        proof {
            use_type_invariant(self);
        }
        let bytes = self.bytes.clone();
        proof {
            assert(bytes@ =~= self.bytes@);
        }
        Commitment { bytes }
    }
}

impl Commitment {
    /// Every commitment holds a valid encoding.
    #[verifier::type_invariant]
    pub closed spec fn valid(self) -> bool {
        self.bytes@.len() == 48 && is_g1_encoding(self.bytes@)
    }

    /// What the type invariant says of the encoding.
    pub proof fn lemma_valid(self)
        requires
            self.valid(),
        ensures
            self@.len() == 48,
            is_g1_encoding(self@),
    {
    }
}

/// Calls `G1Affine::deserialize`: whether the bytes encode a point of the
/// subgroup.
#[verifier::external_body]
fn ark_g1_deserializes(bytes: &[u8]) -> (r: bool)
    ensures
        r == is_g1_encoding(bytes@),
{
    G1Affine::deserialize(bytes).is_ok()
}

/// Calls `G1Affine::zero` and serializes it: the encoding of the point at
/// infinity, which is a valid encoding.
#[verifier::external_body]
fn ark_g1_zero() -> (r: Vec<u8>)
    ensures
        r@ == g1_zero_encoding(),
        is_g1_encoding(r@),
{
    let mut bytes = Vec::new();
    G1Affine::zero().serialize(&mut bytes).unwrap();
    bytes
}

/// Calls `Add` on G1 (after decoding both points): the encoding of the sum,
/// which is valid and, like every compressed G1 encoding, 48 bytes long.
#[verifier::external_body]
fn ark_g1_add(a: &Commitment, b: &Commitment) -> (r: Vec<u8>)
    requires
        is_g1_encoding(a@),
        is_g1_encoding(b@),
    ensures
        r@ == g1_add(a@, b@),
        r@.len() == 48,
        is_g1_encoding(r@),
{
    let x = G1Affine::deserialize(a.bytes.as_slice()).unwrap().into_projective();
    let y = G1Affine::deserialize(b.bytes.as_slice()).unwrap().into_projective();
    let mut bytes = Vec::new();
    (x + y).into_affine().serialize(&mut bytes).unwrap();
    bytes
}

/// Calls `AffineCurve::mul` with the canonical integer of `s`: the encoding
/// of the multiple, which is valid and 48 bytes long.
#[verifier::external_body]
fn ark_g1_mul(a: &Commitment, s: Scalar) -> (r: Vec<u8>)
    requires
        is_g1_encoding(a@),
    ensures
        r@ == g1_mul(a@, s@),
        r@.len() == 48,
        is_g1_encoding(r@),
{
    let x = G1Affine::deserialize(a.bytes.as_slice()).unwrap();
    let p: G1Projective = x.mul(Fr::from_repr(BigInteger256(s.limbs)).unwrap().into_repr());
    let mut bytes = Vec::new();
    p.into_affine().serialize(&mut bytes).unwrap();
    bytes
}

impl Commitment {
    /// The commitment to the zero polynomial: the point at infinity.
    pub fn zero() -> (r: Commitment)
        ensures
            r@ == g1_zero_encoding(),
    {
        Commitment { bytes: ark_g1_zero() }
    }

    /// The commitment these 48 bytes encode, if they encode a point of the
    /// subgroup.
    pub fn from_bytes(bytes: &[u8]) -> (r: Option<Commitment>)
        ensures
            r.is_some() == (bytes@.len() == 48 && is_g1_encoding(bytes@)),
            r.is_some() ==> r.unwrap()@ == bytes@,
    {
        if bytes.len() == 48 && ark_g1_deserializes(bytes) {
            let mut v: Vec<u8> = Vec::new();
            let mut i: usize = 0;
            while i < bytes.len()
                invariant
                    i <= bytes@.len(),
                    v@ == bytes@.take(i as int),
                decreases bytes@.len() - i,
            {
                v.push(bytes[i]);
                i = i + 1;
                proof {
                    assert(v@ =~= bytes@.take(i as int));
                }
            }
            proof {
                assert(v@ =~= bytes@);
            }
            Some(Commitment { bytes: v })
        } else {
            None
        }
    }

    /// The compressed encoding.
    pub fn to_bytes(&self) -> (r: &Vec<u8>)
        ensures
            r@ == self@,
    {
        &self.bytes
    }

    /// The sum of two commitments.
    pub fn add(&self, other: &Commitment) -> (r: Commitment)
        ensures
            r@ == g1_add(self@, other@),
    {
        proof {
            use_type_invariant(self);
            use_type_invariant(other);
        }
        Commitment { bytes: ark_g1_add(self, other) }
    }

    /// The commitment times a scalar.
    pub fn mul(&self, s: Scalar) -> (r: Commitment)
        ensures
            r@ == g1_mul(self@, s@),
    {
        proof {
            use_type_invariant(self);
        }
        Commitment { bytes: ark_g1_mul(self, s) }
    }
}

impl Default for Commitment {
    /// The point at infinity.
    fn default() -> (r: Commitment)
        ensures
            r@ == g1_zero_encoding(),
    {
        Commitment::zero()
    }
}

} // verus!
