//! Points of the two source groups of BLS12-381, held in their uncompressed
//! encoding, and the two group computations that the commitment scheme needs.

use crate::field::Scalar;
use ark_bls12_381::{Bls12_381, Fr, G1Affine, G1Projective, G2Affine};
use ark_ec::{pairing::Pairing, CurveGroup, VariableBaseMSM};
use ark_ff::PrimeField;
use ark_serialize::{CanonicalDeserialize, CanonicalSerialize};
use vstd::prelude::*;

verus! {

/// A point of the first group, as the 96 bytes of its uncompressed encoding.
#[derive(Clone, Copy, Debug, PartialEq, Eq, Hash)]
pub struct G1Point {
    pub bytes: [u8; 96],
}

/// A point of the second group, as the 192 bytes of its uncompressed encoding.
#[derive(Clone, Copy, Debug, PartialEq, Eq, Hash)]
pub struct G2Point {
    pub bytes: [u8; 192],
}

/// An element of the target group, as the 576 bytes of its uncompressed
/// encoding.
#[derive(Clone, Copy, Debug, PartialEq, Eq, Hash)]
pub struct GtElement {
    pub bytes: [u8; 576],
}

/// The sum of the points that `bases[i]` decode to, each multiplied by
/// `scalars[i]`; nothing where the decoder refuses one of the encodings.
pub uninterp spec fn spec_g1_msm(bases: Seq<G1Point>, scalars: Seq<Scalar>) -> Option<G1Point>;

/// The pairing of the points that `a` and `b` decode to; nothing where the
/// decoder refuses one of the encodings, and where the final exponentiation
/// has no result.
pub uninterp spec fn spec_pairing(a: G1Point, b: G2Point) -> Option<GtElement>;

/// Whether the pairing of `a` with `b` is the pairing of `c` with `d`;
/// nothing where one of the two pairings is.
pub open spec fn spec_pairing_eq(a: G1Point, b: G2Point, c: G1Point, d: G2Point) -> Option<bool> {
    match (spec_pairing(a, b), spec_pairing(c, d)) {
        (Some(left), Some(right)) => Some(left == right),
        _ => None,
    }
}

/// `VariableBaseMSM::msm` on decoded points: the encoding of the sum of the
/// points, each multiplied by its scalar. The result depends on the encodings
/// and the scalars alone; it is nothing where the decoder refuses an
/// encoding.
#[verifier::external_body]
pub(crate) fn g1_msm(bases: &[G1Point], scalars: &[Scalar]) -> (r: Option<G1Point>)
    requires
        bases.len() == scalars.len(),
    ensures
        r == spec_g1_msm(bases@, scalars@),
{
    let mut points = Vec::with_capacity(bases.len());
    for b in bases {
        points.push(G1Affine::deserialize_uncompressed(&b.bytes[..]).ok()?);
    }
    let s: Vec<Fr> = scalars.iter().map(|x| Fr::from_le_bytes_mod_order(&x.bytes)).collect();
    let sum = G1Projective::msm(&points, &s).ok()?.into_affine();
    let mut bytes = [0u8; 96];
    sum.serialize_uncompressed(&mut bytes[..]).ok()?;
    Some(G1Point { bytes })
}

/// `Pairing::miller_loop` on decoded points, then
/// `Pairing::final_exponentiation`: the encoding of the pairing. The result
/// depends on the two encodings alone; it is nothing where the decoder
/// refuses an encoding, and where the final exponentiation gives nothing.
#[verifier::external_body]
pub(crate) fn pairing(a: &G1Point, b: &G2Point) -> (r: Option<GtElement>)
    ensures
        r == spec_pairing(*a, *b),
{
    let a = G1Affine::deserialize_uncompressed(&a.bytes[..]).ok()?;
    let b = G2Affine::deserialize_uncompressed(&b.bytes[..]).ok()?;
    let out = Bls12_381::final_exponentiation(Bls12_381::miller_loop(a, b))?;
    let mut bytes = [0u8; 576];
    out.serialize_uncompressed(&mut bytes[..]).ok()?;
    Some(GtElement { bytes })
}

impl GtElement {
    /// Whether the two elements have the same bytes.
    pub fn same(&self, other: &GtElement) -> (r: bool)
        ensures
            r == (*self == *other),
    {
        let mut i: usize = 0;
        while i < 576
            invariant
                i <= 576,
                forall|j: int| 0 <= j < i ==> self.bytes[j] == other.bytes[j],
            decreases 576 - i,
        {
            if self.bytes[i] != other.bytes[i] {
                return false;
            }
            i += 1;
        }
        assert(self.bytes =~= other.bytes);
        true
    }
}

/// Whether the pairing of `a` with `b` is the pairing of `c` with `d`.
pub fn pairing_eq(a: &G1Point, b: &G2Point, c: &G1Point, d: &G2Point) -> (r: Option<bool>)
    ensures
        r == spec_pairing_eq(*a, *b, *c, *d),
{
    let left = pairing(a, b);
    let right = pairing(c, d);
    match (left, right) {
        (Some(l), Some(r)) => Some(l.same(&r)),
        _ => None,
    }
}

} // verus!
