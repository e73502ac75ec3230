//! The scalar field of BLS12-381, with elements held as 32 little-endian bytes.

use ark_bls12_381::Fr;
use ark_ff::{BigInteger, Field, PrimeField};
use vstd::prelude::*;

verus! {

/// The order of the scalar field.
#[verifier::opaque]
pub open spec fn modulus() -> nat {
    0x73eda753299d7d483339d80809a1d80553bda402fffe5bfeffffffff00000001nat
}

/// The number that a little-endian byte string stands for.
pub open spec fn le_nat(bytes: Seq<u8>) -> nat
    decreases bytes.len(),
{
    if bytes.len() == 0 {
        0
    } else {
        bytes[0] as nat + 256 * le_nat(bytes.drop_first())
    }
}

/// The byte of weight `256^i` in the little-endian writing of `n`.
pub open spec fn nat_byte(n: nat, i: nat) -> u8
    decreases i,
{
    if i == 0 {
        (n % 256) as u8
    } else {
        nat_byte(n / 256, (i - 1) as nat)
    }
}

/// A field element, as the 32 little-endian bytes of a number.
#[derive(Clone, Copy, Debug, PartialEq, Eq, Hash)]
pub struct Scalar {
    pub bytes: [u8; 32],
}

/// The element whose bytes are the 32 low bytes of `n`, little end first.
#[verifier::opaque]
pub open spec fn scalar_of_nat(n: nat) -> Scalar {
    Scalar {
        bytes: [
            nat_byte(n, 0),
            nat_byte(n, 1),
            nat_byte(n, 2),
            nat_byte(n, 3),
            nat_byte(n, 4),
            nat_byte(n, 5),
            nat_byte(n, 6),
            nat_byte(n, 7),
            nat_byte(n, 8),
            nat_byte(n, 9),
            nat_byte(n, 10),
            nat_byte(n, 11),
            nat_byte(n, 12),
            nat_byte(n, 13),
            nat_byte(n, 14),
            nat_byte(n, 15),
            nat_byte(n, 16),
            nat_byte(n, 17),
            nat_byte(n, 18),
            nat_byte(n, 19),
            nat_byte(n, 20),
            nat_byte(n, 21),
            nat_byte(n, 22),
            nat_byte(n, 23),
            nat_byte(n, 24),
            nat_byte(n, 25),
            nat_byte(n, 26),
            nat_byte(n, 27),
            nat_byte(n, 28),
            nat_byte(n, 29),
            nat_byte(n, 30),
            nat_byte(n, 31),
        ],
    }
}

/// The sum of two elements.
#[verifier::opaque]
pub open spec fn fadd(a: Scalar, b: Scalar) -> Scalar {
    scalar_of_nat((a.value() + b.value()) % modulus())
}

/// The difference of two elements.
#[verifier::opaque]
pub open spec fn fsub(a: Scalar, b: Scalar) -> Scalar {
    scalar_of_nat(((a.value() % modulus()) + modulus() - (b.value() % modulus())) as nat % modulus())
}

/// The product of two elements.
#[verifier::opaque]
pub open spec fn fmul(a: Scalar, b: Scalar) -> Scalar {
    scalar_of_nat((a.value() * b.value()) % modulus())
}

/// `inv` is the inverse of `a` in the field.
pub open spec fn is_inverse(a: Scalar, inv: Scalar) -> bool {
    inv.canonical() && (a.value() * inv.value()) % modulus() == 1
}

/// The inverse of an element, if it has one.
pub open spec fn spec_fr_inverse(a: Scalar) -> Option<Scalar> {
    if exists|inv: Scalar| is_inverse(a, inv) {
        Some(choose|inv: Scalar| is_inverse(a, inv))
    } else {
        None
    }
}

/// The element below the field order that stands for the same element of
/// the field as `a`.
pub open spec fn reduced(a: Scalar) -> Scalar {
    scalar_of_nat(a.value() % modulus())
}

/// Every one of `p` is below the field order.
pub open spec fn all_canonical(p: Seq<Scalar>) -> bool {
    forall|j: int| 0 <= j < p.len() ==> (#[trigger] p[j]).canonical()
}

/// The `j`-th power of `alpha`.
pub open spec fn power(alpha: Scalar, j: nat) -> Scalar
    decreases j,
{
    if j == 0 {
        scalar_of_nat(1)
    } else {
        fmul(power(alpha, (j - 1) as nat), alpha)
    }
}

/// The element minus one.
pub open spec fn minus_one() -> Scalar {
    fsub(scalar_of_nat(0), scalar_of_nat(1))
}

/// The value at `x` of the polynomial with the coefficients `coeffs`, lowest
/// first: `coeffs[0] + x * (coeffs[1] + x * (coeffs[2] + ..))`.
pub open spec fn horner(coeffs: Seq<Scalar>, x: Scalar) -> Scalar
    decreases coeffs.len(),
{
    if coeffs.len() == 0 {
        scalar_of_nat(0)
    } else {
        fadd(fmul(horner(coeffs.drop_first(), x), x), coeffs[0])
    }
}

impl Scalar {
    /// The number that the bytes stand for.
    pub open spec fn value(&self) -> nat {
        le_nat(self.bytes@)
    }

    /// The bytes stand for a number below the field order.
    pub open spec fn canonical(&self) -> bool {
        self.value() < modulus()
    }

    /// The zero of the field.
    pub fn zero() -> (r: Scalar)
        ensures
            r == scalar_of_nat(0),
    {
        let empty: Vec<u8> = Vec::new();
        proof {
            reveal(modulus);
            assert(le_nat(empty@) == 0);
        }
        fr_from_le_bytes_mod_order(empty.as_slice())
    }

    /// The element that a little-endian byte string stands for, reduced modulo
    /// the field order.
    pub fn from_le_bytes_mod_order(bytes: &[u8]) -> (r: Scalar)
        ensures
            r == scalar_of_nat(le_nat(bytes@) % modulus()),
    {
        fr_from_le_bytes_mod_order(bytes)
    }

    /// The sum of `self` and `other`.
    pub fn add(&self, other: &Scalar) -> (r: Scalar)
        ensures
            r == fadd(*self, *other),
    {
        fr_add(self, other)
    }

    /// The difference of `self` and `other`.
    pub fn sub(&self, other: &Scalar) -> (r: Scalar)
        ensures
            r == fsub(*self, *other),
    {
        fr_sub(self, other)
    }

    /// The product of `self` and `other`.
    pub fn mul(&self, other: &Scalar) -> (r: Scalar)
        ensures
            r == fmul(*self, *other),
    {
        fr_mul(self, other)
    }

    /// The one of the field.
    pub fn one() -> (r: Scalar)
        ensures
            r == scalar_of_nat(1),
    {
        let mut bytes: Vec<u8> = Vec::new();
        bytes.push(1u8);
        proof {
            reveal(modulus);
            assert(bytes@.drop_first() =~= Seq::<u8>::empty());
            assert(le_nat(bytes@.drop_first()) == 0);
            assert(le_nat(bytes@) == 1);
        }
        fr_from_le_bytes_mod_order(bytes.as_slice())
    }

    /// The inverse of `self`, if it has one: every element but zero has.
    pub fn inverse(&self) -> (r: Option<Scalar>)
        ensures
            r == spec_fr_inverse(*self),
            r is None <==> self.value() % modulus() == 0,
    {
        fr_inverse(self)
    }

    /// Whether the two elements have the same bytes.
    pub fn same(&self, other: &Scalar) -> (r: bool)
        ensures
            r == (*self == *other),
    {
        let mut i: usize = 0;
        while i < 32
            invariant
                i <= 32,
                forall|j: int| 0 <= j < i ==> self.bytes[j] == other.bytes[j],
            decreases 32 - i,
        {
            if self.bytes[i] != other.bytes[i] {
                return false;
            }
            i += 1;
        }
        assert(self.bytes =~= other.bytes);
        true
    }
}

/// `PrimeField::from_le_bytes_mod_order`, then `into_bigint` and
/// `to_bytes_le`: the bytes are read as a little-endian number, which is
/// reduced modulo the field order and written back as 32 bytes.
#[verifier::external_body]
pub(crate) fn fr_from_le_bytes_mod_order(bytes: &[u8]) -> (r: Scalar)
    ensures
        r == scalar_of_nat(le_nat(bytes@) % modulus()),
{
    let x = Fr::from_le_bytes_mod_order(bytes);
    Scalar { bytes: x.into_bigint().to_bytes_le().try_into().unwrap() }
}

/// Addition in the field (`Add` of `Fp`): the sum of the two numbers, reduced
/// modulo the field order and written as 32 bytes.
#[verifier::external_body]
pub(crate) fn fr_add(a: &Scalar, b: &Scalar) -> (r: Scalar)
    ensures
        r == fadd(*a, *b),
{
    let x = Fr::from_le_bytes_mod_order(&a.bytes) + Fr::from_le_bytes_mod_order(&b.bytes);
    Scalar { bytes: x.into_bigint().to_bytes_le().try_into().unwrap() }
}

/// Subtraction in the field (`Sub` of `Fp`): the difference of the two
/// numbers, reduced modulo the field order and written as 32 bytes.
#[verifier::external_body]
pub(crate) fn fr_sub(a: &Scalar, b: &Scalar) -> (r: Scalar)
    ensures
        r == fsub(*a, *b),
{
    let x = Fr::from_le_bytes_mod_order(&a.bytes) - Fr::from_le_bytes_mod_order(&b.bytes);
    Scalar { bytes: x.into_bigint().to_bytes_le().try_into().unwrap() }
}

/// Multiplication in the field (`Mul` of `Fp`): the product of the two
/// numbers, reduced modulo the field order and written as 32 bytes.
#[verifier::external_body]
pub(crate) fn fr_mul(a: &Scalar, b: &Scalar) -> (r: Scalar)
    ensures
        r == fmul(*a, *b),
{
    let x = Fr::from_le_bytes_mod_order(&a.bytes) * Fr::from_le_bytes_mod_order(&b.bytes);
    Scalar { bytes: x.into_bigint().to_bytes_le().try_into().unwrap() }
}

/// `Field::inverse`: nothing for zero, else the one element whose product
/// with the argument is one, written as 32 bytes of a number below the order.
#[verifier::external_body]
pub(crate) fn fr_inverse(a: &Scalar) -> (r: Option<Scalar>)
    ensures
        r == spec_fr_inverse(*a),
        r is None <==> a.value() % modulus() == 0,
{
    let x = Fr::from_le_bytes_mod_order(&a.bytes).inverse()?;
    Some(Scalar { bytes: x.into_bigint().to_bytes_le().try_into().unwrap() })
}

/// Evaluates the polynomial with the coefficients `coeffs`, lowest first, at
/// `point`, by Horner's rule.
pub fn polynomial_eval(coeffs: &[Scalar], point: &Scalar) -> (r: Scalar)
    ensures
        r == horner(coeffs@, *point),
{
    let mut acc = Scalar::zero();
    let mut i: usize = coeffs.len();
    assert(coeffs@.skip(i as int) =~= Seq::<Scalar>::empty());
    while i > 0
        invariant
            i <= coeffs.len(),
            acc == horner(coeffs@.skip(i as int), *point),
        decreases i,
    {
        i -= 1;
        let t = fr_mul(&acc, point);
        acc = fr_add(&t, &coeffs[i]);
        proof {
            let s = coeffs@.skip(i as int);
            assert(s.drop_first() =~= coeffs@.skip(i + 1));
            assert(s[0] == coeffs@[i as int]);
        }
    }
    assert(coeffs@.skip(0) =~= coeffs@);
    acc
}

} // verus!
