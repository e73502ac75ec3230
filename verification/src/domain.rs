//! Radix-2 evaluation domains of the scalar field: the powers of a root of
//! unity, and the transforms between coefficients and values on them.

use crate::field::{
    all_canonical, fmul, horner, minus_one, power, reduced, scalar_of_nat, Scalar,
};
use ark_bls12_381::Fr;
use ark_ff::{BigInteger, PrimeField};
use ark_poly::{EvaluationDomain, Radix2EvaluationDomain};
use vstd::arithmetic::power2::is_pow2;
use vstd::prelude::*;

verus! {

/// The sizes that an evaluation domain can have: the powers of two up to 2^32.
pub open spec fn is_domain_size(size: nat) -> bool {
    is_pow2(size as int) && size <= 0x1_0000_0000
}

/// Halving a power of two above one gives a power of two.
pub proof fn lemma_pow2_halves(n: int)
    requires
        n > 1,
    ensures
        is_pow2(n) <==> (n % 2 == 0 && is_pow2(n / 2)),
{
    reveal(is_pow2);
}

/// Of two powers of two, the second below twice the first and not below it is
/// the first.
pub proof fn lemma_pow2_squeeze(a: int, b: int)
    requires
        is_pow2(a),
        is_pow2(b),
        a <= b < 2 * a,
    ensures
        a == b,
    decreases a,
{
    reveal(is_pow2);
    if a > 1 {
        lemma_pow2_squeeze(a / 2, b / 2);
    }
}

/// The smallest power of two that is not below `n`.
pub open spec fn next_power_of_two(n: nat) -> nat
    decreases n,
{
    if n <= 1 {
        1
    } else {
        2 * next_power_of_two((n + 1) / 2)
    }
}

/// `next_power_of_two(n)` is a power of two, not below `n` and, but for
/// `n = 0`, below twice `n`.
pub proof fn lemma_next_power_of_two(n: nat)
    ensures
        is_pow2(next_power_of_two(n) as int),
        n <= next_power_of_two(n),
        n >= 1 ==> next_power_of_two(n) < 2 * n,
    decreases n,
{
    reveal(is_pow2);
    if n > 1 {
        lemma_next_power_of_two((n + 1) / 2);
    }
}

/// The one power of two that is not below `n` and below twice `n` is
/// `next_power_of_two(n)`.
pub proof fn lemma_power_of_two_between(n: nat, d: nat)
    requires
        is_pow2(d as int),
        1 <= n <= d < 2 * n,
    ensures
        d == next_power_of_two(n),
{
    lemma_next_power_of_two(n);
    let next = next_power_of_two(n);
    if d <= next {
        lemma_pow2_squeeze(d as int, next as int);
    } else {
        lemma_pow2_squeeze(next as int, d as int);
    }
}

/// The generator of the domain of size `size`.
pub uninterp spec fn spec_group_gen(size: nat) -> Scalar;

/// The element of index `i` of the domain of size `size`: the `i`-th power of
/// the domain's generator.
pub open spec fn spec_domain_element(size: nat, i: nat) -> Scalar {
    power(spec_group_gen(size), i)
}

/// `g` has the order `size`, a power of two: raised to half the size it
/// gives minus one.
pub open spec fn is_primitive_root(g: Scalar, size: nat) -> bool {
    size >= 2 ==> power(g, size / 2) == minus_one()
}

/// The square of `g` is the generator of the domain of half the size.
pub open spec fn squares_to_half(g: Scalar, size: nat) -> bool {
    size >= 2 ==> fmul(g, g) == spec_group_gen(size / 2)
}

/// The domain of size `small` lies in the domain of size `big`: its elements
/// are every `big / small`-th element of that domain, in their order.
pub open spec fn is_subdomain(small: nat, big: nat) -> bool {
    &&& small >= 1
    &&& big % small == 0
    &&& forall|i: nat| #[trigger]
        spec_domain_element(small, i) == spec_domain_element(big, i * (big / small))
}

/// The values, on the domain of size `size`, of the polynomial with the
/// coefficients `coeffs`: its value at each element of the domain, in the
/// order of the elements.
pub open spec fn spec_fft(size: nat, coeffs: Seq<Scalar>) -> Seq<Scalar> {
    Seq::new(size, |i: int| horner(coeffs, spec_domain_element(size, i as nat)))
}

/// The coefficients of the polynomial of degree below `size` that takes the
/// values `evals`, filled up with zeros, on the domain of size `size`.
pub uninterp spec fn spec_ifft(size: nat, evals: Seq<Scalar>) -> Seq<Scalar>;

/// The values `evals`, each below the field order, filled up with zeros to
/// `size` values.
pub open spec fn padded(evals: Seq<Scalar>, size: nat) -> Seq<Scalar> {
    Seq::new(
        size,
        |i: int|
            if i < evals.len() {
                reduced(evals[i])
            } else {
                scalar_of_nat(0)
            },
    )
}

/// `coeffs` are the coefficients of the polynomial of degree below `size`
/// that takes the values `evals`, filled up with zeros, on the domain of size
/// `size`.
pub open spec fn is_inverse_transform(size: nat, evals: Seq<Scalar>, coeffs: Seq<Scalar>) -> bool {
    &&& coeffs.len() == size
    &&& all_canonical(coeffs)
    &&& spec_fft(size, coeffs) == padded(evals, size)
}

/// `Radix2EvaluationDomain::new` and `size`: the size of the domain that is
/// made for `num_coeffs` coefficients. It is a power of two, at most 2^32, not
/// below `num_coeffs` and below twice `num_coeffs`. There is such a domain
/// at least for every `num_coeffs` up to 2^31.
#[verifier::external_body]
pub(crate) fn radix2_domain_size(num_coeffs: usize) -> (r: Option<usize>)
    ensures
        num_coeffs <= 0x8000_0000 ==> r is Some,
        r matches Some(size) ==> {
            &&& is_domain_size(size as nat)
            &&& num_coeffs <= size
            &&& num_coeffs >= 1 ==> size < 2 * num_coeffs
        },
{
    Radix2EvaluationDomain::<Fr>::new(num_coeffs).map(|d| d.size())
}

/// `EvaluationDomain::group_gen` on the domain of size `size`: a generator of
/// the group of the roots of unity of order `size`, written as 32 bytes of a
/// number below the order. Raised to half its order, a generator of a group
/// of even order gives the one element of order two, minus one. The
/// generators of all sizes come from one root of unity by squaring, so the
/// square of the generator of one size is the generator of half the size.
/// The result depends on `size` alone.
#[verifier::external_body]
pub(crate) fn domain_generator(size: usize) -> (r: Scalar)
    requires
        is_domain_size(size as nat),
    ensures
        r == spec_group_gen(size as nat),
        is_primitive_root(r, size as nat),
        squares_to_half(r, size as nat),
{
    let x = Radix2EvaluationDomain::<Fr>::new(size).unwrap().group_gen();
    Scalar { bytes: x.into_bigint().to_bytes_le().try_into().unwrap() }
}

/// `EvaluationDomain::element` on the domain of size `size`: the `i`-th power
/// of the domain's generator, written as 32 bytes of a number below the
/// order. The result depends on `size` and `i` alone.
#[verifier::external_body]
pub(crate) fn domain_element(size: usize, i: usize) -> (r: Scalar)
    requires
        is_domain_size(size as nat),
    ensures
        r == spec_domain_element(size as nat, i as nat),
{
    let x = Radix2EvaluationDomain::<Fr>::new(size).unwrap().element(i);
    Scalar { bytes: x.into_bigint().to_bytes_le().try_into().unwrap() }
}

/// `EvaluationDomain::fft` on the domain of size `size`: the values of the
/// polynomial with the coefficients `coeffs` at the elements of the domain,
/// in their order, each written as 32 bytes of a number below the order.
#[verifier::external_body]
pub(crate) fn fft(size: usize, coeffs: &Vec<Scalar>) -> (r: Vec<Scalar>)
    requires
        is_domain_size(size as nat),
        coeffs.len() <= size,
    ensures
        r@ == spec_fft(size as nat, coeffs@),
{
    let c: Vec<Fr> = coeffs.iter().map(|x| Fr::from_le_bytes_mod_order(&x.bytes)).collect();
    let e = Radix2EvaluationDomain::<Fr>::new(size).unwrap().fft(&c);
    e.iter().map(|x| Scalar { bytes: x.into_bigint().to_bytes_le().try_into().unwrap() }).collect()
}

/// `EvaluationDomain::ifft` on the domain of size `size`: the coefficients,
/// as many as the domain has elements and each written as 32 bytes of a
/// number below the order, of the polynomial whose values on the domain are
/// `evals`, filled up with zeros. The result depends on `size` and `evals`
/// alone.
#[verifier::external_body]
pub(crate) fn ifft(size: usize, evals: &Vec<Scalar>) -> (r: Vec<Scalar>)
    requires
        is_domain_size(size as nat),
        evals.len() <= size,
    ensures
        r@ == spec_ifft(size as nat, evals@),
        is_inverse_transform(size as nat, evals@, r@),
{
    let e: Vec<Fr> = evals.iter().map(|x| Fr::from_le_bytes_mod_order(&x.bytes)).collect();
    let c = Radix2EvaluationDomain::<Fr>::new(size).unwrap().ifft(&e);
    c.iter().map(|x| Scalar { bytes: x.into_bigint().to_bytes_le().try_into().unwrap() }).collect()
}

/// An evaluation domain: the powers of a root of unity whose order, the
/// size of the domain, is a power of two.
#[derive(Clone, Copy, Debug, PartialEq, Eq)]
pub struct Radix2Domain {
    size: usize,
    group_gen: Scalar,
}

impl Radix2Domain {
    /// The size of the domain.
    pub closed spec fn spec_size(&self) -> nat {
        self.size as nat
    }

    /// The size is one that a domain can have, and the generator is the
    /// generator of the domain of that size and has the size as its order.
    pub closed spec fn wf(&self) -> bool {
        &&& is_domain_size(self.size as nat)
        &&& self.group_gen == spec_group_gen(self.size as nat)
        &&& is_primitive_root(self.group_gen, self.size as nat)
        &&& squares_to_half(self.group_gen, self.size as nat)
    }

    /// What holds of every domain that is in order.
    pub proof fn lemma_wf(&self)
        requires
            self.wf(),
        ensures
            is_domain_size(self.spec_size()),
            is_primitive_root(spec_group_gen(self.spec_size()), self.spec_size()),
            squares_to_half(spec_group_gen(self.spec_size()), self.spec_size()),
    {
    }

    /// The domain of half the size.
    pub fn half(&self) -> (r: Radix2Domain)
        requires
            self.wf(),
            self.spec_size() >= 2,
        ensures
            r.wf(),
            2 * r.spec_size() == self.spec_size(),
    {
        let half_size: usize = self.size / 2;
        proof {
            lemma_pow2_halves(self.size as int);
            lemma_power_of_two_between(half_size as nat, half_size as nat);
        }
        match Radix2Domain::new(half_size) {
            Some(domain) => domain,
            None => *self,
        }
    }

    /// The domain for polynomials with `num_coeffs` coefficients: the
    /// smallest that has as many elements, if there is one. Its size is the
    /// smallest power of two that is not below `num_coeffs`. There is one at
    /// least for every `num_coeffs` up to 2^31.
    pub fn new(num_coeffs: usize) -> (r: Option<Radix2Domain>)
        ensures
            num_coeffs <= 0x8000_0000 ==> r is Some,
            r matches Some(domain) ==> {
                &&& domain.wf()
                &&& num_coeffs <= domain.spec_size()
                &&& num_coeffs >= 1 ==> domain.spec_size() == next_power_of_two(num_coeffs as nat)
            },
    {
        match radix2_domain_size(num_coeffs) {
            None => None,
            Some(size) => {
                proof {
                    if num_coeffs >= 1 {
                        lemma_power_of_two_between(num_coeffs as nat, size as nat);
                    }
                }
                Some(Radix2Domain { size, group_gen: domain_generator(size) })
            },
        }
    }

    /// The size of the domain.
    pub fn size(&self) -> (r: usize)
        ensures
            r == self.spec_size(),
    {
        self.size
    }

    /// The generator of the domain.
    pub fn group_gen(&self) -> (r: Scalar)
        requires
            self.wf(),
        ensures
            r == spec_group_gen(self.spec_size()),
            is_primitive_root(r, self.spec_size()),
    {
        self.group_gen
    }

    /// The element of index `i` of the domain.
    pub fn element(&self, i: usize) -> (r: Scalar)
        requires
            self.wf(),
        ensures
            r == spec_domain_element(self.spec_size(), i as nat),
    {
        domain_element(self.size, i)
    }

    /// The values on the domain of the polynomial with the coefficients
    /// `coeffs`.
    pub fn fft(&self, coeffs: &Vec<Scalar>) -> (r: Vec<Scalar>)
        requires
            self.wf(),
            coeffs.len() <= self.spec_size(),
        ensures
            r@ == spec_fft(self.spec_size(), coeffs@),
    {
        fft(self.size, coeffs)
    }

    /// The coefficients of the polynomial of degree below the size that takes
    /// the values `evals`, filled up with zeros, on the domain.
    pub fn ifft(&self, evals: &Vec<Scalar>) -> (r: Vec<Scalar>)
        requires
            self.wf(),
            evals.len() <= self.spec_size(),
        ensures
            r@ == spec_ifft(self.spec_size(), evals@),
            is_inverse_transform(self.spec_size(), evals@, r@),
    {
        ifft(self.size, evals)
    }
}

} // verus!
