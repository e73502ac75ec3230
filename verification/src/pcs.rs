//! The KZG commitment scheme for polynomials in one variable over BLS12-381.
//!
//! A polynomial is the list of its coefficients, lowest first. A commitment
//! is the sum of the powers of the reference string's secret, held in the
//! first group, each multiplied by its coefficient. An opening at `z` is the
//! commitment of the quotient of the polynomial by `X - z`.

use crate::curve::{g1_msm, pairing_eq, spec_g1_msm, spec_pairing_eq, G1Point, G2Point};
use crate::domain::{spec_domain_element, spec_fft, Radix2Domain};
use crate::field::{fr_add, fr_mul, fr_sub, fsub, horner, modulus, scalar_of_nat, Scalar};
use crate::polynomial::{eval_int, lemma_quotient_divides};
use vstd::prelude::*;
use vstd::slice::slice_subrange;

verus! {

/// A commitment to a polynomial.
pub type KzgCommit = G1Point;

/// The proof that a committed polynomial takes a value at a point.
pub type KzgProof = G1Point;

/// A structured reference string: the powers of a secret in the first group,
/// lowest first, and the generator and the secret in the second group.
#[derive(Clone, Debug, PartialEq, Eq)]
pub struct KzgSrs {
    pub powers_of_g: Vec<G1Point>,
    pub h: G2Point,
    pub beta_h: G2Point,
}

/// What a prover needs of the reference string.
#[derive(Clone, Debug, PartialEq, Eq)]
pub struct KzgProverParam {
    pub powers_of_g: Vec<G1Point>,
}

/// What a verifier needs of the reference string.
#[derive(Clone, Copy, Debug, PartialEq, Eq)]
pub struct KzgVerifierParam {
    pub g: G1Point,
    pub h: G2Point,
    pub beta_h: G2Point,
}

/// The commitment to `poly` under the powers `powers`; nothing where there
/// are fewer powers than coefficients or the decoder refuses a power.
pub open spec fn spec_commit(powers: Seq<G1Point>, poly: Seq<Scalar>) -> Option<KzgCommit> {
    if poly.len() > powers.len() {
        None
    } else {
        spec_g1_msm(powers.take(poly.len() as int), poly)
    }
}

/// The commitments to the first `count` of `polys`, if all of them exist.
pub open spec fn spec_batch_commit(powers: Seq<G1Point>, polys: Seq<Seq<Scalar>>, count: nat) -> Option<
    Seq<KzgCommit>,
>
    decreases count,
{
    if count == 0 {
        Some(Seq::empty())
    } else {
        match spec_batch_commit(powers, polys, (count - 1) as nat) {
            None => None,
            Some(before) => match spec_commit(powers, polys[count - 1]) {
                None => None,
                Some(c) => Some(before.push(c)),
            },
        }
    }
}

/// The quotient of `poly` by `X - z`: its coefficient of `X^i` is the value
/// at `z` of the polynomial that the coefficients of `poly` above `X^i` make.
pub open spec fn quotient(poly: Seq<Scalar>, z: Scalar) -> Seq<Scalar> {
    Seq::new(
        if poly.len() == 0 {
            0
        } else {
            (poly.len() - 1) as nat
        },
        |i: int| horner(poly.skip(i + 1), z),
    )
}

/// The opening of `poly` at `z`.
pub open spec fn spec_open(powers: Seq<G1Point>, poly: Seq<Scalar>, z: Scalar) -> Option<KzgProof> {
    spec_commit(powers, quotient(poly, z))
}

/// The openings of `poly` at the first `count` elements of the domain of size
/// `domain_size`, if all of them exist.
pub open spec fn spec_multi_open(
    powers: Seq<G1Point>,
    poly: Seq<Scalar>,
    domain_size: nat,
    count: nat,
) -> Option<Seq<KzgProof>>
    decreases count,
{
    if count == 0 {
        Some(Seq::empty())
    } else {
        match spec_multi_open(powers, poly, domain_size, (count - 1) as nat) {
            None => None,
            Some(before) => match spec_open(
                powers,
                poly,
                spec_domain_element(domain_size, (count - 1) as nat),
            ) {
                None => None,
                Some(p) => Some(before.push(p)),
            },
        }
    }
}

/// The values of `poly` at the first `count` elements of the domain of size
/// `domain_size`.
pub open spec fn spec_multi_evals(poly: Seq<Scalar>, domain_size: nat, count: nat) -> Seq<Scalar> {
    spec_fft(domain_size, poly).take(count as int)
}

/// Whether `proof` shows that the polynomial committed to in `commit` takes
/// the value `value` at `point`: whether the pairing of
/// `commit - value * g + point * proof` with `h` is the pairing of `proof`
/// with `beta_h`. Nothing where the decoder refuses a group element or a
/// pairing has no result.
pub open spec fn spec_verify(
    vk: KzgVerifierParam,
    commit: KzgCommit,
    point: Scalar,
    value: Scalar,
    proof: KzgProof,
) -> Option<bool> {
    match spec_g1_msm(
        seq![commit, vk.g, proof],
        seq![scalar_of_nat(1), fsub(scalar_of_nat(0), value), point],
    ) {
        None => None,
        Some(lhs) => spec_pairing_eq(lhs, vk.h, proof, vk.beta_h),
    }
}

/// Cuts the reference string down to what polynomials of degree `degree`
/// need. There is nothing to cut it to where it holds `degree` powers or
/// fewer.
pub fn trim(srs: &KzgSrs, degree: usize) -> (r: Option<(KzgProverParam, KzgVerifierParam)>)
    ensures
        r is None <==> srs.powers_of_g.len() <= degree,
        r matches Some((ck, vk)) ==> {
            &&& ck.powers_of_g@ == srs.powers_of_g@.take(degree + 1)
            &&& vk.g == srs.powers_of_g[0]
            &&& vk.h == srs.h
            &&& vk.beta_h == srs.beta_h
        },
{
    if srs.powers_of_g.len() <= degree {
        return None;
    }
    let mut powers: Vec<G1Point> = Vec::new();
    let mut i: usize = 0;
    while i <= degree
        invariant
            i <= degree + 1,
            degree < srs.powers_of_g.len(),
            powers.len() == i,
            forall|j: int| 0 <= j < i ==> powers[j] == srs.powers_of_g[j],
        decreases degree + 1 - i,
    {
        powers.push(srs.powers_of_g[i]);
        i += 1;
    }
    assert(powers@ =~= srs.powers_of_g@.take(degree + 1));
    Some(
        (
            KzgProverParam { powers_of_g: powers },
            KzgVerifierParam { g: srs.powers_of_g[0], h: srs.h, beta_h: srs.beta_h },
        ),
    )
}

/// Commits to the polynomial with the coefficients `poly`.
pub fn commit(ck: &KzgProverParam, poly: &Vec<Scalar>) -> (r: Option<KzgCommit>)
    ensures
        r == spec_commit(ck.powers_of_g@, poly@),
{
    if poly.len() > ck.powers_of_g.len() {
        return None;
    }
    let bases = slice_subrange(ck.powers_of_g.as_slice(), 0, poly.len());
    g1_msm(bases, poly.as_slice())
}

/// Commits to each of `polys`, in their order.
pub fn batch_commit(ck: &KzgProverParam, polys: &Vec<Vec<Scalar>>) -> (r: Option<Vec<KzgCommit>>)
    ensures
        r is Some <==> spec_batch_commit(ck.powers_of_g@, polys_view(polys@), polys.len() as nat)
            is Some,
        r matches Some(c) ==> Some(c@) == spec_batch_commit(
            ck.powers_of_g@,
            polys_view(polys@),
            polys.len() as nat,
        ),
{
    let mut out: Vec<KzgCommit> = Vec::new();
    let mut i: usize = 0;
    while i < polys.len()
        invariant
            i <= polys.len(),
            spec_batch_commit(ck.powers_of_g@, polys_view(polys@), i as nat) == Some(out@),
        decreases polys.len() - i,
    {
        match commit(ck, &polys[i]) {
            None => {
                proof {
                    assert(polys_view(polys@)[i as int] == polys[i as int]@);
                    assert(spec_batch_commit(ck.powers_of_g@, polys_view(polys@), (i + 1) as nat)
                        is None);
                    lemma_batch_commit_fails_on(
                        ck.powers_of_g@,
                        polys_view(polys@),
                        (i + 1) as nat,
                        polys.len() as nat,
                    );
                }
                return None;
            },
            Some(c) => {
                proof {
                    assert(polys_view(polys@)[i as int] == polys[i as int]@);
                }
                out.push(c);
            },
        }
        i += 1;
    }
    Some(out)
}

/// The coefficient lists of a list of polynomials.
pub open spec fn polys_view(polys: Seq<Vec<Scalar>>) -> Seq<Seq<Scalar>> {
    Seq::new(polys.len(), |i: int| polys[i]@)
}

/// Once a commitment is missing among the first `t`, it is missing among more.
pub proof fn lemma_batch_commit_fails_on(
    powers: Seq<G1Point>,
    polys: Seq<Seq<Scalar>>,
    t: nat,
    u: nat,
)
    requires
        t <= u,
        spec_batch_commit(powers, polys, t) is None,
    ensures
        spec_batch_commit(powers, polys, u) is None,
    decreases u,
{
    if t < u {
        lemma_batch_commit_fails_on(powers, polys, t, (u - 1) as nat);
    }
}

/// Divides the polynomial `poly` by `X - z`, leaving the remainder out: at
/// every `x`, the number of `poly` is its value at `z` plus `x - z` times the
/// number of the quotient, up to reduction.
pub fn divide_by_linear(poly: &Vec<Scalar>, z: &Scalar) -> (r: Vec<Scalar>)
    ensures
        r@ == quotient(poly@, *z),
        forall|x: int|
            eval_int(poly@, x) % (modulus() as int) == (horner(poly@, *z).value() + (x - z.value())
                * #[trigger] eval_int(r@, x)) % (modulus() as int),
{
    proof {
        assert forall|x: int|
            eval_int(poly@, x) % (modulus() as int) == (horner(poly@, *z).value() + (x - z.value())
                * #[trigger] eval_int(quotient(poly@, *z), x)) % (modulus() as int) by {
            lemma_quotient_divides(poly@, *z, x);
        }
    }
    let mut out: Vec<Scalar> = Vec::new();
    if poly.len() <= 1 {
        assert(out@ =~= quotient(poly@, *z));
        return out;
    }
    let n: usize = poly.len() - 1;
    let zero = Scalar::zero();
    let mut k: usize = 0;
    while k < n
        invariant
            k <= n,
            out.len() == k,
        decreases n - k,
    {
        out.push(zero);
        k += 1;
    }
    let mut acc = zero;
    let mut i: usize = poly.len();
    assert(poly@.skip(i as int) =~= Seq::<Scalar>::empty());
    while i > 1
        invariant
            1 <= i <= poly.len(),
            n == poly.len() - 1,
            out.len() == n,
            acc == horner(poly@.skip(i as int), *z),
            forall|j: int| i - 1 <= j < n ==> out[j] == horner(poly@.skip(j + 1), *z),
        decreases i,
    {
        i -= 1;
        let t = fr_mul(&acc, z);
        acc = fr_add(&t, &poly[i]);
        proof {
            let s = poly@.skip(i as int);
            assert(s.drop_first() =~= poly@.skip(i + 1));
            assert(s[0] == poly@[i as int]);
        }
        out.set(i - 1, acc);
    }
    assert(out@ =~= quotient(poly@, *z));
    out
}

/// Opens the polynomial `poly` at `point`.
pub fn open(ck: &KzgProverParam, poly: &Vec<Scalar>, point: &Scalar) -> (r: Option<KzgProof>)
    ensures
        r == spec_open(ck.powers_of_g@, poly@, *point),
{
    let q = divide_by_linear(poly, point);
    commit(ck, &q)
}

/// Opens the polynomial `poly` at the first `num_points` elements of the
/// domain `domain`.
pub fn multi_open_rou_proofs(
    ck: &KzgProverParam,
    poly: &Vec<Scalar>,
    num_points: usize,
    domain: &Radix2Domain,
) -> (r: Option<Vec<KzgProof>>)
    requires
        domain.wf(),
    ensures
        r is Some <==> spec_multi_open(
            ck.powers_of_g@,
            poly@,
            domain.spec_size(),
            num_points as nat,
        ) is Some,
        r matches Some(p) ==> Some(p@) == spec_multi_open(
            ck.powers_of_g@,
            poly@,
            domain.spec_size(),
            num_points as nat,
        ),
{
    let mut out: Vec<KzgProof> = Vec::new();
    let mut j: usize = 0;
    while j < num_points
        invariant
            j <= num_points,
            domain.wf(),
            spec_multi_open(ck.powers_of_g@, poly@, domain.spec_size(), j as nat) == Some(out@),
        decreases num_points - j,
    {
        let z = domain.element(j);
        match open(ck, poly, &z) {
            None => {
                proof {
                    assert(spec_multi_open(ck.powers_of_g@, poly@, domain.spec_size(), (j + 1) as nat)
                        is None);
                    lemma_multi_open_fails_on(
                        ck.powers_of_g@,
                        poly@,
                        domain.spec_size(),
                        (j + 1) as nat,
                        num_points as nat,
                    );
                }
                return None;
            },
            Some(p) => {
                out.push(p);
            },
        }
        j += 1;
    }
    Some(out)
}

/// Openings at `count` positions, where they all exist, are `count` many.
pub proof fn lemma_multi_open_len(
    powers: Seq<G1Point>,
    poly: Seq<Scalar>,
    domain_size: nat,
    count: nat,
)
    ensures
        spec_multi_open(powers, poly, domain_size, count) matches Some(p) ==> p.len() == count,
    decreases count,
{
    if count > 0 {
        lemma_multi_open_len(powers, poly, domain_size, (count - 1) as nat);
    }
}

/// Commitments to `count` polynomials, where they all exist, are `count` many.
pub proof fn lemma_batch_commit_len(powers: Seq<G1Point>, polys: Seq<Seq<Scalar>>, count: nat)
    ensures
        spec_batch_commit(powers, polys, count) matches Some(c) ==> c.len() == count,
    decreases count,
{
    if count > 0 {
        lemma_batch_commit_len(powers, polys, (count - 1) as nat);
    }
}

/// Once an opening is missing among the first `t`, it is missing among more.
pub proof fn lemma_multi_open_fails_on(
    powers: Seq<G1Point>,
    poly: Seq<Scalar>,
    domain_size: nat,
    t: nat,
    u: nat,
)
    requires
        t <= u,
        spec_multi_open(powers, poly, domain_size, t) is None,
    ensures
        spec_multi_open(powers, poly, domain_size, u) is None,
    decreases u,
{
    if t < u {
        lemma_multi_open_fails_on(powers, poly, domain_size, t, (u - 1) as nat);
    }
}

/// Evaluates the polynomial `poly` at the first `num_points` elements of the
/// domain `domain`.
pub fn multi_open_rou_evals(poly: &Vec<Scalar>, num_points: usize, domain: &Radix2Domain) -> (r: Vec<
    Scalar,
>)
    requires
        domain.wf(),
        poly.len() <= domain.spec_size(),
        num_points <= domain.spec_size(),
    ensures
        r@ == spec_multi_evals(poly@, domain.spec_size(), num_points as nat),
        r.len() == num_points,
{
    let mut evals = domain.fft(poly);
    evals.truncate(num_points);
    evals
}

/// Checks that `proof` shows that the polynomial committed to in `commit`
/// takes the value `value` at `point`.
pub fn verify(
    vk: &KzgVerifierParam,
    commit: &KzgCommit,
    point: &Scalar,
    value: &Scalar,
    proof: &KzgProof,
) -> (r: Option<bool>)
    ensures
        r == spec_verify(*vk, *commit, *point, *value, *proof),
{
    let zero = Scalar::zero();
    let mut bases: Vec<G1Point> = Vec::new();
    bases.push(*commit);
    bases.push(vk.g);
    bases.push(*proof);
    let mut scalars: Vec<Scalar> = Vec::new();
    scalars.push(Scalar::one());
    scalars.push(fr_sub(&zero, value));
    scalars.push(*point);
    assert(bases@ =~= seq![*commit, vk.g, *proof]);
    assert(scalars@ =~= seq![scalar_of_nat(1), fsub(scalar_of_nat(0), *value), *point]);
    match g1_msm(bases.as_slice(), scalars.as_slice()) {
        None => None,
        Some(lhs) => pairing_eq(&lhs, &vk.h, proof, &vk.beta_h),
    }
}

} // verus!
