use advz::curve::{G1Point, G2Point};
use advz::domain::Radix2Domain;
use advz::field::{polynomial_eval, Scalar};
use advz::pcs::{
    batch_commit, commit, divide_by_linear, multi_open_rou_evals, multi_open_rou_proofs, open, trim,
    verify, KzgSrs,
};
use ark_bls12_381::{Fr, G1Affine, G1Projective, G2Projective};
use ark_ec::{AffineRepr, CurveGroup, Group};
use ark_ff::{BigInteger, FftField, PrimeField};
use ark_serialize::CanonicalSerialize;

fn small(n: u64) -> Scalar {
    Scalar::from_le_bytes_mod_order(&n.to_le_bytes())
}

fn g1_bytes(p: &G1Affine) -> G1Point {
    let mut bytes = [0u8; 96];
    p.serialize_uncompressed(&mut bytes[..]).unwrap();
    G1Point { bytes }
}

fn srs_of(beta: u64, num_coeffs: usize) -> KzgSrs {
    let beta = Fr::from(beta);
    let mut powers_of_g = Vec::new();
    let mut cur = G1Projective::generator();
    for _ in 0..num_coeffs {
        powers_of_g.push(g1_bytes(&cur.into_affine()));
        cur *= beta;
    }
    let h = G2Projective::generator();
    let mut h_bytes = [0u8; 192];
    h.into_affine().serialize_uncompressed(&mut h_bytes[..]).unwrap();
    let mut beta_h_bytes = [0u8; 192];
    (h * beta).into_affine().serialize_uncompressed(&mut beta_h_bytes[..]).unwrap();
    KzgSrs { powers_of_g, h: G2Point { bytes: h_bytes }, beta_h: G2Point { bytes: beta_h_bytes } }
}

#[test]
fn trim_keeps_one_power_more_than_the_degree() {
    let srs = srs_of(5, 4);
    assert!(trim(&srs, 4).is_none());
    let (ck, vk) = trim(&srs, 3).unwrap();
    assert_eq!(ck.powers_of_g, srs.powers_of_g);
    let (ck, _) = trim(&srs, 1).unwrap();
    assert_eq!(ck.powers_of_g, srs.powers_of_g[..2].to_vec());
    assert_eq!(vk.g, srs.powers_of_g[0]);
    assert_eq!(vk.h, srs.h);
    assert_eq!(vk.beta_h, srs.beta_h);
}

#[test]
fn commitment_is_the_polynomial_at_the_secret_times_the_generator() {
    let (ck, _) = trim(&srs_of(5, 4), 3).unwrap();
    // 1 + 2x + 3x^2 at 5 is 86
    let poly = vec![small(1), small(2), small(3)];
    let expected = (G1Projective::generator() * Fr::from(86u64)).into_affine();
    assert_eq!(commit(&ck, &poly), Some(g1_bytes(&expected)));
    assert_eq!(commit(&ck, &vec![]), Some(g1_bytes(&G1Affine::zero())));
    assert_eq!(commit(&ck, &vec![small(1); 5]), None);
    assert_eq!(
        batch_commit(&ck, &vec![poly.clone(), vec![]]),
        Some(vec![g1_bytes(&expected), g1_bytes(&G1Affine::zero())])
    );
    assert_eq!(batch_commit(&ck, &vec![poly, vec![small(1); 5]]), None);
}

#[test]
fn quotient_by_a_linear_factor() {
    // x^2 - 1 = (x - 1)(x + 1)
    let minus_one = small(0).sub(&small(1));
    let poly = vec![minus_one, small(0), small(1)];
    assert_eq!(divide_by_linear(&poly, &small(1)), vec![small(1), small(1)]);
    // 1 + 2x + 3x^2 = (x - 10)(3x + 32) + 321
    let poly = vec![small(1), small(2), small(3)];
    assert_eq!(divide_by_linear(&poly, &small(10)), vec![small(32), small(3)]);
    assert_eq!(divide_by_linear(&vec![small(7)], &small(10)), vec![]);
    assert_eq!(divide_by_linear(&vec![], &small(10)), vec![]);
}

#[test]
fn opening_holds_for_the_value_and_for_no_other() {
    let (ck, vk) = trim(&srs_of(5, 4), 3).unwrap();
    let poly = vec![small(1), small(2), small(3), small(4)];
    let c = commit(&ck, &poly).unwrap();
    let z = small(10);
    let proof = open(&ck, &poly, &z).unwrap();
    assert_eq!(verify(&vk, &c, &z, &small(4321), &proof), Some(true));
    assert_eq!(verify(&vk, &c, &z, &small(4322), &proof), Some(false));
    assert_eq!(verify(&vk, &c, &small(11), &small(4321), &proof), Some(false));
    let mut bad = proof;
    bad.bytes[0] |= 0x80;
    assert_eq!(verify(&vk, &c, &z, &small(4321), &bad), None);
}

#[test]
fn values_and_openings_on_the_domain() {
    let (ck, vk) = trim(&srs_of(7, 4), 3).unwrap();
    let poly = vec![small(9), small(8), small(7), small(6)];
    let c = commit(&ck, &poly).unwrap();
    let domain = Radix2Domain::new(6).unwrap();
    assert_eq!(domain.size(), 8);
    let evals = multi_open_rou_evals(&poly, 6, &domain);
    let proofs = multi_open_rou_proofs(&ck, &poly, 6, &domain).unwrap();
    assert_eq!(evals.len(), 6);
    assert_eq!(proofs.len(), 6);
    // the first element of a domain is one
    assert_eq!(evals[0], small(30));
    let omega = Fr::get_root_of_unity(8).unwrap();
    let mut point = Fr::from(1u64);
    for i in 0..6 {
        let z = Scalar::from_le_bytes_mod_order(&point.into_bigint().to_bytes_le());
        assert_eq!(evals[i], polynomial_eval(&poly, &z));
        assert_eq!(verify(&vk, &c, &z, &evals[i], &proofs[i]), Some(true));
        point *= omega;
    }
}
