use advz::curve::{pairing_eq, G1Point, G2Point};
use ark_bls12_381::{Fq, Fq2, Fr, G1Affine, G1Projective, G2Affine, G2Projective};
use ark_ec::{AffineRepr, CurveGroup, Group};
use ark_ff::Field;
use ark_serialize::CanonicalSerialize;

fn g1_bytes(p: &G1Affine) -> G1Point {
    let mut bytes = [0u8; 96];
    p.serialize_uncompressed(&mut bytes[..]).unwrap();
    G1Point { bytes }
}

fn g2_bytes(p: &G2Affine) -> G2Point {
    let mut bytes = [0u8; 192];
    p.serialize_uncompressed(&mut bytes[..]).unwrap();
    G2Point { bytes }
}

fn g1(n: u64) -> G1Point {
    g1_bytes(&(G1Projective::generator() * Fr::from(n)).into_affine())
}

fn g2(n: u64) -> G2Point {
    g2_bytes(&(G2Projective::generator() * Fr::from(n)).into_affine())
}

#[test]
fn pairing_is_linear_on_both_sides() {
    assert_eq!(pairing_eq(&g1(6), &g2(1), &g1(2), &g2(3)), Some(true));
    assert_eq!(pairing_eq(&g1(6), &g2(1), &g1(1), &g2(6)), Some(true));
    assert_eq!(pairing_eq(&g1(6), &g2(1), &g1(2), &g2(4)), Some(false));
    assert_eq!(pairing_eq(&g1(1), &g2(1), &g1(1), &g2(2)), Some(false));
}

#[test]
fn pairing_with_the_point_at_infinity_is_one() {
    let zero1 = g1_bytes(&G1Affine::zero());
    let zero2 = g2_bytes(&G2Affine::zero());
    assert_eq!(pairing_eq(&zero1, &g2(5), &g1(7), &zero2), Some(true));
    assert_eq!(pairing_eq(&zero1, &zero2, &g1(0), &g2(0)), Some(true));
    assert_eq!(pairing_eq(&zero1, &g2(5), &g1(1), &g2(1)), Some(false));
}

#[test]
fn refused_encodings_give_nothing() {
    let mut bad1 = g1(3);
    bad1.bytes[0] |= 0x80;
    assert_eq!(pairing_eq(&bad1, &g2(1), &g1(1), &g2(1)), None);
    assert_eq!(pairing_eq(&g1(1), &g2(1), &bad1, &g2(1)), None);
    let mut bad2 = g2(3);
    bad2.bytes[0] |= 0x80;
    assert_eq!(pairing_eq(&g1(1), &bad2, &g1(1), &g2(1)), None);
    assert_eq!(pairing_eq(&g1(1), &g2(1), &g1(1), &bad2), None);
    // coordinates that are no field elements
    let not_a_point = G1Point { bytes: [0x1f; 96] };
    assert_eq!(pairing_eq(&not_a_point, &g2(1), &g1(1), &g2(1)), None);
}

#[test]
fn encodings_off_the_curve_give_an_answer_or_nothing() {
    // rescaled coordinates are off the curve; whatever the decoder makes of
    // them, there is an answer or nothing
    let g = G2Affine::generator();
    let h = G1Affine::generator();
    for u in 2..20u64 {
        let u = Fq::from(u);
        let (u2, u3) = (u.square(), u.square() * u);
        let mut x = g.x;
        x.mul_assign_by_fp(&u2);
        let mut y = g.y;
        y.mul_assign_by_fp(&u3);
        let off2 = g2_bytes(&G2Affine::new_unchecked(x, y));
        let off1 = g1_bytes(&G1Affine::new_unchecked(h.x * u2, h.y * u3));
        let _ = pairing_eq(&g1(1), &off2, &g1(1), &g2(1));
        let _ = pairing_eq(&off1, &g2(1), &g1(1), &g2(1));
        let _ = pairing_eq(&off1, &off2, &off1, &off2);
    }
    let zero_x = G2Affine::new_unchecked(Fq2::ZERO, g.y);
    let zero_y = G2Affine::new_unchecked(g.x, Fq2::ZERO);
    let _ = pairing_eq(&g1(1), &g2_bytes(&zero_x), &g1(1), &g2(1));
    let _ = pairing_eq(&g1(1), &g2_bytes(&zero_y), &g1(1), &g2(1));
    let origin = G2Affine::new_unchecked(Fq2::ZERO, Fq2::ZERO);
    let _ = pairing_eq(&g1(1), &g2_bytes(&origin), &g1(1), &g2(1));
}
