use advz::advz::{Advz, AdvzInternal, Common, Share, VidResult};
use advz::curve::{G1Point, G2Point};
use advz::error::{ArgumentError, InternalError, VidError};
use advz::field::Scalar;
use advz::pcs::KzgSrs;
use ark_bls12_381::{Fr, G1Affine, G1Projective, G2Projective};
use ark_ec::{AffineRepr, CurveGroup, Group};
use ark_serialize::CanonicalSerialize;
use ark_std::rand::{seq::SliceRandom, RngCore};
use ark_std::UniformRand;
use sha2::{Digest, Sha256};

fn g1_bytes(p: &G1Affine) -> G1Point {
    let mut bytes = [0u8; 96];
    p.serialize_uncompressed(&mut bytes[..]).unwrap();
    G1Point { bytes }
}

fn init_srs<R>(num_coeffs: usize, rng: &mut R) -> KzgSrs
where
    R: RngCore,
{
    let beta = Fr::rand(rng);
    let mut powers_of_g = Vec::with_capacity(num_coeffs);
    let mut cur = G1Projective::generator();
    for _ in 0..num_coeffs {
        powers_of_g.push(g1_bytes(&cur.into_affine()));
        cur *= beta;
    }
    let h = G2Projective::generator();
    let mut h_bytes = [0u8; 192];
    h.into_affine().serialize_uncompressed(&mut h_bytes[..]).unwrap();
    let mut beta_h_bytes = [0u8; 192];
    (h * beta).into_affine().serialize_uncompressed(&mut beta_h_bytes[..]).unwrap();
    KzgSrs { powers_of_g, h: G2Point { bytes: h_bytes }, beta_h: G2Point { bytes: beta_h_bytes } }
}

fn init_random_payload<R>(len: usize, rng: &mut R) -> Vec<u8>
where
    R: RngCore,
{
    let mut bytes_random = vec![0u8; len];
    rng.fill_bytes(&mut bytes_random);
    bytes_random
}

/// Routine initialization tasks.
fn advz_init() -> (Advz, Vec<u8>) {
    let (recovery_threshold, num_storage_nodes) = (4, 6);
    let mut rng = ark_std::test_rng();
    let srs = init_srs(recovery_threshold as usize, &mut rng);
    let advz = Advz::new(num_storage_nodes, recovery_threshold, &srs).unwrap();
    let bytes_random = init_random_payload(4000, &mut rng);
    (advz, bytes_random)
}

/// Convenience wrapper to assert an argument error.
fn assert_arg_err<T>(res: VidResult<T>, msg: &str) {
    assert!(matches!(res, Err(VidError::Argument(_))), "{}", msg);
}

fn round_trip(vid_sizes: &[(u32, u32)], multiplicities: &[u32], payload_byte_lens: &[u32]) {
    let mut rng = ark_std::test_rng();
    for (&mult, &(recovery_threshold, num_storage_nodes)) in
        core::iter::zip(multiplicities.iter().cycle(), vid_sizes)
    {
        let srs = init_srs((recovery_threshold * mult) as usize, &mut rng);
        let mut vid =
            Advz::with_multiplicity(num_storage_nodes, recovery_threshold, mult, &srs).unwrap();
        for &len in payload_byte_lens {
            let bytes_random = init_random_payload(len as usize, &mut rng);

            let disperse = vid.disperse(&bytes_random).unwrap();
            let (mut shares, common, commit) = (disperse.shares, disperse.common, disperse.commit);
            assert_eq!(shares.len(), num_storage_nodes as usize);
            assert_eq!(commit, vid.commit_only(&bytes_random).unwrap());
            assert_eq!(len, AdvzInternal::get_payload_byte_len(&common));
            assert_eq!(mult, AdvzInternal::get_multiplicity(&common));
            assert_eq!(num_storage_nodes, AdvzInternal::get_num_storage_nodes(&common));

            for share in shares.iter() {
                vid.verify_share(share, &common, &commit).unwrap().unwrap();
            }

            // sample a random subset of shares with size recovery_threshold
            shares.shuffle(&mut rng);

            // give minimum number of shares for recovery
            let bytes_recovered =
                vid.recover_payload(&shares[..recovery_threshold as usize], &common).unwrap();
            assert_eq!(bytes_recovered, bytes_random);

            // give an intermediate number of shares for recovery
            let intermediate_num_shares = (recovery_threshold + num_storage_nodes) / 2;
            let bytes_recovered =
                vid.recover_payload(&shares[..intermediate_num_shares as usize], &common).unwrap();
            assert_eq!(bytes_recovered, bytes_random);

            // give all shares for recovery
            let bytes_recovered = vid.recover_payload(&shares, &common).unwrap();
            assert_eq!(bytes_recovered, bytes_random);

            // give insufficient shares for recovery
            assert_arg_err(
                vid.recover_payload(&shares[..(recovery_threshold - 1) as usize], &common),
                "insufficient shares should be arg error",
            );
        }
    }
}

#[test]
fn round_trip_with_multiplicity_one() {
    round_trip(&[(2, 3), (4, 6), (8, 11)], &[1], &[0, 1, 31, 32, 200, 1000]);
}

#[test]
fn round_trip_with_larger_multiplicities() {
    round_trip(&[(2, 3), (4, 4), (4, 6)], &[2, 4], &[0, 1, 200, 1000]);
}

#[test]
fn six_nodes_any_four_recover_four_thousand_bytes() {
    let (mut advz, bytes_random) = advz_init();
    let disperse = advz.disperse(&bytes_random).unwrap();
    let (shares, common, commit) = (disperse.shares, disperse.common, disperse.commit);
    assert_eq!(shares.len(), 6);
    for share in shares.iter() {
        assert_eq!(advz.verify_share(share, &common, &commit), Ok(Ok(())));
    }
    for a in 0..6 {
        for b in (a + 1)..6 {
            let subset: Vec<Share> = shares
                .iter()
                .enumerate()
                .filter(|(i, _)| *i != a && *i != b)
                .map(|(_, s)| s.clone())
                .collect();
            assert_eq!(subset.len(), 4);
            assert_eq!(advz.recover_payload(&subset, &common).unwrap(), bytes_random);
        }
    }
}

#[test]
fn doubled_value_is_rejected_and_the_other_shares_still_pass() {
    let (mut advz, bytes_random) = advz_init();
    let disperse = advz.disperse(&bytes_random).unwrap();
    let (mut shares, common, commit) = (disperse.shares, disperse.common, disperse.commit);
    shares[0].evals[0] = shares[0].evals[0].add(&shares[0].evals[0]);
    assert_eq!(advz.verify_share(&shares[0], &common, &commit), Ok(Err(())));
    for share in shares[1..].iter() {
        assert_eq!(advz.verify_share(share, &common, &commit), Ok(Ok(())));
    }
}

#[test]
fn popped_commitment_is_an_argument_error() {
    let (mut advz, bytes_random) = advz_init();
    let disperse = advz.disperse(&bytes_random).unwrap();
    let (shares, mut common, commit) = (disperse.shares, disperse.common, disperse.commit);
    common.poly_commits.pop();
    for share in shares.iter() {
        assert_eq!(
            advz.verify_share(share, &common, &commit),
            Err(VidError::Argument(ArgumentError::EvalsCommitsMismatch))
        );
    }
}

#[test]
fn dropped_value_is_an_argument_error() {
    let mut rng = ark_std::test_rng();
    let srs = init_srs(8, &mut rng);
    let mut advz = Advz::with_multiplicity(6, 4, 2, &srs).unwrap();
    let payload = init_random_payload(1000, &mut rng);
    let disperse = advz.disperse(&payload).unwrap();
    let (mut shares, common, commit) = (disperse.shares, disperse.common, disperse.commit);
    shares[3].evals.remove(2);
    assert_eq!(
        advz.verify_share(&shares[3], &common, &commit),
        Err(VidError::Argument(ArgumentError::EvalsCommitsMismatch))
    );
}

#[test]
fn indices_shifted_by_the_number_of_nodes_fail_recovery() {
    let (mut advz, bytes_random) = advz_init();
    let disperse = advz.disperse(&bytes_random).unwrap();
    let (mut shares, common) = (disperse.shares, disperse.common);
    for share in shares.iter_mut() {
        share.index += 6;
    }
    assert_eq!(
        advz.recover_payload(&shares, &common),
        Err(VidError::Internal(InternalError::ErasureDecode))
    );
}

#[test]
fn sixteen_nodes_of_threshold_eight() {
    let mut rng = ark_std::test_rng();
    let srs = init_srs(8, &mut rng);
    let mut advz = Advz::new(16, 8, &srs).unwrap();
    let payload = init_random_payload(1 << 13, &mut rng);
    let disperse = advz.disperse(&payload).unwrap();
    assert_eq!(advz.commit_only(&payload), Ok(disperse.commit));
    assert_eq!(advz.recover_payload(&disperse.shares[8..], &disperse.common).unwrap(), payload);
}

#[test]
fn shares_of_a_constant_polynomial_differ_in_their_index_only() {
    let mut rng = ark_std::test_rng();
    let srs = init_srs(4, &mut rng);
    let mut advz = Advz::new(4, 4, &srs).unwrap();
    // four times the same field element: the values of a constant polynomial
    let payload: Vec<u8> = (0..124).map(|i| (i % 31) as u8 + 1).collect();
    let disperse = advz.disperse(&payload).unwrap();
    let (shares, common, commit) = (disperse.shares, disperse.common, disperse.commit);
    for share in shares.iter() {
        assert_eq!(share.evals, shares[0].evals);
        assert_eq!(share.aggregate_proofs, shares[0].aggregate_proofs);
        assert_eq!(share.evals_proof, shares[0].evals_proof);
    }
    // so the share of one node with the index of another is that node's share
    let moved = Share { index: 1, ..shares[0].clone() };
    assert_eq!(moved, shares[1]);
    assert_eq!(advz.verify_share(&moved, &common, &commit), Ok(Ok(())));
    assert_eq!(advz.recover_payload(&shares, &common).unwrap(), payload);
}

#[test]
fn shares_of_multiplicity_two_hold_two_runs_of_values() {
    let mut rng = ark_std::test_rng();
    let srs = init_srs(8, &mut rng);
    let mut advz = Advz::with_multiplicity(4, 4, 2, &srs).unwrap();
    let payload = init_random_payload(200, &mut rng);
    let disperse = advz.disperse(&payload).unwrap();
    let num_polys = disperse.common.poly_commits.len();
    // 200 bytes in polynomials of 8 coefficients of 31 bytes each
    assert_eq!(num_polys, 1);
    for share in disperse.shares.iter() {
        assert_eq!(share.evals.len(), 2 * num_polys);
        assert_eq!(share.aggregate_proofs.len(), 2);
        assert_eq!(advz.verify_share(share, &disperse.common, &disperse.commit), Ok(Ok(())));
    }
    assert_eq!(advz.recover_payload(&disperse.shares, &disperse.common).unwrap(), payload);
}

#[test]
fn number_of_polynomials_is_the_payload_over_the_chunk() {
    let (mut advz, _) = advz_init();
    // a polynomial takes 4 * 31 = 124 bytes
    for (len, polys) in [(0usize, 0usize), (1, 1), (124, 1), (125, 2), (4000, 33)] {
        let payload = vec![7u8; len];
        let disperse = advz.disperse(&payload).unwrap();
        assert_eq!(disperse.common.poly_commits.len(), polys);
        for share in disperse.shares.iter() {
            assert_eq!(share.evals.len(), polys);
        }
    }
}

#[test]
fn commit_is_the_digest_of_length_nodes_and_commitments() {
    let (mut advz, bytes_random) = advz_init();
    let disperse = advz.disperse(&bytes_random).unwrap();
    let mut hasher = Sha256::new();
    hasher.update(4000u32.to_le_bytes());
    hasher.update(6u32.to_le_bytes());
    for c in disperse.common.poly_commits.iter() {
        hasher.update(c.bytes);
    }
    let expected: [u8; 32] = hasher.finalize().into();
    assert_eq!(disperse.commit.bytes, expected);
    assert_eq!(advz.commit_only(&bytes_random).unwrap().bytes, expected);
    assert_eq!(Advz::is_consistent(&disperse.commit, &disperse.common), Ok(()));
}

#[test]
fn constructor_rejects_bad_parameters() {
    let mut rng = ark_std::test_rng();
    let srs = init_srs(8, &mut rng);
    assert_eq!(
        Advz::new(3, 4, &srs).err(),
        Some(VidError::Argument(ArgumentError::ThresholdOutOfRange))
    );
    assert_eq!(
        Advz::new(3, 0, &srs).err(),
        Some(VidError::Argument(ArgumentError::ThresholdOutOfRange))
    );
    assert_eq!(
        Advz::with_multiplicity(6, 4, 3, &srs).err(),
        Some(VidError::Argument(ArgumentError::MultiplicityNotPowerOfTwo))
    );
    assert_eq!(
        Advz::with_multiplicity(6, 4, 0, &srs).err(),
        Some(VidError::Argument(ArgumentError::MultiplicityNotPowerOfTwo))
    );
    assert_eq!(
        Advz::with_multiplicity(0x8000_0000, 4, 2, &srs).err(),
        Some(VidError::Argument(ArgumentError::CodeWordTooLong))
    );
    assert_eq!(
        Advz::new(6, 3, &srs).err(),
        Some(VidError::Argument(ArgumentError::ChunkSizeNotPowerOfTwo))
    );
    assert_eq!(
        Advz::new(20, 16, &srs).err(),
        Some(VidError::Internal(InternalError::ReferenceStringTooShort))
    );
    let advz = Advz::with_multiplicity(6, 4, 2, &srs).unwrap();
    assert_eq!(advz.num_storage_nodes(), 6);
    assert_eq!(advz.recovery_threshold(), 4);
    assert_eq!(advz.multiplicity(), 2);
    assert_eq!(advz.chunk_len(), 8);
    assert_eq!(advz.code_word_len(), 12);
    assert_eq!(advz.multi_open_domain().size(), 16);
}

#[test]
fn aggregation_scalar_is_the_reduced_digest_of_commit_and_root() {
    let (mut advz, bytes_random) = advz_init();
    let disperse = advz.disperse(&bytes_random).unwrap();
    let mut hasher = Sha256::new();
    hasher.update(disperse.commit.bytes);
    hasher.update(disperse.common.all_evals_digest.bytes);
    let digest: [u8; 32] = hasher.finalize().into();
    let expected = <Fr as ark_ff::PrimeField>::from_le_bytes_mod_order(&digest);
    let bytes = ark_ff::BigInteger::to_bytes_le(&ark_ff::PrimeField::into_bigint(expected));
    let alpha = Advz::pseudorandom_scalar(&disperse.common, &disperse.commit);
    assert_eq!(alpha.bytes.to_vec(), bytes);
}

#[test]
fn aggregates_weigh_the_later_entries_with_higher_powers() {
    let small = |n: u64| Scalar::from_le_bytes_mod_order(&n.to_le_bytes());
    let polys = vec![vec![small(1), small(2)], vec![small(3), small(4)], vec![small(5), small(6)]];
    // 1 + 3 * 10 + 5 * 100 and 2 + 4 * 10 + 6 * 100
    assert_eq!(
        advz::dispersal::polynomial_eval_polys(&polys, &small(10), 2),
        vec![small(531), small(642)]
    );
    assert_eq!(advz::dispersal::polynomial_eval_polys(&vec![], &small(10), 2), vec![small(0); 2]);
    assert_eq!(
        advz::verification::powers_of(&small(10), 4),
        vec![small(1), small(10), small(100), small(1000)]
    );
    // g + 10 * 2g + 100 * 3g = 321 g
    let g = G1Projective::generator();
    let commits: Vec<G1Point> = (1..=3u64).map(|i| g1_bytes(&(g * Fr::from(i)).into_affine())).collect();
    assert_eq!(
        advz::verification::polynomial_eval_commits(&commits, &small(10)),
        Some(g1_bytes(&(g * Fr::from(321u64)).into_affine()))
    );
}

#[test]
fn share_holds_the_values_of_all_polynomials_at_its_positions() {
    let mut rng = ark_std::test_rng();
    let srs = init_srs(4, &mut rng);
    let mut advz = Advz::with_multiplicity(3, 2, 2, &srs).unwrap();
    let payload = init_random_payload(300, &mut rng);
    let polys = advz.bytes_to_polys(&payload);
    // a polynomial takes 4 * 31 bytes
    assert_eq!(polys.len(), 3);
    let disperse = advz.disperse(&payload).unwrap();
    let domain = *advz.multi_open_domain();
    assert_eq!(domain.size(), 8);
    for (i, share) in disperse.shares.iter().enumerate() {
        assert_eq!(share.index as usize, i);
        assert_eq!(share.evals.len(), 2 * 3);
        for l in 0..2 {
            let x = domain.element(2 * i + l);
            for (j, poly) in polys.iter().enumerate() {
                assert_eq!(share.evals[l * 3 + j], advz::field::polynomial_eval(poly, &x));
            }
        }
        assert_eq!(share.evals_proof.path.len(), 2);
    }
    // the polynomials take the packed payload as their values on the small domain
    let elems = advz::bytes_to_field::bytes_to_field(&payload[..124]);
    let small_domain = *advz.eval_domain();
    for (i, e) in elems.iter().enumerate() {
        assert_eq!(advz::field::polynomial_eval(&polys[0], &small_domain.element(i)), *e);
    }
}

#[test]
fn dispersal_survives_the_wire() {
    let (mut advz, bytes_random) = advz_init();
    let disperse = advz.disperse(&bytes_random).unwrap();
    let common = Common::from_bytes(&disperse.common.to_bytes()).unwrap();
    assert_eq!(common, disperse.common);
    let mut shares = Vec::new();
    for share in disperse.shares.iter() {
        let bytes = share.to_bytes();
        assert_eq!(bytes.len(), 4 + 8 + 33 * 32 + 8 + 96 + 8 + 3 * 32);
        let read = Share::from_bytes(&bytes).unwrap();
        assert_eq!(&read, share);
        assert_eq!(advz.verify_share(&read, &common, &disperse.commit), Ok(Ok(())));
        shares.push(read);
    }
    assert_eq!(advz.recover_payload(&shares[2..], &common).unwrap(), bytes_random);
}

#[test]
fn polynomials_live_on_a_part_of_the_code_word_domain() {
    let mut rng = ark_std::test_rng();
    let srs = init_srs(8, &mut rng);
    let advz = Advz::with_multiplicity(11, 4, 2, &srs).unwrap();
    let (small, big) = (*advz.eval_domain(), *advz.multi_open_domain());
    assert_eq!((small.size(), big.size()), (8, 32));
    for i in 0..8 {
        assert_eq!(small.element(i), big.element(4 * i));
    }
}

#[test]
fn shares_are_rejected_where_the_reference_string_is_out_of_order() {
    let mut rng = ark_std::test_rng();
    let mut srs = init_srs(4, &mut rng);
    // the secret in the second group is no longer the secret of the powers
    srs.beta_h = srs.h;
    let mut advz = Advz::new(6, 4, &srs).unwrap();
    let payload = init_random_payload(500, &mut rng);
    let disperse = advz.disperse(&payload).unwrap();
    for share in disperse.shares.iter() {
        assert_eq!(advz.verify_share(share, &disperse.common, &disperse.commit), Ok(Err(())));
    }
    // recovery does not look at the openings
    assert_eq!(advz.recover_payload(&disperse.shares, &disperse.common).unwrap(), payload);
}

#[test]
fn new_is_with_multiplicity_one() {
    let mut rng = ark_std::test_rng();
    let srs = init_srs(8, &mut rng);
    assert_eq!(Advz::new(6, 4, &srs), Advz::with_multiplicity(6, 4, 1, &srs));
    assert_eq!(Advz::new(6, 4, &srs).unwrap().multi_open_domain().size(), 8);
    assert_eq!(Advz::new(5, 3, &srs), Advz::with_multiplicity(5, 3, 1, &srs));
}

#[test]
fn generator_of_the_code_word_domain_has_its_order() {
    let mut rng = ark_std::test_rng();
    let srs = init_srs(4, &mut rng);
    let advz = Advz::new(6, 4, &srs).unwrap();
    assert_eq!(advz.multi_open_domain().size(), 8);
    let g = advz.multi_open_domain().group_gen();
    let expected = <Fr as ark_ff::FftField>::get_root_of_unity(8).unwrap();
    let bytes = ark_ff::BigInteger::to_bytes_le(&ark_ff::PrimeField::into_bigint(expected));
    assert_eq!(g.bytes.to_vec(), bytes);
    let square = g.mul(&g);
    let fourth = square.mul(&square);
    let minus_one = Scalar::zero().sub(&Scalar::one());
    assert_eq!(fourth, minus_one);
    assert_eq!(fourth.mul(&fourth), Scalar::one());
    assert_ne!(square, minus_one);
}

#[test]
fn malformed_group_element_is_an_internal_error() {
    let (mut advz, bytes_random) = advz_init();
    let disperse = advz.disperse(&bytes_random).unwrap();
    let (mut shares, common, commit) = (disperse.shares, disperse.common, disperse.commit);
    // an encoding that claims to be compressed is no uncompressed point
    shares[0].aggregate_proofs[0].bytes[0] |= 0x80;
    assert_eq!(
        advz.verify_share(&shares[0], &common, &commit),
        Err(VidError::Internal(InternalError::GroupElement))
    );
}

#[test]
fn malformed_reference_string_is_an_internal_error() {
    let mut rng = ark_std::test_rng();
    let mut srs = init_srs(4, &mut rng);
    srs.powers_of_g[2].bytes[0] |= 0x80;
    let mut advz = Advz::new(6, 4, &srs).unwrap();
    let payload = init_random_payload(100, &mut rng);
    assert_eq!(
        advz.disperse(&payload).err(),
        Some(VidError::Internal(InternalError::GroupElement))
    );
    assert_eq!(advz.commit_only(&payload), Err(VidError::Internal(InternalError::GroupElement)));
    // nothing is committed to for the empty payload, but the aggregate
    // polynomial is opened even then
    assert!(advz.commit_only(&[]).is_ok());
    assert_eq!(advz.disperse(&[]).err(), Some(VidError::Internal(InternalError::GroupElement)));
}

#[test]
fn errors_say_what_went_wrong() {
    let e = VidError::Argument(ArgumentError::InconsistentCommit);
    assert_eq!(e.message(), "common inconsistent with commit");
    assert_eq!(VidError::Internal(InternalError::ErasureDecode).message(), "erasure decoding failed");
}

#[test]
fn wrong_number_of_proofs_is_rejected() {
    let (mut advz, bytes_random) = advz_init();
    let disperse = advz.disperse(&bytes_random).unwrap();
    let (mut shares, common, commit) = (disperse.shares, disperse.common, disperse.commit);
    let extra = shares[0].aggregate_proofs[0];
    shares[0].aggregate_proofs.push(extra);
    assert_eq!(advz.verify_share(&shares[0], &common, &commit), Ok(Err(())));
    shares[1].aggregate_proofs.clear();
    assert_eq!(advz.verify_share(&shares[1], &common, &commit), Ok(Err(())));
    let mut longer = shares[2].clone();
    longer.evals_proof.path.push(common.all_evals_digest);
    assert_eq!(advz.verify_share(&longer, &common, &commit), Ok(Err(())));
}

#[test]
fn verify_share_argument_errors_come_in_order() {
    let (mut advz, bytes_random) = advz_init();
    let disperse = advz.disperse(&bytes_random).unwrap();
    let (shares, common, commit) = (disperse.shares, disperse.common, disperse.commit);

    let zero_multiplicity = Common { multiplicity: 0, ..common.clone() };
    assert_eq!(
        advz.verify_share(&shares[0], &zero_multiplicity, &commit),
        Err(VidError::Argument(ArgumentError::ZeroMultiplicity))
    );
    let other_multiplicity = Common { multiplicity: 2, ..common.clone() };
    assert_eq!(
        advz.verify_share(&shares[0], &other_multiplicity, &commit),
        Err(VidError::Argument(ArgumentError::EvalsCommitsMismatch))
    );
    let other_nodes = Common { num_storage_nodes: 7, ..common.clone() };
    assert_eq!(
        advz.verify_share(&shares[0], &other_nodes, &commit),
        Err(VidError::Argument(ArgumentError::NumStorageNodesMismatch))
    );
    let other_len = Common { payload_byte_len: 3999, ..common.clone() };
    assert_eq!(
        advz.verify_share(&shares[0], &other_len, &commit),
        Err(VidError::Argument(ArgumentError::InconsistentCommit))
    );
    assert_eq!(
        Advz::is_consistent(&commit, &other_len),
        Err(VidError::Argument(ArgumentError::InconsistentCommit))
    );
    // an index out of range is no argument error, but an inconsistent
    // commitment is one even then
    let bad_index = Share { index: 6, ..shares[0].clone() };
    assert_eq!(advz.verify_share(&bad_index, &common, &commit), Ok(Err(())));
    assert_eq!(
        advz.verify_share(&bad_index, &other_len, &commit),
        Err(VidError::Argument(ArgumentError::InconsistentCommit))
    );
}

#[test]
fn recover_payload_argument_errors() {
    let (mut advz, bytes_random) = advz_init();
    let disperse = advz.disperse(&bytes_random).unwrap();
    let (shares, common) = (disperse.shares, disperse.common);
    assert_eq!(
        advz.recover_payload(&shares[..3], &common),
        Err(VidError::Argument(ArgumentError::NotEnoughShares))
    );
    assert_eq!(
        advz.recover_payload(&[], &common),
        Err(VidError::Argument(ArgumentError::NotEnoughShares))
    );
    let other_nodes = Common { num_storage_nodes: 7, ..common.clone() };
    assert_eq!(
        advz.recover_payload(&shares, &other_nodes),
        Err(VidError::Argument(ArgumentError::NumStorageNodesMismatch))
    );
    let mut unequal = shares.clone();
    unequal[5].evals.pop();
    assert_eq!(
        advz.recover_payload(&unequal, &common),
        Err(VidError::Argument(ArgumentError::UnequalEvalsLengths))
    );
    let mut fewer_commits = common.clone();
    fewer_commits.poly_commits.pop();
    assert_eq!(
        advz.recover_payload(&shares, &fewer_commits),
        Err(VidError::Argument(ArgumentError::WrongEvalsLength))
    );
    // the same share twice gives the decoder the same point twice
    let twice = vec![shares[0].clone(), shares[0].clone(), shares[1].clone(), shares[2].clone()];
    assert_eq!(
        advz.recover_payload(&twice, &common),
        Err(VidError::Internal(InternalError::ErasureDecode))
    );
    // a shorter length in the common data cuts the payload
    let shorter = Common { payload_byte_len: 10, ..common.clone() };
    assert_eq!(advz.recover_payload(&shares, &shorter).unwrap(), bytes_random[..10].to_vec());
    // a longer one gives what the polynomials hold: 33 polynomials of 124 bytes
    let longer = Common { payload_byte_len: 5000, ..common.clone() };
    assert_eq!(advz.recover_payload(&shares, &longer).unwrap().len(), 33 * 124);
}

#[test]
fn sad_path_verify_share_corrupt_share() {
    let (mut advz, bytes_random) = advz_init();
    let disperse = advz.disperse(&bytes_random).unwrap();
    let (shares, common, commit) = (disperse.shares, disperse.common, disperse.commit);

    for (i, share) in shares.iter().enumerate() {
        // missing share eval
        {
            let share_missing_eval = Share { evals: share.evals[1..].to_vec(), ..share.clone() };
            assert_arg_err(
                advz.verify_share(&share_missing_eval, &common, &commit),
                "1 missing share should be arg error",
            );
        }

        // corrupted share eval
        {
            let mut share_bad_eval = share.clone();
            share_bad_eval.evals[0] = share_bad_eval.evals[0].add(&share_bad_eval.evals[0]);
            advz.verify_share(&share_bad_eval, &common, &commit)
                .unwrap()
                .expect_err("bad share value should fail verification");
        }

        // corrupted index, in bounds
        {
            let share_bad_index =
                Share { index: (share.index + 1) % advz.num_storage_nodes(), ..share.clone() };
            advz.verify_share(&share_bad_index, &common, &commit)
                .unwrap()
                .expect_err("bad share index should fail verification");
        }

        // corrupted index, out of bounds
        {
            let share_bad_index =
                Share { index: share.index + advz.num_storage_nodes(), ..share.clone() };
            advz.verify_share(&share_bad_index, &common, &commit)
                .unwrap()
                .expect_err("bad share index should fail verification");
        }

        // corrupt eval proof
        {
            // another share's proof takes the place of this one's
            let share_bad_evals_proof = Share {
                evals_proof: shares[(i + 1) % shares.len()].evals_proof.clone(),
                ..share.clone()
            };
            advz.verify_share(&share_bad_evals_proof, &common, &commit)
                .unwrap()
                .expect_err("bad share evals proof should fail verification");
        }
    }
}

#[test]
fn sad_path_verify_share_corrupt_commit() {
    let (mut advz, bytes_random) = advz_init();
    let disperse = advz.disperse(&bytes_random).unwrap();
    let (shares, common, commit) = (disperse.shares, disperse.common, disperse.commit);

    // missing commit
    let common_missing_item =
        Common { poly_commits: common.poly_commits[1..].to_vec(), ..common.clone() };
    assert_arg_err(
        advz.verify_share(&shares[0], &common_missing_item, &commit),
        "1 missing commit should be arg error",
    );

    // 1 corrupt commit, poly_commit
    let common_1_poly_corruption = {
        let mut corrupted = common.clone();
        corrupted.poly_commits[0] = g1_bytes(&G1Affine::zero());
        corrupted
    };
    assert_arg_err(
        advz.verify_share(&shares[0], &common_1_poly_corruption, &commit),
        "corrupted commit should be arg error",
    );

    // 1 corrupt commit, all_evals_digest
    let common_1_digest_corruption = {
        let mut corrupted = common;
        let mut digest_bytes = corrupted.all_evals_digest.bytes;
        digest_bytes[0] = digest_bytes[0].wrapping_add(1);
        corrupted.all_evals_digest.bytes = digest_bytes;
        corrupted
    };
    advz.verify_share(&shares[0], &common_1_digest_corruption, &commit)
        .unwrap()
        .expect_err("1 corrupt all_evals_digest should fail verification");
}

#[test]
fn sad_path_verify_share_corrupt_share_and_commit() {
    let (mut advz, bytes_random) = advz_init();
    let disperse = advz.disperse(&bytes_random).unwrap();
    let (mut shares, mut common, commit) = (disperse.shares, disperse.common, disperse.commit);

    common.poly_commits.pop();
    shares[0].evals.pop();

    // equal nonzero lengths for common, share
    assert_arg_err(
        advz.verify_share(&shares[0], &common, &commit),
        "common inconsistent with commit should be arg error",
    );

    common.poly_commits.clear();
    shares[0].evals.clear();

    // zero length for common, share
    assert_arg_err(
        advz.verify_share(&shares[0], &common, &commit),
        "expect arg error for common inconsistent with commit",
    );
}

#[test]
fn sad_path_recover_payload_corrupt_shares() {
    let (mut advz, bytes_random) = advz_init();
    let disperse = advz.disperse(&bytes_random).unwrap();
    let (shares, common) = (disperse.shares, disperse.common);

    {
        // unequal share eval lengths
        let mut shares_missing_evals = shares.clone();
        for i in 0..shares_missing_evals.len() - 1 {
            shares_missing_evals[i].evals.pop();
            assert_arg_err(
                advz.recover_payload(&shares_missing_evals, &common),
                format!("{} shares missing 1 eval should be arg error", i + 1).as_str(),
            );
        }

        // 1 eval missing from all shares
        shares_missing_evals.last_mut().unwrap().evals.pop();
        assert_arg_err(
            advz.recover_payload(&shares_missing_evals, &common),
            format!(
                "shares contain {} but expected {}",
                shares_missing_evals[0].evals.len(),
                &common.poly_commits.len()
            )
            .as_str(),
        );
    }

    // corrupted index, in bounds
    {
        let mut shares_bad_indices = shares.clone();

        // permute indices to avoid duplicates and keep them in bounds
        for share in &mut shares_bad_indices {
            share.index = (share.index + 1) % advz.num_storage_nodes();
        }

        let bytes_recovered = advz
            .recover_payload(&shares_bad_indices, &common)
            .expect("recover_payload should succeed when indices are in bounds");
        assert_ne!(bytes_recovered, bytes_random);
    }

    // corrupted index, out of bounds
    {
        let mut shares_bad_indices = shares.clone();
        for i in 0..shares_bad_indices.len() {
            shares_bad_indices[i].index += u32::try_from(advz.multi_open_domain().size()).unwrap();
            advz.recover_payload(&shares_bad_indices, &common)
                .expect_err("recover_payload should fail when indices are out of bounds");
        }
    }
}
