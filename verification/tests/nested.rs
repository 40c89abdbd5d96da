//! Nested FROST over ristretto255.
use curve25519_dalek::ristretto::RistrettoPoint;
use curve25519_dalek::scalar::Scalar;
use frostito::frost;
use frostito::nested::{
    aggregate_inner_commitment_pair, aggregate_inner_shares_verified, inner_commit,
    inner_commit_scalars, inner_precommit, inner_sign_v2, interleaved_dkg,
    split_evaluation_for_inner, verify_inner_precommit, verify_inner_share, verify_split_piece,
    InnerSigningParamsV2, NestedSigningRequest,
};
use frostito::{compute_lagrange_coefficients, CurvePoint, CurveScalar, Error, SecretShare};
use rand::rngs::OsRng;

type Point = RistrettoPoint;

const SESSION: [u8; 32] = [0xA5; 32];

/// `from_outer` must reproduce, exactly, the derivation by hand, or inner shares
/// silently fail to verify.
#[test]
fn from_outer_matches_the_hand_rolled_derivation() {
    let mut rng = OsRng;
    let msg = b"outer context derivation";

    let secret = <Scalar as CurveScalar>::random(&mut rng);
    let group_pubkey = <Point as CurvePoint>::generator().mul_scalar(&secret);

    let (_, commits_1) = frost::commit::<Point>(1, &mut rng).expect("index is 1-indexed by construction");
    let (_, commits_2) = frost::commit::<Point>(2, &mut rng).expect("index is 1-indexed by construction");
    let package =
        frost::SigningPackage::new(msg.to_vec(), vec![commits_1, commits_2]).unwrap();

    // by hand
    let rho_2 = package.binding_factor(2, &group_pubkey);
    let r_outer = package.group_commitment(&group_pubkey);
    let challenge = package.challenge(&r_outer, &group_pubkey);
    let indices = package.signer_indices();
    let outer_lagrange = compute_lagrange_coefficients::<Scalar>(&indices).unwrap();
    let pos_2 = indices.iter().position(|&i| i == 2).unwrap();

    let derived = InnerSigningParamsV2::from_outer::<Point>(&package, &group_pubkey, 2).unwrap();

    assert_eq!(*derived.outer_binding(), rho_2);
    assert_eq!(*derived.outer_challenge(), challenge);
    assert_eq!(*derived.outer_lambda(), outer_lagrange[pos_2]);

    // position 1 gets a different context, as it must
    let derived_1 =
        InnerSigningParamsV2::from_outer::<Point>(&package, &group_pubkey, 1).unwrap();
    assert_ne!(*derived_1.outer_binding(), *derived.outer_binding());
    assert_ne!(*derived_1.outer_lambda(), *derived.outer_lambda());
    // the challenge is a property of the session, not the position
    assert_eq!(*derived_1.outer_challenge(), *derived.outer_challenge());

    // an index outside the outer signing set has no context at all
    assert!(matches!(
            InnerSigningParamsV2::from_outer::<Point>(&package, &group_pubkey, 7),
            Err(Error::InvalidIndex)
        ));
}

/// A nested position is indistinguishable from a flat FROST signer.
///
/// An outer 2-of-2 over positions {1, 2}. Position 2's key is split 3-of-5 among
/// inner holders, and its nonce is the sum of the inner holders' nonces. The
/// nested share is the one of an ordinary signer that holds the reconstructed
/// scalar, and the signature verifies.
#[test]
fn nested_v2_equals_flat_frost() {
    let mut rng = OsRng;
    let msg = b"settlement: a=1000 b=0";
    let secret = Scalar::random(&mut rng);
    let a1 = Scalar::random(&mut rng);
    let eval = |x: u32| {
        let x = <Scalar as CurveScalar>::from_u32(x);
        secret.add(&a1.mul(&x))
    };
    let sigma_1 = eval(1);
    let sigma_2 = eval(2); // the NESTED position's outer share
    let group_pubkey = <Point as CurvePoint>::generator().mul_scalar(&secret);

    let share_1 = SecretShare::new(1, sigma_1).expect("index is 1-indexed by construction");
    let inner_t = 3u32;
    let inner_n = 5u32;
    let (inner_pieces, dealer_commitment) =
        split_evaluation_for_inner::<Point>(&sigma_2, inner_n, inner_t, &mut rng);

    // every holder verifies its piece against the Feldman commitment
    for (k, piece) in &inner_pieces {
        assert!(
            verify_split_piece::<Point>(&dealer_commitment, *k, piece),
            "inner piece {} failed Feldman verification",
            k
        );
    }

    let quorum: Vec<u32> = vec![1, 2, 3];
    let inner_shares: Vec<SecretShare<Scalar>> = quorum
        .iter()
        .map(|k| {
            let (_, piece) = inner_pieces.iter().find(|(i, _)| i == k).unwrap();
            SecretShare::new(*k, *piece).expect("index is 1-indexed by construction")
        })
        .collect();

    // sanity: the quorum reconstructs position 2's outer share
    {
        let lag = compute_lagrange_coefficients::<Scalar>(&quorum).unwrap();
        let mut recon = <Scalar as CurveScalar>::zero();
        for (i, s) in inner_shares.iter().enumerate() {
            recon = recon.add(&lag[i].mul(s.scalar()));
        }
        assert_eq!(recon, sigma_2, "inner quorum must reconstruct the outer share");
    }
    let mut inner_nonces = Vec::new();
    let mut inner_commitments = Vec::new();
    let mut precommits = Vec::new();
    // the aggregate nonces, to drive the flat signer with
    let mut d_sum = <Scalar as CurveScalar>::zero();
    let mut e_sum = <Scalar as CurveScalar>::zero();
    for &k in &quorum {
        let d = <Scalar as CurveScalar>::random(&mut rng);
        let e = <Scalar as CurveScalar>::random(&mut rng);
        let (n, c) = inner_commit_scalars::<Point>(k, SESSION, d, e);
        precommits.push(inner_precommit(&c));
        inner_nonces.push(n);
        inner_commitments.push(c);
        d_sum = CurveScalar::add(&d_sum, &d);
        e_sum = CurveScalar::add(&e_sum, &e);
    }
    for (pre, revealed) in precommits.iter().zip(inner_commitments.iter()) {
        assert!(verify_inner_precommit::<Point>(pre, revealed));
    }
    // a tampered reveal must be caught
    {
        let mut tampered = inner_commitments[0].clone();
        tampered.hiding = tampered.hiding.add(&<Point as CurvePoint>::generator());
        assert!(!verify_inner_precommit::<Point>(&precommits[0], &tampered));
    }

    // round 0: the precommitments that the aggregate verifies
    let inner_precommits: Vec<(u32, [u8; 32])> = inner_commitments
        .iter()
        .map(|c| (c.holder_index, inner_precommit::<Point>(c)))
        .collect();
    let (d_nested, e_nested) =
        aggregate_inner_commitment_pair::<Point>(&SESSION, &inner_precommits, &inner_commitments)
            .unwrap();
    assert_eq!(d_nested, <Point as CurvePoint>::generator().mul_scalar(&d_sum));
    assert_eq!(e_nested, <Point as CurvePoint>::generator().mul_scalar(&e_sum));
    let (nonces_1, commits_1) = frost::commit::<Point>(1, &mut rng).expect("index is 1-indexed by construction");
    let commits_2 = frost::SigningCommitments {
        index: 2,
        hiding: d_nested,
        binding: e_nested,
    };
    let package =
        frost::SigningPackage::new(msg.to_vec(), vec![commits_1, commits_2.clone()]).unwrap();

    // outer context — recomputable by any inner holder from public data
    let rho_2 = package.binding_factor(2, &group_pubkey);
    let r_outer = package.group_commitment(&group_pubkey);
    let challenge = package.challenge(&r_outer, &group_pubkey);
    let indices = package.signer_indices();
    let outer_lagrange = compute_lagrange_coefficients::<Scalar>(&indices).unwrap();
    let pos_2 = indices.iter().position(|&i| i == 2).unwrap();
    // A coordinator-supplied context is only accepted when it is the one
    // the holder recomputes for itself.
    let params = InnerSigningParamsV2::from_coordinator_checked::<Point>(
        &rho_2,
        &challenge,
        &outer_lagrange[pos_2],
        &package,
        &group_pubkey,
        2,
    )
    .unwrap();
    let mismatched = InnerSigningParamsV2::from_coordinator_checked::<Point>(
        &rho_2,
        &Scalar::random(&mut rng),
        &outer_lagrange[pos_2],
        &package,
        &group_pubkey,
        2,
    );
    assert!(matches!(mismatched, Err(Error::ChallengeMismatch)));

    let request = NestedSigningRequest {
        package: &package,
        nested_index: 2,
        session_id: SESSION,
        inner_precommits: &inner_precommits,
        inner_commitments: &inner_commitments,
        active_indices: &quorum,
        inner_threshold: 3,
    };
    let inner_lagrange = compute_lagrange_coefficients::<Scalar>(&quorum).unwrap();
    let public_shares: Vec<(u32, Point)> = inner_shares
        .iter()
        .map(|s| {
            (
                s.index,
                <Point as CurvePoint>::generator().mul_scalar(s.scalar()),
            )
        })
        .collect();

    let mut inner_sigs = Vec::new();
    for (n, share) in inner_nonces.into_iter().zip(inner_shares.iter()) {
        let sig = inner_sign_v2::<Point>(n, share, &group_pubkey, msg, &request).unwrap();
        let pos = quorum.iter().position(|&i| i == share.index).unwrap();
        let commitment = inner_commitments
            .iter()
            .find(|c| c.holder_index == share.index)
            .unwrap();
        let public = &public_shares
            .iter()
            .find(|(i, _)| *i == share.index)
            .unwrap()
            .1;
        assert!(
            verify_inner_share::<Point>(&sig, commitment, public, &params, &inner_lagrange[pos]),
            "holder {} produced an unverifiable share",
            share.index
        );
        inner_sigs.push(sig);
    }

    let z_nested = aggregate_inner_shares_verified::<Point>(
        &inner_sigs,
        &inner_commitments,
        &public_shares,
        &params,
        &quorum,
    )
    .expect("all inner shares must verify");
    // the flat response
    let z_flat = d_sum
        .add(&rho_2.mul(&e_sum))
        .add(&params.outer_lambda().mul(&challenge).mul(&sigma_2));
    assert_eq!(
        z_nested, z_flat,
        "nested share must equal the flat FROST share bit-for-bit"
    );
    let sig_1 = frost::sign::<Point>(&package, nonces_1, &share_1, &group_pubkey).unwrap();
    let sig_2 = frost::SignatureShare {
        index: 2,
        response: z_nested,
    };
    let signature =
        frost::aggregate::<Point>(&package, &[sig_1, sig_2], &group_pubkey, None).unwrap();
    assert!(
        frost::verify_signature::<Point>(&group_pubkey, msg, &signature),
        "nested-produced signature must verify under the group key"
    );

}

/// A dishonest inner holder is NAMED, not silently folded into a signature
/// that then fails to verify with no attribution.
#[test]
fn v2_names_the_dishonest_inner_holder() {
    let mut rng = OsRng;
    let msg: &[u8] = b"m";
    let sigma_2 = Scalar::random(&mut rng);
    let quorum: Vec<u32> = vec![1, 2, 3];
    let (inner_pieces, _) = split_evaluation_for_inner::<Point>(&sigma_2, 5, 3, &mut rng);
    let inner_shares: Vec<SecretShare<Scalar>> = quorum
        .iter()
        .map(|k| {
            let (_, piece) = inner_pieces.iter().find(|(i, _)| i == k).unwrap();
            SecretShare::new(*k, *piece).expect("index is 1-indexed by construction")
        })
        .collect();

    let mut inner_nonces = Vec::new();
    let mut inner_commitments = Vec::new();
    for &k in &quorum {
        let (n, c) = inner_commit::<Point>(k, SESSION, &mut rng);
        inner_nonces.push(n);
        inner_commitments.push(c);
    }
    // round 0: the precommitments that the aggregate verifies
    let inner_precommits: Vec<(u32, [u8; 32])> = inner_commitments
        .iter()
        .map(|c| (c.holder_index, inner_precommit::<Point>(c)))
        .collect();
    let (d_nested, e_nested) =
        aggregate_inner_commitment_pair::<Point>(&SESSION, &inner_precommits, &inner_commitments)
            .unwrap();
    let group_pubkey = <Point as CurvePoint>::generator().mul_scalar(&sigma_2);

    let (_, commits_1) = frost::commit::<Point>(1, &mut rng).expect("index is 1-indexed by construction");
    let commits_2 = frost::SigningCommitments {
        index: 2,
        hiding: d_nested,
        binding: e_nested,
    };
    let package =
        frost::SigningPackage::new(msg.to_vec(), vec![commits_1, commits_2]).unwrap();
    let params = InnerSigningParamsV2::from_outer::<Point>(&package, &group_pubkey, 2).unwrap();
    let request = NestedSigningRequest {
        package: &package,
        nested_index: 2,
        session_id: SESSION,
        inner_precommits: &inner_precommits,
        inner_commitments: &inner_commitments,
        active_indices: &quorum,
        inner_threshold: 3,
    };

    let public_shares: Vec<(u32, Point)> = inner_shares
        .iter()
        .map(|s| {
            (
                s.index,
                <Point as CurvePoint>::generator().mul_scalar(s.scalar()),
            )
        })
        .collect();

    let mut sigs = Vec::new();
    for (n, share) in inner_nonces.into_iter().zip(inner_shares.iter()) {
        sigs.push(inner_sign_v2::<Point>(n, share, &group_pubkey, msg, &request).unwrap());
    }
    // holder 2 goes rogue
    sigs[1].response = sigs[1].response.add(&<Scalar as CurveScalar>::one());

    let err = aggregate_inner_shares_verified::<Point>(
        &sigs,
        &inner_commitments,
        &public_shares,
        &params,
        &quorum,
    )
    .expect_err("a tampered share must be rejected");
    assert_eq!(err, vec![2], "the cheating holder must be identified");
}

#[test]
fn test_interleaved_dkg() {
    let mut rng = OsRng;
    let inner_n = 5u32;
    let inner_t = 3u32;
    let outer_t = 2u32;

    let (inner_shares, coeff_commitments) =
        interleaved_dkg::<Point>(inner_n, inner_t, outer_t, &mut rng).unwrap();

    assert_eq!(inner_shares.len(), inner_n as usize);
    assert_eq!(coeff_commitments.len(), outer_t as usize);

    // verify: any t_inner shares of each coefficient reconstruct correctly
    for (j, _) in coeff_commitments.iter().enumerate().take(outer_t as usize) {
        let shares_j: Vec<(u32, Scalar)> = inner_shares
            .iter()
            .map(|s| (s.holder_index, s.coefficient_shares[j]))
            .collect();

        let active: Vec<u32> = shares_j[..inner_t as usize]
            .iter()
            .map(|s| s.0)
            .collect();
        let lambda = compute_lagrange_coefficients::<Scalar>(&active).unwrap();
        let mut reconstructed = Scalar::ZERO;
        for (i, (_, val)) in shares_j[..inner_t as usize].iter().enumerate() {
            reconstructed += lambda[i] * val;
        }

        let expected_point = <Point as CurvePoint>::generator().mul_scalar(&reconstructed);
        assert_eq!(expected_point, coeff_commitments[j]);
    }
}

#[test]
fn test_split_evaluation_with_feldman_verification() {
    let mut rng = OsRng;
    let secret = Scalar::random(&mut rng);
    let inner_n = 5u32;
    let inner_t = 3u32;

    let (pieces, commitment) =
        split_evaluation_for_inner::<Point>(&secret, inner_n, inner_t, &mut rng);

    // every piece should verify against the feldman commitment
    for &(k, ref piece) in &pieces {
        assert!(
            verify_split_piece::<Point>(&commitment, k, piece),
            "piece {} failed feldman verification",
            k
        );
    }

    // a tampered piece should fail
    let tampered = Scalar::random(&mut rng);
    assert!(!verify_split_piece::<Point>(&commitment, 1, &tampered));
}
