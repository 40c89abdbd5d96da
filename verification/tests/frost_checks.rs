//! What signers and dealers refuse, and what the challenges bind.
use curve25519_dalek::ristretto::RistrettoPoint;
use curve25519_dalek::scalar::Scalar;
use frostito::liveness::{
    CheckpointAnchor, ContributionSignature, DealerContribution, LivenessProof,
};
use frostito::reshare::{Dealer, DealerCommitment, SubShare};
use frostito::{dkg, frost, CurvePoint, CurveScalar, Error, SecretShare};
use rand::rngs::OsRng;
use sha2::{Digest, Sha512};

type Point = RistrettoPoint;

/// A signer checks that the commitment the package carries under its index is the
/// one of the nonces it is about to consume.
#[test]
fn sign_rejects_a_foreign_commitment_for_its_own_index() {
    let mut rng = OsRng;

    let secret = <Scalar as CurveScalar>::random(&mut rng);
    let a1 = <Scalar as CurveScalar>::random(&mut rng);
    let eval = |x: u32| {
        let xs = <Scalar as CurveScalar>::from_u32(x);
        secret.add(&a1.mul(&xs))
    };
    let group_pubkey = <Point as CurvePoint>::generator().mul_scalar(&secret);

    // Signer 1 commits honestly.
    let (nonces_1, my_commitment) = frost::commit::<Point>(1, &mut rng).unwrap();
    // The coordinator publishes a commitment for index 1 that signer 1 did not make.
    let (_, foreign_for_1) = frost::commit::<Point>(1, &mut rng).unwrap();
    let (_, commits_2) = frost::commit::<Point>(2, &mut rng).unwrap();

    let share_1 = SecretShare::new(1, eval(1)).unwrap();

    let package = frost::SigningPackage::<Point>::new(
        b"m".to_vec(),
        vec![foreign_for_1, commits_2.clone()],
    )
    .unwrap();
    assert_eq!(
        frost::sign::<Point>(&package, nonces_1, &share_1, &group_pubkey).err().unwrap(),
        Error::UnexpectedCommitment,
        "sign() must reject a package whose commitment for this signer is not its own"
    );

    // The honest package still signs.
    let (nonces_1, my_commitment2) = frost::commit::<Point>(1, &mut rng).unwrap();
    let _ = my_commitment;
    let package =
        frost::SigningPackage::<Point>::new(b"m".to_vec(), vec![my_commitment2, commits_2]).unwrap();
    assert!(frost::sign::<Point>(&package, nonces_1, &share_1, &group_pubkey).is_ok());
}

/// The contribution signature binds the public key, so the shift
/// `(R, s) -> (R, s + e delta)` under `Y + delta G` does not verify.
#[test]
fn liveness_signature_does_not_transfer_to_a_related_key() {
    let mut rng = OsRng;

    let sk = <Scalar as CurveScalar>::random(&mut rng);
    let pk = <Point as CurvePoint>::generator().mul_scalar(&sk);

    let dealer: Dealer<Point> = Dealer::new(1, <Scalar as CurveScalar>::random(&mut rng), 3, &mut rng).unwrap();
    let anchor = CheckpointAnchor::new(100, [1u8; 32], 0);
    let liveness = LivenessProof::new(anchor, vec![1, 2, 3], [2u8; 32]);
    let context = b"epoch-42";

    let contribution =
        DealerContribution::sign(dealer.commitment().clone(), liveness, &sk, context, &mut rng);
    assert!(contribution.verify_signature(&pk, context));

    let message = DealerContribution::<Point>::signing_message(
        &contribution.commitment,
        &contribution.liveness,
        context,
    );

    // The challenge is public: apply the related-key shift.
    let delta = <Scalar as CurveScalar>::random(&mut rng);
    let pk_shifted = pk.add(&<Point as CurvePoint>::generator().mul_scalar(&delta));
    let e = DealerContribution::<Point>::challenge_hash(&contribution.signature.r, &pk, &message);
    let forged = DealerContribution {
        commitment: contribution.commitment.clone(),
        liveness: contribution.liveness.clone(),
        signature: ContributionSignature::new(
            contribution.signature.r,
            contribution.signature.s.add(&e.mul(&delta)),
        ),
    };
    assert!(
        !forged.verify_signature(&pk_shifted, context),
        "a signature must not transfer to a related key"
    );

    // Nor does re-deriving e under the shifted key help: that changes the
    // challenge the forged response would have to satisfy.
    let e_shifted =
        DealerContribution::<Point>::challenge_hash(&contribution.signature.r, &pk_shifted, &message);
    let forged2 = DealerContribution {
        commitment: contribution.commitment.clone(),
        liveness: contribution.liveness.clone(),
        signature: ContributionSignature::new(
            contribution.signature.r,
            contribution.signature.s.add(&e_shifted.mul(&delta)),
        ),
    };
    assert!(!forged2.verify_signature(&pk_shifted, context));

    // The honest signature still verifies, and only under its own key.
    assert!(contribution.verify_signature(&pk, context));
    assert!(!contribution.verify_signature(&pk_shifted, context));
}

/// The contribution challenge carries a domain and the key.
#[test]
fn liveness_challenge_is_domain_separated() {
    let mut rng = OsRng;
    let u = <Point as CurvePoint>::generator()
        .mul_scalar(&<Scalar as CurveScalar>::random(&mut rng));
    let y = <Point as CurvePoint>::generator()
        .mul_scalar(&<Scalar as CurveScalar>::random(&mut rng));
    let payload = [7u8; 64];

    let liveness_c = DealerContribution::<Point>::challenge_hash(&u, &y, &payload);

    // A hash without them is another.
    let bare: Scalar = {
        let mut h = Sha512::new();
        h.update(CurvePoint::compress(&u));
        h.update(payload);
        let full: [u8; 64] = h.finalize().into();
        <Scalar as CurveScalar>::from_bytes_wide(&full)
    };

    assert_ne!(bare, liveness_c);
}

/// Adversarial indices and thresholds are errors rather than panics.
#[test]
fn wire_parsed_indices_error_rather_than_aborting_the_process() {
    let mut rng = OsRng;

    assert_eq!(
        SecretShare::new(0, <Scalar as CurveScalar>::zero()).err().unwrap(),
        Error::InvalidIndex
    );
    assert_eq!(
        frost::commit::<Point>(0, &mut rng).err().unwrap(),
        Error::InvalidIndex
    );
    assert_eq!(
        dkg::Dealer::<Point>::new(0, 3, &mut rng).err().unwrap(),
        Error::InvalidIndex
    );
    assert_eq!(
        dkg::Dealer::<Point>::new(1, 0, &mut rng).err().unwrap(),
        Error::ThresholdMismatch {
            expected: 1,
            got: 0
        }
    );
    assert_eq!(
        Dealer::<Point>::new(0, <Scalar as CurveScalar>::zero(), 3, &mut rng).err().unwrap(),
        Error::InvalidIndex
    );

    let dealer = dkg::Dealer::<Point>::new(1, 2, &mut rng).unwrap();
    assert_eq!(
        dealer.generate_subshare(0).err().unwrap(),
        Error::InvalidIndex
    );
    assert_eq!(
        dealer.commitment().evaluate_at(0).err().unwrap(),
        Error::InvalidIndex
    );
    assert_eq!(
        DealerCommitment::<Point>::from_polynomial(1, &[]).err().unwrap(),
        Error::EmptyContributions
    );
    assert_eq!(
        SubShare::new(0, 1, <Scalar as CurveScalar>::zero()).err().unwrap(),
        Error::InvalidIndex
    );
}

/// The binding factor includes the group public key.
#[test]
fn the_binding_factor_depends_on_the_group_public_key() {
    let mut rng = OsRng;
    let g = <Point as CurvePoint>::generator();
    let (_, commitments) = frost::commit::<Point>(1, &mut rng).unwrap();
    let package = frost::SigningPackage::<Point>::new(b"m".to_vec(), vec![commitments]).unwrap();

    let y1 = g.mul_scalar(&Scalar::random(&mut rng));
    let y2 = g.mul_scalar(&Scalar::random(&mut rng));

    assert_ne!(
        package.binding_factor(1, &y1),
        package.binding_factor(1, &y2),
        "substituting the group key must move the binding factor, not only the challenge"
    );
    assert_ne!(
        package.group_commitment(&y1),
        package.group_commitment(&y2),
        "and therefore the group commitment too"
    );
    assert_eq!(
        package.binding_factor(1, &y1),
        package.binding_factor(1, &y1),
        "and it is still deterministic in its inputs"
    );
}
