//! Refusals, each reached through the public interface.
use curve25519_dalek::ristretto::RistrettoPoint;
use curve25519_dalek::scalar::Scalar;
use frostito::dkg::{Dealer, DkgState};
use frostito::frost;
use frostito::nested::InnerSigningParamsV2;
use frostito::sealed::{
    open_subshare, seal_subshare, x25519_public_from_seed, x25519_secret_from_seed, SealedRoster,
};
use frostito::{compute_lagrange_coefficients, OsstError, OsstPoint};
use rand::rngs::OsRng;

type Point = RistrettoPoint;

/// A coordinator-supplied context is recomputed, and refused where any of its
/// three values differs.
#[test]
fn a_wrong_scalar_is_rejected() {
    let mut rng = OsRng;
    let g = <Point as OsstPoint>::generator();
    let y = g.mul_scalar(&Scalar::random(&mut rng));

    let (_, c1) = frost::commit::<Point>(1, &mut rng).unwrap();
    let (_, c2) = frost::commit::<Point>(2, &mut rng).unwrap();
    let package =
        frost::SigningPackage::<Point>::new(b"m".to_vec(), vec![c1, c2]).unwrap();

    let indices = package.signer_indices();
    let lagrange = compute_lagrange_coefficients::<Scalar>(&indices).unwrap();
    let pos = indices.iter().position(|&i| i == 2).unwrap();
    let r = package.group_commitment(&y);
    let rho = package.binding_factor(2, &y);
    let c = package.challenge(&r, &y);

    // the honest triple is accepted
    let ok = InnerSigningParamsV2::from_coordinator_checked::<Point>(
        &rho,
        &c,
        &lagrange[pos],
        &package,
        &y,
        2,
    );
    assert!(ok.is_ok());

    // each of the three, perturbed on its own, is rejected
    let wrong = Scalar::random(&mut rng);
    for (a, b, l) in [
        (&wrong, &c, &lagrange[pos]),
        (&rho, &wrong, &lagrange[pos]),
        (&rho, &c, &wrong),
    ] {
        let got = InnerSigningParamsV2::from_coordinator_checked::<Point>(
            a, b, l, &package, &y, 2,
        );
        assert!(matches!(got, Err(OsstError::ChallengeMismatch)));
    }

    // an index that is not in the package is an index error, not a
    // mismatch — the caller is asking about a signer that does not exist
    let absent = InnerSigningParamsV2::from_coordinator_checked::<Point>(
        &rho,
        &c,
        &lagrange[pos],
        &package,
        &y,
        7,
    );
    assert!(matches!(absent, Err(OsstError::InvalidIndex)));
}

/// A dealer that publishes a constant-term commitment it did not choose is refused
/// at submission.
#[test]
fn the_proof_is_checked_before_the_commitment_is_recorded() {
    let mut rng = OsRng;
    let epoch = 4u64;
    let honest: Dealer<Point> = Dealer::new(1, 2, &mut rng).unwrap();
    let other: Dealer<Point> = Dealer::new(2, 2, &mut rng).unwrap();

    // dealer 2 claims dealer 1's constant term, with its own proof
    let mut forged = other.round1_package(epoch, &mut rng);
    forged.commitment = honest.commitment().clone();
    forged.commitment.dealer_index = 2;

    assert_eq!(
        forged.verify(epoch).err().unwrap(),
        OsstError::InvalidProofOfKnowledge(2),
        "the package is self-checkable, and the error names the dealer"
    );

    let mut state = DkgState::<Point>::new(epoch, 2, 3);
    assert_eq!(
        state.submit_commitment(forged).err().unwrap(),
        OsstError::InvalidProofOfKnowledge(2)
    );
    assert_eq!(state.commitment_count(), 0, "nothing was recorded");

    // an honest package for the same epoch is accepted; a replay of it
    // into another epoch is not (the epoch is in the PoK challenge)
    let good = honest.round1_package(epoch, &mut rng);
    let mut wrong_epoch = DkgState::<Point>::new(epoch + 1, 2, 3);
    assert_eq!(
        wrong_epoch.submit_commitment(good.clone()).err().unwrap(),
        OsstError::InvalidProofOfKnowledge(1)
    );
    assert!(state.submit_commitment(good).unwrap());
}

/// Disqualification below the threshold aborts the ceremony.
#[test]
fn the_ceremony_refuses_to_continue_below_threshold() {
    let mut rng = OsRng;
    let epoch = 1u64;
    let dealers: Vec<Dealer<Point>> =
        (1..=3).map(|i| Dealer::new(i, 3, &mut rng).unwrap()).collect();
    let mut state = DkgState::<Point>::new(epoch, 3, 3);
    for d in &dealers {
        state.submit_commitment(d.round1_package(epoch, &mut rng)).unwrap();
    }

    assert_eq!(
        state.disqualify(2).err().unwrap(),
        OsstError::DkgAborted {
            qualified: 2,
            need: 3
        }
    );
    // and the dealer really is gone, so a caller that ignores the error
    // cannot accidentally derive a key over the full set
    assert_eq!(state.disqualified(), &[2]);
    assert_eq!(state.qualified_dealers(), vec![1, 3]);

    // a disqualified dealer cannot re-enter
    assert_eq!(
        state
            .submit_commitment(dealers[1].round1_package(epoch, &mut rng))
            .err().unwrap(),
        OsstError::UnexpectedDealer(2)
    );
}

const SEED_1: [u8; 32] = [21u8; 32];
const SEED_2: [u8; 32] = [22u8; 32];
const SEED_3: [u8; 32] = [23u8; 32];
const SESSION: [u8; 32] = [0x77u8; 32];
const ROUND: u8 = 2;

fn roster(session: [u8; 32]) -> SealedRoster {
    SealedRoster::new(
        &[
            (1, x25519_public_from_seed(&SEED_1)),
            (2, x25519_public_from_seed(&SEED_2)),
            (3, x25519_public_from_seed(&SEED_3)),
        ],
        session,
    )
    .unwrap()
}

/// A wrong prologue, sender, recipient or commitment digest is refused.
#[test]
fn each_of_the_four_is_refused() {
    let mut rng = OsRng;
    let r = roster(SESSION);
    let dealer: Dealer<Point> = Dealer::new(1, 2, &mut rng).unwrap();
    let subshare = dealer.generate_subshare(2).unwrap();
    let sealed = seal_subshare::<Point>(
        &x25519_secret_from_seed(&SEED_1),
        &r,
        ROUND,
        &subshare,
        dealer.commitment(),
    )
    .unwrap();

    // the honest open, as a control
    open_subshare::<Point>(
        &x25519_secret_from_seed(&SEED_2),
        2,
        &r,
        ROUND,
        &sealed,
        dealer.commitment(),
    )
    .expect("the honest path works");

    // wrong prologue — another round of the same ceremony
    assert_eq!(
        open_subshare::<Point>(
            &x25519_secret_from_seed(&SEED_2),
            2,
            &r,
            ROUND + 1,
            &sealed,
            dealer.commitment(),
        )
        .err().unwrap(),
        OsstError::SealedOpenFailed(1)
    );

    // ... and another ceremony entirely
    let elsewhere = roster([0x11u8; 32]);
    assert_eq!(
        open_subshare::<Point>(
            &x25519_secret_from_seed(&SEED_2),
            2,
            &elsewhere,
            ROUND,
            &sealed,
            dealer.commitment(),
        )
        .err().unwrap(),
        OsstError::SealedOpenFailed(1)
    );

    // wrong sender — relabel the package as coming from dealer 3
    let mut reattributed = sealed.clone();
    reattributed.dealer_index = 3;
    assert_eq!(
        open_subshare::<Point>(
            &x25519_secret_from_seed(&SEED_2),
            2,
            &r,
            ROUND,
            &reattributed,
            dealer.commitment(),
        )
        .err().unwrap(),
        OsstError::SealedOpenFailed(3),
        "Noise_K binds the initiator's static key: dealer 3 did not send this"
    );

    // wrong recipient — participant 3 holds a roster key, and still
    // cannot open a package addressed to 2
    assert_eq!(
        open_subshare::<Point>(
            &x25519_secret_from_seed(&SEED_3),
            3,
            &r,
            ROUND,
            &sealed,
            dealer.commitment(),
        )
        .err().unwrap(),
        OsstError::SealedOpenFailed(1)
    );
    // and a participant not on the roster at all is named as such
    let off_roster = SealedRoster::new(&[(1, x25519_public_from_seed(&SEED_1))], SESSION)
        .unwrap();
    let mut from_stranger = sealed.clone();
    from_stranger.dealer_index = 9;
    assert_eq!(
        open_subshare::<Point>(
            &x25519_secret_from_seed(&SEED_2),
            2,
            &off_roster,
            ROUND,
            &from_stranger,
            dealer.commitment(),
        )
        .err().unwrap(),
        OsstError::UnknownParticipant(9)
    );

    // digest mismatch — the package opens, but the commitment it
    // is checked against is not the one it was sealed with
    let another: Dealer<Point> = Dealer::new(1, 2, &mut rng).unwrap();
    assert_eq!(
        open_subshare::<Point>(
            &x25519_secret_from_seed(&SEED_2),
            2,
            &r,
            ROUND,
            &sealed,
            another.commitment(),
        )
        .err().unwrap(),
        OsstError::InvalidSubShare(1),
        "a sub-share and a commitment from different dealings do not pair"
    );

    // tampering with the ciphertext is caught by the AEAD tag, not by any
    // check of ours
    let mut tampered = sealed.clone();
    let last = tampered.ciphertext.len() - 1;
    tampered.ciphertext[last] ^= 1;
    assert_eq!(
        open_subshare::<Point>(
            &x25519_secret_from_seed(&SEED_2),
            2,
            &r,
            ROUND,
            &tampered,
            dealer.commitment(),
        )
        .err().unwrap(),
        OsstError::SealedOpenFailed(1)
    );
}
