//! Properties that span calls, on concrete values, and the refusals of each module.
use std::collections::BTreeMap;

use curve25519_dalek::ristretto::RistrettoPoint;
use curve25519_dalek::scalar::Scalar;
use frostito::dkg::{self, ComplaintTally, ComplaintVerdict, DkgState};
use frostito::frost::{self, Nonces, SignatureShare, SigningPackage};
use frostito::liveness::{
    conclude, valid_positions, CheckpointAnchor, ContributionError, ContributionSignature,
    ContributionVerifier, DealerContribution, LivenessProof, LivenessVerifier,
};
use frostito::nested::{
    self, InnerShare, InnerSigningParamsV2, MemorySpentSessions, SpentSessions,
};
use frostito::reshare::{
    self, batch_verify_weighted, DealerCommitment, ReshareState, SharePolynomial, SubShare,
};
use frostito::sealed::{accept_opened, read_opened, seal_subshare, SealedRoster};
use frostito::{
    compute_lagrange_coefficients, OsstError, OsstPoint, OsstScalar, SecretShare, SigningContext,
};
use rand::rngs::OsRng;

type P = RistrettoPoint;

fn num(v: u32) -> Scalar {
    Scalar::from_u32(v)
}

fn point(v: u32) -> P {
    <P as OsstPoint>::generator().mul_scalar(&num(v))
}

fn dealer(index: u32, coefficients: &[u32]) -> reshare::Dealer<P> {
    reshare::Dealer::from_polynomial(index, coefficients.iter().map(|&c| num(c)).collect())
        .unwrap()
}

/// Accusers count once, unfounded complaints not at all, and no index is zero.
#[test]
fn a_tally_counts_distinct_accusers() {
    let mut tally = ComplaintTally::new(2);
    assert_eq!(tally.record(1, 9, ComplaintVerdict::Upheld), Ok(()));
    assert_eq!(tally.record(1, 9, ComplaintVerdict::Upheld), Ok(()));
    assert!(!tally.reached(9));
    assert_eq!(tally.record(2, 9, ComplaintVerdict::Unfounded), Ok(()));
    assert!(!tally.reached(9));
    assert_eq!(tally.record(2, 8, ComplaintVerdict::Upheld), Ok(()));
    assert!(!tally.reached(9));
    assert_eq!(tally.record(3, 9, ComplaintVerdict::Upheld), Ok(()));
    assert!(tally.reached(9));
    assert!(!tally.reached(8));
    assert_eq!(tally.record(0, 9, ComplaintVerdict::Upheld), Err(OsstError::InvalidIndex));
    assert_eq!(tally.record(9, 0, ComplaintVerdict::Upheld), Err(OsstError::InvalidIndex));
}

#[test]
fn a_session_is_spent_once_by_each_holder() {
    let mut store = MemorySpentSessions::new();
    assert!(store.is_empty());
    assert_eq!(store.spend(&[1; 32], 1), Ok(()));
    assert_eq!(store.spend(&[1; 32], 1), Err(OsstError::SessionSpent));
    assert_eq!(store.spend(&[1; 32], 2), Ok(()));
    assert_eq!(store.spend(&[2; 32], 1), Ok(()));
    assert!(store.is_spent(&[1; 32], 2));
    assert!(!store.is_spent(&[2; 32], 2));
    assert_eq!(store.len(), 3);
    assert!(!store.is_empty());
    assert!(MemorySpentSessions::default().is_empty());
}

/// A bad sub-share passes a batch for one weight at most: here for zero.
#[test]
fn a_batch_is_refused_for_every_weight_but_one() {
    let d = dealer(1, &[3, 4]);
    let e = dealer(2, &[5, 6]);
    let commitments = [e.commitment().clone(), d.commitment().clone()];
    let sub = |i: u32, v: u32| SubShare::new(i, 2, num(v)).unwrap();
    let good = [sub(1, 11), sub(2, 17)];
    let bad = [sub(1, 11), sub(2, 18)];
    assert!(batch_verify_weighted::<P>(2, &good, &commitments, &[num(7), num(9)]));
    assert!(batch_verify_weighted::<P>(2, &bad, &commitments, &[num(7), num(0)]));
    for w in 1..20 {
        assert!(!batch_verify_weighted::<P>(2, &bad, &commitments, &[num(7), num(w)]));
    }
    // the wrong player, a dealer without a commitment, and nothing at all
    assert!(!batch_verify_weighted::<P>(3, &good, &commitments, &[num(7), num(9)]));
    let stray = [sub(1, 11), sub(3, 17)];
    assert!(!batch_verify_weighted::<P>(2, &stray, &commitments, &[num(7), num(9)]));
    assert!(!batch_verify_weighted::<P>(2, &[], &[], &[]));
}

/// Resharing `10 + x`, held at 1 and 2, to a polynomial that still has 10 at zero.
#[test]
fn resharing_keeps_the_key() {
    // dealer 1 has 11 and deals 11 + 5x; dealer 2 has 12 and deals 12 + 7x
    let d1 = dealer(1, &[11, 5]);
    let d2 = dealer(2, &[12, 7]);
    // weights 2 and -1: 10 + 3x
    for j in 1..=4u32 {
        let mut agg = reshare::Aggregator::<P>::new(j, &[2, 1]).unwrap();
        assert_eq!(agg.dealer_set(), &[1, 2]);
        assert_eq!(
            agg.finalize(&point(10)).err(),
            Some(OsstError::InsufficientContributions { got: 0, need: 2 })
        );
        let added = agg.add_subshares_batch(
            vec![d2.generate_subshare(j).ok().unwrap(), d1.generate_subshare(j).ok().unwrap()],
            vec![d2.commitment().clone(), d1.commitment().clone()],
        );
        assert_eq!(added, 2);
        assert!(agg.is_complete());
        assert!(agg.missing_dealers().is_empty());
        let (share, polynomial) = agg.finalize(&point(10)).ok().unwrap();
        assert_eq!(share, num(10 + 3 * j));
        assert_eq!(polynomial.coefficients(), &[point(10), point(3)]);
        assert_eq!(polynomial.verifying_share(j), point(10 + 3 * j));
        assert!(polynomial.verify_share(j, &share));
        assert_eq!(agg.finalize(&point(11)).err(), Some(OsstError::InvalidCommitment));
        let again =
            SharePolynomial::<P>::from_bytes(&polynomial.to_bytes(), polynomial.threshold());
        assert_eq!(again.ok().unwrap().group_key(), &point(10));
    }
}

/// What an aggregator refuses, each with its error.
#[test]
fn an_aggregator_refuses() {
    let d1 = dealer(1, &[11, 5]);
    let d3 = dealer(3, &[12, 7]);
    let mut agg = reshare::Aggregator::<P>::new(4, &[1, 2]).unwrap();
    let give = |d: &reshare::Dealer<P>, j: u32| d.generate_subshare(j).ok().unwrap();
    assert_eq!(
        agg.add_subshare(give(&d3, 4), d3.commitment().clone()),
        Err(OsstError::UnexpectedDealer(3))
    );
    assert_eq!(
        agg.add_subshare(give(&d1, 5), d1.commitment().clone()),
        Err(OsstError::InvalidIndex)
    );
    let wrong = SubShare::new(1, 4, num(1)).unwrap();
    assert_eq!(
        agg.add_subshare(wrong, d1.commitment().clone()),
        Err(OsstError::InvalidResponse)
    );
    assert_eq!(agg.add_subshare(give(&d1, 4), d1.commitment().clone()), Ok(true));
    assert_eq!(agg.missing_dealers(), vec![2]);
    assert_eq!(agg.add_subshare(give(&d1, 4), d1.commitment().clone()), Ok(false));
    let d2 = dealer(2, &[12, 7, 8]);
    assert_eq!(
        agg.add_subshare(give(&d2, 4), d2.commitment().clone()),
        Err(OsstError::ThresholdMismatch { expected: 2, got: 3 })
    );
    assert_eq!(
        agg.aggregate().err(),
        Some(OsstError::InsufficientContributions { got: 1, need: 2 })
    );
    assert_eq!(reshare::Aggregator::<P>::new(0, &[1]).err(), Some(OsstError::InvalidIndex));
    assert_eq!(
        reshare::Aggregator::<P>::new(1, &[]).err(),
        Some(OsstError::EmptyContributions)
    );
    assert_eq!(
        reshare::Aggregator::<P>::new(1, &[2, 2]).err(),
        Some(OsstError::DuplicateIndex(2))
    );
}

/// The deterministic dealer set is the lowest committed indices.
#[test]
fn the_dealer_set_is_the_lowest_committed() {
    let mut state = ReshareState::<P>::new(5, 4, 2, 2, 3, point(10));
    assert!(!state.has_quorum());
    assert_eq!(state.dealer_set(), None);
    assert_eq!(state.submit_commitment(dealer(4, &[1, 2]).commitment().clone()), Ok(true));
    assert_eq!(state.submit_commitment(dealer(2, &[12, 7]).commitment().clone()), Ok(true));
    assert_eq!(state.submit_commitment(dealer(1, &[11, 5]).commitment().clone()), Ok(true));
    assert_eq!(state.commitment_count(), 3);
    assert!(state.has_quorum());
    assert_eq!(state.dealer_set(), Some(vec![1, 2]));
    assert_eq!(state.verify_group_key(), Ok(true));
    assert_eq!(
        state.submit_commitment(dealer(5, &[1, 2]).commitment().clone()),
        Err(OsstError::InvalidIndex)
    );
}

/// The joint polynomial of dealers `3 + 4x` and `5 + 6x` is `8 + 10x`.
#[test]
fn key_generation_adds_the_polynomials() {
    let mut rng = OsRng;
    let deal = |i: u32, a: u32, b: u32| {
        dkg::Dealer::<P>::from_polynomial(i, vec![num(a), num(b)]).unwrap()
    };
    let (d1, d2) = (deal(1, 3, 4), deal(2, 5, 6));
    let mut state = DkgState::<P>::new(7, 2, 2);
    assert_eq!(state.submit_commitment(d2.round1_package(7, &mut rng)), Ok(true));
    assert_eq!(
        state.submit_commitment(d1.round1_package(8, &mut rng)),
        Err(OsstError::InvalidProofOfKnowledge(1))
    );
    assert_eq!(
        state.agreed_round1().err(),
        Some(OsstError::InsufficientContributions { got: 1, need: 2 })
    );
    assert_eq!(state.submit_commitment(d1.round1_package(7, &mut rng)), Ok(true));
    assert!(state.is_complete());
    assert_eq!(state.derive_group_key().unwrap(), point(8));
    assert_eq!(state.derive_verification_share(2).unwrap(), point(28));
    assert_eq!((state.epoch(), state.threshold(), state.num_participants()), (7, 2, 2));
    assert_eq!(state.commitments().len(), 2);
    assert_eq!(state.commitments()[1].as_ref().unwrap().coefficients, vec![point(5), point(6)]);
    let agreed = state.agreed_round1().ok().unwrap();
    assert_eq!(agreed.dealer_set(), vec![1, 2]);
    assert_eq!(agreed.confirm(&agreed.digest()), Ok(()));
    assert_eq!(
        agreed.confirm(&dkg::EchoDigest([0; 32])),
        Err(OsstError::EchoMismatch)
    );
    let mut shares = Vec::new();
    for j in 1..=2u32 {
        let mut agg = dkg::Aggregator::<P>::from_agreed(j, &agreed).ok().unwrap();
        for d in [&d1, &d2] {
            let sub = d.generate_subshare(j).ok().unwrap();
            assert_eq!(agg.add_subshare(sub, d.commitment()), Ok(true));
        }
        let share = agg.finalize().ok().unwrap();
        assert_eq!(share, num(8 + 10 * j));
        assert_eq!(agg.derive_group_key().unwrap(), point(8));
        // the state's key and verifying share are those of the player
        assert_eq!(agg.derive_group_key(), state.derive_group_key());
        assert_eq!(
            <P as OsstPoint>::generator().mul_scalar(&share),
            state.derive_verification_share(j).unwrap()
        );
        shares.push(share);
    }
    let l = compute_lagrange_coefficients::<Scalar>(&[1, 2]).unwrap();
    assert_eq!(l[0] * shares[0] + l[1] * shares[1], num(8));
}

/// What opening a package accepts: seventy-two bytes whose indices are those of the
/// envelope and whose value is on the commitment.
#[test]
fn an_opened_package_is_checked() {
    let d = dealer(1, &[3, 4]);
    let mut plain = 1u32.to_le_bytes().to_vec();
    plain.extend_from_slice(&2u32.to_le_bytes());
    plain.extend_from_slice(&num(11).to_bytes());
    plain.extend_from_slice(&dkg::commitment_digest(d.commitment()));
    let accept = |p: &[u8], i: u32, j: u32| {
        accept_opened::<P>(Some(p.to_vec()), i, j, d.commitment()).map(|s| *s.value())
    };
    assert_eq!(accept(&plain, 1, 2), Ok(num(11)));
    assert_eq!(accept(&plain, 3, 2), Err(OsstError::SealedOpenFailed(3)));
    assert_eq!(accept(&plain, 1, 3), Err(OsstError::SealedOpenFailed(1)));
    assert_eq!(accept(&plain[..71], 1, 2), Err(OsstError::SealedOpenFailed(1)));
    assert_eq!(
        accept_opened::<P>(None, 1, 2, d.commitment()).err(),
        Some(OsstError::SealedOpenFailed(1))
    );
    let mut other = plain.clone();
    other[71] ^= 1;
    assert!(accept(&other, 1, 2).is_err());
    let mut moved = plain.clone();
    moved[8..40].copy_from_slice(&num(12).to_bytes());
    assert_eq!(accept(&moved, 1, 2), Err(OsstError::InvalidSubShare(1)));
    let mut wide = plain.clone();
    wide[8..40].copy_from_slice(&[0xff; 32]);
    assert_eq!(
        read_opened::<P>(&Some(wide), 1, 2).err(),
        Some(OsstError::InvalidResponse)
    );

    // a participant that is not on the roster
    let roster = SealedRoster::new(&[(1, [1; 32])], [0; 32]).unwrap();
    let sub = d.generate_subshare(2).ok().unwrap();
    assert_eq!(
        seal_subshare::<P>(&[7; 32], &roster, 2, &sub, d.commitment()).err(),
        Some(OsstError::UnknownParticipant(2))
    );
}

/// A block verifier with a fixed answer.
struct Fixed {
    height: u64,
    answer: bool,
}

impl LivenessVerifier for Fixed {
    fn verify_ligerito_proof(&self, _: &CheckpointAnchor, _: &[u8], _: &[u8; 32]) -> bool {
        self.answer
    }

    fn current_anchor(&self) -> CheckpointAnchor {
        CheckpointAnchor::new(self.height, [0; 32], 0)
    }

    fn max_checkpoint_age(&self) -> u64 {
        10
    }
}

/// Every outcome of a contribution's verification, and the batch of valid ones.
#[test]
fn every_outcome_of_a_contribution() {
    let contribution = |index: u32, height: u64| {
        DealerContribution::<P>::sign_with_nonce(
            DealerCommitment::from_polynomial(index, &[num(1), num(2)]).unwrap(),
            LivenessProof::new(CheckpointAnchor::new(height, [1; 32], 5), vec![9], [2; 32]),
            &num(index),
            b"ctx",
            &num(77),
        )
    };
    let check = |v: &Fixed, c: &DealerContribution<P>, keys: &[(u32, P)]| {
        ContributionVerifier::<P, _>::new(v, b"ctx").verify_keyed(c, keys)
    };
    let yes = Fixed { height: 100, answer: true };
    let no = Fixed { height: 100, answer: false };
    let keys = [(1, point(1)), (2, point(2)), (3, point(9))];
    assert_eq!(check(&yes, &contribution(1, 95), &keys), Ok(()));
    assert_eq!(check(&yes, &contribution(1, 90), &keys), Ok(()));
    assert_eq!(
        check(&yes, &contribution(1, 89), &keys),
        Err(ContributionError::CheckpointTooOld)
    );
    assert_eq!(
        check(&no, &contribution(1, 95), &keys),
        Err(ContributionError::InvalidLigerito)
    );
    assert_eq!(
        check(&yes, &contribution(3, 95), &keys),
        Err(ContributionError::InvalidSignature)
    );
    assert_eq!(
        check(&yes, &contribution(4, 95), &keys),
        Err(ContributionError::IndexMismatch)
    );
    let v = ContributionVerifier::<P, _>::new(&yes, b"ctx");
    let batch =
        [contribution(2, 95), contribution(3, 95), contribution(4, 95), contribution(1, 95)];
    assert_eq!(v.verify_batch(&batch, &keys), vec![0, 3]);

    assert_eq!(conclude(Ok(()), true), Ok(()));
    assert_eq!(conclude(Ok(()), false), Err(ContributionError::InvalidLigerito));
    assert_eq!(
        conclude(Err(ContributionError::InvalidSignature), true),
        Err(ContributionError::InvalidSignature)
    );
    assert_eq!(
        valid_positions(&[Ok(()), Err(ContributionError::IndexMismatch), Ok(())]),
        vec![0, 2]
    );
}

#[test]
fn liveness_bytes_are_refused_when_short() {
    let proof = LivenessProof::new(CheckpointAnchor::new(1, [2; 32], 3), vec![4, 5], [6; 32]);
    let bytes = proof.to_bytes();
    assert_eq!(bytes.len(), 86);
    assert_eq!(proof.byte_size(), 86);
    assert!(LivenessProof::from_bytes(&bytes[..85]).is_err());
    assert!(LivenessProof::from_bytes(&bytes[..10]).is_err());
    let sig = ContributionSignature::<P>::new(point(3), num(4));
    let bytes = sig.to_bytes();
    let again = ContributionSignature::<P>::from_bytes(&bytes).ok().unwrap();
    assert_eq!(again.r, point(3));
    assert_eq!(again.s, num(4));
    assert_eq!(
        ContributionSignature::<P>::from_bytes(&bytes[..63]).err(),
        Some(OsstError::InvalidCommitment)
    );
    let mut off = bytes.clone();
    off[..32].copy_from_slice(&[0xff; 32]);
    assert_eq!(
        ContributionSignature::<P>::from_bytes(&off).err(),
        Some(OsstError::InvalidCommitment)
    );
    let mut wide = bytes;
    wide[32..].copy_from_slice(&[0xff; 32]);
    assert_eq!(
        ContributionSignature::<P>::from_bytes(&wide).err(),
        Some(OsstError::InvalidResponse)
    );
}

/// What aggregation of signature shares refuses.
#[test]
fn signature_aggregation_refuses() {
    let y = point(10);
    let nonces = |i: u32| Nonces::from_scalars(num(20 + i), num(30 + i));
    let commitment = |i: u32| frost::commitments_of::<P>(i, &nonces(i)).unwrap();
    assert_eq!(
        frost::commitments_of::<P>(0, &nonces(0)).err(),
        Some(OsstError::InvalidIndex)
    );
    assert_eq!(
        SigningPackage::<P>::new(vec![], vec![]).err(),
        Some(OsstError::EmptyContributions)
    );
    let package = SigningPackage::new(b"m".to_vec(), vec![commitment(1), commitment(2)]).unwrap();
    let sign = |i: u32| {
        let share = SecretShare::new(i, num(10 + i)).unwrap();
        frost::sign(&package, nonces(i), &share, &y).ok().unwrap()
    };
    let verifiers = BTreeMap::from([(1, point(11)), (2, point(12))]);
    let run = |shares: &[SignatureShare<Scalar>]| {
        frost::aggregate(&package, shares, &y, Some(&verifiers)).map(|s| s.z)
    };
    assert!(run(&[sign(1), sign(2)]).is_ok());
    assert!(run(&[sign(1)]).is_err());
    assert!(run(&[]).is_err());
    let bad = SignatureShare { index: 2, response: num(1) };
    assert!(run(&[sign(1), bad]).is_err());

    // without verification shares, a share of no signer of the package is refused
    // all the same, once there are enough
    let foreign = || SignatureShare { index: 3, response: num(1) };
    let unchecked = |shares: &[SignatureShare<Scalar>]| {
        frost::aggregate(&package, shares, &y, None).map(|s| s.z)
    };
    assert!(unchecked(&[sign(1), sign(2)]).is_ok());
    assert_eq!(unchecked(&[sign(1), foreign()]), Err(OsstError::InvalidIndex));
    assert_eq!(unchecked(&[sign(1), sign(2), foreign()]), Err(OsstError::InvalidIndex));
    assert_eq!(
        unchecked(&[foreign()]),
        Err(OsstError::InsufficientContributions { got: 1, need: 2 })
    );

    // one signer twice adds up to no signature
    let twice = frost::aggregate(&package, &[sign(1), sign(1)], &y, Some(&verifiers));
    assert!(!frost::verify_signature(&y, b"m", &twice.ok().unwrap()));

    // a share that is not in the package, and nonces that are not the committed ones
    let outside = SecretShare::new(3, num(13)).unwrap();
    assert!(frost::sign(&package, nonces(3), &outside, &y).is_err());
    let share = SecretShare::new(1, num(11)).unwrap();
    assert_eq!(
        frost::sign(&package, nonces(2), &share, &y).err(),
        Some(OsstError::UnexpectedCommitment)
    );
}

/// The three values of an outer context are checked against the local ones.
#[test]
fn a_supplied_context_must_be_the_local_one() {
    let y = point(10);
    let nonces = |i: u32| Nonces::from_scalars(num(20 + i), num(30 + i));
    let commitment = |i: u32| frost::commitments_of::<P>(i, &nonces(i)).unwrap();
    let package = SigningPackage::new(b"m".to_vec(), vec![commitment(1), commitment(2)]).unwrap();
    let local = InnerSigningParamsV2::from_outer(&package, &y, 2).ok().unwrap();
    assert_eq!(*local.outer_lambda(), -num(1));
    let check = |b: Scalar, c: Scalar, l: Scalar| {
        InnerSigningParamsV2::from_coordinator_checked(&b, &c, &l, &package, &y, 2)
            .map(|p| *p.outer_challenge())
    };
    let (b, c, l) = (*local.outer_binding(), *local.outer_challenge(), *local.outer_lambda());
    assert_eq!(check(b, c, l), Ok(c));
    for (b, c, l) in [(b + num(1), c, l), (b, c + num(1), l), (b, c, l + num(1))] {
        assert_eq!(check(b, c, l), Err(OsstError::ChallengeMismatch));
    }
    assert_eq!(
        InnerSigningParamsV2::from_outer(&package, &y, 3).err(),
        Some(OsstError::InvalidIndex)
    );
}

/// A holder's part of the nested position: its share of the polynomial there, and
/// the pieces that the other participants gave it.
#[test]
fn a_holder_combines_its_parts() {
    // the holder's shares of the coefficients of 3 + 4x + 5x^2
    let inner = InnerShare { holder_index: 1, coefficient_shares: vec![num(3), num(4), num(5)] };
    assert_eq!(inner.eval_at(2), num(31));
    let pieces = [(1, num(100)), (4, num(1000))];
    assert_eq!(nested::combine_shares(&inner, 2, &pieces), num(1131));
    assert_eq!(nested::combine_shares(&inner, 2, &[]), num(31));
}

/// Every verification share is the joint commitment at its player.
#[test]
fn all_verification_shares() {
    let mut rng = OsRng;
    let mut state = DkgState::<P>::new(1, 2, 3);
    for i in 1..=3u32 {
        let d = dkg::Dealer::<P>::from_polynomial(i, vec![num(i), num(10 * i)]).unwrap();
        assert_eq!(state.submit_commitment(d.round1_package(1, &mut rng)), Ok(true));
    }
    // 6 + 60x
    let all = state.derive_all_verification_shares().unwrap();
    assert_eq!(all, BTreeMap::from([(1, point(66)), (2, point(126)), (3, point(186))]));
}

/// A signature for a context is one on the context's bytes.
#[test]
fn a_signer_signs_for_its_context_alone() {
    let y = point(10);
    let ctx = SigningContext::new(3, [4; 32], b"pay");
    let nonces = || Nonces::from_scalars(num(21), num(31));
    let c = frost::commitments_of::<P>(1, &nonces()).unwrap();
    let share = SecretShare::new(1, num(10)).unwrap();
    let package = SigningPackage::new(ctx.encode(), vec![c]).unwrap();
    let partial = frost::sign_with_context(&ctx, &package, nonces(), &share, &y).ok().unwrap();
    let sig = frost::aggregate(&package, &[partial], &y, None).ok().unwrap();
    assert!(frost::verify_signature(&y, &ctx.encode(), &sig));
    let bare = SigningPackage::new(b"pay".to_vec(), vec![c]).unwrap();
    assert_eq!(
        frost::sign_with_context(&ctx, &bare, nonces(), &share, &y).err(),
        Some(OsstError::MessageMismatch)
    );
}

/// Bytes that are read are the encoding of what was read, and other bytes are not.
#[test]
fn what_is_read_has_one_encoding() {
    let mut share = [0u8; 36];
    share[..4].copy_from_slice(&258u32.to_le_bytes());
    share[4..].copy_from_slice(&num(77).to_bytes());
    let read = SignatureShare::<Scalar>::from_bytes(&share).ok().unwrap();
    assert_eq!((read.index, read.response), (258, num(77)));
    assert_eq!(read.to_bytes(), share);

    let mut bytes = OsstPoint::compress(&point(5)).to_vec();
    bytes.extend_from_slice(&num(9).to_bytes());
    let signature = frost::Signature::<P>::from_bytes(&bytes).ok().unwrap();
    assert_eq!((signature.r, signature.z), (point(5), num(9)));
    assert_eq!(signature.to_bytes(), bytes);

    // the order of the group added to a response
    let order: [u8; 32] = [
        0xed, 0xd3, 0xf5, 0x5c, 0x1a, 0x63, 0x12, 0x58, 0xd6, 0x9c, 0xf7, 0xa2, 0xde, 0xf9, 0xde,
        0x14, 0, 0, 0, 0, 0, 0, 0, 0, 0, 0, 0, 0, 0, 0, 0, 0x10,
    ];
    share[4..].copy_from_slice(&order);
    assert_eq!(SignatureShare::<Scalar>::from_bytes(&share).err(), Some(OsstError::InvalidResponse));
    bytes[32..].copy_from_slice(&order);
    assert_eq!(frost::Signature::<P>::from_bytes(&bytes).err(), Some(OsstError::InvalidResponse));
}

/// Any threshold of players recovers the group secret, from shares that each took in
/// its own order.
#[test]
fn every_threshold_of_players_recovers_the_secret() {
    let dealers: Vec<_> = (1..=3u32)
        .map(|i| dkg::Dealer::<P>::from_polynomial(i, vec![num(i), num(7 * i)]).unwrap())
        .collect();
    let share = |j: u32| {
        let mut agg = dkg::Aggregator::<P>::new(j, &[1, 2, 3]).ok().unwrap();
        for k in 0..3 {
            let d = &dealers[(k + j as usize) % 3];
            let sub = d.generate_subshare(j).ok().unwrap();
            assert_eq!(agg.add_subshare(sub, d.commitment()), Ok(true));
        }
        assert_eq!(agg.derive_group_key().unwrap(), point(6));
        agg.finalize().ok().unwrap()
    };
    for players in [[1u32, 2], [1, 3], [4, 2]] {
        let l = compute_lagrange_coefficients::<Scalar>(&players).unwrap();
        assert_eq!(l[0] * share(players[0]) + l[1] * share(players[1]), num(6));
    }
}
