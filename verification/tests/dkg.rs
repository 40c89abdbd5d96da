//! Distributed key generation over ristretto255.
use curve25519_dalek::ristretto::RistrettoPoint;
use curve25519_dalek::scalar::Scalar;
use frostito::dkg::{
    Aggregator, Complaint, ComplaintEvidence, ComplaintVerdict, Dealer, DkgState,
};
use frostito::frost;
use frostito::reshare::{DealerCommitment, SubShare};
use frostito::{OsstError, OsstPoint, SecretShare};
use rand::rngs::OsRng;

/// Whether these shares sign a payload under the group key.
fn signs(group_key: &RistrettoPoint, signers: &[&SecretShare<Scalar>], payload: &[u8]) -> bool {
    let mut rng = OsRng;
    let mut nonces = Vec::new();
    let mut commitments = Vec::new();
    for s in signers {
        let (n, c) = frost::commit::<RistrettoPoint>(s.index, &mut rng).unwrap();
        nonces.push(n);
        commitments.push(c);
    }
    let package = frost::SigningPackage::new(payload.to_vec(), commitments).unwrap();
    let mut shares = Vec::new();
    for (s, n) in signers.iter().zip(nonces) {
        shares.push(frost::sign::<RistrettoPoint>(&package, n, s, group_key).unwrap());
    }
    let signature = frost::aggregate::<RistrettoPoint>(&package, &shares, group_key, None).unwrap();
    frost::verify_signature(group_key, payload, &signature)
}

const CSESSION: [u8; 32] = [0x5Au8; 32];

/// A forged proof of knowledge is fully transferable evidence: a third
/// party with the roster and nothing else reaches the same verdict.
#[test]
fn a_forged_proof_of_knowledge_is_publicly_adjudicable() {
    let mut rng = OsRng;
    let epoch = 3u64;
    let honest: Dealer<RistrettoPoint> = Dealer::new(2, 2, &mut rng).unwrap();

    // dealer 2 publishes a commitment with someone else's proof attached
    let other: Dealer<RistrettoPoint> = Dealer::new(2, 2, &mut rng).unwrap();
    let mut forged = honest.round1_package(epoch, &mut rng);
    forged.proof_of_knowledge = other.round1_package(epoch, &mut rng).proof_of_knowledge;
    assert!(forged.verify(epoch).is_err());

    let accuser_secret = Scalar::random(&mut rng);
    let accuser_pk: RistrettoPoint =
        <RistrettoPoint as OsstPoint>::generator().mul_scalar(&accuser_secret);

    let complaint = Complaint::<RistrettoPoint>::sign(
        epoch,
        CSESSION,
        1,
        1,
        ComplaintEvidence::ForgedProofOfKnowledge { package: forged },
        &accuser_secret,
        &mut rng,
    )
    .unwrap();

    assert_eq!(complaint.accused_index, 2);
    assert_eq!(
        complaint.verify(epoch, &CSESSION, &accuser_pk).unwrap(),
        ComplaintVerdict::Upheld
    );

    // a complaint against an honest package is authentic but unfounded
    let unfounded = Complaint::<RistrettoPoint>::sign(
        epoch,
        CSESSION,
        1,
        1,
        ComplaintEvidence::ForgedProofOfKnowledge {
            package: honest.round1_package(epoch, &mut rng),
        },
        &accuser_secret,
        &mut rng,
    )
    .unwrap();
    assert_eq!(
        unfounded.verify(epoch, &CSESSION, &accuser_pk).unwrap(),
        ComplaintVerdict::Unfounded,
        "the accuser, not the accused, is the problem here"
    );
}

/// A bad sub-share is checkable against the commitment by anyone; the
/// complaint is bound to the accuser and to one ceremony.
#[test]
fn a_bad_subshare_complaint_is_bound_and_signed() {
    let mut rng = OsRng;
    let epoch = 11u64;
    let dealer: Dealer<RistrettoPoint> = Dealer::new(2, 2, &mut rng).unwrap();
    let commitment = dealer.commitment().clone();

    let accuser_secret = Scalar::random(&mut rng);
    let accuser_pk: RistrettoPoint =
        <RistrettoPoint as OsstPoint>::generator().mul_scalar(&accuser_secret);

    // a share that is not f_2(1)
    let bogus = SubShare::new(2, 1, Scalar::random(&mut rng)).unwrap();
    let complaint = Complaint::<RistrettoPoint>::sign(
        epoch,
        CSESSION,
        2,
        1,
        ComplaintEvidence::BadSubShare {
            commitment: commitment.clone(),
            revealed: bogus,
            sealed_digest: [9u8; 32],
        },
        &accuser_secret,
        &mut rng,
    )
    .unwrap();
    assert_eq!(
        complaint.verify(epoch, &CSESSION, &accuser_pk).unwrap(),
        ComplaintVerdict::Upheld
    );

    // the real share is a correct evaluation: unfounded
    let good = dealer.generate_subshare(1).unwrap();
    let honest_claim = Complaint::<RistrettoPoint>::sign(
        epoch,
        CSESSION,
        2,
        1,
        ComplaintEvidence::BadSubShare {
            commitment,
            revealed: good,
            sealed_digest: [9u8; 32],
        },
        &accuser_secret,
        &mut rng,
    )
    .unwrap();
    assert_eq!(
        honest_claim.verify(epoch, &CSESSION, &accuser_pk).unwrap(),
        ComplaintVerdict::Unfounded
    );

    // wrong ceremony, wrong session, wrong key: all rejected outright
    assert_eq!(
        complaint.verify(epoch + 1, &CSESSION, &accuser_pk),
        Err(OsstError::InvalidComplaint)
    );
    assert_eq!(
        complaint.verify(epoch, &[0u8; 32], &accuser_pk),
        Err(OsstError::InvalidComplaint)
    );
    let impostor: RistrettoPoint =
        <RistrettoPoint as OsstPoint>::generator().mul_scalar(&Scalar::random(&mut rng));
    assert_eq!(
        complaint.verify(epoch, &CSESSION, &impostor),
        Err(OsstError::InvalidComplaint)
    );
}

/// The evidence fixes who is accused: a complaint cannot name one dealer
/// and carry another's package, and tampering with the body breaks the
/// signature.
#[test]
fn a_complaint_cannot_be_relabelled() {
    let mut rng = OsRng;
    let epoch = 2u64;
    let dealer: Dealer<RistrettoPoint> = Dealer::new(2, 2, &mut rng).unwrap();
    let accuser_secret = Scalar::random(&mut rng);
    let accuser_pk: RistrettoPoint =
        <RistrettoPoint as OsstPoint>::generator().mul_scalar(&accuser_secret);

    let mut complaint = Complaint::<RistrettoPoint>::sign(
        epoch,
        CSESSION,
        2,
        1,
        ComplaintEvidence::BadSubShare {
            commitment: dealer.commitment().clone(),
            revealed: SubShare::new(2, 1, Scalar::random(&mut rng)).unwrap(),
            sealed_digest: [0u8; 32],
        },
        &accuser_secret,
        &mut rng,
    )
    .unwrap();

    complaint.accused_index = 3;
    assert_eq!(
        complaint.verify(epoch, &CSESSION, &accuser_pk),
        Err(OsstError::InvalidComplaint),
        "the named dealer must agree with the evidence"
    );

    complaint.accused_index = 2;
    complaint.accuser_index = 9;
    assert_eq!(
        complaint.verify(epoch, &CSESSION, &accuser_pk),
        Err(OsstError::InvalidComplaint),
        "the accuser is inside the signed body"
    );
}

/// Two honest participants that saw the same round-1 set agree, and the
/// digest is order-independent and ceremony-bound.
#[test]
fn honest_participants_echo_the_same_round1_digest() {
    let mut rng = OsRng;
    let (n, t, epoch) = (4u32, 3u32, 77u64);
    let dealers: Vec<Dealer<RistrettoPoint>> = (1..=n)
        .map(|i| Dealer::new(i, t, &mut rng).unwrap())
        .collect();
    let packages: Vec<_> = dealers
        .iter()
        .map(|d| d.round1_package(epoch, &mut rng))
        .collect();

    // alice receives them in order, bob in reverse
    let mut alice = DkgState::<RistrettoPoint>::new(epoch, t, n);
    let mut bob = DkgState::<RistrettoPoint>::new(epoch, t, n);
    for p in &packages {
        alice.submit_commitment(p.clone()).unwrap();
    }
    for p in packages.iter().rev() {
        bob.submit_commitment(p.clone()).unwrap();
    }

    let a = alice.agreed_round1().unwrap();
    let b = bob.agreed_round1().unwrap();
    assert_eq!(a.digest(), b.digest(), "delivery order must not matter");
    a.confirm(&b.digest()).unwrap();
    a.confirm_all(&[a.digest(), b.digest()], 2).unwrap();
    assert_eq!(a.dealer_set(), (1..=n).collect::<Vec<_>>());

    // the same commitments under a different epoch are a different set
    let mut other_epoch = DkgState::<RistrettoPoint>::new(epoch + 1, t, n);
    for d in &dealers {
        other_epoch
            .submit_commitment(d.round1_package(epoch + 1, &mut rng))
            .unwrap();
    }
    assert_ne!(
        a.digest(),
        other_epoch.agreed_round1().unwrap().digest(),
        "the digest must bind the ceremony, not just the commitments"
    );
}

/// a dealer that commits to one polynomial toward
/// Alice and another toward Bob splits the group, and nothing in the
/// point-to-point protocol notices — each pair is internally consistent
/// and passes its Feldman check and its D-2 commitment-digest check. The
/// echo round is what catches it.
#[test]
fn an_equivocating_dealer_is_caught_by_the_echo_round() {
    let mut rng = OsRng;
    let (n, t, epoch) = (3u32, 2u32, 9u64);

    // dealers 2 and 3 are honest
    let honest: Vec<Dealer<RistrettoPoint>> = (2..=n)
        .map(|i| Dealer::new(i, t, &mut rng).unwrap())
        .collect();
    let honest_packages: Vec<_> = honest
        .iter()
        .map(|d| d.round1_package(epoch, &mut rng))
        .collect();

    // dealer 1 runs two polynomials and shows a different one to each peer
    let evil_a: Dealer<RistrettoPoint> = Dealer::new(1, t, &mut rng).unwrap();
    let evil_b: Dealer<RistrettoPoint> = Dealer::new(1, t, &mut rng).unwrap();
    let pkg_a = evil_a.round1_package(epoch, &mut rng);
    let pkg_b = evil_b.round1_package(epoch, &mut rng);
    assert_ne!(pkg_a.commitment.to_bytes(), pkg_b.commitment.to_bytes());

    // both packages are perfectly valid in isolation: the proof of
    // knowledge verifies for each, so K-1 does not see this
    pkg_a.verify(epoch).unwrap();
    pkg_b.verify(epoch).unwrap();

    let mut alice = DkgState::<RistrettoPoint>::new(epoch, t, n);
    let mut bob = DkgState::<RistrettoPoint>::new(epoch, t, n);
    alice.submit_commitment(pkg_a).unwrap();
    bob.submit_commitment(pkg_b).unwrap();
    for p in &honest_packages {
        alice.submit_commitment(p.clone()).unwrap();
        bob.submit_commitment(p.clone()).unwrap();
    }

    // each derives a group key, and they are different — this is the split
    let a = alice.agreed_round1().unwrap();
    let b = bob.agreed_round1().unwrap();
    assert_ne!(
        alice.derive_group_key().unwrap(),
        bob.derive_group_key().unwrap(),
        "the equivocation really does split the group key"
    );

    // and the echo round refuses to enter round 2
    assert_eq!(a.confirm(&b.digest()), Err(OsstError::EchoMismatch));
    assert_eq!(b.confirm(&a.digest()), Err(OsstError::EchoMismatch));
    assert_eq!(
        a.confirm_all(&[a.digest(), b.digest()], 2),
        Err(OsstError::EchoMismatch)
    );
}

/// Echoing a partial set agrees on nothing: a participant that has not yet
/// received a commitment would echo a different digest for an entirely
/// honest reason, so the digest is refused until round 1 closes.
#[test]
fn a_partial_round1_set_has_no_echo_digest() {
    let mut rng = OsRng;
    let (n, t, epoch) = (3u32, 2u32, 1u64);
    let mut st = DkgState::<RistrettoPoint>::new(epoch, t, n);
    let d: Dealer<RistrettoPoint> = Dealer::new(1, t, &mut rng).unwrap();
    st.submit_commitment(d.round1_package(epoch, &mut rng)).unwrap();
    assert_eq!(
        st.agreed_round1().err().unwrap(),
        OsstError::InsufficientContributions { got: 1, need: 3 }
    );
}

/// The agreed set is where round 2 looks up a dealer's commitment, so the
/// aggregator's dealer set comes from it rather than from a convention.
#[test]
fn the_agreed_set_drives_the_aggregator_and_the_lookup() {
    let mut rng = OsRng;
    let (n, t, epoch) = (3u32, 2u32, 5u64);
    let dealers: Vec<Dealer<RistrettoPoint>> = (1..=n)
        .map(|i| Dealer::new(i, t, &mut rng).unwrap())
        .collect();
    let mut st = DkgState::<RistrettoPoint>::new(epoch, t, n);
    for d in &dealers {
        st.submit_commitment(d.round1_package(epoch, &mut rng)).unwrap();
    }
    let agreed = st.agreed_round1().unwrap();

    let mut agg = Aggregator::<RistrettoPoint>::from_agreed(2, &agreed).unwrap();
    assert_eq!(agg.dealer_set(), &[1, 2, 3]);
    for d in &dealers {
        let sub = d.generate_subshare(2).unwrap();
        let c = agreed.commitment(d.index()).unwrap();
        assert!(agg.add_subshare(sub, c).unwrap());
    }
    assert!(agg.is_complete());
    assert_eq!(agg.derive_group_key().unwrap(), st.derive_group_key().unwrap());

    assert_eq!(
        agreed.commitment(9).err().unwrap(),
        OsstError::UnexpectedDealer(9)
    );
}

#[test]
fn test_basic_dkg() {
    let mut rng = OsRng;
    let n = 5u32;
    let t = 3u32;

    // phase 1: each participant creates a dealer
    let dealers: Vec<Dealer<RistrettoPoint>> =
        (1..=n).map(|i| Dealer::new(i, t, &mut rng).expect("index is 1-indexed by construction")).collect();

    // phase 2: collect commitments
    let commitments: Vec<&DealerCommitment<RistrettoPoint>> =
        dealers.iter().map(|d| d.commitment()).collect();

    // phase 3: each player collects sub-shares from all dealers
    let mut shares = Vec::new();
    for j in 1..=n {
        let mut agg: Aggregator<RistrettoPoint> = Aggregator::all_dealers(j, n).unwrap();
        for dealer in &dealers {
            let subshare = dealer.generate_subshare(j).expect("index is 1-indexed by construction");
            agg.add_subshare(subshare, commitments[(dealer.index() - 1) as usize])
                .unwrap();
        }
        let share = agg.finalize().unwrap();
        let group_key = agg.derive_group_key().unwrap();
        shares.push((share, group_key));
    }

    // all players should derive the same group key
    let group_key = shares[0].1;
    for (_, gk) in &shares {
        assert_eq!(*gk, group_key);
    }

    // t shares sign under the group key
    let secret_shares: Vec<SecretShare<Scalar>> = shares
        .iter()
        .enumerate()
        .map(|(i, (s, _))| SecretShare::new((i + 1) as u32, *s).expect("index is 1-indexed by construction"))
        .collect();

    let payload = b"dkg test verification";
    let signers: Vec<&SecretShare<Scalar>> = secret_shares[0..t as usize].iter().collect();

    assert!(
        signs(&group_key, &signers, payload),
        "signing with DKG shares should succeed"
    );
}

#[test]
fn test_dkg_state() {
    let mut rng = OsRng;
    let n = 5u32;
    let t = 3u32;

    let dealers: Vec<Dealer<RistrettoPoint>> =
        (1..=n).map(|i| Dealer::new(i, t, &mut rng).expect("index is 1-indexed by construction")).collect();

    let mut state: DkgState<RistrettoPoint> = DkgState::new(1, t, n);

    assert!(!state.is_complete());

    for dealer in &dealers {
        state
            .submit_commitment(dealer.round1_package(1, &mut rng))
            .unwrap();
    }

    assert!(state.is_complete());
    assert_eq!(state.commitment_count(), n as usize);

    // derive group key from state
    let state_key = state.derive_group_key().unwrap();

    // derive group key from aggregator
    let mut agg: Aggregator<RistrettoPoint> = Aggregator::all_dealers(1, n).unwrap();
    for dealer in &dealers {
        let subshare = dealer.generate_subshare(1).expect("index is 1-indexed by construction");
        agg.add_subshare(subshare, dealer.commitment()).unwrap();
    }
    let agg_key = agg.derive_group_key().unwrap();

    assert_eq!(state_key, agg_key);
}

#[test]
fn test_dkg_bad_subshare_rejected() {
    let mut rng = OsRng;
    let n = 3u32;
    let t = 2u32;

    let dealers: Vec<Dealer<RistrettoPoint>> =
        (1..=n).map(|i| Dealer::new(i, t, &mut rng).expect("index is 1-indexed by construction")).collect();

    let mut agg: Aggregator<RistrettoPoint> = Aggregator::all_dealers(1, n).unwrap();

    // good sub-share
    let subshare = dealers[0].generate_subshare(1).expect("index is 1-indexed by construction");
    assert!(agg.add_subshare(subshare, dealers[0].commitment()).is_ok());

    // tampered sub-share (wrong value)
    let bad = SubShare::new(2, 1, Scalar::random(&mut rng)).expect("index is 1-indexed by construction");
    let result = agg.add_subshare(bad, dealers[1].commitment());
    assert!(matches!(result, Err(OsstError::InvalidSubShare(_))));
}

#[test]
fn test_dkg_duplicate_rejected() {
    let mut rng = OsRng;
    let dealer: Dealer<RistrettoPoint> = Dealer::new(1, 2, &mut rng).expect("index is 1-indexed by construction");

    let mut agg: Aggregator<RistrettoPoint> = Aggregator::new(1, &[1]).unwrap();
    let subshare = dealer.generate_subshare(1).expect("index is 1-indexed by construction");
    assert!(agg.add_subshare(subshare, dealer.commitment()).unwrap());

    let subshare2 = dealer.generate_subshare(1).expect("index is 1-indexed by construction");
    assert!(!agg.add_subshare(subshare2, dealer.commitment()).unwrap());
}

#[test]
fn test_dkg_non_consecutive_subset_verifies() {
    let mut rng = OsRng;
    let n = 7u32;
    let t = 4u32;

    let dealers: Vec<Dealer<RistrettoPoint>> =
        (1..=n).map(|i| Dealer::new(i, t, &mut rng).expect("index is 1-indexed by construction")).collect();

    let commitments: Vec<&DealerCommitment<RistrettoPoint>> =
        dealers.iter().map(|d| d.commitment()).collect();

    // collect shares for all players
    let mut secret_shares = Vec::new();
    let mut group_key = None;
    for j in 1..=n {
        let mut agg: Aggregator<RistrettoPoint> = Aggregator::all_dealers(j, n).unwrap();
        for dealer in &dealers {
            let subshare = dealer.generate_subshare(j).expect("index is 1-indexed by construction");
            agg.add_subshare(subshare, commitments[(dealer.index() - 1) as usize])
                .unwrap();
        }
        if group_key.is_none() {
            group_key = Some(agg.derive_group_key().unwrap());
        }
        secret_shares.push(SecretShare::new(j, agg.finalize().unwrap()).expect("index is 1-indexed by construction"));
    }

    let group_key = group_key.unwrap();
    let payload = b"non-consecutive subset test";

    // use shares 1, 3, 5, 7 (non-consecutive, at threshold)
    let signers: Vec<&SecretShare<Scalar>> = [0, 2, 4, 6].iter().map(|&i: &usize| &secret_shares[i]).collect();

    assert!(signs(&group_key, &signers, payload));
}
/// Key generation over a subset: the dealer set must be agreed. A node
/// that sums one dealer more than its peers gets a different key.
#[test]
fn test_dkg_subset_dealer_set_enforced() {
    let mut rng = OsRng;
    let n = 5u32;
    let t = 3u32;
    let dealers: Vec<Dealer<RistrettoPoint>> =
        (1..=n).map(|i| Dealer::new(i, t, &mut rng).expect("index is 1-indexed by construction")).collect();

    let set = [1u32, 3, 4];
    let mut agg: Aggregator<RistrettoPoint> = Aggregator::new(2, &set).unwrap();
    // dealer 5 committed too, but is not in the agreed set
    assert_eq!(
        agg.add_subshare(dealers[4].generate_subshare(2).expect("index is 1-indexed by construction"), dealers[4].commitment()),
        Err(OsstError::UnexpectedDealer(5))
    );
    for &i in &set {
        let d = &dealers[(i - 1) as usize];
        agg.add_subshare(d.generate_subshare(2).expect("index is 1-indexed by construction"), d.commitment()).unwrap();
    }
    assert!(agg.is_complete());

    // Group key is the sum over exactly the set
    let mut expected = RistrettoPoint::identity();
    for &i in &set {
        expected = expected.add(dealers[(i - 1) as usize].commitment().share_commitment());
    }
    assert_eq!(agg.derive_group_key().unwrap(), expected);

    // An incomplete aggregator refuses to finalize
    let mut partial: Aggregator<RistrettoPoint> = Aggregator::new(2, &set).unwrap();
    partial
        .add_subshare(dealers[0].generate_subshare(2).expect("index is 1-indexed by construction"), dealers[0].commitment())
        .unwrap();
    assert_eq!(partial.missing_dealers(), vec![3, 4]);
    assert!(matches!(
            partial.finalize(),
            Err(OsstError::InsufficientContributions { got: 1, need: 3 })
        ));
}

#[test]
fn pok_verifies_for_an_honest_dealer() {
    let mut rng = OsRng;
    let dealer: Dealer<RistrettoPoint> = Dealer::new(2, 3, &mut rng).expect("index is 1-indexed by construction");
    let pkg = dealer.round1_package(7, &mut rng);
    assert!(pkg.verify(7).is_ok());
}

#[test]
fn pok_is_bound_to_the_dealer_index_the_epoch_and_the_commitment() {
    let mut rng = OsRng;
    let dealer: Dealer<RistrettoPoint> = Dealer::new(2, 3, &mut rng).expect("index is 1-indexed by construction");
    let pkg = dealer.round1_package(7, &mut rng);

    // another epoch
    assert_eq!(pkg.verify(8), Err(OsstError::InvalidProofOfKnowledge(2)));

    // another dealer index: replaying dealer 2's proof as dealer 3
    let mut stolen = pkg.clone();
    stolen.commitment.dealer_index = 3;
    assert_eq!(stolen.verify(7), Err(OsstError::InvalidProofOfKnowledge(3)));

    // another constant term: the rogue-key shape. The attacker publishes a
    // C_0 it did not choose and cannot prove knowledge of.
    let other: Dealer<RistrettoPoint> = Dealer::new(2, 3, &mut rng).expect("index is 1-indexed by construction");
    let mut rogue = pkg.clone();
    rogue.commitment = other.commitment().clone();
    assert_eq!(rogue.verify(7), Err(OsstError::InvalidProofOfKnowledge(2)));
}

#[test]
fn dkg_state_rejects_a_dealer_that_cannot_prove_knowledge() {
    let mut rng = OsRng;
    let honest: Dealer<RistrettoPoint> = Dealer::new(1, 2, &mut rng).expect("index is 1-indexed by construction");
    let other: Dealer<RistrettoPoint> = Dealer::new(2, 2, &mut rng).expect("index is 1-indexed by construction");

    let mut state: DkgState<RistrettoPoint> = DkgState::new(1, 2, 3);

    // dealer 2 publishes dealer-1-style proof over someone else's C_0
    let mut forged = other.round1_package(1, &mut rng);
    forged.commitment = honest.commitment().clone();
    forged.commitment.dealer_index = 2;
    assert_eq!(
        state.submit_commitment(forged),
        Err(OsstError::InvalidProofOfKnowledge(2))
    );
    assert_eq!(state.commitment_count(), 0, "nothing was recorded");

    // and the honest package is accepted
    assert!(state
            .submit_commitment(honest.round1_package(1, &mut rng))
            .unwrap());
}

#[test]
fn a_complaint_disqualifies_a_dealer_and_moves_the_group_key() {
    let mut rng = OsRng;
    let n = 3u32;
    let t = 2u32;
    let dealers: Vec<Dealer<RistrettoPoint>> =
        (1..=n).map(|i| Dealer::new(i, t, &mut rng).expect("index is 1-indexed by construction")).collect();

    let mut state: DkgState<RistrettoPoint> = DkgState::new(9, t, n);
    for d in &dealers {
        state.submit_commitment(d.round1_package(9, &mut rng)).unwrap();
    }
    let key_all = state.derive_group_key().unwrap();

    // Player 1 finds dealer 3's sub-share invalid. The error names the
    // dealer: that is the complaint.
    let mut agg: Aggregator<RistrettoPoint> = Aggregator::all_dealers(1, n).unwrap();
    let bad = SubShare::new(3, 1, Scalar::random(&mut rng)).expect("index is 1-indexed by construction");
    assert_eq!(
        agg.add_subshare(bad, dealers[2].commitment()),
        Err(OsstError::InvalidSubShare(3))
    );

    // Everyone applies it.
    state.disqualify(3).unwrap();
    assert_eq!(state.disqualified(), &[3]);
    assert_eq!(state.qualified_dealers(), vec![1, 2]);
    assert!(state.is_complete(), "complete over the surviving dealers");

    let key_qualified = state.derive_group_key().unwrap();
    assert_ne!(key_all, key_qualified);
    assert_eq!(
        key_qualified,
        dealers[0]
            .commitment()
            .share_commitment()
            .add(dealers[1].commitment().share_commitment())
    );

    // A disqualified dealer cannot re-enter.
    assert_eq!(
        state.submit_commitment(dealers[2].round1_package(9, &mut rng)),
        Err(OsstError::UnexpectedDealer(3))
    );
}

#[test]
fn disqualifying_below_threshold_aborts_the_ceremony() {
    let mut rng = OsRng;
    let dealers: Vec<Dealer<RistrettoPoint>> =
        (1..=3).map(|i| Dealer::new(i, 3, &mut rng).expect("index is 1-indexed by construction")).collect();
    let mut state: DkgState<RistrettoPoint> = DkgState::new(1, 3, 3);
    for d in &dealers {
        state.submit_commitment(d.round1_package(1, &mut rng)).unwrap();
    }
    assert_eq!(
        state.disqualify(2),
        Err(OsstError::DkgAborted {
                qualified: 2,
                need: 3
            })
    );
}

/// The digest of round 1 binds the threshold and the number of participants, as it
/// does the epoch and the commitments.
#[test]
fn the_echo_digest_binds_the_whole_of_round1() {
    let mut rng = OsRng;
    let digest = |epoch: u64, t: u32, dealers: &[&Dealer<RistrettoPoint>]| {
        let mut st = DkgState::<RistrettoPoint>::new(epoch, t, dealers.len() as u32);
        for d in dealers {
            st.submit_commitment(d.round1_package(epoch, &mut OsRng)).unwrap();
        }
        st.agreed_round1().unwrap().digest()
    };
    let deal = |i: u32, t: u32, rng: &mut OsRng| Dealer::<RistrettoPoint>::new(i, t, rng).unwrap();
    let (a, b, c) = (deal(1, 2, &mut rng), deal(2, 2, &mut rng), deal(3, 2, &mut rng));
    let (x, y) = (deal(1, 1, &mut rng), deal(2, 1, &mut rng));
    let base = digest(5, 2, &[&a, &b]);
    assert_eq!(base, digest(5, 2, &[&b, &a]));
    assert_ne!(base, digest(6, 2, &[&a, &b]));
    assert_ne!(base, digest(5, 2, &[&a, &b, &c]));
    assert_ne!(base, digest(5, 1, &[&x, &y]));
    assert_ne!(base, digest(5, 2, &[&a, &deal(2, 2, &mut rng)]));
}
