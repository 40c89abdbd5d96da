//! Sealed delivery of sub-shares.
use curve25519_dalek::ristretto::RistrettoPoint;
use curve25519_dalek::scalar::Scalar;
use frostito::dkg::{
    commitment_digest, Complaint, ComplaintEvidence, ComplaintTally, ComplaintVerdict, Dealer, DkgState,
};
use frostito::reshare::SubShare;
use frostito::sealed::{
    open_subshare, open_subshare_agreed, open_subshare_agreed_with_evidence, seal_round2,
    seal_subshare, sealed_ciphertext_digest, x25519_public_from_seed, x25519_secret_from_seed,
    OpenFailure, SealedRoster, SealedSubShare,
};
use frostito::{compute_lagrange_coefficients, CurvePoint, CurveScalar, Error};
use rand::rngs::OsRng;

type Point = RistrettoPoint;

const SEED_1: [u8; 32] = [7u8; 32];
const SEED_2: [u8; 32] = [9u8; 32];
const SEED_3: [u8; 32] = [11u8; 32];
const SESSION: [u8; 32] = [0x33u8; 32];
const ROUND: u8 = 2;

fn roster(session: [u8; 32]) -> SealedRoster {
    SealedRoster::new(
        &[
            (1, x25519_public_from_seed(&SEED_1)),
            (2, x25519_public_from_seed(&SEED_2)),
            (3, x25519_public_from_seed(&SEED_3)),
        ],
        session,
    )
    .unwrap()
}

#[test]
fn the_x25519_key_is_not_the_identity_seed() {
    assert_ne!(x25519_secret_from_seed(&SEED_1), SEED_1);
}

#[test]
fn the_roster_is_order_independent_and_unambiguous() {
    let a = (1u32, [1u8; 32]);
    let b = (2u32, [2u8; 32]);
    assert_eq!(
        SealedRoster::new(&[a, b], SESSION).unwrap().transcript(),
        SealedRoster::new(&[b, a], SESSION).unwrap().transcript()
    );
    assert_eq!(
        SealedRoster::new(&[a, a], SESSION),
        Err(Error::DuplicateIndex(1))
    );
    assert_eq!(
        SealedRoster::new(&[(0u32, [0u8; 32])], SESSION),
        Err(Error::InvalidIndex)
    );
    assert_eq!(SealedRoster::new(&[], SESSION), Err(Error::EmptyContributions));
}

/// The property the module exists for: the secret scalar is not on
/// the wire, and the round trip still works.
#[test]
fn a_sealed_subshare_round_trips_and_hides_the_scalar() {
    let mut rng = OsRng;
    let r = roster(SESSION);
    let dealer: Dealer<Point> = Dealer::new(1, 2, &mut rng).expect("index is 1-indexed by construction");
    let subshare = dealer.generate_subshare(2).expect("index is 1-indexed by construction");
    let plaintext = subshare.encode_plaintext();

    let sealed = seal_subshare::<Point>(
        &x25519_secret_from_seed(&SEED_1),
        &r,
        ROUND,
        &subshare,
        dealer.commitment(),
    )
    .unwrap();

    assert!(
        !sealed
            .ciphertext
            .windows(32)
            .any(|w| w == &plaintext[8..40]),
        "the sub-share scalar must not appear on the wire"
    );

    let opened = open_subshare::<Point>(
        &x25519_secret_from_seed(&SEED_2),
        2,
        &r,
        ROUND,
        &sealed,
        dealer.commitment(),
    )
    .unwrap();
    assert_eq!(opened.value(), subshare.value());
    assert_eq!(opened.dealer_index, 1);
    assert_eq!(opened.player_index, 2);
}

/// a recipient that is sent a sub-share which fails the
/// Feldman check keeps the plaintext as evidence, and every other node
/// re-checks it against its own agreed set and reaches the same verdict.
#[test]
fn a_cheating_dealer_leaves_evidence_anyone_can_recheck() {
    let mut rng = OsRng;
    let r = roster(SESSION);
    let (t, n, epoch) = (2u32, 3u32, 8u64);

    let dealers: Vec<Dealer<Point>> = (1..=n)
        .map(|i| Dealer::new(i, t, &mut rng).unwrap())
        .collect();
    let mut st = DkgState::<Point>::new(epoch, t, n);
    for d in &dealers {
        st.submit_commitment(d.round1_package(epoch, &mut rng))
            .unwrap();
    }
    let agreed = st.agreed_round1().unwrap();

    // Dealer 1 broadcast an honest commitment and then sealed a scalar
    // that is not f_1(2). The digest inside the package is the agreed
    // one, so is satisfied and only the Feldman check catches it.
    let junk = SubShare::<Scalar>::new(1, 2, Scalar::random(&mut rng)).unwrap();
    let sealed = seal_subshare::<Point>(
        &x25519_secret_from_seed(&SEED_1),
        &r,
        ROUND,
        &junk,
        dealers[0].commitment(),
    )
    .unwrap();

    // Without evidence recipient 2 has nothing it can repeat to anyone.
    assert_eq!(
        open_subshare_agreed::<Point>(
            &x25519_secret_from_seed(&SEED_2),
            2,
            &r,
            ROUND,
            &sealed,
            &agreed,
        )
        .err().unwrap(),
        Error::InvalidSubShare(1)
    );

    let err = open_subshare_agreed_with_evidence::<Point>(
        &x25519_secret_from_seed(&SEED_2),
        2,
        &r,
        ROUND,
        &sealed,
        &agreed,
    )
    .err().unwrap();
    let evidence = match err {
        OpenFailure::BadSubShare { evidence } => evidence,
        OpenFailure::Local(_) => panic!("a Feldman failure is the accusable case"),
    };
    assert_eq!(evidence.dealer_index, 1);
    assert_eq!(evidence.recipient_index, 2);
    assert_eq!(evidence.session_id, SESSION);
    assert_eq!(evidence.round, ROUND);
    assert_eq!(evidence.subshare, junk.value().to_bytes());
    assert_eq!(
        evidence.agreed_digest,
        commitment_digest(agreed.commitment(1).ok().unwrap())
    );
    assert_eq!(
        evidence.sealed_digest,
        sealed_ciphertext_digest(&sealed.ciphertext)
    );
    assert!(
        evidence.debug_text().contains("[REDACTED]"),
        "the scalar is redacted"
    );

    // Every other participant re-checks it against its own agreed set.
    assert_eq!(evidence.adjudicate::<Point>(&agreed), ComplaintVerdict::Upheld);
    let revealed = <Scalar as CurveScalar>::from_canonical_bytes(&evidence.subshare).unwrap();

    // Recipient 2 signs it; a third party with only the roster and its own
    // agreed set reaches the verdict.
    let accuser_secret = Scalar::random(&mut rng);
    let accuser_pk: Point =
        <Point as CurvePoint>::generator().mul_scalar(&accuser_secret);
    let complaint = Complaint::<Point>::sign(
        epoch,
        SESSION,
        ROUND,
        2,
        ComplaintEvidence::BadSubShare {
            commitment: agreed.commitment(1).ok().unwrap().clone(),
            revealed: SubShare::new(1, 2, revealed).unwrap(),
            sealed_digest: evidence.sealed_digest,
        },
        &accuser_secret,
        &mut rng,
    )
    .unwrap();
    assert_eq!(
        complaint
            .verify(epoch, &SESSION, &accuser_pk)
            .unwrap(),
        ComplaintVerdict::Upheld
    );

    // ...and still does not disqualify dealer 1 on its own.
    let mut tally = ComplaintTally::new(t);
    tally.record(2, 1, ComplaintVerdict::Upheld).unwrap();
    assert!(!tally.reached(1));
    tally.record(3, 1, ComplaintVerdict::Upheld).unwrap();
    assert!(tally.reached(1), "t distinct accusers, and only then");
}

/// `open_subshare` takes the commitment from the caller, whose
/// obvious source is whatever arrived alongside the sub-share — exactly
/// what a malicious dealer controls. Both halves of an equivocation open
/// and verify cleanly through that path; `open_subshare_agreed`, which
/// looks the commitment up in the echoed round-1 set, accepts only the one
/// the group agreed on.
#[test]
fn the_agreed_set_decides_which_commitment_a_subshare_is_checked_against() {
    let mut rng = OsRng;
    let r = roster(SESSION);
    let (t, n, epoch) = (2u32, 3u32, 4u64);

    // dealer 1 equivocates: polynomial A toward recipient 2, B toward 3
    let evil_a: Dealer<Point> = Dealer::new(1, t, &mut rng).unwrap();
    let evil_b: Dealer<Point> = Dealer::new(1, t, &mut rng).unwrap();
    let honest: Vec<Dealer<Point>> = (2..=n)
        .map(|i| Dealer::new(i, t, &mut rng).unwrap())
        .collect();

    let sub_a = evil_a.generate_subshare(2).unwrap();
    let sealed_a = seal_subshare::<Point>(
        &x25519_secret_from_seed(&SEED_1),
        &r,
        ROUND,
        &sub_a,
        evil_a.commitment(),
    )
    .unwrap();

    // the pairing holds for the equivocated half: it opens, its digest
    // matches, and its Feldman check passes. Nothing here is wrong.
    open_subshare::<Point>(
        &x25519_secret_from_seed(&SEED_2),
        2,
        &r,
        ROUND,
        &sealed_a,
        evil_a.commitment(),
    )
    .expect("each pair is internally consistent");

    // recipient 2's agreed round-1 set contains dealer 1's OTHER
    // commitment, because that is what was broadcast and echoed
    let mut st = DkgState::<Point>::new(epoch, t, n);
    st.submit_commitment(evil_b.round1_package(epoch, &mut rng))
        .unwrap();
    for d in &honest {
        st.submit_commitment(d.round1_package(epoch, &mut rng))
            .unwrap();
    }
    let agreed = st.agreed_round1().unwrap();

    assert_eq!(
        open_subshare_agreed::<Point>(
            &x25519_secret_from_seed(&SEED_2),
            2,
            &r,
            ROUND,
            &sealed_a,
            &agreed,
        )
        .err().unwrap(),
        Error::InvalidSubShare(1),
        "a sub-share against a commitment outside the agreed set is refused"
    );

    // a dealer with no commitment in the agreed set at all is named as such
    let stranger: Dealer<Point> = Dealer::new(3, t, &mut rng).unwrap();
    let sub_s = stranger.generate_subshare(2).unwrap();
    let sealed_s = seal_subshare::<Point>(
        &x25519_secret_from_seed(&SEED_3),
        &r,
        ROUND,
        &sub_s,
        stranger.commitment(),
    )
    .unwrap();
    let mut thin = DkgState::<Point>::new(epoch, t, 1);
    thin.submit_commitment(evil_b.round1_package(epoch, &mut rng))
        .unwrap();
    assert_eq!(
        open_subshare_agreed::<Point>(
            &x25519_secret_from_seed(&SEED_2),
            2,
            &r,
            ROUND,
            &sealed_s,
            &thin.agreed_round1().unwrap(),
        )
        .err().unwrap(),
        Error::UnexpectedDealer(3)
    );
}

/// Recipient binding: it is the responder's static key, so no other
/// participant opens it, even where it is broadcast to all.
#[test]
fn the_wrong_recipient_cannot_open_it() {
    let mut rng = OsRng;
    let r = roster(SESSION);
    let dealer: Dealer<Point> = Dealer::new(1, 2, &mut rng).expect("index is 1-indexed by construction");
    let sealed = seal_subshare::<Point>(
        &x25519_secret_from_seed(&SEED_1),
        &r,
        ROUND,
        &dealer.generate_subshare(2).expect("index is 1-indexed by construction"),
        dealer.commitment(),
    )
    .unwrap();

    // participant 3 receives the broadcast and tries its own key
    assert_eq!(
        open_subshare::<Point>(
            &x25519_secret_from_seed(&SEED_3),
            3,
            &r,
            ROUND,
            &sealed,
            dealer.commitment(),
        )
        .err().unwrap(),
        Error::SealedOpenFailed(1)
    );
    // ... and relabelling the envelope does not help
    let mut relabelled = sealed.clone();
    relabelled.recipient_index = 3;
    assert_eq!(
        open_subshare::<Point>(
            &x25519_secret_from_seed(&SEED_3),
            3,
            &r,
            ROUND,
            &relabelled,
            dealer.commitment(),
        )
        .err().unwrap(),
        Error::SealedOpenFailed(1)
    );
}

/// Sender binding: the `ss` mix puts the sender's static key in the
/// key schedule, so a package cannot be reattributed — a MITM cannot
/// re-sign someone else's sub-share as its own, and cannot manufacture one
/// under a dealer index it does not hold the key for.
#[test]
fn a_package_cannot_be_reattributed_to_another_sender() {
    let mut rng = OsRng;
    let r = roster(SESSION);
    let dealer1: Dealer<Point> = Dealer::new(1, 2, &mut rng).expect("index is 1-indexed by construction");
    let dealer3: Dealer<Point> = Dealer::new(3, 2, &mut rng).expect("index is 1-indexed by construction");

    let sealed = seal_subshare::<Point>(
        &x25519_secret_from_seed(&SEED_1),
        &r,
        ROUND,
        &dealer1.generate_subshare(2).expect("index is 1-indexed by construction"),
        dealer1.commitment(),
    )
    .unwrap();

    // Mallory claims dealer 3 sent it.
    let mut claimed = sealed.clone();
    claimed.dealer_index = 3;
    assert_eq!(
        open_subshare::<Point>(
            &x25519_secret_from_seed(&SEED_2),
            2,
            &r,
            ROUND,
            &claimed,
            dealer3.commitment(),
        )
        .err().unwrap(),
        Error::SealedOpenFailed(3)
    );

    // And a dealer that does not hold participant 3's static secret
    // cannot produce a package that opens as dealer 3 either.
    let forged = seal_subshare::<Point>(
        &x25519_secret_from_seed(&[42u8; 32]),
        &r,
        ROUND,
        &dealer3.generate_subshare(2).expect("index is 1-indexed by construction"),
        dealer3.commitment(),
    )
    .unwrap();
    assert_eq!(
        open_subshare::<Point>(
            &x25519_secret_from_seed(&SEED_2),
            2,
            &r,
            ROUND,
            &forged,
            dealer3.commitment(),
        )
        .err().unwrap(),
        Error::SealedOpenFailed(3)
    );
}

/// the swapped pair: verifying a sub-share against a commitment the
/// attacker also chose proves nothing, so the sealed plaintext carries a
/// digest of the dealer's commitment and the two are checked together.
#[test]
fn a_commitment_and_subshare_from_different_dealings_do_not_pair() {
    let mut rng = OsRng;
    let r = roster(SESSION);
    let dealer: Dealer<Point> = Dealer::new(1, 2, &mut rng).expect("index is 1-indexed by construction");
    // the same dealer index, a different polynomial
    let other: Dealer<Point> = Dealer::new(1, 2, &mut rng).expect("index is 1-indexed by construction");

    let sealed = seal_subshare::<Point>(
        &x25519_secret_from_seed(&SEED_1),
        &r,
        ROUND,
        &dealer.generate_subshare(2).expect("index is 1-indexed by construction"),
        dealer.commitment(),
    )
    .unwrap();

    assert_eq!(
        open_subshare::<Point>(
            &x25519_secret_from_seed(&SEED_2),
            2,
            &r,
            ROUND,
            &sealed,
            other.commitment(),
        )
        .err().unwrap(),
        Error::InvalidSubShare(1),
        "a sub-share must not verify against a commitment it did not travel with"
    );

    // sealing a mismatched pair is refused at the source too
    assert_eq!(
        seal_subshare::<Point>(
            &x25519_secret_from_seed(&SEED_1),
            &r,
            ROUND,
            &dealer.generate_subshare(2).expect("index is 1-indexed by construction"),
            Dealer::<Point>::new(2, 2, &mut rng).unwrap().commitment(),
        )
        .err().unwrap(),
        Error::InvalidIndex
    );
}

/// Ceremony binding, via the prologue: a package from another session, or
/// another round, or a ceremony with a different participant set, does not
/// open.
#[test]
fn a_package_from_another_ceremony_does_not_open() {
    let mut rng = OsRng;
    let r = roster(SESSION);
    let dealer: Dealer<Point> = Dealer::new(1, 2, &mut rng).expect("index is 1-indexed by construction");
    let sealed = seal_subshare::<Point>(
        &x25519_secret_from_seed(&SEED_1),
        &r,
        ROUND,
        &dealer.generate_subshare(2).expect("index is 1-indexed by construction"),
        dealer.commitment(),
    )
    .unwrap();

    let sk2 = x25519_secret_from_seed(&SEED_2);

    // another session id
    let other_session = roster([0x44u8; 32]);
    assert_eq!(
        open_subshare::<Point>(&sk2, 2, &other_session, ROUND, &sealed, dealer.commitment())
            .err().unwrap(),
        Error::SealedOpenFailed(1)
    );

    // another round of the same ceremony
    assert_eq!(
        open_subshare::<Point>(&sk2, 2, &r, ROUND + 1, &sealed, dealer.commitment())
            .err().unwrap(),
        Error::SealedOpenFailed(1)
    );

    // a ceremony with a different participant set
    let smaller = SealedRoster::new(
        &[
            (1, x25519_public_from_seed(&SEED_1)),
            (2, x25519_public_from_seed(&SEED_2)),
        ],
        SESSION,
    )
    .unwrap();
    assert_eq!(
        open_subshare::<Point>(&sk2, 2, &smaller, ROUND, &sealed, dealer.commitment())
            .err().unwrap(),
        Error::SealedOpenFailed(1)
    );
}

#[test]
fn tampering_is_detected() {
    let mut rng = OsRng;
    let r = roster(SESSION);
    let dealer: Dealer<Point> = Dealer::new(1, 2, &mut rng).expect("index is 1-indexed by construction");
    let mut sealed = seal_subshare::<Point>(
        &x25519_secret_from_seed(&SEED_1),
        &r,
        ROUND,
        &dealer.generate_subshare(2).expect("index is 1-indexed by construction"),
        dealer.commitment(),
    )
    .unwrap();
    let last = sealed.ciphertext.len() - 1;
    sealed.ciphertext[last] ^= 1;
    assert_eq!(
        open_subshare::<Point>(
            &x25519_secret_from_seed(&SEED_2),
            2,
            &r,
            ROUND,
            &sealed,
            dealer.commitment(),
        )
        .err().unwrap(),
        Error::SealedOpenFailed(1)
    );
}

/// Noise_K mixes a fresh ephemeral, so two seals of the same sub-share
/// differ — otherwise the ceremony leaks which dealers sent equal packages.
#[test]
fn each_package_is_fresh() {
    let mut rng = OsRng;
    let r = roster(SESSION);
    let dealer: Dealer<Point> = Dealer::new(1, 2, &mut rng).expect("index is 1-indexed by construction");
    let sub = dealer.generate_subshare(2).expect("index is 1-indexed by construction");
    let sk = x25519_secret_from_seed(&SEED_1);
    let one = seal_subshare::<Point>(&sk, &r, ROUND, &sub, dealer.commitment()).unwrap();
    let two = seal_subshare::<Point>(&sk, &r, ROUND, &sub, dealer.commitment()).unwrap();
    assert_ne!(one.ciphertext, two.ciphertext);
}

/// The whole round 2, sealed: every dealer seals to every participant and
/// each participant aggregates only what opens under its own key.
#[test]
fn a_sealed_round2_completes_the_dkg() {
    let mut rng = OsRng;
    let n = 3u32;
    let t = 2u32;
    let seeds = [SEED_1, SEED_2, SEED_3];
    let r = roster(SESSION);

    let dealers: Vec<Dealer<Point>> = (1..=n).map(|i| Dealer::new(i, t, &mut rng).expect("index is 1-indexed by construction")).collect();
    let wire: Vec<Vec<SealedSubShare>> = dealers
        .iter()
        .enumerate()
        .map(|(i, d)| {
            seal_round2::<Point>(d, &x25519_secret_from_seed(&seeds[i]), &r, ROUND).unwrap()
        })
        .collect();

    let mut shares = Vec::new();
    for j in 1..=n {
        let sk = x25519_secret_from_seed(&seeds[(j - 1) as usize]);
        let mut agg: frostito::dkg::Aggregator<Point> =
            frostito::dkg::Aggregator::all_dealers(j, n).unwrap();
        for (i, packages) in wire.iter().enumerate() {
            // Every package is on the wire; only one opens.
            let mut opened = 0;
            for pkg in packages {
                if pkg.recipient_index != j {
                    continue;
                }
                let sub = open_subshare::<Point>(
                    &sk,
                    j,
                    &r,
                    ROUND,
                    pkg,
                    dealers[i].commitment(),
                )
                .unwrap();
                agg.add_subshare(sub, dealers[i].commitment()).unwrap();
                opened += 1;
            }
            assert_eq!(opened, 1);
        }
        shares.push(agg.finalize().unwrap());
    }

    // the shares interpolate to the group key the commitments predict
    let group_key = {
        let mut k = <Point as CurvePoint>::identity();
        for d in &dealers {
            k = k.add(d.commitment().share_commitment());
        }
        k
    };
    let lag = frostito::compute_lagrange_coefficients::<
    <Point as CurvePoint>::Scalar,
    >(&[1, 2, 3])
        .unwrap();
    let mut secret = <<Point as CurvePoint>::Scalar as CurveScalar>::zero();
    for (i, s) in shares.iter().enumerate() {
        secret = secret.add(&lag[i].mul(s));
    }
    assert_eq!(<Point as CurvePoint>::generator().mul_scalar(&secret), group_key);
}

/// A package whose dealer the roster does not name is refused unopened, and one that
/// is opened against another commitment of its dealer is bad.
#[test]
fn an_unknown_dealer_and_a_replaced_commitment_are_refused() {
    let mut rng = OsRng;
    let dealing: Dealer<Point> = Dealer::new(1, 2, &mut rng).unwrap();
    let other: Dealer<Point> = Dealer::new(1, 2, &mut rng).unwrap();
    let roster = roster(SESSION);
    let (sender, recipient) = (x25519_secret_from_seed(&SEED_1), x25519_secret_from_seed(&SEED_2));
    let sub = dealing.generate_subshare(2).ok().unwrap();
    let mut package =
        seal_subshare::<Point>(&sender, &roster, ROUND, &sub, dealing.commitment()).unwrap();
    let open = |p: &SealedSubShare, d: &Dealer<Point>| {
        open_subshare::<Point>(&recipient, 2, &roster, ROUND, p, d.commitment()).map(|s| *s.value())
    };
    assert_eq!(open(&package, &dealing), Ok(*sub.value()));
    assert_eq!(open(&package, &other), Err(Error::InvalidSubShare(1)));
    package.dealer_index = 9;
    assert_eq!(open(&package, &dealing), Err(Error::UnknownParticipant(9)));
}
